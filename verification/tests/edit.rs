//! Editing, in place and while copying.
#![allow(dead_code)]

use emjson::edit::{
    apply_copy, copy_edit, plan, plan_remove, CapacityError, Editor, MemStorage, Op, Storage,
};
use emjson::io::{ReadSource, Write};
use emjson::{encoded_len, Error, Parser, RawJson, SliceSource, Span};
use serde_json::Value;
use std::convert::Infallible;

/// Small deterministic PRNG (xorshift64*).
struct Rng(u64);

impl Rng {
    fn new(seed: u64) -> Self {
        Rng(seed.wrapping_mul(0x9E3779B97F4A7C15) | 1)
    }
    fn next(&mut self) -> u64 {
        self.0 ^= self.0 >> 12;
        self.0 ^= self.0 << 25;
        self.0 ^= self.0 >> 27;
        self.0.wrapping_mul(0x2545F4914F6CDD1D)
    }
    fn below(&mut self, n: usize) -> usize {
        (self.next() % n as u64) as usize
    }
    fn chance(&mut self, pct: usize) -> bool {
        self.below(100) < pct
    }
    fn pick<'a, T>(&mut self, items: &'a [T]) -> &'a T {
        &items[self.below(items.len())]
    }
}

/// Random JSON text generator (valid documents), with random whitespace, escapes and
/// number formats.
struct Gen<'r> {
    rng: &'r mut Rng,
    out: String,
    max_depth: usize,
    /// Probability (percent) of emitting whitespace at each opportunity.
    ws: usize,
    /// Use distinct keys in each object (so that seek results are unambiguous).
    unique_keys: bool,
}

const WORDS: &[&str] =
    &["a", "b", "foo", "bar", "baz", "key", "x", "value", "list", "n", "é", "日本", "~", "/", "a/b", "~1"];

impl<'r> Gen<'r> {
    fn new(rng: &'r mut Rng) -> Self {
        Gen { rng, out: String::new(), max_depth: 5, ws: 20, unique_keys: true }
    }

    fn ws(&mut self) {
        while self.rng.chance(self.ws) {
            let c = *self.rng.pick(&[' ', '\n', '\t', '\r', ' ', ' ']);
            self.out.push(c);
        }
    }

    fn doc(mut self) -> String {
        self.ws();
        self.value(0);
        self.ws();
        self.out
    }

    fn value(&mut self, depth: usize) {
        let kinds = if depth >= self.max_depth { 4 } else { 6 };
        match self.rng.below(kinds) {
            0 => self.number(),
            1 => {
                let s = self.random_string();
                self.string(&s)
            }
            2 => {
                let lit = *self.rng.pick::<&str>(&["true", "false"]);
                self.out.push_str(lit)
            }
            3 => self.out.push_str("null"),
            4 => {
                self.out.push('[');
                let n = self.rng.below(5);
                for i in 0..n {
                    if i > 0 {
                        self.ws();
                        self.out.push(',');
                    }
                    self.ws();
                    self.value(depth + 1);
                }
                self.ws();
                self.out.push(']');
            }
            _ => {
                self.out.push('{');
                let n = self.rng.below(5);
                let mut used: Vec<String> = Vec::new();
                for i in 0..n {
                    let mut key = self.random_key();
                    if self.unique_keys {
                        while used.contains(&key) {
                            key.push('_');
                        }
                        used.push(key.clone());
                    }
                    if i > 0 {
                        self.ws();
                        self.out.push(',');
                    }
                    self.ws();
                    self.string(&key);
                    self.ws();
                    self.out.push(':');
                    self.ws();
                    self.value(depth + 1);
                }
                self.ws();
                self.out.push('}');
            }
        }
    }

    fn random_key(&mut self) -> String {
        if self.rng.chance(70) { String::from(*self.rng.pick(WORDS)) } else { self.random_string() }
    }

    fn random_string(&mut self) -> String {
        let max = if self.rng.chance(10) { 200 } else { 12 };
        let n = self.rng.below(max);
        let mut s = String::new();
        for _ in 0..n {
            let c = match self.rng.below(10) {
                0 => char::from_u32(self.rng.below(0x20) as u32).unwrap(),
                1 => *self.rng.pick(&['"', '\\', '/', '~']),
                2 => *self.rng.pick(&['é', 'ß', '€', '日', '😀', '\u{10FFFF}', '\u{7FF}', '\u{800}', '\u{FFFD}']),
                3 => char::from_u32(0x80 + self.rng.below(0x700) as u32).unwrap(),
                _ => (b'a' + self.rng.below(26) as u8) as char,
            };
            s.push(c);
        }
        s
    }

    /// Writes `s` as a JSON string, with random choice of escapes.
    fn string(&mut self, s: &str) {
        self.out.push('"');
        for c in s.chars() {
            match c {
                '"' => self.out.push_str("\\\""),
                '\\' => self.out.push_str("\\\\"),
                '\n' if self.rng.chance(50) => self.out.push_str("\\n"),
                '\t' if self.rng.chance(50) => self.out.push_str("\\t"),
                '/' if self.rng.chance(50) => self.out.push_str("\\/"),
                c if (c as u32) < 0x20 || self.rng.chance(10) => {
                    let mut units = [0u16; 2];
                    for u in c.encode_utf16(&mut units) {
                        if self.rng.chance(50) {
                            self.out.push_str(&format!("\\u{:04x}", u));
                        } else {
                            self.out.push_str(&format!("\\u{:04X}", u));
                        }
                    }
                }
                c => self.out.push(c),
            }
        }
        self.out.push('"');
    }

    fn number(&mut self) {
        let mut s = String::new();
        if self.rng.chance(30) {
            s.push('-');
        }
        if self.rng.chance(20) {
            s.push('0');
        } else {
            s.push((b'1' + self.rng.below(9) as u8) as char);
            let max = if self.rng.chance(10) { 25 } else { 5 };
            for _ in 0..self.rng.below(max) {
                s.push((b'0' + self.rng.below(10) as u8) as char);
            }
        }
        if self.rng.chance(30) {
            s.push('.');
            for _ in 0..1 + self.rng.below(6) {
                s.push((b'0' + self.rng.below(10) as u8) as char);
            }
        }
        if self.rng.chance(20) {
            s.push(*self.rng.pick(&['e', 'E']));
            if self.rng.chance(50) {
                s.push(*self.rng.pick(&['+', '-']));
            }
            for _ in 0..1 + self.rng.below(2) {
                s.push((b'0' + self.rng.below(10) as u8) as char);
            }
        }
        self.out.push_str(&s);
    }
}

fn random_doc(seed: u64) -> String {
    let mut rng = Rng::new(seed);
    Gen::new(&mut rng).doc()
}


struct VecWriter(Vec<u8>);

impl Write for VecWriter {
    type Error = Infallible;
    fn write_all(&mut self, data: &[u8]) -> Result<(), Infallible> {
        self.0.extend_from_slice(data);
        Ok(())
    }
    fn bounds(&self) {}
}

/// Storage using the default (chunked) `move_within`, like flash or a file would.
struct VecStorage(Vec<u8>);

impl Storage for VecStorage {
    type Error = Infallible;
    fn len(&mut self) -> Result<u64, Infallible> {
        Ok(self.0.len() as u64)
    }
    fn read_at(&mut self, offset: u64, buf: &mut [u8]) -> Result<(), Infallible> {
        let o = offset as usize;
        buf.copy_from_slice(&self.0[o..o + buf.len()]);
        Ok(())
    }
    fn write_at(&mut self, offset: u64, data: &[u8]) -> Result<(), Infallible> {
        let o = offset as usize;
        assert!(o + data.len() <= self.0.len(), "write outside the document");
        self.0[o..o + data.len()].copy_from_slice(data);
        Ok(())
    }
    fn set_len(&mut self, len: u64) -> Result<(), Infallible> {
        self.0.resize(len as usize, 0xAA);
        Ok(())
    }
    fn bounds(&self) {}
}

/// All paths of a value as (pointer, parent pointer, last segment, is_index).
fn paths(v: &Value, ptr: &str, out: &mut Vec<(String, String, String, bool)>) {
    match v {
        Value::Array(a) => {
            for (i, x) in a.iter().enumerate() {
                let p = format!("{ptr}/{i}");
                out.push((p.clone(), ptr.to_string(), i.to_string(), true));
                paths(x, &p, out);
            }
        }
        Value::Object(m) => {
            for (k, x) in m {
                let p = format!("{ptr}/{}", k.replace('~', "~0").replace('/', "~1"));
                out.push((p.clone(), ptr.to_string(), k.clone(), false));
                paths(x, &p, out);
            }
        }
        _ => {}
    }
}

/// Applies `op` with the in-place editor (two storage kinds, various scratch sizes), the
/// single-pass copy and the two-pass copy; checks they agree and returns the result.
fn edit_all_ways(doc: &str, op: Option<Op>, path: &str, new: &str, scratch_size: usize) -> Option<Vec<u8>> {
    let value = RawJson(new);
    // In place, MemStorage.
    let mut buf = vec![0u8; doc.len() + new.len() + 64];
    buf[..doc.len()].copy_from_slice(doc.as_bytes());
    let mut scratch = vec![0u8; scratch_size];
    let mut ed = Editor::new(MemStorage::new(&mut buf, doc.len()), &mut scratch);
    let applied = match op {
        Some(op) => ed.edit(op, path, &value).unwrap(),
        None => ed.remove(path).unwrap(),
    };
    let result = ed.storage().as_bytes().to_vec();
    if !applied {
        assert_eq!(result, doc.as_bytes());
    }

    // In place, chunked moves.
    let mut scratch = vec![0u8; scratch_size];
    let mut ed = Editor::new(VecStorage(doc.as_bytes().to_vec()), &mut scratch);
    let applied2 = match op {
        Some(op) => ed.edit(op, path, &value).unwrap(),
        None => ed.remove(path).unwrap(),
    };
    assert_eq!(applied, applied2);
    assert_eq!(ed.into_inner().0, result, "chunked storage differs for {op:?} {path}");

    // Two passes: plan on one source, copy from another.
    let mut p = Parser::from_slice(doc.as_bytes());
    let patch = match op {
        Some(op) => plan(&mut p, op, path).unwrap(),
        None => plan_remove(&mut p, path).unwrap(),
    };
    assert_eq!(patch.is_some(), applied);
    if let Some(patch) = patch {
        let mut out = VecWriter(Vec::new());
        apply_copy(SliceSource::new(doc.as_bytes()), &mut out, &patch, &value).unwrap();
        assert_eq!(out.0, result, "apply_copy differs for {op:?} {path}");
        assert_eq!(result.len() as i64 - doc.len() as i64, patch.delta(&value));
    }

    // Single pass through a tiny buffer.
    if let Some(op) = op {
        let mut rbuf = [0u8; 3];
        let mut out = VecWriter(Vec::new());
        let found = copy_edit(ReadSource::new(doc.as_bytes(), &mut rbuf), &mut out, op, path, &value).unwrap().0;
        assert_eq!(found, applied);
        assert_eq!(out.0, result, "copy_edit differs for {op:?} {path}");
    }
    applied.then_some(result)
}

fn parse(bytes: &[u8]) -> Value {
    serde_json::from_slice(bytes).unwrap_or_else(|e| panic!("invalid result {e}: {}", String::from_utf8_lossy(bytes)))
}

#[test]
fn random_edits() {
    let mut rng = Rng::new(5);
    let mut counts = [0usize; 5];
    for seed in 0..1200u64 {
        let doc = random_doc(seed);
        let value: Value = serde_json::from_str(&doc).unwrap();
        let new_doc = random_doc(seed + 100_000);
        let new = new_doc.trim_matches([' ', '\n', '\t', '\r']);
        let new_value: Value = serde_json::from_str(new).unwrap();
        let mut all = Vec::new();
        paths(&value, "", &mut all);
        let scratch = *rng.pick(&[1usize, 2, 5, 64]);

        // Replace the root.
        let out = edit_all_ways(&doc, Some(Op::Replace), "", new, scratch).unwrap();
        assert_eq!(parse(&out), new_value);

        for (ptr, parent, last, is_index) in all.iter().take(12) {
            // Replace.
            let out = edit_all_ways(&doc, Some(Op::Replace), ptr, new, scratch).unwrap();
            let mut expected = value.clone();
            *expected.pointer_mut(ptr).unwrap() = new_value.clone();
            assert_eq!(parse(&out), expected, "replace {ptr}\n{doc}");
            counts[0] += 1;

            // Set on an existing path is a replace.
            let out = edit_all_ways(&doc, Some(Op::Put), ptr, new, scratch).unwrap();
            assert_eq!(parse(&out), expected);

            // Remove.
            let out = edit_all_ways(&doc, None, ptr, "", scratch).unwrap();
            let mut expected = value.clone();
            match expected.pointer_mut(parent).unwrap() {
                Value::Array(a) => {
                    a.remove(last.parse::<usize>().unwrap());
                }
                Value::Object(m) => {
                    m.remove(last);
                }
                _ => unreachable!(),
            }
            assert!(!is_index || expected.pointer(parent).unwrap().is_array());
            assert_eq!(parse(&out), expected, "remove {ptr}\n{doc}");
            counts[1] += 1;
        }

        // Create members / elements in every container.
        let mut containers = vec![String::new()];
        containers.extend(all.iter().map(|(p, ..)| p.clone()));
        for ptr in containers.iter().take(8) {
            let target = value.pointer(ptr).unwrap();
            match target {
                Value::Object(m) => {
                    let key = "new~/key";
                    let new_ptr = format!("{ptr}/new~0~1key");
                    let out = edit_all_ways(&doc, Some(Op::Put), &new_ptr, new, scratch).unwrap();
                    let mut expected = value.clone();
                    expected.pointer_mut(ptr).unwrap().as_object_mut().unwrap().insert(key.into(), new_value.clone());
                    assert_eq!(parse(&out), expected, "set {new_ptr}\n{doc}");
                    assert!(!m.contains_key(key));
                    // Push only works on arrays.
                    assert!(edit_all_ways(&doc, Some(Op::Push), ptr, new, scratch).is_none());
                    counts[2] += 1;
                }
                Value::Array(a) => {
                    // Push, and set/insert at the end ("-" or the length).
                    let mut expected = value.clone();
                    expected.pointer_mut(ptr).unwrap().as_array_mut().unwrap().push(new_value.clone());
                    let pushed = edit_all_ways(&doc, Some(Op::Push), ptr, new, scratch).unwrap();
                    assert_eq!(parse(&pushed), expected, "push {ptr}\n{doc}");
                    for last in [String::from("-"), a.len().to_string()] {
                        for op in [Op::Put, Op::Insert] {
                            let out = edit_all_ways(&doc, Some(op), &format!("{ptr}/{last}"), new, scratch).unwrap();
                            assert_eq!(out, pushed);
                        }
                    }
                    // Out of range.
                    let beyond = format!("{ptr}/{}", a.len() + 1);
                    assert!(edit_all_ways(&doc, Some(Op::Put), &beyond, new, scratch).is_none());
                    // Insert before each element.
                    for i in 0..a.len() {
                        let out = edit_all_ways(&doc, Some(Op::Insert), &format!("{ptr}/{i}"), new, scratch).unwrap();
                        let mut expected = value.clone();
                        expected.pointer_mut(ptr).unwrap().as_array_mut().unwrap().insert(i, new_value.clone());
                        assert_eq!(parse(&out), expected, "insert {ptr}/{i}\n{doc}");
                        counts[3] += 1;
                    }
                }
                _ => {
                    // Not a container: nothing can be created below it.
                    assert!(edit_all_ways(&doc, Some(Op::Put), &format!("{ptr}/x"), new, scratch).is_none());
                    counts[4] += 1;
                }
            }
        }
        // Missing paths.
        if value.pointer("/zz/top").is_none() {
            assert!(edit_all_ways(&doc, Some(Op::Replace), "/zz/top", new, scratch).is_none());
            assert!(edit_all_ways(&doc, Some(Op::Put), "/zz/top", new, scratch).is_none());
            assert!(edit_all_ways(&doc, None, "/zz/top", "", scratch).is_none());
        }
        assert!(edit_all_ways(&doc, None, "", "", scratch).is_none(), "the root cannot be removed");
    }
    assert!(counts.iter().all(|&c| c > 300), "{counts:?}");
}

#[test]
fn readme_flow() {
    // Locate, measure, move, overwrite: the manual version of Editor::replace.
    let doc = br#"{"config": {"name": "old", "items": [1, 2, 3]}, "tail": "unchanged"}"#;
    let mut buf = [0u8; 128];
    buf[..doc.len()].copy_from_slice(doc);
    let mut scratch = [0u8; 16];
    let mut ed = Editor::new(MemStorage::new(&mut buf, doc.len()), &mut scratch);

    let span = ed.locate("/config/name").unwrap().unwrap();
    assert_eq!(span, Span { start: 20, end: 25 });
    assert_eq!(encoded_len("a much longer name"), 20);
    let new_span = ed.splice(span, "a much longer name").unwrap();
    assert_eq!(new_span, Span { start: 20, end: 40 });
    assert_eq!(
        ed.storage().as_bytes(),
        br#"{"config": {"name": "a much longer name", "items": [1, 2, 3]}, "tail": "unchanged"}"#
    );
    assert!(ed.replace("/config/items", &[9u8; 0]).unwrap());
    assert!(ed.remove("/tail").unwrap());
    assert!(ed.set("/config/count", &0).unwrap());
    assert_eq!(ed.storage().as_bytes(), br#"{"config": {"name": "a much longer name", "items": [],"count":0}}"#);
    assert!(!ed.replace("/nope", &1).unwrap());
    assert!(!ed.remove("/config/nope").unwrap());
}

#[test]
fn removal_keeps_formatting() {
    let doc = "{\n  \"a\": 1,\n  \"b\": 2,\n  \"c\": 3\n}";
    let run = |path: &str| {
        let mut buf = doc.as_bytes().to_vec();
        let mut scratch = [0u8; 4];
        let mut ed = Editor::new(MemStorage::new(&mut buf, doc.len()), &mut scratch);
        assert!(ed.remove(path).unwrap());
        String::from_utf8(ed.storage().as_bytes().to_vec()).unwrap()
    };
    assert_eq!(run("/a"), "{\n  \"b\": 2,\n  \"c\": 3\n}");
    assert_eq!(run("/b"), "{\n  \"a\": 1,\n  \"c\": 3\n}");
    assert_eq!(run("/c"), "{\n  \"a\": 1,\n  \"b\": 2\n}");
    let doc = "[ 1 ]";
    let mut buf = doc.as_bytes().to_vec();
    let mut scratch = [0u8; 4];
    let mut ed = Editor::new(MemStorage::new(&mut buf, doc.len()), &mut scratch);
    assert!(ed.remove("/0").unwrap());
    assert_eq!(ed.storage().as_bytes(), b"[  ]");
}

#[test]
fn capacity_error_leaves_document_intact() {
    let doc = br#"{"a": "short"}"#;
    let mut buf = *doc;
    let mut scratch = [0u8; 8];
    let mut ed = Editor::new(MemStorage::new(&mut buf, doc.len()), &mut scratch);
    let err = ed.replace("/a", "much longer value").unwrap_err();
    assert_eq!(err, Error::Io(CapacityError));
    assert_eq!(ed.storage().as_bytes(), doc);
    // Shrinking works without spare room.
    assert!(ed.replace("/a", "s").unwrap());
    assert_eq!(ed.storage().as_bytes(), br#"{"a": "s"}"#);
}

#[test]
fn copy_edit_not_found_is_identity() {
    let doc = br#"{"a": [1, 2, {"b": null}]}"#;
    let mut rbuf = [0u8; 2];
    let mut out = VecWriter(Vec::new());
    assert!(!copy_edit(ReadSource::new(&doc[..], &mut rbuf), &mut out, Op::Replace, "/a/5", &1).unwrap().0);
    assert_eq!(out.0, doc);
}

#[test]
fn stream_edit_errors_on_invalid_json() {
    let doc = br#"{"a": [1, 2,, 3], "b": 1}"#;
    let mut out = VecWriter(Vec::new());
    assert!(copy_edit(SliceSource::new(doc), &mut out, Op::Replace, "/b", &2).is_err());
}

#[test]
fn deep_documents_use_wider_stacks() {
    let depth = 100;
    let doc = "[".repeat(depth) + "0" + &"]".repeat(depth);
    let path = "/0".repeat(depth);
    let mut buf = doc.clone().into_bytes();
    buf.resize(doc.len() + 8, 0);
    let mut scratch = [0u8; 8];
    let mut ed = Editor::new(MemStorage::new(&mut buf, doc.len()), &mut scratch);
    assert!(ed.replace(path.as_str(), &1).is_err()); // 64 levels by default
    let mut ed = Editor::<_, 16>::with_stack(MemStorage::new(&mut buf, doc.len()), &mut scratch);
    assert!(ed.replace(path.as_str(), &12345).unwrap());
    assert_eq!(ed.storage().as_bytes(), ("[".repeat(depth) + "12345" + &"]".repeat(depth)).as_bytes());
}
