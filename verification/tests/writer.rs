//! The writer.
#![allow(dead_code)]

use emjson::io::{ReadSource, SliceWriter, Write};
use emjson::writer::Object;
use emjson::{copy_value, encoded_len, to_slice, Flow, JsonWriter, Parser, RawJson, ToJson, Token};
use serde_json::Value;
use std::convert::Infallible;

/// Small deterministic PRNG (xorshift64*).
struct Rng(u64);

impl Rng {
    fn new(seed: u64) -> Self {
        Rng(seed.wrapping_mul(0x9E3779B97F4A7C15) | 1)
    }
    fn next(&mut self) -> u64 {
        self.0 ^= self.0 >> 12;
        self.0 ^= self.0 << 25;
        self.0 ^= self.0 >> 27;
        self.0.wrapping_mul(0x2545F4914F6CDD1D)
    }
    fn below(&mut self, n: usize) -> usize {
        (self.next() % n as u64) as usize
    }
    fn chance(&mut self, pct: usize) -> bool {
        self.below(100) < pct
    }
    fn pick<'a, T>(&mut self, items: &'a [T]) -> &'a T {
        &items[self.below(items.len())]
    }
}

/// Random JSON text generator (valid documents), with random whitespace, escapes and
/// number formats.
struct Gen<'r> {
    rng: &'r mut Rng,
    out: String,
    max_depth: usize,
    /// Probability (percent) of emitting whitespace at each opportunity.
    ws: usize,
    /// Use distinct keys in each object (so that seek results are unambiguous).
    unique_keys: bool,
}

const WORDS: &[&str] =
    &["a", "b", "foo", "bar", "baz", "key", "x", "value", "list", "n", "é", "日本", "~", "/", "a/b", "~1"];

impl<'r> Gen<'r> {
    fn new(rng: &'r mut Rng) -> Self {
        Gen { rng, out: String::new(), max_depth: 5, ws: 20, unique_keys: true }
    }

    fn ws(&mut self) {
        while self.rng.chance(self.ws) {
            let c = *self.rng.pick(&[' ', '\n', '\t', '\r', ' ', ' ']);
            self.out.push(c);
        }
    }

    fn doc(mut self) -> String {
        self.ws();
        self.value(0);
        self.ws();
        self.out
    }

    fn value(&mut self, depth: usize) {
        let kinds = if depth >= self.max_depth { 4 } else { 6 };
        match self.rng.below(kinds) {
            0 => self.number(),
            1 => {
                let s = self.random_string();
                self.string(&s)
            }
            2 => {
                let lit = *self.rng.pick::<&str>(&["true", "false"]);
                self.out.push_str(lit)
            }
            3 => self.out.push_str("null"),
            4 => {
                self.out.push('[');
                let n = self.rng.below(5);
                for i in 0..n {
                    if i > 0 {
                        self.ws();
                        self.out.push(',');
                    }
                    self.ws();
                    self.value(depth + 1);
                }
                self.ws();
                self.out.push(']');
            }
            _ => {
                self.out.push('{');
                let n = self.rng.below(5);
                let mut used: Vec<String> = Vec::new();
                for i in 0..n {
                    let mut key = self.random_key();
                    if self.unique_keys {
                        while used.contains(&key) {
                            key.push('_');
                        }
                        used.push(key.clone());
                    }
                    if i > 0 {
                        self.ws();
                        self.out.push(',');
                    }
                    self.ws();
                    self.string(&key);
                    self.ws();
                    self.out.push(':');
                    self.ws();
                    self.value(depth + 1);
                }
                self.ws();
                self.out.push('}');
            }
        }
    }

    fn random_key(&mut self) -> String {
        if self.rng.chance(70) { String::from(*self.rng.pick(WORDS)) } else { self.random_string() }
    }

    fn random_string(&mut self) -> String {
        let max = if self.rng.chance(10) { 200 } else { 12 };
        let n = self.rng.below(max);
        let mut s = String::new();
        for _ in 0..n {
            let c = match self.rng.below(10) {
                0 => char::from_u32(self.rng.below(0x20) as u32).unwrap(),
                1 => *self.rng.pick(&['"', '\\', '/', '~']),
                2 => *self.rng.pick(&['é', 'ß', '€', '日', '😀', '\u{10FFFF}', '\u{7FF}', '\u{800}', '\u{FFFD}']),
                3 => char::from_u32(0x80 + self.rng.below(0x700) as u32).unwrap(),
                _ => (b'a' + self.rng.below(26) as u8) as char,
            };
            s.push(c);
        }
        s
    }

    /// Writes `s` as a JSON string, with random choice of escapes.
    fn string(&mut self, s: &str) {
        self.out.push('"');
        for c in s.chars() {
            match c {
                '"' => self.out.push_str("\\\""),
                '\\' => self.out.push_str("\\\\"),
                '\n' if self.rng.chance(50) => self.out.push_str("\\n"),
                '\t' if self.rng.chance(50) => self.out.push_str("\\t"),
                '/' if self.rng.chance(50) => self.out.push_str("\\/"),
                c if (c as u32) < 0x20 || self.rng.chance(10) => {
                    let mut units = [0u16; 2];
                    for u in c.encode_utf16(&mut units) {
                        if self.rng.chance(50) {
                            self.out.push_str(&format!("\\u{:04x}", u));
                        } else {
                            self.out.push_str(&format!("\\u{:04X}", u));
                        }
                    }
                }
                c => self.out.push(c),
            }
        }
        self.out.push('"');
    }

    fn number(&mut self) {
        let mut s = String::new();
        if self.rng.chance(30) {
            s.push('-');
        }
        if self.rng.chance(20) {
            s.push('0');
        } else {
            s.push((b'1' + self.rng.below(9) as u8) as char);
            let max = if self.rng.chance(10) { 25 } else { 5 };
            for _ in 0..self.rng.below(max) {
                s.push((b'0' + self.rng.below(10) as u8) as char);
            }
        }
        if self.rng.chance(30) {
            s.push('.');
            for _ in 0..1 + self.rng.below(6) {
                s.push((b'0' + self.rng.below(10) as u8) as char);
            }
        }
        if self.rng.chance(20) {
            s.push(*self.rng.pick(&['e', 'E']));
            if self.rng.chance(50) {
                s.push(*self.rng.pick(&['+', '-']));
            }
            for _ in 0..1 + self.rng.below(2) {
                s.push((b'0' + self.rng.below(10) as u8) as char);
            }
        }
        self.out.push_str(&s);
    }
}

fn random_doc(seed: u64) -> String {
    let mut rng = Rng::new(seed);
    Gen::new(&mut rng).doc()
}


/// A float, written as the shortest text that reads back as itself, or `null` if it is not
/// finite.
struct F64(f64);

impl ToJson for F64 {
    fn to_json<W: Write>(&self, w: &mut JsonWriter<W>) -> Result<(), W::Error> {
        let v = self.0;
        if !v.is_finite() {
            return w.null();
        }
        let a = v.abs();
        let text =
            if a != 0.0 && !(1e-5..1e16).contains(&a) { format!("{v:e}") } else { format!("{v}") };
        w.raw(&text)
    }
}

struct F32(f32);

impl ToJson for F32 {
    fn to_json<W: Write>(&self, w: &mut JsonWriter<W>) -> Result<(), W::Error> {
        let v = self.0;
        if !v.is_finite() {
            return w.null();
        }
        let a = v.abs();
        let text =
            if a != 0.0 && !(1e-5..1e16).contains(&a) { format!("{v:e}") } else { format!("{v}") };
        w.raw(&text)
    }
}

/// Collects output into a Vec.
struct VecWriter(Vec<u8>);

impl Write for VecWriter {
    type Error = Infallible;
    fn write_all(&mut self, data: &[u8]) -> Result<(), Infallible> {
        self.0.extend_from_slice(data);
        Ok(())
    }
    fn bounds(&self) {}
}

fn encode<T: ToJson + ?Sized>(v: &T) -> String {
    let mut w = JsonWriter::new(VecWriter(Vec::new()));
    v.to_json(&mut w).unwrap();
    let out = String::from_utf8(w.into_inner().0).unwrap();
    assert_eq!(encoded_len(v), out.len() as u64);
    out
}

#[test]
fn strings_roundtrip() {
    let mut rng = Rng::new(1);
    for _ in 0..5000 {
        let s = Gen::new(&mut rng).random_string();
        let json = encode(s.as_str());
        assert_eq!(serde_json::from_str::<String>(&json).unwrap(), s);
        // Only necessary escapes are used: same as serde_json's output.
        assert_eq!(json, serde_json::to_string(&s).unwrap());
    }
}

#[test]
fn scalars() {
    assert_eq!(encode(&true), "true");
    assert_eq!(encode(&()), "null");
    assert_eq!(encode(&None::<u8>), "null");
    assert_eq!(encode(&Some(5u8)), "5");
    assert_eq!(encode(&'"'), r#""\"""#);
    assert_eq!(encode(&0u64), "0");
    assert_eq!(encode(&u64::MAX), "18446744073709551615");
    assert_eq!(encode(&i64::MIN), "-9223372036854775808");
    assert_eq!(encode(&i128::MIN), "-170141183460469231731687303715884105728");
    assert_eq!(encode(&u128::MAX), "340282366920938463463374607431768211455");
    assert_eq!(encode(&-7i8), "-7");
    assert_eq!(encode(&F64(1.5f64)), "1.5");
    assert_eq!(encode(&F64(-0.0f64)), "-0");
    assert_eq!(encode(&F64(1e300f64)), "1e300");
    assert_eq!(encode(&F64(1.5e-7f64)), "1.5e-7");
    assert_eq!(encode(&F64(123456.0f64)), "123456");
    assert_eq!(encode(&F64(f64::NAN)), "null");
    assert_eq!(encode(&F32(f32::INFINITY)), "null");
    assert_eq!(encode(&F32(0.1f32)), "0.1");
    assert_eq!(encode("\u{1}\u{1f}\u{7f}"), "\"\\u0001\\u001f\u{7f}\"");
    assert_eq!(encode(&[1u8, 2, 3]), "[1,2,3]");
    assert_eq!(encode(&[[0u8; 0]; 2]), "[[],[]]");
    assert_eq!(encode(&Object(&[("a", 1), ("b\"", 2)])), r#"{"a":1,"b\"":2}"#);
    assert_eq!(encode(&RawJson(r#"{"x":[1]}"#)), r#"{"x":[1]}"#);
}

#[test]
fn floats_roundtrip() {
    let mut rng = Rng::new(99);
    for i in 0..20000 {
        let v = if i % 2 == 0 { f64::from_bits(rng.next()) } else { (rng.next() as i64 as f64) / 1000.0 };
        if !v.is_finite() {
            continue;
        }
        let json = encode(&F64(v));
        let mut p = Parser::from_slice(json.as_bytes());
        let back: f64 = p.read_num().unwrap();
        assert_eq!(back.to_bits(), v.to_bits(), "{v:?} -> {json}");
        let f = f32::from_bits(rng.next() as u32);
        if f.is_finite() {
            let json = encode(&F32(f));
            let back: f32 = Parser::from_slice(json.as_bytes()).read_num().unwrap();
            assert_eq!(back.to_bits(), f.to_bits(), "{f:?} -> {json}");
        }
    }
}

#[test]
fn pretty() {
    let mut buf = [0u8; 256];
    let mut w = JsonWriter::pretty(SliceWriter::new(&mut buf), 2);
    w.begin_object().unwrap();
    w.member("a", &1).unwrap();
    w.key("b").unwrap();
    w.begin_array().unwrap();
    w.value(&true).unwrap();
    w.begin_object().unwrap();
    w.end_object().unwrap();
    w.begin_array().unwrap();
    w.end_array().unwrap();
    w.end_array().unwrap();
    w.end_object().unwrap();
    let out = std::str::from_utf8(w.get_ref().written()).unwrap();
    assert_eq!(out, "{\n  \"a\": 1,\n  \"b\": [\n    true,\n    {},\n    []\n  ]\n}");
}

#[test]
fn top_level_sequence_is_ndjson() {
    let mut buf = [0u8; 32];
    let mut w = JsonWriter::new(SliceWriter::new(&mut buf));
    w.value(&1).unwrap();
    w.value(&[2]).unwrap();
    w.string("x").unwrap();
    assert_eq!(w.get_ref().written(), b"1\n[2]\n\"x\"");
}

#[test]
fn slice_writer_overflow() {
    let mut buf = [0u8; 4];
    assert!(to_slice(&[1, 2, 3], &mut buf).is_err());
    let mut buf = [0u8; 7];
    assert_eq!(to_slice(&[1, 2, 3], &mut buf).unwrap(), "[1,2,3]");
}

#[test]
fn copy_value_minify_and_pretty() {
    for seed in 0..2000 {
        let doc = random_doc(seed);
        let expected: Value = serde_json::from_str(&doc).unwrap();
        for indent in [0u8, 1, 4] {
            let mut rbuf = [0u8; 7];
            let mut p = Parser::new(ReadSource::new(doc.as_bytes(), &mut rbuf));
            let mut w = if indent == 0 {
                JsonWriter::new(VecWriter(Vec::new()))
            } else {
                JsonWriter::pretty(VecWriter(Vec::new()), indent)
            };
            copy_value(&mut p, &mut w).unwrap();
            p.finish().unwrap();
            let out = w.into_inner().0;
            let v: Value =
                serde_json::from_slice(&out).unwrap_or_else(|e| panic!("{e}: {}", String::from_utf8_lossy(&out)));
            assert_eq!(v, expected, "seed {seed}");
            if indent == 0 {
                // Minified: equal to serde's compact output modulo key order, so compare lengths.
                assert_eq!(out.len(), serde_compact_len(&doc), "seed {seed}");
            }
        }
    }
}

/// Expected length of the minified document: serde's compact output (same string
/// escaping; key order does not matter for the length), except that copy_value keeps
/// number text as is while serde reformats numbers.
fn serde_compact_len(doc: &str) -> usize {
    let v: Value = serde_json::from_str(doc).unwrap();
    let mut len = serde_json::to_string(&v).unwrap().len() as isize;
    let mut p = Parser::from_slice(doc.as_bytes());
    let (mut path, mut buf) = ([0u8; 4096], [0u8; 128]);
    p.walk(&mut path, |node| {
        if node.token() == Token::Number {
            let text = node.read_number_str(&mut buf)?;
            let n: Value = serde_json::from_str(text).unwrap();
            len += text.len() as isize - serde_json::to_string(&n).unwrap().len() as isize;
        }
        Ok(Flow::Continue)
    })
    .unwrap();
    len as usize
}

#[test]
fn copy_value_extracts_subdocument() {
    let doc = br#"{"a": {"b": [1, {"c": "d"}]}, "e": 2}"#;
    let mut p = Parser::from_slice(doc);
    assert!(p.seek("/a/b").unwrap());
    let mut out = [0u8; 64];
    let mut w = JsonWriter::new(SliceWriter::new(&mut out));
    copy_value(&mut p, &mut w).unwrap();
    assert_eq!(w.get_ref().written(), br#"[1,{"c":"d"}]"#);
    // Still inside "a": leave it to reach its sibling.
    assert_eq!(p.depth(), 2);
    p.unwind(1).unwrap();
    assert!(p.find_key("e").unwrap());
}
