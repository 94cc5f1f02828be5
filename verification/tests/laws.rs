//! What holds of the library as a whole, on concrete values.

use emjson::edit::{
    apply, apply_copy, copy_edit, plan, plan_remove, CapacityError, Editor, MemStorage, Op, Patch,
    Storage, StorageSource,
};
use emjson::io::{
    BufferFull, Counter, PipeError, Read, ReadSource, SliceWriter, Tee, Write,
};
use emjson::writer::Object;
use emjson::{
    copy_value, encoded_len, to_slice, validate, Error, ErrorKind, Flow, JsonWriter, Parser, RawJson,
    Seg, SliceSource, Source, Span, ToJson, Token,
};
use serde_json::Value;

fn value_of(b: &[u8]) -> Value {
    serde_json::from_slice(b).unwrap()
}

fn text<'b, T: ToJson + ?Sized>(v: &T, buf: &'b mut [u8]) -> &'b str {
    to_slice(v, buf).unwrap()
}

/// Edits `doc` in place, with the room of a buffer of 256 bytes.
fn in_place(doc: &str, op: Op, path: &str, new: &RawJson<'_>) -> Option<String> {
    let mut buf = [0u8; 256];
    buf[..doc.len()].copy_from_slice(doc.as_bytes());
    let mut scratch = [0u8; 3];
    let mut ed = Editor::new(MemStorage::new(&mut buf, doc.len()), &mut scratch);
    if ed.edit(op, path, new).unwrap() {
        Some(String::from_utf8(ed.storage().as_bytes().to_vec()).unwrap())
    } else {
        assert_eq!(ed.storage().as_bytes(), doc.as_bytes());
        None
    }
}

fn removed(doc: &str, path: &str) -> Option<String> {
    let mut buf = [0u8; 256];
    buf[..doc.len()].copy_from_slice(doc.as_bytes());
    let mut scratch = [0u8; 3];
    let mut ed = Editor::new(MemStorage::new(&mut buf, doc.len()), &mut scratch);
    if ed.remove(path).unwrap() {
        Some(String::from_utf8(ed.storage().as_bytes().to_vec()).unwrap())
    } else {
        None
    }
}

fn raw_at(doc: &str, path: &str) -> Option<String> {
    let mut p = Parser::from_slice(doc.as_bytes());
    if p.seek(path).unwrap() {
        Some(String::from_utf8(p.raw_value().unwrap().to_vec()).unwrap())
    } else {
        None
    }
}

#[test]
fn documents_are_one_value_in_white_space() {
    for (doc, ok) in [
        (" \t[1]\r\n", true),
        ("1", true),
        ("1 1", false),
        ("", false),
        ("  ", false),
        ("[1],", false),
        ("[01]", false),
    ] {
        assert_eq!(validate(SliceSource::new(doc.as_bytes())).is_ok(), ok, "{doc:?}");
    }
}

#[test]
fn peeking_changes_nothing_and_stops_at_the_token() {
    let mut p = Parser::from_slice(b"[ 1 , {} ]");
    p.begin_array().unwrap();
    for _ in 0..3 {
        assert_eq!(p.peek().unwrap(), Token::Number);
        assert_eq!(p.offset(), 2);
    }
    p.skip_value().unwrap();
    for _ in 0..3 {
        assert_eq!(p.peek().unwrap(), Token::BeginObject);
        assert_eq!(p.offset(), 6);
    }
}

#[test]
fn chunks_make_up_the_text() {
    let doc = r#""a\u00e9\ud83d\ude00z\n""#;
    for size in 4..9usize {
        let mut p = Parser::from_slice(doc.as_bytes());
        let mut r = p.str_reader().unwrap();
        let mut buf = [0u8; 16];
        let mut all = String::new();
        while let Some(c) = r.next_chunk(&mut buf[..size]).unwrap() {
            all.push_str(c);
        }
        assert_eq!(all, "aé😀z\n");
    }
}

#[test]
fn text_written_is_read_back() {
    let all: String = (0u32..0x80)
        .chain([0x7ff, 0x800, 0xd7ff, 0xe000, 0xffff, 0x10000, 0x10ffff])
        .map(|c| char::from_u32(c).unwrap())
        .collect();
    let mut out = [0u8; 1024];
    let json = text(all.as_str(), &mut out).to_string();
    assert_eq!(encoded_len(all.as_str()), json.len() as u64);
    let mut p = Parser::from_slice(json.as_bytes());
    let mut buf = [0u8; 512];
    assert_eq!(p.read_str(&mut buf).unwrap(), all);
    p.finish().unwrap();
    let mut out = [0u8; 64];
    assert_eq!(text("\u{8}\u{c}\n\r\t\u{1}\"\\/", &mut out), r#""\b\f\n\r\t\u0001\"\\/""#);
}

#[test]
fn escaping_in_parts_is_escaping() {
    let mut a = [0u8; 64];
    let mut w = JsonWriter::new(SliceWriter::new(&mut a));
    w.begin_string().unwrap();
    for part in ["x\"", "", "\n", "é\\"] {
        w.string_fragment(part).unwrap();
    }
    w.end_string().unwrap();
    let mut b = [0u8; 64];
    assert_eq!(w.get_ref().written(), text("x\"\né\\", &mut b).as_bytes());
}

#[test]
fn integers_are_written_in_decimal() {
    let mut out = [0u8; 64];
    for (v, t) in [
        (0i64, "0"),
        (-1, "-1"),
        (9, "9"),
        (10, "10"),
        (-1000, "-1000"),
        (i64::MAX, "9223372036854775807"),
        (i64::MIN, "-9223372036854775808"),
    ] {
        assert_eq!(text(&v, &mut out), t);
        let mut p = Parser::from_slice(t.as_bytes());
        assert_eq!(p.read_num::<i64>().unwrap(), v);
    }
    assert_eq!(text(&i128::MAX, &mut out), "170141183460469231731687303715884105727");
    assert_eq!(text(&usize::MAX, &mut out), usize::MAX.to_string());
    assert_eq!(text(&isize::MIN, &mut out), isize::MIN.to_string());
    assert_eq!(text(&u16::MAX, &mut out), "65535");
    assert_eq!(text(&i16::MIN, &mut out), "-32768");
}

#[test]
fn containers_are_written_as_json() {
    let rows = [Object(&[("a", [1, 2]), ("b\n", [3, 4])]), Object(&[])];
    let expected = value_of(br#"[{"a":[1,2],"b\n":[3,4]},{}]"#);
    let mut out = [0u8; 256];
    assert_eq!(value_of(text(&rows, &mut out).as_bytes()), expected);
    for indent in [1u8, 2, 8] {
        let mut out = [0u8; 512];
        let mut w = JsonWriter::pretty(SliceWriter::new(&mut out), indent);
        w.value(&rows).unwrap();
        assert_eq!(value_of(w.get_ref().written()), expected);
        validate(SliceSource::new(w.get_ref().written())).unwrap();
    }
}

#[test]
fn lengths_are_measured_without_writing() {
    let v = [Some("é"), None];
    let mut out = [0u8; 64];
    assert_eq!(encoded_len(&v), text(&v, &mut out).len() as u64);
    let mut c = Counter::new();
    c.write_all(b"abc").unwrap();
    c.write_all(b"").unwrap();
    assert_eq!(c.count(), 3);
    assert_eq!(Counter::default().count(), 0);
}

#[test]
fn seeking_finds_the_first_member_and_the_element() {
    let doc = r#" {"a": 1, "b": [10, {"a": 2}], "a": 3, "~/": 4, "0": 5} "#;
    assert_eq!(raw_at(doc, "/a").unwrap(), "1");
    assert_eq!(raw_at(doc, "/b/1/a").unwrap(), "2");
    assert_eq!(raw_at(doc, "/b/2"), None);
    assert_eq!(raw_at(doc, "/b/00"), None);
    assert_eq!(raw_at(doc, "/~0~1").unwrap(), "4");
    assert_eq!(raw_at(doc, "/~2"), None);
    assert_eq!(raw_at(doc, "/0").unwrap(), "5");
    assert_eq!(raw_at(doc, "").unwrap(), doc.trim());
    let mut p = Parser::from_slice(doc.as_bytes());
    assert!(p.seek(&[Seg::Index(0)]).unwrap());
    let at = p.offset();
    assert_eq!(p.value_span().unwrap(), Span { start: at, end: at + 1 });
}

#[test]
fn replacing_changes_that_value_alone() {
    let doc = r#"{"a": [1, "x" ], "b": null}"#;
    let new = RawJson(r#"{"n": [true]}"#);
    let out = in_place(doc, Op::Replace, "/a/1", &new).unwrap();
    assert_eq!(out, r#"{"a": [1, {"n": [true]} ], "b": null}"#);
    assert_eq!(raw_at(&out, "/a/1").unwrap(), new.0);
    assert_eq!(raw_at(&out, "/a/0").unwrap(), "1");
    assert_eq!(in_place(doc, Op::Replace, "/a/2", &new), None);
    assert_eq!(in_place(doc, Op::Replace, "", &RawJson("7")).unwrap(), "7");
}

#[test]
fn setting_adds_where_there_is_none() {
    let n = RawJson("9");
    assert_eq!(in_place(r#"{}"#, Op::Put, "/k", &n).unwrap(), r#"{"k":9}"#);
    assert_eq!(in_place(r#"{ "a" : 1 }"#, Op::Put, "/k", &n).unwrap(), r#"{ "a" : 1 ,"k":9}"#);
    assert_eq!(in_place("[]", Op::Put, "/0", &n).unwrap(), "[9]");
    assert_eq!(in_place("[]", Op::Put, "/-", &n).unwrap(), "[9]");
    assert_eq!(in_place("[1]", Op::Put, "/1", &n).unwrap(), "[1,9]");
    assert_eq!(in_place("[1]", Op::Put, "/0", &n).unwrap(), "[9]");
    assert_eq!(in_place("[1]", Op::Put, "/2", &n), None);
    assert_eq!(in_place("[1]", Op::Put, "/x", &n), None);
    assert_eq!(in_place("1", Op::Put, "/x", &n), None);
    assert_eq!(in_place(r#"{}"#, Op::Put, "/a/b", &n), None);
    // Names of new members: unescaped, and escaped again as JSON.
    assert_eq!(in_place("{}", Op::Put, "/~0~1\"", &n).unwrap(), r#"{"~/\"":9}"#);
    // A `~` that starts no escape stands for itself in a new name.
    assert_eq!(in_place("{}", Op::Put, "/~x~", &n).unwrap(), r#"{"~x~":9}"#);
}

#[test]
fn setting_an_existing_value_is_replacing_it() {
    let doc = br#"{"a": {"b": [1, 2]}}"#;
    for path in ["", "/a", "/a/b", "/a/b/1"] {
        let mut p = Parser::from_slice(doc);
        let set = plan(&mut p, Op::Put, path).unwrap().unwrap();
        let mut p = Parser::from_slice(doc);
        let replace = plan(&mut p, Op::Replace, path).unwrap().unwrap();
        assert_eq!(set, replace);
    }
}

#[test]
fn inserting_goes_in_front() {
    let n = RawJson("9");
    assert_eq!(in_place("[1, 2]", Op::Insert, "/0", &n).unwrap(), "[9,1, 2]");
    assert_eq!(in_place("[1, 2]", Op::Insert, "/1", &n).unwrap(), "[1, 9,2]");
    assert_eq!(in_place("[1, 2]", Op::Insert, "/2", &n).unwrap(), "[1, 2,9]");
    assert_eq!(in_place("[1, 2]", Op::Insert, "/3", &n), None);
    assert_eq!(in_place(r#"{"a":1}"#, Op::Insert, "/a", &n).unwrap(), r#"{"a":9}"#);
}

#[test]
fn pushing_appends_to_arrays() {
    let n = RawJson("9");
    assert_eq!(in_place("[ ]", Op::Push, "", &n).unwrap(), "[ 9]");
    assert_eq!(in_place("[1 ]", Op::Push, "", &n).unwrap(), "[1 ,9]");
    assert_eq!(in_place(r#"{"a":[[]]}"#, Op::Push, "/a/0", &n).unwrap(), r#"{"a":[[9]]}"#);
    assert_eq!(in_place("{}", Op::Push, "", &n), None);
}

#[test]
fn removing_takes_the_comma_along() {
    assert_eq!(removed("[1, 2, 3]", "/0").unwrap(), "[2, 3]");
    assert_eq!(removed("[1, 2, 3]", "/1").unwrap(), "[1, 3]");
    assert_eq!(removed("[1, 2, 3]", "/2").unwrap(), "[1, 2]");
    assert_eq!(removed("[1]", "/0").unwrap(), "[]");
    assert_eq!(removed(r#"{"a":1,"b":2}"#, "/b").unwrap(), r#"{"a":1}"#);
    assert_eq!(removed(r#"{"a":1,"b":2}"#, "/a").unwrap(), r#"{"b":2}"#);
    assert_eq!(removed("[1]", "/1"), None);
    assert_eq!(removed("[1]", "/-"), None);
    assert_eq!(removed("[1]", ""), None);
}

#[test]
fn the_ways_to_edit_agree() {
    let doc = r#"{"a": [1, 2], "b": "x"}"#;
    let new = RawJson("[null]");
    for (op, path) in [
        (Op::Replace, "/a/1"),
        (Op::Put, "/c"),
        (Op::Insert, "/a/0"),
        (Op::Push, "/a"),
        (Op::Replace, "/zz"),
    ] {
        let direct = in_place(doc, op, path, &new);
        let mut p = Parser::from_slice(doc.as_bytes());
        let patch = plan(&mut p, op, path).unwrap();
        assert_eq!(patch.is_some(), direct.is_some());
        let mut out = [0u8; 128];
        let (found, w) = copy_edit(
            SliceSource::new(doc.as_bytes()),
            SliceWriter::new(&mut out),
            op,
            path,
            &new,
        )
        .unwrap();
        assert_eq!(found, direct.is_some());
        assert_eq!(w.written(), direct.as_deref().unwrap_or(doc).as_bytes());
        if let (Some(patch), Some(direct)) = (patch, direct) {
            let mut out = [0u8; 128];
            let w = apply_copy(
                SliceSource::new(doc.as_bytes()),
                SliceWriter::new(&mut out),
                &patch,
                &new,
            )
            .unwrap();
            assert_eq!(w.written(), direct.as_bytes());
            // What is in front of the patch and behind it stays.
            let (s, e) = (patch.start as usize, patch.end as usize);
            let n = patch.content_len(&new) as usize;
            assert_eq!(&direct[..s], &doc[..s]);
            assert_eq!(&direct[s + n..], &doc[e..]);
            assert_eq!(direct.len() as i64 - doc.len() as i64, patch.delta(&new));
        }
    }
}

#[test]
fn patches_that_do_not_fit_are_refused() {
    let mut buf = *b"[1, 2]....";
    let mut scratch = [0u8; 2];
    for (start, end) in [(3, 2), (4, 7), (7, 7)] {
        let patch = Patch::replace(Span { start, end });
        let (st, r) = apply(MemStorage::new(&mut buf, 6), &patch, &0, &mut scratch);
        assert_eq!(
            r.unwrap_err(),
            Error::Json { kind: ErrorKind::InvalidState, offset: start }
        );
        assert_eq!(st.as_bytes(), b"[1, 2]");
    }
    let patch = Patch::replace(Span { start: 1, end: 2 });
    let (st, r) = apply(MemStorage::new(&mut buf, 6), &patch, &[7], &mut []);
    assert_eq!(r.unwrap(), Span { start: 1, end: 4 });
    assert_eq!(st.as_bytes(), b"[[7], 2]");
    let (st, r) = apply(st, &Patch::replace(Span { start: 0, end: 0 }), "too long", &mut []);
    assert_eq!(r.unwrap_err(), Error::Io(CapacityError));
    assert_eq!(st.as_bytes(), b"[[7], 2]");

    let mut out = [0u8; 16];
    let mut src = SliceSource::new(b"[1, 2]");
    src.fill().unwrap();
    src.consume(3);
    let e = apply_copy(src, SliceWriter::new(&mut out), &patch, &0).unwrap_err();
    assert_eq!(e.kind(), Some(ErrorKind::InvalidState));
    let patch = Patch::replace(Span { start: 2, end: 9 });
    let e = apply_copy(SliceSource::new(b"[1, 2]"), SliceWriter::new(&mut out), &patch, &0);
    assert_eq!(e.unwrap_err().kind(), Some(ErrorKind::UnexpectedEof));
    let patch = Patch::replace(Span { start: 1, end: 2 });
    let e = apply_copy(SliceSource::new(b"[1, 2]"), SliceWriter::new(&mut out[..4]), &patch, &0);
    assert_eq!(e.unwrap_err(), Error::Io(PipeError::Write(BufferFull)));
}

#[test]
fn removal_patches_write_nothing() {
    let mut p = Parser::from_slice(b"[1, 2]");
    let patch = plan_remove(&mut p, "/0").unwrap().unwrap();
    assert!(patch.is_removal());
    assert_eq!(patch.span(), Span { start: 1, end: 4 });
    assert_eq!(patch.content_len("ignored"), 0);
    assert_eq!(patch.delta("ignored"), -3);
    let mut out = [0u8; 8];
    let w = patch.write_content(SliceWriter::new(&mut out), "ignored").unwrap();
    assert!(w.is_empty());
    assert!(!Patch::replace(Span { start: 0, end: 1 }).is_removal());
}

#[test]
fn a_deeper_limit_changes_nothing() {
    let doc = b" [[[[1]]], 2] ";
    let mut a = Parser::<_, 1>::with_stack(SliceSource::new(doc));
    let mut b = Parser::<_, 9>::with_stack(SliceSource::new(doc));
    let span = a.value_span().unwrap();
    assert_eq!(span, Span { start: 1, end: 13 });
    assert_eq!(b.value_span().unwrap(), span);
    assert_eq!(Parser::<SliceSource<'_>, 9>::max_depth(), 72);
}

#[test]
fn copying_keeps_the_value() {
    let doc = "{ \"a\" : [ 1.50 , \"\\u0041\\n\" , { } , [ ] ] , \"\\u00e9\" : null }";
    let expected = value_of(doc.as_bytes());
    for indent in [0u8, 3] {
        let mut out = [0u8; 256];
        let mut p = Parser::from_slice(doc.as_bytes());
        let mut w = JsonWriter::pretty(SliceWriter::new(&mut out), indent);
        copy_value(&mut p, &mut w).unwrap();
        p.finish().unwrap();
        assert_eq!(value_of(w.get_ref().written()), expected);
        if indent == 0 {
            let small = "{\"a\":[1.50,\"A\\n\",{},[]],\"é\":null}";
            assert_eq!(w.get_ref().written(), small.as_bytes());
        }
    }
    let mut out = [0u8; 4];
    let mut p = Parser::from_slice(b"[1, 2]");
    let mut w = JsonWriter::new(SliceWriter::new(&mut out));
    assert_eq!(
        copy_value(&mut p, &mut w).unwrap_err(),
        Error::Io(PipeError::Write(BufferFull))
    );
}

#[test]
fn paths_of_a_walk_lead_to_its_values() {
    let doc = br#"{"a/b": [1, {"~": [true, ""]}], "": {"x": null}}"#;
    let mut path = [0u8; 64];
    let mut seen = Vec::new();
    Parser::from_slice(doc)
        .walk(&mut path, |n| {
            if n.token().is_value() {
                seen.push((n.path().to_string(), n.offset()));
            }
            Ok(Flow::Continue)
        })
        .unwrap();
    assert_eq!(seen.len(), 9);
    assert_eq!(seen[4].0, "/a~1b/1/~0");
    for (path, offset) in seen {
        let mut p = Parser::from_slice(doc);
        assert!(p.seek(path.as_str()).unwrap());
        assert_eq!(p.offset(), offset);
    }
}

#[test]
fn errors_of_the_caller_leave_the_parser_usable() {
    let mut p = Parser::from_slice(b"[1, \"two\"]");
    let mut buf = [0u8; 8];
    assert_eq!(
        p.read_str(&mut buf).unwrap_err().kind(),
        Some(ErrorKind::TypeMismatch { expected: Token::String, found: Token::BeginArray })
    );
    p.begin_array().unwrap();
    assert!(p.read_num::<bool>().is_err());
    assert_eq!(p.read_str(&mut buf).unwrap(), "two");
    assert_eq!(
        p.skip_value().unwrap_err().kind(),
        Some(ErrorKind::UnexpectedToken(Token::EndArray))
    );
    p.end_array().unwrap();
    p.finish().unwrap();
}

#[test]
fn conversion_decides_what_a_number_gives() {
    let mut p = Parser::from_slice(b"[7e2, 7]");
    p.begin_array().unwrap();
    let e = p.read_num_with(|t| if t == "7e2" { None::<u8> } else { Some(1) }).unwrap_err();
    assert_eq!(e, Error::Json { kind: ErrorKind::NumberOutOfRange, offset: 1 });
    assert_eq!(p.read_num_with(|t| Some(t.len())).unwrap(), 1);
    let mut p = Parser::from_slice(b" [-12, 300, 1.0]");
    p.begin_array().unwrap();
    assert_eq!(p.read_num::<i16>().unwrap(), -12);
    let e = p.read_num::<u8>().unwrap_err();
    assert_eq!((e.kind(), e.offset()), (Some(ErrorKind::NumberOutOfRange), Some(7)));
    assert_eq!(p.read_num::<u8>().unwrap_err().kind(), Some(ErrorKind::NumberOutOfRange));
}

#[test]
fn a_tee_writes_what_was_consumed() {
    let mut out = [0u8; 32];
    let mut t = Tee::new(SliceSource::new(b"abcdefgh"), SliceWriter::new(&mut out));
    assert!(t.is_enabled());
    t.fill().unwrap();
    t.consume(3);
    t.set_enabled(false).unwrap();
    t.fill().unwrap();
    t.consume(2);
    t.set_enabled(true).unwrap();
    t.writer().unwrap().write_all(b"--").unwrap();
    t.fill().unwrap();
    t.consume(1);
    assert_eq!(t.offset(), 6);
    assert_eq!(t.copy_rest().unwrap(), 2);
    let (_, w) = t.into_parts();
    assert_eq!(w.written(), b"abc--fgh");
}

#[test]
fn sources_count_their_offsets() {
    let mut buf = [0u8; 4];
    let mut r = ReadSource::new(&b"abcdef"[..], &mut buf).with_offset(10);
    assert_eq!(r.fill().unwrap(), b"abcd");
    r.consume(3);
    assert_eq!((r.offset(), r.buffered()), (13, &b"d"[..]));
    r.consume(1);
    assert_eq!(r.fill().unwrap(), b"ef");
    assert_eq!(r.get_ref().len(), 0);
    let mut rest = r.into_inner();
    assert_eq!(rest.read(&mut [0u8; 2]).unwrap(), 0);

    let mut doc = *b"[1, 23]";
    let mut buf = [0u8; 2];
    let mut s = StorageSource::at(MemStorage::new(&mut doc, 7), &mut buf, 4).unwrap();
    assert_eq!(s.fill().unwrap(), b"23");
    assert_eq!(s.offset(), 4);
    let mut doc = *b"[1, 23]";
    let mut s = StorageSource::at(MemStorage::new(&mut doc, 7), &mut buf, 9).unwrap();
    assert_eq!(s.fill().unwrap(), b"");
}

#[test]
fn an_editor_parses_its_document() {
    let mut doc = *br#"{"n": 41}"#;
    let len = doc.len();
    let mut scratch = [0u8; 1];
    let mut ed = Editor::new(MemStorage::new(&mut doc, len), &mut scratch);
    let n: u8 = ed
        .parse(|p| {
            assert!(p.seek("/n")?);
            p.read_num()
        })
        .unwrap();
    assert!(ed.replace("/n", &(n + 1)).unwrap());
    assert_eq!(ed.locate("/n").unwrap(), Some(Span { start: 6, end: 8 }));
    assert_eq!(ed.locate("/m").unwrap(), None);
    assert_eq!(ed.storage_mut().capacity(), len);
    let (buf, len) = ed.into_inner().into_inner();
    assert_eq!(&buf[..len], br#"{"n": 42}"#);
}

#[test]
fn spans() {
    let s = Span { start: 2, end: 5 };
    assert_eq!((s.len(), s.is_empty(), s.range()), (3, false, Some(2..5)));
    assert!(Span::default().is_empty());
}

#[test]
fn every_error_has_a_text() {
    let kind = |k: ErrorKind| k.message();
    assert_eq!(kind(ErrorKind::UnexpectedEof), "unexpected end of input");
    assert_eq!(kind(ErrorKind::UnexpectedByte(b'x')), "unexpected character 'x'");
    assert_eq!(kind(ErrorKind::UnexpectedByte(b' ')), "unexpected byte 0x20");
    assert_eq!(kind(ErrorKind::UnexpectedByte(0xaf)), "unexpected byte 0xaf");
    assert_eq!(kind(ErrorKind::TrailingData), "trailing data after JSON value");
    assert_eq!(kind(ErrorKind::InvalidEscape), "invalid escape sequence");
    assert_eq!(kind(ErrorKind::InvalidUnicode), "invalid unicode");
    assert_eq!(kind(ErrorKind::ControlCharacter), "control character in string");
    assert_eq!(kind(ErrorKind::InvalidNumber), "invalid number");
    assert_eq!(kind(ErrorKind::DepthLimitExceeded), "nesting depth limit exceeded");
    assert_eq!(kind(ErrorKind::BufferTooSmall), "buffer too small");
    assert_eq!(kind(ErrorKind::NumberTooLong), "number too long");
    assert_eq!(kind(ErrorKind::NumberOutOfRange), "number out of range for target type");
    assert_eq!(
        kind(ErrorKind::TypeMismatch { expected: Token::Bool, found: Token::EndArray }),
        "expected boolean, found ']'"
    );
    assert_eq!(
        kind(ErrorKind::UnexpectedToken(Token::Eof)),
        "expected a value, found end of input"
    );
    assert_eq!(kind(ErrorKind::InvalidState), "operation not valid in current state");
    assert_eq!(kind(ErrorKind::PathTooLong), "path buffer too small");
    for (t, name) in [
        (Token::Null, "null"),
        (Token::Number, "number"),
        (Token::String, "string"),
        (Token::BeginObject, "object"),
        (Token::BeginArray, "array"),
        (Token::Key, "object key"),
        (Token::EndObject, "'}'"),
    ] {
        assert_eq!(t.name(), name);
    }
    let e: Error<BufferFull> = Error::Json { kind: ErrorKind::TrailingData, offset: 120 };
    assert_eq!(
        e.message(|e| e.message().to_string()),
        "trailing data after JSON value at offset 120"
    );
    let e = Error::Io(BufferFull);
    assert_eq!(e.message(|e| e.message().to_string()), "I/O error: buffer full");
    let e: PipeError<CapacityError, BufferFull> = PipeError::Read(CapacityError);
    let texts = |e: &PipeError<CapacityError, BufferFull>| {
        e.message(|r| r.message().to_string(), |w| w.message().to_string())
    };
    assert_eq!(texts(&e), "read error: buffer capacity exceeded");
    assert_eq!(texts(&PipeError::Write(BufferFull)), "write error: buffer full");
}

#[test]
fn each_fault_is_found_where_it_is() {
    let check = |doc: &[u8], kind: ErrorKind, offset: u64| {
        let e = validate(SliceSource::new(doc)).unwrap_err();
        assert_eq!((e.kind(), e.offset()), (Some(kind), Some(offset)), "{doc:?}");
    };
    check(b"", ErrorKind::UnexpectedEof, 0);
    check(b"{\"a\":1,}", ErrorKind::UnexpectedByte(b'}'), 7);
    check(b"[] []", ErrorKind::TrailingData, 3);
    check(b"\"\\u12x4\"", ErrorKind::InvalidEscape, 5);
    check(b"\"\\ud800\"", ErrorKind::InvalidUnicode, 7);
    check(b"\"\x1f\"", ErrorKind::ControlCharacter, 1);
    check(b"-", ErrorKind::InvalidNumber, 1);
    let deep = "[".repeat(65);
    check(deep.as_bytes(), ErrorKind::DepthLimitExceeded, 64);
}

#[test]
fn entering_and_leaving_is_skipping() {
    let doc = br#"[{"a": [1, {"b": 2}], "c": 3}, 4]"#;
    let mut a = Parser::from_slice(doc);
    a.begin_array().unwrap();
    a.skip_value().unwrap();
    let mut b = Parser::from_slice(doc);
    b.begin_array().unwrap();
    b.begin_object().unwrap();
    b.end_object().unwrap();
    let mut c = Parser::from_slice(doc);
    c.begin_array().unwrap();
    c.begin_object().unwrap();
    assert!(c.find_key("a").unwrap());
    c.begin_array().unwrap();
    c.unwind(1).unwrap();
    for p in [&mut a, &mut b, &mut c] {
        assert_eq!((p.offset(), p.depth()), (29, 1));
        assert_eq!(p.read_num::<u8>().unwrap(), 4);
    }
}

#[test]
fn a_string_that_does_not_fit_is_skipped() {
    let mut p = Parser::from_slice(br#"["a long one", 2]"#);
    p.begin_array().unwrap();
    let mut buf = [0u8; 3];
    assert_eq!(p.read_str(&mut buf).unwrap_err().kind(), Some(ErrorKind::BufferTooSmall));
    assert_eq!(p.read_num::<u8>().unwrap(), 2);
    p.end_array().unwrap();
}

#[test]
fn text_is_checked_to_be_utf8() {
    for bad in [&b"\"\xff\""[..], b"\"\xc0\xaf\"", b"\"\xed\xa0\x80\"", b"\"\xf5\x80\x80\x80\""] {
        let e = validate(SliceSource::new(bad)).unwrap_err();
        assert_eq!(e.kind(), Some(ErrorKind::InvalidUnicode), "{bad:?}");
    }
}

#[test]
fn removing_what_was_added_restores_the_meaning() {
    let n = RawJson("[9]");
    for (doc, op, path) in [
        (r#"{"a" : 1 }"#, Op::Put, "/b"),
        ("[1 , 2]", Op::Insert, "/1"),
        ("[1 ]", Op::Put, "/1"),
        (r#"{"x": []}"#, Op::Insert, "/x/0"),
    ] {
        let added = in_place(doc, op, path, &n).unwrap();
        assert_eq!(raw_at(&added, path).unwrap(), n.0);
        let back = removed(&added, path).unwrap();
        assert_eq!(value_of(back.as_bytes()), value_of(doc.as_bytes()));
    }
}

#[test]
fn a_walk_enters_what_is_neither_skipped_nor_consumed() {
    let doc = br#"{"a": [1], "b": [2], "c": [3]}"#;
    let mut path = [0u8; 16];
    let mut seen = Vec::new();
    let whole = Parser::from_slice(doc)
        .walk(&mut path, |n| {
            seen.push(n.path().to_string());
            match n.path() {
                "/a" => return Ok(Flow::Skip),
                "/b" => n.take_parser()?.begin_array()?,
                _ => {}
            }
            Ok(Flow::Continue)
        })
        .unwrap();
    assert!(whole);
    assert_eq!(seen, ["", "/a", "/b", "/c", "/c/0", "/c", ""]);
    let mut calls = 0;
    let whole = Parser::from_slice(doc)
        .walk(&mut path, |_| {
            calls += 1;
            Ok(if calls == 3 { Flow::Stop } else { Flow::Continue })
        })
        .unwrap();
    assert_eq!((whole, calls), (false, 3));
}

struct Flushes(u32);

impl Write for Flushes {
    type Error = BufferFull;

    fn bounds(&self) {}

    fn write_all(&mut self, _: &[u8]) -> Result<(), BufferFull> {
        Ok(())
    }

    fn flush(&mut self) -> Result<(), BufferFull> {
        self.0 += 1;
        if self.0 > 1 {
            Err(BufferFull)
        } else {
            Ok(())
        }
    }
}

fn flush_all<W: Write>(mut w: W) -> Result<(), W::Error> {
    w.flush()
}

#[test]
fn flushing_a_reference_flushes_the_writer() {
    let mut w = Flushes(0);
    flush_all(&mut w).unwrap();
    assert_eq!(w.0, 1);
    assert_eq!(flush_all(&mut &mut w), Err(BufferFull));
    assert_eq!(w.0, 2);
    flush_all(Counter::new()).unwrap();
}

#[test]
fn a_stack_of_n_bytes_holds_eight_times_n_levels() {
    assert_eq!(Parser::<SliceSource<'_>, 8192>::max_depth(), 65536);
    assert_eq!(Parser::<SliceSource<'_>, 1>::max_depth(), 8);
    let deep = "[".repeat(65536) + &"]".repeat(65536);
    let mut p = Parser::<_, 8192>::with_stack(SliceSource::new(deep.as_bytes()));
    assert_eq!((p.depth(), p.offset()), (0, 0));
    p.skip_value().unwrap();
    p.finish().unwrap();
    let deeper = format!("[{deep}]");
    let mut p = Parser::<_, 8192>::with_stack(SliceSource::new(deeper.as_bytes()));
    let e = p.skip_value().unwrap_err();
    assert_eq!((e.kind(), e.offset()), (Some(ErrorKind::DepthLimitExceeded), Some(65536)));
}

#[test]
fn a_stopped_walk_leaves_the_parser_where_it_is() {
    let doc = br#"{"a": [1], "k": "v", "after": 1}"#;
    let mut p = Parser::from_slice(doc);
    let mut path = [0u8; 16];
    let whole = p
        .walk(&mut path, |n| Ok(if n.path() == "/k" { Flow::Stop } else { Flow::Continue }))
        .unwrap();
    assert!(!whole);
    assert_eq!((p.offset(), p.depth()), (16, 1));
    let mut buf = [0u8; 4];
    assert_eq!(p.read_str(&mut buf).unwrap(), "v");
    assert!(p.find_key("after").unwrap());
}

#[test]
fn paths_that_do_not_fit_are_refused() {
    let doc = br#"{"abc": [1, 2], "d": 3}"#;
    for size in 0..8usize {
        let mut path = vec![0u8; size];
        let r = Parser::from_slice(doc).walk(&mut path, |_| Ok(Flow::Continue));
        if size >= 6 {
            assert!(r.unwrap());
        } else {
            assert_eq!(r.unwrap_err().kind(), Some(ErrorKind::PathTooLong));
        }
    }
}

#[test]
fn data_is_inserted_through_the_writer_of_a_tee() {
    let mut out = [0u8; 32];
    let mut t = Tee::new(SliceSource::new(b"[1, 2]"), SliceWriter::new(&mut out));
    t.fill().unwrap();
    t.consume(1);
    t.set_enabled(false).unwrap();
    t.fill().unwrap();
    t.consume(1);
    t.set_enabled(true).unwrap();
    t.writer().unwrap().write_all(b"true").unwrap();
    assert!(t.is_enabled());
    assert_eq!(t.offset(), 2);
    t.fill().unwrap();
    t.consume(1);
    assert_eq!(t.copy_rest().unwrap(), 3);
    assert_eq!(t.into_parts().1.written(), b"[true, 2]");
}

#[test]
fn copies_are_flushed() {
    let doc = b"[1, 2]";
    let mut p = Parser::from_slice(doc);
    let patch = plan(&mut p, Op::Replace, "/0").unwrap().unwrap();
    let w = apply_copy(SliceSource::new(doc), Flushes(0), &patch, &5).unwrap();
    assert_eq!(w.0, 1);
    let (found, w) = copy_edit(SliceSource::new(doc), Flushes(0), Op::Replace, "/0", &5).unwrap();
    assert_eq!((found, w.0), (true, 1));
    let e = apply_copy(SliceSource::new(doc), Flushes(1), &patch, &5);
    assert!(matches!(e, Err(Error::Io(PipeError::Write(BufferFull)))));
}

#[test]
fn borrowed_text_leaves_the_scratch_buffer_alone() {
    let doc = br#"["plain", "esc\naped"]"#;
    let mut p = Parser::from_slice(doc);
    p.begin_array().unwrap();
    let mut scratch = [7u8; 16];
    assert_eq!(p.read_str_ref(&mut scratch).unwrap(), "plain");
    assert_eq!(scratch, [7u8; 16]);
    assert_eq!(p.read_str_ref(&mut scratch).unwrap(), "esc\naped");
    assert_eq!(&scratch[..8], b"esc\naped");
}

struct Boaster;

impl Read for Boaster {
    type Error = BufferFull;

    fn read(&mut self, buf: &mut [u8]) -> Result<usize, BufferFull> {
        buf.fill(b' ');
        Ok(buf.len() + 9)
    }
}

#[test]
fn a_reader_that_reports_too_much_is_cut_short() {
    let mut buf = [0u8; 4];
    let mut s = ReadSource::new(Boaster, &mut buf);
    assert_eq!(s.fill().unwrap(), b"    ");
    s.consume(9);
    assert_eq!(s.offset(), 4);
    let mut s = SliceSource::new(b"ab");
    s.fill().unwrap();
    s.consume(5);
    assert_eq!(s.offset(), 2);
}

struct Fickle(core::cell::Cell<u8>);

impl ToJson for Fickle {
    fn to_json<W: Write>(&self, w: &mut JsonWriter<W>) -> Result<(), W::Error> {
        self.0.set(self.0.get() + 1);
        w.string(&"x".repeat(self.0.get().into()))
    }
}

#[test]
fn a_value_that_grows_between_two_calls_is_refused() {
    let mut buf = [0u8; 32];
    buf[..3].copy_from_slice(b"[1]");
    let patch = Patch::replace(Span { start: 1, end: 2 });
    let value = Fickle(core::cell::Cell::new(0));
    let (_, r) = apply(MemStorage::new(&mut buf, 3), &patch, &value, &mut []);
    assert_eq!(r.unwrap_err(), Error::Json { kind: ErrorKind::InvalidState, offset: 1 });
}

#[test]
fn the_ends_of_an_array_are_one_place() {
    for (doc, n) in [("[]", 0), ("[1, [2] ]", 2)] {
        let at = |op: Op, path: &str| {
            let mut p = Parser::from_slice(doc.as_bytes());
            plan(&mut p, op, path).unwrap().unwrap().span()
        };
        let end = doc.len() as u64 - 1;
        let push = at(Op::Push, "");
        assert_eq!(push, Span { start: end, end });
        for op in [Op::Put, Op::Insert] {
            assert_eq!(at(op, "/-"), push);
            assert_eq!(at(op, &format!("/{n}")), push);
        }
    }
}

#[test]
fn what_was_put_in_is_located_and_set_again() {
    for (doc, op, path) in [
        ("{}", Op::Put, "/k"),
        (r#"{"a": 1}"#, Op::Put, "/k"),
        (r#"{"k": [1] }"#, Op::Insert, "/k/0"),
        ("[ ]", Op::Put, "/0"),
        ("7", Op::Put, ""),
    ] {
        let value = RawJson(r#"{"x":[null]}"#);
        let mut buf = [0u8; 64];
        buf[..doc.len()].copy_from_slice(doc.as_bytes());
        let mut scratch = [0u8; 3];
        let mut ed = Editor::new(MemStorage::new(&mut buf, doc.len()), &mut scratch);
        assert!(ed.edit(op, path, &value).unwrap());
        let s = ed.locate(path).unwrap().unwrap().range().unwrap();
        let once = ed.storage().as_bytes().to_vec();
        assert_eq!(&once[s], value.0.as_bytes());
        assert!(ed.set(path, &value).unwrap());
        assert_eq!(ed.storage().as_bytes(), once);
        if op == Op::Insert {
            assert!(ed.remove(path).unwrap());
            assert_eq!(ed.storage().as_bytes(), doc.as_bytes());
        }
    }
}

#[test]
fn the_events_of_a_value_end_where_it_ends() {
    let doc = br#" [{"a": [1, "x"], "b": {}}, true, null] "#;
    let mut p = Parser::from_slice(doc);
    let mut buf = [0u8; 8];
    let mut n = 0;
    loop {
        p.next_event(&mut buf).unwrap();
        n += 1;
        if p.depth() == 0 {
            break;
        }
    }
    let mut q = Parser::from_slice(doc);
    q.skip_value().unwrap();
    assert_eq!((n, p.offset()), (14, q.offset()));
}

#[test]
fn copying_again_changes_nothing() {
    let doc = r#"{"a":[1,{"b":"\/"}],"c":[]}"#;
    let copy = |src: &str, indent: u8| {
        let mut out = [0u8; 256];
        let mut p = Parser::from_slice(src.as_bytes());
        let mut w = JsonWriter::pretty(SliceWriter::new(&mut out), indent);
        copy_value(&mut p, &mut w).unwrap();
        String::from_utf8(w.get_ref().written().to_vec()).unwrap()
    };
    let small = copy(doc, 0);
    let wide = copy(doc, 4);
    assert_eq!(copy(&small, 0), small);
    assert_eq!(copy(&wide, 0), small);
    assert_eq!(copy(&wide, 4), wide);
    assert_eq!(copy(&small, 4), wide);
}

#[test]
fn lengths_of_slices_add_up() {
    let v = ["a", "é\n", ""];
    let sum: u64 = v.iter().map(|x| encoded_len(x)).sum();
    assert_eq!(encoded_len(&v), 2 + sum + 2);
    assert_eq!(encoded_len::<[u8]>(&[]), 2);
}

#[test]
fn keys_are_matched_as_they_are_read() {
    let doc = br#"{"ab": 1}"#;
    let mut p = Parser::from_slice(doc);
    p.begin_object().unwrap();
    assert!(p.match_key("ab").unwrap());
    let mut p = Parser::from_slice(doc);
    p.begin_object().unwrap();
    let mut buf = [0u8; 4];
    assert_eq!(p.read_key(&mut buf).unwrap(), "ab");
    assert_eq!(p.read_num::<u8>().unwrap(), 1);
    assert!(!p.has_next().unwrap());
}

struct Log {
    bytes: Vec<u8>,
    calls: Vec<String>,
    full: bool,
}

impl Storage for Log {
    type Error = CapacityError;

    fn bounds(&self) {}

    fn len(&mut self) -> Result<u64, CapacityError> {
        Ok(self.bytes.len() as u64)
    }

    fn read_at(&mut self, offset: u64, buf: &mut [u8]) -> Result<(), CapacityError> {
        let at = offset as usize;
        buf.copy_from_slice(&self.bytes[at..at + buf.len()]);
        Ok(())
    }

    fn write_at(&mut self, offset: u64, data: &[u8]) -> Result<(), CapacityError> {
        let at = offset as usize;
        self.calls.push(format!("write {at} {}", data.len()));
        self.bytes[at..at + data.len()].copy_from_slice(data);
        Ok(())
    }

    fn set_len(&mut self, len: u64) -> Result<(), CapacityError> {
        self.calls.push(format!("len {len}"));
        if self.full {
            return Err(CapacityError);
        }
        self.bytes.resize(len as usize, 0);
        Ok(())
    }

    fn move_within(&mut self, from: u64, to: u64, len: u64, _: &mut [u8]) -> Result<(), CapacityError> {
        self.calls.push(format!("move {from} {to} {len}"));
        let (from, to, len) = (from as usize, to as usize, len as usize);
        self.bytes.copy_within(from..from + len, to);
        Ok(())
    }
}

#[test]
fn the_tail_is_moved_once() {
    let log = |bytes: &[u8], full| Log { bytes: bytes.to_vec(), calls: Vec::new(), full };
    let patch = Patch::replace(Span { start: 1, end: 2 });
    let mut scratch = [0u8; 8];
    let (st, r) = apply(log(b"[1, 2]", false), &patch, &true, &mut scratch);
    r.unwrap();
    assert_eq!(st.bytes, b"[true, 2]");
    assert_eq!(st.calls, ["len 9", "move 2 5 4", "write 1 4"]);
    let patch = Patch::replace(Span { start: 1, end: 5 });
    let (st, r) = apply(st, &patch, &7, &mut scratch);
    r.unwrap();
    assert_eq!(st.bytes, b"[7, 2]");
    assert_eq!(st.calls[3..], ["move 5 2 4", "len 6", "write 1 1"]);
    let patch = Patch::replace(Span { start: 1, end: 2 });
    let (st, r) = apply(st, &patch, &8, &mut scratch);
    r.unwrap();
    assert_eq!(st.calls[6..], ["write 1 1"]);
    let (st, r) = apply(log(b"[1, 2]", true), &patch, &true, &mut scratch);
    assert_eq!(r.unwrap_err(), Error::Io(CapacityError));
    assert_eq!((st.bytes.as_slice(), st.calls.len()), (&b"[1, 2]"[..], 1));
}

#[test]
fn encodings_lie_at_the_start_of_the_buffer() {
    let mut buf = [7u8; 10];
    assert_eq!(to_slice(&[1, 2, 3], &mut buf).unwrap(), "[1,2,3]");
    assert_eq!(&buf, b"[1,2,3]\x07\x07\x07");
    let mut small = [0u8; 4];
    assert_eq!(to_slice(&[1, 2, 3], &mut small), Err(BufferFull));
    let mut w = SliceWriter::new(&mut buf);
    w.write_all(b"ab").unwrap();
    w.into_written()[1] = b'c';
    assert_eq!(&buf[..3], b"ac,");
}

#[test]
fn compact_copies_hold_no_space_outside_of_strings() {
    let doc = "\t{ \"a b\" : [ 1 ,\r\n \"\\\" \\\\\" , [ ] ] , \"\" : { \" \" : - } }".replace('-', "-1.5e+3");
    let mut out = [0u8; 128];
    let mut p = Parser::from_slice(doc.as_bytes());
    let mut w = JsonWriter::new(SliceWriter::new(&mut out));
    copy_value(&mut p, &mut w).unwrap();
    let small = r#"{"a b":[1,"\" \\",[]],"":{" ":-1.5e+3}}"#;
    assert_eq!(w.get_ref().written(), small.as_bytes());
}

#[test]
fn lengths_of_nested_values_add_up() {
    let rows = [Object(&[("k", [Some("é"), None])]), Object(&[("l", [None, Some("")])])];
    let sum: u64 = rows.iter().map(|x| encoded_len(x)).sum();
    assert_eq!(encoded_len(&rows), 2 + sum + 1);
    let nested: [&[u8]; 3] = [&[1, 22], &[], &[3]];
    let sum: u64 = nested.iter().map(|x| encoded_len(x)).sum();
    assert_eq!(encoded_len(&nested), 2 + sum + 2);
}

#[test]
fn a_tee_copies_the_rest_whatever_its_setting() {
    let mut out = [0u8; 8];
    let mut dst = SliceWriter::new(&mut out);
    let mut t = Tee::new(SliceSource::new(b"abcdef"), &mut dst);
    t.fill().unwrap();
    t.consume(2);
    t.set_enabled(false).unwrap();
    t.fill().unwrap();
    t.consume(2);
    assert_eq!(t.copy_rest().unwrap(), 2);
    assert_eq!(dst.written(), b"abef");
}
