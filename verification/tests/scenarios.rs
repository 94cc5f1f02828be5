//! The library at work, on small documents.

use emjson::edit::{copy_edit, Editor, MemStorage, Op};
use emjson::io::{ReadSource, SliceWriter, Write};
use emjson::writer::Object;
use emjson::{encoded_len, to_slice, Flow, JsonWriter, Parser, RawJson, Seg, ToJson, Token};

#[test]
fn finding_a_value_in_a_stream() {
    let stream: &[u8] = br#"{"foo": {"bar": "hello world"}}"#;
    let mut buf = [0u8; 16];
    let mut p = Parser::new(ReadSource::new(stream, &mut buf));
    assert!(p.seek(&["foo", "bar"]).unwrap());
    assert_eq!(p.peek().unwrap(), Token::String);
    assert_eq!(p.offset(), 16);
    let mut s = [0u8; 32];
    assert_eq!(p.read_str(&mut s).unwrap(), "hello world");
}

#[test]
fn finding_a_value_in_a_slice() {
    let json = br#"{"foo": {"bar": "hello world", "n": [1, 2, 3]}}"#;
    let mut p = Parser::from_slice(json);
    assert!(p.seek(&["foo", "bar"]).unwrap());
    assert_eq!(p.peek().unwrap(), Token::String);
    assert_eq!(p.offset(), 16);
    let mut buf = [0u8; 32];
    assert_eq!(p.read_str(&mut buf).unwrap(), "hello world");
}

#[test]
fn reading_numbers_of_several_types() {
    let mut p = Parser::from_slice(b"[42, -1.5e3]");
    p.begin_array().unwrap();
    assert_eq!(p.read_num::<u8>().unwrap(), 42);
    assert_eq!(p.read_num::<f32>().unwrap(), -1500.0);
}

#[test]
fn reading_a_long_string_in_chunks() {
    let mut p = Parser::from_slice(br#""a long string \u00e9""#);
    let mut r = p.str_reader().unwrap();
    let mut buf = [0u8; 4];
    let mut len = 0;
    while let Some(chunk) = r.next_chunk(&mut buf).unwrap() {
        len += chunk.len();
    }
    assert_eq!(len, 16);
}

#[test]
fn paths_of_names_and_indices() {
    let mut p = Parser::from_slice(br#"{"a": [10, {"b": 20}]}"#);
    assert!(p.seek(&[Seg::from("a"), Seg::from(1), Seg::from("b")]).unwrap());
    assert_eq!(p.read_num::<i32>().unwrap(), 20);
}

#[test]
fn callbacks_with_paths() {
    let json = br#"{"wifi": {"ssid": "home", "channel": 6}, "debug": {"level": 3}}"#;
    let mut p = Parser::from_slice(json);
    let (mut path, mut ssid) = ([0u8; 64], [0u8; 32]);
    let (mut ssid_len, mut channel) = (0, 0u8);
    p.walk(&mut path, |node| {
        match node.path() {
            "/wifi/ssid" => ssid_len = node.read_str(&mut ssid)?.len(),
            "/wifi/channel" => channel = node.read_num()?,
            "/debug" => return Ok(Flow::Skip),
            "/debug/level" => panic!("entered"),
            _ => {}
        }
        Ok(Flow::Continue)
    })
    .unwrap();
    assert_eq!((&ssid[..ssid_len], channel), (&b"home"[..], 6));
}

#[test]
fn reading_members_in_turn() {
    let mut p = Parser::from_slice(br#"{"id": 7, "tags": ["a", "b"], "on": true}"#);
    p.begin_object().unwrap();
    while p.has_next().unwrap() {
        let mut key = [0u8; 16];
        match p.read_key(&mut key).unwrap() {
            "id" => assert_eq!(p.read_num::<u8>().unwrap(), 7),
            "on" => assert!(p.read_bool().unwrap()),
            _ => {}
        }
    }
    p.end_object().unwrap();
    p.finish().unwrap();
}

struct Reading {
    sensor: &'static str,
    celsius: f32,
}

impl ToJson for Reading {
    fn to_json<W: Write>(&self, w: &mut JsonWriter<W>) -> Result<(), W::Error> {
        w.begin_object()?;
        w.member("sensor", self.sensor)?;
        w.member("celsius", &RawJson(&self.celsius.to_string()))?;
        w.end_object()
    }
}

#[test]
fn writing_a_value_of_ones_own() {
    let r = Reading { sensor: "t1", celsius: 21.5 };
    assert_eq!(encoded_len(&r), 30);
    let mut buf = [0u8; 64];
    assert_eq!(to_slice(&r, &mut buf).unwrap(), r#"{"sensor":"t1","celsius":21.5}"#);
}

#[test]
fn writing_members() {
    let mut buf = [0u8; 64];
    let mut w = JsonWriter::new(SliceWriter::new(&mut buf));
    w.begin_object().unwrap();
    w.member("name", "sensor \"A\"").unwrap();
    w.key("values").unwrap();
    w.value(&[RawJson("1.5"), RawJson("-2")]).unwrap();
    w.member("ok", &true).unwrap();
    w.end_object().unwrap();
    assert_eq!(
        w.get_ref().written(),
        br#"{"name":"sensor \"A\"","values":[1.5,-2],"ok":true}"#
    );
    let o = Object(&[("a", 1), ("b", 2)]);
    let mut buf = [0u8; 16];
    assert_eq!(to_slice(&o, &mut buf).unwrap(), r#"{"a":1,"b":2}"#);
}

#[test]
fn editing_in_place() {
    let mut buf = [0u8; 128];
    let doc = br#"{"foo": {"bar": "hello world"}, "list": [1, 2]}"#;
    buf[..doc.len()].copy_from_slice(doc);
    let mut scratch = [0u8; 32];
    let mut ed = Editor::new(MemStorage::new(&mut buf, doc.len()), &mut scratch);
    assert!(ed.replace(&["foo", "bar"], "hi").unwrap());
    assert!(ed.set("/foo/baz", &[true, false]).unwrap());
    assert!(ed.push("/list", &3).unwrap());
    assert!(ed.remove("/list/0").unwrap());
    assert_eq!(
        ed.storage().as_bytes(),
        br#"{"foo": {"bar": "hi","baz":[true,false]}, "list": [2,3]}"#
    );
}

#[test]
fn editing_while_copying() {
    let input = br#"{"foo": {"bar": "hello world"}, "n": 1}"#;
    let (mut rbuf, mut out) = ([0u8; 8], [0u8; 64]);
    let src = ReadSource::new(&input[..], &mut rbuf);
    let dst = SliceWriter::new(&mut out);
    let (found, dst) = copy_edit(src, dst, Op::Replace, &["foo", "bar"], "bye").unwrap();
    assert!(found);
    assert_eq!(dst.written(), br#"{"foo": {"bar": "bye"}, "n": 1}"#);
    let (mut rbuf, mut out) = ([0u8; 8], [0u8; 64]);
    let src = ReadSource::new(&input[..], &mut rbuf);
    let mut dst = SliceWriter::new(&mut out);
    copy_edit(src, &mut dst, Op::Replace, "/foo/bar", "bye").unwrap();
    assert_eq!(dst.written(), br#"{"foo": {"bar": "bye"}, "n": 1}"#);
}
