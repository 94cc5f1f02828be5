# emjson

JSON for embedded systems: a streaming parser, writer and in-place editor that works in a few
hundred bytes of RAM, whatever the size of the document. The library is written in Verus: what
each function returns or changes is stated in its contract, and proved.

## Layout

- `src/grammar.rs`: what JSON text is, and which fault a text that is none has where.
- `src/cursor.rs`: the steps of a parser over a document, as functions from cursor to cursor.
- `src/parser.rs`, `src/string.rs`, `src/number.rs`, `src/stack.rs`, `src/path.rs`: the parser.
- `src/walk.rs`: callbacks for every value of a document, with its JSON Pointer.
- `src/writer.rs`, `src/util.rs`: the writer, and copying values from a parser to a writer.
- `src/io.rs`: sources, readers, writers, and the tee between them.
- `src/edit.rs` and `src/edit/`: storage, planning and applying modifications, the editor.
- `src/tree.rs`, `src/splice.rs`: what a document means, and what is left of that when bytes of
  it are replaced.
- `src/laws.rs`, `src/edit_laws.rs`, `src/written.rs`, `src/copied.rs`, `src/walk_laws.rs`: laws on
  what seeking, editing, writing, copying and walking do to what a document means.
- `src/read_laws.rs`: laws on what reading leaves to be read.
- `src/place_laws.rs`: laws on the bytes of a document that was edited.
- `app/`: adapters for `std::io`, files and `embedded-io`, floating-point values, and errors that
  the standard library can show.

## Example

```rust
use emjson::edit::{Editor, MemStorage};

let mut buf = [0u8; 128];
let doc = br#"{"foo": {"bar": "hello world"}, "list": [1, 2]}"#;
buf[..doc.len()].copy_from_slice(doc);

let mut scratch = [0u8; 32];
let mut ed = Editor::new(MemStorage::new(&mut buf, doc.len()), &mut scratch);
ed.replace(&["foo", "bar"], "hi").unwrap();
ed.set("/foo/baz", &[true, false]).unwrap();   // creates the member
ed.push("/list", &3).unwrap();
ed.remove("/list/0").unwrap();                 // with its comma
assert_eq!(
    ed.storage().as_bytes(),
    br#"{"foo": {"bar": "hi","baz":[true,false]}, "list": [2,3]}"#
);
```
