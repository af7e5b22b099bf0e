use cjdns_admin::bencode::{parse, serialize};
use cjdns_admin::object::{Dict, EntryError, Object};
use cjdns_admin::order::{place, same_bytes, Place};
use cjdns_admin::text::{number_text, owned_text, same_text, text_bytes};
use cjdns_admin::text_map::TextMap;

fn dict(entries: Vec<(&str, Object)>) -> Dict {
    let mut d = Dict::new();
    for (name, value) in entries {
        d.insert(name, value);
    }
    d
}

#[test]
fn serialize_sorts_keys() {
    let d = dict(vec![
        ("txid", Object::text("7")),
        ("q", Object::text("ping")),
        ("args", Object::Dict(Dict::new())),
        ("n", Object::Int(-42)),
        ("l", Object::List(vec![Object::Int(0), Object::text("é")])),
    ]);
    assert_eq!(
        serialize(&d),
        "d4:argsde1:lli0e2:ée1:ni-42e1:q4:ping4:txid1:7e".as_bytes().to_vec()
    );
}

#[test]
fn parse_undoes_serialize() {
    let d = dict(vec![
        ("a", Object::Int(i64::MIN)),
        ("b", Object::Bytes(vec![0, 255, 58])),
        ("c", Object::Dict(dict(vec![("d", Object::List(vec![]))]))),
    ]);
    let mut bytes = serialize(&d);
    assert_eq!(parse(&bytes, 3), Some(Object::Dict(dict(vec![
        ("a", Object::Int(i64::MIN)),
        ("b", Object::Bytes(vec![0, 255, 58])),
        ("c", Object::Dict(dict(vec![("d", Object::List(vec![]))]))),
    ]))));
    assert_eq!(parse(&bytes, 2), None);
    bytes.extend_from_slice(b"trailing");
    assert!(parse(&bytes, 3).is_some());
}

#[test]
fn parse_refuses_malformed_values() {
    for bad in ["", "i", "ie", "i12", "i-e", "5:abc", "l", "li1e", "d", "d1:a", "d1:ae", "di1ei2ee", "x", "-1:a", "i9223372036854775808e"] {
        assert_eq!(parse(bad.as_bytes(), 8), None, "{bad}");
    }
    assert_eq!(parse(b"i9223372036854775807e", 0), Some(Object::Int(i64::MAX)));
    assert_eq!(parse(b"0:", 0), Some(Object::Bytes(vec![])));
    assert_eq!(parse(b"le", 0), None);
    assert_eq!(parse(b"le", 1), Some(Object::List(vec![])));
}

#[test]
fn parse_takes_keys_in_any_order() {
    let d = parse(b"d1:bi1e1:ai2e1:bi3ee", 1);
    assert_eq!(d, Some(Object::Dict(dict(vec![("a", Object::Int(2)), ("b", Object::Int(3))]))));
}

#[test]
fn entries_are_read_by_type() {
    let d = dict(vec![
        ("int", Object::Int(5)),
        ("text", Object::text("t")),
        ("raw", Object::Bytes(vec![0xff])),
        ("list", Object::List(vec![Object::Int(1)])),
        ("dict", Object::Dict(Dict::new())),
    ]);
    assert_eq!(d.len(), 5);
    assert!(d.has("int"));
    assert!(!d.has("none"));
    assert_eq!(d.get_int("int"), Ok(5));
    assert_eq!(d.get_int("text"), Err(EntryError::WrongType));
    assert_eq!(d.get_int("none"), Err(EntryError::Missing));
    assert_eq!(d.get_text("text"), Ok("t"));
    assert_eq!(d.get_text("raw"), Err(EntryError::WrongType));
    assert_eq!(d.get_bytes("raw"), Ok(&vec![0xff]));
    assert_eq!(d.get_bytes("int"), Err(EntryError::WrongType));
    assert_eq!(d.get_list("list").map(|l| l.len()), Ok(1));
    assert_eq!(d.get_list("dict"), Err(EntryError::WrongType));
    assert!(d.get_dict("dict").unwrap().is_empty());
    assert_eq!(d.get_dict("none"), Err(EntryError::Missing));
}

#[test]
fn texts_are_utf8() {
    assert_eq!(owned_text(&[0x68, 0xc3, 0xa9]), Ok("hé".to_string()));
    assert_eq!(owned_text(&[0xc3]), Err("incomplete utf-8 byte sequence from index 0".to_string()));
    assert_eq!(text_bytes("hé"), vec![0x68, 0xc3, 0xa9]);
    assert!(same_text("a", "a"));
    assert!(!same_text("a", "b"));
    assert_eq!(number_text(0), "0");
    assert_eq!(number_text(u64::MAX), "18446744073709551615");
}

#[test]
fn bytes_are_placed_in_dictionary_order() {
    assert_eq!(place(b"a", b"ab"), Place::Before);
    assert_eq!(place(b"b", b"ab"), Place::After);
    assert_eq!(place(b"ab", b"ab"), Place::Same);
    assert!(same_bytes(b"", b""));
}

#[test]
fn text_map_holds_one_value_per_key() {
    let mut m: TextMap<u32> = TextMap::new();
    m.insert("a".to_string(), 1);
    m.insert("b".to_string(), 2);
    m.insert("a".to_string(), 3);
    assert_eq!(m.get("a"), Some(&3));
    assert_eq!(m.get("c"), None);
    m.retain_open(|v: &u32| *v == 2);
    assert_eq!(m.get("b"), None);
    assert_eq!(m.remove("a"), Some(3));
    assert_eq!(m.remove("a"), None);
}
