use chat_relay::codec::{read_document, write_document};
use chat_relay::json::Json;

fn number(t: &str) -> Json {
    Json::Number(t.to_string())
}

#[test]
fn integer_numbers_read_as_i64() {
    assert_eq!(number("0").as_i64(), Some(0));
    assert_eq!(number("-17").as_i64(), Some(-17));
    assert_eq!(number("9223372036854775807").as_i64(), Some(i64::MAX));
    assert_eq!(number("-9223372036854775808").as_i64(), Some(i64::MIN));
}

#[test]
fn other_numbers_are_not_i64() {
    assert_eq!(number("9223372036854775808").as_i64(), None);
    assert_eq!(number("123456789012345678901234").as_i64(), None);
    assert_eq!(number("1.5").as_i64(), None);
    assert_eq!(number("1e3").as_i64(), None);
    assert_eq!(number("-").as_i64(), None);
    assert_eq!(number("").as_i64(), None);
    assert_eq!(Json::Str("5".to_string()).as_i64(), None);
}

#[test]
fn last_entry_wins() {
    let doc = Json::Object(vec![("a".to_string(), number("1")), ("a".to_string(), number("2"))]);
    assert_eq!(doc.get(&"a".to_string()), Some(&number("2")));
    assert_eq!(doc.get(&"b".to_string()), None);
}

#[test]
fn remove_and_set_members() {
    let mut doc = Json::Object(vec![("a".to_string(), number("1")), ("b".to_string(), Json::Null), ("a".to_string(), number("2"))]);
    doc.remove_member(&"a".to_string());
    assert_eq!(doc, Json::Object(vec![("b".to_string(), Json::Null)]));
    doc.set_member("b".to_string(), Json::Bool(true));
    doc.set_member("c".to_string(), Json::Str("x".to_string()));
    assert_eq!(doc, Json::Object(vec![("b".to_string(), Json::Bool(true)), ("c".to_string(), Json::Str("x".to_string()))]));
    let mut other = Json::Array(vec![]);
    other.set_member("b".to_string(), Json::Null);
    assert_eq!(other, Json::Array(vec![]));
}

#[test]
fn copy_is_equal() {
    let doc = read_document(br#"{"a":[1,2.5,"x",null,true,{"b":{}}]}"#).unwrap();
    assert_eq!(doc.copy(), doc);
}

#[test]
fn documents_round_trip() {
    let text = r#"{"b":{"c":[]},"a":[1,2.5,-3,"é",null,true]}"#;
    let doc = read_document(text.as_bytes()).unwrap();
    let written = String::from_utf8(write_document(&doc).unwrap()).unwrap();
    assert_eq!(written, r#"{"a":[1,2.5,-3,"é",null,true],"b":{"c":[]}}"#);
    assert_eq!(read_document(written.as_bytes()).unwrap(), doc);
    let large = read_document(b"[1e300,-0.0]").unwrap();
    assert_eq!(read_document(&write_document(&large).unwrap()).unwrap(), large);
}

#[test]
fn parsed_numbers_keep_their_text() {
    let doc = read_document(br#"[42,-7,0.5]"#).unwrap();
    assert_eq!(doc, Json::Array(vec![number("42"), number("-7"), number("0.5")]));
}

#[test]
fn malformed_text_is_not_a_document() {
    assert_eq!(read_document(b"{"), None);
    assert_eq!(read_document(b"{} x"), None);
    assert_eq!(read_document(&[0xff, 0xfe]), None);
}
