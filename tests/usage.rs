use chat_relay::codec::read_document;
use chat_relay::usage::extract_tokens;

fn tokens(text: &str, streaming: bool) -> Option<i32> {
    extract_tokens(&read_document(text.as_bytes()).unwrap(), streaming)
}

#[test]
fn buffered_usage_is_read() {
    assert_eq!(tokens(r#"{"usage":{"total_tokens":42}}"#, false), Some(42));
}

#[test]
fn streamed_usage_is_read() {
    assert_eq!(tokens(r#"{"x_groq":{"usage":{"total_tokens":42}}}"#, true), Some(42));
}

#[test]
fn usage_path_depends_on_mode() {
    assert_eq!(tokens(r#"{"usage":{"total_tokens":42}}"#, true), None);
    assert_eq!(tokens(r#"{"x_groq":{"usage":{"total_tokens":42}}}"#, false), None);
}

#[test]
fn missing_usage_is_absent() {
    assert_eq!(tokens(r#"{"choices":[]}"#, false), None);
    assert_eq!(tokens(r#"{"usage":{}}"#, false), None);
    assert_eq!(tokens(r#"{"x_groq":{}}"#, true), None);
    assert_eq!(tokens(r#"[1]"#, false), None);
}

#[test]
fn non_integer_count_is_absent() {
    assert_eq!(tokens(r#"{"usage":{"total_tokens":4.5}}"#, false), None);
    assert_eq!(tokens(r#"{"usage":{"total_tokens":"42"}}"#, false), None);
}

#[test]
fn count_outside_i32_is_absent() {
    assert_eq!(tokens(r#"{"usage":{"total_tokens":2147483647}}"#, false), Some(2147483647));
    assert_eq!(tokens(r#"{"usage":{"total_tokens":2147483648}}"#, false), None);
    assert_eq!(tokens(r#"{"usage":{"total_tokens":-3}}"#, false), Some(-3));
}
