use chat_relay::codec::{read_document, write_document};
use chat_relay::json::Json;
use chat_relay::relay::stream_log_record;
use chat_relay::stream::{classify_line, LineOutcome, StreamReassembler};

fn text(doc: &Json) -> String {
    String::from_utf8(write_document(doc).unwrap()).unwrap()
}

fn run(chunks: &[&[u8]]) -> Vec<String> {
    let mut r = StreamReassembler::new();
    let mut out = Vec::new();
    for c in chunks {
        out.extend(r.feed(c).iter().map(text));
    }
    out.extend(r.finish().iter().map(text));
    out
}

const THREE: &str = "data: {\"id\":1,\"s\":\"h\u{e9}\u{20ac}\"}\ndata: {\"id\":2,\"usage\":{\"total_tokens\":3}}\n{\"id\":3}\n";

fn three_expected() -> Vec<String> {
    vec!["{\"id\":1,\"s\":\"h\u{e9}\u{20ac}\"}".to_string(), "{\"id\":2}".to_string(), "{\"id\":3}".to_string()]
}

#[test]
fn events_in_one_chunk() {
    assert_eq!(run(&[THREE.as_bytes()]), three_expected());
}

#[test]
fn events_split_at_every_byte() {
    let bytes = THREE.as_bytes();
    let chunks: Vec<&[u8]> = bytes.chunks(1).collect();
    assert_eq!(run(&chunks), three_expected());
}

#[test]
fn events_split_at_every_position() {
    let bytes = THREE.as_bytes();
    for cut in 0..=bytes.len() {
        assert_eq!(run(&[&bytes[..cut], &bytes[cut..]]), three_expected(), "cut at {}", cut);
    }
}

#[test]
fn events_split_inside_a_multibyte_character() {
    let bytes = THREE.as_bytes();
    let euro = bytes.iter().position(|&b| b == 0xe2).unwrap();
    assert_eq!(run(&[&bytes[..euro + 1], &bytes[euro + 1..euro + 2], &bytes[euro + 2..]]), three_expected());
}

#[test]
fn events_are_emitted_as_their_lines_complete() {
    let mut r = StreamReassembler::new();
    assert!(r.feed(b"data: {\"a\":").is_empty());
    let first = r.feed(b"1}\ndata: {\"b\"");
    assert_eq!(first.iter().map(text).collect::<Vec<_>>(), vec!["{\"a\":1}".to_string()]);
    let second = r.feed(b":2}\n");
    assert_eq!(second.iter().map(text).collect::<Vec<_>>(), vec!["{\"b\":2}".to_string()]);
    assert!(r.finish().is_empty());
}

#[test]
fn done_alone_in_a_chunk_ends_the_stream() {
    let out = run(&[b"data: {\"id\":1}\n", b"data: [DONE]\n", b"data: {\"id\":2}\n", b"{\"id\":3}"]);
    assert_eq!(out, vec!["{\"id\":1}".to_string()]);
}

#[test]
fn done_packed_with_data_ends_the_stream() {
    let out = run(&[b"data: {\"id\":1}\ndata: [DONE]\ndata: {\"id\":2}\n"]);
    assert_eq!(out, vec!["{\"id\":1}".to_string()]);
}

#[test]
fn bare_done_ends_the_stream() {
    let out = run(&[b"{\"id\":1}\r\n  [DONE]  \r\n{\"id\":2}\n"]);
    assert_eq!(out, vec!["{\"id\":1}".to_string()]);
}

#[test]
fn trailing_event_without_newline_is_read_at_the_end() {
    let mut r = StreamReassembler::new();
    assert_eq!(r.feed(b"data: {\"id\":1}\ndata: {\"id\":2}").iter().map(text).collect::<Vec<_>>(), vec!["{\"id\":1}".to_string()]);
    assert_eq!(r.finish().iter().map(text).collect::<Vec<_>>(), vec!["{\"id\":2}".to_string()]);
}

#[test]
fn trailing_done_without_newline_adds_nothing() {
    assert_eq!(run(&[b"data: {\"id\":1}\ndata: [DONE]"]), vec!["{\"id\":1}".to_string()]);
}

#[test]
fn malformed_line_is_skipped() {
    let out = run(&[b"data: {\"id\":1}\ndata: {broken\n: keep-alive\n\n   \ndata: {\"id\":2}\n"]);
    assert_eq!(out, vec!["{\"id\":1}".to_string(), "{\"id\":2}".to_string()]);
}

#[test]
fn invalid_utf8_does_not_abort_the_stream() {
    let out = run(&[b"data: {\"id\":1}\n\xff\xfe\ndata: {\"s\":\"\xff\"}\ndata: {\"id\":2}\n"]);
    assert_eq!(out, vec!["{\"id\":1}".to_string(), "{\"s\":\"\u{fffd}\"}".to_string(), "{\"id\":2}".to_string()]);
}

#[test]
fn usage_is_stripped_for_the_client() {
    let out = run(&[b"data: {\"id\":1,\"usage\":{\"total_tokens\":9}}\n"]);
    assert_eq!(out, vec!["{\"id\":1}".to_string()]);
}

#[test]
fn nothing_is_read_after_finish() {
    let mut r = StreamReassembler::new();
    assert!(r.finish().is_empty());
    assert!(r.feed(b"data: {\"id\":1}\n").is_empty());
    assert!(r.finish().is_empty());
}

#[test]
fn streamed_scenario_logs_the_usage_event() {
    let mut r = StreamReassembler::new();
    let mut out: Vec<String> = r.feed(b"data: {\"id\":1}\nda").iter().map(text).collect();
    out.extend(r.feed(b"ta: {\"id\":2,\"x_groq\":{\"usage\":{\"total_tokens\":5}}}\ndata: [DONE]\n").iter().map(text));
    out.extend(r.finish().iter().map(text));
    assert_eq!(out, vec!["{\"id\":1}".to_string(), "{\"id\":2,\"x_groq\":{\"usage\":{\"total_tokens\":5}}}".to_string()]);
    let record = stream_log_record(&r).unwrap();
    assert_eq!(record.tokens, Some(5));
    assert_eq!(record.response, read_document(b"{\"id\":2,\"x_groq\":{\"usage\":{\"total_tokens\":5}}}").unwrap());
}

#[test]
fn last_usage_event_wins() {
    let mut r = StreamReassembler::new();
    r.feed(b"{\"x_groq\":{\"usage\":{\"total_tokens\":1}}}\n{\"id\":0}\n{\"x_groq\":{\"usage\":{\"total_tokens\":2}}}\n{\"id\":9}\n");
    r.finish();
    assert_eq!(stream_log_record(&r).unwrap().tokens, Some(2));
}

#[test]
fn stream_without_usage_logs_nothing() {
    let mut r = StreamReassembler::new();
    r.feed(b"data: {\"id\":1,\"usage\":{\"total_tokens\":4}}\n");
    r.finish();
    assert_eq!(stream_log_record(&r), None);
    assert_eq!(r.usage_event(), None);
}

#[test]
fn lines_are_classified() {
    assert_eq!(classify_line(b""), LineOutcome::Skip);
    assert_eq!(classify_line(b" \t\r"), LineOutcome::Skip);
    assert_eq!(classify_line(b"data: [DONE]"), LineOutcome::Stop);
    assert_eq!(classify_line(b"  [DONE]\r"), LineOutcome::Stop);
    assert_eq!(classify_line(b"data: [DONE] x"), LineOutcome::Skip);
    assert_eq!(classify_line(b"data:{\"a\":1}"), LineOutcome::Skip);
    assert_eq!(classify_line(b"data: 7"), LineOutcome::Skip);
    assert_eq!(classify_line(b"data: [1]"), LineOutcome::Skip);
    assert_eq!(classify_line("\u{a0}data: null\u{3000}".as_bytes()), LineOutcome::Skip);
    assert_eq!(classify_line("\u{a0}data: {}\u{3000}".as_bytes()), LineOutcome::Event(Json::Object(vec![])));
}

#[test]
fn non_object_payloads_are_skipped() {
    let out = run(&[b"data: 1\ndata: \"x\"\ndata: {\"id\":1}\ndata: null\n"]);
    assert_eq!(out, vec!["{\"id\":1}".to_string()]);
}

#[test]
fn end_marker_is_reported() {
    let mut r = StreamReassembler::new();
    r.feed(b"data: {\"id\":1}\n");
    assert!(!r.stopped());
    r.feed(b"data: [DO");
    assert!(!r.stopped());
    r.feed(b"NE]\nmore");
    assert!(r.stopped());
    assert!(r.finish().is_empty());
    assert!(r.stopped());
}
