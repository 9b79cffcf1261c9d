use chat_relay::codec::{read_document, write_document};
use chat_relay::error::APIError;
use chat_relay::json::Json;
use chat_relay::policy::{apply_model_policy, is_allowed_model, is_streaming, validate_model, ModelPolicy};

fn policy() -> ModelPolicy {
    ModelPolicy::new("qwen/qwen3-32b".to_string(), "qwen/qwen3-32b, openai/gpt-oss-120b ,meta-llama/llama-4")
}

fn filtered(body: &str) -> String {
    let out = validate_model(&policy(), body.as_bytes()).unwrap();
    String::from_utf8(out).unwrap()
}

#[test]
fn model_list_is_split_and_trimmed() {
    let p = policy();
    assert_eq!(p.default_model, "qwen/qwen3-32b");
    assert_eq!(p.allowed, vec!["qwen/qwen3-32b".to_string(), "openai/gpt-oss-120b".to_string(), "meta-llama/llama-4".to_string()]);
}

#[test]
fn model_list_keeps_empty_pieces() {
    let p = ModelPolicy::new("a".to_string(), "a,,b,");
    assert_eq!(p.allowed, vec!["a".to_string(), "".to_string(), "b".to_string(), "".to_string()]);
}

#[test]
fn allowed_model_is_exact_and_case_sensitive() {
    let p = policy();
    assert!(is_allowed_model(&p, &"openai/gpt-oss-120b".to_string()));
    assert!(!is_allowed_model(&p, &"OpenAI/gpt-oss-120b".to_string()));
    assert!(!is_allowed_model(&p, &"openai/gpt-oss".to_string()));
}

#[test]
fn missing_model_gets_default() {
    assert_eq!(
        filtered(r#"{"messages":[{"role":"user","content":"hi"}]}"#),
        r#"{"messages":[{"content":"hi","role":"user"}],"model":"qwen/qwen3-32b"}"#
    );
}

#[test]
fn unknown_model_gets_default() {
    assert_eq!(filtered(r#"{"model":"gpt-4","temperature":0.5}"#), r#"{"model":"qwen/qwen3-32b","temperature":0.5}"#);
}

#[test]
fn non_string_model_gets_default() {
    assert_eq!(filtered(r#"{"model":7}"#), r#"{"model":"qwen/qwen3-32b"}"#);
}

#[test]
fn allowed_model_is_kept() {
    assert_eq!(filtered(r#"{"model":"meta-llama/llama-4","stream":true}"#), r#"{"model":"meta-llama/llama-4","stream":true}"#);
}

#[test]
fn service_tier_flex_and_on_demand_are_kept() {
    assert_eq!(filtered(r#"{"model":"openai/gpt-oss-120b","service_tier":"flex"}"#), r#"{"model":"openai/gpt-oss-120b","service_tier":"flex"}"#);
    assert_eq!(
        filtered(r#"{"model":"openai/gpt-oss-120b","service_tier":"on_demand"}"#),
        r#"{"model":"openai/gpt-oss-120b","service_tier":"on_demand"}"#
    );
}

#[test]
fn other_service_tier_is_dropped() {
    assert_eq!(filtered(r#"{"model":"openai/gpt-oss-120b","service_tier":"auto"}"#), r#"{"model":"openai/gpt-oss-120b"}"#);
    assert_eq!(filtered(r#"{"model":"openai/gpt-oss-120b","service_tier":null}"#), r#"{"model":"openai/gpt-oss-120b"}"#);
}

#[test]
fn filtering_twice_changes_nothing() {
    let p = policy();
    for body in [r#"{"messages":[],"service_tier":"x"}"#, r#"{"model":"gpt-4"}"#, r#"{"model":"openai/gpt-oss-120b","service_tier":"flex"}"#] {
        let mut once = read_document(body.as_bytes()).unwrap();
        apply_model_policy(&p, &mut once);
        let mut twice = read_document(&write_document(&once).unwrap()).unwrap();
        apply_model_policy(&p, &mut twice);
        assert_eq!(once, twice);
    }
}

#[test]
fn default_model_outside_the_list_is_still_stable() {
    let p = ModelPolicy::new("fallback".to_string(), "a,b");
    let mut doc = read_document(br#"{"model":"c"}"#).unwrap();
    apply_model_policy(&p, &mut doc);
    let first = write_document(&doc).unwrap();
    apply_model_policy(&p, &mut doc);
    assert_eq!(write_document(&doc).unwrap(), first);
    assert_eq!(String::from_utf8(first).unwrap(), r#"{"model":"fallback"}"#);
}

#[test]
fn malformed_body_is_refused() {
    assert_eq!(validate_model(&policy(), b"{\"model\":").unwrap_err(), APIError { code: 400, body: Some("Invalid JSON") });
    assert_eq!(validate_model(&policy(), b"{not json").unwrap_err(), APIError { code: 400, body: Some("Invalid JSON") });
    assert_eq!(validate_model(&policy(), b"").unwrap_err().code, 400);
}

#[test]
fn non_object_body_is_refused() {
    let err: APIError = validate_model(&policy(), b"[1,2]").unwrap_err();
    assert_eq!(err.code, 400);
    assert_eq!(validate_model(&policy(), b"\"hi\"").unwrap_err().code, 400);
}

#[test]
fn stream_flag_is_read() {
    assert!(is_streaming(&read_document(br#"{"stream":true}"#).unwrap()));
    assert!(!is_streaming(&read_document(br#"{"stream":false}"#).unwrap()));
    assert!(!is_streaming(&read_document(br#"{"stream":"true"}"#).unwrap()));
    assert!(!is_streaming(&read_document(br#"{"messages":[]}"#).unwrap()));
    assert!(!is_streaming(&Json::Null));
}
