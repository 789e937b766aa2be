//! Embedders: seeds, requests and replies.
use octasoma::embed::{
    array_tokens, check_embedding, check_reply, http_request, json_string, parse_url,
    response_body, EmbedError, HashEmbedder, OllamaEmbedder,
};
use octasoma::rng::DeterministicRng;

fn unit_vector(text: &str, dim: usize) -> Vec<f32> {
    let mut rng = DeterministicRng::new(HashEmbedder::seed_of(text));
    let mut v: Vec<f32> =
        (0..dim).map(|_| (f32::from_bits(rng.next_unit_bits()) - 1.0) * 2.0 - 1.0).collect();
    let norm: f32 = v.iter().map(|x| x * x).sum::<f32>().sqrt();
    for x in &mut v {
        *x /= norm;
    }
    v
}

#[test]
fn hash_embedder_is_deterministic_and_unit() {
    let e = HashEmbedder::new(64);
    let a = unit_vector("hello world", e.dim());
    let b = unit_vector("hello world", e.dim());
    assert_eq!(a, b);
    assert_eq!(a.len(), 64);
    let norm: f32 = a.iter().map(|x| x * x).sum::<f32>().sqrt();
    assert!((norm - 1.0).abs() < 1e-5);
    // Different text, different vector.
    assert_ne!(a, unit_vector("goodbye", e.dim()));
}

#[test]
fn seeds_are_fnv_hashes() {
    assert_eq!(HashEmbedder::seed_of(""), 0xcbf2_9ce4_8422_2325);
    assert_eq!(HashEmbedder::seed_of("a"), 0xaf63_dc4c_8601_ec8c);
    assert_eq!(HashEmbedder::seed_of("foobar"), 0x8594_4171_f739_67e8);
}

#[test]
fn json_string_escapes() {
    assert_eq!(json_string("a\"b\\c\n"), "\"a\\\"b\\\\c\\n\"");
}

#[test]
fn json_string_escapes_control_characters() {
    assert_eq!(json_string("\u{1}\u{1f}\r\t"), "\"\\u0001\\u001f\\r\\t\"");
    assert_eq!(json_string("é/"), "\"é/\"");
}

#[test]
fn extract_embedding_array() {
    let resp = r#"{"model":"x","embedding":[0.5, -1.25, 3.0],"done":true}"#;
    let tokens = array_tokens(resp, "embedding").unwrap();
    let v: Vec<f32> = tokens.iter().map(|t| t.parse().unwrap()).collect();
    assert_eq!(v, vec![0.5, -1.25, 3.0]);
    assert!(array_tokens(resp, "missing").is_none());
}

#[test]
fn extract_rejects_non_numeric() {
    let resp = r#"{"embedding":[0.1, "oops", 0.2]}"#;
    let tokens = array_tokens(resp, "embedding").unwrap();
    let v: Option<Vec<f32>> = tokens.iter().map(|t| t.parse().ok()).collect();
    assert!(v.is_none());
}

#[test]
fn a_reply_without_numbers_is_a_protocol_error() {
    assert!(matches!(check_reply(None), Err(EmbedError::Protocol(_))));
    assert!(matches!(check_reply(Some(Vec::new())), Err(EmbedError::Protocol(_))));
    assert_eq!(check_reply(Some(vec!["1".to_string()])).unwrap(), vec!["1".to_string()]);
}

#[test]
fn an_embedding_has_its_length_and_finite_numbers() {
    assert!(check_embedding(3, 3, true).is_ok());
    assert!(check_embedding(3, 2, true).is_err());
    assert!(check_embedding(3, 3, false).is_err());
}

#[test]
fn requests_name_the_model_and_the_prompt() {
    let c = OllamaEmbedder::new("http://localhost:11434//", "nomic \"x\"", 768);
    assert_eq!(c.url(), "http://localhost:11434/api/embeddings");
    assert_eq!(c.request_body("a\nb"), "{\"model\":\"nomic \\\"x\\\"\",\"prompt\":\"a\\nb\"}");
    assert_eq!(c.dim(), 768);
    let c = c.with_endpoint("/v2/embed").with_timeout(5);
    assert_eq!(c.url(), "http://localhost:11434/v2/embed");
    assert_eq!(c.timeout_ms(), 5);
}

#[test]
fn urls_are_taken_apart() {
    let t = parse_url("http://localhost:11434/api/embeddings").unwrap();
    assert_eq!(t.host, "localhost");
    assert_eq!(t.path, "/api/embeddings");
    let request = http_request(&t, "{}");
    assert!(request.starts_with("POST /api/embeddings HTTP/1.1\r\n"), "{request}");
    assert!(request.contains("Content-Length: 2\r\n"), "{request}");
    assert!(request.ends_with("\r\n\r\n{}"), "{request}");
    assert!(parse_url("https://secure").is_err());
}

#[test]
fn a_response_has_a_body_behind_an_empty_line() {
    assert_eq!(response_body("HTTP/1.1 200 OK\r\nA: b\r\n\r\n{\"x\":1}").unwrap(), "{\"x\":1}");
    assert_eq!(response_body("HTTP/1.1 500 Oops\r\n\r\nno").unwrap(), "no");
    assert!(response_body("garbage").is_err());
}
