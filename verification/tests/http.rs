use fire::headers::{header, HeaderKey, HeaderValue};
use fire::http::{BodyStatus, HttpRequest, HttpResponse, Verb};

#[test]
fn header_lowercases_key_and_trims_value() {
    let (k, v) = header("Content-Type", "  application/json ").unwrap();
    assert_eq!("content-type", k.as_str());
    assert_eq!("application/json", v.as_str());
}

#[test]
fn header_key_and_value_constructors() {
    assert_eq!("x-token", HeaderKey::new("X-Token").as_str());
    assert_eq!("a b", HeaderValue::new("\t a b \r\n").as_str());
}

#[test]
fn verb_body_status() {
    assert!(matches!(Verb::Post.body(), BodyStatus::Permitted));
    assert!(matches!(Verb::Put.body(), BodyStatus::Permitted));
    assert!(matches!(Verb::Patch.body(), BodyStatus::Permitted));
    assert!(matches!(Verb::Trace.body(), BodyStatus::Forbidden));
    assert!(matches!(Verb::Get.body(), BodyStatus::Discouraged));
}

#[test]
fn verb_names() {
    assert_eq!("GET", Verb::Get.name());
    assert_eq!("POST", Verb::Post.name());
    assert_eq!("OPTIONS", Verb::Options.name());
}

#[test]
fn request_default_headers() {
    let headers = vec![
        header("accept", "application/vnd.github+json").unwrap(),
        header("content-type", "application/json").unwrap(),
    ];
    let body = "{\"text\": \"**Hello** _world_!\", \"mode\": \"markdown\"}".to_string();
    let mut request = HttpRequest::new(
        Verb::Post,
        "api.github.com/markdown".to_string(),
        Some(body),
        headers,
    );
    request.set_default_headers().unwrap();

    assert_eq!(Verb::Post, request.verb());
    assert_eq!("https://api.github.com/markdown", request.effective_url());

    let content_type = request.header("content-type").unwrap();
    let host = request.header("host").unwrap();
    let accept = request.header("accept").unwrap();
    let user_agent = request.header("user-agent").unwrap();
    let content_size: usize = request.header("content-length").unwrap().parse().unwrap();

    assert_eq!("application/json", content_type);
    assert_eq!("api.github.com", host);
    assert_eq!("application/vnd.github+json", accept);
    assert_eq!("fire/", &user_agent[..5]);
    assert!(content_size > 0);
    assert_eq!(request.body_size(), content_size);
    assert!(request.body().is_some());
    assert!(request.has_body());
}

#[test]
fn request_keeps_explicit_headers_over_defaults() {
    let headers = vec![header("user-agent", "custom/1.0").unwrap()];
    let mut request =
        HttpRequest::new(Verb::Get, "http://example.com".to_string(), None, headers);
    request.set_default_headers().unwrap();
    assert_eq!("custom/1.0", request.header("user-agent").unwrap());
    assert_eq!("example.com", request.header("host").unwrap());
    // A GET request sends no body, so no content-length default is added.
    assert!(request.header("content-length").is_none());
    assert_eq!(0, request.body_size());
    assert!(!request.has_body());
}

#[test]
fn request_body_size_counts_bytes_for_body_verbs_only() {
    let r = HttpRequest::new(Verb::Get, "x".to_string(), Some("abcd".to_string()), Vec::new());
    assert_eq!(0, r.body_size());
    let r = HttpRequest::new(Verb::Post, "x".to_string(), Some("abcd".to_string()), Vec::new());
    assert_eq!(4, r.body_size());
}

#[test]
fn response_accessors() {
    let response = HttpResponse::new(
        "HTTP/1.1".to_string(),
        404,
        vec![
            ("content-type".to_string(), "text/plain".to_string()),
            ("x-extra".to_string(), "1".to_string()),
        ],
        "not found".to_string(),
    );
    assert_eq!("HTTP/1.1", response.version());
    assert_eq!(404, response.status());
    assert_eq!("text/plain", response.header("Content-Type").unwrap());
    assert!(response.header("missing").is_none());
    assert_eq!("not found", response.body());
    assert_eq!(9, response.body_len());
    assert_eq!(2, response.headers().len());
}

#[test]
fn json_pretty_formats_json() {
    let pretty = fire::format::JsonPretty::pretty("{\"a\":1}").unwrap();
    assert_eq!("{\n  \"a\": 1\n}", pretty);
    assert!(fire::format::JsonPretty::pretty("not json").is_err());
    assert!(fire::format::JsonPretty::accepts_json(Some("application/json; charset=utf-8")));
    assert!(!fire::format::JsonPretty::accepts_json(Some("text/html")));
    assert!(!fire::format::JsonPretty::accepts_json(None));
}
