use axum::http::{HeaderMap, HeaderName, HeaderValue};
use mimo_proxy::headers::{
    body_kind, configured_key, downstream_headers, upstream_headers, BodyKind, HeaderError,
};

fn fields(list: &[(&'static str, &'static str)]) -> HeaderMap<HeaderValue> {
    let mut headers = HeaderMap::new();
    for (name, value) in list {
        headers.append(HeaderName::from_static(name), HeaderValue::from_static(value));
    }
    headers
}

fn sent(list: &[(&'static str, &'static str)], key: Option<&str>) -> HeaderMap<HeaderValue> {
    match upstream_headers(&fields(list), &key.map(|k| k.to_string())) {
        Ok(headers) => headers,
        Err(_) => panic!("refused"),
    }
}

#[test]
fn connection_fields_do_not_go_upstream() {
    let headers = sent(
        &[
            ("host", "h"),
            ("content-length", "3"),
            ("connection", "close"),
            ("accept-encoding", "gzip"),
            ("content-type", "application/json"),
            ("x-other", "y"),
        ],
        None,
    );
    assert_eq!(headers.len(), 2);
    assert_eq!(headers.get("content-type").unwrap(), "application/json");
    assert_eq!(headers.get("x-other").unwrap(), "y");
}

#[test]
fn last_value_of_a_field_goes_on() {
    let headers = sent(&[("x-a", "1"), ("x-b", "2"), ("x-a", "3")], None);
    assert_eq!(headers.get_all("x-a").iter().count(), 1);
    assert_eq!(headers.get("x-a").unwrap(), "3");
    assert_eq!(headers.get("x-b").unwrap(), "2");
}

#[test]
fn bearer_token_becomes_the_key() {
    let headers = sent(&[("authorization", "Bearer tp-1")], None);
    assert_eq!(headers.len(), 1);
    assert_eq!(headers.get("api-key").unwrap(), "tp-1");
}

#[test]
fn bearer_words_and_blanks_are_stripped() {
    assert_eq!(sent(&[("authorization", "Bearer Bearer  k ")], None).get("api-key").unwrap(), "k");
    assert_eq!(sent(&[("authorization", "k")], None).get("api-key").unwrap(), "k");
    assert_eq!(sent(&[("authorization", "bearer k")], None).get("api-key").unwrap(), "bearer k");
    assert_eq!(sent(&[("authorization", "Bearer ")], None).get("api-key").unwrap(), "");
}

#[test]
fn key_field_comes_before_authorization() {
    let headers = sent(&[("authorization", "Bearer a"), ("api-key", "b")], None);
    assert_eq!(headers.get("api-key").unwrap(), "b");
    assert!(headers.get("authorization").is_none());
}

#[test]
fn key_field_is_not_trimmed_of_bearer() {
    assert_eq!(sent(&[("api-key", "Bearer b")], None).get("api-key").unwrap(), "Bearer b");
}

#[test]
fn configured_key_overrides() {
    let headers = sent(&[("authorization", "Bearer a"), ("api-key", "b")], Some("c"));
    assert_eq!(headers.len(), 1);
    assert_eq!(headers.get("api-key").unwrap(), "c");
    assert_eq!(sent(&[], Some("c")).get("api-key").unwrap(), "c");
}

#[test]
fn without_any_key_none_is_sent() {
    assert_eq!(sent(&[("x-a", "1")], None).len(), 1);
}

#[test]
fn unreadable_key_field_falls_back() {
    let mut headers = fields(&[("authorization", "Bearer a")]);
    headers.insert("api-key", HeaderValue::from_bytes(b"\xff").unwrap());
    match upstream_headers(&headers, &None) {
        Ok(passed) => assert_eq!(passed.get("api-key").unwrap(), "a"),
        Err(_) => panic!("refused"),
    }
}

#[test]
fn invalid_key_is_refused() {
    for key in ["a\nb", "\u{7f}", "\u{0}"] {
        assert!(matches!(
            upstream_headers(&HeaderMap::new(), &Some(key.to_string())),
            Err(HeaderError::InvalidApiKey)
        ));
    }
    assert!(upstream_headers(&HeaderMap::new(), &Some("\u{e9}\t".to_string())).is_ok());
}

#[test]
fn full_map_takes_no_key() {
    let mut headers: HeaderMap<HeaderValue> = HeaderMap::new();
    for i in 0..24576 {
        let name = HeaderName::from_bytes(format!("x-{}", i).as_bytes()).unwrap();
        headers.insert(name, HeaderValue::from_static("v"));
    }
    assert!(matches!(
        upstream_headers(&headers, &Some("k".to_string())),
        Err(HeaderError::TooManyFields)
    ));
}

#[test]
fn many_fields_pass() {
    let mut headers: HeaderMap<HeaderValue> = HeaderMap::new();
    for i in 0..6000 {
        let name = HeaderName::from_bytes(format!("x-{}", i).as_bytes()).unwrap();
        headers.insert(name, HeaderValue::from_static("v"));
    }
    match upstream_headers(&headers, &Some("k".to_string())) {
        Ok(passed) => assert_eq!(passed.len(), 6001),
        Err(_) => panic!("refused"),
    }
}

#[test]
fn empty_configured_key_is_none() {
    assert_eq!(configured_key(Some(String::new())), None);
    assert_eq!(configured_key(None), None);
    assert_eq!(configured_key(Some("k".to_string())), Some("k".to_string()));
}

#[test]
fn length_and_encoding_do_not_go_back() {
    let given = fields(&[
        ("content-length", "3"),
        ("transfer-encoding", "chunked"),
        ("connection", "close"),
        ("set-cookie", "a"),
        ("set-cookie", "b"),
    ]);
    match downstream_headers(&given) {
        Ok(headers) => {
            assert_eq!(headers.len(), 2);
            assert_eq!(headers.get("connection").unwrap(), "close");
            assert_eq!(headers.get("set-cookie").unwrap(), "b");
        }
        Err(_) => panic!("refused"),
    }
}

#[test]
fn content_type_tells_the_kind_of_body() {
    assert!(matches!(body_kind(&fields(&[("content-type", "text/event-stream")])), BodyKind::Stream));
    assert!(matches!(
        body_kind(&fields(&[("content-type", "application/json; charset=utf-8")])),
        BodyKind::Json
    ));
    assert!(matches!(
        body_kind(&fields(&[("content-type", "application/json, text/event-stream")])),
        BodyKind::Stream
    ));
    assert!(matches!(body_kind(&fields(&[("content-type", "text/plain")])), BodyKind::Other));
    assert!(matches!(body_kind(&fields(&[("content-type", "Application/JSON")])), BodyKind::Other));
    assert!(matches!(body_kind(&HeaderMap::new()), BodyKind::Other));
}
