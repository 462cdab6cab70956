use axum::http::{HeaderMap, HeaderValue};
use mimo_proxy::cache::ReasoningCache;
use mimo_proxy::headers::{BodyKind, HeaderError};
use mimo_proxy::proxy::{absorb_response, prepare_request, refusal_status, ProxyConfig, Refusal};

const RESPONSE: &[u8] = b"{\"choices\":[{\"message\":{\"role\":\"assistant\",\"content\":\"c\",\"tool_calls\":[{\"id\":\"1\"}],\"reasoning_content\":\"why\"}}]}";
const REQUEST: &[u8] = b"{\"messages\":[{\"role\":\"assistant\",\"content\":\"c\",\"tool_calls\":[{\"id\":\"1\"}]}]}";
const FIXED: &[u8] = b"{\"messages\":[{\"content\":\"c\",\"reasoning_content\":\"why\",\"role\":\"assistant\",\"tool_calls\":[{\"id\":\"1\"}]}]}";
const BLANK: &[u8] = b"{\"messages\":[{\"content\":\"c\",\"reasoning_content\":\"\",\"role\":\"assistant\",\"tool_calls\":[{\"id\":\"1\"}]}]}";

fn config(key: Option<&str>) -> ProxyConfig {
    ProxyConfig {
        target_base_url: "https://host/v1".to_string(),
        target_api_key: key.map(|k| k.to_string()),
        cache_ttl: 100,
        cache_max_size: 10,
    }
}

fn sent_body(cache: &ReasoningCache, now: u64) -> Vec<u8> {
    let prepared = prepare_request(
        &config(None),
        "/v1/chat/completions",
        None,
        &HeaderMap::new(),
        REQUEST.to_vec(),
        cache,
        now,
    );
    match prepared {
        Ok(request) => request.body.bytes,
        Err(_) => panic!("refused"),
    }
}

fn numbered(n: u64) -> Vec<u8> {
    format!(
        "{{\"choices\":[{{\"message\":{{\"role\":\"assistant\",\"tool_calls\":[{}],\"reasoning_content\":\"r\"}}}}]}}",
        n
    )
    .into_bytes()
}

#[test]
fn request_is_prepared() {
    let mut headers = HeaderMap::new();
    headers.insert("authorization", HeaderValue::from_static("Bearer tp-1"));
    headers.insert("host", HeaderValue::from_static("localhost"));
    let prepared = prepare_request(
        &config(None),
        "/v1%20/chat/completions",
        Some("a=b"),
        &headers,
        REQUEST.to_vec(),
        &ReasoningCache::new(),
        0,
    );
    match prepared {
        Ok(request) => {
            assert_eq!(request.path, "/chat/completions");
            assert_eq!(request.url, "https://host/v1/chat/completions?a=b");
            assert_eq!(request.headers.len(), 1);
            assert_eq!(request.headers.get("api-key").unwrap(), "tp-1");
            assert_eq!(request.body.bytes, BLANK.to_vec());
            assert!(request.body.modified);
            assert_eq!(request.body.hits, 0);
        }
        Err(_) => panic!("refused"),
    }
}

#[test]
fn request_with_a_bad_key_is_refused() {
    let prepared = prepare_request(
        &config(Some("a\r\nb")),
        "/models",
        None,
        &HeaderMap::new(),
        Vec::new(),
        &ReasoningCache::new(),
        0,
    );
    assert!(matches!(prepared, Err(HeaderError::InvalidApiKey)));
}

#[test]
fn reasoning_comes_back_in_the_next_request() {
    let mut cache = ReasoningCache::new();
    assert_eq!(absorb_response(&config(None), BodyKind::Json, 200, RESPONSE, &mut cache, 7), Some(1));
    assert_eq!(sent_body(&cache, 7), FIXED.to_vec());
    assert_eq!(sent_body(&cache, 106), FIXED.to_vec());
    assert_eq!(sent_body(&cache, 107), BLANK.to_vec());
}

#[test]
fn failures_and_streams_are_not_kept() {
    let mut cache = ReasoningCache::new();
    for status in [100, 199, 300, 404, 500] {
        assert_eq!(absorb_response(&config(None), BodyKind::Json, status, RESPONSE, &mut cache, 7), Some(0));
    }
    assert_eq!(absorb_response(&config(None), BodyKind::Stream, 200, RESPONSE, &mut cache, 7), Some(0));
    assert_eq!(absorb_response(&config(None), BodyKind::Other, 200, RESPONSE, &mut cache, 7), Some(0));
    assert_eq!(cache.len(), 0);
    assert_eq!(absorb_response(&config(None), BodyKind::Json, 299, RESPONSE, &mut cache, 7), Some(1));
    assert_eq!(cache.len(), 1);
}

#[test]
fn reasoning_outlasts_other_responses() {
    let mut config = config(None);
    config.cache_max_size = 3;
    let mut cache = ReasoningCache::new();
    for i in 0..3u64 {
        assert_eq!(absorb_response(&config, BodyKind::Json, 200, &numbered(i), &mut cache, i), Some(1));
    }
    assert_eq!(absorb_response(&config, BodyKind::Json, 200, RESPONSE, &mut cache, 7), Some(1));
    for i in 10..12u64 {
        assert_eq!(absorb_response(&config, BodyKind::Json, 200, &numbered(i), &mut cache, i), Some(1));
        cache.sweep(i);
        assert_eq!(cache.len(), 3);
        assert_eq!(sent_body(&cache, i), FIXED.to_vec());
    }
    assert_eq!(absorb_response(&config, BodyKind::Json, 200, &numbered(12), &mut cache, 12), Some(1));
    assert_eq!(sent_body(&cache, 12), BLANK.to_vec());
}

#[test]
fn with_room_reasoning_stays_until_it_expires() {
    let mut cache = ReasoningCache::new();
    assert_eq!(absorb_response(&config(None), BodyKind::Json, 200, RESPONSE, &mut cache, 7), Some(1));
    for i in 8..17u64 {
        absorb_response(&config(None), BodyKind::Json, 200, &numbered(i), &mut cache, i);
        cache.sweep(i);
    }
    assert_eq!(cache.len(), 10);
    assert_eq!(sent_body(&cache, 106), FIXED.to_vec());
    assert_eq!(sent_body(&cache, 107), BLANK.to_vec());
}

#[test]
fn time_beyond_all_times_is_told() {
    let mut cache = ReasoningCache::new();
    let late = u64::MAX - 99;
    assert_eq!(absorb_response(&config(None), BodyKind::Json, 200, RESPONSE, &mut cache, late), None);
    assert_eq!(cache.len(), 0);
    assert_eq!(absorb_response(&config(None), BodyKind::Json, 404, RESPONSE, &mut cache, late), Some(0));
    assert_eq!(absorb_response(&config(None), BodyKind::Json, 200, b"{}", &mut cache, late), Some(0));
    assert_eq!(absorb_response(&config(None), BodyKind::Json, 200, b"x", &mut cache, late), Some(0));
    assert_eq!(
        absorb_response(&config(None), BodyKind::Json, 200, RESPONSE, &mut cache, late - 1),
        Some(1)
    );
}

#[test]
fn refusals_have_their_status() {
    assert_eq!(refusal_status(Refusal::UnreadableRequest), 400);
    assert_eq!(refusal_status(Refusal::InvalidApiKey), 400);
    assert_eq!(refusal_status(Refusal::UpstreamFailed), 502);
    assert_eq!(refusal_status(Refusal::UnreadableResponse), 502);
}
