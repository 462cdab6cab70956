use axum::http::{HeaderName, HeaderValue};
use mimo_proxy::log::{
    patch_notice, preview, preview_body, show_value, REQUEST_PREVIEW, RESPONSE_PREVIEW,
};
use mimo_proxy::status::{
    health_check, status_page, CACHE_CLEAN_INTERVAL_SECS, CACHE_MAX_SIZE, CACHE_TTL, CACHE_TTL_SECS,
    LISTEN_PORT, NANOS_PER_SEC,
};
use mimo_proxy::text::write_number;
use mimo_proxy::wire::write_text;

fn shown(name: &'static str, value: &[u8]) -> String {
    show_value(&HeaderName::from_static(name), &HeaderValue::from_bytes(value).unwrap())
}

#[test]
fn api_key_is_masked() {
    assert_eq!(shown("api-key", b"tp-ctus0ahnh"), "tp-ctu...");
    assert_eq!(shown("api-key", b"abc"), "abc...");
    assert_eq!(shown("api-key", b""), "...");
    assert_eq!(shown("api-key", b"\xff"), "???...");
}

#[test]
fn other_fields_are_shown_whole() {
    assert_eq!(shown("x-other", b"tp-ctus0ahnh"), "tp-ctus0ahnh");
    assert_eq!(shown("x-other", b"\xff"), "???");
}

#[test]
fn short_bodies_are_shown_whole() {
    assert_eq!(preview_body(b"abc", 3), "abc");
    assert_eq!(preview_body(b"", REQUEST_PREVIEW), "");
    assert_eq!(preview_body(&[b'x'; 500], RESPONSE_PREVIEW), "x".repeat(500));
    assert_eq!(preview_body("\u{e9}".as_bytes(), 2), "\u{e9}");
}

#[test]
fn long_bodies_are_cut() {
    assert_eq!(preview_body(b"abcdef", 4), "abcd...[truncated 2 chars]");
    assert_eq!(
        preview_body(&[b'x'; 1234], REQUEST_PREVIEW),
        format!("{}...[truncated 1034 chars]", "x".repeat(200))
    );
    assert_eq!(preview("abc", 0), "...[truncated 3 chars]");
    assert_eq!(preview_body("a\u{e9}b".as_bytes(), 3), "a\u{e9}...[truncated 1 chars]");
}

#[test]
fn cut_does_not_split_a_character() {
    assert_eq!(preview_body("a\u{e9}b".as_bytes(), 2), "a...[truncated 3 chars]");
    assert_eq!(preview("\u{1f600}x", 3), "...[truncated 5 chars]");
    let body = "\u{6587}".repeat(100);
    assert_eq!(
        preview_body(body.as_bytes(), REQUEST_PREVIEW),
        format!("{}...[truncated 102 chars]", "\u{6587}".repeat(66))
    );
}

#[test]
fn malformed_bytes_are_replaced() {
    assert_eq!(preview_body(b"a\xff", 10), "a\u{fffd}");
    assert_eq!(preview_body(b"a\xff", 2), "a...[truncated 3 chars]");
}

#[test]
fn health_report_is_short() {
    assert_eq!(
        write_text(&health_check("http://h/v1", 3)),
        "{\"cache_size\":3,\"fix_reasoning_content\":true,\"status\":\"ok\",\"target_base_url\":\"http://h/v1\"}"
    );
}

#[test]
fn status_report_is_full() {
    assert_eq!(
        write_text(&status_page("http://h/v1", 3, CACHE_MAX_SIZE, CACHE_TTL)),
        "{\"cache_max\":2000,\"cache_size\":3,\"cache_ttl_secs\":7200,\"fix_reasoning_content\":true,\"status\":\"ok\",\"target_base_url\":\"http://h/v1\"}"
    );
    assert_eq!(
        write_text(&status_page("", 0, 1, NANOS_PER_SEC * 2 - 1)),
        "{\"cache_max\":1,\"cache_size\":0,\"cache_ttl_secs\":1,\"fix_reasoning_content\":true,\"status\":\"ok\",\"target_base_url\":\"\"}"
    );
}

#[test]
fn defaults_are_as_documented() {
    assert_eq!(LISTEN_PORT, 8899);
    assert_eq!(CACHE_MAX_SIZE, 2000);
    assert_eq!(CACHE_TTL_SECS, 7200);
    assert_eq!(CACHE_CLEAN_INTERVAL_SECS, 60);
    assert_eq!(CACHE_TTL, CACHE_TTL_SECS * NANOS_PER_SEC);
}

#[test]
fn numbers_are_written_in_their_base() {
    assert_eq!(write_number(0, 16), "0");
    assert_eq!(write_number(255, 16), "ff");
    assert_eq!(write_number(18446744073709551615, 16), "ffffffffffffffff");
    assert_eq!(write_number(1034, 10), "1034");
}

#[test]
fn keys_with_one_beginning_look_the_same() {
    assert_eq!(shown("api-key", b"tp-ctus0ahnh"), shown("api-key", b"tp-ctuxxxx"));
}

#[test]
fn patches_are_told() {
    assert_eq!(
        patch_notice(true, 1),
        Some("[PATCH] Injected 1 reasoning_content from cache".to_string())
    );
    assert_eq!(
        patch_notice(true, 12),
        Some("[PATCH] Injected 12 reasoning_content from cache".to_string())
    );
    assert_eq!(
        patch_notice(true, 0),
        Some("[PATCH] Injected empty reasoning_content for API compliance".to_string())
    );
    assert_eq!(patch_notice(false, 0), None);
}
