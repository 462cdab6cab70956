use mimo_proxy::cache::{cache_key, ReasoningCache};
use mimo_proxy::json::{Json, Member};
use mimo_proxy::messages::{
    cache_choice, cache_response_body, fix_message, fix_request_body, fix_request_messages,
    has_memorable, patch_request, remember_response, Fix,
};
use mimo_proxy::wire::{number, parse, write_bytes, write_text};

const CHAT: &str = "/chat/completions";

fn json(text: &str) -> Json {
    parse(text.as_bytes()).unwrap()
}

fn knowing(content: &str, calls: &str, reasoning: &str) -> ReasoningCache {
    let mut cache = ReasoningCache::new();
    cache.store(cache_key(content, &json(calls)), reasoning.to_string(), 0, 1000, 10);
    cache
}

#[test]
fn json_is_read_and_written() {
    assert_eq!(write_text(&json(" { \"b\" : [ 1 , null ] , \"a\" : true } ")), "{\"a\":true,\"b\":[1,null]}");
    assert_eq!(write_bytes(&json("\"\\u00e9\"")), "\"\u{e9}\"".as_bytes().to_vec());
    assert_eq!(write_text(&number(18446744073709551615)), "18446744073709551615");
    assert_eq!(write_text(&json("[1.5,-2,{}]")), "[1.5,-2,{}]");
    assert!(parse(b"{").is_err());
    assert!(parse(b"").is_err());
}

#[test]
fn later_of_two_members_counts() {
    let twice = json("{\"a\":1,\"a\":2}");
    assert_eq!(write_text(&twice), "{\"a\":2}");
    let built = Json::Object(vec![
        Member { name: "a".to_string(), value: Json::Bool(false) },
        Member { name: "a".to_string(), value: Json::Bool(true) },
    ]);
    assert_eq!(write_text(&built), "{\"a\":true}");
    assert!(matches!(built.get("a"), Some(Json::Bool(true))));
}

#[test]
fn message_gets_the_text_of_the_cache() {
    let cache = knowing("hi", "[{\"id\":\"c1\"}]", "because");
    let mut message =
        json("{\"role\":\"assistant\",\"content\":\"hi\",\"tool_calls\":[{\"id\":\"c1\"}]}");
    assert!(matches!(fix_message(&mut message, &cache, 5), Fix::Restored));
    assert_eq!(
        write_text(&message),
        "{\"content\":\"hi\",\"reasoning_content\":\"because\",\"role\":\"assistant\",\"tool_calls\":[{\"id\":\"c1\"}]}"
    );
}

#[test]
fn message_gets_an_empty_text_on_a_miss() {
    let mut message =
        json("{\"role\":\"assistant\",\"content\":\"hi\",\"tool_calls\":[{\"id\":\"c1\"}]}");
    let cache = ReasoningCache::new();
    assert!(matches!(fix_message(&mut message, &cache, 5), Fix::Blank));
    assert_eq!(
        write_text(&message),
        "{\"content\":\"hi\",\"reasoning_content\":\"\",\"role\":\"assistant\",\"tool_calls\":[{\"id\":\"c1\"}]}"
    );
}

#[test]
fn expired_text_is_a_miss() {
    let cache = knowing("hi", "[1]", "because");
    let mut message = json("{\"role\":\"assistant\",\"content\":\"hi\",\"tool_calls\":[1]}");
    assert!(matches!(fix_message(&mut message, &cache, 1000), Fix::Blank));
}

#[test]
fn missing_and_other_content_counts_as_empty() {
    let cache = knowing("", "[1]", "because");
    for text in [
        "{\"role\":\"assistant\",\"tool_calls\":[1]}",
        "{\"role\":\"assistant\",\"content\":null,\"tool_calls\":[1]}",
        "{\"role\":\"assistant\",\"content\":[\"x\"],\"tool_calls\":[1]}",
    ] {
        assert!(matches!(fix_message(&mut json(text), &cache, 5), Fix::Restored));
    }
}

#[test]
fn other_messages_are_kept() {
    let cache = knowing("", "[1]", "because");
    for text in [
        "{\"role\":\"user\",\"tool_calls\":[1]}",
        "{\"role\":7,\"tool_calls\":[1]}",
        "{\"tool_calls\":[1]}",
        "{\"role\":\"assistant\"}",
        "{\"role\":\"assistant\",\"tool_calls\":null}",
        "{\"role\":\"assistant\",\"tool_calls\":[]}",
        "{\"role\":\"assistant\",\"tool_calls\":{\"a\":1}}",
        "{\"role\":\"assistant\",\"tool_calls\":[1],\"reasoning_content\":null}",
        "{\"role\":\"assistant\",\"tool_calls\":[1],\"reasoning_content\":\"\"}",
        "[1]",
        "\"assistant\"",
    ] {
        let mut message = json(text);
        assert!(matches!(fix_message(&mut message, &cache, 5), Fix::Kept));
        assert_eq!(write_text(&message), write_text(&json(text)));
    }
}

#[test]
fn messages_are_counted() {
    let cache = knowing("", "[1]", "because");
    let mut messages = vec![
        json("{\"role\":\"assistant\",\"tool_calls\":[1]}"),
        json("{\"role\":\"assistant\",\"tool_calls\":[2]}"),
        json("{\"role\":\"user\"}"),
        json("{\"role\":\"assistant\",\"tool_calls\":[1]}"),
    ];
    assert_eq!(fix_request_messages(&mut messages, &cache, 5), (true, 2, 0));
    assert_eq!(fix_request_messages(&mut messages, &cache, 5), (false, 0, 0));
    assert_eq!(fix_request_messages(&mut Vec::new(), &cache, 5), (false, 0, 0));
}

#[test]
fn body_keeps_everything_else() {
    let cache = knowing("", "[1]", "because");
    let mut body = json(
        "{\"model\":\"m\",\"messages\":[{\"role\":\"assistant\",\"tool_calls\":[1]}],\"temperature\":0.5}",
    );
    assert_eq!(fix_request_body(&mut body, &cache, 5), (true, 1));
    assert_eq!(
        write_text(&body),
        "{\"messages\":[{\"reasoning_content\":\"because\",\"role\":\"assistant\",\"tool_calls\":[1]}],\"model\":\"m\",\"temperature\":0.5}"
    );
    for text in ["{\"messages\":{}}", "{}", "[]", "null"] {
        let mut other = json(text);
        assert_eq!(fix_request_body(&mut other, &cache, 5), (false, 0));
        assert_eq!(write_text(&other), text);
    }
}

#[test]
fn chat_request_is_patched() {
    let cache = knowing("", "[1]", "because");
    let body = b"{ \"messages\" : [{\"role\":\"assistant\",\"tool_calls\":[1]}]}".to_vec();
    let patched = patch_request(CHAT, body, &cache, 5);
    assert!(patched.modified);
    assert_eq!(patched.hits, 1);
    assert!(patched.rejected.is_none());
    assert_eq!(
        patched.bytes,
        b"{\"messages\":[{\"reasoning_content\":\"because\",\"role\":\"assistant\",\"tool_calls\":[1]}]}".to_vec()
    );
}

#[test]
fn request_that_lacks_nothing_keeps_its_bytes() {
    let cache = ReasoningCache::new();
    let body = b"{ \"messages\" : [ {\"role\":\"user\"} ] }".to_vec();
    let patched = patch_request(CHAT, body.clone(), &cache, 5);
    assert!(!patched.modified);
    assert_eq!(patched.bytes, body);
}

#[test]
fn other_endpoints_keep_their_bytes() {
    let cache = ReasoningCache::new();
    let body = b"{\"messages\":[{\"role\":\"assistant\",\"tool_calls\":[1]}]}".to_vec();
    for path in ["/models", "/", "/chat", "/chat/completions/x"] {
        let patched = patch_request(path, body.clone(), &cache, 5);
        assert!(!patched.modified);
        assert!(patched.rejected.is_none());
        assert_eq!(patched.bytes, body);
    }
}

#[test]
fn chat_request_that_is_no_json_is_told() {
    let cache = ReasoningCache::new();
    let patched = patch_request(CHAT, b"oops".to_vec(), &cache, 5);
    assert!(!patched.modified);
    assert_eq!(patched.hits, 0);
    assert!(patched.rejected.is_some());
    assert_eq!(patched.bytes, b"oops".to_vec());
    assert!(patch_request("/models", b"oops".to_vec(), &cache, 5).rejected.is_none());
}

#[test]
fn response_is_remembered() {
    let mut cache = ReasoningCache::new();
    let body = json(
        "{\"choices\":[{\"message\":{\"role\":\"assistant\",\"content\":\"c\",\"tool_calls\":[1],\"reasoning_content\":\"why\"}}]}",
    );
    assert_eq!(cache_response_body(&body, &mut cache, 5, 100, 10), 1);
    assert_eq!(cache.recall(&cache_key("c", &json("[1]")), 5), Some("why".to_string()));
}

#[test]
fn other_choices_are_not_remembered() {
    for text in [
        "{}",
        "{\"message\":{\"role\":\"user\",\"tool_calls\":[1],\"reasoning_content\":\"why\"}}",
        "{\"message\":{\"role\":\"assistant\",\"reasoning_content\":\"why\"}}",
        "{\"message\":{\"role\":\"assistant\",\"tool_calls\":[],\"reasoning_content\":\"why\"}}",
        "{\"message\":{\"role\":\"assistant\",\"tool_calls\":[1]}}",
        "{\"message\":{\"role\":\"assistant\",\"tool_calls\":[1],\"reasoning_content\":\"\"}}",
        "{\"message\":{\"role\":\"assistant\",\"tool_calls\":[1],\"reasoning_content\":7}}",
    ] {
        let mut cache = ReasoningCache::new();
        assert!(!cache_choice(&json(text), &mut cache, 5, 100, 10));
        assert_eq!(cache.len(), 0);
    }
}

#[test]
fn choices_are_counted_though_evicted() {
    let mut cache = ReasoningCache::new();
    let body = json(
        "{\"choices\":[{\"message\":{\"role\":\"assistant\",\"tool_calls\":[1],\"reasoning_content\":\"x\"}},{},{\"message\":{\"role\":\"assistant\",\"tool_calls\":[2],\"reasoning_content\":\"y\"}}]}",
    );
    assert_eq!(cache_response_body(&body, &mut cache, 5, 100, 1), 2);
    assert_eq!(cache.len(), 1);
    assert_eq!(cache.recall(&cache_key("", &json("[2]")), 5), Some("y".to_string()));
    assert_eq!(cache_response_body(&json("{\"choices\":3}"), &mut cache, 5, 100, 1), 0);
    assert_eq!(cache_response_body(&json("{}"), &mut cache, 5, 100, 1), 0);
}

#[test]
fn response_that_is_no_json_brings_nothing() {
    let mut cache = ReasoningCache::new();
    assert_eq!(remember_response(b"data: [DONE]", &mut cache, 5, 100, 10), Some(0));
    assert_eq!(cache.len(), 0);
}

#[test]
fn same_response_again_only_renews() {
    let mut cache = knowing("old", "[0]", "older");
    let body = json(
        "{\"choices\":[{\"message\":{\"role\":\"assistant\",\"tool_calls\":[1],\"reasoning_content\":\"x\"}},{\"message\":{\"role\":\"assistant\",\"tool_calls\":[1],\"reasoning_content\":\"y\"}},{\"message\":{\"role\":\"assistant\",\"tool_calls\":[2],\"reasoning_content\":\"z\"}}]}",
    );
    let first = cache_response_body(&body, &mut cache, 5, 100, 3);
    let keys = [
        (cache_key("old", &json("[0]")), "older", 1000, 0),
        (cache_key("", &json("[1]")), "y", 105, 5),
        (cache_key("", &json("[2]")), "z", 105, 5),
    ];
    assert_eq!(first, 3);
    assert_eq!(cache.len(), 3);
    assert_eq!(cache_response_body(&body, &mut cache, 50, 100, 3), first);
    assert_eq!(cache.len(), 3);
    for (key, reasoning, expires_at, inserted_at) in keys {
        let entry = cache.get(&key).unwrap();
        assert_eq!(entry.reasoning, reasoning);
        assert!(entry.expires_at >= expires_at);
        assert!(entry.inserted_at >= inserted_at);
    }
}

#[test]
fn cache_holds_only_what_responses_told() {
    let mut cache = ReasoningCache::new();
    let body = json(
        "{\"choices\":[{\"message\":{\"role\":\"user\",\"tool_calls\":[1],\"reasoning_content\":\"x\"}},{\"message\":{\"role\":\"assistant\",\"content\":\"c\",\"tool_calls\":[2],\"reasoning_content\":\"z\"}}]}",
    );
    assert_eq!(cache_response_body(&body, &mut cache, 5, 100, 3), 1);
    cache.sweep(6);
    assert_eq!(cache_response_body(&json("{\"choices\":[]}"), &mut cache, 7, 100, 3), 0);
    assert_eq!(cache.len(), 1);
    assert_eq!(cache.recall(&cache_key("c", &json("[2]")), 7), Some("z".to_string()));
    assert_eq!(cache.sweep(105), 1);
    assert_eq!(cache.len(), 0);
}

#[test]
fn response_without_texts_needs_no_time() {
    let mut cache = ReasoningCache::new();
    let empty = json("{\"choices\":[{\"message\":{\"role\":\"assistant\"}}]}");
    assert!(!has_memorable(&empty));
    assert!(!has_memorable(&json("{}")));
    assert_eq!(cache_response_body(&empty, &mut cache, u64::MAX, u64::MAX, 10), 0);
    assert!(has_memorable(&json(
        "{\"choices\":[{},{\"message\":{\"role\":\"assistant\",\"tool_calls\":[1],\"reasoning_content\":\"x\"}}]}"
    )));
}
