//! What holds of a conversation that passes through the proxy.
use crate::cache::{distinct_keys, ReasoningCache, SlotView};
use crate::headers::{
    body_kind_of, content_type_of, header_fields, upstream_fields, BodyKind, HeaderError,
};
use crate::headers_laws::{
    a_configured_key_is_sent, only_a_configured_key_is_refused, printable, stands_in,
    the_content_type_tells_the_kind,
};
use crate::history_laws::{
    a_message_gets_its_reasoning_back_later, after, happen_within, key_untold, key_untold_in,
    texts_in, Event,
};
use crate::json::JsonView;
use crate::messages::{
    all_fixed, any_lacks, content_text, fixed, fixed_body, is_memorable, lacks_reasoning,
    message_key, messages_of, patched_bytes, remembered, CHAT_PATH,
};
use crate::messages_laws::none_later;
use crate::proxy::{choices_to_keep, is_success, prepare_request, ProxyConfig, UpstreamRequest};
use crate::route::{cleaned, decoded, decodes, upstream};
use axum::http::{HeaderMap, HeaderValue};
use crate::text::contains_text;
use crate::wire::{json_text, parsed_json};
use vstd::prelude::*;
use vstd::utf8::encode_utf8;

verus! {

/// A stream of events, and a response that does not tell of success, leave the cache as it is,
/// whatever their bytes.
pub proof fn streams_and_failures_are_not_kept(
    fields: Map<Seq<char>, Seq<Seq<u8>>>,
    status: u16,
    body: Seq<u8>,
    slots: Seq<SlotView>,
    now: u64,
    ttl: u64,
    max_size: nat,
)
    requires
        contains_text(content_type_of(fields), "event-stream"@) || !is_success(status),
    ensures
        remembered(
            slots,
            choices_to_keep(body_kind_of(fields), status, body),
            now,
            ttl,
            max_size,
        ) == slots,
{
}

/// A chat request that sends a message of an earlier response back without its reasoning text, but
/// with the same content and the same tool calls, goes upstream with that reasoning text in the
/// message. That holds until the text expires, whatever other responses come in meanwhile and however
/// often the cache is swept, where fewer texts came in behind it than the cache may hold and none of
/// them under the same key.
pub proof fn a_conversation_keeps_its_reasoning(
    slots: Seq<SlotView>,
    status: u16,
    response: Seq<u8>,
    at: int,
    events: Seq<Event>,
    request: Seq<u8>,
    i: int,
    now: u64,
    ttl: u64,
    max_size: nat,
    later: u64,
)
    requires
        distinct_keys(slots),
        none_later(slots, now),
        now + ttl <= u64::MAX,
        happen_within(events, now, later),
        now <= later < now + ttl,
        ({
            let choices = choices_to_keep(BodyKind::Json, status, response);
            let key = message_key(choices[at].member("message"@)->0);
            &&& 0 <= at < choices.len()
            &&& choices.len() - at + texts_in(events) <= max_size
            &&& is_memorable(choices[at])
            &&& key_untold(choices.skip(at + 1), key)
            &&& key_untold_in(events, key)
        }),
        parsed_json(request) is Some,
        messages_of(parsed_json(request)->0) is Some,
        ({
            let messages = messages_of(parsed_json(request)->0)->0;
            let said = choices_to_keep(BodyKind::Json, status, response)[at].member("message"@)->0;
            &&& 0 <= i < messages.len()
            &&& lacks_reasoning(messages[i])
            &&& content_text(messages[i]) == content_text(said)
            &&& messages[i].member("tool_calls"@) == said.member("tool_calls"@)
        }),
    ensures
        ({
            let choices = choices_to_keep(BodyKind::Json, status, response);
            let known = after(remembered(slots, choices, now, ttl, max_size), events, max_size);
            let document = fixed_body(parsed_json(request)->0, known, later);
            &&& patched_bytes(CHAT_PATH@, request, known, later) == encode_utf8(json_text(document))
            &&& messages_of(document) is Some
            &&& messages_of(document)->0[i] == messages_of(parsed_json(request)->0)->0[i].with_member(
                "reasoning_content"@,
                choices[at].member("message"@)->0.member("reasoning_content"@)->0,
            )
        }),
{
    let choices = choices_to_keep(BodyKind::Json, status, response);
    let known = after(remembered(slots, choices, now, ttl, max_size), events, max_size);
    let messages = messages_of(parsed_json(request)->0)->0;
    assert(any_lacks(messages));
    assert(all_fixed(messages, known, later)[i] == fixed(messages[i], known, later));
    a_message_gets_its_reasoning_back_later(
        slots,
        choices,
        at,
        events,
        messages[i],
        now,
        ttl,
        max_size,
        later,
    );
}

/// Of a response that comes with success, whose content type holds `application/json` and not
/// `event-stream`, all choices are kept, and of any other response none.
pub proof fn a_successful_json_response_is_kept(
    fields: Map<Seq<char>, Seq<Seq<u8>>>,
    status: u16,
    body: Seq<u8>,
)
    ensures
        ({
            let value = fields["content-type"@][0];
            let kept = choices_to_keep(body_kind_of(fields), status, body);
            let is_json = fields.contains_key("content-type"@) && printable(value) && stands_in(
                value,
                "application/json"@,
            ) && !stands_in(value, "event-stream"@);
            &&& is_json && 200 <= status <= 299 ==> forall|
                members: Map<Seq<char>, JsonView>,
                choices: Seq<JsonView>,
            |
                parsed_json(body) == Some(JsonView::Object(members))
                    && #[trigger] members.contains_pair("choices"@, JsonView::Array(choices)) ==> kept
                    == choices
            &&& !is_json || status < 200 || status > 299 || parsed_json(body) is None ==> kept.len()
                == 0
        }),
{
    the_content_type_tells_the_kind(fields);
}

/// A request that is prepared goes to the cleaned path at the configured address, with the query as
/// it came, the fields that go upstream, and its body patched by the path that it goes to.
pub proof fn a_prepared_request_is_what_was_asked_for(
    config: &ProxyConfig,
    raw_path: &str,
    query: Option<&str>,
    headers: &HeaderMap<HeaderValue>,
    body: Vec<u8>,
    cache: &ReasoningCache,
    now: u64,
    request: UpstreamRequest,
)
    requires
        call_ensures(
            prepare_request,
            (config, raw_path, query, headers, body, cache, now),
            Ok(request),
        ),
    ensures
        decodes(raw_path@) ==> request.path@ == upstream(cleaned(decoded(raw_path@))),
        query is None ==> request.url@ == config.target_base_url@ + request.path@,
        query is Some ==> request.url@ == (config.target_base_url@ + request.path@).push('?')
            + query->0@,
        config.target_api_key is Some ==> header_fields(request.headers) == upstream_fields(
            Some(config.target_api_key->0@),
            header_fields(*headers),
        ),
        config.target_api_key is None ==> header_fields(request.headers) == upstream_fields(
            None,
            header_fields(*headers),
        ),
        request.body.bytes@ == patched_bytes(request.path@, body@, cache@, now),
{
    if let Some(q) = query {
        assert(request.url@ =~= (config.target_base_url@ + request.path@).push('?') + q@);
    }
}

/// A request is refused for its key only where the configured key holds a control character other
/// than a tab.
pub proof fn a_request_is_refused_for_a_configured_key(
    config: &ProxyConfig,
    raw_path: &str,
    query: Option<&str>,
    headers: &HeaderMap<HeaderValue>,
    body: Vec<u8>,
    cache: &ReasoningCache,
    now: u64,
    prepared: Result<UpstreamRequest, HeaderError>,
)
    requires
        call_ensures(
            prepare_request,
            (config, raw_path, query, headers, body, cache, now),
            prepared,
        ),
        5 * header_fields(*headers).dom().len() < 32768,
    ensures
        prepared is Err <==> {
            &&& config.target_api_key is Some
            &&& exists|i: int|
                0 <= i < encode_utf8(config.target_api_key->0@).len() && {
                    let byte = #[trigger] encode_utf8(config.target_api_key->0@)[i];
                    (byte < 32 || byte == 127) && byte != 9
                }
        },
        prepared is Err ==> prepared->Err_0 is InvalidApiKey,
{
    let fields = header_fields(*headers);
    only_a_configured_key_is_refused(fields);
    if let Some(key) = config.target_api_key {
        a_configured_key_is_sent(key@, fields);
    }
}

} // verus!
