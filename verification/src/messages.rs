//! Chat messages: putting missing reasoning texts into requests, and remembering those of
//! responses.
use crate::cache::{cache_key, key_of, recalled, stored, ReasoningCache, SlotView};
use crate::json::{
    items_view, items_view_at, member_index, members_view, Json, JsonView, Member,
};
use crate::text::same_text;
use crate::wire::{json_text, parse, parsed_json, write_bytes};
use vstd::prelude::*;
use vstd::utf8::encode_utf8;

verus! {

/// The path of the one endpoint whose requests are looked into.
pub const CHAT_PATH: &'static str = "/chat/completions";

/// Whether a message is the assistant's.
pub open spec fn is_assistant(message: JsonView) -> bool {
    message.member("role"@) == Some(JsonView::Text("assistant"@))
}

/// Whether a message calls tools: its `tool_calls` is an array with something in it.
pub open spec fn has_tool_calls(message: JsonView) -> bool {
    match message.member("tool_calls"@) {
        Some(JsonView::Array(calls)) => calls.len() > 0,
        _ => false,
    }
}

/// Whether a message has a `reasoning_content`, whatever that is.
pub open spec fn has_reasoning(message: JsonView) -> bool {
    message.member("reasoning_content"@) is Some
}

/// The content of a message: empty where it is no text.
pub open spec fn content_text(message: JsonView) -> Seq<char> {
    match message.member("content"@) {
        Some(JsonView::Text(text)) => text,
        _ => seq![],
    }
}

/// The key of a message that calls tools.
pub open spec fn message_key(message: JsonView) -> Seq<char> {
    key_of(content_text(message), message.member("tool_calls"@)->0)
}

/// Whether a message lacks the reasoning text that the API asks for: the assistant's messages that
/// call tools must have one.
pub open spec fn lacks_reasoning(message: JsonView) -> bool {
    is_assistant(message) && has_tool_calls(message) && !has_reasoning(message)
}

/// The message with the reasoning text that it lacks: the one that the cache has for it at time
/// `now`, or else an empty one. A message that lacks none stays as it is.
pub open spec fn fixed(message: JsonView, slots: Seq<SlotView>, now: u64) -> JsonView {
    if lacks_reasoning(message) {
        message.with_member(
            "reasoning_content"@,
            JsonView::Text(
                match recalled(slots, message_key(message), now) {
                    Some(reasoning) => reasoning,
                    None => seq![],
                },
            ),
        )
    } else {
        message
    }
}

/// Whether a message lacks a reasoning text that the cache has at time `now`.
pub open spec fn is_hit(message: JsonView, slots: Seq<SlotView>, now: u64) -> bool {
    lacks_reasoning(message) && recalled(slots, message_key(message), now) is Some
}

/// The messages of a chat request: its `messages`, where that is an array.
pub open spec fn messages_of(body: JsonView) -> Option<Seq<JsonView>> {
    match body.member("messages"@) {
        Some(JsonView::Array(messages)) => Some(messages),
        _ => None,
    }
}

/// Each of `messages` with the reasoning text that it lacks.
pub open spec fn all_fixed(messages: Seq<JsonView>, slots: Seq<SlotView>, now: u64) -> Seq<
    JsonView,
> {
    messages.map_values(|message: JsonView| fixed(message, slots, now))
}

/// The number of messages that lack a reasoning text that the cache has.
pub open spec fn hits_in(messages: Seq<JsonView>, slots: Seq<SlotView>, now: u64) -> nat {
    messages.filter(|message: JsonView| is_hit(message, slots, now)).len()
}

/// Whether some message lacks a reasoning text.
pub open spec fn any_lacks(messages: Seq<JsonView>) -> bool {
    exists|i: int| 0 <= i < messages.len() && lacks_reasoning(#[trigger] messages[i])
}

/// The chat request with its messages fixed.
pub open spec fn fixed_body(body: JsonView, slots: Seq<SlotView>, now: u64) -> JsonView {
    match messages_of(body) {
        Some(messages) => body.with_member(
            "messages"@,
            JsonView::Array(all_fixed(messages, slots, now)),
        ),
        None => body,
    }
}

/// Whether a member is this text.
fn member_is(document: &Json, name: &str, text: &str) -> (same: bool)
    ensures
        same == (document@.member(name@) == Some(JsonView::Text(text@))),
{
    match document.get(name) {
        Some(value) => match value.as_text() {
            Some(found) => same_text(found, text),
            None => false,
        },
        None => false,
    }
}

/// The tool calls of a message, where there are any.
fn tool_calls(message: &Json) -> (calls: Option<&Json>)
    ensures
        calls is Some <==> has_tool_calls(message@),
        calls is Some ==> message@.member("tool_calls"@) == Some(calls->0@),
{
    match message.get("tool_calls") {
        Some(value) => match value.as_array() {
            Some(items) => {
                proof {
                    items_view_at(items@);
                }
                if items.len() > 0 {
                    Some(value)
                } else {
                    None
                }
            },
            None => None,
        },
        None => None,
    }
}

/// The content of a message.
fn content(message: &Json) -> (text: &str)
    ensures
        text@ == content_text(message@),
{
    proof {
        reveal_strlit("");
        assert(""@ =~= seq![]);
    }
    match message.get("content") {
        Some(value) => match value.as_text() {
            Some(text) => text,
            None => "",
        },
        None => "",
    }
}

/// What became of a message.
pub enum Fix {
    /// It lacked nothing.
    Kept,
    /// It got the reasoning text that the cache had.
    Restored,
    /// It got an empty reasoning text: the cache had none.
    Blank,
}

/// Puts the reasoning text into a message that lacks it.
pub fn fix_message(message: &mut Json, cache: &ReasoningCache, now: u64) -> (fix: Fix)
    ensures
        final(message)@ == fixed(old(message)@, cache@, now),
        fix is Kept <==> !lacks_reasoning(old(message)@),
        fix is Restored <==> is_hit(old(message)@, cache@, now),
{
    if !member_is(message, "role", "assistant") {
        return Fix::Kept;
    }
    let key = match tool_calls(message) {
        Some(calls) => match message.get("reasoning_content") {
            Some(_) => None,
            None => Some(cache_key(content(message), calls)),
        },
        None => None,
    };
    match key {
        Some(key) => match cache.recall(key.as_str(), now) {
            Some(reasoning) => {
                message.set("reasoning_content".to_owned(), Json::Text(reasoning));
                Fix::Restored
            },
            None => {
                message.set("reasoning_content".to_owned(), Json::Text(String::new()));
                Fix::Blank
            },
        },
        None => Fix::Kept,
    }
}

/// Puts the reasoning texts into the messages that lack them. Tells whether any did, for how many
/// the cache had the text, and zero.
pub fn fix_request_messages(messages: &mut Vec<Json>, cache: &ReasoningCache, now: u64) -> (done: (
    bool,
    usize,
    usize,
))
    ensures
        items_view(final(messages)@) == all_fixed(items_view(old(messages)@), cache@, now),
        done.0 == any_lacks(items_view(old(messages)@)),
        done.1 == hits_in(items_view(old(messages)@), cache@, now),
        done.2 == 0,
{
    let ghost given = items_view(messages@);
    let ghost hit = |message: JsonView| is_hit(message, cache@, now);
    let mut modified = false;
    let mut hits: usize = 0;
    let mut i: usize = 0;
    proof {
        items_view_at(messages@);
        assert(given.take(0) =~= Seq::empty());
        reveal(Seq::filter);
    }
    while i < messages.len()
        invariant
            i <= messages@.len() == given.len(),
            hits <= i,
            hit == (|message: JsonView| is_hit(message, cache@, now)),
            forall|j: int| 0 <= j < i ==> (#[trigger] messages@[j])@ == fixed(given[j], cache@, now),
            forall|j: int| i <= j < messages@.len() ==> (#[trigger] messages@[j])@ == given[j],
            modified == any_lacks(given.take(i as int)),
            hits == given.take(i as int).filter(hit).len(),
        decreases messages@.len() - i,
    {
        let ghost before = messages@;
        let fix = fix_message(&mut messages[i], cache, now);
        proof {
            let done = given.take(i as int);
            let more = given.take(i + 1);
            assert(more.drop_last() == done);
            assert(more.last() == given[i as int]);
            reveal(Seq::filter);
            assert(any_lacks(more) == (any_lacks(done) || lacks_reasoning(given[i as int]))) by {
                if any_lacks(done) {
                    let j = choose|j: int| 0 <= j < done.len() && lacks_reasoning(
                        #[trigger] done[j],
                    );
                    assert(more[j] == done[j]);
                }
                if lacks_reasoning(given[i as int]) {
                    assert(lacks_reasoning(more[i as int]));
                }
                if any_lacks(more) {
                    let j = choose|j: int| 0 <= j < more.len() && lacks_reasoning(
                        #[trigger] more[j],
                    );
                    if j < i {
                        assert(done[j] == more[j]);
                    }
                }
            }
        }
        match fix {
            Fix::Kept => {},
            Fix::Restored => {
                modified = true;
                hits = hits + 1;
            },
            Fix::Blank => {
                modified = true;
            },
        }
        i = i + 1;
    }
    proof {
        assert(given.take(given.len() as int) == given);
        items_view_at(messages@);
        assert(items_view(messages@) =~= all_fixed(given, cache@, now));
    }
    (modified, hits, 0)
}

/// Replacing the member that counts replaces it in what the object says.
proof fn replaced_member(members: Seq<Member>, at: int, member: Member)
    requires
        0 <= at < members.len(),
        member.name@ == members[at].name@,
        forall|j: int| at < j < members.len() ==> (#[trigger] members[j]).name@ != member.name@,
    ensures
        members_view(members.update(at, member)) == members_view(members).insert(
            member.name@,
            member.value@,
        ),
    decreases members.len(),
{
    let new = members.update(at, member);
    if at == members.len() - 1 {
        assert(new.drop_last() =~= members.drop_last());
        assert(members_view(new) =~= members_view(members).insert(member.name@, member.value@));
    } else {
        assert(new.drop_last() =~= members.drop_last().update(at, member));
        assert(new.last() == members.last());
        replaced_member(members.drop_last(), at, member);
        assert(members[members.len() - 1].name@ != member.name@);
        assert(members_view(new) =~= members_view(members).insert(member.name@, member.value@));
    }
}

/// Puts the reasoning texts into the messages of a chat request that lack them. Tells whether any
/// did and for how many the cache had the text.
pub fn fix_request_body(body: &mut Json, cache: &ReasoningCache, now: u64) -> (done: (bool, usize))
    ensures
        final(body)@ == fixed_body(old(body)@, cache@, now),
        done.0 == match messages_of(old(body)@) {
            Some(messages) => any_lacks(messages),
            None => false,
        },
        done.1 == match messages_of(old(body)@) {
            Some(messages) => hits_in(messages, cache@, now),
            None => 0,
        },
{
    match body {
        Json::Object(members) => match member_index(members, "messages") {
            Some(at) => {
                let ghost before = members@;
                let done = match &mut members[at].value {
                    Json::Array(messages) => {
                        let (modified, hits, _) = fix_request_messages(messages, cache, now);
                        (modified, hits)
                    },
                    _ => (false, 0),
                };
                proof {
                    assert(members@ =~= before.update(at as int, members@[at as int]));
                    replaced_member(before, at as int, members@[at as int]);
                    if !(before[at as int].value is Array) {
                        assert(members@ =~= before);
                    }
                }
                done
            },
            None => (false, 0),
        },
        _ => (false, 0),
    }
}

/// The body of a request on its way upstream.
pub struct PatchedBody {
    pub bytes: Vec<u8>,
    /// Whether a message got a reasoning text.
    pub modified: bool,
    /// For how many messages the cache had the reasoning text.
    pub hits: usize,
    /// Why the body of a chat request is no JSON, where it is none.
    pub rejected: Option<serde_json::Error>,
}

/// The JSON in the body of a request that is to be looked into.
pub open spec fn chat_request(path: Seq<char>, body: Seq<u8>) -> Option<JsonView> {
    if path == CHAT_PATH@ {
        parsed_json(body)
    } else {
        None
    }
}

/// The bytes that go upstream for a request body: those of the fixed JSON where a chat message lacks
/// its reasoning text, and the body itself everywhere else.
pub open spec fn patched_bytes(
    path: Seq<char>,
    body: Seq<u8>,
    slots: Seq<SlotView>,
    now: u64,
) -> Seq<u8> {
    match chat_request(path, body) {
        Some(document) => match messages_of(document) {
            Some(messages) => if any_lacks(messages) {
                encode_utf8(json_text(fixed_body(document, slots, now)))
            } else {
                body
            },
            None => body,
        },
        None => body,
    }
}

/// Whether `patched` is what becomes of the body of a request to `path`: the bytes that go upstream,
/// whether a message got a reasoning text, for how many the cache had it, and whether the body of a
/// chat request is no JSON.
pub open spec fn is_patch(
    patched: PatchedBody,
    path: Seq<char>,
    body: Seq<u8>,
    slots: Seq<SlotView>,
    now: u64,
) -> bool {
    let messages = match chat_request(path, body) {
        Some(document) => messages_of(document),
        None => None,
    };
    &&& patched.bytes@ == patched_bytes(path, body, slots, now)
    &&& patched.modified == (messages is Some && any_lacks(messages->0))
    &&& patched.hits == match messages {
        Some(messages) => hits_in(messages, slots, now),
        None => 0,
    }
    &&& patched.rejected is Some <==> path == CHAT_PATH@ && parsed_json(body) is None
}

/// Puts the missing reasoning texts into the body of a request to `path`.
pub fn patch_request(path: &str, body: Vec<u8>, cache: &ReasoningCache, now: u64) -> (patched:
    PatchedBody)
    ensures
        is_patch(patched, path@, body@, cache@, now),
{
    if !same_text(path, CHAT_PATH) {
        return PatchedBody { bytes: body, modified: false, hits: 0, rejected: None };
    }
    match parse(body.as_slice()) {
        Ok(document) => {
            let mut document = document;
            let (modified, hits) = fix_request_body(&mut document, cache, now);
            let bytes = if modified {
                write_bytes(&document)
            } else {
                body
            };
            PatchedBody { bytes, modified, hits, rejected: None }
        },
        Err(error) => PatchedBody { bytes: body, modified: false, hits: 0, rejected: Some(error) },
    }
}

/// Whether a choice of a chat response holds something to remember: an assistant's message that
/// calls tools, with a reasoning text that is not empty.
pub open spec fn is_memorable(choice: JsonView) -> bool {
    match choice.member("message"@) {
        Some(message) => match message.member("reasoning_content"@) {
            Some(JsonView::Text(reasoning)) => is_assistant(message) && has_tool_calls(message)
                && reasoning.len() > 0,
            _ => false,
        },
        None => false,
    }
}

/// Whether one of these choices holds something to remember.
pub open spec fn any_memorable(choices: Seq<JsonView>) -> bool {
    exists|i: int| 0 <= i < choices.len() && is_memorable(#[trigger] choices[i])
}

/// What the cache is to hold of a choice of a chat response, put in at time `now` to count for
/// `ttl`: the reasoning text, where there is something to remember.
pub open spec fn choice_slot(choice: JsonView, now: u64, ttl: u64) -> Option<SlotView> {
    if is_memorable(choice) {
        let message = choice.member("message"@)->0;
        Some(
            SlotView {
                key: message_key(message),
                reasoning: message.member("reasoning_content"@)->0->Text_0,
                expires_at: (now + ttl) as u64,
                inserted_at: now,
            },
        )
    } else {
        None
    }
}

/// The choices of a chat response: its `choices`, where that is an array.
pub open spec fn choices_of(body: JsonView) -> Seq<JsonView> {
    match body.member("choices"@) {
        Some(JsonView::Array(choices)) => choices,
        _ => seq![],
    }
}

/// The cache after it has taken in these choices, one after the other.
pub open spec fn remembered(
    slots: Seq<SlotView>,
    choices: Seq<JsonView>,
    now: u64,
    ttl: u64,
    max_size: nat,
) -> Seq<SlotView>
    decreases choices.len(),
{
    if choices.len() == 0 {
        slots
    } else {
        let before = remembered(slots, choices.drop_last(), now, ttl, max_size);
        match choice_slot(choices.last(), now, ttl) {
            Some(slot) => stored(before, slot, now, max_size),
            None => before,
        }
    }
}

/// The number of choices that the cache takes in.
pub open spec fn memorable(choices: Seq<JsonView>, now: u64, ttl: u64) -> nat {
    choices.filter(|choice: JsonView| choice_slot(choice, now, ttl) is Some).len()
}

/// The parts of a choice that holds something to remember: the message, its tool calls and its
/// reasoning text.
fn memorable_parts(choice: &Json) -> (parts: Option<(&Json, &Json, &str)>)
    ensures
        parts is Some <==> is_memorable(choice@),
        parts is Some ==> {
            let (message, calls, reasoning) = parts->0;
            &&& choice@.member("message"@) == Some(message@)
            &&& message@.member("tool_calls"@) == Some(calls@)
            &&& message@.member("reasoning_content"@) == Some(JsonView::Text(reasoning@))
        },
{
    let message = match choice.get("message") {
        Some(message) => message,
        None => return None,
    };
    if !member_is(message, "role", "assistant") {
        return None;
    }
    let reasoning = match message.get("reasoning_content") {
        Some(value) => match value.as_text() {
            Some(text) => text,
            None => return None,
        },
        None => return None,
    };
    let calls = match tool_calls(message) {
        Some(calls) => calls,
        None => return None,
    };
    if reasoning.is_empty() {
        return None;
    }
    Some((message, calls, reasoning))
}

/// Takes a choice of a chat response into the cache; tells whether there was anything to take.
pub fn cache_choice(
    choice: &Json,
    cache: &mut ReasoningCache,
    now: u64,
    ttl: u64,
    max_size: usize,
) -> (taken: bool)
    requires
        old(cache).well_formed(),
        is_memorable(choice@) ==> now + ttl <= u64::MAX,
    ensures
        final(cache).well_formed(),
        taken == is_memorable(choice@),
        final(cache)@ == match choice_slot(choice@, now, ttl) {
            Some(slot) => stored(old(cache)@, slot, now, max_size as nat),
            None => old(cache)@,
        },
{
    match memorable_parts(choice) {
        Some((message, calls, reasoning)) => {
            let key = cache_key(content(message), calls);
            cache.store(key, reasoning.to_owned(), now, ttl, max_size);
            true
        },
        None => false,
    }
}

/// The choices of a chat response, where it has any.
fn choices(body: &Json) -> (found: Option<&Vec<Json>>)
    ensures
        match found {
            Some(items) => items_view(items@) == choices_of(body@),
            None => choices_of(body@) == Seq::<JsonView>::empty(),
        },
{
    match body.get("choices") {
        Some(value) => value.as_array(),
        None => None,
    }
}

/// Whether a chat response holds something to remember.
pub fn has_memorable(body: &Json) -> (found: bool)
    ensures
        found == any_memorable(choices_of(body@)),
{
    let items = match choices(body) {
        Some(items) => items,
        None => return false,
    };
    proof {
        items_view_at(items@);
    }
    let ghost given = choices_of(body@);
    let mut i: usize = 0;
    while i < items.len()
        invariant
            i <= items@.len() == given.len(),
            given == choices_of(body@),
            forall|j: int| 0 <= j < given.len() ==> #[trigger] given[j] == items@[j]@,
            forall|j: int| 0 <= j < i ==> !is_memorable(#[trigger] given[j]),
        decreases items@.len() - i,
    {
        if memorable_parts(&items[i]).is_some() {
            proof {
                assert(is_memorable(given[i as int]));
            }
            return true;
        }
        i = i + 1;
    }
    false
}

/// Takes the choices of a chat response into the cache, each to count for `ttl` from time `now` on;
/// tells how many those were.
pub fn cache_response_body(
    body: &Json,
    cache: &mut ReasoningCache,
    now: u64,
    ttl: u64,
    max_size: usize,
) -> (cached: usize)
    requires
        old(cache).well_formed(),
        any_memorable(choices_of(body@)) ==> now + ttl <= u64::MAX,
    ensures
        final(cache).well_formed(),
        final(cache)@ == remembered(
            old(cache)@,
            choices_of(body@),
            now,
            ttl,
            max_size as nat,
        ),
        cached == memorable(choices_of(body@), now, ttl),
{
    proof {
        reveal(Seq::filter);
    }
    let items = match choices(body) {
        Some(items) => items,
        None => return 0,
    };
    let ghost slots = cache@;
    let ghost given = choices_of(body@);
    let ghost taking = |choice: JsonView| choice_slot(choice, now, ttl) is Some;
    let mut cached: usize = 0;
    let mut i: usize = 0;
    proof {
        items_view_at(items@);
        assert(given.take(0) =~= Seq::empty());
    }
    while i < items.len()
        invariant
            i <= items@.len() == given.len(),
            cached <= i,
            cache.well_formed(),
            any_memorable(given) ==> now + ttl <= u64::MAX,
            taking == (|choice: JsonView| choice_slot(choice, now, ttl) is Some),
            forall|j: int| 0 <= j < given.len() ==> #[trigger] given[j] == items@[j]@,
            cache@ == remembered(slots, given.take(i as int), now, ttl, max_size as nat),
            cached == given.take(i as int).filter(taking).len(),
        decreases items@.len() - i,
    {
        proof {
            let more = given.take(i + 1);
            assert(more.drop_last() == given.take(i as int));
            assert(more.last() == given[i as int]);
            reveal(Seq::filter);
        }
        if cache_choice(&items[i], cache, now, ttl, max_size) {
            cached = cached + 1;
        }
        i = i + 1;
    }
    proof {
        assert(given.take(given.len() as int) == given);
    }
    cached
}

/// Takes the reasoning texts of a response body into the cache, where the body is JSON; tells how
/// many those were. Where there are any and the time at which they would expire cannot be written
/// down, nothing is taken in and nothing is told.
pub fn remember_response(
    body: &[u8],
    cache: &mut ReasoningCache,
    now: u64,
    ttl: u64,
    max_size: usize,
) -> (cached: Option<usize>)
    requires
        old(cache).well_formed(),
    ensures
        final(cache).well_formed(),
        ({
            let choices = match parsed_json(body@) {
                Some(document) => choices_of(document),
                None => seq![],
            };
            match cached {
                Some(count) => {
                    &&& any_memorable(choices) ==> now + ttl <= u64::MAX
                    &&& count == memorable(choices, now, ttl)
                    &&& final(cache)@ == remembered(
                        old(cache)@,
                        choices,
                        now,
                        ttl,
                        max_size as nat,
                    )
                },
                None => any_memorable(choices) && now + ttl > u64::MAX && final(cache)@ == old(
                    cache,
                )@,
            }
        }),
{
    proof {
        reveal(Seq::filter);
    }
    match parse(body) {
        Ok(document) => if ttl > u64::MAX - now && has_memorable(&document) {
            None
        } else {
            Some(cache_response_body(&document, cache, now, ttl, max_size))
        },
        Err(_) => Some(0),
    }
}

} // verus!
