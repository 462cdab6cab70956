//! What becomes of chat messages, told by the members of the JSON that comes in and goes out.
use crate::cache::{distinct_keys, find, hash_writes, key_of, recalled, stored, SlotView};
use crate::cache_laws::{found_by_key, what_was_stored_is_recalled};
use crate::json::JsonView;
use crate::messages::{
    all_fixed, any_lacks, any_memorable, choices_of, fixed, hits_in, is_memorable, is_patch,
    lacks_reasoning, memorable, patched_bytes, remembered, PatchedBody,
};
use crate::messages_laws::{none_later, remembering_keeps_the_cache_in_order};
use crate::text::numeral;
use crate::wire::{json_text, parsed_json};
use std::collections::hash_map::DefaultHasher;
use vstd::prelude::*;
use vstd::std_specs::hash::DefaultHasherAdditionalSpecFns;
use vstd::utf8::encode_utf8;

verus! {

/// What is said under `content`: nothing where that is missing or no text.
pub open spec fn said(members: Map<Seq<char>, JsonView>) -> Seq<char> {
    if members.contains_key("content"@) && members["content"@] is Text {
        members["content"@]->Text_0
    } else {
        seq![]
    }
}

/// Whether these members are those of a message of the assistant that makes these tool calls.
pub open spec fn makes_calls(members: Map<Seq<char>, JsonView>, calls: Seq<JsonView>) -> bool {
    &&& members.contains_pair("role"@, JsonView::Text("assistant"@))
    &&& members.contains_pair("tool_calls"@, JsonView::Array(calls))
    &&& calls.len() >= 1
}

/// Whether a message of the assistant makes tool calls and says nothing of its reasoning.
pub open spec fn calls_without_reasoning(message: JsonView) -> bool {
    match message {
        JsonView::Object(members) => {
            &&& exists|calls: Seq<JsonView>| #[trigger] makes_calls(members, calls)
            &&& !members.contains_key("reasoning_content"@)
        },
        _ => false,
    }
}

/// Whether the cache holds a text under this key that still counts at time `now`.
pub open spec fn holds(slots: Seq<SlotView>, key: Seq<char>, now: u64) -> bool {
    exists|i: int|
        0 <= i < slots.len() && (#[trigger] slots[i]).key == key && slots[i].expires_at > now
}

/// A key is the hash of a content and of the compact text of tool calls, fed one after the other, as
/// a hexadecimal numeral.
pub proof fn a_key_is_the_hash_of_both(content: Seq<char>, calls: JsonView)
    ensures
        key_of(content, calls) == numeral(
            DefaultHasher::spec_finish(hash_writes(content) + hash_writes(json_text(calls))) as nat,
            16,
        ),
{
}

/// Under a key that the cache holds, its text is recalled until the time at which it expires; under
/// any other key nothing is.
pub proof fn a_text_counts_until_it_expires(slots: Seq<SlotView>, key: Seq<char>, now: u64)
    requires
        distinct_keys(slots),
    ensures
        forall|i: int|
            0 <= i < slots.len() && (#[trigger] slots[i]).key == key ==> recalled(slots, key, now)
                == if now < slots[i].expires_at {
                Some(slots[i].reasoning)
            } else {
                None
            },
        (forall|i: int| 0 <= i < slots.len() ==> (#[trigger] slots[i]).key != key) ==> recalled(
            slots,
            key,
            now,
        ) is None,
        recalled(slots, key, now) is Some <==> holds(slots, key, now),
{
    found_by_key(slots, key);
    match find(slots, key) {
        Some(slot) => {
            let i = choose|i: int| 0 <= i < slots.len() && slots[i] == slot;
            assert(slots[i].key == key);
        },
        None => {},
    }
}

/// A message of the assistant with at least one tool call and without `reasoning_content` gets one: a
/// text, the one that the cache holds under the key of the message's content and tool calls, or the
/// empty one where the cache holds none that still counts. Its other members stay.
pub proof fn calls_get_a_reasoning_text(
    members: Map<Seq<char>, JsonView>,
    calls: Seq<JsonView>,
    slots: Seq<SlotView>,
    now: u64,
)
    requires
        distinct_keys(slots),
        members.contains_pair("role"@, JsonView::Text("assistant"@)),
        members.contains_pair("tool_calls"@, JsonView::Array(calls)),
        calls.len() >= 1,
        !members.contains_key("reasoning_content"@),
    ensures
        ({
            let key = key_of(said(members), JsonView::Array(calls));
            let done = fixed(JsonView::Object(members), slots, now)->Object_0;
            &&& fixed(JsonView::Object(members), slots, now) is Object
            &&& done.contains_key("reasoning_content"@)
            &&& done["reasoning_content"@] is Text
            &&& done.remove("reasoning_content"@) == members
            &&& forall|i: int|
                0 <= i < slots.len() && (#[trigger] slots[i]).key == key && now < slots[i].expires_at
                    ==> done["reasoning_content"@] == JsonView::Text(slots[i].reasoning)
            &&& !holds(slots, key, now) ==> done["reasoning_content"@] == JsonView::Text(seq![])
        }),
{
    let message = JsonView::Object(members);
    let key = key_of(said(members), JsonView::Array(calls));
    assert(message.member("tool_calls"@) == Some(JsonView::Array(calls)));
    a_text_counts_until_it_expires(slots, key, now);
    let done = fixed(message, slots, now)->Object_0;
    assert(done.remove("reasoning_content"@) =~= members);
}

/// Every other message stays as it is: one that is no object, of another role, without tool calls, or
/// with a `reasoning_content`, whatever that is.
pub proof fn every_other_message_stays(message: JsonView, slots: Seq<SlotView>, now: u64)
    requires
        !calls_without_reasoning(message),
    ensures
        fixed(message, slots, now) == message,
{
    if let JsonView::Object(members) = message {
        if members.contains_key("tool_calls"@) && members["tool_calls"@] is Array {
            let calls = members["tool_calls"@]->Array_0;
            if members.contains_pair("role"@, JsonView::Text("assistant"@)) && calls.len() >= 1 {
                assert(makes_calls(members, calls));
            }
        }
    }
}

/// Fixing a list of messages fixes each of them, in its place.
pub proof fn each_message_is_fixed_in_its_place(
    messages: Seq<JsonView>,
    slots: Seq<SlotView>,
    now: u64,
)
    ensures
        all_fixed(messages, slots, now).len() == messages.len(),
        forall|i: int|
            0 <= i < messages.len() ==> #[trigger] all_fixed(messages, slots, now)[i] == fixed(
                messages[i],
                slots,
                now,
            ),
{
}

/// A message lacks its reasoning text just where the assistant makes tool calls in it and nothing is
/// said of the reasoning.
proof fn lacking_over_members(message: JsonView)
    ensures
        lacks_reasoning(message) == calls_without_reasoning(message),
{
    if let JsonView::Object(members) = message {
        if members.contains_key("tool_calls"@) && members["tool_calls"@] is Array {
            let calls = members["tool_calls"@]->Array_0;
            if members.contains_pair("role"@, JsonView::Text("assistant"@)) && calls.len() >= 1 {
                assert(makes_calls(members, calls));
            }
        }
    }
}

/// Some message of a list lacks its reasoning just where one of them makes tool calls without it.
pub proof fn a_list_lacks_what_a_message_lacks(messages: Seq<JsonView>)
    ensures
        any_lacks(messages) <==> exists|i: int|
            0 <= i < messages.len() && calls_without_reasoning(#[trigger] messages[i]),
{
    assert forall|i: int| 0 <= i < messages.len() implies lacks_reasoning(
        #[trigger] messages[i],
    ) == calls_without_reasoning(messages[i]) by {
        lacking_over_members(messages[i]);
    }
}

/// Each message that makes tool calls without its reasoning, and whose text the cache holds, is one
/// more hit; no other message is.
pub proof fn hits_are_counted_one_by_one(
    messages: Seq<JsonView>,
    message: JsonView,
    slots: Seq<SlotView>,
    now: u64,
)
    requires
        distinct_keys(slots),
    ensures
        hits_in(seq![], slots, now) == 0,
        hits_in(messages.push(message), slots, now) == hits_in(messages, slots, now) + if (
        calls_without_reasoning(message) && holds(
            slots,
            key_of(said(message->Object_0), message->Object_0["tool_calls"@]),
            now,
        )) {
            1nat
        } else {
            0
        },
{
    reveal(Seq::filter);
    lacking_over_members(message);
    assert(messages.push(message).drop_last() =~= messages);
    if calls_without_reasoning(message) {
        a_text_counts_until_it_expires(
            slots,
            key_of(said(message->Object_0), message->Object_0["tool_calls"@]),
            now,
        );
    }
}

/// A chat request with a message that makes tool calls without its reasoning goes upstream as the
/// compact JSON of the same object with its messages fixed; any other chat request goes upstream
/// byte for byte as it came.
pub proof fn a_chat_request_goes_upstream_complete(
    body: Seq<u8>,
    members: Map<Seq<char>, JsonView>,
    messages: Seq<JsonView>,
    slots: Seq<SlotView>,
    now: u64,
)
    requires
        parsed_json(body) == Some(JsonView::Object(members)),
        members.contains_pair("messages"@, JsonView::Array(messages)),
    ensures
        (exists|i: int| 0 <= i < messages.len() && calls_without_reasoning(#[trigger] messages[i]))
            ==> patched_bytes("/chat/completions"@, body, slots, now) == encode_utf8(
            json_text(
                JsonView::Object(
                    members.insert(
                        "messages"@,
                        JsonView::Array(
                            Seq::new(messages.len(), |i: int| fixed(messages[i], slots, now)),
                        ),
                    ),
                ),
            ),
        ),
        (forall|i: int| 0 <= i < messages.len() ==> !calls_without_reasoning(#[trigger] messages[i]))
            ==> patched_bytes("/chat/completions"@, body, slots, now) == body,
{
    a_list_lacks_what_a_message_lacks(messages);
    assert(all_fixed(messages, slots, now) =~= Seq::new(
        messages.len(),
        |i: int| fixed(messages[i], slots, now),
    ));
}

/// A request to another path, one that is no JSON, and one without an array of messages go upstream
/// byte for byte as they came.
pub proof fn every_other_request_goes_upstream_as_it_came(
    path: Seq<char>,
    body: Seq<u8>,
    slots: Seq<SlotView>,
    now: u64,
)
    requires
        ({
            ||| path != "/chat/completions"@
            ||| parsed_json(body) is None
            ||| !(parsed_json(body)->0 is Object)
            ||| !parsed_json(body)->0->Object_0.contains_key("messages"@)
            ||| !(parsed_json(body)->0->Object_0["messages"@] is Array)
        }),
    ensures
        patched_bytes(path, body, slots, now) == body,
{
}

/// A patched request is reported as it is: what goes upstream, that something was filled in just
/// where a chat message made tool calls without its reasoning, the hits among its messages, and a
/// body that is no JSON just where a chat request had one.
pub proof fn a_patch_is_reported_as_it_is(
    patched: PatchedBody,
    path: Seq<char>,
    body: Seq<u8>,
    slots: Seq<SlotView>,
    now: u64,
)
    requires
        is_patch(patched, path, body, slots, now),
    ensures
        patched.bytes@ == patched_bytes(path, body, slots, now),
        patched.rejected is Some <==> path == "/chat/completions"@ && parsed_json(body) is None,
        forall|members: Map<Seq<char>, JsonView>, messages: Seq<JsonView>|
            path == "/chat/completions"@ && parsed_json(body) == Some(JsonView::Object(members))
                && #[trigger] members.contains_pair("messages"@, JsonView::Array(messages)) ==> {
                &&& patched.modified <==> exists|i: int|
                    0 <= i < messages.len() && calls_without_reasoning(#[trigger] messages[i])
                &&& patched.hits == hits_in(messages, slots, now)
            },
        path != "/chat/completions"@ || !(parsed_json(body) is Some && parsed_json(body)->0 is Object
            && parsed_json(body)->0->Object_0.contains_key("messages"@)
            && parsed_json(body)->0->Object_0["messages"@] is Array) ==> !patched.modified
            && patched.hits == 0,
{
    assert forall|members: Map<Seq<char>, JsonView>, messages: Seq<JsonView>|
        path == "/chat/completions"@ && parsed_json(body) == Some(JsonView::Object(members))
            && #[trigger] members.contains_pair("messages"@, JsonView::Array(messages)) implies {
        &&& patched.modified <==> exists|i: int|
            0 <= i < messages.len() && calls_without_reasoning(#[trigger] messages[i])
        &&& patched.hits == hits_in(messages, slots, now)
    } by {
        a_list_lacks_what_a_message_lacks(messages);
    }
}

/// Whether a choice of a response brings this reasoning text for this content and these tool calls.
pub open spec fn brings(
    choice: JsonView,
    content: Seq<char>,
    calls: Seq<JsonView>,
    reasoning: Seq<char>,
) -> bool {
    &&& choice is Object
    &&& choice->Object_0.contains_key("message"@)
    &&& choice->Object_0["message"@] is Object
    &&& makes_calls(choice->Object_0["message"@]->Object_0, calls)
    &&& content == said(choice->Object_0["message"@]->Object_0)
    &&& choice->Object_0["message"@]->Object_0.contains_pair(
        "reasoning_content"@,
        JsonView::Text(reasoning),
    )
    &&& reasoning.len() >= 1
}

/// A choice whose message is the assistant's, makes at least one tool call and has a reasoning text
/// that is not empty is taken in, whatever else the choice and the message hold: the text is put
/// into the cache under the key of the content and the tool calls, to count from `now` for `ttl`, and
/// is counted.
pub proof fn a_choice_with_reasoning_is_taken_in(
    slots: Seq<SlotView>,
    choices: Seq<JsonView>,
    choice: JsonView,
    content: Seq<char>,
    calls: Seq<JsonView>,
    reasoning: Seq<char>,
    now: u64,
    ttl: u64,
    max_size: nat,
)
    requires
        brings(choice, content, calls, reasoning),
    ensures
        remembered(slots, choices.push(choice), now, ttl, max_size) == stored(
            remembered(slots, choices, now, ttl, max_size),
            (SlotView {
                key: key_of(content, JsonView::Array(calls)),
                reasoning,
                expires_at: (now + ttl) as u64,
                inserted_at: now,
            }),
            now,
            max_size,
        ),
        memorable(choices.push(choice), now, ttl) == memorable(choices, now, ttl) + 1,
        any_memorable(choices.push(choice)),
{
    reveal(Seq::filter);
    let more = choices.push(choice);
    let message = choice->Object_0["message"@];
    assert(choice.member("message"@) == Some(message));
    assert(message.member("tool_calls"@) == Some(JsonView::Array(calls)));
    assert(more.drop_last() =~= choices);
    assert(more.last() == choice);
    assert(is_memorable(more[more.len() - 1]));
}

/// A choice that brings no reasoning text is passed over.
pub proof fn a_choice_without_reasoning_is_passed_over(
    slots: Seq<SlotView>,
    choices: Seq<JsonView>,
    choice: JsonView,
    now: u64,
    ttl: u64,
    max_size: nat,
)
    requires
        forall|content: Seq<char>, calls: Seq<JsonView>, reasoning: Seq<char>|
            !#[trigger] brings(choice, content, calls, reasoning),
    ensures
        remembered(slots, seq![], now, ttl, max_size) == slots,
        memorable(seq![], now, ttl) == 0,
        remembered(slots, choices.push(choice), now, ttl, max_size) == remembered(
            slots,
            choices,
            now,
            ttl,
            max_size,
        ),
        memorable(choices.push(choice), now, ttl) == memorable(choices, now, ttl),
        any_memorable(choices.push(choice)) <==> any_memorable(choices),
{
    reveal(Seq::filter);
    let more = choices.push(choice);
    assert(more.drop_last() =~= choices);
    assert(more.last() == choice);
    assert(!is_memorable(choice)) by {
        if is_memorable(choice) {
            let message = choice->Object_0["message"@];
            assert(choice.member("message"@) == Some(message));
            let calls = message->Object_0["tool_calls"@]->Array_0;
            let reasoning = message->Object_0["reasoning_content"@]->Text_0;
            assert(message.member("tool_calls"@) == Some(JsonView::Array(calls)));
            assert(makes_calls(message->Object_0, calls));
            assert(brings(choice, said(message->Object_0), calls, reasoning));
        }
    }
    if any_memorable(choices) {
        let i = choose|i: int|
            0 <= i < choices.len() && is_memorable(#[trigger] choices[i]);
        assert(more[i] == choices[i]);
    }
    if any_memorable(more) {
        let i = choose|i: int| 0 <= i < more.len() && is_memorable(#[trigger] more[i]);
        assert(i < choices.len());
        assert(choices[i] == more[i]);
    }
}

/// The reasoning text of a choice is recalled under the key of its message's content and tool calls
/// from the moment it is taken in until its lifetime is over, and no longer, whatever other members
/// the choice or the message has, where the cache may hold an entry and holds none from later.
pub proof fn a_choice_with_reasoning_is_recalled(
    slots: Seq<SlotView>,
    choices: Seq<JsonView>,
    choice: JsonView,
    content: Seq<char>,
    calls: Seq<JsonView>,
    reasoning: Seq<char>,
    now: u64,
    ttl: u64,
    max_size: nat,
    later: u64,
)
    requires
        distinct_keys(slots),
        forall|i: int| 0 <= i < slots.len() ==> (#[trigger] slots[i]).inserted_at <= now,
        max_size >= 1,
        0 < ttl,
        now + ttl <= u64::MAX,
        now <= later,
        brings(choice, content, calls, reasoning),
    ensures
        recalled(
            remembered(slots, choices.push(choice), now, ttl, max_size),
            key_of(content, JsonView::Array(calls)),
            later,
        ) == if later < now + ttl {
            Some(reasoning)
        } else {
            None
        },
{
    assert(none_later(slots, now));
    remembering_keeps_the_cache_in_order(slots, choices, now, ttl, max_size);
    a_choice_with_reasoning_is_taken_in(
        slots,
        choices,
        choice,
        content,
        calls,
        reasoning,
        now,
        ttl,
        max_size,
    );
    let before = remembered(slots, choices, now, ttl, max_size);
    let slot = SlotView {
        key: key_of(content, JsonView::Array(calls)),
        reasoning,
        expires_at: (now + ttl) as u64,
        inserted_at: now,
    };
    what_was_stored_is_recalled(before, slot, now, max_size, later);
}

/// The choices of a response are the array under `choices`; where that is missing or no array, there
/// are none.
pub proof fn choices_stand_under_their_name(body: JsonView)
    ensures
        forall|members: Map<Seq<char>, JsonView>, choices: Seq<JsonView>|
            body == JsonView::Object(members) && #[trigger] members.contains_pair(
                "choices"@,
                JsonView::Array(choices),
            ) ==> choices_of(body) == choices,
        !(body is Object && body->Object_0.contains_key("choices"@)
            && body->Object_0["choices"@] is Array) ==> choices_of(body).len() == 0,
{
}

} // verus!
