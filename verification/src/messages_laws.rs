//! What holds of chat messages that pass through, and of what is remembered of them.
use crate::cache::{
    distinct_keys, evicted_to, find, oldest, recalled, stored, unexpired, without_key, SlotView,
};
use crate::cache_laws::{
    eviction_makes_room, found_by_key, oldest_is_oldest, storing_keeps_distinct,
    the_cache_stays_in_bounds,
};
use crate::json::JsonView;
use crate::messages::{
    all_fixed, any_lacks, choice_slot, content_text, fixed, fixed_body, has_reasoning,
    lacks_reasoning, memorable, message_key, messages_of, patched_bytes, remembered, CHAT_PATH,
};
use vstd::prelude::*;

verus! {

/// After fixing, no assistant's message that calls tools lacks its reasoning text, and fixing once
/// more, at any time and from any cache, changes nothing.
pub proof fn fixed_messages_lack_nothing(
    messages: Seq<JsonView>,
    slots: Seq<SlotView>,
    now: u64,
    other_slots: Seq<SlotView>,
    later: u64,
)
    ensures
        !any_lacks(all_fixed(messages, slots, now)),
        all_fixed(all_fixed(messages, slots, now), other_slots, later) == all_fixed(
            messages,
            slots,
            now,
        ),
{
    let done = all_fixed(messages, slots, now);
    assert forall|i: int| 0 <= i < done.len() implies !lacks_reasoning(#[trigger] done[i]) by {
        assert(done[i] == fixed(messages[i], slots, now));
        if lacks_reasoning(messages[i]) {
            assert(has_reasoning(done[i]));
        }
    }
    assert(all_fixed(done, other_slots, later) =~= done);
}

/// Fixing a message touches its reasoning text only, and that only where it lacks one.
pub proof fn fixing_touches_the_reasoning_only(
    message: JsonView,
    slots: Seq<SlotView>,
    now: u64,
    name: Seq<char>,
)
    ensures
        name != "reasoning_content"@ ==> fixed(message, slots, now).member(name) == message.member(
            name,
        ),
        has_reasoning(message) ==> fixed(message, slots, now) == message,
        !lacks_reasoning(message) ==> fixed(message, slots, now) == message,
{
}

/// Fixing a chat request keeps the number and the order of its messages and all its other members.
pub proof fn fixing_keeps_the_rest_of_the_body(
    body: JsonView,
    slots: Seq<SlotView>,
    now: u64,
    name: Seq<char>,
)
    ensures
        name != "messages"@ ==> fixed_body(body, slots, now).member(name) == body.member(name),
        messages_of(fixed_body(body, slots, now)) == match messages_of(body) {
            Some(messages) => Some(all_fixed(messages, slots, now)),
            None => None,
        },
        messages_of(body) is Some ==> messages_of(fixed_body(body, slots, now))->0.len()
            == messages_of(body)->0.len(),
{
}

/// A request to any other endpoint goes upstream as it came.
pub proof fn other_endpoints_are_left_alone(
    path: Seq<char>,
    body: Seq<u8>,
    slots: Seq<SlotView>,
    now: u64,
)
    requires
        path != CHAT_PATH@,
    ensures
        patched_bytes(path, body, slots, now) == body,
{
}

/// No slot was put in later than `now`.
pub open spec fn none_later(slots: Seq<SlotView>, now: u64) -> bool {
    forall|i: int| 0 <= i < slots.len() ==> (#[trigger] slots[i]).inserted_at <= now
}

/// No slot was put in earlier than `now`.
pub open spec fn none_earlier(slots: Seq<SlotView>, now: u64) -> bool {
    forall|i: int| 0 <= i < slots.len() ==> (#[trigger] slots[i]).inserted_at >= now
}

/// Filtering keeps times as they are.
pub(crate) proof fn filter_keeps_times(
    slots: Seq<SlotView>,
    wanted: spec_fn(SlotView) -> bool,
    now: u64,
)
    ensures
        slots.filter(wanted).len() <= slots.len(),
        none_later(slots, now) ==> none_later(slots.filter(wanted), now),
        none_earlier(slots, now) ==> none_earlier(slots.filter(wanted), now),
    decreases slots.len(),
{
    reveal(Seq::filter);
    if slots.len() > 0 {
        filter_keeps_times(slots.drop_last(), wanted, now);
        if none_later(slots, now) {
            assert(none_later(slots.drop_last(), now));
            assert(slots[slots.len() - 1].inserted_at <= now);
        }
        if none_earlier(slots, now) {
            assert(none_earlier(slots.drop_last(), now));
            assert(slots[slots.len() - 1].inserted_at >= now);
        }
    }
}

/// A slot that a filter wants stays between what the filter leaves before and behind it.
pub(crate) proof fn filter_around(
    a: Seq<SlotView>,
    slot: SlotView,
    b: Seq<SlotView>,
    wanted: spec_fn(SlotView) -> bool,
)
    requires
        wanted(slot),
    ensures
        (a.push(slot) + b).filter(wanted) == a.filter(wanted).push(slot) + b.filter(wanted),
{
    Seq::filter_distributes_over_add(a.push(slot), b, wanted);
    assert(a.push(slot).drop_last() =~= a);
    reveal(Seq::filter);
}

/// Making room spares a slot behind which there are fewer than `max_size` others, where those before
/// it are no younger and those behind it no older.
proof fn eviction_around(
    a: Seq<SlotView>,
    slot: SlotView,
    b: Seq<SlotView>,
    max_size: nat,
) -> (left: Seq<SlotView>)
    requires
        none_later(a, slot.inserted_at),
        none_earlier(b, slot.inserted_at),
        b.len() < max_size,
    ensures
        evicted_to(a.push(slot) + b, max_size) == left.push(slot) + b,
        none_later(left, slot.inserted_at),
    decreases a.len(),
{
    let all = a.push(slot) + b;
    if all.len() <= max_size {
        a
    } else {
        oldest_is_oldest(all);
        let at = oldest(all);
        let here = a.len() as int;
        assert(all[here] == slot);
        assert(here > 0);
        assert(all[0] == a[0]);
        assert(at < here) by {
            if at == here {
                assert(all[at].inserted_at < all[0].inserted_at);
            } else if at > here {
                assert(all[at] == b[at - here - 1]);
                assert(all[at].inserted_at < all[here].inserted_at);
            }
        }
        assert(all.remove(at) =~= a.remove(at).push(slot) + b);
        assert(none_later(a.remove(at), slot.inserted_at)) by {
            assert forall|i: int| 0 <= i < a.remove(at).len() implies (
            #[trigger] a.remove(at)[i]).inserted_at <= slot.inserted_at by {
                assert(a.remove(at)[i] == a[if i < at { i } else { i + 1 }]);
            }
        }
        eviction_around(a.remove(at), slot, b, max_size)
    }
}

/// A slot stays in the cache while fewer than `max_size` texts with other keys are behind it or come
/// in behind it.
pub(crate) proof fn later_choices_spare(
    a: Seq<SlotView>,
    slot: SlotView,
    b: Seq<SlotView>,
    choices: Seq<JsonView>,
    now: u64,
    ttl: u64,
    max_size: nat,
) -> (sides: (Seq<SlotView>, Seq<SlotView>))
    requires
        slot.inserted_at <= now < slot.expires_at,
        none_later(a, slot.inserted_at),
        none_earlier(b, slot.inserted_at),
        b.len() + memorable(choices, now, ttl) < max_size,
        forall|i: int|
            0 <= i < choices.len() && choice_slot(#[trigger] choices[i], now, ttl) is Some
                ==> choice_slot(choices[i], now, ttl)->0.key != slot.key,
    ensures
        remembered(a.push(slot) + b, choices, now, ttl, max_size) == sides.0.push(slot) + sides.1,
        none_later(sides.0, slot.inserted_at),
        none_earlier(sides.1, slot.inserted_at),
        sides.1.len() <= b.len() + memorable(choices, now, ttl),
    decreases choices.len(),
{
    reveal(Seq::filter);
    if choices.len() == 0 {
        (a, b)
    } else {
        let front = choices.drop_last();
        assert forall|i: int|
            0 <= i < front.len() && choice_slot(#[trigger] front[i], now, ttl) is Some implies choice_slot(
            front[i],
            now,
            ttl,
        )->0.key != slot.key by {
            assert(front[i] == choices[i]);
        }
        let (a1, b1) = later_choices_spare(a, slot, b, front, now, ttl, max_size);
        match choice_slot(choices.last(), now, ttl) {
            None => (a1, b1),
            Some(new) => {
                assert(choices[choices.len() - 1] == choices.last());
                let other = |s: SlotView| s.key != new.key;
                let fresh = |s: SlotView| s.expires_at > now;
                filter_around(a1, slot, b1, other);
                filter_keeps_times(a1, other, slot.inserted_at);
                filter_keeps_times(b1, other, slot.inserted_at);
                let a2 = a1.filter(other);
                let b2 = b1.filter(other).push(new);
                assert(without_key(a1.push(slot) + b1, new.key).push(new) =~= a2.push(slot) + b2);
                assert(none_earlier(b2, slot.inserted_at));
                filter_around(a2, slot, b2, fresh);
                filter_keeps_times(a2, fresh, slot.inserted_at);
                filter_keeps_times(b2, fresh, slot.inserted_at);
                let a3 = a2.filter(fresh);
                let b3 = b2.filter(fresh);
                let left = eviction_around(a3, slot, b3, max_size);
                (left, b3)
            },
        }
    }
}

/// The cache after some choices and then some more.
proof fn remembered_in_two(
    slots: Seq<SlotView>,
    first: Seq<JsonView>,
    then: Seq<JsonView>,
    now: u64,
    ttl: u64,
    max_size: nat,
)
    ensures
        remembered(slots, first + then, now, ttl, max_size) == remembered(
            remembered(slots, first, now, ttl, max_size),
            then,
            now,
            ttl,
            max_size,
        ),
    decreases then.len(),
{
    if then.len() == 0 {
        assert(first + then =~= first);
    } else {
        remembered_in_two(slots, first, then.drop_last(), now, ttl, max_size);
        assert((first + then).drop_last() =~= first + then.drop_last());
        assert((first + then).last() == then.last());
    }
}

/// Taking in choices keeps the keys of the cache apart, puts nothing in later than `now`, and keeps
/// the cache within its bound.
pub proof fn remembering_keeps_the_cache_in_order(
    slots: Seq<SlotView>,
    choices: Seq<JsonView>,
    now: u64,
    ttl: u64,
    max_size: nat,
)
    requires
        distinct_keys(slots),
    ensures
        distinct_keys(remembered(slots, choices, now, ttl, max_size)),
        none_later(slots, now) ==> none_later(
            remembered(slots, choices, now, ttl, max_size),
            now,
        ),
        slots.len() <= max_size ==> remembered(slots, choices, now, ttl, max_size).len()
            <= max_size,
    decreases choices.len(),
{
    if choices.len() > 0 {
        remembering_keeps_the_cache_in_order(slots, choices.drop_last(), now, ttl, max_size);
        let before = remembered(slots, choices.drop_last(), now, ttl, max_size);
        if let Some(slot) = choice_slot(choices.last(), now, ttl) {
            the_cache_stays_in_bounds(before, slot, now, max_size);
            if none_later(slots, now) {
                let others = without_key(before, slot.key);
                filter_keeps_times(before, |s: SlotView| s.key != slot.key, now);
                let full = others.push(slot);
                assert(none_later(full, now));
                filter_keeps_times(full, |s: SlotView| s.expires_at > now, now);
                let fresh = unexpired(full, now);
                storing_keeps_distinct(before, slot, now);
                eviction_makes_room(fresh, max_size);
                let kept = stored(before, slot, now, max_size);
                assert forall|i: int| 0 <= i < kept.len() implies (#[trigger] kept[i]).inserted_at
                    <= now by {
                    assert(fresh.contains(kept[i]));
                    let j = choose|j: int| 0 <= j < fresh.len() && fresh[j] == kept[i];
                    assert(fresh[j].inserted_at <= now);
                }
            }
        }
    }
}

/// What a choice of a response put into the cache is there after the response, between older and
/// younger texts, where no later choice of the response has the same key and the cache has room for
/// the choice and those behind it.
pub(crate) proof fn what_a_response_brought_is_there(
    slots: Seq<SlotView>,
    choices: Seq<JsonView>,
    at: int,
    now: u64,
    ttl: u64,
    max_size: nat,
) -> (sides: (Seq<SlotView>, Seq<SlotView>))
    requires
        distinct_keys(slots),
        none_later(slots, now),
        0 < ttl,
        now + ttl <= u64::MAX,
        0 <= at < choices.len(),
        choices.len() - at <= max_size,
        choice_slot(choices[at], now, ttl) is Some,
        forall|i: int|
            at < i < choices.len() && choice_slot(#[trigger] choices[i], now, ttl) is Some
                ==> choice_slot(choices[i], now, ttl)->0.key != choice_slot(
                choices[at],
                now,
                ttl,
            )->0.key,
    ensures
        remembered(slots, choices, now, ttl, max_size) == sides.0.push(
            choice_slot(choices[at], now, ttl)->0,
        ) + sides.1,
        none_later(sides.0, now),
        none_earlier(sides.1, now),
        sides.1.len() < choices.len() - at,
{
    let slot = choice_slot(choices[at], now, ttl)->0;
    let upto = choices.take(at + 1);
    let behind = choices.skip(at + 1);
    assert(upto + behind =~= choices);
    assert(upto.drop_last() =~= choices.take(at));
    assert(upto.last() == choices[at]);
    let before = remembered(slots, choices.take(at), now, ttl, max_size);
    remembering_keeps_the_cache_in_order(slots, choices.take(at), now, ttl, max_size);
    let other = |s: SlotView| s.key != slot.key;
    let fresh = |s: SlotView| s.expires_at > now;
    filter_keeps_times(before, other, now);
    let others = without_key(before, slot.key);
    let empty = Seq::<SlotView>::empty();
    assert(others.push(slot) =~= others.push(slot) + empty);
    filter_around(others, slot, empty, fresh);
    filter_keeps_times(others, fresh, now);
    filter_keeps_times(empty, fresh, now);
    assert(empty.filter(fresh) =~= empty);
    let a = eviction_around(others.filter(fresh), slot, empty, max_size);
    assert(remembered(slots, upto, now, ttl, max_size) =~= a.push(slot) + empty);
    assert forall|i: int|
        0 <= i < behind.len() && choice_slot(#[trigger] behind[i], now, ttl) is Some implies choice_slot(
        behind[i],
        now,
        ttl,
    )->0.key != slot.key by {
        assert(behind[i] == choices[at + 1 + i]);
    }
    behind.lemma_filter_len(|choice: JsonView| choice_slot(choice, now, ttl) is Some);
    let sides = later_choices_spare(a, slot, empty, behind, now, ttl, max_size);
    remembered_in_two(slots, upto, behind, now, ttl, max_size);
    sides
}

/// What a response brought comes back: the reasoning text of a choice is recalled under the key of
/// its message until it expires, where no later choice of the response has the same key and the
/// cache has room for the choice and those behind it.
pub proof fn what_a_response_brought_is_recalled(
    slots: Seq<SlotView>,
    choices: Seq<JsonView>,
    at: int,
    now: u64,
    ttl: u64,
    max_size: nat,
    later: u64,
)
    requires
        distinct_keys(slots),
        none_later(slots, now),
        now + ttl <= u64::MAX,
        0 <= at < choices.len(),
        choices.len() - at <= max_size,
        choice_slot(choices[at], now, ttl) is Some,
        forall|i: int|
            at < i < choices.len() && choice_slot(#[trigger] choices[i], now, ttl) is Some
                ==> choice_slot(choices[i], now, ttl)->0.key != choice_slot(
                choices[at],
                now,
                ttl,
            )->0.key,
        now <= later < now + ttl,
    ensures
        recalled(
            remembered(slots, choices, now, ttl, max_size),
            choice_slot(choices[at], now, ttl)->0.key,
            later,
        ) == Some(choice_slot(choices[at], now, ttl)->0.reasoning),
        find(
            remembered(slots, choices, now, ttl, max_size),
            choice_slot(choices[at], now, ttl)->0.key,
        ) == choice_slot(choices[at], now, ttl),
{
    let slot = choice_slot(choices[at], now, ttl)->0;
    let (a, b) = what_a_response_brought_is_there(slots, choices, at, now, ttl, max_size);
    remembering_keeps_the_cache_in_order(slots, choices, now, ttl, max_size);
    let kept = remembered(slots, choices, now, ttl, max_size);
    assert(kept[a.len() as int] == slot);
    found_by_key(kept, slot.key);
}

/// A client that sends a message of a response back without its reasoning text, but with the same
/// content and the same tool calls, gets that reasoning text put in again.
pub proof fn a_message_gets_its_reasoning_back(
    slots: Seq<SlotView>,
    choices: Seq<JsonView>,
    at: int,
    message: JsonView,
    now: u64,
    ttl: u64,
    max_size: nat,
    later: u64,
)
    requires
        distinct_keys(slots),
        none_later(slots, now),
        now + ttl <= u64::MAX,
        0 <= at < choices.len(),
        choices.len() - at <= max_size,
        choice_slot(choices[at], now, ttl) is Some,
        forall|i: int|
            at < i < choices.len() && choice_slot(#[trigger] choices[i], now, ttl) is Some
                ==> choice_slot(choices[i], now, ttl)->0.key != choice_slot(
                choices[at],
                now,
                ttl,
            )->0.key,
        now <= later < now + ttl,
        lacks_reasoning(message),
        content_text(message) == content_text(choices[at].member("message"@)->0),
        message.member("tool_calls"@) == choices[at].member("message"@)->0.member("tool_calls"@),
    ensures
        fixed(message, remembered(slots, choices, now, ttl, max_size), later)
            == message.with_member(
            "reasoning_content"@,
            choices[at].member("message"@)->0.member("reasoning_content"@)->0,
        ),
{
    what_a_response_brought_is_recalled(slots, choices, at, now, ttl, max_size, later);
    assert(message_key(message) == choice_slot(choices[at], now, ttl)->0.key);
}

} // verus!
