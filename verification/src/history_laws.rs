//! What holds of the cache over many responses.
use crate::cache::{
    distinct_keys, filter_keeps_distinct, filter_keeps_old, find, key_of, recalled, unexpired,
    without_key, SlotView,
};
use crate::cache_laws::{
    eviction_makes_room, found_by_key, storing_keeps_distinct, sweeping_is_not_noticed,
    the_cache_stays_in_bounds, with_room_nothing_is_lost,
};
use crate::json::JsonView;
use crate::messages::{
    any_memorable, choice_slot, content_text, fixed, has_tool_calls, is_assistant, is_memorable,
    lacks_reasoning, memorable, message_key, remembered,
};
use crate::messages_laws::{
    filter_around, filter_keeps_times, later_choices_spare, none_earlier, none_later,
    remembering_keeps_the_cache_in_order, what_a_response_brought_is_recalled,
    what_a_response_brought_is_there,
};
use vstd::prelude::*;

verus! {

/// Whether a choice of a response tells what a slot holds: its message is the assistant's and calls
/// tools, the slot has its reasoning text, which is not empty, and has it under the key of its
/// content and its tool calls.
pub open spec fn tells(choice: JsonView, slot: SlotView) -> bool {
    match choice.member("message"@) {
        Some(message) => {
            &&& is_assistant(message)
            &&& has_tool_calls(message)
            &&& message.member("reasoning_content"@) == Some(JsonView::Text(slot.reasoning))
            &&& slot.reasoning.len() > 0
            &&& slot.key == key_of(content_text(message), message.member("tool_calls"@)->0)
        },
        None => false,
    }
}

/// Whether one of these choices tells what a slot holds.
pub open spec fn told(choices: Seq<JsonView>, slot: SlotView) -> bool {
    exists|j: int| 0 <= j < choices.len() && tells(#[trigger] choices[j], slot)
}

/// Whatever the cache holds after it has taken in some choices, it held before, or one of the choices
/// told it.
pub proof fn every_text_was_there_or_was_told(
    slots: Seq<SlotView>,
    choices: Seq<JsonView>,
    now: u64,
    ttl: u64,
    max_size: nat,
    i: int,
)
    requires
        distinct_keys(slots),
        0 <= i < remembered(slots, choices, now, ttl, max_size).len(),
    ensures
        slots.contains(remembered(slots, choices, now, ttl, max_size)[i]) || told(
            choices,
            remembered(slots, choices, now, ttl, max_size)[i],
        ),
    decreases choices.len(),
{
    let kept = remembered(slots, choices, now, ttl, max_size);
    if choices.len() == 0 {
        assert(slots.contains(slots[i]));
    } else {
        let front = choices.drop_last();
        let before = remembered(slots, front, now, ttl, max_size);
        remembering_keeps_the_cache_in_order(slots, front, now, ttl, max_size);
        let from = match choice_slot(choices.last(), now, ttl) {
            Some(slot) => {
                let others = without_key(before, slot.key);
                let full = others.push(slot);
                let fresh = unexpired(full, now);
                storing_keeps_distinct(before, slot, now);
                eviction_makes_room(fresh, max_size);
                assert(fresh.contains(kept[i]));
                let k = choose|k: int| 0 <= k < fresh.len() && fresh[k] == kept[i];
                filter_keeps_old(full, |s: SlotView| s.expires_at > now);
                assert(full.contains(fresh[k]));
                let m = choose|m: int| 0 <= m < full.len() && full[m] == kept[i];
                if m < others.len() {
                    filter_keeps_old(before, |s: SlotView| s.key != slot.key);
                    assert(before.contains(others[m]));
                    choose|n: int| 0 <= n < before.len() && before[n] == kept[i]
                } else {
                    assert(kept[i] == slot);
                    assert(tells(choices[choices.len() - 1], slot));
                    -1
                }
            },
            None => i,
        };
        if from >= 0 {
            every_text_was_there_or_was_told(slots, front, now, ttl, max_size, from);
            if told(front, kept[i]) {
                let j = choose|j: int| 0 <= j < front.len() && tells(#[trigger] front[j], kept[i]);
                assert(choices[j] == front[j]);
            }
        }
    }
}

/// Something that happens to the cache.
pub enum Event {
    /// A response with these choices comes in, and its reasoning texts are to count for `ttl`.
    Response { choices: Seq<JsonView>, now: u64, ttl: u64 },
    /// The expired entries are dropped.
    Sweep { now: u64 },
}

/// When an event happens.
pub open spec fn when(event: Event) -> u64 {
    match event {
        Event::Response { now, .. } => now,
        Event::Sweep { now } => now,
    }
}

/// What a cache that held `slots` holds after these events.
pub open spec fn after(slots: Seq<SlotView>, events: Seq<Event>, max_size: nat) -> Seq<SlotView>
    decreases events.len(),
{
    if events.len() == 0 {
        slots
    } else {
        let before = after(slots, events.drop_last(), max_size);
        match events.last() {
            Event::Response { choices, now, ttl } => remembered(before, choices, now, ttl, max_size),
            Event::Sweep { now } => unexpired(before, now),
        }
    }
}

/// Whether one of the responses told what a slot holds.
pub open spec fn told_in(events: Seq<Event>, slot: SlotView) -> bool {
    exists|e: int|
        0 <= e < events.len() && (#[trigger] events[e]) is Response && told(
            events[e]->choices,
            slot,
        )
}

/// At any time a cache that was empty at first holds at most `max_size` texts, one per key, and each
/// of them is the reasoning text, not empty, of an assistant's message with tool calls that came in
/// with a response, under the key of that message's content and tool calls.
pub proof fn the_cache_holds_what_responses_told(events: Seq<Event>, max_size: nat)
    ensures
        after(Seq::empty(), events, max_size).len() <= max_size,
        distinct_keys(after(Seq::empty(), events, max_size)),
        forall|i: int|
            0 <= i < after(Seq::empty(), events, max_size).len() ==> told_in(
                events,
                #[trigger] after(Seq::empty(), events, max_size)[i],
            ),
    decreases events.len(),
{
    if events.len() > 0 {
        let front = events.drop_last();
        let before = after(Seq::empty(), front, max_size);
        let slots = after(Seq::empty(), events, max_size);
        the_cache_holds_what_responses_told(front, max_size);
        match events.last() {
            Event::Response { choices, now, ttl } => {
                remembering_keeps_the_cache_in_order(before, choices, now, ttl, max_size);
            },
            Event::Sweep { now } => {
                let fresh = |s: SlotView| s.expires_at > now;
                filter_keeps_distinct(before, fresh);
                filter_keeps_old(before, fresh);
                before.lemma_filter_len(fresh);
            },
        }
        assert forall|i: int| 0 <= i < slots.len() implies told_in(events, #[trigger] slots[i]) by {
            let slot = slots[i];
            if let Event::Response { choices, now, ttl } = events.last() {
                every_text_was_there_or_was_told(before, choices, now, ttl, max_size, i);
                if told(choices, slot) {
                    let e = events.len() - 1;
                    assert(events[e] is Response && told(events[e]->choices, slot));
                }
            } else {
                assert(before.contains(slots[i]));
            }
            if before.contains(slot) {
                let k = choose|k: int| 0 <= k < before.len() && before[k] == slot;
                assert(told_in(front, before[k]));
                let e = choose|e: int|
                    0 <= e < front.len() && (#[trigger] front[e]) is Response && told(
                        front[e]->choices,
                        slot,
                    );
                assert(events[e] == front[e]);
            }
        }
    }
}

/// The number of texts that the responses bring.
pub open spec fn texts_in(events: Seq<Event>) -> nat
    decreases events.len(),
{
    if events.len() == 0 {
        0
    } else {
        texts_in(events.drop_last()) + match events.last() {
            Event::Response { choices, now, ttl } => memorable(choices, now, ttl),
            Event::Sweep { .. } => 0,
        }
    }
}

/// Whether none of these choices brings a text under this key.
pub open spec fn key_untold(choices: Seq<JsonView>, key: Seq<char>) -> bool {
    forall|j: int|
        0 <= j < choices.len() && is_memorable(#[trigger] choices[j]) ==> message_key(
            choices[j].member("message"@)->0,
        ) != key
}

/// Whether none of the responses brings a text under this key.
pub open spec fn key_untold_in(events: Seq<Event>, key: Seq<char>) -> bool {
    forall|e: int|
        0 <= e < events.len() && (#[trigger] events[e]) is Response ==> key_untold(
            events[e]->choices,
            key,
        )
}

/// Whether all these events happen from time `start` to time `end`.
pub open spec fn happen_within(events: Seq<Event>, start: u64, end: u64) -> bool {
    forall|e: int| 0 <= e < events.len() ==> start <= when(#[trigger] events[e]) <= end
}

/// What holds of events holds of all but the last.
proof fn earlier_events(events: Seq<Event>, key: Seq<char>, start: u64, end: u64)
    requires
        events.len() > 0,
        key_untold_in(events, key),
        happen_within(events, start, end),
    ensures
        key_untold_in(events.drop_last(), key),
        happen_within(events.drop_last(), start, end),
        events.last() is Response ==> key_untold(events.last()->choices, key),
        start <= when(events.last()) <= end,
{
    let front = events.drop_last();
    assert forall|e: int| 0 <= e < front.len() && (#[trigger] front[e]) is Response implies key_untold(
        front[e]->choices,
        key,
    ) by {
        assert(events[e] == front[e]);
    }
    assert forall|e: int| 0 <= e < front.len() implies start <= when(#[trigger] front[e]) <= end by {
        assert(events[e] == front[e]);
    }
    assert(events[events.len() - 1] == events.last());
}

/// Events keep the keys of the cache apart.
proof fn events_keep_distinct(slots: Seq<SlotView>, events: Seq<Event>, max_size: nat)
    requires
        distinct_keys(slots),
    ensures
        distinct_keys(after(slots, events, max_size)),
    decreases events.len(),
{
    if events.len() > 0 {
        let before = after(slots, events.drop_last(), max_size);
        events_keep_distinct(slots, events.drop_last(), max_size);
        match events.last() {
            Event::Response { choices, now, ttl } => {
                remembering_keeps_the_cache_in_order(before, choices, now, ttl, max_size);
            },
            Event::Sweep { now } => {
                filter_keeps_distinct(before, |s: SlotView| s.expires_at > now);
            },
        }
    }
}

/// Taking in choices with other keys, where there is room for all, is not noticed under a key.
proof fn other_choices_are_not_noticed(
    slots: Seq<SlotView>,
    choices: Seq<JsonView>,
    now: u64,
    ttl: u64,
    max_size: nat,
    key: Seq<char>,
    later: u64,
)
    requires
        distinct_keys(slots),
        now <= later,
        slots.len() + memorable(choices, now, ttl) <= max_size,
        key_untold(choices, key),
    ensures
        recalled(remembered(slots, choices, now, ttl, max_size), key, later) == recalled(
            slots,
            key,
            later,
        ),
        remembered(slots, choices, now, ttl, max_size).len() <= slots.len() + memorable(
            choices,
            now,
            ttl,
        ),
    decreases choices.len(),
{
    reveal(Seq::filter);
    if choices.len() > 0 {
        let front = choices.drop_last();
        assert forall|j: int| 0 <= j < front.len() && is_memorable(#[trigger] front[j]) implies message_key(
            front[j].member("message"@)->0,
        ) != key by {
            assert(choices[j] == front[j]);
        }
        other_choices_are_not_noticed(slots, front, now, ttl, max_size, key, later);
        let before = remembered(slots, front, now, ttl, max_size);
        remembering_keeps_the_cache_in_order(slots, front, now, ttl, max_size);
        if let Some(slot) = choice_slot(choices.last(), now, ttl) {
            assert(is_memorable(choices[choices.len() - 1]));
            with_room_nothing_is_lost(before, slot, now, max_size, key, later);
            let full = without_key(before, slot.key).push(slot);
            before.lemma_filter_len(|s: SlotView| s.key != slot.key);
            full.lemma_filter_len(|s: SlotView| s.expires_at > now);
            storing_keeps_distinct(before, slot, now);
            eviction_makes_room(unexpired(full, now), max_size);
        }
    }
}

/// Whatever responses come in and however often the cache is swept, what is recalled under a key
/// stays what it was, until it expires, where none of the responses brings a text under that key
/// and there is room for all that they bring.
pub proof fn what_was_told_stays(
    slots: Seq<SlotView>,
    events: Seq<Event>,
    max_size: nat,
    key: Seq<char>,
    later: u64,
)
    requires
        distinct_keys(slots),
        slots.len() + texts_in(events) <= max_size,
        happen_within(events, 0, later),
        key_untold_in(events, key),
    ensures
        recalled(after(slots, events, max_size), key, later) == recalled(slots, key, later),
        after(slots, events, max_size).len() <= slots.len() + texts_in(events),
    decreases events.len(),
{
    if events.len() > 0 {
        let front = events.drop_last();
        let before = after(slots, front, max_size);
        earlier_events(events, key, 0, later);
        what_was_told_stays(slots, front, max_size, key, later);
        events_keep_distinct(slots, front, max_size);
        match events.last() {
            Event::Response { choices, now, ttl } => {
                other_choices_are_not_noticed(before, choices, now, ttl, max_size, key, later);
            },
            Event::Sweep { now } => {
                sweeping_is_not_noticed(before, now, key, later);
                before.lemma_filter_len(|s: SlotView| s.expires_at > now);
            },
        }
    }
}

/// A slot stays in the cache while fewer than `max_size` texts with other keys are behind it or come
/// in behind it.
proof fn events_spare(
    a: Seq<SlotView>,
    slot: SlotView,
    b: Seq<SlotView>,
    events: Seq<Event>,
    max_size: nat,
    later: u64,
) -> (sides: (Seq<SlotView>, Seq<SlotView>))
    requires
        none_later(a, slot.inserted_at),
        none_earlier(b, slot.inserted_at),
        b.len() + texts_in(events) < max_size,
        happen_within(events, slot.inserted_at, later),
        later < slot.expires_at,
        key_untold_in(events, slot.key),
    ensures
        after(a.push(slot) + b, events, max_size) == sides.0.push(slot) + sides.1,
        none_later(sides.0, slot.inserted_at),
        none_earlier(sides.1, slot.inserted_at),
        sides.1.len() <= b.len() + texts_in(events),
    decreases events.len(),
{
    if events.len() == 0 {
        (a, b)
    } else {
        earlier_events(events, slot.key, slot.inserted_at, later);
        let (a1, b1) = events_spare(a, slot, b, events.drop_last(), max_size, later);
        match events.last() {
            Event::Response { choices, now, ttl } => {
                assert forall|i: int|
                    0 <= i < choices.len() && choice_slot(#[trigger] choices[i], now, ttl) is Some implies choice_slot(
                    choices[i],
                    now,
                    ttl,
                )->0.key != slot.key by {
                    assert(is_memorable(choices[i]));
                }
                later_choices_spare(a1, slot, b1, choices, now, ttl, max_size)
            },
            Event::Sweep { now } => {
                let fresh = |s: SlotView| s.expires_at > now;
                filter_around(a1, slot, b1, fresh);
                filter_keeps_times(a1, fresh, slot.inserted_at);
                filter_keeps_times(b1, fresh, slot.inserted_at);
                (a1.filter(fresh), b1.filter(fresh))
            },
        }
    }
}

/// In a full cache too a text stays until it expires, where the texts before it in the cache are no
/// younger, those behind it no older, and fewer than `max_size` are behind it or come in later.
pub proof fn a_text_outlasts_older_ones(
    slots: Seq<SlotView>,
    at: int,
    events: Seq<Event>,
    max_size: nat,
    later: u64,
)
    requires
        distinct_keys(slots),
        0 <= at < slots.len(),
        none_later(slots.take(at), slots[at].inserted_at),
        none_earlier(slots.skip(at + 1), slots[at].inserted_at),
        slots.len() - at - 1 + texts_in(events) < max_size,
        happen_within(events, slots[at].inserted_at, later),
        later < slots[at].expires_at,
        key_untold_in(events, slots[at].key),
    ensures
        find(after(slots, events, max_size), slots[at].key) == Some(slots[at]),
        recalled(after(slots, events, max_size), slots[at].key, later) == Some(slots[at].reasoning),
{
    let slot = slots[at];
    assert(slots =~= slots.take(at).push(slot) + slots.skip(at + 1));
    let (a, b) = events_spare(slots.take(at), slot, slots.skip(at + 1), events, max_size, later);
    let kept = after(slots, events, max_size);
    events_keep_distinct(slots, events, max_size);
    assert(kept[a.len() as int] == slot);
    found_by_key(kept, slot.key);
}

/// A client that sends a message of a response back without its reasoning text, but with the same
/// content and the same tool calls, gets that reasoning text put in again until it expires, whatever
/// other responses come in meanwhile and however often the cache is swept, where fewer texts came in
/// behind it than the cache may hold and none of them under the same key.
pub proof fn a_message_gets_its_reasoning_back_later(
    slots: Seq<SlotView>,
    choices: Seq<JsonView>,
    at: int,
    events: Seq<Event>,
    message: JsonView,
    now: u64,
    ttl: u64,
    max_size: nat,
    later: u64,
)
    requires
        distinct_keys(slots),
        none_later(slots, now),
        now + ttl <= u64::MAX,
        0 <= at < choices.len(),
        choices.len() - at + texts_in(events) <= max_size,
        is_memorable(choices[at]),
        key_untold(
            choices.skip(at + 1),
            message_key(choices[at].member("message"@)->0),
        ),
        key_untold_in(events, message_key(choices[at].member("message"@)->0)),
        happen_within(events, now, later),
        now <= later < now + ttl,
        lacks_reasoning(message),
        content_text(message) == content_text(choices[at].member("message"@)->0),
        message.member("tool_calls"@) == choices[at].member("message"@)->0.member("tool_calls"@),
    ensures
        fixed(
            message,
            after(remembered(slots, choices, now, ttl, max_size), events, max_size),
            later,
        ) == message.with_member(
            "reasoning_content"@,
            choices[at].member("message"@)->0.member("reasoning_content"@)->0,
        ),
{
    let slot = choice_slot(choices[at], now, ttl)->0;
    assert forall|i: int|
        at < i < choices.len() && choice_slot(#[trigger] choices[i], now, ttl) is Some implies choice_slot(
        choices[i],
        now,
        ttl,
    )->0.key != slot.key by {
        assert(is_memorable(choices.skip(at + 1)[i - at - 1]));
    }
    let (a, b) = what_a_response_brought_is_there(slots, choices, at, now, ttl, max_size);
    let once = remembered(slots, choices, now, ttl, max_size);
    let here = a.len() as int;
    remembering_keeps_the_cache_in_order(slots, choices, now, ttl, max_size);
    assert(once[here] == slot);
    assert(once.take(here) =~= a);
    assert(once.skip(here + 1) =~= b);
    a_text_outlasts_older_ones(once, here, events, max_size, later);
    assert(message_key(message) == slot.key);
}

/// What the last of these choices with this key puts into the cache.
spec fn last_told(choices: Seq<JsonView>, key: Seq<char>, now: u64, ttl: u64) -> Option<SlotView>
    decreases choices.len(),
{
    if choices.len() == 0 {
        None
    } else {
        match choice_slot(choices.last(), now, ttl) {
            Some(slot) if slot.key == key => Some(slot),
            _ => last_told(choices.drop_last(), key, now, ttl),
        }
    }
}

/// The last choice with a key is one of the choices, with none behind it that has the key.
proof fn last_told_at(choices: Seq<JsonView>, key: Seq<char>, now: u64, ttl: u64) -> (at: int)
    ensures
        match last_told(choices, key, now, ttl) {
            Some(slot) => {
                &&& 0 <= at < choices.len()
                &&& choice_slot(choices[at], now, ttl) == Some(slot)
                &&& slot.key == key
                &&& forall|i: int|
                    at < i < choices.len() && choice_slot(#[trigger] choices[i], now, ttl) is Some
                        ==> choice_slot(choices[i], now, ttl)->0.key != key
            },
            None => forall|i: int|
                0 <= i < choices.len() && choice_slot(#[trigger] choices[i], now, ttl) is Some
                    ==> choice_slot(choices[i], now, ttl)->0.key != key,
        },
    decreases choices.len(),
{
    if choices.len() == 0 {
        0
    } else {
        let last = choices.len() - 1;
        let front = choices.drop_last();
        assert(forall|i: int| 0 <= i < last ==> #[trigger] choices[i] == front[i]);
        if choice_slot(choices[last], now, ttl) is Some && choice_slot(choices[last], now, ttl)->0.key
            == key {
            last
        } else {
            last_told_at(front, key, now, ttl)
        }
    }
}

/// When a response comes in does not matter to what it tells under which key.
proof fn last_told_whenever(choices: Seq<JsonView>, key: Seq<char>, now: u64, later: u64, ttl: u64)
    ensures
        match last_told(choices, key, now, ttl) {
            Some(slot) => last_told(choices, key, later, ttl) == Some(
                (SlotView {
                    key: slot.key,
                    reasoning: slot.reasoning,
                    expires_at: (later + ttl) as u64,
                    inserted_at: later,
                }),
            ),
            None => last_told(choices, key, later, ttl) is None,
        },
    decreases choices.len(),
{
    if choices.len() > 0 {
        last_told_whenever(choices.drop_last(), key, now, later, ttl);
    }
}

/// Taking the slot with a key out leaves the slots with other keys where they are found, and makes
/// one slot fewer, if there was such a slot.
proof fn without_one_key(slots: Seq<SlotView>, key: Seq<char>)
    requires
        distinct_keys(slots),
    ensures
        without_key(slots, key).len() == slots.len() - if find(slots, key) is Some {
            1int
        } else {
            0
        },
        forall|k: Seq<char>| k != key ==> #[trigger] find(without_key(slots, key), k) == find(slots, k),
    decreases slots.len(),
{
    reveal(Seq::filter);
    if slots.len() > 0 {
        let front = slots.drop_last();
        let last = slots.last();
        assert(distinct_keys(front));
        without_one_key(front, key);
        let left = without_key(slots, key);
        if last.key == key {
            assert(left == without_key(front, key));
            found_by_key(front, key);
            if let Some(slot) = find(front, key) {
                let j = choose|j: int| 0 <= j < front.len() && front[j] == slot;
                assert(slots[j].key == slots[slots.len() - 1].key);
            }
        } else {
            assert(left == without_key(front, key).push(last));
            assert(left.drop_last() =~= without_key(front, key));
        }
        assert forall|k: Seq<char>| k != key implies #[trigger] find(left, k) == find(slots, k) by {
            assert(find(without_key(front, key), k) == find(front, k));
        }
    }
}

/// Where nothing has expired, sweeping keeps everything.
proof fn nothing_to_sweep(slots: Seq<SlotView>, now: u64)
    requires
        forall|i: int| 0 <= i < slots.len() ==> (#[trigger] slots[i]).expires_at > now,
    ensures
        unexpired(slots, now) == slots,
    decreases slots.len(),
{
    reveal(Seq::filter);
    if slots.len() > 0 {
        let front = slots.drop_last();
        assert forall|i: int| 0 <= i < front.len() implies (#[trigger] front[i]).expires_at > now by {
            assert(slots[i] == front[i]);
        }
        nothing_to_sweep(front, now);
        assert(slots[slots.len() - 1].expires_at > now);
        assert(unexpired(slots, now) =~= slots);
    }
}

/// Taking in choices whose keys a cache has, while nothing expires, replaces what it has under those
/// keys and nothing else.
proof fn known_keys_are_replaced(
    slots: Seq<SlotView>,
    choices: Seq<JsonView>,
    now: u64,
    ttl: u64,
    max_size: nat,
)
    requires
        distinct_keys(slots),
        slots.len() <= max_size,
        0 < ttl,
        now + ttl <= u64::MAX,
        forall|i: int| 0 <= i < slots.len() ==> (#[trigger] slots[i]).expires_at > now,
        forall|i: int|
            0 <= i < choices.len() && choice_slot(#[trigger] choices[i], now, ttl) is Some ==> find(
                slots,
                choice_slot(choices[i], now, ttl)->0.key,
            ) is Some,
    ensures
        ({
            let taken = remembered(slots, choices, now, ttl, max_size);
            &&& taken.len() == slots.len()
            &&& distinct_keys(taken)
            &&& forall|i: int| 0 <= i < taken.len() ==> (#[trigger] taken[i]).expires_at > now
            &&& forall|k: Seq<char>| #[trigger]
                find(taken, k) == match last_told(choices, k, now, ttl) {
                    Some(slot) => Some(slot),
                    None => find(slots, k),
                }
        }),
    decreases choices.len(),
{
    if choices.len() > 0 {
        let front = choices.drop_last();
        assert(forall|i: int| 0 <= i < front.len() ==> #[trigger] front[i] == choices[i]);
        known_keys_are_replaced(slots, front, now, ttl, max_size);
        let before = remembered(slots, front, now, ttl, max_size);
        let taken = remembered(slots, choices, now, ttl, max_size);
        if let Some(slot) = choice_slot(choices.last(), now, ttl) {
            assert(choice_slot(choices[choices.len() - 1], now, ttl) is Some);
            assert(find(before, slot.key) is Some);
            without_one_key(before, slot.key);
            let others = without_key(before, slot.key);
            let full = others.push(slot);
            filter_keeps_old(before, |s: SlotView| s.key != slot.key);
            assert forall|i: int| 0 <= i < full.len() implies (#[trigger] full[i]).expires_at > now by {
                if i < others.len() {
                    assert(before.contains(others[i]));
                    let j = choose|j: int| 0 <= j < before.len() && before[j] == others[i];
                    assert(before[j].expires_at > now);
                }
            }
            nothing_to_sweep(full, now);
            assert(taken == full);
            storing_keeps_distinct(before, slot, now);
            assert(full.drop_last() =~= others);
            assert forall|k: Seq<char>| #[trigger]
                find(taken, k) == match last_told(choices, k, now, ttl) {
                    Some(slot) => Some(slot),
                    None => find(slots, k),
                } by {
                if k != slot.key {
                    assert(find(taken, k) == find(others, k));
                    assert(find(others, k) == find(before, k));
                }
            }
        } else {
            assert forall|k: Seq<char>| #[trigger]
                find(taken, k) == match last_told(choices, k, now, ttl) {
                    Some(slot) => Some(slot),
                    None => find(slots, k),
                } by {
                assert(find(taken, k) == find(before, k));
            }
        }
    }
}

/// A cache that takes anything in is within its bound, and one that takes nothing in stays as it is.
proof fn bounded_or_unchanged(
    slots: Seq<SlotView>,
    choices: Seq<JsonView>,
    now: u64,
    ttl: u64,
    max_size: nat,
)
    requires
        distinct_keys(slots),
    ensures
        remembered(slots, choices, now, ttl, max_size).len() <= max_size || (remembered(
            slots,
            choices,
            now,
            ttl,
            max_size,
        ) == slots && forall|i: int|
            0 <= i < choices.len() ==> choice_slot(#[trigger] choices[i], now, ttl) is None),
    decreases choices.len(),
{
    if choices.len() > 0 {
        let front = choices.drop_last();
        assert(forall|i: int| 0 <= i < front.len() ==> #[trigger] front[i] == choices[i]);
        bounded_or_unchanged(slots, front, now, ttl, max_size);
        if let Some(slot) = choice_slot(choices.last(), now, ttl) {
            let before = remembered(slots, front, now, ttl, max_size);
            remembering_keeps_the_cache_in_order(slots, front, now, ttl, max_size);
            the_cache_stays_in_bounds(before, slot, now, max_size);
        } else if remembered(slots, front, now, ttl, max_size).len() > max_size {
            assert forall|i: int| 0 <= i < choices.len() implies choice_slot(
                #[trigger] choices[i],
                now,
                ttl,
            ) is None by {
                if i < front.len() {
                    assert(choice_slot(front[i], now, ttl) is None);
                }
            }
        }
    }
}

/// Where no choice is taken in, whenever, the cache stays as it is.
proof fn nothing_taken_in(
    slots: Seq<SlotView>,
    choices: Seq<JsonView>,
    now: u64,
    ttl: u64,
    max_size: nat,
)
    requires
        forall|i: int|
            0 <= i < choices.len() ==> choice_slot(#[trigger] choices[i], now, ttl) is None,
    ensures
        remembered(slots, choices, now, ttl, max_size) == slots,
    decreases choices.len(),
{
    if choices.len() > 0 {
        let front = choices.drop_last();
        assert(forall|i: int| 0 <= i < front.len() ==> #[trigger] front[i] == choices[i]);
        nothing_taken_in(slots, front, now, ttl, max_size);
        assert(choice_slot(choices[choices.len() - 1], now, ttl) is None);
    }
}

/// Taking in the same response once more, while nothing expires and there is room for its choices,
/// counts as many texts as before, leaves the cache with the same keys and the same texts under
/// them, and sets no time back.
pub proof fn the_same_response_again_changes_no_text(
    slots: Seq<SlotView>,
    choices: Seq<JsonView>,
    now: u64,
    again: u64,
    ttl: u64,
    max_size: nat,
)
    requires
        distinct_keys(slots),
        none_later(slots, now),
        choices.len() <= max_size,
        now <= again,
        any_memorable(choices) ==> again < now + ttl && again + ttl <= u64::MAX,
        forall|i: int|
            0 <= i < remembered(slots, choices, now, ttl, max_size).len() ==> (
            #[trigger] remembered(slots, choices, now, ttl, max_size)[i]).expires_at > again,
    ensures
        memorable(choices, again, ttl) == memorable(choices, now, ttl),
        ({
            let once = remembered(slots, choices, now, ttl, max_size);
            let twice = remembered(once, choices, again, ttl, max_size);
            &&& twice.len() == once.len()
            &&& forall|key: Seq<char>| #[trigger]
                find(twice, key) is Some <==> find(once, key) is Some
            &&& forall|key: Seq<char>| #[trigger]
                find(twice, key) is Some ==> {
                    &&& find(twice, key)->0.reasoning == find(once, key)->0.reasoning
                    &&& find(twice, key)->0.expires_at >= find(once, key)->0.expires_at
                    &&& find(twice, key)->0.inserted_at >= find(once, key)->0.inserted_at
                }
        }),
{
    let once = remembered(slots, choices, now, ttl, max_size);
    let twice = remembered(once, choices, again, ttl, max_size);
    let taken = |choice: JsonView| choice_slot(choice, now, ttl) is Some;
    let taken_again = |choice: JsonView| choice_slot(choice, again, ttl) is Some;
    assert(taken =~= taken_again);
    remembering_keeps_the_cache_in_order(slots, choices, now, ttl, max_size);
    bounded_or_unchanged(slots, choices, now, ttl, max_size);
    if !any_memorable(choices) || once.len() > max_size {
        assert forall|i: int| 0 <= i < choices.len() implies choice_slot(
            #[trigger] choices[i],
            again,
            ttl,
        ) is None by {
            assert(choice_slot(choices[i], now, ttl) is None);
        }
        nothing_taken_in(once, choices, again, ttl, max_size);
    } else {
        assert forall|key: Seq<char>| (#[trigger] last_told(choices, key, now, ttl)) is Some implies find(
            once,
            key,
        ) == last_told(choices, key, now, ttl) by {
            let at = last_told_at(choices, key, now, ttl);
            what_a_response_brought_is_recalled(slots, choices, at, now, ttl, max_size, again);
        }
        assert forall|i: int|
            0 <= i < choices.len() && choice_slot(#[trigger] choices[i], again, ttl) is Some implies find(
            once,
            choice_slot(choices[i], again, ttl)->0.key,
        ) is Some by {
            let key = choice_slot(choices[i], again, ttl)->0.key;
            assert(choice_slot(choices[i], now, ttl)->0.key == key);
            last_told_at(choices, key, now, ttl);
            assert(last_told(choices, key, now, ttl) is Some);
        }
        known_keys_are_replaced(once, choices, again, ttl, max_size);
        assert forall|key: Seq<char>| true implies {
            &&& #[trigger] find(twice, key) is Some <==> find(once, key) is Some
            &&& find(twice, key) is Some ==> {
                &&& find(twice, key)->0.reasoning == find(once, key)->0.reasoning
                &&& find(twice, key)->0.expires_at >= find(once, key)->0.expires_at
                &&& find(twice, key)->0.inserted_at >= find(once, key)->0.inserted_at
            }
        } by {
            last_told_whenever(choices, key, now, again, ttl);
            if let Some(slot) = last_told(choices, key, now, ttl) {
                last_told_at(choices, key, now, ttl);
                assert(find(once, key) == Some(slot));
            }
        }
    }
}

} // verus!
