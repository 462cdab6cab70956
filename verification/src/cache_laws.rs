//! What holds of the cache, whatever is put in and whenever.
use crate::cache::{
    distinct_keys, evicted_to, filter_keeps_distinct, filter_keeps_old, find, oldest,
    oldest_in_range, recalled, remove_keeps_distinct, stored, unexpired, without_key, SlotView,
};
use vstd::prelude::*;

verus! {

/// A slot is found under its key, and only under its key.
pub(crate) proof fn found_by_key(slots: Seq<SlotView>, key: Seq<char>)
    requires
        distinct_keys(slots),
    ensures
        match find(slots, key) {
            Some(slot) => slot.key == key && slots.contains(slot),
            None => forall|i: int| 0 <= i < slots.len() ==> (#[trigger] slots[i]).key != key,
        },
        forall|i: int|
            0 <= i < slots.len() && (#[trigger] slots[i]).key == key ==> find(slots, key) == Some(
                slots[i],
            ),
    decreases slots.len(),
{
    if slots.len() > 0 {
        let front = slots.drop_last();
        assert(distinct_keys(front));
        found_by_key(front, key);
        if slots.last().key == key {
            assert(slots[slots.len() - 1] == slots.last());
        } else {
            assert forall|i: int| 0 <= i < slots.len() && (#[trigger] slots[i]).key == key implies find(
                slots,
                key,
            ) == Some(slots[i]) by {
                assert(front[i] == slots[i]);
            }
            match find(front, key) {
                Some(slot) => {
                    let j = choose|j: int| 0 <= j < front.len() && front[j] == slot;
                    assert(slots[j] == slot);
                },
                None => {
                    assert forall|i: int| 0 <= i < slots.len() implies (#[trigger] slots[i]).key
                        != key by {
                        if i < front.len() {
                            assert(front[i] == slots[i]);
                        }
                    }
                },
            }
        }
    }
}

/// What a filter turns away was not wanted.
proof fn filter_keeps_wanted(slots: Seq<SlotView>, wanted: spec_fn(SlotView) -> bool, i: int)
    requires
        0 <= i < slots.len(),
        wanted(slots[i]),
    ensures
        slots.filter(wanted).contains(slots[i]),
    decreases slots.len(),
{
    reveal(Seq::filter);
    let front = slots.drop_last();
    let kept = slots.filter(wanted);
    if i == slots.len() - 1 {
        assert(kept[kept.len() - 1] == slots[i]);
    } else {
        filter_keeps_wanted(front, wanted, i);
        assert(front[i] == slots[i]);
        let j = choose|j: int| 0 <= j < front.filter(wanted).len() && front.filter(wanted)[j] == slots[i];
        assert(kept[j] == slots[i]);
    }
}

/// Dropping the expired entries changes nothing that can be recalled from then on.
pub proof fn sweeping_is_not_noticed(slots: Seq<SlotView>, swept_at: u64, key: Seq<char>, now: u64)
    requires
        distinct_keys(slots),
        swept_at <= now,
    ensures
        recalled(unexpired(slots, swept_at), key, now) == recalled(slots, key, now),
{
    let fresh = |slot: SlotView| slot.expires_at > swept_at;
    let kept = unexpired(slots, swept_at);
    filter_keeps_distinct(slots, fresh);
    filter_keeps_old(slots, fresh);
    found_by_key(slots, key);
    found_by_key(kept, key);
    match find(kept, key) {
        Some(slot) => {
            let i = choose|i: int| 0 <= i < kept.len() && kept[i] == slot;
            assert(slots.contains(kept[i]));
            let j = choose|j: int| 0 <= j < slots.len() && slots[j] == slot;
            assert(slots[j].key == key);
        },
        None => {
            if let Some(slot) = find(slots, key) {
                if slot.expires_at > swept_at {
                    let j = choose|j: int| 0 <= j < slots.len() && slots[j] == slot;
                    filter_keeps_wanted(slots, fresh, j);
                    let i = choose|i: int| 0 <= i < kept.len() && kept[i] == slots[j];
                    assert(kept[i].key == key);
                }
            }
        },
    }
}

/// Making room leaves at most as many entries as there may be, all of them from before, with their
/// keys still apart.
pub proof fn eviction_makes_room(slots: Seq<SlotView>, max_size: nat)
    requires
        distinct_keys(slots),
    ensures
        evicted_to(slots, max_size).len() == if slots.len() <= max_size {
            slots.len()
        } else {
            max_size
        },
        distinct_keys(evicted_to(slots, max_size)),
        forall|i: int|
            0 <= i < evicted_to(slots, max_size).len() ==> slots.contains(
                #[trigger] evicted_to(slots, max_size)[i],
            ),
    decreases slots.len(),
{
    if slots.len() > max_size {
        oldest_in_range(slots);
        let at = oldest(slots);
        let left = slots.remove(at);
        remove_keeps_distinct(slots, at);
        eviction_makes_room(left, max_size);
        let kept = evicted_to(left, max_size);
        assert forall|i: int| 0 <= i < kept.len() implies slots.contains(#[trigger] kept[i]) by {
            assert(left.contains(kept[i]));
            let j = choose|j: int| 0 <= j < left.len() && left[j] == kept[i];
            assert(left[j] == slots[if j < at { j } else { j + 1 }]);
        }
    } else {
        assert forall|i: int| 0 <= i < slots.len() implies slots.contains(#[trigger] slots[i]) by {}
    }
}

/// The oldest slot is at least as old as every other.
pub(crate) proof fn oldest_is_oldest(slots: Seq<SlotView>)
    requires
        slots.len() > 0,
    ensures
        0 <= oldest(slots) < slots.len(),
        forall|i: int|
            0 <= i < slots.len() ==> slots[oldest(slots)].inserted_at <= (
            #[trigger] slots[i]).inserted_at,
        forall|i: int|
            0 <= i < oldest(slots) ==> slots[oldest(slots)].inserted_at < (
            #[trigger] slots[i]).inserted_at,
    decreases slots.len(),
{
    if slots.len() > 1 {
        let front = slots.drop_last();
        oldest_is_oldest(front);
        assert forall|i: int| 0 <= i < slots.len() implies slots[oldest(slots)].inserted_at <= (
        #[trigger] slots[i]).inserted_at by {
            if i < front.len() {
                assert(front[i] == slots[i]);
            }
        }
        assert forall|i: int| 0 <= i < oldest(slots) implies slots[oldest(slots)].inserted_at < (
        #[trigger] slots[i]).inserted_at by {
            assert(front[i] == slots[i]);
        }
    }
}

/// Room is made at the expense of the oldest: an entry that goes was put in no later than any entry
/// that stays.
pub proof fn the_oldest_go_first(slots: Seq<SlotView>, max_size: nat, i: int, j: int)
    requires
        distinct_keys(slots),
        0 <= i < slots.len(),
        !evicted_to(slots, max_size).contains(slots[i]),
        0 <= j < evicted_to(slots, max_size).len(),
    ensures
        slots[i].inserted_at <= evicted_to(slots, max_size)[j].inserted_at,
    decreases slots.len(),
{
    if slots.len() <= max_size {
        assert(slots.contains(slots[i]));
    } else {
        oldest_is_oldest(slots);
        let at = oldest(slots);
        let left = slots.remove(at);
        let kept = evicted_to(left, max_size);
        remove_keeps_distinct(slots, at);
        if i == at {
            eviction_makes_room(slots, max_size);
            assert(slots.contains(evicted_to(slots, max_size)[j]));
            let k = choose|k: int| 0 <= k < slots.len() && slots[k] == kept[j];
            assert(slots[at].inserted_at <= slots[k].inserted_at);
        } else {
            let moved = if i < at { i } else { i - 1 };
            assert(left[moved] == slots[i]);
            the_oldest_go_first(left, max_size, moved, j);
        }
    }
}

/// The slot that was put in last stays where it is the youngest and there is room for one.
proof fn the_youngest_stays(slots: Seq<SlotView>, max_size: nat)
    requires
        slots.len() > 0,
        max_size > 0,
        forall|i: int|
            0 <= i < slots.len() ==> (#[trigger] slots[i]).inserted_at <= slots.last().inserted_at,
    ensures
        evicted_to(slots, max_size).len() > 0,
        evicted_to(slots, max_size).last() == slots.last(),
    decreases slots.len(),
{
    if slots.len() > max_size {
        oldest_is_oldest(slots);
        let at = oldest(slots);
        assert(at != slots.len() - 1) by {
            if at == slots.len() - 1 {
                assert(slots[at].inserted_at < slots[0].inserted_at);
                assert(slots[0].inserted_at <= slots.last().inserted_at);
            }
        }
        let left = slots.remove(at);
        assert(left.last() == slots.last());
        assert forall|i: int| 0 <= i < left.len() implies (#[trigger] left[i]).inserted_at
            <= left.last().inserted_at by {
            assert(left[i] == slots[if i < at { i } else { i + 1 }]);
        }
        the_youngest_stays(left, max_size);
    }
}

/// After an entry has been put in, the cache holds at most `max_size` entries, one per key, and none
/// of them has expired.
pub proof fn the_cache_stays_in_bounds(
    slots: Seq<SlotView>,
    slot: SlotView,
    now: u64,
    max_size: nat,
)
    requires
        distinct_keys(slots),
    ensures
        stored(slots, slot, now, max_size).len() <= max_size,
        distinct_keys(stored(slots, slot, now, max_size)),
        forall|i: int|
            0 <= i < stored(slots, slot, now, max_size).len() ==> (
            #[trigger] stored(slots, slot, now, max_size)[i]).expires_at > now,
{
    let full = without_key(slots, slot.key).push(slot);
    let fresh = unexpired(full, now);
    storing_keeps_distinct(slots, slot, now);
    filter_keeps_old(full, |s: SlotView| s.expires_at > now);
    eviction_makes_room(fresh, max_size);
    let kept = stored(slots, slot, now, max_size);
    assert forall|i: int| 0 <= i < kept.len() implies (#[trigger] kept[i]).expires_at > now by {
        assert(fresh.contains(kept[i]));
        let j = choose|j: int| 0 <= j < fresh.len() && fresh[j] == kept[i];
        assert(fresh[j].expires_at > now);
    }
}

/// Putting an entry in keeps the keys apart.
pub(crate) proof fn storing_keeps_distinct(slots: Seq<SlotView>, slot: SlotView, now: u64)
    requires
        distinct_keys(slots),
    ensures
        distinct_keys(without_key(slots, slot.key).push(slot)),
        distinct_keys(unexpired(without_key(slots, slot.key).push(slot), now)),
{
    let other = |s: SlotView| s.key != slot.key;
    filter_keeps_distinct(slots, other);
    filter_keeps_old(slots, other);
    filter_keeps_distinct(
        without_key(slots, slot.key).push(slot),
        |s: SlotView| s.expires_at > now,
    );
}

/// What was put in is recalled under its key until it expires, where the cache has room for one
/// entry and holds none that was put in later.
pub proof fn what_was_stored_is_recalled(
    slots: Seq<SlotView>,
    slot: SlotView,
    now: u64,
    max_size: nat,
    later: u64,
)
    requires
        distinct_keys(slots),
        forall|i: int|
            0 <= i < slots.len() ==> (#[trigger] slots[i]).inserted_at <= slot.inserted_at,
        now <= later,
        max_size > 0,
    ensures
        recalled(stored(slots, slot, now, max_size), slot.key, later) == if later
            < slot.expires_at {
            Some(slot.reasoning)
        } else {
            None
        },
{
    let others = without_key(slots, slot.key);
    let full = others.push(slot);
    let is_fresh = |s: SlotView| s.expires_at > now;
    let fresh = unexpired(full, now);
    let kept = stored(slots, slot, now, max_size);
    the_cache_stays_in_bounds(slots, slot, now, max_size);
    storing_keeps_distinct(slots, slot, now);
    found_by_key(kept, slot.key);
    if slot.expires_at > now {
        assert(full.drop_last() =~= others);
        assert(fresh == others.filter(is_fresh).push(slot)) by {
            reveal(Seq::filter);
        }
        filter_keeps_old(slots, |s: SlotView| s.key != slot.key);
        filter_keeps_old(others, is_fresh);
        assert forall|i: int| 0 <= i < fresh.len() implies (#[trigger] fresh[i]).inserted_at
            <= fresh.last().inserted_at by {
            if i < fresh.len() - 1 {
                assert(fresh[i] == others.filter(is_fresh)[i]);
                let j = choose|j: int| 0 <= j < others.len() && others[j] == fresh[i];
                assert(slots.contains(others[j]));
                let k = choose|k: int| 0 <= k < slots.len() && slots[k] == others[j];
                assert(slots[k].inserted_at <= slot.inserted_at);
            }
        }
        the_youngest_stays(fresh, max_size);
        assert(kept[kept.len() - 1] == slot);
    } else {
        if let Some(found) = find(kept, slot.key) {
            let i = choose|i: int| 0 <= i < kept.len() && kept[i] == found;
            eviction_makes_room(fresh, max_size);
            assert(fresh.contains(kept[i]));
            let j = choose|j: int| 0 <= j < fresh.len() && fresh[j] == found;
            filter_keeps_old(full, is_fresh);
            assert(full.contains(fresh[j]));
            let k = choose|k: int| 0 <= k < full.len() && full[k] == found;
            filter_keeps_old(slots, |s: SlotView| s.key != slot.key);
            assert(full[k].key == slot.key);
            assert(k == full.len() - 1);
        }
    }
}

/// Putting an entry in never changes what is recalled under another key: the text stays what it
/// was, or it is recalled no more.
pub proof fn other_keys_keep_their_text(
    slots: Seq<SlotView>,
    slot: SlotView,
    now: u64,
    max_size: nat,
    key: Seq<char>,
    later: u64,
)
    requires
        distinct_keys(slots),
        key != slot.key,
    ensures
        recalled(stored(slots, slot, now, max_size), key, later) is Some ==> recalled(
            stored(slots, slot, now, max_size),
            key,
            later,
        ) == recalled(slots, key, later),
{
    let others = without_key(slots, slot.key);
    let full = others.push(slot);
    let fresh = unexpired(full, now);
    let kept = stored(slots, slot, now, max_size);
    the_cache_stays_in_bounds(slots, slot, now, max_size);
    storing_keeps_distinct(slots, slot, now);
    found_by_key(kept, key);
    found_by_key(slots, key);
    if let Some(found) = find(kept, key) {
        let i = choose|i: int| 0 <= i < kept.len() && kept[i] == found;
        eviction_makes_room(fresh, max_size);
        assert(fresh.contains(kept[i]));
        let j = choose|j: int| 0 <= j < fresh.len() && fresh[j] == found;
        filter_keeps_old(full, |s: SlotView| s.expires_at > now);
        assert(full.contains(fresh[j]));
        let k = choose|k: int| 0 <= k < full.len() && full[k] == found;
        assert(k < others.len());
        filter_keeps_old(slots, |s: SlotView| s.key != slot.key);
        assert(others[k] == found);
        assert(slots.contains(others[k]));
        let m = choose|m: int| 0 <= m < slots.len() && slots[m] == found;
        assert(slots[m].key == key);
    }
}

/// Where there is room for all, every entry under another key that has not expired stays.
pub proof fn with_room_nothing_is_lost(
    slots: Seq<SlotView>,
    slot: SlotView,
    now: u64,
    max_size: nat,
    key: Seq<char>,
    later: u64,
)
    requires
        distinct_keys(slots),
        key != slot.key,
        now <= later,
        slots.len() < max_size,
    ensures
        recalled(stored(slots, slot, now, max_size), key, later) == recalled(slots, key, later),
{
    let other = |s: SlotView| s.key != slot.key;
    let others = without_key(slots, slot.key);
    let full = others.push(slot);
    slots.lemma_filter_len(other);
    full.lemma_filter_len(|s: SlotView| s.expires_at > now);
    assert(stored(slots, slot, now, max_size) == unexpired(full, now));
    storing_keeps_distinct(slots, slot, now);
    sweeping_is_not_noticed(full, now, key, later);
    filter_keeps_distinct(slots, other);
    filter_keeps_old(slots, other);
    found_by_key(full, key);
    found_by_key(slots, key);
    match find(slots, key) {
        Some(found) => {
            let i = choose|i: int| 0 <= i < slots.len() && slots[i] == found;
            filter_keeps_wanted(slots, other, i);
            let j = choose|j: int| 0 <= j < others.len() && others[j] == found;
            assert(full[j] == found);
        },
        None => {
            if let Some(found) = find(full, key) {
                let j = choose|j: int| 0 <= j < full.len() && full[j] == found;
                assert(others[j] == found);
                assert(slots.contains(others[j]));
            }
        },
    }
}

/// After a text has been put in, the cache holds nothing but that text and what it held under other
/// keys, as far as that still counts; and of all this something is missing only where the cache is
/// full of texts that are no older.
pub proof fn a_store_keeps_the_youngest_that_count(
    slots: Seq<SlotView>,
    slot: SlotView,
    now: u64,
    max_size: nat,
)
    requires
        distinct_keys(slots),
    ensures
        forall|s: SlotView| #[trigger]
            stored(slots, slot, now, max_size).contains(s) ==> now < s.expires_at && (s == slot || (
            slots.contains(s) && s.key != slot.key)),
        forall|s: SlotView, j: int|
            now < s.expires_at && (s == slot || (slots.contains(s) && s.key != slot.key))
                && !#[trigger] stored(slots, slot, now, max_size).contains(s) && 0 <= j < stored(
                slots,
                slot,
                now,
                max_size,
            ).len() ==> s.inserted_at <= (#[trigger] stored(slots, slot, now, max_size)[j]).inserted_at,
        forall|s: SlotView|
            now < s.expires_at && (s == slot || (slots.contains(s) && s.key != slot.key))
                && !#[trigger] stored(slots, slot, now, max_size).contains(s) ==> stored(
                slots,
                slot,
                now,
                max_size,
            ).len() == max_size,
{
    let other = |s: SlotView| s.key != slot.key;
    let counts = |s: SlotView| s.expires_at > now;
    let others = without_key(slots, slot.key);
    let full = others.push(slot);
    let fresh = unexpired(full, now);
    let kept = stored(slots, slot, now, max_size);
    storing_keeps_distinct(slots, slot, now);
    eviction_makes_room(fresh, max_size);
    filter_keeps_old(slots, other);
    filter_keeps_old(full, counts);
    assert forall|s: SlotView| #[trigger] kept.contains(s) implies now < s.expires_at && (s == slot || (
    slots.contains(s) && s.key != slot.key)) by {
        let i = choose|i: int| 0 <= i < kept.len() && kept[i] == s;
        assert(fresh.contains(kept[i]));
        let j = choose|j: int| 0 <= j < fresh.len() && fresh[j] == s;
        assert(full.contains(fresh[j]));
        let k = choose|k: int| 0 <= k < full.len() && full[k] == s;
        if k < others.len() {
            assert(slots.contains(others[k]));
        }
    }
    assert forall|s: SlotView|
        now < s.expires_at && (s == slot || (slots.contains(s) && s.key != slot.key)) && !(
        #[trigger] kept.contains(s)) implies kept.len() == max_size && (forall|j: int|
        0 <= j < kept.len() ==> s.inserted_at <= (#[trigger] kept[j]).inserted_at) by {
        if s == slot {
            assert(full[full.len() - 1] == s);
        } else {
            let i = choose|i: int| 0 <= i < slots.len() && slots[i] == s;
            filter_keeps_wanted(slots, other, i);
            let k = choose|k: int| 0 <= k < others.len() && others[k] == s;
            assert(full[k] == s);
        }
        let k = choose|k: int| 0 <= k < full.len() && full[k] == s;
        filter_keeps_wanted(full, counts, k);
        let m = choose|m: int| 0 <= m < fresh.len() && fresh[m] == s;
        assert forall|j: int| 0 <= j < kept.len() implies s.inserted_at <= (
        #[trigger] kept[j]).inserted_at by {
            the_oldest_go_first(fresh, max_size, m, j);
        }
        if fresh.len() <= max_size {
            assert(kept[m] == s);
        }
    }
}

/// Sweeping keeps exactly the texts that expire later than now, in their order.
pub proof fn a_sweep_keeps_what_counts(slots: Seq<SlotView>, slot: SlotView, now: u64)
    ensures
        unexpired(seq![], now).len() == 0,
        unexpired(slots.push(slot), now) == if now < slot.expires_at {
            unexpired(slots, now).push(slot)
        } else {
            unexpired(slots, now)
        },
{
    reveal(Seq::filter);
    assert(slots.push(slot).drop_last() =~= slots);
}

} // verus!
