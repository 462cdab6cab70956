//! The cache of reasoning texts, and the keys under which it holds them.
//!
//! Times are nanoseconds that have passed since some start, the same for all of them.
use crate::json::{Json, JsonView};
use crate::text::{numeral, same_text, write_number};
use crate::wire::{json_text, write_text};
use std::collections::hash_map::DefaultHasher;
use std::hash::{Hash, Hasher};
use vstd::prelude::*;
use vstd::std_specs::hash::DefaultHasherAdditionalSpecFns;

verus! {

/// What `str::hash` writes to a hasher for a text: one sequence of bytes per write.
pub uninterp spec fn hash_writes(text: Seq<char>) -> Seq<Seq<u8>>;

/// Trusted: `str::hash` feeds a text to a hasher. What it writes is only named, but for what std's
/// documentation of `Hash` says of it under "Prefix collisions": for two different texts neither is
/// the beginning of the other, so that where one text ends and the next begins makes a difference.
#[verifier::external_body]
fn feed_text(text: &str, hasher: &mut DefaultHasher)
    ensures
        final(hasher)@ == old(hasher)@ + hash_writes(text@),
        forall|other: Seq<char>|
            (old(hasher)@ + #[trigger] hash_writes(other)).is_prefix_of(final(hasher)@) ==> other
                == text@,
        forall|other: Seq<char>|
            final(hasher)@.is_prefix_of(old(hasher)@ + #[trigger] hash_writes(other)) ==> other
                == text@,
{
    text.hash(hasher);
}

/// What is hashed of a message: its content, and then the compact text of its tool calls.
pub open spec fn hash_input(content: Seq<char>, calls: Seq<char>) -> Seq<Seq<u8>> {
    hash_writes(content) + hash_writes(calls)
}

/// Whether no other content and tool calls give the hasher the same to hash as these.
pub open spec fn told_apart(content: Seq<char>, calls: Seq<char>) -> bool {
    forall|c: Seq<char>, t: Seq<char>| #[trigger]
        hash_input(c, t) == hash_input(content, calls) ==> c == content && t == calls
}

/// The key of a message: the hash of its content and of the compact text of its tool calls, in
/// hexadecimal.
pub open spec fn key_of(content: Seq<char>, tool_calls: JsonView) -> Seq<char> {
    numeral(DefaultHasher::spec_finish(hash_input(content, json_text(tool_calls))) as nat, 16)
}

/// Two texts are told apart where neither of them is written as another text, or as another text and
/// more.
proof fn writes_tell_apart(content: Seq<char>, calls: Seq<char>)
    requires
        forall|c: Seq<char>|
            (#[trigger] hash_writes(c)).is_prefix_of(hash_writes(content)) ==> c == content,
        forall|c: Seq<char>|
            hash_writes(content).is_prefix_of(#[trigger] hash_writes(c)) ==> c == content,
        forall|t: Seq<char>| #[trigger] hash_writes(t) == hash_writes(calls) ==> t == calls,
    ensures
        told_apart(content, calls),
{
    assert forall|c: Seq<char>, t: Seq<char>| #[trigger]
        hash_input(c, t) == hash_input(content, calls) implies c == content && t == calls by {
        let whole = hash_input(content, calls);
        let a = hash_writes(c);
        let b = hash_writes(content);
        assert(a =~= whole.take(a.len() as int));
        assert(b =~= whole.take(b.len() as int));
        if a.len() <= b.len() {
            assert(a =~= b.subrange(0, a.len() as int));
            assert(a.is_prefix_of(b));
        } else {
            assert(b =~= a.subrange(0, b.len() as int));
            assert(b.is_prefix_of(a));
        }
        assert(hash_writes(t) =~= whole.skip(a.len() as int));
        assert(hash_writes(calls) =~= whole.skip(b.len() as int));
    }
}

/// The key of a message with this content and these tool calls. What is hashed for it is hashed for
/// no other content and tool calls: two such pairs share a key only where their hashes collide.
pub fn cache_key(content: &str, tool_calls: &Json) -> (key: String)
    ensures
        key@ == key_of(content@, tool_calls@),
        told_apart(content@, json_text(tool_calls@)),
{
    let mut hasher = DefaultHasher::new();
    feed_text(content, &mut hasher);
    let ghost first = hasher@;
    let calls = write_text(tool_calls);
    proof {
        let none = Seq::<Seq<u8>>::empty();
        assert(first =~= hash_writes(content@));
        assert forall|c: Seq<char>|
            (#[trigger] hash_writes(c)).is_prefix_of(first) || first.is_prefix_of(
                hash_writes(c),
            ) implies c == content@ by {
            assert(none + hash_writes(c) =~= hash_writes(c));
        }
    }
    feed_text(calls.as_str(), &mut hasher);
    proof {
        assert(hasher@ =~= hash_input(content@, calls@));
        assert forall|t: Seq<char>| #[trigger] hash_writes(t) == hash_writes(calls@) implies t
            == calls@ by {
            let again = first + hash_writes(t);
            assert(again == hasher@);
            assert(again =~= hasher@.subrange(0, again.len() as int));
            assert(again.is_prefix_of(hasher@));
        }
        writes_tell_apart(content@, calls@);
    }
    write_number(hasher.finish(), 16)
}

/// A reasoning text in the cache.
pub struct CacheEntry {
    pub reasoning: String,
    /// From this time on the entry does not count any more.
    pub expires_at: u64,
    /// When the entry was put in: the oldest leave first.
    pub inserted_at: u64,
}

struct Slot {
    key: String,
    entry: CacheEntry,
}

/// What a slot of the cache holds.
pub struct SlotView {
    pub key: Seq<char>,
    pub reasoning: Seq<char>,
    pub expires_at: u64,
    pub inserted_at: u64,
}

/// Reasoning texts by key, in the order in which they were put in.
pub struct ReasoningCache {
    slots: Vec<Slot>,
}

/// No two slots have the same key.
pub open spec fn distinct_keys(slots: Seq<SlotView>) -> bool {
    forall|i: int, j: int|
        0 <= i < j < slots.len() ==> (#[trigger] slots[i]).key != (#[trigger] slots[j]).key
}

/// The slot with this key.
pub open spec fn find(slots: Seq<SlotView>, key: Seq<char>) -> Option<SlotView>
    decreases slots.len(),
{
    if slots.len() == 0 {
        None
    } else if slots.last().key == key {
        Some(slots.last())
    } else {
        find(slots.drop_last(), key)
    }
}

/// The reasoning text that the cache has for this key at time `now`.
pub open spec fn recalled(slots: Seq<SlotView>, key: Seq<char>, now: u64) -> Option<Seq<char>> {
    match find(slots, key) {
        Some(slot) => if slot.expires_at > now {
            Some(slot.reasoning)
        } else {
            None
        },
        None => None,
    }
}

/// The slots with another key.
pub open spec fn without_key(slots: Seq<SlotView>, key: Seq<char>) -> Seq<SlotView> {
    slots.filter(|slot: SlotView| slot.key != key)
}

/// The slots that still count at time `now`.
pub open spec fn unexpired(slots: Seq<SlotView>, now: u64) -> Seq<SlotView> {
    slots.filter(|slot: SlotView| slot.expires_at > now)
}

/// The index of the oldest slot: of several that are as old, the one that was put in first.
pub open spec fn oldest(slots: Seq<SlotView>) -> int
    decreases slots.len(),
{
    if slots.len() <= 1 {
        0
    } else {
        let before = oldest(slots.drop_last());
        if slots.last().inserted_at < slots[before].inserted_at {
            slots.len() - 1
        } else {
            before
        }
    }
}

/// The slots that are left once the oldest have made room: at most `max_size`.
pub open spec fn evicted_to(slots: Seq<SlotView>, max_size: nat) -> Seq<SlotView>
    decreases slots.len(),
{
    if slots.len() <= max_size {
        slots
    } else {
        proof {
            oldest_in_range(slots);
        }
        evicted_to(slots.remove(oldest(slots)), max_size)
    }
}

/// The slots once `slot` has been put in at time `now`, the expired ones have gone and the oldest
/// have made room.
pub open spec fn stored(slots: Seq<SlotView>, slot: SlotView, now: u64, max_size: nat) -> Seq<
    SlotView,
> {
    evicted_to(unexpired(without_key(slots, slot.key).push(slot), now), max_size)
}

impl Slot {
    spec fn view(&self) -> SlotView {
        SlotView {
            key: self.key@,
            reasoning: self.entry.reasoning@,
            expires_at: self.entry.expires_at,
            inserted_at: self.entry.inserted_at,
        }
    }
}

/// What the slots hold, in order.
closed spec fn slot_views(slots: Seq<Slot>) -> Seq<SlotView> {
    slots.map_values(|slot: Slot| slot@)
}

/// The oldest slot is one of the slots.
pub proof fn oldest_in_range(slots: Seq<SlotView>)
    requires
        slots.len() > 0,
    ensures
        0 <= oldest(slots) < slots.len(),
    decreases slots.len(),
{
    if slots.len() > 1 {
        oldest_in_range(slots.drop_last());
    }
}

/// What a filter keeps was there before.
pub(crate) proof fn filter_keeps_old(slots: Seq<SlotView>, wanted: spec_fn(SlotView) -> bool)
    ensures
        forall|i: int|
            0 <= i < slots.filter(wanted).len() ==> wanted(#[trigger] slots.filter(wanted)[i])
                && slots.contains(slots.filter(wanted)[i]),
    decreases slots.len(),
{
    reveal(Seq::filter);
    if slots.len() > 0 {
        let front = slots.drop_last();
        filter_keeps_old(front, wanted);
        assert forall|i: int| 0 <= i < slots.filter(wanted).len() implies wanted(
            #[trigger] slots.filter(wanted)[i],
        ) && slots.contains(slots.filter(wanted)[i]) by {
            let kept = slots.filter(wanted)[i];
            if i < front.filter(wanted).len() {
                assert(kept == front.filter(wanted)[i]);
                let j = choose|j: int| 0 <= j < front.len() && front[j] == kept;
                assert(slots[j] == kept);
            } else {
                assert(slots[slots.len() - 1] == kept);
            }
        }
    }
}

/// Filtering keeps the keys apart.
pub(crate) proof fn filter_keeps_distinct(slots: Seq<SlotView>, wanted: spec_fn(SlotView) -> bool)
    requires
        distinct_keys(slots),
    ensures
        distinct_keys(slots.filter(wanted)),
    decreases slots.len(),
{
    reveal(Seq::filter);
    if slots.len() > 0 {
        let front = slots.drop_last();
        assert(distinct_keys(front));
        filter_keeps_distinct(front, wanted);
        filter_keeps_old(front, wanted);
        assert forall|i: int| 0 <= i < front.filter(wanted).len() implies (
        #[trigger] front.filter(wanted)[i]).key != slots.last().key by {
            let kept = front.filter(wanted)[i];
            let j = choose|j: int| 0 <= j < front.len() && front[j] == kept;
            assert(slots[j] == kept);
            assert(slots[slots.len() - 1] == slots.last());
        }
    }
}

/// Removing a slot keeps the keys apart.
pub(crate) proof fn remove_keeps_distinct(slots: Seq<SlotView>, at: int)
    requires
        distinct_keys(slots),
        0 <= at < slots.len(),
    ensures
        distinct_keys(slots.remove(at)),
{
    let left = slots.remove(at);
    assert forall|i: int, j: int| 0 <= i < j < left.len() implies (#[trigger] left[i]).key != (
    #[trigger] left[j]).key by {
        let from_i = if i < at { i } else { i + 1 };
        let from_j = if j < at { j } else { j + 1 };
        assert(left[i] == slots[from_i]);
        assert(left[j] == slots[from_j]);
    }
}

impl ReasoningCache {
    /// What the cache holds.
    pub closed spec fn view(&self) -> Seq<SlotView> {
        slot_views(self.slots@)
    }

    /// The cache holds at most one entry per key.
    pub open spec fn well_formed(&self) -> bool {
        distinct_keys(self@)
    }

    /// An empty cache.
    pub fn new() -> (cache: ReasoningCache)
        ensures
            cache@ == Seq::<SlotView>::empty(),
            cache.well_formed(),
    {
        let cache = ReasoningCache { slots: Vec::new() };
        proof {
            assert(cache@ =~= Seq::<SlotView>::empty());
        }
        cache
    }

    /// The number of entries.
    pub fn len(&self) -> (n: usize)
        ensures
            n == self@.len(),
    {
        self.slots.len()
    }

    /// The entry under this key, expired or not.
    pub fn get(&self, key: &str) -> (found: Option<&CacheEntry>)
        ensures
            match found {
                Some(entry) => find(self@, key@) == Some(
                    (SlotView {
                        key: key@,
                        reasoning: entry.reasoning@,
                        expires_at: entry.expires_at,
                        inserted_at: entry.inserted_at,
                    }),
                ),
                None => find(self@, key@) is None,
            },
    {
        let mut i: usize = self.slots.len();
        proof {
            assert(self@.take(i as int) == self@);
        }
        while i > 0
            invariant
                i <= self.slots@.len(),
                self@.len() == self.slots@.len(),
                find(self@, key@) == find(self@.take(i as int), key@),
            decreases i,
        {
            proof {
                assert(self@.take(i as int).drop_last() == self@.take(i - 1));
                assert(self@.take(i as int).last() == self.slots@[i - 1]@);
            }
            i = i - 1;
            if same_text(self.slots[i].key.as_str(), key) {
                return Some(&self.slots[i].entry);
            }
        }
        None
    }

    /// The reasoning text under this key, where it still counts at time `now`.
    pub fn recall(&self, key: &str, now: u64) -> (reasoning: Option<String>)
        ensures
            match reasoning {
                Some(text) => recalled(self@, key@, now) == Some(text@),
                None => recalled(self@, key@, now) is None,
            },
    {
        match self.get(key) {
            Some(entry) => if entry.expires_at > now {
                Some(entry.reasoning.clone())
            } else {
                None
            },
            None => None,
        }
    }

    /// Drops the entries that no longer count at time `now`; tells how many those were.
    pub fn sweep(&mut self, now: u64) -> (dropped: usize)
        requires
            old(self).well_formed(),
        ensures
            final(self)@ == unexpired(old(self)@, now),
            final(self).well_formed(),
            dropped == old(self)@.len() - final(self)@.len(),
    {
        let before = self.slots.len();
        let ghost all = self@;
        let mut kept: Vec<Slot> = Vec::new();
        let mut slots: Vec<Slot> = Vec::new();
        std::mem::swap(&mut slots, &mut self.slots);
        let ghost given = slots@;
        let ghost fresh = |slot: SlotView| slot.expires_at > now;
        proof {
            assert(all.take(0) =~= Seq::empty());
            assert(slot_views(kept@) =~= Seq::empty());
        }
        for slot in it: slots
            invariant
                it.seq() == given,
                all == slot_views(given),
                fresh == (|slot: SlotView| slot.expires_at > now),
                slot_views(kept@) == all.take(it.index() as int).filter(fresh),
        {
            let ghost done = slot_views(kept@);
            proof {
                let at = it.index() as int;
                assert(all.take(at + 1).drop_last() == all.take(at));
                assert(all.take(at + 1).last() == slot@);
                reveal(Seq::filter);
            }
            if slot.entry.expires_at > now {
                kept.push(slot);
                proof {
                    assert(slot_views(kept@) =~= done.push(slot@));
                }
            }
        }
        proof {
            assert(all.take(all.len() as int) == all);
            filter_keeps_distinct(all, fresh);
            all.lemma_filter_len(fresh);
        }
        let after = kept.len();
        self.slots = kept;
        before - after
    }

    /// Removes the entry under this key, if there is one.
    fn remove(&mut self, key: &str)
        requires
            old(self).well_formed(),
        ensures
            final(self)@ == without_key(old(self)@, key@),
            final(self).well_formed(),
    {
        let ghost all = self@;
        let mut kept: Vec<Slot> = Vec::new();
        let mut slots: Vec<Slot> = Vec::new();
        std::mem::swap(&mut slots, &mut self.slots);
        let ghost given = slots@;
        let ghost other = |slot: SlotView| slot.key != key@;
        proof {
            assert(all.take(0) =~= Seq::empty());
            assert(slot_views(kept@) =~= Seq::empty());
        }
        for slot in it: slots
            invariant
                it.seq() == given,
                all == slot_views(given),
                other == (|slot: SlotView| slot.key != key@),
                slot_views(kept@) == all.take(it.index() as int).filter(other),
        {
            let ghost done = slot_views(kept@);
            proof {
                let at = it.index() as int;
                assert(all.take(at + 1).drop_last() == all.take(at));
                assert(all.take(at + 1).last() == slot@);
                reveal(Seq::filter);
            }
            if !same_text(slot.key.as_str(), key) {
                kept.push(slot);
                proof {
                    assert(slot_views(kept@) =~= done.push(slot@));
                }
            }
        }
        proof {
            assert(all.take(all.len() as int) == all);
            filter_keeps_distinct(all, other);
        }
        self.slots = kept;
    }

    /// Removes the oldest entries until at most `max_size` are left.
    fn evict(&mut self, max_size: usize)
        requires
            old(self).well_formed(),
        ensures
            final(self)@ == evicted_to(old(self)@, max_size as nat),
            final(self).well_formed(),
    {
        let ghost all = self@;
        while self.slots.len() > max_size
            invariant
                self.well_formed(),
                evicted_to(all, max_size as nat) == evicted_to(self@, max_size as nat),
            decreases self.slots@.len(),
        {
            let ghost slots = self@;
            let mut first: usize = 0;
            let mut i: usize = 1;
            proof {
                assert(slots.take(1).len() == 1);
            }
            while i < self.slots.len()
                invariant
                    1 <= i <= self.slots@.len(),
                    first < i,
                    slots == self@,
                    slots.len() == self.slots@.len(),
                    first == oldest(slots.take(i as int)),
                decreases self.slots@.len() - i,
            {
                proof {
                    let more = slots.take(i + 1);
                    assert(more.drop_last() == slots.take(i as int));
                    assert(more.last() == self.slots@[i as int]@);
                    assert(more[first as int] == self.slots@[first as int]@);
                }
                if self.slots[i].entry.inserted_at < self.slots[first].entry.inserted_at {
                    first = i;
                }
                i = i + 1;
            }
            proof {
                assert(slots.take(slots.len() as int) == slots);
            }
            let _gone = self.slots.remove(first);
            proof {
                assert(self@ =~= slots.remove(first as int));
                remove_keeps_distinct(slots, first as int);
            }
        }
    }

    /// Puts a reasoning text in under `key` at time `now`, to count for `ttl`. An entry under the
    /// same key is replaced. Then the expired entries go, and of the others the oldest, until at
    /// most `max_size` are left.
    pub fn store(&mut self, key: String, reasoning: String, now: u64, ttl: u64, max_size: usize)
        requires
            old(self).well_formed(),
            now + ttl <= u64::MAX,
        ensures
            final(self)@ == stored(
                old(self)@,
                (SlotView {
                    key: key@,
                    reasoning: reasoning@,
                    expires_at: (now + ttl) as u64,
                    inserted_at: now,
                }),
                now,
                max_size as nat,
            ),
            final(self).well_formed(),
    {
        self.remove(key.as_str());
        let ghost others = self@;
        let slot = Slot {
            key,
            entry: CacheEntry { reasoning, expires_at: now + ttl, inserted_at: now },
        };
        let ghost new = slot@;
        self.slots.push(slot);
        proof {
            assert(self@ =~= others.push(new));
            filter_keeps_old(old(self)@, |slot: SlotView| slot.key != new.key);
        }
        self.sweep(now);
        self.evict(max_size);
    }
}

} // verus!
