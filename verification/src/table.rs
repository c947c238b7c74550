use vstd::prelude::*;
use std::hash::{BuildHasher, Hash};
use vstd::std_specs::iter::IteratorSpec;

verus! {

/// How many slots a table has.
pub const S: usize = 32768;

/// Masks a hash down to a slot index.
const M: usize = 32767;

/// The slot index that a hash selects: its low 15 bits.
fn make_index(hash: usize) -> (index: usize)
    ensures
        index == hash % 32768,
        index < S,
{
    let index = hash & M;
    assert(hash & 32767 == hash % 32768) by (bit_vector);
    index
}

/// `BuildHasher::hash_one`: the hash of `val` under `hash_builder`. Nothing
/// is stated of it: the builder may be seeded at random for each process.
#[verifier::external_body]
fn make_hash<Q: Hash, H: BuildHasher>(hash_builder: &H, val: &Q) -> u64 {
    hash_builder.hash_one(val)
}

/// The slot after `index` in probing order, before wrapping.
fn make_next_probe(index: usize) -> (next: usize)
    requires
        index < usize::MAX,
    ensures
        next == index + 1,
{
    index + 1
}

/// The slot visited at `step` when probing from `home`: the slots from
/// `home` onward, wrapping around the table.
pub open spec fn probe(home: int, step: int) -> int {
    (home + step) % 32768
}

/// The contents of a slot, with the key by its bytes.
pub open spec fn slot_view<'a, V>(slot: Option<(&'a [u8], V)>) -> Option<(Seq<u8>, V)> {
    match slot {
        Some((k, v)) => Some((k@, v)),
        None => None,
    }
}

/// Probing for `key` stops at slot `i`: it is empty or holds `key`.
pub open spec fn stops_at<V>(slots: Seq<Option<(Seq<u8>, V)>>, key: Seq<u8>, i: int) -> bool {
    match slots[i] {
        None => true,
        Some((k, _)) => k == key,
    }
}

/// `step` is the first step from `home` at which probing for `key` stops.
pub open spec fn is_first_stop<V>(
    slots: Seq<Option<(Seq<u8>, V)>>,
    home: int,
    key: Seq<u8>,
    step: int,
) -> bool {
    &&& 0 <= step < 32768
    &&& stops_at(slots, key, probe(home, step))
    &&& forall|s: int| 0 <= s < step ==> !#[trigger] stops_at(slots, key, probe(home, s))
}

/// The first step from `home` at which probing for `key` stops, if any: a
/// table whose every slot holds another key has none.
pub open spec fn first_stop<V>(slots: Seq<Option<(Seq<u8>, V)>>, home: int, key: Seq<u8>) -> Option<
    int,
> {
    if exists|step: int| is_first_stop(slots, home, key, step) {
        Some(choose|step: int| is_first_stop(slots, home, key, step))
    } else {
        None
    }
}

/// What probing for `key` from `home` finds: the value beside `key` in the
/// slot where probing stops, or nothing where it stops at an empty slot or
/// nowhere.
pub open spec fn lookup<V>(slots: Seq<Option<(Seq<u8>, V)>>, home: int, key: Seq<u8>) -> Option<V> {
    match first_stop(slots, home, key) {
        Some(step) => match slots[probe(home, step)] {
            Some((_, v)) => Some(v),
            None => None,
        },
        None => None,
    }
}

/// The slots after storing `key` and `value` where probing for `key` from
/// `home` stops.
pub open spec fn store<V>(slots: Seq<Option<(Seq<u8>, V)>>, home: int, key: Seq<u8>, value: V) -> Seq<
    Option<(Seq<u8>, V)>,
> {
    slots.update(probe(home, first_stop(slots, home, key).unwrap()), Some((key, value)))
}

/// Some slot is empty or holds `key`, so that probing for it stops.
pub open spec fn has_room_for<V>(slots: Seq<Option<(Seq<u8>, V)>>, key: Seq<u8>) -> bool {
    exists|i: int| 0 <= i < slots.len() && stops_at(slots, key, i)
}

pub proof fn lemma_first_stop_unique<V>(
    slots: Seq<Option<(Seq<u8>, V)>>,
    home: int,
    key: Seq<u8>,
    step: int,
)
    requires
        is_first_stop(slots, home, key, step),
    ensures
        first_stop(slots, home, key) == Some(step),
{
    let k = choose|k: int| is_first_stop(slots, home, key, k);
    assert(is_first_stop(slots, home, key, k));
    if k < step {
        assert(!stops_at(slots, key, probe(home, k)));
    } else if step < k {
        assert(!stops_at(slots, key, probe(home, step)));
    }
}

/// Probing from any home slot visits every slot within one round.
pub proof fn lemma_probe_reaches(home: int, i: int)
    requires
        0 <= home < 32768,
        0 <= i < 32768,
    ensures
        0 <= (if i >= home { i - home } else { i + 32768 - home }) < 32768,
        probe(home, if i >= home { i - home } else { i + 32768 - home }) == i,
{
}

/// Where some slot stops probing for `key`, probing from any home stops.
pub proof fn lemma_first_stop_exists<V>(
    slots: Seq<Option<(Seq<u8>, V)>>,
    home: int,
    key: Seq<u8>,
)
    requires
        slots.len() == 32768,
        0 <= home < 32768,
        has_room_for(slots, key),
    ensures
        first_stop(slots, home, key) is Some,
{
    let i = choose|i: int| 0 <= i < slots.len() && stops_at(slots, key, i);
    let step = if i >= home { i - home } else { i + 32768 - home };
    lemma_probe_reaches(home, i);
    lemma_stop_at_or_before(slots, home, key, step);
}

/// If probing stops at `step`, it stops first at some step not after it.
proof fn lemma_stop_at_or_before<V>(
    slots: Seq<Option<(Seq<u8>, V)>>,
    home: int,
    key: Seq<u8>,
    step: int,
)
    requires
        0 <= step < 32768,
        stops_at(slots, key, probe(home, step)),
    ensures
        exists|k: int| is_first_stop(slots, home, key, k),
    decreases step,
{
    if exists|s: int| 0 <= s < step && stops_at(slots, key, probe(home, s)) {
        let s = choose|s: int| 0 <= s < step && stops_at(slots, key, probe(home, s));
        lemma_stop_at_or_before(slots, home, key, s);
    } else {
        assert(is_first_stop(slots, home, key, step));
    }
}

/// Within one round, probing from a home visits each slot once.
pub proof fn lemma_probe_distinct(home: int, s1: int, s2: int)
    requires
        0 <= home < 32768,
        0 <= s1 < s2 < 32768,
    ensures
        probe(home, s1) != probe(home, s2),
{
}

/// What storing writes, probing from the same home reads back.
pub proof fn lemma_lookup_after_store<V>(
    slots: Seq<Option<(Seq<u8>, V)>>,
    home: int,
    key: Seq<u8>,
    value: V,
)
    requires
        slots.len() == 32768,
        0 <= home < 32768,
        first_stop(slots, home, key) is Some,
    ensures
        lookup(store(slots, home, key, value), home, key) == Some(value),
{
    let step = choose|step: int| is_first_stop(slots, home, key, step);
    assert(is_first_stop(slots, home, key, step));
    let after = store(slots, home, key, value);
    assert forall|s: int| 0 <= s < step implies !#[trigger] stops_at(after, key, probe(home, s)) by {
        lemma_probe_distinct(home, s, step);
        assert(!stops_at(slots, key, probe(home, s)));
    }
    assert(is_first_stop(after, home, key, step));
    lemma_first_stop_unique(after, home, key, step);
}

/// No slot holds `key`.
pub open spec fn holds_nowhere<V>(slots: Seq<Option<(Seq<u8>, V)>>, key: Seq<u8>) -> bool {
    forall|i: int| 0 <= i < slots.len() ==> !(#[trigger] slots[i] matches Some((k, _)) && k == key)
}

/// Storing one key leaves what probing finds for another key that is found:
/// the slot it was found in is not the one written, and the slots passed on
/// the way still hold other keys.
pub proof fn lemma_store_keeps_found<V>(
    slots: Seq<Option<(Seq<u8>, V)>>,
    home: int,
    key: Seq<u8>,
    value: V,
    other_home: int,
    other: Seq<u8>,
)
    requires
        slots.len() == 32768,
        0 <= home < 32768,
        0 <= other_home < 32768,
        first_stop(slots, home, key) is Some,
        other != key,
        lookup(slots, other_home, other) is Some,
    ensures
        lookup(store(slots, home, key, value), other_home, other) == lookup(
            slots,
            other_home,
            other,
        ),
{
    let step = choose|step: int| is_first_stop(slots, home, key, step);
    assert(is_first_stop(slots, home, key, step));
    let written = probe(home, step);
    let other_step = choose|s: int| is_first_stop(slots, other_home, other, s);
    assert(is_first_stop(slots, other_home, other, other_step));
    let after = store(slots, home, key, value);
    assert(written != probe(other_home, other_step));
    assert forall|s: int| 0 <= s < other_step implies !#[trigger] stops_at(
        after,
        other,
        probe(other_home, s),
    ) by {
        assert(!stops_at(slots, other, probe(other_home, s)));
    }
    assert(is_first_stop(after, other_home, other, other_step));
    lemma_first_stop_unique(after, other_home, other, other_step);
}

/// Probing never finds a key that no slot holds.
pub proof fn lemma_lookup_absent<V>(slots: Seq<Option<(Seq<u8>, V)>>, home: int, key: Seq<u8>)
    requires
        slots.len() == 32768,
        holds_nowhere(slots, key),
    ensures
        lookup(slots, home, key) is None,
{
    if let Some(step) = first_stop(slots, home, key) {
        let k = choose|k: int| is_first_stop(slots, home, key, k);
        assert(is_first_stop(slots, home, key, k));
        assert(slots[probe(home, k)] is None);
    }
}

/// Storing one key leaves another key that no slot holds unfound.
pub proof fn lemma_store_keeps_absent<V>(
    slots: Seq<Option<(Seq<u8>, V)>>,
    home: int,
    key: Seq<u8>,
    value: V,
    other_home: int,
    other: Seq<u8>,
)
    requires
        slots.len() == 32768,
        0 <= home < 32768,
        first_stop(slots, home, key) is Some,
        other != key,
        holds_nowhere(slots, other),
    ensures
        lookup(store(slots, home, key, value), other_home, other) is None,
{
    let after = store(slots, home, key, value);
    assert forall|i: int| 0 <= i < after.len() implies !(#[trigger] after[i] matches Some((k, _))
        && k == other) by {
        assert(!(slots[i] matches Some((k, _)) && k == other));
    }
    lemma_lookup_absent(after, other_home, other);
}

/// How many steps probing from `home` takes to reach slot `i`.
pub open spec fn probe_distance(home: int, i: int) -> int {
    (i - home + 32768) % 32768
}

/// The key held in an occupied slot.
pub open spec fn key_at<V>(slots: Seq<Option<(Seq<u8>, V)>>, i: int) -> Seq<u8> {
    slots[i].unwrap().0
}

/// The table invariant of linear probing, for the home slots `home_of`
/// gives keys: no key is held twice, and from each held key's home slot
/// probing reaches it over occupied slots only.
pub open spec fn probe_consistent<V>(
    slots: Seq<Option<(Seq<u8>, V)>>,
    home_of: spec_fn(Seq<u8>) -> int,
) -> bool {
    &&& slots.len() == 32768
    &&& forall|k: Seq<u8>| 0 <= #[trigger] home_of(k) < 32768
    &&& forall|i: int, j: int|
        0 <= i < j < 32768 && slots[i] is Some && slots[j] is Some ==> #[trigger] key_at(slots, i)
            != #[trigger] key_at(slots, j)
    &&& forall|i: int, step: int|
        0 <= i < 32768 && slots[i] is Some && 0 <= step < probe_distance(
            home_of(key_at(slots, i)),
            i,
        ) ==> (#[trigger] slots[probe(home_of(key_at(slots, i)), step)]) is Some
}

/// A table of empty slots is consistent for any home slots.
pub proof fn lemma_empty_consistent<V>(
    slots: Seq<Option<(Seq<u8>, V)>>,
    home_of: spec_fn(Seq<u8>) -> int,
)
    requires
        slots.len() == 32768,
        forall|i: int| 0 <= i < 32768 ==> (#[trigger] slots[i]) is None,
        forall|k: Seq<u8>| 0 <= #[trigger] home_of(k) < 32768,
    ensures
        probe_consistent(slots, home_of),
{
}

proof fn lemma_probe_distance(home: int, i: int)
    requires
        0 <= home < 32768,
        0 <= i < 32768,
    ensures
        0 <= probe_distance(home, i) < 32768,
        probe(home, probe_distance(home, i)) == i,
        forall|step: int| 0 <= step < 32768 && probe(home, step) == i ==> step == probe_distance(home, i),
{
}

/// In a consistent table, probing for a held key from its home slot finds
/// the value held with it.
pub proof fn lemma_consistent_lookup<V>(
    slots: Seq<Option<(Seq<u8>, V)>>,
    home_of: spec_fn(Seq<u8>) -> int,
    i: int,
)
    requires
        probe_consistent(slots, home_of),
        0 <= i < 32768,
        slots[i] is Some,
    ensures
        first_stop(slots, home_of(key_at(slots, i)), key_at(slots, i)) == Some(
            probe_distance(home_of(key_at(slots, i)), i),
        ),
        lookup(slots, home_of(key_at(slots, i)), key_at(slots, i)) == Some(slots[i].unwrap().1),
{
    let k = key_at(slots, i);
    let h = home_of(k);
    assert(0 <= h < 32768);
    lemma_probe_distance(h, i);
    let d = probe_distance(h, i);
    assert forall|s: int| 0 <= s < d implies !#[trigger] stops_at(slots, k, probe(h, s)) by {
        let p = probe(h, s);
        assert(slots[p] is Some);
        lemma_probe_distance(h, p);
        assert(p != i);
        if p < i {
            assert(key_at(slots, p) != key_at(slots, i));
        } else {
            assert(key_at(slots, i) != key_at(slots, p));
        }
    }
    assert(is_first_stop(slots, h, k, d));
    lemma_first_stop_unique(slots, h, k, d);
}

/// Storing a key where probing from its home slot stops keeps a table
/// consistent: what probing passes stays occupied, and a key already held
/// is found and overwritten in place.
pub proof fn lemma_store_keeps_consistent<V>(
    slots: Seq<Option<(Seq<u8>, V)>>,
    home_of: spec_fn(Seq<u8>) -> int,
    key: Seq<u8>,
    value: V,
)
    requires
        probe_consistent(slots, home_of),
        first_stop(slots, home_of(key), key) is Some,
    ensures
        probe_consistent(store(slots, home_of(key), key, value), home_of),
{
    let h = home_of(key);
    assert(0 <= h < 32768);
    let st = choose|st: int| is_first_stop(slots, h, key, st);
    assert(is_first_stop(slots, h, key, st));
    lemma_first_stop_unique(slots, h, key, st);
    let p = probe(h, st);
    let after = store(slots, h, key, value);
    assert(after == slots.update(p, Some((key, value))));
    lemma_probe_distance(h, p);
    if slots[p] is None {
        // the key is held nowhere else: where it is held, probing stops there first
        assert forall|i: int| 0 <= i < 32768 && slots[i] is Some implies key_at(slots, i) != key by {
            if key_at(slots, i) == key {
                lemma_consistent_lookup(slots, home_of, i);
                lemma_probe_distance(h, i);
            }
        }
    }
    assert forall|i: int, j: int|
        0 <= i < j < 32768 && after[i] is Some && after[j] is Some implies #[trigger] key_at(
        after,
        i,
    ) != #[trigger] key_at(after, j) by {
        if i != p && j != p {
            assert(key_at(after, i) == key_at(slots, i));
            assert(key_at(after, j) == key_at(slots, j));
        } else if i == p {
            assert(key_at(after, j) == key_at(slots, j));
            if slots[p] is Some {
                assert(key_at(slots, p) == key);
            }
        } else {
            assert(key_at(after, i) == key_at(slots, i));
            if slots[p] is Some {
                assert(key_at(slots, p) == key);
            }
        }
    }
    assert forall|i: int, step: int|
        0 <= i < 32768 && after[i] is Some && 0 <= step < probe_distance(
            home_of(key_at(after, i)),
            i,
        ) implies (#[trigger] after[probe(home_of(key_at(after, i)), step)]) is Some by {
        let q = probe(home_of(key_at(after, i)), step);
        if i == p {
            assert(key_at(after, i) == key);
            assert(step < st);
            lemma_probe_distinct(h, step, st);
            assert(!stops_at(slots, key, probe(h, step)));
        } else {
            assert(key_at(after, i) == key_at(slots, i));
            assert(slots[q] is Some);
        }
    }
}

/// Whether two byte strings are equal.
fn bytes_equal(a: &[u8], b: &[u8]) -> (r: bool)
    ensures
        r == (a@ == b@),
{
    if a.len() != b.len() {
        return false;
    }
    let mut i: usize = 0;
    while i < a.len()
        invariant
            a@.len() == b@.len(),
            i <= a@.len(),
            forall|j: int| 0 <= j < i ==> a@[j] == b@[j],
        decreases a@.len() - i,
    {
        if a[i] != b[i] {
            return false;
        }
        i = i + 1;
    }
    assert(a@ =~= b@);
    true
}

/// An open-addressing table of `S` slots with linear probing, keyed by byte
/// strings, hashing keys with `H`.
pub struct Table<K, V, H> {
    hash_builder: H,
    table: Vec<Option<(K, V)>>,
}

impl<'a, V, H> View for Table<&'a [u8], V, H> {
    type V = Seq<Option<(Seq<u8>, V)>>;

    open spec fn view(&self) -> Seq<Option<(Seq<u8>, V)>> {
        self.slots().map_values(|slot: Option<(&'a [u8], V)>| slot_view(slot))
    }
}

impl<'a, V, H: BuildHasher> Table<&'a [u8], V, H> {
    /// The table has its `S` slots.
    pub open spec fn wf(&self) -> bool {
        self@.len() == 32768
    }

    /// A table of `S` empty slots that hashes with `hasher`.
    pub fn with_hasher(hasher: H) -> (table: Self)
        ensures
            table.wf(),
            table.slots().len() == 32768,
            forall|i: int| 0 <= i < 32768 ==> (#[trigger] table.slots()[i]) is None,
            forall|i: int| 0 <= i < 32768 ==> table@[i] is None,
    {
        let mut table: Vec<Option<(&'a [u8], V)>> = Vec::with_capacity(S);
        let mut i: usize = 0;
        while i < S
            invariant
                i <= S,
                table@.len() == i,
                forall|j: int| 0 <= j < i ==> table@[j] is None,
            decreases S - i,
        {
            table.push(None);
            i = i + 1;
        }
        let result = Self { hash_builder: hasher, table: table };
        assert(result@.len() == 32768);
        result
    }

    /// The slot where probing for `key` from `home` stops, if any.
    fn find_slot(&self, home: usize, key: &'a [u8]) -> (index: Option<usize>)
        requires
            self.wf(),
            home < S,
        ensures
            match index {
                Some(i) => first_stop(self@, home as int, key@) matches Some(step) && i == probe(
                    home as int,
                    step,
                ),
                None => first_stop(self@, home as int, key@) is None,
            },
    {
        let mut index = home;
        let mut step: usize = 0;
        while step < S
            invariant
                self.wf(),
                home < S,
                step <= S,
                index == probe(home as int, step as int),
                forall|s: int| 0 <= s < step ==> !#[trigger] stops_at(self@, key@, probe(home as int, s)),
            decreases S - step,
        {
            assert(self@[index as int] == slot_view(self.table@[index as int]));
            match &self.table[index] {
                Some(elem) => {
                    if bytes_equal(elem.0, key) {
                        proof {
                            assert(is_first_stop(self@, home as int, key@, step as int));
                            lemma_first_stop_unique(self@, home as int, key@, step as int);
                        }
                        return Some(index);
                    }
                },
                None => {
                    proof {
                        assert(is_first_stop(self@, home as int, key@, step as int));
                        lemma_first_stop_unique(self@, home as int, key@, step as int);
                    }
                    return Some(index);
                },
            }
            index = make_index(make_next_probe(index));
            step = step + 1;
        }
        proof {
            if exists|k: int| is_first_stop(self@, home as int, key@, k) {
                let k = choose|k: int| is_first_stop(self@, home as int, key@, k);
                assert(!stops_at(self@, key@, probe(home as int, k)));
            }
        }
        None
    }

    /// The value of `key`, probing from the slot `home`.
    pub fn get_at(&self, home: usize, key: &'a [u8]) -> (value: Option<&V>)
        requires
            self.wf(),
            home < S,
        ensures
            match value {
                Some(v) => lookup(self@, home as int, key@) == Some(*v),
                None => lookup(self@, home as int, key@) is None,
            },
    {
        match self.find_slot(home, key) {
            Some(index) => {
                assert(self@[index as int] == slot_view(self.table@[index as int]));
                match &self.table[index] {
                    Some(elem) => Some(&elem.1),
                    None => None,
                }
            },
            None => None,
        }
    }

    /// The value of `key`, probing from the slot `home`, to change in place.
    pub fn get_mut_at(&mut self, home: usize, key: &'a [u8]) -> (value: Option<&mut V>)
        requires
            old(self).wf(),
            home < S,
        ensures
            match value {
                Some(v) => {
                    &&& lookup(old(self)@, home as int, key@) == Some(*v)
                    &&& final(self)@ == old(self)@.update(
                        probe(home as int, first_stop(old(self)@, home as int, key@).unwrap()),
                        Some((key@, *final(v))),
                    )
                },
                None => {
                    &&& lookup(old(self)@, home as int, key@) is None
                    &&& final(self)@ == old(self)@
                },
            },
    {
        match self.find_slot(home, key) {
            Some(index) => {
                assert(self@[index as int] == slot_view(self.table@[index as int]));
                match &mut self.table[index] {
                    Some(elem) => Some(&mut elem.1),
                    None => None,
                }
            },
            None => None,
        }
    }

    /// Stores `value` for `key` where probing from the slot `home` stops.
    pub fn insert_at(&mut self, home: usize, key: &'a [u8], value: V)
        requires
            old(self).wf(),
            home < S,
            first_stop(old(self)@, home as int, key@) is Some,
        ensures
            final(self).wf(),
            final(self)@ == store(old(self)@, home as int, key@, value),
    {
        match self.find_slot(home, key) {
            Some(index) => {
                self.table[index] = Some((key, value));
                assert(self@ =~= store(old(self)@, home as int, key@, value));
            },
            None => {},
        }
    }

    /// The value of `key`. Probing starts from the slot that the table's
    /// hasher gives the key.
    pub fn get(&self, key: &'a [u8]) -> (value: Option<&V>)
        requires
            self.wf(),
        ensures
            exists|home: int|
                0 <= home < 32768 && match value {
                    Some(v) => lookup(self@, home, key@) == Some(*v),
                    None => lookup(self@, home, key@) is None,
                },
            holds_nowhere(self@, key@) ==> value is None,
            value matches Some(v) ==> exists|i: int|
                0 <= i < 32768 && self@[i] == Some((key@, *v)),
    {
        let hash = make_hash(&self.hash_builder, &key);
        let home = make_index(hash as usize);
        proof {
            if holds_nowhere(self@, key@) {
                lemma_lookup_absent(self@, home as int, key@);
            }
            if let Some(step) = first_stop(self@, home as int, key@) {
                let k = choose|k: int| is_first_stop(self@, home as int, key@, k);
                assert(is_first_stop(self@, home as int, key@, k));
            }
        }
        self.get_at(home, key)
    }

    /// The value of `key`, to change in place. Probing starts from the slot
    /// that the table's hasher gives the key.
    pub fn get_mut(&mut self, key: &'a [u8]) -> (value: Option<&mut V>)
        requires
            old(self).wf(),
        ensures
            exists|home: int|
                0 <= home < 32768 && match value {
                    Some(v) => {
                        &&& lookup(old(self)@, home, key@) == Some(*v)
                        &&& final(self)@ == old(self)@.update(
                            probe(home, first_stop(old(self)@, home, key@).unwrap()),
                            Some((key@, *final(v))),
                        )
                    },
                    None => {
                        &&& lookup(old(self)@, home, key@) is None
                        &&& final(self)@ == old(self)@
                    },
                },
            holds_nowhere(old(self)@, key@) ==> value is None,
    {
        let hash = make_hash(&self.hash_builder, &key);
        let home = make_index(hash as usize);
        proof {
            if holds_nowhere(self@, key@) {
                lemma_lookup_absent(self@, home as int, key@);
            }
        }
        self.get_mut_at(home, key)
    }

    /// Stores `value` for `key`: over the slot that holds `key`, or in the
    /// first empty slot, probing from the slot that the table's hasher gives
    /// the key.
    pub fn insert(&mut self, key: &'a [u8], value: V)
        requires
            old(self).wf(),
            has_room_for(old(self)@, key@),
        ensures
            final(self).wf(),
            exists|home: int|
                0 <= home < 32768 && final(self)@ == store(old(self)@, home, key@, value),
    {
        let hash = make_hash(&self.hash_builder, &key);
        let home = make_index(hash as usize);
        proof {
            lemma_first_stop_exists(self@, home as int, key@);
        }
        self.insert_at(home, key, value);
    }
}

impl<K, V, H> Table<K, V, H> {
    /// The slots, in order, as they are held.
    pub closed spec fn slots(&self) -> Seq<Option<(K, V)>> {
        self.table@
    }
}

impl<K, V, H> IntoIterator for Table<K, V, H> {
    type Item = Option<(K, V)>;

    type IntoIter = std::vec::IntoIter<Option<(K, V)>>;

    /// The slots, in order.
    fn into_iter(self) -> (iter: Self::IntoIter)
        ensures
            iter.remaining() == self.slots(),
    {
        broadcast use vstd::std_specs::vec::axiom_spec_into_iter;

        self.table.into_iter()
    }
}

} // verus!
