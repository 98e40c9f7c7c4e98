//! A map from byte strings to values, and a set of byte strings, found by a
//! hash of the key.

use crate::text;
use std::collections::HashMap;
use vstd::prelude::*;

verus! {

broadcast use {vstd::std_specs::hash::group_hash_axioms, vstd::map::group_map_axioms};

/// Start value of the hash.
pub const HASH_START: u64 = 0xcbf2_9ce4_8422_2325;

/// Factor applied after every byte.
pub const HASH_FACTOR: u64 = 0x1000_0000_01b3;

/// The hash of a byte string: each byte is mixed in by exclusive or, and a
/// wrapping multiplication follows. It is the same in every process.
pub open spec fn hash_of(bytes: Seq<u8>) -> u64
    decreases bytes.len(),
{
    if bytes.len() == 0 {
        HASH_START
    } else {
        (hash_of(bytes.drop_last()) ^ (bytes.last() as u64)).wrapping_mul(HASH_FACTOR)
    }
}

/// Continues a hash with more bytes.
pub(crate) fn hash_more(h: u64, bytes: &[u8], Ghost(before): Ghost<Seq<u8>>) -> (r: u64)
    requires
        h == hash_of(before),
    ensures
        r == hash_of(before + bytes@),
{
    let mut h: u64 = h;
    assert(before + bytes@.take(0) =~= before);
    for i in 0..bytes.len()
        invariant
            h == hash_of(before + bytes@.take(i as int)),
    {
        assert((before + bytes@.take(i + 1)).drop_last() =~= before + bytes@.take(i as int));
        assert((before + bytes@.take(i + 1)).last() == bytes@[i as int]);
        h = (h ^ (bytes[i] as u64)).wrapping_mul(HASH_FACTOR);
    }
    assert(bytes@.take(bytes@.len() as int) =~= bytes@);
    h
}

/// The hash of one byte string.
pub fn hash_bytes(bytes: &[u8]) -> (r: u64)
    ensures
        r == hash_of(bytes@),
{
    assert(Seq::<u8>::empty() + bytes@ =~= bytes@);
    hash_more(HASH_START, bytes, Ghost(Seq::empty()))
}

/// Entries, and where they stand by the hash of their key.
struct Table<V> {
    entries: Vec<(Vec<u8>, V)>,
    buckets: HashMap<u64, Vec<usize>>,
}

/// Values by byte string.
pub struct KeyedMap<V> {
    table: Table<V>,
}

/// Entry `i` has the key `k`.
spec fn entry_at<V>(entries: Seq<(Vec<u8>, V)>, i: int, k: Seq<u8>) -> bool {
    0 <= i < entries.len() && entries[i].0@ == k
}

/// The entries as a map.
spec fn as_map<V>(entries: Seq<(Vec<u8>, V)>) -> Map<Seq<u8>, V> {
    Map::new(
        |k: Seq<u8>| exists|i: int| entry_at(entries, i, k),
        |k: Seq<u8>| entries[choose|i: int| entry_at(entries, i, k)].1,
    )
}

impl<V> Table<V> {
    spec fn view(&self) -> Map<Seq<u8>, V> {
        as_map(self.entries@)
    }

    /// Every entry is listed under its hash, and no key occurs twice.
    spec fn wf(&self) -> bool {
        &&& forall|i: int|
            0 <= i < self.entries@.len() ==> self.is_listed(i, (#[trigger] self.entries@[i]).0@)
        &&& forall|h: u64, j: int|
            self.buckets@.contains_key(h) && 0 <= j < self.buckets@[h]@.len()
                ==> (#[trigger] self.buckets@[h]@[j]) < self.entries@.len()
        &&& forall|i: int, j: int|
            0 <= i < j < self.entries@.len() ==> (#[trigger] self.entries@[i]).0@ != (
            #[trigger] self.entries@[j]).0@
    }

    spec fn is_listed(&self, i: int, k: Seq<u8>) -> bool {
        self.buckets@.contains_key(hash_of(k)) && self.buckets@[hash_of(k)]@.contains(i as usize)
    }

    /// A table without entries.
    fn new() -> (m: Table<V>)
        ensures
            m.wf(),
            m@ == Map::<Seq<u8>, V>::empty(),
    {
        let m = Table { entries: Vec::new(), buckets: HashMap::new() };
        assert(m@ =~= Map::<Seq<u8>, V>::empty());
        m
    }

    /// Position of the entry of a key.
    fn find(&self, key: &[u8]) -> (r: Option<usize>)
        requires
            self.wf(),
        ensures
            match r {
                Some(i) => entry_at(self.entries@, i as int, key@),
                None => forall|i: int| !#[trigger] entry_at(self.entries@, i, key@),
            },
    {
        let h = hash_bytes(key);
        match self.buckets.get(&h) {
            None => {
                assert forall|i: int| !#[trigger] entry_at(self.entries@, i, key@) by {
                    if entry_at(self.entries@, i, key@) {
                        assert(self.is_listed(i, self.entries@[i].0@));
                    }
                }
                None
            },
            Some(bucket) => {
                for n in 0..bucket.len()
                    invariant
                        self.wf(),
                        h == hash_of(key@),
                        self.buckets@.contains_key(h),
                        self.buckets@[h]@ == bucket@,
                        forall|j: int|
                            0 <= j < n ==> !entry_at(
                                self.entries@,
                                #[trigger] bucket@[j] as int,
                                key@,
                            ),
                {
                    let i = bucket[n];
                    assert(self.buckets@[h]@[n as int] < self.entries@.len());
                    if text::same_bytes(self.entries[i].0.as_slice(), key) {
                        return Some(i);
                    }
                }
                assert forall|i: int| !#[trigger] entry_at(self.entries@, i, key@) by {
                    if entry_at(self.entries@, i, key@) {
                        assert(self.is_listed(i, self.entries@[i].0@));
                        assert(i < self.entries.len());
                        let j = choose|j: int| 0 <= j < bucket@.len() && bucket@[j] == i as usize;
                        assert(!entry_at(self.entries@, bucket@[j] as int, key@));
                    }
                }
                None
            },
        }
    }

    /// Looks a key up.
    fn get(&self, key: &[u8]) -> (r: Option<&V>)
        requires
            self.wf(),
        ensures
            match r {
                Some(v) => self@.contains_key(key@) && *v == self@[key@],
                None => !self@.contains_key(key@),
            },
    {
        match self.find(key) {
            Some(i) => {
                assert(entry_at(self.entries@, i as int, key@));
                let ghost c = choose|c: int| entry_at(self.entries@, c, key@);
                assert(c == i) by {
                    assert(entry_at(self.entries@, c, key@));
                    if c < i {
                        assert(self.entries@[c].0@ != self.entries@[i as int].0@);
                    }
                    if i < c {
                        assert(self.entries@[i as int].0@ != self.entries@[c].0@);
                    }
                }
                Some(&self.entries[i].1)
            },
            None => None,
        }
    }

    /// Tells whether there is no key at all.
    fn is_empty(&self) -> (r: bool)
        requires
            self.wf(),
        ensures
            r == (self@ == Map::<Seq<u8>, V>::empty()),
    {
        if self.entries.len() == 0 {
            assert(self@ =~= Map::<Seq<u8>, V>::empty());
            true
        } else {
            proof {
                let k = self.entries@[0].0@;
                assert(entry_at(self.entries@, 0, k));
                assert(self@.contains_key(k));
            }
            false
        }
    }

    /// Sets the value of a key.
    fn insert(&mut self, key: Vec<u8>, value: V)
        requires
            old(self).wf(),
        ensures
            final(self).wf(),
            final(self)@ == old(self)@.insert(key@, value),
    {
        let ghost before = self.entries@;
        let ghost k = key@;
        match self.find(key.as_slice()) {
            Some(i) => {
                self.entries.set(i, (key, value));
                proof {
                    let after = self.entries@;
                    assert(after =~= before.update(i as int, (key, value)));
                    assert forall|j: int| 0 <= j < after.len() implies (#[trigger] after[j]).0@
                        == before[j].0@ by {}
                    assert forall|j: int| 0 <= j < after.len() implies self.is_listed(
                        j,
                        (#[trigger] after[j]).0@,
                    ) by {
                        assert(old(self).is_listed(j, before[j].0@));
                    }
                    assert forall|x: int, y: int| 0 <= x < y < after.len() implies (
                    #[trigger] after[x]).0@ != (#[trigger] after[y]).0@ by {
                        assert(before[x].0@ != before[y].0@);
                    }
                    lemma_same_keys(before, after, i as int, k, value);
                }
            },
            None => {
                let n = self.entries.len();
                let h = hash_bytes(key.as_slice());
                let mut bucket = match self.buckets.remove(&h) {
                    Some(bucket) => bucket,
                    None => Vec::new(),
                };
                let ghost listed = bucket@;
                bucket.push(n);
                self.buckets.insert(h, bucket);
                self.entries.push((key, value));
                proof {
                    let after = self.entries@;
                    assert(after =~= before.push((key, value)));
                    assert(self.buckets@ =~= old(self).buckets@.insert(h, bucket));
                    assert(bucket@ == listed.push(n));
                    assert forall|j: int| 0 <= j < after.len() implies self.is_listed(
                        j,
                        (#[trigger] after[j]).0@,
                    ) by {
                        if j < n {
                            assert(old(self).is_listed(j, before[j].0@));
                            if hash_of(before[j].0@) == h {
                                let q = choose|q: int|
                                    0 <= q < listed.len() && listed[q] == j as usize;
                                assert(bucket@[q] == j as usize);
                            }
                        } else {
                            assert(bucket@[listed.len() as int] == n);
                        }
                    }
                    assert forall|g: u64, j: int|
                        self.buckets@.contains_key(g) && 0 <= j < self.buckets@[g]@.len() implies (
                    #[trigger] self.buckets@[g]@[j]) < after.len() by {
                        if g == h {
                            if j < listed.len() {
                                assert(old(self).buckets@[g]@[j] < before.len());
                            }
                        } else {
                            assert(old(self).buckets@[g]@[j] < before.len());
                        }
                    }
                    assert forall|x: int, y: int| 0 <= x < y < after.len() implies (
                    #[trigger] after[x]).0@ != (#[trigger] after[y]).0@ by {
                        if y < n {
                            assert(before[x].0@ != before[y].0@);
                        } else {
                            assert(!entry_at(before, x, k));
                        }
                    }
                    lemma_new_key(before, after, k, value);
                }
            },
        }
    }
}

/// Replacing the value of an entry replaces it in the map.
proof fn lemma_same_keys<V>(
    before: Seq<(Vec<u8>, V)>,
    after: Seq<(Vec<u8>, V)>,
    i: int,
    k: Seq<u8>,
    value: V,
)
    requires
        entry_at(before, i, k),
        after.len() == before.len(),
        forall|j: int| 0 <= j < after.len() ==> (#[trigger] after[j]).0@ == before[j].0@,
        forall|j: int| 0 <= j < after.len() && j != i ==> #[trigger] after[j] == before[j],
        after[i].1 == value,
        forall|x: int, y: int|
            0 <= x < y < after.len() ==> (#[trigger] after[x]).0@ != (#[trigger] after[y]).0@,
    ensures
        as_map(after) == as_map(before).insert(k, value),
{
    let m = as_map(before).insert(k, value);
    assert forall|q: Seq<u8>| as_map(after).contains_key(q) == #[trigger] m.contains_key(q) by {
        if as_map(after).contains_key(q) {
            let j = choose|j: int| entry_at(after, j, q);
            assert(entry_at(before, j, q));
        }
        if as_map(before).contains_key(q) {
            let j = choose|j: int| entry_at(before, j, q);
            assert(entry_at(after, j, q));
        }
        assert(entry_at(after, i, k));
    }
    assert forall|q: Seq<u8>| #[trigger] as_map(after).contains_key(q) implies as_map(after)[q]
        == m[q] by {
        let c = choose|c: int| entry_at(after, c, q);
        assert(entry_at(before, c, q));
        let d = choose|d: int| entry_at(before, d, q);
        assert(entry_at(before, d, q) && entry_at(after, d, q));
        assert(c == d);
        if q == k {
            assert(entry_at(after, i, q));
            assert(c == i);
        }
    }
    assert(as_map(after) =~= m);
}

/// A further entry adds its key to the map.
proof fn lemma_new_key<V>(
    before: Seq<(Vec<u8>, V)>,
    after: Seq<(Vec<u8>, V)>,
    k: Seq<u8>,
    value: V,
)
    requires
        after.len() == before.len() + 1,
        forall|j: int| 0 <= j < before.len() ==> #[trigger] after[j] == before[j],
        after.last().0@ == k,
        after.last().1 == value,
        forall|x: int, y: int|
            0 <= x < y < after.len() ==> (#[trigger] after[x]).0@ != (#[trigger] after[y]).0@,
    ensures
        as_map(after) == as_map(before).insert(k, value),
{
    let m = as_map(before).insert(k, value);
    let n = before.len() as int;
    assert(entry_at(after, n, k));
    assert forall|q: Seq<u8>| as_map(after).contains_key(q) == #[trigger] m.contains_key(q) by {
        if as_map(after).contains_key(q) {
            let j = choose|j: int| entry_at(after, j, q);
            if j < n {
                assert(entry_at(before, j, q));
            }
        }
        if as_map(before).contains_key(q) {
            let j = choose|j: int| entry_at(before, j, q);
            assert(entry_at(after, j, q));
        }
    }
    assert forall|q: Seq<u8>| #[trigger] as_map(after).contains_key(q) implies as_map(after)[q]
        == m[q] by {
        let c = choose|c: int| entry_at(after, c, q);
        if q == k {
            assert(entry_at(after, n, q));
            assert(c == n);
        } else {
            assert(c < n);
            assert(entry_at(before, c, q));
            let d = choose|d: int| entry_at(before, d, q);
            assert(entry_at(before, d, q) && entry_at(after, d, q));
            assert(c == d);
        }
    }
    assert(as_map(after) =~= m);
}

impl<V> View for KeyedMap<V> {
    type V = Map<Seq<u8>, V>;

    closed spec fn view(&self) -> Map<Seq<u8>, V> {
        self.table@
    }
}

impl<V> KeyedMap<V> {
    #[verifier::type_invariant]
    spec fn wf(&self) -> bool {
        self.table.wf()
    }

    /// An empty map.
    pub fn new() -> (m: KeyedMap<V>)
        ensures
            m@ == Map::<Seq<u8>, V>::empty(),
    {
        KeyedMap { table: Table::new() }
    }

    /// Looks a key up.
    pub fn get(&self, key: &[u8]) -> (r: Option<&V>)
        ensures
            match r {
                Some(v) => self@.contains_key(key@) && *v == self@[key@],
                None => !self@.contains_key(key@),
            },
    {
        proof {
            use_type_invariant(self);
        }
        self.table.get(key)
    }

    /// Tells whether a key is present.
    pub fn contains(&self, key: &[u8]) -> (r: bool)
        ensures
            r == self@.contains_key(key@),
    {
        match self.get(key) {
            Some(_) => true,
            None => false,
        }
    }

    /// Tells whether there is no key at all.
    pub fn is_empty(&self) -> (r: bool)
        ensures
            r == (self@ == Map::<Seq<u8>, V>::empty()),
    {
        proof {
            use_type_invariant(self);
        }
        self.table.is_empty()
    }

    /// Sets the value of a key.
    pub fn insert(&mut self, key: Vec<u8>, value: V)
        ensures
            final(self)@ == old(self)@.insert(key@, value),
    {
        proof {
            use_type_invariant(&*self);
        }
        let mut table = Table::new();
        std::mem::swap(&mut table, &mut self.table);
        table.insert(key, value);
        self.table = table;
    }
}

// What the hash comes to

proof fn lemma_factor_can_be_undone(x: u64)
    ensures
        (x.wrapping_mul(HASH_FACTOR) as int * 0xb46d_d957_aff6_957bint) % 0x1_0000_0000_0000_0000int
            == x,
{
    let m = 0x1_0000_0000_0000_0000int;
    let f = 0x1000_0000_01b3int;
    let u = 0xb46d_d957_aff6_957bint;
    let q = 0xb46_dd95_7c32int;
    let n = x as int;
    assert(x.wrapping_mul(HASH_FACTOR) as int == (n * f) % m);
    vstd::arithmetic::div_mod::lemma_mul_mod_noop_left(n * f, u, m);
    assert(f * u == m * q + 1);
    assert((n * f) * u == m * (n * q) + n) by (nonlinear_arith)
        requires
            f * u == m * q + 1,
    ;
    vstd::arithmetic::div_mod::lemma_mod_multiples_vanish(n * q, n, m);
    vstd::arithmetic::div_mod::lemma_small_mod(x as nat, m as nat);
}

/// One step of the hash loses nothing: states that differ still differ after the
/// same byte, and different bytes lead from one state to different ones.
proof fn lemma_steps_differ(h: u64, g: u64, a: u8, b: u8)
    requires
        (h ^ (a as u64)).wrapping_mul(HASH_FACTOR) == (g ^ (b as u64)).wrapping_mul(HASH_FACTOR),
    ensures
        a == b ==> h == g,
        h == g ==> a == b,
{
    lemma_factor_can_be_undone(h ^ (a as u64));
    lemma_factor_can_be_undone(g ^ (b as u64));
    let x = a as u64;
    let y = b as u64;
    assert(h ^ x == g ^ y);
    assert(x == y ==> h == g) by (bit_vector)
        requires
            h ^ x == g ^ y,
    ;
    assert(h == g ==> x == y) by (bit_vector)
        requires
            h ^ x == g ^ y,
    ;
}

/// The hash begins with a fixed state; every byte is mixed into the state, which is
/// then multiplied by a fixed factor, modulo two to the power of 64.
pub proof fn the_hash_goes_byte_by_byte(bytes: Seq<u8>, b: u8)
    ensures
        hash_of(Seq::empty()) == 14695981039346656037,
        hash_of(bytes.push(b)) == ((hash_of(bytes) ^ (b as u64)) as int * 17592186044851)
            % 18446744073709551616,
{
    assert(bytes.push(b).drop_last() =~= bytes);
}

/// Byte strings that differ in their last byte alone have different hashes.
pub proof fn the_last_byte_counts(bytes: Seq<u8>, a: u8, b: u8)
    ensures
        hash_of(bytes.push(a)) == hash_of(bytes.push(b)) <==> a == b,
{
    assert(bytes.push(a).drop_last() =~= bytes);
    assert(bytes.push(b).drop_last() =~= bytes);
    if hash_of(bytes.push(a)) == hash_of(bytes.push(b)) {
        lemma_steps_differ(hash_of(bytes), hash_of(bytes), a, b);
    }
}

/// What stands behind two byte strings in common neither hides nor makes a
/// difference between their hashes.
pub proof fn a_common_ending_changes_nothing(x: Seq<u8>, y: Seq<u8>, end: Seq<u8>)
    ensures
        hash_of(x + end) == hash_of(y + end) <==> hash_of(x) == hash_of(y),
    decreases end.len(),
{
    if end.len() == 0 {
        assert(x + end =~= x);
        assert(y + end =~= y);
    } else {
        let rest = end.drop_last();
        let b = end.last();
        a_common_ending_changes_nothing(x, y, rest);
        assert((x + end).drop_last() =~= x + rest);
        assert((y + end).drop_last() =~= y + rest);
        if hash_of(x + end) == hash_of(y + end) {
            lemma_steps_differ(hash_of(x + rest), hash_of(y + rest), b, b);
        }
    }
}

} // verus!
