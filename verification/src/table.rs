//! A container of items of one type in tables of slots, each table with a
//! bitmap of its taken slots. Keys are reserved first and filled later.

use crate::allocator::ReservedKey;
use crate::bits::{bit, bits_of, first_one_from, first_zero_from, set_bit, zeros, TakenBits};
use crate::collection::{lemma_some_count_take, some_count};
use crate::key::{
    lemma_bounded_low_len, lemma_sub_key_index_of_new, low_len, sub_key_index_spec, sub_key_spec,
    Index, SubKey,
};
use vstd::arithmetic::div_mod::{lemma_fundamental_div_mod, lemma_fundamental_div_mod_converse};
use vstd::arithmetic::power2::pow2;
use vstd::prelude::*;

verus! {

/// Bytes of the first table, which grows up to a full table before a second
/// one is made.
pub const STARTING_SIZE: usize = 256;

/// Bytes of a full table.
pub const MAX_TABLE_SIZE: usize = 4096;

/// Splitting the index of slot `s` of table `t` gives them back.
proof fn lemma_split_join(t: int, s: int, l: int)
    requires
        0 <= t,
        0 <= s < l,
    ensures
        (t * l + s) / l == t,
        (t * l + s) % l == s,
{
    lemma_fundamental_div_mod_converse(t * l + s, l, t, s);
}

/// Slots of earlier tables, or earlier slots of one table, have lower indices.
proof fn lemma_index_order(t1: int, s1: int, t2: int, s2: int, l: int)
    requires
        0 <= t1,
        0 <= t2,
        0 <= s1 < l,
        0 <= s2 < l,
    ensures
        (t1 < t2 || (t1 == t2 && s1 < s2)) <==> t1 * l + s1 < t2 * l + s2,
{
    if t1 < t2 {
        assert(t1 * l + s1 < t2 * l + s2) by (nonlinear_arith)
            requires
                t1 < t2,
                0 <= s1 < l,
                0 <= s2,
        ;
    } else if t1 > t2 {
        assert(t2 * l + s2 < t1 * l + s1) by (nonlinear_arith)
            requires
                t2 < t1,
                0 <= s2 < l,
                0 <= s1,
        ;
    }
}

/// An index below `2^k` has at most `k` significant bits.
proof fn lemma_fits_low_len(i: u64, k: u32)
    requires
        1 <= k <= 64,
        i < pow2(k as nat),
    ensures
        low_len(i) <= k,
{
    if k < 64 {
        vstd::bits::lemma_u64_pow2_no_overflow(k as nat);
        vstd::bits::lemma_u64_shl_is_mul(1, k as u64);
        assert((1u64 << (k as u64)) == (1u64 << k)) by (bit_vector)
            requires
                k < 64,
        ;
        lemma_bounded_low_len(i, k);
    } else {
        assert(low_len(i) <= 64);
    }
}

/// A nonzero index below `2^k` makes a nonzero key of `k` bits, whose index
/// it is.
proof fn lemma_join_key(i: u64, k: u32)
    requires
        1 <= k <= 64,
        0 < i < pow2(k as nat),
    ensures
        sub_key_index_spec(sub_key_spec(k, i), k) == i,
        sub_key_spec(k, i) != 0,
{
    lemma_fits_low_len(i, k);
    lemma_sub_key_index_of_new(k, i);
    if sub_key_spec(k, i) == 0 {
        assert(sub_key_index_spec(0, k) == 0) by (bit_vector)
            requires
                1 <= k <= 64,
        ;
    }
}

/// The index of a key of `k` bits is below `2^k`.
proof fn lemma_index_in_key_space(v: u64, k: u32)
    requires
        1 <= k <= 64,
    ensures
        sub_key_index_spec(v, k) < pow2(k as nat),
{
    if k == 64 {
        vstd::arithmetic::power2::lemma2_to64();
        assert(v >> ((64 - k) as u32) == v) by (bit_vector)
            requires
                k == 64,
        ;
    } else {
        vstd::bits::lemma_u64_pow2_no_overflow(k as nat);
        vstd::bits::lemma_u64_shl_is_mul(1, k as u64);
        assert((1u64 << (k as u64)) == (1u64 << k)) by (bit_vector)
            requires
                k < 64,
        ;
        assert((v >> ((64 - k) as u32)) < (1u64 << k)) by (bit_vector)
            requires
                1 <= k < 64,
        ;
    }
}

/// An index is its table's first index plus its slot.
proof fn lemma_index_parts(j: int, l: int)
    requires
        0 <= j,
        0 < l,
    ensures
        j == (j / l) * l + j % l,
        0 <= j % l < l,
        0 <= j / l,
{
    lemma_fundamental_div_mod(j, l);
    assert((j / l) * l == l * (j / l)) by (nonlinear_arith);
}

/// `n` keys or more do not fit in keys of `key_len` bits.
fn exceeds_key_space(n: u128, key_len: u32) -> (r: bool)
    requires
        1 <= key_len <= 64,
    ensures
        r == (n >= pow2(key_len as nat)),
{
    proof {
        vstd::bits::lemma_u128_shr_is_div(n, key_len as u128);
        assert(n >> (key_len as u128) == n >> key_len) by (bit_vector)
            requires
                key_len <= 64,
        ;
        vstd::arithmetic::power2::lemma_pow2_pos(key_len as nat);
        let p = pow2(key_len as nat) as int;
        if n >= p {
            vstd::arithmetic::div_mod::lemma_div_is_ordered(p, n as int, p);
            vstd::arithmetic::div_mod::lemma_div_by_self(p);
        } else {
            vstd::arithmetic::div_mod::lemma_basic_div(n as int, p);
        }
    }
    (n >> key_len) >= 1
}

/// `v` holds `x`.
fn holds(v: &Vec<u64>, x: u64) -> (r: bool)
    ensures
        r == v@.contains(x),
{
    let mut i: usize = 0;
    while i < v.len()
        invariant
            i <= v@.len(),
            forall|j: int| 0 <= j < i ==> v@[j] != x,
        decreases v@.len() - i,
    {
        if v[i] == x {
            return true;
        }
        i = i + 1;
    }
    false
}

/// Slots that are all empty count no items.
proof fn lemma_some_count_none<A>(s: Seq<Option<A>>)
    requires
        forall|i: int| 0 <= i < s.len() ==> #[trigger] s[i] is None,
    ensures
        some_count(s) == 0,
    decreases s.len(),
{
    if s.len() > 0 {
        assert forall|i: int| 0 <= i < s.drop_last().len() implies #[trigger] s.drop_last()[i] is None by {
            assert(s.drop_last()[i] == s[i]);
        }
        lemma_some_count_none(s.drop_last());
    }
}

/// Appending empty slots counts no more items.
proof fn lemma_some_count_push_none<A>(s: Seq<Option<A>>)
    ensures
        some_count(s.push(None)) == some_count(s),
{
    assert(s.push(None).drop_last() =~= s);
}

/// `slots` with empty slots appended up to `n`.
fn grow_slots<T>(slots: &mut Vec<Option<T>>, n: usize)
    ensures
        final(slots)@.len() == if old(slots)@.len() < n {
            n as nat
        } else {
            old(slots)@.len()
        },
        forall|i: int| 0 <= i < old(slots)@.len() ==> #[trigger] final(slots)@[i] == old(slots)@[i],
        forall|i: int| old(slots)@.len() <= i < final(slots)@.len() ==> #[trigger] final(slots)@[i] is None,
        some_count(final(slots)@) == some_count(old(slots)@),
{
    while slots.len() < n
        invariant
            old(slots)@.len() <= slots@.len(),
            old(slots)@.len() < n ==> slots@.len() <= n,
            old(slots)@.len() >= n ==> slots@.len() == old(slots)@.len(),
            forall|i: int| 0 <= i < old(slots)@.len() ==> #[trigger] slots@[i] == old(slots)@[i],
            forall|i: int| old(slots)@.len() <= i < slots@.len() ==> #[trigger] slots@[i] is None,
            some_count(slots@) == some_count(old(slots)@),
        decreases n - slots@.len(),
    {
        proof {
            lemma_some_count_push_none(slots@);
        }
        slots.push(None);
    }
}

/// Counting a table with no items among more tables counts no more.
proof fn lemma_table_items_push<T>(a: Seq<Table<T>>, x: Table<T>, n: nat)
    requires
        n <= a.len(),
    ensures
        table_items(a.push(x), n) == table_items(a, n),
    decreases n,
{
    if n > 0 {
        lemma_table_items_push(a, x, (n - 1) as nat);
        assert(a.push(x)[n - 1] == a[n - 1]);
    }
}

/// Adding an empty table to a well formed container keeps it well formed,
/// with the same items and every slot it had.
proof fn lemma_pushed_table<T>(before: TableContainer<T>, after: TableContainer<T>)
    requires
        before.shape(),
        after.tables@.len() == before.tables@.len() + 1,
        forall|t: int| 0 <= t < before.tables@.len() ==> #[trigger] after.tables@[t] == before.tables@[t],
        after.reserved == before.reserved,
        after.free_tables == before.free_tables,
        after.key_len == before.key_len,
        after.count == before.count,
        after.slots_len == before.slots_len,
        (after.tables@.len() - 1) * (after.slots_len as int) < pow2(after.key_len as nat),
        ({
            let nt = after.tables@[before.tables@.len() as int];
            &&& bits_of(nt.taken) == Seq::new(after.slots_len as nat, |k: int| false)
            &&& nt.slots@.len() <= after.slots_len
            &&& forall|k: int| 0 <= k < nt.slots@.len() ==> #[trigger] nt.slots@[k] is None
            &&& before.tables@.len() > 0 ==> nt.slots@.len() == after.slots_len
                && before.tables@[0].slots@.len() == after.slots_len
            &&& before.tables@.len() == 0 ==> nt.slots@.len() >= 2
        }),
    ensures
        after.shape(),
        after@ == before@,
        forall|j: u64| #[trigger] before.has_slot(j) ==> after.has_slot(j),
        forall|j: u64| #[trigger] after.live(j) == before.live(j),
{
    let n = before.tables@.len();
    let nt = after.tables@[n as int];
    let l = after.slots_len as int;
    assert(after.tables@ =~= before.tables@.push(nt));
    lemma_some_count_none(nt.slots@);
    lemma_table_items_push(before.tables@, nt, n);
    assert forall|j: u64| #[trigger] after.live(j) == before.live(j) by {
        if after.table_of(j) < n {
            assert(after.tables@[after.table_of(j)] == before.tables@[after.table_of(j)]);
        } else if after.has_slot(j) {
            assert(nt.slots@[after.slot_of(j)] is None);
        }
    }
    assert forall|j: u64| #[trigger] before.has_slot(j) implies after.has_slot(j) by {
        assert(after.tables@[after.table_of(j)] == before.tables@[after.table_of(j)]);
    }
    assert forall|tt: int| 0 <= tt < after.tables@.len() implies {
        let table = #[trigger] after.tables@[tt];
        &&& bits_of(table.taken).len() == l
        &&& table.slots@.len() <= l
        &&& forall|ss: int|
            0 <= ss < l ==> (#[trigger] bits_of(table.taken)[ss] <==> (ss < table.slots@.len()
                && table.slots@[ss] is Some))
        &&& (tt > 0 || after.tables@.len() > 1) ==> table.slots@.len() == l
    } by {
        if tt < n {
            assert(after.tables@[tt] == before.tables@[tt]);
        }
    }
    assert forall|k: int| 0 <= k < after.reserved@.len() implies ({
        let r = sub_key_index_spec(#[trigger] after.reserved@[k], after.key_len);
        &&& after.reserved@[k] == sub_key_spec(after.key_len, r)
        &&& 0 < r
        &&& after.has_slot(r)
        &&& !after.live(r)
    }) by {
        let r = sub_key_index_spec(after.reserved@[k], after.key_len);
        assert(before.has_slot(r));
    }
    assert forall|t: int, s: int|
        0 <= t < after.tables@.len() && 0 <= s < after.tables@[t].slots@.len()
            && (#[trigger] after.tables@[t].slots@[s]) is Some implies t * l + s < pow2(
            after.key_len as nat,
        ) by {
        if t < n {
            assert(after.tables@[t] == before.tables@[t]);
        } else {
            assert(nt.slots@[s] is None);
        }
    }
    assert(after@ =~= before@) by {
        assert forall|j: u64| #[trigger] after@.dom().contains(j) implies after@[j] == before@[j] by {
            assert(after.tables@[after.table_of(j)] == before.tables@[after.table_of(j)]);
        }
    }
}

/// `s` is strictly descending.
pub open spec fn descending(s: Seq<usize>) -> bool {
    forall|a: int, b: int| 0 <= a < b < s.len() ==> s[a] > s[b]
}

/// A table: a bitmap of taken slots and the slots.
struct Table<T> {
    taken: TakenBits,
    slots: Vec<Option<T>>,
}

/// Items in the first `n` tables.
spec fn table_items<T>(tables: Seq<Table<T>>, n: nat) -> nat
    decreases n,
{
    if n == 0 {
        0
    } else {
        table_items(tables, (n - 1) as nat) + some_count(tables[n - 1].slots@)
    }
}

/// Changing the slots of one table changes the count by its change.
proof fn lemma_table_items_update<T>(a: Seq<Table<T>>, b: Seq<Table<T>>, t: int, n: nat)
    requires
        0 <= t < a.len(),
        n <= a.len(),
        a.len() == b.len(),
        forall|u: int| 0 <= u < a.len() && u != t ==> #[trigger] b[u].slots@ == a[u].slots@,
    ensures
        table_items(b, n) + (if t < n { some_count(a[t].slots@) } else { 0 }) == table_items(a, n) + (
        if t < n {
            some_count(b[t].slots@)
        } else {
            0
        }),
    decreases n,
{
    if n > 0 {
        lemma_table_items_update(a, b, t, (n - 1) as nat);
    }
}

/// A container of items of one type in tables of `slots_len` slots; keys
/// are `key_len` bits long.
pub struct TableContainer<T> {
    tables: Vec<Table<T>>,
    reserved: Vec<u64>,
    free_tables: Vec<usize>,
    key_len: u32,
    count: usize,
    slots_len: usize,
}

impl<T> View for TableContainer<T> {
    type V = Map<u64, T>;

    /// The items, by index.
    closed spec fn view(&self) -> Map<u64, T> {
        Map::new(
            |i: u64| self.live(i),
            |i: u64| self.tables@[self.table_of(i)].slots@[self.slot_of(i)]->Some_0,
        )
    }
}

impl<T> TableContainer<T> {
    /// Slots per full table.
    pub closed spec fn slots_per_table(&self) -> nat {
        self.slots_len as nat
    }

    /// Bits in a key.
    pub closed spec fn key_bits(&self) -> u32 {
        self.key_len
    }

    /// The table index `i` falls in.
    pub open spec fn table_of(&self, i: u64) -> int {
        i as int / self.slots_per_table() as int
    }

    /// The slot of its table index `i` falls on.
    pub open spec fn slot_of(&self, i: u64) -> int {
        i as int % self.slots_per_table() as int
    }

    /// Index `i` is on a slot that exists.
    pub closed spec fn has_slot(&self, i: u64) -> bool {
        &&& self.table_of(i) < self.tables@.len()
        &&& self.slot_of(i) < self.tables@[self.table_of(i)].slots@.len()
    }

    /// An item is at index `i`.
    pub closed spec fn live(&self, i: u64) -> bool {
        self.has_slot(i) && self.tables@[self.table_of(i)].slots@[self.slot_of(i)] is Some
    }

    /// The keys reserved and not yet filled or cancelled.
    pub closed spec fn reserved_keys(&self) -> Seq<u64> {
        self.reserved@
    }

    /// The tables that may have a free slot, highest first.
    pub closed spec fn free_hints(&self) -> Seq<usize> {
        self.free_tables@
    }

    /// Number of tables.
    pub closed spec fn table_count(&self) -> nat {
        self.tables@.len()
    }

    /// The index a new slot would get: slot one of a first table; the
    /// first new slot of the first table, while it is not full; else the
    /// first slot of a new table.
    pub open spec fn new_index(&self) -> int {
        if self.table_count() == 0 {
            1
        } else if self.first_table_len() < self.slots_per_table() {
            self.first_table_len() as int
        } else {
            (self.table_count() * self.slots_per_table()) as int
        }
    }

    /// Number of slots of the first table, where there is one.
    pub closed spec fn first_table_len(&self) -> nat {
        self.tables@[0].slots@.len()
    }

    /// Slot `s` of table `t` can be reserved: it exists and is free, its
    /// index is a nonzero key of the key length, and that key is not
    /// reserved.
    pub closed spec fn reservable_at(&self, t: int, s: int) -> bool {
        let i = t * self.slots_len + s;
        &&& 0 <= t < self.tables@.len()
        &&& 0 <= s < self.tables@[t].slots@.len()
        &&& self.tables@[t].slots@[s] is None
        &&& 0 < i < pow2(self.key_len as nat)
        &&& !self.reserved@.contains(sub_key_spec(self.key_len, i as u64))
    }

    /// Number of items.
    pub closed spec fn item_count(&self) -> nat {
        table_items(self.tables@, self.tables@.len())
    }

    /// The first slot of each table, and each slot with an item, has a key
    /// of the key length; each table has a bitmap of a full table's length
    /// marking exactly its taken slots; tables after the first, and the
    /// first where there are more, are full; slot zero is never used;
    /// reserved keys are distinct keys of free slots; and the hints are
    /// distinct tables, highest first.
    pub closed spec fn wf(&self) -> bool {
        self.shape() && self.hints_complete()
    }

    /// Every table with a slot that could be reserved is hinted, or holds a
    /// reserved key, whose fulfilment or cancellation will hint it.
    pub closed spec fn hints_complete(&self) -> bool {
        forall|t: int, s: int|
            #[trigger] self.reservable_at(t, s) ==> self.free_tables@.contains(t as usize)
                || self.holds_reservation(t)
    }

    /// All of well-formedness but the completeness of the hints.
    closed spec fn shape(&self) -> bool {
        let l = self.slots_len as int;
        &&& 2 <= self.slots_len <= usize::MAX / 8
        &&& 1 <= self.key_len <= 64
        &&& self.tables@.len() > 0 ==> (self.tables@.len() - 1) * l < pow2(self.key_len as nat)
        &&& forall|t: int|
            0 <= t < self.tables@.len() ==> {
                let table = #[trigger] self.tables@[t];
                &&& bits_of(table.taken).len() == l
                &&& table.slots@.len() <= l
                &&& forall|s: int|
                    0 <= s < l ==> (#[trigger] bits_of(table.taken)[s] <==> (s < table.slots@.len()
                        && table.slots@[s] is Some))
                &&& (t > 0 || self.tables@.len() > 1) ==> table.slots@.len() == l
            }
        &&& forall|t: int, s: int|
            0 <= t < self.tables@.len() && 0 <= s < self.tables@[t].slots@.len()
                && (#[trigger] self.tables@[t].slots@[s]) is Some ==> t * l + s < pow2(
                self.key_len as nat,
            )
        &&& self.tables@.len() > 0 ==> self.tables@[0].slots@.len() >= 2 && self.tables@[0].slots@[0] is None
        &&& self.reserved@.no_duplicates()
        &&& forall|k: int|
            0 <= k < self.reserved@.len() ==> {
                let i = sub_key_index_spec(#[trigger] self.reserved@[k], self.key_len);
                &&& self.reserved@[k] == sub_key_spec(self.key_len, i)
                &&& 0 < i
                &&& self.has_slot(i)
                &&& !self.live(i)
            }
        &&& forall|a: int, b: int|
            0 <= a < b < self.free_tables@.len() ==> self.free_tables@[a] > self.free_tables@[b]
        &&& forall|a: int| 0 <= a < self.free_tables@.len() ==> #[trigger] self.free_tables@[a] < self.tables@.len()
        &&& self.count == self.item_count()
    }

    /// The key of a slot that can be reserved gives back its index, which
    /// falls on that slot.
    proof fn lemma_reservable_key(&self, t: int, s: int)
        requires
            self.shape(),
            self.reservable_at(t, s),
        ensures
            ({
                let j = (t * self.slots_len + s) as u64;
                &&& j == t * self.slots_len + s
                &&& sub_key_index_spec(sub_key_spec(self.key_len, j), self.key_len) == j
                &&& self.table_of(j) == t
                &&& self.slot_of(j) == s
            }),
    {
        let l = self.slots_len as int;
        if self.key_len < 64 {
            vstd::bits::lemma_u64_pow2_no_overflow(self.key_len as nat);
        } else {
            vstd::arithmetic::power2::lemma2_to64();
        }
        assert(0 <= t * l) by (nonlinear_arith)
            requires
                0 <= t,
                0 <= l,
        ;
        lemma_split_join(t, s, l);
        lemma_join_key((t * l + s) as u64, self.key_len);
    }

    /// Every nonzero index below the one a new slot would get has a slot.
    proof fn lemma_slot_below_new_index(&self, i: u64)
        requires
            self.shape(),
            0 < i,
            i < self.new_index(),
        ensures
            self.has_slot(i),
    {
        let l = self.slots_len as int;
        lemma_index_parts(i as int, l);
        let t = i as int / l;
        let s = i as int % l;
        if self.tables@.len() > 0 {
            if self.tables@[0].slots@.len() < self.slots_len {
                lemma_split_join(0, i as int, l);
                assert(0 * l + i == i);
            } else {
                assert(t < self.tables@.len()) by (nonlinear_arith)
                    requires
                        i == t * l + s,
                        0 <= s < l,
                        i < self.tables@.len() * l,
                        0 <= t,
                ;
                assert(self.tables@[t].slots@.len() == l);
            }
        }
    }

    /// Some reserved key falls in table `t`.
    pub closed spec fn holds_reservation(&self, t: int) -> bool {
        exists|k: int|
            0 <= k < self.reserved@.len() && self.table_of(
                sub_key_index_spec(#[trigger] self.reserved@[k], self.key_len),
            ) == t
    }

    /// An empty container for keys of `key_len` bits and tables of
    /// `slots_len` slots.
    pub fn new(key_len: u32, slots_len: usize) -> (r: Self)
        requires
            1 <= key_len <= 64,
            2 <= slots_len <= usize::MAX / 8,
        ensures
            r.wf(),
            r@ == Map::<u64, T>::empty(),
            r.key_bits() == key_len,
            r.slots_per_table() == slots_len,
            r.table_count() == 0,
            r.reserved_keys().len() == 0,
            r.item_count() == 0,
            r.free_hints().len() == 0,
    {
        let r = TableContainer {
            tables: Vec::new(),
            reserved: Vec::new(),
            free_tables: Vec::new(),
            key_len,
            count: 0,
            slots_len,
        };
        proof {
            vstd::arithmetic::power2::lemma_pow2_pos(key_len as nat);
            assert(r.tables@.len() * (slots_len as int) == 0) by (nonlinear_arith)
                requires
                    r.tables@.len() == 0,
            ;
            assert(r@ =~= Map::<u64, T>::empty());
        }
        r
    }

    /// Number of items.
    pub fn len(&self) -> (r: usize)
        requires
            self.wf(),
        ensures
            r == self.item_count(),
    {
        self.count
    }

    /// The table and slot of `key`.
    fn split_key(&self, key: &SubKey<T>) -> (r: (u64, usize))
        requires
            self.shape(),
        ensures
            r.0 == sub_key_index_spec(key@, self.key_len) as int / self.slots_len as int,
            r.1 == sub_key_index_spec(key@, self.key_len) as int % self.slots_len as int,
            r.1 < self.slots_len,
    {
        let raw = key.into_key().index().get();
        let i = raw >> (64 - self.key_len);
        let l = self.slots_len as u64;
        (i / l, (i % l) as usize)
    }

    /// The key of slot `s` of table `t`.
    fn join_key(&self, t: u64, s: usize) -> (r: SubKey<T>)
        requires
            self.shape(),
            s < self.slots_len,
            0 < t * self.slots_len + s < pow2(self.key_len as nat),
        ensures
            r@ == sub_key_spec(self.key_len, (t * self.slots_len + s) as u64),
            sub_key_index_spec(r@, self.key_len) == t * self.slots_len + s,
    {
        proof {
            vstd::bits::lemma_u64_pow2_no_overflow(0);
            if self.key_len < 64 {
                vstd::bits::lemma_u64_pow2_no_overflow(self.key_len as nat);
            } else {
                vstd::arithmetic::power2::lemma2_to64();
            }
        }
        let i: u64 = t * (self.slots_len as u64) + (s as u64);
        proof {
            lemma_join_key(i, self.key_len);
        }
        SubKey::new(self.key_len, Index::new(i).unwrap())
    }

    /// The item at `key`, if any.
    pub fn get(&self, key: &SubKey<T>) -> (r: Option<&T>)
        requires
            self.wf(),
        ensures
            r is Some <==> self@.dom().contains(sub_key_index_spec(key@, self.key_bits())),
            r matches Some(it) ==> *it == self@[sub_key_index_spec(key@, self.key_bits())],
    {
        let (t, s) = self.split_key(key);
        if t >= self.tables.len() as u64 {
            return None;
        }
        let table = &self.tables[t as usize];
        if bit(&table.taken, s) {
            match &table.slots[s] {
                Some(it) => Some(it),
                None => None,
            }
        } else {
            None
        }
    }

    /// Records that table `t` may have a free slot.
    fn add_free_hint(&mut self, t: usize)
        requires
            descending(old(self).free_tables@),
            t < old(self).tables@.len(),
            forall|a: int| 0 <= a < old(self).free_tables@.len() ==> #[trigger] old(self).free_tables@[a] < old(self).tables@.len(),
        ensures
            final(self).tables == old(self).tables,
            final(self).reserved == old(self).reserved,
            final(self).count == old(self).count,
            final(self).key_len == old(self).key_len,
            final(self).slots_len == old(self).slots_len,
            descending(final(self).free_tables@),
            forall|a: int| 0 <= a < final(self).free_tables@.len() ==> #[trigger] final(self).free_tables@[a] < final(self).tables@.len(),
            final(self).free_tables@.to_set() == old(self).free_tables@.to_set().insert(t),
    {
        let mut i: usize = 0;
        while i < self.free_tables.len() && self.free_tables[i] > t
            invariant
                *self == *old(self),
                i <= self.free_tables@.len(),
                forall|a: int| 0 <= a < i ==> #[trigger] self.free_tables@[a] > t,
            decreases self.free_tables@.len() - i,
        {
            i = i + 1;
        }
        if i < self.free_tables.len() && self.free_tables[i] == t {
            proof {
                assert(self.free_tables@.to_set() =~= old(self).free_tables@.to_set().insert(t));
            }
            return;
        }
        let ghost f0 = self.free_tables@;
        self.free_tables.insert(i, t);
        proof {
            let f1 = self.free_tables@;
            assert(f1 == f0.insert(i as int, t));
            assert forall|a: int, b: int| 0 <= a < b < f1.len() implies f1[a] > f1[b] by {
                if b < i {
                } else if b == i {
                    assert(f0[a] > t);
                } else if a < i {
                    assert(f1[b] == f0[b - 1]);
                    assert(f0[a] > f0[b - 1] || a == b - 1);
                    if i < f0.len() {
                        assert(f0[i as int] < t);
                    }
                } else if a == i {
                    assert(f1[b] == f0[b - 1]);
                    assert(f0[i as int] < t);
                    if b - 1 > i {
                        assert(f0[i as int] > f0[b - 1]);
                    }
                } else {
                    assert(f1[a] == f0[a - 1]);
                    assert(f1[b] == f0[b - 1]);
                }
            }
            assert forall|x: usize| #[trigger] f1.to_set().contains(x) <==> f0.to_set().insert(t).contains(x) by {
                if f0.contains(x) {
                    let a = choose|a: int| 0 <= a < f0.len() && f0[a] == x;
                    if a < i {
                        assert(f1[a] == x);
                    } else {
                        assert(f1[a + 1] == x);
                    }
                }
                if f1.contains(x) && x != t {
                    let a = choose|a: int| 0 <= a < f1.len() && f1[a] == x;
                    if a < i {
                        assert(f0[a] == x);
                    } else {
                        assert(a != i);
                        assert(f0[a - 1] == x);
                    }
                }
                if x == t {
                    assert(f1[i as int] == t);
                }
            }
            assert(f1.to_set() =~= f0.to_set().insert(t));
        }
    }
    /// Takes the item out of the slot of `key`, hinting that its table has a
    /// free slot; `None`, changing nothing, where the slot holds no item.
    pub fn unfill(&mut self, key: &SubKey<T>) -> (r: Option<T>)
        requires
            old(self).wf(),
            old(self).table_of(sub_key_index_spec(key@, old(self).key_bits())) < old(self).table_count(),
        ensures
            final(self).wf(),
            final(self).key_bits() == old(self).key_bits(),
            final(self).slots_per_table() == old(self).slots_per_table(),
            final(self).table_count() == old(self).table_count(),
            final(self).reserved_keys() == old(self).reserved_keys(),
            r is Some <==> old(self)@.dom().contains(sub_key_index_spec(key@, old(self).key_bits())),
            r matches Some(it) ==> {
                let i = sub_key_index_spec(key@, old(self).key_bits());
                &&& it == old(self)@[i]
                &&& final(self)@ == old(self)@.remove(i)
                &&& final(self).item_count() + 1 == old(self).item_count()
                &&& final(self).free_hints().to_set() == old(self).free_hints().to_set().insert(
                    old(self).table_of(i) as usize,
                )
            },
            r is None ==> *final(self) == *old(self),
    {
        let (t, s) = self.split_key(key);
        let ghost i = sub_key_index_spec(key@, self.key_len);
        let n = self.tables.len();
        proof {
            assert(t as int == self.table_of(i));
            assert(t < self.tables@.len());
        }
        let tu = t as usize;
        if !bit(&self.tables[tu].taken, s) {
            proof {
                let table = self.tables@[tu as int];
                assert(!bits_of(table.taken)[s as int]);
                assert(self.table_of(i) == tu as int);
                assert(self.slot_of(i) == s as int);
                assert(!self.live(i));
                assert(!self@.dom().contains(i));
            }
            return None;
        }
        let ghost tabs0 = self.tables@;
        let mut table = Table { taken: zeros(0), slots: Vec::new() };
        self.tables.set_and_swap(tu, &mut table);
        let ghost old_table = table;
        set_bit(&mut table.taken, s, false);
        let mut slot: Option<T> = None;
        table.slots.set_and_swap(s, &mut slot);
        self.tables.set_and_swap(tu, &mut table);
        proof {
            let l = self.slots_len as int;
            let tabs1 = self.tables@;
            assert(old_table == tabs0[tu as int]);
            assert(tabs1[tu as int].slots@ == old_table.slots@.update(s as int, None));
            lemma_some_count_take(old_table.slots@, s as int);
            lemma_table_items_update(tabs0, tabs1, tu as int, tabs0.len());
            assert forall|u: int| 0 <= u < tabs1.len() && u != tu implies #[trigger] tabs1[u] == tabs0[u] by {}
            lemma_index_parts(i as int, l);
            assert forall|j: u64| #[trigger] self.live(j) <==> (old(self).live(j) && j != i) by {
                lemma_index_parts(j as int, l);
                if self.table_of(j) == tu && self.slot_of(j) == s {
                    assert(j == i);
                }
            }
            assert(self@ =~= old(self)@.remove(i)) by {
                assert forall|j: u64| #[trigger] self@.dom().contains(j) implies self@[j] == old(self)@.remove(i)[j] by {
                    lemma_index_parts(j as int, l);
                    if self.table_of(j) == tu {
                        assert(self.slot_of(j) != s);
                    }
                }
            }
            assert forall|k: int| 0 <= k < self.reserved@.len() implies ({
                let r = sub_key_index_spec(#[trigger] self.reserved@[k], self.key_len);
                &&& self.reserved@[k] == sub_key_spec(self.key_len, r)
                &&& 0 < r
                &&& self.has_slot(r)
                &&& !self.live(r)
            }) by {
                let r = sub_key_index_spec(self.reserved@[k], self.key_len);
                assert(old(self).has_slot(r));
            }
        }
        self.count = self.count - 1;
        self.add_free_hint(tu);
        proof {
            assert forall|t2: int, s2: int| #[trigger] self.reservable_at(t2, s2) implies self.free_tables@.contains(
                t2 as usize,
            ) || self.holds_reservation(t2) by {
                if t2 == tu {
                    assert(self.free_tables@.to_set().contains(tu));
                } else {
                    assert(self.tables@[t2] == old(self).tables@[t2]);
                    assert(old(self).reservable_at(t2, s2));
                    if old(self).free_tables@.contains(t2 as usize) {
                        assert(old(self).free_tables@.to_set().contains(t2 as usize));
                        assert(self.free_tables@.to_set().contains(t2 as usize));
                    } else {
                        assert(old(self).holds_reservation(t2));
                    }
                }
            }
        }
        slot
    }

    /// The least slot with an item in the tables from `start` on, as a table
    /// and a slot.
    fn first_from_table(&self, start: usize) -> (r: Option<(u64, usize)>)
        requires
            self.wf(),
        ensures
            r matches Some((t, s)) ==> {
                &&& start <= t < self.tables@.len()
                &&& s < self.slots_len
                &&& self.live((t * self.slots_len + s) as u64)
                &&& 0 < t * self.slots_len + s < pow2(self.key_len as nat)
                &&& forall|j: u64|
                    #[trigger] self.live(j) && start <= self.table_of(j) ==> t * self.slots_len + s <= j
            },
            r is None ==> forall|j: u64| #[trigger] self.live(j) ==> self.table_of(j) < start,
    {
        let l = self.slots_len;
        let mut t = start;
        while t < self.tables.len()
            invariant
                self.wf(),
                l == self.slots_len,
                start <= t,
                forall|j: u64| #[trigger] self.live(j) ==> self.table_of(j) < start || t <= self.table_of(j),
            decreases self.tables@.len() - t,
        {
            match first_one_from(&self.tables[t].taken, 0) {
                Some(s) => {
                    proof {
                        let table = self.tables@[t as int];
                        assert(bits_of(table.taken)[s as int]);
                        lemma_split_join(t as int, s as int, l as int);
                        assert(table.slots@[s as int] is Some);
                        assert(t * l + s < pow2(self.key_len as nat));
                        assert(t * l + s <= u64::MAX) by {
                            vstd::bits::lemma_u64_pow2_no_overflow(0);
                            if self.key_len < 64 {
                                vstd::bits::lemma_u64_pow2_no_overflow(self.key_len as nat);
                            } else {
                                vstd::arithmetic::power2::lemma2_to64();
                            }
                        }
                        let i = (t * l + s) as u64;
                        assert(self.table_of(i) == t && self.slot_of(i) == s);
                        if t == 0 {
                            assert(s != 0);
                        }
                        assert(0 <= t * l) by (nonlinear_arith)
                            requires
                                0 <= t,
                                0 <= l,
                        ;
                        assert forall|j: u64| #[trigger] self.live(j) && start <= self.table_of(j) implies t * l + s <= j by {
                            lemma_index_parts(j as int, l as int);
                            if self.table_of(j) == t {
                                assert(bits_of(table.taken)[self.slot_of(j)]);
                            }
                            lemma_index_order(self.table_of(j), self.slot_of(j), t as int, s as int, l as int);
                        }
                    }
                    return Some((t as u64, s));
                },
                None => {
                    proof {
                        assert forall|j: u64| #[trigger] self.live(j) implies self.table_of(j) < start || t + 1 <= self.table_of(j) by {
                            if self.table_of(j) == t {
                                assert(bits_of(self.tables@[t as int].taken)[self.slot_of(j)]);
                            }
                        }
                    }
                },
            }
            t = t + 1;
        }
        None
    }

    /// The key of the least index with an item.
    pub fn first(&self) -> (r: Option<SubKey<T>>)
        requires
            self.wf(),
        ensures
            r matches Some(k) ==> {
                let i = sub_key_index_spec(k@, self.key_bits());
                &&& k@ == sub_key_spec(self.key_bits(), i)
                &&& self@.dom().contains(i)
                &&& forall|j: u64| j < i ==> !#[trigger] self@.dom().contains(j)
            },
            r is None ==> self@.dom().is_empty(),
    {
        match self.first_from_table(0) {
            Some((t, s)) => {
                let k = self.join_key(t, s);
                Some(k)
            },
            None => {
                proof {
                    assert(self@.dom() =~= Set::<u64>::empty()) by {
                        assert forall|j: u64| !#[trigger] self@.dom().contains(j) by {
                            if self.live(j) {
                                lemma_index_parts(j as int, self.slots_len as int);
                            }
                        }
                    }
                }
                None
            },
        }
    }

    /// The key of the least index after that of `key` with an item.
    pub fn next(&self, key: &SubKey<T>) -> (r: Option<SubKey<T>>)
        requires
            self.wf(),
        ensures
            r matches Some(k) ==> {
                let i = sub_key_index_spec(k@, self.key_bits());
                let after = sub_key_index_spec(key@, self.key_bits());
                &&& k@ == sub_key_spec(self.key_bits(), i)
                &&& after < i
                &&& self@.dom().contains(i)
                &&& forall|j: u64| after < j < i ==> !#[trigger] self@.dom().contains(j)
            },
            r is None ==> forall|j: u64|
                sub_key_index_spec(key@, self.key_bits()) < j ==> !#[trigger] self@.dom().contains(j),
    {
        let ghost after = sub_key_index_spec(key@, self.key_len);
        let l = self.slots_len;
        let (t, s) = self.split_key(key);
        proof {
            lemma_index_parts(after as int, l as int);
        }
        if t >= self.tables.len() as u64 {
            proof {
                assert forall|j: u64| after < j implies !#[trigger] self@.dom().contains(j) by {
                    if self.live(j) {
                        lemma_index_parts(j as int, l as int);
                        lemma_index_order(self.table_of(j), self.slot_of(j), t as int, s as int, l as int);
                    }
                }
            }
            return None;
        }
        let tu = t as usize;
        match first_one_from(&self.tables[tu].taken, s + 1) {
            Some(k) => {
                let s2 = s + 1 + k;
                proof {
                    let table = self.tables@[tu as int];
                    assert(bits_of(table.taken)[s2 as int]);
                    lemma_split_join(t as int, s2 as int, l as int);
                    assert(t * l + s2 < self.tables@.len() * l) by (nonlinear_arith)
                        requires
                            t < self.tables@.len(),
                            s2 < l,
                    ;
                    lemma_index_order(t as int, s as int, t as int, s2 as int, l as int);
                    assert forall|j: u64| after < j < t * l + s2 implies !#[trigger] self@.dom().contains(j) by {
                        if self.live(j) {
                            lemma_index_parts(j as int, l as int);
                            lemma_index_order(self.table_of(j), self.slot_of(j), t as int, s as int, l as int);
                            lemma_index_order(self.table_of(j), self.slot_of(j), t as int, s2 as int, l as int);
                            assert(self.table_of(j) == t);
                            assert(bits_of(table.taken)[self.slot_of(j)]);
                        }
                    }
                }
                let r = self.join_key(t, s2);
                Some(r)
            },
            None => {
                match self.first_from_table(tu + 1) {
                    Some((t2, s2)) => {
                        proof {
                            lemma_index_order(t as int, s as int, t2 as int, s2 as int, l as int);
                            assert forall|j: u64| after < j < t2 * l + s2 implies !#[trigger] self@.dom().contains(j) by {
                                if self.live(j) {
                                    lemma_index_parts(j as int, l as int);
                                    lemma_index_order(self.table_of(j), self.slot_of(j), t as int, s as int, l as int);
                                    if self.table_of(j) == t {
                                        assert(bits_of(self.tables@[tu as int].taken)[self.slot_of(j)]);
                                    }
                                }
                            }
                        }
                        let r = self.join_key(t2, s2);
                        Some(r)
                    },
                    None => {
                        proof {
                            assert forall|j: u64| after < j implies !#[trigger] self@.dom().contains(j) by {
                                if self.live(j) {
                                    lemma_index_parts(j as int, l as int);
                                    lemma_index_order(self.table_of(j), self.slot_of(j), t as int, s as int, l as int);
                                    if self.table_of(j) == t {
                                        assert(bits_of(self.tables@[tu as int].taken)[self.slot_of(j)]);
                                    }
                                }
                            }
                        }
                        None
                    },
                }
            },
        }
    }
    /// The raw value of `key`.
    fn raw_key(key: &SubKey<T>) -> (r: u64)
        ensures
            r == key@,
    {
        key.into_key().index().get()
    }

    /// Drops the reservation of `key`, hinting that its table has a free
    /// slot.
    pub fn cancel(&mut self, key: ReservedKey<T>)
        requires
            old(self).wf(),
            old(self).reserved_keys().contains(key@),
        ensures
            final(self).wf(),
            final(self)@ == old(self)@,
            final(self).key_bits() == old(self).key_bits(),
            final(self).slots_per_table() == old(self).slots_per_table(),
            final(self).table_count() == old(self).table_count(),
            final(self).item_count() == old(self).item_count(),
            forall|j: u64| #[trigger] final(self).has_slot(j) == old(self).has_slot(j),
            final(self).reserved_keys().len() + 1 == old(self).reserved_keys().len(),
            final(self).reserved_keys().to_set() == old(self).reserved_keys().to_set().remove(key@),
            final(self).free_hints().to_set() == old(self).free_hints().to_set().insert(
                old(self).table_of(sub_key_index_spec(key@, old(self).key_bits())) as usize,
            ),
    {
        let k = key.take();
        let raw = Self::raw_key(&k);
        let mut at: usize = 0;
        while at < self.reserved.len() && self.reserved[at] != raw
            invariant
                *self == *old(self),
                raw == key@,
                at <= self.reserved@.len(),
                forall|j: int| 0 <= j < at ==> self.reserved@[j] != raw,
            decreases self.reserved@.len() - at,
        {
            at = at + 1;
        }
        if at == self.reserved.len() {
            proof {
                assert(false);
            }
            return;
        }
        let ghost r0 = self.reserved@;
        let ghost i = sub_key_index_spec(key@, self.key_len);
        proof {
            assert(r0[at as int] == raw);
            assert(self.has_slot(i));
        }
        self.reserved.swap_remove(at);
        proof {
            let r1 = self.reserved@;
            assert(r1 == r0.update(at as int, r0.last()).drop_last());
            assert forall|j: int| 0 <= j < r1.len() implies (r1[j] == r0[j] || (j == at && r1[j] == r0.last())) by {}
            assert(r1.no_duplicates()) by {
                assert forall|a: int, b: int| 0 <= a < b < r1.len() implies r1[a] != r1[b] by {
                    if a == at {
                        assert(r0[r0.len() - 1] != r0[b]);
                    } else if b == at {
                        assert(r0[r0.len() - 1] != r0[a]);
                    }
                }
            }
            assert forall|x: u64| #[trigger] r1.to_set().contains(x) <==> r0.to_set().remove(raw).contains(x) by {
                if r1.contains(x) {
                    let j = choose|j: int| 0 <= j < r1.len() && r1[j] == x;
                    if j == at {
                        assert(r0[r0.len() - 1] == x);
                        assert(r0.len() - 1 != at);
                    } else {
                        assert(r0[j] == x);
                        assert(j != at);
                    }
                }
                if r0.contains(x) && x != raw {
                    let j = choose|j: int| 0 <= j < r0.len() && r0[j] == x;
                    if j == r0.len() - 1 {
                        assert(r1[at as int] == x);
                    } else {
                        assert(j != at);
                        assert(r1[j] == x);
                    }
                }
            }
            assert(r1.to_set() =~= r0.to_set().remove(raw));
            assert forall|kk: int| 0 <= kk < r1.len() implies ({
                let r = sub_key_index_spec(#[trigger] r1[kk], self.key_len);
                &&& r1[kk] == sub_key_spec(self.key_len, r)
                &&& 0 < r
                &&& self.has_slot(r)
                &&& !self.live(r)
            }) by {
                if kk == at {
                    assert(r1[kk] == r0[r0.len() - 1]);
                } else {
                    assert(r1[kk] == r0[kk]);
                }
            }
        }
        let (t, _s) = self.split_key(&k);
        let n = self.tables.len();
        let ghost mid = *self;
        self.add_free_hint(t as usize);
        proof {
            let r0 = old(self).reserved@;
            let r1 = self.reserved@;
            assert forall|t2: int, s2: int| #[trigger] self.reservable_at(t2, s2) implies self.free_tables@.contains(
                t2 as usize,
            ) || self.holds_reservation(t2) by {
                if t2 == t as int {
                    assert(self.free_tables@.to_set().contains(t as usize));
                } else {
                    self.lemma_reservable_key(t2, s2);
                    let j = (t2 * self.slots_len + s2) as u64;
                    assert(sub_key_spec(self.key_len, j) != raw);
                    assert(!r1.to_set().contains(sub_key_spec(self.key_len, j)));
                    assert(!r0.to_set().contains(sub_key_spec(self.key_len, j)));
                    assert(old(self).reservable_at(t2, s2));
                    if old(self).free_tables@.contains(t2 as usize) {
                        assert(old(self).free_tables@.to_set().contains(t2 as usize));
                        assert(self.free_tables@.to_set().contains(t2 as usize));
                    } else {
                        assert(old(self).holds_reservation(t2));
                        let kk = choose|kk: int|
                            0 <= kk < r0.len() && old(self).table_of(
                                sub_key_index_spec(#[trigger] r0[kk], old(self).key_len),
                            ) == t2;
                        assert(r0[kk] != raw);
                        assert(r0.to_set().contains(r0[kk]));
                        assert(r1.to_set().contains(r0[kk]));
                        let k2 = choose|k2: int| 0 <= k2 < r1.len() && r1[k2] == r0[kk];
                        assert(self.table_of(sub_key_index_spec(r1[k2], self.key_len)) == t2);
                    }
                }
            }
        }
    }

    /// Puts `item` in the slot reserved for `key`, ending the reservation, and
    /// hands back the key.
    pub fn fulfill(&mut self, key: ReservedKey<T>, item: T) -> (r: SubKey<T>)
        requires
            old(self).wf(),
            old(self).reserved_keys().contains(key@),
            old(self).item_count() < usize::MAX,
        ensures
            final(self).wf(),
            r@ == key@,
            final(self)@ == old(self)@.insert(sub_key_index_spec(key@, old(self).key_bits()), item),
            !old(self)@.dom().contains(sub_key_index_spec(key@, old(self).key_bits())),
            final(self).key_bits() == old(self).key_bits(),
            final(self).slots_per_table() == old(self).slots_per_table(),
            final(self).table_count() == old(self).table_count(),
            final(self).item_count() == old(self).item_count() + 1,
            final(self).reserved_keys().to_set() == old(self).reserved_keys().to_set().remove(key@),
            final(self).free_hints().to_set() == old(self).free_hints().to_set().insert(
                old(self).table_of(sub_key_index_spec(key@, old(self).key_bits())) as usize,
            ),
    {
        let k = key.take();
        let ghost i = sub_key_index_spec(key@, self.key_len);
        proof {
            let j = choose|j: int| 0 <= j < old(self).reserved@.len() && old(self).reserved@[j] == key@;
            assert(old(self).has_slot(i) && !old(self).live(i) && 0 < i);
        }
        self.cancel(ReservedKey::new(k));
        let (t, s) = self.split_key(&k);
        let n = self.tables.len();
        let ghost mid = *self;
        proof {
            assert forall|j: u64| #[trigger] mid.live(j) == old(self).live(j) by {
                assert(mid@.dom().contains(j) == mid.live(j));
                assert(old(self)@.dom().contains(j) == old(self).live(j));
            }
            assert(self.has_slot(i));
            assert(!self.live(i));
            assert(t < self.tables@.len());
        }
        let tu = t as usize;
        let ghost tabs0 = self.tables@;
        let mut table = Table { taken: zeros(0), slots: Vec::new() };
        self.tables.set_and_swap(tu, &mut table);
        let ghost old_table = table;
        proof {
            assert(old_table == tabs0[tu as int]);
            assert(s < old_table.slots@.len());
            assert(old_table.slots@[s as int] is None);
            assert(!bits_of(old_table.taken)[s as int]);
        }
        table.slots.set(s, Some(item));
        set_bit(&mut table.taken, s, true);
        self.tables.set_and_swap(tu, &mut table);
        proof {
            let l = self.slots_len as int;
            let tabs1 = self.tables@;
            let s1 = tabs1[tu as int].slots@;
            assert(s1 == old_table.slots@.update(s as int, Some(item)));
            assert(s1.update(s as int, None) =~= old_table.slots@);
            lemma_some_count_take(s1, s as int);
            lemma_table_items_update(tabs0, tabs1, tu as int, tabs0.len());
            assert forall|u: int| 0 <= u < tabs1.len() && u != tu implies #[trigger] tabs1[u] == tabs0[u] by {}
            lemma_index_parts(i as int, l);
            assert forall|j: u64| #[trigger] self.live(j) <==> (old(self).live(j) || j == i) by {
                assert(mid.live(j) == old(self).live(j));
                lemma_index_parts(j as int, l);
                if self.table_of(j) == tu && self.slot_of(j) == s {
                    assert(j == i);
                }
            }
            assert(self@ =~= old(self)@.insert(i, item)) by {
                assert forall|j: u64| #[trigger] self@.dom().contains(j) implies self@[j] == old(self)@.insert(i, item)[j] by {
                    assert(mid@.dom().contains(j) == mid.live(j));
                    lemma_index_parts(j as int, l);
                    if j != i {
                        assert(mid@[j] == old(self)@[j]);
                    }
                    if self.table_of(j) == tu && j != i {
                        assert(self.slot_of(j) != s);
                    }
                }
            }
            assert forall|kk: int| 0 <= kk < self.reserved@.len() implies ({
                let r = sub_key_index_spec(#[trigger] self.reserved@[kk], self.key_len);
                &&& self.reserved@[kk] == sub_key_spec(self.key_len, r)
                &&& 0 < r
                &&& self.has_slot(r)
                &&& !self.live(r)
            }) by {
                let r = sub_key_index_spec(self.reserved@[kk], self.key_len);
                assert(self.reserved@.to_set().contains(self.reserved@[kk]));
                assert(self.reserved@[kk] != key@);
                if r == i {
                    assert(self.reserved@[kk] == sub_key_spec(self.key_len, i));
                    assert(key@ == sub_key_spec(self.key_len, i));
                }
            }
        }
        self.count = self.count + 1;
        proof {
            let l = self.slots_len as int;
            let tabs1 = self.tables@;
            assert(tabs1.len() == tabs0.len());
            assert forall|tt: int| 0 <= tt < self.tables@.len() implies {
                let table = #[trigger] self.tables@[tt];
                &&& bits_of(table.taken).len() == l
                &&& table.slots@.len() <= l
                &&& forall|ss: int|
                    0 <= ss < l ==> (#[trigger] bits_of(table.taken)[ss] <==> (ss < table.slots@.len()
                        && table.slots@[ss] is Some))
                &&& (tt > 0 || self.tables@.len() > 1) ==> table.slots@.len() == l
            } by {
                if tt != tu {
                    assert(tabs1[tt] == tabs0[tt]);
                }
            }
            assert(self.tables@.len() > 0 ==> self.tables@[0].slots@.len() >= 2 && self.tables@[0].slots@[0] is None) by {
                if tu == 0 {
                    assert(s != 0) by {
                        lemma_index_parts(i as int, l);
                        assert(0 < i);
                        assert(t as int == i as int / l);
                        assert(s as int == i as int % l);
                        assert(0 * l == 0) by (nonlinear_arith);
                    }
                }
            }
            assert(self.count == self.item_count());
            lemma_index_in_key_space(key@, self.key_len);
            lemma_index_parts(i as int, l);
            assert forall|tt: int, ss: int|
                0 <= tt < self.tables@.len() && 0 <= ss < self.tables@[tt].slots@.len()
                    && (#[trigger] self.tables@[tt].slots@[ss]) is Some implies tt * l + ss < pow2(
                    self.key_len as nat,
                ) by {
                if tt != tu {
                    assert(tabs1[tt] == tabs0[tt]);
                    assert(mid.tables@[tt].slots@[ss] is Some);
                } else if ss != s {
                    assert(tabs0[tt].slots@[ss] == self.tables@[tt].slots@[ss]);
                    assert(mid.tables@[tt].slots@[ss] is Some);
                }
            }
            assert forall|t2: int, s2: int| #[trigger] self.reservable_at(t2, s2) implies self.free_tables@.contains(
                t2 as usize,
            ) || self.holds_reservation(t2) by {
                if t2 != tu {
                    assert(tabs1[t2] == tabs0[t2]);
                } else {
                    assert(s2 != s);
                    assert(tabs0[t2].slots@[s2] == self.tables@[t2].slots@[s2]);
                }
                assert(mid.reservable_at(t2, s2));
            }
        }
        k
    }
    /// Reserves a key for an item to come: the first free, unreserved slot of
    /// the table hinted last, dropping hints of tables found without one;
    /// failing that, a new slot: the first table grows by doubling up to a
    /// full table, after which full tables are added. `None` where the key of
    /// that new slot would not fit in the key length.
    pub fn reserve(&mut self) -> (r: Option<ReservedKey<T>>)
        requires
            old(self).wf(),
        ensures
            final(self).wf(),
            final(self)@ == old(self)@,
            final(self).key_bits() == old(self).key_bits(),
            final(self).slots_per_table() == old(self).slots_per_table(),
            final(self).item_count() == old(self).item_count(),
            r matches Some(rk) ==> {
                let i = sub_key_index_spec(rk@, old(self).key_bits());
                &&& rk@ == sub_key_spec(old(self).key_bits(), i)
                &&& 0 < i
                &&& !old(self)@.dom().contains(i)
                &&& !old(self).reserved_keys().contains(rk@)
                &&& final(self).reserved_keys() == old(self).reserved_keys().push(rk@)
                &&& final(self).has_slot(i)
                &&& (exists|h: int|
                    0 <= h < old(self).free_hints().len() && {
                        let t = #[trigger] old(self).free_hints()[h] as int;
                        &&& final(self).free_hints() == old(self).free_hints().take(h + 1)
                        &&& old(self).table_of(i) == t
                        &&& old(self).reservable_at(t, old(self).slot_of(i))
                        &&& forall|s: int| 0 <= s < old(self).slot_of(i) ==> !#[trigger] old(self).reservable_at(t, s)
                        &&& forall|g: int, s: int|
                            h < g < old(self).free_hints().len() ==> !#[trigger] old(self).reservable_at(
                                old(self).free_hints()[g] as int,
                                s,
                            )
                    }) || {
                    &&& final(self).free_hints().len() == 0
                    &&& forall|g: int, s: int|
                        0 <= g < old(self).free_hints().len() ==> !#[trigger] old(self).reservable_at(
                            old(self).free_hints()[g] as int,
                            s,
                        )
                    &&& i == old(self).new_index()
                }
            },
            r matches Some(rk) ==> {
                &&& final(self).table_of(sub_key_index_spec(rk@, old(self).key_bits())) < final(self).table_count()
                &&& final(self).table_count() >= old(self).table_count()
            },
            r is None ==> forall|i: u64|
                0 < i < pow2(old(self).key_bits() as nat) ==> #[trigger] old(self)@.dom().contains(i) || exists|k: int|
                    0 <= k < old(self).reserved_keys().len() && old(self).table_of(
                        sub_key_index_spec(#[trigger] old(self).reserved_keys()[k], old(self).key_bits()),
                    ) == old(self).table_of(i),
            r is None ==> {
                &&& final(self).reserved_keys() == old(self).reserved_keys()
                &&& final(self).table_count() == old(self).table_count()
                &&& old(self).new_index() >= pow2(old(self).key_bits() as nat)
                &&& final(self).free_hints().len() == 0
                &&& forall|g: int, s: int|
                    0 <= g < old(self).free_hints().len() ==> !#[trigger] old(self).reservable_at(
                        old(self).free_hints()[g] as int,
                        s,
                    )
            },
    {
        let l = self.slots_len;
        let n_tables = self.tables.len();
        proof {
            vstd::bits::lemma_u64_pow2_no_overflow(0);
            if self.key_len < 64 {
                vstd::bits::lemma_u64_pow2_no_overflow(self.key_len as nat);
            } else {
                vstd::arithmetic::power2::lemma2_to64();
            }
        }
        while self.free_tables.len() > 0
            invariant
                self.shape(),
                old(self).wf(),
                self@ == old(self)@,
                self.reserved == old(self).reserved,
                self.tables == old(self).tables,
                self.key_len == old(self).key_len,
                self.slots_len == old(self).slots_len,
                self.count == old(self).count,
                l == self.slots_len,
                pow2(self.key_len as nat) <= u64::MAX + 1,
                self.free_tables@ == old(self).free_tables@.take(self.free_tables@.len() as int),
                self.free_tables@.len() <= old(self).free_tables@.len(),
                forall|g: int, s: int|
                    self.free_tables@.len() <= g < old(self).free_tables@.len() ==> !#[trigger] old(
                        self,
                    ).reservable_at(old(self).free_tables@[g] as int, s),
            decreases self.free_tables@.len(),
        {
            let ti = self.free_tables[self.free_tables.len() - 1];
            let slots_count = self.tables[ti].slots.len();
            let mut pos: usize = 0;
            let ghost ft = self.free_tables@;
            while pos < l
                invariant
                    self.free_tables@ == ft,
                    self.shape(),
                    old(self).wf(),
                    self@ == old(self)@,
                    self.reserved == old(self).reserved,
                    self.tables == old(self).tables,
                    self.key_len == old(self).key_len,
                    self.slots_len == old(self).slots_len,
                    self.count == old(self).count,
                    self.free_tables@.len() > 0,
                    l == self.slots_len,
                    pow2(self.key_len as nat) <= u64::MAX + 1,
                    ti == self.free_tables@[self.free_tables@.len() - 1],
                    ti < self.tables@.len(),
                    slots_count == self.tables@[ti as int].slots@.len(),
                    pos <= l,
                    forall|s: int| 0 <= s < pos ==> !#[trigger] self.reservable_at(ti as int, s),
                    ft == old(self).free_tables@.take(ft.len() as int),
                    ft.len() <= old(self).free_tables@.len(),
                    forall|g: int, s: int|
                        ft.len() <= g < old(self).free_tables@.len() ==> !#[trigger] old(
                            self,
                        ).reservable_at(old(self).free_tables@[g] as int, s),
                ensures
                    forall|s: int| !#[trigger] self.reservable_at(ti as int, s),
                decreases l - pos,
            {
                match first_zero_from(&self.tables[ti].taken, pos) {
                    None => {
                        proof {
                            let table = self.tables@[ti as int];
                            assert forall|s: int| !#[trigger] self.reservable_at(ti as int, s) by {
                                if pos <= s < l {
                                    assert(bits_of(table.taken)[s]);
                                }
                            }
                        }
                        break;
                    },
                    Some(off) => {
                        let s = pos + off;
                        proof {
                            let table = self.tables@[ti as int];
                            assert forall|s2: int| pos <= s2 < s implies !#[trigger] self.reservable_at(ti as int, s2) by {
                                assert(bits_of(table.taken)[s2]);
                            }
                        }
                        if s >= slots_count {
                            proof {
                                assert forall|s2: int| !#[trigger] self.reservable_at(ti as int, s2) by {
                                    if pos <= s2 < s {
                                    }
                                }
                            }
                            break;
                        }
                        if ti > 0 || s > 0 {
                            proof {
                                assert(ti * l + s < self.tables@.len() * l) by (nonlinear_arith)
                                    requires
                                        ti < self.tables@.len(),
                                        s < l,
                                ;
                                assert(0 <= ti * l) by (nonlinear_arith)
                                    requires
                                        0 <= ti,
                                        0 <= l,
                                ;
                                assert(0 < ti * l + s) by (nonlinear_arith)
                                    requires
                                        ti > 0 || s > 0,
                                        l >= 2,
                                        0 <= ti,
                                        0 <= s,
                                ;
                            }
                            proof {
                                assert(ti * l + s < 0x1_0000_0000_0000_0000 * 0x1_0000_0000_0000_0000) by (nonlinear_arith)
                                    requires
                                        ti <= 0xFFFF_FFFF_FFFF_FFFF,
                                        l <= 0xFFFF_FFFF_FFFF_FFFF,
                                        s < l,
                                ;
                            }
                            let wide: u128 = (ti as u128) * (l as u128) + (s as u128);
                            if exceeds_key_space(wide, self.key_len) {
                                proof {
                                    assert forall|s2: int| !#[trigger] self.reservable_at(ti as int, s2) by {
                                        if s <= s2 {
                                            assert(ti * l + s <= ti * l + s2);
                                        }
                                    }
                                }
                                break;
                            }
                            let idx: u64 = wide as u64;
                            let k = self.join_key(ti as u64, s);
                            let raw = Self::raw_key(&k);
                            if !holds(&self.reserved, raw) {
                                let ghost i = idx;
                                proof {
                                    let table = self.tables@[ti as int];
                                    assert(!bits_of(table.taken)[s as int]);
                                    lemma_split_join(ti as int, s as int, l as int);
                                    assert(self.table_of(i) == ti && self.slot_of(i) == s);
                                    assert(!self.live(i));
                                    assert(self.has_slot(i));
                                    assert(!self@.dom().contains(i));
                                    assert(old(self).reservable_at(ti as int, s as int));
                                    assert forall|s2: int| 0 <= s2 < s implies !#[trigger] old(self).reservable_at(ti as int, s2) by {
                                        assert(!self.reservable_at(ti as int, s2));
                                    }
                                    let h = self.free_tables@.len() - 1;
                                    assert(old(self).free_hints()[h] == ti);
                                    assert(self.free_tables@ =~= old(self).free_hints().take(h + 1));
                                }
                                self.reserved.push(raw);
                                proof {
                                    assert forall|kk: int| 0 <= kk < self.reserved@.len() implies ({
                                        let r = sub_key_index_spec(#[trigger] self.reserved@[kk], self.key_len);
                                        &&& self.reserved@[kk] == sub_key_spec(self.key_len, r)
                                        &&& 0 < r
                                        &&& self.has_slot(r)
                                        &&& !self.live(r)
                                    }) by {
                                        if kk < old(self).reserved@.len() {
                                            assert(self.reserved@[kk] == old(self).reserved@[kk]);
                                        }
                                    }
                                }
                                proof {
                                    assert forall|t2: int, s2: int| #[trigger] self.reservable_at(t2, s2) implies self.free_tables@.contains(
                                        t2 as usize,
                                    ) || self.holds_reservation(t2) by {
                                        if old(self).reserved@.contains(sub_key_spec(self.key_len, (t2 * self.slots_len + s2) as u64)) {
                                            let kk = choose|kk: int| 0 <= kk < old(self).reserved@.len() && old(self).reserved@[kk] == sub_key_spec(self.key_len, (t2 * self.slots_len + s2) as u64);
                                            assert(self.reserved@[kk] == old(self).reserved@[kk]);
                                        }
                                        assert(old(self).reservable_at(t2, s2));
                                        if old(self).free_tables@.contains(t2 as usize) {
                                            let g = choose|g: int| 0 <= g < old(self).free_tables@.len() && old(self).free_tables@[g] == t2 as usize;
                                            if g < self.free_tables@.len() {
                                                assert(self.free_tables@ == old(self).free_tables@.take(self.free_tables@.len() as int));
                                                assert(self.free_tables@[g] == old(self).free_tables@[g]);
                                                assert(self.free_tables@[g] == t2 as usize);
                                                assert(self.free_tables@.contains(t2 as usize));
                                            } else {
                                                assert(0 <= t2 < old(self).tables@.len());
                                                assert(old(self).tables@.len() == old(self).tables.len());
                                                assert(old(self).free_tables@[g] as int == t2);
                                                assert(!old(self).reservable_at(old(self).free_tables@[g] as int, s2));
                                            }
                                        } else {
                                            let kk = choose|kk: int|
                                                0 <= kk < old(self).reserved@.len() && old(self).table_of(
                                                    sub_key_index_spec(#[trigger] old(self).reserved@[kk], old(self).key_len),
                                                ) == t2;
                                            assert(self.reserved@[kk] == old(self).reserved@[kk]);
                                            assert(self.holds_reservation(t2));
                                        }
                                    }
                                }
                                return Some(ReservedKey::new(k));
                            }
                            proof {
                                assert(self.reserved@.contains(raw));
                                assert(!self.reservable_at(ti as int, s as int));
                            }
                        }
                        proof {
                            if !(ti > 0 || s > 0) {
                                assert(!self.reservable_at(ti as int, s as int));
                            }
                        }
                        pos = s + 1;
                    },
                }
            }
            let ghost f0 = self.free_tables@;
            let ghost scanned = *self;
            self.free_tables.pop();
            proof {
                assert(self.free_tables@ =~= f0.drop_last());
                assert(self.free_tables@ =~= old(self).free_tables@.take(self.free_tables@.len() as int));
                assert(old(self).free_tables@[self.free_tables@.len() as int] == ti);
                assert forall|g: int, s: int|
                    self.free_tables@.len() <= g < old(self).free_tables@.len() implies !#[trigger] old(self).reservable_at(old(self).free_tables@[g] as int, s) by {
                    if g == self.free_tables@.len() {
                        assert(!scanned.reservable_at(ti as int, s));
                    }
                }
            }
        }
        let table_index = self.tables.len();
        proof {
            assert(table_index * l <= 0xFFFF_FFFF_FFFF_FFFF * 0xFFFF_FFFF_FFFF_FFFF) by (nonlinear_arith)
                requires
                    table_index <= 0xFFFF_FFFF_FFFF_FFFF,
                    l <= 0xFFFF_FFFF_FFFF_FFFF,
            ;
        }
        let new_index: u128 = if table_index == 0 {
            1
        } else if self.tables[0].slots.len() < l {
            self.tables[0].slots.len() as u128
        } else {
            (table_index as u128) * (l as u128)
        };
        if exceeds_key_space(new_index, self.key_len) {
            proof {
                let l = self.slots_len as int;
                assert(old(self).new_index() >= pow2(old(self).key_bits() as nat));
                assert forall|i: u64| 0 < i < pow2(old(self).key_bits() as nat) implies old(self)@.dom().contains(i) || exists|k: int|
                    0 <= k < old(self).reserved_keys().len() && old(self).table_of(
                        sub_key_index_spec(#[trigger] old(self).reserved_keys()[k], old(self).key_bits()),
                    ) == old(self).table_of(i) by {
                    old(self).lemma_slot_below_new_index(i);
                    if !old(self).live(i) {
                        let t = old(self).table_of(i);
                        let s = old(self).slot_of(i);
                        lemma_index_parts(i as int, l);
                        assert(t * l + s == i);
                        lemma_join_key(i, self.key_len);
                        if old(self).reserved@.contains(sub_key_spec(self.key_len, i)) {
                            let kk = choose|kk: int| 0 <= kk < old(self).reserved@.len() && old(self).reserved@[kk] == sub_key_spec(self.key_len, i);
                            assert(old(self).reserved_keys()[kk] == sub_key_spec(self.key_len, i));
                        } else {
                            assert(old(self).reservable_at(t, s));
                            if old(self).free_tables@.contains(t as usize) {
                                let g = choose|g: int| 0 <= g < old(self).free_tables@.len() && old(self).free_tables@[g] == t as usize;
                                assert(old(self).tables@.len() == old(self).tables.len());
                                assert(old(self).free_tables@[g] as int == t);
                                assert(!old(self).reservable_at(old(self).free_tables@[g] as int, s));
                            }
                            assert(old(self).holds_reservation(t));
                            let kk = choose|kk: int|
                                0 <= kk < old(self).reserved@.len() && old(self).table_of(
                                    sub_key_index_spec(#[trigger] old(self).reserved@[kk], old(self).key_len),
                                ) == t;
                            assert(old(self).reserved_keys()[kk] == old(self).reserved@[kk]);
                        }
                    }
                }
                assert forall|t2: int, s2: int| #[trigger] self.reservable_at(t2, s2) implies self.free_tables@.contains(
                    t2 as usize,
                ) || self.holds_reservation(t2) by {
                    assert(old(self).reservable_at(t2, s2));
                    if old(self).free_tables@.contains(t2 as usize) {
                        let g = choose|g: int| 0 <= g < old(self).free_tables@.len() && old(self).free_tables@[g] == t2 as usize;
                        assert(!old(self).reservable_at(old(self).free_tables@[g] as int, s2));
                    }
                }
            }
            return None;
        }
        let ghost tabs0 = self.tables@;
        let ghost v0 = self@;
        let ghost i: u64;
        let key: SubKey<T> = if table_index > 0 {
            let len = self.tables[0].slots.len();
            if len < l {
                let new_len = if len <= l / 2 {
                    len * 2
                } else {
                    l
                };
                let mut table = Table { taken: zeros(0), slots: Vec::new() };
                self.tables.set_and_swap(0, &mut table);
                let ghost old_table = table;
                grow_slots(&mut table.slots, new_len);
                self.tables.set_and_swap(0, &mut table);
                proof {
                    i = len as u64;
                    lemma_split_join(0, len as int, l as int);
                    assert(self.table_of(i) == 0 && self.slot_of(i) == len);
                    let tabs1 = self.tables@;
                    assert(old_table == tabs0[0]);
                    assert(tabs0.len() == 1);
                    lemma_table_items_update(tabs0, tabs1, 0, tabs0.len());
                    assert forall|tt: int| 0 <= tt < self.tables@.len() implies {
                        let table = #[trigger] self.tables@[tt];
                        &&& bits_of(table.taken).len() == l
                        &&& table.slots@.len() <= l
                        &&& forall|ss: int|
                            0 <= ss < l ==> (#[trigger] bits_of(table.taken)[ss] <==> (ss < table.slots@.len()
                                && table.slots@[ss] is Some))
                        &&& (tt > 0 || self.tables@.len() > 1) ==> table.slots@.len() == l
                    } by {
                        assert(tt == 0);
                        assert forall|ss: int| 0 <= ss < l implies (#[trigger] bits_of(self.tables@[tt].taken)[ss] <==> (ss < self.tables@[tt].slots@.len() && self.tables@[tt].slots@[ss] is Some)) by {
                            assert(bits_of(old_table.taken)[ss] <==> (ss < old_table.slots@.len() && old_table.slots@[ss] is Some));
                        }
                    }
                    assert forall|j: u64| #[trigger] self.live(j) == old(self).live(j) by {
                        if self.has_slot(j) && self.table_of(j) == 0 && self.slot_of(j) >= len {
                            assert(self.tables@[0].slots@[self.slot_of(j)] is None);
                        }
                    }
                    assert forall|j: u64| #[trigger] old(self).has_slot(j) implies self.has_slot(j) by {}
                    assert(self@ =~= v0);
                    assert(l <= self.tables@.len() * l) by (nonlinear_arith)
                        requires
                            self.tables@.len() >= 1,
                            l >= 0,
                    ;
                    assert(0 * (l as int) + len == len);
                }
                self.join_key(0, len)
            } else {
                let slots = {
                    let mut v: Vec<Option<T>> = Vec::new();
                    grow_slots(&mut v, l);
                    v
                };
                proof {
                    lemma_some_count_none(slots@);
                }
                let ghost before = *self;
                self.tables.push(Table { taken: zeros(l), slots });
                proof {
                    i = (table_index * l) as u64;
                    lemma_pushed_table(before, *self);
                    lemma_split_join(table_index as int, 0, l as int);
                    assert(self.table_of(i) == table_index as int && self.slot_of(i) == 0);
                }
                self.join_key(table_index as u64, 0)
            }
        } else {
            let start = if l / 16 >= 2 {
                l / 16
            } else {
                2
            };
            let slots = {
                let mut v: Vec<Option<T>> = Vec::new();
                grow_slots(&mut v, start);
                v
            };
            proof {
                lemma_some_count_none(slots@);
            }
            let ghost before = *self;
            self.tables.push(Table { taken: zeros(l), slots });
            proof {
                i = 1;
                lemma_pushed_table(before, *self);
                lemma_split_join(0, 1, l as int);
                assert(self.table_of(i) == 0 && self.slot_of(i) == 1);
                assert(self.tables@.len() * (l as int) == l) by (nonlinear_arith)
                    requires
                        self.tables@.len() == 1,
                ;
                assert(0 * (l as int) + 1 == 1);
            }
            self.join_key(0, 1)
        };
        let raw = Self::raw_key(&key);
        proof {
            assert(!self.live(i));
            assert(self.has_slot(i));
            assert(!old(self).has_slot(i));
            assert(!old(self).reserved@.contains(raw)) by {
                if old(self).reserved@.contains(raw) {
                    let kk = choose|kk: int| 0 <= kk < old(self).reserved@.len() && old(self).reserved@[kk] == raw;
                    assert(sub_key_index_spec(old(self).reserved@[kk], self.key_len) == i);
                }
            }
        }
        self.reserved.push(raw);
        proof {
            assert forall|kk: int| 0 <= kk < self.reserved@.len() implies ({
                let r = sub_key_index_spec(#[trigger] self.reserved@[kk], self.key_len);
                &&& self.reserved@[kk] == sub_key_spec(self.key_len, r)
                &&& 0 < r
                &&& self.has_slot(r)
                &&& !self.live(r)
            }) by {
                if kk < old(self).reserved@.len() {
                    assert(self.reserved@[kk] == old(self).reserved@[kk]);
                }
            }
        }
        proof {
            assert forall|t2: int, s2: int| #[trigger] self.reservable_at(t2, s2) implies self.free_tables@.contains(
                t2 as usize,
            ) || self.holds_reservation(t2) by {
                let last = self.reserved@.len() - 1;
                assert(self.reserved@[last] == raw);
                if t2 == self.table_of(i) {
                    assert(sub_key_index_spec(raw, self.key_len) == i);
                } else {
                    assert(t2 < old(self).tables@.len());
                    assert(self.tables@[t2] == old(self).tables@[t2]);
                    if old(self).reserved@.contains(sub_key_spec(self.key_len, (t2 * self.slots_len + s2) as u64)) {
                        let kk = choose|kk: int| 0 <= kk < old(self).reserved@.len() && old(self).reserved@[kk] == sub_key_spec(self.key_len, (t2 * self.slots_len + s2) as u64);
                        assert(self.reserved@[kk] == old(self).reserved@[kk]);
                    }
                    assert(old(self).reservable_at(t2, s2));
                    if old(self).free_tables@.contains(t2 as usize) {
                        let g = choose|g: int| 0 <= g < old(self).free_tables@.len() && old(self).free_tables@[g] == t2 as usize;
                        assert(!old(self).reservable_at(old(self).free_tables@[g] as int, s2));
                    } else {
                        let kk = choose|kk: int|
                            0 <= kk < old(self).reserved@.len() && old(self).table_of(
                                sub_key_index_spec(#[trigger] old(self).reserved@[kk], old(self).key_len),
                            ) == t2;
                        assert(self.reserved@[kk] == old(self).reserved@[kk]);
                    }
                }
            }
        }
        Some(ReservedKey::new(key))
    }
}

} // verus!
