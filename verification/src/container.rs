//! Leaf containers: a vector of slots that reuses freed slots, and a
//! container of one item; and wrappers that pair containers or attach data.

use std::marker::PhantomData;
use vstd::prelude::*;

verus! {

/// A bound of a range of slot indices.
pub enum Bound {
    Included(usize),
    Excluded(usize),
    Unbounded,
}

/// First index a range with start bound `b` covers.
pub open spec fn start_index(b: Bound) -> nat {
    match b {
        Bound::Included(i) => i as nat,
        Bound::Excluded(i) => if i == usize::MAX {
            usize::MAX as nat
        } else {
            (i + 1) as nat
        },
        Bound::Unbounded => 0,
    }
}

/// Index past the last one a range with end bound `b` covers, among `len`
/// slots.
pub open spec fn end_index(b: Bound, len: nat) -> nat {
    let e = match b {
        Bound::Included(i) => if i == usize::MAX {
            usize::MAX as nat
        } else {
            (i + 1) as nat
        },
        Bound::Excluded(i) => i as nat,
        Bound::Unbounded => len,
    };
    if e <= len {
        e
    } else {
        len
    }
}

/// Index `i` lies at or after a range's start bound exactly as the bound
/// says: at or after an included bound, after an excluded one, anywhere for
/// no bound.
pub open spec fn after_start(b: Bound, i: usize) -> bool {
    match b {
        Bound::Included(s) => s <= i,
        Bound::Excluded(s) => s < i,
        Bound::Unbounded => true,
    }
}

/// Index `i` lies at or before a range's end bound exactly as the bound
/// says: at or before an included bound, before an excluded one, anywhere
/// for no bound.
pub open spec fn before_end(b: Bound, i: usize) -> bool {
    match b {
        Bound::Included(e) => i <= e,
        Bound::Excluded(e) => i < e,
        Bound::Unbounded => true,
    }
}

/// A range covers a slot index below `len` exactly where the index is within
/// both bounds: an included end bound covers its own index, an excluded one
/// does not, and likewise for the start.
pub proof fn lemma_range_covers(start: Bound, end: Bound, len: nat, i: usize)
    requires
        i < len <= usize::MAX,
    ensures
        (start_index(start) <= i) == after_start(start, i),
        (i < end_index(end, len)) == before_end(end, i),
        end matches Bound::Included(e) ==> (e < len ==> end_index(end, len) == e + 1),
        end matches Bound::Excluded(e) ==> (e <= len ==> end_index(end, len) == e),
        start matches Bound::Excluded(s) ==> (s < usize::MAX ==> start_index(start) == s + 1),
{
}

/// A slot of a `VecContainer`: an item, or free with the next free slot.
pub enum Slot<T> {
    Free(Option<usize>),
    Taken(T),
}

/// Number of taken slots in `s`.
pub open spec fn taken_count<T>(s: Seq<Slot<T>>) -> nat
    decreases s.len(),
{
    if s.len() == 0 {
        0
    } else {
        taken_count(s.drop_last()) + if s.last() is Taken {
            1nat
        } else {
            0nat
        }
    }
}

/// Replacing a slot changes the count by what left and what came.
pub proof fn lemma_taken_count_update<T>(s: Seq<Slot<T>>, i: int, x: Slot<T>)
    requires
        0 <= i < s.len(),
    ensures
        taken_count(s.update(i, x)) + (if s[i] is Taken { 1nat } else { 0nat }) == taken_count(s)
            + (if x is Taken { 1nat } else { 0nat }),
    decreases s.len(),
{
    if i == s.len() - 1 {
        assert(s.update(i, x).drop_last() =~= s.drop_last());
    } else {
        assert(s.update(i, x).drop_last() =~= s.drop_last().update(i, x));
        lemma_taken_count_update(s.drop_last(), i, x);
    }
}

/// No slot counts more than the slots there are; none counts where none is
/// taken.
pub proof fn lemma_taken_count_bounds<T>(s: Seq<Slot<T>>)
    ensures
        taken_count(s) <= s.len(),
        taken_count(s) == 0 <==> forall|i: int| 0 <= i < s.len() ==> !(#[trigger] s[i] is Taken),
    decreases s.len(),
{
    if s.len() > 0 {
        lemma_taken_count_bounds(s.drop_last());
        if taken_count(s) == 0 {
            assert forall|i: int| 0 <= i < s.len() implies !(#[trigger] s[i] is Taken) by {
                if i < s.len() - 1 {
                    assert(s.drop_last()[i] == s[i]);
                }
            }
        } else if forall|i: int| 0 <= i < s.len() ==> !(#[trigger] s[i] is Taken) {
            assert forall|i: int| 0 <= i < s.drop_last().len() implies !(#[trigger] s.drop_last()[i] is Taken) by {
                assert(s.drop_last()[i] == s[i]);
            }
            assert(!(s[s.len() - 1] is Taken));
        }
    }
}

/// Where every slot but the first is taken, all but one count.
proof fn lemma_taken_all<T>(s: Seq<Slot<T>>)
    requires
        s.len() >= 1,
        s[0] is Free,
        forall|i: int| 0 < i < s.len() ==> #[trigger] s[i] is Taken,
    ensures
        taken_count(s) + 1 == s.len(),
    decreases s.len(),
{
    if s.len() > 1 {
        assert forall|i: int| 0 < i < s.drop_last().len() implies #[trigger] s.drop_last()[i] is Taken by {
            assert(s.drop_last()[i] == s[i]);
        }
        lemma_taken_all(s.drop_last());
        assert(s.last() is Taken);
    } else {
        assert(taken_count(s.drop_last()) == 0);
    }
}

/// A vector of slots of items of one type. A freed slot is reused before the
/// vector grows; slot zero is never used, and indices stay below a limit.
pub struct VecContainer<T> {
    limit: usize,
    slots: Vec<Slot<T>>,
    free_head: Option<usize>,
    count: usize,
    chain: Ghost<Seq<usize>>,
}

impl<T> View for VecContainer<T> {
    type V = Map<usize, T>;

    /// The items, by slot index.
    closed spec fn view(&self) -> Map<usize, T> {
        Map::new(
            |i: usize| 0 < i < self.slots@.len() && self.slots@[i as int] is Taken,
            |i: usize| self.slots@[i as int]->Taken_0,
        )
    }
}

impl<T> VecContainer<T> {
    /// Indices stay below this.
    pub closed spec fn limit_spec(&self) -> usize {
        self.limit
    }

    /// Number of slots, slot zero included.
    pub closed spec fn slot_count(&self) -> nat {
        self.slots@.len()
    }

    /// The free slots, most recently freed first.
    pub closed spec fn free_chain(&self) -> Seq<usize> {
        self.chain@
    }

    /// The index the next successful `fill` takes: the last freed slot, or a
    /// new one at the end.
    pub open spec fn next_index(&self) -> usize {
        if self.free_chain().len() > 0 {
            self.free_chain()[0]
        } else {
            self.slot_count() as usize
        }
    }

    /// Number of items.
    pub closed spec fn item_count(&self) -> nat {
        taken_count(self.slots@)
    }

    /// The slots are well formed: slot zero is free and unused, and the free
    /// slots are exactly the chain from the head, each pointing at the next.
    pub closed spec fn wf(&self) -> bool {
        let chain = self.chain@;
        &&& 1 <= self.slots@.len()
        &&& self.slots@[0] is Free
        &&& chain.no_duplicates()
        &&& forall|k: int|
            0 <= k < chain.len() ==> 0 < #[trigger] chain[k] < self.slots@.len() && self.slots@[chain[k] as int]
                == Slot::<T>::Free(if k + 1 < chain.len() { Some(chain[k + 1]) } else { None })
        &&& self.free_head == if chain.len() > 0 {
            Some(chain[0])
        } else {
            None
        }
        &&& forall|i: int|
            0 < i < self.slots@.len() && #[trigger] self.slots@[i] is Free ==> chain.contains(i as usize)
        &&& self.count == taken_count(self.slots@)
    }

    /// Where no slot is free, every slot but slot zero holds an item.
    pub proof fn lemma_full(&self)
        requires
            self.wf(),
        ensures
            self.next_index() == self.slot_count() ==> self.item_count() + 1 == self.slot_count(),
    {
        if self.chain@.len() > 0 {
            assert(self.chain@[0] < self.slots@.len());
        } else {
            assert forall|i: int| 0 < i < self.slots@.len() implies #[trigger] self.slots@[i] is Taken by {
                if self.slots@[i] is Free {
                    assert(self.chain@.contains(i as usize));
                }
            }
            lemma_taken_all(self.slots@);
        }
    }

    /// An empty container whose indices stay below `limit`.
    pub fn new(limit: usize) -> (r: Self)
        ensures
            r.wf(),
            r@ == Map::<usize, T>::empty(),
            r.limit_spec() == limit,
            r.next_index() == 1,
            r.item_count() == 0,
            r.slot_count() == 1,
            r.free_chain().len() == 0,
    {
        let mut slots: Vec<Slot<T>> = Vec::new();
        slots.push(Slot::Free(None));
        let r = VecContainer { limit, slots, free_head: None, count: 0, chain: Ghost(Seq::empty()) };
        proof {
            assert(taken_count(r.slots@.drop_last()) == 0);
            assert(r@ =~= Map::<usize, T>::empty());
        }
        r
    }

    /// Number of items.
    pub fn len(&self) -> (r: usize)
        requires
            self.wf(),
        ensures
            r == self.item_count(),
    {
        self.count
    }

    /// True where there is no item.
    pub fn is_empty(&self) -> (r: bool)
        requires
            self.wf(),
        ensures
            r <==> self@.dom().is_empty(),
    {
        let n = self.slots.len();
        proof {
            lemma_taken_count_bounds(self.slots@);
            if self.count == 0 {
                assert(self@.dom() =~= Set::<usize>::empty());
            } else {
                let i = choose|i: int| 0 <= i < self.slots@.len() && #[trigger] self.slots@[i] is Taken;
                assert(i != 0);
                assert(self@.dom().contains(i as usize));
            }
        }
        self.count == 0
    }

    /// Puts `item` in the last freed slot, or in a new slot at the end where
    /// none is free and the index stays below the limit; fails, handing
    /// `item` back, where neither holds.
    pub fn fill(&mut self, item: T) -> (r: Result<usize, T>)
        requires
            old(self).wf(),
        ensures
            final(self).wf(),
            final(self).limit_spec() == old(self).limit_spec(),
            r is Ok <==> (old(self).next_index() < old(self).slot_count() || old(self).slot_count()
                < old(self).limit_spec()),
            r matches Ok(i) ==> {
                &&& i == old(self).next_index()
                &&& 0 < i
                &&& !old(self)@.dom().contains(i)
                &&& final(self)@ == old(self)@.insert(i, item)
                &&& final(self).item_count() == old(self).item_count() + 1
                &&& if old(self).free_chain().len() > 0 {
                    &&& final(self).free_chain() == old(self).free_chain().drop_first()
                    &&& final(self).slot_count() == old(self).slot_count()
                } else {
                    &&& final(self).free_chain().len() == 0
                    &&& final(self).slot_count() == old(self).slot_count() + 1
                }
            },
            r matches Err(back) ==> back == item && *final(self) == *old(self),
    {
        proof {
            lemma_taken_count_bounds(self.slots@);
        }
        let ghost chain = self.chain@;
        let slots_len = self.slots.len();
        match self.free_head {
            Some(index) => {
                let ghost s0 = self.slots@;
                let mut slot = Slot::Taken(item);
                self.slots.set_and_swap(index, &mut slot);
                match slot {
                    Slot::Free(next) => {
                        proof {
                            lemma_taken_count_update(s0, index as int, Slot::Taken(item));
                            lemma_taken_count_bounds(self.slots@);
                            assert(chain[0] == index);
                        }
                        self.count = self.count + 1;
                        self.free_head = next;
                        self.chain = Ghost(chain.drop_first());
                        proof {
                            let c2 = self.chain@;
                            assert forall|k: int| 0 <= k < c2.len() implies 0 < #[trigger] c2[k] < self.slots@.len() && self.slots@[c2[k] as int] == Slot::<T>::Free(if k + 1 < c2.len() { Some(c2[k + 1]) } else { None }) by {
                                assert(c2[k] == chain[k + 1]);
                                assert(chain[k + 1] != chain[0]);
                            }
                            assert forall|i: int| 0 < i < self.slots@.len() && #[trigger] self.slots@[i] is Free implies c2.contains(i as usize) by {
                                assert(i != index);
                                assert(chain.contains(i as usize));
                                let k = choose|k: int| 0 <= k < chain.len() && chain[k] == i as usize;
                                assert(k != 0);
                                assert(c2[k - 1] == i as usize);
                            }
                            assert(self@ =~= old(self)@.insert(index, item));
                        }
                        Ok(index)
                    },
                    Slot::Taken(_) => {
                        proof {
                            assert(false);
                        }
                        Ok(index)
                    },
                }
            },
            None => {
                let index = self.slots.len();
                if index < self.limit {
                    let ghost s0 = self.slots@;
                    self.slots.push(Slot::Taken(item));
                    proof {
                        assert(self.slots@.drop_last() =~= s0);
                        assert(index + 1 <= usize::MAX);
                    }
                    self.count = self.count + 1;
                    proof {
                        assert forall|k: int| 0 <= k < chain.len() implies 0 < #[trigger] chain[k] < self.slots@.len() && self.slots@[chain[k] as int] == Slot::<T>::Free(if k + 1 < chain.len() { Some(chain[k + 1]) } else { None }) by {}
                        assert forall|i: int| 0 < i < self.slots@.len() && #[trigger] self.slots@[i] is Free implies chain.contains(i as usize) by {
                            assert(i < s0.len());
                            assert(s0[i] is Free);
                        }
                        assert(self@ =~= old(self)@.insert(index, item));
                    }
                    Ok(index)
                } else {
                    Err(item)
                }
            },
        }
    }

    /// Takes the item out of slot `index`, freeing the slot for the next
    /// `fill`; `None`, changing nothing, where no item is there.
    pub fn unfill(&mut self, index: usize) -> (r: Option<T>)
        requires
            old(self).wf(),
        ensures
            final(self).wf(),
            final(self).limit_spec() == old(self).limit_spec(),
            final(self).slot_count() == old(self).slot_count(),
            r is Some <==> old(self)@.dom().contains(index),
            r matches Some(it) ==> {
                &&& it == old(self)@[index]
                &&& final(self)@ == old(self)@.remove(index)
                &&& final(self).next_index() == index
                &&& final(self).free_chain() == seq![index] + old(self).free_chain()
                &&& final(self).item_count() + 1 == old(self).item_count()
            },
            r is None ==> *final(self) == *old(self),
    {
        if index == 0 || index >= self.slots.len() {
            return None;
        }
        let ghost chain = self.chain@;
        let ghost s0 = self.slots@;
        let is_taken = match &self.slots[index] {
            Slot::Taken(_) => true,
            Slot::Free(_) => false,
        };
        if !is_taken {
            return None;
        }
        let mut slot = Slot::Free(self.free_head);
        self.slots.set_and_swap(index, &mut slot);
        match slot {
            Slot::Taken(item) => {
                proof {
                    lemma_taken_count_update(s0, index as int, Slot::Free(old(self).free_head));
                    assert(!chain.contains(index));
                }
                self.count = self.count - 1;
                self.free_head = Some(index);
                self.chain = Ghost(seq![index] + chain);
                proof {
                    let c2 = self.chain@;
                    assert forall|k: int| 0 <= k < c2.len() implies 0 < #[trigger] c2[k] < self.slots@.len() && self.slots@[c2[k] as int] == Slot::<T>::Free(if k + 1 < c2.len() { Some(c2[k + 1]) } else { None }) by {
                        if k > 0 {
                            assert(c2[k] == chain[k - 1]);
                            assert(chain[k - 1] != index);
                        }
                    }
                    assert(c2.no_duplicates()) by {
                        assert forall|a: int, b: int| 0 <= a < b < c2.len() implies c2[a] != c2[b] by {
                            if a > 0 {
                                assert(c2[a] == chain[a - 1]);
                            }
                            assert(c2[b] == chain[b - 1]);
                        }
                    }
                    assert forall|i: int| 0 < i < self.slots@.len() && #[trigger] self.slots@[i] is Free implies c2.contains(i as usize) by {
                        if i == index {
                            assert(c2[0] == index);
                        } else {
                            assert(chain.contains(i as usize));
                            let k = choose|k: int| 0 <= k < chain.len() && chain[k] == i as usize;
                            assert(c2[k + 1] == i as usize);
                        }
                    }
                    assert(self@ =~= old(self)@.remove(index));
                }
                Some(item)
            },
            Slot::Free(_) => {
                proof {
                    assert(false);
                }
                None
            },
        }
    }

    /// The item in slot `index`, if any.
    pub fn get(&self, index: usize) -> (r: Option<&T>)
        requires
            self.wf(),
        ensures
            r is Some <==> self@.dom().contains(index),
            r matches Some(it) ==> *it == self@[index],
    {
        if index == 0 || index >= self.slots.len() {
            return None;
        }
        match &self.slots[index] {
            Slot::Taken(it) => Some(it),
            Slot::Free(_) => None,
        }
    }

    /// True where slot `index` holds an item.
    pub fn contains(&self, index: usize) -> (r: bool)
        requires
            self.wf(),
        ensures
            r == self@.dom().contains(index),
    {
        self.get(index).is_some()
    }

    /// The least index from `start` on that holds an item.
    fn first_from(&self, start: usize) -> (r: Option<usize>)
        requires
            self.wf(),
        ensures
            r matches Some(i) ==> start <= i && self@.dom().contains(i) && forall|j: usize|
                start <= j < i ==> !#[trigger] self@.dom().contains(j),
            r is None ==> forall|j: usize| start <= j ==> !#[trigger] self@.dom().contains(j),
    {
        let mut i = start;
        while i < self.slots.len()
            invariant
                self.wf(),
                start <= i,
                forall|j: usize| start <= j < i ==> !#[trigger] self@.dom().contains(j),
            decreases self.slots@.len() - i,
        {
            if i > 0 {
                if let Slot::Taken(_) = &self.slots[i] {
                    return Some(i);
                }
            }
            i = i + 1;
        }
        None
    }

    /// The least index that holds an item.
    pub fn first(&self) -> (r: Option<usize>)
        requires
            self.wf(),
        ensures
            r matches Some(i) ==> self@.dom().contains(i) && forall|j: usize|
                j < i ==> !#[trigger] self@.dom().contains(j),
            r is None ==> self@.dom().is_empty(),
    {
        let r = self.first_from(1);
        proof {
            assert(!self@.dom().contains(0));
            if r is None {
                assert(self@.dom() =~= Set::<usize>::empty());
            }
        }
        r
    }

    /// The least index after `after` that holds an item.
    pub fn next(&self, after: usize) -> (r: Option<usize>)
        requires
            self.wf(),
        ensures
            r matches Some(i) ==> after < i && self@.dom().contains(i) && forall|j: usize|
                after < j < i ==> !#[trigger] self@.dom().contains(j),
            r is None ==> forall|j: usize| after < j ==> !#[trigger] self@.dom().contains(j),
    {
        if after >= self.slots.len() {
            return None;
        }
        self.first_from(after + 1)
    }

    /// Takes every item out, ascending by index, each with its index.
    pub fn clear(&mut self) -> (r: Vec<(usize, T)>)
        requires
            old(self).wf(),
        ensures
            final(self).wf(),
            final(self)@ == Map::<usize, T>::empty(),
            final(self).limit_spec() == old(self).limit_spec(),
            forall|a: int, b: int| 0 <= a < b < r@.len() ==> r@[a].0 < r@[b].0,
            forall|a: int| 0 <= a < r@.len() ==> old(self)@.dom().contains(#[trigger] r@[a].0) && old(
                self,
            )@[r@[a].0] == r@[a].1,
            forall|i: usize| #[trigger] old(self)@.dom().contains(i) ==> exists|a: int| 0 <= a < r@.len() && r@[a].0 == i,
    {
        let mut r: Vec<(usize, T)> = Vec::new();
        let mut cursor = self.first();
        while cursor.is_some()
            invariant
                self.wf(),
                self.limit_spec() == old(self).limit_spec(),
                forall|a: int, b: int| 0 <= a < b < r@.len() ==> r@[a].0 < r@[b].0,
                forall|a: int| 0 <= a < r@.len() ==> old(self)@.dom().contains(#[trigger] r@[a].0) && old(
                    self,
                )@[r@[a].0] == r@[a].1,
                cursor matches Some(now) ==> self@.dom().contains(now) && (r@.len() > 0 ==> r@.last().0 < now),
                cursor matches Some(now) ==> forall|j: usize| #[trigger] self@.dom().contains(j) ==> now <= j,
                cursor is None ==> self@.dom().is_empty(),
                forall|i: usize| #[trigger] self@.dom().contains(i) ==> old(self)@.dom().contains(i) && self@[i] == old(self)@[i],
                forall|i: usize| #[trigger] old(self)@.dom().contains(i) ==> self@.dom().contains(i) || exists|a: int| 0 <= a < r@.len() && r@[a].0 == i,
            decreases if cursor is Some {
                usize::MAX - cursor->0 + 1
            } else {
                0
            },
        {
            let now = match cursor {
                Some(now) => now,
                None => 0,
            };
            let ghost before = self@;
            let ghost r0 = r@;
            match self.unfill(now) {
                Some(item) => {
                    r.push((now, item));
                    proof {
                        assert(r@.last() == (now, item));
                        assert forall|i: usize| #[trigger] old(self)@.dom().contains(i) implies self@.dom().contains(i) || exists|a: int| 0 <= a < r@.len() && r@[a].0 == i by {
                            if i == now {
                                assert(r@[r@.len() - 1].0 == i);
                            } else if !before.dom().contains(i) {
                                let a = choose|a: int| 0 <= a < r0.len() && r0[a].0 == i;
                                assert(r@[a] == r0[a]);
                            }
                        }
                        assert forall|a: int| 0 <= a < r@.len() implies old(self)@.dom().contains(#[trigger] r@[a].0) && old(self)@[r@[a].0] == r@[a].1 by {
                            if a < r0.len() {
                                assert(r@[a] == r0[a]);
                            }
                        }
                    }
                },
                None => {},
            }
            cursor = self.next(now);
            proof {
                if cursor is None {
                    assert(self@.dom() =~= Set::<usize>::empty());
                }
            }
        }
        proof {
            assert(self@ =~= Map::<usize, T>::empty());
        }
        r
    }

    /// The greatest index that holds an item.
    pub fn last(&self) -> (r: Option<usize>)
        requires
            self.wf(),
        ensures
            r matches Some(i) ==> self@.dom().contains(i) && forall|j: usize|
                i < j ==> !#[trigger] self@.dom().contains(j),
            r is None ==> self@.dom().is_empty(),
    {
        let mut i = self.slots.len();
        while i > 1
            invariant
                self.wf(),
                i <= self.slots@.len(),
                forall|j: usize| i <= j ==> !#[trigger] self@.dom().contains(j),
            decreases i,
        {
            if let Slot::Taken(_) = &self.slots[i - 1] {
                return Some(i - 1);
            }
            i = i - 1;
        }
        proof {
            assert(self@.dom() =~= Set::<usize>::empty());
        }
        None
    }

    /// The indices holding an item within the range from `start` to `end`,
    /// ascending.
    pub fn iter_slice(&self, start: Bound, end: Bound) -> (r: Vec<usize>)
        requires
            self.wf(),
        ensures
            forall|a: int, b: int| 0 <= a < b < r@.len() ==> r@[a] < r@[b],
            forall|i: usize|
                #[trigger] r@.contains(i) <==> (self@.dom().contains(i) && start_index(start) <= i
                    && i < end_index(end, self.slot_count())),
            forall|i: usize|
                #[trigger] r@.contains(i) <==> (self@.dom().contains(i) && after_start(start, i)
                    && before_end(end, i)),
    {
        let len = self.slots.len();
        proof {
            assert forall|i: usize| #[trigger] self@.dom().contains(i) implies (start_index(start) <= i
                && i < end_index(end, self.slot_count())) == (after_start(start, i) && before_end(end, i)) by {
                lemma_range_covers(start, end, self.slot_count(), i);
            }
        }
        let mut s: usize = match start {
            Bound::Included(i) => i,
            Bound::Excluded(i) => i.saturating_add(1),
            Bound::Unbounded => 0,
        };
        let e: usize = match end {
            Bound::Included(i) => {
                let t = i.saturating_add(1);
                if t <= len {
                    t
                } else {
                    len
                }
            },
            Bound::Excluded(i) => if i <= len {
                i
            } else {
                len
            },
            Bound::Unbounded => len,
        };
        let ghost s0 = s;
        if s > e {
            s = e;
        }
        let mut r: Vec<usize> = Vec::new();
        let mut i = s;
        while i < e
            invariant
                self.wf(),
                s <= i,
                e <= self.slots@.len(),
                s0 == start_index(start),
                e == end_index(end, self.slot_count()),
                i <= e,
                (s == s0 && s0 <= e) || (s == e && e < s0),
                forall|a: int, b: int| 0 <= a < b < r@.len() ==> r@[a] < r@[b],
                forall|a: int| 0 <= a < r@.len() ==> r@[a] < i,
                forall|j: usize|
                    #[trigger] r@.contains(j) <==> (self@.dom().contains(j) && s0 <= j && s <= j && j < i),
            decreases e - i,
        {
            let ghost r0 = r@;
            if i > 0 {
                if let Slot::Taken(_) = &self.slots[i] {
                    r.push(i);
                    proof {
                        assert forall|j: usize| #[trigger] r@.contains(j) <==> (self@.dom().contains(j) && s0 <= j && s <= j && j < i + 1) by {
                            if r0.contains(j) {
                                let a = choose|a: int| 0 <= a < r0.len() && r0[a] == j;
                                assert(r@[a] == j);
                            }
                            if j == i {
                                assert(r@[r0.len() as int] == j);
                            }
                            if r@.contains(j) && j != i {
                                let a = choose|a: int| 0 <= a < r@.len() && r@[a] == j;
                                assert(a < r0.len());
                                assert(r0[a] == j);
                            }
                        }
                    }
                }
            }
            proof {
                assert(!self@.dom().contains(0));
            }
            i = i + 1;
        }
        r
    }
}

/// Makes `VecContainer`s.
pub struct VecContainerFamily;

impl VecContainerFamily {
    /// A new empty container whose indices stay below `limit`.
    pub fn new_container<T>(&mut self, limit: usize) -> (r: VecContainer<T>)
        ensures
            r.wf(),
            r@ == Map::<usize, T>::empty(),
            r.limit_spec() == limit,
    {
        VecContainer::new(limit)
    }
}

/// A container of at most one item, always at index one.
pub struct ItemContainer<T> {
    slot: Option<T>,
}

impl<T> View for ItemContainer<T> {
    type V = Option<T>;

    /// The item, if any.
    closed spec fn view(&self) -> Option<T> {
        self.slot
    }
}

impl<T> ItemContainer<T> {
    /// An empty container.
    pub fn new() -> (r: Self)
        ensures
            r@ is None,
    {
        ItemContainer { slot: None }
    }

    /// Index one while there is an item.
    pub fn first(&self) -> (r: Option<usize>)
        ensures
            r == if self@ is Some {
                Some(1usize)
            } else {
                None
            },
    {
        match &self.slot {
            Some(_) => Some(1),
            None => None,
        }
    }

    /// No index follows another.
    pub fn next(&self, after: usize) -> (r: Option<usize>)
        ensures
            r is None,
    {
        None
    }

    /// Index one while there is an item.
    pub fn last(&self) -> (r: Option<usize>)
        ensures
            r == if self@ is Some {
                Some(1usize)
            } else {
                None
            },
    {
        self.first()
    }

    /// The item, where `index` is one.
    pub fn get(&self, index: usize) -> (r: Option<&T>)
        ensures
            r is Some <==> index == 1 && self@ is Some,
            r matches Some(it) ==> Some(*it) == self@,
    {
        if index == 1 {
            match &self.slot {
                Some(it) => Some(it),
                None => None,
            }
        } else {
            None
        }
    }

    /// True where `index` is one and there is an item.
    pub fn contains(&self, index: usize) -> (r: bool)
        ensures
            r == (index == 1 && self@ is Some),
    {
        index == 1 && self.slot.is_some()
    }

    /// Index one, where there is an item and the range covers it.
    pub fn iter(&self, start: Bound, end: Bound) -> (r: Vec<usize>)
        ensures
            r@ == if self@ is Some && start_index(start) <= 1 && 1 < end_index(end, 2) {
                seq![1usize]
            } else {
                Seq::<usize>::empty()
            },
            r@ == if self@ is Some && after_start(start, 1) && before_end(end, 1) {
                seq![1usize]
            } else {
                Seq::<usize>::empty()
            },
    {
        proof {
            lemma_range_covers(start, end, 2, 1);
        }
        let covers_start = match start {
            Bound::Included(i) => i <= 1,
            Bound::Excluded(i) => i == 0,
            Bound::Unbounded => true,
        };
        let covers_end = match end {
            Bound::Included(i) => i >= 1,
            Bound::Excluded(i) => i >= 2,
            Bound::Unbounded => true,
        };
        let mut r: Vec<usize> = Vec::new();
        if self.slot.is_some() && covers_start && covers_end {
            r.push(1);
        }
        proof {
            if self@ is Some && start_index(start) <= 1 && 1 < end_index(end, 2) {
                assert(r@ =~= seq![1usize]);
            }
        }
        r
    }

    /// Puts `item` at index one; fails, handing it back, where there is an
    /// item already.
    pub fn fill(&mut self, item: T) -> (r: Result<usize, T>)
        ensures
            r is Ok <==> old(self)@ is None,
            r matches Ok(i) ==> i == 1 && final(self)@ == Some(item),
            r matches Err(back) ==> back == item && final(self)@ == old(self)@,
    {
        if self.slot.is_some() {
            Err(item)
        } else {
            self.slot = Some(item);
            Ok(1)
        }
    }

    /// Takes the item out, where `index` is one.
    pub fn unfill(&mut self, index: usize) -> (r: Option<T>)
        ensures
            index == 1 ==> r == old(self)@ && final(self)@ is None,
            index != 1 ==> r is None && final(self)@ == old(self)@,
    {
        if index == 1 {
            self.slot.take()
        } else {
            None
        }
    }
}

/// Makes `ItemContainer`s.
pub struct ItemContainerFamily;

impl ItemContainerFamily {
    /// A new empty container.
    pub fn new_container<T>(&mut self) -> (r: ItemContainer<T>)
        ensures
            r@ is None,
    {
        ItemContainer::new()
    }
}

/// A container with data that comes along when its items are fetched.
pub struct ContainerData<D, C> {
    data: D,
    container: C,
}

impl<D, C> ContainerData<D, C> {
    /// The data.
    pub closed spec fn data_spec(&self) -> D {
        self.data
    }

    /// The container.
    pub closed spec fn container_spec(&self) -> C {
        self.container
    }

    /// Wraps `container` with `data`.
    pub fn new(data: D, container: C) -> (r: Self)
        ensures
            r.data_spec() == data,
            r.container_spec() == container,
    {
        ContainerData { data, container }
    }

    /// The container.
    pub fn inner(&self) -> (r: &C)
        ensures
            *r == self.container_spec(),
    {
        &self.container
    }

    /// The container, to change.
    pub fn inner_mut(&mut self) -> (r: &mut C)
        ensures
            *r == old(self).container_spec(),
            final(self).container_spec() == *final(r),
            final(self).data_spec() == old(self).data_spec(),
    {
        &mut self.container
    }

    /// The data.
    pub fn inner_data(&self) -> (r: &D)
        ensures
            *r == self.data_spec(),
    {
        &self.data
    }
}

/// A pair of containers, one for items of type `T` and one for type `U`.
pub struct ContainerPair<T, CT, U, CU> {
    ct: CT,
    /// The container of the second type.
    pub cu: CU,
    _t: PhantomData<T>,
    _u: PhantomData<U>,
}

impl<T, CT, U, CU> ContainerPair<T, CT, U, CU> {
    /// The container of the first type.
    pub closed spec fn first_spec(&self) -> CT {
        self.ct
    }

    /// The container of the second type.
    pub closed spec fn second_spec(&self) -> CU {
        self.cu
    }

    /// Pairs `ct` and `cu`.
    pub fn new(ct: CT, cu: CU) -> (r: Self)
        ensures
            r.first_spec() == ct,
            r.second_spec() == cu,
    {
        ContainerPair { ct, cu, _t: PhantomData, _u: PhantomData }
    }

    /// The container of the first type.
    pub fn first(&self) -> (r: &CT)
        ensures
            *r == self.first_spec(),
    {
        &self.ct
    }
}

/// A container made of layers of inner containers.
pub struct Layer<L>(L);

} // verus!
