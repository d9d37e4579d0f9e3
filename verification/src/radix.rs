//! The monotone priority queue of the `radix-heap` crate, as the topological
//! orders use it: entries come out lowest key first, and a key below the
//! last one taken out is refused.

use crate::container::VecContainer;
use crate::order::{key_lt, Order, Queue, QueueKey, Topological, TopologicalKey};
use radix_heap::RadixHeapMap;
use std::cmp::Reverse;
use vstd::multiset::Multiset;
use vstd::prelude::*;

verus! {

broadcast use {vstd::seq_lib::group_to_multiset_ensures, vstd::multiset::group_multiset_axioms};

/// `radix-heap`'s monotone max-heap of keys with values.
#[verifier::external_type_specification]
#[verifier::external_body]
#[verifier::reject_recursive_types(K)]
#[verifier::reject_recursive_types(V)]
pub struct ExRadixHeapMap<K, V>(RadixHeapMap<K, V>);

/// std's wrapper that reverses the order of what it holds.
#[verifier::external_type_specification]
#[verifier::external_body]
#[verifier::reject_recursive_types(T)]
pub struct ExReverse<T>(Reverse<T>);

/// A heap whose keys are reversed queue keys, so that its greatest entry has
/// the least queue key.
pub type MinHeap = RadixHeapMap<Reverse<QueueKey>, u64>;

/// The entries of `h`, each a queue key with its value.
pub uninterp spec fn heap_entries(h: MinHeap) -> Multiset<(QueueKey, u64)>;

/// The queue key of the top of `h`: none before the first entry is taken
/// out; then that of the last one taken out. No entry may have a lower key.
pub uninterp spec fn heap_top(h: MinHeap) -> Option<QueueKey>;

/// The entry that `RadixHeapMap::pop` takes out of `h` next.
pub uninterp spec fn heap_next(h: MinHeap) -> Option<(QueueKey, u64)>;

/// Calls `RadixHeapMap::new`: no entries and no top.
#[verifier::external_body]
fn heap_new() -> (r: MinHeap)
    ensures
        heap_entries(r) == Multiset::<(QueueKey, u64)>::empty(),
        heap_top(r) is None,
{
    RadixHeapMap::new()
}

/// Calls `RadixHeapMap::push` with the reversed `key`, which panics where it
/// is above the top, that is, where `key` is below the top's key. An entry
/// whose key equals the top's goes at the end of the first bucket, where the
/// next `pop` takes it from.
#[verifier::external_body]
fn heap_push(h: &mut MinHeap, key: QueueKey, value: u64)
    requires
        heap_top(*old(h)) matches Some(t) ==> !key_lt(key, t),
    ensures
        heap_entries(*final(h)) == heap_entries(*old(h)).insert((key, value)),
        heap_top(*final(h)) == heap_top(*old(h)),
        heap_top(*old(h)) == Some(key) ==> heap_next(*final(h)) == Some((key, value)),
{
    h.push(Reverse(key), value)
}

/// Calls `RadixHeapMap::pop`: takes out the greatest entry, that of the
/// least queue key, whose key becomes the top; none where the heap is empty.
#[verifier::external_body]
fn heap_pop(h: &mut MinHeap) -> (r: Option<(QueueKey, u64)>)
    ensures
        r == heap_next(*old(h)),
        r is None <==> heap_entries(*old(h)).len() == 0,
        r is None ==> heap_entries(*final(h)) == heap_entries(*old(h)) && heap_top(*final(h))
            == heap_top(*old(h)),
        r matches Some(e) ==> {
            &&& heap_entries(*old(h)).count(e) > 0
            &&& heap_entries(*final(h)) == heap_entries(*old(h)).remove(e)
            &&& heap_top(*final(h)) == Some(e.0)
            &&& forall|x: (QueueKey, u64)| #[trigger]
                heap_entries(*old(h)).count(x) > 0 ==> !key_lt(x.0, e.0)
        },
{
    match h.pop() {
        Some((key, value)) => Some((key.0, value)),
        None => None,
    }
}

/// Calls `RadixHeapMap::top`: the queue key of the top.
#[verifier::external_body]
fn heap_top_key(h: &MinHeap) -> (r: Option<QueueKey>)
    ensures
        r == heap_top(*h),
{
    match h.top() {
        Some(top) => Some(top.0),
        None => None,
    }
}

impl<NI> Order<NI> for TopologicalKey {
    type Queue = TopologicalQueue<(NI, u64)>;
}

impl<NI, F, T> Order<NI> for Topological<F, T> {
    type Queue = TopologicalQueue<(NI, u64)>;
}

/// A queue that hands out its entries lowest key first and refuses a key
/// that is not above that of the last entry handed out.
pub struct TopologicalQueue<T> {
    heap: MinHeap,
    items: VecContainer<(QueueKey, T)>,
    slots: Ghost<Seq<usize>>,
}

impl<T> TopologicalQueue<T> {
    /// The key of the last entry handed out, below which keys are refused.
    pub closed spec fn last_key(&self) -> Option<QueueKey> {
        heap_top(self.heap)
    }

    /// The payloads by slot, each with its key; the heap holds each slot's
    /// key and slot once, and nothing else.
    pub closed spec fn wf(&self) -> bool {
        &&& self.items.wf()
        &&& self.items.limit_spec() == usize::MAX
        &&& self.slots@.no_duplicates()
        &&& self.items.item_count() == self.slots@.len()
        &&& forall|s: usize| #[trigger] self.slots@.contains(s) <==> self.items@.dom().contains(s)
        &&& forall|e: (QueueKey, u64)|
            #[trigger] heap_entries(self.heap).count(e) > 0 ==> {
                &&& e.1 <= usize::MAX
                &&& self.items@.dom().contains(e.1 as usize)
                &&& self.items@[e.1 as usize].0 == e.0
                &&& heap_entries(self.heap).count(e) == 1
            }
        &&& forall|s: usize|
            #[trigger] self.items@.dom().contains(s) ==> heap_entries(self.heap).count(
                (self.items@[s].0, s as u64),
            ) == 1
        &&& forall|e: (QueueKey, u64)|
            #[trigger] heap_entries(self.heap).count(e) > 0 ==> (heap_top(self.heap) matches Some(t)
                ==> !key_lt(e.0, t))
    }

    /// The payloads in slot order, each with its key.
    closed spec fn seq(&self) -> Seq<(QueueKey, T)> {
        self.slots@.map_values(|s: usize| self.items@[s])
    }

    /// An empty queue with no last key.
    pub fn new() -> (r: Self)
        ensures
            r.inv(),
            r.entries() == Multiset::<(QueueKey, T)>::empty(),
            r.last_key() is None,
    {
        let r = TopologicalQueue {
            heap: heap_new(),
            items: VecContainer::new(usize::MAX),
            slots: Ghost(Seq::empty()),
        };
        proof {
            assert(r.seq() =~= Seq::<(QueueKey, T)>::empty());
        }
        r
    }

    /// The queue holds nothing exactly where its heap does.
    proof fn lemma_empty(&self)
        requires
            self.wf(),
        ensures
            heap_entries(self.heap).len() == 0 <==> self.slots@.len() == 0,
            self.seq().len() == self.slots@.len(),
    {
        if self.slots@.len() > 0 {
            let s = self.slots@[0];
            assert(self.slots@.contains(s));
            assert(heap_entries(self.heap).count((self.items@[s].0, s as u64)) == 1);
        }
        if heap_entries(self.heap).len() > 0 {
            let e = heap_entries(self.heap).choose();
            assert(heap_entries(self.heap).count(e) > 0);
            assert(self.slots@.contains(e.1 as usize));
        }
    }
}

impl<T> Queue<T> for TopologicalQueue<T> {
    closed spec fn entries(&self) -> Multiset<(QueueKey, T)> {
        self.seq().to_multiset()
    }

    closed spec fn inv(&self) -> bool {
        self.wf()
    }

    closed spec fn accepts(&self, key: QueueKey) -> bool {
        &&& (self.last_key() matches Some(t) ==> key_lt(t, key))
        &&& (self.items.next_index() < self.items.slot_count() || self.items.slot_count()
            < usize::MAX)
    }

    closed spec fn open(&self) -> bool {
        self.last_key() is None
    }

    closed spec fn front(&self) -> Option<(QueueKey, T)> {
        match heap_next(self.heap) {
            Some(e) => Some((e.0, self.items@[e.1 as usize].1)),
            None => None,
        }
    }

    proof fn lemma_open(&self, key: QueueKey) {
        self.lemma_empty();
        self.items.lemma_full();
    }

    fn empty() -> (r: Self) {
        TopologicalQueue::new()
    }

    fn push(&mut self, key: QueueKey, item: T) -> (r: bool)
        ensures
            old(self).last_key() matches Some(t) && !key_lt(t, key) ==> !r,
            final(self).last_key() == old(self).last_key(),
    {
        match heap_top_key(&self.heap) {
            Some(t) => {
                if !(t.0 < key.0 || (t.0 == key.0 && t.1 < key.1)) {
                    return false;
                }
            },
            None => {},
        }
        let ghost s0 = self.seq();
        match self.items.fill((key, item)) {
            Ok(s) => {
                heap_push(&mut self.heap, key, s as u64);
                self.slots = Ghost(self.slots@.push(s));
                proof {
                    assert(!old(self).slots@.contains(s));
                    assert(self.seq() =~= s0.push((key, item))) by {
                        assert forall|j: int| 0 <= j < s0.len() implies self.seq()[j] == s0[j] by {
                            assert(old(self).slots@.contains(old(self).slots@[j]));
                        }
                    }
                    assert forall|e: (QueueKey, u64)| #[trigger] heap_entries(self.heap).count(e) > 0 implies {
                        &&& e.1 <= usize::MAX
                        &&& self.items@.dom().contains(e.1 as usize)
                        &&& self.items@[e.1 as usize].0 == e.0
                        &&& heap_entries(self.heap).count(e) == 1
                    } by {
                        if e == (key, s as u64) {
                            if heap_entries(old(self).heap).count(e) > 0 {
                                assert(old(self).items@.dom().contains(s));
                            }
                        }
                    }
                    assert forall|x: usize| #[trigger] self.items@.dom().contains(x) implies heap_entries(self.heap).count((self.items@[x].0, x as u64)) == 1 by {
                        if x != s {
                            assert(old(self).items@.dom().contains(x));
                            assert((self.items@[x].0, x as u64) != (key, s as u64));
                        }
                    }
                    assert forall|x: usize| #[trigger] self.slots@.contains(x) <==> self.items@.dom().contains(x) by {
                        if x == s {
                            assert(self.slots@[self.slots@.len() - 1] == s);
                        } else if old(self).slots@.contains(x) {
                            let j = choose|j: int| 0 <= j < old(self).slots@.len() && old(self).slots@[j] == x;
                            assert(self.slots@[j] == x);
                        } else if self.slots@.contains(x) {
                            let j = choose|j: int| 0 <= j < self.slots@.len() && self.slots@[j] == x;
                            assert(old(self).slots@[j] == x);
                        }
                    }
                }
                true
            },
            Err(_) => false,
        }
    }

    fn pop(&mut self) -> (r: Option<(QueueKey, T)>)
        ensures
            r matches Some(e) ==> final(self).last_key() == Some(e.0) && forall|x: (QueueKey, T)|
                #[trigger] old(self).entries().count(x) > 0 ==> !key_lt(x.0, e.0),
            r matches Some(e) ==> (old(self).last_key() matches Some(t) ==> !key_lt(e.0, t)),
            r is None ==> final(self).last_key() == old(self).last_key(),
    {
        proof {
            self.lemma_empty();
        }
        let ghost s0 = self.seq();
        match heap_pop(&mut self.heap) {
            None => {
                proof {
                    assert(s0.to_multiset().len() == 0);
                }
                None
            },
            Some((k, v)) => {
                let s = v as usize;
                proof {
                    assert(heap_entries(old(self).heap).count((k, v)) > 0);
                    assert(old(self).items@.dom().contains(s));
                }
                match self.items.unfill(s) {
                    Some(entry) => {
                        proof {
                            assert(old(self).slots@.contains(s));
                        }
                        let ghost i = choose|i: int| 0 <= i < old(self).slots@.len() && old(self).slots@[i] == s;
                        self.slots = Ghost(old(self).slots@.remove(i));
                        proof {
                            assert(entry == old(self).items@[s]);
                            assert(entry.0 == k);
                            assert(s0 == old(self).seq());
                            assert(s0[i] == old(self).items@[old(self).slots@[i]]);
                            assert(s0[i] == entry);
                            assert(self.seq() =~= s0.remove(i)) by {
                                assert forall|j: int| 0 <= j < self.seq().len() implies self.seq()[j] == s0.remove(i)[j] by {
                                    let x = self.slots@[j];
                                    if j < i {
                                        assert(x == old(self).slots@[j]);
                                    } else {
                                        assert(x == old(self).slots@[j + 1]);
                                    }
                                    assert(x != s);
                                }
                            }
                            assert forall|x: (QueueKey, T)| #[trigger] old(self).entries().count(x) > 0 implies !key_lt(x.0, k) by {
                                assert(s0.contains(x));
                                let j = choose|j: int| 0 <= j < s0.len() && s0[j] == x;
                                let sj = old(self).slots@[j];
                                assert(old(self).slots@.contains(sj));
                                assert(heap_entries(old(self).heap).count((old(self).items@[sj].0, sj as u64)) == 1);
                            }
                            assert forall|e: (QueueKey, u64)| #[trigger] heap_entries(self.heap).count(e) > 0 implies {
                                &&& e.1 <= usize::MAX
                                &&& self.items@.dom().contains(e.1 as usize)
                                &&& self.items@[e.1 as usize].0 == e.0
                                &&& heap_entries(self.heap).count(e) == 1
                            } by {
                                assert(heap_entries(old(self).heap).count(e) > 0);
                                if e.1 as usize == s {
                                    assert(e == (k, v));
                                }
                            }
                            assert forall|x: usize| #[trigger] self.items@.dom().contains(x) implies heap_entries(self.heap).count((self.items@[x].0, x as u64)) == 1 by {
                                assert(old(self).items@.dom().contains(x));
                                assert(x != s);
                            }
                            assert forall|x: usize| #[trigger] self.slots@.contains(x) <==> self.items@.dom().contains(x) by {
                                if self.slots@.contains(x) {
                                    let j = choose|j: int| 0 <= j < self.slots@.len() && self.slots@[j] == x;
                                    if j < i {
                                        assert(old(self).slots@[j] == x);
                                    } else {
                                        assert(old(self).slots@[j + 1] == x);
                                    }
                                    assert(old(self).slots@.contains(x));
                                }
                                if self.items@.dom().contains(x) {
                                    assert(old(self).slots@.contains(x));
                                    let j = choose|j: int| 0 <= j < old(self).slots@.len() && old(self).slots@[j] == x;
                                    assert(j != i);
                                    if j < i {
                                        assert(self.slots@[j] == x);
                                    } else {
                                        assert(self.slots@[j - 1] == x);
                                    }
                                }
                            }
                        }
                        Some((k, entry.1))
                    },
                    None => {
                        proof {
                            assert(false);
                        }
                        None
                    },
                }
            },
        }
    }

    fn peek(&mut self) -> (r: Option<(QueueKey, &T)>)
        ensures
            r matches Some(e) ==> final(self).last_key() == Some(e.0) && forall|x: (QueueKey, T)|
                #[trigger] old(self).entries().count(x) > 0 ==> !key_lt(x.0, e.0),
            r is None ==> final(self).last_key() == old(self).last_key(),
    {
        proof {
            self.lemma_empty();
        }
        let ghost s0 = self.seq();
        let top = match heap_pop(&mut self.heap) {
            None => {
                proof {
                    assert(s0.to_multiset().len() == 0);
                }
                None
            },
            Some((k, v)) => {
                heap_push(&mut self.heap, k, v);
                Some((k, v))
            },
        };
        proof {
            if top is Some {
                assert(heap_entries(self.heap) =~= heap_entries(old(self).heap));
                let v = (top->0).1;
                assert(old(self).slots@.contains(v as usize));
            }
        }
        match top {
            Some((k, v)) => {
                match self.items.get(v as usize) {
                    Some(e) => {
                        proof {
                            let s = v as usize;
                            let i = choose|i: int| 0 <= i < old(self).slots@.len() && old(self).slots@[i] == s;
                            assert(s0 == old(self).seq());
                            assert(s0[i] == old(self).items@[s]);
                            assert(*e == old(self).items@[s]);
                            assert(e.0 == k);
                            assert(s0[i] == (e.0, e.1));
                            assert(s0.to_multiset().count(s0[i]) > 0);
                            assert forall|x: (QueueKey, T)| #[trigger] old(self).entries().count(x) > 0 implies !key_lt(x.0, k) by {
                                assert(s0.contains(x));
                                let j = choose|j: int| 0 <= j < s0.len() && s0[j] == x;
                                let sj = old(self).slots@[j];
                                assert(old(self).slots@.contains(sj));
                                assert(heap_entries(old(self).heap).count((old(self).items@[sj].0, sj as u64)) == 1);
                            }
                        }
                        Some((k, &e.1))
                    },
                    None => None,
                }
            },
            None => None,
        }
    }

    fn drain(&mut self) -> (r: Vec<(QueueKey, T)>) {
        let mut r: Vec<(QueueKey, T)> = Vec::new();
        proof {
            assert(r@.to_multiset() =~= Multiset::empty());
        }
        loop
            invariant
                self.inv(),
                r@.to_multiset().add(self.entries()) == old(self).entries(),
            ensures
                self.inv(),
                r@.to_multiset().add(self.entries()) == old(self).entries(),
                self.entries().len() == 0,
            decreases self.entries().len(),
        {
            let ghost e0 = self.entries();
            match self.pop() {
                Some(e) => {
                    let ghost r0 = r@;
                    r.push(e);
                    proof {
                        assert(r@.to_multiset() == r0.to_multiset().insert(e));
                        assert(r@.to_multiset().add(self.entries()) =~= r0.to_multiset().add(e0));
                    }
                },
                None => {
                    break;
                },
            }
        }
        proof {
            vstd::multiset::lemma_multiset_empty_len(self.entries());
            assert(r@.to_multiset().add(self.entries()) =~= r@.to_multiset());
        }
        *self = TopologicalQueue::new();
        r
    }
}

} // verus!
