//! Orders in which a graph of items can be visited, and the queues that
//! hold what is yet to be visited under each.

use std::collections::VecDeque;
use std::marker::PhantomData;
use vstd::multiset::Multiset;
use vstd::prelude::*;

verus! {

broadcast use {vstd::seq_lib::group_to_multiset_ensures, vstd::multiset::group_multiset_axioms};

/// Depth first: the last queued is visited first.
pub struct Depth;

/// Breadth first: the first queued is visited first.
pub struct Breadth;

/// Breadth first, each level in the order of the items' keys.
pub struct Forward;

/// Topological, by an order that a function gives each item.
pub struct Topological<F, T>(pub F, pub PhantomData<T>);

/// Topological, by the items' keys.
pub struct TopologicalKey;

/// A queue key: an order and a group.
pub type QueueKey = (u64, u32);

/// `a` comes before `b`: by order, then by group.
pub open spec fn key_lt(a: QueueKey, b: QueueKey) -> bool {
    a.0 < b.0 || (a.0 == b.0 && a.1 < b.1)
}

/// The entries of `s`, regardless of order.
pub open spec fn entries_of<T>(s: Seq<(QueueKey, T)>) -> Multiset<(QueueKey, T)> {
    s.to_multiset()
}

/// What a queue promises: `push` adds an entry, or refuses it and changes
/// nothing; `pop` takes out one of the entries, and only finds none where
/// there is none.
pub trait Queue<T>: Sized {
    /// The entries.
    spec fn entries(&self) -> Multiset<(QueueKey, T)>;

    /// The queue is well formed.
    spec fn inv(&self) -> bool;

    /// A `push` under `key` would be taken.
    spec fn accepts(&self, key: QueueKey) -> bool;

    /// No key is out of order yet.
    spec fn open(&self) -> bool;

    /// The entry the next `pop` takes, where it is known.
    spec fn front(&self) -> Option<(QueueKey, T)>;

    /// An open queue with room takes any key.
    proof fn lemma_open(&self, key: QueueKey)
        requires
            self.inv(),
            self.open(),
            self.entries().len() + 1 < usize::MAX,
        ensures
            self.accepts(key),
    ;

    /// An empty, open queue.
    fn empty() -> (r: Self)
        ensures
            r.inv(),
            r.open(),
            r.entries().len() == 0,
    ;

    /// Adds `item` under `key`; false, changing nothing, where it is out of
    /// order.
    fn push(&mut self, key: QueueKey, item: T) -> (r: bool)
        requires
            old(self).inv(),
        ensures
            final(self).inv(),
            r == old(self).accepts(key),
            old(self).open() ==> final(self).open(),
            r ==> final(self).entries() == old(self).entries().insert((key, item)),
            !r ==> final(self).entries() == old(self).entries(),
    ;

    /// Takes out the entry next in order.
    fn pop(&mut self) -> (r: Option<(QueueKey, T)>)
        requires
            old(self).inv(),
        ensures
            final(self).inv(),
            r is None <==> old(self).entries().len() == 0,
            r is None ==> final(self).entries() == old(self).entries(),
            r matches Some(e) ==> old(self).entries().count(e) > 0 && final(self).entries()
                == old(self).entries().remove(e),
            old(self).front() matches Some(f) ==> r == Some(f),
    ;

    /// An entry next in order, left in place.
    fn peek(&mut self) -> (r: Option<(QueueKey, &T)>)
        requires
            old(self).inv(),
        ensures
            final(self).inv(),
            final(self).entries() == old(self).entries(),
            r is None <==> old(self).entries().len() == 0,
            r matches Some(e) ==> old(self).entries().count((e.0, *e.1)) > 0,
            r matches Some(e) ==> final(self).front() == Some((e.0, *e.1)),
    ;

    /// All entries, emptying the queue.
    fn drain(&mut self) -> (r: Vec<(QueueKey, T)>)
        requires
            old(self).inv(),
        ensures
            final(self).inv(),
            r@.to_multiset() == old(self).entries(),
            final(self).entries().len() == 0,
            final(self).open(),
    ;
}

/// An order of visit, and the queue that holds, for inputs of type `NI`,
/// what it has yet to visit.
pub trait Order<NI> {
    /// The queue of the order.
    type Queue: Queue<(NI, u64)>;
}

impl<NI> Order<NI> for Depth {
    type Queue = LifoQueue<QueueKey, (NI, u64)>;
}

impl<NI> Order<NI> for Breadth {
    type Queue = FifoQueue<QueueKey, (NI, u64)>;
}

impl<NI> Order<NI> for Forward {
    type Queue = ForwardQueue<(NI, u64)>;
}

/// A queue that hands out the entry queued last first.
pub struct LifoQueue<K, T> {
    queue: VecDeque<(K, T)>,
}

impl<K, T> LifoQueue<K, T> {
    /// The entries, the next one first.
    pub closed spec fn seq(&self) -> Seq<(K, T)> {
        self.queue@
    }

    /// An empty queue.
    pub fn new() -> (r: Self)
        ensures
            r.seq() == Seq::<(K, T)>::empty(),
    {
        LifoQueue { queue: VecDeque::new() }
    }

    /// Puts `item` under `key` first.
    pub fn push_entry(&mut self, key: K, item: T) -> (r: bool)
        ensures
            r,
            final(self).seq() == seq![(key, item)] + old(self).seq(),
    {
        self.queue.push_front((key, item));
        true
    }

    /// The first entry.
    pub fn peek(&self) -> (r: Option<&(K, T)>)
        ensures
            r is None <==> self.seq().len() == 0,
            r matches Some(e) ==> *e == self.seq()[0],
    {
        if self.queue.len() == 0 {
            None
        } else {
            Some(&self.queue[0])
        }
    }

    /// Takes out the first entry.
    pub fn pop_entry(&mut self) -> (r: Option<(K, T)>)
        ensures
            r is None <==> old(self).seq().len() == 0,
            r is None ==> final(self).seq() == old(self).seq(),
            r matches Some(e) ==> e == old(self).seq()[0] && final(self).seq() == old(self).seq().drop_first(),
    {
        self.queue.pop_front()
    }

    /// All entries, the next one first.
    pub fn into_vec(self) -> (r: Vec<(K, T)>)
        ensures
            r@ == self.seq(),
    {
        let mut q = self.queue;
        let mut r: Vec<(K, T)> = Vec::new();
        while q.len() > 0
            invariant
                r@ + q@ == self.queue@,
            decreases q@.len(),
        {
            let ghost q0 = q@;
            match q.pop_front() {
                Some(e) => {
                    r.push(e);
                    proof {
                        assert(r@ + q@ =~= self.queue@) by {
                            assert(q0 =~= seq![e] + q@);
                        }
                    }
                },
                None => {},
            }
        }
        proof {
            assert(r@ + q@ =~= r@);
        }
        r
    }
}

/// A queue that hands out the entry queued first first.
pub struct FifoQueue<K, T> {
    queue: VecDeque<(K, T)>,
}

impl<K, T> FifoQueue<K, T> {
    /// The entries, the next one first.
    pub closed spec fn seq(&self) -> Seq<(K, T)> {
        self.queue@
    }

    /// An empty queue.
    pub fn new() -> (r: Self)
        ensures
            r.seq() == Seq::<(K, T)>::empty(),
    {
        FifoQueue { queue: VecDeque::new() }
    }

    /// Puts `item` under `key` last.
    pub fn push_entry(&mut self, key: K, item: T) -> (r: bool)
        ensures
            r,
            final(self).seq() == old(self).seq().push((key, item)),
    {
        self.queue.push_back((key, item));
        true
    }

    /// The first entry.
    pub fn peek(&self) -> (r: Option<&(K, T)>)
        ensures
            r is None <==> self.seq().len() == 0,
            r matches Some(e) ==> *e == self.seq()[0],
    {
        if self.queue.len() == 0 {
            None
        } else {
            Some(&self.queue[0])
        }
    }

    /// Takes out the first entry.
    pub fn pop_entry(&mut self) -> (r: Option<(K, T)>)
        ensures
            r is None <==> old(self).seq().len() == 0,
            r is None ==> final(self).seq() == old(self).seq(),
            r matches Some(e) ==> e == old(self).seq()[0] && final(self).seq() == old(self).seq().drop_first(),
    {
        self.queue.pop_front()
    }

    /// All entries, the next one first.
    pub fn into_vec(self) -> (r: Vec<(K, T)>)
        ensures
            r@ == self.seq(),
    {
        let mut q = self.queue;
        let mut r: Vec<(K, T)> = Vec::new();
        while q.len() > 0
            invariant
                r@ + q@ == self.queue@,
            decreases q@.len(),
        {
            let ghost q0 = q@;
            match q.pop_front() {
                Some(e) => {
                    r.push(e);
                    proof {
                        assert(r@ + q@ =~= self.queue@) by {
                            assert(q0 =~= seq![e] + q@);
                        }
                    }
                },
                None => {},
            }
        }
        proof {
            assert(r@ + q@ =~= r@);
        }
        r
    }
}

impl<T> Queue<T> for LifoQueue<QueueKey, T> {
    closed spec fn entries(&self) -> Multiset<(QueueKey, T)> {
        entries_of(self.seq())
    }

    closed spec fn inv(&self) -> bool {
        true
    }

    closed spec fn accepts(&self, key: QueueKey) -> bool {
        true
    }

    closed spec fn open(&self) -> bool {
        true
    }

    closed spec fn front(&self) -> Option<(QueueKey, T)> {
        if self.seq().len() > 0 {
            Some(self.seq()[0])
        } else {
            None
        }
    }

    proof fn lemma_open(&self, key: QueueKey) {
    }

    fn empty() -> (r: Self) {
        let r = LifoQueue::new();
        proof {
            assert(r.entries() =~= Multiset::empty());
        }
        r
    }

    fn push(&mut self, key: QueueKey, item: T) -> (r: bool) {
        let r = self.push_entry(key, item);
        proof {
            assert(self.seq() =~= old(self).seq().insert(0, (key, item)));
            vstd::seq_lib::to_multiset_insert(old(self).seq(), 0, (key, item));
        }
        r
    }

    fn pop(&mut self) -> (r: Option<(QueueKey, T)>) {
        let r = self.pop_entry();
        proof {
            if old(self).seq().len() > 0 {
                assert(old(self).seq().drop_first() =~= old(self).seq().remove(0));
                vstd::seq_lib::to_multiset_remove(old(self).seq(), 0);
                assert(old(self).seq().to_multiset().count(old(self).seq()[0]) > 0);
            }
        }
        r
    }

    fn peek(&mut self) -> (r: Option<(QueueKey, &T)>)
        ensures
            r matches Some(e) ==> (e.0, *e.1) == old(self).seq()[0],
    {
        if self.queue.len() == 0 {
            None
        } else {
            let e = &self.queue[0];
            proof {
                let f = self.seq()[0];
                assert(f == (f.0, f.1));
                assert(self.seq().to_multiset().count(f) > 0);
            }
            Some((e.0, &e.1))
        }
    }

    fn drain(&mut self) -> (r: Vec<(QueueKey, T)>) {
        let mut q = LifoQueue::new();
        std::mem::swap(self, &mut q);
        proof {
            assert(self.seq().to_multiset() =~= Multiset::empty());
        }
        q.into_vec()
    }
}

impl<T> Queue<T> for FifoQueue<QueueKey, T> {
    closed spec fn entries(&self) -> Multiset<(QueueKey, T)> {
        entries_of(self.seq())
    }

    closed spec fn inv(&self) -> bool {
        true
    }

    closed spec fn accepts(&self, key: QueueKey) -> bool {
        true
    }

    closed spec fn open(&self) -> bool {
        true
    }

    closed spec fn front(&self) -> Option<(QueueKey, T)> {
        if self.seq().len() > 0 {
            Some(self.seq()[0])
        } else {
            None
        }
    }

    proof fn lemma_open(&self, key: QueueKey) {
    }

    fn empty() -> (r: Self) {
        let r = FifoQueue::new();
        proof {
            assert(r.entries() =~= Multiset::empty());
        }
        r
    }

    fn push(&mut self, key: QueueKey, item: T) -> (r: bool) {
        self.push_entry(key, item)
    }

    fn pop(&mut self) -> (r: Option<(QueueKey, T)>) {
        let r = self.pop_entry();
        proof {
            if old(self).seq().len() > 0 {
                assert(old(self).seq().drop_first() =~= old(self).seq().remove(0));
                vstd::seq_lib::to_multiset_remove(old(self).seq(), 0);
                assert(old(self).seq().to_multiset().count(old(self).seq()[0]) > 0);
            }
        }
        r
    }

    fn peek(&mut self) -> (r: Option<(QueueKey, &T)>)
        ensures
            r matches Some(e) ==> (e.0, *e.1) == old(self).seq()[0],
    {
        if self.queue.len() == 0 {
            None
        } else {
            let e = &self.queue[0];
            proof {
                let f = self.seq()[0];
                assert(f == (f.0, f.1));
                assert(self.seq().to_multiset().count(f) > 0);
            }
            Some((e.0, &e.1))
        }
    }

    fn drain(&mut self) -> (r: Vec<(QueueKey, T)>) {
        let mut q = FifoQueue::new();
        std::mem::swap(self, &mut q);
        proof {
            assert(self.seq().to_multiset() =~= Multiset::empty());
        }
        q.into_vec()
    }
}

/// `r`, sorted by descending key, with `x` put after every entry whose key
/// is not below its own.
pub open spec fn insert_desc<T>(r: Seq<(QueueKey, T)>, x: (QueueKey, T)) -> Seq<(QueueKey, T)>
    decreases r.len(),
{
    if r.len() == 0 {
        seq![x]
    } else if key_lt(r[0].0, x.0) {
        seq![x] + r
    } else {
        seq![r[0]] + insert_desc(r.drop_first(), x)
    }
}

/// `s` sorted by descending key, entries of equal keys in the order they
/// have in `s`.
pub open spec fn sort_desc<T>(s: Seq<(QueueKey, T)>) -> Seq<(QueueKey, T)>
    decreases s.len(),
{
    if s.len() == 0 {
        Seq::empty()
    } else {
        insert_desc(sort_desc(s.drop_last()), s.last())
    }
}

/// Inserting where the first lower key is.
proof fn lemma_insert_desc<T>(r: Seq<(QueueKey, T)>, x: (QueueKey, T), p: int)
    requires
        0 <= p <= r.len(),
        forall|i: int| 0 <= i < p ==> !key_lt(#[trigger] r[i].0, x.0),
        p < r.len() ==> key_lt(r[p].0, x.0),
    ensures
        insert_desc(r, x) == r.insert(p, x),
    decreases r.len(),
{
    if r.len() == 0 {
        assert(r.insert(p, x) =~= seq![x]);
    } else if p == 0 {
        assert(r.insert(0, x) =~= seq![x] + r);
    } else {
        assert forall|i: int| 0 <= i < p - 1 implies !key_lt(#[trigger] r.drop_first()[i].0, x.0) by {
            assert(r.drop_first()[i] == r[i + 1]);
        }
        lemma_insert_desc(r.drop_first(), x, p - 1);
        assert(r.insert(p, x) =~= seq![r[0]] + r.drop_first().insert(p - 1, x));
    }
}

/// Sorting keeps the entries.
proof fn lemma_sort_desc_entries<T>(s: Seq<(QueueKey, T)>)
    ensures
        sort_desc(s).to_multiset() == s.to_multiset(),
        sort_desc(s).len() == s.len(),
    decreases s.len(),
{
    if s.len() > 0 {
        lemma_sort_desc_entries(s.drop_last());
        lemma_insert_desc_entries(sort_desc(s.drop_last()), s.last());
        assert(s =~= s.drop_last().push(s.last()));
    }
}

/// Inserting adds the entry.
proof fn lemma_insert_desc_entries<T>(r: Seq<(QueueKey, T)>, x: (QueueKey, T))
    ensures
        insert_desc(r, x).to_multiset() == r.to_multiset().insert(x),
        insert_desc(r, x).len() == r.len() + 1,
    decreases r.len(),
{
    if r.len() == 0 {
        assert(seq![x] =~= Seq::<(QueueKey, T)>::empty().push(x));
    } else if key_lt(r[0].0, x.0) {
        assert(seq![x] + r =~= r.insert(0, x));
    } else {
        lemma_insert_desc_entries(r.drop_first(), x);
        let t = insert_desc(r.drop_first(), x);
        assert(seq![r[0]] + t =~= t.insert(0, r[0]));
        assert(r.drop_first().insert(0, r[0]) =~= r);
        vstd::seq_lib::to_multiset_insert(t, 0, r[0]);
        vstd::seq_lib::to_multiset_insert(r.drop_first(), 0, r[0]);
    }
}

/// A queue that takes in entries for the next round while handing out those
/// of the current one, lowest key first; a round starts where the current
/// one is used up.
pub struct ForwardQueue<T> {
    current: Vec<(QueueKey, T)>,
    next: Vec<(QueueKey, T)>,
}

impl<T> ForwardQueue<T> {
    /// The entries of the current round, the next one last.
    pub closed spec fn current_seq(&self) -> Seq<(QueueKey, T)> {
        self.current@
    }

    /// The entries for the next round, in the order they came.
    pub closed spec fn next_seq(&self) -> Seq<(QueueKey, T)> {
        self.next@
    }

    /// An empty queue.
    pub fn new() -> (r: Self)
        ensures
            r.current_seq() == Seq::<(QueueKey, T)>::empty(),
            r.next_seq() == Seq::<(QueueKey, T)>::empty(),
    {
        ForwardQueue { current: Vec::new(), next: Vec::new() }
    }

    /// Starts the next round: its entries, sorted by descending key, keeping
    /// the order of equal keys.
    fn advance(&mut self)
        requires
            old(self).current@.len() == 0,
        ensures
            final(self).current@ == sort_desc(old(self).next@),
            final(self).next@.len() == 0,
    {
        let mut pending: Vec<(QueueKey, T)> = Vec::new();
        std::mem::swap(&mut pending, &mut self.next);
        let ghost all = pending@;
        let mut sorted: Vec<(QueueKey, T)> = Vec::new();
        let mut taken: Vec<(QueueKey, T)> = Vec::new();
        // take entries in order: reverse `pending` into `taken` so that
        // popping yields them front to back
        while pending.len() > 0
            invariant
                all == pending@ + taken@.reverse(),
            decreases pending@.len(),
        {
            let ghost p0 = pending@;
            let ghost t0 = taken@;
            match pending.pop() {
                Some(e) => {
                    taken.push(e);
                    proof {
                        assert(p0 =~= pending@.push(e));
                        assert(taken@.reverse() =~= seq![e] + t0.reverse());
                        assert(all =~= pending@ + taken@.reverse());
                    }
                },
                None => {},
            }
        }
        proof {
            assert(pending@ + taken@.reverse() =~= taken@.reverse());
            assert(all == Seq::<(QueueKey, T)>::empty() + taken@.reverse());
        }
        // `taken` now holds the entries last first
        let ghost mut done: Seq<(QueueKey, T)> = Seq::empty();
        while taken.len() > 0
            invariant
                all == done + taken@.reverse(),
                sorted@ == sort_desc(done),
            decreases taken@.len(),
        {
            let ghost t0 = taken@;
            match taken.pop() {
                Some(x) => {
                    let mut p: usize = 0;
                    while p < sorted.len() && !(sorted[p].0.0 < x.0.0 || (sorted[p].0.0 == x.0.0 && sorted[p].0.1 < x.0.1))
                        invariant
                            p <= sorted@.len(),
                            forall|i: int| 0 <= i < p ==> !key_lt(#[trigger] sorted@[i].0, x.0),
                        decreases sorted@.len() - p,
                    {
                        p = p + 1;
                    }
                    proof {
                        lemma_insert_desc(sorted@, x, p as int);
                        assert(t0 =~= taken@.push(x));
                        assert(t0.reverse() =~= seq![x] + taken@.reverse());
                        let d2 = done.push(x);
                        assert(d2.drop_last() =~= done);
                        assert(d2.last() == x);
                        assert(all =~= d2 + taken@.reverse());
                        done = d2;
                    }
                    sorted.insert(p, x);
                },
                None => {},
            }
        }
        proof {
            assert(done + taken@.reverse() =~= done);
        }
        self.current = sorted;
    }

    /// Queues `item` under `key` for the next round.
    pub fn push_entry(&mut self, key: QueueKey, item: T) -> (r: bool)
        ensures
            r,
            final(self).next_seq() == old(self).next_seq().push((key, item)),
            final(self).current_seq() == old(self).current_seq(),
    {
        self.next.push((key, item));
        true
    }

    /// Takes out the entry of the current round with the lowest key,
    /// starting the next round first where the current one is used up.
    pub fn pop_entry(&mut self) -> (r: Option<(QueueKey, T)>)
        ensures
            old(self).current_seq().len() > 0 ==> {
                &&& r == Some(old(self).current_seq().last())
                &&& final(self).current_seq() == old(self).current_seq().drop_last()
                &&& final(self).next_seq() == old(self).next_seq()
            },
            old(self).current_seq().len() == 0 ==> {
                let sorted = sort_desc(old(self).next_seq());
                &&& r == if sorted.len() > 0 {
                    Some(sorted.last())
                } else {
                    None
                }
                &&& final(self).current_seq() == if sorted.len() > 0 {
                    sorted.drop_last()
                } else {
                    sorted
                }
                &&& final(self).next_seq().len() == 0
            },
    {
        match self.current.pop() {
            Some(e) => Some(e),
            None => {
                self.advance();
                self.current.pop()
            },
        }
    }

    /// All entries: the current round's, the next one first, then those for
    /// the next round, the last queued first.
    pub fn into_vec(self) -> (r: Vec<(QueueKey, T)>)
        ensures
            r@ == self.current_seq().reverse() + self.next_seq().reverse(),
    {
        let mut current = self.current;
        let mut next = self.next;
        let mut r: Vec<(QueueKey, T)> = Vec::new();
        while current.len() > 0
            invariant
                r@ + current@.reverse() == self.current@.reverse(),
            decreases current@.len(),
        {
            let ghost c0 = current@;
            match current.pop() {
                Some(e) => {
                    r.push(e);
                    proof {
                        assert(c0 =~= current@.push(e));
                        assert(c0.reverse() =~= seq![e] + current@.reverse());
                        assert(r@ + current@.reverse() =~= self.current@.reverse());
                    }
                },
                None => {},
            }
        }
        proof {
            assert(r@ =~= self.current@.reverse());
        }
        while next.len() > 0
            invariant
                r@ + next@.reverse() == self.current@.reverse() + self.next@.reverse(),
            decreases next@.len(),
        {
            let ghost n0 = next@;
            match next.pop() {
                Some(e) => {
                    r.push(e);
                    proof {
                        assert(n0 =~= next@.push(e));
                        assert(n0.reverse() =~= seq![e] + next@.reverse());
                        assert(r@ + next@.reverse() =~= self.current@.reverse() + self.next@.reverse());
                    }
                },
                None => {},
            }
        }
        proof {
            assert(r@ + next@.reverse() =~= r@);
        }
        r
    }
}

impl<T> Queue<T> for ForwardQueue<T> {
    closed spec fn entries(&self) -> Multiset<(QueueKey, T)> {
        self.current@.to_multiset().add(self.next@.to_multiset())
    }

    closed spec fn inv(&self) -> bool {
        true
    }

    closed spec fn accepts(&self, key: QueueKey) -> bool {
        true
    }

    closed spec fn open(&self) -> bool {
        true
    }

    closed spec fn front(&self) -> Option<(QueueKey, T)> {
        if self.current_seq().len() > 0 {
            Some(self.current_seq().last())
        } else {
            None
        }
    }

    proof fn lemma_open(&self, key: QueueKey) {
    }

    fn empty() -> (r: Self) {
        let r = ForwardQueue::new();
        proof {
            assert(r.entries() =~= Multiset::empty());
        }
        r
    }

    fn push(&mut self, key: QueueKey, item: T) -> (r: bool) {
        let r = self.push_entry(key, item);
        proof {
            assert(self.entries() =~= old(self).entries().insert((key, item)));
        }
        r
    }

    fn pop(&mut self) -> (r: Option<(QueueKey, T)>) {
        let ghost c0 = self.current@;
        let ghost n0 = self.next@;
        proof {
            lemma_sort_desc_entries(n0);
        }
        let r = self.pop_entry();
        proof {
            if c0.len() > 0 {
                assert(c0 =~= c0.drop_last().push(c0.last()));
                assert(c0.to_multiset().count(c0.last()) > 0);
                assert(self.entries() =~= old(self).entries().remove(c0.last()));
            } else {
                let sorted = sort_desc(n0);
                assert(c0.to_multiset() =~= Multiset::empty());
                if sorted.len() > 0 {
                    assert(sorted =~= sorted.drop_last().push(sorted.last()));
                    assert(sorted.to_multiset().count(sorted.last()) > 0);
                    assert(self.entries() =~= old(self).entries().remove(sorted.last()));
                } else {
                    assert(self.next@.to_multiset() =~= Multiset::empty());
                    assert(self.entries() =~= old(self).entries());
                }
            }
        }
        r
    }

    fn peek(&mut self) -> (r: Option<(QueueKey, &T)>)
        ensures
            old(self).current_seq().len() > 0 ==> final(self).current_seq() == old(self).current_seq()
                && final(self).next_seq() == old(self).next_seq(),
            old(self).current_seq().len() == 0 ==> final(self).current_seq() == sort_desc(
                old(self).next_seq(),
            ) && final(self).next_seq().len() == 0,
            r matches Some(e) ==> (e.0, *e.1) == final(self).current_seq().last(),
    {
        let ghost n0 = self.next@;
        proof {
            lemma_sort_desc_entries(n0);
        }
        if self.current.len() == 0 {
            self.advance();
            proof {
                assert(old(self).current@.to_multiset() =~= Multiset::empty());
                assert(self.next@.to_multiset() =~= Multiset::empty());
                assert(self.entries() =~= old(self).entries());
            }
        }
        let n = self.current.len();
        if n == 0 {
            None
        } else {
            let e = &self.current[n - 1];
            proof {
                let c = self.current@;
                let f = c[c.len() - 1];
                assert(f == (f.0, f.1));
                assert(c.to_multiset().count(f) > 0);
            }
            Some((e.0, &e.1))
        }
    }

    fn drain(&mut self) -> (r: Vec<(QueueKey, T)>) {
        let mut q = ForwardQueue::new();
        std::mem::swap(self, &mut q);
        let r = q.into_vec();
        proof {
            vstd::seq_lib::lemma_multiset_commutative(q.current@.reverse(), q.next@.reverse());
            q.current@.lemma_reverse_to_multiset();
            q.next@.lemma_reverse_to_multiset();
            assert(self.entries() =~= Multiset::empty());
        }
        r
    }
}

} // verus!
