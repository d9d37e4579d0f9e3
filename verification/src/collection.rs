//! A collection of items of one type that keeps the references between its
//! items consistent: every item records, in its shell, which items reference it.

use crate::key::{Index, Key};
use std::marker::PhantomData;
use vstd::multiset::Multiset;
use vstd::prelude::*;

verus! {

broadcast use {vstd::seq_lib::group_to_multiset_ensures, vstd::multiset::group_multiset_axioms};

/// Number of times `x` occurs in `s`.
pub open spec fn count(s: Seq<u64>, x: u64) -> nat {
    s.to_multiset().count(x)
}

/// Number of times `x` occurs among the first `n` elements of `s`.
pub open spec fn count_prefix(s: Seq<u64>, n: int, x: u64) -> nat {
    count(s.subrange(0, n), x)
}

/// Counting one element further along a sequence.
pub proof fn lemma_count_prefix_step(s: Seq<u64>, n: int, x: u64)
    requires
        0 <= n < s.len(),
    ensures
        count_prefix(s, n + 1, x) == count_prefix(s, n, x) + (if s[n] == x { 1nat } else { 0nat }),
{
    assert(s.subrange(0, n + 1) =~= s.subrange(0, n).push(s[n]));
}

/// Counting all of a sequence.
pub proof fn lemma_count_prefix_full(s: Seq<u64>, x: u64)
    ensures
        count_prefix(s, s.len() as int, x) == count(s, x),
        count_prefix(s, 0, x) == 0,
{
    assert(s.subrange(0, s.len() as int) =~= s);
    assert(s.subrange(0, 0) =~= Seq::<u64>::empty());
    broadcast use vstd::multiset::group_multiset_axioms;
    assert(Seq::<u64>::empty().to_multiset() =~= Multiset::empty());
}

/// Counting a prefix counts no more than the whole.
pub proof fn lemma_count_prefix_le(s: Seq<u64>, n: int, x: u64)
    requires
        0 <= n <= s.len(),
    ensures
        count_prefix(s, n, x) <= count(s, x),
        n < s.len() && s[n] == x ==> count_prefix(s, n, x) < count(s, x),
    decreases s.len() - n,
{
    if n == s.len() {
        lemma_count_prefix_full(s, x);
    } else {
        lemma_count_prefix_step(s, n, x);
        lemma_count_prefix_le(s, n + 1, x);
    }
}

/// `i` is the position of the last `x` in `s`.
pub open spec fn is_last_occurrence(s: Seq<u64>, i: int, x: u64) -> bool {
    &&& 0 <= i < s.len()
    &&& s[i] == x
    &&& forall|j: int| i < j < s.len() ==> s[j] != x
}

/// Counting after a push.
pub proof fn lemma_count_push(s: Seq<u64>, a: u64, x: u64)
    ensures
        count(s.push(a), x) == count(s, x) + (if a == x { 1nat } else { 0nat }),
{
    assert(s.push(a).to_multiset() =~= s.to_multiset().insert(a));
}

/// Counting a shorter prefix counts no more.
pub proof fn lemma_count_prefix_mono(s: Seq<u64>, a: int, b: int, x: u64)
    requires
        0 <= a <= b <= s.len(),
    ensures
        count_prefix(s, a, x) <= count_prefix(s, b, x),
    decreases b - a,
{
    if a < b {
        lemma_count_prefix_step(s, b - 1, x);
        lemma_count_prefix_mono(s, a, b - 1, x);
    }
}

/// An item whose references to other items of the same type a collection manages.
pub trait Item: Sized {
    /// Indices of the items this item references, in its own order.
    spec fn refs(&self) -> Seq<u64>;

    /// Keys of the items this item references.
    fn references(&self) -> (r: Vec<Key<Self>>)
        ensures
            r@.len() == self.refs().len(),
            forall|i: int| 0 <= i < r@.len() ==> #[trigger] r@[i]@ == self.refs()[i],
    ;

    /// This item outlives the item at `key`: losing its references to it,
    /// it stays.
    spec fn survives(&self, key: u64) -> bool;

    /// Drops every reference to `key`, whose item `removed` is being removed.
    /// False if this item must then be removed as well. What the item
    /// outlives does not change.
    fn remove_reference(&mut self, key: Key<Self>, removed: &Self) -> (r: bool)
        ensures
            forall|x: u64|
                #[trigger] count(final(self).refs(), x) == if x == key@ {
                    0
                } else {
                    count(old(self).refs(), x)
                },
            r == old(self).survives(key@),
            forall|x: u64| #[trigger] final(self).survives(x) == old(self).survives(x),
    ;

    /// This item, referencing the item at `from`, can also reference
    /// another item in its place, rather than being duplicated.
    spec fn keeps_both(&self, from: u64) -> bool;

    /// Where the item keeps both, adds a reference to `to` for each of its
    /// references to `from`; else changes nothing and answers true: it is
    /// to be duplicated instead.
    fn duplicate_reference(&mut self, from: Key<Self>, to: Key<Self>) -> (r: bool)
        ensures
            r == !old(self).keeps_both(from@),
            r ==> *final(self) == *old(self),
            !r ==> forall|x: u64|
                #[trigger] count(final(self).refs(), x) == count(old(self).refs(), x) + if x == to@ {
                    count(old(self).refs(), from@)
                } else {
                    0
                },
            forall|x: u64| #[trigger] final(self).survives(x) == old(self).survives(x),
    ;

    /// A copy of this item, with the same references.
    fn duplicate(&self) -> (r: Self)
        ensures
            r.refs() == self.refs(),
    ;

    /// Turns each reference to `from` into one to `to`.
    fn replace_reference(&mut self, from: Key<Self>, to: Key<Self>)
        requires
            from@ != to@,
        ensures
            forall|x: u64|
                #[trigger] count(final(self).refs(), x) == if x == from@ {
                    0
                } else if x == to@ {
                    count(old(self).refs(), to@) + count(old(self).refs(), from@)
                } else {
                    count(old(self).refs(), x)
                },
    ;
}

/// The references to one item: the indices of the items referencing it, once
/// per reference.
pub struct VecShell<T: ?Sized> {
    from: Vec<u64>,
    _data: PhantomData<T>,
}

impl<T: ?Sized> VecShell<T> {
    /// The indices of the referencing items.
    pub closed spec fn from_seq(&self) -> Seq<u64> {
        self.from@
    }

    /// Shell without references.
    pub fn new() -> (r: Self)
        ensures
            r.from_seq() == Seq::<u64>::empty(),
    {
        VecShell { from: Vec::new(), _data: PhantomData }
    }

    /// Records a reference from the item at `from`.
    pub fn add_from(&mut self, from: u64)
        ensures
            final(self).from_seq() == old(self).from_seq().push(from),
    {
        self.from.push(from);
    }

    /// Drops the last recorded reference from the item at `from`; false if
    /// there is none.
    pub fn remove_from(&mut self, from: u64) -> (r: bool)
        ensures
            r == old(self).from_seq().contains(from),
            r ==> exists|i: int|
                #[trigger] is_last_occurrence(old(self).from_seq(), i, from)
                    && final(self).from_seq() == old(self).from_seq().remove(i),
            !r ==> final(self).from_seq() == old(self).from_seq(),
            count(final(self).from_seq(), from) == if r {
                (count(old(self).from_seq(), from) - 1) as nat
            } else {
                count(old(self).from_seq(), from)
            },
            forall|x: u64|
                x != from ==> #[trigger] count(final(self).from_seq(), x) == count(
                    old(self).from_seq(),
                    x,
                ),
    {
        let mut i = self.from.len();
        while i > 0
            invariant
                i <= self.from@.len(),
                self.from@ == old(self).from@,
                forall|j: int| i <= j < self.from@.len() ==> self.from@[j] != from,
            decreases i,
        {
            if self.from[i - 1] == from {
                let ghost before = self.from@;
                self.from.remove(i - 1);
                proof {
                    broadcast use vstd::multiset::group_multiset_axioms;
                    assert(before.contains(from));
                    assert(before.remove(i - 1).to_multiset() =~= before.to_multiset().remove(from));
                    let k = i - 1;
                    assert(is_last_occurrence(before, k, from));
                    assert(self.from@ == before.remove(k));
                    assert(before == old(self).from@);
                    assert(is_last_occurrence(old(self).from_seq(), k, from));
                }
                return true;
            }
            i = i - 1;
        }
        proof {
            broadcast use vstd::multiset::group_multiset_axioms;
            assert(!self.from@.contains(from));
        }
        false
    }

    /// Number of recorded references.
    pub fn from_count(&self) -> (r: usize)
        ensures
            r == self.from_seq().len(),
    {
        self.from.len()
    }

    /// The indices of the referencing items.
    pub fn from(&self) -> (r: Vec<u64>)
        ensures
            r@ == self.from_seq(),
    {
        self.from.clone()
    }
}

/// Indices referenced from the shell at index `k` of `shells`.
pub open spec fn from_of<T>(shells: Seq<Option<VecShell<T>>>, k: u64) -> Seq<u64> {
    shells[k as int]->Some_0.from_seq()
}

/// Number of references from the item at `j` to the item at `k` in `items`.
pub open spec fn ref_count<T: Item>(items: Map<u64, T>, j: u64, k: u64) -> nat {
    if items.dom().contains(j) {
        count(items[j].refs(), k)
    } else {
        0
    }
}

/// Every reference of `item` is to an item of `items`.
pub open spec fn refs_in<T: Item>(item: T, items: Map<u64, T>) -> bool {
    forall|x: u64| #[trigger] count(item.refs(), x) > 0 ==> items.dom().contains(x)
}

/// Records a reference from `key` in the shell at `r`.
fn shell_add_from<T>(shells: &mut Vec<Option<VecShell<T>>>, r: usize, key: u64)
    requires
        r < old(shells)@.len(),
        old(shells)@[r as int] is Some,
    ensures
        final(shells)@.len() == old(shells)@.len(),
        forall|i: int|
            0 <= i < old(shells)@.len() && i != r ==> final(shells)@[i] == old(shells)@[i],
        final(shells)@[r as int] is Some,
        from_of(final(shells)@, r as u64) == from_of(old(shells)@, r as u64).push(key),
{
    match &mut shells[r] {
        Some(shell) => shell.add_from(key),
        None => {},
    }
}

/// Drops the last recorded reference from `key` in the shell at `r`.
fn shell_remove_from<T>(shells: &mut Vec<Option<VecShell<T>>>, r: usize, key: u64) -> (found: bool)
    requires
        r < old(shells)@.len(),
        old(shells)@[r as int] is Some,
    ensures
        final(shells)@.len() == old(shells)@.len(),
        forall|i: int|
            0 <= i < old(shells)@.len() && i != r ==> final(shells)@[i] == old(shells)@[i],
        final(shells)@[r as int] is Some,
        found == from_of(old(shells)@, r as u64).contains(key),
        count(from_of(final(shells)@, r as u64), key) == if found {
            (count(from_of(old(shells)@, r as u64), key) - 1) as nat
        } else {
            count(from_of(old(shells)@, r as u64), key)
        },
        forall|x: u64|
            x != key ==> #[trigger] count(from_of(final(shells)@, r as u64), x) == count(
                from_of(old(shells)@, r as u64),
                x,
            ),
{
    match &mut shells[r] {
        Some(shell) => shell.remove_from(key),
        None => false,
    }
}

/// Calls `slice::sort` on `v`: sorts it ascending, keeping its elements.
#[verifier::external_body]
pub(crate) fn sort_indices(v: &mut Vec<u64>)
    ensures
        final(v)@.to_multiset() == old(v)@.to_multiset(),
        forall|a: int, b: int| 0 <= a <= b < final(v)@.len() ==> final(v)@[a] <= final(v)@[b],
{
    v.sort();
}

/// The indices of `keys`.
fn indices_of<T>(keys: &Vec<Key<T>>) -> (r: Vec<u64>)
    ensures
        r@.len() == keys@.len(),
        forall|i: int| 0 <= i < keys@.len() ==> r@[i] == #[trigger] keys@[i]@,
{
    let mut r: Vec<u64> = Vec::new();
    let mut i: usize = 0;
    while i < keys.len()
        invariant
            i <= keys@.len(),
            r@.len() == i,
            forall|t: int| 0 <= t < i ==> r@[t] == #[trigger] keys@[t]@,
        decreases keys@.len() - i,
    {
        r.push(keys[i].index().get());
        i = i + 1;
    }
    r
}

/// A sequence and the indices of its keys hold each index equally often.
proof fn lemma_indices_count(s: Seq<u64>, refs: Seq<u64>, x: u64)
    requires
        s.len() == refs.len(),
        forall|i: int| 0 <= i < s.len() ==> s[i] == refs[i],
    ensures
        count(s, x) == count(refs, x),
{
    assert(s =~= refs);
}

/// `p` less `q`, or nothing where `q` is larger.
pub open spec fn excess(p: nat, q: nat) -> nat {
    if p >= q {
        (p - q) as nat
    } else {
        0
    }
}

/// Number of times `x` occurs among the first `n` elements of `v`.
fn count_in(v: &Vec<u64>, n: usize, x: u64) -> (c: usize)
    requires
        n <= v@.len(),
    ensures
        c == count_prefix(v@, n as int, x),
{
    let mut c: usize = 0;
    let mut i: usize = 0;
    proof {
        lemma_count_prefix_full(v@, x);
    }
    while i < n
        invariant
            n <= v@.len(),
            i <= n,
            c <= i,
            c == count_prefix(v@, i as int, x),
        decreases n - i,
    {
        proof {
            lemma_count_prefix_step(v@, i as int, x);
        }
        if v[i] == x {
            c = c + 1;
        }
        i = i + 1;
    }
    c
}

/// Moves the references of the item at `key` from those of `prev` to those
/// of `new`, pairing the references the two share: for each index, where
/// `new` references it more often than `prev`, its shell gains a record of
/// `key` per extra reference; where less often, it loses one per missing
/// reference, as long as it has one to lose. Fails, changing nothing, where
/// an index that `new` references more often than `prev` holds no shell.
pub fn update_diff<T: Item>(shells: &mut Vec<Option<VecShell<T>>>, key: Key<T>, prev: &T, new: &T) -> (r: bool)
    ensures
        r <==> forall|x: u64|
            #[trigger] count(new.refs(), x) > count(prev.refs(), x) ==> (x as int) < old(shells)@.len()
                && old(shells)@[x as int] is Some,
        final(shells)@.len() == old(shells)@.len(),
        forall|u: int|
            0 <= u < old(shells)@.len() ==> (#[trigger] final(shells)@[u] is Some <==> old(
                shells,
            )@[u] is Some),
        !r ==> final(shells)@ == old(shells)@,
        forall|k: u64, x: u64|
            (k as int) < old(shells)@.len() && old(shells)@[k as int] is Some ==> #[trigger] count(
                from_of(final(shells)@, k),
                x,
            ) == if r && x == key@ {
                excess(
                    count(from_of(old(shells)@, k), x),
                    excess(count(prev.refs(), k), count(new.refs(), k)),
                ) + excess(count(new.refs(), k), count(prev.refs(), k))
            } else {
                count(from_of(old(shells)@, k), x)
            },
{
    let kv = key.index().get();
    let len = shells.len();
    let old_keys = prev.references();
    let new_keys = new.references();
    let old_refs = indices_of(&old_keys);
    let new_refs = indices_of(&new_keys);
    let ghost o = old_refs@;
    let ghost n = new_refs@;
    let ghost s0 = shells@;
    proof {
        assert forall|t: int| 0 <= t < o.len() implies o[t] == prev.refs()[t] by {
            assert(o[t] == old_keys@[t]@);
        }
        assert forall|t: int| 0 <= t < n.len() implies n[t] == new.refs()[t] by {
            assert(n[t] == new_keys@[t]@);
        }
        assert forall|x: u64| #[trigger] count(o, x) == count(prev.refs(), x) by {
            lemma_indices_count(o, prev.refs(), x);
        }
        assert forall|x: u64| #[trigger] count(n, x) == count(new.refs(), x) by {
            lemma_indices_count(n, new.refs(), x);
        }
        assert forall|x: u64| #[trigger] count_prefix(o, o.len() as int, x) == count(o, x) by {
            lemma_count_prefix_full(o, x);
        }
        assert forall|x: u64| #[trigger] count_prefix(n, n.len() as int, x) == count(n, x) by {
            lemma_count_prefix_full(n, x);
        }
    }
    let ol = old_refs.len();
    let nl = new_refs.len();
    let mut t: usize = 0;
    while t < nl
        invariant
            shells@ == s0,
            new_refs@ == n,
            old_refs@ == o,
            ol == o.len(),
            nl == n.len(),
            0 <= t <= n.len(),
            len == s0.len(),
            forall|x: u64| #[trigger] count(n, x) == count(new.refs(), x),
            forall|x: u64| #[trigger] count(o, x) == count(prev.refs(), x),
            forall|x: u64| #[trigger] count_prefix(o, o.len() as int, x) == count(o, x),
            forall|x: u64| #[trigger] count_prefix(n, n.len() as int, x) == count(n, x),
            forall|u: int|
                0 <= u < t && count(n, #[trigger] n[u]) > count(o, n[u]) ==> (n[u] as int) < s0.len()
                    && s0[n[u] as int] is Some,
        decreases n.len() - t,
    {
        let x = new_refs[t];
        let more = count_in(&new_refs, nl, x) > count_in(&old_refs, ol, x);
        if more && (x >= len as u64 || shells[x as usize].is_none()) {
            proof {
                assert(n[t as int] == x);
                assert(count(new.refs(), x) > count(prev.refs(), x));
            }
            return false;
        }
        t = t + 1;
    }
    proof {
        assert forall|x: u64| #[trigger] count(new.refs(), x) > count(prev.refs(), x) implies (x as int) < s0.len() && s0[x as int] is Some by {
            assert(count(n, x) > 0);
            assert(n.contains(x));
            let u = choose|u: int| 0 <= u < n.len() && n[u] == x;
            assert(count(n, n[u]) > count(o, n[u]));
        }
        assert forall|k: u64| #[trigger] count_prefix(o, 0, k) == 0 && count_prefix(n, 0, k) == 0 by {
            lemma_count_prefix_full(o, k);
            lemma_count_prefix_full(n, k);
        }
    }
    let mut i: usize = 0;
    while i < ol
        invariant
            shells@.len() == s0.len(),
            forall|u: int| 0 <= u < s0.len() ==> (#[trigger] shells@[u] is Some <==> s0[u] is Some),
            len == s0.len(),
            old_refs@ == o,
            new_refs@ == n,
            ol == o.len(),
            nl == n.len(),
            0 <= i <= o.len(),
            forall|x: u64| #[trigger] count_prefix(o, o.len() as int, x) == count(o, x),
            forall|x: u64| #[trigger] count_prefix(n, n.len() as int, x) == count(n, x),
            forall|k: u64, x: u64|
                (k as int) < s0.len() && s0[k as int] is Some && x != kv ==> #[trigger] count(
                    from_of(shells@, k),
                    x,
                ) == count(from_of(s0, k), x),
            forall|k: u64|
                (k as int) < s0.len() && s0[k as int] is Some ==> #[trigger] count(from_of(shells@, k), kv)
                    == excess(count(from_of(s0, k), kv), excess(count_prefix(o, i as int, k), count(n, k))),
        decreases o.len() - i,
    {
        let x = old_refs[i];
        let before = count_in(&old_refs, i, x);
        let b = count_in(&new_refs, nl, x);
        proof {
            lemma_count_prefix_step(o, i as int, x);
            assert forall|k: u64| k != x implies #[trigger] count_prefix(o, i + 1, k) == count_prefix(o, i as int, k) by {
                lemma_count_prefix_step(o, i as int, k);
            }
        }
        let ghost bs = shells@;
        if before >= b && x < len as u64 && shells[x as usize].is_some() {
            let found = shell_remove_from(shells, x as usize, kv);
            proof {
                assert((x as usize) as u64 == x);
                assert(found == (count(from_of(bs, x), kv) > 0)) by {
                    if count(from_of(bs, x), kv) > 0 {
                        assert(from_of(bs, x).contains(kv));
                    }
                }
                assert forall|k: u64, y: u64| (k as int) < s0.len() && s0[k as int] is Some && k != x implies #[trigger] count(from_of(shells@, k), y) == count(from_of(bs, k), y) by {
                    assert(shells@[k as int] == bs[k as int]);
                }
                let c0 = count(from_of(s0, x), kv);
                let m = excess(count_prefix(o, i as int, x), count(n, x));
                assert(count(from_of(bs, x), kv) == excess(c0, m));
                assert(excess(count_prefix(o, i + 1, x), count(n, x)) == m + 1);
                assert(count(from_of(shells@, x), kv) == excess(c0, m + 1));
            }
        } else {
            proof {
                if before < b {
                    assert(excess(count_prefix(o, i + 1, x), count(n, x)) == excess(count_prefix(o, i as int, x), count(n, x)));
                }
            }
        }
        proof {
            assert forall|k: u64| (k as int) < s0.len() && s0[k as int] is Some implies #[trigger] count(from_of(shells@, k), kv)
                == excess(count(from_of(s0, k), kv), excess(count_prefix(o, i + 1, k), count(n, k))) by {
                if k != x {
                    assert(count_prefix(o, i + 1, k) == count_prefix(o, i as int, k));
                    assert(count(from_of(bs, k), kv) == excess(count(from_of(s0, k), kv), excess(count_prefix(o, i as int, k), count(n, k))));
                }
            }
        }
        i = i + 1;
    }
    let mut j: usize = 0;
    while j < nl
        invariant
            shells@.len() == s0.len(),
            forall|u: int| 0 <= u < s0.len() ==> (#[trigger] shells@[u] is Some <==> s0[u] is Some),
            len == s0.len(),
            old_refs@ == o,
            new_refs@ == n,
            ol == o.len(),
            nl == n.len(),
            0 <= j <= n.len(),
            forall|x: u64| #[trigger] count_prefix(o, o.len() as int, x) == count(o, x),
            forall|x: u64| #[trigger] count_prefix(n, n.len() as int, x) == count(n, x),
            forall|x: u64| #[trigger] count(n, x) == count(new.refs(), x),
            forall|x: u64| #[trigger] count(o, x) == count(prev.refs(), x),
            forall|x: u64| #[trigger] count(new.refs(), x) > count(prev.refs(), x) ==> (x as int) < s0.len() && s0[x as int] is Some,
            forall|k: u64, x: u64|
                (k as int) < s0.len() && s0[k as int] is Some && x != kv ==> #[trigger] count(
                    from_of(shells@, k),
                    x,
                ) == count(from_of(s0, k), x),
            forall|k: u64|
                (k as int) < s0.len() && s0[k as int] is Some ==> #[trigger] count(from_of(shells@, k), kv)
                    == excess(count(from_of(s0, k), kv), excess(count(o, k), count(n, k))) + excess(
                    count_prefix(n, j as int, k),
                    count(o, k),
                ),
        decreases n.len() - j,
    {
        let x = new_refs[j];
        let before = count_in(&new_refs, j, x);
        let a = count_in(&old_refs, ol, x);
        proof {
            lemma_count_prefix_step(n, j as int, x);
            assert forall|k: u64| k != x implies #[trigger] count_prefix(n, j + 1, k) == count_prefix(n, j as int, k) by {
                lemma_count_prefix_step(n, j as int, k);
            }
        }
        if before >= a {
            proof {
                lemma_count_prefix_le(n, j as int, x);
                assert(count(new.refs(), x) > count(prev.refs(), x));
            }
            let ghost bs = shells@;
            shell_add_from(shells, x as usize, kv);
            proof {
                assert((x as usize) as u64 == x);
                assert forall|k: u64, y: u64| (k as int) < s0.len() && s0[k as int] is Some implies #[trigger] count(from_of(shells@, k), y) == count(from_of(bs, k), y) + (if k == x && y == kv { 1nat } else { 0nat }) by {
                    if k == x {
                        lemma_count_push(from_of(bs, k), kv, y);
                    } else {
                        assert(shells@[k as int] == bs[k as int]);
                    }
                }
            }
        }
        j = j + 1;
    }
    proof {
        assert forall|k: u64, x: u64|
            (k as int) < s0.len() && s0[k as int] is Some implies #[trigger] count(from_of(shells@, k), x) == if x == kv {
                excess(
                    count(from_of(s0, k), x),
                    excess(count(prev.refs(), k), count(new.refs(), k)),
                ) + excess(count(new.refs(), k), count(prev.refs(), k))
            } else {
                count(from_of(s0, k), x)
            } by {
            assert(count_prefix(n, n.len() as int, k) == count(n, k));
            assert(count(n, k) == count(new.refs(), k));
            assert(count(o, k) == count(prev.refs(), k));
        }
    }
    true
}

/// Number of occupied slots in `s`.
pub open spec fn some_count<A>(s: Seq<Option<A>>) -> nat
    decreases s.len(),
{
    if s.len() == 0 {
        0
    } else {
        some_count(s.drop_last()) + if s.last() is Some { 1nat } else { 0nat }
    }
}

/// Occupied slots are counted the same in sequences of the same shape.
pub proof fn lemma_some_count_shape<A>(a: Seq<Option<A>>, b: Seq<Option<A>>)
    requires
        a.len() == b.len(),
        forall|i: int| 0 <= i < a.len() ==> (#[trigger] a[i] is Some <==> b[i] is Some),
    ensures
        some_count(a) == some_count(b),
    decreases a.len(),
{
    if a.len() > 0 {
        lemma_some_count_shape(a.drop_last(), b.drop_last());
    }
}

/// Emptying an occupied slot leaves one occupied slot fewer.
pub proof fn lemma_some_count_take<A>(s: Seq<Option<A>>, i: int)
    requires
        0 <= i < s.len(),
        s[i] is Some,
    ensures
        some_count(s.update(i, None)) + 1 == some_count(s),
    decreases s.len(),
{
    if i == s.len() - 1 {
        assert(s.update(i, None).drop_last() =~= s.drop_last());
    } else {
        assert(s.update(i, None).drop_last() =~= s.drop_last().update(i, None));
        lemma_some_count_take(s.drop_last(), i);
    }
}

/// `item` references an item of `before` that is gone from `after`.
pub open spec fn refs_removed<T: Item>(item: T, before: Map<u64, T>, after: Map<u64, T>) -> bool {
    exists|x: u64|
        before.dom().contains(x) && !after.dom().contains(x) && #[trigger] count(item.refs(), x)
            > 0
}

/// The item at position `i` of `order` references, in `before`, an item at an
/// earlier position that it does not outlive.
pub open spec fn refs_earlier<T: Item>(order: Seq<u64>, i: int, before: Map<u64, T>) -> bool {
    exists|p: int|
        0 <= p < i && #[trigger] count(before[order[i]].refs(), order[p]) > 0
            && !before[order[i]].survives(order[p])
}

/// `item` references, in `before`, an item gone from `after` that it does
/// not outlive.
pub open spec fn doomed<T: Item>(item: T, before: Map<u64, T>, after: Map<u64, T>) -> bool {
    exists|x: u64|
        before.dom().contains(x) && !after.dom().contains(x) && #[trigger] count(item.refs(), x) > 0
            && !item.survives(x)
}

/// Removing more items keeps an item doomed.
proof fn lemma_doomed_grow<T: Item>(item: T, before: Map<u64, T>, mid: Map<u64, T>, after: Map<u64, T>)
    requires
        doomed(item, before, mid),
        after.dom().subset_of(mid.dom()),
    ensures
        doomed(item, before, after),
{
    let x = choose|x: u64|
        before.dom().contains(x) && !mid.dom().contains(x) && #[trigger] count(item.refs(), x) > 0
            && !item.survives(x);
    assert(!after.dom().contains(x));
}

/// `order` lists the items of `before` that are gone from `after`, starting
/// with `key`, each one after an item it referenced and did not outlive.
pub open spec fn removal_order<T: Item>(
    order: Seq<u64>,
    key: u64,
    before: Map<u64, T>,
    after: Map<u64, T>,
) -> bool {
    &&& order.no_duplicates()
    &&& order.len() > 0 ==> order[0] == key
    &&& forall|x: u64|
        #[trigger] order.contains(x) <==> (before.dom().contains(x) && !after.dom().contains(x))
    &&& forall|i: int| 0 < i < order.len() ==> #[trigger] refs_earlier(order, i, before)
}

/// What removing the item at `key` from `before` leaves, `after`: `key` and
/// the items removed along with it are gone, each removed item other than
/// `key` referenced one removed before it that it did not outlive, a surviving item only lost its
/// references to removed items, one that referenced none is unchanged, and
/// each surviving item outlives every removed item it referenced.
pub open spec fn cascade<T: Item>(before: Map<u64, T>, key: u64, after: Map<u64, T>) -> bool {
    &&& !after.dom().contains(key)
    &&& forall|j: u64, x: u64|
        after.dom().contains(j) && before.dom().contains(x) && !after.dom().contains(x)
            && #[trigger] count(before[j].refs(), x) > 0 ==> before[j].survives(x)
    &&& after.dom().subset_of(before.dom())
    &&& forall|j: u64, x: u64|
        after.dom().contains(j) ==> #[trigger] count(after[j].refs(), x) == if after.dom().contains(x) {
            count(before[j].refs(), x)
        } else {
            0
        }
    &&& forall|j: u64|
        after.dom().contains(j) && !refs_removed(before[j], before, after) ==> #[trigger] after[j]
            == before[j]
    &&& exists|order: Seq<u64>| removal_order(order, key, before, after)
}

/// Removing more items keeps a reference to a removed item.
proof fn lemma_refs_removed_grow<T: Item>(
    item: T,
    before: Map<u64, T>,
    mid: Map<u64, T>,
    after: Map<u64, T>,
)
    requires
        refs_removed(item, before, mid),
        after.dom().subset_of(mid.dom()),
    ensures
        refs_removed(item, before, after),
{
    let x = choose|x: u64|
        before.dom().contains(x) && !mid.dom().contains(x) && #[trigger] count(item.refs(), x) > 0;
    assert(!after.dom().contains(x));
}

/// Drops from the shells the references of the item at `key`, whose
/// referenced indices are `refs`.
fn detach_item<T>(shells: &mut Vec<Option<VecShell<T>>>, key: u64, refs: &Vec<u64>)
    requires
        forall|r: u64|
            0 <= r < old(shells)@.len() && old(shells)@[r as int] is Some ==> count(refs@, r)
                <= #[trigger] count(from_of(old(shells)@, r), key),
    ensures
        final(shells)@.len() == old(shells)@.len(),
        forall|u: int|
            0 <= u < old(shells)@.len() ==> (#[trigger] final(shells)@[u] is Some <==> old(shells)@[u] is Some),
        forall|r: u64, x: u64|
            0 <= r < old(shells)@.len() && old(shells)@[r as int] is Some && x != key
                ==> #[trigger] count(from_of(final(shells)@, r), x) == count(
                from_of(old(shells)@, r),
                x,
            ),
        forall|r: u64|
            0 <= r < old(shells)@.len() && old(shells)@[r as int] is Some ==> #[trigger] count(
                from_of(final(shells)@, r),
                key,
            ) + count(refs@, r) == count(from_of(old(shells)@, r), key),
{
    let len = shells.len();
    let mut t: usize = 0;
    while t < refs.len()
        invariant
            0 <= t <= refs@.len(),
            len == old(shells)@.len(),
            shells@.len() == len,
            forall|r: u64|
                0 <= r < old(shells)@.len() && old(shells)@[r as int] is Some ==> count(refs@, r)
                    <= #[trigger] count(from_of(old(shells)@, r), key),
            forall|u: int| 0 <= u < len ==> (#[trigger] shells@[u] is Some <==> old(shells)@[u] is Some),
            forall|r: u64, x: u64|
                0 <= r < len && old(shells)@[r as int] is Some && x != key ==> #[trigger] count(
                    from_of(shells@, r),
                    x,
                ) == count(from_of(old(shells)@, r), x),
            forall|r: u64|
                0 <= r < len && old(shells)@[r as int] is Some ==> #[trigger] count(
                    from_of(shells@, r),
                    key,
                ) + count_prefix(refs@, t as int, r) == count(from_of(old(shells)@, r), key),
        decreases refs@.len() - t,
    {
        let r = refs[t];
        proof {
            assert forall|k: u64| k != r implies #[trigger] count_prefix(refs@, t + 1, k) == count_prefix(refs@, t as int, k) by {
                lemma_count_prefix_step(refs@, t as int, k);
            }
            lemma_count_prefix_step(refs@, t as int, r);
        }
        if r < len as u64 && shells[r as usize].is_some() {
            proof {
                lemma_count_prefix_le(refs@, t + 1, r);
                assert(old(shells)@[r as int] is Some);
                assert(count(from_of(shells@, r), key) >= 1);
            }
            let ghost before = shells@;
            let found = shell_remove_from(shells, r as usize, key);
            proof {
                assert((r as usize) as u64 == r);
                assert forall|k: u64, x: u64|
                    0 <= k < len && old(shells)@[k as int] is Some implies #[trigger] count(from_of(shells@, k), x) + (if k == r && x == key { 1nat } else { 0nat }) == count(from_of(before, k), x) by {
                    if k != r {
                        assert(shells@[k as int] == before[k as int]);
                    }
                }
            }
        }
        t = t + 1;
    }
    proof {
        assert forall|r: u64| 0 <= r < len && old(shells)@[r as int] is Some implies #[trigger] count(from_of(shells@, r), key) + count(refs@, r) == count(from_of(old(shells)@, r), key) by {
            lemma_count_prefix_full(refs@, r);
        }
    }
}

/// `j` is among the entries of `s` from position `from` on.
pub open spec fn pushed(s: Seq<u64>, from: int, j: u64) -> bool {
    exists|u: int| from <= u < s.len() && s[u] == j
}


/// Drops from the items at `from` their references to the item at `key`,
/// which was `removed`; pushes on `remove` those that ask to be removed too.
fn detach_shell<T: Item>(
    items: &mut Vec<Option<T>>,
    key: Key<T>,
    removed: &T,
    from: &Vec<u64>,
    remove: &mut Vec<u64>,
)
    ensures
        final(items)@.len() == old(items)@.len(),
        forall|u: int|
            0 <= u < old(items)@.len() ==> (#[trigger] final(items)@[u] is Some <==> old(items)@[u] is Some),
        forall|j: u64, x: u64|
            0 <= j < old(items)@.len() && old(items)@[j as int] is Some && x != key@
                ==> #[trigger] count(final(items)@[j as int]->Some_0.refs(), x) == count(
                old(items)@[j as int]->Some_0.refs(),
                x,
            ),
        forall|j: u64|
            0 <= j < old(items)@.len() && old(items)@[j as int] is Some && count(from@, j) > 0
                ==> #[trigger] count(final(items)@[j as int]->Some_0.refs(), key@) == 0,
        forall|j: u64|
            0 <= j < old(items)@.len() && old(items)@[j as int] is Some && count(from@, j) == 0
                ==> #[trigger] final(items)@[j as int] == old(items)@[j as int],
        final(remove)@.len() >= old(remove)@.len(),
        final(remove)@.subrange(0, old(remove)@.len() as int) == old(remove)@,
        forall|t: int|
            old(remove)@.len() <= t < final(remove)@.len() ==> {
                let j = #[trigger] final(remove)@[t];
                &&& 0 <= j < old(items)@.len()
                &&& old(items)@[j as int] is Some
                &&& count(from@, j) > 0
                &&& !old(items)@[j as int]->Some_0.survives(key@)
            },
        forall|j: u64, x: u64|
            0 <= j < old(items)@.len() && old(items)@[j as int] is Some ==> #[trigger] final(items)@[j as int]->Some_0.survives(x)
                == old(items)@[j as int]->Some_0.survives(x),
        forall|j: u64|
            0 <= j < old(items)@.len() && old(items)@[j as int] is Some && count(from@, j) > 0
                && !old(items)@[j as int]->Some_0.survives(key@) ==> #[trigger] pushed(
                final(remove)@,
                old(remove)@.len() as int,
                j,
            ),
{
    let len = items.len();
    let mut t: usize = 0;
    while t < from.len()
        invariant
            0 <= t <= from@.len(),
            len == old(items)@.len(),
            items@.len() == len,
            forall|u: int| 0 <= u < len ==> (#[trigger] items@[u] is Some <==> old(items)@[u] is Some),
            forall|j: u64, x: u64|
                0 <= j < len && old(items)@[j as int] is Some && x != key@ ==> #[trigger] count(
                    items@[j as int]->Some_0.refs(),
                    x,
                ) == count(old(items)@[j as int]->Some_0.refs(), x),
            forall|j: u64|
                0 <= j < len && old(items)@[j as int] is Some && count_prefix(from@, t as int, j) > 0
                    ==> #[trigger] count(items@[j as int]->Some_0.refs(), key@) == 0,
            forall|j: u64|
                0 <= j < len && old(items)@[j as int] is Some && count_prefix(from@, t as int, j) == 0
                    ==> #[trigger] items@[j as int] == old(items)@[j as int],
            remove@.len() >= old(remove)@.len(),
            remove@.subrange(0, old(remove)@.len() as int) == old(remove)@,
            forall|u: int|
                old(remove)@.len() <= u < remove@.len() ==> {
                    let j = #[trigger] remove@[u];
                    &&& 0 <= j < len
                    &&& old(items)@[j as int] is Some
                    &&& count_prefix(from@, t as int, j) > 0
                    &&& !old(items)@[j as int]->Some_0.survives(key@)
                },
            forall|j: u64, x: u64|
                0 <= j < len && old(items)@[j as int] is Some ==> #[trigger] items@[j as int]->Some_0.survives(x)
                    == old(items)@[j as int]->Some_0.survives(x),
            forall|j: u64|
                0 <= j < len && old(items)@[j as int] is Some && count_prefix(from@, t as int, j) > 0
                    && !old(items)@[j as int]->Some_0.survives(key@) ==> #[trigger] pushed(
                    remove@,
                    old(remove)@.len() as int,
                    j,
                ),
        decreases from@.len() - t,
    {
        let j = from[t];
        proof {
            assert forall|k: u64| k != j implies #[trigger] count_prefix(from@, t + 1, k) == count_prefix(from@, t as int, k) by {
                lemma_count_prefix_step(from@, t as int, k);
            }
            lemma_count_prefix_step(from@, t as int, j);
            assert forall|u: int| old(remove)@.len() <= u < remove@.len() implies count_prefix(from@, t + 1, #[trigger] remove@[u]) > 0 by {
                lemma_count_prefix_mono(from@, t as int, t + 1, remove@[u]);
            }
        }
        if j < len as u64 && items[j as usize].is_some() {
            let ju = j as usize;
            let ghost before = items@;
            let keep = match &mut items[ju] {
                Some(other) => other.remove_reference(key, removed),
                None => true,
            };
            proof {
                assert(ju as u64 == j);
                assert forall|u: int| 0 <= u < len && u != ju implies #[trigger] items@[u] == before[u] by {}
            }
            let ghost rb = remove@;
            if !keep {
                remove.push(j);
                proof {
                    assert(remove@.subrange(0, old(remove)@.len() as int) =~= rb.subrange(0, old(remove)@.len() as int));
                    assert(remove@[remove@.len() - 1] == j);
                }
            }
            proof {
                assert forall|k: u64|
                    0 <= k < len && old(items)@[k as int] is Some && count_prefix(from@, t + 1, k) > 0
                        && !old(items)@[k as int]->Some_0.survives(key@) implies #[trigger] pushed(
                        remove@,
                        old(remove)@.len() as int,
                        k,
                    ) by {
                    if k == j {
                        assert(!before[ju as int]->Some_0.survives(key@));
                        assert(!keep);
                        assert(remove@[remove@.len() - 1] == k);
                    } else {
                        assert(pushed(rb, old(remove)@.len() as int, k));
                        let u = choose|u: int| old(remove)@.len() <= u < rb.len() && rb[u] == k;
                        assert(remove@[u] == k);
                    }
                }
            }
        }
        t = t + 1;
    }
    proof {
        assert forall|j: u64| 0 <= j < len implies #[trigger] count_prefix(from@, from@.len() as int, j) == count(from@, j) by {
            lemma_count_prefix_full(from@, j);
        }
    }
}

/// `d` is a new item in `after`, the duplicate of the item at `j` of
/// `before`, which references `from` and does not keep both: it references
/// what that item references, `to` in place of `from`.
pub open spec fn is_duplicate<T: Item>(
    before: Map<u64, T>,
    after: Map<u64, T>,
    j: u64,
    d: u64,
    from: u64,
    to: u64,
) -> bool {
    &&& after.dom().contains(d)
    &&& !before.dom().contains(d)
    &&& before.dom().contains(j)
    &&& count(before[j].refs(), from) > 0
    &&& j != to
    &&& !before[j].keeps_both(from)
    &&& forall|x: u64|
        #[trigger] count(after[d].refs(), x) == if x == from {
            0
        } else if x == to {
            count(before[j].refs(), to) + count(before[j].refs(), from)
        } else {
            count(before[j].refs(), x)
        }
}

/// `after` is `before` with the shell of `from` duplicated to `to`: every
/// item but `to` that references `from` now also references `to`, in place
/// where it keeps both, else through a new item, its duplicate; the items
/// that reference `from` and do not keep both, and those that do not
/// reference `from`, are unchanged, and every new item is such a duplicate.
pub open spec fn duplicated<T: Item>(before: Map<u64, T>, from: u64, to: u64, after: Map<u64, T>) -> bool {
    &&& forall|j: u64| #[trigger] before.dom().contains(j) ==> after.dom().contains(j)
    &&& forall|j: u64|
        #[trigger] before.dom().contains(j) && (count(before[j].refs(), from) == 0 || j == to
            || !before[j].keeps_both(from)) ==> after[j] == before[j]
    &&& forall|j: u64, x: u64|
        before.dom().contains(j) && count(before[j].refs(), from) > 0 && j != to && before[j].keeps_both(
            from,
        ) ==> #[trigger] count(after[j].refs(), x) == count(before[j].refs(), x) + if x == to {
            count(before[j].refs(), from)
        } else {
            0
        }
    &&& forall|j: u64|
        #[trigger] before.dom().contains(j) && count(before[j].refs(), from) > 0 && j != to
            && !before[j].keeps_both(from) ==> exists|d: u64| #[trigger] is_duplicate(before, after, j, d, from, to)
    &&& forall|d: u64|
        #[trigger] after.dom().contains(d) && !before.dom().contains(d) ==> exists|j: u64|
            #[trigger] is_duplicate(before, after, j, d, from, to)
}

/// `x` is among `v`.
fn holds_index(v: &Vec<u64>, x: u64) -> (r: bool)
    ensures
        r == v@.contains(x),
{
    let mut i: usize = 0;
    while i < v.len()
        invariant
            i <= v@.len(),
            forall|t: int| 0 <= t < i ==> v@[t] != x,
        decreases v@.len() - i,
    {
        if v[i] == x {
            return true;
        }
        i = i + 1;
    }
    false
}

/// A collection of items of one type, each with a shell that records the
/// items referencing it.
pub struct VecCollection<T> {
    items: Vec<Option<T>>,
    shells: Vec<Option<VecShell<T>>>,
    free: Vec<u64>,
}

impl<T: Item> View for VecCollection<T> {
    type V = Map<u64, T>;

    /// The items, by index.
    closed spec fn view(&self) -> Map<u64, T> {
        Map::new(|i: u64| self.live(i), |i: u64| self.items@[i as int]->Some_0)
    }
}

impl<T: Item> VecCollection<T> {
    /// An item is at index `i`.
    pub closed spec fn live(&self, i: u64) -> bool {
        0 < i < self.items@.len() && self.items@[i as int] is Some
    }

    /// Number of slots, taken or free, including the never used slot zero.
    pub closed spec fn slot_count(&self) -> nat {
        self.items@.len()
    }

    /// The key the next successful `add` issues.
    pub open spec fn next_key(&self) -> u64 {
        if self.free_keys().len() > 0 {
            self.free_keys().last()
        } else {
            self.slot_count() as u64
        }
    }

    /// The freed slots, reused last first.
    pub closed spec fn free_keys(&self) -> Seq<u64> {
        self.free@
    }

    /// The collection is well formed: shells exist exactly for items, every
    /// reference is to an item, and every shell records exactly the references
    /// to its item.
    pub closed spec fn wf(&self) -> bool {
        &&& self.items@.len() == self.shells@.len()
        &&& 1 <= self.items@.len() < u64::MAX
        &&& self.items@[0] is None
        &&& forall|i: int|
            0 <= i < self.items@.len() ==> (#[trigger] self.items@[i] is Some <==> self.shells@[i] is Some)
        &&& self.free@.no_duplicates()
        &&& forall|i: int|
            0 <= i < self.free@.len() ==> 0 < #[trigger] self.free@[i] < self.items@.len()
                && self.items@[self.free@[i] as int] is None
        &&& forall|j: u64, r: u64|
            self.live(j) && #[trigger] count(self.items@[j as int]->Some_0.refs(), r) > 0
                ==> self.live(r)
        &&& forall|k: u64, j: u64|
            self.live(k) ==> #[trigger] count(from_of(self.shells@, k), j) == ref_count(self@, j, k)
    }

    /// The view holds exactly the items.
    proof fn lemma_view_dom(&self)
        ensures
            forall|j: u64| #[trigger] self@.dom().contains(j) <==> self.live(j),
            forall|j: u64| self.live(j) ==> #[trigger] self@[j] == self.items@[j as int]->Some_0,
    {
    }

    /// What well-formedness says, over the view.
    proof fn lemma_wf_view(&self)
        requires
            self.wf(),
        ensures
            forall|j: u64| #[trigger] self@.dom().contains(j) <==> self.live(j),
            forall|j: u64| self.live(j) ==> #[trigger] self@[j] == self.items@[j as int]->Some_0,
            forall|j: u64, r: u64|
                self@.dom().contains(j) && #[trigger] count(self@[j].refs(), r) > 0
                    ==> self@.dom().contains(r),
            forall|j: u64|
                0 <= j < self.items@.len() ==> (self@.dom().contains(j) <==> (j != 0
                    && #[trigger] self.shells@[j as int] is Some)),
    {
        assert forall|j: u64, r: u64|
            self@.dom().contains(j) && #[trigger] count(self@[j].refs(), r) > 0 implies self@.dom().contains(r) by {
            assert(self.live(j));
            assert(count(self.items@[j as int]->Some_0.refs(), r) > 0);
        }
    }

    /// An empty collection.
    pub fn new() -> (r: Self)
        ensures
            r.wf(),
            r@ == Map::<u64, T>::empty(),
            r.slot_count() == 1,
            r.free_keys().len() == 0,
    {
        let r = VecCollection { items: vec![None], shells: vec![None], free: Vec::new() };
        assert(r@ =~= Map::<u64, T>::empty());
        r
    }

    /// Replaces the item at `key` with `set` and hands back the one it held,
    /// updating the references of both. Fails, handing `set` back and changing
    /// nothing, where no item is at `key` or `set` references an index that
    /// holds no item.
    pub fn set(&mut self, key: Key<T>, set: T) -> (r: Result<T, T>)
        requires
            old(self).wf(),
        ensures
            final(self).wf(),
            final(self).slot_count() == old(self).slot_count(),
            r is Ok <==> old(self)@.dom().contains(key@) && refs_in(set, old(self)@),
            r matches Ok(prev) ==> prev == old(self)@[key@] && final(self)@ == old(self)@.insert(
                key@,
                set,
            ),
            r matches Err(back) ==> back == set && final(self)@ == old(self)@,
    {
        proof {
            self.lemma_wf_view();
            self.lemma_view_dom();
        }
        let kv = key.index().get();
        let len = self.items.len();
        if kv >= len as u64 {
            return Err(set);
        }
        let ku = kv as usize;
        if self.items[ku].is_none() {
            return Err(set);
        }
        let ghost prev = self.items@[kv as int]->Some_0;
        proof {
            assert forall|k: u64| (k as int) < self.shells@.len() && self.shells@[k as int] is Some implies #[trigger] count(from_of(self.shells@, k), key@) >= count(prev.refs(), k) by {
                assert(self.items@[k as int] is Some);
                assert(self.live(k));
                assert(ref_count(self@, kv, k) == count(prev.refs(), k));
            }
        }
        let updated = match &self.items[ku] {
            Some(item) => update_diff(&mut self.shells, key, item, &set),
            None => false,
        };
        if !updated {
            proof {
                assert(self@ =~= old(self)@);
                assert(!refs_in(set, old(self)@)) by {
                    let x = choose|x: u64| #[trigger] count(set.refs(), x) > 0 && !((x as int) < old(self).shells@.len() && old(self).shells@[x as int] is Some);
                    assert(!old(self).live(x));
                }
            }
            return Err(set);
        }
        let mut slot: Option<T> = Some(set);
        self.items.set_and_swap(ku, &mut slot);
        let prev_item = slot.unwrap();
        proof {
            self.lemma_view_dom();
            assert forall|u: int| 0 <= u < self.items@.len() implies (#[trigger] self.items@[u] is Some <==> self.shells@[u] is Some) by {
                assert(old(self).items@[u] is Some <==> old(self).shells@[u] is Some);
            }
            assert forall|u: int| 0 <= u < self.free@.len() implies 0 < #[trigger] self.free@[u] < self.items@.len() && self.items@[self.free@[u] as int] is None by {
                assert(old(self).free@[u] == self.free@[u]);
            }
            assert forall|x: u64| #[trigger] count(set.refs(), x) > 0 implies old(self)@.dom().contains(x) by {
                assert((x as int) < old(self).shells@.len() && old(self).shells@[x as int] is Some);
                assert(old(self).items@[x as int] is Some);
            }
            assert(self@ =~= old(self)@.insert(kv, set)) by {
                assert forall|u: u64| #[trigger] self@.dom().contains(u) <==> old(self)@.insert(kv, set).dom().contains(u) by {
                    if u != kv && u < self.items@.len() {
                        assert(self.items@[u as int] == old(self).items@[u as int]);
                    }
                }
                assert forall|u: u64| #[trigger] self@.dom().contains(u) implies self@[u] == old(self)@.insert(kv, set)[u] by {
                    if u != kv && u < self.items@.len() {
                        assert(self.items@[u as int] == old(self).items@[u as int]);
                    }
                }
            }
            assert forall|jj: u64, x: u64| self.live(jj) && #[trigger] count(self.items@[jj as int]->Some_0.refs(), x) > 0 implies self.live(x) by {
                if jj == kv {
                    assert(old(self)@.dom().contains(x));
                } else {
                    assert(old(self).live(jj));
                    assert(self.items@[jj as int] == old(self).items@[jj as int]);
                }
            }
            assert forall|k: u64, jj: u64| self.live(k) implies #[trigger] count(from_of(self.shells@, k), jj) == ref_count(self@, jj, k) by {
                assert(old(self).live(k));
                assert(old(self).shells@[k as int] is Some);
                assert(count(from_of(old(self).shells@, k), jj) == ref_count(old(self)@, jj, k));
                if jj == kv {
                    assert(count(from_of(self.shells@, k), kv) == count(from_of(old(self).shells@, k), kv) + count(set.refs(), k) - count(prev.refs(), k));
                }
            }
        }
        Ok(prev_item)
    }

    /// Adds `item`; fails, handing it back unchanged, where it references an
    /// index that holds no item.
    pub fn add(&mut self, item: T) -> (r: Result<Key<T>, T>)
        requires
            old(self).wf(),
            old(self).slot_count() + 1 < u64::MAX,
        ensures
            final(self).wf(),
            r is Ok <==> refs_in(item, old(self)@),
            r matches Ok(k) ==> {
                &&& k@ == old(self).next_key()
                &&& !old(self)@.dom().contains(k@)
                &&& final(self)@ == old(self)@.insert(k@, item)
                &&& final(self).free_keys() == if old(self).free_keys().len() > 0 {
                    old(self).free_keys().drop_last()
                } else {
                    old(self).free_keys()
                }
                &&& final(self).slot_count() == if old(self).free_keys().len() > 0 {
                    old(self).slot_count()
                } else {
                    old(self).slot_count() + 1
                }
            },
            r matches Err(back) ==> back == item && final(self)@ == old(self)@,
            final(self).slot_count() <= old(self).slot_count() + 1,
    {
        let ghost old_view = self@;
        proof {
            self.lemma_wf_view();
        }
        let ghost old_len = self.items@.len();
        let key: u64 = match self.free.pop() {
            Some(k) => k,
            None => {
                let k = self.items.len() as u64;
                self.items.push(None);
                self.shells.push(None);
                k
            },
        };
        assert(self@ =~= old_view);
        let ghost popped = old(self).free@.len() > 0;
        let ghost free0 = self.free@;
        let ghost items0 = self.items@;
        proof {
            if popped {
                assert(free0 == old(self).free@.drop_last());
                assert(key == old(self).free@.last());
            } else {
                assert(free0 == old(self).free@);
                assert(key == old_len);
            }
            assert(!free0.contains(key)) by {
                if free0.contains(key) {
                    let u = choose|u: int| 0 <= u < free0.len() && free0[u] == key;
                    if popped {
                        assert(old(self).free@[u] == old(self).free@[old(self).free@.len() - 1]);
                    } else {
                        assert(old(self).free@[u] < old_len);
                    }
                }
            }
            assert(free0.no_duplicates());
            assert forall|u: int| 0 <= u < free0.len() implies 0 < #[trigger] free0[u] < items0.len() && items0[free0[u] as int] is None && free0[u] != key by {
                assert(free0[u] == old(self).free@[u]);
                assert(items0[free0[u] as int] == old(self).items@[free0[u] as int]);
            }
        }
        let ghost s0 = self.shells@;
        proof {
            assert(0 < key < items0.len());
            assert(items0[key as int] is None);
            assert forall|u: int| 0 <= u < items0.len() implies (#[trigger] items0[u] is Some <==> s0[u] is Some) by {
                if u < old_len {
                    assert(old(self).items@[u] is Some <==> old(self).shells@[u] is Some);
                }
            }
            assert forall|k: u64| 0 <= k < s0.len() implies (old_view.dom().contains(k) <==> (k != 0 && #[trigger] s0[k as int] is Some)) by {
                if k < old_len {
                    assert(old_view.dom().contains(k) <==> (k != 0 && old(self).shells@[k as int] is Some));
                }
            }
            assert forall|k: u64| #[trigger] old_view.dom().contains(k) implies k < s0.len() by {
                assert(old(self).live(k));
            }
            assert forall|k: u64, j: u64| old_view.dom().contains(k) implies #[trigger] count(from_of(s0, k), j) == ref_count(old_view, j, k) by {
                assert(old(self).live(k));
                assert(count(from_of(old(self).shells@, k), j) == ref_count(old(self)@, j, k));
            }
        }
        let refs = item.references();
        let mut i: usize = 0;
        while i < refs.len()
            invariant
                0 <= i <= refs@.len(),
                refs@.len() == item.refs().len(),
                forall|t: int| 0 <= t < refs@.len() ==> #[trigger] refs@[t]@ == item.refs()[t],
                self.items@ == items0,
                self.free@ == free0,
                self@ == old_view,
                old_view == old(self)@,
                items0.len() <= old(self).slot_count() + 1,
                items0.len() == s0.len(),
                1 <= items0.len() < u64::MAX,
                items0[0] is None,
                forall|u: int| 0 <= u < items0.len() ==> (#[trigger] items0[u] is Some <==> s0[u] is Some),
                !old_view.dom().contains(key),
                forall|j: u64, x: u64| old_view.dom().contains(j) && #[trigger] count(old_view[j].refs(), x) > 0 ==> old_view.dom().contains(x),
                forall|u: int| 0 <= u < free0.len() ==> 0 < #[trigger] free0[u] < items0.len() && items0[free0[u] as int] is None && free0[u] != key,
                free0.no_duplicates(),
                forall|k: u64| 0 <= k < s0.len() ==> (old_view.dom().contains(k) <==> (k != 0 && #[trigger] s0[k as int] is Some)),
                forall|k: u64| #[trigger] old_view.dom().contains(k) ==> k < s0.len(),
                forall|k: u64, j: u64| old_view.dom().contains(k) ==> #[trigger] count(from_of(s0, k), j) == ref_count(old_view, j, k),
                0 < key < self.items@.len(),
                self.items@[key as int] is None,
                self.shells@.len() == s0.len(),
                forall|t: int| 0 <= t < s0.len() ==> (#[trigger] self.shells@[t] is Some <==> s0[t] is Some),
                forall|k: u64, x: u64|
                    0 <= k < s0.len() && s0[k as int] is Some && x != key ==> #[trigger] count(from_of(self.shells@, k), x) == count(from_of(s0, k), x),
                forall|k: u64|
                    0 <= k < s0.len() && s0[k as int] is Some ==> #[trigger] count(from_of(self.shells@, k), key) == count(from_of(s0, k), key) + count_prefix(item.refs(), i as int, k),
                forall|t: int| 0 <= t < i ==> old_view.dom().contains(#[trigger] item.refs()[t]),
            decreases refs@.len() - i,
        {
            let r = refs[i].index().get();
            if r < self.shells.len() as u64 && self.shells[r as usize].is_some() {
                proof {
                    lemma_count_prefix_step(item.refs(), i as int, r);
                    assert forall|k: u64|
                        0 <= k < s0.len() && s0[k as int] is Some && k != r implies #[trigger] count_prefix(item.refs(), i + 1, k) == count_prefix(item.refs(), i as int, k) by {
                        lemma_count_prefix_step(item.refs(), i as int, k);
                    }
                }
                let ghost before = self.shells@;
                shell_add_from(&mut self.shells, r as usize, key);
                proof {
                    assert((r as usize) as u64 == r);
                    assert forall|k: u64, x: u64|
                        0 <= k < s0.len() && s0[k as int] is Some implies #[trigger] count(from_of(self.shells@, k), x) == count(from_of(before, k), x) + (if k == r && x == key { 1nat } else { 0nat }) by {
                        if k == r {
                            lemma_count_push(from_of(before, k), key, x);
                        } else {
                            assert(self.shells@[k as int] == before[k as int]);
                        }
                    }
                }
                i = i + 1;
            } else {
                proof {
                    assert(item.refs()[i as int] == r);
                    assert(item.refs().contains(r));
                    assert(!old_view.dom().contains(r));
                    assert(count(item.refs(), r) > 0);
                }
                let ghost s1 = self.shells@;
                let mut t: usize = 0;
                while t < i
                    invariant
                        0 <= t <= i < refs@.len(),
                        refs@.len() == item.refs().len(),
                        forall|u: int| 0 <= u < refs@.len() ==> #[trigger] refs@[u]@ == item.refs()[u],
                        self.items@ == items0,
                        self.free@ == free0,
                        self@ == old_view,
                        old_view == old(self)@,
                        items0.len() <= old(self).slot_count() + 1,
                        !old_view.dom().contains(item.refs()[i as int]),
                        items0.len() == s0.len(),
                        1 <= items0.len() < u64::MAX,
                        items0[0] is None,
                        forall|u: int| 0 <= u < items0.len() ==> (#[trigger] items0[u] is Some <==> s0[u] is Some),
                        !old_view.dom().contains(key),
                        forall|j: u64, x: u64| old_view.dom().contains(j) && #[trigger] count(old_view[j].refs(), x) > 0 ==> old_view.dom().contains(x),
                        forall|u: int| 0 <= u < free0.len() ==> 0 < #[trigger] free0[u] < items0.len() && items0[free0[u] as int] is None && free0[u] != key,
                        free0.no_duplicates(),
                        forall|k: u64| 0 <= k < s0.len() ==> (old_view.dom().contains(k) <==> (k != 0 && #[trigger] s0[k as int] is Some)),
                        forall|k: u64| #[trigger] old_view.dom().contains(k) ==> k < s0.len(),
                        forall|k: u64, j: u64| old_view.dom().contains(k) ==> #[trigger] count(from_of(s0, k), j) == ref_count(old_view, j, k),
                        0 < key < self.items@.len(),
                        self.items@[key as int] is None,
                        self.shells@.len() == s0.len(),
                        forall|u: int| 0 <= u < s0.len() ==> (#[trigger] self.shells@[u] is Some <==> s0[u] is Some),
                        forall|k: u64, x: u64|
                            0 <= k < s0.len() && s0[k as int] is Some && x != key ==> #[trigger] count(from_of(self.shells@, k), x) == count(from_of(s0, k), x),
                        forall|k: u64|
                            0 <= k < s0.len() && s0[k as int] is Some ==> #[trigger] count(from_of(self.shells@, k), key) + count_prefix(item.refs(), t as int, k) == count(from_of(s0, k), key) + count_prefix(item.refs(), i as int, k),
                        forall|u: int| 0 <= u < i ==> old_view.dom().contains(#[trigger] item.refs()[u]),
                    decreases i - t,
                {
                    let r = refs[t].index().get();
                    proof {
                        assert(old_view.dom().contains(item.refs()[t as int]));
                        assert(r < s0.len());
                        assert(s0[r as int] is Some);
                        assert(self.shells@[r as int] is Some);
                        lemma_count_prefix_step(item.refs(), t as int, r);
                        lemma_count_prefix_mono(item.refs(), t + 1, i as int, r);
                        assert forall|k: u64|
                            0 <= k < s0.len() && s0[k as int] is Some && k != r implies #[trigger] count_prefix(item.refs(), t + 1, k) == count_prefix(item.refs(), t as int, k) by {
                            lemma_count_prefix_step(item.refs(), t as int, k);
                        }
                    }
                    let shells_len = self.shells.len();
                    assert(r < shells_len);
                    let ru = r as usize;
                    assert(ru as u64 == r);
                    let ghost before = self.shells@;
                    let found = shell_remove_from(&mut self.shells, ru, key);
                    proof {
                        assert(count(from_of(before, r), key) >= 1);
                        assert(found);
                        assert forall|k: u64, x: u64|
                            0 <= k < s0.len() && s0[k as int] is Some implies #[trigger] count(from_of(self.shells@, k), x) + (if k == r && x == key { 1nat } else { 0nat }) == count(from_of(before, k), x) by {
                            if k != r {
                                assert(self.shells@[k as int] == before[k as int]);
                            }
                        }
                    }
                    t = t + 1;
                }
                self.free.push(key);
                proof {
                    self.lemma_view_dom();
                    assert(item.refs().contains(item.refs()[i as int]));
                    assert(count(item.refs(), item.refs()[i as int]) > 0);
                    assert forall|k: u64, j: u64| self.live(k) implies #[trigger] count(from_of(self.shells@, k), j) == ref_count(self@, j, k) by {
                        assert(old_view.dom().contains(k));
                        assert(k < s0.len() && s0[k as int] is Some);
                        if j == key {
                            assert(!old_view.dom().contains(key));
                            assert(count(from_of(s0, k), key) == ref_count(old_view, key, k));
                        } else {
                            assert(count(from_of(s0, k), j) == ref_count(old_view, j, k));
                        }
                    }
                    assert forall|u: int| 0 <= u < self.free@.len() implies 0 < #[trigger] self.free@[u] < self.items@.len() && self.items@[self.free@[u] as int] is None by {
                        if u < free0.len() {
                            assert(self.free@[u] == free0[u]);
                        }
                    }
                    assert(self.free@.no_duplicates()) by {
                        assert(!free0.contains(key));
                    }
                    assert forall|j: u64, x: u64| self.live(j) && #[trigger] count(self.items@[j as int]->Some_0.refs(), x) > 0 implies self.live(x) by {
                        assert(old_view.dom().contains(j));
                        assert(old_view[j] == self.items@[j as int]->Some_0);
                    }
                }
                return Err(item);
            }
        }
        let ghost s_end = self.shells@;
        proof {
            self.lemma_view_dom();
        }
        let items_len = self.items.len();
        assert(key < items_len);
        let ku = key as usize;
        self.items.set(ku, Some(item));
        self.shells.set(ku, Some(VecShell::new()));
        proof {
            self.lemma_view_dom();
            assert forall|j: u64| #[trigger] self@.dom().contains(j) <==> old_view.insert(key, item).dom().contains(j) by {
                if j != key && j < self.items@.len() {
                    assert(self.items@[j as int] == items0[j as int]);
                }
            }
            assert forall|j: u64| #[trigger] self@.dom().contains(j) implies self@[j] == old_view.insert(key, item)[j] by {
                if j != key && j < self.items@.len() {
                    assert(self.items@[j as int] == items0[j as int]);
                }
            }
            assert(self@ =~= old_view.insert(key, item));
            assert forall|u: int| 0 <= u < self.free@.len() implies 0 < #[trigger] self.free@[u] < self.items@.len() && self.items@[self.free@[u] as int] is None by {
                assert(self.free@[u] == free0[u]);
            }
            assert forall|j: u64, x: u64| self.live(j) && #[trigger] count(self.items@[j as int]->Some_0.refs(), x) > 0 implies self.live(x) by {
                if j == key {
                    assert(count(item.refs(), x) > 0);
                    assert(item.refs().contains(x));
                    let u = choose|u: int| 0 <= u < item.refs().len() && item.refs()[u] == x;
                    assert(old_view.dom().contains(item.refs()[u]));
                } else {
                    assert(old_view.dom().contains(j));
                    assert(old_view[j] == self.items@[j as int]->Some_0);
                }
            }
            assert forall|k: u64, j: u64| self.live(k) implies #[trigger] count(from_of(self.shells@, k), j) == ref_count(self@, j, k) by {
                if k == key {
                    assert(from_of(self.shells@, k) =~= Seq::<u64>::empty());
                    if j == key {
                        if count(item.refs(), key) > 0 {
                            assert(item.refs().contains(key));
                            let u = choose|u: int| 0 <= u < item.refs().len() && item.refs()[u] == key;
                            assert(old_view.dom().contains(item.refs()[u]));
                        }
                    } else if old_view.dom().contains(j) {
                        if count(old_view[j].refs(), key) > 0 {
                            assert(old_view.dom().contains(key));
                        }
                    }
                } else {
                    assert(old_view.dom().contains(k));
                    assert(k < s0.len() && s0[k as int] is Some);
                    assert(self.shells@[k as int] == s_end[k as int]);
                    assert(from_of(self.shells@, k) == from_of(s_end, k));
                    lemma_count_prefix_full(item.refs(), k);
                    if j == key {
                        assert(count(from_of(s0, k), key) == ref_count(old_view, key, k));
                        assert(ref_count(old_view, key, k) == 0);
                        assert(count(from_of(s_end, k), key) == count(item.refs(), k));
                        assert(ref_count(self@, key, k) == count(item.refs(), k));
                    } else {
                        assert(count(from_of(s0, k), j) == ref_count(old_view, j, k));
                        assert(count(from_of(s_end, k), j) == count(from_of(s0, k), j));
                        assert(ref_count(self@, j, k) == ref_count(old_view, j, k));
                    }
                }
            }
        }
        Ok(Key::new(Index::new(key).unwrap()))
    }

    /// Number of items.
    pub closed spec fn live_count(&self) -> nat {
        some_count(self.items@)
    }

    /// Removes the item at `key` with its shell, dropping its references and
    /// every reference to it. The indices of the items that ask to be removed
    /// along with it are pushed on `remove`.
    fn remove_entity(&mut self, key: u64, remove: &mut Vec<u64>) -> (r: Option<T>)
        requires
            old(self).wf(),
        ensures
            final(self).wf(),
            final(self).slot_count() == old(self).slot_count(),
            r is Some <==> old(self)@.dom().contains(key),
            r is None ==> *final(self) == *old(self) && final(remove)@ == old(remove)@,
            r matches Some(it) ==> {
                &&& it == old(self)@[key]
                &&& final(self)@.dom() == old(self)@.dom().remove(key)
                &&& final(self).live_count() + 1 == old(self).live_count()
                &&& forall|j: u64, x: u64|
                    final(self)@.dom().contains(j) ==> #[trigger] count(final(self)@[j].refs(), x)
                        == if x == key {
                        0
                    } else {
                        count(old(self)@[j].refs(), x)
                    }
                &&& forall|j: u64|
                    final(self)@.dom().contains(j) && count(old(self)@[j].refs(), key) == 0
                        ==> #[trigger] final(self)@[j] == old(self)@[j]
                &&& final(remove)@.len() >= old(remove)@.len()
                &&& final(remove)@.subrange(0, old(remove)@.len() as int) == old(remove)@
                &&& forall|t: int|
                    old(remove)@.len() <= t < final(remove)@.len() ==> {
                        let j = #[trigger] final(remove)@[t];
                        &&& final(self)@.dom().contains(j)
                        &&& count(old(self)@[j].refs(), key) > 0
                        &&& !old(self)@[j].survives(key)
                    }
                &&& forall|j: u64, x: u64|
                    final(self)@.dom().contains(j) ==> #[trigger] final(self)@[j].survives(x) == old(
                        self,
                    )@[j].survives(x)
                &&& forall|j: u64|
                    final(self)@.dom().contains(j) && count(old(self)@[j].refs(), key) > 0
                        && !old(self)@[j].survives(key) ==> #[trigger] pushed(
                        final(remove)@,
                        old(remove)@.len() as int,
                        j,
                    )
            },
    {
        proof {
            self.lemma_wf_view();
        }
        let len = self.items.len();
        if key == 0 || key >= len as u64 {
            return None;
        }
        let ku = key as usize;
        if self.items[ku].is_none() {
            return None;
        }
        let ghost s0 = *self;
        let ghost v0 = self@;
        let mut slot: Option<T> = None;
        self.items.set_and_swap(ku, &mut slot);
        let item = match slot {
            Some(it) => it,
            None => {
                return None;
            },
        };
        let mut shell_slot: Option<VecShell<T>> = None;
        self.shells.set_and_swap(ku, &mut shell_slot);
        let shell = match shell_slot {
            Some(sh) => sh,
            None => {
                return None;
            },
        };
        self.free.push(key);
        let ghost s1 = self.shells@;
        let ghost i1 = self.items@;
        // item --> others
        let item_keys = item.references();
        let refs = indices_of(&item_keys);
        proof {
            assert(item == v0[key]);
            assert forall|t: int| 0 <= t < refs@.len() implies refs@[t] == item.refs()[t] by {
                assert(refs@[t] == item_keys@[t]@);
            }
            assert forall|x: u64| #[trigger] count(refs@, x) == count(item.refs(), x) by {
                lemma_indices_count(refs@, item.refs(), x);
            }
            assert forall|r: u64| 0 <= r < s1.len() && s1[r as int] is Some implies count(refs@, r) <= #[trigger] count(from_of(s1, r), key) by {
                assert(r != key);
                assert(s0.live(r));
                assert(s1[r as int] == s0.shells@[r as int]);
                assert(count(from_of(s0.shells@, r), key) == ref_count(v0, key, r));
            }
        }
        detach_item(&mut self.shells, key, &refs);
        // item <-- others
        let from = shell.from();
        proof {
            assert(from@ == from_of(s0.shells@, key));
        }
        detach_shell(&mut self.items, Key::new(Index::new(key).unwrap()), &item, &from, remove);
        proof {
            let s2 = self.shells@;
            let i2 = self.items@;
            assert(i1 == s0.items@.update(ku as int, None));
            lemma_some_count_take(s0.items@, ku as int);
            lemma_some_count_shape(i2, i1);
            self.lemma_view_dom();
            assert forall|j: u64| #[trigger] self.live(j) <==> s0.live(j) && j != key by {
                if 0 < j < i2.len() {
                    assert(i2[j as int] is Some <==> i1[j as int] is Some);
                }
            }
            assert(self@.dom() =~= v0.dom().remove(key));
            assert forall|j: u64| self@.dom().contains(j) && count(v0[j].refs(), key) == 0 implies #[trigger] self@[j] == v0[j] by {
                assert(i1[j as int] == s0.items@[j as int]);
                assert(count(from@, j) == ref_count(v0, j, key));
            }
            assert forall|j: u64, x: u64| self@.dom().contains(j) implies #[trigger] count(self@[j].refs(), x) == if x == key { 0 } else { count(v0[j].refs(), x) } by {
                assert(i1[j as int] == s0.items@[j as int]);
                if x == key {
                    assert(count(from@, j) == ref_count(v0, j, key));
                }
            }
            assert forall|u: int| old(remove)@.len() <= u < remove@.len() implies ({
                let j = #[trigger] remove@[u];
                &&& self@.dom().contains(j)
                &&& count(v0[j].refs(), key) > 0
            }) by {
                let j = remove@[u];
                assert(i1[j as int] is Some);
                assert(j != key);
                assert(count(from@, j) == ref_count(v0, j, key));
            }
            // well-formedness
            assert(self.free@.no_duplicates()) by {
                assert forall|u: int| 0 <= u < s0.free@.len() implies #[trigger] s0.free@[u] != key by {}
            }
            assert forall|u: int| 0 <= u < self.free@.len() implies 0 < #[trigger] self.free@[u] < self.items@.len() && self.items@[self.free@[u] as int] is None by {
                if u < s0.free@.len() {
                    assert(self.free@[u] == s0.free@[u]);
                    assert(i1[self.free@[u] as int] is None);
                }
            }
            assert forall|u: int| 0 <= u < self.items@.len() implies (#[trigger] self.items@[u] is Some <==> self.shells@[u] is Some) by {
                assert(i2[u] is Some <==> i1[u] is Some);
                assert(s2[u] is Some <==> s1[u] is Some);
                assert(s0.items@[u] is Some <==> s0.shells@[u] is Some);
            }
            assert forall|j: u64, x: u64| self.live(j) && #[trigger] count(self.items@[j as int]->Some_0.refs(), x) > 0 implies self.live(x) by {
                assert(self@.dom().contains(j));
                assert(count(self@[j].refs(), x) > 0);
                assert(x != key);
                assert(count(v0[j].refs(), x) > 0);
            }
            assert forall|k: u64, j: u64| self.live(k) implies #[trigger] count(from_of(self.shells@, k), j) == ref_count(self@, j, k) by {
                assert(s0.live(k) && k != key);
                assert(s1[k as int] == s0.shells@[k as int]);
                assert(count(from_of(s0.shells@, k), j) == ref_count(v0, j, k));
                if j == key {
                    assert(count(from_of(s0.shells@, k), key) == count(item.refs(), k));
                } else if self@.dom().contains(j) {
                    assert(count(self@[j].refs(), k) == count(v0[j].refs(), k));
                }
            }
            assert forall|j: u64, x: u64| self@.dom().contains(j) implies #[trigger] self@[j].survives(x) == old(self)@[j].survives(x) by {
                assert(i1[j as int] == s0.items@[j as int]);
            }
            assert forall|j: u64| self@.dom().contains(j) && count(old(self)@[j].refs(), key) > 0 && !old(self)@[j].survives(key) implies #[trigger] pushed(remove@, old(remove)@.len() as int, j) by {
                assert(i1[j as int] == s0.items@[j as int]);
                assert(count(from@, j) == ref_count(v0, j, key));
            }
            assert(item == old(self)@[key]);
            assert(self@.dom() == old(self)@.dom().remove(key));
            assert(self.live_count() + 1 == old(self).live_count());
            assert(remove@.len() >= old(remove)@.len());
            assert(remove@.subrange(0, old(remove)@.len() as int) == old(remove)@);
        }
        Some(item)
    }

    /// Removes the item at `key` and hands it back. An item that, on losing
    /// its reference to a removed item, asks to be removed, is removed as well,
    /// and so on. `None`, changing nothing, where no item is at `key`.
    pub fn take(&mut self, key: Key<T>) -> (r: Option<T>)
        requires
            old(self).wf(),
        ensures
            final(self).wf(),
            r is Some <==> old(self)@.dom().contains(key@),
            r matches Some(it) ==> it == old(self)@[key@],
            r is None ==> final(self)@ == old(self)@,
            cascade(old(self)@, key@, final(self)@),
            final(self).slot_count() == old(self).slot_count(),
    {
        let kv = key.index().get();
        let mut remove: Vec<u64> = Vec::new();
        let item = self.remove_entity(kv, &mut remove);
        let ghost mut order: Seq<u64> = if item is Some { seq![kv] } else { Seq::empty() };
        proof {
            assert forall|t: int| 0 <= t < remove@.len() implies old(self)@.dom().contains(#[trigger] remove@[t]) && doomed(old(self)@[remove@[t]], old(self)@, self@) by {
                let j = remove@[t];
                assert(count(old(self)@[j].refs(), kv) > 0);
                assert(!old(self)@[j].survives(kv));
            }
            assert forall|x: u64| #[trigger] order.contains(x) <==> (old(self)@.dom().contains(x) && !self@.dom().contains(x)) by {
                if item is Some {
                    if x == kv {
                        assert(order[0] == kv);
                    }
                } else {
                    assert(self@ == old(self)@);
                }
            }
            assert forall|j: u64| self@.dom().contains(j) && !refs_removed(old(self)@[j], old(self)@, self@) implies #[trigger] self@[j] == old(self)@[j] by {
                if item is Some {
                    if count(old(self)@[j].refs(), kv) > 0 {
                        assert(old(self)@.dom().contains(kv) && !self@.dom().contains(kv));
                    }
                }
            }
            assert forall|j: u64, x: u64|
                self@.dom().contains(j) && old(self)@.dom().contains(x) && !self@.dom().contains(x)
                    && #[trigger] count(old(self)@[j].refs(), x) > 0 && !old(self)@[j].survives(x) implies remove@.contains(j) by {
                assert(item is Some);
                assert(x == kv);
                assert(pushed(remove@, 0, j));
                let u = choose|u: int| 0 <= u < remove@.len() && remove@[u] == j;
                assert(remove@[u] == j);
            }
        }
        while remove.len() > 0
            invariant
                self.wf(),
                self.slot_count() == old(self).slot_count(),
                item is Some <==> old(self)@.dom().contains(kv),
                item matches Some(it) ==> it == old(self)@[kv],
                item is None ==> self@ == old(self)@ && remove@.len() == 0,
                !self@.dom().contains(kv),
                self@.dom().subset_of(old(self)@.dom()),
                forall|j: u64, x: u64|
                    self@.dom().contains(j) ==> #[trigger] count(self@[j].refs(), x) == if self@.dom().contains(x) {
                        count(old(self)@[j].refs(), x)
                    } else {
                        0
                    },
                forall|j: u64|
                    self@.dom().contains(j) && !refs_removed(old(self)@[j], old(self)@, self@)
                        ==> #[trigger] self@[j] == old(self)@[j],
                removal_order(order, kv, old(self)@, self@),
                forall|t: int|
                    0 <= t < remove@.len() ==> old(self)@.dom().contains(#[trigger] remove@[t])
                        && doomed(old(self)@[remove@[t]], old(self)@, self@),
                forall|j: u64, x: u64|
                    self@.dom().contains(j) ==> #[trigger] self@[j].survives(x) == old(self)@[j].survives(x),
                forall|j: u64, x: u64|
                    self@.dom().contains(j) && old(self)@.dom().contains(x) && !self@.dom().contains(x)
                        && #[trigger] count(old(self)@[j].refs(), x) > 0 && !old(self)@[j].survives(x)
                        ==> remove@.contains(j),
            ensures
                remove@.len() == 0,
            decreases self.live_count(), remove@.len(),
        {
            let ghost cur = self@;
            let ghost rem0 = remove@;
            let rf = match remove.pop() {
                Some(rf) => rf,
                None => {
                    break;
                },
            };
            let ghost rem1 = remove@;
            proof {
                assert(rem1 =~= rem0.drop_last());
                assert(rf == rem0[rem0.len() - 1]);
            }
            let removed = self.remove_entity(rf, &mut remove);
            proof {
                if removed is Some {
                    assert(self@.dom() =~= cur.dom().remove(rf));
                    assert forall|j: u64, x: u64| self@.dom().contains(j) implies #[trigger] count(self@[j].refs(), x) == if self@.dom().contains(x) { count(old(self)@[j].refs(), x) } else { 0 } by {
                        assert(count(cur[j].refs(), x) == if cur.dom().contains(x) { count(old(self)@[j].refs(), x) } else { 0 });
                    }
                    assert forall|j: u64| self@.dom().contains(j) && !refs_removed(old(self)@[j], old(self)@, self@) implies #[trigger] self@[j] == old(self)@[j] by {
                        if refs_removed(old(self)@[j], old(self)@, cur) {
                            lemma_refs_removed_grow(old(self)@[j], old(self)@, cur, self@);
                        }
                        assert(cur[j] == old(self)@[j]);
                        if count(old(self)@[j].refs(), rf) > 0 {
                            assert(!self@.dom().contains(rf));
                        }
                        assert(count(cur[j].refs(), rf) == 0);
                    }
                    assert forall|t: int| 0 <= t < remove@.len() implies old(self)@.dom().contains(#[trigger] remove@[t]) && doomed(old(self)@[remove@[t]], old(self)@, self@) by {
                        let j = remove@[t];
                        if t < rem1.len() {
                            assert(remove@.subrange(0, rem1.len() as int)[t] == rem1[t]);
                            assert(rem1[t] == rem0[t]);
                            lemma_doomed_grow(old(self)@[j], old(self)@, cur, self@);
                        } else {
                            assert(count(cur[j].refs(), rf) > 0);
                            assert(cur.dom().contains(rf));
                            assert(count(cur[j].refs(), rf) == count(old(self)@[j].refs(), rf));
                            assert(count(old(self)@[j].refs(), rf) > 0);
                            assert(!cur[j].survives(rf));
                            assert(!old(self)@[j].survives(rf));
                        }
                    }
                    // the removal order grows by `rf`
                    let o0 = order;
                    let n = o0.len() as int;
                    assert(doomed(old(self)@[rf], old(self)@, cur)) by {
                        assert(rem0[rem0.len() - 1] == rf);
                    }
                    let x = choose|x: u64| old(self)@.dom().contains(x) && !cur.dom().contains(x) && #[trigger] count(old(self)@[rf].refs(), x) > 0 && !old(self)@[rf].survives(x);
                    assert(o0.contains(x));
                    let p = choose|p: int| 0 <= p < o0.len() && o0[p] == x;
                    order = o0.push(rf);
                    assert(!o0.contains(rf));
                    assert(order.no_duplicates());
                    assert(order.len() > 0 ==> order[0] == kv) by {
                        assert(item is Some);
                        assert(o0.contains(kv));
                    }
                    assert forall|y: u64| #[trigger] order.contains(y) <==> (old(self)@.dom().contains(y) && !self@.dom().contains(y)) by {
                        if y == rf {
                            assert(order[n] == rf);
                        } else if o0.contains(y) {
                            let q = choose|q: int| 0 <= q < o0.len() && o0[q] == y;
                            assert(order[q] == y);
                        } else if order.contains(y) {
                            let q = choose|q: int| 0 <= q < order.len() && order[q] == y;
                            assert(q < n);
                            assert(o0[q] == y);
                        }
                    }
                    assert forall|i: int| 0 < i < order.len() implies #[trigger] refs_earlier(order, i, old(self)@) by {
                        if i == n {
                            assert(order[n] == rf);
                            assert(order[p] == x);
                            assert(count(old(self)@[order[i]].refs(), order[p]) > 0);
                            assert(!old(self)@[order[i]].survives(order[p]));
                        } else {
                            assert(refs_earlier(o0, i, old(self)@));
                            let q = choose|q: int| 0 <= q < i && #[trigger] count(old(self)@[o0[i]].refs(), o0[q]) > 0 && !old(self)@[o0[i]].survives(o0[q]);
                            assert(order[q] == o0[q]);
                            assert(order[i] == o0[i]);
                            assert(count(old(self)@[order[i]].refs(), order[q]) > 0);
                            assert(!old(self)@[order[i]].survives(order[q]));
                        }
                    }
                    assert forall|j: u64, x: u64| self@.dom().contains(j) implies #[trigger] self@[j].survives(x) == old(self)@[j].survives(x) by {
                        assert(self@[j].survives(x) == cur[j].survives(x));
                    }
                    assert forall|j: u64, x: u64|
                        self@.dom().contains(j) && old(self)@.dom().contains(x) && !self@.dom().contains(x)
                            && #[trigger] count(old(self)@[j].refs(), x) > 0 && !old(self)@[j].survives(x) implies remove@.contains(j) by {
                        if x == rf {
                            assert(count(cur[j].refs(), rf) == count(old(self)@[j].refs(), rf));
                            assert(!cur[j].survives(rf));
                            assert(pushed(remove@, rem1.len() as int, j));
                            let u = choose|u: int| rem1.len() <= u < remove@.len() && remove@[u] == j;
                            assert(remove@[u] == j);
                        } else {
                            assert(rem0.contains(j));
                            let q = choose|q: int| 0 <= q < rem0.len() && rem0[q] == j;
                            assert(q < rem1.len());
                            assert(rem1[q] == j);
                            assert(remove@.subrange(0, rem1.len() as int)[q] == rem1[q]);
                            assert(remove@[q] == j);
                        }
                    }
                } else {
                    assert forall|t: int| 0 <= t < remove@.len() implies old(self)@.dom().contains(#[trigger] remove@[t]) && doomed(old(self)@[remove@[t]], old(self)@, self@) by {
                        assert(remove@[t] == rem0[t]);
                    }
                    assert forall|j: u64, x: u64|
                        self@.dom().contains(j) && old(self)@.dom().contains(x) && !self@.dom().contains(x)
                            && #[trigger] count(old(self)@[j].refs(), x) > 0 && !old(self)@[j].survives(x) implies remove@.contains(j) by {
                        assert(rem0.contains(j));
                        let q = choose|q: int| 0 <= q < rem0.len() && rem0[q] == j;
                        assert(q < rem1.len());
                        assert(remove@[q] == j);
                    }
                }
            }
        }
        proof {
            assert(removal_order(order, kv, old(self)@, self@));
            assert forall|j: u64, x: u64|
                self@.dom().contains(j) && old(self)@.dom().contains(x) && !self@.dom().contains(x)
                    && #[trigger] count(old(self)@[j].refs(), x) > 0 implies old(self)@[j].survives(x) by {
                if !old(self)@[j].survives(x) {
                    assert(remove@.contains(j));
                }
            }
        }
        item
    }

    /// The indices of the items referencing the item at `key`, once per
    /// reference.
    pub closed spec fn referrers(&self, key: u64) -> Seq<u64> {
        from_of(self.shells@, key)
    }

    /// Where the item at `j` keeps both, gives it a reference to `to` for
    /// each of its references to `from`, recorded in the shell of `to`; else
    /// changes nothing and answers true: the item is to be duplicated.
    fn duplicate_in_place(&mut self, j: u64, from: Key<T>, to: Key<T>) -> (need: bool)
        requires
            old(self).wf(),
            old(self)@.dom().contains(j),
            old(self)@.dom().contains(to@),
            from@ != to@,
        ensures
            final(self).wf(),
            final(self).slot_count() == old(self).slot_count(),
            need == !old(self)@[j].keeps_both(from@),
            need ==> final(self)@ == old(self)@,
            !need ==> final(self)@.dom() == old(self)@.dom(),
            !need ==> forall|k: u64|
                k != j && old(self)@.dom().contains(k) ==> #[trigger] final(self)@[k] == old(self)@[k],
            !need ==> forall|x: u64|
                #[trigger] count(final(self)@[j].refs(), x) == count(old(self)@[j].refs(), x) + if x == to@ {
                    count(old(self)@[j].refs(), from@)
                } else {
                    0
                },
    {
        proof {
            self.lemma_wf_view();
        }
        let ju = j as usize;
        let tv = to.index().get();
        let tu = tv as usize;
        let ghost item0 = self.items@[j as int]->Some_0;
        proof {
            assert(self.live(j));
            assert(self.items@.len() == self.items.len());
            assert((ju as int) == j as int);
        }
        let mut slot: Option<T> = None;
        self.items.set_and_swap(ju, &mut slot);
        let mut item = slot.unwrap();
        let keys = item.references();
        let idx = indices_of(&keys);
        proof {
            assert forall|t: int| 0 <= t < idx@.len() implies idx@[t] == item0.refs()[t] by {
                assert(idx@[t] == keys@[t]@);
            }
            lemma_indices_count(idx@, item0.refs(), from@);
        }
        let c = count_in(&idx, idx.len(), from.index().get());
        proof {
            lemma_count_prefix_full(idx@, from@);
        }
        let need = item.duplicate_reference(from, to);
        let ghost item1 = item;
        let mut back = Some(item);
        self.items.set_and_swap(ju, &mut back);
        if need {
            proof {
                assert(self.items@ =~= old(self).items@);
                assert(self@ =~= old(self)@);
            }
            return true;
        }
        let ghost mid_shells = self.shells@;
        let mut n: usize = 0;
        while n < c
            invariant
                n <= c,
                self.items@ == old(self).items@.update(j as int, Some(item1)),
                c == count(item0.refs(), from@),
                item0 == old(self).items@[j as int]->Some_0,
                forall|x: u64|
                    #[trigger] count(item1.refs(), x) == count(item0.refs(), x) + if x == to@ {
                        count(item0.refs(), from@)
                    } else {
                        0
                    },
                self.free@ == old(self).free@,
                self.shells@.len() == old(self).shells@.len(),
                (tu as int) < old(self).shells@.len(),
                tu as u64 == tv,
                tv == to@,
                old(self).shells@[tv as int] is Some,
                forall|u: int| 0 <= u < old(self).shells@.len() ==> (#[trigger] self.shells@[u] is Some <==> old(self).shells@[u] is Some),
                forall|k: u64, x: u64|
                    (k as int) < old(self).shells@.len() && old(self).shells@[k as int] is Some ==> #[trigger] count(
                        from_of(self.shells@, k),
                        x,
                    ) == count(from_of(old(self).shells@, k), x) + if k == tv && x == j {
                        n as nat
                    } else {
                        0
                    },
            decreases c - n,
        {
            let ghost bs = self.shells@;
            shell_add_from(&mut self.shells, tu, j);
            proof {
                assert(from_of(self.shells@, tv) == from_of(bs, tv).push(j));
                assert forall|k: u64, x: u64| (k as int) < old(self).shells@.len() && old(self).shells@[k as int] is Some implies #[trigger] count(
                    from_of(self.shells@, k),
                    x,
                ) == count(from_of(old(self).shells@, k), x) + if k == tv && x == j {
                    (n + 1) as nat
                } else {
                    0
                } by {
                    assert(count(from_of(bs, k), x) == count(from_of(old(self).shells@, k), x) + if k == tv && x == j {
                        n as nat
                    } else {
                        0
                    });
                    if k == tv {
                        lemma_count_push(from_of(bs, k), j, x);
                    } else {
                        assert(self.shells@[k as int] == bs[k as int]);
                    }
                }
            }
            n = n + 1;
        }
        proof {
            let it = self.items@[j as int]->Some_0;
            self.lemma_view_dom();
            assert forall|u: int| 0 <= u < self.items@.len() implies (#[trigger] self.items@[u] is Some <==> self.shells@[u] is Some) by {
                assert(old(self).items@[u] is Some <==> old(self).shells@[u] is Some);
            }
            assert forall|u: int| 0 <= u < self.free@.len() implies 0 < #[trigger] self.free@[u] < self.items@.len() && self.items@[self.free@[u] as int] is None by {
                assert(old(self).free@[u] == self.free@[u]);
            }
            assert forall|k: u64| #[trigger] self.live(k) == old(self).live(k) by {}
            assert forall|jj: u64, x: u64| self.live(jj) && #[trigger] count(self.items@[jj as int]->Some_0.refs(), x) > 0 implies self.live(x) by {
                if jj == j {
                    if x != tv {
                        assert(count(item0.refs(), x) > 0);
                    }
                } else {
                    assert(self.items@[jj as int] == old(self).items@[jj as int]);
                }
            }
            assert forall|k: u64, jj: u64| self.live(k) implies #[trigger] count(from_of(self.shells@, k), jj) == ref_count(self@, jj, k) by {
                assert(old(self).live(k));
                assert(count(from_of(old(self).shells@, k), jj) == ref_count(old(self)@, jj, k));
                if jj != j {
                    if self@.dom().contains(jj) {
                        assert(self.items@[jj as int] == old(self).items@[jj as int]);
                    }
                }
            }
            assert(self@.dom() =~= old(self)@.dom());
            assert forall|k: u64| k != j && old(self)@.dom().contains(k) implies #[trigger] self@[k] == old(self)@[k] by {
                assert(self.items@[k as int] == old(self).items@[k as int]);
            }
        }
        false
    }

    /// Duplicates the shell of `from` to `to`, so that what references the
    /// item at `from` also references the item at `to`: each item but `to`
    /// that references `from` adds references to `to` in place where it
    /// keeps both, else is duplicated, the duplicate referencing `to` in
    /// place of `from`. False, changing nothing, where either holds no item.
    pub fn duplicate_shell(&mut self, from: Key<T>, to: Key<T>) -> (r: bool)
        requires
            old(self).wf(),
            old(self).slot_count() + old(self).referrers(from@).len() + 1 < u64::MAX,
        ensures
            final(self).wf(),
            r <==> old(self)@.dom().contains(from@) && old(self)@.dom().contains(to@),
            !r ==> final(self)@ == old(self)@,
            r && from@ == to@ ==> final(self)@ == old(self)@,
            r && from@ != to@ ==> duplicated(old(self)@, from@, to@, final(self)@),
    {
        let fv = from.index().get();
        let tv = to.index().get();
        if self.get(to).is_none() {
            return false;
        }
        let refs = match self.from(from) {
            Some(v) => v,
            None => {
                return false;
            },
        };
        if fv == tv {
            return true;
        }
        let ghost b = self@;
        let ghost s0 = self.slot_count();
        proof {
            self.lemma_wf_view();
        }
        let mut done: Vec<u64> = Vec::new();
        let mut t: usize = 0;
        while t < refs.len()
            invariant
                self.wf(),
                b == old(self)@,
                s0 == old(self).slot_count(),
                s0 + refs@.len() + 1 < u64::MAX,
                fv == from@,
                tv == to@,
                fv != tv,
                b.dom().contains(fv),
                b.dom().contains(tv),
                forall|j: u64| #[trigger] count(refs@, j) == ref_count(b, j, fv),
                forall|j: u64, x: u64| b.dom().contains(j) && #[trigger] count(b[j].refs(), x) > 0 ==> b.dom().contains(x),
                t <= refs@.len(),
                done@.no_duplicates(),
                done@.len() <= t,
                self.slot_count() <= s0 + done@.len(),
                forall|u: int| 0 <= u < t ==> #[trigger] refs@[u] == tv || done@.contains(refs@[u]),
                forall|j: u64| #[trigger] b.dom().contains(j) ==> self@.dom().contains(j),
                forall|j: u64| #[trigger] b.dom().contains(j) && !done@.contains(j) ==> self@[j] == b[j],
                forall|u: int|
                    0 <= u < done@.len() ==> b.dom().contains(#[trigger] done@[u]) && count(b[done@[u]].refs(), fv) > 0
                        && done@[u] != tv,
                forall|j: u64|
                    #[trigger] done@.contains(j) && !b[j].keeps_both(fv) ==> self@[j] == b[j] && exists|d: u64|
                        #[trigger] is_duplicate(b, self@, j, d, fv, tv),
                forall|j: u64, x: u64|
                    done@.contains(j) && b[j].keeps_both(fv) ==> #[trigger] count(self@[j].refs(), x) == count(
                        b[j].refs(),
                        x,
                    ) + if x == tv {
                        count(b[j].refs(), fv)
                    } else {
                        0
                    },
                forall|d: u64|
                    #[trigger] self@.dom().contains(d) && !b.dom().contains(d) ==> exists|j: u64|
                        #[trigger] is_duplicate(b, self@, j, d, fv, tv),
            decreases refs@.len() - t,
        {
            let j = refs[t];
            if j == tv || holds_index(&done, j) {
                t = t + 1;
                continue;
            }
            let ghost v0 = self@;
            proof {
                assert(count(refs@, j) > 0) by {
                    assert(refs@.contains(j));
                }
                assert(b.dom().contains(j));
                assert(count(b[j].refs(), fv) > 0);
            }
            let need = self.duplicate_in_place(j, from, to);
            let ghost v1 = self@;
            if need {
                let ju = j as usize;
                proof {
                    self.lemma_wf_view();
                    assert(self.items@.len() == self.items.len());
                    assert(self.items@[j as int] is Some);
                    assert(ju as int == j as int);
                }
                let mut d = match &self.items[ju] {
                    Some(it) => it.duplicate(),
                    None => {
                        proof {
                            assert(false);
                        }
                        return false;
                    },
                };
                d.replace_reference(from, to);
                let ghost dv = d;
                proof {
                    assert(self@[j] == b[j]);
                    assert forall|x: u64| #[trigger] count(dv.refs(), x) > 0 implies self@.dom().contains(x) by {
                        if x != tv {
                            assert(count(b[j].refs(), x) > 0);
                        }
                    }
                }
                match self.add(d) {
                    Ok(k) => {
                        proof {
                            let w = self@;
                            assert(is_duplicate(b, w, j, k@, fv, tv));
                            assert forall|jj: u64| #[trigger] done@.push(j).contains(jj) && !b[jj].keeps_both(fv) implies w[jj] == b[jj] && exists|dd: u64|
                                #[trigger] is_duplicate(b, w, jj, dd, fv, tv) by {
                                if jj != j {
                                    assert(done@.contains(jj));
                                    let dd = choose|dd: u64| #[trigger] is_duplicate(b, v0, jj, dd, fv, tv);
                                    assert(is_duplicate(b, w, jj, dd, fv, tv));
                                }
                            }
                            assert forall|dd: u64| #[trigger] w.dom().contains(dd) && !b.dom().contains(dd) implies exists|jj: u64|
                                #[trigger] is_duplicate(b, w, jj, dd, fv, tv) by {
                                if dd != k@ {
                                    let jj = choose|jj: u64| #[trigger] is_duplicate(b, v0, jj, dd, fv, tv);
                                    assert(is_duplicate(b, w, jj, dd, fv, tv));
                                } else {
                                    assert(is_duplicate(b, w, j, dd, fv, tv));
                                }
                            }
                        }
                    },
                    Err(_) => {
                        proof {
                            assert(false);
                        }
                        return false;
                    },
                }
            } else {
                proof {
                    let w = self@;
                    assert forall|dd: u64| #[trigger] w.dom().contains(dd) && !b.dom().contains(dd) implies exists|jj: u64|
                        #[trigger] is_duplicate(b, w, jj, dd, fv, tv) by {
                        let jj = choose|jj: u64| #[trigger] is_duplicate(b, v0, jj, dd, fv, tv);
                        assert(is_duplicate(b, w, jj, dd, fv, tv));
                    }
                    assert forall|jj: u64| #[trigger] done@.push(j).contains(jj) && !b[jj].keeps_both(fv) implies w[jj] == b[jj] && exists|dd: u64|
                        #[trigger] is_duplicate(b, w, jj, dd, fv, tv) by {
                        assert(jj != j);
                        assert(done@.contains(jj));
                        let dd = choose|dd: u64| #[trigger] is_duplicate(b, v0, jj, dd, fv, tv);
                        assert(is_duplicate(b, w, jj, dd, fv, tv));
                    }
                }
            }
            let ghost d0 = done@;
            done.push(j);
            proof {
                assert forall|u: int| 0 <= u < t + 1 implies #[trigger] refs@[u] == tv || done@.contains(refs@[u]) by {
                    if u < t {
                        if refs@[u] != tv {
                            assert(d0.contains(refs@[u]));
                            let w = choose|w: int| 0 <= w < d0.len() && d0[w] == refs@[u];
                            assert(done@[w] == refs@[u]);
                        }
                    } else {
                        assert(done@[d0.len() as int] == j);
                    }
                }
                assert forall|jj: u64| #[trigger] done@.contains(jj) <==> (d0.contains(jj) || jj == j) by {
                    if done@.contains(jj) {
                        let w = choose|w: int| 0 <= w < done@.len() && done@[w] == jj;
                        if w < d0.len() {
                            assert(d0[w] == jj);
                        }
                    }
                    if d0.contains(jj) {
                        let w = choose|w: int| 0 <= w < d0.len() && d0[w] == jj;
                        assert(done@[w] == jj);
                    }
                    if jj == j {
                        assert(done@[d0.len() as int] == j);
                    }
                }
                assert(done@ == d0.push(j));
            }
            t = t + 1;
        }
        proof {
            let w = self@;
            assert forall|j: u64|
                #[trigger] b.dom().contains(j) && count(b[j].refs(), fv) > 0 && j != tv implies done@.contains(j) by {
                assert(ref_count(b, j, fv) > 0);
                assert(count(refs@, j) > 0);
                assert(refs@.contains(j));
                let u = choose|u: int| 0 <= u < refs@.len() && refs@[u] == j;
                assert(refs@[u] == tv || done@.contains(refs@[u]));
            }
            assert forall|j: u64|
                #[trigger] b.dom().contains(j) && count(b[j].refs(), fv) > 0 && j != tv && !b[j].keeps_both(fv) implies exists|d: u64|
                    #[trigger] is_duplicate(b, w, j, d, fv, tv) by {
                assert(done@.contains(j));
            }
            assert forall|j: u64|
                #[trigger] b.dom().contains(j) && (count(b[j].refs(), fv) == 0 || j == tv || !b[j].keeps_both(fv)) implies w[j] == b[j] by {
                if done@.contains(j) {
                    let u = choose|u: int| 0 <= u < done@.len() && done@[u] == j;
                    assert(count(b[done@[u]].refs(), fv) > 0 && done@[u] != tv);
                }
            }
            assert forall|j: u64, x: u64|
                b.dom().contains(j) && count(b[j].refs(), fv) > 0 && j != tv && b[j].keeps_both(fv) implies #[trigger] count(w[j].refs(), x) == count(b[j].refs(), x) + if x == tv {
                    count(b[j].refs(), fv)
                } else {
                    0
                } by {
                assert(done@.contains(j));
            }
        }
        true
    }

    /// The item at `key`, if any.
    pub fn get(&self, key: Key<T>) -> (r: Option<&T>)
        requires
            self.wf(),
        ensures
            r is Some <==> self@.dom().contains(key@),
            r matches Some(it) ==> *it == self@[key@],
    {
        proof {
            self.lemma_wf_view();
        }
        let kv = key.index().get();
        if kv >= self.items.len() as u64 {
            return None;
        }
        match &self.items[kv as usize] {
            Some(it) => Some(it),
            None => None,
        }
    }

    /// The indices of the items referencing the item at `key`, once per
    /// reference; `None` where no item is at `key`.
    pub fn from(&self, key: Key<T>) -> (r: Option<Vec<u64>>)
        requires
            self.wf(),
        ensures
            r is Some <==> self@.dom().contains(key@),
            r matches Some(v) ==> {
                &&& v@ == self.referrers(key@)
                &&& forall|j: u64| #[trigger] count(v@, j) == ref_count(self@, j, key@)
            },
    {
        proof {
            self.lemma_wf_view();
        }
        let kv = key.index().get();
        if kv >= self.shells.len() as u64 {
            return None;
        }
        match &self.shells[kv as usize] {
            Some(shell) => Some(shell.from()),
            None => None,
        }
    }

    /// Number of references to the item at `key`; `None` where no item is at
    /// `key`.
    pub fn from_count(&self, key: Key<T>) -> (r: Option<usize>)
        requires
            self.wf(),
        ensures
            r is Some <==> self@.dom().contains(key@),
            r matches Some(n) ==> n == self.referrers(key@).len(),
    {
        proof {
            self.lemma_wf_view();
        }
        let kv = key.index().get();
        if kv >= self.shells.len() as u64 {
            return None;
        }
        match &self.shells[kv as usize] {
            Some(shell) => Some(shell.from_count()),
            None => None,
        }
    }

    /// The least key with an item at or after slot `start`.
    fn first_from(&self, start: usize) -> (r: Option<Key<T>>)
        requires
            self.wf(),
        ensures
            r matches Some(k) ==> start <= k@ && self@.dom().contains(k@) && forall|j: u64|
                start <= j < k@ ==> !#[trigger] self@.dom().contains(j),
            r is None ==> forall|j: u64| start <= j ==> !#[trigger] self@.dom().contains(j),
    {
        proof {
            self.lemma_wf_view();
        }
        let mut i = start;
        while i < self.items.len()
            invariant
                self.wf(),
                start <= i,
                forall|j: u64| start <= j < i ==> !#[trigger] self@.dom().contains(j),
            decreases self.items@.len() - i,
        {
            if i > 0 && self.items[i].is_some() {
                proof {
                    self.lemma_view_dom();
                }
                let k = Key::new(Index::new(i as u64).unwrap());
                return Some(k);
            }
            proof {
                self.lemma_view_dom();
            }
            i = i + 1;
        }
        proof {
            self.lemma_view_dom();
        }
        None
    }

    /// The least key with an item; `None` where there is none.
    pub fn first(&self) -> (r: Option<Key<T>>)
        requires
            self.wf(),
        ensures
            r matches Some(k) ==> self@.dom().contains(k@) && forall|j: u64|
                j < k@ ==> !#[trigger] self@.dom().contains(j),
            r is None ==> self@.dom().is_empty(),
    {
        let r = self.first_from(0);
        proof {
            if r is None {
                assert(self@.dom() =~= Set::<u64>::empty());
            }
        }
        r
    }

    /// The least key after `key` with an item; `None` where there is none.
    pub fn next(&self, key: Key<T>) -> (r: Option<Key<T>>)
        requires
            self.wf(),
        ensures
            r matches Some(k) ==> key@ < k@ && self@.dom().contains(k@) && forall|j: u64|
                key@ < j < k@ ==> !#[trigger] self@.dom().contains(j),
            r is None ==> forall|j: u64| key@ < j ==> !#[trigger] self@.dom().contains(j),
    {
        proof {
            self.lemma_wf_view();
        }
        let kv = key.index().get();
        if kv >= self.items.len() as u64 {
            proof {
                self.lemma_view_dom();
            }
            return None;
        }
        self.first_from(kv as usize + 1)
    }

    /// Removes the item at `key`, as `take` does; true if there was one.
    pub fn remove(&mut self, key: Key<T>) -> (r: bool)
        requires
            old(self).wf(),
        ensures
            final(self).wf(),
            r == old(self)@.dom().contains(key@),
            !r ==> final(self)@ == old(self)@,
            cascade(old(self)@, key@, final(self)@),
            final(self).slot_count() == old(self).slot_count(),
    {
        self.take(key).is_some()
    }
}

/// Every shell records exactly the references to its item: the item at `j`
/// occurs among the referrers of the item at `k` once per reference of `j` to
/// `k`.
pub proof fn lemma_shell_records_references<T: Item>(c: &VecCollection<T>, k: u64, j: u64)
    requires
        c.wf(),
        c@.dom().contains(k),
    ensures
        count(c.referrers(k), j) == ref_count(c@, j, k),
{
    c.lemma_wf_view();
}

/// Every reference of an item is to an item of the collection.
pub proof fn lemma_references_closed<T: Item>(c: &VecCollection<T>, j: u64)
    requires
        c.wf(),
        c@.dom().contains(j),
    ensures
        refs_in(c@[j], c@),
{
    c.lemma_wf_view();
}

/// Taking back the item that was just added leaves the collection as it was
/// before the add: nothing referenced the new item, so nothing cascades.
pub proof fn lemma_take_undoes_add<T: Item>(c: &VecCollection<T>, k: u64, item: T, after: Map<u64, T>)
    requires
        c.wf(),
        !c@.dom().contains(k),
        cascade(c@.insert(k, item), k, after),
    ensures
        after == c@,
{
    c.lemma_wf_view();
    let before = c@.insert(k, item);
    let order = choose|order: Seq<u64>| removal_order(order, k, before, after);
    if order.len() > 1 {
        assert(refs_earlier(order, 1, before));
        let p = choose|p: int|
            0 <= p < 1 && #[trigger] count(before[order[1]].refs(), order[p]) > 0 && !before[order[1]].survives(order[p]);
        assert(order.contains(order[1]));
        assert(order[1] != order[0]);
        assert(c@.dom().contains(order[1]));
        assert(count(c@[order[1]].refs(), k) > 0);
    }
    assert forall|x: u64| before.dom().contains(x) && !after.dom().contains(x) implies x == k by {
        assert(order.contains(x));
        let q = choose|q: int| 0 <= q < order.len() && order[q] == x;
    }
    assert(after.dom() =~= c@.dom());
    assert forall|j: u64| after.dom().contains(j) implies after[j] == c@[j] by {
        if refs_removed(before[j], before, after) {
            let x = choose|x: u64| before.dom().contains(x) && !after.dom().contains(x) && #[trigger] count(before[j].refs(), x) > 0;
            assert(x == k);
            assert(count(c@[j].refs(), k) > 0);
        }
    }
    assert(after =~= c@);
}

/// Putting back the item that `set` handed back restores the collection.
pub proof fn lemma_set_back_restores<T: Item>(m: Map<u64, T>, k: u64, item: T)
    requires
        m.dom().contains(k),
    ensures
        m.insert(k, item).insert(k, m[k]) == m,
{
    assert(m.insert(k, item).insert(k, m[k]) =~= m);
}

} // verus!
