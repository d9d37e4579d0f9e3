//! Items of a graph for a collection: plain values, vertices that reference
//! any number of items, and edges that stand only while both their ends do.

use crate::collection::{count, count_prefix, lemma_count_prefix_full, lemma_count_prefix_step, Item};
use crate::key::Key;
use vstd::prelude::*;

verus! {

/// An item of a graph.
pub enum GraphItem {
    /// A plain value, referencing nothing.
    Value(u64),
    /// A vertex, referencing the items of its keys; it outlives them.
    Vertice(Vec<Key<GraphItem>>),
    /// An edge between the items of its keys; it goes when one of them does.
    Edge(Vec<Key<GraphItem>>),
}

/// The indices of `keys`.
pub open spec fn key_indices(keys: Seq<Key<GraphItem>>) -> Seq<u64> {
    keys.map_values(|k: Key<GraphItem>| k@)
}

/// Copies of `keys`.
fn copy_keys(keys: &Vec<Key<GraphItem>>) -> (r: Vec<Key<GraphItem>>)
    ensures
        key_indices(r@) == key_indices(keys@),
{
    let mut r: Vec<Key<GraphItem>> = Vec::new();
    let mut i: usize = 0;
    while i < keys.len()
        invariant
            i <= keys@.len(),
            key_indices(r@) == key_indices(keys@.subrange(0, i as int)),
        decreases keys@.len() - i,
    {
        let k = keys[i].clone();
        let ghost r0 = r@;
        r.push(k);
        proof {
            assert(key_indices(r@) =~= key_indices(r0).push(k@));
            assert(keys@.subrange(0, i + 1) =~= keys@.subrange(0, i as int).push(keys@[i as int]));
            assert(key_indices(keys@.subrange(0, i + 1)) =~= key_indices(keys@.subrange(0, i as int)).push(
                keys@[i as int]@,
            ));
        }
        i += 1;
    }
    proof {
        assert(keys@.subrange(0, keys@.len() as int) =~= keys@);
    }
    r
}

/// `keys` without those with the index of `key`, the rest in order.
fn drop_key(keys: &mut Vec<Key<GraphItem>>, key: Key<GraphItem>)
    ensures
        forall|x: u64|
            #[trigger] count(key_indices(final(keys)@), x) == if x == key@ {
                0
            } else {
                count(key_indices(old(keys)@), x)
            },
{
    let ghost s = key_indices(old(keys)@);
    let mut kept: Vec<Key<GraphItem>> = Vec::new();
    let mut i: usize = 0;
    proof {
        assert forall|x: u64| #[trigger] count(key_indices(kept@), x) == 0 && count_prefix(s, 0, x) == 0 by {
            assert(key_indices(kept@) =~= Seq::<u64>::empty());
            lemma_count_prefix_full(key_indices(kept@), x);
            lemma_count_prefix_full(s, x);
        }
    }
    while i < keys.len()
        invariant
            i <= keys@.len(),
            keys@ == old(keys)@,
            s == key_indices(old(keys)@),
            forall|x: u64|
                #[trigger] count(key_indices(kept@), x) == if x == key@ {
                    0
                } else {
                    count_prefix(s, i as int, x)
                },
        decreases keys@.len() - i,
    {
        let k = keys[i].clone();
        let ghost k0 = key_indices(kept@);
        if k.index().get() != key.index().get() {
            kept.push(k);
            proof {
                assert(key_indices(kept@) =~= k0.push(k@));
            }
        }
        proof {
            assert forall|x: u64| #[trigger] count(key_indices(kept@), x) == if x == key@ {
                0
            } else {
                count_prefix(s, i + 1, x)
            } by {
                lemma_count_prefix_step(s, i as int, x);
                if k@ != key@ {
                    crate::collection::lemma_count_push(k0, k@, x);
                }
            }
        }
        i += 1;
    }
    proof {
        assert forall|x: u64| #[trigger] count(key_indices(kept@), x) == if x == key@ {
            0
        } else {
            count(s, x)
        } by {
            lemma_count_prefix_full(s, x);
        }
    }
    *keys = kept;
}

/// `keys` with, for each key with the index of `from`, a key `to` added at
/// the end.
fn push_duplicates(keys: &mut Vec<Key<GraphItem>>, from: Key<GraphItem>, to: Key<GraphItem>)
    ensures
        forall|x: u64|
            #[trigger] count(key_indices(final(keys)@), x) == count(key_indices(old(keys)@), x) + if x == to@ {
                count(key_indices(old(keys)@), from@)
            } else {
                0
            },
{
    let ghost s = key_indices(old(keys)@);
    let n = keys.len();
    let mut i: usize = 0;
    proof {
        assert forall|x: u64| #[trigger] count_prefix(s, 0, x) == 0 by {
            lemma_count_prefix_full(s, x);
        }
    }
    while i < n
        invariant
            i <= n,
            n == old(keys)@.len(),
            keys@.len() >= n,
            s == key_indices(old(keys)@),
            forall|t: int| 0 <= t < n ==> #[trigger] keys@[t] == old(keys)@[t],
            forall|x: u64|
                #[trigger] count(key_indices(keys@), x) == count(s, x) + if x == to@ {
                    count_prefix(s, i as int, from@)
                } else {
                    0
                },
        decreases n - i,
    {
        let ghost k0 = key_indices(keys@);
        proof {
            lemma_count_prefix_step(s, i as int, from@);
            assert(s[i as int] == keys@[i as int]@);
        }
        if keys[i].index().get() == from.index().get() {
            let t = to.clone();
            keys.push(t);
            proof {
                assert(key_indices(keys@) =~= k0.push(to@));
                assert forall|x: u64| #[trigger] count(key_indices(keys@), x) == count(k0, x) + (if x == to@ { 1nat } else { 0nat }) by {
                    crate::collection::lemma_count_push(k0, to@, x);
                }
            }
        }
        i += 1;
    }
    proof {
        lemma_count_prefix_full(s, from@);
    }
}

/// `keys` with each key with the index of `from` made a key `to`, in order.
fn replace_keys(keys: &mut Vec<Key<GraphItem>>, from: Key<GraphItem>, to: Key<GraphItem>)
    requires
        from@ != to@,
    ensures
        forall|x: u64|
            #[trigger] count(key_indices(final(keys)@), x) == if x == from@ {
                0
            } else if x == to@ {
                count(key_indices(old(keys)@), to@) + count(key_indices(old(keys)@), from@)
            } else {
                count(key_indices(old(keys)@), x)
            },
{
    let ghost s = key_indices(old(keys)@);
    let mut out: Vec<Key<GraphItem>> = Vec::new();
    let mut i: usize = 0;
    proof {
        assert forall|x: u64| #[trigger] count(key_indices(out@), x) == 0 by {
            assert(key_indices(out@) =~= Seq::<u64>::empty());
            lemma_count_prefix_full(key_indices(out@), x);
        }
        assert forall|x: u64| #[trigger] count_prefix(s, 0, x) == 0 by {
            lemma_count_prefix_full(s, x);
        }
    }
    while i < keys.len()
        invariant
            i <= keys@.len(),
            keys@ == old(keys)@,
            s == key_indices(old(keys)@),
            from@ != to@,
            forall|x: u64|
                #[trigger] count(key_indices(out@), x) == if x == from@ {
                    0
                } else if x == to@ {
                    count_prefix(s, i as int, to@) + count_prefix(s, i as int, from@)
                } else {
                    count_prefix(s, i as int, x)
                },
        decreases keys@.len() - i,
    {
        let k = if keys[i].index().get() == from.index().get() {
            to.clone()
        } else {
            keys[i].clone()
        };
        let ghost k0 = key_indices(out@);
        out.push(k);
        proof {
            assert(key_indices(out@) =~= k0.push(k@));
            assert(s[i as int] == keys@[i as int]@);
            assert forall|x: u64| #[trigger] count(key_indices(out@), x) == if x == from@ {
                0
            } else if x == to@ {
                count_prefix(s, i + 1, to@) + count_prefix(s, i + 1, from@)
            } else {
                count_prefix(s, i + 1, x)
            } by {
                crate::collection::lemma_count_push(k0, k@, x);
                lemma_count_prefix_step(s, i as int, x);
                lemma_count_prefix_step(s, i as int, to@);
                lemma_count_prefix_step(s, i as int, from@);
            }
        }
        i += 1;
    }
    proof {
        assert forall|x: u64| #[trigger] count(key_indices(out@), x) == if x == from@ {
            0
        } else if x == to@ {
            count(s, to@) + count(s, from@)
        } else {
            count(s, x)
        } by {
            lemma_count_prefix_full(s, x);
            lemma_count_prefix_full(s, to@);
            lemma_count_prefix_full(s, from@);
        }
    }
    *keys = out;
}

impl Item for GraphItem {
    open spec fn refs(&self) -> Seq<u64> {
        match self {
            GraphItem::Value(_) => Seq::empty(),
            GraphItem::Vertice(keys) => key_indices(keys@),
            GraphItem::Edge(keys) => key_indices(keys@),
        }
    }

    open spec fn survives(&self, key: u64) -> bool {
        !(*self is Edge)
    }

    fn references(&self) -> (r: Vec<Key<Self>>) {
        match self {
            GraphItem::Value(_) => Vec::new(),
            GraphItem::Vertice(keys) => copy_keys(keys),
            GraphItem::Edge(keys) => copy_keys(keys),
        }
    }

    fn remove_reference(&mut self, key: Key<Self>, removed: &Self) -> (r: bool)
        ensures
            r == !(*old(self) is Edge),
    {
        match self {
            GraphItem::Value(_) => {
                proof {
                    assert forall|x: u64| #[trigger] count(Seq::<u64>::empty(), x) == 0 by {
                        lemma_count_prefix_full(Seq::<u64>::empty(), x);
                        assert(Seq::<u64>::empty().subrange(0, 0) =~= Seq::<u64>::empty());
                    }
                }
                true
            },
            GraphItem::Vertice(keys) => {
                drop_key(keys, key);
                true
            },
            GraphItem::Edge(keys) => {
                drop_key(keys, key);
                false
            },
        }
    }

    open spec fn keeps_both(&self, from: u64) -> bool {
        !(*self is Edge)
    }

    fn duplicate_reference(&mut self, from: Key<Self>, to: Key<Self>) -> (r: bool) {
        match self {
            GraphItem::Value(_) => {
                proof {
                    assert forall|x: u64| #[trigger] count(Seq::<u64>::empty(), x) == 0 by {
                        lemma_count_prefix_full(Seq::<u64>::empty(), x);
                        assert(Seq::<u64>::empty().subrange(0, 0) =~= Seq::<u64>::empty());
                    }
                }
                false
            },
            GraphItem::Vertice(keys) => {
                push_duplicates(keys, from, to);
                false
            },
            GraphItem::Edge(_) => true,
        }
    }

    fn duplicate(&self) -> (r: Self) {
        match self {
            GraphItem::Value(v) => GraphItem::Value(*v),
            GraphItem::Vertice(keys) => GraphItem::Vertice(copy_keys(keys)),
            GraphItem::Edge(keys) => GraphItem::Edge(copy_keys(keys)),
        }
    }

    fn replace_reference(&mut self, from: Key<Self>, to: Key<Self>) {
        match self {
            GraphItem::Value(_) => {
                proof {
                    assert forall|x: u64| #[trigger] count(Seq::<u64>::empty(), x) == 0 by {
                        lemma_count_prefix_full(Seq::<u64>::empty(), x);
                        assert(Seq::<u64>::empty().subrange(0, 0) =~= Seq::<u64>::empty());
                    }
                }
            },
            GraphItem::Vertice(keys) => replace_keys(keys, from, to),
            GraphItem::Edge(keys) => replace_keys(keys, from, to),
        }
    }
}

} // verus!
