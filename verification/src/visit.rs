//! The engine of a graph visit: which node comes next, taken from the roots,
//! from inputs held back, and from the queue of the chosen order.

use crate::order::{Breadth, Depth, Forward, Order, Queue, QueueKey, Topological, TopologicalKey};
use std::marker::PhantomData;
use std::collections::VecDeque;
use vstd::multiset::Multiset;
use vstd::prelude::*;

verus! {

broadcast use {
    vstd::seq_lib::group_to_multiset_ensures,
    vstd::multiset::group_multiset_axioms,
    vstd::multiset::group_multiset_properties,
};

/// A group of roots; each group has a key space of its own.
pub type GroupId = u32;

/// Event that happened in the internals of a visit.
#[derive(Clone, Copy, Debug, PartialEq, Eq, Structural)]
pub enum InternalEvent {
    /// All starts have been processed; the next call processes what they
    /// expanded, if anything.
    StartProcessed,
    /// A level has been processed. For a breadth order a level is a depth,
    /// and the next call processes what the previous level expanded; for
    /// the other orders it is the end, and the next call finishes.
    LevelProcessed,
}

/// What a step hands out, other than a node to process.
#[derive(Debug)]
pub enum IterNode<NI> {
    /// The node was not expanded.
    NotExpanded(u64),
    /// The node had been expanded already; the inputs that reached it.
    AlreadyExpanded(Vec<NI>, u64),
    /// A notification of an internal event; it can be ignored.
    Internal(InternalEvent),
}

/// A node to process: its order (none for a root), its group, the inputs
/// that reached it, and its key.
pub type Pending<NI> = (Option<u64>, GroupId, Vec<NI>, u64);

/// The entries that `inputs` make, each under `key` and towards `node`.
pub open spec fn tagged<NI>(key: QueueKey, node: u64, inputs: Seq<NI>) -> Multiset<(QueueKey, (NI, u64))> {
    inputs.map_values(|x: NI| (key, (x, node))).to_multiset()
}

/// The roots outside `group`.
pub open spec fn start_outside(group: GroupId) -> spec_fn((GroupId, u64)) -> bool {
    |e: (GroupId, u64)| e.0 != group
}

/// The held-back inputs outside `group`.
pub open spec fn buffer_outside<NI>(group: GroupId) -> spec_fn((GroupId, NI, u64)) -> bool {
    |e: (GroupId, NI, u64)| e.0 != group
}

/// The queued entries outside `group`.
pub open spec fn entry_outside<NI>(group: GroupId) -> spec_fn((QueueKey, (NI, u64))) -> bool {
    |e: (QueueKey, (NI, u64))| e.0.1 != group
}

/// The state of a visit: roots yet to start from, inputs held back for
/// nodes that were expanded already, the queue of what was expanded, and an
/// event to report.
pub struct DagCore<NI, Q> {
    start: VecDeque<(GroupId, u64)>,
    buffer: VecDeque<(GroupId, NI, u64)>,
    queue: Q,
    internal: Option<InternalEvent>,
}

impl<NI, Q: Queue<(NI, u64)>> DagCore<NI, Q> {
    /// The roots yet to start from, each with its group, first first.
    pub closed spec fn starts(&self) -> Seq<(GroupId, u64)> {
        self.start@
    }

    /// The inputs held back, each with its group and node, first first.
    pub closed spec fn buffered(&self) -> Seq<(GroupId, NI, u64)> {
        self.buffer@
    }

    /// The queued inputs, each under its order and group, towards its node.
    pub closed spec fn queued(&self) -> Multiset<(QueueKey, (NI, u64))> {
        self.queue.entries()
    }

    /// The queue.
    pub closed spec fn queue_spec(&self) -> Q {
        self.queue
    }

    /// The event to report next.
    pub closed spec fn pending_event(&self) -> Option<InternalEvent> {
        self.internal
    }

    /// The queue is well formed.
    pub closed spec fn wf(&self) -> bool {
        self.queue.inv()
    }

    /// A visit from `start`, each root with its group, first first.
    pub fn new(start: Vec<(GroupId, u64)>) -> (r: Self)
        ensures
            r.wf(),
            r.starts() == start@,
            r.buffered().len() == 0,
            r.queued().len() == 0,
            r.queue_spec().open(),
            r.pending_event() is None,
    {
        let mut dq: VecDeque<(GroupId, u64)> = VecDeque::new();
        let mut i: usize = 0;
        while i < start.len()
            invariant
                i <= start.len(),
                dq@ == start@.subrange(0, i as int),
            decreases start.len() - i,
        {
            dq.push_back(start[i]);
            i += 1;
            proof {
                assert(dq@ =~= start@.subrange(0, i as int));
            }
        }
        proof {
            assert(dq@ =~= start@);
        }
        DagCore { start: dq, buffer: VecDeque::new(), queue: Q::empty(), internal: None }
    }

    /// Adds a root to the group of roots that has no number of its own.
    pub fn add_root(&mut self, root: u64)
        ensures
            final(self).starts() == old(self).starts().push((0, root)),
            final(self).buffered() == old(self).buffered(),
            final(self).queue_spec() == old(self).queue_spec(),
            final(self).pending_event() == old(self).pending_event(),
            final(self).wf() == old(self).wf(),
    {
        self.start.push_back((0, root));
    }

    /// Adds the roots of `group`, under `index`.
    pub fn add_group(&mut self, index: GroupId, group: Vec<u64>)
        ensures
            final(self).starts() == old(self).starts() + group@.map_values(|k: u64| (index, k)),
            final(self).buffered() == old(self).buffered(),
            final(self).queue_spec() == old(self).queue_spec(),
            final(self).pending_event() == old(self).pending_event(),
            final(self).wf() == old(self).wf(),
    {
        let mut i: usize = 0;
        while i < group.len()
            invariant
                i <= group.len(),
                self.start@ == old(self).start@ + group@.subrange(0, i as int).map_values(
                    |k: u64| (index, k),
                ),
                self.buffer == old(self).buffer,
                self.queue == old(self).queue,
                self.internal == old(self).internal,
            decreases group.len() - i,
        {
            self.start.push_back((index, group[i]));
            i += 1;
            proof {
                assert(self.start@ =~= old(self).start@ + group@.subrange(0, i as int).map_values(
                    |k: u64| (index, k),
                ));
            }
        }
        proof {
            assert(group@.subrange(0, group@.len() as int) =~= group@);
        }
    }

    /// Adds a root to `group`.
    pub fn add_root_to_group(&mut self, group: GroupId, root: u64)
        ensures
            final(self).starts() == old(self).starts().push((group, root)),
            final(self).buffered() == old(self).buffered(),
            final(self).queue_spec() == old(self).queue_spec(),
            final(self).pending_event() == old(self).pending_event(),
            final(self).wf() == old(self).wf(),
    {
        self.start.push_back((group, root));
    }

    /// Queues `input` towards `to` under `order` in `group`; false, changing
    /// nothing, where the queue refuses the order.
    pub fn add_input_to_group(&mut self, group: GroupId, order: u64, input: NI, to: u64) -> (r: bool)
        requires
            old(self).wf(),
        ensures
            final(self).wf(),
            r == old(self).queue_spec().accepts((order, group)),
            r ==> final(self).queued() == old(self).queued().insert(((order, group), (input, to))),
            !r ==> final(self).queued() == old(self).queued(),
            final(self).starts() == old(self).starts(),
            final(self).buffered() == old(self).buffered(),
            final(self).pending_event() == old(self).pending_event(),
    {
        self.queue.push((order, group), (input, to))
    }

    /// The next step of the visit. An event to report comes first; then an
    /// input held back, as a node already expanded; then a root, reporting
    /// once the last root is out that the roots are done; then the next
    /// entry of the queue, with the inputs of the entries right behind it
    /// that share its order, group and node, reporting once the queue is
    /// empty that the level is done. None where nothing is left.
    pub fn process_next(&mut self) -> (r: Option<Result<IterNode<NI>, Pending<NI>>>)
        requires
            old(self).wf(),
        ensures
            final(self).wf(),
            old(self).pending_event() matches Some(ev) ==> {
                &&& r matches Some(Ok(IterNode::Internal(e))) && e == ev
                &&& final(self).pending_event() is None
                &&& final(self).starts() == old(self).starts()
                &&& final(self).buffered() == old(self).buffered()
                &&& final(self).queue_spec() == old(self).queue_spec()
            },
            old(self).pending_event() is None && old(self).buffered().len() > 0 ==> {
                let f = old(self).buffered()[0];
                &&& r matches Some(Ok(IterNode::AlreadyExpanded(v, k))) && v@ == seq![f.1] && k == f.2
                &&& final(self).buffered() == old(self).buffered().drop_first()
                &&& final(self).pending_event() is None
                &&& final(self).starts() == old(self).starts()
                &&& final(self).queue_spec() == old(self).queue_spec()
            },
            old(self).pending_event() is None && old(self).buffered().len() == 0
                && old(self).starts().len() > 0 ==> {
                let f = old(self).starts()[0];
                &&& r matches Some(Err(p)) && p.0 is None && p.1 == f.0 && p.2@.len() == 0 && p.3
                    == f.1
                &&& final(self).starts() == old(self).starts().drop_first()
                &&& final(self).pending_event() == if final(self).starts().len() == 0 {
                    Some(InternalEvent::StartProcessed)
                } else {
                    None
                }
                &&& final(self).buffered() == old(self).buffered()
                &&& final(self).queue_spec() == old(self).queue_spec()
            },
            old(self).pending_event() is None && old(self).buffered().len() == 0
                && old(self).starts().len() == 0 && old(self).queued().len() > 0 ==> {
                &&& r matches Some(Err(p)) && p.0 is Some && p.2@.len() >= 1
                    && final(self).queued().add(tagged((p.0->0, p.1), p.3, p.2@)) == old(
                    self,
                ).queued()
                &&& (old(self).queue_spec().front() matches Some(f) ==> (r matches Some(Err(p))
                    && (p.0->0, p.1) == f.0 && p.2@[0] == f.1.0 && p.3 == f.1.1))
                &&& (final(self).queued().len() > 0 ==> (r matches Some(Err(p))
                    && final(self).queue_spec().front() matches Some(f) && (f.0 != (p.0->0, p.1)
                    || f.1.1 != p.3)))
                &&& final(self).pending_event() == if final(self).queued().len() == 0 {
                    Some(InternalEvent::LevelProcessed)
                } else {
                    None
                }
                &&& final(self).starts() == old(self).starts()
                &&& final(self).buffered() == old(self).buffered()
            },
            old(self).pending_event() is None && old(self).buffered().len() == 0
                && old(self).starts().len() == 0 && old(self).queued().len() == 0 ==> {
                &&& r is None
                &&& final(self).pending_event() is None
                &&& final(self).starts() == old(self).starts()
                &&& final(self).buffered() == old(self).buffered()
                &&& final(self).queued() == old(self).queued()
            },
    {
        match self.internal.take() {
            Some(internal) => {
                return Some(Ok(IterNode::Internal(internal)));
            },
            None => {},
        }
        match self.buffer.pop_front() {
            Some((_, input, key)) => {
                let mut inputs: Vec<NI> = Vec::new();
                inputs.push(input);
                proof {
                    assert(inputs@ =~= seq![old(self).buffer@[0].1]);
                }
                return Some(Ok(IterNode::AlreadyExpanded(inputs, key)));
            },
            None => {},
        }
        match self.start.pop_front() {
            Some((group, start)) => {
                if self.start.len() == 0 {
                    self.internal = Some(InternalEvent::StartProcessed);
                }
                return Some(Err((None, group, Vec::new(), start)));
            },
            None => {},
        }
        let ghost q0 = self.queue.entries();
        match self.queue.pop() {
            Some((key, (input, next))) => {
                let mut inputs: Vec<NI> = Vec::new();
                inputs.push(input);
                proof {
                    assert(inputs@.map_values(|x: NI| (key, (x, next))) =~= seq![(key, (input, next))]);
                    assert(self.queue.entries().add(tagged(key, next, inputs@)) =~= q0);
                }
                loop
                    invariant_except_break
                        self.internal is None,
                    invariant
                        self.queue.inv(),
                        inputs@.len() >= 1,
                        inputs@[0] == input,
                        self.queue.entries().add(tagged(key, next, inputs@)) == q0,
                        self.start@ == old(self).start@,
                        self.buffer@ == old(self).buffer@,
                    ensures
                        self.queue.inv(),
                        inputs@.len() >= 1,
                        inputs@[0] == input,
                        self.queue.entries().add(tagged(key, next, inputs@)) == q0,
                        self.internal == if self.queue.entries().len() == 0 {
                            Some(InternalEvent::LevelProcessed)
                        } else {
                            None
                        },
                        self.start@ == old(self).start@,
                        self.buffer@ == old(self).buffer@,
                        self.queue.entries().len() > 0 ==> (self.queue.front() matches Some(f) && (f.0
                            != key || f.1.1 != next)),
                    decreases self.queue.entries().len(),
                {
                    let ghost e0 = self.queue.entries();
                    let same = match self.queue.peek() {
                        Some((pk, p)) => {
                            pk.0 == key.0 && pk.1 == key.1 && p.1 == next
                        },
                        None => {
                            self.internal = Some(InternalEvent::LevelProcessed);
                            false
                        },
                    };
                    if !same {
                        break;
                    }
                    let ghost e1 = self.queue.entries();
                    let ghost f = self.queue.front();
                    match self.queue.pop() {
                        Some((_, (more, _))) => {
                            let ghost i0 = inputs@;
                            inputs.push(more);
                            proof {
                                let g = |x: NI| (key, (x, next));
                                assert(inputs@.map_values(g) =~= i0.map_values(g).push(g(more)));
                                assert(f == Some((key, (more, next))));
                                assert(self.queue.entries().add(tagged(key, next, inputs@)) =~= q0);
                            }
                        },
                        None => {
                            break;
                        },
                    }
                }
                Some(Err((Some(key.0), key.1, inputs, next)))
            },
            None => None,
        }
    }

    /// Routes `input`, yielded by expanding a node of `group`, towards `to`:
    /// held back where `to` is not accessible, having been expanded in the
    /// group's key space already; queued under the order `order` gives it,
    /// where it gives one; dropped otherwise. True where it was held back or
    /// the queue took it.
    pub fn route(&mut self, group: GroupId, input: NI, to: u64, accessible: bool, order: Option<u64>) -> (r: bool)
        requires
            old(self).wf(),
        ensures
            final(self).wf(),
            final(self).starts() == old(self).starts(),
            final(self).pending_event() == old(self).pending_event(),
            !accessible ==> {
                &&& r
                &&& final(self).buffered() == old(self).buffered().push((group, input, to))
                &&& final(self).queue_spec() == old(self).queue_spec()
            },
            accessible && order is None ==> {
                &&& !r
                &&& final(self).buffered() == old(self).buffered()
                &&& final(self).queue_spec() == old(self).queue_spec()
            },
            accessible ==> (order matches Some(o) ==> {
                &&& r == old(self).queue_spec().accepts((o, group))
                &&& final(self).buffered() == old(self).buffered()
                &&& r ==> final(self).queued() == old(self).queued().insert(((o, group), (input, to)))
                &&& !r ==> final(self).queued() == old(self).queued()
            }),
    {
        if !accessible {
            self.buffer.push_back((group, input, to));
            return true;
        }
        match order {
            Some(o) => self.queue.push((o, group), (input, to)),
            None => false,
        }
    }

    /// Removes `group`: its roots, the inputs held back for it and its
    /// queued entries, keeping the order of the rest; its number may then
    /// be reused. The queue is made anew, so that it takes every key again.
    pub fn purge(&mut self, group: GroupId)
        requires
            old(self).wf(),
            old(self).queued().len() + 1 < usize::MAX,
        ensures
            final(self).wf(),
            final(self).starts() == old(self).starts().filter(start_outside(group)),
            final(self).buffered() == old(self).buffered().filter(buffer_outside(group)),
            final(self).queued() == old(self).queued().filter(entry_outside(group)),
            final(self).queue_spec().open(),
            final(self).pending_event() == old(self).pending_event(),
    {
        let ghost q0 = self.queue.entries();
        let mut all = self.queue.drain();
        let ghost mut taken = Multiset::<(QueueKey, (NI, u64))>::empty();
        proof {
            assert(self.queue.entries() =~= taken.filter(entry_outside(group)));
            assert(taken.add(all@.to_multiset()) =~= q0);
        }
        while all.len() > 0
            invariant
                self.queue.inv(),
                self.queue.open(),
                taken.add(all@.to_multiset()) == q0,
                self.queue.entries() == taken.filter(entry_outside(group)),
                self.queue.entries().len() <= taken.len(),
                q0.len() + 1 < usize::MAX,
                self.start == old(self).start,
                self.buffer == old(self).buffer,
                self.internal == old(self).internal,
            decreases all@.len(),
        {
            let ghost a0 = all@;
            let ghost t0 = taken;
            match all.pop() {
                Some((k, item)) => {
                    let ghost e = (k, item);
                    proof {
                        assert(a0 =~= all@.push(e));
                        taken = taken.insert(e);
                        assert(taken.add(all@.to_multiset()) =~= q0);
                    }
                    if k.1 != group {
                        proof {
                            self.queue.lemma_open(k);
                        }
                        self.queue.push(k, item);
                    }
                    proof {
                        assert(self.queue.entries() =~= taken.filter(entry_outside(group)));
                    }
                },
                None => {},
            }
        }
        proof {
            assert(taken =~= q0);
        }
        let mut rest: VecDeque<(GroupId, u64)> = VecDeque::new();
        std::mem::swap(&mut rest, &mut self.start);
        let ghost s0 = rest@;
        let mut kept: VecDeque<(GroupId, u64)> = VecDeque::new();
        proof {
            reveal(Seq::filter);
            assert(s0.subrange(0, 0).filter(start_outside(group)) =~= kept@);
        }
        while rest.len() > 0
            invariant
                rest@.len() <= s0.len(),
                rest@ == s0.subrange(s0.len() - rest@.len(), s0.len() as int),
                kept@ == s0.subrange(0, s0.len() - rest@.len()).filter(start_outside(group)),
            decreases rest@.len(),
        {
            let ghost k = s0.len() - rest@.len();
            match rest.pop_front() {
                Some(e) => {
                    proof {
                        assert(e == s0[k]);
                    }
                    if e.0 != group {
                        kept.push_back(e);
                    }
                    proof {
                        reveal(Seq::filter);
                        assert(s0.subrange(0, k + 1).drop_last() =~= s0.subrange(0, k));
                        assert(rest@ =~= s0.subrange(k + 1, s0.len() as int));
                    }
                },
                None => {},
            }
        }
        proof {
            assert(s0.subrange(0, s0.len() as int) =~= s0);
        }
        self.start = kept;
        let mut rest_b: VecDeque<(GroupId, NI, u64)> = VecDeque::new();
        std::mem::swap(&mut rest_b, &mut self.buffer);
        let ghost b0 = rest_b@;
        let mut kept_b: VecDeque<(GroupId, NI, u64)> = VecDeque::new();
        proof {
            reveal(Seq::filter);
            assert(b0.subrange(0, 0).filter(buffer_outside(group)) =~= kept_b@);
        }
        while rest_b.len() > 0
            invariant
                rest_b@.len() <= b0.len(),
                rest_b@ == b0.subrange(b0.len() - rest_b@.len(), b0.len() as int),
                kept_b@ == b0.subrange(0, b0.len() - rest_b@.len()).filter(buffer_outside(group)),
            decreases rest_b@.len(),
        {
            let ghost k = b0.len() - rest_b@.len();
            match rest_b.pop_front() {
                Some(e) => {
                    proof {
                        assert(e == b0[k]);
                    }
                    if e.0 != group {
                        kept_b.push_back(e);
                    }
                    proof {
                        reveal(Seq::filter);
                        assert(b0.subrange(0, k + 1).drop_last() =~= b0.subrange(0, k));
                        assert(rest_b@ =~= b0.subrange(k + 1, b0.len() as int));
                    }
                },
                None => {},
            }
        }
        proof {
            assert(b0.subrange(0, b0.len() as int) =~= b0);
        }
        self.buffer = kept_b;
    }
}


/// The roots of `groups`, each under the number of its group, group by
/// group.
pub open spec fn group_starts(groups: Seq<Seq<u64>>) -> Seq<(GroupId, u64)>
    decreases groups.len(),
{
    if groups.len() == 0 {
        Seq::empty()
    } else {
        group_starts(groups.drop_last()) + groups.last().map_values(
            |k: u64| ((groups.len() - 1) as GroupId, k),
        )
    }
}

/// How the groups of a visit share key space.
#[derive(Clone, Copy, Debug, PartialEq, Eq, Structural)]
pub enum Space {
    /// Not chosen yet.
    Unset,
    /// Each group has its own: a node can be expanded once by each group.
    Isolated,
    /// The groups share one: a node is expanded once in all.
    Shared,
}

/// A visit of a directed acyclic graph, being configured: its roots, each
/// with its group, whether it may change the items, how groups share key
/// space, and its order.
pub struct VisitDAG<O> {
    start: Vec<(GroupId, u64)>,
    mutable: bool,
    space: Space,
    order: O,
}

impl<O> VisitDAG<O> {
    /// The roots, each with its group, first first.
    pub closed spec fn starts(&self) -> Seq<(GroupId, u64)> {
        self.start@
    }

    /// The visit may change the items it reaches.
    pub closed spec fn is_mutable(&self) -> bool {
        self.mutable
    }

    /// How the groups share key space.
    pub closed spec fn space(&self) -> Space {
        self.space
    }

    /// The order.
    pub closed spec fn order_spec(&self) -> O {
        self.order
    }

    /// The state of the visit, with no step taken: the roots to start
    /// from, nothing held back or queued, and the queue of the order.
    pub fn into_core<NI>(self) -> (r: DagCore<NI, O::Queue>)
        where O: Order<NI>,
        ensures
            r.wf(),
            r.starts() == self.starts(),
            r.buffered().len() == 0,
            r.queued().len() == 0,
            r.queue_spec().open(),
            r.pending_event() is None,
    {
        DagCore::new(self.start)
    }
}

impl VisitDAG<()> {
    /// No roots, no change of items, no space and no order yet.
    fn new(start: Vec<(GroupId, u64)>) -> (r: Self)
        ensures
            r.starts() == start@,
            !r.is_mutable(),
            r.space() == Space::Unset,
    {
        VisitDAG { start, mutable: false, space: Space::Unset, order: () }
    }

    /// Starts from several groups of roots, each group numbered by its
    /// place and with a key space of its own: a node can be expanded once
    /// by each group.
    pub fn isolated_space(groups: Vec<Vec<u64>>) -> (r: Self)
        requires
            groups@.len() <= 0x1_0000_0000,
        ensures
            r.starts() == group_starts(groups@.map_values(|g: Vec<u64>| g@)),
            !r.is_mutable(),
            r.space() == Space::Isolated,
    {
        let ghost gs = groups@.map_values(|g: Vec<u64>| g@);
        let mut start: Vec<(GroupId, u64)> = Vec::new();
        let mut i: usize = 0;
        proof {
            assert(start@ =~= group_starts(gs.subrange(0, 0)));
        }
        while i < groups.len()
            invariant
                i <= groups@.len(),
                groups@.len() <= 0x1_0000_0000,
                gs == groups@.map_values(|g: Vec<u64>| g@),
                start@ == group_starts(gs.subrange(0, i as int)),
            decreases groups@.len() - i,
        {
            let group = &groups[i];
            let gi = i as GroupId;
            let mut j: usize = 0;
            proof {
                assert(start@ =~= group_starts(gs.subrange(0, i as int)) + gs[i as int].subrange(0, 0).map_values(|k: u64| (gi, k)));
            }
            while j < group.len()
                invariant
                    i < groups@.len(),
                    j <= group@.len(),
                    *group == groups@[i as int],
                    gs == groups@.map_values(|g: Vec<u64>| g@),
                    start@ == group_starts(gs.subrange(0, i as int)) + gs[i as int].subrange(0, j as int).map_values(|k: u64| (gi, k)),
                decreases group@.len() - j,
            {
                start.push((gi, group[j]));
                j += 1;
                proof {
                    assert(start@ =~= group_starts(gs.subrange(0, i as int)) + gs[i as int].subrange(0, j as int).map_values(|k: u64| (gi, k)));
                }
            }
            proof {
                let sub = gs.subrange(0, i + 1);
                assert(sub.drop_last() =~= gs.subrange(0, i as int));
                assert(sub.last() == gs[i as int]);
                assert(gs[i as int].subrange(0, j as int) =~= gs[i as int]);
                assert(((sub.len() - 1) as GroupId) == gi);
                assert(start@ =~= group_starts(sub));
            }
            i += 1;
        }
        proof {
            assert(gs.subrange(0, groups@.len() as int) =~= gs);
        }
        VisitDAG { start, mutable: false, space: Space::Isolated, order: () }
    }

    /// Starts from several roots, in one group.
    pub fn subset(start: Vec<u64>) -> (r: Self)
        ensures
            r.starts() == start@.map_values(|k: u64| (0 as GroupId, k)),
            !r.is_mutable(),
            r.space() == Space::Unset,
    {
        let mut s: Vec<(GroupId, u64)> = Vec::new();
        let mut i: usize = 0;
        while i < start.len()
            invariant
                i <= start@.len(),
                s@ == start@.subrange(0, i as int).map_values(|k: u64| (0 as GroupId, k)),
            decreases start@.len() - i,
        {
            s.push((0, start[i]));
            i += 1;
            proof {
                assert(s@ =~= start@.subrange(0, i as int).map_values(|k: u64| (0 as GroupId, k)));
            }
        }
        proof {
            assert(start@.subrange(0, start@.len() as int) =~= start@);
        }
        Self::new(s)
    }

    /// Starts from a single root.
    pub fn rooted(start: u64) -> (r: Self)
        ensures
            r.starts() == seq![(0 as GroupId, start)],
            !r.is_mutable(),
            r.space() == Space::Unset,
    {
        let mut s: Vec<(GroupId, u64)> = Vec::new();
        s.push((0, start));
        proof {
            assert(s@ =~= seq![(0 as GroupId, start)]);
        }
        Self::new(s)
    }

    /// Lets the visit change the items it reaches.
    pub fn mutate(self) -> (r: Self)
        ensures
            r.starts() == self.starts(),
            r.is_mutable(),
            r.space() == self.space(),
    {
        VisitDAG { mutable: true, ..self }
    }

    /// Lets the roots share key space: a node is expanded once in all.
    pub fn shared_space(self) -> (r: Self)
        ensures
            r.starts() == self.starts(),
            r.is_mutable() == self.is_mutable(),
            r.space() == Space::Shared,
    {
        VisitDAG { space: Space::Shared, ..self }
    }

    /// Depth first.
    pub fn depth(self) -> (r: VisitDAG<Depth>)
        ensures
            r.starts() == self.starts(),
            r.is_mutable() == self.is_mutable(),
            r.space() == self.space(),
    {
        VisitDAG { start: self.start, mutable: self.mutable, space: self.space, order: Depth }
    }

    /// Breadth first.
    pub fn breadth(self) -> (r: VisitDAG<Breadth>)
        ensures
            r.starts() == self.starts(),
            r.is_mutable() == self.is_mutable(),
            r.space() == self.space(),
    {
        VisitDAG { start: self.start, mutable: self.mutable, space: self.space, order: Breadth }
    }

    /// Breadth first, each level sorted by key; the inputs of a node are
    /// grouped.
    pub fn forward(self) -> (r: VisitDAG<Forward>)
        ensures
            r.starts() == self.starts(),
            r.is_mutable() == self.is_mutable(),
            r.space() == self.space(),
    {
        VisitDAG { start: self.start, mutable: self.mutable, space: self.space, order: Forward }
    }

    /// Topological: items of lower order, as `order` gives it, come first.
    /// Orders should be unique, or the inputs of a node get split.
    pub fn topological<F>(self, order: F) -> (r: VisitDAG<Topological<F, u64>>)
        ensures
            r.starts() == self.starts(),
            r.is_mutable() == self.is_mutable(),
            r.space() == self.space(),
            r.order_spec().0 == order,
    {
        VisitDAG {
            start: self.start,
            mutable: self.mutable,
            space: self.space,
            order: Topological(order, PhantomData),
        }
    }

    /// Topological, by the items' keys.
    pub fn topological_by_key(self) -> (r: VisitDAG<TopologicalKey>)
        ensures
            r.starts() == self.starts(),
            r.is_mutable() == self.is_mutable(),
            r.space() == self.space(),
    {
        VisitDAG { start: self.start, mutable: self.mutable, space: self.space, order: TopologicalKey }
    }
}

} // verus!
