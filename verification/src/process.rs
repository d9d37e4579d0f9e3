//! A paused visit with isolated groups, which can be grown and shrunk group
//! by group between steps.

use crate::isolate::PausedGroups;
use crate::order::Queue;
use crate::visit::{DagCore, GroupId, entry_outside};
use vstd::prelude::*;

verus! {

/// A visit that groups can be added to and removed from between steps.
pub trait ProcessIsolatedDAG<NI>: Sized {
    /// The process is well formed.
    spec fn inv(&self) -> bool;

    /// A group can still be numbered.
    spec fn can_add_group(&self) -> bool;

    /// `group` exists and can be removed.
    spec fn can_purge(&self, group: GroupId) -> bool;

    /// Adds a group and returns its number.
    fn add_group(&mut self) -> (r: GroupId)
        requires
            old(self).inv(),
            old(self).can_add_group(),
        ensures
            final(self).inv(),
    ;

    /// Adds a root to `group`, which must exist.
    fn add_root_to_group(&mut self, group: GroupId, root: u64)
        requires
            old(self).inv(),
        ensures
            final(self).inv(),
    ;

    /// Queues `input` towards `to` under `order` in `group`, which must
    /// exist; false where the queue refuses the order.
    fn add_input_to_group(&mut self, group: GroupId, order: u64, input: NI, to: u64) -> (r: bool)
        requires
            old(self).inv(),
        ensures
            final(self).inv(),
    ;

    /// Removes `group`; its number may be reused.
    fn purge(&mut self, group: GroupId)
        requires
            old(self).inv(),
            old(self).can_purge(group),
        ensures
            final(self).inv(),
    ;
}

/// A paused visit: its state, and the key space of each group.
pub struct DagProcess<NI, Q, K> {
    core: DagCore<NI, Q>,
    access: PausedGroups<K>,
}

impl<NI, Q: Queue<(NI, u64)>, K: Default> DagProcess<NI, Q, K> {
    /// The state of the visit.
    pub closed spec fn state(&self) -> DagCore<NI, Q> {
        self.core
    }

    /// The key spaces of the groups.
    pub closed spec fn groups(&self) -> PausedGroups<K> {
        self.access
    }

    /// A paused visit from `start`, with room for every group it names.
    pub fn new(start: Vec<(GroupId, u64)>) -> (r: Self)
        requires
            forall|i: int| 0 <= i < start@.len() ==> (#[trigger] start@[i]).0 + 1 <= usize::MAX,
        ensures
            r.state().wf(),
            r.state().starts() == start@,
            r.state().buffered().len() == 0,
            r.state().queued().len() == 0,
            r.state().pending_event() is None,
            r.groups().wf(),
            r.groups().freed().len() == 0,
            forall|i: int| 0 <= i < start@.len() ==> (#[trigger] start@[i]).0 < r.groups().spaces().len(),
            forall|i: int| 0 <= i < r.groups().spaces().len() ==> r.groups().spaces()[i] is None,
    {
        let access = PausedGroups::paused(&start);
        DagProcess { core: DagCore::new(start), access }
    }
}

impl<NI, Q: Queue<(NI, u64)>, K: Default> ProcessIsolatedDAG<NI> for DagProcess<NI, Q, K> {
    closed spec fn inv(&self) -> bool {
        self.core.wf() && self.access.wf()
    }

    closed spec fn can_add_group(&self) -> bool {
        self.access.spaces().len() <= u32::MAX
    }

    closed spec fn can_purge(&self, group: GroupId) -> bool {
        &&& group < self.access.spaces().len()
        &&& self.core.queued().len() + 1 < usize::MAX
    }

    fn add_group(&mut self) -> (r: GroupId)
        ensures
            final(self).state() == old(self).state(),
            old(self).groups().freed().len() > 0 ==> r == old(self).groups().freed().last()
                && final(self).groups().spaces() == old(self).groups().spaces(),
            old(self).groups().freed().len() == 0 ==> r == old(self).groups().spaces().len()
                && final(self).groups().spaces() == old(self).groups().spaces().push(None),
    {
        self.access.add_group()
    }

    fn add_root_to_group(&mut self, group: GroupId, root: u64)
        ensures
            final(self).state().starts() == old(self).state().starts().push((group, root)),
            final(self).state().buffered() == old(self).state().buffered(),
            final(self).state().queue_spec() == old(self).state().queue_spec(),
            final(self).state().pending_event() == old(self).state().pending_event(),
            final(self).groups() == old(self).groups(),
    {
        self.core.add_root_to_group(group, root);
    }

    fn add_input_to_group(&mut self, group: GroupId, order: u64, input: NI, to: u64) -> (r: bool)
        ensures
            r == old(self).state().queue_spec().accepts((order, group)),
            r ==> final(self).state().queued() == old(self).state().queued().insert(
                ((order, group), (input, to)),
            ),
            !r ==> final(self).state().queued() == old(self).state().queued(),
            final(self).state().starts() == old(self).state().starts(),
            final(self).state().buffered() == old(self).state().buffered(),
            final(self).groups() == old(self).groups(),
    {
        self.core.add_input_to_group(group, order, input, to)
    }

    fn purge(&mut self, group: GroupId)
        ensures
            final(self).state().queued() == old(self).state().queued().filter(entry_outside(group)),
            final(self).state().pending_event() == old(self).state().pending_event(),
            final(self).groups().spaces() == old(self).groups().spaces().update(group as int, None),
            final(self).groups().freed() == old(self).groups().freed().push(group),
    {
        self.access.remove_group(group);
        self.core.purge(group);
    }
}

} // verus!
