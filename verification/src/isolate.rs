//! What a paused visit with isolated groups keeps: the key space of each
//! group by its number, and the numbers of removed groups for reuse.

use crate::visit::GroupId;
use vstd::prelude::*;

verus! {

/// The key spaces of the groups of a paused visit, by group number, where a
/// group has one, and the numbers freed for reuse, the last freed last.
pub struct PausedGroups<K> {
    isolates: Vec<Option<K>>,
    free: Vec<GroupId>,
}

impl<K: Default> PausedGroups<K> {
    /// The key space of each group, by number.
    pub closed spec fn spaces(&self) -> Seq<Option<K>> {
        self.isolates@
    }

    /// The numbers freed for reuse, the last freed last.
    pub closed spec fn freed(&self) -> Seq<GroupId> {
        self.free@
    }

    /// Every freed number is that of a group.
    pub closed spec fn wf(&self) -> bool {
        forall|i: int| 0 <= i < self.free@.len() ==> (#[trigger] self.free@[i]) < self.isolates@.len()
    }

    /// Room for every group that `start` names, each with no key space yet.
    pub fn paused(start: &Vec<(GroupId, u64)>) -> (r: Self)
        requires
            forall|i: int| 0 <= i < start@.len() ==> (#[trigger] start@[i]).0 + 1 <= usize::MAX,
        ensures
            r.wf(),
            r.freed().len() == 0,
            forall|i: int| 0 <= i < r.spaces().len() ==> r.spaces()[i] is None,
            forall|i: int| 0 <= i < start@.len() ==> (#[trigger] start@[i]).0 < r.spaces().len(),
            start@.len() == 0 ==> r.spaces().len() == 0,
            start@.len() > 0 ==> exists|i: int|
                0 <= i < start@.len() && (#[trigger] start@[i]).0 + 1 == r.spaces().len(),
    {
        let mut n: usize = 0;
        let mut i: usize = 0;
        while i < start.len()
            invariant
                i <= start@.len(),
                forall|i: int| 0 <= i < start@.len() ==> (#[trigger] start@[i]).0 + 1 <= usize::MAX,
                forall|j: int| 0 <= j < i ==> (#[trigger] start@[j]).0 < n,
                i == 0 ==> n == 0,
                i > 0 ==> exists|j: int| 0 <= j < i && (#[trigger] start@[j]).0 + 1 == n,
            decreases start@.len() - i,
        {
            let g = start[i].0 as usize;
            if g + 1 > n {
                n = g + 1;
            }
            proof {
                assert(start@[i as int].0 < n);
            }
            i += 1;
        }
        let mut isolates: Vec<Option<K>> = Vec::new();
        while isolates.len() < n
            invariant
                isolates@.len() <= n,
                forall|j: int| 0 <= j < isolates@.len() ==> isolates@[j] is None,
            decreases n - isolates@.len(),
        {
            isolates.push(None);
        }
        PausedGroups { isolates, free: Vec::new() }
    }

    /// Takes the key space of `group` out; a fresh one where it has none.
    pub fn access(&mut self, group: GroupId) -> (r: K)
        requires
            old(self).wf(),
            group < old(self).spaces().len(),
        ensures
            final(self).wf(),
            old(self).spaces()[group as int] matches Some(k) ==> r == k,
            final(self).spaces() == old(self).spaces().update(group as int, None),
            final(self).freed() == old(self).freed(),
    {
        let g = group as usize;
        let mut taken: Option<K> = None;
        std::mem::swap(&mut taken, &mut self.isolates[g]);
        match taken {
            Some(k) => k,
            None => K::default(),
        }
    }

    /// Gives `group` its key space back.
    pub fn return_keys(&mut self, group: GroupId, keys: K)
        requires
            old(self).wf(),
            group < old(self).spaces().len(),
        ensures
            final(self).wf(),
            final(self).spaces() == old(self).spaces().update(group as int, Some(keys)),
            final(self).freed() == old(self).freed(),
    {
        let g = group as usize;
        self.isolates.set(g, Some(keys));
    }

    /// A number for a new group: the last freed, or a new one at the end.
    pub fn add_group(&mut self) -> (r: GroupId)
        requires
            old(self).wf(),
            old(self).spaces().len() <= u32::MAX,
        ensures
            final(self).wf(),
            old(self).freed().len() > 0 ==> {
                &&& r == old(self).freed().last()
                &&& final(self).freed() == old(self).freed().drop_last()
                &&& final(self).spaces() == old(self).spaces()
            },
            old(self).freed().len() == 0 ==> {
                &&& r == old(self).spaces().len()
                &&& final(self).freed() == old(self).freed()
                &&& final(self).spaces() == old(self).spaces().push(None)
            },
    {
        match self.free.pop() {
            Some(free) => free,
            None => {
                let group = self.isolates.len() as u32;
                self.isolates.push(None);
                group
            },
        }
    }

    /// Removes `group`: drops its key space and frees its number.
    pub fn remove_group(&mut self, group: GroupId)
        requires
            old(self).wf(),
            group < old(self).spaces().len(),
        ensures
            final(self).wf(),
            final(self).spaces() == old(self).spaces().update(group as int, None),
            final(self).freed() == old(self).freed().push(group),
    {
        self.free.push(group);
        let g = group as usize;
        self.isolates.set(g, None);
    }
}

} // verus!
