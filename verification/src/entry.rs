//! A process in the execution graph: its state and the completion status of
//! the processes it depends on.
use vstd::prelude::*;

verus! {

/// Represents the state of a process.
#[derive(Debug, Copy, Clone, PartialEq, Eq, Structural)]
pub enum ProcessState {
    Ready,
    Running,
    Overrun,
    Idle,
    Skip,
    Late,
}

/// The state changes that a process may go through.
pub open spec fn transition_allowed(from: ProcessState, to: ProcessState) -> bool {
    match from {
        ProcessState::Ready => to == ProcessState::Running || to == ProcessState::Skip,
        ProcessState::Running => to == ProcessState::Idle || to == ProcessState::Overrun,
        ProcessState::Overrun => to == ProcessState::Late,
        ProcessState::Idle => to == ProcessState::Ready || to == ProcessState::Late,
        ProcessState::Skip => to == ProcessState::Ready,
        ProcessState::Late => to == ProcessState::Idle,
    }
}

/// Number of dependencies not yet completed.
pub open spec fn count_unmet(s: Seq<(u16, bool)>) -> nat
    decreases s.len(),
{
    if s.len() == 0 {
        0
    } else {
        count_unmet(s.drop_last()) + if s.last().1 {
            0nat
        } else {
            1nat
        }
    }
}

/// The IDs of the processes depended on.
pub open spec fn dep_ids(s: Seq<(u16, bool)>) -> Seq<u16> {
    Seq::new(s.len(), |i: int| s[i].0)
}

/// All dependencies marked incomplete.
pub open spec fn all_unmet(ids: Seq<u16>) -> Seq<(u16, bool)> {
    Seq::new(ids.len(), |i: int| (ids[i], false))
}

/// Index of the first dependency on `cid`.
pub open spec fn find_dep(s: Seq<(u16, bool)>, cid: u16) -> Option<int>
    decreases s.len(),
{
    if s.len() == 0 {
        None
    } else if s[0].0 == cid {
        Some(0)
    } else {
        match find_dep(s.drop_first(), cid) {
            Some(i) => Some(i + 1),
            None => None,
        }
    }
}

pub proof fn lemma_find_dep(s: Seq<(u16, bool)>, cid: u16)
    ensures
        match find_dep(s, cid) {
            Some(i) => 0 <= i < s.len() && s[i].0 == cid && forall|k: int|
                0 <= k < i ==> s[k].0 != cid,
            None => forall|k: int| 0 <= k < s.len() ==> s[k].0 != cid,
        },
    decreases s.len(),
{
    if s.len() > 0 && s[0].0 != cid {
        lemma_find_dep(s.drop_first(), cid);
        assert forall|k: int| 0 < k < s.len() implies s[k] == s.drop_first()[k - 1] by {}
    }
}

proof fn lemma_find_dep_at(s: Seq<(u16, bool)>, cid: u16, i: int)
    requires
        0 <= i <= s.len(),
        i < s.len() ==> s[i].0 == cid,
        forall|k: int| 0 <= k < i ==> s[k].0 != cid,
    ensures
        find_dep(s, cid) == (if i < s.len() {
            Some(i)
        } else {
            None::<int>
        }),
{
    lemma_find_dep(s, cid);
    match find_dep(s, cid) {
        Some(j) => {
            if j < i {
                assert(s[j].0 != cid);
            }
            if i < j {
                assert(s[i].0 != cid);
            }
        },
        None => {
            if i < s.len() {
                assert(s[i].0 != cid);
            }
        },
    }
}

/// No dependency is pending exactly when the count of unmet ones is zero.
pub proof fn lemma_count_unmet_zero(s: Seq<(u16, bool)>)
    ensures
        (count_unmet(s) == 0) == (forall|k: int| 0 <= k < s.len() ==> s[k].1),
    decreases s.len(),
{
    if s.len() > 0 {
        lemma_count_unmet_zero(s.drop_last());
        if count_unmet(s) == 0 {
            assert forall|k: int| 0 <= k < s.len() implies s[k].1 by {
                if k < s.len() - 1 {
                    assert(s[k] == s.drop_last()[k]);
                }
            }
        }
        if forall|k: int| 0 <= k < s.len() ==> s[k].1 {
            assert forall|k: int| 0 <= k < s.drop_last().len() implies s.drop_last()[k].1 by {
                assert(s[k] == s.drop_last()[k]);
            }
        }
    }
}

proof fn lemma_count_unmet_all_unmet(ids: Seq<u16>)
    ensures
        count_unmet(all_unmet(ids)) == ids.len(),
    decreases ids.len(),
{
    if ids.len() > 0 {
        lemma_count_unmet_all_unmet(ids.drop_last());
        assert(all_unmet(ids).drop_last() =~= all_unmet(ids.drop_last()));
    }
}

proof fn lemma_count_unmet_set_true(s: Seq<(u16, bool)>, i: int)
    requires
        0 <= i < s.len(),
        !s[i].1,
    ensures
        count_unmet(s.update(i, (s[i].0, true))) + 1 == count_unmet(s),
    decreases s.len(),
{
    let t = s.update(i, (s[i].0, true));
    if i == s.len() - 1 {
        assert(t.drop_last() =~= s.drop_last());
    } else {
        lemma_count_unmet_set_true(s.drop_last(), i);
        assert(t.drop_last() =~= s.drop_last().update(i, (s[i].0, true)));
    }
}

/// Represents the process.
#[derive(Debug)]
pub struct ProcessEntry {
    pub cid: u16,
    pub state: ProcessState,
    pub dependency_statuses: Vec<(u16, bool)>,
    pub unmet_dependencies: usize,
    pub is_floating: bool,
}

impl ProcessEntry {
    /// The count of unmet dependencies agrees with the statuses.
    pub open spec fn wf(&self) -> bool {
        self.unmet_dependencies == count_unmet(self.dependency_statuses@)
    }

    /// The IDs of the processes this one depends on.
    pub open spec fn deps(&self) -> Seq<u16> {
        dep_ids(self.dependency_statuses@)
    }

    /// Whether every dependency has completed.
    pub open spec fn deps_met(&self) -> bool {
        forall|k: int|
            0 <= k < self.dependency_statuses@.len() ==> (#[trigger] self.dependency_statuses@[k]).1
    }

    pub fn new(cid: u16, depends_on: &Vec<u16>, is_floating: bool) -> (e: Self)
        ensures
            e.wf(),
            e.cid == cid,
            e.state == ProcessState::Idle,
            e.dependency_statuses@ == all_unmet(depends_on@),
            e.is_floating == is_floating,
    {
        let mut statuses: Vec<(u16, bool)> = Vec::new();
        let mut i: usize = 0;
        while i < depends_on.len()
            invariant
                i <= depends_on.len(),
                statuses@ == all_unmet(depends_on@.take(i as int)),
            decreases depends_on.len() - i,
        {
            statuses.push((depends_on[i], false));
            i += 1;
            assert(statuses@ =~= all_unmet(depends_on@.take(i as int)));
        }
        assert(depends_on@.take(i as int) =~= depends_on@);
        proof {
            lemma_count_unmet_all_unmet(depends_on@);
        }
        let unmet_dependencies = statuses.len();
        ProcessEntry {
            cid,
            is_floating,
            state: ProcessState::Idle,
            dependency_statuses: statuses,
            unmet_dependencies,
        }
    }

    /// Reset state and dependency statuses.
    pub fn reset(&mut self)
        ensures
            final(self).wf(),
            final(self).cid == old(self).cid,
            final(self).is_floating == old(self).is_floating,
            final(self).state == ProcessState::Idle,
            final(self).dependency_statuses@ == all_unmet(old(self).deps()),
    {
        self.state = ProcessState::Idle;
        self.reset_dependency_statuses();
    }

    /// Get the id of the process.
    pub fn get_cid(&self) -> (r: u16)
        ensures
            r == self.cid,
    {
        self.cid
    }

    /// Get the floating or not.
    pub fn is_floating(&self) -> (r: bool)
        ensures
            r == self.is_floating,
    {
        self.is_floating
    }

    /// Get the state of the process.
    pub fn get_state(&self) -> (r: ProcessState)
        ensures
            r == self.state,
    {
        self.state
    }

    /// Set the state of the process; refused unless the change is allowed.
    pub fn set_state(&mut self, new_state: ProcessState) -> (ok: bool)
        ensures
            ok == transition_allowed(old(self).state, new_state),
            final(self).state == (if ok {
                new_state
            } else {
                old(self).state
            }),
            final(self).cid == old(self).cid,
            final(self).is_floating == old(self).is_floating,
            final(self).dependency_statuses@ == old(self).dependency_statuses@,
            final(self).unmet_dependencies == old(self).unmet_dependencies,
    {
        let ok_to_change = match self.state {
            ProcessState::Ready => match new_state {
                ProcessState::Running => true,
                ProcessState::Skip => true,
                _ => false,
            },
            ProcessState::Running => match new_state {
                ProcessState::Idle => true,
                ProcessState::Overrun => true,
                _ => false,
            },
            ProcessState::Overrun => match new_state {
                ProcessState::Late => true,
                _ => false,
            },
            ProcessState::Idle => match new_state {
                ProcessState::Ready => true,
                ProcessState::Late => true,
                _ => false,
            },
            ProcessState::Skip => match new_state {
                ProcessState::Ready => true,
                _ => false,
            },
            ProcessState::Late => match new_state {
                ProcessState::Idle => true,
                _ => false,
            },
        };
        if ok_to_change {
            self.state = new_state;
        }
        ok_to_change
    }

    /// Check if process has dependency.
    pub fn is_dependent(&self) -> (r: bool)
        ensures
            r == (self.dependency_statuses@.len() > 0),
    {
        self.dependency_statuses.len() > 0
    }

    /// Check if the process can start.
    pub fn is_dependency_met(&self) -> (r: bool)
        requires
            self.wf(),
        ensures
            r == self.deps_met(),
    {
        proof {
            lemma_count_unmet_zero(self.dependency_statuses@);
        }
        self.unmet_dependencies == 0
    }

    /// Marks the first dependency on `cid` complete; returns false when
    /// there is none or it was already complete.
    pub fn mark_dependency_complete(&mut self, cid: u16) -> (r: bool)
        requires
            old(self).wf(),
        ensures
            final(self).wf(),
            final(self).cid == old(self).cid,
            final(self).state == old(self).state,
            final(self).is_floating == old(self).is_floating,
            final(self).deps() == old(self).deps(),
            match find_dep(old(self).dependency_statuses@, cid) {
                Some(i) => if old(self).dependency_statuses@[i].1 {
                    !r && final(self).dependency_statuses@ == old(self).dependency_statuses@
                } else {
                    r && final(self).dependency_statuses@ == old(
                        self,
                    ).dependency_statuses@.update(i, (cid, true))
                },
                None => !r && final(self).dependency_statuses@ == old(self).dependency_statuses@,
            },
    {
        let mut i: usize = 0;
        while i < self.dependency_statuses.len()
            invariant
                self == old(self),
                old(self).wf(),
                i <= self.dependency_statuses.len(),
                forall|k: int| 0 <= k < i ==> self.dependency_statuses@[k].0 != cid,
            decreases self.dependency_statuses.len() - i,
        {
            if self.dependency_statuses[i].0 == cid {
                proof {
                    lemma_find_dep_at(self.dependency_statuses@, cid, i as int);
                }
                if self.dependency_statuses[i].1 {
                    return false;
                } else {
                    proof {
                        lemma_count_unmet_set_true(self.dependency_statuses@, i as int);
                    }
                    self.dependency_statuses.set(i, (cid, true));
                    if self.unmet_dependencies > 0 {
                        self.unmet_dependencies = self.unmet_dependencies - 1;
                    }
                    assert(self.deps() =~= old(self).deps());
                    return true;
                }
            }
            i += 1;
        }
        proof {
            lemma_find_dep_at(self.dependency_statuses@, cid, i as int);
        }
        false
    }

    /// Clear the dependency status.
    pub fn reset_dependency_statuses(&mut self)
        ensures
            final(self).wf(),
            final(self).cid == old(self).cid,
            final(self).state == old(self).state,
            final(self).is_floating == old(self).is_floating,
            final(self).dependency_statuses@ == all_unmet(old(self).deps()),
    {
        let ghost ids = old(self).deps();
        self.unmet_dependencies = self.dependency_statuses.len();
        let mut i: usize = 0;
        while i < self.dependency_statuses.len()
            invariant
                self.cid == old(self).cid,
                self.state == old(self).state,
                self.is_floating == old(self).is_floating,
                self.unmet_dependencies == ids.len(),
                self.dependency_statuses@.len() == ids.len(),
                i <= ids.len(),
                ids == old(self).deps(),
                forall|k: int| 0 <= k < ids.len() ==> self.dependency_statuses@[k].0 == ids[k],
                forall|k: int| 0 <= k < i ==> !self.dependency_statuses@[k].1,
            decreases ids.len() - i,
        {
            let id = self.dependency_statuses[i].0;
            self.dependency_statuses.set(i, (id, false));
            i += 1;
        }
        assert(self.dependency_statuses@ =~= all_unmet(ids));
        proof {
            lemma_count_unmet_all_unmet(ids);
        }
    }
}

} // verus!
