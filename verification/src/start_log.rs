//! The change logs of a cycle start: which state changes it reports, in
//! which order.
use vstd::prelude::*;

use crate::entry::{ProcessEntry, ProcessState};
use crate::scheduler::{
    cids_in_state, distinct_cids, entry_of, has_cid, lemma_cids_in_state, lemma_entry_of,
    lemma_log_inv_shape, log_inv, overrun_dependent, same_of, ProcessStateChange,
};

verus! {

/// The entry of the process `x` is in state `st`.
pub open spec fn in_state(entries: Seq<ProcessEntry>, x: u16, st: ProcessState) -> bool {
    has_cid(entries, x) && entry_of(entries, x).state == st
}

/// The changes of moving from `from` to `to`, in the order of `list`, each
/// listed process whose entry in `entries` is in state `from`; a process
/// listed twice moves once.
pub closed spec fn shift_log(
    list: Seq<u16>,
    entries: Seq<ProcessEntry>,
    from: ProcessState,
    to: ProcessState,
) -> Seq<ProcessStateChange>
    decreases list.len(),
{
    if list.len() == 0 {
        Seq::empty()
    } else {
        let pre = list.drop_last();
        let x = list.last();
        shift_log(pre, entries, from, to) + if in_state(entries, x, from) && !pre.contains(x) {
            seq![ProcessStateChange { cid: x, before: from, after: to }]
        } else {
            Seq::empty()
        }
    }
}

/// The process `y` is `Ready` in `e0` and no same-cycle dependent of the
/// overrun processes `ovr`.
pub open spec fn ready_undisturbed(
    e0: Seq<ProcessEntry>,
    same: Seq<Vec<u16>>,
    ovr: Seq<u16>,
    y: u16,
) -> bool {
    in_state(e0, y, ProcessState::Ready) && !overrun_dependent(e0, same, ovr, y)
}

/// The skips, in the order of `list`, of the processes that are `Ready` in
/// `e0` and no same-cycle dependent of the overrun processes `ovr`; a
/// process listed twice skips once.
pub closed spec fn skip_log(
    list: Seq<u16>,
    e0: Seq<ProcessEntry>,
    same: Seq<Vec<u16>>,
    ovr: Seq<u16>,
) -> Seq<ProcessStateChange>
    decreases list.len(),
{
    if list.len() == 0 {
        Seq::empty()
    } else {
        let pre = list.drop_last();
        let x = list.last();
        skip_log(pre, e0, same, ovr) + if ready_undisturbed(e0, same, ovr, x) && !pre.contains(x) {
            seq![
                ProcessStateChange {
                    cid: x,
                    before: ProcessState::Ready,
                    after: ProcessState::Skip,
                },
            ]
        } else {
            Seq::empty()
        }
    }
}

/// Nothing listed, nothing moves.
pub proof fn lemma_shift_log_empty(entries: Seq<ProcessEntry>, from: ProcessState, to: ProcessState)
    ensures
        shift_log(Seq::empty(), entries, from, to) == Seq::<ProcessStateChange>::empty(),
{
}

/// The log of a list with one more process at its end.
pub proof fn lemma_shift_log_push(
    list: Seq<u16>,
    x: u16,
    entries: Seq<ProcessEntry>,
    from: ProcessState,
    to: ProcessState,
)
    ensures
        shift_log(list.push(x), entries, from, to) == shift_log(list, entries, from, to) + if in_state(
            entries,
            x,
            from,
        ) && !list.contains(x) {
            seq![ProcessStateChange { cid: x, before: from, after: to }]
        } else {
            Seq::empty()
        },
{
    assert(list.push(x).drop_last() =~= list);
}

/// Shifting from the same state over entries that agree on who is in it
/// logs the same changes.
pub proof fn lemma_shift_log_entries(
    list: Seq<u16>,
    a: Seq<ProcessEntry>,
    b: Seq<ProcessEntry>,
    from: ProcessState,
    to: ProcessState,
)
    requires
        forall|y: u16| #[trigger] in_state(a, y, from) == in_state(b, y, from),
    ensures
        shift_log(list, a, from, to) == shift_log(list, b, from, to),
    decreases list.len(),
{
    if list.len() > 0 {
        lemma_shift_log_entries(list.drop_last(), a, b, from, to);
        assert(in_state(a, list.last(), from) == in_state(b, list.last(), from));
    }
}

/// Skipping the `Ready` processes of entries whose `Ready` ones are those
/// undisturbed by the overruns logs the skips of `skip_log`.
pub proof fn lemma_shift_log_skips(
    list: Seq<u16>,
    a: Seq<ProcessEntry>,
    e0: Seq<ProcessEntry>,
    same: Seq<Vec<u16>>,
    ovr: Seq<u16>,
)
    requires
        forall|y: u16|
            #[trigger] in_state(a, y, ProcessState::Ready) == ready_undisturbed(e0, same, ovr, y),
    ensures
        shift_log(list, a, ProcessState::Ready, ProcessState::Skip) == skip_log(list, e0, same, ovr),
    decreases list.len(),
{
    if list.len() > 0 {
        lemma_shift_log_skips(list.drop_last(), a, e0, same, ovr);
        assert(in_state(a, list.last(), ProcessState::Ready) == ready_undisturbed(
            e0,
            same,
            ovr,
            list.last(),
        ));
    }
}

/// The changes of marking the processes of `ovr` overrun, in order, each
/// followed by its `Ready` same-cycle dependents that skip.
pub closed spec fn overrun_log(
    e0: Seq<ProcessEntry>,
    same: Seq<Vec<u16>>,
    ovr: Seq<u16>,
) -> Seq<ProcessStateChange>
    decreases ovr.len(),
{
    if ovr.len() == 0 {
        Seq::empty()
    } else {
        let s = ovr.drop_last();
        let c = ovr.last();
        overrun_log(e0, same, s) + (if !s.contains(c) {
            seq![
                ProcessStateChange {
                    cid: c,
                    before: ProcessState::Running,
                    after: ProcessState::Overrun,
                },
            ]
        } else {
            Seq::empty()
        }) + skip_log(same_of(e0, same, c).skip(1), e0, same, s)
    }
}

/// No overrun, no change.
pub proof fn lemma_overrun_log_empty(e0: Seq<ProcessEntry>, same: Seq<Vec<u16>>)
    ensures
        overrun_log(e0, same, Seq::empty()) == Seq::<ProcessStateChange>::empty(),
{
}

/// The log of one more overrun process `c` after those of `s`.
pub proof fn lemma_overrun_log_push(e0: Seq<ProcessEntry>, same: Seq<Vec<u16>>, s: Seq<u16>, c: u16)
    ensures
        overrun_log(e0, same, s.push(c)) == overrun_log(e0, same, s) + (if !s.contains(c) {
            seq![
                ProcessStateChange {
                    cid: c,
                    before: ProcessState::Running,
                    after: ProcessState::Overrun,
                },
            ]
        } else {
            Seq::empty()
        }) + skip_log(same_of(e0, same, c).skip(1), e0, same, s),
{
    assert(s.push(c).drop_last() =~= s);
}

/// The changes of a start whose same-cycle closure `f` holds a process
/// that is not `Ready`: first the overruns, each with its skipping
/// dependents, then the late processes, then the skips of `f`.
pub closed spec fn not_ready_log(
    e0: Seq<ProcessEntry>,
    same: Seq<Vec<u16>>,
    f: Seq<u16>,
) -> Seq<ProcessStateChange> {
    let ovr = cids_in_state(e0, f, ProcessState::Running);
    overrun_log(e0, same, ovr) + shift_log(
        cids_in_state(e0, f, ProcessState::Idle),
        e0,
        ProcessState::Idle,
        ProcessState::Late,
    ) + skip_log(f, e0, same, ovr)
}

/// The three parts of the log of a start with a process that is not
/// `Ready`.
pub proof fn lemma_not_ready_log(e0: Seq<ProcessEntry>, same: Seq<Vec<u16>>, f: Seq<u16>)
    ensures
        not_ready_log(e0, same, f) == overrun_log(
            e0,
            same,
            cids_in_state(e0, f, ProcessState::Running),
        ) + shift_log(
            cids_in_state(e0, f, ProcessState::Idle),
            e0,
            ProcessState::Idle,
            ProcessState::Late,
        ) + skip_log(f, e0, same, cids_in_state(e0, f, ProcessState::Running)),
{
}

/// Which processes are `Idle` after the overruns, and which `Ready` after
/// the late ones, told from the states before the start.
pub(crate) proof fn lemma_phase_conditions(
    e0: Seq<ProcessEntry>,
    same: Seq<Vec<u16>>,
    f: Seq<u16>,
    ovr: Seq<u16>,
    e1: Seq<ProcessEntry>,
    e2: Seq<ProcessEntry>,
    ch1: Seq<ProcessStateChange>,
    ch2: Seq<ProcessStateChange>,
)
    requires
        distinct_cids(e0),
        ovr == cids_in_state(e0, f, ProcessState::Running),
        log_inv(e0, e1, ch1),
        log_inv(e0, e2, ch2),
        forall|j: int|
            0 <= j < e0.len() ==> {
                let e = #[trigger] e0[j];
                let dep = e.state == ProcessState::Ready && overrun_dependent(e0, same, ovr, e.cid);
                e1[j].state == if ovr.contains(e.cid) {
                    ProcessState::Overrun
                } else if dep {
                    ProcessState::Skip
                } else {
                    e.state
                }
            },
        forall|j: int|
            0 <= j < e0.len() ==> {
                let e = #[trigger] e1[j];
                if cids_in_state(e0, f, ProcessState::Idle).contains(e.cid) && e.state == ProcessState::Idle {
                    e2[j].state == ProcessState::Late
                } else {
                    e2[j].state == e.state
                }
            },
    ensures
        shift_log(cids_in_state(e0, f, ProcessState::Idle), e1, ProcessState::Idle, ProcessState::Late)
            == shift_log(
            cids_in_state(e0, f, ProcessState::Idle),
            e0,
            ProcessState::Idle,
            ProcessState::Late,
        ),
        shift_log(f, e2, ProcessState::Ready, ProcessState::Skip) == skip_log(f, e0, same, ovr),
{
    lemma_log_inv_shape(e0, e1, ch1);
    lemma_log_inv_shape(e0, e2, ch2);
    let late = cids_in_state(e0, f, ProcessState::Idle);
    assert(distinct_cids(e1)) by {
        assert forall|p: int, q: int|
            0 <= p < e1.len() && 0 <= q < e1.len() && p != q implies #[trigger] e1[p].cid
                != #[trigger] e1[q].cid by {
            assert(e1[p].cid == e0[p].cid && e1[q].cid == e0[q].cid);
        }
    }
    assert(distinct_cids(e2)) by {
        assert forall|p: int, q: int|
            0 <= p < e2.len() && 0 <= q < e2.len() && p != q implies #[trigger] e2[p].cid
                != #[trigger] e2[q].cid by {
            assert(e2[p].cid == e0[p].cid && e2[q].cid == e0[q].cid);
        }
    }
    assert forall|y: u16|
        #![trigger in_state(e1, y, ProcessState::Idle)]
        #![trigger in_state(e2, y, ProcessState::Ready)]
        in_state(e1, y, ProcessState::Idle) == in_state(e0, y, ProcessState::Idle) && in_state(
            e2,
            y,
            ProcessState::Ready,
        ) == ready_undisturbed(e0, same, ovr, y) by {
        if has_cid(e0, y) {
            let j = choose|j: int| 0 <= j < e0.len() && #[trigger] e0[j].cid == y;
            lemma_entry_of(e0, j);
            assert(e1[j].cid == y && e2[j].cid == y);
            lemma_entry_of(e1, j);
            lemma_entry_of(e2, j);
            lemma_cids_in_state(e0, f, ProcessState::Running, y);
            lemma_cids_in_state(e0, f, ProcessState::Idle, y);
        } else {
            assert(!has_cid(e1, y)) by {
                if has_cid(e1, y) {
                    let j = choose|j: int| 0 <= j < e1.len() && #[trigger] e1[j].cid == y;
                    assert(e0[j].cid == y);
                }
            }
            assert(!has_cid(e2, y)) by {
                if has_cid(e2, y) {
                    let j = choose|j: int| 0 <= j < e2.len() && #[trigger] e2[j].cid == y;
                    assert(e0[j].cid == y);
                }
            }
        }
    }
    lemma_shift_log_entries(late, e1, e0, ProcessState::Idle, ProcessState::Late);
    lemma_shift_log_skips(f, e2, e0, same, ovr);
}

} // verus!
