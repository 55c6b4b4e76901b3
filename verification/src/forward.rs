//! The search along the forward dependency graph of the scheduler.
use vstd::prelude::*;

use crate::entry::ProcessEntry;
use crate::scheduler::{
    cid_seq, contains_u16, distinct_cids, forward_wf, is_floating_cid, is_forward_closure,
    is_walk, key_index, lemma_closed_walk, lemma_forward_keys, lemma_no_dup_len_bound, lemma_push_contains,
    lemma_succ_absent, lemma_succ_are_entries, lemma_succ_at, lemma_walk_extend, reaches, step,
    succ, Scheduler,
};

verus! {

/// Adds to the processes found, and to those still to search, each
/// successor of `target` that the search enters and has not found yet.
fn add_successors(
    list: &Vec<u16>,
    target: u16,
    cid: u16,
    include_self: bool,
    entries: &Vec<ProcessEntry>,
    forward_dependencies: &Vec<(u16, Vec<u16>)>,
    same_cycle_only: bool,
    forwards: &mut Vec<u16>,
    targets: &mut Vec<u16>,
    Ghost(done): Ghost<Set<u16>>,
    Ghost(bound): Ghost<Set<u16>>,
)
    requires
        forward_wf(entries@, forward_dependencies@),
        distinct_cids(entries@),
        bound == cid_seq(entries@).to_set().insert(cid),
        bound.finite(),
        list@ == succ(forward_dependencies@, target),
        target == cid || reaches(entries@, forward_dependencies@, same_cycle_only, cid, target),
        old(forwards)@.no_duplicates(),
        include_self ==> old(forwards)@.len() > 0 && old(forwards)@[0] == cid,
        forall|y: u16|
            #[trigger] old(forwards)@.contains(y) ==> (include_self && y == cid) || reaches(
                entries@,
                forward_dependencies@,
                same_cycle_only,
                cid,
                y,
            ),
        forall|y: u16|
            #[trigger] old(targets)@.contains(y) ==> y == cid || reaches(
                entries@,
                forward_dependencies@,
                same_cycle_only,
                cid,
                y,
            ),
        forall|x: u16, y: u16|
            done.contains(x) && #[trigger] step(entries@, forward_dependencies@, same_cycle_only, x, y)
                ==> old(forwards)@.contains(y),
        done.contains(cid) || old(targets)@.contains(cid) || cid == target,
        forall|y: u16|
            #[trigger] old(forwards)@.contains(y) ==> done.contains(y) || old(targets)@.contains(y)
                || y == target,
        forall|y: u16| #[trigger] old(forwards)@.contains(y) ==> bound.contains(y),
    ensures
        final(forwards)@.no_duplicates(),
        include_self ==> final(forwards)@.len() > 0 && final(forwards)@[0] == cid,
        forall|y: u16|
            #[trigger] final(forwards)@.contains(y) ==> (include_self && y == cid) || reaches(
                entries@,
                forward_dependencies@,
                same_cycle_only,
                cid,
                y,
            ),
        forall|y: u16|
            #[trigger] final(targets)@.contains(y) ==> y == cid || reaches(
                entries@,
                forward_dependencies@,
                same_cycle_only,
                cid,
                y,
            ),
        forall|x: u16, y: u16|
            done.contains(x) && #[trigger] step(entries@, forward_dependencies@, same_cycle_only, x, y)
                ==> final(forwards)@.contains(y),
        done.contains(cid) || final(targets)@.contains(cid) || cid == target,
        forall|y: u16|
            #[trigger] final(forwards)@.contains(y) ==> done.contains(y) || final(targets)@.contains(y)
                || y == target,
        forall|y: u16| #[trigger] final(forwards)@.contains(y) ==> bound.contains(y),
        forall|m: int|
            0 <= m < list@.len() && step(
                entries@,
                forward_dependencies@,
                same_cycle_only,
                target,
                #[trigger] list@[m],
            ) ==> final(forwards)@.contains(list@[m]),
        final(forwards)@.len() - old(forwards)@.len() == final(targets)@.len() - old(targets)@.len(),
        final(forwards)@.len() >= old(forwards)@.len(),
{
    let ghost ents = entries@;
    let ghost g = forward_dependencies@;
    let ghost same = same_cycle_only;
    let ghost f1 = forwards@.len();
    let ghost tl1 = targets@.len();
    let mut k: usize = 0;
    while k < list.len()
        invariant
            ents == entries@,
            g == forward_dependencies@,
            same == same_cycle_only,
            forward_wf(ents, g),
            distinct_cids(ents),
            bound == cid_seq(ents).to_set().insert(cid),
            bound.finite(),
            list@ == succ(g, target),
            k <= list.len(),
            target == cid || reaches(ents, g, same, cid, target),
            forwards@.no_duplicates(),
            include_self ==> forwards@.len() > 0 && forwards@[0] == cid,
            forall|y: u16|
                #[trigger] forwards@.contains(y) ==> (include_self && y == cid)
                    || reaches(ents, g, same, cid, y),
            forall|y: u16|
                #[trigger] targets@.contains(y) ==> y == cid || reaches(
                    ents,
                    g,
                    same,
                    cid,
                    y,
                ),
            forall|x: u16, y: u16|
                done.contains(x) && #[trigger] step(ents, g, same, x, y)
                    ==> forwards@.contains(y),
            done.contains(cid) || targets@.contains(cid) || cid == target,
            forall|y: u16|
                #[trigger] forwards@.contains(y) ==> done.contains(y)
                    || targets@.contains(y) || y == target,
            forall|y: u16| #[trigger] forwards@.contains(y) ==> bound.contains(y),
            forall|m: int|
                0 <= m < k && step(ents, g, same, target, #[trigger] list@[m])
                    ==> forwards@.contains(list@[m]),
            forwards@.len() - f1 == targets@.len() - tl1,
            forwards@.len() >= f1,
        decreases list.len() - k,
    {
        let forward = list[k];
        assert(succ(g, target).contains(forward));
        let skip = same_cycle_only && !is_floating_cid(entries, forward);
        if !skip && !contains_u16(forwards, forward) {
            let ghost fw0 = forwards@;
            let ghost tg0 = targets@;
            proof {
                lemma_walk_extend(ents, g, same, cid, target, forward);
                lemma_succ_are_entries(ents, g, target, forward);
                let j = choose|j: int| 0 <= j < ents.len() && #[trigger] ents[j].cid == forward;
                assert(cid_seq(ents)[j] == forward);
                assert(cid_seq(ents).to_set().contains(forward));
            }
            forwards.push(forward);
            targets.push(forward);
            proof {
                assert forall|y: u16| #[trigger] forwards@.contains(y) implies fw0.contains(y) || y == forward by {
                    lemma_push_contains(fw0, forward, y);
                }
                assert forall|y: u16| fw0.contains(y) implies #[trigger] forwards@.contains(y) by {
                    lemma_push_contains(fw0, forward, y);
                }
                assert forall|y: u16| #[trigger] targets@.contains(y) implies tg0.contains(y) || y == forward by {
                    lemma_push_contains(tg0, forward, y);
                }
                assert forall|y: u16| tg0.contains(y) implies #[trigger] targets@.contains(y) by {
                    lemma_push_contains(tg0, forward, y);
                }
                assert(targets@.contains(forward)) by {
                    lemma_push_contains(tg0, forward, forward);
                }
                assert(forwards@.contains(forward)) by {
                    lemma_push_contains(fw0, forward, forward);
                }
                if include_self {
                    assert(forwards@[0] == fw0[0]);
                }
            }
        }
        k += 1;
    }
}

impl Scheduler {
    /// The processes reached from `cid` along the forward graph, found by a
    /// depth-first search; with `include_self`, `cid` comes first. With
    /// `same_cycle_only`, the search does not enter processes that are
    /// started by the cycle.
    pub fn find_forward(
        cid: u16,
        include_self: bool,
        entries: &Vec<ProcessEntry>,
        forward_dependencies: &Vec<(u16, Vec<u16>)>,
        same_cycle_only: bool,
    ) -> (forwards: Vec<u16>)
        requires
            forward_wf(entries@, forward_dependencies@),
            distinct_cids(entries@),
        ensures
            is_forward_closure(
                entries@,
                forward_dependencies@,
                same_cycle_only,
                cid,
                include_self,
                forwards@,
            ),
    {
        let ghost ents = entries@;
        let ghost g = forward_dependencies@;
        let ghost same = same_cycle_only;
        let ghost bound = cid_seq(ents).to_set().insert(cid);
        broadcast use vstd::seq_lib::seq_to_set_is_finite;

        let mut targets: Vec<u16> = Vec::new();
        let mut forwards: Vec<u16> = Vec::new();
        targets.push(cid);
        if include_self {
            forwards.push(cid);
        }
        let ghost mut done: Set<u16> = Set::empty();
        assert(bound.contains(cid));
        assert(targets@.contains(cid)) by {
            assert(targets@[0] == cid);
        }
        if include_self {
            assert(forwards@[0] == cid);
        }
        proof {
            lemma_no_dup_len_bound(forwards@, bound);
        }
        while targets.len() > 0
            invariant
                ents == entries@,
                g == forward_dependencies@,
                same == same_cycle_only,
                forward_wf(ents, g),
                distinct_cids(ents),
                bound == cid_seq(ents).to_set().insert(cid),
                bound.finite(),
                forwards@.no_duplicates(),
                include_self ==> forwards@.len() > 0 && forwards@[0] == cid,
                forall|y: u16|
                    #[trigger] forwards@.contains(y) ==> (include_self && y == cid) || reaches(
                        ents,
                        g,
                        same,
                        cid,
                        y,
                    ),
                forall|y: u16| #[trigger] targets@.contains(y) ==> y == cid || reaches(ents, g, same, cid, y),
                forall|x: u16, y: u16|
                    done.contains(x) && #[trigger] step(ents, g, same, x, y) ==> forwards@.contains(y),
                done.contains(cid) || targets@.contains(cid),
                forall|y: u16| #[trigger] forwards@.contains(y) ==> done.contains(y) || targets@.contains(y),
                forall|y: u16| #[trigger] forwards@.contains(y) ==> bound.contains(y),
                forwards@.len() <= bound.len(),
            decreases 2 * (bound.len() - forwards@.len()) + targets@.len(),
        {
            let ghost t0 = targets@;
            let target = targets.pop().unwrap();
            assert(targets@ =~= t0.drop_last());
            assert(t0.contains(target)) by {
                assert(t0[t0.len() - 1] == target);
            }
            assert forall|y: u16| #[trigger] targets@.contains(y) implies t0.contains(y) by {
                let k = choose|k: int| 0 <= k < targets@.len() && targets@[k] == y;
                assert(t0[k] == y);
            }
            assert forall|y: u16| #[trigger] t0.contains(y) implies targets@.contains(y) || y == target by {
                if y != target {
                    let k = choose|k: int| 0 <= k < t0.len() && t0[k] == y;
                    assert(targets@[k] == y);
                }
            }
            let ghost f1 = forwards@.len();
            let ghost tl1 = targets@.len();
            match key_index(forward_dependencies, target) {
                Some(p) => {
                    proof {
                        lemma_forward_keys(ents, g);
                        lemma_succ_at(g, p as int);
                    }
                    let list = &forward_dependencies[p].1;
                    add_successors(
                        list,
                        target,
                        cid,
                        include_self,
                        entries,
                        forward_dependencies,
                        same_cycle_only,
                        &mut forwards,
                        &mut targets,
                        Ghost(done),
                        Ghost(bound),
                    );
                },
                None => {
                    proof {
                        lemma_succ_absent(g, target);
                    }
                },
            }
            proof {
                done = done.insert(target);
                lemma_no_dup_len_bound(forwards@, bound);
            }
        }
        proof {
            assert forall|y: u16|
                reaches(ents, g, same, cid, y) implies #[trigger] forwards@.contains(y) by {
                let p = choose|p: Seq<u16>|
                    #![trigger is_walk(ents, g, same, p)]
                    p.len() >= 2 && p[0] == cid && p.last() == y && is_walk(ents, g, same, p);
                lemma_closed_walk(ents, g, same, p, forwards@, done);
            }
        }
        forwards
    }
}


} // verus!
