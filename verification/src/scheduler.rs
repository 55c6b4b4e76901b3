//! Process scheduler: decides, for each cycle trigger, readiness report and
//! completion report, which processes start, skip, overrun or run late.
use vstd::prelude::*;

use crate::entry::{
    ProcessEntry, ProcessState, all_unmet, dep_ids, find_dep, transition_allowed,
};
use crate::start_log::{
    in_state, lemma_not_ready_log, lemma_overrun_log_empty, lemma_overrun_log_push,
    lemma_phase_conditions, lemma_shift_log_empty, lemma_shift_log_push, lemma_shift_log_skips,
    not_ready_log, overrun_log, ready_undisturbed, shift_log,
};
use crate::text::{dec_digits, padded3, zero_pad};

verus! {

/// A state change caused by an event.
#[derive(Debug, Clone, PartialEq, Eq, Structural)]
pub struct ProcessStateChange {
    pub cid: u16,
    pub before: ProcessState,
    pub after: ProcessState,
}

impl ProcessStateChange {
    pub fn new(entry: &ProcessEntry) -> (c: Self)
        ensures
            c.cid == entry.cid,
            c.before == entry.state,
            c.after == entry.state,
    {
        ProcessStateChange { cid: entry.cid, before: entry.state, after: entry.state }
    }
}

/// The process scheduler.
pub struct Scheduler {
    pub entries: Vec<ProcessEntry>,
    pub graph_start: Vec<u16>,
    pub graph_forward: Vec<(u16, Vec<u16>)>,
    pub graph_forward_all: Vec<Vec<u16>>,
    pub graph_forward_same_cycle: Vec<Vec<u16>>,
}

// ---------------------------------------------------------------------------
// Graph model.

/// Some entry has the ID `c`.
pub open spec fn has_cid(entries: Seq<ProcessEntry>, c: u16) -> bool {
    exists|i: int| 0 <= i < entries.len() && #[trigger] entries[i].cid == c
}

/// No two entries share an ID.
pub open spec fn distinct_cids(entries: Seq<ProcessEntry>) -> bool {
    forall|i: int, j: int|
        0 <= i < entries.len() && 0 <= j < entries.len() && i != j ==> #[trigger] entries[i].cid
            != #[trigger] entries[j].cid
}

/// Every process depended on exists.
pub open spec fn deps_exist(entries: Seq<ProcessEntry>) -> bool {
    forall|i: int, k: int|
        0 <= i < entries.len() && 0 <= k < entries[i].deps().len() ==> has_cid(
            entries,
            #[trigger] entries[i].deps()[k],
        )
}

/// The process `c` is an entry that starts when its dependencies complete.
pub open spec fn floating_cid(entries: Seq<ProcessEntry>, c: u16) -> bool {
    exists|i: int| 0 <= i < entries.len() && #[trigger] entries[i].cid == c && entries[i].is_floating
}

/// The IDs of the processes started by the cycle, in entry order.
pub open spec fn start_points(entries: Seq<ProcessEntry>) -> Seq<u16>
    decreases entries.len(),
{
    if entries.len() == 0 {
        Seq::empty()
    } else {
        start_points(entries.drop_last()) + if entries.last().is_floating {
            Seq::empty()
        } else {
            seq![entries.last().cid]
        }
    }
}

/// Keys of an association list are distinct.
pub open spec fn keys_distinct(g: Seq<(u16, Vec<u16>)>) -> bool {
    forall|i: int, j: int|
        0 <= i < g.len() && 0 <= j < g.len() && i != j ==> #[trigger] g[i].0 != #[trigger] g[j].0
}

/// The processes waiting for `k` according to the forward graph `g`.
pub open spec fn succ(g: Seq<(u16, Vec<u16>)>, k: u16) -> Seq<u16> {
    if exists|i: int| 0 <= i < g.len() && #[trigger] g[i].0 == k {
        g[choose|i: int| 0 <= i < g.len() && #[trigger] g[i].0 == k].1@
    } else {
        Seq::empty()
    }
}

/// `g` lists, for every process that others depend on, exactly the
/// processes that depend on it, each once.
#[verifier::opaque]
pub open spec fn forward_wf(entries: Seq<ProcessEntry>, g: Seq<(u16, Vec<u16>)>) -> bool {
    &&& keys_distinct(g)
    &&& forall|i: int| 0 <= i < g.len() ==> (#[trigger] g[i]).1@.no_duplicates()
    &&& forall|i: int, c: u16|
        0 <= i < g.len() ==> (#[trigger] g[i].1@.contains(c) <==> exists|j: int|
            0 <= j < entries.len() && entries[j].cid == c && #[trigger] entries[j].deps().contains(
                g[i].0,
            ))
    &&& forall|j: int, k: u16|
        0 <= j < entries.len() && #[trigger] entries[j].deps().contains(k) ==> exists|i: int|
            0 <= i < g.len() && #[trigger] g[i].0 == k
    &&& forall|i: int| 0 <= i < g.len() ==> (#[trigger] g[i]).1@.len() > 0
}

/// One step along the forward graph; in a same-cycle search only floating
/// processes are entered.
pub open spec fn step(
    entries: Seq<ProcessEntry>,
    g: Seq<(u16, Vec<u16>)>,
    same_cycle: bool,
    x: u16,
    y: u16,
) -> bool {
    succ(g, x).contains(y) && (!same_cycle || floating_cid(entries, y))
}

/// `p` follows the forward graph.
pub open spec fn is_walk(
    entries: Seq<ProcessEntry>,
    g: Seq<(u16, Vec<u16>)>,
    same_cycle: bool,
    p: Seq<u16>,
) -> bool {
    forall|j: int| 0 <= j < p.len() - 1 ==> step(entries, g, same_cycle, #[trigger] p[j], p[j + 1])
}

/// `y` is reached from `x` by one or more steps.
pub open spec fn reaches(
    entries: Seq<ProcessEntry>,
    g: Seq<(u16, Vec<u16>)>,
    same_cycle: bool,
    x: u16,
    y: u16,
) -> bool {
    exists|p: Seq<u16>|
        #![trigger is_walk(entries, g, same_cycle, p)]
        p.len() >= 2 && p[0] == x && p.last() == y && is_walk(entries, g, same_cycle, p)
}

/// `f` is the forward closure of `cid`: no duplicates, holds exactly `cid`
/// (when `include_self`) and what `cid` reaches, with `cid` first when
/// included.
pub open spec fn is_forward_closure(
    entries: Seq<ProcessEntry>,
    g: Seq<(u16, Vec<u16>)>,
    same_cycle: bool,
    cid: u16,
    include_self: bool,
    f: Seq<u16>,
) -> bool {
    &&& f.no_duplicates()
    &&& forall|y: u16|
        f.contains(y) <==> ((include_self && y == cid) || reaches(entries, g, same_cycle, cid, y))
    &&& include_self ==> f.len() > 0 && f[0] == cid
}

pub(crate) proof fn lemma_succ_at(g: Seq<(u16, Vec<u16>)>, i: int)
    requires
        keys_distinct(g),
        0 <= i < g.len(),
    ensures
        succ(g, g[i].0) == g[i].1@,
{
    let k = g[i].0;
    assert(exists|j: int| 0 <= j < g.len() && #[trigger] g[j].0 == k);
    let j = choose|j: int| 0 <= j < g.len() && #[trigger] g[j].0 == k;
    assert(j == i);
}

pub(crate) proof fn lemma_succ_absent(g: Seq<(u16, Vec<u16>)>, k: u16)
    requires
        forall|i: int| 0 <= i < g.len() ==> g[i].0 != k,
    ensures
        succ(g, k) == Seq::<u16>::empty(),
{
}

/// A well-formed forward graph lists each key once.
pub(crate) proof fn lemma_forward_keys(entries: Seq<ProcessEntry>, g: Seq<(u16, Vec<u16>)>)
    requires
        forward_wf(entries, g),
    ensures
        keys_distinct(g),
{
    reveal(forward_wf);
}

/// The successors of a process are entries.
pub(crate) proof fn lemma_succ_are_entries(entries: Seq<ProcessEntry>, g: Seq<(u16, Vec<u16>)>, k: u16, y: u16)
    requires
        forward_wf(entries, g),
        succ(g, k).contains(y),
    ensures
        has_cid(entries, y),
{
    reveal(forward_wf);
    if exists|i: int| 0 <= i < g.len() && #[trigger] g[i].0 == k {
        let i = choose|i: int| 0 <= i < g.len() && #[trigger] g[i].0 == k;
        assert(g[i].1@.contains(y));
        let j = choose|j: int|
            0 <= j < entries.len() && entries[j].cid == y && #[trigger] entries[j].deps().contains(
                g[i].0,
            );
        assert(entries[j].cid == y);
    }
}

pub(crate) proof fn lemma_walk_extend(
    entries: Seq<ProcessEntry>,
    g: Seq<(u16, Vec<u16>)>,
    same_cycle: bool,
    cid: u16,
    t: u16,
    y: u16,
)
    requires
        t == cid || reaches(entries, g, same_cycle, cid, t),
        step(entries, g, same_cycle, t, y),
    ensures
        reaches(entries, g, same_cycle, cid, y),
{
    if reaches(entries, g, same_cycle, cid, t) {
        let p = choose|p: Seq<u16>|
            #![trigger is_walk(entries, g, same_cycle, p)]
            p.len() >= 2 && p[0] == cid && p.last() == t && is_walk(entries, g, same_cycle, p);
        let q = p.push(y);
        assert forall|j: int| 0 <= j < q.len() - 1 implies step(
            entries,
            g,
            same_cycle,
            #[trigger] q[j],
            q[j + 1],
        ) by {
            if j < p.len() - 1 {
                assert(q[j] == p[j] && q[j + 1] == p[j + 1]);
            } else {
                assert(q[j] == t);
            }
        }
        assert(is_walk(entries, g, same_cycle, q));
    } else {
        let q = seq![cid, y];
        assert forall|j: int| 0 <= j < q.len() - 1 implies step(
            entries,
            g,
            same_cycle,
            #[trigger] q[j],
            q[j + 1],
        ) by {}
        assert(is_walk(entries, g, same_cycle, q));
    }
}

pub(crate) proof fn lemma_closed_walk(
    entries: Seq<ProcessEntry>,
    g: Seq<(u16, Vec<u16>)>,
    same_cycle: bool,
    p: Seq<u16>,
    f: Seq<u16>,
    done: Set<u16>,
)
    requires
        p.len() >= 2,
        is_walk(entries, g, same_cycle, p),
        done.contains(p[0]),
        forall|x: u16, y: u16|
            done.contains(x) && #[trigger] step(entries, g, same_cycle, x, y) ==> f.contains(y),
        forall|y: u16| f.contains(y) ==> done.contains(y),
    ensures
        f.contains(p.last()),
    decreases p.len(),
{
    if p.len() == 2 {
        assert(step(entries, g, same_cycle, p[0], p[1]));
    } else {
        let q = p.drop_last();
        assert forall|j: int| 0 <= j < q.len() - 1 implies step(
            entries,
            g,
            same_cycle,
            #[trigger] q[j],
            q[j + 1],
        ) by {
            assert(q[j] == p[j] && q[j + 1] == p[j + 1]);
        }
        lemma_closed_walk(entries, g, same_cycle, q, f, done);
        assert(q.last() == p[p.len() - 2]);
        assert(step(entries, g, same_cycle, p[p.len() - 2], p[p.len() - 1]));
    }
}

/// A duplicate-free sequence drawn from a finite set is no longer than the
/// set.
pub(crate) proof fn lemma_no_dup_len_bound(s: Seq<u16>, t: Set<u16>)
    requires
        s.no_duplicates(),
        t.finite(),
        forall|y: u16| s.contains(y) ==> t.contains(y),
    ensures
        s.len() <= t.len(),
{
    s.unique_seq_to_set();
    assert(s.to_set().subset_of(t));
    vstd::set_lib::lemma_len_subset(s.to_set(), t);
}

pub(crate) proof fn lemma_push_contains(s: Seq<u16>, x: u16, y: u16)
    ensures
        s.push(x).contains(y) == (s.contains(y) || y == x),
{
    if s.push(x).contains(y) && y != x {
        let k = choose|k: int| 0 <= k < s.push(x).len() && s.push(x)[k] == y;
        assert(s[k] == y);
    }
    if s.contains(y) {
        let k = choose|k: int| 0 <= k < s.len() && s[k] == y;
        assert(s.push(x)[k] == y);
    }
    if y == x {
        assert(s.push(x)[s.len() as int] == y);
    }
}

/// Position of `k` among the keys of `g`.
pub(crate) fn key_index(g: &Vec<(u16, Vec<u16>)>, k: u16) -> (r: Option<usize>)
    ensures
        match r {
            Some(i) => i < g.len() && g@[i as int].0 == k,
            None => forall|i: int| 0 <= i < g.len() ==> g@[i].0 != k,
        },
{
    let mut i: usize = 0;
    while i < g.len()
        invariant
            i <= g.len(),
            forall|j: int| 0 <= j < i ==> g@[j].0 != k,
        decreases g.len() - i,
    {
        if g[i].0 == k {
            return Some(i);
        }
        i += 1;
    }
    None
}

/// Whether `v` holds `x`.
pub(crate) fn contains_u16(v: &Vec<u16>, x: u16) -> (r: bool)
    ensures
        r == v@.contains(x),
{
    let mut i: usize = 0;
    while i < v.len()
        invariant
            i <= v.len(),
            forall|j: int| 0 <= j < i ==> v@[j] != x,
        decreases v.len() - i,
    {
        if v[i] == x {
            return true;
        }
        i += 1;
    }
    false
}

fn copy_u16s(v: &Vec<u16>) -> (r: Vec<u16>)
    ensures
        r@ == v@,
{
    let mut r: Vec<u16> = Vec::new();
    let mut i: usize = 0;
    while i < v.len()
        invariant
            i <= v.len(),
            r@ == v@.take(i as int),
        decreases v.len() - i,
    {
        r.push(v[i]);
        i += 1;
        assert(r@ =~= v@.take(i as int));
    }
    assert(v@.take(i as int) =~= v@);
    r
}

/// Position of the entry with ID `cid`.
pub fn entry_index(entries: &Vec<ProcessEntry>, cid: u16) -> (r: Option<usize>)
    ensures
        match r {
            Some(i) => i < entries.len() && entries@[i as int].cid == cid,
            None => !has_cid(entries@, cid),
        },
{
    let mut i: usize = 0;
    while i < entries.len()
        invariant
            i <= entries.len(),
            forall|j: int| 0 <= j < i ==> entries@[j].cid != cid,
        decreases entries.len() - i,
    {
        if entries[i].cid == cid {
            return Some(i);
        }
        i += 1;
    }
    None
}

/// The processes started by the cycle.
fn create_start_points(entries: &Vec<ProcessEntry>) -> (r: Vec<u16>)
    ensures
        r@ == start_points(entries@),
{
    let mut r: Vec<u16> = Vec::new();
    let mut i: usize = 0;
    while i < entries.len()
        invariant
            i <= entries.len(),
            r@ == start_points(entries@.take(i as int)),
        decreases entries.len() - i,
    {
        let ghost before = r@;
        if !entries[i].is_floating {
            r.push(entries[i].cid);
        }
        proof {
            let t = entries@.take(i + 1);
            assert(t.drop_last() =~= entries@.take(i as int));
        }
        i += 1;
    }
    assert(entries@.take(i as int) =~= entries@);
    r
}

/// The forward graph: for each process depended on, those depending on it.
fn create_forward(entries: &Vec<ProcessEntry>) -> (g: Vec<(u16, Vec<u16>)>)
    ensures
        forward_wf(entries@, g@),
{
    proof {
        reveal(forward_wf);
    }
    let mut g: Vec<(u16, Vec<u16>)> = Vec::new();
    let mut i: usize = 0;
    while i < entries.len()
        invariant
            i <= entries.len(),
            keys_distinct(g@),
            forall|m: int| 0 <= m < g.len() ==> (#[trigger] g@[m]).1@.no_duplicates(),
            forall|m: int, c: u16|
                0 <= m < g.len() ==> (#[trigger] g@[m].1@.contains(c) <==> exists|j: int|
                    0 <= j < i && entries@[j].cid == c && #[trigger] entries@[j].deps().contains(
                        g@[m].0,
                    )),
            forall|j: int, k: u16|
                0 <= j < i && #[trigger] entries@[j].deps().contains(k) ==> exists|m: int|
                    0 <= m < g.len() && #[trigger] g@[m].0 == k,
            forall|m: int| 0 <= m < g.len() ==> (#[trigger] g@[m]).1@.len() > 0,
        decreases entries.len() - i,
    {
        let cid = entries[i].cid;
        let n_deps = entries[i].dependency_statuses.len();
        let mut d: usize = 0;
        while d < n_deps
            invariant
                i < entries.len(),
                cid == entries@[i as int].cid,
                n_deps == entries@[i as int].deps().len(),
                d <= n_deps,
                keys_distinct(g@),
                forall|m: int| 0 <= m < g.len() ==> (#[trigger] g@[m]).1@.no_duplicates(),
                forall|m: int, c: u16|
                    0 <= m < g.len() ==> (#[trigger] g@[m].1@.contains(c) <==> (exists|j: int|
                        0 <= j < i && entries@[j].cid == c && #[trigger] entries@[j].deps().contains(
                            g@[m].0,
                        )) || (c == cid && entries@[i as int].deps().take(d as int).contains(
                        g@[m].0,
                    ))),
                forall|j: int, k: u16|
                    0 <= j < i && #[trigger] entries@[j].deps().contains(k) ==> exists|m: int|
                        0 <= m < g.len() && #[trigger] g@[m].0 == k,
                forall|k: u16|
                    #[trigger] entries@[i as int].deps().take(d as int).contains(k) ==> exists|m: int|
                        0 <= m < g.len() && #[trigger] g@[m].0 == k,
                forall|m: int| 0 <= m < g.len() ==> (#[trigger] g@[m]).1@.len() > 0,
            decreases n_deps - d,
        {
            let dep = entries[i].dependency_statuses[d].0;
            let ghost ids = entries@[i as int].deps();
            let ghost g0 = g@;
            assert(ids[d as int] == dep);
            assert(ids.take(d + 1) =~= ids.take(d as int).push(dep));
            proof {
                assert forall|k: u16| #[trigger] ids.take(d + 1).contains(k) == (ids.take(
                    d as int,
                ).contains(k) || k == dep) by {
                    lemma_push_contains(ids.take(d as int), dep, k);
                }
            }
            match key_index(&g, dep) {
                Some(p) => {
                    if !contains_u16(&g[p].1, cid) {
                        let mut list = copy_u16s(&g[p].1);
                        list.push(cid);
                        g.set(p, (dep, list));
                        proof {
                            assert forall|c: u16| #[trigger] g@[p as int].1@.contains(c) == (
                            g0[p as int].1@.contains(c) || c == cid) by {
                                lemma_push_contains(g0[p as int].1@, cid, c);
                            }
                        }
                    }
                    assert(g@[p as int].0 == dep);
                    assert forall|m: int, c: u16|
                        0 <= m < g.len() implies (#[trigger] g@[m].1@.contains(c) <==> (exists|
                            j: int,
                        |
                            0 <= j < i && entries@[j].cid == c
                                && #[trigger] entries@[j].deps().contains(g@[m].0)) || (c == cid
                            && ids.take(d + 1).contains(g@[m].0))) by {
                        if m != p as int {
                            assert(g@[m] == g0[m]);
                            assert(g0[m].0 != g0[p as int].0);
                        }
                    }
                },
                None => {
                    let mut list: Vec<u16> = Vec::new();
                    list.push(cid);
                    g.push((dep, list));
                    let last = g.len() - 1;
                    assert(g@[last as int].1@ =~= seq![cid]);
                    assert(g@[last as int].0 == dep);
                    assert forall|m: int, c: u16|
                        0 <= m < g.len() implies (#[trigger] g@[m].1@.contains(c) <==> (exists|
                            j: int,
                        |
                            0 <= j < i && entries@[j].cid == c
                                && #[trigger] entries@[j].deps().contains(g@[m].0)) || (c == cid
                            && ids.take(d + 1).contains(g@[m].0))) by {
                        if m == last as int {
                            if exists|j: int|
                                0 <= j < i && entries@[j].cid == c
                                    && #[trigger] entries@[j].deps().contains(dep) {
                                let j = choose|j: int|
                                    0 <= j < i && entries@[j].cid == c
                                        && #[trigger] entries@[j].deps().contains(dep);
                                let mm = choose|mm: int| 0 <= mm < g0.len() && #[trigger] g0[mm].0 == dep;
                                assert(false);
                            }
                            if ids.take(d as int).contains(dep) {
                                let mm = choose|mm: int| 0 <= mm < g0.len() && #[trigger] g0[mm].0 == dep;
                                assert(false);
                            }
                            if c == cid {
                                assert(g@[m].1@[0] == cid);
                            }
                        } else {
                            assert(g@[m] == g0[m]);
                            assert(g0[m].0 != dep);
                        }
                    }
                },
            }
            assert forall|j: int, k: u16|
                0 <= j < i && #[trigger] entries@[j].deps().contains(k) implies exists|m: int|
                    0 <= m < g.len() && #[trigger] g@[m].0 == k by {
                let m = choose|m: int| 0 <= m < g0.len() && #[trigger] g0[m].0 == k;
                assert(g@[m].0 == k);
            }
            assert forall|k: u16|
                #[trigger] ids.take(d + 1).contains(k) implies exists|m: int|
                    0 <= m < g.len() && #[trigger] g@[m].0 == k by {
                if k == dep {
                } else {
                    assert(ids.take(d as int).contains(k));
                    let m = choose|m: int| 0 <= m < g0.len() && #[trigger] g0[m].0 == k;
                    assert(g@[m].0 == k);
                }
            }
            d += 1;
        }
        assert(entries@[i as int].deps().take(n_deps as int) =~= entries@[i as int].deps());
        i += 1;
    }
    g
}


/// The IDs of all entries.
pub open spec fn cid_seq(entries: Seq<ProcessEntry>) -> Seq<u16> {
    Seq::new(entries.len(), |i: int| entries[i].cid)
}

/// Whether the process `c` starts when its dependencies complete.
pub(crate) fn is_floating_cid(entries: &Vec<ProcessEntry>, c: u16) -> (r: bool)
    requires
        distinct_cids(entries@),
    ensures
        r == floating_cid(entries@, c),
{
    match entry_index(entries, c) {
        Some(i) => entries[i].is_floating,
        None => false,
    }
}

// ---------------------------------------------------------------------------
// Scheduler invariant.

/// Two entry lists that differ at most in states and completion statuses.
pub open spec fn same_shape(a: Seq<ProcessEntry>, b: Seq<ProcessEntry>) -> bool {
    &&& a.len() == b.len()
    &&& forall|i: int|
        0 <= i < a.len() ==> {
            &&& (#[trigger] a[i]).cid == b[i].cid
            &&& a[i].is_floating == b[i].is_floating
            &&& a[i].deps() == b[i].deps()
        }
}

/// The graphs are those derived from `entries`.
pub open spec fn graphs_wf(
    entries: Seq<ProcessEntry>,
    start: Seq<u16>,
    fwd: Seq<(u16, Vec<u16>)>,
    all: Seq<Vec<u16>>,
    same: Seq<Vec<u16>>,
) -> bool {
    &&& entries.len() > 0
    &&& distinct_cids(entries)
    &&& deps_exist(entries)
    &&& start == start_points(entries)
    &&& start.len() > 0
    &&& forward_wf(entries, fwd)
    &&& all.len() == entries.len()
    &&& same.len() == entries.len()
    &&& forall|i: int|
        0 <= i < entries.len() ==> is_forward_closure(
            entries,
            fwd,
            false,
            entries[i].cid,
            true,
            (#[trigger] all[i])@,
        )
    &&& forall|i: int|
        0 <= i < entries.len() ==> is_forward_closure(
            entries,
            fwd,
            true,
            entries[i].cid,
            true,
            (#[trigger] same[i])@,
        )
}

proof fn lemma_shape_step(a: Seq<ProcessEntry>, b: Seq<ProcessEntry>, g: Seq<(u16, Vec<u16>)>, sc: bool)
    requires
        same_shape(a, b),
    ensures
        forall|x: u16, y: u16| #[trigger] step(a, g, sc, x, y) == step(b, g, sc, x, y),
        forall|p: Seq<u16>| #[trigger] is_walk(a, g, sc, p) == is_walk(b, g, sc, p),
        forall|x: u16, y: u16| #[trigger] reaches(a, g, sc, x, y) == reaches(b, g, sc, x, y),
{
    assert forall|c: u16| #[trigger] floating_cid(a, c) == floating_cid(b, c) by {
        if floating_cid(a, c) {
            let i = choose|i: int| 0 <= i < a.len() && #[trigger] a[i].cid == c && a[i].is_floating;
            assert(b[i].cid == c);
        }
        if floating_cid(b, c) {
            let i = choose|i: int| 0 <= i < b.len() && #[trigger] b[i].cid == c && b[i].is_floating;
            assert(a[i].cid == c);
        }
    }
    assert forall|x: u16, y: u16| #[trigger] step(a, g, sc, x, y) == step(b, g, sc, x, y) by {}
    assert forall|p: Seq<u16>| #[trigger] is_walk(a, g, sc, p) == is_walk(b, g, sc, p) by {
        if is_walk(a, g, sc, p) {
            assert forall|j: int| 0 <= j < p.len() - 1 implies step(b, g, sc, #[trigger] p[j], p[j + 1]) by {
                assert(step(a, g, sc, p[j], p[j + 1]));
            }
        }
        if is_walk(b, g, sc, p) {
            assert forall|j: int| 0 <= j < p.len() - 1 implies step(a, g, sc, #[trigger] p[j], p[j + 1]) by {
                assert(step(b, g, sc, p[j], p[j + 1]));
            }
        }
    }
    assert forall|x: u16, y: u16| #[trigger] reaches(a, g, sc, x, y) == reaches(b, g, sc, x, y) by {
        if reaches(a, g, sc, x, y) {
            let p = choose|p: Seq<u16>|
                #![trigger is_walk(a, g, sc, p)]
                p.len() >= 2 && p[0] == x && p.last() == y && is_walk(a, g, sc, p);
            assert(is_walk(b, g, sc, p));
        }
        if reaches(b, g, sc, x, y) {
            let p = choose|p: Seq<u16>|
                #![trigger is_walk(b, g, sc, p)]
                p.len() >= 2 && p[0] == x && p.last() == y && is_walk(b, g, sc, p);
            assert(is_walk(a, g, sc, p));
        }
    }
}

proof fn lemma_shape_start_points(a: Seq<ProcessEntry>, b: Seq<ProcessEntry>)
    requires
        same_shape(a, b),
    ensures
        start_points(a) == start_points(b),
    decreases a.len(),
{
    if a.len() > 0 {
        assert(same_shape(a.drop_last(), b.drop_last())) by {
            assert forall|i: int| 0 <= i < a.drop_last().len() implies {
                &&& (#[trigger] a.drop_last()[i]).cid == b.drop_last()[i].cid
                &&& a.drop_last()[i].is_floating == b.drop_last()[i].is_floating
                &&& a.drop_last()[i].deps() == b.drop_last()[i].deps()
            } by {
                assert(a.drop_last()[i] == a[i]);
                assert(b.drop_last()[i] == b[i]);
            }
        }
        lemma_shape_start_points(a.drop_last(), b.drop_last());
        assert(a.last() == a[a.len() - 1]);
    }
}

/// Changing states and completion statuses keeps the graphs valid.
proof fn lemma_shape_graphs(
    a: Seq<ProcessEntry>,
    b: Seq<ProcessEntry>,
    start: Seq<u16>,
    fwd: Seq<(u16, Vec<u16>)>,
    all: Seq<Vec<u16>>,
    same: Seq<Vec<u16>>,
)
    requires
        same_shape(a, b),
        graphs_wf(a, start, fwd, all, same),
    ensures
        graphs_wf(b, start, fwd, all, same),
{
    lemma_shape_step(a, b, fwd, false);
    lemma_shape_step(a, b, fwd, true);
    lemma_shape_start_points(a, b);
    assert forall|c: u16| #[trigger] has_cid(a, c) == has_cid(b, c) by {
        if has_cid(a, c) {
            let i = choose|i: int| 0 <= i < a.len() && #[trigger] a[i].cid == c;
            assert(b[i].cid == c);
        }
        if has_cid(b, c) {
            let i = choose|i: int| 0 <= i < b.len() && #[trigger] b[i].cid == c;
            assert(a[i].cid == c);
        }
    }
    assert(distinct_cids(b)) by {
        assert forall|i: int, j: int|
            0 <= i < b.len() && 0 <= j < b.len() && i != j implies #[trigger] b[i].cid
                != #[trigger] b[j].cid by {
            assert(a[i].cid != a[j].cid);
        }
    }
    assert(deps_exist(b)) by {
        assert forall|i: int, k: int|
            0 <= i < b.len() && 0 <= k < b[i].deps().len() implies has_cid(
                b,
                #[trigger] b[i].deps()[k],
            ) by {
            assert(b[i].deps() == a[i].deps());
            assert(has_cid(a, a[i].deps()[k]));
        }
    }
    assert(forward_wf(b, fwd)) by {
        reveal(forward_wf);
        assert forall|i: int, c: u16|
            0 <= i < fwd.len() implies (#[trigger] fwd[i].1@.contains(c) <==> exists|j: int|
                0 <= j < b.len() && b[j].cid == c && #[trigger] b[j].deps().contains(fwd[i].0)) by {
            if fwd[i].1@.contains(c) {
                let j = choose|j: int|
                    0 <= j < a.len() && a[j].cid == c && #[trigger] a[j].deps().contains(fwd[i].0);
                assert(b[j].deps() == a[j].deps());
            }
            if exists|j: int|
                0 <= j < b.len() && b[j].cid == c && #[trigger] b[j].deps().contains(fwd[i].0) {
                let j = choose|j: int|
                    0 <= j < b.len() && b[j].cid == c && #[trigger] b[j].deps().contains(fwd[i].0);
                assert(b[j].deps() == a[j].deps());
            }
        }
        assert forall|j: int, k: u16|
            0 <= j < b.len() && #[trigger] b[j].deps().contains(k) implies exists|i: int|
                0 <= i < fwd.len() && #[trigger] fwd[i].0 == k by {
            assert(b[j].deps() == a[j].deps());
            assert(a[j].deps().contains(k));
        }
    }
    assert forall|i: int| 0 <= i < b.len() implies is_forward_closure(
        b,
        fwd,
        false,
        b[i].cid,
        true,
        (#[trigger] all[i])@,
    ) by {
        assert(is_forward_closure(a, fwd, false, a[i].cid, true, all[i]@));
    }
    assert forall|i: int| 0 <= i < b.len() implies is_forward_closure(
        b,
        fwd,
        true,
        b[i].cid,
        true,
        (#[trigger] same[i])@,
    ) by {
        assert(is_forward_closure(a, fwd, true, a[i].cid, true, same[i]@));
    }
}

/// The IDs of the processes in state `Ready`, in entry order.
pub open spec fn ready_cids(entries: Seq<ProcessEntry>) -> Seq<u16>
    decreases entries.len(),
{
    if entries.len() == 0 {
        Seq::empty()
    } else {
        ready_cids(entries.drop_last()) + if entries.last().state == ProcessState::Ready {
            seq![entries.last().cid]
        } else {
            Seq::empty()
        }
    }
}

/// `"process CID:" + cid + tail`, the ID zero padded to three digits.
pub open spec fn process_msg(cid: u16, tail: Seq<char>) -> Seq<char> {
    "process CID:"@ + zero_pad(dec_digits(cid as nat), 3) + tail
}

fn make_process_msg(cid: u16, tail: &str) -> (s: String)
    ensures
        s@ == process_msg(cid, tail@),
{
    let mut s = String::from_str("process CID:");
    let num = padded3(cid as u64);
    s.append(num.as_str());
    s.append(tail);
    s
}

/// Every process whose state differs between `e0` and `e` went through an
/// allowed transition.
pub open spec fn moves_allowed(e0: Seq<ProcessEntry>, e: Seq<ProcessEntry>) -> bool {
    forall|j: int|
        0 <= j < e0.len() && j < e.len() && (#[trigger] e[j]).state != e0[j].state
            ==> transition_allowed(e0[j].state, e[j].state)
}

/// The state a process reaches when it reports `READY`.
pub open spec fn ready_state(st: ProcessState) -> ProcessState {
    match st {
        ProcessState::Idle | ProcessState::Skip | ProcessState::Ready => ProcessState::Ready,
        ProcessState::Late => ProcessState::Idle,
        _ => st,
    }
}

/// The state a process reaches when it reports `DONE`.
pub open spec fn done_state(st: ProcessState) -> ProcessState {
    match st {
        ProcessState::Running => ProcessState::Idle,
        ProcessState::Overrun => ProcessState::Late,
        _ => st,
    }
}

impl Scheduler {
    /// The scheduler invariant: entries are valid, IDs distinct,
    /// dependencies exist, and the graphs are derived from the entries.
    pub open spec fn wf(&self) -> bool {
        &&& forall|i: int| 0 <= i < self.entries@.len() ==> (#[trigger] self.entries@[i]).wf()
        &&& graphs_wf(
            self.entries@,
            self.graph_start@,
            self.graph_forward@,
            self.graph_forward_all@,
            self.graph_forward_same_cycle@,
        )
    }

    /// The graphs did not change.
    pub open spec fn same_graphs(&self, other: &Scheduler) -> bool {
        &&& self.graph_start@ == other.graph_start@
        &&& self.graph_forward@ == other.graph_forward@
        &&& self.graph_forward_all@ == other.graph_forward_all@
        &&& self.graph_forward_same_cycle@ == other.graph_forward_same_cycle@
    }

    pub fn new(entries: Vec<ProcessEntry>) -> (s: Self)
        requires
            entries@.len() > 0,
            distinct_cids(entries@),
            deps_exist(entries@),
            start_points(entries@).len() > 0,
            forall|i: int| 0 <= i < entries@.len() ==> (#[trigger] entries@[i]).wf(),
        ensures
            s.wf(),
            s.entries@ == entries@,
    {
        let graph_start = create_start_points(&entries);
        let graph_forward = create_forward(&entries);
        let mut graph_forward_all: Vec<Vec<u16>> = Vec::new();
        let mut graph_forward_same_cycle: Vec<Vec<u16>> = Vec::new();
        let mut i: usize = 0;
        while i < entries.len()
            invariant
                i <= entries.len(),
                forward_wf(entries@, graph_forward@),
                distinct_cids(entries@),
                graph_forward_all@.len() == i,
                graph_forward_same_cycle@.len() == i,
                forall|k: int|
                    0 <= k < i ==> is_forward_closure(
                        entries@,
                        graph_forward@,
                        false,
                        entries@[k].cid,
                        true,
                        (#[trigger] graph_forward_all@[k])@,
                    ),
                forall|k: int|
                    0 <= k < i ==> is_forward_closure(
                        entries@,
                        graph_forward@,
                        true,
                        entries@[k].cid,
                        true,
                        (#[trigger] graph_forward_same_cycle@[k])@,
                    ),
            decreases entries.len() - i,
        {
            let cid = entries[i].cid;
            let all = Scheduler::find_forward_all(cid, true, &entries, &graph_forward);
            let same = Scheduler::find_forward_same_cycle(cid, true, &entries, &graph_forward);
            graph_forward_all.push(all);
            graph_forward_same_cycle.push(same);
            i += 1;
        }
        Scheduler { entries, graph_start, graph_forward, graph_forward_all, graph_forward_same_cycle }
    }

    pub fn find_forward_all(
        cid: u16,
        include_self: bool,
        entries: &Vec<ProcessEntry>,
        forward_dependencies: &Vec<(u16, Vec<u16>)>,
    ) -> (r: Vec<u16>)
        requires
            forward_wf(entries@, forward_dependencies@),
            distinct_cids(entries@),
        ensures
            is_forward_closure(entries@, forward_dependencies@, false, cid, include_self, r@),
    {
        Scheduler::find_forward(cid, include_self, entries, forward_dependencies, false)
    }

    pub fn find_forward_same_cycle(
        cid: u16,
        include_self: bool,
        entries: &Vec<ProcessEntry>,
        forward_dependencies: &Vec<(u16, Vec<u16>)>,
    ) -> (r: Vec<u16>)
        requires
            forward_wf(entries@, forward_dependencies@),
            distinct_cids(entries@),
        ensures
            is_forward_closure(entries@, forward_dependencies@, true, cid, include_self, r@),
    {
        Scheduler::find_forward(cid, include_self, entries, forward_dependencies, true)
    }

    pub fn get_ready_processes(&self) -> (r: Vec<u16>)
        ensures
            r@ == ready_cids(self.entries@),
    {
        let mut r: Vec<u16> = Vec::new();
        let mut i: usize = 0;
        while i < self.entries.len()
            invariant
                i <= self.entries.len(),
                r@ == ready_cids(self.entries@.take(i as int)),
            decreases self.entries.len() - i,
        {
            if self.entries[i].state == ProcessState::Ready {
                r.push(self.entries[i].cid);
            }
            proof {
                let t = self.entries@.take(i + 1);
                assert(t.drop_last() =~= self.entries@.take(i as int));
            }
            i += 1;
        }
        assert(self.entries@.take(i as int) =~= self.entries@);
        r
    }

    /// All processes go back to `Idle` with no dependency completed.
    pub fn reset_state(&mut self)
        requires
            old(self).wf(),
        ensures
            reset_rel(*old(self), *final(self)),
    {
        let ghost e0 = self.entries@;
        let mut i: usize = 0;
        while i < self.entries.len()
            invariant
                i <= self.entries.len(),
                self.entries@.len() == e0.len(),
                forall|k: int| 0 <= k < e0.len() ==> (#[trigger] self.entries@[k]).wf(),
                forall|k: int|
                    0 <= k < e0.len() ==> {
                        &&& (#[trigger] self.entries@[k]).cid == e0[k].cid
                        &&& self.entries@[k].is_floating == e0[k].is_floating
                        &&& self.entries@[k].deps() == e0[k].deps()
                    },
                forall|k: int|
                    0 <= k < i ==> (#[trigger] self.entries@[k]).state == ProcessState::Idle
                        && self.entries@[k].dependency_statuses@ == all_unmet(e0[k].deps()),
                forall|k: int| i <= k < e0.len() ==> #[trigger] self.entries@[k] == e0[k],
                self.graph_start@ == old(self).graph_start@,
                self.graph_forward@ == old(self).graph_forward@,
                self.graph_forward_all@ == old(self).graph_forward_all@,
                self.graph_forward_same_cycle@ == old(self).graph_forward_same_cycle@,
            decreases e0.len() - i,
        {
            self.entries[i].reset();
            assert(self.entries@[i as int].deps() =~= e0[i as int].deps());
            i += 1;
        }
        proof {
            lemma_shape_graphs(
                e0,
                self.entries@,
                self.graph_start@,
                self.graph_forward@,
                self.graph_forward_all@,
                self.graph_forward_same_cycle@,
            );
        }
    }

    /// A process reports `READY`: `Idle` and `Skip` become `Ready`, `Late`
    /// becomes `Idle`, `Ready` and `Running` stay (a retransmission);
    /// `Overrun` cannot be ready.
    pub fn on_ready(&mut self, cid: u16) -> (r: Result<Vec<ProcessStateChange>, String>)
        requires
            old(self).wf(),
        ensures
            ready_rel(*old(self), *final(self), cid, r),

    {
        let idx = match entry_index(&self.entries, cid) {
            Some(i) => i,
            None => {
                return Err(make_process_msg(cid, " does not exist"));
            },
        };
        let ghost e0 = self.entries@;
        let mut changes: Vec<ProcessStateChange> = Vec::new();
        let mut change = ProcessStateChange::new(&self.entries[idx]);
        match self.entries[idx].state {
            ProcessState::Idle | ProcessState::Skip => {
                self.entries[idx].set_state(ProcessState::Ready);
                change.after = ProcessState::Ready;
                changes.push(change);
            },
            ProcessState::Ready => {
                // A retransmission keeps Ready.
                self.entries[idx].set_state(ProcessState::Ready);
                change.after = ProcessState::Ready;
                changes.push(change);
            },
            ProcessState::Running => {
                // A retransmission keeps Running.
                change.after = ProcessState::Running;
                changes.push(change);
            },
            ProcessState::Overrun => {
                // Cannot become Ready directly.
            },
            ProcessState::Late => {
                self.entries[idx].set_state(ProcessState::Idle);
                change.after = ProcessState::Idle;
                changes.push(change);
            },
        }
        proof {
            assert forall|j: int| 0 <= j < e0.len() && j != idx implies #[trigger] self.entries@[j]
                == e0[j] by {}
            assert(self.entries@[idx as int].deps() =~= e0[idx as int].deps());
            assert forall|j: int| 0 <= j < e0.len() && #[trigger] e0[j].cid == cid implies j
                == idx by {}
            lemma_shape_graphs(
                e0,
                self.entries@,
                self.graph_start@,
                self.graph_forward@,
                self.graph_forward_all@,
                self.graph_forward_same_cycle@,
            );
        }
        if changes.len() > 0 {
            assert(changes@ =~= seq![
                ProcessStateChange {
                    cid: cid,
                    before: e0[idx as int].state,
                    after: ready_state(e0[idx as int].state),
                },
            ]);
            Ok(changes)
        } else {
            Err(make_process_msg(cid, " cannot be ready"))
        }
    }
}

/// `s` with the first dependency on `cid` marked complete.
pub open spec fn mark_dep(s: Seq<(u16, bool)>, cid: u16) -> Seq<(u16, bool)> {
    match find_dep(s, cid) {
        Some(i) => if s[i].1 {
            s
        } else {
            s.update(i, (cid, true))
        },
        None => s,
    }
}

/// Every dependency completed.
pub open spec fn all_done(s: Seq<(u16, bool)>) -> bool {
    forall|k: int| 0 <= k < s.len() ==> (#[trigger] s[k]).1
}

/// The completion statuses of `e` after `cid` reports `DONE`, when the
/// processes waiting for `cid` are `afters`.
pub open spec fn deps_after_done(e: ProcessEntry, cid: u16, afters: Seq<u16>) -> Seq<(u16, bool)> {
    if afters.contains(e.cid) {
        mark_dep(e.dependency_statuses@, cid)
    } else {
        e.dependency_statuses@
    }
}

/// `e` starts when `cid` completes: it waits for `cid`, has every
/// dependency completed, is floating and is `Ready`.
pub open spec fn starts_on_done(e: ProcessEntry, cid: u16, afters: Seq<u16>) -> bool {
    &&& e.cid != cid
    &&& afters.contains(e.cid)
    &&& all_done(deps_after_done(e, cid, afters))
    &&& e.is_floating
    &&& e.state == ProcessState::Ready
}

/// The entry with ID `c`.
pub open spec fn entry_of(entries: Seq<ProcessEntry>, c: u16) -> ProcessEntry {
    entries[choose|i: int| 0 <= i < entries.len() && #[trigger] entries[i].cid == c]
}

/// The starts caused by `cid` completing, in the order of `list`.
pub open spec fn started_changes(
    entries: Seq<ProcessEntry>,
    cid: u16,
    afters: Seq<u16>,
    list: Seq<u16>,
) -> Seq<ProcessStateChange>
    decreases list.len(),
{
    if list.len() == 0 {
        Seq::empty()
    } else {
        started_changes(entries, cid, afters, list.drop_last()) + if has_cid(entries, list.last())
            && starts_on_done(entry_of(entries, list.last()), cid, afters) {
            seq![
                ProcessStateChange {
                    cid: list.last(),
                    before: ProcessState::Ready,
                    after: ProcessState::Running,
                },
            ]
        } else {
            Seq::empty()
        }
    }
}

pub(crate) proof fn lemma_entry_of(entries: Seq<ProcessEntry>, j: int)
    requires
        distinct_cids(entries),
        0 <= j < entries.len(),
    ensures
        entry_of(entries, entries[j].cid) == entries[j],
{
    let c = entries[j].cid;
    assert(exists|i: int| 0 <= i < entries.len() && #[trigger] entries[i].cid == c);
    let i = choose|i: int| 0 <= i < entries.len() && #[trigger] entries[i].cid == c;
    assert(i == j);
}

impl Scheduler {
    /// A process reports `DONE`: `Running` becomes `Idle` and then every
    /// floating, `Ready` process waiting for it whose dependencies have all
    /// completed starts; `Overrun` becomes `Late`; `Idle` and `Late` stay
    /// (a retransmission); `Ready` and `Skip` cannot be done.
    pub fn on_done(&mut self, cid: u16) -> (r: Result<Vec<ProcessStateChange>, String>)
        requires
            old(self).wf(),
        ensures
            done_rel(*old(self), *final(self), cid, r),

    {
        proof {
            reveal(forward_wf);
        }
        let idx = match entry_index(&self.entries, cid) {
            Some(i) => i,
            None => {
                return Err(make_process_msg(cid, " does not exist"));
            },
        };
        let ghost e0 = self.entries@;
        let ghost st = e0[idx as int].state;
        let ghost afters = if st == ProcessState::Running {
            succ(self.graph_forward@, cid)
        } else {
            Seq::empty()
        };
        proof {
            assert forall|j: int| 0 <= j < e0.len() && #[trigger] e0[j].cid == cid implies j
                == idx by {}
        }
        let mut changes: Vec<ProcessStateChange> = Vec::new();
        let mut skipped = false;
        let mut change = ProcessStateChange::new(&self.entries[idx]);
        match self.entries[idx].state {
            ProcessState::Idle => {
                // A retransmission keeps Idle.
                change.after = ProcessState::Idle;
                changes.push(change);
                skipped = true;
            },
            ProcessState::Running => {
                self.entries[idx].set_state(ProcessState::Idle);
                change.after = ProcessState::Idle;
                changes.push(change);
            },
            ProcessState::Overrun => {
                self.entries[idx].set_state(ProcessState::Late);
                change.after = ProcessState::Late;
                changes.push(change);
                skipped = true;
            },
            ProcessState::Late => {
                // A retransmission keeps Late.
                change.after = ProcessState::Late;
                changes.push(change);
                skipped = true;
            },
            ProcessState::Ready | ProcessState::Skip => {},
        }
        let ghost e1 = self.entries@;
        assert(e1[idx as int].deps() =~= e0[idx as int].deps());
        assert(forall|j: int| 0 <= j < e0.len() && j != idx ==> #[trigger] e1[j] == e0[j]);
        if !skipped && changes.len() > 0 {
            match key_index(&self.graph_forward, cid) {
                Some(p) => {
                    proof {
                        lemma_succ_at(self.graph_forward@, p as int);
                    }
                    let list = &self.graph_forward[p].1;
                    assert(list@ == afters);
                    let mut k: usize = 0;
                    while k < list.len()
                        invariant
                            list@ == afters,
                            k <= list.len(),
                            self.entries@.len() == e0.len(),
                            e1.len() == e0.len(),
                            idx < e0.len(),
                            e0[idx as int].cid == cid,
                            self.graph_start@ == old(self).graph_start@,
                            self.graph_forward@ == old(self).graph_forward@,
                            self.graph_forward_all@ == old(self).graph_forward_all@,
                            self.graph_forward_same_cycle@ == old(self).graph_forward_same_cycle@,
                            distinct_cids(e0),
                            forall|j: int| 0 <= j < e0.len() ==> (#[trigger] self.entries@[j]).wf(),
                            forall|j: int|
                                0 <= j < e0.len() ==> {
                                    &&& (#[trigger] self.entries@[j]).cid == e0[j].cid
                                    &&& self.entries@[j].is_floating == e0[j].is_floating
                                    &&& self.entries@[j].deps() == e0[j].deps()
                                    &&& self.entries@[j].state == e1[j].state
                                    &&& self.entries@[j].dependency_statuses@ == if list@.take(
                                        k as int,
                                    ).contains(e0[j].cid) {
                                        mark_dep(e0[j].dependency_statuses@, cid)
                                    } else {
                                        e0[j].dependency_statuses@
                                    }
                                },
                        decreases list.len() - k,
                    {
                        let a = list[k];
                        let ghost before = self.entries@;
                        proof {
                            assert forall|c: u16| #[trigger] list@.take(k + 1).contains(c) == (
                            list@.take(k as int).contains(c) || c == a) by {
                                assert(list@.take(k + 1) =~= list@.take(k as int).push(a));
                                lemma_push_contains(list@.take(k as int), a, c);
                            }
                        }
                        match entry_index(&self.entries, a) {
                            Some(j) => {
                                proof {
                                    crate::entry::lemma_find_dep(before[j as int].dependency_statuses@, cid);
                                    if list@.take(k as int).contains(a) {
                                        crate::entry::lemma_find_dep(
                                            e0[j as int].dependency_statuses@,
                                            cid,
                                        );
                                    }
                                }
                                let _ = self.entries[j].mark_dependency_complete(cid);
                                proof {
                                    let s0 = e0[j as int].dependency_statuses@;
                                    crate::entry::lemma_find_dep(s0, cid);
                                    if let Some(q) = find_dep(s0, cid) {
                                        if !s0[q].1 {
                                            let s1 = s0.update(q, (cid, true));
                                            crate::entry::lemma_find_dep(s1, cid);
                                            assert(find_dep(s1, cid) == Some(q)) by {
                                                match find_dep(s1, cid) {
                                                    Some(q2) => {
                                                        if q2 < q {
                                                            assert(s1[q2] == s0[q2]);
                                                        }
                                                        if q < q2 {
                                                            assert(s1[q].0 == cid);
                                                        }
                                                    },
                                                    None => {
                                                        assert(s1[q].0 == cid);
                                                    },
                                                }
                                            }
                                            assert(s1.update(q, (cid, true)) =~= s1);
                                        }
                                    }
                                    assert forall|m: int| 0 <= m < e0.len() && m != j implies #[trigger] self.entries@[m] == before[m] by {}
                                }
                            },
                            None => {
                                proof {
                                    assert forall|m: int| 0 <= m < e0.len() implies e0[m].cid != a by {
                                        if e0[m].cid == a {
                                            assert(before[m].cid == a);
                                        }
                                    }
                                }
                            },
                        }
                        k += 1;
                    }
                    assert(list@.take(list.len() as int) =~= list@);
                    let ghost e2 = self.entries@;
                    let mut k: usize = 0;
                    while k < list.len()
                        invariant
                            list@ == afters,
                            afters.no_duplicates(),
                            k <= list.len(),
                            self.entries@.len() == e0.len(),
                            e1.len() == e0.len(),
                            e2.len() == e0.len(),
                            idx < e0.len(),
                            e0[idx as int].cid == cid,
                            forall|j: int| 0 <= j < e0.len() && j != idx ==> #[trigger] e1[j].state == e0[j].state,
                            self.graph_start@ == old(self).graph_start@,
                            self.graph_forward@ == old(self).graph_forward@,
                            self.graph_forward_all@ == old(self).graph_forward_all@,
                            self.graph_forward_same_cycle@ == old(self).graph_forward_same_cycle@,
                            distinct_cids(e0),
                            e1[idx as int].state == ProcessState::Idle,
                            forall|j: int| 0 <= j < e0.len() ==> (#[trigger] self.entries@[j]).wf(),
                            forall|j: int|
                                0 <= j < e0.len() ==> {
                                    &&& (#[trigger] self.entries@[j]).cid == e0[j].cid
                                    &&& self.entries@[j].is_floating == e0[j].is_floating
                                    &&& self.entries@[j].deps() == e0[j].deps()
                                    &&& if list@.take(k as int).contains(e0[j].cid)
                                        && starts_on_done(e0[j], cid, afters) {
                                        &&& self.entries@[j].state == ProcessState::Running
                                        &&& self.entries@[j].dependency_statuses@ == all_unmet(
                                            e0[j].deps(),
                                        )
                                    } else {
                                        &&& self.entries@[j].state == e2[j].state
                                        &&& self.entries@[j].dependency_statuses@
                                            == e2[j].dependency_statuses@
                                    }
                                },
                            forall|j: int|
                                0 <= j < e0.len() ==> {
                                    &&& (#[trigger] e2[j]).state == e1[j].state
                                    &&& e2[j].dependency_statuses@ == deps_after_done(
                                        e0[j],
                                        cid,
                                        afters,
                                    )
                                },
                            changes@ == seq![
                                ProcessStateChange {
                                    cid: cid,
                                    before: st,
                                    after: done_state(st),
                                },
                            ] + started_changes(e0, cid, afters, afters.take(k as int)),
                        decreases list.len() - k,
                    {
                        let a = list[k];
                        let ghost before = self.entries@;
                        let ghost ch0 = changes@;
                        proof {
                            assert forall|c: u16| #[trigger] list@.take(k + 1).contains(c) == (
                            list@.take(k as int).contains(c) || c == a) by {
                                assert(list@.take(k + 1) =~= list@.take(k as int).push(a));
                                lemma_push_contains(list@.take(k as int), a, c);
                            }
                            assert(!list@.take(k as int).contains(a)) by {
                                if list@.take(k as int).contains(a) {
                                    let q = choose|q: int| 0 <= q < k && list@.take(k as int)[q] == a;
                                    assert(list@[q] == list@[k as int]);
                                }
                            }
                            assert(afters.take(k + 1).drop_last() =~= afters.take(k as int));
                            assert(afters.take(k + 1).last() == a);
                        }
                        match entry_index(&self.entries, a) {
                            Some(j) => {
                                proof {
                                    lemma_entry_of(e0, j as int);
                                    assert(has_cid(e0, a));
                                    crate::entry::lemma_count_unmet_zero(before[j as int].dependency_statuses@);
                                    assert(before[j as int].state == e2[j as int].state);
                                    assert(before[j as int].dependency_statuses@ == e2[j as int].dependency_statuses@);
                                    assert forall|m: int| 0 <= m < e0.len() && m != j implies #[trigger] e0[m].cid != a by {}
                                    assert(afters.contains(a)) by {
                                        assert(afters[k as int] == a);
                                    }
                                    assert(before[j as int].deps_met() == all_done(deps_after_done(e0[j as int], cid, afters)));
                                }
                                if !self.entries[j].is_dependency_met() {
                                    // Waits for the other processes it depends on.
                                } else {
                                    if !self.entries[j].is_floating {
                                        // Waits for its own cycle.
                                    } else {
                                        let mut ch = ProcessStateChange::new(&self.entries[j]);
                                        if self.entries[j].set_state(ProcessState::Running) {
                                            self.entries[j].reset_dependency_statuses();
                                            ch.after = ProcessState::Running;
                                            changes.push(ch);
                                        }
                                    }
                                }
                                proof {
                                    assert forall|m: int| 0 <= m < e0.len() && m != j implies #[trigger] self.entries@[m] == before[m] by {}
                                    if j == idx {
                                        assert(!starts_on_done(e0[j as int], cid, afters));
                                    } else {
                                        assert(e2[j as int].state == e0[j as int].state);
                                    }
                                    if starts_on_done(e0[j as int], cid, afters) {
                                        assert(changes@ == ch0.push(ProcessStateChange {
                                            cid: a,
                                            before: ProcessState::Ready,
                                            after: ProcessState::Running,
                                        }));
                                    } else {
                                        assert(changes@ == ch0);
                                    }
                                    assert(self.entries@[j as int].deps() =~= e0[j as int].deps());
                                }
                            },
                            None => {
                                proof {
                                    assert(!has_cid(e0, a)) by {
                                        if has_cid(e0, a) {
                                            let m = choose|m: int| 0 <= m < e0.len() && #[trigger] e0[m].cid == a;
                                            assert(before[m].cid == a);
                                        }
                                    }
                                }
                            },
                        }
                        assert(changes@ =~= seq![
                            ProcessStateChange {
                                cid: cid,
                                before: st,
                                after: done_state(st),
                            },
                        ] + started_changes(e0, cid, afters, afters.take(k + 1)));
                        k += 1;
                    }
                    assert(afters.take(list.len() as int) =~= afters);
                },
                None => {
                    proof {
                        lemma_succ_absent(self.graph_forward@, cid);
                    }
                },
            }
        }
        proof {
            lemma_shape_graphs(
                e0,
                self.entries@,
                self.graph_start@,
                self.graph_forward@,
                self.graph_forward_all@,
                self.graph_forward_same_cycle@,
            );
        }
        if changes.len() > 0 {
            Ok(changes)
        } else {
            Err(make_process_msg(cid, " cannot be done"))
        }
    }
}

// ---------------------------------------------------------------------------
// Cycle start.

/// The change log `ch` records exactly the entries whose state differs
/// between `e0` and `e`, each once, with its state before and after.
#[verifier::opaque]
pub open spec fn changes_match(
    e0: Seq<ProcessEntry>,
    e: Seq<ProcessEntry>,
    ch: Seq<ProcessStateChange>,
) -> bool {
    &&& forall|a: int, b: int|
        0 <= a < ch.len() && 0 <= b < ch.len() && a != b ==> #[trigger] ch[a].cid
            != #[trigger] ch[b].cid
    &&& forall|a: int|
        0 <= a < ch.len() ==> exists|j: int|
            0 <= j < e0.len() && #[trigger] e0[j].cid == (#[trigger] ch[a]).cid && ch[a].before
                == e0[j].state && ch[a].after == e[j].state && e0[j].state != e[j].state
    &&& forall|j: int|
        0 <= j < e0.len() && (#[trigger] e[j]).state != e0[j].state ==> exists|a: int|
            0 <= a < ch.len() && #[trigger] ch[a].cid == e0[j].cid
}

/// States that a cycle start moves a process out of and into.
pub open spec fn start_source(st: ProcessState) -> bool {
    st == ProcessState::Ready || st == ProcessState::Running || st == ProcessState::Idle
}

pub open spec fn start_target(st: ProcessState) -> bool {
    st == ProcessState::Overrun || st == ProcessState::Skip || st == ProcessState::Late
}

/// Entries and change log during a cycle start.
#[verifier::opaque]
pub open spec fn log_inv(e0: Seq<ProcessEntry>, e: Seq<ProcessEntry>, ch: Seq<ProcessStateChange>) -> bool {
    &&& e.len() == e0.len()
    &&& distinct_cids(e0)
    &&& forall|j: int|
        0 <= j < e0.len() ==> {
            &&& (#[trigger] e[j]).cid == e0[j].cid
            &&& e[j].is_floating == e0[j].is_floating
            &&& e[j].deps() == e0[j].deps()
            &&& e[j].wf()
            &&& e[j].state != e0[j].state ==> start_source(e0[j].state) && start_target(e[j].state)
        }
    &&& changes_match(e0, e, ch)
}

/// Moves entry `j` from `from` to `to`, logging the change, when it is in
/// state `from`; with `reset`, its dependency statuses are cleared too.
fn shift_state(
    entries: &mut Vec<ProcessEntry>,
    j: usize,
    from: ProcessState,
    to: ProcessState,
    reset: bool,
    changes: &mut Vec<ProcessStateChange>,
    Ghost(e0): Ghost<Seq<ProcessEntry>>,
)
    requires
        log_inv(e0, old(entries)@, old(changes)@),
        j < old(entries)@.len(),
        start_source(from),
        start_target(to),
        transition_allowed(from, to),
    ensures
        log_inv(e0, final(entries)@, final(changes)@),
        final(entries)@.len() == old(entries)@.len(),
        final(entries)@[j as int].cid == old(entries)@[j as int].cid,
        forall|m: int|
            0 <= m < old(entries)@.len() && m != j ==> #[trigger] final(entries)@[m] == old(
                entries,
            )@[m],
        if old(entries)@[j as int].state == from {
            &&& final(entries)@[j as int].state == to
            &&& final(entries)@[j as int].dependency_statuses@ == if reset {
                all_unmet(old(entries)@[j as int].deps())
            } else {
                old(entries)@[j as int].dependency_statuses@
            }
            &&& final(changes)@ == old(changes)@.push(
                ProcessStateChange { cid: old(entries)@[j as int].cid, before: from, after: to },
            )
        } else {
            &&& final(entries)@[j as int].state == old(entries)@[j as int].state
            &&& final(entries)@[j as int].dependency_statuses@ == old(
                entries,
            )@[j as int].dependency_statuses@
            &&& final(changes)@ == old(changes)@
        },
{
    proof {
        lemma_log_inv_shape(e0, entries@, changes@);
        reveal(log_inv);
    }
    if entries[j].state == from {
        let ghost e_before = entries@;
        let ghost ch_before = changes@;
        let mut change = ProcessStateChange::new(&entries[j]);
        let _ = entries[j].set_state(to);
        if reset {
            entries[j].reset_dependency_statuses();
        }
        change.after = to;
        changes.push(change);
        proof {
            assert(entries@[j as int].deps() =~= e_before[j as int].deps());
            lemma_log_push(e0, e_before, entries@, ch_before, changes@, j as int);
        }
    }
}

/// What the change log invariant says of the entries' shape.
pub(crate) proof fn lemma_log_inv_shape(e0: Seq<ProcessEntry>, e: Seq<ProcessEntry>, ch: Seq<ProcessStateChange>)
    requires
        log_inv(e0, e, ch),
    ensures
        e.len() == e0.len(),
        distinct_cids(e0),
        same_shape(e0, e),
        forall|j: int| 0 <= j < e0.len() ==> #[trigger] e[j].cid == e0[j].cid,
        forall|j: int| 0 <= j < e0.len() ==> (#[trigger] e[j]).wf(),
        changes_match(e0, e, ch),
{
    reveal(log_inv);
}

/// A cycle start begins with no change.
proof fn lemma_log_inv_start(e0: Seq<ProcessEntry>)
    requires
        distinct_cids(e0),
        forall|j: int| 0 <= j < e0.len() ==> (#[trigger] e0[j]).wf(),
    ensures
        log_inv(e0, e0, Seq::empty()),
{
    reveal(log_inv);
    reveal(changes_match);
}

/// A change log matches the entries: it is empty exactly when no state
/// changed.
proof fn lemma_changes_empty(e0: Seq<ProcessEntry>, e: Seq<ProcessEntry>, ch: Seq<ProcessStateChange>)
    requires
        changes_match(e0, e, ch),
        e.len() == e0.len(),
    ensures
        (ch.len() > 0) == exists|j: int| 0 <= j < e0.len() && #[trigger] e[j].state != e0[j].state,
{
    reveal(changes_match);
    if ch.len() > 0 {
        let j = choose|j: int|
            0 <= j < e0.len() && #[trigger] e0[j].cid == (#[trigger] ch[0]).cid && ch[0].before
                == e0[j].state && ch[0].after == e[j].state && e0[j].state != e[j].state;
        assert(e[j].state != e0[j].state);
    }
    if exists|j: int| 0 <= j < e0.len() && #[trigger] e[j].state != e0[j].state {
        let j = choose|j: int| 0 <= j < e0.len() && #[trigger] e[j].state != e0[j].state;
        let a = choose|a: int| 0 <= a < ch.len() && #[trigger] ch[a].cid == e0[j].cid;
    }
}

proof fn lemma_log_push(
    e0: Seq<ProcessEntry>,
    eb: Seq<ProcessEntry>,
    e: Seq<ProcessEntry>,
    chb: Seq<ProcessStateChange>,
    ch: Seq<ProcessStateChange>,
    j: int,
)
    requires
        log_inv(e0, eb, chb),
        0 <= j < eb.len(),
        start_source(eb[j].state),
        start_target(e[j].state),
        e.len() == eb.len(),
        forall|m: int| 0 <= m < eb.len() && m != j ==> #[trigger] e[m] == eb[m],
        e[j].cid == eb[j].cid,
        e[j].is_floating == eb[j].is_floating,
        e[j].deps() == eb[j].deps(),
        e[j].wf(),
        ch == chb.push(ProcessStateChange { cid: eb[j].cid, before: eb[j].state, after: e[j].state }),
    ensures
        log_inv(e0, e, ch),
{
    reveal(log_inv);
    reveal(changes_match);
    assert(eb[j].state == e0[j].state);
    assert forall|a: int| 0 <= a < chb.len() implies chb[a].cid != e0[j].cid by {
        let jj = choose|jj: int|
            0 <= jj < e0.len() && #[trigger] e0[jj].cid == (#[trigger] chb[a]).cid
                && chb[a].before == e0[jj].state && chb[a].after == eb[jj].state && e0[jj].state
                != eb[jj].state;
        if chb[a].cid == e0[j].cid {
            assert(jj == j);
        }
    }
    assert forall|a: int| 0 <= a < ch.len() implies exists|jj: int|
        0 <= jj < e0.len() && #[trigger] e0[jj].cid == (#[trigger] ch[a]).cid && ch[a].before
            == e0[jj].state && ch[a].after == e[jj].state && e0[jj].state != e[jj].state by {
        if a < chb.len() {
            assert(ch[a] == chb[a]);
            let jj = choose|jj: int|
                0 <= jj < e0.len() && #[trigger] e0[jj].cid == (#[trigger] chb[a]).cid
                    && chb[a].before == e0[jj].state && chb[a].after == eb[jj].state
                    && e0[jj].state != eb[jj].state;
            assert(jj != j);
            assert(e[jj] == eb[jj]);
        } else {
            assert(e0[j].cid == ch[a].cid);
        }
    }
    assert forall|jj: int|
        0 <= jj < e0.len() && (#[trigger] e[jj]).state != e0[jj].state implies exists|a: int|
            0 <= a < ch.len() && #[trigger] ch[a].cid == e0[jj].cid by {
        if jj == j {
            assert(ch[ch.len() - 1].cid == e0[jj].cid);
        } else {
            assert(e[jj] == eb[jj]);
            let a = choose|a: int| 0 <= a < chb.len() && #[trigger] chb[a].cid == e0[jj].cid;
            assert(ch[a] == chb[a]);
        }
    }
    assert forall|a: int, b: int|
        0 <= a < ch.len() && 0 <= b < ch.len() && a != b implies #[trigger] ch[a].cid
            != #[trigger] ch[b].cid by {
        if a < chb.len() && b < chb.len() {
            assert(ch[a] == chb[a] && ch[b] == chb[b]);
        } else if a < chb.len() {
            assert(ch[a] == chb[a]);
        } else if b < chb.len() {
            assert(ch[b] == chb[b]);
        }
    }
    assert forall|jj: int| 0 <= jj < e0.len() implies {
        &&& (#[trigger] e[jj]).cid == e0[jj].cid
        &&& e[jj].is_floating == e0[jj].is_floating
        &&& e[jj].deps() == e0[jj].deps()
        &&& e[jj].wf()
        &&& e[jj].state != e0[jj].state ==> start_source(e0[jj].state) && start_target(e[jj].state)
    } by {
        if jj != j {
            assert(e[jj] == eb[jj]);
        }
    }
}

/// The processes of `list` whose entry is in state `st`, in order.
pub open spec fn cids_in_state(entries: Seq<ProcessEntry>, list: Seq<u16>, st: ProcessState) -> Seq<u16>
    decreases list.len(),
{
    if list.len() == 0 {
        Seq::empty()
    } else {
        cids_in_state(entries, list.drop_last(), st) + if has_cid(entries, list.last()) && entry_of(
            entries,
            list.last(),
        ).state == st {
            seq![list.last()]
        } else {
            Seq::empty()
        }
    }
}

pub(crate) proof fn lemma_cids_in_state(entries: Seq<ProcessEntry>, list: Seq<u16>, st: ProcessState, c: u16)
    ensures
        cids_in_state(entries, list, st).contains(c) == (list.contains(c) && has_cid(entries, c)
            && entry_of(entries, c).state == st),
    decreases list.len(),
{
    if list.len() > 0 {
        let pre = list.drop_last();
        lemma_cids_in_state(entries, pre, st, c);
        assert(list =~= pre.push(list.last()));
        lemma_push_contains(pre, list.last(), c);
        let tail = if has_cid(entries, list.last()) && entry_of(entries, list.last()).state == st {
            seq![list.last()]
        } else {
            Seq::<u16>::empty()
        };
        let r = cids_in_state(entries, pre, st);
        if tail.len() == 1 {
            assert(r + tail =~= r.push(list.last()));
            lemma_push_contains(r, list.last(), c);
        } else {
            assert(r + tail =~= r);
        }
    }
}

/// The same-cycle forward closure of the process `c`.
pub open spec fn same_of(entries: Seq<ProcessEntry>, same: Seq<Vec<u16>>, c: u16) -> Seq<u16> {
    same[choose|i: int| 0 <= i < entries.len() && #[trigger] entries[i].cid == c]@
}

/// `x` is a same-cycle dependent, other than the process itself, of one of
/// the processes `ovr`.
pub open spec fn overrun_dependent(
    entries: Seq<ProcessEntry>,
    same: Seq<Vec<u16>>,
    ovr: Seq<u16>,
    x: u16,
) -> bool {
    exists|m: int| 0 <= m < ovr.len() && #[trigger] same_of(entries, same, ovr[m]).skip(1).contains(x)
}

/// The state a process reaches when the cycle starts a process whose
/// same-cycle closure `f` holds a process that is not `Ready`: in `f`,
/// `Running` overruns, `Idle` is late and `Ready` skips; outside `f`, a
/// `Ready` same-cycle dependent of an overrun process skips.
pub open spec fn not_ready_state(
    entries: Seq<ProcessEntry>,
    same: Seq<Vec<u16>>,
    f: Seq<u16>,
    e: ProcessEntry,
) -> ProcessState {
    if f.contains(e.cid) {
        match e.state {
            ProcessState::Running => ProcessState::Overrun,
            ProcessState::Idle => ProcessState::Late,
            ProcessState::Ready => ProcessState::Skip,
            _ => e.state,
        }
    } else if e.state == ProcessState::Ready && overrun_dependent(
        entries,
        same,
        cids_in_state(entries, f, ProcessState::Running),
        e.cid,
    ) {
        ProcessState::Skip
    } else {
        e.state
    }
}

/// The completion statuses after such a start: a `Ready` same-cycle
/// dependent of an overrun process has them cleared.
pub open spec fn not_ready_deps(
    entries: Seq<ProcessEntry>,
    same: Seq<Vec<u16>>,
    f: Seq<u16>,
    e: ProcessEntry,
) -> Seq<(u16, bool)> {
    if e.state == ProcessState::Ready && overrun_dependent(
        entries,
        same,
        cids_in_state(entries, f, ProcessState::Running),
        e.cid,
    ) {
        all_unmet(e.deps())
    } else {
        e.dependency_statuses@
    }
}

/// Every process of `f` is `Ready`.
pub open spec fn all_ready(entries: Seq<ProcessEntry>, f: Seq<u16>) -> bool {
    forall|k: int| 0 <= k < f.len() ==> entry_of(entries, #[trigger] f[k]).state == ProcessState::Ready
}

proof fn lemma_overrun_dependent_push(
    entries: Seq<ProcessEntry>,
    same: Seq<Vec<u16>>,
    s: Seq<u16>,
    c: u16,
    x: u16,
)
    ensures
        overrun_dependent(entries, same, s.push(c), x) == (overrun_dependent(entries, same, s, x)
            || same_of(entries, same, c).skip(1).contains(x)),
{
    let t = s.push(c);
    if overrun_dependent(entries, same, t, x) {
        let m = choose|m: int| 0 <= m < t.len() && #[trigger] same_of(entries, same, t[m]).skip(1).contains(x);
        if m < s.len() {
            assert(t[m] == s[m]);
            assert(same_of(entries, same, s[m]).skip(1).contains(x));
        }
    }
    if overrun_dependent(entries, same, s, x) {
        let m = choose|m: int| 0 <= m < s.len() && #[trigger] same_of(entries, same, s[m]).skip(1).contains(x);
        assert(t[m] == s[m]);
        assert(same_of(entries, same, t[m]).skip(1).contains(x));
    }
    if same_of(entries, same, c).skip(1).contains(x) {
        assert(t[s.len() as int] == c);
        assert(same_of(entries, same, t[s.len() as int]).skip(1).contains(x));
    }
}

/// Moves every entry in state `from` whose ID is in `list[start..]` to
/// `to`, logging each change; with `reset`, their dependency statuses are
/// cleared too.
fn shift_listed(
    entries: &mut Vec<ProcessEntry>,
    list: &Vec<u16>,
    start: usize,
    from: ProcessState,
    to: ProcessState,
    reset: bool,
    changes: &mut Vec<ProcessStateChange>,
    Ghost(e0): Ghost<Seq<ProcessEntry>>,
)
    requires
        log_inv(e0, old(entries)@, old(changes)@),
        start <= list.len(),
        start_source(from),
        start_target(to),
        transition_allowed(from, to),
    ensures
        log_inv(e0, final(entries)@, final(changes)@),
        final(entries)@.len() == old(entries)@.len(),
        forall|j: int|
            0 <= j < old(entries)@.len() ==> {
                let e = #[trigger] old(entries)@[j];
                &&& final(entries)@[j].cid == e.cid
                &&& if list@.skip(start as int).contains(e.cid) && e.state == from {
                    &&& final(entries)@[j].state == to
                    &&& final(entries)@[j].dependency_statuses@ == if reset {
                        all_unmet(e.deps())
                    } else {
                        e.dependency_statuses@
                    }
                } else {
                    &&& final(entries)@[j].state == e.state
                    &&& final(entries)@[j].dependency_statuses@ == e.dependency_statuses@
                }
            },
        final(changes)@ == old(changes)@ + shift_log(list@.skip(start as int), old(entries)@, from, to),
{
    let ghost base = entries@;
    let ghost ch0 = changes@;
    proof {
        lemma_shift_log_empty(base, from, to);
        assert(list@.subrange(start as int, start as int) =~= Seq::<u16>::empty());
    }
    proof {
        lemma_log_inv_shape(e0, entries@, changes@);
        assert(same_shape(e0, base));
        assert(distinct_cids(base)) by {
            assert forall|i: int, j: int|
                0 <= i < base.len() && 0 <= j < base.len() && i != j implies #[trigger] base[i].cid
                    != #[trigger] base[j].cid by {
                assert(base[i].cid == e0[i].cid && base[j].cid == e0[j].cid);
            }
        }
    }
    let mut k: usize = start;
    while k < list.len()
        invariant
            start <= k <= list.len(),
            start_source(from),
            start_target(to),
            transition_allowed(from, to),
            distinct_cids(base),
            same_shape(e0, base),
            log_inv(e0, entries@, changes@),
            entries@.len() == base.len(),
            changes@ == ch0 + shift_log(list@.subrange(start as int, k as int), base, from, to),
            forall|j: int|
                0 <= j < base.len() ==> {
                    let e = #[trigger] base[j];
                    &&& entries@[j].cid == e.cid
                    &&& entries@[j].deps() == e.deps()
                    &&& if list@.subrange(start as int, k as int).contains(e.cid) && e.state == from {
                        &&& entries@[j].state == to
                        &&& entries@[j].dependency_statuses@ == if reset {
                            all_unmet(e.deps())
                        } else {
                            e.dependency_statuses@
                        }
                    } else {
                        &&& entries@[j].state == e.state
                        &&& entries@[j].dependency_statuses@ == e.dependency_statuses@
                    }
                },
        decreases list.len() - k,
    {
        let y = list[k];
        let ghost eb = entries@;
        let ghost chb = changes@;
        let ghost sub = list@.subrange(start as int, k as int);
        proof {
            assert(list@.subrange(start as int, k + 1) =~= sub.push(y));
            lemma_shift_log_push(sub, y, base, from, to);
        }
        proof {
            assert forall|x: u16| #[trigger] list@.subrange(start as int, k + 1).contains(x) == (
            list@.subrange(start as int, k as int).contains(x) || x == y) by {
                assert(list@.subrange(start as int, k + 1) =~= list@.subrange(start as int, k as int).push(y));
                lemma_push_contains(list@.subrange(start as int, k as int), y, x);
            }
        }
        match entry_index(entries, y) {
            Some(yi) => {
                shift_state(entries, yi, from, to, reset, changes, Ghost(e0));
                proof {
                    lemma_entry_of(base, yi as int);
                    if sub.contains(y) && base[yi as int].state == from {
                        assert(eb[yi as int].state == to);
                    }
                    lemma_log_inv_shape(e0, entries@, changes@);
                    assert(entries@[yi as int].deps() == e0[yi as int].deps());
                    assert forall|j: int| 0 <= j < base.len() && j != yi implies #[trigger] base[j].cid != y by {
                        assert(base[yi as int].cid == y);
                    }
                }
            },
            None => {
                proof {
                    assert forall|j: int| 0 <= j < base.len() implies #[trigger] base[j].cid != y by {
                        assert(eb[j].cid == base[j].cid);
                    }
                    assert(!has_cid(base, y));
                }
            },
        }
        k += 1;
    }
    assert(list@.subrange(start as int, list.len() as int) =~= list@.skip(start as int));
}

/// Marks each process of `ovr` (all `Running`) `Overrun`, and its `Ready`
/// same-cycle dependents `Skip` with their dependency statuses cleared.
fn mark_overruns(
    entries: &mut Vec<ProcessEntry>,
    same: &Vec<Vec<u16>>,
    ovr: &Vec<u16>,
    changes: &mut Vec<ProcessStateChange>,
    Ghost(e0): Ghost<Seq<ProcessEntry>>,
)
    requires
        log_inv(e0, old(entries)@, old(changes)@),
        old(entries)@ == e0,
        same@.len() == e0.len(),
        forall|i: int| 0 <= i < same@.len() ==> (#[trigger] same@[i])@.len() > 0,
        forall|m: int|
            0 <= m < ovr@.len() ==> has_cid(e0, #[trigger] ovr@[m]) && entry_of(e0, ovr@[m]).state
                == ProcessState::Running,
    ensures
        log_inv(e0, final(entries)@, final(changes)@),
        final(entries)@.len() == e0.len(),
        forall|j: int|
            0 <= j < e0.len() ==> {
                let e = #[trigger] e0[j];
                let dep = e.state == ProcessState::Ready && overrun_dependent(e0, same@, ovr@, e.cid);
                &&& final(entries)@[j].cid == e.cid
                &&& final(entries)@[j].state == if ovr@.contains(e.cid) {
                    ProcessState::Overrun
                } else if dep {
                    ProcessState::Skip
                } else {
                    e.state
                }
                &&& final(entries)@[j].dependency_statuses@ == if dep {
                    all_unmet(e.deps())
                } else {
                    e.dependency_statuses@
                }
            },
        final(changes)@ == old(changes)@ + overrun_log(e0, same@, ovr@),
{
    let ghost sm = same@;
    let ghost ov = ovr@;
    let ghost ch0 = changes@;
    proof {
        lemma_overrun_log_empty(e0, sm);
        assert(ov.take(0) =~= Seq::<u16>::empty());
    }
    proof {
        lemma_log_inv_shape(e0, entries@, changes@);
    }
    let mut a: usize = 0;
    while a < ovr.len()
        invariant
            sm == same@,
            ov == ovr@,
            sm.len() == e0.len(),
            forall|i: int| 0 <= i < sm.len() ==> (#[trigger] sm[i])@.len() > 0,
            a <= ov.len(),
            distinct_cids(e0),
            log_inv(e0, entries@, changes@),
            entries@.len() == e0.len(),
            changes@ == ch0 + overrun_log(e0, sm, ov.take(a as int)),
            forall|m: int|
                0 <= m < ov.len() ==> has_cid(e0, #[trigger] ov[m]) && entry_of(e0, ov[m]).state
                    == ProcessState::Running,
            forall|j: int|
                0 <= j < e0.len() ==> {
                    let e = #[trigger] e0[j];
                    let dep = e.state == ProcessState::Ready && overrun_dependent(
                        e0,
                        sm,
                        ov.take(a as int),
                        e.cid,
                    );
                    &&& entries@[j].cid == e.cid
                    &&& entries@[j].deps() == e.deps()
                    &&& entries@[j].state == if ov.take(a as int).contains(e.cid) {
                        ProcessState::Overrun
                    } else if dep {
                        ProcessState::Skip
                    } else {
                        e.state
                    }
                    &&& entries@[j].dependency_statuses@ == if dep {
                        all_unmet(e.deps())
                    } else {
                        e.dependency_statuses@
                    }
                },
        decreases ov.len() - a,
    {
        let c = ovr[a];
        let ghost eb = entries@;
        let ghost chb = changes@;
        let ghost s = ov.take(a as int);
        proof {
            assert(ov.take(a + 1) =~= s.push(c));
            lemma_overrun_log_push(e0, sm, s, c);
            assert forall|x: u16| #[trigger] ov.take(a + 1).contains(x) == (s.contains(x) || x == c) by {
                lemma_push_contains(s, c, x);
            }
            assert forall|x: u16| #[trigger] overrun_dependent(e0, sm, ov.take(a + 1), x) == (
            overrun_dependent(e0, sm, s, x) || same_of(e0, sm, c).skip(1).contains(x)) by {
                lemma_overrun_dependent_push(e0, sm, s, c, x);
            }
            assert(has_cid(e0, ov[a as int]));
        }
        match entry_index(entries, c) {
            Some(ci) => {
                proof {
                    lemma_entry_of(e0, ci as int);
                    assert forall|j: int| 0 <= j < e0.len() && j != ci implies #[trigger] e0[j].cid != c by {}
                    assert(same_of(e0, sm, c) == sm[ci as int]@) by {
                        let i = choose|i: int| 0 <= i < e0.len() && #[trigger] e0[i].cid == c;
                        assert(i == ci);
                    }
                }
                shift_state(entries, ci, ProcessState::Running, ProcessState::Overrun, false, changes, Ghost(e0));
                let ghost em = entries@;
                let ghost chm = changes@;
                proof {
                    if !s.contains(c) {
                        assert(eb[ci as int].state == ProcessState::Running);
                    } else {
                        assert(eb[ci as int].state == ProcessState::Overrun);
                    }
                }
                shift_listed(entries, &same[ci], 1, ProcessState::Ready, ProcessState::Skip, true, changes, Ghost(e0));
                proof {
                    assert forall|j: int| 0 <= j < e0.len() implies {
                        let e = #[trigger] e0[j];
                        let dep = e.state == ProcessState::Ready && overrun_dependent(
                            e0,
                            sm,
                            ov.take(a + 1),
                            e.cid,
                        );
                        &&& entries@[j].cid == e.cid
                        &&& entries@[j].deps() == e.deps()
                        &&& entries@[j].state == if ov.take(a + 1).contains(e.cid) {
                            ProcessState::Overrun
                        } else if dep {
                            ProcessState::Skip
                        } else {
                            e.state
                        }
                        &&& entries@[j].dependency_statuses@ == if dep {
                            all_unmet(e.deps())
                        } else {
                            e.dependency_statuses@
                        }
                    } by {
                        let e = e0[j];
                        assert(em[j].cid == e.cid);
                        if j == ci {
                            assert(e.state == ProcessState::Running);
                        }
                        assert(entries@[j] == entries@[j]);
                        lemma_log_inv_shape(e0, entries@, changes@);
                    }
                    assert forall|y: u16|
                        #[trigger] in_state(em, y, ProcessState::Ready) == ready_undisturbed(e0, sm, s, y) by {
                        lemma_log_inv_shape(e0, em, chm);
                        if has_cid(e0, y) {
                            let j = choose|j: int| 0 <= j < e0.len() && #[trigger] e0[j].cid == y;
                            lemma_entry_of(e0, j);
                            assert(em[j].cid == y);
                            assert(distinct_cids(em)) by {
                                assert forall|p: int, q: int|
                                    0 <= p < em.len() && 0 <= q < em.len() && p != q implies #[trigger] em[p].cid
                                        != #[trigger] em[q].cid by {
                                    assert(em[p].cid == e0[p].cid && em[q].cid == e0[q].cid);
                                }
                            }
                            lemma_entry_of(em, j);
                            if s.contains(y) {
                                let m = choose|m: int| 0 <= m < s.len() && s[m] == y;
                                assert(ov[m] == y);
                            }
                        } else {
                            assert(!has_cid(em, y)) by {
                                if has_cid(em, y) {
                                    let j = choose|j: int| 0 <= j < em.len() && #[trigger] em[j].cid == y;
                                    assert(e0[j].cid == y);
                                }
                            }
                        }
                    }
                    lemma_shift_log_skips(sm[ci as int]@.skip(1), em, e0, sm, s);
                }
            },
            None => {
                proof {
                    let i = choose|i: int| 0 <= i < e0.len() && #[trigger] e0[i].cid == c;
                    assert(eb[i].cid == c);
                }
            },
        }
        a += 1;
    }
    assert(ov.take(ov.len() as int) =~= ov);
}

pub(crate) proof fn lemma_start_points(entries: Seq<ProcessEntry>, c: u16)
    ensures
        start_points(entries).contains(c) == exists|i: int|
            0 <= i < entries.len() && #[trigger] entries[i].cid == c && !entries[i].is_floating,
    decreases entries.len(),
{
    if entries.len() > 0 {
        let pre = entries.drop_last();
        lemma_start_points(pre, c);
        let last = entries.last();
        let r = start_points(pre);
        if !last.is_floating {
            assert(start_points(entries) =~= r.push(last.cid));
            lemma_push_contains(r, last.cid, c);
        } else {
            assert(start_points(entries) =~= r);
        }
        if exists|i: int| 0 <= i < pre.len() && #[trigger] pre[i].cid == c && !pre[i].is_floating {
            let i = choose|i: int| 0 <= i < pre.len() && #[trigger] pre[i].cid == c && !pre[i].is_floating;
            assert(entries[i] == pre[i]);
        }
        if exists|i: int| 0 <= i < entries.len() && #[trigger] entries[i].cid == c && !entries[i].is_floating {
            let i = choose|i: int| 0 <= i < entries.len() && #[trigger] entries[i].cid == c && !entries[i].is_floating;
            if i < entries.len() - 1 {
                assert(pre[i] == entries[i]);
            }
        }
    }
}

/// A process that does not float is a start point.
pub proof fn lemma_start_points_member(entries: Seq<ProcessEntry>, j: int)
    requires
        0 <= j < entries.len(),
        !entries[j].is_floating,
    ensures
        start_points(entries).contains(entries[j].cid),
        start_points(entries).len() > 0,
{
    lemma_start_points(entries, entries[j].cid);
}

/// Members of a forward closure are entries.
proof fn lemma_closure_entries(
    entries: Seq<ProcessEntry>,
    g: Seq<(u16, Vec<u16>)>,
    sc: bool,
    cid: u16,
    f: Seq<u16>,
    y: u16,
)
    requires
        forward_wf(entries, g),
        has_cid(entries, cid),
        is_forward_closure(entries, g, sc, cid, true, f),
        f.contains(y),
    ensures
        has_cid(entries, y),
{
    if y != cid {
        let p = choose|p: Seq<u16>|
            #![trigger is_walk(entries, g, sc, p)]
            p.len() >= 2 && p[0] == cid && p.last() == y && is_walk(entries, g, sc, p);
        assert(step(entries, g, sc, p[p.len() - 2], p[p.len() - 1]));
        lemma_succ_are_entries(entries, g, p[p.len() - 2], y);
    }
}


/// Finds the processes of `f` that are `Running` and `Idle`, and whether
/// any is not `Ready`.
fn scan_states(entries: &Vec<ProcessEntry>, f: &Vec<u16>) -> (r: (Vec<u16>, Vec<u16>, bool))
    requires
        distinct_cids(entries@),
        forall|k: int| 0 <= k < f@.len() ==> has_cid(entries@, #[trigger] f@[k]),
    ensures
        r.0@ == cids_in_state(entries@, f@, ProcessState::Running),
        r.1@ == cids_in_state(entries@, f@, ProcessState::Idle),
        r.2 == !all_ready(entries@, f@),
{
    let mut overrun: Vec<u16> = Vec::new();
    let mut late: Vec<u16> = Vec::new();
    let mut not_ready = false;
    let mut k: usize = 0;
    while k < f.len()
        invariant
            k <= f.len(),
            distinct_cids(entries@),
            forall|m: int| 0 <= m < f@.len() ==> has_cid(entries@, #[trigger] f@[m]),
            overrun@ == cids_in_state(entries@, f@.take(k as int), ProcessState::Running),
            late@ == cids_in_state(entries@, f@.take(k as int), ProcessState::Idle),
            not_ready == exists|m: int|
                0 <= m < k && entry_of(entries@, #[trigger] f@[m]).state != ProcessState::Ready,
        decreases f.len() - k,
    {
        let y = f[k];
        proof {
            assert(f@.take(k + 1).drop_last() =~= f@.take(k as int));
            assert(f@.take(k + 1).last() == y);
            assert(has_cid(entries@, y));
        }
        match entry_index(entries, y) {
            Some(j) => {
                proof {
                    lemma_entry_of(entries@, j as int);
                }
                match entries[j].state {
                    ProcessState::Ready => {},
                    ProcessState::Running => {
                        overrun.push(y);
                        not_ready = true;
                    },
                    ProcessState::Idle => {
                        late.push(y);
                        not_ready = true;
                    },
                    _ => {
                        not_ready = true;
                    },
                }
            },
            None => {},
        }
        k += 1;
    }
    assert(f@.take(k as int) =~= f@);
    (overrun, late, not_ready)
}

/// Clears the dependency statuses of every entry whose ID is in `list`.
fn reset_listed(entries: &mut Vec<ProcessEntry>, list: &Vec<u16>)
    requires
        distinct_cids(old(entries)@),
        forall|j: int| 0 <= j < old(entries)@.len() ==> (#[trigger] old(entries)@[j]).wf(),
    ensures
        final(entries)@.len() == old(entries)@.len(),
        forall|j: int|
            0 <= j < old(entries)@.len() ==> {
                let e = #[trigger] old(entries)@[j];
                &&& final(entries)@[j].cid == e.cid
                &&& final(entries)@[j].is_floating == e.is_floating
                &&& final(entries)@[j].deps() == e.deps()
                &&& final(entries)@[j].state == e.state
                &&& final(entries)@[j].wf()
                &&& final(entries)@[j].dependency_statuses@ == if list@.contains(e.cid) {
                    all_unmet(e.deps())
                } else {
                    e.dependency_statuses@
                }
            },
{
    let ghost base = entries@;
    let mut k: usize = 0;
    while k < list.len()
        invariant
            k <= list.len(),
            distinct_cids(base),
            entries@.len() == base.len(),
            forall|j: int|
                0 <= j < base.len() ==> {
                    let e = #[trigger] base[j];
                    &&& entries@[j].cid == e.cid
                    &&& entries@[j].is_floating == e.is_floating
                    &&& entries@[j].deps() == e.deps()
                    &&& entries@[j].state == e.state
                    &&& entries@[j].wf()
                    &&& entries@[j].dependency_statuses@ == if list@.take(k as int).contains(e.cid) {
                        all_unmet(e.deps())
                    } else {
                        e.dependency_statuses@
                    }
                },
        decreases list.len() - k,
    {
        let y = list[k];
        let ghost eb = entries@;
        proof {
            assert forall|x: u16| #[trigger] list@.take(k + 1).contains(x) == (list@.take(k as int).contains(
                x,
            ) || x == y) by {
                assert(list@.take(k + 1) =~= list@.take(k as int).push(y));
                lemma_push_contains(list@.take(k as int), y, x);
            }
        }
        match entry_index(entries, y) {
            Some(yi) => {
                entries[yi].reset_dependency_statuses();
                proof {
                    assert(entries@[yi as int].deps() =~= eb[yi as int].deps());
                    assert forall|j: int| 0 <= j < base.len() && j != yi implies #[trigger] base[j].cid != y by {
                        assert(base[yi as int].cid == y);
                    }
                    assert forall|j: int| 0 <= j < base.len() && j != yi implies #[trigger] entries@[j] == eb[j] by {}
                }
            },
            None => {
                proof {
                    assert forall|j: int| 0 <= j < base.len() implies #[trigger] base[j].cid != y by {
                        assert(eb[j].cid == base[j].cid);
                    }
                }
            },
        }
        k += 1;
    }
    assert(list@.take(list.len() as int) =~= list@);
}


/// The start point waits for a dependency: the `Ready` processes of `f`
/// skip.
fn start_unmet(
    entries: &mut Vec<ProcessEntry>,
    f: &Vec<u16>,
    Ghost(e0): Ghost<Seq<ProcessEntry>>,
) -> (changes: Vec<ProcessStateChange>)
    requires
        old(entries)@ == e0,
        distinct_cids(e0),
        forall|j: int| 0 <= j < e0.len() ==> (#[trigger] e0[j]).wf(),
    ensures
        same_shape(e0, final(entries)@),
        forall|j: int| 0 <= j < e0.len() ==> (#[trigger] final(entries)@[j]).wf(),
        forall|j: int|
            0 <= j < e0.len() ==> {
                &&& (#[trigger] final(entries)@[j]).state == if f@.contains(e0[j].cid) && e0[j].state
                    == ProcessState::Ready {
                    ProcessState::Skip
                } else {
                    e0[j].state
                }
                &&& final(entries)@[j].dependency_statuses@ == e0[j].dependency_statuses@
            },
        changes_match(e0, final(entries)@, changes@),
        changes@ == shift_log(f@, e0, ProcessState::Ready, ProcessState::Skip),
{
    let mut changes: Vec<ProcessStateChange> = Vec::new();
    proof {
        lemma_log_inv_start(e0);
    }
    shift_listed(entries, f, 0, ProcessState::Ready, ProcessState::Skip, false, &mut changes, Ghost(e0));
    proof {
        assert(f@.skip(0) =~= f@);
        assert(changes@ =~= shift_log(f@, e0, ProcessState::Ready, ProcessState::Skip));
        lemma_log_inv_shape(e0, entries@, changes@);
    }
    changes
}

/// The three phases of a start with a process that is not `Ready` give
/// `not_ready_state` and `not_ready_deps`.
proof fn lemma_not_ready_phases(
    e0: Seq<ProcessEntry>,
    same: Seq<Vec<u16>>,
    f: Seq<u16>,
    ovr: Seq<u16>,
    late: Seq<u16>,
    e1: Seq<ProcessEntry>,
    e2: Seq<ProcessEntry>,
    e3: Seq<ProcessEntry>,
)
    requires
        distinct_cids(e0),
        ovr == cids_in_state(e0, f, ProcessState::Running),
        late == cids_in_state(e0, f, ProcessState::Idle),
        e1.len() == e0.len(),
        e2.len() == e0.len(),
        forall|j: int|
            0 <= j < e0.len() ==> {
                let e = #[trigger] e0[j];
                let dep = e.state == ProcessState::Ready && overrun_dependent(e0, same, ovr, e.cid);
                &&& e1[j].cid == e.cid
                &&& e1[j].state == if ovr.contains(e.cid) {
                    ProcessState::Overrun
                } else if dep {
                    ProcessState::Skip
                } else {
                    e.state
                }
                &&& e1[j].dependency_statuses@ == if dep {
                    all_unmet(e.deps())
                } else {
                    e.dependency_statuses@
                }
            },
        forall|j: int|
            0 <= j < e0.len() ==> {
                let e = #[trigger] e1[j];
                &&& e2[j].cid == e.cid
                &&& if late.contains(e.cid) && e.state == ProcessState::Idle {
                    e2[j].state == ProcessState::Late && e2[j].dependency_statuses@ == e.dependency_statuses@
                } else {
                    e2[j].state == e.state && e2[j].dependency_statuses@ == e.dependency_statuses@
                }
            },
        forall|j: int|
            0 <= j < e0.len() ==> {
                let e = #[trigger] e2[j];
                if f.contains(e.cid) && e.state == ProcessState::Ready {
                    e3[j].state == ProcessState::Skip && e3[j].dependency_statuses@ == e.dependency_statuses@
                } else {
                    e3[j].state == e.state && e3[j].dependency_statuses@ == e.dependency_statuses@
                }
            },
    ensures
        forall|j: int|
            0 <= j < e0.len() ==> {
                &&& (#[trigger] e3[j]).state == not_ready_state(e0, same, f, e0[j])
                &&& e3[j].dependency_statuses@ == not_ready_deps(e0, same, f, e0[j])
            },
{
    assert forall|j: int| 0 <= j < e0.len() implies {
        &&& (#[trigger] e3[j]).state == not_ready_state(e0, same, f, e0[j])
        &&& e3[j].dependency_statuses@ == not_ready_deps(e0, same, f, e0[j])
    } by {
        let x = e0[j].cid;
        lemma_entry_of(e0, j);
        assert(has_cid(e0, x));
        lemma_cids_in_state(e0, f, ProcessState::Running, x);
        lemma_cids_in_state(e0, f, ProcessState::Idle, x);
        assert(e1[j].cid == x);
        assert(e2[j].cid == x);
    }
}

/// Some process of `f` is not `Ready`: overruns, late processes and skips.
#[verifier::rlimit(40)]
fn start_not_ready(
    entries: &mut Vec<ProcessEntry>,
    same: &Vec<Vec<u16>>,
    f: &Vec<u16>,
    ovr: &Vec<u16>,
    late: &Vec<u16>,
    Ghost(e0): Ghost<Seq<ProcessEntry>>,
) -> (changes: Vec<ProcessStateChange>)
    requires
        old(entries)@ == e0,
        distinct_cids(e0),
        forall|j: int| 0 <= j < e0.len() ==> (#[trigger] e0[j]).wf(),
        same@.len() == e0.len(),
        forall|i: int| 0 <= i < same@.len() ==> (#[trigger] same@[i])@.len() > 0,
        ovr@ == cids_in_state(e0, f@, ProcessState::Running),
        late@ == cids_in_state(e0, f@, ProcessState::Idle),
    ensures
        same_shape(e0, final(entries)@),
        forall|j: int| 0 <= j < e0.len() ==> (#[trigger] final(entries)@[j]).wf(),
        forall|j: int|
            0 <= j < e0.len() ==> {
                &&& (#[trigger] final(entries)@[j]).state == not_ready_state(e0, same@, f@, e0[j])
                &&& final(entries)@[j].dependency_statuses@ == not_ready_deps(e0, same@, f@, e0[j])
            },
        changes_match(e0, final(entries)@, changes@),
        changes@ == not_ready_log(e0, same@, f@),
{
    let mut changes: Vec<ProcessStateChange> = Vec::new();
    proof {
        lemma_log_inv_start(e0);
        assert forall|m: int| 0 <= m < ovr@.len() implies has_cid(e0, #[trigger] ovr@[m]) && entry_of(
            e0,
            ovr@[m],
        ).state == ProcessState::Running by {
            assert(ovr@.contains(ovr@[m]));
            lemma_cids_in_state(e0, f@, ProcessState::Running, ovr@[m]);
        }
    }
    mark_overruns(entries, same, ovr, &mut changes, Ghost(e0));
    let ghost e1 = entries@;
    let ghost ch1 = changes@;
    shift_listed(entries, late, 0, ProcessState::Idle, ProcessState::Late, false, &mut changes, Ghost(e0));
    let ghost e2 = entries@;
    let ghost ch2 = changes@;
    shift_listed(entries, f, 0, ProcessState::Ready, ProcessState::Skip, false, &mut changes, Ghost(e0));
    proof {
        assert(f@.skip(0) =~= f@);
        assert(late@.skip(0) =~= late@);
        lemma_phase_conditions(e0, same@, f@, ovr@, e1, e2, ch1, ch2);
        lemma_not_ready_log(e0, same@, f@);
        assert(changes@ =~= not_ready_log(e0, same@, f@));
        lemma_not_ready_phases(e0, same@, f@, ovr@, late@, e1, e2, entries@);
        lemma_log_inv_shape(e0, entries@, changes@);
    }
    changes
}

/// The whole same-cycle closure is `Ready`: the process at `idx` starts
/// and every process of `all` has its dependency statuses cleared.
fn start_ready(
    entries: &mut Vec<ProcessEntry>,
    idx: usize,
    all: &Vec<u16>,
    Ghost(e0): Ghost<Seq<ProcessEntry>>,
) -> (changes: Vec<ProcessStateChange>)
    requires
        old(entries)@ == e0,
        distinct_cids(e0),
        forall|j: int| 0 <= j < e0.len() ==> (#[trigger] e0[j]).wf(),
        idx < e0.len(),
        e0[idx as int].state == ProcessState::Ready,
    ensures
        same_shape(e0, final(entries)@),
        forall|j: int| 0 <= j < e0.len() ==> (#[trigger] final(entries)@[j]).wf(),
        forall|j: int|
            0 <= j < e0.len() ==> {
                &&& (#[trigger] final(entries)@[j]).state == if j == idx {
                    ProcessState::Running
                } else {
                    e0[j].state
                }
                &&& final(entries)@[j].dependency_statuses@ == if all@.contains(e0[j].cid) {
                    all_unmet(e0[j].deps())
                } else {
                    e0[j].dependency_statuses@
                }
            },
        changes@ == seq![
            ProcessStateChange {
                cid: e0[idx as int].cid,
                before: ProcessState::Ready,
                after: ProcessState::Running,
            },
        ],
{
    let mut changes: Vec<ProcessStateChange> = Vec::new();
    let mut change = ProcessStateChange::new(&entries[idx]);
    let _ = entries[idx].set_state(ProcessState::Running);
    change.after = ProcessState::Running;
    changes.push(change);
    proof {
        assert(entries@[idx as int].deps() =~= e0[idx as int].deps());
        assert forall|j: int| 0 <= j < e0.len() && j != idx implies #[trigger] entries@[j] == e0[j] by {}
        assert(distinct_cids(entries@)) by {
            assert forall|a: int, b: int|
                0 <= a < e0.len() && 0 <= b < e0.len() && a != b implies #[trigger] entries@[a].cid
                    != #[trigger] entries@[b].cid by {
                assert(e0[a].cid != e0[b].cid);
            }
        }
    }
    let ghost e1 = entries@;
    reset_listed(entries, all);
    proof {
        assert forall|j: int| 0 <= j < e0.len() implies {
            &&& (#[trigger] entries@[j]).cid == e0[j].cid
            &&& entries@[j].is_floating == e0[j].is_floating
            &&& entries@[j].deps() == e0[j].deps()
            &&& entries@[j].wf()
            &&& entries@[j].state == if j == idx {
                ProcessState::Running
            } else {
                e0[j].state
            }
            &&& entries@[j].dependency_statuses@ == if all@.contains(e0[j].cid) {
                all_unmet(e0[j].deps())
            } else {
                e0[j].dependency_statuses@
            }
        } by {
            assert(e1[j].cid == e0[j].cid);
            if j != idx {
                assert(e1[j] == e0[j]);
            }
        }
    }
    changes
}

impl Scheduler {
    /// The cycle trigger of the start point `cid` fires. If `cid` still
    /// waits for a dependency, the `Ready` processes of its same-cycle
    /// closure skip. Otherwise, when its whole same-cycle closure is
    /// `Ready`, `cid` starts and every process of its full closure has its
    /// dependency statuses cleared; when not, `Running` processes of the
    /// closure overrun (their `Ready` same-cycle dependents skip), `Idle`
    /// ones are late and `Ready` ones skip.
    #[verifier::rlimit(40)]
    pub fn on_start(&mut self, cid: u16) -> (r: Result<Vec<ProcessStateChange>, String>)
        requires
            old(self).wf(),
        ensures
            start_rel(*old(self), *final(self), cid, r),

    {
        if !contains_u16(&self.graph_start, cid) {
            return Err(make_process_msg(cid, " does not exist"));
        }
        proof {
            lemma_start_points(self.entries@, cid);
        }
        let idx = match entry_index(&self.entries, cid) {
            Some(i) => i,
            None => {
                proof {
                    let i = choose|i: int|
                        0 <= i < self.entries@.len() && #[trigger] self.entries@[i].cid == cid
                            && !self.entries@[i].is_floating;
                    assert(false);
                }
                return Err(make_process_msg(cid, " does not exist"));
            },
        };
        let ghost e0 = self.entries@;
        let ghost sm = self.graph_forward_same_cycle@;
        let ghost fwd = self.graph_forward@;
        proof {
            assert forall|j: int| 0 <= j < e0.len() && #[trigger] e0[j].cid == cid implies j == idx by {}
            lemma_entry_of(e0, idx as int);
            assert(is_forward_closure(e0, fwd, true, cid, true, sm[idx as int]@));
            assert(has_cid(e0, cid));
            assert forall|k: int| 0 <= k < sm[idx as int]@.len() implies has_cid(
                e0,
                #[trigger] sm[idx as int]@[k],
            ) by {
                assert(sm[idx as int]@.contains(sm[idx as int]@[k]));
                lemma_closure_entries(e0, fwd, true, cid, sm[idx as int]@, sm[idx as int]@[k]);
            }
            assert forall|i: int| 0 <= i < sm.len() implies (#[trigger] sm[i])@.len() > 0 by {
                assert(is_forward_closure(e0, fwd, true, e0[i].cid, true, sm[i]@));
            }
        }
        let f = copy_u16s(&self.graph_forward_same_cycle[idx]);
        let changes;
        let unmet = !self.entries[idx].is_dependency_met();
        if unmet {
            changes = start_unmet(&mut self.entries, &f, Ghost(e0));
        } else {
            let (ovr, late, not_ready) = scan_states(&self.entries, &f);
            if not_ready {
                changes = start_not_ready(
                    &mut self.entries,
                    &self.graph_forward_same_cycle,
                    &f,
                    &ovr,
                    &late,
                    Ghost(e0),
                );
                proof {
                    lemma_changes_empty(e0, self.entries@, changes@);
                }
            } else {
                proof {
                    assert(sm[idx as int]@[0] == cid);
                    assert(entry_of(e0, f@[0]).state == ProcessState::Ready);
                }
                changes = start_ready(&mut self.entries, idx, &self.graph_forward_all[idx], Ghost(e0));
            }
        }
        proof {
            lemma_shape_graphs(
                e0,
                self.entries@,
                self.graph_start@,
                self.graph_forward@,
                self.graph_forward_all@,
                self.graph_forward_same_cycle@,
            );
        }
        if unmet || changes.len() > 0 {
            Ok(changes)
        } else {
            Err(make_process_msg(cid, " start caused no changes"))
        }
    }
}

/// What `reset_state` does: every process of `s1` is `Idle` with no
/// dependency completed, and nothing else differs from `s0`.
pub open spec fn reset_rel(s0: Scheduler, s1: Scheduler) -> bool {
    &&& s1.wf()
    &&& s1.same_graphs(&s0)
    &&& same_shape(s0.entries@, s1.entries@)
    &&& forall|i: int|
        0 <= i < s1.entries@.len() ==> (#[trigger] s1.entries@[i]).state == ProcessState::Idle
            && s1.entries@[i].dependency_statuses@ == all_unmet(s0.entries@[i].deps())
}

/// What `on_ready` does: `s1` is `s0` after the process `cid` reported
/// `READY`, with the result `r`.
pub open spec fn ready_rel(
    s0: Scheduler,
    s1: Scheduler,
    cid: u16,
    r: Result<Vec<ProcessStateChange>, String>,
) -> bool {
    &&& s1.wf()
    &&& s1.same_graphs(&s0)
    &&& same_shape(s0.entries@, s1.entries@)
    &&& moves_allowed(s0.entries@, s1.entries@)
    &&& !has_cid(s0.entries@, cid) ==> s1.entries@ == s0.entries@ && r
        is Err && r->Err_0@ == process_msg(cid, " does not exist"@)
    &&& forall|i: int|
        0 <= i < s0.entries@.len() && (#[trigger] s0.entries@[i]).cid == cid
            ==> {
            let st = s0.entries@[i].state;
            &&& s1.entries@[i].state == ready_state(st)
            &&& s1.entries@[i].dependency_statuses@ == s0.entries@[i].dependency_statuses@
            &&& if st == ProcessState::Overrun {
                r is Err && r->Err_0@ == process_msg(cid, " cannot be ready"@)
            } else {
                r is Ok && r->Ok_0@ == seq![
                    ProcessStateChange { cid: cid, before: st, after: ready_state(st) },
                ]
            }
        }
    &&& forall|j: int|
        0 <= j < s0.entries@.len() && (#[trigger] s0.entries@[j]).cid != cid
            ==> s1.entries@[j] == s0.entries@[j]
}

/// What `on_done` does: `s1` is `s0` after the process `cid` reported
/// `DONE`, with the result `r`.
pub open spec fn done_rel(
    s0: Scheduler,
    s1: Scheduler,
    cid: u16,
    r: Result<Vec<ProcessStateChange>, String>,
) -> bool {
    &&& s1.wf()
    &&& s1.same_graphs(&s0)
    &&& same_shape(s0.entries@, s1.entries@)
    &&& moves_allowed(s0.entries@, s1.entries@)
    &&& !has_cid(s0.entries@, cid) ==> s1.entries@ == s0.entries@ && r
        is Err && r->Err_0@ == process_msg(cid, " does not exist"@)
    &&& forall|i: int|
        0 <= i < s0.entries@.len() && (#[trigger] s0.entries@[i]).cid == cid
            ==> {
            let st = s0.entries@[i].state;
            let afters = if st == ProcessState::Running {
                succ(s0.graph_forward@, cid)
            } else {
                Seq::empty()
            };
            &&& s1.entries@[i].state == done_state(st)
            &&& forall|j: int|
                0 <= j < s0.entries@.len() && j != i ==> {
                    let e = #[trigger] s0.entries@[j];
                    if starts_on_done(e, cid, afters) {
                        &&& s1.entries@[j].state == ProcessState::Running
                        &&& s1.entries@[j].dependency_statuses@ == all_unmet(
                            e.deps(),
                        )
                    } else {
                        &&& s1.entries@[j].state == e.state
                        &&& s1.entries@[j].dependency_statuses@
                            == deps_after_done(e, cid, afters)
                    }
                }
            &&& s1.entries@[i].dependency_statuses@ == deps_after_done(
                s0.entries@[i],
                cid,
                afters,
            )
            &&& if st == ProcessState::Ready || st == ProcessState::Skip {
                r is Err && r->Err_0@ == process_msg(cid, " cannot be done"@)
            } else {
                r is Ok && r->Ok_0@ == seq![
                    ProcessStateChange { cid: cid, before: st, after: done_state(st) },
                ] + started_changes(s0.entries@, cid, afters, afters)
            }
        }
}

/// What `on_start` does: `s1` is `s0` after the cycle trigger of the start
/// point `cid` fired, with the result `r`.
pub open spec fn start_rel(
    s0: Scheduler,
    s1: Scheduler,
    cid: u16,
    r: Result<Vec<ProcessStateChange>, String>,
) -> bool {
    &&& s1.wf()
    &&& s1.same_graphs(&s0)
    &&& same_shape(s0.entries@, s1.entries@)
    &&& moves_allowed(s0.entries@, s1.entries@)
    &&& !s0.graph_start@.contains(cid) ==> s1.entries@ == s0.entries@ && r
        is Err && r->Err_0@ == process_msg(cid, " does not exist"@)
    &&& forall|i: int|
        0 <= i < s0.entries@.len() && (#[trigger] s0.entries@[i]).cid == cid
            && s0.graph_start@.contains(cid) ==> {
            let e0 = s0.entries@;
            let e = s1.entries@;
            let same = s0.graph_forward_same_cycle@;
            let f = same[i]@;
            let all = s0.graph_forward_all@[i]@;
            if !e0[i].deps_met() {
                &&& forall|j: int|
                    0 <= j < e0.len() ==> {
                        &&& (#[trigger] e[j]).state == if f.contains(e0[j].cid) && e0[j].state
                            == ProcessState::Ready {
                            ProcessState::Skip
                        } else {
                            e0[j].state
                        }
                        &&& e[j].dependency_statuses@ == e0[j].dependency_statuses@
                    }
                &&& r is Ok && changes_match(e0, e, r->Ok_0@)
                &&& r->Ok_0@ == shift_log(f, e0, ProcessState::Ready, ProcessState::Skip)
            } else if all_ready(e0, f) {
                &&& forall|j: int|
                    0 <= j < e0.len() ==> {
                        &&& (#[trigger] e[j]).state == if j == i {
                            ProcessState::Running
                        } else {
                            e0[j].state
                        }
                        &&& e[j].dependency_statuses@ == if all.contains(e0[j].cid) {
                            all_unmet(e0[j].deps())
                        } else {
                            e0[j].dependency_statuses@
                        }
                    }
                &&& r is Ok && r->Ok_0@ == seq![
                    ProcessStateChange {
                        cid: cid,
                        before: ProcessState::Ready,
                        after: ProcessState::Running,
                    },
                ]
            } else {
                &&& forall|j: int|
                    0 <= j < e0.len() ==> {
                        &&& (#[trigger] e[j]).state == not_ready_state(e0, same, f, e0[j])
                        &&& e[j].dependency_statuses@ == not_ready_deps(e0, same, f, e0[j])
                    }
                &&& if exists|j: int| 0 <= j < e0.len() && #[trigger] e[j].state != e0[j].state {
                    &&& r is Ok && changes_match(e0, e, r->Ok_0@)
                    &&& r->Ok_0@ == not_ready_log(e0, same, f)
                } else {
                    r is Err && r->Err_0@ == process_msg(cid, " start caused no changes"@)
                }
            }
        }
}


/// The processes that the forward graph lists after `cid` are exactly the
/// entries that depend on `cid`.
pub(crate) proof fn lemma_waiting(s0: Scheduler, cid: u16, j: int)
    requires
        s0.wf(),
        0 <= j < s0.entries@.len(),
    ensures
        succ(s0.graph_forward@, cid).contains(s0.entries@[j].cid) <==> s0.entries@[j].deps().contains(cid),
{
    let e0 = s0.entries@;
    let g = s0.graph_forward@;
    lemma_forward_keys(e0, g);
    reveal(forward_wf);
    if exists|k: int| 0 <= k < g.len() && #[trigger] g[k].0 == cid {
        let k = choose|k: int| 0 <= k < g.len() && #[trigger] g[k].0 == cid;
        lemma_succ_at(g, k);
        let c = e0[j].cid;
        assert(g[k].1@.contains(c) <==> exists|x: int|
            0 <= x < e0.len() && e0[x].cid == c && #[trigger] e0[x].deps().contains(g[k].0));
        if g[k].1@.contains(c) {
            let x = choose|x: int| 0 <= x < e0.len() && e0[x].cid == c && #[trigger] e0[x].deps().contains(g[k].0);
            assert(x == j);
        }
    } else {
        if e0[j].deps().contains(cid) {
            assert(exists|k: int| 0 <= k < g.len() && #[trigger] g[k].0 == cid);
        }
    }
}

/// The process of `e` starts when `cid`, which it depends on, completes.
pub open spec fn starts_after(e: ProcessEntry, cid: u16) -> bool {
    &&& e.cid != cid
    &&& e.deps().contains(cid)
    &&& all_done(mark_dep(e.dependency_statuses@, cid))
    &&& e.is_floating
    &&& e.state == ProcessState::Ready
}

/// What `DONE` from the process `cid`, at the entry `i`, does. From
/// `Ready` or `Skip` it fails. Otherwise the first change is that of the
/// process itself; from `Idle`, `Overrun` or `Late` it is the only one and
/// no other entry changes. From `Running`, every entry that depends on
/// `cid` records it as completed, and those that are floating and `Ready`
/// with all their dependencies completed start, with their dependencies
/// reset; the other changes are exactly those starts, each once; no other
/// entry changes its state.
#[verifier::rlimit(80)]
pub proof fn lemma_done_law(
    s0: Scheduler,
    s1: Scheduler,
    cid: u16,
    r: Result<Vec<ProcessStateChange>, String>,
    i: int,
)
    requires
        s0.wf(),
        done_rel(s0, s1, cid, r),
        0 <= i < s0.entries@.len(),
        s0.entries@[i].cid == cid,
    ensures
        ({
            let e0 = s0.entries@;
            let e1 = s1.entries@;
            let st = e0[i].state;
            &&& r is Err <==> (st == ProcessState::Ready || st == ProcessState::Skip)
            &&& e1[i].state == done_state(st)
            &&& r is Ok ==> r->Ok_0@.len() >= 1 && r->Ok_0@[0] == (ProcessStateChange {
                cid: cid,
                before: st,
                after: done_state(st),
            })
            &&& st != ProcessState::Running ==> {
                &&& r is Ok ==> r->Ok_0@.len() == 1
                &&& forall|j: int|
                    0 <= j < e0.len() && j != i ==> (#[trigger] e1[j]).state == e0[j].state
                        && e1[j].dependency_statuses@ == e0[j].dependency_statuses@
            }
            &&& st == ProcessState::Running ==> {
                &&& forall|j: int|
                    0 <= j < e0.len() && j != i ==> if starts_after(#[trigger] e0[j], cid) {
                        &&& e1[j].state == ProcessState::Running
                        &&& e1[j].dependency_statuses@ == all_unmet(e0[j].deps())
                    } else {
                        &&& e1[j].state == e0[j].state
                        &&& e1[j].dependency_statuses@ == if e0[j].deps().contains(cid) {
                            mark_dep(e0[j].dependency_statuses@, cid)
                        } else {
                            e0[j].dependency_statuses@
                        }
                    }
                &&& forall|a: int|
                    1 <= a < r->Ok_0@.len() ==> exists|j: int|
                        0 <= j < e0.len() && j != i && #[trigger] e0[j].cid == (#[trigger] r->Ok_0@[a]).cid
                            && starts_after(e0[j], cid) && r->Ok_0@[a].before == ProcessState::Ready
                            && r->Ok_0@[a].after == ProcessState::Running
                &&& forall|j: int|
                    0 <= j < e0.len() && j != i && #[trigger] starts_after(e0[j], cid) ==> exists|a: int|
                        1 <= a < r->Ok_0@.len() && r->Ok_0@[a].cid == e0[j].cid
                &&& forall|a: int, b: int|
                    0 <= a < b < r->Ok_0@.len() ==> #[trigger] r->Ok_0@[a].cid != #[trigger] r->Ok_0@[b].cid
            }
        }),
{
    let e0 = s0.entries@;
    let e1 = s1.entries@;
    let st = e0[i].state;
    let afters = if st == ProcessState::Running {
        succ(s0.graph_forward@, cid)
    } else {
        Seq::empty()
    };
    assert forall|j: int| 0 <= j < e0.len() implies (afters.contains(#[trigger] e0[j].cid) <==> (st
        == ProcessState::Running && e0[j].deps().contains(cid))) by {
        lemma_waiting(s0, cid, j);
    }
    if r is Ok && st == ProcessState::Running {
        lemma_done_running_log(s0, s1, cid, r, i);
    }
}

/// The change log of `DONE` from the running process `cid`: after its own
/// change, exactly the dependents that start, each once.
#[verifier::rlimit(40)]
proof fn lemma_done_running_log(
    s0: Scheduler,
    s1: Scheduler,
    cid: u16,
    r: Result<Vec<ProcessStateChange>, String>,
    i: int,
)
    requires
        s0.wf(),
        done_rel(s0, s1, cid, r),
        0 <= i < s0.entries@.len(),
        s0.entries@[i].cid == cid,
        s0.entries@[i].state == ProcessState::Running,
        r is Ok,
    ensures
        ({
            let e0 = s0.entries@;
            &&& forall|a: int|
                1 <= a < r->Ok_0@.len() ==> exists|j: int|
                    0 <= j < e0.len() && j != i && #[trigger] e0[j].cid == (#[trigger] r->Ok_0@[a]).cid
                        && starts_after(e0[j], cid) && r->Ok_0@[a].before == ProcessState::Ready
                        && r->Ok_0@[a].after == ProcessState::Running
            &&& forall|j: int|
                0 <= j < e0.len() && j != i && #[trigger] starts_after(e0[j], cid) ==> exists|a: int|
                    1 <= a < r->Ok_0@.len() && r->Ok_0@[a].cid == e0[j].cid
            &&& forall|a: int, b: int|
                0 <= a < b < r->Ok_0@.len() ==> #[trigger] r->Ok_0@[a].cid != #[trigger] r->Ok_0@[b].cid
        }),
{
    let e0 = s0.entries@;
    let afters = succ(s0.graph_forward@, cid);
    assert forall|j: int| 0 <= j < e0.len() implies (afters.contains(#[trigger] e0[j].cid) <==> e0[j].deps().contains(cid)) by {
        lemma_waiting(s0, cid, j);
    }
    let chs = r->Ok_0@;
    let sc = started_changes(e0, cid, afters, afters);
    lemma_started_in(e0, cid, afters, afters);
    assert forall|a: int| 1 <= a < chs.len() implies exists|j: int|
        0 <= j < e0.len() && j != i && #[trigger] e0[j].cid == (#[trigger] chs[a]).cid
            && starts_after(e0[j], cid) && chs[a].before == ProcessState::Ready && chs[a].after
            == ProcessState::Running by {
        assert(chs[a] == sc[a - 1]);
        let c = chs[a].cid;
        let j = choose|j: int| 0 <= j < e0.len() && #[trigger] e0[j].cid == c;
        lemma_entry_of(e0, j);
        assert(e0[j].cid == chs[a].cid);
    }
    lemma_succ_no_dups(s0, cid);
    lemma_started_cover(e0, cid, afters, afters);
    assert forall|j: int| 0 <= j < e0.len() && j != i && #[trigger] starts_after(e0[j], cid) implies exists|a: int|
        1 <= a < chs.len() && chs[a].cid == e0[j].cid by {
        lemma_entry_of(e0, j);
        assert(afters.contains(e0[j].cid));
        assert(starts_on_done(entry_of(e0, e0[j].cid), cid, afters));
        let b = choose|b: int| 0 <= b < sc.len() && #[trigger] sc[b].cid == e0[j].cid;
        assert(chs[b + 1] == sc[b]);
    }
    assert forall|a: int, b: int| 0 <= a < b < chs.len() implies #[trigger] chs[a].cid != #[trigger] chs[b].cid by {
        assert(chs[b] == sc[b - 1]);
        if a == 0 {
            let c = chs[b].cid;
            let j = choose|j: int| 0 <= j < e0.len() && #[trigger] e0[j].cid == c;
            lemma_entry_of(e0, j);
        } else {
            assert(chs[a] == sc[a - 1]);
        }
    }
}

/// The processes that the forward graph lists after `cid` are listed once.
proof fn lemma_succ_no_dups(s0: Scheduler, cid: u16)
    requires
        s0.wf(),
    ensures
        succ(s0.graph_forward@, cid).no_duplicates(),
{
    let g = s0.graph_forward@;
    lemma_forward_keys(s0.entries@, g);
    reveal(forward_wf);
    if exists|k: int| 0 <= k < g.len() && #[trigger] g[k].0 == cid {
        let k = choose|k: int| 0 <= k < g.len() && #[trigger] g[k].0 == cid;
        lemma_succ_at(g, k);
        assert(g[k].1@.no_duplicates());
    }
}

/// Every process of `list` that starts has a change in `started_changes`,
/// each change is of a process of `list`, and when `list` holds no process
/// twice no two changes are of the same process.
proof fn lemma_started_cover(entries: Seq<ProcessEntry>, cid: u16, afters: Seq<u16>, list: Seq<u16>)
    ensures
        forall|b: int|
            0 <= b < started_changes(entries, cid, afters, list).len() ==> list.contains(
                (#[trigger] started_changes(entries, cid, afters, list)[b]).cid,
            ),
        forall|c: u16|
            list.contains(c) && has_cid(entries, c) && starts_on_done(entry_of(entries, c), cid, afters)
                ==> exists|b: int|
                0 <= b < started_changes(entries, cid, afters, list).len() && (#[trigger] started_changes(
                    entries,
                    cid,
                    afters,
                    list,
                )[b]).cid == c,
        list.no_duplicates() ==> forall|a: int, b: int|
            0 <= a < b < started_changes(entries, cid, afters, list).len() ==> (#[trigger] started_changes(
                entries,
                cid,
                afters,
                list,
            )[a]).cid != (#[trigger] started_changes(entries, cid, afters, list)[b]).cid,
    decreases list.len(),
{
    if list.len() > 0 {
        let pre = list.drop_last();
        let x = list.last();
        lemma_started_cover(entries, cid, afters, pre);
        let sp = started_changes(entries, cid, afters, pre);
        let sa = started_changes(entries, cid, afters, list);
        assert forall|b: int| 0 <= b < sa.len() implies list.contains((#[trigger] sa[b]).cid) by {
            if b < sp.len() {
                assert(sa[b] == sp[b]);
                let q = choose|q: int| 0 <= q < pre.len() && pre[q] == sp[b].cid;
                assert(list[q] == pre[q]);
            } else {
                assert(list[list.len() - 1] == x);
            }
        }
        assert forall|c: u16|
            list.contains(c) && has_cid(entries, c) && starts_on_done(entry_of(entries, c), cid, afters)
                implies exists|b: int| 0 <= b < sa.len() && (#[trigger] sa[b]).cid == c by {
            let q = choose|q: int| 0 <= q < list.len() && list[q] == c;
            if q < pre.len() {
                assert(pre[q] == c);
                let b = choose|b: int| 0 <= b < sp.len() && (#[trigger] sp[b]).cid == c;
                assert(sa[b] == sp[b]);
            } else {
                assert(sa[sa.len() - 1].cid == c);
            }
        }
        if list.no_duplicates() {
            assert(pre.no_duplicates());
            assert forall|a: int, b: int| 0 <= a < b < sa.len() implies (#[trigger] sa[a]).cid != (
            #[trigger] sa[b]).cid by {
                assert(sa[a] == sp[a]);
                if b < sp.len() {
                    assert(sa[b] == sp[b]);
                } else {
                    assert(sa[b].cid == x);
                    if sp[a].cid == x {
                        let q = choose|q: int| 0 <= q < pre.len() && pre[q] == sp[a].cid;
                        assert(list[q] == list[list.len() - 1]);
                    }
                }
            }
        }
    }
}

/// Each change of `started_changes` is a start of an entry that starts.
proof fn lemma_started_in(entries: Seq<ProcessEntry>, cid: u16, afters: Seq<u16>, list: Seq<u16>)
    ensures
        forall|b: int|
            0 <= b < started_changes(entries, cid, afters, list).len() ==> {
                let ch = #[trigger] started_changes(entries, cid, afters, list)[b];
                &&& ch.before == ProcessState::Ready
                &&& ch.after == ProcessState::Running
                &&& has_cid(entries, ch.cid)
                &&& starts_on_done(entry_of(entries, ch.cid), cid, afters)
            },
    decreases list.len(),
{
    if list.len() > 0 {
        lemma_started_in(entries, cid, afters, list.drop_last());
        let pre = started_changes(entries, cid, afters, list.drop_last());
        let all = started_changes(entries, cid, afters, list);
        assert forall|b: int| 0 <= b < all.len() implies {
            let ch = #[trigger] all[b];
            &&& ch.before == ProcessState::Ready
            &&& ch.after == ProcessState::Running
            &&& has_cid(entries, ch.cid)
            &&& starts_on_done(entry_of(entries, ch.cid), cid, afters)
        } by {
            if b < pre.len() {
                assert(all[b] == pre[b]);
            }
        }
    }
}


/// What is reached from what `x` reaches is reached from `x`.
pub(crate) proof fn lemma_reaches_trans(
    entries: Seq<ProcessEntry>,
    g: Seq<(u16, Vec<u16>)>,
    sc: bool,
    x: u16,
    c: u16,
    y: u16,
)
    requires
        x == c || reaches(entries, g, sc, x, c),
        reaches(entries, g, sc, c, y),
    ensures
        reaches(entries, g, sc, x, y),
{
    let q = choose|q: Seq<u16>|
        #![trigger is_walk(entries, g, sc, q)]
        q.len() >= 2 && q[0] == c && q.last() == y && is_walk(entries, g, sc, q);
    lemma_reaches_along(entries, g, sc, x, q, q.len() - 1);
}

proof fn lemma_reaches_along(
    entries: Seq<ProcessEntry>,
    g: Seq<(u16, Vec<u16>)>,
    sc: bool,
    x: u16,
    q: Seq<u16>,
    k: int,
)
    requires
        1 <= k < q.len(),
        x == q[0] || reaches(entries, g, sc, x, q[0]),
        is_walk(entries, g, sc, q),
    ensures
        reaches(entries, g, sc, x, q[k]),
    decreases k,
{
    assert(step(entries, g, sc, q[k - 1], q[k]));
    if k > 1 {
        lemma_reaches_along(entries, g, sc, x, q, k - 1);
    }
    lemma_walk_extend(entries, g, sc, x, q[k - 1], q[k]);
}

/// A log of one start of the `Ready` entry `i` matches a change of that
/// entry alone.
proof fn lemma_single_start_match(e0: Seq<ProcessEntry>, e: Seq<ProcessEntry>, i: int)
    requires
        e0.len() == e.len(),
        0 <= i < e0.len(),
        e0[i].state == ProcessState::Ready,
        e[i].state == ProcessState::Running,
        forall|j: int| 0 <= j < e0.len() && j != i ==> (#[trigger] e[j]).state == e0[j].state,
    ensures
        changes_match(
            e0,
            e,
            seq![ProcessStateChange { cid: e0[i].cid, before: ProcessState::Ready, after: ProcessState::Running }],
        ),
{
    reveal(changes_match);
    let chs = seq![ProcessStateChange { cid: e0[i].cid, before: ProcessState::Ready, after: ProcessState::Running }];
    assert forall|a: int| 0 <= a < chs.len() implies exists|j: int|
        0 <= j < e0.len() && #[trigger] e0[j].cid == (#[trigger] chs[a]).cid && chs[a].before == e0[j].state
            && chs[a].after == e[j].state && e0[j].state != e[j].state by {
        assert(e0[i].cid == chs[a].cid);
    }
    assert forall|j: int| 0 <= j < e0.len() && (#[trigger] e[j]).state != e0[j].state implies exists|a: int|
        0 <= a < chs.len() && #[trigger] chs[a].cid == e0[j].cid by {
        assert(chs[0].cid == e0[j].cid);
    }
}

/// A same-cycle dependent of a process of the group of `cid` is in the
/// group of `cid`.
proof fn lemma_dependent_in_group(s0: Scheduler, cid: u16, c: u16, x: u16)
    requires
        s0.wf(),
        c == cid || reaches(s0.entries@, s0.graph_forward@, true, cid, c),
        has_cid(s0.entries@, c),
        same_of(s0.entries@, s0.graph_forward_same_cycle@, c).skip(1).contains(x),
    ensures
        x == cid || reaches(s0.entries@, s0.graph_forward@, true, cid, x),
{
    let e0 = s0.entries@;
    let same = s0.graph_forward_same_cycle@;
    let kk = choose|kk: int| 0 <= kk < e0.len() && #[trigger] e0[kk].cid == c;
    assert(is_forward_closure(e0, s0.graph_forward@, true, e0[kk].cid, true, same[kk]@));
    let sk = same_of(e0, same, c).skip(1);
    let w = choose|w: int| 0 <= w < sk.len() && sk[w] == x;
    assert(same_of(e0, same, c)[w + 1] == x);
    assert(same_of(e0, same, c).contains(x));
    if x != c {
        lemma_reaches_trans(e0, s0.graph_forward@, true, cid, c, x);
    }
}

/// What a cycle start of the start point `cid` that succeeds does: `cid`
/// is an entry that does not float; the change log lists each process whose
/// state changed exactly once, with its state before and after
/// (`changes_match`), each an allowed move; and only processes of the
/// same-cycle group of `cid` (itself and the floating processes it reaches
/// through floating ones) change their state.
pub proof fn lemma_start_law(s0: Scheduler, s1: Scheduler, cid: u16, r: Result<Vec<ProcessStateChange>, String>)
    requires
        s0.wf(),
        start_rel(s0, s1, cid, r),
        r is Ok,
    ensures
        exists|i: int| 0 <= i < s0.entries@.len() && #[trigger] s0.entries@[i].cid == cid && !s0.entries@[i].is_floating,
        changes_match(s0.entries@, s1.entries@, r->Ok_0@),
        moves_allowed(s0.entries@, s1.entries@),
        forall|j: int|
            0 <= j < s0.entries@.len() && !(s0.entries@[j].cid == cid || reaches(
                s0.entries@,
                s0.graph_forward@,
                true,
                cid,
                s0.entries@[j].cid,
            )) ==> (#[trigger] s1.entries@[j]).state == s0.entries@[j].state,
{
    let e0 = s0.entries@;
    let e = s1.entries@;
    let chs = r->Ok_0@;
    let g = s0.graph_forward@;
    assert(s0.graph_start@.contains(cid));
    lemma_start_points(e0, cid);
    let i = choose|i: int| 0 <= i < e0.len() && #[trigger] e0[i].cid == cid && !e0[i].is_floating;
    let same = s0.graph_forward_same_cycle@;
    let f = same[i]@;
    assert(is_forward_closure(e0, g, true, e0[i].cid, true, f));
    assert(0 <= i < s0.entries@.len() && s0.entries@[i].cid == cid && s0.graph_start@.contains(cid));
    if !e0[i].deps_met() {
    } else if all_ready(e0, f) {
        assert(f[0] == cid);
        assert(entry_of(e0, f[0]).state == ProcessState::Ready);
        lemma_entry_of(e0, i);
        lemma_single_start_match(e0, e, i);
        assert(chs =~= seq![
            ProcessStateChange { cid: e0[i].cid, before: ProcessState::Ready, after: ProcessState::Running },
        ]);
    } else {
        assert(exists|j: int| 0 <= j < e0.len() && #[trigger] e[j].state != e0[j].state);
        let ovr = cids_in_state(e0, f, ProcessState::Running);
        assert forall|j: int|
            0 <= j < e0.len() && !(e0[j].cid == cid || reaches(e0, g, true, cid, e0[j].cid)) implies (
            #[trigger] e[j]).state == e0[j].state by {
            assert(e[j].state == not_ready_state(e0, same, f, e0[j]));
            let x = e0[j].cid;
            if e0[j].state == ProcessState::Ready && overrun_dependent(e0, same, ovr, x) {
                let m = choose|m: int| 0 <= m < ovr.len() && #[trigger] same_of(e0, same, ovr[m]).skip(1).contains(x);
                let c = ovr[m];
                lemma_cids_in_state(e0, f, ProcessState::Running, c);
                assert(ovr.contains(c));
                lemma_dependent_in_group(s0, cid, c, x);
            }
        }
    }
}

} // verus!
