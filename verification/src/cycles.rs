//! Why the validation of a scheduler configuration catches every circular
//! dependency among clients that run in the same cycle with the same offset.
//!
//! The depth-first search of `SchedulerConfig::validate` is stated exactly
//! by `dfs_node`. Here it is shown that a search that ends without any error
//! has ranked the clients so that each dependency it follows leads to a
//! client of smaller rank, which no circular chain of dependencies allows.
use vstd::prelude::*;

use crate::config::{
    client_phase, cycle_phase, dfs_deps, dfs_node, duplicate_errors, first_index, has_client,
    last_index, lemma_first_index, lemma_last_index, lemma_unvisited_insert, lemma_unvisited_mono,
    add_unique, note_cycle, report, same_group, validation_errors, ClientConfig, VisitState,
    client_errors, depend_errors,
};
use crate::message::CLIENT_ID_MAX;

verus! {

/// The client `y` is a dependency of the client `x` that runs in the same
/// cycle with the same offset: a dependency that the cycle search follows.
pub open spec fn group_edge(cfgs: Seq<ClientConfig>, x: u16, y: u16) -> bool {
    exists|i: int, k: int|
        last_index(cfgs, x) == Some(i) && 0 <= k < cfgs[i].depends@.len() && #[trigger] cfgs[i].depends@[k]
            == y && match last_index(cfgs, y) {
            Some(j) => same_group(cfgs[j], cfgs[i]),
            None => false,
        }
}

/// The client after position `i` of the chain `c`, the first after the last.
pub open spec fn next_in(c: Seq<u16>, i: int) -> u16 {
    if i + 1 < c.len() {
        c[i + 1]
    } else {
        c[0]
    }
}

/// `c` is a circular chain of such dependencies: each client depends on the
/// next, and the last on the first.
pub open spec fn is_group_cycle(cfgs: Seq<ClientConfig>, c: Seq<u16>) -> bool {
    &&& c.len() > 0
    &&& forall|i: int| 0 <= i < c.len() ==> #[trigger] group_edge(cfgs, c[i], next_in(c, i))
}

/// Each client of the path `p` depends on the next one, within its cycle
/// and offset.
pub open spec fn chain(cfgs: Seq<ClientConfig>, p: Seq<u16>) -> bool {
    forall|i: int| 0 < i < p.len() ==> group_edge(cfgs, p[i - 1], #[trigger] p[i])
}

/// No clients of one cycle and offset depend on each other in a circle.
pub open spec fn no_group_cycle(cfgs: Seq<ClientConfig>) -> bool {
    forall|c: Seq<u16>| !#[trigger] is_group_cycle(cfgs, c)
}

/// No client has an error.
pub open spec fn no_errors(errors: Map<u16, Seq<Seq<char>>>) -> bool {
    forall|x: u16| !errors.contains_key(x)
}

/// The search so far has met no cycle: the clients being visited are those
/// on the path, none is marked as on a cycle, and each dependency followed
/// out of a visited client leads to a visited client of smaller rank.
pub open spec fn clean(
    cfgs: Seq<ClientConfig>,
    visit: Map<u16, VisitState>,
    path: Seq<u16>,
    rank: spec_fn(u16) -> nat,
) -> bool {
    &&& forall|x: u16| #[trigger] visit.contains_key(x) ==> visit[x] != VisitState::HasCycle
    &&& forall|x: u16|
        #[trigger] visit.contains_key(x) && visit[x] == VisitState::Visiting ==> path.contains(x)
    &&& forall|x: u16| #[trigger] path.contains(x) ==> visit.contains_key(x) && visit[x] == VisitState::Visiting
    &&& forall|x: u16, y: u16|
        #![trigger visit.contains_key(x), group_edge(cfgs, x, y)]
        visit.contains_key(x) && visit[x] == VisitState::Visited && group_edge(cfgs, x, y) ==> {
            &&& visit.contains_key(y)
            &&& visit[y] == VisitState::Visited
            &&& rank(y) < rank(x)
        }
}

/// The states of `a` are kept in `b`.
pub open spec fn kept(a: Map<u16, VisitState>, b: Map<u16, VisitState>) -> bool {
    forall|x: u16| #[trigger] a.contains_key(x) ==> b.contains_key(x) && b[x] == a[x]
}

/// Errors once recorded stay.
pub open spec fn errors_grow(a: Map<u16, Seq<Seq<char>>>, b: Map<u16, Seq<Seq<char>>>) -> bool {
    forall|x: u16| #[trigger] a.contains_key(x) ==> b.contains_key(x)
}

proof fn lemma_note_cycle_grows(errors: Map<u16, Seq<Seq<char>>>, cyc: Seq<u16>, msg: Seq<char>)
    ensures
        errors_grow(errors, note_cycle(errors, cyc, msg)),
        cyc.len() > 0 ==> note_cycle(errors, cyc, msg).contains_key(cyc.last()),
    decreases cyc.len(),
{
    if cyc.len() > 0 {
        lemma_note_cycle_grows(errors, cyc.drop_last(), msg);
    }
}

/// Reporting keeps the errors, and adds one when the target is on the path.
proof fn lemma_report_grows(
    visit: Map<u16, VisitState>,
    errors: Map<u16, Seq<Seq<char>>>,
    path: Seq<u16>,
    target: u16,
)
    ensures
        errors_grow(errors, report(visit, errors, path, target).1),
        path.contains(target) ==> !no_errors(report(visit, errors, path, target).1),
{
    lemma_first_index(path, target);
    match first_index(path, target) {
        Some(pos) => {
            let cyc = path.skip(pos);
            lemma_note_cycle_grows(errors, cyc, crate::config::cycle_text(cyc, target));
            assert(note_cycle(errors, cyc, crate::config::cycle_text(cyc, target)).contains_key(
                cyc.last(),
            ));
        },
        None => {
            if path.contains(target) {
                let j = choose|j: int| 0 <= j < path.len() && path[j] == target;
                assert(path[j] == target);
            }
        },
    }
}

/// The search from a client keeps every error recorded before it.
proof fn lemma_dfs_node_grows(
    cfgs: Seq<ClientConfig>,
    visit: Map<u16, VisitState>,
    errors: Map<u16, Seq<Seq<char>>>,
    path: Seq<u16>,
    cid: u16,
)
    ensures
        errors_grow(errors, dfs_node(cfgs, visit, errors, path, cid).1),
    decreases crate::config::unvisited(cfgs, visit), 1int, 0int,
{
    let v1 = visit.insert(cid, VisitState::Visiting);
    match last_index(cfgs, cid) {
        Some(i) => {
            if crate::config::unvisited(cfgs, v1) < crate::config::unvisited(cfgs, visit) {
                lemma_dfs_deps_grows(cfgs, v1, errors, path.push(cid), i, 0, false);
            }
        },
        None => {},
    }
}

/// The search over the dependencies of a client keeps every error recorded
/// before it.
proof fn lemma_dfs_deps_grows(
    cfgs: Seq<ClientConfig>,
    visit: Map<u16, VisitState>,
    errors: Map<u16, Seq<Seq<char>>>,
    path: Seq<u16>,
    node: int,
    k: int,
    found: bool,
)
    ensures
        errors_grow(errors, dfs_deps(cfgs, visit, errors, path, node, k, found).1),
    decreases crate::config::unvisited(cfgs, visit), 2int, cfgs[node].depends@.len() - k,
{
    if !(0 <= node < cfgs.len()) || k < 0 || k >= cfgs[node].depends@.len() {
    } else {
        let c = cfgs[node];
        let d = c.depends@[k];
        match last_index(cfgs, d) {
            None => lemma_dfs_deps_grows(cfgs, visit, errors, path, node, k + 1, found),
            Some(di) => if !same_group(cfgs[di], c) {
                lemma_dfs_deps_grows(cfgs, visit, errors, path, node, k + 1, found)
            } else if !visit.contains_key(d) {
                let r = dfs_node(cfgs, visit, errors, path, d);
                lemma_dfs_node_grows(cfgs, visit, errors, path, d);
                if crate::config::unvisited(cfgs, r.0) <= crate::config::unvisited(cfgs, visit) {
                    lemma_dfs_deps_grows(cfgs, r.0, r.1, path, node, k + 1, found || r.2);
                }
            } else if visit[d] == VisitState::Visiting {
                let r = report(visit, errors, path, d);
                lemma_report_grows(visit, errors, path, d);
                if crate::config::unvisited(cfgs, r.0) <= crate::config::unvisited(cfgs, visit) {
                    lemma_dfs_deps_grows(cfgs, r.0, r.1, path, node, k + 1, true);
                }
            } else if visit[d] == VisitState::HasCycle {
                lemma_dfs_deps_grows(cfgs, visit, errors, path, node, k + 1, true)
            } else {
                lemma_dfs_deps_grows(cfgs, visit, errors, path, node, k + 1, found)
            },
        }
    }
}

/// The search from the first `n` clients keeps every error recorded before
/// it.
proof fn lemma_cycle_phase_grows(
    cfgs: Seq<ClientConfig>,
    visit: Map<u16, VisitState>,
    errors: Map<u16, Seq<Seq<char>>>,
    n: nat,
)
    ensures
        errors_grow(errors, cycle_phase(cfgs, visit, errors, n).1),
    decreases n,
{
    if n > 0 {
        lemma_cycle_phase_grows(cfgs, visit, errors, (n - 1) as nat);
        let r = cycle_phase(cfgs, visit, errors, (n - 1) as nat);
        let id = cfgs[n - 1].client_id;
        if !r.0.contains_key(id) {
            lemma_dfs_node_grows(cfgs, r.0, r.1, Seq::empty(), id);
        }
    }
}

/// The largest rank of the clients in `ds`, 0 for none.
pub open spec fn max_rank(rank: spec_fn(u16) -> nat, ds: Seq<u16>) -> nat
    decreases ds.len(),
{
    if ds.len() == 0 {
        0
    } else {
        let m = max_rank(rank, ds.drop_last());
        if rank(ds.last()) > m {
            rank(ds.last())
        } else {
            m
        }
    }
}

proof fn lemma_max_rank(rank: spec_fn(u16) -> nat, ds: Seq<u16>, k: int)
    requires
        0 <= k < ds.len(),
    ensures
        rank(ds[k]) <= max_rank(rank, ds),
    decreases ds.len(),
{
    if k < ds.len() - 1 {
        lemma_max_rank(rank, ds.drop_last(), k);
        assert(ds.drop_last()[k] == ds[k]);
    }
}

/// The `j`-th dependency of the client at `node`, when the search follows
/// it, has been visited.
pub open spec fn dep_done(cfgs: Seq<ClientConfig>, visit: Map<u16, VisitState>, node: int, j: int) -> bool {
    let d = cfgs[node].depends@[j];
    match last_index(cfgs, d) {
        Some(di) => same_group(cfgs[di], cfgs[node]) ==> visit.contains_key(d) && visit[d]
            == VisitState::Visited,
        None => true,
    }
}

/// The `k`-th dependency of the client `x`, found at `node`, is followed
/// when it runs in the same cycle and offset.
proof fn lemma_edge(cfgs: Seq<ClientConfig>, x: u16, node: int, k: int)
    requires
        last_index(cfgs, x) == Some(node),
        0 <= k < cfgs[node].depends@.len(),
        match last_index(cfgs, cfgs[node].depends@[k]) {
            Some(j) => same_group(cfgs[j], cfgs[node]),
            None => false,
        },
    ensures
        group_edge(cfgs, x, cfgs[node].depends@[k]),
{
}

/// A path of dependencies whose last client depends on a client of the path
/// closes a circle.
proof fn lemma_closed_chain(cfgs: Seq<ClientConfig>, path: Seq<u16>, d: u16)
    requires
        chain(cfgs, path),
        path.contains(d),
        path.len() > 0,
        group_edge(cfgs, path.last(), d),
    ensures
        !no_group_cycle(cfgs),
{
    let pos = choose|pos: int| 0 <= pos < path.len() && path[pos] == d;
    let c = path.skip(pos);
    assert forall|i: int| 0 <= i < c.len() implies #[trigger] group_edge(cfgs, c[i], next_in(c, i)) by {
        if i + 1 < c.len() {
            assert(c[i] == path[pos + i] && c[i + 1] == path[pos + i + 1]);
            assert(group_edge(cfgs, path[pos + i + 1 - 1], path[pos + i + 1]));
        } else {
            assert(c[i] == path.last());
            assert(c[0] == d);
        }
    }
    assert(is_group_cycle(cfgs, c));
}

/// A search from an unvisited client that ends without any error leaves it
/// visited, keeps the states met before, and keeps the search clean.
proof fn lemma_dfs_node_clean(
    cfgs: Seq<ClientConfig>,
    visit: Map<u16, VisitState>,
    errors: Map<u16, Seq<Seq<char>>>,
    path: Seq<u16>,
    cid: u16,
    rank: spec_fn(u16) -> nat,
) -> (rank2: spec_fn(u16) -> nat)
    requires
        !visit.contains_key(cid),
        has_client(cfgs, cid),
        no_errors(errors),
        clean(cfgs, visit, path, rank),
        chain(cfgs, path),
        path.len() > 0 ==> group_edge(cfgs, path.last(), cid),
    ensures
        ({
            let r = dfs_node(cfgs, visit, errors, path, cid);
            &&& no_group_cycle(cfgs) ==> no_errors(r.1)
            &&& no_errors(r.1) ==> {
                &&& clean(cfgs, r.0, path, rank2)
                &&& kept(visit, r.0)
                &&& r.0.contains_key(cid)
                &&& r.0[cid] == VisitState::Visited
                &&& !r.2
            }
        }),
    decreases crate::config::unvisited(cfgs, visit), 1int, 0int,
{
    let v1 = visit.insert(cid, VisitState::Visiting);
    lemma_last_index(cfgs, cid);
    let i = last_index(cfgs, cid)->0;
    lemma_unvisited_insert(cfgs, visit, cid, VisitState::Visiting);
    let p1 = path.push(cid);
    assert forall|x: u16| p1.contains(x) <==> (path.contains(x) || x == cid) by {
        if p1.contains(x) {
            let j = choose|j: int| 0 <= j < p1.len() && p1[j] == x;
            if j < path.len() {
                assert(path[j] == x);
            }
        }
        if path.contains(x) {
            let j = choose|j: int| 0 <= j < path.len() && path[j] == x;
            assert(p1[j] == x);
        }
        if x == cid {
            assert(p1[path.len() as int] == x);
        }
    }
    assert(chain(cfgs, p1)) by {
        assert forall|j: int| 0 < j < p1.len() implies group_edge(cfgs, p1[j - 1], #[trigger] p1[j]) by {
            if j < path.len() {
                assert(p1[j - 1] == path[j - 1] && p1[j] == path[j]);
            } else {
                assert(p1[j - 1] == path.last());
            }
        }
    }
    assert(clean(cfgs, v1, p1, rank)) by {
        assert forall|x: u16, y: u16|
            #![trigger v1.contains_key(x), group_edge(cfgs, x, y)]
            v1.contains_key(x) && v1[x] == VisitState::Visited && group_edge(cfgs, x, y) implies {
            &&& v1.contains_key(y)
            &&& v1[y] == VisitState::Visited
            &&& rank(y) < rank(x)
        } by {
            assert(x != cid);
            assert(visit.contains_key(x));
        }
    }
    let rank1 = lemma_dfs_deps_clean(cfgs, v1, errors, p1, i, 0, rank);
    let r = dfs_deps(cfgs, v1, errors, p1, i, 0, false);
    let m = max_rank(rank1, cfgs[i].depends@);
    let rank2 = |x: u16|
        if x == cid {
            m + 1
        } else {
            rank1(x)
        };
    if no_errors(r.1) {
        let fin = r.0.insert(cid, VisitState::Visited);
        assert(dfs_node(cfgs, visit, errors, path, cid) == (fin, r.1, r.2));
        assert forall|x: u16| #[trigger] visit.contains_key(x) implies fin.contains_key(x) && fin[x]
            == visit[x] by {
            assert(v1.contains_key(x));
        }
        assert(!path.contains(cid)) by {
            if path.contains(cid) {
                assert(visit.contains_key(cid));
            }
        }
        assert(r.0.contains_key(cid) && r.0[cid] == VisitState::Visiting) by {
            assert(p1.contains(cid));
        }
        assert forall|x: u16|
            #[trigger] fin.contains_key(x) && fin[x] == VisitState::Visiting implies path.contains(
                x,
            ) by {
            assert(x != cid);
            assert(r.0.contains_key(x) && r.0[x] == VisitState::Visiting);
            assert(p1.contains(x));
        }
        assert forall|x: u16| #[trigger] path.contains(x) implies fin.contains_key(x) && fin[x]
            == VisitState::Visiting by {
            assert(x != cid);
            assert(p1.contains(x));
            assert(r.0.contains_key(x) && r.0[x] == VisitState::Visiting);
        }
        assert forall|x: u16, y: u16|
            #![trigger fin.contains_key(x), group_edge(cfgs, x, y)]
            fin.contains_key(x) && fin[x] == VisitState::Visited && group_edge(cfgs, x, y) implies {
            &&& fin.contains_key(y)
            &&& fin[y] == VisitState::Visited
            &&& rank2(y) < rank2(x)
        } by {
            if x == cid {
                let (i2, k) = choose|i2: int, k: int|
                    last_index(cfgs, cid) == Some(i2) && 0 <= k < cfgs[i2].depends@.len()
                        && #[trigger] cfgs[i2].depends@[k] == y && match last_index(cfgs, y) {
                        Some(j) => same_group(cfgs[j], cfgs[i2]),
                        None => false,
                    };
                assert(i2 == i);
                assert(dep_done(cfgs, r.0, i, k));
                lemma_max_rank(rank1, cfgs[i].depends@, k);
                assert(y != cid);
            } else {
                assert(r.0.contains_key(x));
                assert(r.0[y] == VisitState::Visited);
                assert(y != cid);
            }
        }
        assert forall|x: u16| #[trigger] fin.contains_key(x) implies fin[x] != VisitState::HasCycle by {
            if x != cid {
                assert(r.0.contains_key(x));
            }
        }
        assert(clean(cfgs, fin, path, rank2));
    }
    rank2
}

/// A search over the dependencies of the client at `node`, from the `k`-th
/// on, that ends without any error visits each one it follows, keeps the
/// states met before, and keeps the search clean.
proof fn lemma_dfs_deps_clean(
    cfgs: Seq<ClientConfig>,
    visit: Map<u16, VisitState>,
    errors: Map<u16, Seq<Seq<char>>>,
    path: Seq<u16>,
    node: int,
    k: int,
    rank: spec_fn(u16) -> nat,
) -> (rank2: spec_fn(u16) -> nat)
    requires
        0 <= node < cfgs.len(),
        0 <= k <= cfgs[node].depends@.len(),
        no_errors(errors),
        clean(cfgs, visit, path, rank),
        forall|j: int| 0 <= j < k ==> dep_done(cfgs, visit, node, j),
        chain(cfgs, path),
        path.len() > 0,
        last_index(cfgs, path.last()) == Some(node),
    ensures
        ({
            let r = dfs_deps(cfgs, visit, errors, path, node, k, false);
            &&& no_group_cycle(cfgs) ==> no_errors(r.1)
            &&& no_errors(r.1) ==> {
                &&& clean(cfgs, r.0, path, rank2)
                &&& kept(visit, r.0)
                &&& !r.2
                &&& forall|j: int|
                    0 <= j < cfgs[node].depends@.len() ==> #[trigger] dep_done(cfgs, r.0, node, j)
            }
        }),
    decreases crate::config::unvisited(cfgs, visit), 2int, cfgs[node].depends@.len() - k,
{
    if k >= cfgs[node].depends@.len() {
        rank
    } else {
        let c = cfgs[node];
        let d = c.depends@[k];
        lemma_last_index(cfgs, d);
        match last_index(cfgs, d) {
            None => {
                lemma_dfs_deps_clean(cfgs, visit, errors, path, node, k + 1, rank)
            },
            Some(di) => if !same_group(cfgs[di], c) {
                lemma_dfs_deps_clean(cfgs, visit, errors, path, node, k + 1, rank)
            } else if !visit.contains_key(d) {
                let r = dfs_node(cfgs, visit, errors, path, d);
                assert(has_client(cfgs, d)) by {
                    assert(cfgs[di].client_id == d);
                }
                lemma_edge(cfgs, path.last(), node, k);
                let rank1 = lemma_dfs_node_clean(cfgs, visit, errors, path, d, rank);
                if no_errors(r.1) {
                    lemma_unvisited_mono(cfgs, visit, r.0);
                    assert forall|j: int| 0 <= j < k + 1 implies dep_done(cfgs, r.0, node, j) by {
                        if j < k {
                            assert(dep_done(cfgs, visit, node, j));
                            let dj = cfgs[node].depends@[j];
                            if visit.contains_key(dj) {
                                assert(r.0[dj] == visit[dj]);
                            }
                        }
                    }
                    let rank3 = lemma_dfs_deps_clean(cfgs, r.0, r.1, path, node, k + 1, rank1);
                    let r3 = dfs_deps(cfgs, r.0, r.1, path, node, k + 1, false);
                    assert(dfs_deps(cfgs, visit, errors, path, node, k, false) == r3);
                    if no_errors(r3.1) {
                        assert forall|x: u16| #[trigger] visit.contains_key(x) implies r3.0.contains_key(x)
                            && r3.0[x] == visit[x] by {
                            assert(r.0.contains_key(x));
                        }
                    }
                    rank3
                } else {
                    if crate::config::unvisited(cfgs, r.0) <= crate::config::unvisited(cfgs, visit) {
                        lemma_dfs_deps_grows(cfgs, r.0, r.1, path, node, k + 1, false || r.2);
                    }
                    rank
                }
            } else if visit[d] == VisitState::Visiting {
                let r = report(visit, errors, path, d);
                lemma_report_grows(visit, errors, path, d);
                assert(path.contains(d));
                lemma_edge(cfgs, path.last(), node, k);
                if no_group_cycle(cfgs) {
                    lemma_closed_chain(cfgs, path, d);
                }
                if crate::config::unvisited(cfgs, r.0) <= crate::config::unvisited(cfgs, visit) {
                    lemma_dfs_deps_grows(cfgs, r.0, r.1, path, node, k + 1, true);
                }
                rank
            } else {
                assert(visit[d] == VisitState::Visited);
                lemma_dfs_deps_clean(cfgs, visit, errors, path, node, k + 1, rank)
            },
        }
    }
}

/// The search from each of the first `n` clients, begun with nothing
/// visited, that ends without any error has visited each of them and kept
/// the search clean.
proof fn lemma_cycle_phase_clean(
    cfgs: Seq<ClientConfig>,
    errors: Map<u16, Seq<Seq<char>>>,
    n: nat,
) -> (rank: spec_fn(u16) -> nat)
    requires
        n <= cfgs.len(),
        no_errors(errors),
    ensures
        ({
            let r = cycle_phase(cfgs, Map::empty(), errors, n);
            &&& no_group_cycle(cfgs) ==> no_errors(r.1)
            &&& no_errors(r.1) ==> {
                &&& clean(cfgs, r.0, Seq::empty(), rank)
                &&& forall|j: int|
                    0 <= j < n ==> r.0.contains_key(#[trigger] cfgs[j].client_id) && r.0[cfgs[j].client_id]
                        == VisitState::Visited
            }
        }),
    decreases n,
{
    if n == 0 {
        let rank = |x: u16| 0nat;
        assert(clean(cfgs, Map::<u16, VisitState>::empty(), Seq::<u16>::empty(), rank));
        rank
    } else {
        let rank0 = lemma_cycle_phase_clean(cfgs, errors, (n - 1) as nat);
        let r = cycle_phase(cfgs, Map::empty(), errors, (n - 1) as nat);
        let id = cfgs[n - 1].client_id;
        if !no_errors(r.1) {
            if !r.0.contains_key(id) {
                lemma_dfs_node_grows(cfgs, r.0, r.1, Seq::empty(), id);
            }
            rank0
        } else if r.0.contains_key(id) {
            assert(!Seq::<u16>::empty().contains(id));
            rank0
        } else {
            assert(has_client(cfgs, id)) by {
                assert(cfgs[n - 1].client_id == id);
            }
            let rank1 = lemma_dfs_node_clean(cfgs, r.0, r.1, Seq::empty(), id, rank0);
            let q = dfs_node(cfgs, r.0, r.1, Seq::empty(), id);
            if no_errors(q.1) {
                assert forall|j: int| 0 <= j < n implies q.0.contains_key(#[trigger] cfgs[j].client_id)
                    && q.0[cfgs[j].client_id] == VisitState::Visited by {
                    if j < n - 1 {
                        assert(r.0.contains_key(cfgs[j].client_id));
                    }
                }
            }
            rank1
        }
    }
}

/// Along a circular chain from a visited client of a clean search, each
/// client is visited and of smaller rank than the one before.
proof fn lemma_rank_along(
    cfgs: Seq<ClientConfig>,
    visit: Map<u16, VisitState>,
    rank: spec_fn(u16) -> nat,
    c: Seq<u16>,
    j: int,
)
    requires
        is_group_cycle(cfgs, c),
        clean(cfgs, visit, Seq::empty(), rank),
        visit.contains_key(c[0]),
        visit[c[0]] == VisitState::Visited,
        0 <= j < c.len(),
    ensures
        visit.contains_key(c[j]),
        visit[c[j]] == VisitState::Visited,
        rank(c[j]) + j <= rank(c[0]),
    decreases j,
{
    if j > 0 {
        lemma_rank_along(cfgs, visit, rank, c, j - 1);
        assert(group_edge(cfgs, c[j - 1], next_in(c, j - 1)));
        assert(next_in(c, j - 1) == c[j]);
    }
}

/// A configuration in which clients that run in the same cycle with the
/// same offset depend on each other in a circle never validates.
pub proof fn lemma_group_cycle_rejected(cfgs: Seq<ClientConfig>, c: Seq<u16>)
    requires
        is_group_cycle(cfgs, c),
    ensures
        !validation_errors(cfgs).is_empty(),
{
    let base = client_phase(cfgs, duplicate_errors(cfgs), cfgs.len());
    lemma_cycle_phase_grows(cfgs, Map::empty(), base, cfgs.len());
    let fin = cycle_phase(cfgs, Map::empty(), base, cfgs.len());
    assert(validation_errors(cfgs) == fin.1);
    if !no_errors(base) {
        let x = choose|x: u16| base.contains_key(x);
        assert(fin.1.dom().contains(x));
    } else {
        let rank = lemma_cycle_phase_clean(cfgs, base, cfgs.len());
        if no_errors(fin.1) {
            let n = c.len() as int;
            assert(group_edge(cfgs, c[0], next_in(c, 0)));
            lemma_last_index(cfgs, c[0]);
            let i = last_index(cfgs, c[0])->0;
            assert(fin.0.contains_key(cfgs[i].client_id));
            lemma_rank_along(cfgs, fin.0, rank, c, n - 1);
            assert(group_edge(cfgs, c[n - 1], next_in(c, n - 1)));
            assert(next_in(c, n - 1) == c[0]);
            assert(false);
        } else {
            let x = choose|x: u16| fin.1.contains_key(x);
            assert(fin.1.dom().contains(x));
        }
    }
}

/// No two configurations share a client ID.
pub open spec fn distinct_ids(cfgs: Seq<ClientConfig>) -> bool {
    forall|a: int, b: int|
        0 <= a < b < cfgs.len() ==> #[trigger] cfgs[a].client_id != #[trigger] cfgs[b].client_id
}

/// The duplicate IDs give no error exactly when there is none.
proof fn lemma_duplicate_errors_none(cfgs: Seq<ClientConfig>)
    ensures
        no_errors(duplicate_errors(cfgs)) <==> distinct_ids(cfgs),
    decreases cfgs.len(),
{
    if cfgs.len() > 0 {
        let pre = cfgs.drop_last();
        let id = cfgs.last().client_id;
        lemma_duplicate_errors_none(pre);
        if has_client(pre, id) {
            let a = choose|a: int| 0 <= a < pre.len() && #[trigger] pre[a].client_id == id;
            assert(cfgs[a].client_id == cfgs[cfgs.len() - 1].client_id);
            assert(duplicate_errors(cfgs).contains_key(id));
        } else {
            if distinct_ids(pre) {
                assert forall|a: int, b: int|
                    0 <= a < b < cfgs.len() implies #[trigger] cfgs[a].client_id
                    != #[trigger] cfgs[b].client_id by {
                    if b == cfgs.len() - 1 {
                        if cfgs[a].client_id == id {
                            assert(pre[a].client_id == id);
                        }
                    } else {
                        assert(pre[a] == cfgs[a] && pre[b] == cfgs[b]);
                    }
                }
            }
            if distinct_ids(cfgs) {
                assert forall|a: int, b: int|
                    0 <= a < b < pre.len() implies #[trigger] pre[a].client_id
                    != #[trigger] pre[b].client_id by {
                    assert(pre[a] == cfgs[a] && pre[b] == cfgs[b]);
                }
            }
        }
    }
}

/// The checks of the clients themselves give no error exactly when the
/// base has none and no client of the first `n` has an error.
#[verifier::rlimit(30)]
proof fn lemma_client_phase_none(cfgs: Seq<ClientConfig>, base: Map<u16, Seq<Seq<char>>>, n: nat)
    requires
        n <= cfgs.len(),
    ensures
        no_errors(client_phase(cfgs, base, n)) <==> no_errors(base) && forall|i: int|
            0 <= i < n ==> crate::config::config_errors(cfgs, #[trigger] cfgs[i]).len() == 0,
    decreases n,
{
    if n > 0 {
        lemma_client_phase_none(cfgs, base, (n - 1) as nat);
        let c = cfgs[n - 1];
        if crate::config::config_errors(cfgs, c).len() > 0 {
            assert(client_phase(cfgs, base, n).contains_key(c.client_id));
        }
    }
}

/// Validation finds no error exactly when no client ID repeats, no client
/// has an error of its own or of its dependencies, and no clients that run
/// in the same cycle with the same offset depend on each other in a circle.
pub proof fn lemma_validation_exact(cfgs: Seq<ClientConfig>)
    ensures
        validation_errors(cfgs).is_empty() <==> {
            &&& distinct_ids(cfgs)
            &&& forall|i: int|
                0 <= i < cfgs.len() ==> crate::config::config_errors(cfgs, #[trigger] cfgs[i]).len()
                    == 0
            &&& no_group_cycle(cfgs)
        },
{
    let base = client_phase(cfgs, duplicate_errors(cfgs), cfgs.len());
    lemma_duplicate_errors_none(cfgs);
    lemma_client_phase_none(cfgs, duplicate_errors(cfgs), cfgs.len());
    lemma_cycle_phase_grows(cfgs, Map::empty(), base, cfgs.len());
    let fin = cycle_phase(cfgs, Map::empty(), base, cfgs.len());
    assert(validation_errors(cfgs) == fin.1);
    assert(validation_errors(cfgs).is_empty() <==> no_errors(fin.1)) by {
        if !no_errors(fin.1) {
            let x = choose|x: u16| fin.1.contains_key(x);
            assert(fin.1.dom().contains(x));
        } else {
            assert(fin.1.dom() =~= Set::<u16>::empty());
        }
    }
    if no_errors(fin.1) {
        assert(no_errors(base));
        assert forall|c: Seq<u16>| !#[trigger] is_group_cycle(cfgs, c) by {
            if is_group_cycle(cfgs, c) {
                lemma_group_cycle_rejected(cfgs, c);
            }
        }
    }
    if no_errors(base) && no_group_cycle(cfgs) {
        let _ = lemma_cycle_phase_clean(cfgs, base, cfgs.len());
    }
}


/// A client whose dependency checks give no error depends only on
/// configured clients of its own cycle, with no larger cycle offset.
pub proof fn lemma_links_clean(cfgs: Seq<ClientConfig>, c: ClientConfig, deps: Seq<u16>, k: int)
    requires
        crate::config::link_errors(cfgs, c, deps).len() == 0,
        0 <= k < deps.len(),
    ensures
        match last_index(cfgs, deps[k]) {
            Some(i) => cfgs[i].cycle == c.cycle && cfgs[i].cycle_offset <= c.cycle_offset,
            None => false,
        },
    decreases deps.len(),
{
    let pre = deps.drop_last();
    if k < deps.len() - 1 {
        lemma_links_clean(cfgs, c, pre, k);
        assert(pre[k] == deps[k]);
    }
}

/// Following dependencies within the group from a visited client of a
/// clean search ends at a client that does not float.
proof fn lemma_descend(
    cfgs: Seq<ClientConfig>,
    visit: Map<u16, VisitState>,
    rank: spec_fn(u16) -> nat,
    x: u16,
)
    requires
        clean(cfgs, visit, Seq::empty(), rank),
        visit.contains_key(x),
        visit[x] == VisitState::Visited,
        has_client(cfgs, x),
        forall|i: int|
            0 <= i < cfgs.len() ==> crate::config::config_errors(cfgs, #[trigger] cfgs[i]).len() == 0,
    ensures
        exists|i: int|
            0 <= i < cfgs.len() && !crate::config::floating_in(
                cfgs,
                cfgs[last_index(cfgs, #[trigger] cfgs[i].client_id)->0],
            ),
    decreases rank(x),
{
    lemma_last_index(cfgs, x);
    let ix = last_index(cfgs, x)->0;
    let c = cfgs[ix];
    if !crate::config::floating_in(cfgs, c) {
        assert(cfgs[ix].client_id == x);
    } else {
        let k = choose|k: int|
            0 <= k < c.depends@.len() && match last_index(cfgs, #[trigger] c.depends@[k]) {
                Some(i) => cfgs[i].cycle_offset == c.cycle_offset,
                None => false,
            };
        assert(crate::config::config_errors(cfgs, cfgs[ix]).len() == 0);
        assert(crate::config::link_errors(cfgs, c, c.depends@).len() == 0);
        lemma_links_clean(cfgs, c, c.depends@, k);
        let y = c.depends@[k];
        lemma_edge(cfgs, x, ix, k);
        lemma_last_index(cfgs, y);
        let iy = last_index(cfgs, y)->0;
        assert(cfgs[iy].client_id == y);
        lemma_descend(cfgs, visit, rank, y);
    }
}

/// A configuration that validates has a client that does not float: one
/// that starts on its own cycle.
pub proof fn lemma_start_point_exists(cfgs: Seq<ClientConfig>)
    requires
        cfgs.len() > 0,
        validation_errors(cfgs).is_empty(),
    ensures
        exists|i: int|
            0 <= i < cfgs.len() && !crate::config::floating_in(
                cfgs,
                cfgs[last_index(cfgs, #[trigger] cfgs[i].client_id)->0],
            ),
{
    lemma_validation_exact(cfgs);
    let base = client_phase(cfgs, duplicate_errors(cfgs), cfgs.len());
    lemma_duplicate_errors_none(cfgs);
    lemma_client_phase_none(cfgs, duplicate_errors(cfgs), cfgs.len());
    let rank = lemma_cycle_phase_clean(cfgs, base, cfgs.len());
    let fin = cycle_phase(cfgs, Map::empty(), base, cfgs.len());
    assert(fin.0.contains_key(cfgs[0].client_id));
    assert(has_client(cfgs, cfgs[0].client_id));
    lemma_descend(cfgs, fin.0, rank, cfgs[0].client_id);
}


/// The client `cid` with the cycle `cycle`, the offset `cycle_offset` and
/// the dependencies `deps` is valid on its own: IDs in range, a cycle of at
/// least 1 with a smaller offset, and no dependency on itself or repeated.
pub open spec fn client_ok(cid: u16, cycle: u8, cycle_offset: u8, deps: Seq<u16>) -> bool {
    &&& cid <= CLIENT_ID_MAX
    &&& cycle >= 1
    &&& cycle_offset < cycle
    &&& forall|k: int| 0 <= k < deps.len() ==> #[trigger] deps[k] <= CLIENT_ID_MAX && deps[k] != cid
    &&& forall|a: int, b: int| 0 <= a < b < deps.len() ==> #[trigger] deps[a] != #[trigger] deps[b]
}

/// Each dependency of `c` is a configured client of the same cycle with
/// no larger cycle offset.
pub open spec fn links_ok(cfgs: Seq<ClientConfig>, c: ClientConfig) -> bool {
    forall|k: int|
        0 <= k < c.depends@.len() ==> match last_index(cfgs, #[trigger] c.depends@[k]) {
            Some(i) => cfgs[i].cycle == c.cycle && cfgs[i].cycle_offset <= c.cycle_offset,
            None => false,
        }
}

proof fn lemma_depend_errors_none(cid: u16, deps: Seq<u16>)
    ensures
        depend_errors(cid, deps).len() == 0 <==> {
            &&& forall|k: int| 0 <= k < deps.len() ==> #[trigger] deps[k] <= CLIENT_ID_MAX && deps[k] != cid
            &&& forall|a: int, b: int| 0 <= a < b < deps.len() ==> #[trigger] deps[a] != #[trigger] deps[b]
        },
    decreases deps.len(),
{
    if deps.len() > 0 {
        let pre = deps.drop_last();
        let d = deps.last();
        lemma_depend_errors_none(cid, pre);
        if depend_errors(cid, deps).len() == 0 {
            assert forall|k: int| 0 <= k < deps.len() implies #[trigger] deps[k] <= CLIENT_ID_MAX && deps[k] != cid by {
                if k < pre.len() {
                    assert(pre[k] == deps[k]);
                }
            }
            assert forall|a: int, b: int| 0 <= a < b < deps.len() implies #[trigger] deps[a] != #[trigger] deps[b] by {
                if b < pre.len() {
                    assert(pre[a] == deps[a] && pre[b] == deps[b]);
                } else if deps[a] == deps[b] {
                    assert(pre[a] == d);
                    assert(pre.contains(d));
                }
            }
        }
        if (forall|k: int| 0 <= k < deps.len() ==> #[trigger] deps[k] <= CLIENT_ID_MAX && deps[k] != cid)
            && (forall|a: int, b: int| 0 <= a < b < deps.len() ==> #[trigger] deps[a] != #[trigger] deps[b]) {
            assert forall|k: int| 0 <= k < pre.len() implies #[trigger] pre[k] <= CLIENT_ID_MAX && pre[k] != cid by {
                assert(pre[k] == deps[k]);
            }
            assert forall|a: int, b: int| 0 <= a < b < pre.len() implies #[trigger] pre[a] != #[trigger] pre[b] by {
                assert(pre[a] == deps[a] && pre[b] == deps[b]);
            }
            assert(deps[deps.len() - 1] <= CLIENT_ID_MAX && deps[deps.len() - 1] != cid);
            if pre.contains(d) {
                let a = choose|a: int| 0 <= a < pre.len() && pre[a] == d;
                assert(deps[a] == deps[deps.len() - 1]);
            }
        }
    }
}

/// A client configuration is valid on its own, that is
/// `ClientConfig::validate` gives no error and `ClientConfig::new` succeeds,
/// exactly when `client_ok` holds.
pub proof fn lemma_client_errors_none(cid: u16, cycle: u8, cycle_offset: u8, deps: Seq<u16>)
    ensures
        client_errors(cid, cycle, cycle_offset, deps).len() == 0 <==> client_ok(cid, cycle, cycle_offset, deps),
{
    lemma_depend_errors_none(cid, deps);
}

proof fn lemma_link_errors_none(cfgs: Seq<ClientConfig>, c: ClientConfig, deps: Seq<u16>)
    ensures
        crate::config::link_errors(cfgs, c, deps).len() == 0 <==> forall|k: int|
            0 <= k < deps.len() ==> match last_index(cfgs, #[trigger] deps[k]) {
                Some(i) => cfgs[i].cycle == c.cycle && cfgs[i].cycle_offset <= c.cycle_offset,
                None => false,
            },
    decreases deps.len(),
{
    if deps.len() > 0 {
        let pre = deps.drop_last();
        lemma_link_errors_none(cfgs, c, pre);
        if crate::config::link_errors(cfgs, c, deps).len() == 0 {
            assert forall|k: int| 0 <= k < deps.len() implies match last_index(cfgs, #[trigger] deps[k]) {
                Some(i) => cfgs[i].cycle == c.cycle && cfgs[i].cycle_offset <= c.cycle_offset,
                None => false,
            } by {
                lemma_links_clean(cfgs, c, deps, k);
            }
        }
        if forall|k: int|
            0 <= k < deps.len() ==> match last_index(cfgs, #[trigger] deps[k]) {
                Some(i) => cfgs[i].cycle == c.cycle && cfgs[i].cycle_offset <= c.cycle_offset,
                None => false,
            } {
            assert forall|k: int| 0 <= k < pre.len() implies match last_index(cfgs, #[trigger] pre[k]) {
                Some(i) => cfgs[i].cycle == c.cycle && cfgs[i].cycle_offset <= c.cycle_offset,
                None => false,
            } by {
                assert(pre[k] == deps[k]);
            }
            let d = deps[deps.len() - 1];
            assert(d == deps.last());
        }
    }
}

/// `SchedulerConfig::validate` succeeds exactly when no client ID repeats,
/// each client is valid on its own, each dependency is a configured client
/// of the same cycle with no larger cycle offset, and no clients of one
/// cycle and offset depend on each other in a circle.
pub proof fn lemma_validation_iff(cfgs: Seq<ClientConfig>)
    ensures
        validation_errors(cfgs).is_empty() <==> {
            &&& distinct_ids(cfgs)
            &&& forall|i: int|
                0 <= i < cfgs.len() ==> client_ok(
                    #[trigger] cfgs[i].client_id,
                    cfgs[i].cycle,
                    cfgs[i].cycle_offset,
                    cfgs[i].depends@,
                )
            &&& forall|i: int| 0 <= i < cfgs.len() ==> links_ok(cfgs, #[trigger] cfgs[i])
            &&& no_group_cycle(cfgs)
        },
{
    lemma_validation_exact(cfgs);
    assert forall|i: int| 0 <= i < cfgs.len() implies (crate::config::config_errors(
        cfgs,
        #[trigger] cfgs[i],
    ).len() == 0 <==> client_ok(cfgs[i].client_id, cfgs[i].cycle, cfgs[i].cycle_offset, cfgs[i].depends@)
        && links_ok(cfgs, cfgs[i])) by {
        let c = cfgs[i];
        lemma_client_errors_none(c.client_id, c.cycle, c.cycle_offset, c.depends@);
        lemma_link_errors_none(cfgs, c, c.depends@);
    }
}


/// For a configuration that validates, the execution rule of each client,
/// as `SchedulerConfig::get_client_rules` derives it, is that of its own
/// configuration, and it floats exactly when one of its dependencies is
/// configured with the same cycle and the same cycle offset.
pub proof fn lemma_rule_of_valid(cfgs: Seq<ClientConfig>, i: int)
    requires
        validation_errors(cfgs).is_empty(),
        0 <= i < cfgs.len(),
    ensures
        last_index(cfgs, cfgs[i].client_id) == Some(i),
        crate::config::floating_in(cfgs, cfgs[i]) <==> exists|k: int, j: int|
            0 <= k < cfgs[i].depends@.len() && 0 <= j < cfgs.len() && #[trigger] cfgs[j].client_id
                == #[trigger] cfgs[i].depends@[k] && cfgs[j].cycle == cfgs[i].cycle
                && cfgs[j].cycle_offset == cfgs[i].cycle_offset,
{
    lemma_validation_iff(cfgs);
    let c = cfgs[i];
    lemma_last_index(cfgs, c.client_id);
    let x = last_index(cfgs, c.client_id)->0;
    if x != i {
        if x < i {
            assert(cfgs[x].client_id != cfgs[i].client_id);
        } else {
            assert(cfgs[i].client_id != cfgs[x].client_id);
        }
    }
    assert(links_ok(cfgs, cfgs[i]));
    if crate::config::floating_in(cfgs, c) {
        let k = choose|k: int|
            0 <= k < c.depends@.len() && match last_index(cfgs, #[trigger] c.depends@[k]) {
                Some(j) => cfgs[j].cycle_offset == c.cycle_offset,
                None => false,
            };
        lemma_last_index(cfgs, c.depends@[k]);
        let j = last_index(cfgs, c.depends@[k])->0;
        assert(cfgs[j].client_id == cfgs[i].depends@[k]);
    }
    if exists|k: int, j: int|
        0 <= k < cfgs[i].depends@.len() && 0 <= j < cfgs.len() && #[trigger] cfgs[j].client_id
            == #[trigger] cfgs[i].depends@[k] && cfgs[j].cycle == cfgs[i].cycle
            && cfgs[j].cycle_offset == cfgs[i].cycle_offset {
        let (k, j) = choose|k: int, j: int|
            0 <= k < cfgs[i].depends@.len() && 0 <= j < cfgs.len() && #[trigger] cfgs[j].client_id
                == #[trigger] cfgs[i].depends@[k] && cfgs[j].cycle == cfgs[i].cycle
                && cfgs[j].cycle_offset == cfgs[i].cycle_offset;
        lemma_last_index(cfgs, c.depends@[k]);
        let y = last_index(cfgs, c.depends@[k])->0;
        if y != j {
            if y < j {
                assert(cfgs[y].client_id != cfgs[j].client_id);
            } else {
                assert(cfgs[j].client_id != cfgs[y].client_id);
            }
        }
        assert(match last_index(cfgs, c.depends@[k]) {
            Some(j) => cfgs[j].cycle_offset == c.cycle_offset,
            None => false,
        });
    }
}


/// Every client with errors is a configured client.
pub open spec fn keys_clients(cfgs: Seq<ClientConfig>, errors: Map<u16, Seq<Seq<char>>>) -> bool {
    forall|x: u16| #[trigger] errors.contains_key(x) ==> has_client(cfgs, x)
}

/// Every client on `path` is a configured client.
pub open spec fn path_clients(cfgs: Seq<ClientConfig>, path: Seq<u16>) -> bool {
    forall|j: int| 0 <= j < path.len() ==> has_client(cfgs, #[trigger] path[j])
}

proof fn lemma_note_cycle_keys(cfgs: Seq<ClientConfig>, errors: Map<u16, Seq<Seq<char>>>, cyc: Seq<u16>, msg: Seq<char>)
    requires
        keys_clients(cfgs, errors),
        path_clients(cfgs, cyc),
    ensures
        keys_clients(cfgs, note_cycle(errors, cyc, msg)),
    decreases cyc.len(),
{
    if cyc.len() > 0 {
        let pre = cyc.drop_last();
        assert forall|j: int| 0 <= j < pre.len() implies has_client(cfgs, #[trigger] pre[j]) by {
            assert(pre[j] == cyc[j]);
        }
        lemma_note_cycle_keys(cfgs, errors, pre, msg);
        assert(has_client(cfgs, cyc[cyc.len() - 1]));
    }
}

proof fn lemma_report_keys(
    cfgs: Seq<ClientConfig>,
    visit: Map<u16, VisitState>,
    errors: Map<u16, Seq<Seq<char>>>,
    path: Seq<u16>,
    target: u16,
)
    requires
        keys_clients(cfgs, errors),
        path_clients(cfgs, path),
    ensures
        keys_clients(cfgs, report(visit, errors, path, target).1),
{
    lemma_first_index(path, target);
    match first_index(path, target) {
        Some(pos) => {
            let cyc = path.skip(pos);
            assert forall|j: int| 0 <= j < cyc.len() implies has_client(cfgs, #[trigger] cyc[j]) by {
                assert(cyc[j] == path[pos + j]);
            }
            lemma_note_cycle_keys(cfgs, errors, cyc, crate::config::cycle_text(cyc, target));
        },
        None => {},
    }
}

proof fn lemma_dfs_node_keys(
    cfgs: Seq<ClientConfig>,
    visit: Map<u16, VisitState>,
    errors: Map<u16, Seq<Seq<char>>>,
    path: Seq<u16>,
    cid: u16,
)
    requires
        keys_clients(cfgs, errors),
        path_clients(cfgs, path),
    ensures
        keys_clients(cfgs, dfs_node(cfgs, visit, errors, path, cid).1),
    decreases crate::config::unvisited(cfgs, visit), 1int, 0int,
{
    let v1 = visit.insert(cid, VisitState::Visiting);
    match last_index(cfgs, cid) {
        Some(i) => {
            if crate::config::unvisited(cfgs, v1) < crate::config::unvisited(cfgs, visit) {
                lemma_last_index(cfgs, cid);
                let p1 = path.push(cid);
                assert forall|j: int| 0 <= j < p1.len() implies has_client(cfgs, #[trigger] p1[j]) by {
                    if j < path.len() {
                        assert(p1[j] == path[j]);
                    } else {
                        assert(cfgs[i].client_id == cid);
                    }
                }
                lemma_dfs_deps_keys(cfgs, v1, errors, p1, i, 0, false);
            }
        },
        None => {},
    }
}

proof fn lemma_dfs_deps_keys(
    cfgs: Seq<ClientConfig>,
    visit: Map<u16, VisitState>,
    errors: Map<u16, Seq<Seq<char>>>,
    path: Seq<u16>,
    node: int,
    k: int,
    found: bool,
)
    requires
        keys_clients(cfgs, errors),
        path_clients(cfgs, path),
    ensures
        keys_clients(cfgs, dfs_deps(cfgs, visit, errors, path, node, k, found).1),
    decreases crate::config::unvisited(cfgs, visit), 2int, cfgs[node].depends@.len() - k,
{
    if !(0 <= node < cfgs.len()) || k < 0 || k >= cfgs[node].depends@.len() {
    } else {
        let c = cfgs[node];
        let d = c.depends@[k];
        match last_index(cfgs, d) {
            None => lemma_dfs_deps_keys(cfgs, visit, errors, path, node, k + 1, found),
            Some(di) => if !same_group(cfgs[di], c) {
                lemma_dfs_deps_keys(cfgs, visit, errors, path, node, k + 1, found)
            } else if !visit.contains_key(d) {
                let r = dfs_node(cfgs, visit, errors, path, d);
                lemma_dfs_node_keys(cfgs, visit, errors, path, d);
                if crate::config::unvisited(cfgs, r.0) <= crate::config::unvisited(cfgs, visit) {
                    lemma_dfs_deps_keys(cfgs, r.0, r.1, path, node, k + 1, found || r.2);
                }
            } else if visit[d] == VisitState::Visiting {
                let r = report(visit, errors, path, d);
                lemma_report_keys(cfgs, visit, errors, path, d);
                if crate::config::unvisited(cfgs, r.0) <= crate::config::unvisited(cfgs, visit) {
                    lemma_dfs_deps_keys(cfgs, r.0, r.1, path, node, k + 1, true);
                }
            } else if visit[d] == VisitState::HasCycle {
                lemma_dfs_deps_keys(cfgs, visit, errors, path, node, k + 1, true)
            } else {
                lemma_dfs_deps_keys(cfgs, visit, errors, path, node, k + 1, found)
            },
        }
    }
}

proof fn lemma_cycle_phase_keys(
    cfgs: Seq<ClientConfig>,
    visit: Map<u16, VisitState>,
    errors: Map<u16, Seq<Seq<char>>>,
    n: nat,
)
    requires
        keys_clients(cfgs, errors),
    ensures
        keys_clients(cfgs, cycle_phase(cfgs, visit, errors, n).1),
    decreases n,
{
    if n > 0 {
        lemma_cycle_phase_keys(cfgs, visit, errors, (n - 1) as nat);
        let r = cycle_phase(cfgs, visit, errors, (n - 1) as nat);
        let id = cfgs[n - 1].client_id;
        if !r.0.contains_key(id) {
            lemma_dfs_node_keys(cfgs, r.0, r.1, Seq::empty(), id);
        }
    }
}

proof fn lemma_duplicate_keys(cfgs: Seq<ClientConfig>)
    ensures
        keys_clients(cfgs, duplicate_errors(cfgs)),
    decreases cfgs.len(),
{
    if cfgs.len() > 0 {
        let pre = cfgs.drop_last();
        lemma_duplicate_keys(pre);
        assert forall|x: u16| #[trigger] duplicate_errors(cfgs).contains_key(x) implies has_client(cfgs, x) by {
            if x == cfgs.last().client_id {
                assert(cfgs[cfgs.len() - 1].client_id == x);
            } else {
                assert(duplicate_errors(pre).contains_key(x));
                let i = choose|i: int| 0 <= i < pre.len() && #[trigger] pre[i].client_id == x;
                assert(cfgs[i].client_id == x);
            }
        }
    }
}

proof fn lemma_client_phase_keys(cfgs: Seq<ClientConfig>, base: Map<u16, Seq<Seq<char>>>, n: nat)
    requires
        keys_clients(cfgs, base),
        n <= cfgs.len(),
    ensures
        keys_clients(cfgs, client_phase(cfgs, base, n)),
    decreases n,
{
    if n > 0 {
        lemma_client_phase_keys(cfgs, base, (n - 1) as nat);
        assert(cfgs[n - 1].client_id == cfgs[n - 1].client_id);
        assert(has_client(cfgs, cfgs[n - 1].client_id));
    }
}

/// Validation reports errors only of configured clients.
pub proof fn lemma_validation_keys(cfgs: Seq<ClientConfig>)
    ensures
        keys_clients(cfgs, validation_errors(cfgs)),
{
    lemma_duplicate_keys(cfgs);
    lemma_client_phase_keys(cfgs, duplicate_errors(cfgs), cfgs.len());
    lemma_cycle_phase_keys(cfgs, Map::empty(), client_phase(cfgs, duplicate_errors(cfgs), cfgs.len()), cfgs.len());
}

} // verus!
