//! Configuration of the scheduler: the server settings, the settings of each
//! client process, their validation and the execution rules derived from
//! them.
use vstd::prelude::*;

use std::collections::HashMap;

use crate::message::CLIENT_ID_MAX;
use crate::text::{dec_digits, join_with, pad3, push_decimal, push_joined, push_padded3, strings_view};

verus! {

/// Configuration for the server.
#[derive(Clone, Debug)]
pub struct ServerConfig {
    pub port: u16,
    pub cycle_time_ms: u32,
    pub stats_interval_cycle: u32,
}

/// Configuration for a client process.
#[derive(Clone, Debug)]
pub struct ClientConfig {
    pub client_id: u16,
    pub display_name: String,
    pub cycle: u8,
    pub cycle_offset: u8,
    pub depends: Vec<u16>,
    pub expected_duration_ms: u32,
}

/// `prefix`, the ID `n` zero padded to three digits, then `suffix`.
pub open spec fn id_msg(prefix: Seq<char>, n: u16, suffix: Seq<char>) -> Seq<char> {
    prefix + pad3(n as nat) + suffix
}

/// The errors found in the dependency list `deps` of the client `cid`, in
/// order: for each dependency, too large, self-dependency, duplicate.
pub open spec fn depend_errors(cid: u16, deps: Seq<u16>) -> Seq<Seq<char>>
    decreases deps.len(),
{
    if deps.len() == 0 {
        Seq::empty()
    } else {
        let d = deps.last();
        let pre = deps.drop_last();
        depend_errors(cid, pre) + (if d > CLIENT_ID_MAX {
            seq![id_msg("Depends CID:"@, d, " is too large"@)]
        } else {
            Seq::empty()
        }) + (if d == cid {
            seq![id_msg("Self-dependency is not allowed (CID:"@, d, ")"@)]
        } else {
            Seq::empty()
        }) + (if pre.contains(d) {
            seq![id_msg("Duplicate dependency CID:"@, d, ""@)]
        } else {
            Seq::empty()
        })
    }
}

/// The errors of a client configuration, in order: client ID, cycle, cycle
/// offset, dependencies.
pub open spec fn client_errors(cid: u16, cycle: u8, cycle_offset: u8, deps: Seq<u16>) -> Seq<
    Seq<char>,
> {
    (if cid > CLIENT_ID_MAX {
        seq![id_msg("Client ID "@, cid, " is too large"@)]
    } else {
        Seq::empty()
    }) + (if cycle == 0 {
        seq!["Cycle must not be zero"@]
    } else {
        Seq::empty()
    }) + (if cycle_offset >= cycle {
        seq![
            "CycleOffset ("@ + dec_digits(cycle_offset as nat) + ") must be less than trigger cycle ("@
                + dec_digits(cycle as nat) + ")"@,
        ]
    } else {
        Seq::empty()
    }) + depend_errors(cid, deps)
}

/// The error text of a client configuration that failed validation.
pub open spec fn client_config_error(cid: u16, errs: Seq<Seq<char>>) -> Seq<char> {
    id_msg("[ClientConfig CID:"@, cid, "] "@) + join_with(errs, ", "@)
}

/// `prefix`, the ID `n` zero padded to three digits, then `suffix`.
fn make_id_msg(prefix: &str, n: u16, suffix: &str) -> (s: String)
    ensures
        s@ == id_msg(prefix@, n, suffix@),
{
    let mut s = String::from_str(prefix);
    push_padded3(&mut s, n as u64);
    s.append(suffix);
    s
}

/// Whether `v[..k]` holds `x`.
fn contains_before(v: &Vec<u16>, k: usize, x: u16) -> (r: bool)
    requires
        k <= v.len(),
    ensures
        r == v@.take(k as int).contains(x),
{
    let mut i: usize = 0;
    while i < k
        invariant
            i <= k <= v.len(),
            forall|j: int| 0 <= j < i ==> v@[j] != x,
        decreases k - i,
    {
        if v[i] == x {
            assert(v@.take(k as int)[i as int] == x);
            return true;
        }
        i += 1;
    }
    assert forall|j: int| 0 <= j < k implies v@.take(k as int)[j] != x by {}
    false
}

impl ClientConfig {
    /// Basic validation of the client configuration: every error found, in
    /// order.
    pub fn validate(&self) -> (errs: Vec<String>)
        ensures
            strings_view(errs@) == client_errors(
                self.client_id,
                self.cycle,
                self.cycle_offset,
                self.depends@,
            ),
    {
        let mut errs: Vec<String> = Vec::new();
        if self.client_id > CLIENT_ID_MAX {
            errs.push(make_id_msg("Client ID ", self.client_id, " is too large"));
        }
        if self.cycle == 0 {
            errs.push(String::from_str("Cycle must not be zero"));
        }
        if self.cycle_offset >= self.cycle {
            let mut m = String::from_str("CycleOffset (");
            push_decimal(&mut m, self.cycle_offset as u64);
            m.append(") must be less than trigger cycle (");
            push_decimal(&mut m, self.cycle as u64);
            m.append(")");
            errs.push(m);
        }
        let ghost head = strings_view(errs@);
        proof {
            assert(head =~= client_errors(self.client_id, self.cycle, self.cycle_offset, Seq::empty()));
        }
        let mut k: usize = 0;
        while k < self.depends.len()
            invariant
                k <= self.depends.len(),
                strings_view(errs@) == head + depend_errors(self.client_id, self.depends@.take(k as int)),
            decreases self.depends.len() - k,
        {
            let d = self.depends[k];
            let ghost before = strings_view(errs@);
            if d > CLIENT_ID_MAX {
                errs.push(make_id_msg("Depends CID:", d, " is too large"));
            }
            if d == self.client_id {
                errs.push(make_id_msg("Self-dependency is not allowed (CID:", d, ")"));
            }
            if contains_before(&self.depends, k, d) {
                errs.push(make_id_msg("Duplicate dependency CID:", d, ""));
            }
            proof {
                let t = self.depends@.take(k + 1);
                assert(t.drop_last() =~= self.depends@.take(k as int));
                assert(t.last() == d);
                assert(strings_view(errs@) =~= before + (if d > CLIENT_ID_MAX {
                    seq![id_msg("Depends CID:"@, d, " is too large"@)]
                } else {
                    Seq::empty()
                }) + (if d == self.client_id {
                    seq![id_msg("Self-dependency is not allowed (CID:"@, d, ")"@)]
                } else {
                    Seq::empty()
                }) + (if self.depends@.take(k as int).contains(d) {
                    seq![id_msg("Duplicate dependency CID:"@, d, ""@)]
                } else {
                    Seq::empty()
                }));
            }
            k += 1;
        }
        proof {
            assert(self.depends@.take(k as int) =~= self.depends@);
        }
        errs
    }

    /// Create a new ClientConfig with basic validation.
    pub fn new(
        client_id: u16,
        cycle: u8,
        cycle_offset: u8,
        depends: Vec<u16>,
        expected_duration_ms: u32,
    ) -> (r: Result<Self, String>)
        ensures
            ({
                let errs = client_errors(client_id, cycle, cycle_offset, depends@);
                if errs.len() == 0 {
                    r is Ok && r->Ok_0.client_id == client_id && r->Ok_0.display_name@
                        == Seq::<char>::empty() && r->Ok_0.cycle == cycle && r->Ok_0.cycle_offset
                        == cycle_offset && r->Ok_0.depends == depends
                        && r->Ok_0.expected_duration_ms == expected_duration_ms
                } else {
                    r is Err && r->Err_0@ == client_config_error(client_id, errs)
                }
            }),
    {
        Self::new_with_display_name(
            client_id,
            String::new(),
            cycle,
            cycle_offset,
            depends,
            expected_duration_ms,
        )
    }

    /// Create a new ClientConfig with a display name and basic validation.
    pub fn new_with_display_name(
        client_id: u16,
        display_name: String,
        cycle: u8,
        cycle_offset: u8,
        depends: Vec<u16>,
        expected_duration_ms: u32,
    ) -> (r: Result<Self, String>)
        ensures
            ({
                let errs = client_errors(client_id, cycle, cycle_offset, depends@);
                if errs.len() == 0 {
                    r == Ok::<ClientConfig, String>(
                        ClientConfig {
                            client_id,
                            display_name,
                            cycle,
                            cycle_offset,
                            depends,
                            expected_duration_ms,
                        },
                    )
                } else {
                    r is Err && r->Err_0@ == client_config_error(client_id, errs)
                }
            }),
    {
        let config = ClientConfig {
            client_id,
            display_name,
            cycle,
            cycle_offset,
            depends,
            expected_duration_ms,
        };
        let errs = config.validate();
        if errs.len() == 0 {
            Ok(config)
        } else {
            let mut m = make_id_msg("[ClientConfig CID:", client_id, "] ");
            push_joined(&mut m, &errs, ", ");
            Err(m)
        }
    }
}

/// Derived execution rules for a client process.
#[derive(Clone, Debug, PartialEq, Eq, Structural)]
pub struct ClientRule {
    pub client_id: u16,
    pub is_floating: bool,
}

/// Root configuration for the scheduler.
#[derive(Clone, Debug)]
pub struct SchedulerConfig {
    pub server_config: ServerConfig,
    pub client_configs: Vec<ClientConfig>,
}

/// Some configuration has the client ID `id`.
pub open spec fn has_client(cfgs: Seq<ClientConfig>, id: u16) -> bool {
    exists|i: int| 0 <= i < cfgs.len() && #[trigger] cfgs[i].client_id == id
}

/// The position of the last configuration with the client ID `id`: the one
/// that a lookup by ID finds.
pub open spec fn last_index(cfgs: Seq<ClientConfig>, id: u16) -> Option<int>
    decreases cfgs.len(),
{
    if cfgs.len() == 0 {
        None
    } else if cfgs.last().client_id == id {
        Some(cfgs.len() - 1)
    } else {
        last_index(cfgs.drop_last(), id)
    }
}

/// The client `c` starts right after a process it depends on: one of its
/// dependencies is configured with the same cycle offset.
pub open spec fn floating_in(cfgs: Seq<ClientConfig>, c: ClientConfig) -> bool {
    exists|k: int|
        0 <= k < c.depends@.len() && match last_index(cfgs, #[trigger] c.depends@[k]) {
            Some(i) => cfgs[i].cycle_offset == c.cycle_offset,
            None => false,
        }
}

/// What `last_index` finds.
pub proof fn lemma_last_index(cfgs: Seq<ClientConfig>, id: u16)
    ensures
        match last_index(cfgs, id) {
            Some(i) => 0 <= i < cfgs.len() && cfgs[i].client_id == id && forall|j: int|
                i < j < cfgs.len() ==> cfgs[j].client_id != id,
            None => !has_client(cfgs, id),
        },
    decreases cfgs.len(),
{
    if cfgs.len() > 0 {
        let pre = cfgs.drop_last();
        lemma_last_index(pre, id);
        if cfgs.last().client_id != id {
            if has_client(cfgs, id) {
                let i = choose|i: int| 0 <= i < cfgs.len() && #[trigger] cfgs[i].client_id == id;
                assert(pre[i].client_id == id);
            }
            if let Some(i) = last_index(pre, id) {
                assert forall|j: int| i < j < cfgs.len() implies cfgs[j].client_id != id by {
                    if j < cfgs.len() - 1 {
                        assert(pre[j] == cfgs[j]);
                    }
                }
            }
        }
    }
}

/// `last_index` on the first `k + 1` configurations.
proof fn lemma_last_index_take(cfgs: Seq<ClientConfig>, k: int, id: u16)
    requires
        0 <= k < cfgs.len(),
    ensures
        last_index(cfgs.take(k + 1), id) == if cfgs[k].client_id == id {
            Some(k)
        } else {
            last_index(cfgs.take(k), id)
        },
{
    let t = cfgs.take(k + 1);
    assert(t.drop_last() =~= cfgs.take(k));
    assert(t.last() == cfgs[k]);
}

/// The position of the last configuration with the client ID `id`.
pub(crate) fn find_last(cfgs: &Vec<ClientConfig>, id: u16) -> (r: Option<usize>)
    ensures
        match r {
            Some(i) => last_index(cfgs@, id) == Some(i as int),
            None => last_index(cfgs@, id) is None,
        },
{
    let mut r: Option<usize> = None;
    let mut i: usize = 0;
    while i < cfgs.len()
        invariant
            i <= cfgs.len(),
            match r {
                Some(j) => last_index(cfgs@.take(i as int), id) == Some(j as int),
                None => last_index(cfgs@.take(i as int), id) is None,
            },
        decreases cfgs.len() - i,
    {
        proof {
            lemma_last_index_take(cfgs@, i as int, id);
        }
        if cfgs[i].client_id == id {
            r = Some(i);
        }
        i += 1;
    }
    assert(cfgs@.take(i as int) =~= cfgs@);
    r
}

/// Whether the client at position `k` is floating.
fn floating_of(cfgs: &Vec<ClientConfig>, k: usize) -> (r: bool)
    requires
        k < cfgs.len(),
    ensures
        r == floating_in(cfgs@, cfgs@[k as int]),
{
    let c = &cfgs[k];
    let mut found = false;
    let mut j: usize = 0;
    while j < c.depends.len()
        invariant
            c == cfgs@[k as int],
            j <= c.depends.len(),
            found == exists|m: int|
                0 <= m < j && match last_index(cfgs@, #[trigger] c.depends@[m]) {
                    Some(i) => cfgs@[i].cycle_offset == c.cycle_offset,
                    None => false,
                },
        decreases c.depends.len() - j,
    {
        let d = c.depends[j];
        let ghost old_found = found;
        proof {
            lemma_last_index(cfgs@, d);
        }
        match find_last(cfgs, d) {
            Some(i) => {
                if cfgs[i].cycle_offset == c.cycle_offset {
                    found = true;
                }
            },
            None => {
                assert(last_index(cfgs@, d) is None);
            },
        }
        proof {
            let cond = match last_index(cfgs@, c.depends@[j as int]) {
                Some(i) => cfgs@[i].cycle_offset == c.cycle_offset,
                None => false,
            };
            assert(found == (old_found || cond));
            if found {
                if !old_found {
                    assert(cond);
                }
            } else {
                assert forall|m: int| 0 <= m < j + 1 implies !(match last_index(cfgs@, #[trigger] c.depends@[m]) {
                    Some(i) => cfgs@[i].cycle_offset == c.cycle_offset,
                    None => false,
                }) by {
                    if m < j {
                    }
                }
            }
        }
        j += 1;
    }
    found
}

impl SchedulerConfig {
    /// Derive the execution rule of every client: floating when one of its
    /// dependencies has the same cycle offset. For a client ID configured
    /// twice, the last configuration counts.
    pub fn get_client_rules(&self) -> (rules: HashMap<u16, ClientRule>)
        ensures
            forall|id: u16| rules@.contains_key(id) <==> has_client(self.client_configs@, id),
            forall|id: u16|
                #[trigger] rules@.contains_key(id) ==> rules@[id] == (ClientRule {
                    client_id: id,
                    is_floating: floating_in(
                        self.client_configs@,
                        self.client_configs@[last_index(self.client_configs@, id)->0],
                    ),
                }),
    {
        let cfgs = &self.client_configs;
        let mut rules: HashMap<u16, ClientRule> = HashMap::with_capacity(cfgs.len());
        let mut k: usize = 0;
        while k < cfgs.len()
            invariant
                k <= cfgs.len(),
                cfgs == &self.client_configs,
                forall|id: u16| rules@.contains_key(id) <==> last_index(cfgs@.take(k as int), id) is Some,
                forall|id: u16|
                    #[trigger] rules@.contains_key(id) ==> rules@[id] == (ClientRule {
                        client_id: id,
                        is_floating: floating_in(
                            cfgs@,
                            cfgs@[last_index(cfgs@.take(k as int), id)->0],
                        ),
                    }),
            decreases cfgs.len() - k,
        {
            let id = cfgs[k].client_id;
            let floating = floating_of(cfgs, k);
            rules.insert(id, ClientRule { client_id: id, is_floating: floating });
            proof {
                assert forall|x: u16| #[trigger] last_index(cfgs@.take(k + 1), x) == if cfgs@[k as int].client_id == x {
                    Some(k as int)
                } else {
                    last_index(cfgs@.take(k as int), x)
                } by {
                    lemma_last_index_take(cfgs@, k as int, x);
                }
            }
            k += 1;
        }
        proof {
            assert(cfgs@.take(k as int) =~= cfgs@);
            assert forall|id: u16| last_index(cfgs@, id) is Some <==> has_client(cfgs@, id) by {
                lemma_last_index(cfgs@, id);
            }
        }
        rules
    }
}

// ---------------------------------------------------------------------------
// Validation of the whole configuration.

/// Validation errors per client ID, as character sequences.
pub open spec fn errors_view(m: Map<u16, Vec<String>>) -> Map<u16, Seq<Seq<char>>> {
    m.map_values(|v: Vec<String>| strings_view(v@))
}

/// The errors recorded for `id`, none when there is no entry.
pub open spec fn errors_of(m: Map<u16, Seq<Seq<char>>>, id: u16) -> Seq<Seq<char>> {
    if m.contains_key(id) {
        m[id]
    } else {
        Seq::empty()
    }
}

/// One "Duplicate client ID" error for each configuration whose ID an
/// earlier one already has.
pub open spec fn duplicate_errors(cfgs: Seq<ClientConfig>) -> Map<u16, Seq<Seq<char>>>
    decreases cfgs.len(),
{
    if cfgs.len() == 0 {
        Map::empty()
    } else {
        let m = duplicate_errors(cfgs.drop_last());
        let id = cfgs.last().client_id;
        if has_client(cfgs.drop_last(), id) {
            m.insert(id, errors_of(m, id).push(id_msg("Duplicate client ID "@, id, ""@)))
        } else {
            m
        }
    }
}

/// The errors of the dependencies `deps` of the client `c` against the
/// configurations they name: missing, different cycle, larger cycle offset.
pub open spec fn link_errors(cfgs: Seq<ClientConfig>, c: ClientConfig, deps: Seq<u16>) -> Seq<
    Seq<char>,
>
    decreases deps.len(),
{
    if deps.len() == 0 {
        Seq::empty()
    } else {
        let d = deps.last();
        link_errors(cfgs, c, deps.drop_last()) + match last_index(cfgs, d) {
            Some(i) => (if cfgs[i].cycle != c.cycle {
                seq![
                    id_msg("Dependent process CID:"@, d, " has different cycle ("@) + dec_digits(
                        cfgs[i].cycle as nat,
                    ) + " vs "@ + dec_digits(c.cycle as nat) + ")"@,
                ]
            } else {
                Seq::empty()
            }) + (if cfgs[i].cycle_offset > c.cycle_offset {
                seq![
                    id_msg("Dependent process CID:"@, d, " has larger cycle_offset ("@)
                        + dec_digits(cfgs[i].cycle_offset as nat) + " > "@ + dec_digits(
                        c.cycle_offset as nat,
                    ) + ")"@,
                ]
            } else {
                Seq::empty()
            }),
            None => seq![id_msg("Dependent process CID:"@, d, " does not exist"@)],
        }
    }
}

/// All errors of the client `c`: its own, then its dependencies'.
pub open spec fn config_errors(cfgs: Seq<ClientConfig>, c: ClientConfig) -> Seq<Seq<char>> {
    client_errors(c.client_id, c.cycle, c.cycle_offset, c.depends@) + link_errors(
        cfgs,
        c,
        c.depends@,
    )
}

/// The errors after checking the first `n` clients: a client with errors
/// has its entry replaced by them.
pub open spec fn client_phase(
    cfgs: Seq<ClientConfig>,
    base: Map<u16, Seq<Seq<char>>>,
    n: nat,
) -> Map<u16, Seq<Seq<char>>>
    decreases n,
{
    if n == 0 {
        base
    } else {
        let m = client_phase(cfgs, base, (n - 1) as nat);
        let c = cfgs[n - 1];
        let ce = config_errors(cfgs, c);
        if ce.len() > 0 {
            m.insert(c.client_id, ce)
        } else {
            m
        }
    }
}

/// Where a depth-first search stands on a client.
#[derive(Clone, Copy, PartialEq, Eq, Structural)]
pub enum VisitState {
    Visiting,
    Visited,
    HasCycle,
}

/// Two clients run in the same cycle with the same offset.
pub open spec fn same_group(a: ClientConfig, b: ClientConfig) -> bool {
    a.cycle == b.cycle && a.cycle_offset == b.cycle_offset
}

/// The number of configurations whose ID the search has not reached.
pub open spec fn unvisited(cfgs: Seq<ClientConfig>, visit: Map<u16, VisitState>) -> nat
    decreases cfgs.len(),
{
    if cfgs.len() == 0 {
        0
    } else {
        unvisited(cfgs.drop_last(), visit) + if visit.contains_key(cfgs.last().client_id) {
            0nat
        } else {
            1nat
        }
    }
}

/// The first position of `x` in `path`.
pub open spec fn first_index(path: Seq<u16>, x: u16) -> Option<int>
    decreases path.len(),
{
    if path.len() == 0 {
        None
    } else if path[0] == x {
        Some(0)
    } else {
        match first_index(path.drop_first(), x) {
            Some(i) => Some(i + 1),
            None => None,
        }
    }
}

/// The text reported for the cycle `cyc` closed by an edge back to `target`.
pub open spec fn cycle_text(cyc: Seq<u16>, target: u16) -> Seq<char> {
    "Circular dependency detected: "@ + join_with(pad3_all(cyc), " -> "@) + " -> "@ + pad3(
        target as nat,
    )
}

/// Each ID of `s` zero padded to three digits.
pub open spec fn pad3_all(s: Seq<u16>) -> Seq<Seq<char>> {
    s.map_values(|n: u16| pad3(n as nat))
}

/// Every client of `cyc` is marked as being on a cycle.
pub open spec fn mark_cycle(visit: Map<u16, VisitState>, cyc: Seq<u16>) -> Map<u16, VisitState>
    decreases cyc.len(),
{
    if cyc.len() == 0 {
        visit
    } else {
        mark_cycle(visit, cyc.drop_last()).insert(cyc.last(), VisitState::HasCycle)
    }
}

/// `msg` added to the errors of `id` unless already there.
pub open spec fn add_unique(errors: Map<u16, Seq<Seq<char>>>, id: u16, msg: Seq<char>) -> Map<
    u16,
    Seq<Seq<char>>,
> {
    let cur = errors_of(errors, id);
    errors.insert(
        id,
        if cur.contains(msg) {
            cur
        } else {
            cur.push(msg)
        },
    )
}

/// `msg` added to the errors of every client of `cyc`.
pub open spec fn note_cycle(errors: Map<u16, Seq<Seq<char>>>, cyc: Seq<u16>, msg: Seq<char>) -> Map<
    u16,
    Seq<Seq<char>>,
>
    decreases cyc.len(),
{
    if cyc.len() == 0 {
        errors
    } else {
        add_unique(note_cycle(errors, cyc.drop_last(), msg), cyc.last(), msg)
    }
}

/// An edge back to `target` on the search path: the part of the path from
/// `target` on is a cycle, reported to each of its clients.
pub open spec fn report(
    visit: Map<u16, VisitState>,
    errors: Map<u16, Seq<Seq<char>>>,
    path: Seq<u16>,
    target: u16,
) -> (Map<u16, VisitState>, Map<u16, Seq<Seq<char>>>) {
    match first_index(path, target) {
        None => (visit, errors),
        Some(pos) => {
            let cyc = path.skip(pos);
            (mark_cycle(visit, cyc), note_cycle(errors, cyc, cycle_text(cyc, target)))
        },
    }
}

/// The depth-first search from the client `cid` through dependencies in
/// the same cycle and offset: the visit states, the errors, and whether a
/// cycle was met.
pub open spec fn dfs_node(
    cfgs: Seq<ClientConfig>,
    visit: Map<u16, VisitState>,
    errors: Map<u16, Seq<Seq<char>>>,
    path: Seq<u16>,
    cid: u16,
) -> (Map<u16, VisitState>, Map<u16, Seq<Seq<char>>>, bool)
    decreases unvisited(cfgs, visit), 1int, 0int,
{
    let v1 = visit.insert(cid, VisitState::Visiting);
    let r = match last_index(cfgs, cid) {
        Some(i) => if unvisited(cfgs, v1) < unvisited(cfgs, visit) {
            dfs_deps(cfgs, v1, errors, path.push(cid), i, 0, false)
        } else {
            (v1, errors, false)
        },
        None => (v1, errors, false),
    };
    (
        r.0.insert(
            cid,
            if r.2 {
                VisitState::HasCycle
            } else {
                VisitState::Visited
            },
        ),
        r.1,
        r.2,
    )
}

/// The search over the dependencies of the configuration at `node`, from
/// the `k`-th on.
pub open spec fn dfs_deps(
    cfgs: Seq<ClientConfig>,
    visit: Map<u16, VisitState>,
    errors: Map<u16, Seq<Seq<char>>>,
    path: Seq<u16>,
    node: int,
    k: int,
    found: bool,
) -> (Map<u16, VisitState>, Map<u16, Seq<Seq<char>>>, bool)
    decreases unvisited(cfgs, visit), 2int, cfgs[node].depends@.len() - k,
{
    if !(0 <= node < cfgs.len()) || k < 0 || k >= cfgs[node].depends@.len() {
        (visit, errors, found)
    } else {
        let c = cfgs[node];
        let d = c.depends@[k];
        match last_index(cfgs, d) {
            None => dfs_deps(cfgs, visit, errors, path, node, k + 1, found),
            Some(di) => if !same_group(cfgs[di], c) {
                dfs_deps(cfgs, visit, errors, path, node, k + 1, found)
            } else if !visit.contains_key(d) {
                let r = dfs_node(cfgs, visit, errors, path, d);
                if unvisited(cfgs, r.0) <= unvisited(cfgs, visit) {
                    dfs_deps(cfgs, r.0, r.1, path, node, k + 1, found || r.2)
                } else {
                    (r.0, r.1, found || r.2)
                }
            } else if visit[d] == VisitState::Visiting {
                let r = report(visit, errors, path, d);
                if unvisited(cfgs, r.0) <= unvisited(cfgs, visit) {
                    dfs_deps(cfgs, r.0, r.1, path, node, k + 1, true)
                } else {
                    (r.0, r.1, true)
                }
            } else if visit[d] == VisitState::HasCycle {
                dfs_deps(cfgs, visit, errors, path, node, k + 1, true)
            } else {
                dfs_deps(cfgs, visit, errors, path, node, k + 1, found)
            }
        }
    }
}

/// The search started from each of the first `n` clients not yet visited.
pub open spec fn cycle_phase(
    cfgs: Seq<ClientConfig>,
    visit: Map<u16, VisitState>,
    errors: Map<u16, Seq<Seq<char>>>,
    n: nat,
) -> (Map<u16, VisitState>, Map<u16, Seq<Seq<char>>>)
    decreases n,
{
    if n == 0 {
        (visit, errors)
    } else {
        let r = cycle_phase(cfgs, visit, errors, (n - 1) as nat);
        let id = cfgs[n - 1].client_id;
        if r.0.contains_key(id) {
            r
        } else {
            let q = dfs_node(cfgs, r.0, r.1, Seq::empty(), id);
            (q.0, q.1)
        }
    }
}

/// All validation errors of a scheduler configuration, per client ID.
pub open spec fn validation_errors(cfgs: Seq<ClientConfig>) -> Map<u16, Seq<Seq<char>>> {
    cycle_phase(
        cfgs,
        Map::empty(),
        client_phase(cfgs, duplicate_errors(cfgs), cfgs.len()),
        cfgs.len(),
    ).1
}

/// Reaching more clients leaves fewer unvisited.
pub(crate) proof fn lemma_unvisited_mono(cfgs: Seq<ClientConfig>, a: Map<u16, VisitState>, b: Map<u16, VisitState>)
    requires
        forall|x: u16| a.contains_key(x) ==> b.contains_key(x),
    ensures
        unvisited(cfgs, b) <= unvisited(cfgs, a),
    decreases cfgs.len(),
{
    if cfgs.len() > 0 {
        lemma_unvisited_mono(cfgs.drop_last(), a, b);
    }
}

/// Reaching a configured client not reached before leaves fewer unvisited.
pub(crate) proof fn lemma_unvisited_insert(
    cfgs: Seq<ClientConfig>,
    a: Map<u16, VisitState>,
    id: u16,
    st: VisitState,
)
    requires
        !a.contains_key(id),
        has_client(cfgs, id),
    ensures
        unvisited(cfgs, a.insert(id, st)) < unvisited(cfgs, a),
    decreases cfgs.len(),
{
    let b = a.insert(id, st);
    let pre = cfgs.drop_last();
    if cfgs.last().client_id == id {
        lemma_unvisited_mono(pre, a, b);
    } else {
        let i = choose|i: int| 0 <= i < cfgs.len() && #[trigger] cfgs[i].client_id == id;
        assert(pre[i].client_id == id);
        lemma_unvisited_insert(pre, a, id, st);
    }
}

/// Marking a cycle only adds the clients of the cycle.
proof fn lemma_mark_cycle_dom(visit: Map<u16, VisitState>, cyc: Seq<u16>, x: u16)
    ensures
        mark_cycle(visit, cyc).contains_key(x) == (visit.contains_key(x) || cyc.contains(x)),
    decreases cyc.len(),
{
    if cyc.len() > 0 {
        lemma_mark_cycle_dom(visit, cyc.drop_last(), x);
        if cyc.drop_last().contains(x) {
            let j = choose|j: int| 0 <= j < cyc.drop_last().len() && cyc.drop_last()[j] == x;
            assert(cyc[j] == x);
        }
        if cyc.contains(x) && x != cyc.last() {
            let j = choose|j: int| 0 <= j < cyc.len() && cyc[j] == x;
            assert(cyc.drop_last()[j] == x);
        }
    }
}

/// What `first_index` finds.
pub(crate) proof fn lemma_first_index(path: Seq<u16>, x: u16)
    ensures
        match first_index(path, x) {
            Some(i) => 0 <= i < path.len() && path[i] == x && forall|j: int|
                0 <= j < i ==> path[j] != x,
            None => forall|j: int| 0 <= j < path.len() ==> path[j] != x,
        },
    decreases path.len(),
{
    if path.len() > 0 && path[0] != x {
        let rest = path.drop_first();
        lemma_first_index(rest, x);
        match first_index(rest, x) {
            Some(i) => {
                assert forall|j: int| 0 <= j < i + 1 implies path[j] != x by {
                    if j > 0 {
                        assert(path[j] == rest[j - 1]);
                    }
                }
            },
            None => {
                assert forall|j: int| 0 <= j < path.len() implies path[j] != x by {
                    if j > 0 {
                        assert(path[j] == rest[j - 1]);
                    }
                }
            },
        }
    }
}

/// Appends `msg` to the errors of `id`.
fn push_error(errors: &mut HashMap<u16, Vec<String>>, id: u16, msg: String)
    ensures
        errors_view(final(errors)@) == errors_view(old(errors)@).insert(
            id,
            errors_of(errors_view(old(errors)@), id).push(msg@),
        ),
{
    let ghost before = errors_view(errors@);
    let mut cur = match errors.remove(&id) {
        Some(v) => v,
        None => Vec::new(),
    };
    assert(strings_view(cur@) =~= errors_of(before, id));
    let ghost m = msg@;
    cur.push(msg);
    assert(strings_view(cur@) =~= errors_of(before, id).push(m));
    errors.insert(id, cur);
    assert(errors_view(errors@) =~= before.insert(id, errors_of(before, id).push(m)));
}

/// Whether `v` holds a string equal to `s`.
fn contains_string(v: &Vec<String>, s: &String) -> (r: bool)
    ensures
        r == strings_view(v@).contains(s@),
{
    let mut i: usize = 0;
    while i < v.len()
        invariant
            i <= v.len(),
            forall|j: int| 0 <= j < i ==> v@[j]@ != s@,
        decreases v.len() - i,
    {
        if crate::text::str_eq(v[i].as_str(), s.as_str()) {
            assert(strings_view(v@)[i as int] == s@);
            return true;
        }
        i += 1;
    }
    assert forall|j: int| 0 <= j < strings_view(v@).len() implies strings_view(v@)[j] != s@ by {}
    false
}

/// Adds `msg` to the errors of `id` unless already there.
fn add_error_unique(errors: &mut HashMap<u16, Vec<String>>, id: u16, msg: &String)
    ensures
        errors_view(final(errors)@) == add_unique(errors_view(old(errors)@), id, msg@),
{
    let ghost before = errors_view(errors@);
    let mut cur = match errors.remove(&id) {
        Some(v) => v,
        None => Vec::new(),
    };
    assert(strings_view(cur@) =~= errors_of(before, id));
    if !contains_string(&cur, msg) {
        cur.push(msg.clone());
        assert(strings_view(cur@) =~= errors_of(before, id).push(msg@));
    }
    errors.insert(id, cur);
    assert(errors_view(errors@) =~= add_unique(before, id, msg@));
}

/// Reports the cycle closed by an edge back to `target` on `path`.
fn report_cycle(
    target: u16,
    path: &Vec<u16>,
    states: &mut HashMap<u16, VisitState>,
    errors: &mut HashMap<u16, Vec<String>>,
)
    ensures
        (final(states)@, errors_view(final(errors)@)) == report(
            old(states)@,
            errors_view(old(errors)@),
            path@,
            target,
        ),
{
    proof {
        lemma_first_index(path@, target);
    }
    let mut pos: usize = 0;
    while pos < path.len()
        invariant
            pos <= path.len(),
            forall|j: int| 0 <= j < pos ==> path@[j] != target,
        ensures
            pos <= path.len(),
            forall|j: int| 0 <= j < pos ==> path@[j] != target,
            pos < path.len() ==> path@[pos as int] == target,
        decreases path.len() - pos,
    {
        if path[pos] == target {
            break;
        }
        pos += 1;
    }
    if pos == path.len() {
        proof {
            if let Some(q) = first_index(path@, target) {
                assert(path@[q] == target);
            }
        }
        return;
    }
    proof {
        match first_index(path@, target) {
            Some(q) => {
                assert(q == pos);
            },
            None => {
                assert(path@[pos as int] == target);
            },
        }
    }
    let ghost cyc = path@.skip(pos as int);
    let mut msg = String::from_str("Circular dependency detected: ");
    let ghost head = msg@;
    let mut i: usize = pos;
    while i < path.len()
        invariant
            pos <= i <= path.len(),
            msg@ == head + join_with(pad3_all(path@.subrange(pos as int, i as int)), " -> "@),
        decreases path.len() - i,
    {
        let ghost before = msg@;
        if i > pos {
            msg.append(" -> ");
        }
        push_padded3(&mut msg, path[i] as u64);
        proof {
            let t = pad3_all(path@.subrange(pos as int, i + 1));
            assert(t.last() == pad3(path@[i as int] as nat));
            if i > pos {
                assert(t.drop_last() =~= pad3_all(path@.subrange(pos as int, i as int)));
                assert(msg@ =~= before + " -> "@ + t.last());
            } else {
                assert(pad3_all(path@.subrange(pos as int, i as int)) =~= Seq::<Seq<char>>::empty());
                assert(msg@ =~= head + t[0]);
            }
        }
        i += 1;
    }
    msg.append(" -> ");
    push_padded3(&mut msg, target as u64);
    assert(path@.subrange(pos as int, path.len() as int) =~= cyc);
    assert(msg@ =~= cycle_text(cyc, target));
    let ghost v0 = states@;
    let ghost e0 = errors_view(errors@);
    let mut j: usize = pos;
    while j < path.len()
        invariant
            pos <= j <= path.len(),
            states@ == mark_cycle(v0, path@.subrange(pos as int, j as int)),
            errors_view(errors@) == note_cycle(e0, path@.subrange(pos as int, j as int), msg@),
        decreases path.len() - j,
    {
        let node = path[j];
        add_error_unique(errors, node, &msg);
        states.insert(node, VisitState::HasCycle);
        proof {
            let t = path@.subrange(pos as int, j + 1);
            assert(t.drop_last() =~= path@.subrange(pos as int, j as int));
            assert(t.last() == node);
            assert(states@ =~= mark_cycle(v0, t));
        }
        j += 1;
    }
}

/// Whether some of the first `k` configurations has the client ID `id`.
fn has_client_before(cfgs: &Vec<ClientConfig>, k: usize, id: u16) -> (r: bool)
    requires
        k <= cfgs.len(),
    ensures
        r == has_client(cfgs@.take(k as int), id),
{
    let mut i: usize = 0;
    while i < k
        invariant
            i <= k <= cfgs.len(),
            forall|j: int| 0 <= j < i ==> cfgs@[j].client_id != id,
        decreases k - i,
    {
        if cfgs[i].client_id == id {
            assert(cfgs@.take(k as int)[i as int].client_id == id);
            return true;
        }
        i += 1;
    }
    false
}

/// Searches from the client `cid` for dependency cycles in the same cycle
/// and offset, reporting each one found.
#[verifier::loop_isolation(false)]
fn detect_cycle(
    cfgs: &Vec<ClientConfig>,
    cid: u16,
    states: &mut HashMap<u16, VisitState>,
    path: &mut Vec<u16>,
    errors: &mut HashMap<u16, Vec<String>>,
) -> (found: bool)
    requires
        !old(states)@.contains_key(cid),
        has_client(cfgs@, cid),
    ensures
        final(path)@ == old(path)@,
        ({
            let r = dfs_node(cfgs@, old(states)@, errors_view(old(errors)@), old(path)@, cid);
            &&& final(states)@ == r.0
            &&& errors_view(final(errors)@) == r.1
            &&& found == r.2
        }),
        forall|x: u16| old(states)@.contains_key(x) ==> final(states)@.contains_key(x),
    decreases unvisited(cfgs@, states@),
{
    let ghost v0 = states@;
    let ghost e0 = errors_view(errors@);
    let ghost p0 = path@;
    states.insert(cid, VisitState::Visiting);
    path.push(cid);
    let ghost v1 = states@;
    proof {
        lemma_unvisited_insert(cfgs@, v0, cid, VisitState::Visiting);
        lemma_last_index(cfgs@, cid);
    }
    let mut found = false;
    match find_last(cfgs, cid) {
        Some(i) => {
            let c = &cfgs[i];
            let mut k: usize = 0;
            while k < c.depends.len()
                invariant
                    c == cfgs@[i as int],
                    i < cfgs.len(),
                    k <= c.depends.len(),
                    path@ == p0.push(cid),
                    forall|x: u16| v1.contains_key(x) ==> states@.contains_key(x),
                    unvisited(cfgs@, v1) < unvisited(cfgs@, v0),
                    unvisited(cfgs@, states@) <= unvisited(cfgs@, v1),
                    dfs_deps(cfgs@, states@, errors_view(errors@), path@, i as int, k as int, found)
                        == dfs_deps(cfgs@, v1, e0, p0.push(cid), i as int, 0, false),
                decreases c.depends.len() - k,
            {
                let d = c.depends[k];
                let ghost sb = states@;
                let ghost eb = errors_view(errors@);
                let ghost fb = found;
                proof {
                    lemma_last_index(cfgs@, d);
                }
                match find_last(cfgs, d) {
                    None => {},
                    Some(di) => {
                        if cfgs[di].cycle == c.cycle && cfgs[di].cycle_offset == c.cycle_offset {
                            let st = match states.get(&d) {
                                Some(v) => Some(*v),
                                None => None,
                            };
                            match st {
                                None => {
                                    assert(unvisited(cfgs@, states@) < unvisited(cfgs@, v0));
                                    if detect_cycle(cfgs, d, states, path, errors) {
                                        found = true;
                                    }
                                    proof {
                                        lemma_unvisited_mono(cfgs@, sb, states@);
                                    }
                                },
                                Some(VisitState::Visiting) => {
                                    report_cycle(d, path, states, errors);
                                    found = true;
                                    proof {
                                        assert forall|x: u16| sb.contains_key(x) implies states@.contains_key(x) by {
                                            if let Some(pos) = first_index(path@, d) {
                                                lemma_mark_cycle_dom(sb, path@.skip(pos), x);
                                            }
                                        }
                                        lemma_unvisited_mono(cfgs@, sb, states@);
                                    }
                                },
                                Some(VisitState::HasCycle) => {
                                    found = true;
                                },
                                Some(VisitState::Visited) => {},
                            }
                        }
                    },
                }
                proof {
                    lemma_unvisited_mono(cfgs@, v1, states@);
                    assert(dfs_deps(cfgs@, sb, eb, path@, i as int, k as int, fb) == dfs_deps(
                        cfgs@,
                        states@,
                        errors_view(errors@),
                        path@,
                        i as int,
                        k + 1,
                        found,
                    ));
                }
                k += 1;
            }
        },
        None => {},
    }
    let _ = path.pop();
    if found {
        states.insert(cid, VisitState::HasCycle);
    } else {
        states.insert(cid, VisitState::Visited);
    }
    proof {
        assert(path@ =~= p0);
        assert forall|x: u16| v0.contains_key(x) implies states@.contains_key(x) by {
            assert(v1.contains_key(x));
        }
    }
    found
}

impl SchedulerConfig {
    /// Validate the whole configuration: duplicate client IDs, each client's
    /// own settings, its dependencies against the clients they name, and
    /// circular dependencies within one cycle and offset. `Ok(())` when no
    /// error is found, or the errors per client ID.
    pub fn validate(&self) -> (r: Result<(), HashMap<u16, Vec<String>>>)
        ensures
            r is Ok <==> validation_errors(self.client_configs@).is_empty(),
            r is Err ==> errors_view(r->Err_0@) == validation_errors(self.client_configs@),
    {
        let cfgs = &self.client_configs;
        let mut errors: HashMap<u16, Vec<String>> = HashMap::new();
        let mut k: usize = 0;
        assert(errors_view(errors@) =~= duplicate_errors(cfgs@.take(0)));
        while k < cfgs.len()
            invariant
                k <= cfgs.len(),
                errors_view(errors@) == duplicate_errors(cfgs@.take(k as int)),
            decreases cfgs.len() - k,
        {
            let id = cfgs[k].client_id;
            if has_client_before(cfgs, k, id) {
                push_error(&mut errors, id, make_id_msg("Duplicate client ID ", id, ""));
            }
            proof {
                let t = cfgs@.take(k + 1);
                assert(t.drop_last() =~= cfgs@.take(k as int));
                assert(t.last() == cfgs@[k as int]);
            }
            k += 1;
        }
        assert(cfgs@.take(k as int) =~= cfgs@);
        let ghost d0 = errors_view(errors@);
        let mut k: usize = 0;
        while k < cfgs.len()
            invariant
                k <= cfgs.len(),
                errors_view(errors@) == client_phase(cfgs@, d0, k as nat),
            decreases cfgs.len() - k,
        {
            let c = &cfgs[k];
            let mut ce = c.validate();
            push_link_errors(cfgs, k, &mut ce);
            if ce.len() > 0 {
                let ghost before = errors_view(errors@);
                let ghost cev = strings_view(ce@);
                errors.insert(c.client_id, ce);
                assert(errors_view(errors@) =~= before.insert(c.client_id, cev));
            }
            k += 1;
        }
        let ghost e2 = errors_view(errors@);
        let mut states: HashMap<u16, VisitState> = HashMap::new();
        let mut k: usize = 0;
        while k < cfgs.len()
            invariant
                k <= cfgs.len(),
                (states@, errors_view(errors@)) == cycle_phase(cfgs@, Map::empty(), e2, k as nat),
            decreases cfgs.len() - k,
        {
            let id = cfgs[k].client_id;
            if !states.contains_key(&id) {
                let mut path: Vec<u16> = Vec::new();
                assert(has_client(cfgs@, id)) by {
                    assert(cfgs@[k as int].client_id == id);
                }
                let _ = detect_cycle(cfgs, id, &mut states, &mut path, &mut errors);
                assert(path@ =~= Seq::<u16>::empty());
            }
            k += 1;
        }
        if errors.is_empty() {
            Ok(())
        } else {
            Err(errors)
        }
    }
}

/// Appends the errors of the dependencies of the client at position `k`.
fn push_link_errors(cfgs: &Vec<ClientConfig>, k: usize, out: &mut Vec<String>)
    requires
        k < cfgs.len(),
    ensures
        strings_view(final(out)@) == strings_view(old(out)@) + link_errors(
            cfgs@,
            cfgs@[k as int],
            cfgs@[k as int].depends@,
        ),
{
    let c = &cfgs[k];
    let ghost head = strings_view(out@);
    let mut j: usize = 0;
    while j < c.depends.len()
        invariant
            c == cfgs@[k as int],
            j <= c.depends.len(),
            strings_view(out@) == head + link_errors(cfgs@, *c, c.depends@.take(j as int)),
        decreases c.depends.len() - j,
    {
        let d = c.depends[j];
        let ghost before = strings_view(out@);
        proof {
            lemma_last_index(cfgs@, d);
        }
        match find_last(cfgs, d) {
            Some(i) => {
                if cfgs[i].cycle != c.cycle {
                    let mut m = make_id_msg("Dependent process CID:", d, " has different cycle (");
                    push_decimal(&mut m, cfgs[i].cycle as u64);
                    m.append(" vs ");
                    push_decimal(&mut m, c.cycle as u64);
                    m.append(")");
                    out.push(m);
                }
                if cfgs[i].cycle_offset > c.cycle_offset {
                    let mut m = make_id_msg(
                        "Dependent process CID:",
                        d,
                        " has larger cycle_offset (",
                    );
                    push_decimal(&mut m, cfgs[i].cycle_offset as u64);
                    m.append(" > ");
                    push_decimal(&mut m, c.cycle_offset as u64);
                    m.append(")");
                    out.push(m);
                }
            },
            None => {
                out.push(make_id_msg("Dependent process CID:", d, " does not exist"));
            },
        }
        proof {
            let t = c.depends@.take(j + 1);
            assert(t.drop_last() =~= c.depends@.take(j as int));
            assert(t.last() == d);
            assert(strings_view(out@) =~= before + match last_index(cfgs@, d) {
                Some(i) => (if cfgs@[i].cycle != c.cycle {
                    seq![
                        id_msg("Dependent process CID:"@, d, " has different cycle ("@)
                            + dec_digits(cfgs@[i].cycle as nat) + " vs "@ + dec_digits(
                            c.cycle as nat,
                        ) + ")"@,
                    ]
                } else {
                    Seq::empty()
                }) + (if cfgs@[i].cycle_offset > c.cycle_offset {
                    seq![
                        id_msg("Dependent process CID:"@, d, " has larger cycle_offset ("@)
                            + dec_digits(cfgs@[i].cycle_offset as nat) + " > "@ + dec_digits(
                            c.cycle_offset as nat,
                        ) + ")"@,
                    ]
                } else {
                    Seq::empty()
                }),
                None => seq![id_msg("Dependent process CID:"@, d, " does not exist"@)],
            });
        }
        j += 1;
    }
    assert(c.depends@.take(j as int) =~= c.depends@);
}

} // verus!
