//! What `process_tree` answers, in terms of the processes of the listing.

use vstd::prelude::*;

use crate::collector::proc::SnapshotView;
use crate::collector::read::ReadFailure;
use crate::collector::walk::{skipped_count, snapshots, DirEntry};
use crate::error::{viewed, Error, ErrorView};
use crate::mcp::process_entry::{entry_of, redacts};
use crate::mcp::rank::{goes_down, lemma_filter_member, lemma_ranking_map, rank_of, ranks_before};
use crate::mcp::tools::ancestry::{
    ancestor, climbs, descends, heads_ring, in_ring, is_child, lemma_climb_on, lemma_longer_way,
    lemma_round_decides, lemma_way_by,
};
use crate::mcp::tools::answer_laws::{are_twin_listings, lemma_twin_listings, shown_as, shows};
use crate::mcp::tools::process_tree::{
    below, by_pid, child_of, forest_view, is_answer, is_forest, is_root, is_tree, lemma_pid_order,
    pid_order, pid_rank, pids_of, ranked_children, taken, tree_view, ModeView, ProcessTreeParams,
    ProcessTreeResponse, TreeNode,
};
use crate::mcp::tools::tree_laws::{
    law_by_pid_holds_every_process, law_cgroup_forest_holds_every_member, law_children_are_ranked,
    law_forest_is_unique, law_root_tree_holds_every_descendant, lemma_ascending_unique,
    lemma_forest_view, lemma_node_child, occurrences_in,
};
use crate::mcp::util::cgroup_path_checked;

verus! {

// ---------------------------------------------------------------------------
// Every node
// ---------------------------------------------------------------------------

/// Whether something holds of a node and of all below it.
pub open spec fn holds_of_tree(node: TreeNode, holds: spec_fn(TreeNode) -> bool) -> bool
    decreases node,
{
    holds(node) && holds_of_forest(node.children@, holds)
}

/// Whether something holds of every node of a row of trees.
pub open spec fn holds_of_forest(nodes: Seq<TreeNode>, holds: spec_fn(TreeNode) -> bool) -> bool
    decreases nodes,
{
    nodes.len() > 0 ==> holds_of_forest(nodes.drop_last(), holds) && holds_of_tree(
        nodes.last(),
        holds,
    )
}

/// Whether `x` is the process of its pid in the listing: of several with that pid
/// the last.
pub open spec fn is_process_of(s: Seq<SnapshotView>, i: int) -> bool {
    &&& 0 <= i < s.len()
    &&& forall|j: int| i < j < s.len() ==> (#[trigger] s[j]).pid != s[i].pid
}

/// Whether a node shows a process of the listing as it is asked for.
pub open spec fn shows_a_process(s: Seq<SnapshotView>, redact_args: Option<bool>) -> spec_fn(
    TreeNode,
) -> bool {
    |n: TreeNode|
        exists|i: int| #[trigger] is_process_of(s, i) && shows(n.base@, s[i], redact_args)
}

/// Whether the children of a node name it as their parent, with their sizes going
/// down.
pub open spec fn stands_over_its_children() -> spec_fn(TreeNode) -> bool {
    |n: TreeNode|
        {
            &&& forall|i: int|
                0 <= i < n.children@.len() ==> (#[trigger] n.children@[i]).base.ppid == n.base.pid
            &&& goes_down(n.children@.map_values(|c: TreeNode| c.base.rss_bytes))
        }
}

pub open spec fn is_in_cgroup(path: Seq<char>) -> spec_fn(TreeNode) -> bool {
    |n: TreeNode| n.base.cgroup_path@ == path
}

/// The process under a pid is one of the listing.
proof fn lemma_process_of(s: Seq<SnapshotView>, p: u32) -> (i: int)
    requires
        by_pid(s).contains_key(p),
    ensures
        is_process_of(s, i),
        s[i].pid == p,
        by_pid(s)[p] == s[i],
    decreases s.len(),
{
    let init = s.drop_last();
    if s.last().pid == p {
        assert(s[s.len() - 1] == s.last());
        s.len() - 1
    } else {
        let i = lemma_process_of(init, p);
        assert(init[i] == s[i]);
        assert forall|j: int| i < j < s.len() implies (#[trigger] s[j]).pid != s[i].pid by {
            if j < init.len() {
                assert(init[j] == s[j]);
            } else {
                assert(s[j] == s.last());
            }
        }
        i
    }
}

proof fn lemma_all_nodes(
    nodes: Seq<TreeNode>,
    s: Seq<SnapshotView>,
    mode: ModeView,
    redact: bool,
    holds: spec_fn(TreeNode) -> bool,
)
    requires
        forall|i: int|
            0 <= i < nodes.len() ==> is_tree(
                #[trigger] nodes[i],
                s,
                below(by_pid(s), mode),
                redact,
            ) && taken(by_pid(s), mode).contains(nodes[i].base.pid),
        forall|n: TreeNode| #[trigger]
            is_tree(n, s, below(by_pid(s), mode), redact) && taken(by_pid(s), mode).contains(
                n.base.pid,
            ) ==> holds(n),
    ensures
        holds_of_forest(nodes, holds),
    decreases nodes,
{
    if nodes.len() > 0 {
        let among = below(by_pid(s), mode);
        let init = nodes.drop_last();
        assert forall|i: int| 0 <= i < init.len() implies is_tree(
            #[trigger] init[i],
            s,
            among,
            redact,
        ) && taken(by_pid(s), mode).contains(init[i].base.pid) by {
            assert(init[i] == nodes[i]);
        }
        lemma_all_nodes(init, s, mode, redact, holds);
        let node = nodes.last();
        assert(node == nodes[nodes.len() - 1]);
        let kids = node.children@;
        assert forall|i: int| 0 <= i < kids.len() implies is_tree(
            #[trigger] kids[i],
            s,
            among,
            redact,
        ) && taken(by_pid(s), mode).contains(kids[i].base.pid) by {
            lemma_node_child(node, s, among, redact, i);
        }
        lemma_all_nodes(kids, s, mode, redact, holds);
        assert(is_tree(node, s, among, redact));
        assert(holds(node));
        assert(holds_of_tree(node, holds));
    }
}

proof fn lemma_roots_are_taken(
    forest: Seq<TreeNode>,
    s: Seq<SnapshotView>,
    mode: ModeView,
    redact: bool,
)
    requires
        is_forest(forest, s, mode, redact),
    ensures
        forall|i: int|
            0 <= i < forest.len() ==> is_tree(
                #[trigger] forest[i],
                s,
                below(by_pid(s), mode),
                redact,
            ) && taken(by_pid(s), mode).contains(forest[i].base.pid),
{
    assert forall|i: int| 0 <= i < forest.len() implies is_tree(
        #[trigger] forest[i],
        s,
        below(by_pid(s), mode),
        redact,
    ) && taken(by_pid(s), mode).contains(forest[i].base.pid) by {
        assert(pids_of(forest)[i] == forest[i].base.pid);
        assert(pids_of(forest).contains(pids_of(forest)[i]));
    }
}

/// Every node of an answer shows a process of the listing, and stands over
/// processes that name it as their parent, the largest first.
pub proof fn law_nodes_show_processes_over_their_children(
    response: ProcessTreeResponse,
    proc_root: Seq<char>,
    entries: Vec<DirEntry>,
    params: ProcessTreeParams,
)
    requires
        is_answer(Ok(response), proc_root, Ok(entries), params),
    ensures
        holds_of_forest(
            response.forest@,
            shows_a_process(snapshots(entries@), params.redact_args),
        ),
        holds_of_forest(response.forest@, stands_over_its_children()),
        response.skipped == skipped_count(entries@),
        response.root_pid == params.root_pid,
{
    let s = snapshots(entries@);
    let redact = redacts(params.redact_args);
    let mode = match params.root_pid {
        Some(pid) => ModeView::RootPid(pid),
        None => ModeView::Cgroup(params.cgroup_path->0@),
    };
    let among = below(by_pid(s), mode);
    lemma_roots_are_taken(response.forest@, s, mode, redact);
    let first = shows_a_process(s, params.redact_args);
    let second = stands_over_its_children();
    assert forall|n: TreeNode| #[trigger]
        is_tree(n, s, among, redact) && taken(by_pid(s), mode).contains(n.base.pid) implies first(
        n,
    ) by {
        let i = lemma_process_of(s, n.base.pid);
        assert(is_process_of(s, i) && shows(n.base@, s[i], params.redact_args));
    }
    assert forall|n: TreeNode| #[trigger]
        is_tree(n, s, among, redact) && taken(by_pid(s), mode).contains(n.base.pid) implies second(
        n,
    ) by {
        law_children_are_ranked(n, s, among, redact);
        let kids = n.children@;
        assert forall|i: int| 0 <= i < kids.len() implies (#[trigger] kids[i]).base.ppid
            == n.base.pid by {
            lemma_node_child(n, s, among, redact, i);
            assert(kids[i].base@.ppid == by_pid(s)[kids[i].base.pid].ppid);
        }
        let sizes = kids.map_values(|c: TreeNode| c.base.rss_bytes);
        assert forall|i: int, j: int| 0 <= i < j < sizes.len() implies ((
        #[trigger] sizes[j]) matches Some(y) ==> (#[trigger] sizes[i]) matches Some(x) && x
            >= y) by {
            assert(ranks_before(
                rank_of::<TreeNode>()(kids[i]),
                rank_of::<TreeNode>()(kids[j]),
            ));
        }
    }
    lemma_all_nodes(response.forest@, s, mode, redact, first);
    lemma_all_nodes(response.forest@, s, mode, redact, second);
}

// ---------------------------------------------------------------------------
// Cgroups
// ---------------------------------------------------------------------------

/// The forest of a cgroup is of the processes whose cgroup is exactly that one:
/// every node is in it, every process of the listing that is in it stands in the
/// forest once, and no other process does.
pub proof fn law_cgroup_forest_is_of_exactly_its_cgroup(
    response: ProcessTreeResponse,
    proc_root: Seq<char>,
    entries: Vec<DirEntry>,
    params: ProcessTreeParams,
    path: Seq<char>,
)
    requires
        is_answer(Ok(response), proc_root, Ok(entries), params),
        params.cgroup_path matches Some(p) && p@ == path,
    ensures
        response.cgroup_path matches Some(p) && p@ == path,
        holds_of_forest(response.forest@, is_in_cgroup(path)),
        forall|i: int| #[trigger]
            is_process_of(snapshots(entries@), i) ==> occurrences_in(
                response.forest@,
                snapshots(entries@)[i].pid,
            ) == if snapshots(entries@)[i].cgroup_path == path {
                1nat
            } else {
                0nat
            },
        forall|q: u32|
            (forall|i: int|
                0 <= i < snapshots(entries@).len() ==> (#[trigger] snapshots(entries@)[i]).pid != q)
                ==> #[trigger] occurrences_in(response.forest@, q) == 0,
{
    let s = snapshots(entries@);
    let redact = redacts(params.redact_args);
    let mode = ModeView::Cgroup(path);
    let among = below(by_pid(s), mode);
    let forest = response.forest@;
    lemma_roots_are_taken(forest, s, mode, redact);
    let holds = is_in_cgroup(path);
    assert forall|n: TreeNode| #[trigger]
        is_tree(n, s, among, redact) && taken(by_pid(s), mode).contains(n.base.pid) implies holds(
        n,
    ) by {
        assert(n.base@.cgroup_path == by_pid(s)[n.base.pid].cgroup_path);
    }
    lemma_all_nodes(forest, s, mode, redact, holds);
    assert forall|i: int| #[trigger] is_process_of(s, i) implies occurrences_in(forest, s[i].pid)
        == if s[i].cgroup_path == path {
        1nat
    } else {
        0nat
    } by {
        law_by_pid_holds_every_process(s);
        assert(by_pid(s)[s[i].pid] == s[i]);
        law_cgroup_forest_holds_every_member(forest, s, path, redact, s[i].pid);
    }
    assert forall|q: u32|
        (forall|i: int| 0 <= i < s.len() ==> (#[trigger] s[i]).pid != q)
            implies #[trigger] occurrences_in(forest, q) == 0 by {
        law_cgroup_forest_holds_every_member(forest, s, path, redact, q);
        if by_pid(s).contains_key(q) {
            let i = lemma_process_of(s, q);
            assert(s[i].pid == q);
        }
    }
}

/// Whether the process under a pid is in the cgroup.
pub open spec fn is_of(s: Seq<SnapshotView>, path: Seq<char>, p: u32) -> bool {
    by_pid(s).contains_key(p) && by_pid(s)[p].cgroup_path == path
}

/// Whether a way goes from child to parent at its step `i`.
pub open spec fn is_step(s: Seq<SnapshotView>, way: Seq<u32>, i: int) -> bool {
    by_pid(s).contains_key(way[i]) && by_pid(s)[way[i]].ppid == way[i + 1]
}

/// Whether `ring` goes from `p` from child to parent inside the cgroup and back to
/// `p`, by no smaller pid.
pub open spec fn is_ring_from(
    s: Seq<SnapshotView>,
    path: Seq<char>,
    ring: Seq<u32>,
    p: u32,
) -> bool {
    &&& ring.len() > 0
    &&& ring[0] == p
    &&& forall|i: int| 0 <= i < ring.len() ==> is_of(s, path, #[trigger] ring[i]) && p <= ring[i]
    &&& forall|i: int| 0 <= i < ring.len() - 1 ==> #[trigger] is_step(s, ring, i)
    &&& by_pid(s)[ring.last()].ppid == p
}

proof fn lemma_ring_climbs(
    s: Seq<SnapshotView>,
    path: Seq<char>,
    ring: Seq<u32>,
    p: u32,
    i: int,
)
    requires
        is_ring_from(s, path, ring, p),
        0 <= i < ring.len(),
    ensures
        climbs(by_pid(s), taken(by_pid(s), ModeView::Cgroup(path)), p, ring[i], i as nat),
    decreases i,
{
    if i > 0 {
        let members = taken(by_pid(s), ModeView::Cgroup(path));
        lemma_ring_climbs(s, path, ring, p, i - 1);
        assert(is_of(s, path, ring[i - 1]));
        assert(is_step(s, ring, i - 1));
        assert(climbs(by_pid(s), members, ring[i], ring[i], 0));
        assert(climbs(by_pid(s), members, ring[i - 1], ring[i], 1));
        lemma_climb_on(
            by_pid(s),
            members,
            p,
            ring[i - 1],
            ring[i],
            (i - 1) as nat,
            1,
        );
    }
}

proof fn lemma_ring_heads(s: Seq<SnapshotView>, path: Seq<char>, ring: Seq<u32>, p: u32)
    requires
        is_ring_from(s, path, ring, p),
    ensures
        heads_ring(by_pid(s), taken(by_pid(s), ModeView::Cgroup(path)), p),
{
    let procs = by_pid(s);
    let members = taken(procs, ModeView::Cgroup(path));
    let last = ring.len() - 1;
    let round = ring.len();
    lemma_ring_climbs(s, path, ring, p, last);
    assert(is_of(s, path, ring[last]));
    assert(climbs(procs, members, p, p, 0));
    assert(climbs(procs, members, ring[last], p, 1));
    lemma_climb_on(
        procs,
        members,
        p,
        ring[last],
        p,
        last as nat,
        1,
    );
    assert(climbs(procs, members, p, p, round));
    assert forall|a: u32, i: nat| i < round && #[trigger] climbs(procs, members, p, a, i) implies p
        <= a by {
        lemma_ring_climbs(s, path, ring, p, i as int);
        lemma_longer_way(procs, members, p, ring[i as int], a, i, i);
        assert(p <= ring[i as int]);
    }
    assert forall|q: u32, k: nat| #[trigger] climbs(procs, members, p, q, k) implies p <= q by {
        lemma_round_decides(procs, members, p, round, q, k);
    }
}

proof fn lemma_head_has_ring(s: Seq<SnapshotView>, path: Seq<char>, p: u32) -> (ring: Seq<u32>)
    requires
        heads_ring(by_pid(s), taken(by_pid(s), ModeView::Cgroup(path)), p),
    ensures
        is_ring_from(s, path, ring, p),
{
    let procs = by_pid(s);
    let members = taken(procs, ModeView::Cgroup(path));
    assert(in_ring(procs, members, p));
    let k = choose|k: nat| k > 0 && climbs(procs, members, p, p, k);
    let ring = Seq::new(k, |i: int| ancestor(procs, p, i as nat));
    assert forall|i: int| 0 <= i < ring.len() implies is_of(s, path, #[trigger] ring[i]) && p
        <= ring[i] && climbs(procs, members, ring[i], p, (k - i) as nat) by {
        lemma_way_by(procs, members, p, p, k, i as nat);
    }
    assert forall|i: int| 0 <= i < ring.len() - 1 implies #[trigger] is_step(s, ring, i) by {
        lemma_next_ancestor(procs, p, i as nat);
        assert(is_of(s, path, ring[i]));
    }
    let last = ring.len() - 1;
    assert(climbs(procs, members, ring[last], p, 1));
    assert(climbs(procs, members, procs[ring[last]].ppid, p, 0));
    ring
}

proof fn lemma_next_ancestor(procs: Map<u32, SnapshotView>, p: u32, k: nat)
    ensures
        ancestor(procs, p, k + 1) == procs[ancestor(procs, p, k)].ppid,
    decreases k,
{
    if k > 0 {
        lemma_next_ancestor(procs, procs[p].ppid, (k - 1) as nat);
    } else {
        assert(ancestor(procs, procs[p].ppid, 0) == procs[p].ppid);
    }
}

/// The forest of a cgroup stands on the processes whose parent is outside the
/// cgroup, and on the smallest pid of each ring of parents inside it, and on no
/// others, by ascending pid. So a process whose parent is in the cgroup stands
/// below it, unless that closes a ring.
pub proof fn law_cgroup_forest_stands_on_its_roots(
    response: ProcessTreeResponse,
    proc_root: Seq<char>,
    entries: Vec<DirEntry>,
    params: ProcessTreeParams,
    path: Seq<char>,
    p: u32,
)
    requires
        is_answer(Ok(response), proc_root, Ok(entries), params),
        params.cgroup_path matches Some(text) && text@ == path,
    ensures
        (exists|i: int|
            0 <= i < response.forest@.len() && (#[trigger] response.forest@[i]).base.pid == p)
            <==> is_of(snapshots(entries@), path, p) && (!is_of(
            snapshots(entries@),
            path,
            by_pid(snapshots(entries@))[p].ppid,
        ) || exists|ring: Seq<u32>| #[trigger]
            is_ring_from(snapshots(entries@), path, ring, p)),
        forall|i: int, j: int|
            0 <= i < j < response.forest@.len() ==> (#[trigger] response.forest@[i]).base.pid < (
            #[trigger] response.forest@[j]).base.pid,
{
    let s = snapshots(entries@);
    let forest = response.forest@;
    let mode = ModeView::Cgroup(path);
    let pids = pids_of(forest);
    assert(is_forest(forest, s, mode, redacts(params.redact_args)));
    assert(pids.contains(p) <==> is_root(by_pid(s), mode, p));
    if pids.contains(p) {
        let i = choose|i: int| 0 <= i < pids.len() && pids[i] == p;
        assert(forest[i].base.pid == p);
        if is_of(s, path, by_pid(s)[p].ppid) {
            let ring = lemma_head_has_ring(s, path, p);
            assert(is_ring_from(s, path, ring, p));
        }
    }
    if exists|i: int| 0 <= i < forest.len() && (#[trigger] forest[i]).base.pid == p {
        let i = choose|i: int| 0 <= i < forest.len() && (#[trigger] forest[i]).base.pid == p;
        assert(pids[i] == p);
    }
    if exists|ring: Seq<u32>| #[trigger] is_ring_from(s, path, ring, p) {
        let ring = choose|ring: Seq<u32>| #[trigger] is_ring_from(s, path, ring, p);
        lemma_ring_heads(s, path, ring, p);
    }
    assert forall|i: int, j: int| 0 <= i < j < forest.len() implies (
    #[trigger] forest[i]).base.pid < (#[trigger] forest[j]).base.pid by {
        assert(pids[i] < pids[j]);
    }
}

// ---------------------------------------------------------------------------
// Descendants
// ---------------------------------------------------------------------------

/// Whether `way` leads from `q`, from child to parent, to `p`.
pub open spec fn leads(s: Seq<SnapshotView>, way: Seq<u32>, q: u32, p: u32) -> bool {
    &&& way.len() > 0
    &&& way[0] == q
    &&& way.last() == p
    &&& forall|i: int| 0 <= i < way.len() - 1 ==> #[trigger] is_step(s, way, i)
}

proof fn lemma_leads_climbs(s: Seq<SnapshotView>, way: Seq<u32>, q: u32, p: u32)
    requires
        leads(s, way, q, p),
    ensures
        climbs(by_pid(s), by_pid(s).dom(), q, p, (way.len() - 1) as nat),
    decreases way.len(),
{
    if way.len() > 1 {
        let rest = way.skip(1);
        assert(is_step(s, way, 0));
        assert forall|i: int| 0 <= i < rest.len() - 1 implies #[trigger] is_step(s, rest, i) by {
            assert(is_step(s, way, i + 1));
        }
        assert(rest.last() == way.last());
        lemma_leads_climbs(s, rest, way[1], p);
    }
}

proof fn lemma_climbs_leads(s: Seq<SnapshotView>, q: u32, p: u32, k: nat) -> (way: Seq<u32>)
    requires
        climbs(by_pid(s), by_pid(s).dom(), q, p, k),
    ensures
        leads(s, way, q, p),
    decreases k,
{
    if k == 0 {
        seq![q]
    } else {
        let rest = lemma_climbs_leads(s, by_pid(s)[q].ppid, p, (k - 1) as nat);
        let way = seq![q] + rest;
        assert forall|i: int| 0 <= i < way.len() - 1 implies #[trigger] is_step(s, way, i) by {
            assert(way[i + 1] == rest[i]);
            if i > 0 {
                assert(is_step(s, rest, i - 1));
                assert(way[i] == rest[i - 1]);
            }
        }
        assert(way.last() == rest.last());
        way
    }
}

/// The answer for a pid is one tree, on that pid, in which a process stands once
/// where a way from child to parent leads from it to the pid, and not at all
/// otherwise.
pub proof fn law_pid_tree_is_of_exactly_its_descendants(
    response: ProcessTreeResponse,
    proc_root: Seq<char>,
    entries: Vec<DirEntry>,
    params: ProcessTreeParams,
    root: u32,
    q: u32,
)
    requires
        is_answer(Ok(response), proc_root, Ok(entries), params),
        params.root_pid == Some(root),
    ensures
        response.forest@.len() == 1,
        response.forest@[0].base.pid == root,
        occurrences_in(response.forest@, q) == if exists|way: Seq<u32>| #[trigger]
            leads(snapshots(entries@), way, q, root) {
            1nat
        } else {
            0nat
        },
{
    let s = snapshots(entries@);
    law_root_tree_holds_every_descendant(
        response.forest@,
        s,
        root,
        redacts(params.redact_args),
        q,
    );
    if exists|way: Seq<u32>| #[trigger] leads(s, way, q, root) {
        let way = choose|way: Seq<u32>| #[trigger] leads(s, way, q, root);
        lemma_leads_climbs(s, way, q, root);
        assert(descends(by_pid(s), by_pid(s).dom(), q, root));
    }
    if descends(by_pid(s), by_pid(s).dom(), q, root) {
        let k = choose|k: nat| climbs(by_pid(s), by_pid(s).dom(), q, root, k);
        let way = lemma_climbs_leads(s, q, root, k);
        assert(leads(s, way, q, root));
    }
}

// ---------------------------------------------------------------------------
// Secrets
// ---------------------------------------------------------------------------

/// Whether two listings show the same.
spec fn show_alike(s: Seq<SnapshotView>, t: Seq<SnapshotView>) -> bool {
    s.map_values(shown_as(true)) == t.map_values(shown_as(true))
}

/// Whether the processes under each pid show the same.
spec fn pids_show_alike(a: Map<u32, SnapshotView>, b: Map<u32, SnapshotView>) -> bool {
    &&& a.dom() == b.dom()
    &&& forall|p: u32| #[trigger]
        a.contains_key(p) ==> entry_of(a[p], true) == entry_of(b[p], true)
}

proof fn lemma_alike(s: Seq<SnapshotView>, t: Seq<SnapshotView>)
    requires
        show_alike(s, t),
    ensures
        s.len() == t.len(),
        pid_order(s) == pid_order(t),
        pids_show_alike(by_pid(s), by_pid(t)),
    decreases s.len(),
{
    let f = shown_as(true);
    assert(s.len() == s.map_values(f).len() && t.len() == t.map_values(f).len());
    if s.len() > 0 {
        let (x, y) = (s.drop_last(), t.drop_last());
        assert(x.map_values(f) =~= s.map_values(f).drop_last());
        assert(y.map_values(f) =~= t.map_values(f).drop_last());
        lemma_alike(x, y);
        assert(s.map_values(f).last() == t.map_values(f).last());
        assert(entry_of(s.last(), true) == entry_of(t.last(), true));
        assert(s.last().pid == entry_of(s.last(), true).pid);
        assert(t.last().pid == entry_of(t.last(), true).pid);
        assert(by_pid(s).dom() =~= by_pid(t).dom());
        assert forall|p: u32| #[trigger] by_pid(s).contains_key(p) implies entry_of(
            by_pid(s)[p],
            true,
        ) == entry_of(by_pid(t)[p], true) by {
            if p != s.last().pid {
                assert(by_pid(x).contains_key(p));
            }
        }
    } else {
        assert(by_pid(s).dom() =~= by_pid(t).dom());
    }
}

proof fn lemma_alike_climbs(
    a: Map<u32, SnapshotView>,
    b: Map<u32, SnapshotView>,
    among: Set<u32>,
    q: u32,
    p: u32,
    k: nat,
)
    requires
        pids_show_alike(a, b),
    ensures
        climbs(a, among, q, p, k) == climbs(b, among, q, p, k),
    decreases k,
{
    if k > 0 && a.contains_key(q) {
        assert(b.dom().contains(q));
        assert(entry_of(a[q], true).ppid == entry_of(b[q], true).ppid);
        lemma_alike_climbs(a, b, among, a[q].ppid, p, (k - 1) as nat);
    } else if k > 0 {
        assert(!b.dom().contains(q));
    }
}

proof fn lemma_alike_heads(
    a: Map<u32, SnapshotView>,
    b: Map<u32, SnapshotView>,
    among: Set<u32>,
    p: u32,
)
    requires
        pids_show_alike(a, b),
        heads_ring(a, among, p),
    ensures
        heads_ring(b, among, p),
{
    assert(in_ring(a, among, p));
    let k = choose|k: nat| k > 0 && climbs(a, among, p, p, k);
    lemma_alike_climbs(a, b, among, p, p, k);
    assert(climbs(b, among, p, p, k));
    assert forall|q: u32, k: nat| #[trigger] climbs(b, among, p, q, k) implies p <= q by {
        lemma_alike_climbs(a, b, among, p, q, k);
    }
}

proof fn lemma_alike_sym(a: Map<u32, SnapshotView>, b: Map<u32, SnapshotView>)
    requires
        pids_show_alike(a, b),
    ensures
        pids_show_alike(b, a),
{
    assert forall|p: u32| #[trigger] b.contains_key(p) implies entry_of(b[p], true) == entry_of(
        a[p],
        true,
    ) by {
        assert(a.contains_key(p));
    }
}

proof fn lemma_alike_roots(a: Map<u32, SnapshotView>, b: Map<u32, SnapshotView>, mode: ModeView)
    requires
        pids_show_alike(a, b),
    ensures
        taken(a, mode) == taken(b, mode),
        forall|p: u32| #[trigger] is_root(a, mode, p) == is_root(b, mode, p),
        below(a, mode) == below(b, mode),
{
    lemma_alike_sym(a, b);
    assert forall|p: u32| taken(a, mode).contains(p) == taken(b, mode).contains(p) by {
        if a.contains_key(p) {
            assert(entry_of(a[p], true).cgroup_path == entry_of(b[p], true).cgroup_path);
            assert(b.dom().contains(p));
        } else {
            assert(!b.dom().contains(p));
        }
    }
    assert(taken(a, mode) =~= taken(b, mode));
    let among = taken(a, mode);
    assert forall|p: u32| #[trigger] is_root(a, mode, p) == is_root(b, mode, p) by {
        if among.contains(p) {
            assert(a.contains_key(p));
            assert(entry_of(a[p], true).ppid == entry_of(b[p], true).ppid);
            if heads_ring(a, among, p) {
                lemma_alike_heads(a, b, among, p);
            }
            if heads_ring(b, among, p) {
                lemma_alike_heads(b, a, among, p);
            }
        }
    }
    assert(below(a, mode) =~= below(b, mode));
}

proof fn lemma_alike_children(
    s: Seq<SnapshotView>,
    t: Seq<SnapshotView>,
    among: Set<u32>,
    parent: u32,
)
    requires
        show_alike(s, t),
    ensures
        ranked_children(s, among, parent) == ranked_children(t, among, parent),
{
    lemma_alike(s, t);
    lemma_pid_order(s);
    let (a, b) = (by_pid(s), by_pid(t));
    let keep = child_of(s, among, parent);
    assert(keep =~= child_of(t, among, parent)) by {
        assert forall|c: u32| #[trigger]
            is_child(a, among, parent, c)
                == is_child(b, among, parent, c) by {
            if a.contains_key(c) {
                assert(entry_of(a[c], true).ppid == entry_of(b[c], true).ppid);
                assert(b.dom().contains(c));
            } else {
                assert(!b.dom().contains(c));
            }
        }
    }
    let list = pid_order(s).filter(keep);
    let same = |p: u32| p;
    assert forall|i: int| 0 <= i < list.len() implies pid_rank(t)(same(#[trigger] list[i]))
        == pid_rank(s)(list[i]) by {
        assert(list.contains(list[i]));
        lemma_filter_member(pid_order(s), keep, list[i]);
        assert(a.contains_key(list[i]));
        assert(entry_of(a[list[i]], true).rss_bytes == entry_of(b[list[i]], true).rss_bytes);
    }
    lemma_ranking_map(list, same, pid_rank(s), pid_rank(t));
    assert(list.map_values(same) =~= list);
    let r = ranked_children(s, among, parent);
    assert(r.map_values(same) =~= r);
}

proof fn lemma_alike_trees(
    x: TreeNode,
    y: TreeNode,
    s: Seq<SnapshotView>,
    t: Seq<SnapshotView>,
    among: Set<u32>,
)
    requires
        show_alike(s, t),
        is_tree(x, s, among, true),
        is_tree(y, t, among, true),
        x.base.pid == y.base.pid,
    ensures
        tree_view(x) == tree_view(y),
    decreases x,
{
    let (v, w) = (x.children@, y.children@);
    lemma_alike(s, t);
    assert(by_pid(s).contains_key(x.base.pid));
    lemma_alike_children(s, t, among, x.base.pid);
    assert(pids_of(v).len() == v.len() && pids_of(w).len() == w.len());
    lemma_forest_view(v);
    lemma_forest_view(w);
    assert forall|i: int| 0 <= i < v.len() implies forest_view(v)[i] == forest_view(w)[i] by {
        assert(pids_of(v)[i] == v[i].base.pid && pids_of(w)[i] == w[i].base.pid);
        assert(is_tree(x.children[i], s, among, true));
        assert(is_tree(y.children[i], t, among, true));
        lemma_alike_trees(x.children[i], y.children[i], s, t, among);
    }
    assert(forest_view(v) =~= forest_view(w));
}

proof fn lemma_alike_forests(
    x: Seq<TreeNode>,
    y: Seq<TreeNode>,
    s: Seq<SnapshotView>,
    t: Seq<SnapshotView>,
    mode: ModeView,
)
    requires
        show_alike(s, t),
        is_forest(x, s, mode, true),
        is_forest(y, t, mode, true),
    ensures
        forest_view(x) == forest_view(y),
{
    lemma_alike(s, t);
    lemma_alike_roots(by_pid(s), by_pid(t), mode);
    assert forall|p: u32| pids_of(x).contains(p) <==> pids_of(y).contains(p) by {
        assert(pids_of(x).contains(p) <==> is_root(by_pid(s), mode, p));
        assert(pids_of(y).contains(p) <==> is_root(by_pid(t), mode, p));
    }
    lemma_ascending_unique(pids_of(x), pids_of(y));
    assert(pids_of(x).len() == x.len() && pids_of(y).len() == y.len());
    lemma_forest_view(x);
    lemma_forest_view(y);
    assert forall|i: int| 0 <= i < x.len() implies forest_view(x)[i] == forest_view(y)[i] by {
        assert(pids_of(x)[i] == x[i].base.pid && pids_of(y)[i] == y[i].base.pid);
        lemma_alike_trees(x[i], y[i], s, t, below(by_pid(s), mode));
    }
    assert(forest_view(x) =~= forest_view(y));
}

/// Unless the caller says `false`, `process_tree` answers two listings that differ
/// in secrets alike.
pub proof fn law_process_tree_hides_secrets(
    x: Result<ProcessTreeResponse, Error>,
    y: Result<ProcessTreeResponse, Error>,
    proc_root: Seq<char>,
    a: Vec<DirEntry>,
    b: Vec<DirEntry>,
    params: ProcessTreeParams,
)
    requires
        are_twin_listings(a@, b@),
        params.redact_args != Some(false),
        is_answer(x, proc_root, Ok(a), params),
        is_answer(y, proc_root, Ok(b), params),
    ensures
        viewed(x) == viewed(y),
{
    let (s, t) = (snapshots(a@), snapshots(b@));
    lemma_twin_listings(a@, b@);
    lemma_alike(s, t);
    if let Some(pid) = params.root_pid {
        assert(by_pid(s).contains_key(pid) <==> by_pid(t).dom().contains(pid));
    }
    if let (Ok(v), Ok(w)) = (x, y) {
        let mode = match params.root_pid {
            Some(pid) => ModeView::RootPid(pid),
            None => ModeView::Cgroup(params.cgroup_path->0@),
        };
        lemma_alike_forests(v.forest@, w.forest@, s, t, mode);
    }
}

/// To ask `process_tree` for redaction is to say nothing of it.
pub proof fn law_process_tree_redacts_by_default(
    x: Result<ProcessTreeResponse, Error>,
    y: Result<ProcessTreeResponse, Error>,
    proc_root: Seq<char>,
    listing: Result<Vec<DirEntry>, ReadFailure>,
    asked: ProcessTreeParams,
    silent: ProcessTreeParams,
)
    requires
        asked.redact_args == Some(true),
        silent.redact_args is None,
        asked.root_pid == silent.root_pid,
        asked.cgroup_path == silent.cgroup_path,
        is_answer(x, proc_root, listing, asked),
        is_answer(y, proc_root, listing, silent),
    ensures
        viewed(x) == viewed(y),
{
    if let (Ok(v), Ok(w)) = (x, y) {
        let mode = match asked.root_pid {
            Some(pid) => ModeView::RootPid(pid),
            None => ModeView::Cgroup(asked.cgroup_path->0@),
        };
        law_forest_is_unique(v.forest@, w.forest@, snapshots(listing->Ok_0@), mode, true);
    }
}

/// A pid is answered with its tree exactly where a process of the listing has it,
/// and else told; a cgroup whose path is not refused is always answered with its
/// forest; and to ask for both, or for neither, is an error of its own.
pub proof fn law_tree_is_answered_or_told(
    r: Result<ProcessTreeResponse, Error>,
    proc_root: Seq<char>,
    entries: Vec<DirEntry>,
    params: ProcessTreeParams,
)
    requires
        is_answer(r, proc_root, Ok(entries), params),
    ensures
        match (params.root_pid, params.cgroup_path) {
            (Some(pid), None) => {
                let found = exists|i: int|
                    0 <= i < snapshots(entries@).len() && (#[trigger] snapshots(entries@)[i]).pid
                        == pid;
                &&& found ==> r is Ok
                &&& !found ==> (r matches Err(e) && e@ == ErrorView::PidNotFound(pid))
            },
            (None, Some(path)) => match cgroup_path_checked(path@) {
                Ok(_) => r is Ok,
                Err(e) => r matches Err(error) && error@ == e,
            },
            (Some(_), Some(_)) => r matches Err(e) && e@ == ErrorView::BothTreeModes,
            (None, None) => r matches Err(e) && e@ == ErrorView::NoTreeMode,
        },
{
    let s = snapshots(entries@);
    law_by_pid_holds_every_process(s);
    if let Some(pid) = params.root_pid {
        if by_pid(s).contains_key(pid) {
            let i = lemma_process_of(s, pid);
            assert(s[i].pid == pid);
        }
    }
}

} // verus!
