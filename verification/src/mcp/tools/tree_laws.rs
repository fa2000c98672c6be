//! What process trees hold: every process that belongs there once, and nothing
//! else.

use vstd::prelude::*;

use crate::collector::proc::SnapshotView;
use crate::collector::read::ReadFailure;
use crate::collector::walk::{snapshots, DirEntry};
use crate::error::{viewed, Error};
use crate::mcp::process_entry::redacts;
use crate::mcp::rank::{
    in_rank_order, law_ranking_is_a_ranking, lemma_filter_member, lemma_ranking_member, rank_of,
    ranks_before,
};
use crate::mcp::tools::ancestry::{
    climbs, descends, is_child, lemma_among_more, lemma_child_climbs, lemma_climb_on,
    lemma_last_step, lemma_long_way_meets_ring, lemma_longer_way,
};
use crate::mcp::tools::process_tree::{
    ascending, below, by_pid, child_of, forest_view, is_answer, is_forest, is_root, is_tree,
    lemma_pid_order, mode_of, pid_order, pid_rank, pids_of, taken, tree_view, ModeView,
    ProcessTreeParams, ProcessTreeResponse, TreeNode,
};

verus! {

/// How often a pid occurs in a tree.
pub open spec fn occurrences(node: TreeNode, p: u32) -> nat
    decreases node,
{
    occurrences_in(node.children@, p) + if node.base.pid == p {
        1nat
    } else {
        0nat
    }
}

/// How often a pid occurs in a row of trees.
pub open spec fn occurrences_in(nodes: Seq<TreeNode>, p: u32) -> nat
    decreases nodes,
{
    if nodes.len() == 0 {
        0
    } else {
        occurrences_in(nodes.drop_last(), p) + occurrences(nodes.last(), p)
    }
}

/// What the children of a node are: all children of its process among those in
/// question, each once, the largest first, those without a resident set size
/// last.
pub proof fn law_children_are_ranked(
    node: TreeNode,
    s: Seq<SnapshotView>,
    among: Set<u32>,
    redact: bool,
)
    requires
        is_tree(node, s, among, redact),
    ensures
        in_rank_order(node.children@, rank_of::<TreeNode>()),
        pids_of(node.children@).no_duplicates(),
        forall|c: u32| #[trigger]
            pids_of(node.children@).contains(c) <==> is_child(by_pid(s), among, node.base.pid, c),
{
    let nodes = node.children@;
    let pids = pids_of(nodes);
    let keep = child_of(s, among, node.base.pid);
    let list = pid_order(s).filter(keep);
    lemma_pid_order(s);
    law_ranking_is_a_ranking(list, pid_rank(s));
    lemma_filter_no_duplicates(pid_order(s), keep);
    list.lemma_multiset_has_no_duplicates();
    pids.lemma_multiset_has_no_duplicates_conv();
    assert forall|c: u32| #[trigger] pids.contains(c) <==> is_child(
        by_pid(s),
        among,
        node.base.pid,
        c,
    ) by {
        lemma_ranking_member(list, pid_rank(s), c);
        lemma_filter_member(pid_order(s), keep, c);
        assert(by_pid(s).contains_key(c) <==> pid_order(s).contains(c));
    }
    assert forall|i: int, j: int| 0 <= i < j < nodes.len() implies ranks_before(
        rank_of::<TreeNode>()(#[trigger] nodes[i]),
        rank_of::<TreeNode>()(#[trigger] nodes[j]),
    ) by {
        assert(is_tree(node.children[i], s, among, redact));
        assert(is_tree(node.children[j], s, among, redact));
        assert(nodes[i].base@.rss_bytes == by_pid(s)[pids[i]].rss_bytes);
        assert(nodes[j].base@.rss_bytes == by_pid(s)[pids[j]].rss_bytes);
        assert(ranks_before(pid_rank(s)(pids[i]), pid_rank(s)(pids[j])));
    }
}

proof fn lemma_filter_no_duplicates(list: Seq<u32>, keep: spec_fn(u32) -> bool)
    requires
        list.no_duplicates(),
    ensures
        list.filter(keep).no_duplicates(),
    decreases list.len(),
{
    reveal(Seq::filter);
    if list.len() > 0 {
        let init = list.drop_last();
        lemma_filter_no_duplicates(init, keep);
        lemma_filter_member(init, keep, list.last());
    }
}

/// A child of the process is a child of the node.
proof fn lemma_find_child(
    node: TreeNode,
    s: Seq<SnapshotView>,
    among: Set<u32>,
    redact: bool,
    c: u32,
) -> (i: int)
    requires
        is_tree(node, s, among, redact),
        is_child(by_pid(s), among, node.base.pid, c),
    ensures
        0 <= i < node.children@.len(),
        node.children@[i].base.pid == c,
        is_tree(node.children@[i], s, among, redact),
{
    let pids = pids_of(node.children@);
    law_children_are_ranked(node, s, among, redact);
    assert(pids.contains(c));
    let i = choose|i: int| 0 <= i < pids.len() && pids[i] == c;
    assert(is_tree(node.children[i], s, among, redact));
    i
}

/// A child of the node is a child of the process.
pub proof fn lemma_node_child(
    node: TreeNode,
    s: Seq<SnapshotView>,
    among: Set<u32>,
    redact: bool,
    i: int,
)
    requires
        is_tree(node, s, among, redact),
        0 <= i < node.children@.len(),
    ensures
        is_child(by_pid(s), among, node.base.pid, node.children@[i].base.pid),
        is_tree(node.children@[i], s, among, redact),
{
    let pids = pids_of(node.children@);
    law_children_are_ranked(node, s, among, redact);
    assert(pids[i] == node.children@[i].base.pid);
    assert(pids.contains(pids[i]));
    assert(is_tree(node.children[i], s, among, redact));
}

/// No process above which a tree stands is its own ancestor.
proof fn lemma_no_ring(
    node: TreeNode,
    s: Seq<SnapshotView>,
    among: Set<u32>,
    redact: bool,
    k: nat,
)
    requires
        is_tree(node, s, among, redact),
        climbs(by_pid(s), among, node.base.pid, node.base.pid, k),
    ensures
        k == 0,
    decreases node,
{
    if k > 0 {
        let pid = node.base.pid;
        let c = lemma_last_step(by_pid(s), among, pid, pid, k);
        let i = lemma_find_child(node, s, among, redact, c);
        lemma_child_climbs(by_pid(s), among, pid, c);
        lemma_climb_on(by_pid(s), among, c, pid, c, 1, (k - 1) as nat);
        lemma_no_ring(node.children[i], s, among, redact, k);
    }
}

/// A pid that occurs in a row of trees occurs in one of them.
proof fn lemma_occurs_in_one(nodes: Seq<TreeNode>, p: u32) -> (i: int)
    requires
        occurrences_in(nodes, p) > 0,
    ensures
        0 <= i < nodes.len(),
        occurrences(nodes[i], p) > 0,
    decreases nodes.len(),
{
    if occurrences(nodes.last(), p) > 0 {
        nodes.len() - 1
    } else {
        lemma_occurs_in_one(nodes.drop_last(), p)
    }
}

/// A pid occurs in a row of trees at least as often as in one of them.
proof fn lemma_one_of_row(nodes: Seq<TreeNode>, i: int, p: u32)
    requires
        0 <= i < nodes.len(),
    ensures
        occurrences(nodes[i], p) <= occurrences_in(nodes, p),
    decreases nodes.len(),
{
    if i < nodes.len() - 1 {
        lemma_one_of_row(nodes.drop_last(), i, p);
    }
}

/// A pid that occurs once in one tree of a row, and in no other, occurs once in
/// the row.
proof fn lemma_once_in_row(nodes: Seq<TreeNode>, p: u32)
    requires
        forall|i: int| 0 <= i < nodes.len() ==> occurrences(#[trigger] nodes[i], p) <= 1,
        forall|i: int, j: int|
            0 <= i < nodes.len() && 0 <= j < nodes.len() && occurrences(#[trigger] nodes[i], p) > 0
                && occurrences(#[trigger] nodes[j], p) > 0 ==> i == j,
    ensures
        occurrences_in(nodes, p) <= 1,
    decreases nodes.len(),
{
    if nodes.len() > 0 {
        let init = nodes.drop_last();
        assert forall|i: int| 0 <= i < init.len() implies occurrences(#[trigger] init[i], p)
            <= 1 by {
            assert(init[i] == nodes[i]);
        }
        assert forall|i: int, j: int|
            0 <= i < init.len() && 0 <= j < init.len() && occurrences(#[trigger] init[i], p) > 0
                && occurrences(#[trigger] init[j], p) > 0 implies i == j by {
            assert(init[i] == nodes[i] && init[j] == nodes[j]);
        }
        lemma_once_in_row(init, p);
        if occurrences_in(init, p) > 0 {
            let i = lemma_occurs_in_one(init, p);
            assert(init[i] == nodes[i]);
            assert(nodes.last() == nodes[nodes.len() - 1]);
        }
    }
}

// ---------------------------------------------------------------------------
// What a tree holds
// ---------------------------------------------------------------------------

proof fn lemma_only_descendants(
    node: TreeNode,
    s: Seq<SnapshotView>,
    among: Set<u32>,
    redact: bool,
    q: u32,
)
    requires
        is_tree(node, s, among, redact),
        occurrences(node, q) > 0,
    ensures
        descends(by_pid(s), among, q, node.base.pid),
    decreases node,
{
    if q == node.base.pid {
        assert(climbs(by_pid(s), among, q, node.base.pid, 0));
    } else {
        let i = lemma_occurs_in_one(node.children@, q);
        let child = node.children@[i];
        lemma_node_child(node, s, among, redact, i);
        lemma_only_descendants(node.children[i], s, among, redact, q);
        let k = choose|k: nat| climbs(by_pid(s), among, q, child.base.pid, k);
        lemma_child_climbs(by_pid(s), among, node.base.pid, child.base.pid);
        lemma_climb_on(by_pid(s), among, q, child.base.pid, node.base.pid, k, 1);
    }
}

proof fn lemma_every_descendant(
    node: TreeNode,
    s: Seq<SnapshotView>,
    among: Set<u32>,
    redact: bool,
    q: u32,
    k: nat,
)
    requires
        is_tree(node, s, among, redact),
        climbs(by_pid(s), among, q, node.base.pid, k),
    ensures
        occurrences(node, q) > 0,
    decreases k,
{
    if k > 0 {
        let c = lemma_last_step(by_pid(s), among, q, node.base.pid, k);
        let i = lemma_find_child(node, s, among, redact, c);
        lemma_every_descendant(node.children[i], s, among, redact, q, (k - 1) as nat);
        lemma_one_of_row(node.children@, i, q);
    }
}

/// Two children of a node have no descendant in common.
proof fn lemma_children_apart(
    node: TreeNode,
    s: Seq<SnapshotView>,
    among: Set<u32>,
    redact: bool,
    a: u32,
    b: u32,
    q: u32,
    i: nat,
    j: nat,
)
    requires
        is_tree(node, s, among, redact),
        is_child(by_pid(s), among, node.base.pid, a),
        is_child(by_pid(s), among, node.base.pid, b),
        climbs(by_pid(s), among, q, a, i),
        climbs(by_pid(s), among, q, b, j),
        i <= j,
    ensures
        a == b,
{
    lemma_longer_way(by_pid(s), among, q, a, b, i, j);
    if i < j {
        let pid = node.base.pid;
        let d = (j - i - 1) as nat;
        assert(climbs(by_pid(s), among, pid, b, d));
        lemma_child_climbs(by_pid(s), among, pid, b);
        lemma_climb_on(by_pid(s), among, pid, b, pid, d, 1);
        lemma_no_ring(node, s, among, redact, d + 1);
    }
}

proof fn lemma_at_most_once(
    node: TreeNode,
    s: Seq<SnapshotView>,
    among: Set<u32>,
    redact: bool,
    q: u32,
)
    requires
        is_tree(node, s, among, redact),
    ensures
        occurrences(node, q) <= 1,
    decreases node,
{
    let pid = node.base.pid;
    let nodes = node.children@;
    assert forall|i: int| 0 <= i < nodes.len() implies occurrences(#[trigger] nodes[i], q) <= 1 by {
        lemma_node_child(node, s, among, redact, i);
        lemma_at_most_once(node.children[i], s, among, redact, q);
    }
    assert forall|i: int, j: int|
        0 <= i < nodes.len() && 0 <= j < nodes.len() && occurrences(#[trigger] nodes[i], q) > 0
            && occurrences(#[trigger] nodes[j], q) > 0 implies i == j by {
        lemma_node_child(node, s, among, redact, i);
        lemma_node_child(node, s, among, redact, j);
        lemma_only_descendants(node.children[i], s, among, redact, q);
        lemma_only_descendants(node.children[j], s, among, redact, q);
        let a = nodes[i].base.pid;
        let b = nodes[j].base.pid;
        let k = choose|k: nat| climbs(by_pid(s), among, q, a, k);
        let l = choose|l: nat| climbs(by_pid(s), among, q, b, l);
        if k <= l {
            lemma_children_apart(node, s, among, redact, a, b, q, k, l);
        } else {
            lemma_children_apart(node, s, among, redact, b, a, q, l, k);
        }
        law_children_are_ranked(node, s, among, redact);
        assert(pids_of(nodes)[i] == a && pids_of(nodes)[j] == b);
    }
    lemma_once_in_row(nodes, q);
    if q == pid && occurrences_in(nodes, q) > 0 {
        let i = lemma_occurs_in_one(nodes, q);
        let c = nodes[i].base.pid;
        lemma_node_child(node, s, among, redact, i);
        lemma_only_descendants(node.children[i], s, among, redact, q);
        let k = choose|k: nat| climbs(by_pid(s), among, q, c, k);
        lemma_child_climbs(by_pid(s), among, pid, c);
        lemma_climb_on(by_pid(s), among, q, c, pid, k, 1);
        lemma_no_ring(node, s, among, redact, k + 1);
    }
}

/// In a tree every process that descends from its root stands once, and no other
/// process at all.
pub proof fn law_tree_holds_descendants(
    node: TreeNode,
    s: Seq<SnapshotView>,
    among: Set<u32>,
    redact: bool,
    q: u32,
)
    requires
        is_tree(node, s, among, redact),
    ensures
        occurrences(node, q) == if descends(by_pid(s), among, q, node.base.pid) {
            1nat
        } else {
            0nat
        },
{
    lemma_at_most_once(node, s, among, redact, q);
    if descends(by_pid(s), among, q, node.base.pid) {
        let k = choose|k: nat| climbs(by_pid(s), among, q, node.base.pid, k);
        lemma_every_descendant(node, s, among, redact, q, k);
    } else if occurrences(node, q) > 0 {
        lemma_only_descendants(node, s, among, redact, q);
    }
}

/// A way up by the processes that may stand in a tree has, on its way to a root,
/// a first root.
proof fn lemma_first_root(s: Seq<SnapshotView>, mode: ModeView, q: u32, root: u32, k: nat) -> (r:
    u32)
    requires
        climbs(by_pid(s), taken(by_pid(s), mode), q, root, k),
        is_root(by_pid(s), mode, root),
    ensures
        is_root(by_pid(s), mode, r),
        descends(by_pid(s), below(by_pid(s), mode), q, r),
    decreases k,
{
    let procs = by_pid(s);
    let among = below(procs, mode);
    if is_root(procs, mode, q) {
        assert(climbs(procs, among, q, q, 0));
        q
    } else {
        let parent = procs[q].ppid;
        let r = lemma_first_root(s, mode, parent, root, (k - 1) as nat);
        let l = choose|l: nat| climbs(procs, among, parent, r, l);
        assert(climbs(procs, among, q, r, l + 1));
        r
    }
}

/// Two roots have no descendant in common.
proof fn lemma_roots_apart(
    s: Seq<SnapshotView>,
    mode: ModeView,
    a: u32,
    b: u32,
    q: u32,
    i: nat,
    j: nat,
)
    requires
        is_root(by_pid(s), mode, a),
        climbs(by_pid(s), below(by_pid(s), mode), q, a, i),
        climbs(by_pid(s), below(by_pid(s), mode), q, b, j),
        i <= j,
    ensures
        a == b,
{
    lemma_longer_way(by_pid(s), below(by_pid(s), mode), q, a, b, i, j);
}

/// Whether `q` stands below a root, or is one.
spec fn has_root(s: Seq<SnapshotView>, mode: ModeView, q: u32) -> bool {
    exists|p: u32| #[trigger]
        is_root(by_pid(s), mode, p) && descends(by_pid(s), below(by_pid(s), mode), q, p)
}

/// In a forest a process stands once where it descends from a root, and not at
/// all otherwise.
proof fn lemma_forest_holds(
    forest: Seq<TreeNode>,
    s: Seq<SnapshotView>,
    mode: ModeView,
    redact: bool,
    q: u32,
)
    requires
        is_forest(forest, s, mode, redact),
    ensures
        occurrences_in(forest, q) == if has_root(s, mode, q) {
            1nat
        } else {
            0nat
        },
{
    let procs = by_pid(s);
    let among = below(procs, mode);
    let pids = pids_of(forest);
    assert forall|i: int| 0 <= i < forest.len() implies is_root(
        procs,
        mode,
        (#[trigger] forest[i]).base.pid,
    ) && occurrences(forest[i], q) == if descends(procs, among, q, forest[i].base.pid) {
        1nat
    } else {
        0nat
    } by {
        law_tree_holds_descendants(forest[i], s, among, redact, q);
        assert(pids[i] == forest[i].base.pid);
        assert(pids.contains(pids[i]));
    }
    assert forall|i: int, j: int|
        0 <= i < forest.len() && 0 <= j < forest.len() && occurrences(#[trigger] forest[i], q) > 0
            && occurrences(#[trigger] forest[j], q) > 0 implies i == j by {
        let a = forest[i].base.pid;
        let b = forest[j].base.pid;
        let k = choose|k: nat| climbs(procs, among, q, a, k);
        let l = choose|l: nat| climbs(procs, among, q, b, l);
        if k <= l {
            lemma_roots_apart(s, mode, a, b, q, k, l);
        } else {
            lemma_roots_apart(s, mode, b, a, q, l, k);
        }
        assert(pids[i] == a && pids[j] == b);
    }
    lemma_once_in_row(forest, q);
    if has_root(s, mode, q) {
        let p = choose|p: u32| #[trigger]
            is_root(procs, mode, p) && descends(procs, among, q, p);
        assert(pids.contains(p));
        let i = choose|i: int| 0 <= i < pids.len() && pids[i] == p;
        assert(forest[i].base.pid == p);
        lemma_one_of_row(forest, i, q);
    } else if occurrences_in(forest, q) > 0 {
        let i = lemma_occurs_in_one(forest, q);
        assert(is_root(procs, mode, forest[i].base.pid));
    }
}

/// The processes of a listing under their own pids: each that could be read is
/// there, unless a later one has the same pid.
pub proof fn law_by_pid_holds_every_process(s: Seq<SnapshotView>)
    ensures
        forall|p: u32| #[trigger] by_pid(s).contains_key(p) ==> by_pid(s)[p].pid == p,
        forall|i: int| 0 <= i < s.len() ==> by_pid(s).contains_key((#[trigger] s[i]).pid),
        forall|i: int|
            0 <= i < s.len() && (forall|j: int| i < j < s.len() ==> (#[trigger] s[j]).pid != s[i].pid)
                ==> by_pid(s)[(#[trigger] s[i]).pid] == s[i],
    decreases s.len(),
{
    if s.len() > 0 {
        let init = s.drop_last();
        law_by_pid_holds_every_process(init);
        assert forall|i: int| 0 <= i < s.len() implies by_pid(s).contains_key(
            (#[trigger] s[i]).pid,
        ) by {
            if i < init.len() {
                assert(init[i] == s[i]);
            }
        }
        assert forall|i: int|
            0 <= i < s.len() && (forall|j: int|
                i < j < s.len() ==> (#[trigger] s[j]).pid != s[i].pid) implies by_pid(
            s,
        )[(#[trigger] s[i]).pid] == s[i] by {
            if i < init.len() {
                assert(init[i] == s[i]);
                assert(s[s.len() - 1].pid != s[i].pid);
                assert forall|j: int| i < j < init.len() implies (#[trigger] init[j]).pid
                    != init[i].pid by {
                    assert(init[j] == s[j]);
                }
            }
        }
    }
}

/// The tree of a pid: one root, and under it every process that has it among its
/// ancestors, once. Rings of parents do not change that.
pub proof fn law_root_tree_holds_every_descendant(
    forest: Seq<TreeNode>,
    s: Seq<SnapshotView>,
    root: u32,
    redact: bool,
    q: u32,
)
    requires
        is_forest(forest, s, ModeView::RootPid(root), redact),
        by_pid(s).contains_key(root),
    ensures
        forest.len() == 1,
        forest[0].base.pid == root,
        occurrences_in(forest, q) == if descends(by_pid(s), by_pid(s).dom(), q, root) {
            1nat
        } else {
            0nat
        },
{
    let procs = by_pid(s);
    let mode = ModeView::RootPid(root);
    let pids = pids_of(forest);
    assert(is_root(procs, mode, root));
    assert(pids.contains(root));
    assert forall|i: int| 0 <= i < forest.len() implies (#[trigger] forest[i]).base.pid == root by {
        assert(pids[i] == forest[i].base.pid);
        assert(pids.contains(pids[i]));
    }
    assert(forest.len() == 1) by {
        if forest.len() > 1 {
            assert(pids[0] < pids[1]);
            assert(forest[0].base.pid == forest[1].base.pid);
        }
    }
    lemma_forest_holds(forest, s, mode, redact, q);
    assert(taken(procs, mode) =~= procs.dom());
    if descends(procs, procs.dom(), q, root) {
        let k = choose|k: nat| climbs(procs, procs.dom(), q, root, k);
        let r = lemma_first_root(s, mode, q, root, k);
        assert(is_root(procs, mode, r));
    }
    if has_root(s, mode, q) {
        let p = choose|p: u32| #[trigger]
            is_root(procs, mode, p) && descends(procs, below(procs, mode), q, p);
        let k = choose|k: nat| climbs(procs, below(procs, mode), q, p, k);
        lemma_among_more(procs, below(procs, mode), procs.dom(), q, root, k);
    }
}

/// From a process of the cgroup one comes up to a root: where the way leaves the
/// cgroup, or where it runs in a ring.
proof fn lemma_member_has_root(s: Seq<SnapshotView>, path: Seq<char>, q: u32, at: u32, k: nat)
    requires
        taken(by_pid(s), ModeView::Cgroup(path)).contains(at),
        climbs(by_pid(s), taken(by_pid(s), ModeView::Cgroup(path)), q, at, k),
    ensures
        has_root(s, ModeView::Cgroup(path), q),
    decreases by_pid(s).dom().len() + 1 - k,
{
    let procs = by_pid(s);
    let mode = ModeView::Cgroup(path);
    let members = taken(procs, mode);
    lemma_pid_order(s);
    if k > procs.dom().len() {
        let h = lemma_long_way_meets_ring(procs, members, q, at, k);
        let round = choose|round: nat| round > 0 && climbs(procs, members, h, h, round);
        assert(members.contains(h));
        assert(is_root(procs, mode, h));
        let l = choose|l: nat| climbs(procs, members, q, h, l);
        let r = lemma_first_root(s, mode, q, h, l);
        assert(is_root(procs, mode, r));
    } else if is_root(procs, mode, at) {
        let r = lemma_first_root(s, mode, q, at, k);
        assert(is_root(procs, mode, r));
    } else {
        let parent = procs[at].ppid;
        assert(climbs(procs, members, parent, parent, 0));
        assert(climbs(procs, members, at, parent, 1));
        lemma_climb_on(procs, members, q, at, parent, k, 1);
        lemma_member_has_root(s, path, q, parent, k + 1);
    }
}

/// In the forest of a cgroup every process of the cgroup stands once, and no
/// other process at all.
pub proof fn law_cgroup_forest_holds_every_member(
    forest: Seq<TreeNode>,
    s: Seq<SnapshotView>,
    path: Seq<char>,
    redact: bool,
    q: u32,
)
    requires
        is_forest(forest, s, ModeView::Cgroup(path), redact),
    ensures
        occurrences_in(forest, q) == if taken(by_pid(s), ModeView::Cgroup(path)).contains(q) {
            1nat
        } else {
            0nat
        },
{
    let procs = by_pid(s);
    let mode = ModeView::Cgroup(path);
    lemma_forest_holds(forest, s, mode, redact, q);
    if taken(procs, mode).contains(q) {
        assert(climbs(procs, taken(procs, mode), q, q, 0));
        lemma_member_has_root(s, path, q, q, 0);
    }
    if has_root(s, mode, q) {
        let p = choose|p: u32| #[trigger]
            is_root(procs, mode, p) && descends(procs, below(procs, mode), q, p);
        let k = choose|k: nat| climbs(procs, below(procs, mode), q, p, k);
        assert(k > 0 ==> below(procs, mode).contains(q));
    }
}

/// A process of the cgroup whose parent is outside it is a root of the forest.
pub proof fn law_parent_outside_makes_a_root(
    forest: Seq<TreeNode>,
    s: Seq<SnapshotView>,
    path: Seq<char>,
    redact: bool,
    p: u32,
)
    requires
        is_forest(forest, s, ModeView::Cgroup(path), redact),
        taken(by_pid(s), ModeView::Cgroup(path)).contains(p),
        !taken(by_pid(s), ModeView::Cgroup(path)).contains(by_pid(s)[p].ppid),
    ensures
        pids_of(forest).contains(p),
{
    assert(is_root(by_pid(s), ModeView::Cgroup(path), p));
}

// ---------------------------------------------------------------------------
// One answer only
// ---------------------------------------------------------------------------

pub proof fn lemma_forest_view(nodes: Seq<TreeNode>)
    ensures
        forest_view(nodes).len() == nodes.len(),
        forall|i: int|
            0 <= i < nodes.len() ==> #[trigger] forest_view(nodes)[i] == tree_view(nodes[i]),
    decreases nodes.len(),
{
    if nodes.len() > 0 {
        let init = nodes.drop_last();
        lemma_forest_view(init);
        assert forall|i: int| 0 <= i < nodes.len() implies #[trigger] forest_view(nodes)[i]
            == tree_view(nodes[i]) by {
            if i < init.len() {
                assert(forest_view(init)[i] == tree_view(init[i]));
            }
        }
    }
}

/// There is one tree only for a process of a listing.
pub proof fn law_tree_is_unique(
    a: TreeNode,
    b: TreeNode,
    s: Seq<SnapshotView>,
    among: Set<u32>,
    redact: bool,
)
    requires
        is_tree(a, s, among, redact),
        is_tree(b, s, among, redact),
        a.base.pid == b.base.pid,
    ensures
        tree_view(a) == tree_view(b),
    decreases a,
{
    let (x, y) = (a.children@, b.children@);
    assert(pids_of(x) == pids_of(y));
    assert(pids_of(x).len() == x.len() && pids_of(y).len() == y.len());
    lemma_forest_view(x);
    lemma_forest_view(y);
    assert forall|i: int| 0 <= i < x.len() implies forest_view(x)[i] == forest_view(y)[i] by {
        assert(pids_of(x)[i] == x[i].base.pid && pids_of(y)[i] == y[i].base.pid);
        assert(is_tree(a.children[i], s, among, redact));
        assert(is_tree(b.children[i], s, among, redact));
        law_tree_is_unique(a.children[i], b.children[i], s, among, redact);
    }
    assert(forest_view(x) =~= forest_view(y));
}

/// Two ascending rows of the same pids are one.
pub proof fn lemma_ascending_unique(a: Seq<u32>, b: Seq<u32>)
    requires
        ascending(a),
        ascending(b),
        forall|p: u32| a.contains(p) <==> b.contains(p),
    ensures
        a == b,
    decreases a.len(),
{
    if a.len() == 0 {
        if b.len() > 0 {
            assert(b.contains(b[0]));
        }
        assert(a =~= b);
    } else {
        assert(a.contains(a.last()));
        assert(b.contains(a.last()));
        let i = choose|i: int| 0 <= i < b.len() && b[i] == a.last();
        assert(b.contains(b.last()));
        let j = choose|j: int| 0 <= j < a.len() && a[j] == b.last();
        assert(a.last() == b.last()) by {
            if i < b.len() - 1 {
                assert(b[i] < b[b.len() - 1]);
            }
            if j < a.len() - 1 {
                assert(a[j] < a[a.len() - 1]);
            }
        }
        let (x, y) = (a.drop_last(), b.drop_last());
        assert forall|p: u32| x.contains(p) <==> y.contains(p) by {
            if x.contains(p) {
                let k = choose|k: int| 0 <= k < x.len() && x[k] == p;
                assert(a[k] == p && a[k] < a[a.len() - 1]);
                assert(a.contains(p));
                let l = choose|l: int| 0 <= l < b.len() && b[l] == p;
                assert(y[l] == p);
            }
            if y.contains(p) {
                let k = choose|k: int| 0 <= k < y.len() && y[k] == p;
                assert(b[k] == p && b[k] < b[b.len() - 1]);
                assert(b.contains(p));
                let l = choose|l: int| 0 <= l < a.len() && a[l] == p;
                assert(x[l] == p);
            }
        }
        lemma_ascending_unique(x, y);
        assert(a =~= x.push(a.last()));
        assert(b =~= y.push(b.last()));
    }
}

/// There is one forest only for a listing and what is asked of it.
pub proof fn law_forest_is_unique(
    a: Seq<TreeNode>,
    b: Seq<TreeNode>,
    s: Seq<SnapshotView>,
    mode: ModeView,
    redact: bool,
)
    requires
        is_forest(a, s, mode, redact),
        is_forest(b, s, mode, redact),
    ensures
        forest_view(a) == forest_view(b),
{
    let among = below(by_pid(s), mode);
    assert forall|p: u32| pids_of(a).contains(p) <==> pids_of(b).contains(p) by {
        assert(pids_of(a).contains(p) <==> is_root(by_pid(s), mode, p));
        assert(pids_of(b).contains(p) <==> is_root(by_pid(s), mode, p));
    }
    lemma_ascending_unique(pids_of(a), pids_of(b));
    assert(pids_of(a).len() == a.len() && pids_of(b).len() == b.len());
    lemma_forest_view(a);
    lemma_forest_view(b);
    assert forall|i: int| 0 <= i < a.len() implies forest_view(a)[i] == forest_view(b)[i] by {
        assert(pids_of(a)[i] == a[i].base.pid && pids_of(b)[i] == b[i].base.pid);
        law_tree_is_unique(a[i], b[i], s, among, redact);
    }
    assert(forest_view(a) =~= forest_view(b));
}

/// The same listing and parameters are always answered alike.
pub proof fn law_answer_is_unique(
    a: Result<ProcessTreeResponse, Error>,
    b: Result<ProcessTreeResponse, Error>,
    proc_root: Seq<char>,
    listing: Result<Vec<DirEntry>, ReadFailure>,
    params: ProcessTreeParams,
)
    requires
        is_answer(a, proc_root, listing, params),
        is_answer(b, proc_root, listing, params),
    ensures
        viewed(a) == viewed(b),
{
    if let (Ok(x), Ok(y)) = (a, b) {
        law_forest_is_unique(
            x.forest@,
            y.forest@,
            snapshots(listing->Ok_0@),
            mode_of(params)->Ok_0,
            redacts(params.redact_args),
        );
    }
}

} // verus!
