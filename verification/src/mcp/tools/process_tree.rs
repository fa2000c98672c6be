//! `process_tree`: processes under their parents.

use std::collections::{HashMap, HashSet};

use vstd::prelude::*;

use crate::collector::proc::{ProcessSnapshot, SnapshotView};
use crate::collector::read::ReadFailure;
use crate::collector::walk::{
    decides, listing_fits, skipped_count, snapshot_views, snapshots, walk_processes, DirEntry,
};
use crate::error::{viewed, Error, ErrorView};
use crate::mcp::process_entry::{entry_of, redact_flag, redacts, EntryView, ProcessEntry};
use crate::mcp::rank::{
    lemma_filter_member, lemma_ranking_map, lemma_ranking_member, rank_of, ranking,
    sort_by_rss_desc, Ranked,
};
use crate::mcp::tools::ancestry::{
    climbs, heads_ring, in_ring, is_child, lemma_climb_on, lemma_longer_way, lemma_ring_len,
    lemma_round_decides,
};
use crate::mcp::tools::top_processes::text_view;
use crate::mcp::util::{cgroup_path_checked, validate_cgroup_path};

verus! {

broadcast use vstd::std_specs::hash::group_hash_axioms;

#[derive(Debug)]
pub struct ProcessTreeParams {
    /// Asks for this process with all that descends from it. Not together with
    /// `cgroup_path`.
    pub root_pid: Option<u32>,
    /// Asks for all processes inside this cgroup, each under its parent where
    /// the parent is in the cgroup too. Where the parents run in a ring, the
    /// smallest pid of the ring stands on top. Not together with `root_pid`.
    /// Must not be absolute and must not contain `..` segments.
    pub cgroup_path: Option<String>,
    /// Whether arguments whose key names a secret are redacted. They are unless
    /// this says `false`.
    pub redact_args: Option<bool>,
}

#[derive(Debug)]
pub struct TreeNode {
    /// What the other tools show of a process too.
    pub base: ProcessEntry,
    /// The children within the tree, the largest `rss_bytes` first, those
    /// without one last, those of equal size in the order of the listing.
    pub children: Vec<TreeNode>,
}

#[derive(Debug)]
pub struct ProcessTreeResponse {
    /// The process that was asked for, if one was.
    pub root_pid: Option<u32>,
    /// The cgroup that was asked for, if one was.
    pub cgroup_path: Option<String>,
    /// The one tree of the process, or the trees of the cgroup by ascending pid.
    pub forest: Vec<TreeNode>,
    /// How many pids could not be read in full.
    pub skipped: u32,
}

// ---------------------------------------------------------------------------
// What a tree is
// ---------------------------------------------------------------------------

/// A [`TreeNode`] with its texts as sequences of characters.
pub struct TreeView {
    pub base: EntryView,
    pub children: Seq<TreeView>,
}

pub open spec fn tree_view(node: TreeNode) -> TreeView
    decreases node,
{
    TreeView { base: node.base@, children: forest_view(node.children@) }
}

/// The views of a row of trees.
pub open spec fn forest_view(nodes: Seq<TreeNode>) -> Seq<TreeView>
    decreases nodes,
{
    if nodes.len() == 0 {
        Seq::empty()
    } else {
        forest_view(nodes.drop_last()).push(tree_view(nodes.last()))
    }
}

/// A [`ProcessTreeResponse`] with its texts as sequences of characters.
pub struct ProcessTreeView {
    pub root_pid: Option<u32>,
    pub cgroup_path: Option<Seq<char>>,
    pub forest: Seq<TreeView>,
    pub skipped: u32,
}

impl View for ProcessTreeResponse {
    type V = ProcessTreeView;

    open spec fn view(&self) -> ProcessTreeView {
        ProcessTreeView {
            root_pid: self.root_pid,
            cgroup_path: text_view(self.cgroup_path),
            forest: forest_view(self.forest@),
            skipped: self.skipped,
        }
    }
}

/// The processes by their pids. Of two with the same pid the later one counts.
pub open spec fn by_pid(s: Seq<SnapshotView>) -> Map<u32, SnapshotView>
    decreases s.len(),
{
    if s.len() == 0 {
        Map::empty()
    } else {
        by_pid(s.drop_last()).insert(s.last().pid, s.last())
    }
}

/// The pids in the order in which they first appear.
pub open spec fn pid_order(s: Seq<SnapshotView>) -> Seq<u32>
    decreases s.len(),
{
    if s.len() == 0 {
        Seq::empty()
    } else {
        let before = pid_order(s.drop_last());
        if before.contains(s.last().pid) {
            before
        } else {
            before.push(s.last().pid)
        }
    }
}

/// The pids on which the trees stand.
pub open spec fn pids_of(nodes: Seq<TreeNode>) -> Seq<u32> {
    nodes.map_values(|n: TreeNode| n.base.pid)
}

impl Ranked for TreeNode {
    open spec fn rank(&self) -> Option<u64> {
        self.base.rss_bytes
    }

    fn rank_bytes(&self) -> (r: Option<u64>) {
        self.base.rss_bytes
    }
}

pub open spec fn child_of(s: Seq<SnapshotView>, among: Set<u32>, parent: u32) -> spec_fn(
    u32,
) -> bool {
    |c: u32| is_child(by_pid(s), among, parent, c)
}

pub open spec fn pid_rank(s: Seq<SnapshotView>) -> spec_fn(u32) -> Option<u64> {
    |p: u32| by_pid(s)[p].rss_bytes
}

/// The children of `parent` among `among`, the largest first, those of equal
/// size in the order of the listing.
pub open spec fn ranked_children(s: Seq<SnapshotView>, among: Set<u32>, parent: u32) -> Seq<u32> {
    ranking(pid_order(s).filter(child_of(s, among, parent)), pid_rank(s))
}

/// Whether the node shows its process of the listing `s`, with its children
/// among `among` by resident set size, each in turn as such a tree.
pub open spec fn is_tree(
    node: TreeNode,
    s: Seq<SnapshotView>,
    among: Set<u32>,
    redact: bool,
) -> bool
    decreases node,
{
    &&& by_pid(s).contains_key(node.base.pid)
    &&& node.base@ == entry_of(by_pid(s)[node.base.pid], redact)
    &&& pids_of(node.children@) == ranked_children(s, among, node.base.pid)
    &&& forall|i: int|
        0 <= i < node.children.len() ==> is_tree(#[trigger] node.children[i], s, among, redact)
}

/// What is asked for.
pub enum Mode {
    RootPid(u32),
    Cgroup(String),
}

pub enum ModeView {
    RootPid(u32),
    Cgroup(Seq<char>),
}

impl View for Mode {
    type V = ModeView;

    open spec fn view(&self) -> ModeView {
        match *self {
            Mode::RootPid(pid) => ModeView::RootPid(pid),
            Mode::Cgroup(path) => ModeView::Cgroup(path@),
        }
    }
}

impl ModeView {
    /// Whether a process may stand in a tree: all may, or those in the cgroup.
    pub open spec fn takes(self, s: SnapshotView) -> bool {
        match self {
            ModeView::RootPid(_) => true,
            ModeView::Cgroup(path) => s.cgroup_path == path,
        }
    }
}

/// The pids that may stand in a tree.
pub open spec fn taken(procs: Map<u32, SnapshotView>, mode: ModeView) -> Set<u32> {
    Set::new(|p: u32| procs.contains_key(p) && mode.takes(procs[p]))
}

/// Exactly one of the two modes.
pub open spec fn mode_of(params: ProcessTreeParams) -> Result<ModeView, ErrorView> {
    match (params.root_pid, text_view(params.cgroup_path)) {
        (Some(_), Some(_)) => Err(ErrorView::BothTreeModes),
        (None, None) => Err(ErrorView::NoTreeMode),
        (Some(pid), None) => Ok(ModeView::RootPid(pid)),
        (None, Some(path)) => match cgroup_path_checked(path) {
            Ok(_) => Ok(ModeView::Cgroup(path)),
            Err(e) => Err(e),
        },
    }
}

/// Whether a tree stands on `p`: on the process that is asked for, or on those of
/// the cgroup whose parent is outside it, and on the smallest pid of each ring of
/// parents inside it.
pub open spec fn is_root(procs: Map<u32, SnapshotView>, mode: ModeView, p: u32) -> bool {
    &&& taken(procs, mode).contains(p)
    &&& match mode {
        ModeView::RootPid(pid) => p == pid,
        ModeView::Cgroup(_) => !taken(procs, mode).contains(procs[p].ppid) || heads_ring(
            procs,
            taken(procs, mode),
            p,
        ),
    }
}

/// The pids that may stand below others: all but the roots.
pub open spec fn below(procs: Map<u32, SnapshotView>, mode: ModeView) -> Set<u32> {
    Set::new(|p: u32| taken(procs, mode).contains(p) && !is_root(procs, mode, p))
}

pub open spec fn ascending(s: Seq<u32>) -> bool {
    forall|i: int, j: int| 0 <= i < j < s.len() ==> #[trigger] s[i] < #[trigger] s[j]
}

/// Whether the forest is the one that is asked for: the trees of the roots, by
/// ascending pid.
pub open spec fn is_forest(
    forest: Seq<TreeNode>,
    s: Seq<SnapshotView>,
    mode: ModeView,
    redact: bool,
) -> bool {
    &&& ascending(pids_of(forest))
    &&& forall|p: u32| #[trigger] pids_of(forest).contains(p) <==> is_root(by_pid(s), mode, p)
    &&& forall|i: int|
        0 <= i < forest.len() ==> is_tree(
            #[trigger] forest[i],
            s,
            below(by_pid(s), mode),
            redact,
        )
}

/// Whether `r` is the answer for the listing of `/proc` at `proc_root`.
pub open spec fn is_answer(
    r: Result<ProcessTreeResponse, Error>,
    proc_root: Seq<char>,
    listing: Result<Vec<DirEntry>, ReadFailure>,
    params: ProcessTreeParams,
) -> bool {
    match (mode_of(params), listing) {
        (Err(e), _) => r matches Err(error) && error@ == e,
        (_, Err(failure)) => r matches Err(error) && error@ == (ErrorView::ReadingProcRoot {
            path: proc_root,
            cause: failure.cause@,
        }),
        (Ok(mode), Ok(entries)) => {
            let s = snapshots(entries@);
            match mode {
                ModeView::RootPid(pid) if !by_pid(s).contains_key(pid) => r matches Err(error)
                    && error@ == ErrorView::PidNotFound(pid),
                _ => {
                    &&& r matches Ok(response)
                    &&& response.root_pid == params.root_pid
                    &&& text_view(response.cgroup_path) == text_view(params.cgroup_path)
                    &&& is_forest(response.forest@, s, mode, redacts(params.redact_args))
                    &&& response.skipped == skipped_count(entries@)
                },
            }
        },
    }
}

/// Every pid once, each with its process.
pub proof fn lemma_pid_order(s: Seq<SnapshotView>)
    ensures
        pid_order(s).no_duplicates(),
        forall|p: u32| #[trigger] by_pid(s).contains_key(p) <==> pid_order(s).contains(p),
        forall|p: u32| #[trigger] by_pid(s).contains_key(p) ==> by_pid(s)[p].pid == p,
        by_pid(s).dom().finite(),
        by_pid(s).dom().len() == pid_order(s).len(),
    decreases s.len(),
{
    if s.len() == 0 {
        assert(by_pid(s).dom() =~= Set::<u32>::empty());
    } else {
        let before = pid_order(s.drop_last());
        let pid = s.last().pid;
        lemma_pid_order(s.drop_last());
        assert forall|p: u32| #[trigger] by_pid(s).contains_key(p) <==> pid_order(s).contains(p) by {
            vstd::seq_lib::lemma_seq_contains_after_push(before, pid, p);
            assert(by_pid(s.drop_last()).contains_key(p) <==> before.contains(p));
        }
        assert(by_pid(s.drop_last()).contains_key(pid) <==> before.contains(pid));
        assert(by_pid(s).dom() =~= by_pid(s.drop_last()).dom().insert(pid));
    }
}

// ---------------------------------------------------------------------------
// Building
// ---------------------------------------------------------------------------

/// The pids in the list under `p`.
spec fn kids(children_of: Map<u32, Vec<u32>>, p: u32) -> Seq<u32> {
    if children_of.contains_key(p) {
        children_of[p]@
    } else {
        Seq::empty()
    }
}

/// The processes by pid, and the pids by parent.
struct Index {
    by_pid: HashMap<u32, ProcessSnapshot>,
    /// Every pid once, in the order in which they first appear.
    pids: Vec<u32>,
    children_of: HashMap<u32, Vec<u32>>,
}

impl Index {
    /// Whether the processes are those of the listing.
    spec fn holds(self, s: Seq<SnapshotView>) -> bool {
        &&& by_pid(s).dom() == self.by_pid@.dom()
        &&& forall|p: u32| #[trigger]
            by_pid(s).contains_key(p) ==> by_pid(s)[p] == self.by_pid@[p]@
        &&& self.pids@ == pid_order(s)
    }

    /// Whether the lists under the parents hold the children among `among`, in
    /// the order of the listing.
    spec fn lists(self, s: Seq<SnapshotView>, among: Set<u32>) -> bool {
        forall|p: u32| #[trigger]
            kids(self.children_of@, p) == pid_order(s).filter(child_of(s, among, p))
    }

    /// Whether the process is one of the cgroup.
    fn is_member(&self, path: &String, pid: u32, Ghost(s): Ghost<Seq<SnapshotView>>) -> (r: bool)
        requires
            self.holds(s),
        ensures
            r == taken(by_pid(s), ModeView::Cgroup(path@)).contains(pid),
    {
        assert(by_pid(s).contains_key(pid) <==> self.by_pid@.contains_key(pid));
        match self.by_pid.get(&pid) {
            Some(snap) => snap.cgroup_path == *path,
            None => false,
        }
    }

    /// Whether the process is the smallest pid of a ring of parents inside the
    /// cgroup. Goes up until the way leaves the cgroup, meets a smaller pid or
    /// comes back, for no more steps than there are processes.
    fn is_ring_head(&self, path: &String, pid: u32, Ghost(s): Ghost<Seq<SnapshotView>>) -> (r: bool)
        requires
            self.holds(s),
            taken(by_pid(s), ModeView::Cgroup(path@)).contains(pid),
        ensures
            r == heads_ring(by_pid(s), taken(by_pid(s), ModeView::Cgroup(path@)), pid),
    {
        let ghost procs = by_pid(s);
        let ghost members = taken(procs, ModeView::Cgroup(path@));
        let mut at: u32 = pid;
        let mut steps: usize = 0;
        while steps < self.pids.len()
            invariant
                self.holds(s),
                procs == by_pid(s),
                members == taken(procs, ModeView::Cgroup(path@)),
                members.contains(pid),
                members.contains(at),
                climbs(procs, members, pid, at, steps as nat),
                forall|k: nat| 0 < k <= steps ==> !#[trigger] climbs(procs, members, pid, pid, k),
                forall|q: u32, k: nat|
                    k <= steps && #[trigger] climbs(procs, members, pid, q, k) ==> pid <= q,
            decreases self.pids.len() - steps,
        {
            assert(procs.contains_key(at));
            let parent: u32 = self.by_pid.get(&at).unwrap().ppid;
            assert(parent == procs[at].ppid);
            proof {
                assert(climbs(procs, members, parent, parent, 0));
                assert(climbs(procs, members, at, parent, 1));
                lemma_climb_on(procs, members, pid, at, parent, steps as nat, 1);
            }
            if parent == pid {
                proof {
                    let round = steps as nat + 1;
                    assert(climbs(procs, members, pid, pid, round));
                    assert forall|q: u32, k: nat| #[trigger]
                        climbs(procs, members, pid, q, k) implies pid <= q by {
                        lemma_round_decides(procs, members, pid, round, q, k);
                    }
                }
                return true;
            }
            if parent < pid {
                return false;
            }
            if !self.is_member(path, parent, Ghost(s)) {
                proof {
                    if in_ring(procs, members, pid) {
                        let k = choose|k: nat| k > 0 && climbs(procs, members, pid, pid, k);
                        lemma_longer_way(procs, members, pid, at, pid, steps as nat, k);
                        let rest = (k - steps - 1) as nat;
                        assert(climbs(procs, members, parent, pid, rest));
                    }
                }
                return false;
            }
            assert forall|q: u32| #[trigger]
                climbs(procs, members, pid, q, steps as nat + 1) implies q == parent by {
                lemma_longer_way(
                    procs,
                    members,
                    pid,
                    parent,
                    q,
                    steps as nat + 1,
                    steps as nat + 1,
                );
            }
            at = parent;
            steps += 1;
        }
        proof {
            lemma_pid_order(s);
            if in_ring(procs, members, pid) {
                let k = choose|k: nat| k > 0 && climbs(procs, members, pid, pid, k);
                let r = lemma_ring_len(procs, members, pid, k);
                assert(climbs(procs, members, pid, pid, r));
            }
        }
        false
    }
}

impl Mode {
    fn admits(&self, snap: &ProcessSnapshot) -> (r: bool)
        ensures
            r == self@.takes(snap@),
    {
        match self {
            Mode::RootPid(_) => true,
            Mode::Cgroup(path) => snap.cgroup_path == *path,
        }
    }
}

/// Sorts the processes by pid.
fn index_processes(processes: Vec<ProcessSnapshot>) -> (r: Index)
    ensures
        r.holds(snapshot_views(processes@)),
{
    let ghost all = snapshot_views(processes@);
    let mut by_pid_map: HashMap<u32, ProcessSnapshot> = HashMap::new();
    let mut pids: Vec<u32> = Vec::new();
    for snap in it: processes
        invariant
            snapshot_views(it.seq()) == all,
            by_pid(all.take(it.index())).dom() =~= by_pid_map@.dom(),
            forall|p: u32| #[trigger]
                by_pid(all.take(it.index())).contains_key(p) ==> by_pid(all.take(it.index()))[p]
                    == by_pid_map@[p]@,
            pids@ == pid_order(all.take(it.index())),
    {
        let ghost i = it.index();
        assert(all[i] == snap@);
        assert(all.take(i + 1).drop_last() =~= all.take(i));
        let pid: u32 = snap.pid;
        proof {
            lemma_pid_order(all.take(i));
            assert(by_pid(all.take(i)).contains_key(pid) <==> pids@.contains(pid));
        }
        if !by_pid_map.contains_key(&pid) {
            pids.push(pid);
        }
        by_pid_map.insert(pid, snap);
    }
    assert(all.take(all.len() as int) =~= all);
    Index { by_pid: by_pid_map, pids, children_of: HashMap::new() }
}

/// Lists under each parent the children that the mode admits and that are no
/// roots.
fn link_children(
    index: Index,
    mode: &Mode,
    root_pids: &Vec<u32>,
    Ghost(s): Ghost<Seq<SnapshotView>>,
) -> (r: Index)
    requires
        index.holds(s),
        forall|p: u32| #[trigger] root_pids@.contains(p) <==> is_root(by_pid(s), mode@, p),
    ensures
        r.holds(s),
        r.lists(s, below(by_pid(s), mode@)),
{
    let ghost among = below(by_pid(s), mode@);
    let mut root_set: HashSet<u32> = HashSet::new();
    let mut i: usize = 0;
    while i < root_pids.len()
        invariant
            i <= root_pids.len(),
            forall|p: u32| #[trigger] root_set@.contains(p) <==> root_pids@.take(
                i as int,
            ).contains(p),
        decreases root_pids.len() - i,
    {
        let ghost before = root_set@;
        let pid: u32 = root_pids[i];
        root_set.insert(pid);
        assert(root_pids@.take(i + 1) =~= root_pids@.take(i as int).push(pid));
        assert forall|p: u32| #[trigger] root_set@.contains(p) <==> root_pids@.take(
            i + 1,
        ).contains(p) by {
            vstd::seq_lib::lemma_seq_contains_after_push(root_pids@.take(i as int), pid, p);
            assert(before.contains(p) <==> root_pids@.take(i as int).contains(p));
        }
        i += 1;
    }
    assert(root_pids@.take(i as int) =~= root_pids@);
    assert forall|p: u32| #[trigger] root_set@.contains(p) <==> is_root(by_pid(s), mode@, p) by {
        assert(root_pids@.contains(p) <==> is_root(by_pid(s), mode@, p));
    }
    let mut children_of: HashMap<u32, Vec<u32>> = HashMap::new();
    let pids = index.pids;
    let by_pid_map = index.by_pid;
    let mut i: usize = 0;
    proof {
        lemma_pid_order(s);
        assert(pids@.take(0) =~= Seq::empty());
        assert forall|p: u32| #[trigger] kids(children_of@, p) == pids@.take(0).filter(
            child_of(s, among, p),
        ) by {
            assert(Seq::<u32>::empty().filter(child_of(s, among, p)) =~= Seq::empty());
        }
    }
    while i < pids.len()
        invariant
            i <= pids.len(),
            index.holds(s),
            pids@ == index.pids@,
            by_pid_map@ == index.by_pid@,
            among == below(by_pid(s), mode@),
            forall|p: u32| #[trigger] root_set@.contains(p) <==> is_root(by_pid(s), mode@, p),
            forall|p: u32| #[trigger] by_pid(s).contains_key(p) <==> pids@.contains(p),
            forall|p: u32| #[trigger]
                kids(children_of@, p) == pids@.take(i as int).filter(child_of(s, among, p)),
        decreases pids.len() - i,
    {
        let pid: u32 = pids[i];
        assert(pids@.contains(pid));
        assert(by_pid(s).contains_key(pid));
        let ghost before = children_of@;
        let ghost so_far = pids@.take(i as int);
        assert(pids@.take(i + 1) =~= so_far.push(pid));
        let snap = by_pid_map.get(&pid).unwrap();
        assert(snap@ == by_pid(s)[pid]);
        let parent: u32 = snap.ppid;
        if mode.admits(snap) && !root_set.contains(&pid) {
            assert(among.contains(pid));
            let mut list: Vec<u32> = match children_of.remove(&parent) {
                Some(list) => list,
                None => Vec::new(),
            };
            assert(list@ == kids(before, parent));
            list.push(pid);
            children_of.insert(parent, list);
            assert(kids(children_of@, parent) == kids(before, parent).push(pid));
        } else {
            assert(!among.contains(pid));
        }
        assert forall|p: u32| #[trigger] kids(children_of@, p) == pids@.take(i + 1).filter(
            child_of(s, among, p),
        ) by {
            so_far.lemma_filter_push(pid, child_of(s, among, p));
            assert(kids(before, p) == so_far.filter(child_of(s, among, p)));
        }
        i += 1;
    }
    assert(pids@.take(i as int) =~= pids@);
    Index { by_pid: by_pid_map, pids, children_of }
}

/// A way down from a root: each a child of the one before it.
spec fn is_path(path: Seq<u32>, procs: Map<u32, SnapshotView>, among: Set<u32>) -> bool {
    &&& path.len() > 0
    &&& path.no_duplicates()
    &&& forall|j: int| 0 <= j < path.len() ==> procs.contains_key(#[trigger] path[j])
    &&& forall|j: int|
        1 <= j < path.len() ==> is_child(procs, among, path[j - 1], #[trigger] path[j])
    &&& !among.contains(path[0])
}

/// The way down never comes back: a child of its end is none of its own.
proof fn lemma_path_grows(path: Seq<u32>, procs: Map<u32, SnapshotView>, among: Set<u32>, c: u32)
    requires
        is_path(path, procs, among),
        is_child(procs, among, path.last(), c),
    ensures
        is_path(path.push(c), procs, among),
{
    assert(!path.contains(c)) by {
        if path.contains(c) {
            let j = choose|j: int| 0 <= j < path.len() && path[j] == c;
            if j >= 1 {
                assert(is_child(procs, among, path[j - 1], path[j]));
                assert(path[j - 1] == path[path.len() - 1]);
            }
        }
    }
}

/// A way down is no longer than there are processes.
proof fn lemma_path_len(path: Seq<u32>, procs: Map<u32, SnapshotView>, among: Set<u32>)
    requires
        is_path(path, procs, among),
        procs.dom().finite(),
    ensures
        path.len() <= procs.dom().len(),
{
    path.unique_seq_to_set();
    assert(path.to_set().subset_of(procs.dom())) by {
        assert forall|p: u32| path.to_set().contains(p) implies procs.dom().contains(p) by {
            let j = choose|j: int| 0 <= j < path.len() && path[j] == p;
            assert(procs.contains_key(path[j]));
        }
    }
    vstd::set_lib::lemma_len_subset(path.to_set(), procs.dom());
}

/// The trees of some pids, by resident set size, stand on the pids by resident
/// set size.
proof fn lemma_ranked_trees(
    nodes: Seq<TreeNode>,
    list: Seq<u32>,
    s: Seq<SnapshotView>,
    among: Set<u32>,
    redact: bool,
)
    requires
        pids_of(nodes) == list,
        forall|i: int| 0 <= i < nodes.len() ==> is_tree(#[trigger] nodes[i], s, among, redact),
    ensures
        pids_of(ranking(nodes, rank_of::<TreeNode>())) == ranking(list, pid_rank(s)),
        forall|i: int|
            0 <= i < ranking(nodes, rank_of::<TreeNode>()).len() ==> is_tree(
                #[trigger] ranking(nodes, rank_of::<TreeNode>())[i],
                s,
                among,
                redact,
            ),
{
    let rank = rank_of::<TreeNode>();
    let r = ranking(nodes, rank);
    let f = |n: TreeNode| n.base.pid;
    assert forall|i: int| 0 <= i < nodes.len() implies pid_rank(s)(f(#[trigger] nodes[i])) == rank(
        nodes[i],
    ) by {
        let node = nodes[i];
        assert(is_tree(node, s, among, redact));
        assert(node.base@.rss_bytes == by_pid(s)[node.base.pid].rss_bytes);
    }
    lemma_ranking_map(nodes, f, rank, pid_rank(s));
    assert forall|i: int| 0 <= i < r.len() implies is_tree(#[trigger] r[i], s, among, redact) by {
        assert(r.contains(r[i]));
        lemma_ranking_member(nodes, rank, r[i]);
        let j = choose|j: int| 0 <= j < nodes.len() && nodes[j] == r[i];
        assert(is_tree(nodes[j], s, among, redact));
    }
}

/// The tree of the process at the end of `path`. There is no need to remember
/// which processes were visited: a way down never comes back.
fn build_node(
    pid: u32,
    index: &Index,
    redact: bool,
    Ghost(s): Ghost<Seq<SnapshotView>>,
    Ghost(among): Ghost<Set<u32>>,
    Ghost(path): Ghost<Seq<u32>>,
) -> (r: TreeNode)
    requires
        index.holds(s),
        index.lists(s, among),
        is_path(path, by_pid(s), among),
        path.last() == pid,
        by_pid(s).contains_key(pid),
    ensures
        r.base.pid == pid,
        is_tree(r, s, among, redact),
    decreases by_pid(s).dom().len() - path.len(),
{
    let mut nodes: Vec<TreeNode> = Vec::new();
    let ghost list = kids(index.children_of@, pid);
    if let Some(child_pids) = index.children_of.get(&pid) {
        assert(child_pids@ == list);
        let mut i: usize = 0;
        while i < child_pids.len()
            invariant
                i <= child_pids.len(),
                child_pids@ == list,
                list == pid_order(s).filter(child_of(s, among, pid)),
                index.holds(s),
                index.lists(s, among),
                is_path(path, by_pid(s), among),
                path.last() == pid,
                nodes@.len() == i,
                forall|j: int| 0 <= j < i ==> (#[trigger] nodes@[j]).base.pid == list[j],
                forall|j: int| 0 <= j < i ==> is_tree(#[trigger] nodes@[j], s, among, redact),
            decreases child_pids.len() - i,
        {
            let child: u32 = child_pids[i];
            proof {
                assert(list.contains(child));
                lemma_filter_member(pid_order(s), child_of(s, among, pid), child);
                lemma_pid_order(s);
                lemma_path_grows(path, by_pid(s), among, child);
                lemma_path_len(path.push(child), by_pid(s), among);
            }
            nodes.push(
                build_node(child, index, redact, Ghost(s), Ghost(among), Ghost(path.push(child))),
            );
            i += 1;
        }
    }
    let ghost unsorted = nodes@;
    assert(list == pid_order(s).filter(child_of(s, among, pid)));
    assert(pids_of(unsorted) =~= list);
    proof {
        lemma_ranked_trees(unsorted, list, s, among, redact);
        lemma_pid_order(s);
    }
    let children = sort_by_rss_desc(nodes);
    let snap = index.by_pid.get(&pid).unwrap().clone();
    TreeNode { base: ProcessEntry::from_snapshot(snap, redact), children }
}

/// Puts a pid into its place.
fn insert_ascending(pids: &mut Vec<u32>, pid: u32)
    requires
        ascending(old(pids)@),
        !old(pids)@.contains(pid),
    ensures
        ascending(final(pids)@),
        forall|p: u32| #[trigger]
            final(pids)@.contains(p) <==> old(pids)@.contains(p) || p == pid,
{
    let ghost before = pids@;
    let mut at: usize = pids.len();
    while at > 0 && pids[at - 1] > pid
        invariant
            at <= pids.len(),
            pids@ == before,
            forall|j: int| at <= j < before.len() ==> pid < #[trigger] before[j],
        decreases at,
    {
        at -= 1;
    }
    assert(forall|j: int| 0 <= j < at ==> #[trigger] before[j] < pid) by {
        if at > 0 {
            assert(before.contains(before[at - 1]));
        }
    }
    pids.insert(at, pid);
    let ghost after = pids@;
    assert(after == before.insert(at as int, pid));
    assert forall|i: int, j: int| 0 <= i < j < after.len() implies #[trigger] after[i]
        < #[trigger] after[j] by {
        let a = if i < at {
            i
        } else {
            i - 1
        };
        let b = if j < at {
            j
        } else {
            j - 1
        };
        if i != at {
            assert(after[i] == before[a]);
        }
        if j != at {
            assert(after[j] == before[b]);
        }
    }
    assert forall|p: u32| #[trigger] after.contains(p) <==> before.contains(p) || p == pid by {
        if after.contains(p) && p != pid {
            let i = choose|i: int| 0 <= i < after.len() && after[i] == p;
            if i < at {
                assert(before[i] == p);
            } else {
                assert(before[i - 1] == p);
            }
        }
        if before.contains(p) {
            let i = choose|i: int| 0 <= i < before.len() && before[i] == p;
            if i < at {
                assert(after[i] == p);
            } else {
                assert(after[i + 1] == p);
            }
        }
        assert(after[at as int] == pid);
    }
}

/// The roots of the cgroup, by ascending pid.
fn roots(index: &Index, path: &String, Ghost(s): Ghost<Seq<SnapshotView>>) -> (r: Vec<u32>)
    requires
        index.holds(s),
    ensures
        ascending(r@),
        forall|p: u32| #[trigger]
            r@.contains(p) <==> is_root(by_pid(s), ModeView::Cgroup(path@), p),
{
    let ghost mode = ModeView::Cgroup(path@);
    let mut r: Vec<u32> = Vec::new();
    let mut i: usize = 0;
    proof {
        lemma_pid_order(s);
    }
    while i < index.pids.len()
        invariant
            i <= index.pids.len(),
            index.holds(s),
            mode == ModeView::Cgroup(path@),
            index.pids@.no_duplicates(),
            forall|p: u32| #[trigger] by_pid(s).contains_key(p) <==> index.pids@.contains(p),
            ascending(r@),
            forall|p: u32| #[trigger]
                r@.contains(p) <==> is_root(by_pid(s), mode, p) && index.pids@.take(
                    i as int,
                ).contains(p),
        decreases index.pids.len() - i,
    {
        let pid: u32 = index.pids[i];
        let ghost before = r@;
        assert(index.pids@.contains(pid));
        assert(by_pid(s).contains_key(pid));
        assert(index.pids@.take(i + 1) =~= index.pids@.take(i as int).push(pid));
        assert(!index.pids@.take(i as int).contains(pid));
        if index.is_member(path, pid, Ghost(s)) {
            let parent: u32 = index.by_pid.get(&pid).unwrap().ppid;
            assert(parent == by_pid(s)[pid].ppid);
            if !index.is_member(path, parent, Ghost(s)) || index.is_ring_head(path, pid, Ghost(s)) {
                assert(!before.contains(pid));
                insert_ascending(&mut r, pid);
            }
        }
        assert forall|p: u32| #[trigger] r@.contains(p) <==> is_root(by_pid(s), mode, p)
            && index.pids@.take(i + 1).contains(p) by {
            vstd::seq_lib::lemma_seq_contains_after_push(index.pids@.take(i as int), pid, p);
            assert(before.contains(p) <==> is_root(by_pid(s), mode, p) && index.pids@.take(
                i as int,
            ).contains(p));
        }
        i += 1;
    }
    assert(index.pids@.take(i as int) =~= index.pids@);
    assert forall|p: u32| #[trigger] r@.contains(p) <==> is_root(by_pid(s), mode, p) by {
        if is_root(by_pid(s), mode, p) {
            assert(by_pid(s).contains_key(p));
        }
    }
    r
}

/// The trees of the roots, in their order.
fn build_forest(
    root_pids: &Vec<u32>,
    index: &Index,
    redact: bool,
    Ghost(s): Ghost<Seq<SnapshotView>>,
    Ghost(among): Ghost<Set<u32>>,
) -> (r: Vec<TreeNode>)
    requires
        index.holds(s),
        index.lists(s, among),
        forall|i: int|
            0 <= i < root_pids@.len() ==> by_pid(s).contains_key(#[trigger] root_pids@[i])
                && !among.contains(root_pids@[i]),
    ensures
        pids_of(r@) == root_pids@,
        forall|i: int| 0 <= i < r@.len() ==> is_tree(#[trigger] r@[i], s, among, redact),
{
    let mut r: Vec<TreeNode> = Vec::new();
    let mut i: usize = 0;
    while i < root_pids.len()
        invariant
            i <= root_pids.len(),
            index.holds(s),
            index.lists(s, among),
            forall|i: int|
                0 <= i < root_pids@.len() ==> by_pid(s).contains_key(#[trigger] root_pids@[i])
                    && !among.contains(root_pids@[i]),
            r@.len() == i,
            forall|j: int| 0 <= j < i ==> (#[trigger] r@[j]).base.pid == root_pids@[j],
            forall|j: int| 0 <= j < i ==> is_tree(#[trigger] r@[j], s, among, redact),
        decreases root_pids.len() - i,
    {
        let pid: u32 = root_pids[i];
        let ghost path = seq![pid];
        assert(is_path(path, by_pid(s), among));
        r.push(build_node(pid, index, redact, Ghost(s), Ghost(among), Ghost(path)));
        i += 1;
    }
    assert(pids_of(r@) =~= root_pids@);
    r
}

/// The mode that is asked for.
pub fn choose_mode(params: &ProcessTreeParams) -> (r: Result<Mode, Error>)
    ensures
        viewed(r) == mode_of(*params),
{
    match (params.root_pid, &params.cgroup_path) {
        (Some(_), Some(_)) => Err(Error::BothTreeModes),
        (None, None) => Err(Error::NoTreeMode),
        (Some(pid), None) => Ok(Mode::RootPid(pid)),
        (None, Some(path)) => match validate_cgroup_path(path.as_str()) {
            Ok(_) => Ok(Mode::Cgroup(path.clone())),
            Err(e) => Err(e),
        },
    }
}

/// Processes under their parents, from what came of listing `/proc` at
/// `proc_root`: one process with all that descends from it, or the processes of
/// a cgroup.
pub fn run(
    proc_root: &str,
    listing: Result<Vec<DirEntry>, ReadFailure>,
    params: ProcessTreeParams,
) -> (r: Result<ProcessTreeResponse, Error>)
    requires
        mode_of(params) is Ok ==> listing_fits(listing),
    ensures
        is_answer(r, proc_root@, listing, params),
{
    let mode = match choose_mode(&params) {
        Ok(mode) => mode,
        Err(e) => return Err(e),
    };
    let redact = redact_flag(params.redact_args);
    let filter = |snap: &ProcessSnapshot| -> (kept: bool)
        ensures
            kept,
        { true };
    let ghost keep = |s: SnapshotView| true;
    assert(decides(filter, keep));
    let walk = match walk_processes(proc_root, listing, filter) {
        Ok(walk) => walk,
        Err(e) => return Err(e),
    };
    proof {
        lemma_filter_all(snapshots(listing->Ok_0@), keep);
    }
    let ghost s = snapshot_views(walk.processes@);
    let ghost among = below(by_pid(s), mode@);
    let index = index_processes(walk.processes);
    let root_pids = match &mode {
        Mode::RootPid(pid) => {
            if !index.by_pid.contains_key(pid) {
                return Err(Error::PidNotFound(*pid));
            }
            assert(by_pid(s).contains_key(*pid));
            let one = vec![*pid];
            assert forall|p: u32| #[trigger] one@.contains(p) <==> is_root(by_pid(s), mode@, p) by {
                assert(one@[0] == *pid);
            }
            one
        },
        Mode::Cgroup(path) => roots(&index, path, Ghost(s)),
    };
    let index = link_children(index, &mode, &root_pids, Ghost(s));
    assert forall|i: int| 0 <= i < root_pids@.len() implies by_pid(s).contains_key(
        #[trigger] root_pids@[i],
    ) && !among.contains(root_pids@[i]) by {
        assert(root_pids@.contains(root_pids@[i]));
    }
    let forest = build_forest(&root_pids, &index, redact, Ghost(s), Ghost(among));
    Ok(
        ProcessTreeResponse {
            root_pid: params.root_pid,
            cgroup_path: params.cgroup_path,
            forest,
            skipped: walk.skipped,
        },
    )
}

/// A filter that lets everything pass changes nothing.
proof fn lemma_filter_all(s: Seq<SnapshotView>, keep: spec_fn(SnapshotView) -> bool)
    requires
        forall|x: SnapshotView| #[trigger] keep(x),
    ensures
        s.filter(keep) == s,
    decreases s.len(),
{
    reveal(Seq::filter);
    if s.len() > 0 {
        lemma_filter_all(s.drop_last(), keep);
        assert(s =~= s.drop_last().push(s.last()));
    }
}

} // verus!
