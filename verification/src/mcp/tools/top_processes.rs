//! `top_processes`: the largest processes, all over or under a cgroup.

use vstd::prelude::*;

use crate::collector::proc::{ProcessSnapshot, SnapshotView};
use crate::collector::read::ReadFailure;
use crate::collector::walk::{
    decides, listing_fits, skipped_count, snapshot_views, snapshots, walk_processes, DirEntry,
};
use crate::error::{viewed, Error, ErrorView};
use crate::mcp::process_entry::{
    entries_of, entry_rank, entry_views, rank_processes, redact_flag, redacts, rss_rank,
    show_processes, EntryView, ProcessEntry,
};
use crate::mcp::rank::{
    in_rank_order, law_ranking_is_a_ranking, lemma_filter_member, lemma_ranking_member, ranking,
    ranks_before,
};
use crate::mcp::tools::pids_in_cgroup::{law_members_are_those_of_the_cgroup, members};
use crate::mcp::util::{cgroup_path_checked, validate_cgroup_path};
use crate::text::{chars_of, strip_chars_prefix};

verus! {

/// How many processes are listed where the caller did not say.
pub const DEFAULT_N: usize = 10;

#[derive(Debug)]
pub struct TopProcessesParams {
    /// How many processes to list at most; 10 where it is not said.
    pub n: Option<usize>,
    /// Lists only processes whose cgroup is this one or below it:
    /// `system.slice` takes in `system.slice` itself and all that starts with
    /// `system.slice/`, but not `system.slice2`. Without it, or where it is
    /// empty, all processes count. Must not be absolute or contain `..`
    /// segments.
    pub cgroup_prefix: Option<String>,
    /// Whether arguments whose key names a secret are redacted. They are unless
    /// this says `false`.
    pub redact_args: Option<bool>,
}

#[derive(Debug)]
pub struct TopProcessesResponse {
    /// The cgroup that was asked for, if any.
    pub cgroup_prefix: Option<String>,
    /// The processes, the largest `rss_bytes` first, those without one last.
    pub results: Vec<ProcessEntry>,
    /// How many pids could not be read in full: where it is not zero, the
    /// picture may be incomplete.
    pub skipped: u32,
}

/// A [`TopProcessesResponse`] with its texts as sequences of characters.
pub struct TopProcessesView {
    pub cgroup_prefix: Option<Seq<char>>,
    pub results: Seq<EntryView>,
    pub skipped: u32,
}

pub open spec fn text_view(s: Option<String>) -> Option<Seq<char>> {
    match s {
        Some(text) => Some(text@),
        None => None,
    }
}

impl View for TopProcessesResponse {
    type V = TopProcessesView;

    open spec fn view(&self) -> TopProcessesView {
        TopProcessesView {
            cgroup_prefix: text_view(self.cgroup_prefix),
            results: entry_views(self.results@),
            skipped: self.skipped,
        }
    }
}

/// Whether a cgroup is `prefix` or below it.
pub open spec fn in_subtree(path: Seq<char>, prefix: Seq<char>) -> bool {
    path == prefix || (prefix + "/"@).is_prefix_of(path)
}

/// Whether a cgroup is `prefix` or below it: `system.slice` takes in
/// `system.slice/nginx.service`, but not `system.slice2/foo.service`.
pub fn matches_cgroup_prefix(path: &str, prefix: &str) -> (r: bool)
    ensures
        r == in_subtree(path@, prefix@),
{
    let cs = chars_of(path);
    proof {
        reveal_strlit("/");
        assert((prefix@ + "/"@).len() == prefix@.len() + 1);
        if (prefix@ + "/"@).is_prefix_of(path@) {
            assert(path@.subrange(0, prefix@.len() as int) =~= (prefix@ + "/"@).subrange(
                0,
                prefix@.len() as int,
            ));
            assert((prefix@ + "/"@).subrange(0, prefix@.len() as int) =~= prefix@);
            assert(path@[prefix@.len() as int] == (prefix@ + "/"@)[prefix@.len() as int]);
        }
        if path@ == prefix@ {
            assert(path@.subrange(0, path@.len() as int) =~= path@);
        }
    }
    match strip_chars_prefix(cs.as_slice(), prefix) {
        Some(rest) => {
            if rest.len() == 0 {
                assert(path@ =~= path@.subrange(0, prefix@.len() as int));
                true
            } else {
                if rest[0] == '/' {
                    assert(path@.subrange(0, (prefix@.len() + 1) as int) =~= prefix@ + "/"@);
                }
                rest[0] == '/'
            }
        },
        None => false,
    }
}

/// Whether a process counts: all do without a prefix, or where it is empty.
pub open spec fn counts(path: Seq<char>, prefix: Option<Seq<char>>) -> bool {
    match prefix {
        None => true,
        Some(p) => p.len() == 0 || in_subtree(path, p),
    }
}

pub open spec fn under(prefix: Option<Seq<char>>) -> spec_fn(SnapshotView) -> bool {
    |s: SnapshotView| counts(s.cgroup_path, prefix)
}

/// How many processes are listed at most.
pub open spec fn limit(n: Option<usize>) -> nat {
    match n {
        Some(n) => n as nat,
        None => DEFAULT_N as nat,
    }
}

/// The first `n`, or all where there are fewer.
pub open spec fn at_most<T>(s: Seq<T>, n: nat) -> Seq<T> {
    if n < s.len() {
        s.take(n as int)
    } else {
        s
    }
}

/// The processes of a listing that count, the largest first.
pub open spec fn counted(entries: Seq<DirEntry>, prefix: Option<Seq<char>>) -> Seq<SnapshotView> {
    ranking(snapshots(entries).filter(under(prefix)), rss_rank())
}

pub open spec fn prefix_checked(prefix: Option<Seq<char>>) -> Result<(), ErrorView> {
    match prefix {
        Some(p) => cgroup_path_checked(p),
        None => Ok(()),
    }
}

/// The answer for the listing of `/proc` at `proc_root`.
pub open spec fn answer(
    proc_root: Seq<char>,
    listing: Result<Vec<DirEntry>, ReadFailure>,
    params: TopProcessesParams,
) -> Result<TopProcessesView, ErrorView> {
    let prefix = text_view(params.cgroup_prefix);
    match prefix_checked(prefix) {
        Err(e) => Err(e),
        Ok(_) => match listing {
            Err(failure) => Err(
                ErrorView::ReadingProcRoot { path: proc_root, cause: failure.cause@ },
            ),
            Ok(entries) => Ok(
                TopProcessesView {
                    cgroup_prefix: prefix,
                    results: entries_of(
                        at_most(counted(entries@, prefix), limit(params.n)),
                        redacts(params.redact_args),
                    ),
                    skipped: skipped_count(entries@) as u32,
                },
            ),
        },
    }
}

/// The largest processes, from what came of listing `/proc` at `proc_root`.
pub fn run(
    proc_root: &str,
    listing: Result<Vec<DirEntry>, ReadFailure>,
    params: TopProcessesParams,
) -> (r: Result<TopProcessesResponse, Error>)
    requires
        prefix_checked(text_view(params.cgroup_prefix)) is Ok ==> listing_fits(listing),
    ensures
        viewed(r) == answer(proc_root@, listing, params),
{
    let prefix = params.cgroup_prefix;
    if let Some(p) = &prefix {
        if let Err(e) = validate_cgroup_path(p.as_str()) {
            return Err(e);
        }
    }
    let n: usize = match params.n {
        Some(n) => n,
        None => DEFAULT_N,
    };
    let redact = redact_flag(params.redact_args);
    let wanted = &prefix;
    let filter = |snap: &ProcessSnapshot| -> (kept: bool)
        ensures
            kept == counts(snap.cgroup_path@, text_view(*wanted)),
        {
            match wanted {
                None => true,
                Some(p) => p.as_str().is_empty() || matches_cgroup_prefix(
                    snap.cgroup_path.as_str(),
                    p.as_str(),
                ),
            }
        };
    assert(decides(filter, under(text_view(prefix))));
    let walk = match walk_processes(proc_root, listing, filter) {
        Ok(walk) => walk,
        Err(e) => return Err(e),
    };
    let mut processes = rank_processes(walk.processes);
    let ghost ranked = processes@;
    if n < processes.len() {
        processes.truncate(n);
    }
    assert(snapshot_views(processes@) =~= at_most(snapshot_views(ranked), n as nat));
    let results = show_processes(processes, redact);
    Ok(TopProcessesResponse { cgroup_prefix: prefix, results, skipped: walk.skipped })
}

/// A subtree holds its own cgroup and all that is below it.
pub proof fn law_subtree_holds_what_is_below(prefix: Seq<char>, below: Seq<char>)
    ensures
        in_subtree(prefix, prefix),
        in_subtree(prefix + "/"@ + below, prefix),
{
    let root = prefix + "/"@;
    assert((root + below).subrange(0, root.len() as int) =~= root);
}

/// A subtree does not hold a sibling whose name only begins alike.
pub proof fn law_subtree_leaves_siblings_out(prefix: Seq<char>, more: Seq<char>)
    requires
        more.len() > 0,
        more[0] != '/',
    ensures
        !in_subtree(prefix + more, prefix),
{
    reveal_strlit("/");
    let path = prefix + more;
    let root = prefix + "/"@;
    if root.is_prefix_of(path) {
        assert(path.subrange(0, root.len() as int)[prefix.len() as int] == root[prefix.len() as int]);
        assert(path[prefix.len() as int] == more[0]);
    }
}

/// What is below something below a cgroup is below the cgroup.
pub proof fn law_subtree_is_transitive(a: Seq<char>, b: Seq<char>, c: Seq<char>)
    requires
        in_subtree(a, b),
        in_subtree(b, c),
    ensures
        in_subtree(a, c),
{
    let outer = c + "/"@;
    let inner = b + "/"@;
    if a != b && b != c {
        assert(a.subrange(0, outer.len() as int) =~= inner.subrange(0, outer.len() as int)) by {
            assert forall|i: int| 0 <= i < outer.len() implies a[i] == inner[i] by {
                assert(a.subrange(0, inner.len() as int)[i] == inner[i]);
            }
        }
        assert(inner.subrange(0, outer.len() as int) =~= b.subrange(0, outer.len() as int));
    }
}

/// An empty prefix is no prefix.
pub proof fn law_empty_prefix_is_none(entries: Seq<DirEntry>)
    ensures
        counted(entries, Some(Seq::empty())) == counted(entries, None),
{
    assert(under(Some(Seq::empty())) =~= under(None));
}

/// The processes that count, each as often as it was listed, and no others; the
/// largest first, those without a resident set size last.
pub proof fn law_counted_are_those_under_the_prefix(
    entries: Seq<DirEntry>,
    prefix: Option<Seq<char>>,
)
    ensures
        counted(entries, prefix).to_multiset() == snapshots(entries).filter(
            under(prefix),
        ).to_multiset(),
        in_rank_order(counted(entries, prefix), rss_rank()),
        forall|s: SnapshotView| #[trigger]
            counted(entries, prefix).contains(s) <==> snapshots(entries).contains(s) && counts(
                s.cgroup_path,
                prefix,
            ),
{
    let all = snapshots(entries).filter(under(prefix));
    law_ranking_is_a_ranking(all, rss_rank());
    assert forall|s: SnapshotView| #[trigger] counted(entries, prefix).contains(s) <==> snapshots(
        entries,
    ).contains(s) && counts(s.cgroup_path, prefix) by {
        lemma_ranking_member(all, rss_rank(), s);
        lemma_filter_member(snapshots(entries), under(prefix), s);
    }
}

/// As many processes are shown as were asked for, or all that count where they
/// are fewer; in the order of the resident set sizes; and none that was left out
/// is larger than one that is shown.
pub proof fn law_top_processes_shows_the_largest(
    proc_root: Seq<char>,
    listing: Result<Vec<DirEntry>, ReadFailure>,
    params: TopProcessesParams,
)
    ensures
        answer(proc_root, listing, params) matches Ok(shown) ==> {
            let all = counted(listing->Ok_0@, text_view(params.cgroup_prefix));
            &&& shown.results.len() == if limit(params.n) < all.len() {
                limit(params.n)
            } else {
                all.len()
            }
            &&& in_rank_order(shown.results, entry_rank())
            &&& forall|i: int, j: int|
                0 <= i < shown.results.len() <= j < all.len() ==> ranks_before(
                    (#[trigger] shown.results[i]).rss_bytes,
                    (#[trigger] all[j]).rss_bytes,
                )
        },
{
    if let Ok(shown) = answer(proc_root, listing, params) {
        let prefix = text_view(params.cgroup_prefix);
        let all = counted(listing->Ok_0@, prefix);
        law_counted_are_those_under_the_prefix(listing->Ok_0@, prefix);
        assert forall|i: int, j: int| 0 <= i < j < shown.results.len() implies ranks_before(
            entry_rank()(#[trigger] shown.results[i]),
            entry_rank()(#[trigger] shown.results[j]),
        ) by {
            assert(ranks_before(rss_rank()(all[i]), rss_rank()(all[j])));
        }
        assert forall|i: int, j: int|
            0 <= i < shown.results.len() <= j < all.len() implies ranks_before(
            (#[trigger] shown.results[i]).rss_bytes,
            (#[trigger] all[j]).rss_bytes,
        ) by {
            assert(ranks_before(rss_rank()(all[i]), rss_rank()(all[j])));
        }
    }
}

/// Who asks for fewer gets the first of what who asks for more gets.
pub proof fn law_fewer_are_the_first_of_more(
    proc_root: Seq<char>,
    listing: Result<Vec<DirEntry>, ReadFailure>,
    fewer: TopProcessesParams,
    more: TopProcessesParams,
)
    requires
        text_view(fewer.cgroup_prefix) == text_view(more.cgroup_prefix),
        fewer.redact_args == more.redact_args,
        limit(fewer.n) <= limit(more.n),
    ensures
        match (answer(proc_root, listing, fewer), answer(proc_root, listing, more)) {
            (Ok(a), Ok(b)) => a.results.is_prefix_of(b.results),
            (Err(a), Err(b)) => a == b,
            _ => false,
        },
{
    if let (Ok(a), Ok(b)) = (answer(proc_root, listing, fewer), answer(proc_root, listing, more)) {
        assert(a.results =~= b.results.subrange(0, a.results.len() as int));
    }
}

/// The processes of a cgroup count where the cgroup is the prefix.
pub proof fn law_members_count_under_their_cgroup(
    entries: Seq<DirEntry>,
    path: Seq<char>,
    s: SnapshotView,
)
    requires
        members(entries, path).contains(s),
    ensures
        counted(entries, Some(path)).contains(s),
{
    law_members_are_those_of_the_cgroup(entries, path);
    law_counted_are_those_under_the_prefix(entries, Some(path));
}

} // verus!
