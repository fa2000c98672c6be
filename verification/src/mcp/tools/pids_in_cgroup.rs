//! `pids_in_cgroup`: the processes inside a cgroup.

use vstd::prelude::*;

use crate::collector::proc::{ProcessSnapshot, SnapshotView};
use crate::collector::read::ReadFailure;
use crate::collector::walk::{
    decides, listing_fits, skipped_count, snapshots, walk_processes, DirEntry,
};
use crate::error::{viewed, Error, ErrorView};
use crate::mcp::process_entry::{
    entries_of, entry_of, entry_rank, entry_views, rank_processes, redact_flag, redacts, rss_rank,
    show_processes, EntryView, ProcessEntry,
};
use crate::mcp::rank::{
    in_rank_order, law_ranking_is_a_ranking, lemma_filter_member, lemma_ranking_member, ranking,
    ranks_before,
};
use crate::mcp::util::{cgroup_path_checked, validate_cgroup_path};

verus! {

#[derive(Debug)]
pub struct PidsInCgroupParams {
    /// The cgroup, relative to `/sys/fs/cgroup`, without the leading slash, the
    /// empty string for the root cgroup: `system.slice/nginx.service`. Must not
    /// be absolute and must not contain `..` segments.
    pub cgroup_path: String,
    /// Whether arguments whose key names a secret are redacted. They are unless
    /// this says `false`.
    pub redact_args: Option<bool>,
}

#[derive(Debug)]
pub struct PidsInCgroupResponse {
    /// The cgroup that was asked for.
    pub cgroup_path: String,
    /// Its processes, the largest `rss_bytes` first, those without one last.
    pub results: Vec<ProcessEntry>,
    /// How many pids could not be read in full: where it is not zero, the
    /// picture may be incomplete.
    pub skipped: u32,
}

/// A [`PidsInCgroupResponse`] with its texts as sequences of characters.
pub struct PidsInCgroupView {
    pub cgroup_path: Seq<char>,
    pub results: Seq<EntryView>,
    pub skipped: u32,
}

impl View for PidsInCgroupResponse {
    type V = PidsInCgroupView;

    open spec fn view(&self) -> PidsInCgroupView {
        PidsInCgroupView {
            cgroup_path: self.cgroup_path@,
            results: entry_views(self.results@),
            skipped: self.skipped,
        }
    }
}

pub open spec fn in_cgroup(path: Seq<char>) -> spec_fn(SnapshotView) -> bool {
    |s: SnapshotView| s.cgroup_path == path
}

/// The processes of a listing that are in the cgroup, the largest first.
pub open spec fn members(entries: Seq<DirEntry>, path: Seq<char>) -> Seq<SnapshotView> {
    ranking(snapshots(entries).filter(in_cgroup(path)), rss_rank())
}

/// The answer for the listing of `/proc` at `proc_root`.
pub open spec fn answer(
    proc_root: Seq<char>,
    listing: Result<Vec<DirEntry>, ReadFailure>,
    params: PidsInCgroupParams,
) -> Result<PidsInCgroupView, ErrorView> {
    match cgroup_path_checked(params.cgroup_path@) {
        Err(e) => Err(e),
        Ok(_) => match listing {
            Err(failure) => Err(
                ErrorView::ReadingProcRoot { path: proc_root, cause: failure.cause@ },
            ),
            Ok(entries) => Ok(
                PidsInCgroupView {
                    cgroup_path: params.cgroup_path@,
                    results: entries_of(
                        members(entries@, params.cgroup_path@),
                        redacts(params.redact_args),
                    ),
                    skipped: skipped_count(entries@) as u32,
                },
            ),
        },
    }
}

/// The processes inside the cgroup that is asked for, from what came of listing
/// `/proc` at `proc_root`.
pub fn run(
    proc_root: &str,
    listing: Result<Vec<DirEntry>, ReadFailure>,
    params: PidsInCgroupParams,
) -> (r: Result<PidsInCgroupResponse, Error>)
    requires
        cgroup_path_checked(params.cgroup_path@) is Ok ==> listing_fits(listing),
    ensures
        viewed(r) == answer(proc_root@, listing, params),
{
    if let Err(e) = validate_cgroup_path(params.cgroup_path.as_str()) {
        return Err(e);
    }
    let target = params.cgroup_path;
    let redact = redact_flag(params.redact_args);
    let wanted = target.clone();
    let filter = |snap: &ProcessSnapshot| -> (kept: bool)
        ensures
            kept == (snap.cgroup_path@ == wanted@),
        { snap.cgroup_path == wanted };
    assert(decides(filter, in_cgroup(target@)));
    let walk = match walk_processes(proc_root, listing, filter) {
        Ok(walk) => walk,
        Err(e) => return Err(e),
    };
    let results = show_processes(rank_processes(walk.processes), redact);
    Ok(PidsInCgroupResponse { cgroup_path: target, results, skipped: walk.skipped })
}

/// The processes of the cgroup, each as often as it was listed, and no others;
/// the largest first, those without a resident set size last.
pub proof fn law_members_are_those_of_the_cgroup(entries: Seq<DirEntry>, path: Seq<char>)
    ensures
        members(entries, path).to_multiset() == snapshots(entries).filter(
            in_cgroup(path),
        ).to_multiset(),
        in_rank_order(members(entries, path), rss_rank()),
        forall|s: SnapshotView| #[trigger]
            members(entries, path).contains(s) <==> snapshots(entries).contains(s) && s.cgroup_path
                == path,
{
    let all = snapshots(entries).filter(in_cgroup(path));
    law_ranking_is_a_ranking(all, rss_rank());
    assert forall|s: SnapshotView| #[trigger] members(entries, path).contains(s) <==> snapshots(
        entries,
    ).contains(s) && s.cgroup_path == path by {
        lemma_ranking_member(all, rss_rank(), s);
        lemma_filter_member(snapshots(entries), in_cgroup(path), s);
    }
}

/// The cgroup path that is shown of a process, passed in as it is, leads back to
/// the process, unless it is absolute or holds `..`.
pub proof fn law_shown_path_leads_back(
    proc_root: Seq<char>,
    entries: Vec<DirEntry>,
    params: PidsInCgroupParams,
    s: SnapshotView,
)
    requires
        snapshots(entries@).contains(s),
        params.cgroup_path@ == entry_of(s, redacts(params.redact_args)).cgroup_path,
        cgroup_path_checked(s.cgroup_path) is Ok,
    ensures
        answer(proc_root, Ok(entries), params) matches Ok(shown) && shown.results.contains(
            entry_of(s, redacts(params.redact_args)),
        ) && shown.cgroup_path == s.cgroup_path,
{
    let redact = redacts(params.redact_args);
    let all = members(entries@, s.cgroup_path);
    law_members_are_those_of_the_cgroup(entries@, s.cgroup_path);
    assert(all.contains(s));
    let i = choose|i: int| 0 <= i < all.len() && all[i] == s;
    assert(entries_of(all, redact)[i] == entry_of(s, redact));
}

/// What is shown is in the order of the resident set sizes, all of it in the
/// cgroup that was asked for.
pub proof fn law_pids_in_cgroup_shows_its_cgroup(
    proc_root: Seq<char>,
    listing: Result<Vec<DirEntry>, ReadFailure>,
    params: PidsInCgroupParams,
)
    ensures
        answer(proc_root, listing, params) matches Ok(shown) ==> {
            &&& in_rank_order(shown.results, entry_rank())
            &&& forall|i: int|
                0 <= i < shown.results.len() ==> (#[trigger] shown.results[i]).cgroup_path
                    == params.cgroup_path@
        },
{
    if let Ok(shown) = answer(proc_root, listing, params) {
        let path = params.cgroup_path@;
        let all = members(listing->Ok_0@, path);
        law_members_are_those_of_the_cgroup(listing->Ok_0@, path);
        assert forall|i: int, j: int| 0 <= i < j < shown.results.len() implies ranks_before(
            entry_rank()(#[trigger] shown.results[i]),
            entry_rank()(#[trigger] shown.results[j]),
        ) by {
            assert(ranks_before(rss_rank()(all[i]), rss_rank()(all[j])));
        }
        assert forall|i: int| 0 <= i < shown.results.len() implies (
        #[trigger] shown.results[i]).cgroup_path == path by {
            assert(all.contains(all[i]));
        }
    }
}

} // verus!
