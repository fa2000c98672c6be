//! The walk over `/proc`: every process that can be read.

use vstd::prelude::*;

use crate::collector::proc::{
    process_read, read_process, status_fits, ProcessFiles, ProcessSnapshot, SnapshotView,
};
use crate::collector::read::ReadFailure;
use crate::error::{Error, ErrorView};
use crate::text::{chars_of, decimal_u32, parse_u32};

verus! {

pub struct WalkResult {
    pub processes: Vec<ProcessSnapshot>,
    /// Pids seen in `/proc` that could not be read in full: mostly processes
    /// that ended between the listing and the reading, or files closed to us.
    /// Tells the caller that the picture may be incomplete.
    pub skipped: u32,
}

/// One entry of `/proc` as it was listed.
pub enum DirEntry {
    /// The entry itself could not be read.
    Unreadable,
    /// An entry with its name (`None` where the name is not UTF-8) and, where
    /// the name is a pid, what came of reading the files under it. The files
    /// of other entries are never looked at.
    Named { name: Option<String>, files: ProcessFiles },
}

/// The pid that a name under `/proc` stands for. Names that are no numbers
/// (`cpuinfo`, `meminfo`, `sys`) are no processes.
pub open spec fn pid_of_name(name: Seq<char>) -> Option<u32> {
    decimal_u32(name)
}

/// The pid that a name under `/proc` stands for.
pub fn parse_pid(name: &str) -> (r: Option<u32>)
    ensures
        r == pid_of_name(name@),
{
    let cs = chars_of(name);
    parse_u32(cs.as_slice())
}

/// What an entry comes to.
pub enum Visit {
    /// No process.
    Passed,
    /// Something that could not be read.
    Skipped,
    Read(SnapshotView),
}

pub open spec fn visit(entry: DirEntry) -> Visit {
    match entry {
        DirEntry::Unreadable => Visit::Skipped,
        DirEntry::Named { name: None, files } => Visit::Passed,
        DirEntry::Named { name: Some(name), files } => match pid_of_name(name@) {
            None => Visit::Passed,
            Some(pid) => match process_read(pid, files) {
                Ok(snapshot) => Visit::Read(snapshot),
                Err(_) => Visit::Skipped,
            },
        },
    }
}

/// Whether the files of an entry that is a process can be taken.
pub open spec fn entry_fits(entry: DirEntry) -> bool {
    match entry {
        DirEntry::Named { name: Some(name), files } => pid_of_name(name@) is Some ==> files.fits(),
        _ => true,
    }
}

/// The processes that could be read, in the order of the listing.
pub open spec fn snapshots(entries: Seq<DirEntry>) -> Seq<SnapshotView>
    decreases entries.len(),
{
    if entries.len() == 0 {
        Seq::empty()
    } else {
        let before = snapshots(entries.drop_last());
        match visit(entries.last()) {
            Visit::Read(snapshot) => before.push(snapshot),
            _ => before,
        }
    }
}

/// How many entries could not be read.
pub open spec fn skipped_count(entries: Seq<DirEntry>) -> nat
    decreases entries.len(),
{
    if entries.len() == 0 {
        0
    } else {
        skipped_count(entries.drop_last()) + if visit(entries.last()) is Skipped {
            1nat
        } else {
            0nat
        }
    }
}

/// Whether a listing can be walked: every process can be taken, and what is
/// skipped can be counted in 32 bits.
pub open spec fn listing_fits(listing: Result<Vec<DirEntry>, ReadFailure>) -> bool {
    listing matches Ok(entries) ==> {
        &&& forall|i: int| 0 <= i < entries@.len() ==> entry_fits(#[trigger] entries@[i])
        &&& skipped_count(entries@) <= u32::MAX
    }
}

/// Whether [`walk_processes`] can go through the listing.
pub fn check_listing(listing: &Result<Vec<DirEntry>, ReadFailure>) -> (r: bool)
    ensures
        r == listing_fits(*listing),
{
    let entries = match listing {
        Ok(entries) => entries,
        Err(_) => return true,
    };
    let ghost all = entries@;
    let mut skipped: usize = 0;
    let mut i: usize = 0;
    while i < entries.len()
        invariant
            *listing matches Ok(taken) && taken == *entries,
            all == entries@,
            skipped <= i <= entries.len(),
            skipped == skipped_count(all.take(i as int)),
            forall|j: int| 0 <= j < i ==> entry_fits(#[trigger] all[j]),
        decreases entries.len() - i,
    {
        assert(all.take(i + 1).drop_last() =~= all.take(i as int));
        match &entries[i] {
            DirEntry::Unreadable => {
                skipped += 1;
            },
            DirEntry::Named { name, files } => {
                if let Some(name) = name {
                    if let Some(pid) = parse_pid(name.as_str()) {
                        if !files.check() {
                            assert(!entry_fits(all[i as int]));
                            return false;
                        }
                        if !files.readable() {
                            assert(process_read(pid, *files) is Err);
                            skipped += 1;
                        } else {
                            assert(process_read(pid, *files) is Ok);
                        }
                    }
                }
            },
        }
        i += 1;
    }
    assert(all.take(i as int) =~= all);
    skipped <= u32::MAX as usize
}

/// Whether the closure answers every snapshot as `keep` does.
pub open spec fn decides<F: Fn(&ProcessSnapshot) -> bool>(
    filter: F,
    keep: spec_fn(SnapshotView) -> bool,
) -> bool {
    forall|s: &ProcessSnapshot, b: bool| #[trigger] filter.ensures((s,), b) ==> b == keep(s@)
}

/// Whether the closure may answer `b` for what is seen of a snapshot.
pub open spec fn answers<F: Fn(&ProcessSnapshot) -> bool>(
    filter: F,
    seen: SnapshotView,
    b: bool,
) -> bool {
    exists|s: &ProcessSnapshot| s@ == seen && #[trigger] filter.ensures((s,), b)
}

/// Whether `kept` is one answer of the closure for each of the snapshots.
pub open spec fn answered<F: Fn(&ProcessSnapshot) -> bool>(
    filter: F,
    seen: Seq<SnapshotView>,
    kept: Seq<bool>,
) -> bool {
    &&& kept.len() == seen.len()
    &&& forall|i: int| 0 <= i < seen.len() ==> answers(filter, #[trigger] seen[i], kept[i])
}

/// The snapshots whose flags are set.
pub open spec fn selected(seen: Seq<SnapshotView>, kept: Seq<bool>) -> Seq<SnapshotView>
    decreases seen.len(),
{
    if seen.len() == 0 {
        Seq::empty()
    } else {
        let before = selected(seen.drop_last(), kept.drop_last());
        if kept.last() {
            before.push(seen.last())
        } else {
            before
        }
    }
}

/// Where the closure decides as `keep` does, what it selects is what `keep` lets
/// pass.
proof fn lemma_selected_by<F: Fn(&ProcessSnapshot) -> bool>(
    filter: F,
    keep: spec_fn(SnapshotView) -> bool,
    seen: Seq<SnapshotView>,
    kept: Seq<bool>,
)
    requires
        decides(filter, keep),
        answered(filter, seen, kept),
    ensures
        selected(seen, kept) == seen.filter(keep),
    decreases seen.len(),
{
    reveal(Seq::filter);
    if seen.len() > 0 {
        let init = seen.drop_last();
        assert forall|i: int| 0 <= i < init.len() implies answers(
            filter,
            #[trigger] init[i],
            kept.drop_last()[i],
        ) by {
            assert(init[i] == seen[i]);
        }
        lemma_selected_by(filter, keep, init, kept.drop_last());
        assert(answers(filter, seen[seen.len() - 1], kept[seen.len() - 1]));
        assert(kept.last() == keep(seen.last()));
    }
}

/// The views of a row of snapshots.
pub open spec fn snapshot_views(processes: Seq<ProcessSnapshot>) -> Seq<SnapshotView> {
    Seq::new(processes.len(), |i: int| processes[i]@)
}

proof fn lemma_skipped_grows(entries: Seq<DirEntry>, k: int)
    requires
        0 <= k <= entries.len(),
    ensures
        skipped_count(entries.take(k)) <= skipped_count(entries),
    decreases entries.len() - k,
{
    if k < entries.len() {
        assert(entries.take(k + 1).drop_last() =~= entries.take(k));
        lemma_skipped_grows(entries, k + 1);
    } else {
        assert(entries.take(k) =~= entries);
    }
}

/// Goes through the listing of `/proc` at `proc_root`, takes each entry whose
/// name is a pid as a process, and keeps those that `filter` keeps.
///
/// An entry that cannot be read does not fail the walk, since processes end all
/// the time: it counts into `skipped`. Threads are not visited: `/proc` lists
/// thread groups only.
pub fn walk_processes<F: Fn(&ProcessSnapshot) -> bool>(
    proc_root: &str,
    listing: Result<Vec<DirEntry>, ReadFailure>,
    filter: F,
) -> (r: Result<WalkResult, Error>)
    requires
        listing_fits(listing),
        forall|s: &ProcessSnapshot| #[trigger] filter.requires((s,)),
    ensures
        match listing {
            Err(failure) => r matches Err(e) && e@ == (ErrorView::ReadingProcRoot {
                path: proc_root@,
                cause: failure.cause@,
            }),
            Ok(entries) => {
                &&& r matches Ok(walk)
                &&& walk.skipped == skipped_count(entries@)
                &&& exists|kept: Seq<bool>| #[trigger]
                    answered(filter, snapshots(entries@), kept) && snapshot_views(walk.processes@)
                        == selected(snapshots(entries@), kept)
                &&& forall|keep: spec_fn(SnapshotView) -> bool| #[trigger]
                    decides(filter, keep) ==> snapshot_views(walk.processes@) == snapshots(
                        entries@,
                    ).filter(keep)
            },
        },
{
    let entries = match listing {
        Ok(entries) => entries,
        Err(failure) => return Err(
            Error::ReadingProcRoot { path: proc_root.to_owned(), cause: failure.cause },
        ),
    };
    let mut processes: Vec<ProcessSnapshot> = Vec::new();
    let mut skipped: u32 = 0;
    let ghost all = entries@;
    let ghost mut answers_given: Seq<bool> = Seq::empty();
    assert(snapshot_views(processes@) =~= Seq::empty());
    for entry in it: entries
        invariant
            it.seq() == all,
            forall|i: int| 0 <= i < all.len() ==> entry_fits(#[trigger] all[i]),
            forall|s: &ProcessSnapshot| #[trigger] filter.requires((s,)),
            skipped_count(all) <= u32::MAX,
            skipped == skipped_count(all.take(it.index())),
            answered(filter, snapshots(all.take(it.index())), answers_given),
            snapshot_views(processes@) == selected(
                snapshots(all.take(it.index())),
                answers_given,
            ),
    {
        let ghost i = it.index();
        let ghost before = processes@;
        assert(entry == all[i]);
        assert(all.take(i + 1).drop_last() =~= all.take(i));
        proof {
            lemma_skipped_grows(all, i + 1);
        }
        match entry {
            DirEntry::Unreadable => {
                skipped += 1;
            },
            DirEntry::Named { name, files } => {
                if let Some(name) = name {
                    if let Some(pid) = parse_pid(name.as_str()) {
                        match read_process(pid, files) {
                            Ok(snapshot) => {
                                let ghost seen = snapshot@;
                                let ghost so_far = snapshots(all.take(i));
                                let ghost given = answers_given;
                                let kept = filter(&snapshot);
                                assert(visit(all[i]) == Visit::Read(seen));
                                assert(answers(filter, seen, kept));
                                proof {
                                    answers_given = given.push(kept);
                                    assert(so_far.push(seen).drop_last() =~= so_far);
                                    assert(given.push(kept).drop_last() =~= given);
                                }
                                if kept {
                                    processes.push(snapshot);
                                    assert(snapshot_views(processes@) =~= snapshot_views(
                                        before,
                                    ).push(seen));
                                }
                            },
                            Err(_) => {
                                skipped += 1;
                            },
                        }
                    }
                }
            },
        }
    }
    assert(all.take(all.len() as int) =~= all);
    proof {
        assert forall|keep: spec_fn(SnapshotView) -> bool| #[trigger] decides(
            filter,
            keep,
        ) implies snapshot_views(processes@) == snapshots(all).filter(keep) by {
            lemma_selected_by(filter, keep, snapshots(all), answers_given);
        }
    }
    Ok(WalkResult { processes, skipped })
}

/// How many entries are no processes.
pub open spec fn passed_count(entries: Seq<DirEntry>) -> nat
    decreases entries.len(),
{
    if entries.len() == 0 {
        0
    } else {
        passed_count(entries.drop_last()) + if visit(entries.last()) is Passed {
            1nat
        } else {
            0nat
        }
    }
}

/// Every entry is a process that could be read, something that could not, or no
/// process.
pub proof fn law_walk_accounts_for_every_entry(entries: Seq<DirEntry>)
    ensures
        snapshots(entries).len() + skipped_count(entries) + passed_count(entries) == entries.len(),
    decreases entries.len(),
{
    if entries.len() > 0 {
        law_walk_accounts_for_every_entry(entries.drop_last());
    }
}

/// The walk over two listings put together is the one walk and then the other.
pub proof fn law_walk_of_parts(a: Seq<DirEntry>, b: Seq<DirEntry>)
    ensures
        snapshots(a + b) == snapshots(a) + snapshots(b),
        skipped_count(a + b) == skipped_count(a) + skipped_count(b),
    decreases b.len(),
{
    if b.len() == 0 {
        assert(a + b =~= a);
        assert(snapshots(a) + snapshots(b) =~= snapshots(a));
    } else {
        let init = b.drop_last();
        law_walk_of_parts(a, init);
        assert((a + b).drop_last() =~= a + init);
        assert((a + b).last() == b.last());
        if let Visit::Read(snapshot) = visit(b.last()) {
            assert((snapshots(a) + snapshots(init)).push(snapshot) =~= snapshots(a) + snapshots(
                init,
            ).push(snapshot));
        }
    }
}

/// An entry that cannot be read is counted and changes nothing else; one that is
/// no process changes nothing at all.
pub proof fn law_unread_entry_changes_nothing(
    before: Seq<DirEntry>,
    entry: DirEntry,
    after: Seq<DirEntry>,
)
    requires
        visit(entry) !is Read,
    ensures
        snapshots(before.push(entry) + after) == snapshots(before + after),
        skipped_count(before.push(entry) + after) == skipped_count(before + after) + if visit(
            entry,
        ) is Skipped {
            1nat
        } else {
            0nat
        },
{
    law_walk_of_parts(before.push(entry), after);
    law_walk_of_parts(before, after);
    assert(before.push(entry).drop_last() =~= before);
}

/// One entry more: what cannot be read counts as skipped, what is no process
/// changes nothing, and a process that can be read comes last.
pub proof fn law_listing_entry_by_entry(before: Seq<DirEntry>, entry: DirEntry)
    ensures
        snapshots(Seq::empty()) == Seq::<SnapshotView>::empty(),
        skipped_count(Seq::empty()) == 0,
        ({
            let same = snapshots(before.push(entry)) == snapshots(before);
            let one_more = skipped_count(before.push(entry)) == skipped_count(before) + 1;
            let no_more = skipped_count(before.push(entry)) == skipped_count(before);
            match entry {
                DirEntry::Unreadable => same && one_more,
                DirEntry::Named { name: None, files } => same && no_more,
                DirEntry::Named { name: Some(name), files } => match decimal_u32(name@) {
                    None => same && no_more,
                    Some(pid) => match process_read(pid, files) {
                        Ok(s) => no_more && snapshots(before.push(entry)) == snapshots(before).push(
                            s,
                        ),
                        Err(_) => same && one_more,
                    },
                },
            }
        }),
{
    assert(before.push(entry).drop_last() =~= before);
}

proof fn lemma_skipped_at_most_all(entries: Seq<DirEntry>)
    ensures
        skipped_count(entries) <= entries.len(),
    decreases entries.len(),
{
    if entries.len() > 0 {
        lemma_skipped_at_most_all(entries.drop_last());
    }
}

/// A listing can be walked where every status in it has a resident set size of 64
/// bits, if it has no more entries than 32 bits can count.
pub proof fn law_listing_with_fitting_statuses_fits(entries: Vec<DirEntry>)
    requires
        entries@.len() <= u32::MAX,
        forall|i: int|
            0 <= i < entries@.len() ==> ((#[trigger] entries@[i]) matches DirEntry::Named {
                name,
                files,
            } ==> (files.status matches Ok(text) ==> status_fits(text@))),
    ensures
        listing_fits(Ok(entries)),
{
    lemma_skipped_at_most_all(entries@);
}

} // verus!
