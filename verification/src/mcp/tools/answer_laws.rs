//! What the tools answer, in terms of the processes of the listing.

use vstd::prelude::*;

use crate::collector::file_laws::law_every_readable_descriptor_counts;
use crate::collector::io::parsed_io;
use crate::collector::proc::{process_read, status_fits, ProcessFiles, SnapshotView};
use crate::collector::read::ReadFailure;
use crate::collector::smaps::{parsed_smaps_rollup, smaps_rollup_fits};
use crate::collector::walk::{pid_of_name, skipped_count, snapshots, visit, DirEntry, Visit};
use crate::error::ErrorView;
use crate::mcp::process_entry::{
    cmdline_text, entries_of, entry_of, entry_rank, has_secret_word, is_seven_bit,
    law_cmdline_hides_values, law_secret_keys_are_those_with_a_secret_word, nul_terminated,
    plain_arguments, redacts, rss_rank, EntryView,
};
use crate::mcp::rank::{
    goes_down, is_listing_of, law_ranking_goes_down, lemma_ranking_map, ranking,
};
use crate::mcp::tools::pids_in_cgroup::{in_cgroup, members, PidsInCgroupParams, PidsInCgroupView};
use crate::mcp::tools::process_info::{ProcessInfoFiles, ProcessInfoParams};
use crate::mcp::tools::top_processes::{
    at_most, counted, counts, in_subtree, law_subtree_holds_what_is_below, limit, text_view, under,
    TopProcessesParams, TopProcessesView,
};
use crate::mcp::tools::{pids_in_cgroup, process_info, top_processes};
use crate::mcp::util::cgroup_path_checked;

verus! {

// ---------------------------------------------------------------------------
// Lists
// ---------------------------------------------------------------------------

/// Whether what is shown is the process, with its command line as it is asked
/// for: redacted unless `redact_args` says `false`.
pub open spec fn shows(e: EntryView, s: SnapshotView, redact_args: Option<bool>) -> bool {
    &&& e.pid == s.pid
    &&& e.comm == s.comm
    &&& e.state == seq![s.state]
    &&& e.ppid == s.ppid
    &&& e.rss_bytes == s.rss_bytes
    &&& e.cgroup_path == s.cgroup_path
    &&& e.cmdline == cmdline_text(s.cmdline_raw, redact_args != Some(false))
}

pub open spec fn size_of_process() -> spec_fn(SnapshotView) -> Option<u64> {
    |s: SnapshotView| s.rss_bytes
}

pub open spec fn size_shown() -> spec_fn(EntryView) -> Option<u64> {
    |e: EntryView| e.rss_bytes
}

pub open spec fn of_cgroup(path: Seq<char>) -> spec_fn(SnapshotView) -> bool {
    |s: SnapshotView| s.cgroup_path == path
}

/// Whether a cgroup is at or below a prefix; all are where there is none.
pub open spec fn at_or_below(path: Seq<char>, prefix: Option<Seq<char>>) -> bool {
    match prefix {
        None => true,
        Some(p) => p.len() == 0 || path == p || exists|below: Seq<char>|
            path == #[trigger] (p.push('/') + below),
    }
}

pub open spec fn of_subtree(prefix: Option<Seq<char>>) -> spec_fn(SnapshotView) -> bool {
    |s: SnapshotView| at_or_below(s.cgroup_path, prefix)
}

/// Whether `shown` are the first `n` of `given` by size, or all where they are
/// fewer.
pub open spec fn shows_the_largest(
    shown: Seq<EntryView>,
    given: Seq<SnapshotView>,
    n: nat,
    redact_args: Option<bool>,
    listed: Seq<SnapshotView>,
) -> bool {
    &&& is_listing_of(listed, given, size_of_process())
    &&& n < given.len() ==> shown.len() == n
    &&& n >= given.len() ==> shown.len() == given.len()
    &&& forall|i: int|
        0 <= i < shown.len() ==> shows(#[trigger] shown[i], listed[i], redact_args)
    &&& goes_down(shown.map_values(size_shown()))
}

proof fn lemma_listing(given: Seq<SnapshotView>)
    ensures
        is_listing_of(
            ranking(given, rss_rank()),
            given,
            size_of_process(),
        ),
{
    assert(rss_rank() =~= size_of_process());
    law_ranking_goes_down(given, rss_rank());
}

proof fn lemma_shows_the_largest(
    given: Seq<SnapshotView>,
    listed: Seq<SnapshotView>,
    shown: Seq<EntryView>,
    n: nat,
    redact_args: Option<bool>,
)
    requires
        is_listing_of(listed, given, size_of_process()),
        shown == entries_of(at_most(listed, n), redacts(redact_args)),
    ensures
        shows_the_largest(shown, given, n, redact_args, listed),
{
    assert forall|i: int| 0 <= i < shown.len() implies shows(
        #[trigger] shown[i],
        listed[i],
        redact_args,
    ) by {
        assert(at_most(listed, n)[i] == listed[i]);
    }
    let sizes = shown.map_values(size_shown());
    let all = listed.map_values(size_of_process());
    assert forall|i: int, j: int| 0 <= i < j < sizes.len() implies ((#[trigger] sizes[j]) matches Some(
        y,
    ) ==> (#[trigger] sizes[i]) matches Some(x) && x >= y) by {
        assert(shows(shown[i], listed[i], redact_args) && shows(shown[j], listed[j], redact_args));
        assert(sizes[i] == all[i] && sizes[j] == all[j]);
    }
}

/// `pids_in_cgroup` answers with every process of the listing whose cgroup is
/// exactly the one that is asked for, the largest first.
pub proof fn law_pids_in_cgroup_lists_exactly_its_cgroup(
    proc_root: Seq<char>,
    entries: Vec<DirEntry>,
    params: PidsInCgroupParams,
)
    requires
        skipped_count(entries@) <= u32::MAX,
    ensures
        match cgroup_path_checked(params.cgroup_path@) {
            Ok(_) => pids_in_cgroup::answer(proc_root, Ok(entries), params) is Ok,
            Err(e) => pids_in_cgroup::answer(proc_root, Ok(entries), params) == Err::<
                PidsInCgroupView,
                _,
            >(e),
        },
        pids_in_cgroup::answer(proc_root, Ok(entries), params) matches Ok(a) ==> {
            let given = snapshots(entries@).filter(of_cgroup(params.cgroup_path@));
            &&& a.cgroup_path == params.cgroup_path@
            &&& a.skipped == skipped_count(entries@)
            &&& exists|listed: Seq<SnapshotView>| #[trigger]
                shows_the_largest(a.results, given, given.len(), params.redact_args, listed)
        },
{
    let path = params.cgroup_path@;
    let given = snapshots(entries@).filter(of_cgroup(path));
    let listed = members(entries@, path);
    assert(in_cgroup(path) =~= of_cgroup(path));
    lemma_listing(given);
    if let Ok(a) = pids_in_cgroup::answer(proc_root, Ok(entries), params) {
        assert(at_most(listed, given.len()) =~= listed);
        lemma_shows_the_largest(given, listed, a.results, given.len(), params.redact_args);
    }
}

/// What is at or below a prefix is in its subtree, and nothing else.
pub proof fn law_subtree_is_what_is_at_or_below(path: Seq<char>, prefix: Seq<char>)
    ensures
        in_subtree(path, prefix) <==> path == prefix || exists|below: Seq<char>|
            path == #[trigger] (prefix.push('/') + below),
{
    reveal_strlit("/");
    let root = prefix + "/"@;
    assert(root =~= prefix.push('/'));
    if root.is_prefix_of(path) {
        let below = path.skip(root.len() as int);
        assert(path =~= prefix.push('/') + below) by {
            assert forall|i: int| 0 <= i < root.len() implies path[i] == root[i] by {
                assert(path.subrange(0, root.len() as int)[i] == root[i]);
            }
        }
    }
    if exists|below: Seq<char>| path == #[trigger] (prefix.push('/') + below) {
        let below = choose|below: Seq<char>| path == #[trigger] (prefix.push('/') + below);
        assert(path =~= prefix + "/"@ + below);
        law_subtree_holds_what_is_below(prefix, below);
    }
}

proof fn lemma_counts(path: Seq<char>, prefix: Option<Seq<char>>)
    ensures
        counts(path, prefix) == at_or_below(path, prefix),
{
    if let Some(p) = prefix {
        law_subtree_is_what_is_at_or_below(path, p);
    }
}

/// `top_processes` answers with the largest of the processes at or below the
/// prefix: exactly as many as the caller says, whatever the number, or 10 where
/// the caller does not say; all of them where they are fewer.
pub proof fn law_top_processes_lists_as_many_as_asked(
    proc_root: Seq<char>,
    entries: Vec<DirEntry>,
    params: TopProcessesParams,
    n: nat,
    prefix: Option<Seq<char>>,
)
    requires
        skipped_count(entries@) <= u32::MAX,
        params.n matches Some(number) ==> n == number,
        params.n is None ==> n == 10,
        params.cgroup_prefix matches Some(p) ==> prefix == Some(p@),
        params.cgroup_prefix is None ==> prefix is None,
    ensures
        prefix is None ==> top_processes::answer(proc_root, Ok(entries), params) is Ok,
        prefix matches Some(p) ==> match cgroup_path_checked(p) {
            Ok(_) => top_processes::answer(proc_root, Ok(entries), params) is Ok,
            Err(e) => top_processes::answer(proc_root, Ok(entries), params) == Err::<
                TopProcessesView,
                _,
            >(e),
        },
        top_processes::answer(proc_root, Ok(entries), params) matches Ok(a) ==> {
            &&& a.cgroup_prefix == prefix
            &&& a.skipped == skipped_count(entries@)
            &&& exists|listed: Seq<SnapshotView>| #[trigger]
                shows_the_largest(
                    a.results,
                    snapshots(entries@).filter(of_subtree(prefix)),
                    n,
                    params.redact_args,
                    listed,
                )
        },
{
    let given = snapshots(entries@).filter(of_subtree(prefix));
    let listed = counted(entries@, prefix);
    assert(prefix == text_view(params.cgroup_prefix));
    assert(under(prefix) =~= of_subtree(prefix)) by {
        assert forall|s: SnapshotView| #[trigger] counts(s.cgroup_path, prefix) == at_or_below(
            s.cgroup_path,
            prefix,
        ) by {
            lemma_counts(s.cgroup_path, prefix);
        }
    }
    lemma_listing(given);
    if let Ok(a) = top_processes::answer(proc_root, Ok(entries), params) {
        lemma_shows_the_largest(given, listed, a.results, n, params.redact_args);
    }
}

/// Where the processes cannot be listed, that is told, with the directory and the
/// cause, unless the parameters are refused.
pub proof fn law_unlisted_processes_are_told(
    proc_root: Seq<char>,
    failure: ReadFailure,
    in_one: PidsInCgroupParams,
    in_all: TopProcessesParams,
)
    ensures
        ({
            let told = ErrorView::ReadingProcRoot { path: proc_root, cause: failure.cause@ };
            &&& match cgroup_path_checked(in_one.cgroup_path@) {
                Ok(_) => pids_in_cgroup::answer(proc_root, Err(failure), in_one) == Err::<
                    PidsInCgroupView,
                    _,
                >(told),
                Err(e) => pids_in_cgroup::answer(proc_root, Err(failure), in_one) == Err::<
                    PidsInCgroupView,
                    _,
                >(e),
            }
            &&& in_all.cgroup_prefix is None ==> top_processes::answer(
                proc_root,
                Err(failure),
                in_all,
            ) == Err::<TopProcessesView, _>(told)
        }),
{
}

// ---------------------------------------------------------------------------
// One process
// ---------------------------------------------------------------------------

/// `process_info` answers with what the files of the process say, each field from
/// its own file, and leaves a field empty exactly where its file could not be
/// read.
pub proof fn law_info_says_what_the_files_say(
    all: ProcessInfoFiles,
    params: ProcessInfoParams,
    s: SnapshotView,
)
    requires
        process_read(params.pid, all.files) == Ok::<_, ErrorView>(s),
        all.fds matches Ok(flags) ==> flags@.filter(|b: bool| b).len() <= u32::MAX,
    ensures
        process_info::answer(all, params) matches Ok(a) ==> {
            &&& shows(a.base, s, params.redact_args)
            &&& a.uid == s.uid
            &&& a.num_threads == s.num_threads
            &&& all.fds matches Ok(flags) ==> (a.fd_count matches Some(n) && n as nat
                == flags@.filter(|b: bool| b).len())
            &&& all.fds is Err ==> a.fd_count is None
            &&& all.smaps matches Ok(text) ==> (a.memory matches Some(m) && parsed_smaps_rollup(
                text@,
            ) == Ok::<_, ErrorView>(m))
            &&& all.smaps is Err ==> a.memory is None
            &&& all.io matches Ok(text) ==> (a.io matches Some(c) && parsed_io(text@) == Ok::<
                _,
                ErrorView,
            >(c))
            &&& all.io is Err ==> a.io is None
        },
        process_info::answer(all, params) is Ok <==> {
            &&& all.fds matches Err(failure) ==> !(failure.kind is Other)
            &&& all.smaps matches Ok(text) ==> parsed_smaps_rollup(text@) is Ok
            &&& all.smaps matches Err(failure) ==> !(failure.kind is Other)
            &&& all.io matches Ok(text) ==> parsed_io(text@) is Ok
            &&& all.io matches Err(failure) ==> !(failure.kind is Other)
        },
{
    if let Ok(flags) = all.fds {
        law_every_readable_descriptor_counts(all.fd_dir@, flags);
    }
}

// ---------------------------------------------------------------------------
// Secrets
// ---------------------------------------------------------------------------

/// Whether the command lines `a` and `b` have the same arguments but for the value
/// of one key with a secret word.
pub open spec fn is_secret_change(
    a: Seq<char>,
    b: Seq<char>,
    args: Seq<Seq<char>>,
    i: int,
    key: Seq<char>,
    values: (Seq<char>, Seq<char>),
) -> bool {
    &&& 0 <= i < args.len()
    &&& is_seven_bit(key)
    &&& has_secret_word(key)
    &&& !key.contains('=')
    &&& plain_arguments(args.update(i, key.push('=') + values.0))
    &&& plain_arguments(args.update(i, key.push('=') + values.1))
    &&& a == nul_terminated(args.update(i, key.push('=') + values.0))
    &&& b == nul_terminated(args.update(i, key.push('=') + values.1))
}

pub open spec fn same_but_for_a_secret(a: Seq<char>, b: Seq<char>) -> bool {
    exists|args: Seq<Seq<char>>, i: int, key: Seq<char>, values: (Seq<char>, Seq<char>)| #[trigger]
        is_secret_change(a, b, args, i, key, values)
}

/// Whether the files of two processes are the same but for a secret on the
/// command line.
pub open spec fn are_twins(a: ProcessFiles, b: ProcessFiles) -> bool {
    &&& a.cgroup_file == b.cgroup_file
    &&& a.cgroup == b.cgroup
    &&& a.comm == b.comm
    &&& a.status == b.status
    &&& a.cmdline matches Ok(x) && b.cmdline matches Ok(y) && same_but_for_a_secret(x@, y@)
}

/// Whether two entries are the same but for a secret on a command line.
pub open spec fn are_twin_entries(a: DirEntry, b: DirEntry) -> bool {
    ||| a == b
    ||| match (a, b) {
        (DirEntry::Named { name: x, files: f }, DirEntry::Named { name: y, files: g }) => x == y
            && are_twins(f, g),
        _ => false,
    }
}

/// Whether two listings are the same but for secrets on command lines.
pub open spec fn are_twin_listings(a: Seq<DirEntry>, b: Seq<DirEntry>) -> bool {
    &&& a.len() == b.len()
    &&& forall|i: int| 0 <= i < a.len() ==> are_twin_entries(#[trigger] a[i], b[i])
}

/// What is shown of a process.
pub open spec fn shown_as(redact: bool) -> spec_fn(SnapshotView) -> EntryView {
    |s: SnapshotView| entry_of(s, redact)
}

proof fn lemma_secret_change(a: Seq<char>, b: Seq<char>)
    requires
        same_but_for_a_secret(a, b),
    ensures
        cmdline_text(a, true) == cmdline_text(b, true),
{
    let (args, i, key, values) = choose|
        args: Seq<Seq<char>>,
        i: int,
        key: Seq<char>,
        values: (Seq<char>, Seq<char>),
    | #[trigger] is_secret_change(a, b, args, i, key, values);
    law_secret_keys_are_those_with_a_secret_word(key);
    law_cmdline_hides_values(args, i, key, values.0, values.1);
}

proof fn lemma_twins(pid: u32, a: ProcessFiles, b: ProcessFiles)
    requires
        are_twins(a, b),
    ensures
        match (process_read(pid, a), process_read(pid, b)) {
            (Ok(s), Ok(t)) => entry_of(s, true) == entry_of(t, true) && s.uid == t.uid
                && s.num_threads == t.num_threads,
            (Err(e), Err(f)) => e == f,
            _ => false,
        },
{
    lemma_secret_change(a.cmdline->Ok_0@, b.cmdline->Ok_0@);
}

/// Listings that are the same but for secrets show the same.
pub proof fn lemma_twin_listings(a: Seq<DirEntry>, b: Seq<DirEntry>)
    requires
        are_twin_listings(a, b),
    ensures
        snapshots(a).map_values(shown_as(true)) == snapshots(b).map_values(shown_as(true)),
        skipped_count(a) == skipped_count(b),
    decreases a.len(),
{
    let f = shown_as(true);
    if a.len() == 0 {
        assert(snapshots(a).map_values(f) =~= snapshots(b).map_values(f));
    } else {
        let (x, y) = (a.drop_last(), b.drop_last());
        assert forall|i: int| 0 <= i < x.len() implies are_twin_entries(#[trigger] x[i], y[i]) by {
            assert(x[i] == a[i] && y[i] == b[i]);
        }
        lemma_twin_listings(x, y);
        let (e, g) = (a.last(), b.last());
        assert(are_twin_entries(a[a.len() - 1], b[a.len() - 1]));
        if e != g {
            if let DirEntry::Named { name: Some(name), files } = e {
                if let Some(pid) = pid_of_name(name@) {
                    lemma_twins(pid, files, g->files);
                }
            }
        }
        match (visit(e), visit(g)) {
            (Visit::Read(s), Visit::Read(t)) => {
                assert(snapshots(x).push(s).map_values(f) =~= snapshots(x).map_values(f).push(f(s)));
                assert(snapshots(y).push(t).map_values(f) =~= snapshots(y).map_values(f).push(f(t)));
            },
            _ => {},
        }
    }
}

proof fn lemma_filter_of_map(
    s: Seq<SnapshotView>,
    f: spec_fn(SnapshotView) -> EntryView,
    p: spec_fn(SnapshotView) -> bool,
    g: spec_fn(EntryView) -> bool,
)
    requires
        forall|x: SnapshotView| p(x) == #[trigger] g(f(x)),
    ensures
        s.filter(p).map_values(f) == s.map_values(f).filter(g),
    decreases s.len(),
{
    reveal(Seq::filter);
    if s.len() == 0 {
        assert(s.filter(p).map_values(f) =~= s.map_values(f).filter(g));
    } else {
        let init = s.drop_last();
        lemma_filter_of_map(init, f, p, g);
        assert(s.map_values(f).drop_last() =~= init.map_values(f));
        assert(s.map_values(f).last() == f(s.last()));
        assert(p(s.last()) == g(f(s.last())));
        if p(s.last()) {
            assert(init.filter(p).push(s.last()).map_values(f) =~= init.filter(p).map_values(f).push(
                f(s.last()),
            ));
        }
    }
}

/// What is listed depends only on what is shown.
proof fn lemma_list_of_shown(
    s: Seq<SnapshotView>,
    t: Seq<SnapshotView>,
    p: spec_fn(SnapshotView) -> bool,
    g: spec_fn(EntryView) -> bool,
)
    requires
        s.map_values(shown_as(true)) == t.map_values(shown_as(true)),
        forall|x: SnapshotView| p(x) == #[trigger] g(shown_as(true)(x)),
    ensures
        ranking(s.filter(p), rss_rank()).map_values(shown_as(true)) == ranking(
            t.filter(p),
            rss_rank(),
        ).map_values(shown_as(true)),
{
    let f = shown_as(true);
    lemma_filter_of_map(s, f, p, g);
    lemma_filter_of_map(t, f, p, g);
    lemma_ranking_map(s.filter(p), f, rss_rank(), entry_rank());
    lemma_ranking_map(t.filter(p), f, rss_rank(), entry_rank());
}

/// Unless the caller says `false`, `pids_in_cgroup` answers two listings that
/// differ in secrets alike.
pub proof fn law_pids_in_cgroup_hides_secrets(
    proc_root: Seq<char>,
    a: Vec<DirEntry>,
    b: Vec<DirEntry>,
    params: PidsInCgroupParams,
)
    requires
        are_twin_listings(a@, b@),
        params.redact_args != Some(false),
    ensures
        pids_in_cgroup::answer(proc_root, Ok(a), params) == pids_in_cgroup::answer(
            proc_root,
            Ok(b),
            params,
        ),
{
    let path = params.cgroup_path@;
    let g = |e: EntryView| e.cgroup_path == path;
    lemma_twin_listings(a@, b@);
    lemma_list_of_shown(snapshots(a@), snapshots(b@), in_cgroup(path), g);
    let (x, y) = (members(a@, path), members(b@, path));
    assert(entries_of(x, true) =~= x.map_values(shown_as(true)));
    assert(entries_of(y, true) =~= y.map_values(shown_as(true)));
}

/// Unless the caller says `false`, `top_processes` answers two listings that
/// differ in secrets alike.
pub proof fn law_top_processes_hides_secrets(
    proc_root: Seq<char>,
    a: Vec<DirEntry>,
    b: Vec<DirEntry>,
    params: TopProcessesParams,
)
    requires
        are_twin_listings(a@, b@),
        params.redact_args != Some(false),
    ensures
        top_processes::answer(proc_root, Ok(a), params) == top_processes::answer(
            proc_root,
            Ok(b),
            params,
        ),
{
    let prefix = text_view(params.cgroup_prefix);
    let g = |e: EntryView| counts(e.cgroup_path, prefix);
    lemma_twin_listings(a@, b@);
    lemma_list_of_shown(snapshots(a@), snapshots(b@), under(prefix), g);
    let (x, y) = (counted(a@, prefix), counted(b@, prefix));
    let n = limit(params.n);
    let f = shown_as(true);
    assert(x.len() == x.map_values(f).len() && y.len() == y.map_values(f).len());
    assert forall|i: int| 0 <= i < x.len() implies entry_of(#[trigger] x[i], true) == entry_of(
        y[i],
        true,
    ) by {
        assert(x.map_values(f)[i] == y.map_values(f)[i]);
    }
    assert(entries_of(at_most(x, n), true) =~= entries_of(at_most(y, n), true));
}

/// Unless the caller says `false`, `process_info` answers alike on two processes
/// that differ in secrets.
pub proof fn law_process_info_hides_secrets(
    a: ProcessInfoFiles,
    b: ProcessInfoFiles,
    params: ProcessInfoParams,
)
    requires
        are_twins(a.files, b.files),
        a.fd_dir == b.fd_dir,
        a.fds == b.fds,
        a.smaps_file == b.smaps_file,
        a.smaps == b.smaps,
        a.io_file == b.io_file,
        a.io == b.io,
        params.redact_args != Some(false),
    ensures
        process_info::answer(a, params) == process_info::answer(b, params),
{
    lemma_twins(params.pid, a.files, b.files);
}

/// To ask for redaction is to say nothing of it, for each of the lists and for
/// one process.
pub proof fn law_redaction_is_the_default(
    proc_root: Seq<char>,
    listing: Result<Vec<DirEntry>, ReadFailure>,
    asked: (PidsInCgroupParams, TopProcessesParams, ProcessInfoParams),
    silent: (PidsInCgroupParams, TopProcessesParams, ProcessInfoParams),
    all: ProcessInfoFiles,
)
    requires
        asked.0.redact_args == Some(true) && silent.0.redact_args is None,
        asked.0.cgroup_path@ == silent.0.cgroup_path@,
        asked.1.redact_args == Some(true) && silent.1.redact_args is None,
        asked.1.n == silent.1.n,
        asked.1.cgroup_prefix == silent.1.cgroup_prefix,
        asked.2.redact_args == Some(true) && silent.2.redact_args is None,
        asked.2.pid == silent.2.pid,
    ensures
        pids_in_cgroup::answer(proc_root, listing, asked.0) == pids_in_cgroup::answer(
            proc_root,
            listing,
            silent.0,
        ),
        top_processes::answer(proc_root, listing, asked.1) == top_processes::answer(
            proc_root,
            listing,
            silent.1,
        ),
        process_info::answer(all, asked.2) == process_info::answer(all, silent.2),
{
}

/// The files of a process can be taken where its sizes and counts fit their
/// integers.
pub proof fn law_fitting_files_can_be_taken(all: ProcessInfoFiles, pid: u32)
    requires
        all.files.status matches Ok(text) ==> status_fits(text@),
        all.fds matches Ok(flags) ==> flags@.filter(|b: bool| b).len() <= u32::MAX,
        all.smaps matches Ok(text) ==> smaps_rollup_fits(text@),
    ensures
        all.fits(pid),
{
    if let Ok(flags) = all.fds {
        law_every_readable_descriptor_counts(all.fd_dir@, flags);
    }
}

} // verus!
