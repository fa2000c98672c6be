//! What the files under `/proc/<pid>` say, in terms of the lines that the kernel
//! writes into them.

use vstd::prelude::*;

use crate::collector::cgroup_link::parsed_cgroup_path;
use crate::collector::fd::{count_set, fds_counted};
use crate::collector::io::{counter, counter_reader, io_read, parsed_io, IoCounters};
use crate::collector::proc::{
    last_after, parsed_status, prefix_reader, process_read, status_fits, ProcessFiles,
    SnapshotView, StatusFields,
};
use crate::collector::read::{FailureKind, ReadFailure};
use crate::collector::smaps::{
    kb, kb_reader, parsed_smaps_rollup, smaps_rollup_fits, smaps_rollup_read, MemoryBreakdown,
};
use crate::error::{ErrorView, ProcFile};
use crate::text::{
    decimal_u32, decimal_u64, digits_of, first_word, is_blank, law_blank_trims_to_nothing,
    law_first_word_is_found, law_last_line_counts, law_long_number_is_read_back,
    law_number_is_read_back, law_trim_keeps_the_inside, law_trim_starts_with_the_first_visible,
    law_unread_line_changes_nothing, lemma_digits_are_solid, lemma_no_reading,
    lemma_split_once_joined, line_key, lines, split_once, trim, white_space, whole_lines,
    without_cr,
};

verus! {

// ---------------------------------------------------------------------------
// status
// ---------------------------------------------------------------------------

/// Whether no line of the text starts with `prefix`.
pub open spec fn no_line_starts(text: Seq<char>, prefix: Seq<char>) -> bool {
    forall|i: int| 0 <= i < lines(text).len() ==> !prefix.is_prefix_of(#[trigger] lines(text)[i])
}

/// Whether the last line of the text that starts with `prefix` goes on with
/// `rest`, where `before` and `after` are the lines around it.
pub open spec fn is_last_line(
    text: Seq<char>,
    prefix: Seq<char>,
    rest: Seq<char>,
    before: Seq<char>,
    after: Seq<char>,
) -> bool {
    &&& text == before + (prefix + rest).push('\n') + after
    &&& whole_lines(before)
    &&& !rest.contains('\n')
    &&& rest.len() > 0 ==> rest.last() != '\r'
    &&& no_line_starts(after, prefix)
}

/// Whether the last line of the text that starts with `prefix` goes on with
/// `rest`.
pub open spec fn last_line_is(text: Seq<char>, prefix: Seq<char>, rest: Seq<char>) -> bool {
    exists|before: Seq<char>, after: Seq<char>| #[trigger]
        is_last_line(text, prefix, rest, before, after)
}

proof fn lemma_last_line(text: Seq<char>, prefix: Seq<char>, rest: Seq<char>)
    requires
        last_line_is(text, prefix, rest),
        prefix.len() > 0,
        !prefix.contains('\n'),
        prefix.last() != '\r',
    ensures
        last_after(text, prefix) == Some(rest),
{
    let (before, after) = choose|before: Seq<char>, after: Seq<char>| #[trigger]
        is_last_line(text, prefix, rest, before, after);
    let line = prefix + rest;
    assert(!line.contains('\n')) by {
        if line.contains('\n') {
            let i = choose|i: int| 0 <= i < line.len() && line[i] == '\n';
            if i < prefix.len() {
                assert(prefix.contains(prefix[i]));
            } else {
                assert(rest.contains(rest[i - prefix.len()]));
            }
        }
    }
    assert(line.last() == if rest.len() > 0 {
        rest.last()
    } else {
        prefix.last()
    });
    assert(line.subrange(0, prefix.len() as int) =~= prefix);
    assert(line.skip(prefix.len() as int) =~= rest);
    assert(prefix_reader(prefix)(line) == Some(rest));
    assert forall|i: int| 0 <= i < lines(after).len() implies prefix_reader(prefix)(
        #[trigger] lines(after)[i],
    ) is None by {
        assert(!prefix.is_prefix_of(lines(after)[i]));
    }
    law_last_line_counts(before, line, after, prefix_reader(prefix));
}

proof fn lemma_prefix_plain(prefix: Seq<char>)
    requires
        prefix == "State:"@ || prefix == "PPid:"@ || prefix == "Uid:"@ || prefix == "Threads:"@
            || prefix == "VmRSS:"@,
    ensures
        prefix.len() > 0,
        !prefix.contains('\n'),
        prefix.last() != '\r',
{
    reveal_strlit("State:");
    reveal_strlit("PPid:");
    reveal_strlit("Uid:");
    reveal_strlit("Threads:");
    reveal_strlit("VmRSS:");
}

proof fn lemma_trimmed_number(white: Seq<char>, n: u32, more: Seq<char>)
    requires
        is_blank(white),
        is_blank(more),
    ensures
        trim(white + digits_of(n as nat) + more) == digits_of(n as nat),
{
    let d = digits_of(n as nat);
    lemma_digits_are_solid(n as nat);
    assert(!white_space(d[0]) && !white_space(d[d.len() - 1]));
    law_trim_keeps_the_inside(white, d, more);
}

/// What a status says: the first visible character of its last `State:` line,
/// the numbers of its last `PPid:` and `Threads:` lines, and the first number of
/// its last `Uid:` line.
pub proof fn law_status_says_what_its_lines_say(
    text: Seq<char>,
    state_line: (Seq<char>, char, Seq<char>),
    ppid_line: (Seq<char>, u32, Seq<char>),
    uid_line: (Seq<char>, u32, Seq<char>),
    threads_line: (Seq<char>, u32, Seq<char>),
)
    requires
        last_line_is(text, "State:"@, state_line.0 + (seq![state_line.1] + state_line.2)),
        is_blank(state_line.0),
        !white_space(state_line.1),
        last_line_is(text, "PPid:"@, ppid_line.0 + digits_of(ppid_line.1 as nat) + ppid_line.2),
        is_blank(ppid_line.0),
        is_blank(ppid_line.2),
        last_line_is(text, "Uid:"@, uid_line.0 + digits_of(uid_line.1 as nat) + uid_line.2),
        is_blank(uid_line.0),
        uid_line.2.len() == 0 || white_space(uid_line.2[0]),
        last_line_is(
            text,
            "Threads:"@,
            threads_line.0 + digits_of(threads_line.1 as nat) + threads_line.2,
        ),
        is_blank(threads_line.0),
        is_blank(threads_line.2),
    ensures
        parsed_status(text) matches Ok(fields) && fields.state == state_line.1 && fields.ppid
            == ppid_line.1 && fields.uid == uid_line.1 && fields.num_threads == threads_line.1,
{
    lemma_prefix_plain("State:"@);
    lemma_prefix_plain("PPid:"@);
    lemma_prefix_plain("Uid:"@);
    lemma_prefix_plain("Threads:"@);
    let shown = seq![state_line.1] + state_line.2;
    lemma_last_line(text, "State:"@, state_line.0 + shown);
    assert(shown[0] == state_line.1);
    law_trim_starts_with_the_first_visible(state_line.0, shown);
    lemma_last_line(text, "PPid:"@, ppid_line.0 + digits_of(ppid_line.1 as nat) + ppid_line.2);
    lemma_trimmed_number(ppid_line.0, ppid_line.1, ppid_line.2);
    law_number_is_read_back(ppid_line.1);
    lemma_last_line(text, "Uid:"@, uid_line.0 + digits_of(uid_line.1 as nat) + uid_line.2);
    lemma_digits_are_solid(uid_line.1 as nat);
    law_first_word_is_found(uid_line.0, digits_of(uid_line.1 as nat), uid_line.2);
    law_number_is_read_back(uid_line.1);
    lemma_last_line(
        text,
        "Threads:"@,
        threads_line.0 + digits_of(threads_line.1 as nat) + threads_line.2,
    );
    lemma_trimmed_number(threads_line.0, threads_line.1, threads_line.2);
    law_number_is_read_back(threads_line.1);
}

/// The resident set size in bytes is 1024 times the number of kilobytes on the
/// last `VmRSS:` line, up to the largest number of 64 bits. Whether the text can
/// be read does not depend on that line.
pub proof fn law_status_rss_is_in_bytes(text: Seq<char>, white: Seq<char>, size: u64)
    requires
        last_line_is(text, "VmRSS:"@, white + digits_of(size as nat) + " kB"@),
        is_blank(white),
        size * 1024 <= u64::MAX,
    ensures
        status_fits(text),
        parsed_status(text) matches Ok(fields) ==> (fields.rss_bytes matches Some(b) && b as int
            == size * 1024),
{
    lemma_prefix_plain("VmRSS:"@);
    reveal_strlit(" kB");
    lemma_last_line(text, "VmRSS:"@, white + digits_of(size as nat) + " kB"@);
    lemma_digits_are_solid(size as nat);
    law_first_word_is_found(white, digits_of(size as nat), " kB"@);
    law_long_number_is_read_back(size);
}

// ---------------------------------------------------------------------------
// smaps_rollup and io
// ---------------------------------------------------------------------------

/// Whether no line of the text is of the key.
pub open spec fn no_line_of(text: Seq<char>, key: Seq<char>) -> bool {
    forall|i: int| 0 <= i < lines(text).len() ==> line_key(#[trigger] lines(text)[i]) != Some(key)
}

/// Whether the last line of the key in the text is `key:value`, where `before`
/// and `after` are the lines around it.
pub open spec fn is_last_entry(
    text: Seq<char>,
    key: Seq<char>,
    value: Seq<char>,
    before: Seq<char>,
    after: Seq<char>,
) -> bool {
    &&& text == before + (key.push(':') + value).push('\n') + after
    &&& whole_lines(before)
    &&& !value.contains('\n')
    &&& value.len() > 0 ==> value.last() != '\r'
    &&& no_line_of(after, key)
}

/// Whether the last line of the key in the text is `key:value`.
pub open spec fn last_entry_is(text: Seq<char>, key: Seq<char>, value: Seq<char>) -> bool {
    exists|before: Seq<char>, after: Seq<char>| #[trigger]
        is_last_entry(text, key, value, before, after)
}

/// Whether the text says `size` kilobytes of the key, or nothing of it at all.
pub open spec fn says_kb(text: Seq<char>, key: Seq<char>, size: Option<u64>) -> bool {
    match size {
        Some(v) => exists|white: Seq<char>| #[trigger]
            is_blank(white) && last_entry_is(text, key, white + digits_of(v as nat) + " kB"@),
        None => no_line_of(text, key),
    }
}

/// Whether the text says the number `n` of the key.
pub open spec fn says_number(text: Seq<char>, key: Seq<char>, n: u64) -> bool {
    exists|white: Seq<char>, more: Seq<char>| #[trigger]
        is_blank(white) && #[trigger] is_blank(more) && last_entry_is(
            text,
            key,
            white + digits_of(n as nat) + more,
        )
}

/// Whether a key can stand before a colon and be found again.
spec fn is_plain_key(key: Seq<char>) -> bool {
    &&& key.len() > 0
    &&& !key.contains('\n')
    &&& !key.contains(':')
    &&& !white_space(key[0])
    &&& !white_space(key.last())
}

proof fn lemma_entry_line(key: Seq<char>, value: Seq<char>)
    requires
        is_plain_key(key),
        !value.contains('\n'),
        value.len() > 0 ==> value.last() != '\r',
    ensures
        !(key.push(':') + value).contains('\n'),
        (key.push(':') + value).last() != '\r',
        split_once(key.push(':') + value, ':') == Some((key, value)),
        trim(key) == key,
{
    let line = key.push(':') + value;
    if line.contains('\n') {
        let i = choose|i: int| 0 <= i < line.len() && line[i] == '\n';
        if i < key.len() {
            assert(key.contains(key[i]));
        } else if i > key.len() {
            assert(value.contains(value[i - key.len() - 1]));
        }
    }
    assert(line.last() == if value.len() > 0 {
        value.last()
    } else {
        ':'
    });
    lemma_split_once_joined(key, ':', value);
    assert(Seq::<char>::empty() + key + Seq::<char>::empty() =~= key);
    law_trim_keeps_the_inside(Seq::empty(), key, Seq::empty());
}

proof fn lemma_says_kb(text: Seq<char>, key: Seq<char>, size: Option<u64>)
    requires
        says_kb(text, key, size),
        is_plain_key(key),
    ensures
        kb(text, key) == size,
{
    match size {
        Some(v) => {
            let white = choose|white: Seq<char>| #[trigger]
                is_blank(white) && last_entry_is(text, key, white + digits_of(v as nat) + " kB"@);
            let value = white + digits_of(v as nat) + " kB"@;
            let (before, after) = choose|before: Seq<char>, after: Seq<char>| #[trigger]
                is_last_entry(text, key, value, before, after);
            lemma_entry_line(key, value);
            reveal_strlit(" kB");
            lemma_digits_are_solid(v as nat);
            law_first_word_is_found(white, digits_of(v as nat), " kB"@);
            law_long_number_is_read_back(v);
            assert(kb_reader(key)(key.push(':') + value) == Some(v));
            assert forall|i: int| 0 <= i < lines(after).len() implies kb_reader(key)(
                #[trigger] lines(after)[i],
            ) is None by {
                assert(line_key(lines(after)[i]) != Some(key));
            }
            law_last_line_counts(before, key.push(':') + value, after, kb_reader(key));
        },
        None => {
            assert forall|i: int| 0 <= i < lines(text).len() implies kb_reader(key)(
                #[trigger] lines(text)[i],
            ) is None by {
                assert(line_key(lines(text)[i]) != Some(key));
            }
            lemma_no_reading(lines(text), kb_reader(key));
        },
    }
}

proof fn lemma_says_number(text: Seq<char>, key: Seq<char>, n: u64)
    requires
        says_number(text, key, n),
        is_plain_key(key),
    ensures
        counter(text, key) == Some(n),
{
    let (white, more) = choose|white: Seq<char>, more: Seq<char>| #[trigger]
        is_blank(white) && #[trigger] is_blank(more) && last_entry_is(
            text,
            key,
            white + digits_of(n as nat) + more,
        );
    let d = digits_of(n as nat);
    let value = white + d + more;
    let (before, after) = choose|before: Seq<char>, after: Seq<char>| #[trigger]
        is_last_entry(text, key, value, before, after);
    lemma_entry_line(key, value);
    lemma_digits_are_solid(n as nat);
    assert(!white_space(d[0]) && !white_space(d[d.len() - 1]));
    law_trim_keeps_the_inside(white, d, more);
    law_long_number_is_read_back(n);
    assert(counter_reader(key)(key.push(':') + value) == Some(n));
    assert forall|i: int| 0 <= i < lines(after).len() implies counter_reader(key)(
        #[trigger] lines(after)[i],
    ) is None by {
        assert(line_key(lines(after)[i]) != Some(key));
    }
    law_last_line_counts(before, key.push(':') + value, after, counter_reader(key));
}

/// The kilobytes that a rollup says of each key.
pub struct RollupSizes {
    pub rss: u64,
    pub pss: Option<u64>,
    pub shared_clean: Option<u64>,
    pub shared_dirty: Option<u64>,
    pub private_clean: Option<u64>,
    pub private_dirty: Option<u64>,
    pub anonymous: Option<u64>,
    pub swap: Option<u64>,
}

/// Nothing counts as zero.
pub open spec fn or_zero(size: Option<u64>) -> int {
    match size {
        Some(v) => v as int,
        None => 0,
    }
}

/// The breakdown that a rollup gives: each size in bytes is 1024 times the
/// number on the last line of its own key, the shared and the private ones summed
/// up of two keys each; a key without a line counts as zero.
pub proof fn law_rollup_says_what_its_lines_say(text: Seq<char>, sizes: RollupSizes)
    requires
        says_kb(text, "Rss"@, Some(sizes.rss)),
        says_kb(text, "Pss"@, sizes.pss),
        says_kb(text, "Shared_Clean"@, sizes.shared_clean),
        says_kb(text, "Shared_Dirty"@, sizes.shared_dirty),
        says_kb(text, "Private_Clean"@, sizes.private_clean),
        says_kb(text, "Private_Dirty"@, sizes.private_dirty),
        says_kb(text, "Anonymous"@, sizes.anonymous),
        says_kb(text, "Swap"@, sizes.swap),
        sizes.rss * 1024 <= u64::MAX,
        or_zero(sizes.pss) * 1024 <= u64::MAX,
        (or_zero(sizes.shared_clean) + or_zero(sizes.shared_dirty)) * 1024 <= u64::MAX,
        (or_zero(sizes.private_clean) + or_zero(sizes.private_dirty)) * 1024 <= u64::MAX,
        or_zero(sizes.anonymous) * 1024 <= u64::MAX,
        or_zero(sizes.swap) * 1024 <= u64::MAX,
    ensures
        smaps_rollup_fits(text),
        parsed_smaps_rollup(text) matches Ok(m) && {
            &&& m.rss_bytes as int == sizes.rss * 1024
            &&& m.pss_bytes as int == or_zero(sizes.pss) * 1024
            &&& m.shared_bytes as int == (or_zero(sizes.shared_clean) + or_zero(
                sizes.shared_dirty,
            )) * 1024
            &&& m.private_bytes as int == (or_zero(sizes.private_clean) + or_zero(
                sizes.private_dirty,
            )) * 1024
            &&& m.anon_bytes as int == or_zero(sizes.anonymous) * 1024
            &&& m.swap_bytes as int == or_zero(sizes.swap) * 1024
        },
{
    reveal_strlit("Rss");
    reveal_strlit("Pss");
    reveal_strlit("Shared_Clean");
    reveal_strlit("Shared_Dirty");
    reveal_strlit("Private_Clean");
    reveal_strlit("Private_Dirty");
    reveal_strlit("Anonymous");
    reveal_strlit("Swap");
    lemma_says_kb(text, "Rss"@, Some(sizes.rss));
    lemma_says_kb(text, "Pss"@, sizes.pss);
    lemma_says_kb(text, "Shared_Clean"@, sizes.shared_clean);
    lemma_says_kb(text, "Shared_Dirty"@, sizes.shared_dirty);
    lemma_says_kb(text, "Private_Clean"@, sizes.private_clean);
    lemma_says_kb(text, "Private_Dirty"@, sizes.private_dirty);
    lemma_says_kb(text, "Anonymous"@, sizes.anonymous);
    lemma_says_kb(text, "Swap"@, sizes.swap);
}

/// The counters that `io` gives: each the number on the last line of its own key,
/// as it stands there.
pub proof fn law_io_says_what_its_lines_say(
    text: Seq<char>,
    read_bytes: u64,
    write_bytes: u64,
    syscr: u64,
    syscw: u64,
)
    requires
        says_number(text, "read_bytes"@, read_bytes),
        says_number(text, "write_bytes"@, write_bytes),
        says_number(text, "syscr"@, syscr),
        says_number(text, "syscw"@, syscw),
    ensures
        parsed_io(text) matches Ok(c) && c.read_bytes == read_bytes && c.write_bytes == write_bytes
            && c.read_syscalls == syscr && c.write_syscalls == syscw,
{
    reveal_strlit("read_bytes");
    reveal_strlit("write_bytes");
    reveal_strlit("syscr");
    reveal_strlit("syscw");
    lemma_says_number(text, "read_bytes"@, read_bytes);
    lemma_says_number(text, "write_bytes"@, write_bytes);
    lemma_says_number(text, "syscr"@, syscr);
    lemma_says_number(text, "syscw"@, syscw);
}

// ---------------------------------------------------------------------------
// All files of a process
// ---------------------------------------------------------------------------

proof fn lemma_count_set_is_a_filter(flags: Seq<bool>)
    ensures
        count_set(flags) == flags.filter(|b: bool| b).len(),
    decreases flags.len(),
{
    reveal(Seq::filter);
    if flags.len() > 0 {
        lemma_count_set_is_a_filter(flags.drop_last());
    }
}

/// As many descriptors are counted as entries could be read.
pub proof fn law_every_readable_descriptor_counts(path: Seq<char>, flags: Vec<bool>)
    requires
        flags@.filter(|b: bool| b).len() <= u32::MAX,
    ensures
        count_set(flags@) <= u32::MAX,
        fds_counted(path, Ok(flags)) matches Ok(Some(n)) && n as nat == flags@.filter(
            |b: bool| b,
        ).len(),
{
    lemma_count_set_is_a_filter(flags@);
}

/// What is absent or closed to us is left empty; any other failure is told, with
/// the path and the cause.
pub proof fn law_failures_are_told_or_left_empty(path: Seq<char>, failure: ReadFailure)
    ensures
        match failure.kind {
            FailureKind::NotFound | FailureKind::PermissionDenied => {
                &&& fds_counted(path, Err(failure)) == Ok::<Option<u32>, ErrorView>(None)
                &&& smaps_rollup_read(path, Err(failure)) == Ok::<
                    Option<MemoryBreakdown>,
                    ErrorView,
                >(None)
                &&& io_read(path, Err(failure)) == Ok::<Option<IoCounters>, ErrorView>(None)
            },
            FailureKind::Other => {
                let told = ErrorView::Reading { path, cause: failure.cause@ };
                &&& fds_counted(path, Err(failure)) == Err::<Option<u32>, _>(told)
                &&& smaps_rollup_read(path, Err(failure)) == Err::<Option<MemoryBreakdown>, _>(told)
                &&& io_read(path, Err(failure)) == Err::<Option<IoCounters>, _>(told)
            },
        },
{
}

/// A snapshot is made where the cgroup is found, the status can be parsed and the
/// other files can be read, and only there.
pub proof fn law_snapshot_needs_its_files(pid: u32, files: ProcessFiles)
    ensures
        process_read(pid, files) is Ok <==> {
            &&& files.cgroup matches Ok(cgroup) && parsed_cgroup_path(cgroup@) is Ok
            &&& files.comm is Ok
            &&& files.status matches Ok(status) && parsed_status(status@) is Ok
            &&& files.cmdline is Ok
        },
{
}

/// A snapshot says what its files say: the path of `cgroup`, the name that
/// `comm` holds, the fields of `status` and the text of `cmdline`.
pub proof fn law_snapshot_says_what_its_files_say(
    pid: u32,
    files: ProcessFiles,
    fields: StatusFields,
    path: Seq<char>,
    comm: (Seq<char>, Seq<char>, Seq<char>),
)
    requires
        files.cgroup matches Ok(text) && parsed_cgroup_path(text@) == Ok::<_, ErrorView>(path),
        files.comm matches Ok(text) && text@ == comm.0 + comm.1 + comm.2,
        is_blank(comm.0),
        is_blank(comm.2),
        comm.1.len() > 0,
        !white_space(comm.1[0]),
        !white_space(comm.1.last()),
        files.status matches Ok(text) && parsed_status(text@) matches Ok(f) && f == fields,
        files.cmdline is Ok,
    ensures
        process_read(pid, files) matches Ok(s) && {
            &&& s.pid == pid
            &&& s.cgroup_path == path
            &&& s.comm == comm.1
            &&& s.state == fields.state
            &&& s.ppid == fields.ppid
            &&& s.uid == fields.uid
            &&& s.num_threads == fields.num_threads
            &&& s.rss_bytes == fields.rss_bytes
            &&& files.cmdline matches Ok(text) && s.cmdline_raw == text@
        },
{
    law_trim_keeps_the_inside(comm.0, comm.1, comm.2);
}

/// A status without one of its four lines cannot be read.
pub proof fn law_status_needs_its_lines(text: Seq<char>)
    ensures
        no_line_starts(text, "State:"@) ==> parsed_status(text) is Err,
        no_line_starts(text, "PPid:"@) ==> parsed_status(text) is Err,
        no_line_starts(text, "Uid:"@) ==> parsed_status(text) is Err,
        no_line_starts(text, "Threads:"@) ==> parsed_status(text) is Err,
{
    if no_line_starts(text, "State:"@) {
        lemma_no_reading(lines(text), prefix_reader("State:"@));
    }
    if no_line_starts(text, "PPid:"@) {
        lemma_no_reading(lines(text), prefix_reader("PPid:"@));
    }
    if no_line_starts(text, "Uid:"@) {
        lemma_no_reading(lines(text), prefix_reader("Uid:"@));
    }
    if no_line_starts(text, "Threads:"@) {
        lemma_no_reading(lines(text), prefix_reader("Threads:"@));
    }
}

/// Counters without one of their four lines cannot be read.
pub proof fn law_io_needs_its_lines(text: Seq<char>)
    ensures
        no_line_of(text, "read_bytes"@) ==> parsed_io(text) is Err,
        no_line_of(text, "write_bytes"@) ==> parsed_io(text) is Err,
        no_line_of(text, "syscr"@) ==> parsed_io(text) is Err,
        no_line_of(text, "syscw"@) ==> parsed_io(text) is Err,
{
    if no_line_of(text, "read_bytes"@) {
        lemma_no_reading(lines(text), counter_reader("read_bytes"@));
    }
    if no_line_of(text, "write_bytes"@) {
        lemma_no_reading(lines(text), counter_reader("write_bytes"@));
    }
    if no_line_of(text, "syscr"@) {
        lemma_no_reading(lines(text), counter_reader("syscr"@));
    }
    if no_line_of(text, "syscw"@) {
        lemma_no_reading(lines(text), counter_reader("syscw"@));
    }
}

/// A line whose value is no number can stand anywhere in a rollup, whatever its
/// key.
pub proof fn law_rollup_ignores_unreadable_values(
    before: Seq<char>,
    key: Seq<char>,
    value: Seq<char>,
    after: Seq<char>,
)
    requires
        whole_lines(before),
        !key.contains('\n'),
        !key.contains(':'),
        !value.contains('\n'),
        value.len() > 0 ==> value.last() != '\r',
        match first_word(value) {
            Some(word) => decimal_u64(word) is None,
            None => true,
        },
    ensures
        parsed_smaps_rollup(before + (key.push(':') + value).push('\n') + after)
            == parsed_smaps_rollup(before + after),
        smaps_rollup_fits(before + (key.push(':') + value).push('\n') + after)
            == smaps_rollup_fits(before + after),
{
    let line = key.push(':') + value;
    lemma_any_entry_line(key, value);
    law_unread_line_changes_nothing(before, line, after, kb_reader("Rss"@));
    law_unread_line_changes_nothing(before, line, after, kb_reader("Pss"@));
    law_unread_line_changes_nothing(before, line, after, kb_reader("Shared_Clean"@));
    law_unread_line_changes_nothing(before, line, after, kb_reader("Shared_Dirty"@));
    law_unread_line_changes_nothing(before, line, after, kb_reader("Private_Clean"@));
    law_unread_line_changes_nothing(before, line, after, kb_reader("Private_Dirty"@));
    law_unread_line_changes_nothing(before, line, after, kb_reader("Anonymous"@));
    law_unread_line_changes_nothing(before, line, after, kb_reader("Swap"@));
}

/// A line whose value is no number can stand anywhere among the counters,
/// whatever its key.
pub proof fn law_io_ignores_unreadable_values(
    before: Seq<char>,
    key: Seq<char>,
    value: Seq<char>,
    after: Seq<char>,
)
    requires
        whole_lines(before),
        !key.contains('\n'),
        !key.contains(':'),
        !value.contains('\n'),
        value.len() > 0 ==> value.last() != '\r',
        decimal_u64(trim(value)) is None,
    ensures
        parsed_io(before + (key.push(':') + value).push('\n') + after) == parsed_io(
            before + after,
        ),
{
    let line = key.push(':') + value;
    lemma_any_entry_line(key, value);
    law_unread_line_changes_nothing(before, line, after, counter_reader("read_bytes"@));
    law_unread_line_changes_nothing(before, line, after, counter_reader("write_bytes"@));
    law_unread_line_changes_nothing(before, line, after, counter_reader("syscr"@));
    law_unread_line_changes_nothing(before, line, after, counter_reader("syscw"@));
}

proof fn lemma_any_entry_line(key: Seq<char>, value: Seq<char>)
    requires
        !key.contains('\n'),
        !key.contains(':'),
        !value.contains('\n'),
        value.len() > 0 ==> value.last() != '\r',
    ensures
        !(key.push(':') + value).contains('\n'),
        without_cr(key.push(':') + value) == key.push(':') + value,
        split_once(key.push(':') + value, ':') == Some((key, value)),
{
    let line = key.push(':') + value;
    if line.contains('\n') {
        let i = choose|i: int| 0 <= i < line.len() && line[i] == '\n';
        if i < key.len() {
            assert(key.contains(key[i]));
        } else if i > key.len() {
            assert(value.contains(value[i - key.len() - 1]));
        }
    }
    assert(line.last() == if value.len() > 0 {
        value.last()
    } else {
        ':'
    });
    lemma_split_once_joined(key, ':', value);
}

/// In a status the last line of a kind counts even where it cannot be read: the
/// status cannot be read then. A resident set size that cannot be read is none,
/// and no error.
pub proof fn law_unreadable_last_lines_count(text: Seq<char>, rest: Seq<char>)
    ensures
        last_line_is(text, "State:"@, rest) && is_blank(rest) ==> parsed_status(text) is Err,
        last_line_is(text, "PPid:"@, rest) && decimal_u32(trim(rest)) is None ==> parsed_status(
            text,
        ) is Err,
        last_line_is(text, "Threads:"@, rest) && decimal_u32(trim(rest)) is None ==> parsed_status(
            text,
        ) is Err,
        last_line_is(text, "Uid:"@, rest) && (match first_word(rest) {
            Some(word) => decimal_u32(word) is None,
            None => true,
        }) ==> parsed_status(text) is Err,
        last_line_is(text, "VmRSS:"@, rest) && (match first_word(rest) {
            Some(word) => decimal_u64(word) is None,
            None => true,
        }) ==> status_fits(text) && (parsed_status(text) matches Ok(fields) ==> fields.rss_bytes
            is None),
{
    lemma_prefix_plain("State:"@);
    lemma_prefix_plain("PPid:"@);
    lemma_prefix_plain("Uid:"@);
    lemma_prefix_plain("Threads:"@);
    lemma_prefix_plain("VmRSS:"@);
    if last_line_is(text, "State:"@, rest) {
        lemma_last_line(text, "State:"@, rest);
        if is_blank(rest) {
            law_blank_trims_to_nothing(rest);
        }
    }
    if last_line_is(text, "PPid:"@, rest) {
        lemma_last_line(text, "PPid:"@, rest);
    }
    if last_line_is(text, "Threads:"@, rest) {
        lemma_last_line(text, "Threads:"@, rest);
    }
    if last_line_is(text, "Uid:"@, rest) {
        lemma_last_line(text, "Uid:"@, rest);
    }
    if last_line_is(text, "VmRSS:"@, rest) {
        lemma_last_line(text, "VmRSS:"@, rest);
    }
}

/// Whether a status can be read does not depend on its resident set size: a line
/// of it, anywhere, changes nothing else.
pub proof fn law_rss_line_changes_nothing_else(before: Seq<char>, rest: Seq<char>, after: Seq<char>)
    requires
        whole_lines(before),
        !rest.contains('\n'),
        rest.len() > 0 ==> rest.last() != '\r',
    ensures
        match (
            parsed_status(before + after),
            parsed_status(before + ("VmRSS:"@ + rest).push('\n') + after),
        ) {
            (Ok(f), Ok(g)) => f.state == g.state && f.ppid == g.ppid && f.uid == g.uid
                && f.num_threads == g.num_threads,
            (Err(e), Err(f)) => e == f,
            _ => false,
        },
{
    let line = "VmRSS:"@ + rest;
    lemma_prefix_plain("VmRSS:"@);
    assert(!line.contains('\n')) by {
        if line.contains('\n') {
            let i = choose|i: int| 0 <= i < line.len() && line[i] == '\n';
            if i < "VmRSS:"@.len() {
                assert("VmRSS:"@.contains("VmRSS:"@[i]));
            } else {
                assert(rest.contains(rest[i - "VmRSS:"@.len()]));
            }
        }
    }
    assert(line.last() == if rest.len() > 0 {
        rest.last()
    } else {
        "VmRSS:"@.last()
    });
    reveal_strlit("VmRSS:");
    reveal_strlit("State:");
    reveal_strlit("PPid:");
    reveal_strlit("Uid:");
    reveal_strlit("Threads:");
    assert(line[0] == 'V');
    lemma_other_start(line, "State:"@);
    lemma_other_start(line, "PPid:"@);
    lemma_other_start(line, "Uid:"@);
    lemma_other_start(line, "Threads:"@);
    law_unread_line_changes_nothing(before, line, after, prefix_reader("State:"@));
    law_unread_line_changes_nothing(before, line, after, prefix_reader("PPid:"@));
    law_unread_line_changes_nothing(before, line, after, prefix_reader("Uid:"@));
    law_unread_line_changes_nothing(before, line, after, prefix_reader("Threads:"@));
}

proof fn lemma_other_start(line: Seq<char>, prefix: Seq<char>)
    requires
        line.len() > 0,
        prefix.len() > 0,
        line[0] != prefix[0],
    ensures
        !prefix.is_prefix_of(line),
{
    if prefix.is_prefix_of(line) {
        assert(line.subrange(0, prefix.len() as int)[0] == prefix[0]);
    }
}

/// A process whose `comm` is blank has an empty name.
pub proof fn law_blank_comm_is_empty(pid: u32, files: ProcessFiles)
    requires
        files.comm matches Ok(text) && is_blank(text@),
    ensures
        process_read(pid, files) matches Ok(s) ==> s.comm.len() == 0,
{
    law_blank_trims_to_nothing(files.comm->Ok_0@);
}

/// Of the files of a process the first that fails is told, with its cause: the
/// cgroup with where it stands, the others with the pid.
pub proof fn law_first_failing_file_is_told(pid: u32, files: ProcessFiles)
    ensures
        files.cgroup matches Err(failure) ==> process_read(pid, files) == Err::<SnapshotView, _>(
            ErrorView::Reading { path: files.cgroup_file@, cause: failure.cause@ },
        ),
        files.cgroup matches Ok(text) ==> (parsed_cgroup_path(text@) matches Err(e)
            ==> process_read(pid, files) == Err::<SnapshotView, _>(e)),
        files.cgroup matches Ok(text) ==> (parsed_cgroup_path(text@) is Ok ==> {
            &&& files.comm matches Err(failure) ==> process_read(pid, files) == Err::<
                SnapshotView,
                _,
            >(ErrorView::ReadingFile { file: ProcFile::Comm, pid, cause: failure.cause@ })
            &&& files.comm is Ok ==> {
                &&& files.status matches Err(failure) ==> process_read(pid, files) == Err::<
                    SnapshotView,
                    _,
                >(ErrorView::ReadingFile { file: ProcFile::Status, pid, cause: failure.cause@ })
                &&& files.status matches Ok(status) ==> match parsed_status(status@) {
                    Err(field) => process_read(pid, files) == Err::<SnapshotView, _>(
                        ErrorView::ParsingStatus { pid, field },
                    ),
                    Ok(_) => files.cmdline matches Err(failure) ==> process_read(pid, files)
                        == Err::<SnapshotView, _>(
                        ErrorView::ReadingFile {
                            file: ProcFile::Cmdline,
                            pid,
                            cause: failure.cause@,
                        },
                    ),
                }
            }
        }),
{
}

} // verus!
