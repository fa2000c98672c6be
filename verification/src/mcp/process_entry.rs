//! A process as the tools show it. Several tools answer with processes; one
//! shape for all lets callers carry pids and cgroup paths from one to the next.

use vstd::prelude::*;
use vstd::string::*;

use crate::collector::proc::{ProcessSnapshot, SnapshotView};
use crate::collector::walk::snapshot_views;
use crate::mcp::rank::{lemma_ranking_map, rank_of, ranking, sort_by_rss_desc, Ranked};
use crate::text::{
    chars_of, join, lemma_split_once_joined, lemma_split_once_parts, split, split_chars,
    split_chars_once, split_once, string_of, views,
};

verus! {

#[derive(Debug)]
pub struct ProcessEntry {
    pub pid: u32,
    /// The kernel's name for it, from `/proc/<pid>/comm`.
    pub comm: String,
    /// The arguments of `/proc/<pid>/cmdline` with spaces between. Empty for
    /// kernel threads. Redacted where the caller did not say otherwise.
    pub cmdline: String,
    /// The one-letter state code from `/proc/<pid>/status`: `R`unning,
    /// `S`leeping, `D`isk wait, `Z`ombie, `T`raced or stopped, `I`dle.
    pub state: String,
    pub ppid: u32,
    /// Resident set size in bytes. `None` for kernel threads.
    pub rss_bytes: Option<u64>,
    /// Relative to `/sys/fs/cgroup`, without the leading slash, the empty
    /// string for the root cgroup.
    pub cgroup_path: String,
}

/// A [`ProcessEntry`] with its texts as sequences of characters.
pub struct EntryView {
    pub pid: u32,
    pub comm: Seq<char>,
    pub cmdline: Seq<char>,
    pub state: Seq<char>,
    pub ppid: u32,
    pub rss_bytes: Option<u64>,
    pub cgroup_path: Seq<char>,
}

impl View for ProcessEntry {
    type V = EntryView;

    open spec fn view(&self) -> EntryView {
        EntryView {
            pid: self.pid,
            comm: self.comm@,
            cmdline: self.cmdline@,
            state: self.state@,
            ppid: self.ppid,
            rss_bytes: self.rss_bytes,
            cgroup_path: self.cgroup_path@,
        }
    }
}

impl Clone for ProcessEntry {
    fn clone(&self) -> (r: Self)
        ensures
            r == *self,
    {
        ProcessEntry {
            pid: self.pid,
            comm: self.comm.clone(),
            cmdline: self.cmdline.clone(),
            state: self.state.clone(),
            ppid: self.ppid,
            rss_bytes: self.rss_bytes,
            cgroup_path: self.cgroup_path.clone(),
        }
    }
}

// ---------------------------------------------------------------------------
// Redaction
// ---------------------------------------------------------------------------

pub open spec fn is_ascii_text(s: Seq<char>) -> bool {
    forall|i: int| 0 <= i < s.len() ==> #[trigger] s[i] <= '\x7f'
}

pub open spec fn ascii_lower(c: char) -> char {
    if 'A' <= c <= 'Z' {
        (c as u32 + 32) as char
    } else {
        c
    }
}

/// A text in lower case by the rules of Unicode.
pub uninterp spec fn unicode_lowercase(s: Seq<char>) -> Seq<char>;

/// `str::to_lowercase`: the text in lower case by the rules of Unicode. What it
/// gives is a function of the text alone; the tables are not spelled out here.
#[verifier::external_body]
fn str_to_lowercase(s: &str) -> (r: String)
    ensures
        r@ == unicode_lowercase(s@),
{
    s.to_lowercase()
}

/// A text in lower case: letter by letter where it is ASCII.
pub open spec fn lowercase(s: Seq<char>) -> Seq<char> {
    if is_ascii_text(s) {
        Seq::new(s.len(), |i: int| ascii_lower(s[i]))
    } else {
        unicode_lowercase(s)
    }
}

/// Whether `pattern` occurs in the text.
pub open spec fn occurs(s: Seq<char>, pattern: Seq<char>) -> bool {
    exists|i: int|
        0 <= i <= s.len() - pattern.len() && #[trigger] s.subrange(i, i + pattern.len()) == pattern
}

/// Whether a key, in lower case, names a secret.
pub open spec fn names_secret(key: Seq<char>) -> bool {
    ||| occurs(key, "key"@)
    ||| occurs(key, "token"@)
    ||| occurs(key, "password"@)
    ||| occurs(key, "secret"@)
}

/// What stands before the first `=`; the whole argument where there is none.
pub open spec fn key_of(arg: Seq<char>) -> Seq<char> {
    match split_once(arg, '=') {
        Some((key, _)) => key,
        None => arg,
    }
}

/// An argument whose key in lower case is `folded`: `key=value` becomes
/// `key=REDACTED` where the key names a secret.
pub open spec fn redacted_by(arg: Seq<char>, folded: Seq<char>) -> Seq<char> {
    match split_once(arg, '=') {
        Some((key, _)) => if names_secret(folded) {
            key + "=REDACTED"@
        } else {
            arg
        },
        None => arg,
    }
}

pub open spec fn redacted(arg: Seq<char>) -> Seq<char> {
    redacted_by(arg, lowercase(key_of(arg)))
}

fn all_ascii(cs: &[char]) -> (r: bool)
    ensures
        r == is_ascii_text(cs@),
{
    let mut i: usize = 0;
    while i < cs.len()
        invariant
            i <= cs.len(),
            forall|j: int| 0 <= j < i ==> #[trigger] cs@[j] <= '\x7f',
        decreases cs.len() - i,
    {
        if cs[i] > '\x7f' {
            return false;
        }
        i += 1;
    }
    true
}

fn lowercase_of(cs: &[char]) -> (r: Vec<char>)
    ensures
        r@ == lowercase(cs@),
{
    if !all_ascii(cs) {
        return chars_of(str_to_lowercase(string_of(cs).as_str()).as_str());
    }
    let mut r: Vec<char> = Vec::new();
    let mut i: usize = 0;
    while i < cs.len()
        invariant
            i <= cs.len(),
            is_ascii_text(cs@),
            r@.len() == i,
            forall|j: int| 0 <= j < i ==> r@[j] == ascii_lower(cs@[j]),
        decreases cs.len() - i,
    {
        let c = cs[i];
        if 'A' <= c && c <= 'Z' {
            r.push((c as u8 + 32) as char);
        } else {
            r.push(c);
        }
        i += 1;
    }
    assert(r@ =~= lowercase(cs@));
    r
}

/// Whether `pattern` stands at position `at`.
fn occurs_at(cs: &[char], pattern: &Vec<char>, at: usize) -> (r: bool)
    requires
        at + pattern@.len() <= cs@.len(),
    ensures
        r == (cs@.subrange(at as int, at + pattern@.len()) == pattern@),
{
    let len: usize = cs.len();
    let mut j: usize = 0;
    while j < pattern.len()
        invariant
            j <= pattern.len(),
            at + pattern@.len() <= len == cs@.len(),
            forall|k: int| 0 <= k < j ==> cs@[at + k] == pattern@[k],
        decreases pattern.len() - j,
    {
        if cs[at + j] != pattern[j] {
            assert(cs@.subrange(at as int, at + pattern@.len())[j as int] != pattern@[j as int]);
            return false;
        }
        j += 1;
    }
    assert(cs@.subrange(at as int, at + pattern@.len()) =~= pattern@);
    true
}

fn has(cs: &[char], pattern: &str) -> (r: bool)
    ensures
        r == occurs(cs@, pattern@),
{
    let p = chars_of(pattern);
    if p.len() > cs.len() {
        return false;
    }
    let last: usize = cs.len() - p.len();
    let mut i: usize = 0;
    while i < last
        invariant
            i <= last == cs@.len() - p@.len(),
            p@ == pattern@,
            forall|k: int|
                0 <= k < i ==> #[trigger] cs@.subrange(k, k + pattern@.len()) != pattern@,
        decreases last - i,
    {
        if occurs_at(cs, &p, i) {
            return true;
        }
        i += 1;
    }
    occurs_at(cs, &p, last)
}

fn secret(folded: &[char]) -> (r: bool)
    ensures
        r == names_secret(folded@),
{
    has(folded, "key") || has(folded, "token") || has(folded, "password") || has(folded, "secret")
}

/// Redacts an argument whose key in lower case is `folded`.
pub fn redact_by(arg: &str, folded: &str) -> (r: String)
    ensures
        r@ == redacted_by(arg@, folded@),
{
    let cs = chars_of(arg);
    let key = chars_of(folded);
    redact_chars_by(cs.as_slice(), key.as_slice())
}

fn redact_chars_by(arg: &[char], folded: &[char]) -> (r: String)
    ensures
        r@ == redacted_by(arg@, folded@),
{
    match split_chars_once(arg, '=') {
        Some((key, _)) => if secret(folded) {
            string_of(key).concat("=REDACTED")
        } else {
            string_of(arg)
        },
        None => string_of(arg),
    }
}

fn redact_chars(arg: &[char]) -> (r: String)
    ensures
        r@ == redacted(arg@),
{
    match split_chars_once(arg, '=') {
        Some((key, _)) => {
            let folded = lowercase_of(key);
            redact_chars_by(arg, folded.as_slice())
        },
        None => string_of(arg),
    }
}

/// Replaces `key=value` by `key=REDACTED` where the key, whatever its case,
/// contains `key`, `token`, `password` or `secret`. Other arguments are left as
/// they are.
pub fn redact_arg(arg: &str) -> (r: String)
    ensures
        r@ == redacted(arg@),
{
    let cs = chars_of(arg);
    redact_chars(cs.as_slice())
}

// ---------------------------------------------------------------------------
// Command lines
// ---------------------------------------------------------------------------

pub open spec fn not_empty() -> spec_fn(Seq<char>) -> bool {
    |arg: Seq<char>| arg.len() > 0
}

/// The arguments of a command line: what the NULs set apart, without the empty
/// pieces.
pub open spec fn arguments(raw: Seq<char>) -> Seq<Seq<char>> {
    split(raw, '\0').filter(not_empty())
}

pub open spec fn shaped(redact: bool) -> spec_fn(Seq<char>) -> Seq<char> {
    |arg: Seq<char>|
        if redact {
            redacted(arg)
        } else {
            arg
        }
}

/// The arguments with spaces between, each redacted where that is asked for.
pub open spec fn cmdline_text(raw: Seq<char>, redact: bool) -> Seq<char> {
    join(arguments(raw).map_values(shaped(redact)), " "@)
}

proof fn lemma_join_push(pieces: Seq<Seq<char>>, piece: Seq<char>, sep: Seq<char>)
    ensures
        join(pieces.push(piece), sep) == if pieces.len() == 0 {
            piece
        } else {
            join(pieces, sep) + sep + piece
        },
{
    assert(pieces.push(piece).drop_last() =~= pieces);
}

/// Turns the text of `/proc/<pid>/cmdline`, whose arguments NULs set apart, into
/// one line with spaces between, redacting secrets where that is asked for.
pub fn format_cmdline(raw: &str, redact: bool) -> (r: String)
    ensures
        r@ == cmdline_text(raw@, redact),
{
    let cs = chars_of(raw);
    let pieces = split_chars(cs.as_slice(), '\0');
    let ghost all = views(pieces@);
    let mut out = String::new();
    let mut started = false;
    let mut i: usize = 0;
    let ghost mut done: Seq<Seq<char>> = Seq::empty();
    assert(all.take(0).filter(not_empty()).map_values(shaped(redact)) =~= done) by {
        assert(all.take(0) =~= Seq::empty());
        assert(Seq::<Seq<char>>::empty().filter(not_empty()) =~= Seq::empty());
    }
    while i < pieces.len()
        invariant
            i <= pieces.len(),
            all == views(pieces@),
            all == split(raw@, '\0'),
            done == all.take(i as int).filter(not_empty()).map_values(shaped(redact)),
            started == (done.len() > 0),
            out@ == join(done, " "@),
        decreases pieces.len() - i,
    {
        let piece = pieces[i];
        let ghost before = all.take(i as int);
        assert(all.take(i + 1) =~= before.push(piece@));
        proof {
            before.lemma_filter_push(piece@, not_empty());
        }
        if piece.len() > 0 {
            let shown = if redact {
                redact_chars(piece)
            } else {
                string_of(piece)
            };
            assert(shown@ == shaped(redact)(piece@));
            assert(before.filter(not_empty()).push(piece@).map_values(shaped(redact))
                =~= before.filter(not_empty()).map_values(shaped(redact)).push(shown@));
            proof {
                lemma_join_push(done, shown@, " "@);
                done = done.push(shown@);
            }
            if started {
                out.append(" ");
                out.append(shown.as_str());
            } else {
                started = true;
                out = shown;
            }
        }
        i += 1;
    }
    assert(all.take(i as int) =~= all);
    out
}

// ---------------------------------------------------------------------------
// Entries
// ---------------------------------------------------------------------------

/// A snapshot as the tools show it.
pub open spec fn entry_of(s: SnapshotView, redact: bool) -> EntryView {
    EntryView {
        pid: s.pid,
        comm: s.comm,
        cmdline: cmdline_text(s.cmdline_raw, redact),
        state: seq![s.state],
        ppid: s.ppid,
        rss_bytes: s.rss_bytes,
        cgroup_path: s.cgroup_path,
    }
}

impl ProcessEntry {
    /// Shows a snapshot, with its command line in one line and redacted where
    /// that is asked for.
    pub fn from_snapshot(snap: ProcessSnapshot, redact: bool) -> (r: Self)
        ensures
            r@ == entry_of(snap@, redact),
    {
        let mut state = String::new();
        state.push(snap.state);
        assert(state@ =~= seq![snap.state]);
        ProcessEntry {
            pid: snap.pid,
            comm: snap.comm,
            cmdline: format_cmdline(snap.cmdline_raw.as_str(), redact),
            state,
            ppid: snap.ppid,
            rss_bytes: snap.rss_bytes,
            cgroup_path: snap.cgroup_path,
        }
    }
}

/// Whether to redact: yes, where the caller did not say.
pub open spec fn redacts(redact_args: Option<bool>) -> bool {
    match redact_args {
        Some(redact) => redact,
        None => true,
    }
}

/// Whether to redact: yes, where the caller did not say.
pub fn redact_flag(redact_args: Option<bool>) -> (r: bool)
    ensures
        r == redacts(redact_args),
{
    match redact_args {
        Some(redact) => redact,
        None => true,
    }
}

pub open spec fn rss_rank() -> spec_fn(SnapshotView) -> Option<u64> {
    |s: SnapshotView| s.rss_bytes
}

pub open spec fn entry_rank() -> spec_fn(EntryView) -> Option<u64> {
    |e: EntryView| e.rss_bytes
}

impl Ranked for ProcessSnapshot {
    open spec fn rank(&self) -> Option<u64> {
        self.rss_bytes
    }

    fn rank_bytes(&self) -> (r: Option<u64>) {
        self.rss_bytes
    }
}

/// Lists processes by resident set size, the largest first.
pub fn rank_processes(processes: Vec<ProcessSnapshot>) -> (r: Vec<ProcessSnapshot>)
    ensures
        snapshot_views(r@) == ranking(snapshot_views(processes@), rss_rank()),
{
    let ghost all = processes@;
    let ghost f = |p: ProcessSnapshot| p@;
    let r = sort_by_rss_desc(processes);
    proof {
        lemma_ranking_map(all, f, rank_of::<ProcessSnapshot>(), rss_rank());
        assert(all.map_values(f) =~= snapshot_views(all));
        assert(r@.map_values(f) =~= snapshot_views(r@));
    }
    r
}

/// Snapshots as the tools show them.
pub open spec fn entries_of(s: Seq<SnapshotView>, redact: bool) -> Seq<EntryView> {
    Seq::new(s.len(), |i: int| entry_of(s[i], redact))
}

/// The views of a row of entries.
pub open spec fn entry_views(entries: Seq<ProcessEntry>) -> Seq<EntryView> {
    Seq::new(entries.len(), |i: int| entries[i]@)
}

/// Shows snapshots, in their order.
pub fn show_processes(processes: Vec<ProcessSnapshot>, redact: bool) -> (r: Vec<ProcessEntry>)
    ensures
        entry_views(r@) == entries_of(snapshot_views(processes@), redact),
{
    let ghost all = processes@;
    let mut r: Vec<ProcessEntry> = Vec::new();
    for snap in it: processes
        invariant
            it.seq() == all,
            r@.len() == it.index(),
            forall|i: int| 0 <= i < it.index() ==> (#[trigger] r@[i])@ == entry_of(all[i]@, redact),
    {
        r.push(ProcessEntry::from_snapshot(snap, redact));
    }
    assert(entry_views(r@) =~= entries_of(snapshot_views(all), redact));
    r
}

// ---------------------------------------------------------------------------
// What redaction promises
// ---------------------------------------------------------------------------

/// The value of a key that names a secret does not show.
pub proof fn law_redaction_hides_values(key: Seq<char>, value: Seq<char>)
    requires
        !key.contains('='),
        names_secret(lowercase(key)),
    ensures
        redacted(key.push('=') + value) == key + "=REDACTED"@,
{
    lemma_split_once_joined(key, '=', value);
}

/// Other arguments are left as they are.
pub proof fn law_redaction_keeps_the_rest(arg: Seq<char>)
    requires
        !arg.contains('=') || !names_secret(lowercase(key_of(arg))),
    ensures
        redacted(arg) == arg,
{
    lemma_split_once_parts(arg, '=');
}

/// To redact twice is to redact once.
pub proof fn law_redaction_is_idempotent(arg: Seq<char>)
    ensures
        redacted(redacted(arg)) == redacted(arg),
{
    lemma_split_once_parts(arg, '=');
    if let Some((key, value)) = split_once(arg, '=') {
        if names_secret(lowercase(key)) {
            reveal_strlit("=REDACTED");
            let hidden = "=REDACTED"@.skip(1);
            assert(key + "=REDACTED"@ =~= key.push('=') + hidden);
            lemma_split_once_joined(key, '=', hidden);
        }
    }
}

/// Whether a word is, in lower case, one of those that name secrets.
pub open spec fn is_secret_word(word: Seq<char>) -> bool {
    ||| word == "key"@
    ||| word == "token"@
    ||| word == "password"@
    ||| word == "secret"@
}

/// A key of ASCII letters names a secret wherever in it one of the words stands,
/// whatever its case.
pub proof fn law_redaction_ignores_case(
    before: Seq<char>,
    word: Seq<char>,
    after: Seq<char>,
    value: Seq<char>,
)
    requires
        is_ascii_text(before + word + after),
        !(before + word + after).contains('='),
        is_secret_word(lowercase(word)),
    ensures
        redacted((before + word + after).push('=') + value) == before + word + after
            + "=REDACTED"@,
{
    let key = before + word + after;
    assert(is_ascii_text(word)) by {
        assert forall|i: int| 0 <= i < word.len() implies #[trigger] word[i] <= '\x7f' by {
            assert(key[before.len() + i] == word[i]);
        }
    }
    let low = lowercase(key);
    let start = before.len() as int;
    assert(low.subrange(start, start + word.len()) =~= lowercase(word)) by {
        assert forall|i: int| 0 <= i < word.len() implies low.subrange(
            start,
            start + word.len(),
        )[i] == lowercase(word)[i] by {
            assert(key[start + i] == word[i]);
        }
    }
    assert(lowercase(word).len() == word.len());
    assert(occurs(low, lowercase(word)));
    law_redaction_hides_values(key, value);
}

/// Arguments as the kernel keeps them: each with a NUL behind it.
pub open spec fn nul_terminated(args: Seq<Seq<char>>) -> Seq<char>
    decreases args.len(),
{
    if args.len() == 0 {
        Seq::empty()
    } else {
        args[0].push('\0') + nul_terminated(args.skip(1))
    }
}

/// Whether the kernel can keep the arguments so that they are read back: none
/// is empty or holds a NUL.
pub open spec fn plain_arguments(args: Seq<Seq<char>>) -> bool {
    forall|i: int| 0 <= i < args.len() ==> (#[trigger] args[i]).len() > 0 && !args[i].contains('\0')
}

/// The arguments of a process are read back from what the kernel keeps.
pub proof fn law_arguments_are_read_back(args: Seq<Seq<char>>)
    requires
        plain_arguments(args),
    ensures
        arguments(nul_terminated(args)) == args,
    decreases args.len(),
{
    let raw = nul_terminated(args);
    if args.len() == 0 {
        lemma_split_once_parts(raw, '\0');
        let one = Seq::<Seq<char>>::empty().push(raw);
        assert(split(raw, '\0') =~= one);
        Seq::<Seq<char>>::empty().lemma_filter_push(raw, not_empty());
        assert(Seq::<Seq<char>>::empty().filter(not_empty()) =~= Seq::empty());
    } else {
        let rest = args.skip(1);
        let first = args[0];
        assert forall|i: int| 0 <= i < rest.len() implies (#[trigger] rest[i]).len() > 0
            && !rest[i].contains('\0') by {
            assert(rest[i] == args[i + 1]);
        }
        law_arguments_are_read_back(rest);
        lemma_split_once_joined(first, '\0', nul_terminated(rest));
        let one = seq![first];
        Seq::filter_distributes_over_add(one, split(nul_terminated(rest), '\0'), not_empty());
        assert(one =~= Seq::<Seq<char>>::empty().push(first));
        Seq::<Seq<char>>::empty().lemma_filter_push(first, not_empty());
        assert(Seq::<Seq<char>>::empty().filter(not_empty()) =~= Seq::empty());
        assert(one.filter(not_empty()) =~= one);
        assert(one + rest =~= args);
    }
}

/// A command line that is not redacted shows its arguments as they are.
pub proof fn law_cmdline_is_verbatim(args: Seq<Seq<char>>)
    requires
        plain_arguments(args),
    ensures
        cmdline_text(nul_terminated(args), false) == join(args, " "@),
{
    law_arguments_are_read_back(args);
    assert(args.map_values(shaped(false)) =~= args);
}

/// Two command lines that differ in the value of a key that names a secret are
/// shown alike.
pub proof fn law_cmdline_hides_values(
    args: Seq<Seq<char>>,
    i: int,
    key: Seq<char>,
    value: Seq<char>,
    other: Seq<char>,
)
    requires
        0 <= i < args.len(),
        !key.contains('='),
        names_secret(lowercase(key)),
        plain_arguments(args.update(i, key.push('=') + value)),
        plain_arguments(args.update(i, key.push('=') + other)),
    ensures
        cmdline_text(nul_terminated(args.update(i, key.push('=') + value)), true) == cmdline_text(
            nul_terminated(args.update(i, key.push('=') + other)),
            true,
        ),
{
    let a = args.update(i, key.push('=') + value);
    let b = args.update(i, key.push('=') + other);
    law_arguments_are_read_back(a);
    law_arguments_are_read_back(b);
    law_redaction_hides_values(key, value);
    law_redaction_hides_values(key, other);
    assert(a.map_values(shaped(true)) =~= b.map_values(shaped(true)));
}

/// Whether `word` is `small`, letter by letter, in capitals or not.
pub open spec fn spells(word: Seq<char>, small: Seq<char>) -> bool {
    &&& word.len() == small.len()
    &&& forall|i: int|
        0 <= i < word.len() ==> #[trigger] word[i] == small[i] || word[i] as int + 32
            == small[i] as int
}

/// Whether one of the four words that name secrets stands in the key at `i`.
pub open spec fn secret_word_at(key: Seq<char>, i: int, small: Seq<char>) -> bool {
    &&& small == "key"@ || small == "token"@ || small == "password"@ || small == "secret"@
    &&& 0 <= i <= key.len() - small.len()
    &&& spells(key.subrange(i, i + small.len()), small)
}

/// Whether one of the four words that name secrets stands in the key, in capitals
/// or not.
pub open spec fn has_secret_word(key: Seq<char>) -> bool {
    exists|i: int, small: Seq<char>| #[trigger] secret_word_at(key, i, small)
}

pub open spec fn is_seven_bit(key: Seq<char>) -> bool {
    forall|i: int| 0 <= i < key.len() ==> (#[trigger] key[i]) as int <= 127
}

proof fn lemma_spelled(key: Seq<char>, i: int, small: Seq<char>)
    requires
        is_seven_bit(key),
        0 <= i <= key.len() - small.len(),
        forall|j: int| 0 <= j < small.len() ==> 'a' <= #[trigger] small[j] <= 'z',
    ensures
        spells(key.subrange(i, i + small.len()), small) <==> lowercase(key).subrange(
            i,
            i + small.len(),
        ) == small,
{
    let part = key.subrange(i, i + small.len());
    let low = lowercase(key).subrange(i, i + small.len());
    assert(is_ascii_text(key)) by {
        assert forall|j: int| 0 <= j < key.len() implies #[trigger] key[j] <= '\x7f' by {
            assert(key[j] as int <= 127);
        }
    }
    assert(lowercase(key).len() == key.len());
    assert forall|j: int| 0 <= j < small.len() implies low[j] == ascii_lower(part[j]) by {}
    if spells(part, small) {
        assert forall|j: int| 0 <= j < small.len() implies low[j] == small[j] by {
            assert('a' <= small[j] <= 'z');
            assert(part[j] == small[j] || part[j] as int + 32 == small[j] as int);
        }
        assert(low =~= small);
    }
    if low == small {
        assert forall|j: int| 0 <= j < part.len() implies #[trigger] part[j] == small[j]
            || part[j] as int + 32 == small[j] as int by {
            assert(low[j] == ascii_lower(part[j]));
        }
    }
}

/// A key of ASCII characters names a secret exactly where one of the four words
/// stands in it.
pub proof fn law_secret_keys_are_those_with_a_secret_word(key: Seq<char>)
    requires
        is_seven_bit(key),
    ensures
        names_secret(lowercase(key)) <==> has_secret_word(key),
{
    let low = lowercase(key);
    reveal_strlit("key");
    reveal_strlit("token");
    reveal_strlit("password");
    reveal_strlit("secret");
    assert(is_ascii_text(key)) by {
        assert forall|j: int| 0 <= j < key.len() implies #[trigger] key[j] <= '\x7f' by {
            assert(key[j] as int <= 127);
        }
    }
    assert(low.len() == key.len());
    if has_secret_word(key) {
        let (i, small) = choose|i: int, small: Seq<char>| #[trigger] secret_word_at(key, i, small);
        lemma_spelled(key, i, small);
        assert(occurs(low, small));
    }
    if names_secret(low) {
        let small = if occurs(low, "key"@) {
            "key"@
        } else if occurs(low, "token"@) {
            "token"@
        } else if occurs(low, "password"@) {
            "password"@
        } else {
            "secret"@
        };
        let i = choose|i: int|
            0 <= i <= low.len() - small.len() && #[trigger] low.subrange(i, i + small.len())
                == small;
        lemma_spelled(key, i, small);
        assert(secret_word_at(key, i, small));
    }
}

/// An argument `key=value` of an ASCII key shows its value exactly where none of
/// the four words stands in the key, whatever the value.
pub proof fn law_redaction_goes_by_the_words_in_the_key(key: Seq<char>, value: Seq<char>)
    requires
        is_seven_bit(key),
        !key.contains('='),
    ensures
        redacted(key.push('=') + value) == if has_secret_word(key) {
            key + "=REDACTED"@
        } else {
            key.push('=') + value
        },
{
    law_secret_keys_are_those_with_a_secret_word(key);
    lemma_split_once_joined(key, '=', value);
}

/// A command line that is not redacted is built up argument by argument, each
/// after a space.
pub proof fn law_cmdline_grows_by_arguments(args: Seq<Seq<char>>, arg: Seq<char>)
    requires
        plain_arguments(args.push(arg)),
    ensures
        cmdline_text(nul_terminated(args.push(arg)), false) == if args.len() == 0 {
            arg
        } else {
            cmdline_text(nul_terminated(args), false) + " "@ + arg
        },
        cmdline_text(nul_terminated(args.push(arg)), true) == if args.len() == 0 {
            redacted(arg)
        } else {
            cmdline_text(nul_terminated(args), true) + " "@ + redacted(arg)
        },
        cmdline_text(Seq::empty(), false) == Seq::<char>::empty(),
        cmdline_text(Seq::empty(), true) == Seq::<char>::empty(),
{
    assert forall|i: int| 0 <= i < args.len() implies (#[trigger] args[i]).len() > 0
        && !args[i].contains('\0') by {
        assert(args.push(arg)[i] == args[i]);
    }
    law_arguments_are_read_back(args.push(arg));
    law_arguments_are_read_back(args);
    law_arguments_are_read_back(Seq::empty());
    assert(args.push(arg).map_values(shaped(false)) =~= args.map_values(shaped(false)).push(arg));
    assert(args.push(arg).map_values(shaped(true)) =~= args.map_values(shaped(true)).push(
        redacted(arg),
    ));
    lemma_join_push(args.map_values(shaped(false)), arg, " "@);
    lemma_join_push(args.map_values(shaped(true)), redacted(arg), " "@);
    assert(nul_terminated(Seq::<Seq<char>>::empty()) =~= Seq::<char>::empty());
    assert(Seq::<Seq<char>>::empty().map_values(shaped(false)) =~= Seq::empty());
    assert(Seq::<Seq<char>>::empty().map_values(shaped(true)) =~= Seq::empty());
}

} // verus!
