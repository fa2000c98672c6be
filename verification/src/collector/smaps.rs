//! `/proc/<pid>/smaps_rollup`: where the memory of a process is.

use vstd::prelude::*;

use crate::collector::read::ReadFailure;
use crate::error::{told, Error, ErrorView};
use crate::text::{
    chars_of, decimal_u64, first_word, first_word_of, is_text, last_reading,
    law_unread_line_changes_nothing, lemma_no_reading, line_key, lines, lines_of, parse_u64,
    split_chars_once, split_once, trim, trim_chars, views, whole_lines, without_cr,
};

verus! {

/// Memory breakdown from `/proc/<pid>/smaps_rollup`. All values in bytes.
#[derive(Debug, Clone, Copy, PartialEq, Eq, Structural)]
pub struct MemoryBreakdown {
    /// Resident set size: physical memory currently mapped to this process.
    pub rss_bytes: u64,
    /// Proportional set size: each shared page counts in proportion to the
    /// number of processes that map it. The fairest single number for the
    /// memory cost of a process when pages are shared.
    pub pss_bytes: u64,
    /// `Shared_Clean + Shared_Dirty`: pages mapped by several processes.
    pub shared_bytes: u64,
    /// `Private_Clean + Private_Dirty`: pages mapped only by this process.
    pub private_bytes: u64,
    /// Anonymous memory, with no file behind it: heap, stacks, malloc regions.
    pub anon_bytes: u64,
    /// Pages swapped out.
    pub swap_bytes: u64,
}

/// The number of a value ` <number> kB`: its first word.
pub open spec fn kb_value(rest: Seq<char>) -> Option<u64> {
    match first_word(rest) {
        Some(word) => decimal_u64(word),
        None => None,
    }
}

/// The number on a line `key: <number> kB`.
pub open spec fn kb_on_line(line: Seq<char>, key: Seq<char>) -> Option<u64> {
    match split_once(line, ':') {
        Some((k, rest)) => if trim(k) == key {
            kb_value(rest)
        } else {
            None
        },
        None => None,
    }
}

pub open spec fn kb_reader(key: Seq<char>) -> spec_fn(Seq<char>) -> Option<u64> {
    |line: Seq<char>| kb_on_line(line, key)
}

/// The number on the last line of that key that has one, in kB.
pub open spec fn kb(s: Seq<char>, key: Seq<char>) -> Option<u64> {
    last_reading(lines(s), kb_reader(key))
}

/// The same, with zero where there is none.
pub open spec fn kb_or_zero(s: Seq<char>, key: Seq<char>) -> int {
    match kb(s, key) {
        Some(v) => v as int,
        None => 0,
    }
}

/// Whether a number of kB is a number of bytes of 64 bits.
pub open spec fn fits(kb: int) -> bool {
    kb * 1024 <= u64::MAX
}

/// Whether every value of a rollup is a number of bytes of 64 bits. A text
/// without an `Rss` line has no values.
pub open spec fn smaps_rollup_fits(s: Seq<char>) -> bool {
    kb(s, "Rss"@) is Some ==> {
        &&& fits(kb_or_zero(s, "Rss"@))
        &&& fits(kb_or_zero(s, "Pss"@))
        &&& fits(kb_or_zero(s, "Shared_Clean"@) + kb_or_zero(s, "Shared_Dirty"@))
        &&& fits(kb_or_zero(s, "Private_Clean"@) + kb_or_zero(s, "Private_Dirty"@))
        &&& fits(kb_or_zero(s, "Anonymous"@))
        &&& fits(kb_or_zero(s, "Swap"@))
    }
}

/// The breakdown that a rollup gives, key by key. Only `Rss` must be there.
pub open spec fn parsed_smaps_rollup(s: Seq<char>) -> Result<MemoryBreakdown, ErrorView> {
    if kb(s, "Rss"@) is None {
        Err(ErrorView::NoRssLine)
    } else {
        Ok(
            MemoryBreakdown {
                rss_bytes: (kb_or_zero(s, "Rss"@) * 1024) as u64,
                pss_bytes: (kb_or_zero(s, "Pss"@) * 1024) as u64,
                shared_bytes: ((kb_or_zero(s, "Shared_Clean"@) + kb_or_zero(s, "Shared_Dirty"@))
                    * 1024) as u64,
                private_bytes: ((kb_or_zero(s, "Private_Clean"@) + kb_or_zero(s, "Private_Dirty"@))
                    * 1024) as u64,
                anon_bytes: (kb_or_zero(s, "Anonymous"@) * 1024) as u64,
                swap_bytes: (kb_or_zero(s, "Swap"@) * 1024) as u64,
            },
        )
    }
}

/// Reads a value of the form ` <number> kB`. The unit is left to the caller.
fn parse_kb(rest: &[char]) -> (r: Option<u64>)
    ensures
        r == kb_value(rest@),
{
    match first_word_of(rest) {
        Some(word) => parse_u64(word),
        None => None,
    }
}

/// The number on the last line of that key that has one, in kB.
fn last_kb(ls: &Vec<&[char]>, key: &str) -> (r: Option<u64>)
    ensures
        r == last_reading(views(ls@), kb_reader(key@)),
{
    let ghost all = views(ls@);
    let mut n: usize = ls.len();
    assert(all.take(n as int) =~= all);
    while n > 0
        invariant
            n <= ls.len(),
            all == views(ls@),
            last_reading(all.take(n as int), kb_reader(key@)) == last_reading(all, kb_reader(key@)),
        decreases n,
    {
        let line = ls[n - 1];
        assert(all.take(n as int).last() == line@);
        assert(all.take(n as int).drop_last() =~= all.take(n - 1));
        assert(kb_reader(key@)(line@) == kb_on_line(line@, key@));
        if let Some((k, rest)) = split_chars_once(line, ':') {
            if is_text(trim_chars(k), key) {
                if let Some(v) = parse_kb(rest) {
                    return Some(v);
                }
            }
        }
        n -= 1;
    }
    None
}

/// The same, with zero where there is none.
fn last_kb_or_zero(ls: &Vec<&[char]>, key: &str) -> (r: u64)
    ensures
        r as int == match last_reading(views(ls@), kb_reader(key@)) {
            Some(v) => v as int,
            None => 0,
        },
{
    match last_kb(ls, key) {
        Some(v) => v,
        None => 0,
    }
}

/// The values of a rollup in kB.
struct Rollup {
    rss: Option<u64>,
    pss: u64,
    shared_clean: u64,
    shared_dirty: u64,
    private_clean: u64,
    private_dirty: u64,
    anon: u64,
    swap: u64,
}

fn scan_rollup(s: &str) -> (r: Rollup)
    ensures
        r.rss == kb(s@, "Rss"@),
        r.pss == kb_or_zero(s@, "Pss"@),
        r.shared_clean == kb_or_zero(s@, "Shared_Clean"@),
        r.shared_dirty == kb_or_zero(s@, "Shared_Dirty"@),
        r.private_clean == kb_or_zero(s@, "Private_Clean"@),
        r.private_dirty == kb_or_zero(s@, "Private_Dirty"@),
        r.anon == kb_or_zero(s@, "Anonymous"@),
        r.swap == kb_or_zero(s@, "Swap"@),
{
    let cs = chars_of(s);
    let ls = lines_of(cs.as_slice());
    Rollup {
        rss: last_kb(&ls, "Rss"),
        pss: last_kb_or_zero(&ls, "Pss"),
        shared_clean: last_kb_or_zero(&ls, "Shared_Clean"),
        shared_dirty: last_kb_or_zero(&ls, "Shared_Dirty"),
        private_clean: last_kb_or_zero(&ls, "Private_Clean"),
        private_dirty: last_kb_or_zero(&ls, "Private_Dirty"),
        anon: last_kb_or_zero(&ls, "Anonymous"),
        swap: last_kb_or_zero(&ls, "Swap"),
    }
}

/// Whether the sum of two numbers of kB is a number of bytes of 64 bits.
fn sum_fits(a: u64, b: u64) -> (r: bool)
    ensures
        r == fits(a + b),
{
    a <= u64::MAX / 1024 && b <= u64::MAX / 1024 - a
}

/// Whether [`parse_smaps_rollup`] can read the text.
pub fn check_smaps_rollup(s: &str) -> (r: bool)
    ensures
        r == smaps_rollup_fits(s@),
{
    let rollup = scan_rollup(s);
    match rollup.rss {
        None => true,
        Some(rss) => sum_fits(rss, 0) && sum_fits(rollup.pss, 0) && sum_fits(
            rollup.shared_clean,
            rollup.shared_dirty,
        ) && sum_fits(rollup.private_clean, rollup.private_dirty) && sum_fits(rollup.anon, 0)
            && sum_fits(rollup.swap, 0),
    }
}

/// Reads the text of `/proc/<pid>/smaps_rollup`: a heading, then lines
/// `Key: <number> kB`. Lines of other keys are passed over. A text without an
/// `Rss` line is malformed: an error, rather than zeros for everything.
pub fn parse_smaps_rollup(s: &str) -> (r: Result<MemoryBreakdown, Error>)
    requires
        smaps_rollup_fits(s@),
    ensures
        told(r) == parsed_smaps_rollup(s@),
{
    let rollup = scan_rollup(s);
    match rollup.rss {
        None => Err(Error::NoRssLine),
        Some(rss) => Ok(
            MemoryBreakdown {
                rss_bytes: rss * 1024,
                pss_bytes: rollup.pss * 1024,
                shared_bytes: (rollup.shared_clean + rollup.shared_dirty) * 1024,
                private_bytes: (rollup.private_clean + rollup.private_dirty) * 1024,
                anon_bytes: rollup.anon * 1024,
                swap_bytes: rollup.swap * 1024,
            },
        ),
    }
}

/// What came of reading the breakdown from the file at `path`.
pub open spec fn smaps_rollup_read(path: Seq<char>, read: Result<String, ReadFailure>) -> Result<
    Option<MemoryBreakdown>,
    ErrorView,
> {
    match read {
        Ok(text) => match parsed_smaps_rollup(text@) {
            Ok(memory) => Ok(Some(memory)),
            Err(e) => Err(e),
        },
        Err(failure) => if failure.is_gated() {
            Ok(None)
        } else {
            Err(ErrorView::Reading { path, cause: failure.cause@ })
        },
    }
}

/// The memory of a process, from what came of reading
/// `/proc/<pid>/smaps_rollup` at `path`: `None` where the file is absent (kernel
/// threads have no memory map of their own) or closed to us.
pub fn read_smaps_rollup(path: &str, read: Result<String, ReadFailure>) -> (r: Result<
    Option<MemoryBreakdown>,
    Error,
>)
    requires
        read matches Ok(text) ==> smaps_rollup_fits(text@),
    ensures
        told(r) == smaps_rollup_read(path@, read),
{
    match read {
        Ok(text) => match parse_smaps_rollup(text.as_str()) {
            Ok(memory) => Ok(Some(memory)),
            Err(e) => Err(e),
        },
        Err(failure) => if failure.gated() {
            Ok(None)
        } else {
            Err(Error::Reading { path: path.to_owned(), cause: failure.cause })
        },
    }
}

/// Whether a line is of one of the keys that matter here.
pub open spec fn is_rollup_line(line: Seq<char>) -> bool {
    match line_key(line) {
        Some(key) => {
            ||| key == "Rss"@
            ||| key == "Pss"@
            ||| key == "Shared_Clean"@
            ||| key == "Shared_Dirty"@
            ||| key == "Private_Clean"@
            ||| key == "Private_Dirty"@
            ||| key == "Anonymous"@
            ||| key == "Swap"@
        },
        None => false,
    }
}

/// Lines of other keys can stand anywhere in the text, so that a kernel may add
/// some.
pub proof fn law_smaps_rollup_ignores_unknown_lines(
    before: Seq<char>,
    line: Seq<char>,
    after: Seq<char>,
)
    requires
        whole_lines(before),
        !line.contains('\n'),
        !is_rollup_line(without_cr(line)),
    ensures
        parsed_smaps_rollup(before + line.push('\n') + after) == parsed_smaps_rollup(
            before + after,
        ),
        smaps_rollup_fits(before + line.push('\n') + after) == smaps_rollup_fits(before + after),
{
    law_unread_line_changes_nothing(before, line, after, kb_reader("Rss"@));
    law_unread_line_changes_nothing(before, line, after, kb_reader("Pss"@));
    law_unread_line_changes_nothing(before, line, after, kb_reader("Shared_Clean"@));
    law_unread_line_changes_nothing(before, line, after, kb_reader("Shared_Dirty"@));
    law_unread_line_changes_nothing(before, line, after, kb_reader("Private_Clean"@));
    law_unread_line_changes_nothing(before, line, after, kb_reader("Private_Dirty"@));
    law_unread_line_changes_nothing(before, line, after, kb_reader("Anonymous"@));
    law_unread_line_changes_nothing(before, line, after, kb_reader("Swap"@));
}

/// A text without an `Rss` line is malformed, whatever else it holds.
pub proof fn law_smaps_rollup_needs_rss(s: Seq<char>)
    requires
        forall|i: int| 0 <= i < lines(s).len() ==> line_key(#[trigger] lines(s)[i]) != Some("Rss"@),
    ensures
        parsed_smaps_rollup(s) == Err::<MemoryBreakdown, _>(ErrorView::NoRssLine),
{
    lemma_no_reading(lines(s), kb_reader("Rss"@));
}

} // verus!
