//! `/proc/<pid>/io`: what a process has read and written.

use vstd::prelude::*;

use crate::collector::read::ReadFailure;
use crate::error::{told, Error, ErrorView, IoField};
use crate::text::{
    chars_of, decimal_u64, is_text, last_reading, law_unread_line_changes_nothing, line_key, lines,
    lines_of, parse_u64, split_chars_once, split_once, trim, trim_chars, views, whole_lines,
    without_cr,
};

verus! {

/// Counters from `/proc/<pid>/io`, cumulative since the process started.
/// Reading the file mostly takes ptrace capability or the same uid.
#[derive(Debug, Clone, Copy, PartialEq, Eq, Structural)]
pub struct IoCounters {
    /// Bytes read from disk, after the page cache: the kernel's `read_bytes`.
    pub read_bytes: u64,
    /// Bytes written to disk: the kernel's `write_bytes`.
    pub write_bytes: u64,
    /// Number of read system calls: the kernel's `syscr`.
    pub read_syscalls: u64,
    /// Number of write system calls: the kernel's `syscw`.
    pub write_syscalls: u64,
}

/// The number on a line `key: number`.
pub open spec fn counter_on_line(line: Seq<char>, key: Seq<char>) -> Option<u64> {
    match split_once(line, ':') {
        Some((k, value)) => if trim(k) == key {
            decimal_u64(trim(value))
        } else {
            None
        },
        None => None,
    }
}

pub open spec fn counter_reader(key: Seq<char>) -> spec_fn(Seq<char>) -> Option<u64> {
    |line: Seq<char>| counter_on_line(line, key)
}

/// The number on the last line of that key that has one.
pub open spec fn counter(s: Seq<char>, key: Seq<char>) -> Option<u64> {
    last_reading(lines(s), counter_reader(key))
}

pub open spec fn parsed_io(s: Seq<char>) -> Result<IoCounters, ErrorView> {
    match (
        counter(s, "read_bytes"@),
        counter(s, "write_bytes"@),
        counter(s, "syscr"@),
        counter(s, "syscw"@),
    ) {
        (None, _, _, _) => Err(ErrorView::MissingIoField(IoField::ReadBytes)),
        (_, None, _, _) => Err(ErrorView::MissingIoField(IoField::WriteBytes)),
        (_, _, None, _) => Err(ErrorView::MissingIoField(IoField::Syscr)),
        (_, _, _, None) => Err(ErrorView::MissingIoField(IoField::Syscw)),
        (Some(read_bytes), Some(write_bytes), Some(read_syscalls), Some(write_syscalls)) => Ok(
            IoCounters { read_bytes, write_bytes, read_syscalls, write_syscalls },
        ),
    }
}

/// The number on the last line of that key that has one.
fn last_counter(ls: &Vec<&[char]>, key: &str) -> (r: Option<u64>)
    ensures
        r == last_reading(views(ls@), counter_reader(key@)),
{
    let ghost all = views(ls@);
    let mut n: usize = ls.len();
    assert(all.take(n as int) =~= all);
    while n > 0
        invariant
            n <= ls.len(),
            all == views(ls@),
            last_reading(all.take(n as int), counter_reader(key@)) == last_reading(
                all,
                counter_reader(key@),
            ),
        decreases n,
    {
        let line = ls[n - 1];
        assert(all.take(n as int).last() == line@);
        assert(all.take(n as int).drop_last() =~= all.take(n - 1));
        assert(counter_reader(key@)(line@) == counter_on_line(line@, key@));
        if let Some((k, value)) = split_chars_once(line, ':') {
            if is_text(trim_chars(k), key) {
                if let Some(v) = parse_u64(trim_chars(value)) {
                    return Some(v);
                }
            }
        }
        n -= 1;
    }
    None
}

/// Reads the text of `/proc/<pid>/io`. Lines of other keys are passed over.
pub fn parse_io(s: &str) -> (r: Result<IoCounters, Error>)
    ensures
        told(r) == parsed_io(s@),
{
    let cs = chars_of(s);
    let ls = lines_of(cs.as_slice());
    let read_bytes = match last_counter(&ls, "read_bytes") {
        Some(v) => v,
        None => return Err(Error::MissingIoField(IoField::ReadBytes)),
    };
    let write_bytes = match last_counter(&ls, "write_bytes") {
        Some(v) => v,
        None => return Err(Error::MissingIoField(IoField::WriteBytes)),
    };
    let read_syscalls = match last_counter(&ls, "syscr") {
        Some(v) => v,
        None => return Err(Error::MissingIoField(IoField::Syscr)),
    };
    let write_syscalls = match last_counter(&ls, "syscw") {
        Some(v) => v,
        None => return Err(Error::MissingIoField(IoField::Syscw)),
    };
    Ok(IoCounters { read_bytes, write_bytes, read_syscalls, write_syscalls })
}

/// What came of reading the counters from the file at `path`.
pub open spec fn io_read(path: Seq<char>, read: Result<String, ReadFailure>) -> Result<
    Option<IoCounters>,
    ErrorView,
> {
    match read {
        Ok(text) => match parsed_io(text@) {
            Ok(counters) => Ok(Some(counters)),
            Err(e) => Err(e),
        },
        Err(failure) => if failure.is_gated() {
            Ok(None)
        } else {
            Err(ErrorView::Reading { path, cause: failure.cause@ })
        },
    }
}

/// The counters of a process, from what came of reading `/proc/<pid>/io` at
/// `path`: `None` where the file is absent or closed to us.
pub fn read_io(path: &str, read: Result<String, ReadFailure>) -> (r: Result<
    Option<IoCounters>,
    Error,
>)
    ensures
        told(r) == io_read(path@, read),
{
    match read {
        Ok(text) => match parse_io(text.as_str()) {
            Ok(counters) => Ok(Some(counters)),
            Err(e) => Err(e),
        },
        Err(failure) => if failure.gated() {
            Ok(None)
        } else {
            Err(Error::Reading { path: path.to_owned(), cause: failure.cause })
        },
    }
}

/// Lines of other keys can stand anywhere in the text, so that a kernel may add
/// some.
pub proof fn law_io_ignores_unknown_lines(before: Seq<char>, line: Seq<char>, after: Seq<char>)
    requires
        whole_lines(before),
        !line.contains('\n'),
        line_key(without_cr(line)) != Some("read_bytes"@),
        line_key(without_cr(line)) != Some("write_bytes"@),
        line_key(without_cr(line)) != Some("syscr"@),
        line_key(without_cr(line)) != Some("syscw"@),
    ensures
        parsed_io(before + line.push('\n') + after) == parsed_io(before + after),
{
    law_unread_line_changes_nothing(before, line, after, counter_reader("read_bytes"@));
    law_unread_line_changes_nothing(before, line, after, counter_reader("write_bytes"@));
    law_unread_line_changes_nothing(before, line, after, counter_reader("syscr"@));
    law_unread_line_changes_nothing(before, line, after, counter_reader("syscw"@));
}

} // verus!
