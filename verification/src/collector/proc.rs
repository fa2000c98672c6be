//! One process: `/proc/<pid>/{cgroup,comm,status,cmdline}`.

use vstd::prelude::*;

use crate::collector::cgroup_link::{cgroup_path_read, parse_cgroup_path, read_cgroup_path};
use crate::collector::read::ReadFailure;
use crate::error::{told, viewed, Error, ErrorView, ProcFile, StatusField};
use crate::text::{
    chars_of, decimal_u32, decimal_u64, first_word, first_word_of, last_reading,
    law_unread_line_changes_nothing, lemma_no_reading, lines, lines_of, parse_u32, parse_u64,
    string_of, strip_chars_prefix, strip_prefix, trim, trim_chars, views, whole_lines, without_cr,
};

verus! {

/// One process at one point in time. The command line is kept as the kernel
/// gives it, its arguments separated by NUL, so that callers can shape it.
#[derive(Debug)]
pub struct ProcessSnapshot {
    pub pid: u32,
    pub comm: String,
    pub cmdline_raw: String,
    pub state: char,
    pub ppid: u32,
    /// The real uid: the first of the four values on the `Uid:` line.
    pub uid: u32,
    /// Number of threads in the process group.
    pub num_threads: u32,
    /// Resident set size in bytes. `None` for kernel threads, which have no
    /// memory map of their own and no `VmRSS:` line.
    pub rss_bytes: Option<u64>,
    pub cgroup_path: String,
}

/// A [`ProcessSnapshot`] with its texts as sequences of characters.
pub struct SnapshotView {
    pub pid: u32,
    pub comm: Seq<char>,
    pub cmdline_raw: Seq<char>,
    pub state: char,
    pub ppid: u32,
    pub uid: u32,
    pub num_threads: u32,
    pub rss_bytes: Option<u64>,
    pub cgroup_path: Seq<char>,
}

impl View for ProcessSnapshot {
    type V = SnapshotView;

    open spec fn view(&self) -> SnapshotView {
        SnapshotView {
            pid: self.pid,
            comm: self.comm@,
            cmdline_raw: self.cmdline_raw@,
            state: self.state,
            ppid: self.ppid,
            uid: self.uid,
            num_threads: self.num_threads,
            rss_bytes: self.rss_bytes,
            cgroup_path: self.cgroup_path@,
        }
    }
}

impl Clone for ProcessSnapshot {
    fn clone(&self) -> (r: Self)
        ensures
            r == *self,
    {
        ProcessSnapshot {
            pid: self.pid,
            comm: self.comm.clone(),
            cmdline_raw: self.cmdline_raw.clone(),
            state: self.state,
            ppid: self.ppid,
            uid: self.uid,
            num_threads: self.num_threads,
            rss_bytes: self.rss_bytes,
            cgroup_path: self.cgroup_path.clone(),
        }
    }
}

/// The lines of `/proc/<pid>/status` that matter here.
#[derive(Debug, Clone, Copy, PartialEq, Eq, Structural)]
pub struct StatusFields {
    pub state: char,
    pub ppid: u32,
    /// The real uid: the first of the four values on the `Uid:` line.
    pub uid: u32,
    pub num_threads: u32,
    /// `None` without a `VmRSS:` line (kernel threads).
    pub rss_bytes: Option<u64>,
}

pub open spec fn prefix_reader(prefix: Seq<char>) -> spec_fn(Seq<char>) -> Option<Seq<char>> {
    |line: Seq<char>| strip_prefix(line, prefix)
}

/// What follows `prefix` on the last line that starts with it.
pub open spec fn last_after(s: Seq<char>, prefix: Seq<char>) -> Option<Seq<char>> {
    last_reading(lines(s), prefix_reader(prefix))
}

/// The first character of the trimmed text.
pub open spec fn first_visible(s: Seq<char>) -> Option<char> {
    if trim(s).len() > 0 {
        Some(trim(s)[0])
    } else {
        None
    }
}

/// The one-letter state code.
pub open spec fn status_state(s: Seq<char>) -> Option<char> {
    match last_after(s, "State:"@) {
        Some(rest) => first_visible(rest),
        None => None,
    }
}

pub open spec fn status_ppid(s: Seq<char>) -> Option<u32> {
    match last_after(s, "PPid:"@) {
        Some(rest) => decimal_u32(trim(rest)),
        None => None,
    }
}

/// The real uid, the first of four.
pub open spec fn status_uid(s: Seq<char>) -> Option<u32> {
    match last_after(s, "Uid:"@) {
        Some(rest) => match first_word(rest) {
            Some(word) => decimal_u32(word),
            None => None,
        },
        None => None,
    }
}

pub open spec fn status_threads(s: Seq<char>) -> Option<u32> {
    match last_after(s, "Threads:"@) {
        Some(rest) => decimal_u32(trim(rest)),
        None => None,
    }
}

/// The resident set size in kB, written as `1234 kB`.
pub open spec fn status_rss_kb(s: Seq<char>) -> Option<u64> {
    match last_after(s, "VmRSS:"@) {
        Some(rest) => match first_word(rest) {
            Some(word) => decimal_u64(word),
            None => None,
        },
        None => None,
    }
}

/// The fields that a status text gives; the error names the first that is
/// missing or cannot be read. `VmRSS` may be absent.
pub open spec fn parsed_status(s: Seq<char>) -> Result<StatusFields, StatusField> {
    match (status_state(s), status_ppid(s), status_uid(s), status_threads(s)) {
        (None, _, _, _) => Err(StatusField::State),
        (_, None, _, _) => Err(StatusField::PPid),
        (_, _, None, _) => Err(StatusField::Uid),
        (_, _, _, None) => Err(StatusField::Threads),
        (Some(state), Some(ppid), Some(uid), Some(num_threads)) => Ok(
            StatusFields {
                state,
                ppid,
                uid,
                num_threads,
                rss_bytes: match status_rss_kb(s) {
                    Some(kb) => Some((kb * 1024) as u64),
                    None => None,
                },
            },
        ),
    }
}

/// Whether the resident set size is a number of bytes of 64 bits, in a text
/// that has the other fields.
pub open spec fn status_fits(s: Seq<char>) -> bool {
    parsed_status(s) is Ok ==> (status_rss_kb(s) matches Some(kb) ==> kb * 1024 <= u64::MAX)
}

/// What follows `prefix` on the last line that starts with it.
fn last_line_after<'a>(ls: &Vec<&'a [char]>, prefix: &str) -> (r: Option<&'a [char]>)
    ensures
        match r {
            Some(rest) => last_reading(views(ls@), prefix_reader(prefix@)) == Some(rest@),
            None => last_reading(views(ls@), prefix_reader(prefix@)) is None,
        },
{
    let ghost all = views(ls@);
    let mut n: usize = ls.len();
    assert(all.take(n as int) =~= all);
    while n > 0
        invariant
            n <= ls.len(),
            all == views(ls@),
            last_reading(all.take(n as int), prefix_reader(prefix@)) == last_reading(
                all,
                prefix_reader(prefix@),
            ),
        decreases n,
    {
        let line = ls[n - 1];
        assert(all.take(n as int).last() == line@);
        assert(all.take(n as int).drop_last() =~= all.take(n - 1));
        assert(prefix_reader(prefix@)(line@) == strip_prefix(line@, prefix@));
        if let Some(rest) = strip_chars_prefix(line, prefix) {
            return Some(rest);
        }
        n -= 1;
    }
    None
}

/// The values of a status text, with the resident set size in kB.
struct Status {
    state: Option<char>,
    ppid: Option<u32>,
    uid: Option<u32>,
    threads: Option<u32>,
    rss_kb: Option<u64>,
}

fn scan_status(s: &str) -> (r: Status)
    ensures
        r.state == status_state(s@),
        r.ppid == status_ppid(s@),
        r.uid == status_uid(s@),
        r.threads == status_threads(s@),
        r.rss_kb == status_rss_kb(s@),
{
    let cs = chars_of(s);
    let ls = lines_of(cs.as_slice());
    let state = match last_line_after(&ls, "State:") {
        Some(rest) => {
            let rest = trim_chars(rest);
            if rest.len() > 0 {
                Some(rest[0])
            } else {
                None
            }
        },
        None => None,
    };
    let ppid = match last_line_after(&ls, "PPid:") {
        Some(rest) => parse_u32(trim_chars(rest)),
        None => None,
    };
    let uid = match last_line_after(&ls, "Uid:") {
        Some(rest) => match first_word_of(rest) {
            Some(word) => parse_u32(word),
            None => None,
        },
        None => None,
    };
    let threads = match last_line_after(&ls, "Threads:") {
        Some(rest) => parse_u32(trim_chars(rest)),
        None => None,
    };
    let rss_kb = match last_line_after(&ls, "VmRSS:") {
        Some(rest) => match first_word_of(rest) {
            Some(word) => parse_u64(word),
            None => None,
        },
        None => None,
    };
    Status { state, ppid, uid, threads, rss_kb }
}

/// Whether [`parse_status`] can read the text.
pub fn check_status(s: &str) -> (r: bool)
    ensures
        r == status_fits(s@),
{
    let status = scan_status(s);
    match (status.state, status.ppid, status.uid, status.threads) {
        (Some(_), Some(_), Some(_), Some(_)) => match status.rss_kb {
            Some(kb) => kb <= u64::MAX / 1024,
            None => true,
        },
        _ => true,
    }
}

/// The fields, or the first that is missing.
fn status_fields(s: &str) -> (r: Result<StatusFields, StatusField>)
    requires
        status_fits(s@),
    ensures
        r == parsed_status(s@),
{
    let status = scan_status(s);
    let state = match status.state {
        Some(v) => v,
        None => return Err(StatusField::State),
    };
    let ppid = match status.ppid {
        Some(v) => v,
        None => return Err(StatusField::PPid),
    };
    let uid = match status.uid {
        Some(v) => v,
        None => return Err(StatusField::Uid),
    };
    let num_threads = match status.threads {
        Some(v) => v,
        None => return Err(StatusField::Threads),
    };
    // The kernel reports kilobytes.
    let rss_bytes = match status.rss_kb {
        Some(kb) => Some(kb * 1024),
        None => None,
    };
    Ok(StatusFields { state, ppid, uid, num_threads, rss_bytes })
}

/// Reads the text of `/proc/<pid>/status`. `State`, `PPid`, `Uid` and `Threads`
/// must be there; `VmRSS` may be absent (kernel threads).
pub fn parse_status(s: &str) -> (r: Result<StatusFields, Error>)
    requires
        status_fits(s@),
    ensures
        told(r) == match parsed_status(s@) {
            Ok(fields) => Ok(fields),
            Err(field) => Err(ErrorView::MissingStatusField(field)),
        },
{
    match status_fields(s) {
        Ok(fields) => Ok(fields),
        Err(field) => Err(Error::MissingStatusField(field)),
    }
}

/// What came of reading the files of one process.
pub struct ProcessFiles {
    /// Where `/proc/<pid>/cgroup` stands, for reports.
    pub cgroup_file: String,
    pub cgroup: Result<String, ReadFailure>,
    pub comm: Result<String, ReadFailure>,
    pub status: Result<String, ReadFailure>,
    pub cmdline: Result<String, ReadFailure>,
}

impl ProcessFiles {
    /// Whether the status, if the files before it can be read, has a resident
    /// set size of 64 bits.
    pub open spec fn fits(self) -> bool {
        (cgroup_path_read(self.cgroup_file@, self.cgroup) is Ok && self.comm is Ok) ==> (
        self.status matches Ok(text) ==> status_fits(text@))
    }

    /// Whether [`read_process`] can take the files.
    pub fn check(&self) -> (r: bool)
        ensures
            r == self.fits(),
    {
        match (&self.cgroup, &self.comm, &self.status) {
            (Ok(cgroup), Ok(_), Ok(status)) => match parse_cgroup_path(cgroup.as_str()) {
                Ok(_) => check_status(status.as_str()),
                Err(_) => true,
            },
            _ => true,
        }
    }

    /// Whether [`read_process`] makes a snapshot of the files, whatever the pid.
    pub fn readable(&self) -> (r: bool)
        ensures
            forall|pid: u32| r == (#[trigger] process_read(pid, *self) is Ok),
    {
        match (&self.cgroup, &self.comm, &self.status, &self.cmdline) {
            (Ok(cgroup), Ok(_), Ok(status), Ok(_)) => {
                let status = scan_status(status.as_str());
                parse_cgroup_path(cgroup.as_str()).is_ok() && status.state.is_some()
                    && status.ppid.is_some() && status.uid.is_some() && status.threads.is_some()
            },
            _ => false,
        }
    }
}

/// What came of reading the process `pid`: the first failure, in the order
/// cgroup, comm, status, cmdline, or the snapshot.
pub open spec fn process_read(pid: u32, files: ProcessFiles) -> Result<SnapshotView, ErrorView> {
    match (
        cgroup_path_read(files.cgroup_file@, files.cgroup),
        files.comm,
        files.status,
        files.cmdline,
    ) {
        (Err(e), _, _, _) => Err(e),
        (_, Err(failure), _, _) => Err(
            ErrorView::ReadingFile { file: ProcFile::Comm, pid, cause: failure.cause@ },
        ),
        (_, _, Err(failure), _) => Err(
            ErrorView::ReadingFile { file: ProcFile::Status, pid, cause: failure.cause@ },
        ),
        (Ok(cgroup_path), Ok(comm), Ok(status), cmdline) => match parsed_status(status@) {
            Err(field) => Err(ErrorView::ParsingStatus { pid, field }),
            Ok(fields) => match cmdline {
                Err(failure) => Err(
                    ErrorView::ReadingFile { file: ProcFile::Cmdline, pid, cause: failure.cause@ },
                ),
                Ok(cmdline) => Ok(
                    SnapshotView {
                        pid,
                        comm: trim(comm@),
                        cmdline_raw: cmdline@,
                        state: fields.state,
                        ppid: fields.ppid,
                        uid: fields.uid,
                        num_threads: fields.num_threads,
                        rss_bytes: fields.rss_bytes,
                        cgroup_path,
                    },
                ),
            },
        },
    }
}

/// The process `pid`, from what came of reading its files.
pub fn read_process(pid: u32, files: ProcessFiles) -> (r: Result<ProcessSnapshot, Error>)
    requires
        files.fits(),
    ensures
        viewed(r) == process_read(pid, files),
{
    let cgroup_path = match read_cgroup_path(files.cgroup_file.as_str(), files.cgroup) {
        Ok(path) => path,
        Err(e) => return Err(e),
    };
    let comm = match files.comm {
        Ok(text) => {
            let cs = chars_of(text.as_str());
            string_of(trim_chars(cs.as_slice()))
        },
        Err(failure) => return Err(
            Error::ReadingFile { file: ProcFile::Comm, pid, cause: failure.cause },
        ),
    };
    let fields = match files.status {
        Ok(text) => match status_fields(text.as_str()) {
            Ok(fields) => fields,
            Err(field) => return Err(Error::ParsingStatus { pid, field }),
        },
        Err(failure) => return Err(
            Error::ReadingFile { file: ProcFile::Status, pid, cause: failure.cause },
        ),
    };
    let cmdline_raw = match files.cmdline {
        Ok(text) => text,
        Err(failure) => return Err(
            Error::ReadingFile { file: ProcFile::Cmdline, pid, cause: failure.cause },
        ),
    };
    Ok(
        ProcessSnapshot {
            pid,
            comm,
            cmdline_raw,
            state: fields.state,
            ppid: fields.ppid,
            uid: fields.uid,
            num_threads: fields.num_threads,
            rss_bytes: fields.rss_bytes,
            cgroup_path,
        },
    )
}

/// Whether a line is one of those that matter here.
pub open spec fn is_status_line(line: Seq<char>) -> bool {
    ||| ("State:"@).is_prefix_of(line)
    ||| ("PPid:"@).is_prefix_of(line)
    ||| ("Uid:"@).is_prefix_of(line)
    ||| ("Threads:"@).is_prefix_of(line)
    ||| ("VmRSS:"@).is_prefix_of(line)
}

/// Other lines can stand anywhere in the text.
pub proof fn law_status_ignores_other_lines(before: Seq<char>, line: Seq<char>, after: Seq<char>)
    requires
        whole_lines(before),
        !line.contains('\n'),
        !is_status_line(without_cr(line)),
    ensures
        parsed_status(before + line.push('\n') + after) == parsed_status(before + after),
        status_fits(before + line.push('\n') + after) == status_fits(before + after),
{
    law_unread_line_changes_nothing(before, line, after, prefix_reader("State:"@));
    law_unread_line_changes_nothing(before, line, after, prefix_reader("PPid:"@));
    law_unread_line_changes_nothing(before, line, after, prefix_reader("Uid:"@));
    law_unread_line_changes_nothing(before, line, after, prefix_reader("Threads:"@));
    law_unread_line_changes_nothing(before, line, after, prefix_reader("VmRSS:"@));
}

/// A process without a `VmRSS:` line, such as a kernel thread, has no resident
/// set size, and that is no error.
pub proof fn law_status_without_rss(s: Seq<char>)
    requires
        forall|i: int|
            0 <= i < lines(s).len() ==> !("VmRSS:"@).is_prefix_of(#[trigger] lines(s)[i]),
    ensures
        status_fits(s),
        parsed_status(s) matches Ok(fields) ==> fields.rss_bytes is None,
        parsed_status(s) is Ok <==> status_state(s) is Some && status_ppid(s) is Some && status_uid(
            s,
        ) is Some && status_threads(s) is Some,
{
    lemma_no_reading(lines(s), prefix_reader("VmRSS:"@));
}

} // verus!
