//! `process_info`: all there is to say of one process.

use vstd::prelude::*;

use crate::collector::fd::{count_fds, count_flags, count_set, fds_counted};
use crate::collector::io::{io_read, read_io, IoCounters};
use crate::collector::proc::{process_read, read_process, ProcessFiles};
use crate::collector::read::ReadFailure;
use crate::collector::smaps::{
    check_smaps_rollup, read_smaps_rollup, smaps_rollup_fits, smaps_rollup_read, MemoryBreakdown,
};
use crate::collector::walk::{pid_of_name, visit, DirEntry, Visit};
use crate::error::{viewed, Error, ErrorView};
use crate::mcp::process_entry::{entry_of, redact_flag, redacts, EntryView, ProcessEntry};

verus! {

#[derive(Debug)]
pub struct ProcessInfoParams {
    /// The process. It must exist.
    pub pid: u32,
    /// Whether arguments whose key names a secret are redacted. They are unless
    /// this says `false`.
    pub redact_args: Option<bool>,
}

#[derive(Debug)]
pub struct ProcessInfoResponse {
    /// What the other tools show of a process too.
    pub base: ProcessEntry,
    /// The real uid that owns the process.
    pub uid: u32,
    /// Number of threads in the process group.
    pub num_threads: u32,
    /// Number of entries in `/proc/<pid>/fd`. `None` where it is closed to us.
    pub fd_count: Option<u32>,
    /// The memory from `/proc/<pid>/smaps_rollup`. `None` for kernel threads, or
    /// where it is closed to us.
    pub memory: Option<MemoryBreakdown>,
    /// The counters from `/proc/<pid>/io`. `None` where it is closed to us.
    pub io: Option<IoCounters>,
}

/// A [`ProcessInfoResponse`] with its texts as sequences of characters.
pub struct ProcessInfoView {
    pub base: EntryView,
    pub uid: u32,
    pub num_threads: u32,
    pub fd_count: Option<u32>,
    pub memory: Option<MemoryBreakdown>,
    pub io: Option<IoCounters>,
}

impl View for ProcessInfoResponse {
    type V = ProcessInfoView;

    open spec fn view(&self) -> ProcessInfoView {
        ProcessInfoView {
            base: self.base@,
            uid: self.uid,
            num_threads: self.num_threads,
            fd_count: self.fd_count,
            memory: self.memory,
            io: self.io,
        }
    }
}

/// What came of reading all that there is under `/proc/<pid>`, each with where
/// it stands, for reports.
pub struct ProcessInfoFiles {
    pub files: ProcessFiles,
    pub fd_dir: String,
    /// The entries of `fd`, each with whether it could be read.
    pub fds: Result<Vec<bool>, ReadFailure>,
    pub smaps_file: String,
    pub smaps: Result<String, ReadFailure>,
    pub io_file: String,
    pub io: Result<String, ReadFailure>,
}

impl ProcessInfoFiles {
    /// Whether the files can be taken, each where those before it could be.
    pub open spec fn fits(self, pid: u32) -> bool {
        &&& self.files.fits()
        &&& process_read(pid, self.files) is Ok ==> {
            &&& self.fds matches Ok(flags) ==> count_set(flags@) <= u32::MAX
            &&& fds_counted(self.fd_dir@, self.fds) is Ok ==> (self.smaps matches Ok(text)
                ==> smaps_rollup_fits(text@))
        }
    }

    /// Whether [`run`] can take the files.
    pub fn check(&self, pid: u32) -> (r: bool)
        ensures
            r == self.fits(pid),
    {
        if !self.files.check() {
            return false;
        }
        let readable = self.files.readable();
        assert(readable == (process_read(pid, self.files) is Ok));
        if !readable {
            return true;
        }
        match &self.fds {
            Ok(flags) => if count_flags(flags) > u32::MAX as usize {
                return false;
            },
            Err(failure) => if !failure.gated() {
                return true;
            },
        }
        match &self.smaps {
            Ok(text) => check_smaps_rollup(text.as_str()),
            Err(_) => true,
        }
    }
}

/// The answer: the first failure, in the order process, `fd`, `smaps_rollup`,
/// `io`, or all there is.
pub open spec fn answer(all: ProcessInfoFiles, params: ProcessInfoParams) -> Result<
    ProcessInfoView,
    ErrorView,
> {
    match (
        process_read(params.pid, all.files),
        fds_counted(all.fd_dir@, all.fds),
        smaps_rollup_read(all.smaps_file@, all.smaps),
        io_read(all.io_file@, all.io),
    ) {
        (Err(e), _, _, _) => Err(e),
        (_, Err(e), _, _) => Err(e),
        (_, _, Err(e), _) => Err(e),
        (_, _, _, Err(e)) => Err(e),
        (Ok(snapshot), Ok(fd_count), Ok(memory), Ok(io)) => Ok(
            ProcessInfoView {
                base: entry_of(snapshot, redacts(params.redact_args)),
                uid: snapshot.uid,
                num_threads: snapshot.num_threads,
                fd_count,
                memory,
                io,
            },
        ),
    }
}

/// All there is to say of the process that is asked for, from what came of
/// reading its files. A process that is not there is an error, not an empty
/// answer.
pub fn run(all: ProcessInfoFiles, params: ProcessInfoParams) -> (r: Result<
    ProcessInfoResponse,
    Error,
>)
    requires
        all.fits(params.pid),
    ensures
        viewed(r) == answer(all, params),
{
    let redact = redact_flag(params.redact_args);
    let snap = match read_process(params.pid, all.files) {
        Ok(snap) => snap,
        Err(e) => return Err(e),
    };
    let uid = snap.uid;
    let num_threads = snap.num_threads;
    let fd_count = match count_fds(all.fd_dir.as_str(), all.fds) {
        Ok(fd_count) => fd_count,
        Err(e) => return Err(e),
    };
    let memory = match read_smaps_rollup(all.smaps_file.as_str(), all.smaps) {
        Ok(memory) => memory,
        Err(e) => return Err(e),
    };
    let io = match read_io(all.io_file.as_str(), all.io) {
        Ok(io) => io,
        Err(e) => return Err(e),
    };
    let base = ProcessEntry::from_snapshot(snap, redact);
    Ok(ProcessInfoResponse { base, uid, num_threads, fd_count, memory, io })
}

/// What is shown of a process here is what the lists show of it.
pub proof fn law_info_shows_what_lists_show(
    all: ProcessInfoFiles,
    params: ProcessInfoParams,
    name: String,
)
    requires
        pid_of_name(name@) == Some(params.pid),
    ensures
        answer(all, params) matches Ok(shown) ==> (visit(
            DirEntry::Named { name: Some(name), files: all.files },
        ) matches Visit::Read(s) && shown.base == entry_of(s, redacts(params.redact_args))),
{
}

/// Files that are closed to us leave their fields empty and fail nothing.
pub proof fn law_closed_files_leave_fields_empty(all: ProcessInfoFiles, params: ProcessInfoParams)
    requires
        process_read(params.pid, all.files) is Ok,
        all.fds matches Err(failure) && failure.is_gated(),
        all.smaps matches Err(failure) && failure.is_gated(),
        all.io matches Err(failure) && failure.is_gated(),
    ensures
        answer(all, params) matches Ok(shown) && shown.fd_count is None && shown.memory is None
            && shown.io is None,
{
}

/// A process whose cgroup cannot be read, as when it is not there, is an error.
pub proof fn law_missing_process_is_an_error(all: ProcessInfoFiles, params: ProcessInfoParams)
    requires
        all.files.cgroup is Err,
    ensures
        answer(all, params) is Err,
{
}

} // verus!
