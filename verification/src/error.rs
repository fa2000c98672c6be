//! What can go wrong, and how it is told.

use vstd::prelude::*;
use vstd::string::*;

use crate::text::decimal_of;
use crate::text::digits_of;

verus! {

/// The counters that `/proc/<pid>/io` must hold.
#[derive(Debug, Clone, Copy, PartialEq, Eq, Structural)]
pub enum IoField {
    ReadBytes,
    WriteBytes,
    Syscr,
    Syscw,
}

/// The lines that `/proc/<pid>/status` must hold.
#[derive(Debug, Clone, Copy, PartialEq, Eq, Structural)]
pub enum StatusField {
    State,
    PPid,
    Uid,
    Threads,
}

/// The files of a process whose reading is told by pid.
#[derive(Debug, Clone, Copy, PartialEq, Eq, Structural)]
pub enum ProcFile {
    Comm,
    Status,
    Cmdline,
}

#[derive(Debug)]
pub enum Error {
    /// `/proc/<pid>/cgroup` has no line that starts with `0::`.
    NoUnifiedCgroup,
    /// `/proc/<pid>/io` lacks a counter.
    MissingIoField(IoField),
    /// `/proc/<pid>/status` lacks a line, or the line cannot be read.
    MissingStatusField(StatusField),
    /// `/proc/<pid>/smaps_rollup` has no `Rss` line.
    NoRssLine,
    /// A cgroup path starts with `/`.
    AbsoluteCgroupPath(String),
    /// A cgroup path has a `..` segment.
    DotDotSegment(String),
    /// `process_tree` was given both a pid and a cgroup.
    BothTreeModes,
    /// `process_tree` was given neither a pid nor a cgroup.
    NoTreeMode,
    /// No process has the pid.
    PidNotFound(u32),
    /// A file or directory could not be read.
    Reading { path: String, cause: String },
    /// The directory that lists the processes could not be read.
    ReadingProcRoot { path: String, cause: String },
    /// A file of one process could not be read.
    ReadingFile { file: ProcFile, pid: u32, cause: String },
    /// The status of one process lacks a line, or the line cannot be read.
    ParsingStatus { pid: u32, field: StatusField },
    /// `--proc-root` came last, without its path.
    ProcRootWithoutPath,
    /// A command line argument that is not known.
    UnknownArgument(String),
}

/// An [`Error`] with its texts as sequences of characters.
pub enum ErrorView {
    NoUnifiedCgroup,
    MissingIoField(IoField),
    MissingStatusField(StatusField),
    NoRssLine,
    AbsoluteCgroupPath(Seq<char>),
    DotDotSegment(Seq<char>),
    BothTreeModes,
    NoTreeMode,
    PidNotFound(u32),
    Reading { path: Seq<char>, cause: Seq<char> },
    ReadingProcRoot { path: Seq<char>, cause: Seq<char> },
    ReadingFile { file: ProcFile, pid: u32, cause: Seq<char> },
    ParsingStatus { pid: u32, field: StatusField },
    ProcRootWithoutPath,
    UnknownArgument(Seq<char>),
}

impl View for Error {
    type V = ErrorView;

    open spec fn view(&self) -> ErrorView {
        match *self {
            Error::NoUnifiedCgroup => ErrorView::NoUnifiedCgroup,
            Error::MissingIoField(field) => ErrorView::MissingIoField(field),
            Error::MissingStatusField(field) => ErrorView::MissingStatusField(field),
            Error::NoRssLine => ErrorView::NoRssLine,
            Error::AbsoluteCgroupPath(path) => ErrorView::AbsoluteCgroupPath(path@),
            Error::DotDotSegment(path) => ErrorView::DotDotSegment(path@),
            Error::BothTreeModes => ErrorView::BothTreeModes,
            Error::NoTreeMode => ErrorView::NoTreeMode,
            Error::PidNotFound(pid) => ErrorView::PidNotFound(pid),
            Error::Reading { path, cause } => ErrorView::Reading { path: path@, cause: cause@ },
            Error::ReadingProcRoot { path, cause } => ErrorView::ReadingProcRoot {
                path: path@,
                cause: cause@,
            },
            Error::ReadingFile { file, pid, cause } => ErrorView::ReadingFile {
                file,
                pid,
                cause: cause@,
            },
            Error::ParsingStatus { pid, field } => ErrorView::ParsingStatus { pid, field },
            Error::ProcRootWithoutPath => ErrorView::ProcRootWithoutPath,
            Error::UnknownArgument(arg) => ErrorView::UnknownArgument(arg@),
        }
    }
}

/// An outcome with its error taken by its view.
pub open spec fn told<T>(r: Result<T, Error>) -> Result<T, ErrorView> {
    match r {
        Ok(v) => Ok(v),
        Err(e) => Err(e@),
    }
}

/// An outcome with its value and its error taken by their views.
pub open spec fn viewed<T: View>(r: Result<T, Error>) -> Result<T::V, ErrorView> {
    match r {
        Ok(v) => Ok(v@),
        Err(e) => Err(e@),
    }
}

/// A text in quotes with its special characters escaped, as `{:?}` writes it.
pub uninterp spec fn debug_quoted(s: Seq<char>) -> Seq<char>;

/// `format!` with `{:?}` on a string: quotes and escapes it. What it writes is
/// a function of the string alone; the escaping itself is not spelled out here.
#[verifier::external_body]
fn quoted(s: &str) -> (r: String)
    ensures
        r@ == debug_quoted(s@),
{
    format!("{s:?}")
}

pub open spec fn io_field_message(field: IoField) -> Seq<char> {
    match field {
        IoField::ReadBytes => "missing read_bytes in /proc/<pid>/io"@,
        IoField::WriteBytes => "missing write_bytes"@,
        IoField::Syscr => "missing syscr"@,
        IoField::Syscw => "missing syscw"@,
    }
}

pub open spec fn status_field_message(field: StatusField) -> Seq<char> {
    match field {
        StatusField::State => "missing or unparseable `State:` line"@,
        StatusField::PPid => "missing or unparseable `PPid:` line"@,
        StatusField::Uid => "missing or unparseable `Uid:` line"@,
        StatusField::Threads => "missing or unparseable `Threads:` line"@,
    }
}

pub open spec fn reading_file_message(file: ProcFile, pid: u32) -> Seq<char> {
    let opening = match file {
        ProcFile::Comm => "reading comm for pid "@,
        ProcFile::Status => "reading status for pid "@,
        ProcFile::Cmdline => "reading cmdline for pid "@,
    };
    opening + digits_of(pid as nat)
}

pub open spec fn absolute_path_message(quoted_path: Seq<char>) -> Seq<char> {
    "cgroup_path must be relative (no leading `/`), got: "@ + quoted_path
}

pub open spec fn dotdot_message(quoted_path: Seq<char>) -> Seq<char> {
    "cgroup_path must not contain `..` segments: "@ + quoted_path
}

/// What went wrong, without the cause underneath.
pub open spec fn message(e: ErrorView) -> Seq<char> {
    match e {
        ErrorView::NoUnifiedCgroup => "no cgroup v2 entry (line starting with `0::`) found"@,
        ErrorView::MissingIoField(field) => io_field_message(field),
        ErrorView::MissingStatusField(field) => status_field_message(field),
        ErrorView::NoRssLine => "smaps_rollup parse: no Rss line found"@,
        ErrorView::AbsoluteCgroupPath(path) => absolute_path_message(debug_quoted(path)),
        ErrorView::DotDotSegment(path) => dotdot_message(debug_quoted(path)),
        ErrorView::BothTreeModes =>
        "provide exactly one of `root_pid` or `cgroup_path`, not both"@,
        ErrorView::NoTreeMode => "must provide one of `root_pid` or `cgroup_path`"@,
        ErrorView::PidNotFound(pid) => "pid "@ + digits_of(pid as nat) + " not found in /proc"@,
        ErrorView::Reading { path, cause } => "reading "@ + path,
        ErrorView::ReadingProcRoot { path, cause } => "reading proc root at "@ + path,
        ErrorView::ReadingFile { file, pid, cause } => reading_file_message(file, pid),
        ErrorView::ParsingStatus { pid, field } => "parsing status for pid "@ + digits_of(
            pid as nat,
        ),
        ErrorView::ProcRootWithoutPath => "--proc-root requires a path argument"@,
        ErrorView::UnknownArgument(arg) => "unknown argument: "@ + arg,
    }
}

/// The cause underneath, where there is one.
pub open spec fn cause(e: ErrorView) -> Option<Seq<char>> {
    match e {
        ErrorView::Reading { path, cause } => Some(cause),
        ErrorView::ReadingProcRoot { path, cause } => Some(cause),
        ErrorView::ReadingFile { file, pid, cause } => Some(cause),
        ErrorView::ParsingStatus { pid, field } => Some(status_field_message(field)),
        _ => None,
    }
}

/// What went wrong, with its cause after a colon.
pub open spec fn report(e: ErrorView) -> Seq<char> {
    match cause(e) {
        Some(c) => message(e) + ": "@ + c,
        None => message(e),
    }
}

fn io_field_text(field: IoField) -> (r: String)
    ensures
        r@ == io_field_message(field),
{
    match field {
        IoField::ReadBytes => "missing read_bytes in /proc/<pid>/io".to_owned(),
        IoField::WriteBytes => "missing write_bytes".to_owned(),
        IoField::Syscr => "missing syscr".to_owned(),
        IoField::Syscw => "missing syscw".to_owned(),
    }
}

fn status_field_text(field: StatusField) -> (r: String)
    ensures
        r@ == status_field_message(field),
{
    match field {
        StatusField::State => "missing or unparseable `State:` line".to_owned(),
        StatusField::PPid => "missing or unparseable `PPid:` line".to_owned(),
        StatusField::Uid => "missing or unparseable `Uid:` line".to_owned(),
        StatusField::Threads => "missing or unparseable `Threads:` line".to_owned(),
    }
}

/// The message for an absolute cgroup path, given the path in quotes.
pub fn absolute_path_text(quoted_path: &str) -> (r: String)
    ensures
        r@ == absolute_path_message(quoted_path@),
{
    "cgroup_path must be relative (no leading `/`), got: ".to_owned().concat(quoted_path)
}

/// The message for a cgroup path with a `..` segment, given the path in quotes.
pub fn dotdot_text(quoted_path: &str) -> (r: String)
    ensures
        r@ == dotdot_message(quoted_path@),
{
    "cgroup_path must not contain `..` segments: ".to_owned().concat(quoted_path)
}

impl Error {
    /// What went wrong, without the cause underneath.
    pub fn to_string(&self) -> (r: String)
        ensures
            r@ == message(self@),
    {
        match self {
            Error::NoUnifiedCgroup =>
            "no cgroup v2 entry (line starting with `0::`) found".to_owned(),
            Error::MissingIoField(field) => io_field_text(*field),
            Error::MissingStatusField(field) => status_field_text(*field),
            Error::NoRssLine => "smaps_rollup parse: no Rss line found".to_owned(),
            Error::AbsoluteCgroupPath(path) => absolute_path_text(quoted(path.as_str()).as_str()),
            Error::DotDotSegment(path) => dotdot_text(quoted(path.as_str()).as_str()),
            Error::BothTreeModes =>
            "provide exactly one of `root_pid` or `cgroup_path`, not both".to_owned(),
            Error::NoTreeMode => "must provide one of `root_pid` or `cgroup_path`".to_owned(),
            Error::PidNotFound(pid) => "pid ".to_owned().concat(decimal_of(*pid).as_str()).concat(
                " not found in /proc",
            ),
            Error::Reading { path, cause } => "reading ".to_owned().concat(path.as_str()),
            Error::ReadingProcRoot { path, cause } => "reading proc root at ".to_owned().concat(
                path.as_str(),
            ),
            Error::ReadingFile { file, pid, cause } => {
                let opening = match file {
                    ProcFile::Comm => "reading comm for pid ".to_owned(),
                    ProcFile::Status => "reading status for pid ".to_owned(),
                    ProcFile::Cmdline => "reading cmdline for pid ".to_owned(),
                };
                opening.concat(decimal_of(*pid).as_str())
            },
            Error::ParsingStatus { pid, field } => "parsing status for pid ".to_owned().concat(
                decimal_of(*pid).as_str(),
            ),
            Error::ProcRootWithoutPath => "--proc-root requires a path argument".to_owned(),
            Error::UnknownArgument(arg) => "unknown argument: ".to_owned().concat(arg.as_str()),
        }
    }

    /// What went wrong, with its cause after a colon.
    pub fn report(&self) -> (r: String)
        ensures
            r@ == report(self@),
    {
        let opening = self.to_string();
        match self {
            Error::Reading { path, cause } => opening.concat(": ").concat(cause.as_str()),
            Error::ReadingProcRoot { path, cause } => opening.concat(": ").concat(cause.as_str()),
            Error::ReadingFile { file, pid, cause } => opening.concat(": ").concat(cause.as_str()),
            Error::ParsingStatus { pid, field } => opening.concat(": ").concat(
                status_field_text(*field).as_str(),
            ),
            _ => opening,
        }
    }
}

/// Every message names what it is about: the path, the pid or the argument.
pub proof fn law_messages_name_what_they_are_about(
    path: Seq<char>,
    cause: Seq<char>,
    pid: u32,
    field: StatusField,
)
    ensures
        message(ErrorView::Reading { path, cause }) == "reading "@ + path,
        message(ErrorView::ReadingProcRoot { path, cause }) == "reading proc root at "@ + path,
        message(ErrorView::UnknownArgument(path)) == "unknown argument: "@ + path,
        message(ErrorView::AbsoluteCgroupPath(path))
            == "cgroup_path must be relative (no leading `/`), got: "@ + debug_quoted(path),
        message(ErrorView::DotDotSegment(path)) == "cgroup_path must not contain `..` segments: "@
            + debug_quoted(path),
        message(ErrorView::PidNotFound(pid)) == "pid "@ + digits_of(pid as nat)
            + " not found in /proc"@,
        message(ErrorView::ParsingStatus { pid, field }) == "parsing status for pid "@ + digits_of(
            pid as nat,
        ),
        message(ErrorView::ReadingFile { file: ProcFile::Comm, pid, cause })
            == "reading comm for pid "@ + digits_of(pid as nat),
        message(ErrorView::ReadingFile { file: ProcFile::Status, pid, cause })
            == "reading status for pid "@ + digits_of(pid as nat),
        message(ErrorView::ReadingFile { file: ProcFile::Cmdline, pid, cause })
            == "reading cmdline for pid "@ + digits_of(pid as nat),
{
}

/// A report is the message, and behind a colon the cause where there is one: what
/// the system said, or what is wrong with the status by itself.
pub proof fn law_reports_end_with_the_cause(
    e: ErrorView,
    path: Seq<char>,
    words: Seq<char>,
    file: ProcFile,
    pid: u32,
    field: StatusField,
)
    ensures
        e == (ErrorView::Reading { path, cause: words }) ==> report(e) == message(e) + ": "@
            + words,
        e == (ErrorView::ReadingProcRoot { path, cause: words }) ==> report(e) == message(e)
            + ": "@ + words,
        e == (ErrorView::ReadingFile { file, pid, cause: words }) ==> report(e) == message(e)
            + ": "@ + words,
        e == (ErrorView::ParsingStatus { pid, field }) ==> report(e) == message(e) + ": "@ + report(
            ErrorView::MissingStatusField(field),
        ),
        !(e is Reading) && !(e is ReadingProcRoot) && !(e is ReadingFile) && !(
        e is ParsingStatus) ==> report(e) == message(e),
{
}

} // verus!
