use process_mcp::collector::cgroup_link::{parse_cgroup_path, read_cgroup_path};
use process_mcp::collector::fd::count_fds;
use process_mcp::collector::io::{parse_io, read_io};
use process_mcp::collector::proc::{check_status, parse_status, read_process, ProcessFiles};
use process_mcp::collector::read::{FailureKind, ReadFailure};
use process_mcp::collector::smaps::{check_smaps_rollup, parse_smaps_rollup, read_smaps_rollup};
use process_mcp::collector::walk::{parse_pid, walk_processes, DirEntry};
use process_mcp::error::Error;

fn failure(kind: FailureKind) -> ReadFailure {
    ReadFailure {
        kind,
        cause: String::from("no luck"),
    }
}

// ---- cgroup ----

#[test]
fn parses_v2_unified_line() {
    let s = "0::/system.slice/nginx.service\n";
    assert_eq!(parse_cgroup_path(s).unwrap(), "system.slice/nginx.service");
}

#[test]
fn root_cgroup_normalizes_to_empty_string() {
    assert_eq!(parse_cgroup_path("0::/\n").unwrap(), "");
}

#[test]
fn picks_v2_line_among_v1_legacy_lines() {
    let s = "12:freezer:/\n11:cpu,cpuacct:/foo\n0::/system.slice/nginx.service\n";
    assert_eq!(parse_cgroup_path(s).unwrap(), "system.slice/nginx.service");
}

#[test]
fn fails_when_no_v2_line_present() {
    let err = parse_cgroup_path("11:cpu,cpuacct:/foo\n").unwrap_err();
    assert!(err.to_string().contains("0::"), "got: {}", err.to_string());
}

#[test]
fn handles_nested_paths_with_escaped_systemd_names() {
    // systemd escapes hyphens in unit names as \x2d
    let s = "0::/system.slice/system-systemd\\x2dcoredump.slice/foo.service\n";
    assert_eq!(
        parse_cgroup_path(s).unwrap(),
        "system.slice/system-systemd\\x2dcoredump.slice/foo.service"
    );
}

#[test]
fn cgroup_line_loses_one_slash_only() {
    assert_eq!(parse_cgroup_path("0:://a\n").unwrap(), "/a");
    assert_eq!(parse_cgroup_path("0::a").unwrap(), "a");
}

#[test]
fn first_unified_line_counts() {
    assert_eq!(parse_cgroup_path("0::/a\n0::/b\n").unwrap(), "a");
    assert_eq!(parse_cgroup_path("0::/a\r\n").unwrap(), "a");
}

#[test]
fn cgroup_file_that_cannot_be_read_is_an_error() {
    let err = read_cgroup_path("/proc/7/cgroup", Err(failure(FailureKind::NotFound))).unwrap_err();
    assert!(matches!(err, Error::Reading { .. }));
    assert_eq!(err.to_string(), "reading /proc/7/cgroup");
    assert_eq!(err.report(), "reading /proc/7/cgroup: no luck");
    let path = read_cgroup_path("/proc/7/cgroup", Ok(String::from("0::/x\n")));
    assert_eq!(path.unwrap(), "x");
}

// ---- fd ----

#[test]
fn counts_entries_in_fd_dir() {
    let entries = vec![true, true, true, true, true];
    assert_eq!(count_fds("fd", Ok(entries)).unwrap(), Some(5));
}

#[test]
fn returns_none_when_fd_dir_missing() {
    assert_eq!(
        count_fds("fd", Err(failure(FailureKind::NotFound))).unwrap(),
        None
    );
}

#[test]
fn returns_zero_for_empty_fd_dir() {
    assert_eq!(count_fds("fd", Ok(vec![])).unwrap(), Some(0));
}

#[test]
fn unreadable_fd_entries_are_left_out() {
    assert_eq!(
        count_fds("fd", Ok(vec![true, false, true])).unwrap(),
        Some(2)
    );
}

#[test]
fn fd_dir_closed_to_us_is_none_and_other_failures_are_errors() {
    assert_eq!(
        count_fds("fd", Err(failure(FailureKind::PermissionDenied))).unwrap(),
        None
    );
    let err = count_fds("/proc/1/fd", Err(failure(FailureKind::Other))).unwrap_err();
    assert_eq!(err.report(), "reading /proc/1/fd: no luck");
}

// ---- io ----

const IO_SAMPLE: &str = "rchar: 4428
wchar: 8
syscr: 8
syscw: 1
read_bytes: 1048576
write_bytes: 2048
cancelled_write_bytes: 0
";

#[test]
fn parses_realistic_io_file() {
    let io = parse_io(IO_SAMPLE).unwrap();
    assert_eq!(io.read_bytes, 1_048_576);
    assert_eq!(io.write_bytes, 2_048);
    assert_eq!(io.read_syscalls, 8);
    assert_eq!(io.write_syscalls, 1);
}

#[test]
fn fails_on_missing_required_field() {
    let s = "rchar: 1\nwchar: 1\n"; // no read_bytes etc.
    assert!(parse_io(s).is_err());
}

#[test]
fn ignores_unknown_lines() {
    let s = "read_bytes: 0\nwrite_bytes: 0\nsyscr: 0\nsyscw: 0\nfuture_field: 999\n";
    let io = parse_io(s).unwrap();
    assert_eq!(io.read_bytes, 0);
}

#[test]
fn io_errors_name_the_first_missing_counter() {
    let told = |s: &str| parse_io(s).unwrap_err().to_string();
    assert_eq!(told(""), "missing read_bytes in /proc/<pid>/io");
    assert_eq!(told("read_bytes: 1\n"), "missing write_bytes");
    assert_eq!(told("read_bytes: 1\nwrite_bytes: 1\n"), "missing syscr");
    assert_eq!(
        told("read_bytes: 1\nwrite_bytes: 1\nsyscr: 1\n"),
        "missing syscw"
    );
}

#[test]
fn last_readable_io_line_counts() {
    let s = "read_bytes: 1\nread_bytes: 2\nread_bytes: x\nwrite_bytes: 3\nsyscr: +4\nsyscw: 5";
    let io = parse_io(s).unwrap();
    assert_eq!(io.read_bytes, 2);
    assert_eq!(io.read_syscalls, 4);
    assert_eq!(io.write_syscalls, 5);
}

#[test]
fn gated_io_is_none_and_other_failures_are_errors() {
    assert_eq!(
        read_io("io", Err(failure(FailureKind::PermissionDenied))).unwrap(),
        None
    );
    assert_eq!(
        read_io("io", Err(failure(FailureKind::NotFound))).unwrap(),
        None
    );
    assert!(read_io("io", Err(failure(FailureKind::Other))).is_err());
    assert!(read_io("io", Ok(String::from("junk"))).is_err());
    let io = read_io("io", Ok(String::from(IO_SAMPLE))).unwrap().unwrap();
    assert_eq!(io.write_bytes, 2048);
}

// ---- status ----

#[test]
fn parses_typical_user_process_status() {
    let s = "Name:\tnginx\nUmask:\t0022\nState:\tS (sleeping)\nTgid:\t1234\nPid:\t1234\nPPid:\t1\nUid:\t1000\t1000\t1000\t1000\nThreads:\t4\nVmRSS:\t  10240 kB\n";
    let f = parse_status(s).unwrap();
    assert_eq!(f.state, 'S');
    assert_eq!(f.ppid, 1);
    assert_eq!(f.uid, 1000);
    assert_eq!(f.num_threads, 4);
    assert_eq!(f.rss_bytes, Some(10 * 1024 * 1024));
}

#[test]
fn kernel_thread_has_no_vmrss() {
    // kthreadd-style: no VmRSS line at all, but still has the others.
    let s = "Name:\tkthreadd\nState:\tS (sleeping)\nPPid:\t0\nUid:\t0\t0\t0\t0\nThreads:\t1\n";
    let f = parse_status(s).unwrap();
    assert_eq!(f.state, 'S');
    assert_eq!(f.ppid, 0);
    assert_eq!(f.uid, 0);
    assert_eq!(f.num_threads, 1);
    assert!(f.rss_bytes.is_none());
}

#[test]
fn rejects_status_missing_state() {
    let s = "Name:\tfoo\nPPid:\t1\nUid:\t0\t0\t0\t0\nThreads:\t1\n";
    assert!(parse_status(s).is_err());
}

#[test]
fn rejects_status_missing_ppid() {
    let s = "State:\tS (sleeping)\nUid:\t0\t0\t0\t0\nThreads:\t1\n";
    assert!(parse_status(s).is_err());
}

#[test]
fn rejects_status_missing_uid() {
    let s = "State:\tS (sleeping)\nPPid:\t1\nThreads:\t1\n";
    assert!(parse_status(s).is_err());
}

#[test]
fn rejects_status_missing_threads() {
    let s = "State:\tS (sleeping)\nPPid:\t1\nUid:\t0\t0\t0\t0\n";
    assert!(parse_status(s).is_err());
}

#[test]
fn vmrss_with_extra_whitespace_still_parses() {
    let s = "State:\tR (running)\nPPid:\t1\nUid:\t0\t0\t0\t0\nThreads:\t1\nVmRSS:\t       42 kB\n";
    let f = parse_status(s).unwrap();
    assert_eq!(f.rss_bytes, Some(42 * 1024));
}

#[test]
fn uid_picks_real_not_effective() {
    // real=1000, effective=0 (setuid binary)
    let s = "State:\tR\nPPid:\t1\nUid:\t1000\t0\t1000\t0\nThreads:\t1\n";
    let f = parse_status(s).unwrap();
    assert_eq!(f.uid, 1000);
}

#[test]
fn status_errors_name_the_first_missing_line() {
    let told = |s: &str| parse_status(s).unwrap_err().to_string();
    assert_eq!(told(""), "missing or unparseable `State:` line");
    assert_eq!(told("State:\tR\n"), "missing or unparseable `PPid:` line");
    assert_eq!(
        told("State:\tR\nPPid:\t1\n"),
        "missing or unparseable `Uid:` line"
    );
    assert_eq!(
        told("State:\tR\nPPid:\t1\nUid:\t0\n"),
        "missing or unparseable `Threads:` line"
    );
}

#[test]
fn last_status_line_counts_even_where_it_cannot_be_read() {
    let s = "State:\tR\nPPid:\t1\nPPid:\tx\nUid:\t0\nThreads:\t1\n";
    assert_eq!(
        parse_status(s).unwrap_err().to_string(),
        "missing or unparseable `PPid:` line"
    );
}

#[test]
fn other_status_lines_do_not_matter() {
    let s = "State:\tR\nPPid:\t1\nUid:\t0\nThreads:\t1\nVmRSS:\t7 kB\n";
    let more = "Name:\tx\nState:\tR\nPPid:\t1\nVmRSSx:\t9 kB\nUid:\t0\nThreads:\t1\nVmRSS:\t7 kB\n Threads:\t5\n";
    assert_eq!(parse_status(s).unwrap(), parse_status(more).unwrap());
}

#[test]
fn sizes_beyond_64_bits_are_noticed() {
    let rest = "State:\tR\nPPid:\t1\nUid:\t0\nThreads:\t1\n";
    let largest = u64::MAX / 1024;
    assert!(check_status(&format!("{rest}VmRSS:\t{largest} kB\n")));
    assert!(!check_status(&format!("{rest}VmRSS:\t{} kB\n", largest + 1)));
    assert!(check_status(&format!("VmRSS:\t{} kB\n", largest + 1)));
    assert!(check_smaps_rollup(&format!("Rss: {largest} kB\n")));
    assert!(!check_smaps_rollup(&format!("Rss: {} kB\n", largest + 1)));
    assert!(!check_smaps_rollup(&format!(
        "Rss: 1 kB\nShared_Clean: {largest} kB\nShared_Dirty: 1 kB\n"
    )));
    assert!(check_smaps_rollup(&format!("Pss: {} kB\n", largest + 1)));
}

// ---- smaps_rollup ----

const SMAPS_SAMPLE: &str =
    "55e682908000-7ffd6aff2000 ---p 00000000 00:00 0                          [rollup]
Rss:                3828 kB
Pss:                 158 kB
Pss_Dirty:           104 kB
Pss_Anon:            104 kB
Pss_File:             54 kB
Pss_Shmem:             0 kB
Shared_Clean:       3724 kB
Shared_Dirty:          0 kB
Private_Clean:         0 kB
Private_Dirty:       104 kB
Referenced:         3828 kB
Anonymous:           104 kB
KSM:                   0 kB
LazyFree:              0 kB
AnonHugePages:         0 kB
ShmemPmdMapped:        0 kB
FilePmdMapped:         0 kB
Shared_Hugetlb:        0 kB
Private_Hugetlb:       0 kB
Swap:                  0 kB
SwapPss:               0 kB
Locked:                0 kB
";

#[test]
fn parses_realistic_smaps_rollup() {
    let m = parse_smaps_rollup(SMAPS_SAMPLE).unwrap();
    assert_eq!(m.rss_bytes, 3828 * 1024);
    assert_eq!(m.pss_bytes, 158 * 1024);
    assert_eq!(m.shared_bytes, 3724 * 1024); // Shared_Clean + Shared_Dirty
    assert_eq!(m.private_bytes, 104 * 1024); // Private_Clean + Private_Dirty
    assert_eq!(m.anon_bytes, 104 * 1024);
    assert_eq!(m.swap_bytes, 0);
}

#[test]
fn parses_with_swap_used() {
    let s = "Rss:    1024 kB\nPss:    512 kB\nShared_Clean: 0 kB\nShared_Dirty: 0 kB\nPrivate_Clean: 0 kB\nPrivate_Dirty: 1024 kB\nAnonymous: 1024 kB\nSwap: 256 kB\n";
    let m = parse_smaps_rollup(s).unwrap();
    assert_eq!(m.swap_bytes, 256 * 1024);
}

#[test]
fn rejects_malformed_without_rss() {
    let s = "Pss: 100 kB\nAnonymous: 50 kB\n";
    assert!(parse_smaps_rollup(s).is_err());
}

#[test]
fn ignores_unknown_keys_forward_compat() {
    // Future kernels might add lines we don't know about. Don't break.
    let s = "Rss: 100 kB\nNewKernelField: 42 kB\nPss: 50 kB\n";
    let m = parse_smaps_rollup(s).unwrap();
    assert_eq!(m.rss_bytes, 100 * 1024);
    assert_eq!(m.pss_bytes, 50 * 1024);
}

#[test]
fn sums_shared_and_private_pages() {
    let s = "Rss: 1 kB\nShared_Clean: 2 kB\nShared_Dirty: 3 kB\nPrivate_Clean: 4 kB\nPrivate_Dirty: 5 kB\n";
    let m = parse_smaps_rollup(s).unwrap();
    assert_eq!(m.shared_bytes, 5 * 1024);
    assert_eq!(m.private_bytes, 9 * 1024);
}

#[test]
fn gated_smaps_is_none_and_other_failures_are_errors() {
    assert_eq!(
        read_smaps_rollup("s", Err(failure(FailureKind::NotFound))).unwrap(),
        None
    );
    assert_eq!(
        read_smaps_rollup("s", Err(failure(FailureKind::PermissionDenied))).unwrap(),
        None
    );
    let err = read_smaps_rollup("s", Err(failure(FailureKind::Other))).unwrap_err();
    assert_eq!(err.report(), "reading s: no luck");
    let err = read_smaps_rollup("s", Ok(String::from("Pss: 1 kB\n"))).unwrap_err();
    assert_eq!(err.to_string(), "smaps_rollup parse: no Rss line found");
    let m = read_smaps_rollup("s", Ok(String::from(SMAPS_SAMPLE)));
    assert_eq!(m.unwrap().unwrap().rss_bytes, 3828 * 1024);
}

// ---- one process ----

const STATUS: &str = "State:\tS (sleeping)\nPPid:\t1\nUid:\t33\t33\t33\t33\nThreads:\t2\n";

fn files() -> ProcessFiles {
    ProcessFiles {
        cgroup_file: String::from("/proc/7/cgroup"),
        cgroup: Ok(String::from("0::/a.slice\n")),
        comm: Ok(String::from("nginx\n")),
        status: Ok(String::from(STATUS)),
        cmdline: Ok(String::from("nginx\0-g\0")),
    }
}

#[test]
fn a_process_is_put_together_from_its_files() {
    assert!(files().check());
    let p = read_process(7, files()).unwrap();
    assert_eq!(p.pid, 7);
    assert_eq!(p.comm, "nginx");
    assert_eq!(p.cmdline_raw, "nginx\0-g\0");
    assert_eq!(p.state, 'S');
    assert_eq!(p.ppid, 1);
    assert_eq!(p.uid, 33);
    assert_eq!(p.num_threads, 2);
    assert_eq!(p.rss_bytes, None);
    assert_eq!(p.cgroup_path, "a.slice");
    let copy = p.clone();
    assert_eq!(copy.comm, p.comm);
    assert_eq!(copy.cgroup_path, "a.slice");
}

#[test]
fn the_first_file_that_fails_is_told() {
    let mut f = files();
    f.cgroup = Err(failure(FailureKind::NotFound));
    f.comm = Err(failure(FailureKind::NotFound));
    assert_eq!(
        read_process(7, f).unwrap_err().report(),
        "reading /proc/7/cgroup: no luck"
    );
    let mut f = files();
    f.comm = Err(failure(FailureKind::NotFound));
    f.status = Err(failure(FailureKind::NotFound));
    assert_eq!(
        read_process(7, f).unwrap_err().report(),
        "reading comm for pid 7: no luck"
    );
    let mut f = files();
    f.status = Err(failure(FailureKind::NotFound));
    assert_eq!(
        read_process(70, f).unwrap_err().report(),
        "reading status for pid 70: no luck"
    );
    let mut f = files();
    f.status = Ok(String::new());
    f.cmdline = Err(failure(FailureKind::NotFound));
    let err = read_process(7, f).unwrap_err();
    assert_eq!(err.to_string(), "parsing status for pid 7");
    assert_eq!(
        err.report(),
        "parsing status for pid 7: missing or unparseable `State:` line"
    );
    let mut f = files();
    f.cmdline = Err(failure(FailureKind::Other));
    assert_eq!(
        read_process(4294967295, f).unwrap_err().report(),
        "reading cmdline for pid 4294967295: no luck"
    );
}

#[test]
fn a_process_with_too_large_a_size_is_noticed() {
    let mut f = files();
    f.status = Ok(format!("{STATUS}VmRSS:\t{} kB\n", u64::MAX));
    assert!(!f.check());
    f.comm = Err(failure(FailureKind::NotFound));
    assert!(f.check());
}

// ---- the walk ----

#[test]
fn only_numbers_are_pids() {
    assert_eq!(parse_pid("1"), Some(1));
    assert_eq!(parse_pid("+007"), Some(7));
    assert_eq!(parse_pid("4294967295"), Some(u32::MAX));
    assert_eq!(parse_pid("4294967296"), None);
    assert_eq!(parse_pid("-1"), None);
    assert_eq!(parse_pid("+"), None);
    assert_eq!(parse_pid(""), None);
    assert_eq!(parse_pid("cpuinfo"), None);
    assert_eq!(parse_pid("12a"), None);
    assert_eq!(parse_pid(" 1"), None);
}

#[test]
fn the_walk_keeps_counts_and_passes_over() {
    let mut broken = files();
    broken.comm = Err(failure(FailureKind::NotFound));
    let entry = |name: &str, files: ProcessFiles| DirEntry::Named {
        name: Some(String::from(name)),
        files,
    };
    let listing = vec![
        entry("7", files()),
        DirEntry::Unreadable,
        entry("self", files()),
        DirEntry::Named {
            name: None,
            files: files(),
        },
        entry("8", broken),
        entry("9", files()),
    ];
    let walk = walk_processes("/proc", Ok(listing), |s| s.pid != 7).unwrap();
    assert_eq!(walk.skipped, 2);
    assert_eq!(walk.processes.len(), 1);
    assert_eq!(walk.processes[0].pid, 9);
}

#[test]
fn an_unreadable_entry_is_counted_and_no_more() {
    let entry = || DirEntry::Named {
        name: Some(String::from("7")),
        files: files(),
    };
    let one = walk_processes("/proc", Ok(vec![entry()]), |_| true).unwrap();
    let two = walk_processes("/proc", Ok(vec![DirEntry::Unreadable, entry()]), |_| true).unwrap();
    assert_eq!((one.skipped, two.skipped), (0, 1));
    assert_eq!(one.processes.len(), two.processes.len());
    assert_eq!(one.processes[0].comm, two.processes[0].comm);
}

#[test]
fn a_walk_over_a_root_that_cannot_be_read_fails() {
    let r = walk_processes("/nowhere", Err(failure(FailureKind::NotFound)), |_| true);
    let err = r.err().unwrap();
    assert_eq!(err.to_string(), "reading proc root at /nowhere");
    assert_eq!(err.report(), "reading proc root at /nowhere: no luck");
}
