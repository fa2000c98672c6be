use process_mcp::args::{parse_args, Invocation};
use process_mcp::collector::proc::ProcessFiles;
use process_mcp::collector::read::{FailureKind, ReadFailure};
use process_mcp::collector::walk::{check_listing, DirEntry};
use process_mcp::error::Error;
use process_mcp::mcp::tools::pids_in_cgroup;
use process_mcp::mcp::tools::pids_in_cgroup::PidsInCgroupParams;
use process_mcp::mcp::tools::process_info;
use process_mcp::mcp::tools::process_info::{ProcessInfoFiles, ProcessInfoParams};
use process_mcp::mcp::tools::process_tree;
use process_mcp::mcp::tools::process_tree::{ProcessTreeParams, ProcessTreeResponse, TreeNode};
use process_mcp::mcp::tools::top_processes;
use process_mcp::mcp::tools::top_processes::TopProcessesParams;

type Listing = Result<Vec<DirEntry>, ReadFailure>;

fn failure(kind: FailureKind) -> ReadFailure {
    ReadFailure {
        kind,
        cause: String::from("no luck"),
    }
}

/// One process, as a `/proc/<pid>` directory of its files.
struct ProcSpec {
    comm: &'static str,
    /// The arguments; NULs are put between and behind them.
    cmdline: Vec<&'static str>,
    state: char,
    ppid: u32,
    /// `None` means no `VmRSS:` line, as for a kernel thread.
    rss_kb: Option<u64>,
    /// Without the leading slash; written as `0::/<value>`.
    cgroup: &'static str,
}

fn synthetic_files(pid: u32, spec: &ProcSpec) -> ProcessFiles {
    let mut status = format!(
        "Name:\t{}\nState:\t{} (running)\nPPid:\t{}\nUid:\t0\t0\t0\t0\nThreads:\t1\n",
        spec.comm, spec.state, spec.ppid
    );
    if let Some(kb) = spec.rss_kb {
        status.push_str(&format!("VmRSS:\t{kb} kB\n"));
    }
    let cmdline = if spec.cmdline.is_empty() {
        String::new()
    } else {
        format!("{}\0", spec.cmdline.join("\0"))
    };
    ProcessFiles {
        cgroup_file: format!("/proc/{pid}/cgroup"),
        cgroup: Ok(format!("0::/{}\n", spec.cgroup)),
        comm: Ok(format!("{}\n", spec.comm)),
        status: Ok(status),
        cmdline: Ok(cmdline),
    }
}

fn synthetic_entries(entries: &[(u32, ProcSpec)]) -> Vec<DirEntry> {
    entries
        .iter()
        .map(|(pid, spec)| DirEntry::Named {
            name: Some(format!("{pid}")),
            files: synthetic_files(*pid, spec),
        })
        .collect()
}

fn synthetic_proc_tree(entries: &[(u32, ProcSpec)]) -> Listing {
    Ok(synthetic_entries(entries))
}

/// An entry whose files are all missing.
fn bare_entry(name: &str) -> DirEntry {
    DirEntry::Named {
        name: Some(String::from(name)),
        files: ProcessFiles {
            cgroup_file: format!("/proc/{name}/cgroup"),
            cgroup: Err(failure(FailureKind::NotFound)),
            comm: Err(failure(FailureKind::NotFound)),
            status: Err(failure(FailureKind::NotFound)),
            cmdline: Err(failure(FailureKind::NotFound)),
        },
    }
}

fn nginx_worker() -> ProcSpec {
    ProcSpec {
        comm: "nginx",
        cmdline: vec!["nginx", "worker process"],
        state: 'S',
        ppid: 100,
        rss_kb: Some(10_240),
        cgroup: "system.slice/nginx.service",
    }
}

fn nginx_master() -> ProcSpec {
    ProcSpec {
        comm: "nginx",
        cmdline: vec!["nginx", "master process"],
        state: 'S',
        ppid: 1,
        rss_kb: Some(5_120),
        cgroup: "system.slice/nginx.service",
    }
}

fn unrelated_dbus() -> ProcSpec {
    ProcSpec {
        comm: "dbus-broker",
        cmdline: vec!["dbus-broker-launch"],
        state: 'S',
        ppid: 1,
        rss_kb: Some(2_048),
        cgroup: "system.slice/dbus-broker.service",
    }
}

fn leaky(cmdline: Vec<&'static str>) -> ProcSpec {
    ProcSpec {
        comm: "myapp",
        cmdline,
        state: 'R',
        ppid: 1,
        rss_kb: Some(1_024),
        cgroup: "system.slice/myapp.service",
    }
}

fn in_cgroup(path: &str, redact_args: Option<bool>) -> PidsInCgroupParams {
    PidsInCgroupParams {
        cgroup_path: String::from(path),
        redact_args,
    }
}

// ---- pids_in_cgroup ----

#[test]
fn pids_in_cgroup_filters_and_sorts_by_rss_desc() {
    let listing = synthetic_proc_tree(&[
        (100, nginx_master()),
        (101, nginx_worker()),
        (200, unrelated_dbus()),
    ]);
    let resp = pids_in_cgroup::run(
        "/proc",
        listing,
        in_cgroup("system.slice/nginx.service", None),
    )
    .unwrap();

    assert_eq!(resp.cgroup_path, "system.slice/nginx.service");
    assert_eq!(resp.skipped, 0);

    // Heaviest first; unrelated dbus excluded.
    let pids: Vec<u32> = resp.results.iter().map(|p| p.pid).collect();
    assert_eq!(pids, vec![101, 100]);
    assert_eq!(resp.results[0].rss_bytes, Some(10_240 * 1024));
    assert_eq!(resp.results[1].rss_bytes, Some(5_120 * 1024));
    assert_eq!(resp.results[0].comm, "nginx");
    assert_eq!(resp.results[0].state, "S");
    assert_eq!(resp.results[0].ppid, 100);
}

#[test]
fn pids_in_cgroup_returns_empty_for_unused_cgroup() {
    let listing = synthetic_proc_tree(&[(100, nginx_master())]);
    let resp = pids_in_cgroup::run(
        "/proc",
        listing,
        in_cgroup("user.slice/user-1000.slice/session-1.scope", None),
    )
    .unwrap();
    assert!(resp.results.is_empty());
    assert_eq!(resp.skipped, 0);
}

#[test]
fn pids_in_cgroup_handles_kernel_threads_with_null_rss() {
    let kthreadd = ProcSpec {
        comm: "kthreadd",
        cmdline: vec![], // kernel threads have empty cmdline
        state: 'I',
        ppid: 0,
        rss_kb: None, // no VmRSS line
        cgroup: "",   // root cgroup
    };
    let listing = synthetic_proc_tree(&[(2, kthreadd)]);
    let resp = pids_in_cgroup::run("/proc", listing, in_cgroup("", None)).unwrap();
    assert_eq!(resp.results.len(), 1);
    assert_eq!(resp.results[0].pid, 2);
    assert!(resp.results[0].rss_bytes.is_none());
    assert_eq!(resp.results[0].cmdline, "");
    assert_eq!(resp.results[0].state, "I");
}

#[test]
fn pids_in_cgroup_redacts_cmdline_args_by_default() {
    let listing = synthetic_proc_tree(&[(
        500,
        leaky(vec!["myapp", "--api-key=hunter2", "--port=8080"]),
    )]);
    let params = in_cgroup("system.slice/myapp.service", None);
    let resp = pids_in_cgroup::run("/proc", listing, params).unwrap();
    assert_eq!(
        resp.results[0].cmdline,
        "myapp --api-key=REDACTED --port=8080"
    );
}

#[test]
fn pids_in_cgroup_returns_verbatim_cmdline_when_redact_disabled() {
    let listing = synthetic_proc_tree(&[(500, leaky(vec!["myapp", "--api-key=hunter2"]))]);
    let params = in_cgroup("system.slice/myapp.service", Some(false));
    let resp = pids_in_cgroup::run("/proc", listing, params).unwrap();
    assert_eq!(resp.results[0].cmdline, "myapp --api-key=hunter2");
}

#[test]
fn pids_in_cgroup_rejects_absolute_path() {
    let err = pids_in_cgroup::run("/proc", Ok(vec![]), in_cgroup("/etc/passwd", None)).unwrap_err();
    assert!(err.report().contains("relative"), "got: {}", err.report());
}

#[test]
fn pids_in_cgroup_rejects_dotdot_traversal() {
    let params = in_cgroup("system.slice/..", None);
    let err = pids_in_cgroup::run("/proc", Ok(vec![]), params).unwrap_err();
    assert!(err.report().contains(".."), "got: {}", err.report());
}

#[test]
fn pids_in_cgroup_counts_skipped_for_unreadable_pid_dirs() {
    let mut entries = synthetic_entries(&[(100, nginx_master())]);
    entries.push(bare_entry("999"));
    let params = in_cgroup("system.slice/nginx.service", None);
    let resp = pids_in_cgroup::run("/proc", Ok(entries), params).unwrap();
    assert_eq!(resp.results.len(), 1);
    assert_eq!(resp.results[0].pid, 100);
    assert_eq!(resp.skipped, 1);
}

#[test]
fn pids_in_cgroup_ignores_non_numeric_proc_entries() {
    let mut entries = synthetic_entries(&[(100, nginx_master())]);
    entries.push(bare_entry("cpuinfo"));
    entries.push(bare_entry("sys"));
    entries.push(bare_entry("uptime"));
    let params = in_cgroup("system.slice/nginx.service", None);
    let resp = pids_in_cgroup::run("/proc", Ok(entries), params).unwrap();
    assert_eq!(resp.results.len(), 1);
    assert_eq!(resp.skipped, 0);
}

#[test]
fn pids_in_cgroup_tells_a_bad_path_before_a_bad_root() {
    let listing: Listing = Err(failure(FailureKind::NotFound));
    let err = pids_in_cgroup::run("/nowhere", listing, in_cgroup("/x", None)).unwrap_err();
    assert!(matches!(err, Error::AbsoluteCgroupPath(_)));
    let listing: Listing = Err(failure(FailureKind::NotFound));
    let err = pids_in_cgroup::run("/nowhere", listing, in_cgroup("x", None)).unwrap_err();
    assert_eq!(err.report(), "reading proc root at /nowhere: no luck");
}

// ---- top_processes ----

fn make_proc(comm: &'static str, rss_kb: Option<u64>, cgroup: &'static str) -> ProcSpec {
    ProcSpec {
        comm,
        cmdline: vec![comm],
        state: 'S',
        ppid: 1,
        rss_kb,
        cgroup,
    }
}

fn top(n: Option<usize>, prefix: Option<&str>) -> TopProcessesParams {
    TopProcessesParams {
        n,
        cgroup_prefix: prefix.map(String::from),
        redact_args: None,
    }
}

fn comms(results: &[process_mcp::mcp::process_entry::ProcessEntry]) -> Vec<&str> {
    results.iter().map(|p| p.comm.as_str()).collect()
}

fn four() -> Listing {
    synthetic_proc_tree(&[
        (10, make_proc("small", Some(1_024), "user.slice")),
        (
            11,
            make_proc("huge", Some(500_000), "system.slice/big.service"),
        ),
        (
            12,
            make_proc("medium", Some(50_000), "system.slice/mid.service"),
        ),
        (13, make_proc("tiny", Some(64), "system.slice/tiny.service")),
    ])
}

#[test]
fn top_processes_returns_top_n_by_rss_desc() {
    let resp = top_processes::run("/proc", four(), top(Some(3), None)).unwrap();
    assert_eq!(comms(&resp.results), vec!["huge", "medium", "small"]);
    assert_eq!(resp.results.len(), 3);
    assert!(resp.cgroup_prefix.is_none());
}

#[test]
fn top_processes_n_defaults_to_10() {
    // Build 12 processes; default n=10 should cap to 10.
    let entries: Vec<_> = (1..=12u32)
        .map(|i| {
            (
                100 + i,
                make_proc("p", Some(u64::from(i) * 1024), "user.slice"),
            )
        })
        .collect();
    let resp =
        top_processes::run("/proc", synthetic_proc_tree(&entries), top(None, None)).unwrap();
    assert_eq!(resp.results.len(), 10);
    // Top entry should be the largest (rss_kb = 12 * 1024).
    assert_eq!(resp.results[0].rss_bytes, Some(12 * 1024 * 1024));
}

#[test]
fn top_processes_n_larger_than_population_is_fine() {
    let listing = synthetic_proc_tree(&[(1, make_proc("only", Some(42), ""))]);
    let resp = top_processes::run("/proc", listing, top(Some(1000), None)).unwrap();
    assert_eq!(resp.results.len(), 1);
}

#[test]
fn top_processes_lists_none_where_none_is_asked_for() {
    let resp = top_processes::run("/proc", four(), top(Some(0), None)).unwrap();
    assert!(resp.results.is_empty());
    assert_eq!(resp.skipped, 0);
    let resp = top_processes::run("/proc", four(), top(Some(1), None)).unwrap();
    assert_eq!(comms(&resp.results), vec!["huge"]);
}

#[test]
fn top_processes_of_fewer_are_the_first_of_more() {
    let two = top_processes::run("/proc", four(), top(Some(2), None)).unwrap();
    let four = top_processes::run("/proc", four(), top(Some(4), None)).unwrap();
    assert_eq!(comms(&two.results), comms(&four.results)[..2]);
}

#[test]
fn top_processes_cgroup_prefix_matches_subtree_including_self() {
    let listing = synthetic_proc_tree(&[
        (100, make_proc("self", Some(10_000), "system.slice")),
        (
            101,
            make_proc("descendant", Some(5_000), "system.slice/nginx.service"),
        ),
        (
            102,
            make_proc("deep", Some(2_500), "system.slice/nested.slice/foo.service"),
        ),
        (200, make_proc("unrelated", Some(99_999), "user.slice")),
    ]);
    let resp = top_processes::run("/proc", listing, top(None, Some("system.slice"))).unwrap();
    assert_eq!(comms(&resp.results), vec!["self", "descendant", "deep"]);
    assert_eq!(resp.cgroup_prefix.as_deref(), Some("system.slice"));
}

#[test]
fn top_processes_cgroup_prefix_does_not_match_sibling_with_shared_string() {
    // The whole point of path-aware matching: `system.slice` must NOT
    // match `system.slice2/...` just because the string starts the same.
    let listing = synthetic_proc_tree(&[
        (
            100,
            make_proc("real", Some(1_000), "system.slice/foo.service"),
        ),
        (
            200,
            make_proc("imposter", Some(99_999), "system.slice2/bar.service"),
        ),
    ]);
    let resp = top_processes::run("/proc", listing, top(None, Some("system.slice"))).unwrap();
    assert_eq!(comms(&resp.results), vec!["real"]);
}

#[test]
fn top_processes_empty_cgroup_prefix_means_no_filter() {
    let listing = synthetic_proc_tree(&[
        (1, make_proc("a", Some(100), "system.slice")),
        (2, make_proc("b", Some(200), "user.slice")),
    ]);
    let resp = top_processes::run("/proc", listing, top(None, Some(""))).unwrap();
    assert_eq!(resp.results.len(), 2);
}

#[test]
fn top_processes_kernel_threads_with_null_rss_sort_last() {
    let kthreadd = ProcSpec {
        comm: "kthreadd",
        cmdline: vec![],
        state: 'I',
        ppid: 0,
        rss_kb: None,
        cgroup: "",
    };
    let listing = synthetic_proc_tree(&[
        (2, kthreadd),
        (100, make_proc("real", Some(1_000), "system.slice")),
    ]);
    let resp = top_processes::run("/proc", listing, top(None, None)).unwrap();
    assert_eq!(resp.results.len(), 2);
    assert_eq!(resp.results[0].comm, "real");
    assert!(resp.results[0].rss_bytes.is_some());
    assert_eq!(resp.results[1].comm, "kthreadd");
    assert!(resp.results[1].rss_bytes.is_none());
}

#[test]
fn top_processes_redacts_cmdline_args_by_default() {
    let listing = synthetic_proc_tree(&[(
        500,
        leaky(vec!["myapp", "--api-key=hunter2", "--port=8080"]),
    )]);
    let resp = top_processes::run("/proc", listing, top(None, None)).unwrap();
    assert_eq!(
        resp.results[0].cmdline,
        "myapp --api-key=REDACTED --port=8080"
    );
}

#[test]
fn top_processes_rejects_absolute_cgroup_prefix() {
    let params = top(None, Some("/system.slice"));
    let err = top_processes::run("/proc", Ok(vec![]), params).unwrap_err();
    assert!(err.report().contains("relative"));
}

#[test]
fn top_processes_rejects_dotdot_in_cgroup_prefix() {
    let params = top(None, Some("system.slice/.."));
    let err = top_processes::run("/proc", Ok(vec![]), params).unwrap_err();
    assert!(err.report().contains(".."));
}

#[test]
fn top_processes_counts_skipped_for_unreadable_pid_dirs() {
    let mut entries = synthetic_entries(&[(100, make_proc("real", Some(1_024), "system.slice"))]);
    entries.push(bare_entry("999")); // missing files
    let resp = top_processes::run("/proc", Ok(entries), top(None, None)).unwrap();
    assert_eq!(resp.results.len(), 1);
    assert_eq!(resp.skipped, 1);
}

// ---- process_info ----

fn info_files() -> ProcessInfoFiles {
    ProcessInfoFiles {
        files: synthetic_files(
            500,
            &leaky(vec!["myapp", "--api-key=hunter2"]),
        ),
        fd_dir: String::from("/proc/500/fd"),
        fds: Ok(vec![true, true, false]),
        smaps_file: String::from("/proc/500/smaps_rollup"),
        smaps: Ok(String::from("Rss: 8 kB\nPss: 4 kB\n")),
        io_file: String::from("/proc/500/io"),
        io: Ok(String::from(
            "read_bytes: 1\nwrite_bytes: 2\nsyscr: 3\nsyscw: 4\n",
        )),
    }
}

fn info(redact_args: Option<bool>) -> ProcessInfoParams {
    ProcessInfoParams {
        pid: 500,
        redact_args,
    }
}

#[test]
fn process_info_tells_all() {
    let resp = process_info::run(info_files(), info(None)).unwrap();
    assert_eq!(resp.base.pid, 500);
    assert_eq!(resp.base.cmdline, "myapp --api-key=REDACTED");
    assert_eq!(resp.base.cgroup_path, "system.slice/myapp.service");
    assert_eq!(resp.uid, 0);
    assert_eq!(resp.num_threads, 1);
    assert_eq!(resp.fd_count, Some(2));
    assert_eq!(resp.memory.unwrap().pss_bytes, 4096);
    assert_eq!(resp.io.unwrap().write_syscalls, 4);
    let resp = process_info::run(info_files(), info(Some(false))).unwrap();
    assert_eq!(resp.base.cmdline, "myapp --api-key=hunter2");
}

#[test]
fn process_info_leaves_gated_fields_empty() {
    let mut all = info_files();
    all.fds = Err(failure(FailureKind::PermissionDenied));
    all.smaps = Err(failure(FailureKind::NotFound));
    all.io = Err(failure(FailureKind::PermissionDenied));
    let resp = process_info::run(all, info(None)).unwrap();
    assert_eq!(resp.fd_count, None);
    assert_eq!(resp.memory, None);
    assert_eq!(resp.io, None);
}

#[test]
fn process_info_tells_the_first_failure() {
    let told = |all: ProcessInfoFiles| process_info::run(all, info(None)).unwrap_err().report();
    let mut all = info_files();
    all.io = Err(failure(FailureKind::Other));
    assert_eq!(told(all), "reading /proc/500/io: no luck");
    let mut all = info_files();
    all.smaps = Ok(String::new());
    all.io = Err(failure(FailureKind::Other));
    assert_eq!(told(all), "smaps_rollup parse: no Rss line found");
    let mut all = info_files();
    all.fds = Err(failure(FailureKind::Other));
    all.smaps = Ok(String::new());
    assert_eq!(told(all), "reading /proc/500/fd: no luck");
    let mut all = info_files();
    all.files.cgroup = Err(failure(FailureKind::NotFound));
    all.fds = Err(failure(FailureKind::Other));
    assert_eq!(told(all), "reading /proc/500/cgroup: no luck");
}

// ---- process_tree ----

fn child(ppid: u32, rss_kb: Option<u64>, cgroup: &'static str) -> ProcSpec {
    ProcSpec {
        comm: "p",
        cmdline: vec!["p", "token=1"],
        state: 'S',
        ppid,
        rss_kb,
        cgroup,
    }
}

fn tree(root_pid: Option<u32>, cgroup_path: Option<&str>) -> ProcessTreeParams {
    ProcessTreeParams {
        root_pid,
        cgroup_path: cgroup_path.map(String::from),
        redact_args: None,
    }
}

/// A tree as `pid(child child)`.
fn shape(node: &TreeNode) -> String {
    let children: Vec<String> = node.children.iter().map(shape).collect();
    if children.is_empty() {
        format!("{}", node.base.pid)
    } else {
        format!("{}({})", node.base.pid, children.join(" "))
    }
}

fn shapes(resp: &ProcessTreeResponse) -> Vec<String> {
    resp.forest.iter().map(shape).collect()
}

fn family() -> Vec<DirEntry> {
    synthetic_entries(&[
        (1, child(0, Some(10), "")),
        (2, child(1, Some(20), "a")),
        (3, child(1, Some(30), "a")),
        (4, child(2, None, "a")),
        (5, child(2, Some(1), "a")),
        (6, child(3, Some(1), "b")),
        (7, child(6, Some(1), "a")),
        (8, child(99, Some(1), "a")),
    ])
}

#[test]
fn process_tree_nests_every_descendant() {
    let resp = process_tree::run("/proc", Ok(family()), tree(Some(1), None)).unwrap();
    assert_eq!(shapes(&resp), vec!["1(3(6(7)) 2(5 4))"]);
    assert_eq!(resp.root_pid, Some(1));
    assert_eq!(resp.cgroup_path, None);
    assert_eq!(resp.skipped, 0);
    assert_eq!(resp.forest[0].base.cmdline, "p token=REDACTED");
    let resp = process_tree::run("/proc", Ok(family()), tree(Some(2), None)).unwrap();
    assert_eq!(shapes(&resp), vec!["2(5 4)"]);
    let resp = process_tree::run("/proc", Ok(family()), tree(Some(7), None)).unwrap();
    assert_eq!(shapes(&resp), vec!["7"]);
}

#[test]
fn process_tree_of_a_cgroup_starts_where_parents_are_outside() {
    let resp = process_tree::run("/proc", Ok(family()), tree(None, Some("a"))).unwrap();
    assert_eq!(shapes(&resp), vec!["2(5 4)", "3", "7", "8"]);
    assert_eq!(resp.root_pid, None);
    assert_eq!(resp.cgroup_path.as_deref(), Some("a"));
    let resp = process_tree::run("/proc", Ok(family()), tree(None, Some("c"))).unwrap();
    assert!(resp.forest.is_empty());
}

#[test]
fn process_tree_orders_roots_by_pid() {
    let entries = synthetic_entries(&[
        (30, child(1, Some(3), "a")),
        (10, child(1, Some(1), "a")),
        (20, child(1, Some(2), "a")),
    ]);
    let resp = process_tree::run("/proc", Ok(entries), tree(None, Some("a"))).unwrap();
    assert_eq!(shapes(&resp), vec!["10", "20", "30"]);
}

#[test]
fn process_tree_survives_rings_of_parents() {
    let ring = || {
        synthetic_entries(&[
            (1, child(3, Some(1), "a")),
            (2, child(1, Some(1), "a")),
            (3, child(2, Some(1), "a")),
            (4, child(4, Some(1), "a")),
            (5, child(4, Some(1), "a")),
        ])
    };
    let resp = process_tree::run("/proc", Ok(ring()), tree(Some(2), None)).unwrap();
    assert_eq!(shapes(&resp), vec!["2(3(1))"]);
    let resp = process_tree::run("/proc", Ok(ring()), tree(Some(4), None)).unwrap();
    assert_eq!(shapes(&resp), vec!["4(5)"]);
}

#[test]
fn process_tree_of_a_cgroup_holds_rings_of_parents() {
    // One process that names itself as its parent.
    let entries = synthetic_entries(&[(5, child(5, None, "a"))]);
    let resp = process_tree::run("/proc", Ok(entries), tree(None, Some("a"))).unwrap();
    assert_eq!(shapes(&resp), vec!["5"]);

    // Rings with processes below them, beside an ordinary tree.
    let entries = synthetic_entries(&[
        (9, child(8, Some(1), "a")),
        (8, child(7, Some(1), "a")),
        (7, child(9, Some(1), "a")),
        (2, child(8, Some(2), "a")),
        (4, child(4, Some(1), "a")),
        (5, child(4, Some(1), "a")),
        (3, child(1, Some(1), "a")),
        (6, child(3, Some(1), "a")),
    ]);
    let resp = process_tree::run("/proc", Ok(entries), tree(None, Some("a"))).unwrap();
    assert_eq!(shapes(&resp), vec!["3(6)", "4(5)", "7(8(2 9))"]);

    // A ring that runs through another cgroup is none inside this one.
    let entries = synthetic_entries(&[
        (1, child(2, Some(1), "a")),
        (2, child(1, Some(1), "b")),
        (3, child(1, Some(1), "a")),
    ]);
    let resp = process_tree::run("/proc", Ok(entries), tree(None, Some("a"))).unwrap();
    assert_eq!(shapes(&resp), vec!["1(3)"]);
}

#[test]
fn process_tree_lists_equal_siblings_in_the_order_of_the_listing() {
    let listing = || {
        synthetic_entries(&[
            (9, child(1, Some(5), "a")),
            (3, child(1, Some(5), "a")),
            (7, child(1, None, "a")),
            (8, child(1, Some(6), "a")),
            (2, child(1, None, "a")),
            (1, child(0, Some(1), "b")),
            (5, child(1, Some(5), "a")),
        ])
    };
    for _ in 0..5 {
        let resp = process_tree::run("/proc", Ok(listing()), tree(Some(1), None)).unwrap();
        assert_eq!(shapes(&resp), vec!["1(8 9 3 5 7 2)"]);
    }
}

#[test]
fn process_tree_takes_the_later_of_two_with_one_pid() {
    let mut entries = synthetic_entries(&[(1, child(0, Some(1), "a")), (2, child(0, Some(1), "a"))]);
    entries.push(DirEntry::Named {
        name: Some(String::from("+2")),
        files: synthetic_files(2, &child(1, Some(9), "a")),
    });
    let resp = process_tree::run("/proc", Ok(entries), tree(Some(1), None)).unwrap();
    assert_eq!(shapes(&resp), vec!["1(2)"]);
    assert_eq!(resp.forest[0].children[0].base.rss_bytes, Some(9 * 1024));
}

#[test]
fn process_tree_wants_one_mode() {
    let told = |params: ProcessTreeParams| {
        process_tree::run("/proc", Ok(family()), params)
            .unwrap_err()
            .report()
    };
    assert_eq!(
        told(tree(Some(1), Some("a"))),
        "provide exactly one of `root_pid` or `cgroup_path`, not both"
    );
    assert_eq!(
        told(tree(None, None)),
        "must provide one of `root_pid` or `cgroup_path`"
    );
    assert_eq!(told(tree(Some(999), None)), "pid 999 not found in /proc");
    assert!(told(tree(None, Some("/a"))).contains("relative"));
    let listing: Listing = Err(failure(FailureKind::Other));
    let err = process_tree::run("/x", listing, tree(Some(1), None)).unwrap_err();
    assert_eq!(err.report(), "reading proc root at /x: no luck");
}

#[test]
fn process_tree_counts_what_it_skips() {
    let mut entries = family();
    entries.push(bare_entry("999"));
    entries.push(DirEntry::Unreadable);
    let resp = process_tree::run("/proc", Ok(entries), tree(Some(7), None)).unwrap();
    assert_eq!(resp.skipped, 2);
}

#[test]
fn a_shown_cgroup_path_leads_back_to_the_process() {
    let all = top_processes::run("/proc", four(), top(None, None)).unwrap();
    for entry in all.results {
        let again = pids_in_cgroup::run("/proc", four(), in_cgroup(&entry.cgroup_path, None));
        let pids: Vec<u32> = again.unwrap().results.iter().map(|p| p.pid).collect();
        assert!(pids.contains(&entry.pid));
    }
}

#[test]
fn the_processes_of_a_cgroup_count_under_it() {
    let path = "system.slice/nginx.service";
    let listing = || {
        synthetic_proc_tree(&[
            (100, nginx_master()),
            (101, nginx_worker()),
            (200, unrelated_dbus()),
        ])
    };
    let inside = pids_in_cgroup::run("/proc", listing(), in_cgroup(path, None)).unwrap();
    let under = top_processes::run("/proc", listing(), top(None, Some(path))).unwrap();
    let pids = |results: &[process_mcp::mcp::process_entry::ProcessEntry]| -> Vec<u32> {
        results.iter().map(|p| p.pid).collect()
    };
    assert_eq!(pids(&inside.results), vec![101, 100]);
    assert_eq!(pids(&under.results), vec![101, 100]);
}

#[test]
fn process_info_shows_what_the_lists_show() {
    let files = info_files();
    let entry = DirEntry::Named {
        name: Some(String::from("500")),
        files: info_files().files,
    };
    let listed = top_processes::run("/proc", Ok(vec![entry]), top(None, None)).unwrap();
    let shown = process_info::run(files, info(None)).unwrap();
    assert_eq!(format!("{:?}", shown.base), format!("{:?}", listed.results[0]));
    assert_eq!(
        format!("{:?}", shown.base.clone()),
        format!("{:?}", listed.results[0])
    );
}

#[test]
fn files_with_too_large_sizes_are_noticed() {
    assert!(info_files().check(500));
    let huge = format!("Rss: {} kB\n", u64::MAX);
    let mut all = info_files();
    all.smaps = Ok(huge.clone());
    assert!(!all.check(500));
    // What comes before it fails first, so that it is never taken.
    all.fds = Err(failure(FailureKind::Other));
    assert!(all.check(500));
    all.fds = Err(failure(FailureKind::NotFound));
    assert!(!all.check(500));
    all.files.cmdline = Err(failure(FailureKind::Other));
    assert!(!all.files.readable());
    assert!(all.check(500));
    all.files.status = Ok(format!(
        "State:\tR\nPPid:\t1\nUid:\t0\nThreads:\t1\nVmRSS:\t{} kB\n",
        u64::MAX
    ));
    assert!(!all.check(500));

    let entry = |name: &str| DirEntry::Named {
        name: Some(String::from(name)),
        files: ProcessFiles {
            cgroup_file: String::new(),
            cgroup: Ok(String::from("0::/\n")),
            comm: Ok(String::from("c\n")),
            status: Ok(format!(
                "State:\tR\nPPid:\t1\nUid:\t0\nThreads:\t1\nVmRSS:\t{} kB\n",
                u64::MAX
            )),
            cmdline: Ok(String::new()),
        },
    };
    assert!(check_listing(&four()));
    assert!(check_listing(&Ok(vec![DirEntry::Unreadable, bare_entry("1"), entry("self")])));
    assert!(!check_listing(&Ok(vec![bare_entry("1"), entry("2")])));
    assert!(check_listing(&Err(failure(FailureKind::Other))));
}

// ---- the command line ----

fn invoked(args: &[&str]) -> Result<Invocation, Error> {
    parse_args(&args.iter().map(|s| String::from(*s)).collect())
}

#[test]
fn the_proc_root_defaults_to_proc() {
    assert!(matches!(invoked(&[]), Ok(Invocation::Serve { proc_root }) if proc_root == "/proc"));
    let r = invoked(&["--proc-root", "/a", "--proc-root", "--help"]);
    assert!(matches!(r, Ok(Invocation::Serve { proc_root }) if proc_root == "--help"));
}

#[test]
fn help_and_errors_decide_where_they_stand() {
    assert!(matches!(invoked(&["-h", "x"]), Ok(Invocation::Help)));
    assert!(matches!(
        invoked(&["--proc-root", "a", "--help"]),
        Ok(Invocation::Help)
    ));
    assert_eq!(
        invoked(&["x", "-h"]).unwrap_err().report(),
        "unknown argument: x"
    );
    assert_eq!(
        invoked(&["--proc-root"]).unwrap_err().to_string(),
        "--proc-root requires a path argument"
    );
}
