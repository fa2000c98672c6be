use process_mcp::collector::proc::ProcessSnapshot;
use process_mcp::error::{absolute_path_text, dotdot_text, Error};
use process_mcp::mcp::process_entry::{format_cmdline, redact_arg, redact_by, ProcessEntry};
use process_mcp::mcp::rank::sort_by_rss_desc;
use process_mcp::mcp::tools::top_processes::matches_cgroup_prefix;
use process_mcp::mcp::util::validate_cgroup_path;

#[test]
fn redacts_secret_args() {
    assert_eq!(redact_arg("--api-key=abc123"), "--api-key=REDACTED");
    assert_eq!(
        redact_arg("DATABASE_PASSWORD=hunter2"),
        "DATABASE_PASSWORD=REDACTED"
    );
    assert_eq!(redact_arg("auth_token=xyz"), "auth_token=REDACTED");
    assert_eq!(redact_arg("client_secret=abc"), "client_secret=REDACTED");
}

#[test]
fn passes_through_non_secret_args() {
    assert_eq!(redact_arg("--port=8080"), "--port=8080");
    assert_eq!(redact_arg("worker"), "worker");
    assert_eq!(redact_arg("--verbose"), "--verbose");
}

#[test]
fn redaction_is_case_insensitive() {
    assert_eq!(redact_arg("API_KEY=foo"), "API_KEY=REDACTED");
    assert_eq!(redact_arg("MyToken=foo"), "MyToken=REDACTED");
}

#[test]
fn redaction_goes_by_what_stands_before_the_first_equals_sign() {
    assert_eq!(redact_arg("a=key=b"), "a=key=b");
    assert_eq!(redact_arg("key=a=b"), "key=REDACTED");
    assert_eq!(redact_arg("monkeys=1"), "monkeys=REDACTED");
    assert_eq!(redact_arg("=x"), "=x");
    assert_eq!(redact_arg("ke=x"), "ke=x");
}

#[test]
fn redaction_lowers_letters_beyond_ascii() {
    // The Kelvin sign is a capital k.
    assert_eq!(redact_arg("\u{212a}EY=v"), "\u{212a}EY=REDACTED");
    assert_eq!(redact_arg("\u{c4}KEY=v"), "\u{c4}KEY=REDACTED");
    assert_eq!(redact_arg("\u{c4}PORT=v"), "\u{c4}PORT=v");
}

#[test]
fn redaction_by_a_folded_key() {
    assert_eq!(redact_by("XY=v", "a token"), "XY=REDACTED");
    assert_eq!(redact_by("XY=v", "xy"), "XY=v");
    assert_eq!(redact_by("XY", "key"), "XY");
}

#[test]
fn lowering_ascii_agrees_with_str() {
    for c in 'A'..='z' {
        let arg = format!("PAS{c}WORD=v");
        let secret = arg.to_lowercase().contains("password");
        assert_eq!(redact_arg(&arg) != arg, secret, "{c}");
    }
}

#[test]
fn redaction_hides_the_value_and_does_it_once() {
    assert_eq!(redact_arg("key=a"), redact_arg("key=b"));
    assert_eq!(redact_arg(&redact_arg("key=a")), redact_arg("key=a"));
}

#[test]
fn format_cmdline_joins_null_separated_parts() {
    let raw = "nginx\0worker process\0";
    assert_eq!(format_cmdline(raw, false), "nginx worker process");
}

#[test]
fn format_cmdline_redacts_when_requested() {
    let raw = "myapp\0--api-key=abc123\0--port=8080\0";
    assert_eq!(
        format_cmdline(raw, true),
        "myapp --api-key=REDACTED --port=8080"
    );
}

#[test]
fn empty_cmdline_is_empty_string() {
    assert_eq!(format_cmdline("", true), "");
    assert_eq!(format_cmdline("\0", true), "");
}

#[test]
fn command_lines_that_differ_in_a_secret_look_alike() {
    let a = format_cmdline("app\0token=1\0x=2\0", true);
    let b = format_cmdline("app\0token=other\0x=2\0", true);
    assert_eq!(a, b);
    assert_eq!(a, "app token=REDACTED x=2");
    assert_eq!(format_cmdline("app\0token=1\0", false), "app token=1");
}

#[test]
fn empty_arguments_are_dropped() {
    assert_eq!(format_cmdline("\0\0a\0\0b", false), "a b");
}

fn snapshot(pid: u32, rss_bytes: Option<u64>) -> ProcessSnapshot {
    ProcessSnapshot {
        pid,
        comm: String::from("c"),
        cmdline_raw: String::from("c\0token=1\0"),
        state: 'D',
        ppid: 3,
        uid: 4,
        num_threads: 5,
        rss_bytes,
        cgroup_path: String::from("x/y"),
    }
}

#[test]
fn an_entry_shows_a_snapshot() {
    let e = ProcessEntry::from_snapshot(snapshot(2, Some(6)), true);
    assert_eq!(e.pid, 2);
    assert_eq!(e.comm, "c");
    assert_eq!(e.cmdline, "c token=REDACTED");
    assert_eq!(e.state, "D");
    assert_eq!(e.ppid, 3);
    assert_eq!(e.rss_bytes, Some(6));
    assert_eq!(e.cgroup_path, "x/y");
    let e = ProcessEntry::from_snapshot(snapshot(2, None), false);
    assert_eq!(e.cmdline, "c token=1");
    assert_eq!(e.rss_bytes, None);
}

#[test]
fn ranking_is_stable_with_the_unsized_last() {
    let sizes = [None, Some(1), Some(3), Some(1), None, Some(0), Some(3)];
    let mut items = Vec::new();
    for (i, rss) in sizes.iter().enumerate() {
        items.push(snapshot(i as u32, *rss));
    }
    let pids: Vec<u32> = sort_by_rss_desc(items).iter().map(|s| s.pid).collect();
    assert_eq!(pids, vec![2, 6, 1, 3, 5, 0, 4]);
}

#[test]
fn ranking_many_agrees_with_a_stable_sort() {
    let mut items = Vec::new();
    let mut x: u64 = 1;
    for i in 0..500 {
        x = (x * 1103515245 + 12345) % 2147483648;
        let rss = if x % 7 == 0 { None } else { Some(x % 40) };
        items.push(snapshot(i, rss));
    }
    let mut expected: Vec<(u32, Option<u64>)> =
        items.iter().map(|s| (s.pid, s.rss_bytes)).collect();
    expected.sort_by_key(|(_, rss)| (rss.is_none(), std::cmp::Reverse(rss.unwrap_or(0))));
    let got: Vec<(u32, Option<u64>)> = sort_by_rss_desc(items)
        .iter()
        .map(|s| (s.pid, s.rss_bytes))
        .collect();
    assert_eq!(got, expected);
}

#[test]
fn prefix_matches_path_equal_to_prefix() {
    assert!(matches_cgroup_prefix("system.slice", "system.slice"));
}

#[test]
fn prefix_matches_descendant() {
    assert!(matches_cgroup_prefix(
        "system.slice/nginx.service",
        "system.slice"
    ));
    assert!(matches_cgroup_prefix(
        "system.slice/nested.slice/foo.service",
        "system.slice"
    ));
}

#[test]
fn prefix_does_not_match_sibling_with_shared_string_prefix() {
    // The whole reason for path-aware matching.
    assert!(!matches_cgroup_prefix(
        "system.slice2/foo.service",
        "system.slice"
    ));
    assert!(!matches_cgroup_prefix("system.slicefoo", "system.slice"));
}

#[test]
fn what_is_below_something_below_is_below() {
    assert!(matches_cgroup_prefix("a/b/c", "a/b"));
    assert!(matches_cgroup_prefix("a/b", "a"));
    assert!(matches_cgroup_prefix("a/b/c", "a"));
    assert!(!matches_cgroup_prefix("a", "a/b"));
    assert!(matches_cgroup_prefix("/x", ""));
    assert!(!matches_cgroup_prefix("x", ""));
}

#[test]
fn prefix_does_not_match_unrelated_path() {
    assert!(!matches_cgroup_prefix(
        "user.slice/user-1000.slice",
        "system.slice"
    ));
}

#[test]
fn empty_is_valid_root_cgroup() {
    validate_cgroup_path("").unwrap();
}

#[test]
fn normal_relative_path_is_valid() {
    validate_cgroup_path("system.slice/nginx.service").unwrap();
}

#[test]
fn rejects_absolute() {
    let err = validate_cgroup_path("/etc/passwd").unwrap_err();
    assert!(err.to_string().contains("relative"));
}

#[test]
fn rejects_dotdot_segment() {
    let err = validate_cgroup_path("system.slice/../etc").unwrap_err();
    assert!(err.to_string().contains(".."));
}

#[test]
fn dots_within_a_segment_are_fine() {
    validate_cgroup_path("a..b/...").unwrap();
    assert!(matches!(
        validate_cgroup_path("..").unwrap_err(),
        Error::DotDotSegment(_)
    ));
    assert!(matches!(
        validate_cgroup_path("/..").unwrap_err(),
        Error::AbsoluteCgroupPath(_)
    ));
}

#[test]
fn path_errors_quote_the_path() {
    assert_eq!(
        validate_cgroup_path("/a\n").unwrap_err().to_string(),
        "cgroup_path must be relative (no leading `/`), got: \"/a\\n\""
    );
    assert_eq!(
        validate_cgroup_path("../\"").unwrap_err().report(),
        "cgroup_path must not contain `..` segments: \"../\\\"\""
    );
    assert_eq!(
        absolute_path_text("Q"),
        "cgroup_path must be relative (no leading `/`), got: Q"
    );
    assert_eq!(
        dotdot_text("Q"),
        "cgroup_path must not contain `..` segments: Q"
    );
}
