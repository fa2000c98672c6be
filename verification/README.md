# process-mcp

A read-only server that answers questions on Linux processes from what stands
under `/proc/<pid>`: which processes are inside a cgroup (`pids_in_cgroup`),
which are the largest (`top_processes`), all there is on one of them
(`process_info`), and who is whose child (`process_tree`).

- `src/` is the logic, verified with Verus: reading the `/proc` formats
  (`collector`), ranking, redaction and the four tools (`mcp`), the command line
  (`args`). Every function states what it returns; functions named `law_..` state
  what holds of several together.
- `app/` reads `/proc` and speaks the protocol.
- `tests/` runs the library on concrete values.

The library takes what came of reading a file or a directory, text or failure,
and never touches the file system itself. Sizes that do not fit their integers
are the callers' to rule out, with `check_listing` and the `check` methods.
