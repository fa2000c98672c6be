//! `/proc/<pid>/cgroup`: the cgroup that a process belongs to.

use vstd::prelude::*;

use crate::collector::read::ReadFailure;
use crate::error::{viewed, Error, ErrorView};
use crate::text::{
    chars_of, first_reading, law_lines_of_parts, lemma_first_reading_of_parts, lemma_no_reading,
    lemma_one_line, lines, lines_of, string_of, strip_chars_prefix, strip_prefix, views,
    whole_lines, without_cr,
};

verus! {

/// The text without one leading `/`.
pub open spec fn without_slash(s: Seq<char>) -> Seq<char> {
    match strip_prefix(s, "/"@) {
        Some(rest) => rest,
        None => s,
    }
}

/// The path on a line of the unified hierarchy, `0::/path`.
pub open spec fn unified_path(line: Seq<char>) -> Option<Seq<char>> {
    match strip_prefix(line, "0::"@) {
        Some(rest) => Some(without_slash(rest)),
        None => None,
    }
}

pub open spec fn unified_path_reader() -> spec_fn(Seq<char>) -> Option<Seq<char>> {
    |line: Seq<char>| unified_path(line)
}

/// The path on the first line of the unified hierarchy.
pub open spec fn parsed_cgroup_path(s: Seq<char>) -> Result<Seq<char>, ErrorView> {
    match first_reading(lines(s), unified_path_reader()) {
        Some(path) => Ok(path),
        None => Err(ErrorView::NoUnifiedCgroup),
    }
}

/// Reads the text of `/proc/<pid>/cgroup` into a normalized cgroup path:
/// relative to `/sys/fs/cgroup`, without the leading slash, the empty string
/// for the root cgroup.
///
/// The line of cgroup v2 looks like `0::/system.slice/nginx.service`. Systems
/// with both versions have `N:subsystem:path` lines too, which are passed over.
pub fn parse_cgroup_path(s: &str) -> (r: Result<String, Error>)
    ensures
        viewed(r) == parsed_cgroup_path(s@),
{
    let cs = chars_of(s);
    let ls = lines_of(cs.as_slice());
    let ghost all = views(ls@);
    let mut i: usize = 0;
    assert(all.skip(0) =~= all);
    while i < ls.len()
        invariant
            i <= ls.len(),
            all == views(ls@),
            all == lines(s@),
            first_reading(all.skip(i as int), unified_path_reader()) == first_reading(
                all,
                unified_path_reader(),
            ),
        decreases ls.len() - i,
    {
        assert(all.skip(i as int)[0] == ls@[i as int]@);
        if let Some(rest) = strip_chars_prefix(ls[i], "0::") {
            let path = match strip_chars_prefix(rest, "/") {
                Some(relative) => relative,
                None => rest,
            };
            assert(unified_path_reader()(ls@[i as int]@) == Some(path@));
            return Ok(string_of(path));
        }
        assert(unified_path_reader()(ls@[i as int]@) is None);
        assert(all.skip(i as int).skip(1) =~= all.skip(i + 1));
        i += 1;
    }
    Err(Error::NoUnifiedCgroup)
}

/// What came of reading the cgroup of a process from the file at `path`.
pub open spec fn cgroup_path_read(
    path: Seq<char>,
    read: Result<String, ReadFailure>,
) -> Result<Seq<char>, ErrorView> {
    match read {
        Ok(text) => parsed_cgroup_path(text@),
        Err(failure) => Err(ErrorView::Reading { path, cause: failure.cause@ }),
    }
}

/// The cgroup of a process, from what came of reading `/proc/<pid>/cgroup` at
/// `path`.
pub fn read_cgroup_path(path: &str, read: Result<String, ReadFailure>) -> (r: Result<String, Error>)
    ensures
        viewed(r) == cgroup_path_read(path@, read),
{
    match read {
        Ok(text) => parse_cgroup_path(text.as_str()),
        Err(failure) => Err(Error::Reading { path: path.to_owned(), cause: failure.cause }),
    }
}

/// Whether a line is of the unified hierarchy.
pub open spec fn is_unified(line: Seq<char>) -> bool {
    ("0::"@).is_prefix_of(line)
}

/// The path that the kernel writes on the first line of the unified hierarchy is
/// the one that is read, without its slash; the lines before and after it do not
/// matter.
pub proof fn law_unified_line_gives_its_path(before: Seq<char>, path: Seq<char>, after: Seq<char>)
    requires
        whole_lines(before),
        forall|i: int| 0 <= i < lines(before).len() ==> !is_unified(#[trigger] lines(before)[i]),
        !path.contains('\n'),
        path.len() > 0 ==> path.last() != '\r',
    ensures
        parsed_cgroup_path(before + ("0::/"@ + path).push('\n') + after) == Ok::<_, ErrorView>(path),
{
    reveal_strlit("0::/");
    reveal_strlit("0::");
    reveal_strlit("/");
    let line = "0::/"@ + path;
    let ended = line.push('\n');
    assert(!line.contains('\n')) by {
        if line.contains('\n') {
            let j = choose|j: int| 0 <= j < line.len() && line[j] == '\n';
            assert(line[j] == if j < 4 {
                "0::/"@[j]
            } else {
                path[j - 4]
            });
            assert(path.contains(path[j - 4]));
        }
    }
    assert(without_cr(line) == line);
    assert(before + ended + after =~= before + (ended + after));
    law_lines_of_parts(before, ended + after);
    law_lines_of_parts(ended, after);
    lemma_one_line(line);
    assert(lines(before) + (seq![line] + lines(after)) =~= lines(before) + seq![line] + lines(
        after,
    ));
    assert(line.subrange(0, 3) =~= "0::"@);
    assert(line.skip(3).subrange(0, 1) =~= "/"@);
    assert(line.skip(3).skip(1) =~= path);
    assert(unified_path_reader()(line) == Some(path));
    assert forall|i: int| 0 <= i < lines(before).len() implies unified_path_reader()(
        #[trigger] lines(before)[i],
    ) is None by {
        assert(!is_unified(lines(before)[i]));
    }
    lemma_first_reading_of_parts(lines(before), line, lines(after), unified_path_reader());
}

/// A text without a line of the unified hierarchy is an error.
pub proof fn law_no_unified_line_is_an_error(s: Seq<char>)
    requires
        forall|i: int| 0 <= i < lines(s).len() ==> !is_unified(#[trigger] lines(s)[i]),
    ensures
        parsed_cgroup_path(s) == Err::<Seq<char>, _>(ErrorView::NoUnifiedCgroup),
{
    assert forall|i: int| 0 <= i < lines(s).len() implies unified_path_reader()(
        #[trigger] lines(s)[i],
    ) is None by {
        assert(!is_unified(lines(s)[i]));
    }
    lemma_no_reading(lines(s), unified_path_reader());
}

} // verus!
