//! Checks on what callers pass in.

use vstd::prelude::*;

use crate::error::{told, Error, ErrorView};
use crate::text::{
    chars_of, is_text, law_pieces_are_found_again, put_together, split, split_chars, views,
};

verus! {

pub open spec fn starts_with_slash(path: Seq<char>) -> bool {
    path.len() > 0 && path[0] == '/'
}

/// Whether one of the segments between the slashes is `..`.
pub open spec fn has_dotdot(path: Seq<char>) -> bool {
    split(path, '/').contains(".."@)
}

pub open spec fn cgroup_path_checked(path: Seq<char>) -> Result<(), ErrorView> {
    if starts_with_slash(path) {
        Err(ErrorView::AbsoluteCgroupPath(path))
    } else if has_dotdot(path) {
        Err(ErrorView::DotDotSegment(path))
    } else {
        Ok(())
    }
}

/// Checks a cgroup path that a caller passed in: relative, and without `..`
/// segments. The path is never resolved against the file system, only compared
/// with the normalized paths of processes. The empty string is the root cgroup.
pub fn validate_cgroup_path(rel: &str) -> (r: Result<(), Error>)
    ensures
        told(r) == cgroup_path_checked(rel@),
{
    let cs = chars_of(rel);
    if cs.len() > 0 && cs[0] == '/' {
        return Err(Error::AbsoluteCgroupPath(rel.to_owned()));
    }
    let segments = split_chars(cs.as_slice(), '/');
    let mut i: usize = 0;
    while i < segments.len()
        invariant
            i <= segments.len(),
            views(segments@) == split(rel@, '/'),
            !starts_with_slash(rel@),
            forall|j: int| 0 <= j < i ==> segments@[j]@ != ".."@,
        decreases segments.len() - i,
    {
        if is_text(segments[i], "..") {
            assert(views(segments@)[i as int] == ".."@);
            return Err(Error::DotDotSegment(rel.to_owned()));
        }
        i += 1;
    }
    Ok(())
}

/// A path made of segments is refused where it starts with a slash, and else
/// where one of the segments is `..`, and nowhere else. The error tells the path.
pub proof fn law_paths_are_refused_for_their_segments(segments: Seq<Seq<char>>)
    requires
        segments.len() > 0,
        forall|i: int| 0 <= i < segments.len() ==> !(#[trigger] segments[i]).contains('/'),
    ensures
        ({
            let path = put_together(segments, '/');
            cgroup_path_checked(path) == if segments.len() > 1 && segments[0].len() == 0 {
                Err::<(), _>(ErrorView::AbsoluteCgroupPath(path))
            } else if exists|i: int|
                0 <= i < segments.len() && #[trigger] segments[i] == seq!['.', '.'] {
                Err(ErrorView::DotDotSegment(path))
            } else {
                Ok(())
            }
        }),
{
    let path = put_together(segments, '/');
    law_pieces_are_found_again(segments, '/');
    reveal_strlit("..");
    assert(".."@ =~= seq!['.', '.']);
    assert(!segments[0].contains('/'));
    if segments.len() > 1 {
        assert(path[0] == if segments[0].len() == 0 {
            '/'
        } else {
            segments[0][0]
        });
    }
    if segments[0].len() > 0 {
        assert(segments[0].contains(segments[0][0]));
    }
    if segments.contains(".."@) {
        let i = choose|i: int| 0 <= i < segments.len() && segments[i] == ".."@;
        assert(segments[i] == seq!['.', '.']);
    }
}

} // verus!
