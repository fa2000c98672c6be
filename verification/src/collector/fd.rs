//! `/proc/<pid>/fd`: the open files of a process.

use vstd::prelude::*;

use crate::collector::read::ReadFailure;
use crate::error::{told, Error, ErrorView};

verus! {

/// How many of the flags are set.
pub open spec fn count_set(flags: Seq<bool>) -> nat
    decreases flags.len(),
{
    if flags.len() == 0 {
        0
    } else {
        count_set(flags.drop_last()) + if flags.last() {
            1nat
        } else {
            0nat
        }
    }
}

/// How many of the flags are set.
pub fn count_flags(flags: &Vec<bool>) -> (r: usize)
    ensures
        r == count_set(flags@),
{
    let mut count: usize = 0;
    let mut i: usize = 0;
    while i < flags.len()
        invariant
            count <= i <= flags.len(),
            count == count_set(flags@.take(i as int)),
        decreases flags.len() - i,
    {
        assert(flags@.take(i + 1).drop_last() =~= flags@.take(i as int));
        if flags[i] {
            count += 1;
        }
        i += 1;
    }
    assert(flags@.take(i as int) =~= flags@);
    count
}

/// What came of counting the entries of the directory at `path`, each flagged
/// by whether it could be read.
pub open spec fn fds_counted(path: Seq<char>, entries: Result<Vec<bool>, ReadFailure>) -> Result<
    Option<u32>,
    ErrorView,
> {
    match entries {
        Ok(flags) => Ok(Some(count_set(flags@) as u32)),
        Err(failure) => if failure.is_gated() {
            Ok(None)
        } else {
            Err(ErrorView::Reading { path, cause: failure.cause@ })
        },
    }
}

/// The number of open file descriptors of a process, from what came of listing
/// `/proc/<pid>/fd` at `path`: each entry with whether it could be read. An
/// entry that could not be read (a descriptor closed meanwhile) is left out.
/// `None` where the directory is absent or closed to us.
pub fn count_fds(path: &str, entries: Result<Vec<bool>, ReadFailure>) -> (r: Result<
    Option<u32>,
    Error,
>)
    requires
        entries matches Ok(flags) ==> count_set(flags@) <= u32::MAX,
    ensures
        told(r) == fds_counted(path@, entries),
{
    match entries {
        Ok(flags) => Ok(Some(count_flags(&flags) as u32)),
        Err(failure) => if failure.gated() {
            Ok(None)
        } else {
            Err(Error::Reading { path: path.to_owned(), cause: failure.cause })
        },
    }
}

} // verus!
