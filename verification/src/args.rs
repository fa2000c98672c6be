//! The command line of the server.

use vstd::prelude::*;

use crate::error::{viewed, Error, ErrorView};
use crate::text::{chars_of, is_text};

verus! {

/// What the command line asks for.
#[derive(Debug)]
pub enum Invocation {
    /// To serve what stands under `proc_root`.
    Serve { proc_root: String },
    /// To say how the program is used.
    Help,
}

pub enum InvocationView {
    Serve { proc_root: Seq<char> },
    Help,
}

impl View for Invocation {
    type V = InvocationView;

    open spec fn view(&self) -> InvocationView {
        match *self {
            Invocation::Serve { proc_root } => InvocationView::Serve { proc_root: proc_root@ },
            Invocation::Help => InvocationView::Help,
        }
    }
}

/// What the arguments ask for, where those before them named `proc_root`. The
/// last `--proc-root` counts; the first request for help, or the first argument
/// that is wrong, decides.
pub open spec fn invocation(args: Seq<String>, proc_root: Seq<char>) -> Result<
    InvocationView,
    ErrorView,
>
    decreases args.len(),
{
    if args.len() == 0 {
        Ok(InvocationView::Serve { proc_root })
    } else if args[0]@ == "--proc-root"@ {
        if args.len() == 1 {
            Err(ErrorView::ProcRootWithoutPath)
        } else {
            invocation(args.skip(2), args[1]@)
        }
    } else if args[0]@ == "--help"@ || args[0]@ == "-h"@ {
        Ok(InvocationView::Help)
    } else {
        Err(ErrorView::UnknownArgument(args[0]@))
    }
}

fn is_arg(arg: &String, text: &str) -> (r: bool)
    ensures
        r == (arg@ == text@),
{
    let cs = chars_of(arg.as_str());
    is_text(cs.as_slice(), text)
}

/// Reads the arguments, without the name of the program. Where none says
/// otherwise, what stands under `/proc` is served.
pub fn parse_args(args: &Vec<String>) -> (r: Result<Invocation, Error>)
    ensures
        viewed(r) == invocation(args@, "/proc"@),
{
    let mut proc_root = "/proc".to_owned();
    let mut i: usize = 0;
    assert(args@.skip(0) =~= args@);
    while i < args.len()
        invariant
            i <= args.len(),
            invocation(args@.skip(i as int), proc_root@) == invocation(args@, "/proc"@),
        decreases args.len() - i,
    {
        assert(args@.skip(i as int)[0] == args@[i as int]);
        if is_arg(&args[i], "--proc-root") {
            if args.len() - i < 2 {
                return Err(Error::ProcRootWithoutPath);
            }
            assert(args@.skip(i as int)[1] == args@[i + 1]);
            assert(args@.skip(i as int).skip(2) =~= args@.skip(i + 2));
            proc_root = args[i + 1].clone();
            i += 2;
        } else if is_arg(&args[i], "--help") || is_arg(&args[i], "-h") {
            return Ok(Invocation::Help);
        } else {
            return Err(Error::UnknownArgument(args[i].clone()));
        }
    }
    Ok(Invocation::Serve { proc_root })
}

/// Whether the arguments are paths, each behind a `--proc-root`.
pub open spec fn are_proc_roots(args: Seq<String>) -> bool {
    &&& args.len() % 2 == 0
    &&& forall|i: int| 0 <= i < args.len() && i % 2 == 0 ==> (#[trigger] args[i])@ == "--proc-root"@
}

/// Behind any number of proc roots only the last of them matters.
proof fn lemma_proc_roots(roots: Seq<String>, rest: Seq<String>, proc_root: Seq<char>)
    requires
        are_proc_roots(roots),
    ensures
        invocation(roots + rest, proc_root) == invocation(
            rest,
            if roots.len() == 0 {
                proc_root
            } else {
                roots.last()@
            },
        ),
    decreases roots.len(),
{
    if roots.len() == 0 {
        assert(roots + rest =~= rest);
    } else {
        let all = roots + rest;
        let fewer = roots.skip(2);
        assert(all[0] == roots[0] && all[1] == roots[1]);
        assert(roots[0]@ == "--proc-root"@);
        assert(all.skip(2) =~= fewer + rest);
        assert forall|i: int| 0 <= i < fewer.len() && i % 2 == 0 implies (#[trigger] fewer[i])@
            == "--proc-root"@ by {
            assert(fewer[i] == roots[i + 2]);
        }
        lemma_proc_roots(fewer, rest, roots[1]@);
        if fewer.len() > 0 {
            assert(fewer.last() == roots.last());
        }
    }
}

/// What a command line asks for: behind any number of proc roots, of which the
/// last counts, comes its end, a request for help, or something wrong.
pub proof fn law_last_proc_root_counts(
    roots: Seq<String>,
    next: String,
    rest: Seq<String>,
    proc_root: Seq<char>,
)
    requires
        are_proc_roots(roots),
    ensures
        invocation(roots, proc_root) == Ok::<_, ErrorView>(
            InvocationView::Serve {
                proc_root: if roots.len() == 0 {
                    proc_root
                } else {
                    roots.last()@
                },
            },
        ),
        next@ == "--help"@ || next@ == "-h"@ ==> invocation(roots + (seq![next] + rest), proc_root)
            == Ok::<_, ErrorView>(InvocationView::Help),
        next@ == "--proc-root"@ ==> invocation(roots + seq![next], proc_root) == Err::<
            InvocationView,
            _,
        >(ErrorView::ProcRootWithoutPath),
        next@ != "--help"@ && next@ != "-h"@ && next@ != "--proc-root"@ ==> invocation(
            roots + (seq![next] + rest),
            proc_root,
        ) == Err::<InvocationView, _>(ErrorView::UnknownArgument(next@)),
{
    lemma_proc_roots(roots, Seq::empty(), proc_root);
    assert(roots + Seq::<String>::empty() =~= roots);
    lemma_proc_roots(roots, seq![next] + rest, proc_root);
    lemma_proc_roots(roots, seq![next], proc_root);
    assert((seq![next] + rest)[0] == next);
    reveal_strlit("--proc-root");
    reveal_strlit("--help");
    reveal_strlit("-h");
    assert("--proc-root"@.len() == 11 && "--help"@.len() == 6 && "-h"@.len() == 2);
}

} // verus!
