//! The text a search reports: the found files on one stream, the errors on
//! the other.
use vstd::prelude::*;
use crate::outcome::{Outcome, PathOutcome, count_failed, error_line, models, opt_str_view};

verus! {

/// What a run prints: `stdout` on the standard output, `stderr` on the
/// standard error stream; `None` prints nothing.
pub struct RunResult {
    pub stdout: Option<String>,
    pub stderr: Option<String>,
}

/// The usage message.
pub open spec fn usage_message() -> Seq<char> {
    "Usage: cargo run path_to_dir word_to_search"@
}

/// Each found path on a line of its own, in order.
pub open spec fn found_text(s: Seq<Outcome>) -> Seq<char>
    decreases s.len(),
{
    if s.len() == 0 {
        seq![]
    } else {
        found_text(s.drop_last()) + match s.last() {
            Outcome::Found(p) => p + "\n"@,
            Outcome::Failed(_) => Seq::<char>::empty(),
        }
    }
}

/// Each error, as `<path>: <message>`, on a line of its own, in order.
pub open spec fn error_text(s: Seq<Outcome>) -> Seq<char>
    decreases s.len(),
{
    if s.len() == 0 {
        seq![]
    } else {
        error_text(s.drop_last()) + match s.last() {
            Outcome::Found(_) => Seq::<char>::empty(),
            Outcome::Failed(e) => error_line(e) + "\n"@,
        }
    }
}

/// A run with the wrong arguments: the usage message on the error stream.
pub fn usage() -> (r: RunResult)
    ensures
        r.stdout is None,
        opt_str_view(r.stderr) == Some(usage_message()),
{
    RunResult { stdout: None, stderr: Some("Usage: cargo run path_to_dir word_to_search".to_owned()) }
}

/// The report of a search: the found paths on the standard output, always;
/// the errors on the error stream, where there are any.
pub fn report(outcomes: &Vec<PathOutcome>) -> (r: RunResult)
    ensures
        opt_str_view(r.stdout) == Some(found_text(models(outcomes@))),
        opt_str_view(r.stderr) == if count_failed(models(outcomes@)) == 0 {
            None
        } else {
            Some(error_text(models(outcomes@)))
        },
{
    let ghost all = models(outcomes@);
    let mut files = String::new();
    let mut errors = String::new();
    let mut any_error = false;
    let mut i: usize = 0;
    while i < outcomes.len()
        invariant
            all == models(outcomes@),
            i <= outcomes@.len(),
            files@ == found_text(all.subrange(0, i as int)),
            errors@ == error_text(all.subrange(0, i as int)),
            any_error == (count_failed(all.subrange(0, i as int)) > 0),
        decreases outcomes@.len() - i,
    {
        proof {
            assert(all.subrange(0, i + 1).drop_last() =~= all.subrange(0, i as int));
            assert(all[i as int] == outcomes@[i as int]@);
        }
        match &outcomes[i] {
            PathOutcome::Found(p) => {
                files.append(p.as_str());
                files.append("\n");
            },
            PathOutcome::Failed(e) => {
                let line = e.describe();
                errors.append(line.as_str());
                errors.append("\n");
                any_error = true;
            },
        }
        i += 1;
    }
    proof {
        assert(all.subrange(0, i as int) =~= all);
    }
    let stderr = if any_error {
        Some(errors)
    } else {
        None
    };
    RunResult { stdout: Some(files), stderr }
}

} // verus!
