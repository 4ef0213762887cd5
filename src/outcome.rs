//! Outcomes of a search: a found file, or an error bound to a path.
use vstd::prelude::*;

verus! {

/// The classification of a filesystem failure.
#[derive(Clone, Copy, PartialEq, Eq, Structural, Debug)]
pub enum ErrorKind {
    InvalidInput,
    NotFound,
    PermissionDenied,
    Other,
}

/// A filesystem failure: its classification and its message.
#[derive(Clone, Debug)]
pub struct IoError {
    pub kind: ErrorKind,
    pub message: String,
}

/// An error together with the path it concerns. `path` is `None` where the
/// failure came without a path (a directory entry that could not be read).
#[derive(Clone, Debug)]
pub struct ErrorWithPath {
    pub error: IoError,
    pub path: Option<String>,
}

/// One classified result of a search.
#[derive(Clone, Debug)]
pub enum PathOutcome {
    Found(String),
    Failed(ErrorWithPath),
}

/// The mathematical value of an `ErrorWithPath`.
pub struct PathError {
    pub kind: ErrorKind,
    pub message: Seq<char>,
    pub path: Option<Seq<char>>,
}

/// The mathematical value of a `PathOutcome`.
pub enum Outcome {
    Found(Seq<char>),
    Failed(PathError),
}

/// The text of an optional string.
pub open spec fn opt_str_view(p: Option<String>) -> Option<Seq<char>> {
    match p {
        Some(s) => Some(s@),
        None => None,
    }
}

impl View for ErrorWithPath {
    type V = PathError;

    open spec fn view(&self) -> PathError {
        PathError { kind: self.error.kind, message: self.error.message@, path: opt_str_view(self.path) }
    }
}

impl View for PathOutcome {
    type V = Outcome;

    open spec fn view(&self) -> Outcome {
        match self {
            PathOutcome::Found(p) => Outcome::Found(p@),
            PathOutcome::Failed(e) => Outcome::Failed(e@),
        }
    }
}

/// The models of a sequence of outcomes.
pub open spec fn models(s: Seq<PathOutcome>) -> Seq<Outcome> {
    s.map_values(|o: PathOutcome| o@)
}

/// The text that stands for a path that a failure did not supply.
pub open spec fn unknown_path_text() -> Seq<char> {
    "Unknown path"@
}

/// The text of a path as it is reported.
pub open spec fn path_text(p: Option<Seq<char>>) -> Seq<char> {
    match p {
        Some(s) => s,
        None => unknown_path_text(),
    }
}

/// An error as it is reported: `<path>: <message>`.
pub open spec fn error_line(e: PathError) -> Seq<char> {
    path_text(e.path) + ": "@ + e.message
}

/// How many outcomes of `s` are found files.
pub open spec fn count_found(s: Seq<Outcome>) -> nat
    decreases s.len(),
{
    if s.len() == 0 {
        0
    } else {
        count_found(s.drop_last()) + if s.last() is Found { 1nat } else { 0nat }
    }
}

/// How many outcomes of `s` are errors.
pub open spec fn count_failed(s: Seq<Outcome>) -> nat
    decreases s.len(),
{
    if s.len() == 0 {
        0
    } else {
        count_failed(s.drop_last()) + if s.last() is Failed { 1nat } else { 0nat }
    }
}

/// Every outcome of a result list is classified exactly once: the list holds
/// as many outcomes as it has found files and errors together.
pub proof fn lemma_every_outcome_classified(s: Seq<Outcome>)
    ensures
        s.len() == count_found(s) + count_failed(s),
    decreases s.len(),
{
    if s.len() > 0 {
        lemma_every_outcome_classified(s.drop_last());
    }
}

/// A list that holds `t` alone.
pub fn wrap_into_vec<T>(t: T) -> (r: Vec<T>)
    ensures
        r@ == seq![t],
{
    let mut r = Vec::new();
    r.push(t);
    proof {
        assert(r@ =~= seq![t]);
    }
    r
}

impl ErrorWithPath {
    /// The error as it is reported: `<path>: <message>`, with
    /// `Unknown path` where the error came without a path.
    pub fn describe(&self) -> (r: String)
        ensures
            r@ == error_line(self@),
    {
        let mut r = match &self.path {
            Some(p) => p.clone(),
            None => "Unknown path".to_owned(),
        };
        r.append(": ");
        r.append(self.error.message.as_str());
        r
    }
}

} // verus!
