//! The depth-first walk, as a state machine. Its driver asks for the next
//! path with `next_path`, probes that path on the filesystem and hands what
//! it saw back with `record`, until `next_path` returns `None`.
use vstd::prelude::*;
use crate::outcome::{ErrorKind, ErrorWithPath, IoError, Outcome, PathError, PathOutcome, models};

verus! {

/// What probing one path showed.
#[derive(Debug)]
pub enum Probe {
    /// The metadata of the path could not be read.
    MetadataFailed(IoError),
    /// A regular file.
    File,
    /// A directory whose entries could not be listed.
    Unlistable(IoError),
    /// A directory, with its entries in the order they were listed: the path
    /// of each, or the error met while reading it.
    Directory(Vec<Result<String, IoError>>),
    /// Neither a directory nor a regular file.
    Special,
}

/// The message of the error recorded for a path that is neither a directory
/// nor a regular file.
pub open spec fn special_message() -> Seq<char> {
    "path identifies neither a directory nor a regular file"@
}

/// The state of a walk: the outcomes produced so far, the outcomes still to
/// expand (the last one first), and the path handed out for probing.
pub struct WalkState {
    pub found: Seq<Outcome>,
    pub pending: Seq<Outcome>,
    pub current: Option<Seq<char>>,
}

/// A walk in progress.
pub struct Traversal {
    pub found: Vec<PathOutcome>,
    pub pending: Vec<PathOutcome>,
    pub current: Option<String>,
}

impl View for Traversal {
    type V = WalkState;

    open spec fn view(&self) -> WalkState {
        WalkState {
            found: models(self.found@),
            pending: models(self.pending@),
            current: crate::outcome::opt_str_view(self.current),
        }
    }
}

/// The state of a walk that starts from `input`.
pub open spec fn start(input: Outcome) -> WalkState {
    WalkState { found: seq![], pending: seq![input], current: None }
}

/// Moves the errors on top of `pending` to `found`, until a path is on top
/// or nothing is left.
pub open spec fn settled(found: Seq<Outcome>, pending: Seq<Outcome>) -> (Seq<Outcome>, Seq<Outcome>)
    decreases pending.len(),
{
    if pending.len() == 0 {
        (found, pending)
    } else if pending.last() is Failed {
        settled(found.push(pending.last()), pending.drop_last())
    } else {
        (found, pending)
    }
}

/// The state after asking for the next path: where a path is out for
/// probing, nothing changes; else the errors on top pass to the outcomes and
/// the path on top, if any, is handed out.
pub open spec fn advanced(s: WalkState) -> WalkState {
    if s.current is Some {
        s
    } else {
        let (f, p) = settled(s.found, s.pending);
        if p.len() > 0 && p.last() is Found {
            WalkState { found: f, pending: p.drop_last(), current: Some(p.last()->Found_0) }
        } else {
            WalkState { found: f, pending: p, current: None }
        }
    }
}

/// The outcome that stands for one directory entry: its path, or its error
/// without a path.
pub open spec fn entry_outcome(e: Result<String, IoError>) -> Outcome {
    match e {
        Ok(p) => Outcome::Found(p@),
        Err(err) => Outcome::Failed(PathError { kind: err.kind, message: err.message@, path: None }),
    }
}

/// The entries of a directory as they are stacked: the first entry last, so
/// that it is expanded first.
pub open spec fn stacked(entries: Seq<Result<String, IoError>>) -> Seq<Outcome> {
    Seq::new(entries.len(), |i: int| entry_outcome(entries[entries.len() - 1 - i]))
}

pub open spec fn failed_at(err: IoError, path: Seq<char>) -> Outcome {
    Outcome::Failed(PathError { kind: err.kind, message: err.message@, path: Some(path) })
}

/// The state after recording what probing the handed-out path showed.
pub open spec fn recorded(s: WalkState, probe: Probe) -> WalkState {
    match s.current {
        None => s,
        Some(path) => match probe {
            Probe::MetadataFailed(e) => WalkState { found: s.found.push(failed_at(e, path)), pending: s.pending, current: None },
            Probe::File => WalkState { found: s.found.push(Outcome::Found(path)), pending: s.pending, current: None },
            Probe::Unlistable(e) => WalkState { found: s.found.push(failed_at(e, path)), pending: s.pending, current: None },
            Probe::Directory(entries) => WalkState { found: s.found, pending: s.pending + stacked(entries@), current: None },
            Probe::Special => WalkState {
                found: s.found.push(Outcome::Failed(PathError { kind: ErrorKind::InvalidInput, message: special_message(), path: Some(path) })),
                pending: s.pending,
                current: None,
            },
        },
    }
}

/// A walk that starts from an error hands out no path to probe, and its
/// outcomes are that error alone.
pub proof fn lemma_error_input_passes_through(e: PathError)
    ensures
        advanced(start(Outcome::Failed(e))) == (WalkState {
            found: seq![Outcome::Failed(e)],
            pending: seq![],
            current: None,
        }),
{
    let s = start(Outcome::Failed(e));
    assert(s.pending.drop_last() =~= seq![]);
    assert(seq![].push(Outcome::Failed(e)) =~= seq![Outcome::Failed(e)]);
    assert(settled(seq![Outcome::Failed(e)], seq![]) == (seq![Outcome::Failed(e)], Seq::<Outcome>::empty()));
}

/// A walk from a directory that lists no entries probes that directory alone
/// and ends with no outcome.
pub proof fn lemma_empty_directory_yields_nothing(dir: Seq<char>, entries: Vec<Result<String, IoError>>)
    requires
        entries@.len() == 0,
    ensures
        advanced(start(Outcome::Found(dir))).current == Some(dir),
        advanced(recorded(advanced(start(Outcome::Found(dir))), Probe::Directory(entries))) == (WalkState {
            found: seq![],
            pending: seq![],
            current: None,
        }),
{
    let s = start(Outcome::Found(dir));
    assert(settled(s.found, s.pending) == (s.found, s.pending));
    let s1 = advanced(s);
    assert(s1.pending =~= seq![]);
    let s2 = recorded(s1, Probe::Directory(entries));
    assert(s2.pending =~= seq![]);
    assert(settled(s2.found, s2.pending) == (s2.found, s2.pending));
}

/// A walk from a directory that lists one entry, a regular file, ends with
/// that file found and nothing else; the file is found whether or not its
/// contents can be read, since listing a directory does not open its files.
pub proof fn lemma_single_file_directory(dir: Seq<char>, file: String, entries: Vec<Result<String, IoError>>)
    requires
        entries@ == seq![Ok::<String, IoError>(file)],
    ensures
        advanced(recorded(advanced(start(Outcome::Found(dir))), Probe::Directory(entries))).current == Some(file@),
        advanced(recorded(advanced(recorded(advanced(start(Outcome::Found(dir))), Probe::Directory(entries))), Probe::File)) == (WalkState {
            found: seq![Outcome::Found(file@)],
            pending: seq![],
            current: None,
        }),
{
    let s = start(Outcome::Found(dir));
    assert(settled(s.found, s.pending) == (s.found, s.pending));
    let s1 = advanced(s);
    assert(s1.pending =~= seq![]);
    let s2 = recorded(s1, Probe::Directory(entries));
    assert(s2.pending =~= seq![Outcome::Found(file@)]);
    assert(settled(s2.found, s2.pending) == (s2.found, s2.pending));
    let s3 = advanced(s2);
    assert(s3.pending =~= seq![]);
    let s4 = recorded(s3, Probe::File);
    assert(s4.found =~= seq![Outcome::Found(file@)]);
    assert(settled(s4.found, s4.pending) == (s4.found, s4.pending));
}

/// `a` and `b` hold as many outcomes, and a found file or an error at the
/// same places.
pub open spec fn same_class(a: Seq<Outcome>, b: Seq<Outcome>) -> bool {
    &&& a.len() == b.len()
    &&& forall|i: int| 0 <= i < a.len() ==> (#[trigger] a[i] is Found <==> b[i] is Found)
}

/// Two probes that showed the same kind of path; for directories, as many
/// entries, readable at the same places.
pub open spec fn same_probe_class(p: Probe, q: Probe) -> bool {
    match (p, q) {
        (Probe::MetadataFailed(_), Probe::MetadataFailed(_)) => true,
        (Probe::File, Probe::File) => true,
        (Probe::Unlistable(_), Probe::Unlistable(_)) => true,
        (Probe::Special, Probe::Special) => true,
        (Probe::Directory(a), Probe::Directory(b)) => {
            &&& a@.len() == b@.len()
            &&& forall|i: int| 0 <= i < a@.len() ==> (#[trigger] a@[i] is Ok <==> b@[i] is Ok)
        },
        _ => false,
    }
}

/// Two walks in the same stage: outcomes and pending work of the same class,
/// and a path out for probing in both or in neither.
pub open spec fn same_walk_class(s: WalkState, t: WalkState) -> bool {
    &&& same_class(s.found, t.found)
    &&& same_class(s.pending, t.pending)
    &&& (s.current is Some <==> t.current is Some)
}

proof fn lemma_settled_keeps_class(f1: Seq<Outcome>, p1: Seq<Outcome>, f2: Seq<Outcome>, p2: Seq<Outcome>)
    requires
        same_class(f1, f2),
        same_class(p1, p2),
    ensures
        same_class(settled(f1, p1).0, settled(f2, p2).0),
        same_class(settled(f1, p1).1, settled(f2, p2).1),
    decreases p1.len(),
{
    if p1.len() > 0 {
        let n = p1.len() - 1;
        assert(p1[n] is Found <==> p2[n] is Found);
        if p1.last() is Failed {
            let g1 = f1.push(p1.last());
            let g2 = f2.push(p2.last());
            assert forall|i: int| 0 <= i < g1.len() implies (#[trigger] g1[i] is Found <==> g2[i] is Found) by {
                if i < f1.len() {
                    assert(f1[i] is Found <==> f2[i] is Found);
                }
            }
            assert forall|i: int| 0 <= i < n implies (#[trigger] p1.drop_last()[i] is Found <==> p2.drop_last()[i] is Found) by {
                assert(p1[i] is Found <==> p2[i] is Found);
            }
            lemma_settled_keeps_class(g1, p1.drop_last(), g2, p2.drop_last());
        }
    }
}

/// Asking for the next path keeps two walks of the same class in step.
pub proof fn lemma_advance_keeps_class(s: WalkState, t: WalkState)
    requires
        same_walk_class(s, t),
    ensures
        same_walk_class(advanced(s), advanced(t)),
{
    if s.current is None {
        lemma_settled_keeps_class(s.found, s.pending, t.found, t.pending);
        let p1 = settled(s.found, s.pending).1;
        let p2 = settled(t.found, t.pending).1;
        if p1.len() > 0 {
            assert(p1[p1.len() - 1] is Found <==> p2[p2.len() - 1] is Found);
            assert forall|i: int| 0 <= i < p1.len() - 1 implies (#[trigger] p1.drop_last()[i] is Found <==> p2.drop_last()[i] is Found) by {
                assert(p1[i] is Found <==> p2[i] is Found);
            }
        }
    }
}

/// Recording probes of the same kind keeps two walks of the same class in
/// step. With `lemma_advance_keeps_class`: a walk through a symbolic link to
/// a directory, whose probes are those of the directory itself, yields as
/// many outcomes, classified alike, as the walk of the directory.
pub proof fn lemma_record_keeps_class(s: WalkState, t: WalkState, p: Probe, q: Probe)
    requires
        same_walk_class(s, t),
        same_probe_class(p, q),
    ensures
        same_walk_class(recorded(s, p), recorded(t, q)),
{
    if s.current is Some {
        let r1 = recorded(s, p);
        let r2 = recorded(t, q);
        assert forall|i: int| 0 <= i < r1.found.len() implies (#[trigger] r1.found[i] is Found <==> r2.found[i] is Found) by {
            if i < s.found.len() {
                assert(s.found[i] is Found <==> t.found[i] is Found);
            }
        }
        assert forall|i: int| 0 <= i < r1.pending.len() implies (#[trigger] r1.pending[i] is Found <==> r2.pending[i] is Found) by {
            if i < s.pending.len() {
                assert(s.pending[i] is Found <==> t.pending[i] is Found);
            } else {
                match (p, q) {
                    (Probe::Directory(a), Probe::Directory(b)) => {
                        let k = a@.len() - 1 - (i - s.pending.len());
                        assert(a@[k] is Ok <==> b@[k] is Ok);
                    },
                    _ => {},
                }
            }
        }
    }
}

proof fn lemma_models_push(s: Seq<PathOutcome>, o: PathOutcome)
    ensures
        models(s.push(o)) == models(s).push(o@),
{
    assert(models(s.push(o)) =~= models(s).push(o@));
}

proof fn lemma_models_drop_last(s: Seq<PathOutcome>)
    requires
        s.len() > 0,
    ensures
        models(s.drop_last()) == models(s).drop_last(),
        models(s).last() == s.last()@,
{
    assert(models(s.drop_last()) =~= models(s).drop_last());
}

impl Traversal {
    /// A walk that starts from `input`: a path to expand, or an error that
    /// is passed through as it is.
    pub fn new(input: PathOutcome) -> (r: Traversal)
        ensures
            r@ == start(input@),
    {
        let r = Traversal { found: Vec::new(), pending: crate::outcome::wrap_into_vec(input), current: None };
        proof {
            assert(r@.found =~= seq![]);
            assert(r@.pending =~= seq![input@]);
        }
        r
    }

    /// The next path to probe, or `None` when the walk is over.
    pub fn next_path(&mut self) -> (r: Option<String>)
        ensures
            final(self)@ == advanced(old(self)@),
            crate::outcome::opt_str_view(r) == final(self)@.current,
    {
        if let Some(p) = &self.current {
            return Some(p.clone());
        }
        let ghost s0 = self@;
        loop
            invariant
                self.current is None,
                s0.current is None,
                s0 == old(self)@,
                settled(self@.found, self@.pending) == settled(s0.found, s0.pending),
            decreases self.pending.len(),
        {
            let ghost f = self.found@;
            let ghost p = self.pending@;
            match self.pending.pop() {
                None => {
                    proof {
                        assert(settled(self@.found, self@.pending) == (self@.found, self@.pending));
                    }
                    return None;
                },
                Some(PathOutcome::Found(path)) => {
                    proof {
                        lemma_models_drop_last(p);
                        assert(settled(models(f), models(p)) == (models(f), models(p)));
                    }
                    let r = path.clone();
                    self.current = Some(path);
                    return Some(r);
                },
                Some(PathOutcome::Failed(e)) => {
                    proof {
                        lemma_models_drop_last(p);
                        lemma_models_push(f, PathOutcome::Failed(e));
                    }
                    self.found.push(PathOutcome::Failed(e));
                },
            }
        }
    }

    /// Records what probing the handed-out path showed; does nothing where
    /// no path is out.
    pub fn record(&mut self, probe: Probe)
        ensures
            final(self)@ == recorded(old(self)@, probe),
    {
        let path = match self.current.take() {
            None => {
                return;
            },
            Some(p) => p,
        };
        let ghost f = self.found@;
        match probe {
            Probe::MetadataFailed(e) => {
                let o = PathOutcome::Failed(ErrorWithPath { error: e, path: Some(path) });
                proof {
                    lemma_models_push(f, o);
                }
                self.found.push(o);
            },
            Probe::File => {
                let o = PathOutcome::Found(path);
                proof {
                    lemma_models_push(f, o);
                }
                self.found.push(o);
            },
            Probe::Unlistable(e) => {
                let o = PathOutcome::Failed(ErrorWithPath { error: e, path: Some(path) });
                proof {
                    lemma_models_push(f, o);
                }
                self.found.push(o);
            },
            Probe::Special => {
                let e = IoError {
                    kind: ErrorKind::InvalidInput,
                    message: "path identifies neither a directory nor a regular file".to_owned(),
                };
                let o = PathOutcome::Failed(ErrorWithPath { error: e, path: Some(path) });
                proof {
                    lemma_models_push(f, o);
                }
                self.found.push(o);
            },
            Probe::Directory(entries) => {
                self.stack_entries(entries);
            },
        }
    }

    fn stack_entries(&mut self, entries: Vec<Result<String, IoError>>)
        ensures
            final(self).found == old(self).found,
            final(self).current == old(self).current,
            final(self)@.pending == old(self)@.pending + stacked(entries@),
    {
        let ghost all = entries@;
        let ghost p0 = self@.pending;
        let mut entries = entries;
        while entries.len() > 0
            invariant
                self.found == old(self).found,
                self.current == old(self).current,
                p0 == old(self)@.pending,
                entries@.len() <= all.len(),
                entries@ == all.subrange(0, entries@.len() as int),
                self@.pending == p0 + stacked(all.subrange(entries@.len() as int, all.len() as int)),
            decreases entries.len(),
        {
            let ghost p = self.pending@;
            let ghost n = entries@.len();
            let e = entries.pop().unwrap();
            let o = match e {
                Ok(path) => PathOutcome::Found(path),
                Err(err) => PathOutcome::Failed(ErrorWithPath { error: err, path: None }),
            };
            proof {
                lemma_models_push(p, o);
                assert(all[n - 1] == e);
                let tail = all.subrange(n - 1, all.len() as int);
                let rest = all.subrange(n as int, all.len() as int);
                assert(stacked(tail) =~= stacked(rest).push(entry_outcome(e)));
                assert(entries@ =~= all.subrange(0, entries@.len() as int));
            }
            self.pending.push(o);
            proof {
                assert(self@.pending =~= p0 + stacked(all.subrange(entries@.len() as int, all.len() as int)));
            }
        }
        proof {
            assert(all.subrange(0, all.len() as int) =~= all);
        }
    }

    /// The outcomes of the walk, in the order they were produced.
    pub fn into_outcomes(self) -> (r: Vec<PathOutcome>)
        ensures
            models(r@) == self@.found,
    {
        self.found
    }
}

} // verus!
