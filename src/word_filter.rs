//! The word filter: a root that is not a directory is refused, and of the
//! files that a walk found only those whose contents hold the word are kept.
use vstd::prelude::*;
use vstd::utf8::encode_utf8;
use crate::outcome::{ErrorKind, ErrorWithPath, IoError, Outcome, PathError, PathOutcome, models};
use crate::traversal::{WalkState, advanced, failed_at, lemma_error_input_passes_through, start};

verus! {

/// The message of the error for a root that is not an accessible directory.
pub open spec fn non_dir_message() -> Seq<char> {
    "path doesn't identify an accessible directory"@
}

/// The error for a root that is not an accessible directory.
pub open spec fn non_dir_error(dir: Seq<char>) -> Outcome {
    Outcome::Failed(PathError { kind: ErrorKind::InvalidInput, message: non_dir_message(), path: Some(dir) })
}

/// Where a search starts: the root itself where it is a directory, else the
/// error that refuses it.
pub open spec fn root_start(dir: Seq<char>, is_dir: bool) -> Outcome {
    if is_dir {
        Outcome::Found(dir)
    } else {
        non_dir_error(dir)
    }
}

/// `word` stands in `text` from byte `i` on.
pub open spec fn occurs_at(word: Seq<u8>, text: Seq<u8>, i: int) -> bool {
    0 <= i && i + word.len() <= text.len() && text.subrange(i, i + word.len()) == word
}

/// `word` stands somewhere in `text`.
pub open spec fn occurs(word: Seq<u8>, text: Seq<u8>) -> bool {
    exists|i: int| occurs_at(word, text, i)
}

/// The UTF-8 encoding of `word` is a contiguous part of that of `text`; the
/// empty word is part of every text.
pub open spec fn holds_word(text: Seq<char>, word: Seq<char>) -> bool {
    occurs(encode_utf8(word), encode_utf8(text))
}

/// What reading a found file makes of it: an error where the read failed,
/// the file where its contents hold the word, nothing where they do not.
pub open spec fn read_outcome(path: Seq<char>, read: Result<String, IoError>, word: Seq<char>) -> Seq<Outcome> {
    match read {
        Err(e) => seq![failed_at(e, path)],
        Ok(contents) => if holds_word(contents@, word) {
            seq![Outcome::Found(path)]
        } else {
            seq![]
        },
    }
}

/// What the filter makes of one outcome of a walk: an error passes through;
/// a found file goes by what reading it gave.
pub open spec fn filter_one(o: Outcome, read: Option<Result<String, IoError>>, word: Seq<char>) -> Seq<Outcome> {
    match o {
        Outcome::Failed(_) => seq![o],
        Outcome::Found(p) => match read {
            Some(r) => read_outcome(p, r, word),
            None => seq![o],
        },
    }
}

/// `reads` holds, for each outcome, what reading it gave where it is a found
/// file, and nothing where it is an error.
pub open spec fn aligned(outcomes: Seq<Outcome>, reads: Seq<Option<Result<String, IoError>>>) -> bool {
    &&& outcomes.len() == reads.len()
    &&& forall|i: int| 0 <= i < outcomes.len() ==> (#[trigger] outcomes[i] is Found <==> reads[i] is Some)
}

/// The filtered outcomes, in the order of the walk.
pub open spec fn filtered(
    outcomes: Seq<Outcome>,
    reads: Seq<Option<Result<String, IoError>>>,
    word: Seq<char>,
) -> Seq<Outcome>
    decreases outcomes.len(),
{
    if outcomes.len() == 0 || reads.len() == 0 {
        seq![]
    } else {
        filtered(outcomes.drop_last(), reads.drop_last(), word) + filter_one(outcomes.last(), reads.last(), word)
    }
}

/// A search from a root that is not an accessible directory probes nothing
/// and yields exactly one outcome, the error that refuses the root, for any
/// word.
pub proof fn lemma_non_directory_root_yields_one_error(
    dir: Seq<char>,
    reads: Seq<Option<Result<String, IoError>>>,
    word: Seq<char>,
)
    requires
        aligned(seq![non_dir_error(dir)], reads),
    ensures
        advanced(start(root_start(dir, false))) == (WalkState {
            found: seq![non_dir_error(dir)],
            pending: seq![],
            current: None,
        }),
        filtered(seq![non_dir_error(dir)], reads, word) == seq![non_dir_error(dir)],
{
    lemma_error_input_passes_through(PathError { kind: ErrorKind::InvalidInput, message: non_dir_message(), path: Some(dir) });
    let s = seq![non_dir_error(dir)];
    assert(s.drop_last() =~= seq![]);
    assert(filtered(s.drop_last(), reads.drop_last(), word) =~= seq![]);
    assert(filtered(s, reads, word) =~= seq![non_dir_error(dir)]);
}

/// What an outcome becomes once its file, if it is one, was read: a failed
/// read is an error on the file's path; anything else stays as it is.
pub open spec fn read_checked(o: Outcome, read: Option<Result<String, IoError>>) -> Outcome {
    match o {
        Outcome::Found(p) => match read {
            Some(Err(e)) => failed_at(e, p),
            _ => o,
        },
        Outcome::Failed(_) => o,
    }
}

/// Filtering by the empty word removes nothing: each file that could be
/// read is kept, each that could not is an error, and each error stays.
pub proof fn lemma_empty_word_keeps_every_file(
    outcomes: Seq<Outcome>,
    reads: Seq<Option<Result<String, IoError>>>,
)
    requires
        aligned(outcomes, reads),
    ensures
        filtered(outcomes, reads, seq![]) == Seq::new(outcomes.len(), |i: int| read_checked(outcomes[i], reads[i])),
    decreases outcomes.len(),
{
    if outcomes.len() > 0 {
        let n = outcomes.len() - 1;
        assert forall|i: int| 0 <= i < n implies (#[trigger] outcomes.drop_last()[i] is Found <==> reads.drop_last()[i] is Some) by {
            assert(outcomes[i] is Found <==> reads[i] is Some);
        }
        lemma_empty_word_keeps_every_file(outcomes.drop_last(), reads.drop_last());
        assert(outcomes[n] is Found <==> reads[n] is Some);
        match reads.last() {
            Some(Ok(c)) => {
                assert(encode_utf8(seq![]) =~= Seq::<u8>::empty());
                assert(encode_utf8(c@).subrange(0, 0) =~= Seq::<u8>::empty());
                assert(occurs_at(encode_utf8(seq![]), encode_utf8(c@), 0));
            },
            _ => {},
        }
        assert(filtered(outcomes, reads, seq![]) =~= Seq::new(outcomes.len(), |i: int| read_checked(outcomes[i], reads[i])));
    } else {
        assert(filtered(outcomes, reads, seq![]) =~= Seq::new(outcomes.len(), |i: int| read_checked(outcomes[i], reads[i])));
    }
}

/// Where a search from `dir` starts, given whether `dir` is an accessible
/// directory.
pub fn root_outcome(dir: String, is_dir: bool) -> (r: PathOutcome)
    ensures
        r@ == root_start(dir@, is_dir),
{
    if is_dir {
        PathOutcome::Found(dir)
    } else {
        let error = IoError {
            kind: ErrorKind::InvalidInput,
            message: "path doesn't identify an accessible directory".to_owned(),
        };
        PathOutcome::Failed(ErrorWithPath { error, path: Some(dir) })
    }
}

fn matches_at(text: &[u8], word: &[u8], i: usize) -> (r: bool)
    requires
        i + word@.len() <= text@.len(),
    ensures
        r == (text@.subrange(i as int, i + word@.len()) == word@),
{
    let mut j: usize = 0;
    while j < word.len()
        invariant
            text@.len() == text.len(),
            i + word@.len() <= text@.len(),
            j <= word@.len(),
            forall|k: int| 0 <= k < j ==> text@[i + k] == word@[k],
        decreases word@.len() - j,
    {
        if text[i + j] != word[j] {
            proof {
                assert(text@.subrange(i as int, i + word@.len())[j as int] != word@[j as int]);
            }
            return false;
        }
        j += 1;
    }
    proof {
        assert(text@.subrange(i as int, i + word@.len()) =~= word@);
    }
    true
}

/// Whether `word` is part of `text`, byte for byte.
pub fn contains_word(text: &str, word: &str) -> (r: bool)
    ensures
        r == holds_word(text@, word@),
{
    let t = text.as_bytes();
    let w = word.as_bytes();
    proof {
        assert(t@ == encode_utf8(text@));
        assert(w@ == encode_utf8(word@));
    }
    if w.len() > t.len() {
        return false;
    }
    let last: usize = t.len() - w.len();
    let mut i: usize = 0;
    loop
        invariant
            t@ == encode_utf8(text@),
            w@ == encode_utf8(word@),
            last == t@.len() - w@.len(),
            i <= last,
            forall|k: int| 0 <= k < i ==> !occurs_at(w@, t@, k),
        decreases last - i,
    {
        if matches_at(t, w, i) {
            proof {
                assert(occurs_at(w@, t@, i as int));
            }
            return true;
        }
        if i == last {
            return false;
        }
        i += 1;
    }
}

fn copy_io_error(e: &IoError) -> (r: IoError)
    ensures
        r.kind == e.kind,
        r.message@ == e.message@,
{
    IoError { kind: e.kind, message: e.message.clone() }
}

fn copy_outcome(o: &PathOutcome) -> (r: PathOutcome)
    ensures
        r@ == o@,
{
    match o {
        PathOutcome::Found(p) => PathOutcome::Found(p.clone()),
        PathOutcome::Failed(e) => {
            let path = match &e.path {
                Some(p) => Some(p.clone()),
                None => None,
            };
            PathOutcome::Failed(ErrorWithPath { error: copy_io_error(&e.error), path })
        },
    }
}

proof fn lemma_filtered_prefix(
    outcomes: Seq<Outcome>,
    reads: Seq<Option<Result<String, IoError>>>,
    word: Seq<char>,
    i: int,
)
    requires
        0 <= i < outcomes.len(),
        outcomes.len() == reads.len(),
    ensures
        filtered(outcomes.subrange(0, i + 1), reads.subrange(0, i + 1), word) == filtered(
            outcomes.subrange(0, i),
            reads.subrange(0, i),
            word,
        ) + filter_one(outcomes[i], reads[i], word),
{
    assert(outcomes.subrange(0, i + 1).drop_last() =~= outcomes.subrange(0, i));
    assert(reads.subrange(0, i + 1).drop_last() =~= reads.subrange(0, i));
}

/// Keeps, of the outcomes of a walk, the errors, and the found files whose
/// contents hold `word`; a found file whose read failed becomes an error on
/// its path. `reads[i]` is what reading `outcomes[i]` gave, where that is a
/// found file.
pub fn filter_by_word(
    outcomes: &Vec<PathOutcome>,
    reads: &Vec<Option<Result<String, IoError>>>,
    word: &str,
) -> (r: Vec<PathOutcome>)
    requires
        aligned(models(outcomes@), reads@),
    ensures
        models(r@) == filtered(models(outcomes@), reads@, word@),
{
    let ghost all = models(outcomes@);
    let mut r: Vec<PathOutcome> = Vec::new();
    let mut i: usize = 0;
    proof {
        assert(models(r@) =~= filtered(all.subrange(0, 0), reads@.subrange(0, 0), word@));
    }
    while i < outcomes.len()
        invariant
            all == models(outcomes@),
            aligned(all, reads@),
            i <= outcomes@.len(),
            models(r@) == filtered(all.subrange(0, i as int), reads@.subrange(0, i as int), word@),
        decreases outcomes@.len() - i,
    {
        let ghost before = r@;
        proof {
            lemma_filtered_prefix(all, reads@, word@, i as int);
            assert(all[i as int] == outcomes@[i as int]@);
            assert(all[i as int] is Found <==> reads@[i as int] is Some);
        }
        match &outcomes[i] {
            PathOutcome::Failed(_) => {
                r.push(copy_outcome(&outcomes[i]));
                proof {
                    assert(models(r@) =~= models(before) + filter_one(all[i as int], reads@[i as int], word@));
                }
            },
            PathOutcome::Found(p) => {
                match &reads[i] {
                    Some(Err(e)) => {
                        let err = ErrorWithPath { error: copy_io_error(e), path: Some(p.clone()) };
                        r.push(PathOutcome::Failed(err));
                        proof {
                            assert(models(r@) =~= models(before) + filter_one(all[i as int], reads@[i as int], word@));
                        }
                    },
                    Some(Ok(contents)) => {
                        if contains_word(contents.as_str(), word) {
                            r.push(PathOutcome::Found(p.clone()));
                            proof {
                                assert(models(r@) =~= models(before) + filter_one(all[i as int], reads@[i as int], word@));
                            }
                        } else {
                            proof {
                                assert(models(r@) =~= models(before) + filter_one(all[i as int], reads@[i as int], word@));
                            }
                        }
                    },
                    None => {
                        proof {
                            assert(false);
                        }
                    },
                }
            },
        }
        i += 1;
    }
    proof {
        assert(all.subrange(0, i as int) =~= all);
        assert(reads@.subrange(0, i as int) =~= reads@);
    }
    r
}

} // verus!
