//! The guess evaluator: per-character feedback of a guess against a secret
//! word.

use vstd::prelude::*;
use vstd::string::StrSliceExecFns;

verus! {

/// Feedback for one guessed character: exact-position match (`Green`),
/// present elsewhere in the secret word (`Yellow`), absent (`Gray`).
#[derive(Debug, PartialEq, Eq, Clone, Copy, Structural)]
pub enum CharColor {
    Yellow,
    Green,
    Gray,
}

/// The color owed to position `i`: `Green` on an exact match, `Yellow` when
/// the guessed character occurs anywhere in the secret word, `Gray`
/// otherwise.
///
/// Matching is against the secret word's character set, not against a count
/// of unmatched occurrences: a letter guessed more often than the secret
/// holds it is `Yellow` at every non-exact position where it occurs.
pub open spec fn color_at(secret: Seq<char>, guess: Seq<char>, i: int) -> CharColor {
    if guess[i] == secret[i] {
        CharColor::Green
    } else if secret.contains(guess[i]) {
        CharColor::Yellow
    } else {
        CharColor::Gray
    }
}

/// The full feedback for a guess: one color per guessed character, in order.
pub open spec fn evaluate_spec(secret: Seq<char>, guess: Seq<char>) -> Seq<CharColor> {
    Seq::new(guess.len(), |i: int| color_at(secret, guess, i))
}

/// One recorded guess: the word as submitted and one color per character.
pub struct WordGuess {
    pub word: String,
    pub char_states: Vec<CharColor>,
}

impl WordGuess {
    /// Every recorded guess carries exactly one color per character.
    pub open spec fn wf(self) -> bool {
        self.char_states@.len() == self.word@.len()
    }
}

/// Whether `s` holds the character `c` anywhere.
fn str_contains_char(s: &str, c: char) -> (r: bool)
    ensures
        r == s@.contains(c),
{
    let n = s.unicode_len();
    let mut i: usize = 0;
    while i < n
        invariant
            n == s@.len(),
            i <= n,
            forall|j: int| 0 <= j < i ==> s@[j] != c,
        decreases n - i,
    {
        if s.get_char(i) == c {
            proof {
                assert(s@[i as int] == c);
            }
            return true;
        }
        i = i + 1;
    }
    false
}

/// Evaluate a guess of the same length as the secret word: one color per
/// position, as `color_at` describes.
pub fn evaluate(secret: &str, guess: &str) -> (r: Vec<CharColor>)
    requires
        guess@.len() == secret@.len(),
    ensures
        r@ == evaluate_spec(secret@, guess@),
{
    let n = guess.unicode_len();
    let mut r: Vec<CharColor> = Vec::new();
    let mut i: usize = 0;
    while i < n
        invariant
            n == guess@.len(),
            guess@.len() == secret@.len(),
            i <= n,
            r@.len() == i,
            forall|j: int| 0 <= j < i ==> r@[j] == color_at(secret@, guess@, j),
        decreases n - i,
    {
        let gc = guess.get_char(i);
        let sc = secret.get_char(i);
        if gc == sc {
            r.push(CharColor::Green);
        } else if str_contains_char(secret, gc) {
            r.push(CharColor::Yellow);
        } else {
            r.push(CharColor::Gray);
        }
        i = i + 1;
    }
    proof {
        assert(r@ =~= evaluate_spec(secret@, guess@));
    }
    r
}

/// For equal-length secret and guess, the feedback has exactly one color per
/// guessed character, and every exact-position match is colored `Green`.
pub proof fn lemma_evaluate_length_and_greens(secret: Seq<char>, guess: Seq<char>)
    requires
        guess.len() == secret.len(),
    ensures
        evaluate_spec(secret, guess).len() == guess.len(),
        forall|i: int|
            0 <= i < guess.len() && guess[i] == secret[i] ==> evaluate_spec(secret, guess)[i]
                == CharColor::Green,
{
}

/// Evaluation is deterministic: two feedback sequences obtained for the same
/// secret word and the same guess are identical.
pub proof fn lemma_evaluate_deterministic(
    secret: Seq<char>,
    guess: Seq<char>,
    r1: Seq<CharColor>,
    r2: Seq<CharColor>,
)
    requires
        r1 == evaluate_spec(secret, guess),
        r2 == evaluate_spec(secret, guess),
    ensures
        r1 == r2,
{
}

} // verus!
