//! One player's session record and the win detector over its guess history.

use vstd::prelude::*;
use crate::guess::CharColor;
use crate::guess::WordGuess;

verus! {

/// One player's session record: display name, ownership flag, current lobby
/// affiliation (`None` means unaffiliated) and the append-only history of
/// guesses.
pub struct PlayerState {
    pub name: String,
    pub is_owner: bool,
    pub lobby: Option<String>,
    pub word_guesses: Vec<WordGuess>,
}

/// Whether every color recorded for one guess is `Green`.
pub open spec fn guess_all_green(g: WordGuess) -> bool {
    forall|i: int| 0 <= i < g.char_states@.len() ==> g.char_states@[i] == CharColor::Green
}

/// A session has won when it has guessed at least once and every color of
/// every recorded guess is `Green`.
///
/// The predicate ranges over the whole cumulative history, not only the
/// latest guess: once a session records one imperfect guess it can never win
/// again, even on a later exact guess.
pub open spec fn has_won_spec(p: PlayerState) -> bool {
    &&& p.word_guesses@.len() > 0
    &&& forall|k: int| 0 <= k < p.word_guesses@.len() ==> guess_all_green(p.word_guesses@[k])
}

/// A freshly created session: empty name, not an owner, no lobby, no
/// guesses.
pub open spec fn fresh_player(p: PlayerState) -> bool {
    &&& p.name@ == Seq::<char>::empty()
    &&& !p.is_owner
    &&& p.lobby is None
    &&& p.word_guesses@ == Seq::<WordGuess>::empty()
}

/// Whether every color of one recorded guess is `Green`.
fn all_green(g: &WordGuess) -> (r: bool)
    ensures
        r == guess_all_green(*g),
{
    let n = g.char_states.len();
    let mut i: usize = 0;
    while i < n
        invariant
            n == g.char_states@.len(),
            i <= n,
            forall|j: int| 0 <= j < i ==> g.char_states@[j] == CharColor::Green,
        decreases n - i,
    {
        match g.char_states[i] {
            CharColor::Green => {
            },
            _ => {
                return false;
            },
        }
        i = i + 1;
    }
    true
}

impl PlayerState {
    /// The win detector over this session's cumulative guess history.
    pub fn has_won(&self) -> (r: bool)
        ensures
            r == has_won_spec(*self),
    {
        let n = self.word_guesses.len();
        if n == 0 {
            return false;
        }
        let mut k: usize = 0;
        while k < n
            invariant
                n == self.word_guesses@.len(),
                k <= n,
                forall|t: int| 0 <= t < k ==> guess_all_green(self.word_guesses@[t]),
            decreases n - k,
        {
            if !all_green(&self.word_guesses[k]) {
                return false;
            }
            k = k + 1;
        }
        true
    }
}

impl Default for PlayerState {
    /// A fresh, unaffiliated session with an empty history.
    fn default() -> (r: Self)
        ensures
            fresh_player(r),
    {
        PlayerState { name: String::new(), is_owner: false, lobby: None, word_guesses: Vec::new() }
    }
}

} // verus!
