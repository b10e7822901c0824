//! Per-character feedback for one guessed word.

use vstd::prelude::*;

verus! {

/// A char in a guessed word may be in different states. It may not have been found,
/// or may be in its correct position, or in an incorrect position.
#[derive(Debug, Copy, Clone, PartialEq, Eq, PartialOrd, Ord, Structural)]
pub enum CharState {
    NotFound,
    IncorrectPosition,
    CorrectPosition,
}

impl CharState {
    /// Position of a state in the order NotFound < IncorrectPosition < CorrectPosition.
    pub open spec fn rank(self) -> nat {
        match self {
            CharState::NotFound => 0,
            CharState::IncorrectPosition => 1,
            CharState::CorrectPosition => 2,
        }
    }

    /// The greater of two states in the order given by `rank`.
    pub open spec fn spec_max(self, other: CharState) -> CharState {
        if self.rank() >= other.rank() {
            self
        } else {
            other
        }
    }

    /// The better of two states: a state only improves, it never regresses.
    pub fn better_of(self, other: CharState) -> (best: CharState)
        ensures
            best == self.spec_max(other),
    {
        match (self, other) {
            (CharState::CorrectPosition, _) => CharState::CorrectPosition,
            (_, CharState::CorrectPosition) => CharState::CorrectPosition,
            (CharState::IncorrectPosition, _) => CharState::IncorrectPosition,
            (_, CharState::IncorrectPosition) => CharState::IncorrectPosition,
            _ => CharState::NotFound,
        }
    }
}

/// A pair of a char with its state in a guess.
pub type CharGuess = (char, CharState);

/// True iff every entry of `entries` is in its correct position.
pub open spec fn all_correct(entries: Seq<CharGuess>) -> bool {
    forall|i: int| 0 <= i < entries.len() ==> (#[trigger] entries[i]).1 == CharState::CorrectPosition
}

/// State of all characters in a guessed word, one entry per position, in guess order.
#[derive(Debug, PartialEq)]
pub struct GuessResult {
    pub char_guesses: Vec<CharGuess>,
}

impl View for GuessResult {
    type V = Seq<CharGuess>;

    open spec fn view(&self) -> Seq<CharGuess> {
        self.char_guesses@
    }
}

impl Clone for GuessResult {
    /// A copy of this result, entry for entry.
    fn clone(&self) -> (copy: GuessResult)
        ensures
            copy@ == self@,
    {
        let n: usize = self.char_guesses.len();
        let mut entries: Vec<CharGuess> = Vec::new();
        let mut i: usize = 0;
        while i < n
            invariant
                n == self.char_guesses@.len(),
                i <= n,
                entries@ == self@.subrange(0, i as int),
            decreases n - i,
        {
            entries.push(self.char_guesses[i]);
            proof {
                assert(entries@ =~= self@.subrange(0, i + 1));
            }
            i += 1;
        }
        proof {
            assert(self@.subrange(0, n as int) =~= self@);
        }
        GuessResult { char_guesses: entries }
    }
}

impl GuessResult {
    pub fn new(char_guesses: Vec<CharGuess>) -> (result: GuessResult)
        ensures
            result@ == char_guesses@,
    {
        GuessResult { char_guesses: char_guesses }
    }

    /// A guess wins iff every one of its characters is in its correct position.
    pub fn is_correct(&self) -> (correct: bool)
        ensures
            correct == all_correct(self@),
    {
        let n: usize = self.char_guesses.len();
        let mut i: usize = 0;
        while i < n
            invariant
                n == self.char_guesses@.len(),
                i <= n,
                forall|j: int| 0 <= j < i ==> (#[trigger] self@[j]).1 == CharState::CorrectPosition,
            decreases n - i,
        {
            if self.char_guesses[i].1 != CharState::CorrectPosition {
                return false;
            }
            i += 1;
        }
        true
    }
}

} // verus!
