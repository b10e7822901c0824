//! What the feedback for a guess against a target is, stated position by position,
//! and the facts that follow from that statement.

use crate::guess::CharGuess;
use crate::guess::CharState;
use crate::keyboard_view::best_state;
use vstd::prelude::*;

verus! {

/// Number of positions below `n` at which `word` holds `c`.
pub open spec fn occurrences(word: Seq<char>, c: char, n: int) -> nat
    recommends
        n <= word.len(),
    decreases n,
{
    if n <= 0 {
        0
    } else {
        occurrences(word, c, n - 1) + if word[n - 1] == c {
            1nat
        } else {
            0nat
        }
    }
}

/// Number of positions below `n` at which `guess` and `target` both hold `c`.
pub open spec fn exact_matches(guess: Seq<char>, target: Seq<char>, c: char, n: int) -> nat
    recommends
        n <= guess.len(),
        n <= target.len(),
    decreases n,
{
    if n <= 0 {
        0
    } else {
        exact_matches(guess, target, c, n - 1) + if guess[n - 1] == c && target[n - 1] == c {
            1nat
        } else {
            0nat
        }
    }
}

/// How many occurrences of `c` in `target` no exact match has consumed.
pub open spec fn unmatched_in_target(guess: Seq<char>, target: Seq<char>, c: char) -> int {
    occurrences(target, c, target.len() as int) - exact_matches(
        guess,
        target,
        c,
        target.len() as int,
    )
}

/// How many positions below `i` hold `c` in `guess` without being an exact match.
pub open spec fn unmatched_before(guess: Seq<char>, target: Seq<char>, c: char, i: int) -> int {
    occurrences(guess, c, i) - exact_matches(guess, target, c, i)
}

/// The state of position `i` of `guess` against `target`: an exact match is in its
/// correct position; of the other occurrences of a character, the leftmost ones are in
/// an incorrect position, as many as the target has occurrences left over, and the
/// rest are not found.
pub open spec fn state_at(guess: Seq<char>, target: Seq<char>, i: int) -> CharState
    recommends
        guess.len() == target.len(),
        0 <= i < guess.len(),
{
    if guess[i] == target[i] {
        CharState::CorrectPosition
    } else if unmatched_before(guess, target, guess[i], i) < unmatched_in_target(
        guess,
        target,
        guess[i],
    ) {
        CharState::IncorrectPosition
    } else {
        CharState::NotFound
    }
}

/// The feedback for `guess` against `target`, one entry per position of the guess.
pub open spec fn evaluate(guess: Seq<char>, target: Seq<char>) -> Seq<CharGuess>
    recommends
        guess.len() == target.len(),
{
    Seq::new(guess.len(), |i: int| (guess[i], state_at(guess, target, i)))
}

/// Number of entries below `n` that give `c` a state other than `NotFound`.
pub open spec fn hinted(entries: Seq<CharGuess>, c: char, n: int) -> nat
    recommends
        n <= entries.len(),
    decreases n,
{
    if n <= 0 {
        0
    } else {
        hinted(entries, c, n - 1) + if entries[n - 1].0 == c && entries[n - 1].1
            != CharState::NotFound {
            1nat
        } else {
            0nat
        }
    }
}

/// There are at most as many exact matches of `c` as either word has occurrences of it.
pub proof fn lemma_exact_matches_bounded(guess: Seq<char>, target: Seq<char>, c: char, n: int)
    ensures
        exact_matches(guess, target, c, n) <= occurrences(guess, c, n),
        exact_matches(guess, target, c, n) <= occurrences(target, c, n),
    decreases n,
{
    if n > 0 {
        lemma_exact_matches_bounded(guess, target, c, n - 1);
    }
}

/// Over a stretch of positions without `c` in `word`, no count of `c` moves.
pub proof fn lemma_counts_skip_gap(word: Seq<char>, other: Seq<char>, c: char, m: int, n: int)
    requires
        0 <= m <= n,
        forall|j: int| m <= j < n ==> word[j] != c,
    ensures
        occurrences(word, c, n) == occurrences(word, c, m),
        exact_matches(word, other, c, n) == exact_matches(word, other, c, m),
        exact_matches(other, word, c, n) == exact_matches(other, word, c, m),
    decreases n - m,
{
    if m < n {
        lemma_counts_skip_gap(word, other, c, m, n - 1);
    }
}

/// The number of unmatched occurrences to the left of a position grows with the position.
pub proof fn lemma_unmatched_before_grows(
    guess: Seq<char>,
    target: Seq<char>,
    c: char,
    i: int,
    j: int,
)
    requires
        0 <= i <= j,
    ensures
        0 <= unmatched_before(guess, target, c, i) <= unmatched_before(guess, target, c, j),
    decreases j - i,
{
    lemma_exact_matches_bounded(guess, target, c, i);
    if i < j {
        lemma_unmatched_before_grows(guess, target, c, i, j - 1);
    }
}

/// A character that the target does not hold is not found wherever the guess holds it.
pub proof fn lemma_absent_character_not_found(guess: Seq<char>, target: Seq<char>, i: int)
    requires
        guess.len() == target.len(),
        0 <= i < guess.len(),
        forall|k: int| 0 <= k < target.len() ==> target[k] != guess[i],
    ensures
        state_at(guess, target, i) == CharState::NotFound,
{
    let c = guess[i];
    lemma_counts_skip_gap(target, guess, c, 0, target.len() as int);
    lemma_unmatched_before_grows(guess, target, c, 0, i);
}

/// The feedback has one entry per position of the target, and each entry carries the
/// character that the guess holds at its position.
pub proof fn lemma_evaluate_shape(guess: Seq<char>, target: Seq<char>)
    requires
        guess.len() == target.len(),
    ensures
        evaluate(guess, target).len() == target.len(),
        forall|i: int|
            0 <= i < guess.len() ==> (#[trigger] evaluate(guess, target)[i]).0 == guess[i],
{
}

/// A word guessed against itself is in its correct position everywhere: it wins.
pub proof fn lemma_self_match_wins(target: Seq<char>)
    ensures
        crate::guess::all_correct(evaluate(target, target)),
{
}

/// A guess wins exactly when it is the target.
pub proof fn lemma_win_iff_equal(guess: Seq<char>, target: Seq<char>)
    requires
        guess.len() == target.len(),
    ensures
        crate::guess::all_correct(evaluate(guess, target)) <==> guess == target,
{
    if crate::guess::all_correct(evaluate(guess, target)) {
        assert forall|i: int| 0 <= i < guess.len() implies guess[i] == target[i] by {
            assert(evaluate(guess, target)[i].1 == CharState::CorrectPosition);
        }
        assert(guess =~= target);
    }
}

/// How many hints a character has received up to a position: its exact matches, and
/// of its unmatched occurrences as many as the target has left over.
pub proof fn lemma_hinted_closed_form(guess: Seq<char>, target: Seq<char>, c: char, n: int)
    requires
        guess.len() == target.len(),
        0 <= n <= guess.len(),
    ensures
        hinted(evaluate(guess, target), c, n) == exact_matches(guess, target, c, n) + (
        if unmatched_before(guess, target, c, n) < unmatched_in_target(guess, target, c) {
            unmatched_before(guess, target, c, n)
        } else {
            unmatched_in_target(guess, target, c)
        }),
    decreases n,
{
    lemma_exact_matches_bounded(guess, target, c, target.len() as int);
    lemma_exact_matches_bounded(guess, target, c, n);
    if n > 0 {
        lemma_hinted_closed_form(guess, target, c, n - 1);
        lemma_exact_matches_bounded(guess, target, c, n - 1);
        let entry = evaluate(guess, target)[n - 1];
        assert(entry.0 == guess[n - 1]);
        assert(entry.1 == state_at(guess, target, n - 1));
    }
}

/// A word that holds a character somewhere holds it at least once.
pub proof fn lemma_occurrences_positive(word: Seq<char>, c: char, n: int, p: int)
    requires
        0 <= p < n,
        word[p] == c,
    ensures
        occurrences(word, c, n) >= 1,
    decreases n,
{
    if p < n - 1 {
        lemma_occurrences_positive(word, c, n - 1, p);
    }
}

/// The best state that entries give a character is `NotFound` exactly if none of them
/// gives it a hint.
pub proof fn lemma_unhinted_iff_best_not_found(entries: Seq<CharGuess>, c: char, n: int)
    ensures
        (best_state(entries, c, n) == CharState::NotFound) <==> hinted(entries, c, n) == 0,
    decreases n,
{
    if n > 0 {
        lemma_unhinted_iff_best_not_found(entries, c, n - 1);
    }
}

/// Conservation of character counts: the entries that give a character a state other
/// than `NotFound` are never more than its occurrences in the guess, nor more than its
/// occurrences in the target; they are as many as the smaller of the two.
pub proof fn lemma_hints_conserve_counts(guess: Seq<char>, target: Seq<char>, c: char)
    requires
        guess.len() == target.len(),
    ensures
        hinted(evaluate(guess, target), c, guess.len() as int) == occurrences(
            guess,
            c,
            guess.len() as int,
        ) || hinted(evaluate(guess, target), c, guess.len() as int) == occurrences(
            target,
            c,
            target.len() as int,
        ),
        hinted(evaluate(guess, target), c, guess.len() as int) <= occurrences(
            guess,
            c,
            guess.len() as int,
        ),
        hinted(evaluate(guess, target), c, guess.len() as int) <= occurrences(
            target,
            c,
            target.len() as int,
        ),
{
    let n = guess.len() as int;
    lemma_hinted_closed_form(guess, target, c, n);
    lemma_exact_matches_bounded(guess, target, c, n);
}

/// Leftmost tie-break: of two occurrences of one character that are no exact matches,
/// the right one is in an incorrect position only if the left one is too; so where the
/// guess holds more copies than the target can account for, the rightmost are not found.
pub proof fn lemma_leftmost_first(guess: Seq<char>, target: Seq<char>, i: int, j: int)
    requires
        guess.len() == target.len(),
        0 <= i < j < guess.len(),
        guess[i] == guess[j],
        guess[i] != target[i],
        state_at(guess, target, j) == CharState::IncorrectPosition,
    ensures
        state_at(guess, target, i) == CharState::IncorrectPosition,
{
    lemma_unmatched_before_grows(guess, target, guess[i], i, j);
}

} // verus!
