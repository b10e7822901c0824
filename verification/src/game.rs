//! One round of the game: a dictionary, a target word, and the guesses made so far.

use crate::dictionary::Dictionary;
use crate::evaluation::evaluate;
use crate::evaluation::exact_matches;
use crate::evaluation::lemma_absent_character_not_found;
use crate::evaluation::lemma_counts_skip_gap;
use crate::evaluation::lemma_exact_matches_bounded;
use crate::evaluation::lemma_hinted_closed_form;
use crate::evaluation::lemma_occurrences_positive;
use crate::evaluation::lemma_unhinted_iff_best_not_found;
use crate::evaluation::lemma_win_iff_equal;
use crate::evaluation::occurrences;
use crate::evaluation::state_at;
use crate::evaluation::unmatched_before;
use crate::evaluation::unmatched_in_target;
use crate::guess::all_correct;
use crate::guess::CharGuess;
use crate::guess::CharState;
use crate::guess::GuessResult;
use crate::keyboard_view::absorbed;
use crate::keyboard_view::agrees;
use crate::keyboard_view::best_state;
use crate::keyboard_view::consistent;
use crate::keyboard_view::lemma_absorb_monotonic;
use crate::keyboard_view::no_worse;
use crate::keyboard_view::occurs;
use crate::keyboard_view::KeyboardView;
use crate::positions::chars_of;
use crate::positions::find_char;
use crate::positions::has_key;
use crate::positions::is_positions_map;
use crate::positions::is_positions_of;
use crate::positions::lemma_clear_between;
use crate::positions::lemma_scan_start;
use crate::positions::lemma_scan_step;
use crate::positions::lists;
use crate::positions::position_listed;
use crate::positions::positions_map_of;
use crate::positions::scan_limit;
use crate::positions::PositionsMap;
use vstd::prelude::*;
use vstd::string::*;

verus! {

/// Gives every occurrence of `ch` in the guess its state. The exact matches are the
/// positions that both lists hold. Of the other occurrences in the guess, the
/// leftmost ones are in an incorrect position, as many as the target has occurrences
/// that no exact match has consumed.
fn mark_character(
    char_guesses: &mut Vec<CharGuess>,
    ch: char,
    guess_positions: &Vec<usize>,
    target_positions: &Vec<usize>,
    Ghost(guess): Ghost<Seq<char>>,
    Ghost(target): Ghost<Seq<char>>,
)
    requires
        guess.len() == target.len(),
        old(char_guesses)@.len() == guess.len(),
        is_positions_of(guess_positions@, guess, ch),
        is_positions_of(target_positions@, target, ch),
        forall|i: int| 0 <= i < guess.len() ==> (#[trigger] old(char_guesses)@[i]).0 == guess[i],
        forall|i: int|
            0 <= i < guess.len() && guess[i] == ch ==> (#[trigger] old(char_guesses)@[i]).1
                == CharState::NotFound,
    ensures
        final(char_guesses)@.len() == guess.len(),
        forall|i: int|
            0 <= i < guess.len() && guess[i] != ch ==> #[trigger] final(char_guesses)@[i] == old(
                char_guesses,
            )@[i],
        forall|i: int|
            0 <= i < guess.len() && guess[i] == ch ==> #[trigger] final(char_guesses)@[i] == (
                ch,
                state_at(guess, target, i),
            ),
{
    let count: usize = guess_positions.len();
    let ghost len = guess.len() as int;
    let mut intersection_len: usize = 0;
    // positions of this character in the guess but not in the target, in ascending order
    let mut sorted_diff: Vec<usize> = Vec::new();
    let mut a: usize = 0;
    proof {
        lemma_scan_start(guess_positions@, guess, target, ch);
    }
    while a < count
        invariant
            count == guess_positions@.len(),
            a <= count,
            len == guess.len() == target.len(),
            char_guesses@.len() == len,
            is_positions_of(guess_positions@, guess, ch),
            is_positions_of(target_positions@, target, ch),
            forall|i: int| 0 <= i < len ==> (#[trigger] char_guesses@[i]).0 == guess[i],
            forall|i: int|
                0 <= i < len && guess[i] != ch ==> #[trigger] char_guesses@[i] == old(
                    char_guesses,
                )@[i],
            forall|i: int|
                0 <= i < len && guess[i] == ch ==> (#[trigger] char_guesses@[i]).1 == (if i
                    < scan_limit(guess_positions@, a as int, len) && target[i] == ch {
                    CharState::CorrectPosition
                } else {
                    CharState::NotFound
                }),
            occurrences(guess, ch, scan_limit(guess_positions@, a as int, len)) == a,
            exact_matches(guess, target, ch, scan_limit(guess_positions@, a as int, len))
                == intersection_len,
            intersection_len + sorted_diff@.len() == a,
            forall|d: int|
                0 <= d < sorted_diff@.len() ==> {
                    &&& (#[trigger] sorted_diff@[d]) < scan_limit(guess_positions@, a as int, len)
                    &&& sorted_diff@[d] < len
                    &&& guess[sorted_diff@[d] as int] == ch
                    &&& target[sorted_diff@[d] as int] != ch
                    &&& unmatched_before(guess, target, ch, sorted_diff@[d] as int) == d
                },
            forall|i: int|
                0 <= i < scan_limit(guess_positions@, a as int, len) && guess[i] == ch && target[i]
                    != ch ==> lists(sorted_diff@, i),
        decreases count - a,
    {
        let position: usize = guess_positions[a];
        let ghost diff_before = sorted_diff@;
        proof {
            lemma_scan_step(guess_positions@, guess, target, ch, a as int);
            if lists(target_positions@, position as int) {
                let b = choose|b: int|
                    0 <= b < target_positions@.len() && #[trigger] target_positions@[b]
                        == position as int;
                assert(target[position as int] == ch);
            }
        }
        if position_listed(target_positions, position) {
            char_guesses.set(position, (ch, CharState::CorrectPosition));
            intersection_len += 1;
        } else {
            sorted_diff.push(position);
        }
        proof {
            let next = scan_limit(guess_positions@, a + 1, len);
            assert forall|i: int|
                0 <= i < next && guess[i] == ch && target[i] != ch implies lists(
                sorted_diff@,
                i,
            ) by {
                if i < position {
                    assert(lists(diff_before, i));
                    let d = choose|d: int| 0 <= d < diff_before.len() && #[trigger] diff_before[d] == i;
                    assert(sorted_diff@[d] == i);
                } else {
                    if i > position {
                        lemma_clear_between(guess_positions@, guess, ch, a + 1);
                        assert(guess[i] != ch);
                    }
                    assert(sorted_diff@[diff_before.len() as int] == i);
                }
            }
            assert forall|i: int| 0 <= i < len && guess[i] == ch implies (#[trigger] char_guesses@[i]).1
                == (if i < next && target[i] == ch {
                CharState::CorrectPosition
            } else {
                CharState::NotFound
            }) by {
                if i > position && i < next {
                    lemma_clear_between(guess_positions@, guess, ch, a + 1);
                    assert(guess[i] != ch);
                }
            }
        }
        a += 1;
    }
    proof {
        lemma_exact_matches_bounded(guess, target, ch, len);
    }
    // how many occurrences of ch in target but not in the intersection?
    let extra_count: usize = target_positions.len() - intersection_len;
    let trimmed_length: usize = if extra_count < sorted_diff.len() {
        extra_count
    } else {
        sorted_diff.len()
    };
    let ghost exact_marks = char_guesses@;
    let mut d: usize = 0;
    while d < trimmed_length
        invariant
            d <= trimmed_length <= sorted_diff@.len(),
            len == guess.len() == target.len(),
            char_guesses@.len() == len,
            exact_marks.len() == len,
            forall|e: int|
                0 <= e < sorted_diff@.len() ==> {
                    &&& (#[trigger] sorted_diff@[e]) < len
                    &&& guess[sorted_diff@[e] as int] == ch
                    &&& target[sorted_diff@[e] as int] != ch
                    &&& unmatched_before(guess, target, ch, sorted_diff@[e] as int) == e
                },
            forall|i: int|
                0 <= i < len && guess[i] == ch && target[i] != ch ==> lists(sorted_diff@, i),
            forall|i: int|
                0 <= i < len ==> #[trigger] char_guesses@[i] == (if guess[i] == ch && target[i]
                    != ch && unmatched_before(guess, target, ch, i) < d {
                    (ch, CharState::IncorrectPosition)
                } else {
                    exact_marks[i]
                }),
        decreases trimmed_length - d,
    {
        let incorrect_position: usize = sorted_diff[d];
        let ghost marks_before = char_guesses@;
        char_guesses.set(incorrect_position, (ch, CharState::IncorrectPosition));
        proof {
            assert forall|i: int| 0 <= i < len implies #[trigger] char_guesses@[i] == (if guess[i]
                == ch && target[i] != ch && unmatched_before(guess, target, ch, i) < d + 1 {
                (ch, CharState::IncorrectPosition)
            } else {
                exact_marks[i]
            }) by {
                if guess[i] == ch && target[i] != ch {
                    assert(lists(sorted_diff@, i));
                    let e = choose|e: int|
                        0 <= e < sorted_diff@.len() && #[trigger] sorted_diff@[e] == i;
                    assert(unmatched_before(guess, target, ch, i) == e);
                }
                assert(char_guesses@[i] == if i == incorrect_position as int {
                    (ch, CharState::IncorrectPosition)
                } else {
                    marks_before[i]
                });
            }
        }
        d += 1;
    }
    proof {
        assert forall|i: int| 0 <= i < len && guess[i] == ch implies #[trigger] char_guesses@[i] == (
            ch,
            state_at(guess, target, i),
        ) by {
            if target[i] != ch {
                assert(lists(sorted_diff@, i));
                let e = choose|e: int| 0 <= e < sorted_diff@.len() && #[trigger] sorted_diff@[e] == i;
                assert(unmatched_before(guess, target, ch, i) == e);
                assert(extra_count == unmatched_in_target(guess, target, ch));
            }
        }
    }
}

/// Where a game stands.
#[derive(Debug, Copy, Clone, PartialEq, Eq, Structural)]
pub enum GameState {
    Playing,
    Win,
    Lose,
}

/// Why a game could not be set up.
#[derive(Debug, Copy, Clone, PartialEq, Eq, Structural)]
pub enum SetupError {
    /// The target word does not have the dictionary's word length.
    TargetLengthMismatch,
    /// The target word has the right length, but the dictionary does not hold it.
    TargetNotInDictionary,
}

/// Why a guess was not taken.
#[derive(Debug, Copy, Clone, PartialEq, Eq, Structural)]
pub enum GuessError {
    /// The word is not in the dictionary. The game is as it was, and no attempt is used
    /// up: the player may guess again.
    InvalidGuess,
    /// The game is won or lost, or all attempts are used up.
    NoAttemptsRemaining,
}

/// The state of a game after an accepted guess: won if the guess is the target, lost
/// if it is not and was the last attempt, still going on otherwise.
pub open spec fn state_after(win: bool, attempts_used: int, max_guesses: int) -> GameState {
    if win {
        GameState::Win
    } else if attempts_used >= max_guesses {
        GameState::Lose
    } else {
        GameState::Playing
    }
}

/// What the view says of each character is true of the target: a character is recorded
/// as not found exactly if the target does not hold it.
pub open spec fn keyboard_consistent(view: Map<char, CharState>, target: Seq<char>) -> bool {
    forall|c: char| #[trigger]
        view.contains_key(c) ==> ((view[c] == CharState::NotFound) <==> !target.contains(c))
}

/// A character that a guess holds gets at least one hint from the feedback exactly if
/// the target holds it too.
pub proof fn lemma_best_state_tells_presence(guess: Seq<char>, target: Seq<char>, c: char)
    requires
        guess.len() == target.len(),
        guess.contains(c),
    ensures
        (best_state(evaluate(guess, target), c, guess.len() as int) == CharState::NotFound)
            <==> !target.contains(c),
{
    let len = guess.len() as int;
    let feedback = evaluate(guess, target);
    lemma_hinted_closed_form(guess, target, c, len);
    lemma_exact_matches_bounded(guess, target, c, len);
    lemma_unhinted_iff_best_not_found(feedback, c, len);
    let i = choose|i: int| 0 <= i < guess.len() && guess[i] == c;
    lemma_occurrences_positive(guess, c, len, i);
    if target.contains(c) {
        let k = choose|k: int| 0 <= k < target.len() && target[k] == c;
        lemma_occurrences_positive(target, c, len, k);
    } else {
        lemma_counts_skip_gap(target, guess, c, 0, len);
    }
}

/// The word that the entries of a result spell.
pub open spec fn spelled(entries: Seq<CharGuess>) -> Seq<char> {
    Seq::new(entries.len(), |i: int| entries[i].0)
}

/// The keyboard view after the first `n` results of `history` are taken in, one after
/// the other, starting with nothing known.
pub open spec fn view_after(history: Seq<GuessResult>, n: int) -> Map<char, CharState>
    recommends
        n <= history.len(),
    decreases n,
{
    if n <= 0 {
        Map::empty()
    } else {
        absorbed(view_after(history, n - 1), history[n - 1]@, history[n - 1]@.len() as int)
    }
}

/// One of the first `n` results of `history` has an entry for `c`.
pub open spec fn seen(history: Seq<GuessResult>, c: char, n: int) -> bool {
    exists|i: int|
        0 <= i < n && i < history.len() && occurs(
            (#[trigger] history[i])@,
            c,
            history[i]@.len() as int,
        )
}

/// The view after some results depends on these results only.
pub proof fn lemma_view_after_prefix(earlier: Seq<GuessResult>, later: Seq<GuessResult>, n: int)
    requires
        0 <= n <= earlier.len() <= later.len(),
        forall|i: int| 0 <= i < n ==> earlier[i] == later[i],
    ensures
        view_after(earlier, n) == view_after(later, n),
    decreases n,
{
    if n > 0 {
        lemma_view_after_prefix(earlier, later, n - 1);
    }
}

/// The view covers the characters seen in at least one guess so far, and no others.
pub proof fn lemma_view_covers_seen_characters(history: Seq<GuessResult>, n: int, c: char)
    requires
        0 <= n <= history.len(),
    ensures
        view_after(history, n).contains_key(c) <==> seen(history, c, n),
    decreases n,
{
    if n > 0 {
        lemma_view_covers_seen_characters(history, n - 1, c);
        if seen(history, c, n - 1) {
            let i = choose|i: int|
                0 <= i < n - 1 && i < history.len() && occurs(
                    (#[trigger] history[i])@,
                    c,
                    history[i]@.len() as int,
                );
            assert(occurs(history[i]@, c, history[i]@.len() as int));
        }
        if seen(history, c, n) {
            let i = choose|i: int|
                0 <= i < n && i < history.len() && occurs(
                    (#[trigger] history[i])@,
                    c,
                    history[i]@.len() as int,
                );
            if i < n - 1 {
                assert(seen(history, c, n - 1));
            }
        }
        if occurs(history[n - 1]@, c, history[n - 1]@.len() as int) {
            assert(seen(history, c, n));
        }
    }
}

/// A game that is won or lost takes no further guess.
pub proof fn lemma_finished_game_takes_no_guess(game: Game)
    requires
        game.state != GameState::Playing,
    ensures
        !game.accepts_guesses(),
{
}

/// One round: the dictionary, the target, and what the guesses so far have shown.
pub struct Game {
    /// Dictionary of fixed length words to use
    pub dict: Dictionary,
    /// word that has to be guessed, must be in the dictionary
    pub target_word: String,
    /// index of each character in the target word
    pub target_char_indexes: PositionsMap,
    /// max guesses allowed
    pub max_guesses: usize,
    /// state of the keyboard, given the guesses made so far in the game
    pub keyboard_view: KeyboardView,
    /// results of each guess in order of submission
    pub guess_results: Vec<GuessResult>,
    /// state of the game, in progress or finished?
    pub state: GameState,
}

impl Game {
    /// The target is a word of the dictionary, and the positions kept of its characters
    /// are its own. No more guesses were accepted than the game allows, and each result
    /// in the history is the feedback for a word of the dictionary, the one that it
    /// spells. The keyboard view is what these results give when taken in one after the
    /// other, and says nothing false of the target. A game is won exactly if a guess was
    /// the target, which then is the last guess, and a lost game has used up its
    /// attempts.
    pub open spec fn wf(&self) -> bool {
        &&& self.dict.wf()
        &&& self.dict@.contains(self.target_word@)
        &&& is_positions_map(self.target_char_indexes@, self.target_word@)
        &&& keyboard_consistent(self.keyboard_view@, self.target_word@)
        &&& self.keyboard_view@ == view_after(
            self.guess_results@,
            self.guess_results@.len() as int,
        )
        &&& self.guess_results@.len() <= self.max_guesses
        &&& forall|i: int|
            0 <= i < self.guess_results@.len() ==> self.dict@.contains(
                spelled((#[trigger] self.guess_results@[i])@),
            ) && self.guess_results@[i]@ == evaluate(
                spelled(self.guess_results@[i]@),
                self.target_word@,
            )
        &&& self.state == GameState::Win ==> self.guess_results@.len() > 0 && all_correct(
            self.guess_results@.last()@,
        )
        &&& self.state == GameState::Lose ==> self.guess_results@.len() == self.max_guesses
        &&& self.state != GameState::Win ==> forall|i: int|
            0 <= i < self.guess_results@.len() ==> !all_correct(
                (#[trigger] self.guess_results@[i])@,
            )
    }

    /// The game takes another guess: it is still going on and attempts are left.
    pub open spec fn accepts_guesses(&self) -> bool {
        self.guess_results@.len() < self.max_guesses && self.state == GameState::Playing
    }

    /// Create a new Game with a given dictionary, and a target word, which must be a
    /// word of the dictionary. Only max_guesses attempts may be made.
    pub fn new(dict: Dictionary, target_word: &str, max_guesses: usize) -> (made: Result<
        Game,
        SetupError,
    >)
        requires
            dict.wf(),
        ensures
            target_word@.len() != dict.spec_word_length() ==> made is Err && made->Err_0
                == SetupError::TargetLengthMismatch,
            target_word@.len() == dict.spec_word_length() && !dict@.contains(target_word@)
                ==> made is Err && made->Err_0 == SetupError::TargetNotInDictionary,
            dict@.contains(target_word@) ==> made is Ok && made->Ok_0.wf()
                && made->Ok_0.dict == dict && made->Ok_0.target_word@ == target_word@
                && made->Ok_0.max_guesses == max_guesses
                && made->Ok_0.guess_results@.len() == 0 && made->Ok_0.keyboard_view@ == Map::<
                char,
                CharState,
            >::empty() && made->Ok_0.state == GameState::Playing,
    {
        proof {
            dict.lemma_words_have_word_length();
        }
        if !Game::is_word_allowed_in_dict(&dict, target_word) {
            if target_word.unicode_len() != dict.word_length() {
                return Err(SetupError::TargetLengthMismatch);
            }
            return Err(SetupError::TargetNotInDictionary);
        }
        let positions_map: PositionsMap = Game::compute_char_positions_map(target_word);
        Ok(
            Game {
                dict: dict,
                target_word: target_word.to_owned(),
                target_char_indexes: positions_map,
                keyboard_view: KeyboardView::new(),
                guess_results: Vec::new(),
                state: GameState::Playing,
                max_guesses: max_guesses,
            },
        )
    }

    /// Submit a guess to the game.
    ///
    /// A game that is over, or has no attempt left, takes no guess. A word that the
    /// dictionary does not hold is turned down, and the game stays as it was. Any other
    /// word is an attempt: its feedback is computed, kept in the history and taken into
    /// the keyboard view, and the game is won if the word is the target, lost if it was
    /// the last attempt.
    pub fn guess_word(&mut self, word: &str) -> (outcome: Result<GuessResult, GuessError>)
        requires
            old(self).wf(),
        ensures
            final(self).wf(),
            final(self).dict == old(self).dict,
            final(self).target_word == old(self).target_word,
            final(self).max_guesses == old(self).max_guesses,
            no_worse(old(self).keyboard_view@, final(self).keyboard_view@),
            !old(self).accepts_guesses() ==> outcome is Err && outcome->Err_0
                == GuessError::NoAttemptsRemaining && *final(self) == *old(self),
            old(self).accepts_guesses() && !old(self).dict@.contains(word@) ==> outcome is Err
                && outcome->Err_0 == GuessError::InvalidGuess && *final(self) == *old(self),
            old(self).accepts_guesses() && old(self).dict@.contains(word@) ==> {
                &&& outcome is Ok
                &&& outcome->Ok_0@ == evaluate(word@, old(self).target_word@)
                &&& final(self).guess_results@.len() == old(self).guess_results@.len() + 1
                &&& final(self).guess_results@.drop_last() == old(self).guess_results@
                &&& final(self).guess_results@.last()@ == outcome->Ok_0@
                &&& final(self).keyboard_view@ == absorbed(
                    old(self).keyboard_view@,
                    outcome->Ok_0@,
                    word@.len() as int,
                )
                &&& final(self).state == state_after(
                    word@ == old(self).target_word@,
                    old(self).guess_results@.len() as int + 1,
                    old(self).max_guesses as int,
                )
            },
    {
        if !self.allow_more_guesses() {
            return Err(GuessError::NoAttemptsRemaining);
        }
        if !self.is_word_allowed(word) {
            return Err(GuessError::InvalidGuess);
        }
        proof {
            self.dict.lemma_words_have_word_length();
        }
        let guess_result: GuessResult = self.compute_guess_result(word);
        let ghost feedback = guess_result@;
        let ghost target = self.target_word@;
        let ghost len = word@.len() as int;
        let ghost view_before = self.keyboard_view@;
        proof {
            assert forall|c: char| occurs(feedback, c, len) implies ((best_state(feedback, c, len)
                == CharState::NotFound) <==> !target.contains(c)) by {
                let i = choose|i: int|
                    0 <= i < len && i < feedback.len() && (#[trigger] feedback[i]).0 == c;
                assert(word@[i] == c);
                lemma_best_state_tells_presence(word@, target, c);
            }
            assert forall|i: int|
                0 <= i < len && view_before.contains_key((#[trigger] feedback[i]).0) implies consistent(
                view_before[feedback[i].0],
                best_state(feedback, feedback[i].0, len),
            ) by {
                assert(occurs(feedback, feedback[i].0, len));
            }
            assert(agrees(view_before, feedback, len));
        }
        // what the view holds is true of the target, so the feedback cannot contradict it
        let _recorded = self.keyboard_view.record_guess_result(&guess_result);
        assert(_recorded is Ok);
        assert(keyboard_consistent(self.keyboard_view@, target));

        // append to internal guess results for later use
        self.guess_results.push(guess_result.clone());
        proof {
            assert(self.guess_results@.drop_last() =~= old(self).guess_results@);
            assert forall|i: int| 0 <= i < old(self).guess_results@.len() implies (
            #[trigger] self.guess_results@[i]) == old(self).guess_results@[i] by {
                assert(self.guess_results@.drop_last()[i] == self.guess_results@[i]);
            }
            lemma_win_iff_equal(word@, target);
            lemma_absorb_monotonic(view_before, feedback, len);
            lemma_view_after_prefix(
                old(self).guess_results@,
                self.guess_results@,
                old(self).guess_results@.len() as int,
            );
            assert(spelled(feedback) =~= word@);
        }

        if guess_result.is_correct() {
            self.state = GameState::Win;
        } else if !self.allow_more_guesses() {
            self.state = GameState::Lose;
        }

        Ok(guess_result)
    }

    /// Check if the provided word is allowed per the dictionary.
    pub fn is_word_allowed_in_dict(dict: &Dictionary, word: &str) -> (allowed: bool)
        ensures
            allowed == dict@.contains(word@),
    {
        dict.contains(&word.to_owned())
    }

    /// Check if a word is allowed per the dictionary of the game.
    pub fn is_word_allowed(&self, word: &str) -> (allowed: bool)
        ensures
            allowed == self.dict@.contains(word@),
    {
        Game::is_word_allowed_in_dict(&self.dict, word)
    }

    /// Should we allow submitting more guesses? Returns true or false.
    pub fn allow_more_guesses(&self) -> (allowed: bool)
        ensures
            allowed == self.accepts_guesses(),
    {
        self.guess_results.len() < self.max_guesses && self.state == GameState::Playing
    }

    /// Computes the guess result for the provided word, which must be as long as the
    /// target: the feedback for the word against the target, one entry per position.
    pub fn compute_guess_result(&self, word: &str) -> (result: GuessResult)
        requires
            self.wf(),
            word@.len() == self.target_word@.len(),
        ensures
            result@ == evaluate(word@, self.target_word@),
    {
        let guess: Vec<char> = chars_of(word);
        let ghost target = self.target_word@;
        let target_map: &PositionsMap = &self.target_char_indexes;
        let n: usize = guess.len();
        let mut char_guesses: Vec<CharGuess> = Vec::new();
        let mut i: usize = 0;
        while i < n
            invariant
                guess@ == word@,
                n == word@.len(),
                i <= n,
                char_guesses@.len() == i,
                forall|j: int| 0 <= j < i ==> #[trigger] char_guesses@[j] == (word@[j], CharState::NotFound),
            decreases n - i,
        {
            char_guesses.push((guess[i], CharState::NotFound));
            i += 1;
        }
        let guess_map: PositionsMap = positions_map_of(&guess);
        let entries: usize = target_map.len();
        let mut k: usize = 0;
        while k < entries
            invariant
                guess@ == word@,
                entries == target_map@.len(),
                k <= entries,
                n == word@.len() == target.len(),
                char_guesses@.len() == n,
                is_positions_map(target_map@, target),
                is_positions_map(guess_map@, word@),
                forall|j: int|
                    0 <= j < n ==> #[trigger] char_guesses@[j] == (
                        word@[j],
                        if has_key(target_map@, word@[j], k as int) {
                            state_at(word@, target, j)
                        } else {
                            CharState::NotFound
                        },
                    ),
            decreases entries - k,
        {
            let ch: char = target_map[k].0;
            proof {
                assert(!has_key(target_map@, ch, k as int));
            }
            match find_char(&guess_map, ch) {
                None => {
                    proof {
                        assert forall|j: int| 0 <= j < n implies word@[j] != ch by {
                            assert(has_key(guess_map@, word@[j], guess_map@.len() as int));
                        }
                    }
                },
                Some(g) => {
                    mark_character(
                        &mut char_guesses,
                        ch,
                        &guess_map[g].1,
                        &target_map[k].1,
                        Ghost(word@),
                        Ghost(target),
                    );
                },
            }
            proof {
                assert forall|j: int| 0 <= j < n implies has_key(target_map@, word@[j], k + 1) == (
                word@[j] == ch || has_key(target_map@, word@[j], k as int)) by {
                    if has_key(target_map@, word@[j], k + 1) {
                        let w = choose|w: int|
                            0 <= w < k + 1 && w < target_map@.len() && (#[trigger] target_map@[w]).0
                                == word@[j];
                        if w < k {
                            assert(has_key(target_map@, word@[j], k as int));
                        }
                    }
                    if word@[j] == ch {
                        assert(target_map@[k as int].0 == word@[j]);
                    }
                    if has_key(target_map@, word@[j], k as int) {
                        let w = choose|w: int|
                            0 <= w < k && w < target_map@.len() && (#[trigger] target_map@[w]).0
                                == word@[j];
                        assert(target_map@[w].0 == word@[j]);
                    }
                }
            }
            k += 1;
        }
        proof {
            assert forall|j: int| 0 <= j < n implies #[trigger] char_guesses@[j] == evaluate(
                word@,
                target,
            )[j] by {
                if !has_key(target_map@, word@[j], entries as int) {
                    assert forall|p: int| 0 <= p < target.len() implies target[p] != word@[j] by {
                        assert(has_key(target_map@, target[p], target_map@.len() as int));
                    }
                    lemma_absent_character_not_found(word@, target, j);
                }
            }
            assert(char_guesses@ =~= evaluate(word@, target));
        }
        GuessResult::new(char_guesses)
    }

    /// Compute a map of indexes of each character in the word provided.
    pub fn compute_char_positions_map(word: &str) -> (map: PositionsMap)
        ensures
            is_positions_map(map@, word@),
    {
        let chars: Vec<char> = chars_of(word);
        positions_map_of(&chars)
    }
}

} // verus!
