//! The best state known of each character, over all guesses of a game.

use crate::guess::CharGuess;
use crate::guess::CharState;
use crate::guess::GuessResult;
use std::collections::HashMap;
use vstd::prelude::*;

verus! {

/// Why a state was not recorded.
#[derive(Debug, Copy, Clone, PartialEq, Eq, Structural)]
pub enum KeyboardError {
    /// One character cannot be both missing from the target and present in it.
    InconsistentCharState,
}

/// Two states of one character agree on whether the target holds the character.
pub open spec fn consistent(prev: CharState, next: CharState) -> bool {
    (prev == CharState::NotFound) == (next == CharState::NotFound)
}

/// The view after one entry is merged into it: a character seen for the first time
/// takes the entry's state, a character seen before takes the better of the two, and
/// two states that contradict each other give no view.
pub open spec fn merged(view: Map<char, CharState>, entry: CharGuess) -> Option<
    Map<char, CharState>,
> {
    if !view.contains_key(entry.0) {
        Some(view.insert(entry.0, entry.1))
    } else if consistent(view[entry.0], entry.1) {
        Some(view.insert(entry.0, view[entry.0].spec_max(entry.1)))
    } else {
        None
    }
}

/// The view after the first `n` of `entries` are merged into it one after the other,
/// if each of these merges has a result.
pub open spec fn merged_all(view: Map<char, CharState>, entries: Seq<CharGuess>, n: int) -> Option<
    Map<char, CharState>,
>
    recommends
        n <= entries.len(),
    decreases n,
{
    if n <= 0 {
        Some(view)
    } else {
        match merged_all(view, entries, n - 1) {
            Some(before) => merged(before, entries[n - 1]),
            None => None,
        }
    }
}

/// Every character of `before` is in `after`, in a state that is no worse.
pub open spec fn no_worse(before: Map<char, CharState>, after: Map<char, CharState>) -> bool {
    forall|c: char| #[trigger]
        before.contains_key(c) ==> after.contains_key(c) && before[c].rank() <= after[c].rank()
}

/// A merge never loses a character and never makes its state worse.
pub proof fn lemma_merge_monotonic(view: Map<char, CharState>, entry: CharGuess)
    requires
        merged(view, entry) is Some,
    ensures
        no_worse(view, merged(view, entry)->Some_0),
{
}

/// Over any sequence of merges no character is lost and no state gets worse.
pub proof fn lemma_merges_monotonic(view: Map<char, CharState>, entries: Seq<CharGuess>, n: int)
    requires
        0 <= n <= entries.len(),
        merged_all(view, entries, n) is Some,
    ensures
        no_worse(view, merged_all(view, entries, n)->Some_0),
    decreases n,
{
    if n > 0 {
        let before = merged_all(view, entries, n - 1)->Some_0;
        lemma_merges_monotonic(view, entries, n - 1);
        lemma_merge_monotonic(before, entries[n - 1]);
    }
}

/// The best state that the first `n` of `entries` give to `c`; `NotFound` if none
/// of them is about `c`.
pub open spec fn best_state(entries: Seq<CharGuess>, c: char, n: int) -> CharState
    recommends
        n <= entries.len(),
    decreases n,
{
    if n <= 0 {
        CharState::NotFound
    } else if entries[n - 1].0 == c {
        best_state(entries, c, n - 1).spec_max(entries[n - 1].1)
    } else {
        best_state(entries, c, n - 1)
    }
}

/// Some entry below `n` is about `c`.
pub open spec fn occurs(entries: Seq<CharGuess>, c: char, n: int) -> bool {
    exists|i: int| 0 <= i < n && i < entries.len() && (#[trigger] entries[i]).0 == c
}

/// The guess contradicts `view` on none of the characters of its first `n` entries:
/// where the view holds such a character, the best state that the whole guess gives it
/// is `NotFound` exactly if its state in the view is.
pub open spec fn agrees(view: Map<char, CharState>, entries: Seq<CharGuess>, n: int) -> bool {
    forall|i: int|
        0 <= i < n && i < entries.len() && view.contains_key((#[trigger] entries[i]).0)
            ==> consistent(
            view[entries[i].0],
            best_state(entries, entries[i].0, entries.len() as int),
        )
}

/// The view after the characters of the first `n` entries of a guess are taken in:
/// each of them gets the best state that the whole guess gives it, or keeps a better
/// one that it had. With `n` the length of the guess, the whole guess is taken in.
pub open spec fn absorbed(view: Map<char, CharState>, entries: Seq<CharGuess>, n: int) -> Map<
    char,
    CharState,
> {
    Map::new(
        |c: char| view.contains_key(c) || occurs(entries, c, n),
        |c: char|
            if occurs(entries, c, n) {
                if view.contains_key(c) {
                    view[c].spec_max(best_state(entries, c, entries.len() as int))
                } else {
                    best_state(entries, c, entries.len() as int)
                }
            } else {
                view[c]
            },
    )
}

/// The entries of a guess, each with the best state that the guess gives to its
/// character.
pub open spec fn best_entries(entries: Seq<CharGuess>) -> Seq<CharGuess> {
    Seq::new(
        entries.len(),
        |i: int| (entries[i].0, best_state(entries, entries[i].0, entries.len() as int)),
    )
}

/// Taking in a whole guess is merging the best state of each of its characters, one
/// entry after the other: the merges have a result exactly if the guess agrees with the
/// view, and the result is the view with the guess taken in.
pub proof fn lemma_absorb_is_merging_best_states(
    view: Map<char, CharState>,
    entries: Seq<CharGuess>,
    n: int,
)
    requires
        0 <= n <= entries.len(),
    ensures
        merged_all(view, best_entries(entries), n) == (if agrees(view, entries, n) {
            Some(absorbed(view, entries, n))
        } else {
            None
        }),
    decreases n,
{
    if n == 0 {
        assert(absorbed(view, entries, 0) =~= view);
    } else {
        lemma_absorb_is_merging_best_states(view, entries, n - 1);
        let c = entries[n - 1].0;
        let best = best_state(entries, c, entries.len() as int);
        assert(best_entries(entries)[n - 1] == (c, best));
        if agrees(view, entries, n - 1) {
            let before = absorbed(view, entries, n - 1);
            assert forall|k: char| occurs(entries, k, n) == (occurs(entries, k, n - 1) || k
                == c) by {
                if occurs(entries, k, n) {
                    let w = choose|w: int|
                        0 <= w < n && w < entries.len() && (#[trigger] entries[w]).0 == k;
                    if w < n - 1 {
                        assert(occurs(entries, k, n - 1));
                    }
                }
                if occurs(entries, k, n - 1) {
                    let w = choose|w: int|
                        0 <= w < n - 1 && w < entries.len() && (#[trigger] entries[w]).0 == k;
                    assert(entries[w].0 == k);
                }
            }
            if occurs(entries, c, n - 1) {
                let w = choose|w: int|
                    0 <= w < n - 1 && w < entries.len() && (#[trigger] entries[w]).0 == c;
                assert(view.contains_key(entries[w].0) ==> consistent(view[c], best));
            }
            if agrees(view, entries, n) {
                assert(view.contains_key(entries[n - 1].0) ==> consistent(view[c], best));
                assert(merged(before, (c, best)) is Some);
                assert(merged(before, (c, best))->Some_0 =~= absorbed(view, entries, n));
            } else {
                let i = choose|i: int|
                    0 <= i < n && i < entries.len() && view.contains_key(
                        (#[trigger] entries[i]).0,
                    ) && !consistent(
                        view[entries[i].0],
                        best_state(entries, entries[i].0, entries.len() as int),
                    );
                assert(i == n - 1);
                assert(!occurs(entries, c, n - 1));
                assert(merged(before, (c, best)) is None);
            }
        } else {
            let i = choose|i: int|
                0 <= i < n - 1 && i < entries.len() && view.contains_key(
                    (#[trigger] entries[i]).0,
                ) && !consistent(
                    view[entries[i].0],
                    best_state(entries, entries[i].0, entries.len() as int),
                );
            assert(!agrees(view, entries, n));
        }
    }
}

/// Taking in a whole guess never loses a character and never makes its state worse.
pub proof fn lemma_absorb_monotonic(view: Map<char, CharState>, entries: Seq<CharGuess>, n: int)
    ensures
        no_worse(view, absorbed(view, entries, n)),
{
}

/// The key under which a character is kept: its code point.
spec fn code_of(c: char) -> u32 {
    c as u32
}

/// Two characters with one code point are one character.
proof fn lemma_code_injective(a: char, b: char)
    ensures
        code_of(a) == code_of(b) ==> a == b,
{
}

fn key_of(ch: char) -> (key: u32)
    ensures
        key == code_of(ch),
{
    ch as u32
}

/// The best state that `result` gives to `c`.
fn best_state_in(result: &GuessResult, c: char) -> (best: CharState)
    ensures
        best == best_state(result@, c, result@.len() as int),
{
    let n: usize = result.char_guesses.len();
    let mut best: CharState = CharState::NotFound;
    let mut i: usize = 0;
    while i < n
        invariant
            n == result@.len(),
            i <= n,
            best == best_state(result@, c, i as int),
        decreases n - i,
    {
        if result.char_guesses[i].0 == c {
            best = best.better_of(result.char_guesses[i].1);
        }
        i += 1;
    }
    best
}

/// View of the keyboard at any point in the game.
/// Initially the state of all characters is unknown.
/// As guesses are submitted, the view is updated with the state of their characters.
/// One guess may find the correct position of a character while a second guess does
/// not: the view holds the aggregate state, and says that the character has been found
/// at its correct position.
pub struct KeyboardView {
    keymap: HashMap<u32, CharState>,
}

impl View for KeyboardView {
    type V = Map<char, CharState>;

    closed spec fn view(&self) -> Map<char, CharState> {
        Map::new(
            |c: char| self.keymap@.contains_key(code_of(c)),
            |c: char| self.keymap@[code_of(c)],
        )
    }
}

impl KeyboardView {
    pub fn new() -> (view: KeyboardView)
        ensures
            view@ == Map::<char, CharState>::empty(),
    {
        let view = KeyboardView { keymap: HashMap::new() };
        proof {
            assert(view@ =~= Map::<char, CharState>::empty());
        }
        view
    }

    /// Merges the state of one character into the view. A contradiction between the
    /// recorded state and the new one is an error, and leaves the view as it was.
    pub fn record_guess(&mut self, char_guess: &CharGuess) -> (recorded: Result<
        (),
        KeyboardError,
    >)
        ensures
            match merged(old(self)@, *char_guess) {
                Some(view) => recorded == Ok::<(), KeyboardError>(()) && final(self)@ == view,
                None => recorded == Err::<(), KeyboardError>(
                    KeyboardError::InconsistentCharState,
                ) && final(self)@ == old(self)@,
            },
    {
        let ch: char = char_guess.0;
        let ch_state: CharState = char_guess.1;
        let new_state: CharState = match self.get(ch) {
            None => ch_state,
            Some(current_state) => {
                if (current_state == CharState::NotFound) != (ch_state == CharState::NotFound) {
                    return Err(KeyboardError::InconsistentCharState);
                }
                current_state.better_of(ch_state)
            },
        };
        self.put(ch, new_state);
        Ok(())
    }

    /// Takes in a whole guess: each character of the guess is merged into the view
    /// with the best state that the guess gives it. If that state contradicts the
    /// recorded state of any of the characters, this is an error, and the view stays as
    /// it was.
    pub fn record_guess_result(&mut self, result: &GuessResult) -> (recorded: Result<
        (),
        KeyboardError,
    >)
        ensures
            agrees(old(self)@, result@, result@.len() as int) ==> recorded == Ok::<
                (),
                KeyboardError,
            >(()) && final(self)@ == absorbed(old(self)@, result@, result@.len() as int),
            !agrees(old(self)@, result@, result@.len() as int) ==> recorded == Err::<
                (),
                KeyboardError,
            >(KeyboardError::InconsistentCharState) && final(self)@ == old(self)@,
    {
        let n: usize = result.char_guesses.len();
        let ghost before = self@;
        let ghost entries = result@;
        let mut i: usize = 0;
        while i < n
            invariant
                n == entries.len(),
                entries == result@,
                i <= n,
                self@ == before,
                agrees(before, entries, i as int),
            decreases n - i,
        {
            let ch: char = result.char_guesses[i].0;
            let best: CharState = best_state_in(result, ch);
            match self.get(ch) {
                None => {},
                Some(current_state) => {
                    if (current_state == CharState::NotFound) != (best == CharState::NotFound) {
                        proof {
                            assert(before.contains_key(entries[i as int].0));
                        }
                        return Err(KeyboardError::InconsistentCharState);
                    }
                },
            }
            i += 1;
        }
        let mut i: usize = 0;
        proof {
            assert(self@ =~= absorbed(before, entries, 0));
        }
        while i < n
            invariant
                n == entries.len(),
                entries == result@,
                i <= n,
                self@ == absorbed(before, entries, i as int),
            decreases n - i,
        {
            let ch: char = result.char_guesses[i].0;
            let best: CharState = best_state_in(result, ch);
            let new_state: CharState = match self.get(ch) {
                None => best,
                Some(current_state) => current_state.better_of(best),
            };
            self.put(ch, new_state);
            proof {
                assert(entries[i as int].0 == ch);
                assert forall|c: char| occurs(entries, c, i + 1) == (occurs(entries, c, i as int) || c
                    == ch) by {
                    if occurs(entries, c, i + 1) {
                        let w = choose|w: int|
                            0 <= w < i + 1 && w < entries.len() && (#[trigger] entries[w]).0 == c;
                        if w < i {
                            assert(occurs(entries, c, i as int));
                        }
                    }
                    if occurs(entries, c, i as int) {
                        let w = choose|w: int|
                            0 <= w < i && w < entries.len() && (#[trigger] entries[w]).0 == c;
                        assert(entries[w].0 == c);
                    }
                }
                assert(self@ =~= absorbed(before, entries, i + 1));
            }
            i += 1;
        }
        Ok(())
    }

    /// Sets the state of `ch`, whatever it was.
    fn put(&mut self, ch: char, state: CharState)
        ensures
            final(self)@ == old(self)@.insert(ch, state),
    {
        let key: u32 = key_of(ch);
        self.keymap.insert(key, state);
        proof {
            assert forall|c: char| c != ch implies code_of(c) != key by {
                lemma_code_injective(c, ch);
            }
            assert(self@ =~= old(self)@.insert(ch, state));
        }
    }

    /// The aggregate state of `ch`, or `None` if no guess has held it.
    pub fn get(&self, ch: char) -> (state: Option<CharState>)
        ensures
            state == (if self@.contains_key(ch) {
                Some(self@[ch])
            } else {
                None
            }),
    {
        let key: u32 = key_of(ch);
        match self.keymap.get(&key) {
            None => None,
            Some(current_state) => Some(*current_state),
        }
    }
}

} // verus!
