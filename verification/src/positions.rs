//! Where each character of a word stands: for each distinct character the ascending
//! list of its positions.

use crate::evaluation::exact_matches;
use crate::evaluation::lemma_counts_skip_gap;
use crate::evaluation::occurrences;
use vstd::prelude::*;
use vstd::string::*;

verus! {

/// The positions of each distinct character of a word, keyed by the character.
pub type PositionsMap = Vec<(char, Vec<usize>)>;

/// `p` is one of `positions`.
pub open spec fn lists(positions: Seq<usize>, p: int) -> bool {
    exists|a: int| 0 <= a < positions.len() && #[trigger] positions[a] == p
}

/// `positions` lists, in ascending order, exactly the positions below `n` at which
/// `word` holds `c`.
pub open spec fn is_positions_below(positions: Seq<usize>, word: Seq<char>, c: char, n: int) -> bool {
    &&& forall|a: int, b: int|
        0 <= a < b < positions.len() ==> #[trigger] positions[a] < #[trigger] positions[b]
    &&& forall|a: int|
        0 <= a < positions.len() ==> (#[trigger] positions[a]) < n && word[positions[a] as int]
            == c
    &&& forall|p: int| 0 <= p < n && #[trigger] word[p] == c ==> lists(positions, p)
    &&& positions.len() == occurrences(word, c, n)
}

/// `positions` lists, in ascending order, exactly the positions at which `word`
/// holds `c`.
pub open spec fn is_positions_of(positions: Seq<usize>, word: Seq<char>, c: char) -> bool {
    is_positions_below(positions, word, c, word.len() as int)
}

/// `map` has one entry for each distinct character of `word`, with the character's
/// positions, and no other entry.
pub open spec fn is_positions_map(map: Seq<(char, Vec<usize>)>, word: Seq<char>) -> bool {
    &&& forall|k: int|
        0 <= k < map.len() ==> is_positions_of((#[trigger] map[k]).1@, word, map[k].0)
            && map[k].1@.len() > 0
    &&& forall|j: int, k: int|
        0 <= j < k < map.len() ==> (#[trigger] map[j]).0 != (#[trigger] map[k]).0
    &&& forall|i: int| 0 <= i < word.len() ==> has_key(map, #[trigger] word[i], map.len() as int)
}

/// One of the first `n` entries of `map` is for `c`.
pub open spec fn has_key(map: Seq<(char, Vec<usize>)>, c: char, n: int) -> bool {
    exists|k: int| 0 <= k < n && k < map.len() && (#[trigger] map[k]).0 == c
}

/// Where the scan of a list of positions stands before it reads entry `a`: at that
/// entry's position, or at the end of the word once the list is read.
pub open spec fn scan_limit(positions: Seq<usize>, a: int, len: int) -> int {
    if 0 <= a < positions.len() {
        positions[a] as int
    } else {
        len
    }
}

/// Between one listed position and the next the word does not hold the character.
pub proof fn lemma_clear_between(positions: Seq<usize>, word: Seq<char>, c: char, a: int)
    requires
        is_positions_of(positions, word, c),
        0 <= a <= positions.len(),
    ensures
        forall|j: int|
            (if a == 0 {
                0
            } else {
                positions[a - 1] + 1
            }) <= j < scan_limit(positions, a, word.len() as int) ==> #[trigger] word[j] != c,
        a > 0 ==> positions[a - 1] < scan_limit(positions, a, word.len() as int),
        0 <= scan_limit(positions, a, word.len() as int) <= word.len(),
{
    let low = if a == 0 {
        0
    } else {
        positions[a - 1] + 1
    };
    let limit = scan_limit(positions, a, word.len() as int);
    assert forall|j: int| low <= j < limit implies #[trigger] word[j] != c by {
        if word[j] == c {
            assert(lists(positions, j));
            let b = choose|b: int| 0 <= b < positions.len() && #[trigger] positions[b] == j;
            if b < a {
                if b < a - 1 {
                    assert(positions[b] < positions[a - 1]);
                }
            } else if b > a {
                assert(positions[a] < positions[b]);
            }
        }
    }
    if a > 0 && a < positions.len() {
        assert(positions[a - 1] < positions[a]);
    }
}

/// Before the first listed position the word does not hold the character at all.
pub proof fn lemma_scan_start(positions: Seq<usize>, word: Seq<char>, other: Seq<char>, c: char)
    requires
        is_positions_of(positions, word, c),
    ensures
        occurrences(word, c, scan_limit(positions, 0, word.len() as int)) == 0,
        exact_matches(word, other, c, scan_limit(positions, 0, word.len() as int)) == 0,
{
    lemma_clear_between(positions, word, c, 0);
    lemma_counts_skip_gap(word, other, c, 0, scan_limit(positions, 0, word.len() as int));
}

/// From one listed position to the next the word holds the character once, and the
/// two words match on it at most there.
pub proof fn lemma_scan_step(
    positions: Seq<usize>,
    word: Seq<char>,
    other: Seq<char>,
    c: char,
    a: int,
)
    requires
        is_positions_of(positions, word, c),
        0 <= a < positions.len(),
    ensures
        positions[a] < scan_limit(positions, a + 1, word.len() as int) <= word.len(),
        occurrences(word, c, scan_limit(positions, a + 1, word.len() as int)) == occurrences(
            word,
            c,
            positions[a] as int,
        ) + 1,
        exact_matches(word, other, c, scan_limit(positions, a + 1, word.len() as int))
            == exact_matches(word, other, c, positions[a] as int) + if other[positions[a] as int]
            == c {
            1nat
        } else {
            0nat
        },
{
    let p = positions[a] as int;
    lemma_clear_between(positions, word, c, a + 1);
    lemma_counts_skip_gap(word, other, c, p + 1, scan_limit(positions, a + 1, word.len() as int));
    assert(word[p] == c);
}

/// The characters of `word`, one by one.
pub fn chars_of(word: &str) -> (chars: Vec<char>)
    ensures
        chars@ == word@,
{
    let n: usize = word.unicode_len();
    let mut chars: Vec<char> = Vec::new();
    let mut i: usize = 0;
    while i < n
        invariant
            n == word@.len(),
            i <= n,
            chars@ == word@.subrange(0, i as int),
        decreases n - i,
    {
        chars.push(word.get_char(i));
        proof {
            assert(chars@ =~= word@.subrange(0, i + 1));
        }
        i += 1;
    }
    proof {
        assert(word@.subrange(0, n as int) =~= word@);
    }
    chars
}

/// The index of the entry for `c`, if `map` has one.
pub fn find_char(map: &PositionsMap, c: char) -> (found: Option<usize>)
    ensures
        match found {
            Some(k) => k < map@.len() && map@[k as int].0 == c,
            None => !has_key(map@, c, map@.len() as int),
        },
{
    let n: usize = map.len();
    let mut k: usize = 0;
    while k < n
        invariant
            n == map@.len(),
            k <= n,
            !has_key(map@, c, k as int),
        decreases n - k,
    {
        if map[k].0 == c {
            return Some(k);
        }
        k += 1;
    }
    None
}

/// Is `p` one of `positions`?
pub fn position_listed(positions: &Vec<usize>, p: usize) -> (listed: bool)
    ensures
        listed == lists(positions@, p as int),
{
    let n: usize = positions.len();
    let mut a: usize = 0;
    while a < n
        invariant
            n == positions@.len(),
            a <= n,
            forall|b: int| 0 <= b < a ==> positions@[b] != p,
        decreases n - a,
    {
        if positions[a] == p {
            return true;
        }
        a += 1;
    }
    false
}

/// The positions of each distinct character of `word`, gathered in one pass.
pub fn positions_map_of(word: &Vec<char>) -> (map: PositionsMap)
    ensures
        is_positions_map(map@, word@),
{
    let n: usize = word.len();
    let mut map: PositionsMap = Vec::new();
    let mut index: usize = 0;
    while index < n
        invariant
            n == word@.len(),
            index <= n,
            forall|k: int|
                0 <= k < map@.len() ==> is_positions_below(
                    (#[trigger] map@[k]).1@,
                    word@,
                    map@[k].0,
                    index as int,
                ) && map@[k].1@.len() > 0,
            forall|j: int, k: int|
                0 <= j < k < map@.len() ==> (#[trigger] map@[j]).0 != (#[trigger] map@[k]).0,
            forall|p: int|
                0 <= p < index ==> has_key(map@, #[trigger] word@[p], map@.len() as int),
        decreases n - index,
    {
        let ch: char = word[index];
        let ghost before = map@;
        let slot: usize = match find_char(&map, ch) {
            None => {
                // first occurrence of a character
                proof {
                    assert forall|p: int| 0 <= p < index implies word@[p] != ch by {
                        assert(has_key(before, word@[p], before.len() as int));
                    }
                    lemma_counts_skip_gap(word@, word@, ch, 0, index as int);
                }
                map.push((ch, Vec::new()));
                map.len() - 1
            },
            Some(k) => k,
        };
        let ghost with_slot = map@;
        let ghost listed = map@[slot as int].1@;
        map[slot].1.push(index);
        proof {
            assert(map@[slot as int].1@ == listed.push(index));
            assert forall|k: int| 0 <= k < map@.len() implies is_positions_below(
                (#[trigger] map@[k]).1@,
                word@,
                map@[k].0,
                index + 1,
            ) && map@[k].1@.len() > 0 by {
                if k == slot {
                    assert forall|p: int| 0 <= p < index + 1 && #[trigger] word@[p] == ch implies lists(
                        map@[k].1@,
                        p,
                    ) by {
                        if p < index {
                            assert(lists(listed, p));
                            let a = choose|a: int| 0 <= a < listed.len() && #[trigger] listed[a] == p;
                            assert(map@[k].1@[a] == p);
                        } else {
                            assert(map@[k].1@[listed.len() as int] == p);
                        }
                    }
                } else {
                    assert(map@[k] == with_slot[k]);
                    assert(with_slot[k] == before[k]);
                }
            }
            assert forall|p: int| 0 <= p < index + 1 implies has_key(
                map@,
                #[trigger] word@[p],
                map@.len() as int,
            ) by {
                if p < index {
                    let k = choose|k: int|
                        0 <= k < before.len() && (#[trigger] before[k]).0 == word@[p];
                    assert(map@[k].0 == word@[p]);
                } else {
                    assert(map@[slot as int].0 == word@[p]);
                }
            }
        }
        index += 1;
    }
    map
}

} // verus!
