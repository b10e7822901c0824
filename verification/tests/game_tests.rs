use wordle_star::dictionary::Dictionary;
use wordle_star::game::Game;
use wordle_star::game::GameState;
use wordle_star::game::GuessError;
use wordle_star::game::SetupError;
use wordle_star::guess::CharState;
use wordle_star::guess::GuessResult;
use wordle_star::keyboard_view::KeyboardView;

#[test]
fn test_game_setup() {
    let mut dict = Dictionary::new(3).unwrap();
    dict.add_word_str("rat").unwrap();
    dict.add_word_str("dog").unwrap();
    dict.add_word_str("cat").unwrap();

    let game = Game::new(dict, "dog", 3).unwrap();
    assert_eq!(GameState::Playing, game.state);
    assert_eq!(0, game.guess_results.len());
    assert_keyboard_view("", "", "", &game.keyboard_view);
}

#[test]
fn test_game_win() {
    let mut dict = Dictionary::new(3).unwrap();
    dict.add_word_str("rat").unwrap();
    dict.add_word_str("dog").unwrap();
    dict.add_word_str("cat").unwrap();
    dict.add_word_str("tar").unwrap();

    let mut game = Game::new(dict, "dog", 3).unwrap();
    assert_eq!(GameState::Playing, game.state);
    game.guess_word("rat").unwrap();
    assert_eq!(GameState::Playing, game.state);
    game.guess_word("cat").unwrap();
    assert_eq!(GameState::Playing, game.state);
    game.guess_word("dog").unwrap();
    assert_eq!(GameState::Win, game.state);
    assert_keyboard_view("rtac", "", "dog", &game.keyboard_view);

    // no more guesses after the game has been won
    assert_eq!(Err(GuessError::NoAttemptsRemaining), game.guess_word("tar"));
    assert_eq!(GameState::Win, game.state);
    assert_eq!(3, game.guess_results.len());
}

#[test]
fn test_game_lose() {
    let mut dict = Dictionary::new(3).unwrap();
    dict.add_word_str("rat").unwrap();
    dict.add_word_str("dog").unwrap();
    dict.add_word_str("cat").unwrap();

    // only two attempts to win the game
    let mut game = Game::new(dict, "dog", 2).unwrap();

    assert_eq!(GameState::Playing, game.state);
    game.guess_word("rat").unwrap();
    assert_eq!(GameState::Playing, game.state);
    game.guess_word("cat").unwrap();
    assert_eq!(GameState::Lose, game.state);
    assert_keyboard_view("rtac", "", "", &game.keyboard_view);
    // already lost, no more guesses
    assert_eq!(Err(GuessError::NoAttemptsRemaining), game.guess_word("dog"));
    assert_eq!(GameState::Lose, game.state);
    assert_eq!(2, game.guess_results.len());
    assert_eq!(None, game.keyboard_view.get('d'));
}

#[test]
fn test_target_word_length_not_same() {
    let mut dict = Dictionary::new(3).unwrap();
    dict.add_word_str("rat").unwrap();
    dict.add_word_str("dog").unwrap();
    dict.add_word_str("cat").unwrap();

    assert_eq!(
        Some(SetupError::TargetLengthMismatch),
        Game::new(dict, "star", 3).err()
    );
}

#[test]
fn test_target_word_not_in_dictionary() {
    let mut dict = Dictionary::new(3).unwrap();
    dict.add_word_str("rat").unwrap();
    dict.add_word_str("dog").unwrap();
    dict.add_word_str("cat").unwrap();

    assert_eq!(
        Some(SetupError::TargetNotInDictionary),
        Game::new(dict, "mat", 3).err()
    );
}

#[test]
fn test_guess_invalid_word() {
    let dict = basic_dict();
    let mut game = Game::new(dict, "mat", 6).unwrap();
    assert_eq!(true, game.guess_word("abc").ok().is_none());
}

#[test]
fn test_guess_valid_word() {
    let dict = basic_dict();
    let mut game = Game::new(dict, "mat", 6).unwrap();
    assert_eq!(false, game.guess_word("sat").ok().is_none());
}

#[test]
fn test_char_guesses_for_colon() {
    let dict = big_dict();

    let mut game = Game::new(dict, "colon", 6).unwrap();
    assert_char_guesses(
        &GuessResult::new(vec![
            ('c', CharState::CorrectPosition),
            ('l', CharState::IncorrectPosition),
            ('o', CharState::IncorrectPosition),
            ('n', CharState::IncorrectPosition),
            ('e', CharState::NotFound),
        ]),
        game.guess_word("clone"),
    );
    assert_char_guesses(
        &GuessResult::new(vec![
            ('s', CharState::NotFound),
            ('p', CharState::NotFound),
            ('o', CharState::IncorrectPosition),
            ('o', CharState::CorrectPosition),
            ('n', CharState::CorrectPosition),
        ]),
        game.guess_word("spoon"),
    );

    // test with three occurences of same character
    // when the target word only contains it twice
    assert_char_guesses(
        &GuessResult::new(vec![
            ('o', CharState::IncorrectPosition),
            ('v', CharState::NotFound),
            ('o', CharState::IncorrectPosition),
            ('l', CharState::IncorrectPosition),
            ('o', CharState::NotFound),
        ]),
        game.guess_word("ovolo"),
    );
}

#[test]
fn test_char_guesses_for_clone() {
    let dict = big_dict();

    let mut game = Game::new(dict, "clone", 6).unwrap();

    assert_char_guesses(
        &GuessResult::new(vec![
            ('c', CharState::CorrectPosition),
            ('o', CharState::IncorrectPosition),
            ('l', CharState::IncorrectPosition),
            ('o', CharState::NotFound), // o has already been counted once
            ('n', CharState::IncorrectPosition),
        ]),
        game.guess_word("colon"),
    );
    assert_eq!(GameState::Playing, game.state);

    assert_char_guesses(
        &GuessResult::new(vec![
            ('s', CharState::NotFound),
            ('p', CharState::NotFound),
            ('o', CharState::CorrectPosition),
            ('o', CharState::NotFound), // o has already been counted once
            ('n', CharState::IncorrectPosition),
        ]),
        game.guess_word("spoon"),
    );
    assert_eq!(GameState::Playing, game.state);

    // test with three occurences of same character
    // when the target word only contains it twice.
    // One of the occurences is in the right position.
    assert_char_guesses(
        &GuessResult::new(vec![
            ('o', CharState::NotFound),
            ('v', CharState::NotFound),
            ('o', CharState::CorrectPosition),
            ('l', CharState::IncorrectPosition),
            ('o', CharState::NotFound),
        ]),
        game.guess_word("ovolo"),
    );
    assert_eq!(GameState::Playing, game.state);

    assert_char_guesses(
        &GuessResult::new(vec![
            ('s', CharState::NotFound),
            ('i', CharState::NotFound),
            ('e', CharState::IncorrectPosition),
            ('n', CharState::CorrectPosition),
            ('a', CharState::NotFound),
        ]),
        game.guess_word("siena"),
    );
    assert_eq!(GameState::Playing, game.state);
}

#[test]
fn test_char_guesses_for_ovolo() {
    let dict = big_dict();

    let mut game = Game::new(dict, "ovolo", 6).unwrap();

    assert_char_guesses(
        &GuessResult::new(vec![
            ('c', CharState::NotFound),
            ('o', CharState::IncorrectPosition),
            ('l', CharState::IncorrectPosition),
            ('o', CharState::IncorrectPosition),
            ('n', CharState::NotFound),
        ]),
        game.guess_word("colon"),
    );
    assert_keyboard_view("c", "ol", "", &game.keyboard_view);
    assert_eq!(GameState::Playing, game.state);

    assert_char_guesses(
        &GuessResult::new(vec![
            ('s', CharState::NotFound),
            ('p', CharState::NotFound),
            ('o', CharState::CorrectPosition),
            ('o', CharState::IncorrectPosition),
            ('n', CharState::NotFound),
        ]),
        game.guess_word("spoon"),
    );
    assert_keyboard_view("spn", "l", "o", &game.keyboard_view);
    assert_eq!(GameState::Playing, game.state);

    assert_char_guesses(
        &GuessResult::new(vec![
            ('p', CharState::NotFound),
            ('o', CharState::IncorrectPosition),
            ('t', CharState::NotFound),
            ('o', CharState::IncorrectPosition),
            ('o', CharState::CorrectPosition),
        ]),
        game.guess_word("potoo"),
    );
    assert_keyboard_view("spnt", "l", "o", &game.keyboard_view);
    assert_eq!(GameState::Playing, game.state);

    assert_char_guesses(
        &GuessResult::new(vec![
            ('s', CharState::NotFound),
            ('i', CharState::NotFound),
            ('e', CharState::NotFound),
            ('n', CharState::NotFound),
            ('a', CharState::NotFound),
        ]),
        game.guess_word("siena"),
    );
    assert_keyboard_view("siepnta", "l", "o", &game.keyboard_view);
    assert_eq!(GameState::Playing, game.state);

    assert_char_guesses(
        &GuessResult::new(vec![
            ('o', CharState::CorrectPosition),
            ('v', CharState::CorrectPosition),
            ('o', CharState::CorrectPosition),
            ('l', CharState::CorrectPosition),
            ('o', CharState::CorrectPosition),
        ]),
        game.guess_word("ovolo"),
    );
    assert_keyboard_view("spnt", "", "ovl", &game.keyboard_view);
    assert_eq!(GameState::Win, game.state);
}

#[test]
fn test_colon_game_ends_in_win() {
    let mut game = Game::new(big_dict(), "colon", 6).unwrap();
    game.guess_word("clone").unwrap();
    assert_eq!(GameState::Playing, game.state);
    game.guess_word("spoon").unwrap();
    game.guess_word("ovolo").unwrap();
    assert_eq!(GameState::Playing, game.state);
    assert_keyboard_view("espv", "l", "con", &game.keyboard_view);

    assert_char_guesses(
        &GuessResult::new(vec![
            ('c', CharState::CorrectPosition),
            ('o', CharState::CorrectPosition),
            ('l', CharState::CorrectPosition),
            ('o', CharState::CorrectPosition),
            ('n', CharState::CorrectPosition),
        ]),
        game.guess_word("colon"),
    );
    assert_eq!(GameState::Win, game.state);
    assert_eq!(4, game.guess_results.len());
    assert_keyboard_view("espv", "", "coln", &game.keyboard_view);
}

#[test]
fn test_rejected_guess_changes_nothing() {
    let mut dict = Dictionary::new(3).unwrap();
    dict.add_word_str("rat").unwrap();
    dict.add_word_str("dog").unwrap();
    let mut game = Game::new(dict, "dog", 2).unwrap();

    assert_eq!(Err(GuessError::InvalidGuess), game.guess_word("abc"));
    assert_eq!(GameState::Playing, game.state);
    assert_eq!(0, game.guess_results.len());
    assert_eq!(None, game.keyboard_view.get('a'));

    // a word of another length is no word of the dictionary
    assert_eq!(Err(GuessError::InvalidGuess), game.guess_word("rats"));
    assert_eq!(Err(GuessError::InvalidGuess), game.guess_word(""));
    assert_eq!(0, game.guess_results.len());

    // both attempts are still there
    game.guess_word("rat").unwrap();
    assert_eq!(GameState::Playing, game.state);
    assert_eq!(Err(GuessError::InvalidGuess), game.guess_word("abc"));
    assert_eq!(1, game.guess_results.len());
    game.guess_word("dog").unwrap();
    assert_eq!(GameState::Win, game.state);
    assert_eq!(2, game.guess_results.len());
}

#[test]
fn test_win_on_last_attempt() {
    let mut dict = Dictionary::new(3).unwrap();
    dict.add_word_str("rat").unwrap();
    dict.add_word_str("dog").unwrap();
    let mut game = Game::new(dict, "dog", 1).unwrap();
    game.guess_word("dog").unwrap();
    assert_eq!(GameState::Win, game.state);
    assert_eq!(Err(GuessError::NoAttemptsRemaining), game.guess_word("rat"));
}

#[test]
fn test_no_attempts_at_all() {
    let mut dict = Dictionary::new(3).unwrap();
    dict.add_word_str("dog").unwrap();
    let mut game = Game::new(dict, "dog", 0).unwrap();
    assert_eq!(GameState::Playing, game.state);
    assert_eq!(false, game.allow_more_guesses());
    assert_eq!(Err(GuessError::NoAttemptsRemaining), game.guess_word("dog"));
    // exhausted attempts come before the dictionary
    assert_eq!(Err(GuessError::NoAttemptsRemaining), game.guess_word("abc"));
    assert_eq!(GameState::Playing, game.state);
    assert_eq!(0, game.guess_results.len());
}

#[test]
fn test_history_keeps_results_in_order() {
    let mut game = Game::new(big_dict(), "clone", 6).unwrap();
    let first = game.guess_word("colon").unwrap();
    let second = game.guess_word("siena").unwrap();
    assert_eq!(2, game.guess_results.len());
    assert_eq!(first, game.guess_results[0]);
    assert_eq!(second, game.guess_results[1]);
    assert_eq!(true, game.allow_more_guesses());
    assert_eq!("clone", game.target_word);
}

#[test]
fn test_first_guess_with_late_exact_match() {
    // the first and the last 'o' are not found, the one in the middle is an exact match
    let mut game = Game::new(big_dict(), "clone", 6).unwrap();
    assert_char_guesses(
        &GuessResult::new(vec![
            ('o', CharState::NotFound),
            ('v', CharState::NotFound),
            ('o', CharState::CorrectPosition),
            ('l', CharState::IncorrectPosition),
            ('o', CharState::NotFound),
        ]),
        game.guess_word("ovolo"),
    );
    assert_keyboard_view("v", "l", "o", &game.keyboard_view);
}

#[test]
fn test_is_word_allowed() {
    let dict = basic_dict();
    assert_eq!(true, Game::is_word_allowed_in_dict(&dict, "rat"));
    assert_eq!(false, Game::is_word_allowed_in_dict(&dict, "dog"));
    assert_eq!(false, Game::is_word_allowed_in_dict(&dict, "rats"));
    let game = Game::new(dict, "mat", 6).unwrap();
    assert_eq!(true, game.is_word_allowed("cat"));
    assert_eq!(false, game.is_word_allowed("abc"));
}

fn assert_char_guesses(
    expected_states: &GuessResult,
    actual_char_guesses: Result<GuessResult, GuessError>,
) {
    match actual_char_guesses {
        Err(_) => panic!("guess states not found"),
        Ok(actual_guess) => assert_eq!(expected_states, &actual_guess),
    }
}

fn assert_keyboard_view(
    not_found: &str,
    incorrect_position: &str,
    correct_position: &str,
    keyboard_view: &KeyboardView,
) {
    for ch in not_found.chars() {
        assert_eq!(
            CharState::NotFound,
            keyboard_view.get(ch).unwrap(),
            "did not match for char: {ch}"
        );
    }
    for ch in incorrect_position.chars() {
        assert_eq!(
            CharState::IncorrectPosition,
            keyboard_view.get(ch).unwrap(),
            "did not match for char: {ch}"
        );
    }
    for ch in correct_position.chars() {
        assert_eq!(
            CharState::CorrectPosition,
            keyboard_view.get(ch).unwrap(),
            "did not match for char: {ch}"
        );
    }
}

fn basic_dict() -> Dictionary {
    let mut dict = Dictionary::new(3).unwrap();
    dict.add_word_str("rat").unwrap();
    dict.add_word_str("sat").unwrap();
    dict.add_word_str("mat").unwrap();
    dict.add_word_str("cat").unwrap();
    dict
}

fn big_dict() -> Dictionary {
    let mut dict = Dictionary::new(5).unwrap();
    dict.add_word_str("clone").unwrap();
    dict.add_word_str("colon").unwrap();
    dict.add_word_str("spoon").unwrap();
    dict.add_word_str("ovolo").unwrap(); // a rounded convex molding, in cross section a quarter of a
                                         // circle or ellipse.
    dict.add_word_str("potoo").unwrap(); // a type of bird
    dict.add_word_str("other").unwrap();
    dict.add_word_str("siena").unwrap();
    dict
}

#[test]
fn test_keyboard_view_only_improves_over_a_game() {
    let rank = |state: Option<CharState>| match state {
        None => 0,
        Some(CharState::NotFound) => 1,
        Some(CharState::IncorrectPosition) => 2,
        Some(CharState::CorrectPosition) => 3,
    };
    let alphabet = "abcdefghijklmnopqrstuvwxyz";
    let mut game = Game::new(big_dict(), "ovolo", 6).unwrap();
    for word in ["colon", "abcde", "spoon", "potoo", "siena", "clone", "ovolo"] {
        let before: Vec<i32> = alphabet.chars().map(|c| rank(game.keyboard_view.get(c))).collect();
        let accepted = game.guess_word(word).is_ok();
        let after: Vec<i32> = alphabet.chars().map(|c| rank(game.keyboard_view.get(c))).collect();
        for k in 0..before.len() {
            assert!(before[k] <= after[k]);
        }
        if !accepted {
            assert_eq!(before, after);
        }
    }
    assert_eq!(GameState::Win, game.state);
    assert_eq!(6, game.guess_results.len());
}

#[test]
fn test_keyboard_view_covers_guessed_characters_only() {
    let mut game = Game::new(big_dict(), "colon", 6).unwrap();
    game.guess_word("siena").unwrap();
    game.guess_word("abcde").unwrap_err();
    let seen: Vec<char> = "abcdefghijklmnopqrstuvwxyz"
        .chars()
        .filter(|c| game.keyboard_view.get(*c).is_some())
        .collect();
    assert_eq!(vec!['a', 'e', 'i', 'n', 's'], seen);
    assert_keyboard_view("siea", "n", "", &game.keyboard_view);
}
