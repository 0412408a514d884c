use wordle::evaluate::Correctness;
use wordle::game::{
    normalize_guess, Configuration, Game, GameStatus, GuessOutcome, LetterHint,
};

fn word_list() -> Vec<String> {
    ["crane", "pivot", "slate", "lilac", "llama", "aazzz"]
        .iter()
        .map(|w| w.to_string())
        .collect()
}

fn new_game(target: &str, tries: u32) -> Game {
    let config = Configuration { guess_tries: tries, guess_letters: 5 };
    Game::new(target.to_string(), config)
}

#[test]
fn normalize_trims_and_lowercases() {
    assert_eq!(normalize_guess("  CrAnE\r\n"), "crane");
    assert_eq!(normalize_guess("\t slate"), "slate");
    assert_eq!(normalize_guess("   \n"), "");
    assert_eq!(normalize_guess("crane"), "crane");
}

#[test]
fn new_game_awaits_the_first_guess() {
    let game = new_game("crane", 6);
    assert_eq!(game.status, GameStatus::InProgress);
    assert_eq!(game.guesses, 0);
    assert!(game.letter_hints().iter().all(|h| *h == LetterHint::Untried));
}

#[test]
fn wrong_length_guess_consumes_no_try() {
    let mut game = new_game("crane", 6);
    let words = word_list();
    let out = game.submit_guess("cranes", &words);
    assert!(matches!(out, GuessOutcome::WrongLength));
    assert_eq!(game.guesses, 0);
    assert_eq!(game.status, GameStatus::InProgress);
}

#[test]
fn unlisted_guess_consumes_no_try() {
    let mut game = new_game("crane", 6);
    let words = word_list();
    let out = game.submit_guess("zzzzz", &words);
    assert!(matches!(out, GuessOutcome::NotInList));
    assert_eq!(game.guesses, 0);
    assert_eq!(game.status, GameStatus::InProgress);
}

#[test]
fn wrong_length_never_ends_the_game_on_the_last_try() {
    let mut game = new_game("crane", 1);
    let words = word_list();
    for _ in 0..5 {
        let out = game.submit_guess("toolong", &words);
        assert!(matches!(out, GuessOutcome::WrongLength));
        assert_eq!(game.guesses, 0);
        assert_eq!(game.status, GameStatus::InProgress);
    }
}

#[test]
fn accepted_guess_consumes_one_try_and_is_scored() {
    let mut game = new_game("crane", 6);
    let words = word_list();
    let out = game.submit_guess("slate", &words);
    match out {
        GuessOutcome::Accepted { marks, won } => {
            assert!(!won);
            // "slate" against "crane": 'a' sits exactly at position 2,
            // 'e' exactly at position 4; 's', 'l', 't' are absent.
            assert_eq!(
                marks,
                vec![
                    Correctness::Absent,
                    Correctness::Absent,
                    Correctness::Correct,
                    Correctness::Absent,
                    Correctness::Correct,
                ]
            );
        }
        _ => panic!("guess should have been accepted"),
    }
    assert_eq!(game.guesses, 1);
    assert_eq!(game.status, GameStatus::InProgress);
}

#[test]
fn guess_input_is_normalized_before_judging() {
    let mut game = new_game("crane", 6);
    let words = word_list();
    let out = game.submit_guess("  CRANE\n", &words);
    match out {
        GuessOutcome::Accepted { won, .. } => assert!(won),
        _ => panic!("guess should have been accepted"),
    }
    assert_eq!(game.status, GameStatus::Won);
}

#[test]
fn exact_match_wins() {
    let mut game = new_game("pivot", 6);
    let words = word_list();
    let out = game.submit_guess("pivot", &words);
    assert!(matches!(out, GuessOutcome::Accepted { won: true, .. }));
    assert_eq!(game.status, GameStatus::Won);
    assert_eq!(game.guesses, 1);
}

#[test]
fn exact_match_on_the_final_try_wins() {
    let mut game = new_game("crane", 2);
    let words = word_list();
    assert!(matches!(
        game.submit_guess("slate", &words),
        GuessOutcome::Accepted { won: false, .. }
    ));
    assert_eq!(game.status, GameStatus::InProgress);
    let out = game.submit_guess("crane", &words);
    assert!(matches!(out, GuessOutcome::Accepted { won: true, .. }));
    assert_eq!(game.status, GameStatus::Won);
    assert_eq!(game.guesses, 2);
}

#[test]
fn exhausting_tries_without_a_match_loses() {
    let mut game = new_game("crane", 2);
    let words = word_list();
    game.submit_guess("slate", &words);
    game.submit_guess("pivot", &words);
    assert_eq!(game.status, GameStatus::Lost);
    assert_eq!(game.guesses, 2);
    assert_eq!(game.target, "crane");
}

#[test]
fn letter_hints_reflect_the_tried_letters() {
    let mut game = new_game("crane", 6);
    let words = word_list();
    game.submit_guess("slate", &words);
    let hints = game.letter_hints();
    let at = |c: char| hints[(c as u8 - b'a') as usize];
    assert_eq!(at('s'), LetterHint::NotInTarget);
    assert_eq!(at('l'), LetterHint::NotInTarget);
    assert_eq!(at('a'), LetterHint::InTarget);
    assert_eq!(at('t'), LetterHint::NotInTarget);
    assert_eq!(at('e'), LetterHint::InTarget);
    assert_eq!(at('c'), LetterHint::Untried);
    assert_eq!(at('z'), LetterHint::Untried);
}

#[test]
fn rejected_guesses_leave_letter_hints_alone() {
    let mut game = new_game("crane", 6);
    let words = word_list();
    game.submit_guess("zzzzz", &words);
    assert!(game.letter_hints().iter().all(|h| *h == LetterHint::Untried));
}
