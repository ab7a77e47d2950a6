use wordlebot::dict::Word;
use wordlebot::eval::{CharResult, CharResultType, EvaluationResult, Evaluator};
use wordlebot::WordleError;

fn word(s: &str) -> Word {
    Word::create(s).unwrap()
}

fn letter_match_count(r: &EvaluationResult, c: char) -> usize {
    r.char_results
        .iter()
        .filter(|cr| {
            cr.c == c
                && matches!(
                    cr.result_type,
                    CharResultType::Correct | CharResultType::WrongSpot
                )
        })
        .count()
}

fn occurrences(s: &str, c: char) -> usize {
    s.chars().filter(|x| *x == c).count()
}

#[test]
fn word_create_accepts_five_letters() {
    let w = word("hello");
    assert_eq!(w.chars, ['h', 'e', 'l', 'l', 'o']);
}

#[test]
fn word_create_rejects_short_input() {
    assert!(matches!(
        Word::create("abc"),
        Err(WordleError::InvalidWordLength)
    ));
}

#[test]
fn word_create_rejects_long_input() {
    assert!(matches!(
        Word::create("abcdef"),
        Err(WordleError::InvalidWordLength)
    ));
}

#[test]
fn sever_speed_literal_feedback() {
    let evaluator = Evaluator::create(word("sever"));
    let result = evaluator.evaluate_guess(&word("speed"));
    let expected = [
        (CharResultType::Correct, 's', 0),
        (CharResultType::NotFound, 'p', 1),
        (CharResultType::WrongSpot, 'e', 2),
        (CharResultType::Correct, 'e', 3),
        (CharResultType::NotFound, 'd', 4),
    ];
    for (i, (ty, c, pos)) in expected.iter().enumerate() {
        let cr: CharResult = result.char_results[i];
        assert_eq!(cr.result_type, *ty, "type at {}", i);
        assert_eq!(cr.c, *c, "letter at {}", i);
        assert_eq!(cr.pos, *pos, "pos at {}", i);
    }
}

#[test]
fn evaluating_secret_against_itself_is_all_correct() {
    for s in ["sever", "rebus", "aaaaa", "abcab"] {
        let evaluator = Evaluator::create(word(s));
        let result = evaluator.evaluate_guess(&word(s));
        assert!(result.is_correct());
        for cr in result.char_results.iter() {
            assert_eq!(cr.result_type, CharResultType::Correct);
        }
    }
}

#[test]
fn matched_letter_count_is_min_of_occurrences() {
    let cases = [
        ("sever", "speed"),
        ("sever", "eexes"),
        ("aabbc", "ababa"),
        ("zzzzz", "azzza"),
        ("crane", "nacre"),
    ];
    for (secret, guess) in cases {
        let evaluator = Evaluator::create(word(secret));
        let result = evaluator.evaluate_guess(&word(guess));
        for c in 'a'..='z' {
            let expected = occurrences(guess, c).min(occurrences(secret, c));
            assert_eq!(
                letter_match_count(&result, c),
                expected,
                "letter {} for {}/{}",
                c,
                secret,
                guess
            );
        }
    }
}

#[test]
fn feedback_always_matches_its_secret() {
    let cases = [
        ("sever", "speed"),
        ("aabbc", "ababa"),
        ("rebus", "crane"),
        ("nymph", "nnnnn"),
    ];
    for (secret, guess) in cases {
        let evaluator = Evaluator::create(word(secret));
        let result = evaluator.evaluate_guess(&word(guess));
        assert!(
            result.matches_word(&word(secret)),
            "feedback of {} vs {} must match the secret",
            guess,
            secret
        );
    }
}

#[test]
fn matches_word_rejects_inconsistent_candidate() {
    let evaluator = Evaluator::create(word("sever"));
    let result = evaluator.evaluate_guess(&word("speed"));
    // "spade" has an 's' where Correct demands it but a 'p' the feedback calls absent.
    assert!(!result.matches_word(&word("spade")));
    // the true secret still matches
    assert!(result.matches_word(&word("sever")));
}

#[test]
fn not_contains_matches_detects_shared_letters() {
    let evaluator = Evaluator::create(word("sever"));
    let result = evaluator.evaluate_guess(&word("speed"));
    // "nymph" shares a 'p' with the feedback letters of "speed"
    assert!(!result.not_contains_matches(&word("nymph")));
    // "album" shares no letter with "speed"
    assert!(result.not_contains_matches(&word("album")));
}

#[test]
fn correct_count_counts_positive_marks() {
    let evaluator = Evaluator::create(word("sever"));
    let result = evaluator.evaluate_guess(&word("speed"));
    // 's' Correct, one 'e' WrongSpot, one 'e' Correct
    assert_eq!(result.correct_count(), 3);
}

#[test]
fn sorted_results_are_in_position_order() {
    let evaluator = Evaluator::create(word("sever"));
    let result = evaluator.evaluate_guess(&word("speed"));
    let sorted = result.sorted_results();
    assert_eq!(sorted.len(), 5);
    for (i, cr) in sorted.iter().enumerate() {
        assert_eq!(cr.pos, i);
    }
}

#[test]
fn format_renders_signs_and_letters() {
    let evaluator = Evaluator::create(word("sever"));
    let result = evaluator.evaluate_guess(&word("speed"));
    let texts: Vec<String> = result
        .sorted_results()
        .iter()
        .map(|cr| cr.format(false))
        .collect();
    assert_eq!(texts, vec!["+s", "-p", "~e", "+e", "-d"]);
}

#[test]
fn format_renders_emoji_glyphs() {
    let evaluator = Evaluator::create(word("sever"));
    let result = evaluator.evaluate_guess(&word("speed"));
    let texts: Vec<String> = result
        .sorted_results()
        .iter()
        .map(|cr| cr.format(true))
        .collect();
    assert_eq!(
        texts,
        vec!["\u{1F7E9}", "\u{2B1B}", "\u{1F7E8}", "\u{1F7E9}", "\u{2B1B}"]
    );
}

#[test]
fn wrong_guess_never_survives_its_own_feedback() {
    for (secret, guess) in [("sever", "speed"), ("rebus", "crane"), ("aabbc", "ababa")] {
        let evaluator = Evaluator::create(word(secret));
        let result = evaluator.evaluate_guess(&word(guess));
        assert!(
            !result.matches_word(&word(guess)),
            "wrong guess {} survived its own feedback against {}",
            guess,
            secret
        );
    }
}
