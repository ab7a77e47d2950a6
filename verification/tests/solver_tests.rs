use wordlebot::conf::{WordleConfig, WordleOp};
use wordlebot::dict::{Dictionary, LetterStats, Word};
use wordlebot::eval::{EvaluationResult, Evaluator};
use wordlebot::sim::{find_optimal_guess, simulate_all, Simulator};
use wordlebot::WordleError;

fn word(s: &str) -> Word {
    Word::create(s).unwrap()
}

fn words(list: &[&str]) -> Vec<Word> {
    list.iter().map(|s| word(s)).collect()
}

fn config(operation: &str, hard_mode: bool, solution: Option<&str>) -> WordleConfig {
    WordleConfig::load(
        None,
        false,
        None,
        hard_mode,
        operation,
        solution.map(|s| s.to_string()),
    )
    .unwrap()
}

#[test]
fn letter_stats_score_is_exact() {
    let list = words(&["aabbb", "aaccc"]);
    let stats = LetterStats::create(&list);
    // 'a' appears twice at positions 0 and 1; first 'a' counts in full, the
    // repeat is halved; each 'b' cell holds 1, and repeats are halved to 0.
    assert_eq!(stats.calculate_score(&word("aabbb")), 2 + 1 + 1 + 0 + 0);
    assert_eq!(stats.calculate_score(&word("aaccc")), 2 + 1 + 1 + 0 + 0);
}

#[test]
fn find_best_guess_prefers_first_on_ties() {
    let list = words(&["abbbb", "babbb"]);
    let dict = Dictionary::create(&list);
    let best = dict.find_best_guess().unwrap();
    assert_eq!(best.chars, word("abbbb").chars);
}

#[test]
fn find_best_guess_on_empty_dictionary_fails() {
    let dict = Dictionary::create(&Vec::new());
    assert!(matches!(
        dict.find_best_guess(),
        Err(WordleError::EmptyDictionary)
    ));
}

#[test]
fn filtering_keeps_the_true_secret() {
    let list = words(&["rebus", "crane", "slate", "rocks", "redux"]);
    let dict = Dictionary::create(&list);
    let evaluator = Evaluator::create(word("rebus"));
    let mut history: Vec<EvaluationResult> = Vec::new();
    for guess in ["slate", "rocks"] {
        history.push(evaluator.evaluate_guess(&word(guess)));
        let filtered = dict.filter_based_on_results(&history);
        assert!(
            filtered
                .words
                .iter()
                .any(|dw| dw.word.chars == word("rebus").chars),
            "secret excluded after guessing {}",
            guess
        );
    }
}

#[test]
fn filtering_recomputes_scores_over_the_narrowed_set() {
    let list = words(&["rebus", "crane", "slate", "redux"]);
    let dict = Dictionary::create(&list);
    let evaluator = Evaluator::create(word("rebus"));
    let history = vec![evaluator.evaluate_guess(&word("crane"))];
    let filtered = dict.filter_based_on_results(&history);
    let kept: Vec<Word> = filtered.words.iter().map(|dw| dw.word).collect();
    let fresh = Dictionary::create(&kept);
    assert_eq!(filtered.words.len(), fresh.words.len());
    for (a, b) in filtered.words.iter().zip(fresh.words.iter()) {
        assert_eq!(a.word.chars, b.word.chars);
        assert_eq!(a.score, b.score);
    }
}

#[test]
fn full_alphabet_history_leaves_no_guess() {
    let secret = word("abcde");
    let evaluator = Evaluator::create(secret);
    let mut history: Vec<EvaluationResult> = Vec::new();
    for guess in ["abcde", "fghij", "klmno", "pqrst", "uvwxy", "zzzzz"] {
        history.push(evaluator.evaluate_guess(&word(guess)));
    }
    let dict = Dictionary::create(&words(&["crane", "slate"]));
    assert!(matches!(
        dict.find_best_guess_not_matching(&history),
        Err(WordleError::NoGuessSatisfiesConstraint)
    ));
}

#[test]
fn word_not_contains_matches_is_the_avoidance_test() {
    let evaluator = Evaluator::create(word("sever"));
    let history = vec![evaluator.evaluate_guess(&word("speed"))];
    assert!(Dictionary::word_not_contains_matches(
        &word("quail"),
        &history
    ));
    assert!(!Dictionary::word_not_contains_matches(
        &word("dingo"),
        &history
    ));
}

#[test]
fn operation_names_parse_ignoring_case() {
    assert!(matches!(WordleOp::from_string("solve"), Ok(WordleOp::Solve)));
    assert!(matches!(WordleOp::from_string("SOLVE"), Ok(WordleOp::Solve)));
    assert!(matches!(
        WordleOp::from_string("Simulate"),
        Ok(WordleOp::Simulate)
    ));
    assert!(matches!(
        WordleOp::from_string("optimal"),
        Ok(WordleOp::Optimal)
    ));
    assert!(matches!(
        WordleOp::from_string("bogus"),
        Err(WordleError::InvalidOperation)
    ));
    assert!(matches!(
        WordleOp::from_string(""),
        Err(WordleError::InvalidOperation)
    ));
}

#[test]
fn solve_without_solution_is_rejected() {
    let r = WordleConfig::load(None, false, None, false, "solve", None);
    assert!(matches!(r, Err(WordleError::MissingRequiredSolution)));
    let ok = WordleConfig::load(None, false, None, false, "solve", Some("rebus".to_string()));
    assert!(ok.is_ok());
}

#[test]
fn invalid_operation_is_rejected_at_load() {
    let r = WordleConfig::load(None, false, None, false, "guess", None);
    assert!(matches!(r, Err(WordleError::InvalidOperation)));
}

#[test]
fn simulation_solves_rebus_within_ten_turns() {
    let list = words(&[
        "rebus", "crane", "slate", "redux", "route", "rouse", "rebut", "robes", "beret", "debut",
    ]);
    let dict = Dictionary::create(&list);
    let sim = Simulator::create(&dict, word("rebus"));
    let cfg = config("simulate", false, None);
    let results = sim.simulate(&cfg, None, 10).unwrap();
    assert!(!results.is_empty());
    assert!(results.len() <= 10);
    assert!(results.last().unwrap().is_correct());
    for r in &results[..results.len() - 1] {
        assert!(!r.is_correct());
    }
}

#[test]
fn simulation_respects_hard_mode() {
    let list = words(&[
        "rebus", "crane", "slate", "redux", "route", "rouse", "rebut", "robes",
    ]);
    let dict = Dictionary::create(&list);
    let sim = Simulator::create(&dict, word("rebus"));
    let cfg = config("simulate", true, None);
    let results = sim.simulate(&cfg, None, 10).unwrap();
    assert!(results.last().unwrap().is_correct());
}

#[test]
fn simulation_uses_the_given_initial_guess() {
    let list = words(&["rebus", "crane", "slate"]);
    let dict = Dictionary::create(&list);
    let sim = Simulator::create(&dict, word("rebus"));
    let cfg = config("simulate", false, None);
    let results = sim.simulate(&cfg, Some(word("rebus")), 10).unwrap();
    assert_eq!(results.len(), 1);
    assert!(results[0].is_correct());
}

#[test]
fn turn_limit_is_enforced() {
    let list = words(&["aaaaa", "bbbbb"]);
    let dict = Dictionary::create(&list);
    let sim = Simulator::create(&dict, word("aaaaa"));
    let cfg = config("simulate", false, None);
    let r = sim.simulate(&cfg, Some(word("bbbbb")), 1);
    assert!(matches!(r, Err(WordleError::TurnLimitExceeded)));
}

#[test]
fn configured_guess_of_wrong_length_is_rejected() {
    let list = words(&["rebus", "crane"]);
    let dict = Dictionary::create(&list);
    let sim = Simulator::create(&dict, word("rebus"));
    let cfg = WordleConfig::load(
        None,
        false,
        Some("abc".to_string()),
        false,
        "simulate",
        None,
    )
    .unwrap();
    let r = sim.simulate(&cfg, None, 10);
    assert!(matches!(r, Err(WordleError::InvalidWordLength)));
}

#[test]
fn batch_simulation_counts_every_word() {
    let list = words(&["rebus", "crane", "slate", "redux"]);
    let dict = Dictionary::create(&list);
    let cfg = config("simulate", false, None);
    let (count, total) = simulate_all(&dict, &list, &cfg, 20).unwrap();
    assert_eq!(count, 4);
    assert!(total >= 4);
    assert!(total <= 80);
}

#[test]
fn optimal_search_returns_a_dictionary_word() {
    let list = words(&["rebus", "crane", "slate"]);
    let dict = Dictionary::create(&list);
    let cfg = config("optimal", false, None);
    let (best, best_total, totals) = find_optimal_guess(&dict, &list, &cfg, 20).unwrap();
    assert_eq!(totals.len(), 3);
    assert!(list.iter().any(|w| w.chars == best.chars));
    assert_eq!(best_total, *totals.iter().min().unwrap());
}

#[test]
fn optimal_search_on_empty_list_fails() {
    let dict = Dictionary::create(&words(&["rebus"]));
    let cfg = config("optimal", false, None);
    let r = find_optimal_guess(&dict, &Vec::new(), &cfg, 20);
    assert!(matches!(r, Err(WordleError::EmptyDictionary)));
}

#[test]
fn batch_simulation_of_no_words_runs_no_sessions() {
    let dict = Dictionary::create(&words(&["rebus", "crane"]));
    let cfg = config("simulate", false, None);
    let r = simulate_all(&dict, &Vec::new(), &cfg, 20);
    assert!(matches!(r, Ok((0, 0))));
}

#[test]
fn batch_simulation_rejects_invalid_configured_guess() {
    let list = words(&["rebus", "crane"]);
    let dict = Dictionary::create(&list);
    let cfg = WordleConfig::load(
        None,
        false,
        Some("ab".to_string()),
        false,
        "simulate",
        None,
    )
    .unwrap();
    let r = simulate_all(&dict, &list, &cfg, 20);
    assert!(matches!(r, Err(WordleError::InvalidWordLength)));
}

#[test]
fn optimal_totals_agree_with_individual_sessions() {
    let list = words(&["rebus", "crane", "slate"]);
    let dict = Dictionary::create(&list);
    let cfg = config("optimal", false, None);
    let (_, _, totals) = find_optimal_guess(&dict, &list, &cfg, 20).unwrap();
    for (i, opening) in list.iter().enumerate() {
        let mut expected: u64 = 0;
        for secret in &list {
            let sim = Simulator::create(&dict, *secret);
            expected += sim.simulate(&cfg, Some(*opening), 20).unwrap().len() as u64;
        }
        assert_eq!(totals[i], expected);
    }
}
