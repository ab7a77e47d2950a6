use vstd::prelude::*;

use crate::conf::WordleConfig;
use crate::dict::{
    all_match, avoids_all, best_avoiding_upto, best_upto, filter_upto, filter_words,
    lemma_best_upto_is_first_max, scored_words, words_of, Dictionary, DictionaryWord, Word,
};
use crate::eval::{
    all_correct, eval_results, match_count_before, matches_spec, not_contains_spec,
    EvaluationResult, Evaluator,
};
use crate::WordleError;

verus! {

/// Feedback `r` was produced by evaluating some guess against `secret`.
pub open spec fn produced_against(r: EvaluationResult, secret: Word) -> bool {
    exists|g: Seq<char>| g.len() == 5 && r@ == eval_results(secret.chars@, g)
}

/// Total number of Correct or WrongSpot marks among the first `n` feedbacks.
pub open spec fn total_matches(rs: Seq<EvaluationResult>, n: int) -> int
    decreases n,
{
    if n <= 0 {
        0
    } else {
        total_matches(rs, n - 1) + match_count_before(rs[n - 1]@, 5)
    }
}

/// `w` is consistent with the feedback of every guess of `gs` evaluated
/// against `secret`.
pub open spec fn matches_history(secret: Word, gs: Seq<Word>, w: Word) -> bool {
    forall|j: int|
        0 <= j < gs.len() ==> matches_spec(
            eval_results(secret.chars@, (#[trigger] gs[j]).chars@),
            w.chars@,
        )
}

/// None of the feedback letters of the guesses of `gs` occurs in `w`.
pub open spec fn avoids_history(secret: Word, gs: Seq<Word>, w: Word) -> bool {
    forall|j: int|
        0 <= j < gs.len() ==> not_contains_spec(
            eval_results(secret.chars@, (#[trigger] gs[j]).chars@),
            w.chars@,
        )
}

/// The words among the first `i` of `ws` consistent with the whole history of
/// guesses `gs` against `secret`.
pub open spec fn filter_history_upto(secret: Word, gs: Seq<Word>, ws: Seq<Word>, i: int) -> Seq<
    Word,
>
    decreases i,
{
    if i <= 0 {
        Seq::empty()
    } else {
        filter_history_upto(secret, gs, ws, i - 1) + if matches_history(secret, gs, ws[i - 1]) {
            seq![ws[i - 1]]
        } else {
            Seq::empty()
        }
    }
}

/// The words of `ws` consistent with the whole history, in order.
pub open spec fn filter_history(secret: Word, gs: Seq<Word>, ws: Seq<Word>) -> Seq<Word> {
    filter_history_upto(secret, gs, ws, ws.len() as int)
}

/// Index of the first highest-scored word among the first `n` of `dict` that
/// avoids every feedback letter of the history, or -1.
pub open spec fn best_avoiding_history(
    dict: Seq<DictionaryWord>,
    secret: Word,
    gs: Seq<Word>,
    n: int,
) -> int
    decreases n,
{
    if n <= 0 {
        -1
    } else {
        let b = best_avoiding_history(dict, secret, gs, n - 1);
        if avoids_history(secret, gs, dict[n - 1].word) && (b == -1 || dict[n - 1].score
            > dict[b].score) {
            n - 1
        } else {
            b
        }
    }
}

/// Total number of Correct or WrongSpot marks over the feedback of the first
/// `n` guesses of the history.
pub open spec fn signals_history(secret: Word, gs: Seq<Word>, n: int) -> int
    decreases n,
{
    if n <= 0 {
        0
    } else {
        signals_history(secret, gs, n - 1) + match_count_before(
            eval_results(secret.chars@, gs[n - 1].chars@),
            5,
        )
    }
}

/// The guess the solving policy picks after the (unsolved) history `gs`:
/// in the first two turns without hard mode, while fewer than four positive
/// signals stand, the best word of the full dictionary avoiding all feedback
/// letters; failing that, or otherwise, the best word of the dictionary
/// filtered by the whole history; an empty filtered set is an error.
pub open spec fn next_guess_spec(
    dict: Seq<DictionaryWord>,
    secret: Word,
    gs: Seq<Word>,
    hard: bool,
) -> Result<Word, WordleError> {
    let filtered = scored_words(filter_history(secret, gs, words_of(dict)));
    let early = !hard && (gs.len() == 1 || (gs.len() == 2 && signals_history(secret, gs, 2) < 4));
    let b = best_avoiding_history(dict, secret, gs, dict.len() as int);
    if early && b >= 0 {
        Ok(dict[b].word)
    } else if filtered.len() == 0 {
        Err(WordleError::EmptyDictionary)
    } else {
        Ok(filtered[best_upto(filtered, filtered.len() as int)].word)
    }
}

/// The guesses of a whole session: `guess` is played; a solved session ends,
/// an exhausted turn budget fails, and otherwise the policy's next guess is
/// played in turn. The session's feedback is `eval_results` of each guess.
pub open spec fn session_from(
    dict: Seq<DictionaryWord>,
    secret: Word,
    guess: Word,
    gs: Seq<Word>,
    turns_left: nat,
    hard: bool,
) -> Result<Seq<Word>, WordleError>
    decreases turns_left,
{
    if turns_left == 0 {
        Err(WordleError::TurnLimitExceeded)
    } else {
        let gs2 = gs.push(guess);
        if all_correct(eval_results(secret.chars@, guess.chars@)) {
            Ok(gs2)
        } else if turns_left == 1 {
            Err(WordleError::TurnLimitExceeded)
        } else {
            match next_guess_spec(dict, secret, gs2, hard) {
                Ok(g) => session_from(dict, secret, g, gs2, (turns_left - 1) as nat, hard),
                Err(e) => Err(e),
            }
        }
    }
}

/// The whole session for a given opening guess: the sequence of guesses
/// played, or the error that ended it.
pub open spec fn session_spec(
    dict: Seq<DictionaryWord>,
    secret: Word,
    first_guess: Word,
    hard: bool,
    max_turns: nat,
) -> Result<Seq<Word>, WordleError> {
    session_from(dict, secret, first_guess, Seq::empty(), max_turns, hard)
}

/// `rs` is exactly the feedback of the guesses `gs` against `secret`.
pub open spec fn history_matches(secret: Word, gs: Seq<Word>, rs: Seq<EvaluationResult>) -> bool {
    &&& rs.len() == gs.len()
    &&& forall|k: int|
        0 <= k < gs.len() ==> (#[trigger] rs[k])@ == eval_results(secret.chars@, gs[k].chars@)
}

proof fn lemma_match_bridge(secret: Word, gs: Seq<Word>, rs: Seq<EvaluationResult>, w: Word)
    requires
        history_matches(secret, gs, rs),
    ensures
        all_match(rs, w) == matches_history(secret, gs, w),
{
    if all_match(rs, w) {
        assert forall|j: int| 0 <= j < gs.len() implies matches_spec(
            eval_results(secret.chars@, (#[trigger] gs[j]).chars@),
            w.chars@,
        ) by {
            assert(matches_spec(rs[j]@, w.chars@));
        }
    }
    if matches_history(secret, gs, w) {
        assert forall|k: int| 0 <= k < rs.len() implies matches_spec(
            (#[trigger] rs[k])@,
            w.chars@,
        ) by {
            assert(matches_spec(eval_results(secret.chars@, gs[k].chars@), w.chars@));
        }
    }
}

proof fn lemma_avoid_bridge(secret: Word, gs: Seq<Word>, rs: Seq<EvaluationResult>, w: Word)
    requires
        history_matches(secret, gs, rs),
    ensures
        avoids_all(rs, w) == avoids_history(secret, gs, w),
{
    if avoids_all(rs, w) {
        assert forall|j: int| 0 <= j < gs.len() implies not_contains_spec(
            eval_results(secret.chars@, (#[trigger] gs[j]).chars@),
            w.chars@,
        ) by {
            assert(not_contains_spec(rs[j]@, w.chars@));
        }
    }
    if avoids_history(secret, gs, w) {
        assert forall|k: int| 0 <= k < rs.len() implies not_contains_spec(
            (#[trigger] rs[k])@,
            w.chars@,
        ) by {
            assert(not_contains_spec(eval_results(secret.chars@, gs[k].chars@), w.chars@));
        }
    }
}

proof fn lemma_filter_bridge(
    secret: Word,
    gs: Seq<Word>,
    rs: Seq<EvaluationResult>,
    ws: Seq<Word>,
    i: int,
)
    requires
        history_matches(secret, gs, rs),
        i <= ws.len(),
    ensures
        filter_upto(ws, rs, i) == filter_history_upto(secret, gs, ws, i),
    decreases i,
{
    if i > 0 {
        lemma_filter_bridge(secret, gs, rs, ws, i - 1);
        lemma_match_bridge(secret, gs, rs, ws[i - 1]);
    }
}

proof fn lemma_best_avoiding_bridge(
    dict: Seq<DictionaryWord>,
    secret: Word,
    gs: Seq<Word>,
    rs: Seq<EvaluationResult>,
    n: int,
)
    requires
        history_matches(secret, gs, rs),
        n <= dict.len(),
    ensures
        best_avoiding_upto(dict, rs, n) == best_avoiding_history(dict, secret, gs, n),
    decreases n,
{
    if n > 0 {
        lemma_best_avoiding_bridge(dict, secret, gs, rs, n - 1);
        lemma_avoid_bridge(secret, gs, rs, dict[n - 1].word);
    }
}

proof fn lemma_signals_bridge(
    secret: Word,
    gs: Seq<Word>,
    rs: Seq<EvaluationResult>,
    n: int,
)
    requires
        history_matches(secret, gs, rs),
        n <= rs.len(),
    ensures
        total_matches(rs, n) == signals_history(secret, gs, n),
    decreases n,
{
    if n > 0 {
        lemma_signals_bridge(secret, gs, rs, n - 1);
    }
}

/// `r` is exactly the outcome the policy determines for a session opened
/// with `opening`: success agrees, errors agree, and on success the feedback
/// is that of the session's guesses in order.
pub open spec fn session_outcome_matches(
    dict: Seq<DictionaryWord>,
    secret: Word,
    opening: Word,
    hard: bool,
    max_turns: nat,
    r: Result<Vec<EvaluationResult>, WordleError>,
) -> bool {
    let s = session_spec(dict, secret, opening, hard, max_turns);
    &&& (r is Ok <==> s is Ok)
    &&& (r is Err ==> r->Err_0 == s->Err_0)
    &&& (r is Ok ==> history_matches(secret, s->Ok_0, r->Ok_0@))
}

proof fn lemma_best_avoiding_range(ws: Seq<DictionaryWord>, rs: Seq<EvaluationResult>, n: int)
    requires
        0 <= n,
    ensures
        best_avoiding_upto(ws, rs, n) == -1 || (0 <= best_avoiding_upto(ws, rs, n) < n),
    decreases n,
{
    if n > 0 {
        lemma_best_avoiding_range(ws, rs, n - 1);
    }
}

proof fn lemma_filter_history_members(secret: Word, gs: Seq<Word>, ws: Seq<Word>, i: int, k: int)
    requires
        0 <= i,
        0 <= k < filter_history_upto(secret, gs, ws, i).len(),
    ensures
        matches_history(secret, gs, filter_history_upto(secret, gs, ws, i)[k]),
    decreases i,
{
    if i > 0 {
        let prev = filter_history_upto(secret, gs, ws, i - 1);
        if k < prev.len() {
            lemma_filter_history_members(secret, gs, ws, i - 1, k);
        }
    }
}

/// Hard-mode discipline: with hard mode on, the guess the policy picks after
/// any unsolved history comes from the dictionary filtered by that whole
/// history, and is therefore consistent with every prior feedback.
pub proof fn lemma_hard_mode_guess_consistent(
    dict: Seq<DictionaryWord>,
    secret: Word,
    gs: Seq<Word>,
)
    requires
        next_guess_spec(dict, secret, gs, true) is Ok,
    ensures
        matches_history(secret, gs, next_guess_spec(dict, secret, gs, true)->Ok_0),
{
    let fh = filter_history(secret, gs, words_of(dict));
    let filtered = scored_words(fh);
    assert(filtered.len() > 0);
    let b = best_upto(filtered, filtered.len() as int);
    lemma_best_upto_is_first_max(filtered, filtered.len() as int);
    assert(filtered[b].word == fh[b]);
    lemma_filter_history_members(secret, gs, words_of(dict), words_of(dict).len() as int, b);
}

/// Runs one solving session against a fixed secret, guessing until solved or
/// until the turn cap is reached.
pub struct Simulator<'a> {
    pub evaluator: Evaluator,
    pub dictionary: &'a Dictionary,
}

impl<'a> Simulator<'a> {
    /// Binds a session to its dictionary and its secret.
    pub fn create(dictionary: &'a Dictionary, solution: Word) -> (r: Simulator<'a>)
        ensures
            r.evaluator.solution == solution,
            r.dictionary == dictionary,
    {
        Simulator { evaluator: Evaluator::create(solution), dictionary }
    }

    /// Total number of positive signals (Correct or WrongSpot marks) across a
    /// whole history.
    pub fn correct_count(results: &Vec<EvaluationResult>) -> (n: u32)
        requires
            results@.len() * 5 <= u32::MAX,
        ensures
            n == total_matches(results@, results@.len() as int),
    {
        let mut n: u32 = 0;
        let mut i: usize = 0;
        while i < results.len()
            invariant
                i <= results@.len(),
                results@.len() * 5 <= u32::MAX,
                n == total_matches(results@, i as int),
                n <= i * 5,
            decreases results@.len() - i,
        {
            let c = results[i].correct_count();
            n = n + c;
            i = i + 1;
        }
        n
    }

    /// Plays out a whole session: evaluates the opening guess, and while the
    /// puzzle is unsolved filters the original dictionary by the full history
    /// and picks the next guess by the early-turn policy.
    ///
    /// The opening guess is the caller's, else the configured one, else the
    /// best-scored word of the dictionary. Feedback accumulates in order; the
    /// session ends at the first all-Correct feedback, or fails after
    /// `max_turns` guesses.
    pub fn simulate(&self, config: &WordleConfig, initial_guess: Option<Word>, max_turns: usize) -> (r:
        Result<Vec<EvaluationResult>, WordleError>)
        requires
            self.dictionary.wf(),
        ensures
            initial_guess is Some ==> session_outcome_matches(
                self.dictionary.words@,
                self.evaluator.solution,
                initial_guess->0,
                config.hard_mode,
                max_turns as nat,
                r,
            ),
            initial_guess is None && config.guess is Some && config.guess->0@.len() == 5
                ==> exists|w: Word|
                w.chars@ == config.guess->0@ && session_outcome_matches(
                    self.dictionary.words@,
                    self.evaluator.solution,
                    w,
                    config.hard_mode,
                    max_turns as nat,
                    r,
                ),
            initial_guess is None && config.guess is None && self.dictionary.words@.len() == 0
                ==> r == Err::<Vec<EvaluationResult>, WordleError>(WordleError::EmptyDictionary),
            initial_guess is None && config.guess is None && self.dictionary.words@.len() > 0
                ==> session_outcome_matches(
                self.dictionary.words@,
                self.evaluator.solution,
                self.dictionary.words@[best_upto(
                    self.dictionary.words@,
                    self.dictionary.words@.len() as int,
                )].word,
                config.hard_mode,
                max_turns as nat,
                r,
            ),
            r is Ok ==> ({
                let rs = r->Ok_0@;
                &&& 1 <= rs.len() <= max_turns
                &&& forall|k: int|
                    0 <= k < rs.len() ==> produced_against(#[trigger] rs[k], self.evaluator.solution)
                &&& all_correct(rs[rs.len() - 1]@)
                &&& forall|k: int| 0 <= k < rs.len() - 1 ==> !all_correct((#[trigger] rs[k])@)
                &&& (initial_guess is Some ==> rs[0]@ == eval_results(
                    self.evaluator.solution.chars@,
                    initial_guess->0.chars@,
                ))
            }),
            initial_guess == Some(self.evaluator.solution) && max_turns >= 1 ==> r is Ok
                && r->Ok_0@.len() == 1,
            r == Err::<Vec<EvaluationResult>, WordleError>(WordleError::InvalidWordLength) <==> (
            initial_guess is None && config.guess is Some && config.guess->0@.len() != 5),
            r is Err ==> (r->Err_0 == WordleError::InvalidWordLength || r->Err_0
                == WordleError::EmptyDictionary || r->Err_0 == WordleError::TurnLimitExceeded),
    {
        match initial_guess {
            Some(g) => self.run_simulation(config, g, max_turns),
            None => match &config.guess {
                Some(gs) => match Word::create(gs.as_str()) {
                    Ok(w) => {
                        let r = self.run_simulation(config, w, max_turns);
                        proof {
                            assert(w.chars@ == config.guess->0@ && session_outcome_matches(
                                self.dictionary.words@,
                                self.evaluator.solution,
                                w,
                                config.hard_mode,
                                max_turns as nat,
                                r,
                            ));
                        }
                        r
                    },
                    Err(e) => Err(e),
                },
                None => match self.dictionary.find_best_guess() {
                    Ok(w) => self.run_simulation(config, w, max_turns),
                    Err(e) => Err(e),
                },
            },
        }
    }

    fn run_simulation(&self, config: &WordleConfig, first_guess: Word, max_turns: usize) -> (r:
        Result<Vec<EvaluationResult>, WordleError>)
        requires
            self.dictionary.wf(),
        ensures
            session_outcome_matches(
                self.dictionary.words@,
                self.evaluator.solution,
                first_guess,
                config.hard_mode,
                max_turns as nat,
                r,
            ),
            r is Ok ==> ({
                let rs = r->Ok_0@;
                &&& 1 <= rs.len() <= max_turns
                &&& forall|k: int|
                    0 <= k < rs.len() ==> produced_against(#[trigger] rs[k], self.evaluator.solution)
                &&& all_correct(rs[rs.len() - 1]@)
                &&& forall|k: int| 0 <= k < rs.len() - 1 ==> !all_correct((#[trigger] rs[k])@)
                &&& rs[0]@ == eval_results(self.evaluator.solution.chars@, first_guess.chars@)
            }),
            first_guess == self.evaluator.solution && max_turns >= 1 ==> r is Ok && r->Ok_0@.len()
                == 1,
            r is Err ==> (r->Err_0 == WordleError::EmptyDictionary || r->Err_0
                == WordleError::TurnLimitExceeded),
    {
        let ghost dict = self.dictionary.words@;
        let ghost solution = self.evaluator.solution;
        let ghost hard = config.hard_mode;
        let ghost whole = session_spec(dict, solution, first_guess, hard, max_turns as nat);
        let mut results: Vec<EvaluationResult> = Vec::new();
        let mut guess = first_guess;
        let mut turns: usize = 0;
        let ghost mut gs: Seq<Word> = Seq::empty();
        while turns < max_turns
            invariant
                self.dictionary.wf(),
                dict == self.dictionary.words@,
                solution == self.evaluator.solution,
                hard == config.hard_mode,
                whole == session_spec(dict, solution, first_guess, hard, max_turns as nat),
                turns <= max_turns,
                results@.len() == turns as int,
                gs.len() == turns as int,
                history_matches(solution, gs, results@),
                session_from(dict, solution, guess, gs, (max_turns - turns) as nat, hard)
                    == whole,
                forall|k: int|
                    0 <= k < turns ==> produced_against(#[trigger] results@[k], solution),
                forall|k: int| 0 <= k < turns ==> !all_correct((#[trigger] results@[k])@),
                forall|k: int| 0 <= k < turns ==> (#[trigger] results@[k]).wf(),
                turns == 0 ==> guess == first_guess,
                turns > 0 ==> results@[0]@ == eval_results(solution.chars@, first_guess.chars@),
                turns > 0 ==> first_guess != solution,
            decreases max_turns - turns,
        {
            let ghost gs0 = gs;
            let ghost turns_left = (max_turns - turns) as nat;
            let fb = self.evaluator.evaluate_guess(&guess);
            proof {
                let g = guess.chars@;
                assert(g.len() == 5);
                assert(fb@ == eval_results(solution.chars@, g));
                assert(produced_against(fb, solution));
                assert forall|i: int| 0 <= i < 5 implies (#[trigger] fb@[i]).pos == i by {
                    assert(fb@[i] == crate::eval::eval_at(solution.chars@, g, i));
                }
                assert(fb.wf());
                gs = gs0.push(guess);
            }
            results.push(fb);
            turns = turns + 1;
            proof {
                if guess == solution {
                    crate::eval::lemma_evaluate_self_all_correct(solution.chars@);
                }
                assert(history_matches(solution, gs, results@));
            }
            if fb.is_correct() {
                proof {
                    assert(all_correct(eval_results(solution.chars@, guess.chars@)));
                    assert(whole == Ok::<Seq<Word>, WordleError>(gs));
                }
                return Ok(results);
            }
            proof {
                assert(guess != solution);
                assert(!all_correct(eval_results(solution.chars@, guess.chars@)));
            }
            if turns == max_turns {
                proof {
                    assert(turns_left == 1);
                    assert(whole == Err::<Seq<Word>, WordleError>(
                        WordleError::TurnLimitExceeded,
                    ));
                }
                return Err(WordleError::TurnLimitExceeded);
            }
            let ghost ng = next_guess_spec(dict, solution, gs, hard);
            proof {
                assert(turns_left >= 2);
                assert(session_from(dict, solution, guess, gs0, turns_left, hard) == (match ng {
                    Ok(g) => session_from(dict, solution, g, gs, (turns_left - 1) as nat, hard),
                    Err(e) => Err(e),
                }));
            }
            let filtered = self.dictionary.filter_based_on_results(&results);
            proof {
                lemma_filter_bridge(
                    solution,
                    gs,
                    results@,
                    self.dictionary.words_view(),
                    self.dictionary.words_view().len() as int,
                );
                assert(filtered.words@ == scored_words(
                    filter_history(solution, gs, words_of(dict)),
                ));
                lemma_best_avoiding_bridge(dict, solution, gs, results@, dict.len() as int);
                lemma_best_avoiding_range(dict, results@, dict.len() as int);
                if results@.len() >= 2 {
                    lemma_signals_bridge(solution, gs, results@, 2);
                }
            }
            let next = if results.len() == 1 && !config.hard_mode {
                match self.dictionary.find_best_guess_not_matching(&results) {
                    Ok(w) => {
                        proof {
                            assert(ng == Ok::<Word, WordleError>(w));
                        }
                        w
                    },
                    Err(_) => {
                        proof {
                            assert(best_avoiding_history(dict, solution, gs, dict.len() as int)
                                == -1);
                        }
                        match filtered.find_best_guess() {
                            Ok(w) => {
                                proof {
                                    assert(ng == Ok::<Word, WordleError>(w));
                                }
                                w
                            },
                            Err(e) => {
                                proof {
                                    assert(ng == Err::<Word, WordleError>(
                                        WordleError::EmptyDictionary,
                                    ));
                                    assert(whole == Err::<Seq<Word>, WordleError>(
                                        WordleError::EmptyDictionary,
                                    ));
                                }
                                return Err(e);
                            },
                        }
                    },
                }
            } else if results.len() == 2 && !config.hard_mode && Simulator::correct_count(&results)
                < 4 {
                match self.dictionary.find_best_guess_not_matching(&results) {
                    Ok(w) => {
                        proof {
                            assert(ng == Ok::<Word, WordleError>(w));
                        }
                        w
                    },
                    Err(_) => {
                        proof {
                            assert(best_avoiding_history(dict, solution, gs, dict.len() as int)
                                == -1);
                        }
                        match filtered.find_best_guess() {
                            Ok(w) => {
                                proof {
                                    assert(ng == Ok::<Word, WordleError>(w));
                                }
                                w
                            },
                            Err(e) => {
                                proof {
                                    assert(ng == Err::<Word, WordleError>(
                                        WordleError::EmptyDictionary,
                                    ));
                                    assert(whole == Err::<Seq<Word>, WordleError>(
                                        WordleError::EmptyDictionary,
                                    ));
                                }
                                return Err(e);
                            },
                        }
                    },
                }
            } else {
                proof {
                    assert(!(!hard && (gs.len() == 1 || (gs.len() == 2 && signals_history(
                        solution,
                        gs,
                        2,
                    ) < 4))));
                }
                match filtered.find_best_guess() {
                    Ok(w) => {
                        proof {
                            assert(ng == Ok::<Word, WordleError>(w));
                        }
                        w
                    },
                    Err(e) => {
                        proof {
                            assert(ng == Err::<Word, WordleError>(WordleError::EmptyDictionary));
                            assert(whole == Err::<Seq<Word>, WordleError>(
                                WordleError::EmptyDictionary,
                            ));
                        }
                        return Err(e);
                    },
                }
            };
            proof {
                assert(ng == Ok::<Word, WordleError>(next));
                assert(session_from(dict, solution, next, gs, (turns_left - 1) as nat, hard)
                    == whole);
            }
            guess = next;
        }
        proof {
            assert(session_from(dict, solution, guess, gs, 0, hard) == whole);
        }
        Err(WordleError::TurnLimitExceeded)
    }
}

/// Index of the first minimum among the first `n` totals, for `n >= 1`.
pub open spec fn min_index_upto(ts: Seq<u64>, n: int) -> int
    decreases n,
{
    if n <= 1 {
        0
    } else {
        let b = min_index_upto(ts, n - 1);
        if ts[n - 1] < ts[b] {
            n - 1
        } else {
            b
        }
    }
}

/// The summed guess counts of solving each of the first `j` words as the
/// secret, each session opened with `opening`; or the error of the earliest
/// failing session.
pub open spec fn batch_total(
    dict: Seq<DictionaryWord>,
    words: Seq<Word>,
    opening: Word,
    hard: bool,
    max_turns: nat,
    j: int,
) -> Result<int, WordleError>
    decreases j,
{
    if j <= 0 {
        Ok(0)
    } else {
        match batch_total(dict, words, opening, hard, max_turns, j - 1) {
            Ok(t) => match session_spec(dict, words[j - 1], opening, hard, max_turns) {
                Ok(gs) => Ok(t + gs.len()),
                Err(e) => Err(e),
            },
            Err(e) => Err(e),
        }
    }
}

proof fn lemma_batch_err_persists(
    dict: Seq<DictionaryWord>,
    words: Seq<Word>,
    opening: Word,
    hard: bool,
    max_turns: nat,
    j1: int,
    j2: int,
)
    requires
        0 <= j1 <= j2,
        batch_total(dict, words, opening, hard, max_turns, j1) is Err,
    ensures
        batch_total(dict, words, opening, hard, max_turns, j2) == batch_total(
            dict,
            words,
            opening,
            hard,
            max_turns,
            j1,
        ),
    decreases j2 - j1,
{
    if j2 > j1 {
        lemma_batch_err_persists(dict, words, opening, hard, max_turns, j1, j2 - 1);
    }
}

/// `r` agrees with the batch outcome for sessions opened with `opening`:
/// success agrees, the session count and summed guess count agree, and
/// errors agree.
pub open spec fn batch_outcome_matches(
    dict: Seq<DictionaryWord>,
    words: Seq<Word>,
    opening: Word,
    hard: bool,
    max_turns: nat,
    r: Result<(usize, u64), WordleError>,
) -> bool {
    let b = batch_total(dict, words, opening, hard, max_turns, words.len() as int);
    &&& (r is Ok <==> b is Ok)
    &&& (r is Ok ==> r->Ok_0.0 == words.len() && r->Ok_0.1 as int == b->Ok_0)
    &&& (r is Err ==> r->Err_0 == b->Err_0)
}

/// Solves every word of `words` as the secret, each session opened with the
/// configured guess (else the dictionary's best word), and sums the guess
/// counts. Returns the number of sessions run and the total number of
/// guesses.
pub fn simulate_all(
    dictionary: &Dictionary,
    words: &Vec<Word>,
    config: &WordleConfig,
    max_turns: usize,
) -> (r: Result<(usize, u64), WordleError>)
    requires
        dictionary.wf(),
        words@.len() * max_turns <= u64::MAX,
    ensures
        words@.len() == 0 ==> r == Ok::<(usize, u64), WordleError>((0, 0)),
        r is Ok ==> r->Ok_0.0 == words@.len() && r->Ok_0.1 <= words@.len() * max_turns,
        r == Err::<(usize, u64), WordleError>(WordleError::InvalidWordLength) <==> (words@.len()
            > 0 && config.guess is Some && config.guess->0@.len() != 5),
        words@.len() > 0 && config.guess is None && dictionary.words@.len() == 0 ==> r == Err::<
            (usize, u64),
            WordleError,
        >(WordleError::EmptyDictionary),
        words@.len() > 0 && config.guess is None && dictionary.words@.len() > 0 ==> ({
            let opening = dictionary.words@[best_upto(
                dictionary.words@,
                dictionary.words@.len() as int,
            )].word;
            batch_outcome_matches(
                dictionary.words@,
                words@,
                opening,
                config.hard_mode,
                max_turns as nat,
                r,
            )
        }),
        words@.len() > 0 && config.guess is Some && config.guess->0@.len() == 5 ==> exists|w: Word|
            w.chars@ == config.guess->0@ && batch_outcome_matches(
                dictionary.words@,
                words@,
                w,
                config.hard_mode,
                max_turns as nat,
                r,
            ),
        r is Err ==> (r->Err_0 == WordleError::InvalidWordLength || r->Err_0
            == WordleError::EmptyDictionary || r->Err_0 == WordleError::TurnLimitExceeded),
{
    if words.len() == 0 {
        return Ok((0, 0));
    }
    let opening = match &config.guess {
        Some(gs) => match Word::create(gs.as_str()) {
            Ok(w) => w,
            Err(e) => {
                return Err(e);
            },
        },
        None => match dictionary.find_best_guess() {
            Ok(w) => w,
            Err(e) => {
                return Err(e);
            },
        },
    };
    match batch_run(dictionary, words, config, opening, max_turns) {
        Ok(total) => {
            proof {
                assert(batch_outcome_matches(
                    dictionary.words@,
                    words@,
                    opening,
                    config.hard_mode,
                    max_turns as nat,
                    Ok::<(usize, u64), WordleError>((words@.len() as usize, total)),
                ));
            }
            Ok((words.len(), total))
        },
        Err(e) => {
            proof {
                assert(batch_outcome_matches(
                    dictionary.words@,
                    words@,
                    opening,
                    config.hard_mode,
                    max_turns as nat,
                    Err::<(usize, u64), WordleError>(e),
                ));
            }
            Err(e)
        },
    }
}

/// Tries every word of `words` as the opening guess, solving every word as
/// the secret each time. Returns the first guess of minimal total guess
/// count, that total, and the per-guess totals in word order.
pub fn find_optimal_guess(
    dictionary: &Dictionary,
    words: &Vec<Word>,
    config: &WordleConfig,
    max_turns: usize,
) -> (r: Result<(Word, u64, Vec<u64>), WordleError>)
    requires
        dictionary.wf(),
        words@.len() * max_turns <= u64::MAX,
    ensures
        words@.len() == 0 ==> r == Err::<(Word, u64, Vec<u64>), WordleError>(
            WordleError::EmptyDictionary,
        ),
        r is Ok ==> ({
            let (bw, bt, ts) = r->Ok_0;
            &&& ts@.len() == words@.len()
            &&& words@.len() >= 1
            &&& forall|i: int|
                0 <= i < words@.len() ==> batch_total(
                    dictionary.words@,
                    words@,
                    #[trigger] words@[i],
                    config.hard_mode,
                    max_turns as nat,
                    words@.len() as int,
                ) == Ok::<int, WordleError>(ts@[i] as int)
            &&& bw == words@[min_index_upto(ts@, words@.len() as int)]
            &&& bt == ts@[min_index_upto(ts@, words@.len() as int)]
        }),
        r is Ok <==> (words@.len() >= 1 && forall|i: int|
            0 <= i < words@.len() ==> batch_total(
                dictionary.words@,
                words@,
                #[trigger] words@[i],
                config.hard_mode,
                max_turns as nat,
                words@.len() as int,
            ) is Ok),
        r is Err && words@.len() >= 1 ==> exists|i: int|
            0 <= i < words@.len() && batch_total(
                dictionary.words@,
                words@,
                #[trigger] words@[i],
                config.hard_mode,
                max_turns as nat,
                words@.len() as int,
            ) == Err::<int, WordleError>(r->Err_0),
{
    if words.len() == 0 {
        return Err(WordleError::EmptyDictionary);
    }
    let mut totals: Vec<u64> = Vec::new();
    let mut best: usize = 0;
    let mut i: usize = 0;
    while i < words.len()
        invariant
            i <= words@.len(),
            dictionary.wf(),
            words@.len() * max_turns <= u64::MAX,
            totals@.len() == i as int,
            forall|j: int|
                0 <= j < i ==> batch_total(
                    dictionary.words@,
                    words@,
                    #[trigger] words@[j],
                    config.hard_mode,
                    max_turns as nat,
                    words@.len() as int,
                ) == Ok::<int, WordleError>(totals@[j] as int),
            i > 0 ==> best < i && best as int == min_index_upto(totals@, i as int),
            i == 0 ==> best == 0,
        decreases words@.len() - i,
    {
        let guess = words[i];
        let total = match batch_run(dictionary, words, config, guess, max_turns) {
            Ok(t) => t,
            Err(e) => {
                proof {
                    assert(batch_total(
                        dictionary.words@,
                        words@,
                        words@[i as int],
                        config.hard_mode,
                        max_turns as nat,
                        words@.len() as int,
                    ) == Err::<int, WordleError>(e));
                }
                return Err(e);
            },
        };
        let ghost old_totals = totals@;
        totals.push(total);
        proof {
            assert forall|n: int| 0 < n <= i as int implies min_index_upto(totals@, n)
                == min_index_upto(old_totals, n) by {
                lemma_min_index_push(old_totals, total, n);
            }
        }
        if i > 0 {
            if totals[i] < totals[best] {
                best = i;
            }
        }
        i = i + 1;
    }
    Ok((words[best], totals[best], totals))
}

proof fn lemma_min_index_push(ts: Seq<u64>, x: u64, n: int)
    requires
        0 < n <= ts.len(),
    ensures
        min_index_upto(ts.push(x), n) == min_index_upto(ts, n),
        0 <= min_index_upto(ts, n) < n,
    decreases n,
{
    if n > 1 {
        lemma_min_index_push(ts, x, n - 1);
    }
}

/// Runs one session per word of `words`, each opened with `opening`, and
/// sums the guess counts; fails with the error of the earliest failing
/// session.
fn batch_run(
    dictionary: &Dictionary,
    words: &Vec<Word>,
    config: &WordleConfig,
    opening: Word,
    max_turns: usize,
) -> (r: Result<u64, WordleError>)
    requires
        dictionary.wf(),
        words@.len() * max_turns <= u64::MAX,
    ensures
        ({
            let b = batch_total(
                dictionary.words@,
                words@,
                opening,
                config.hard_mode,
                max_turns as nat,
                words@.len() as int,
            );
            &&& (r is Ok <==> b is Ok)
            &&& (r is Ok ==> r->Ok_0 as int == b->Ok_0)
            &&& (r is Err ==> b == Err::<int, WordleError>(r->Err_0))
        }),
        r is Ok ==> r->Ok_0 <= words@.len() * max_turns,
        r is Err ==> (r->Err_0 == WordleError::EmptyDictionary || r->Err_0
            == WordleError::TurnLimitExceeded),
{
    let ghost dict = dictionary.words@;
    let ghost hard = config.hard_mode;
    let mut total: u64 = 0;
    let mut j: usize = 0;
    while j < words.len()
        invariant
            j <= words@.len(),
            dictionary.wf(),
            dict == dictionary.words@,
            hard == config.hard_mode,
            words@.len() * max_turns <= u64::MAX,
            total <= j * max_turns,
            batch_total(dict, words@, opening, hard, max_turns as nat, j as int) == Ok::<
                int,
                WordleError,
            >(total as int),
        decreases words@.len() - j,
    {
        let sim = Simulator::create(dictionary, words[j]);
        let results = match sim.simulate(config, Some(opening), max_turns) {
            Ok(rs) => rs,
            Err(e) => {
                proof {
                    assert(session_spec(dict, words@[j as int], opening, hard, max_turns as nat)
                        == Err::<Seq<Word>, WordleError>(e));
                    assert(batch_total(dict, words@, opening, hard, max_turns as nat, j as int + 1)
                        == Err::<int, WordleError>(e));
                    lemma_batch_err_persists(
                        dict,
                        words@,
                        opening,
                        hard,
                        max_turns as nat,
                        j as int + 1,
                        words@.len() as int,
                    );
                }
                return Err(e);
            },
        };
        let n = results.len();
        proof {
            let s = session_spec(dict, words@[j as int], opening, hard, max_turns as nat);
            assert(s is Ok);
            assert(n as int == s->Ok_0.len());
            assert(n <= max_turns);
            assert((j as int + 1) * (max_turns as int) == j as int * (max_turns as int)
                + max_turns as int) by (nonlinear_arith);
            assert((j as int + 1) * (max_turns as int) <= words@.len() * (max_turns as int))
                by (nonlinear_arith)
                requires
                    0 <= j as int + 1 <= words@.len(),
                    0 <= max_turns as int,
            ;
        }
        total = total + n as u64;
        j = j + 1;
    }
    Ok(total)
}

} // verus!
