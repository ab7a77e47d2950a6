use vstd::prelude::*;

use crate::dict::Word;

verus! {

/// The classification of one guess position against the secret.
#[derive(Clone, Copy, Debug, PartialEq, Eq, Structural)]
pub enum CharResultType {
    /// The letter has no unconsumed occurrence in the secret.
    NotFound,
    /// The letter stands at the same position in the secret.
    Correct,
    /// The letter occurs elsewhere in the secret and an occurrence was still unconsumed.
    WrongSpot,
}

/// Feedback for a single guess position: its classification, letter and position.
#[derive(Clone, Copy, Debug, PartialEq, Eq, Structural)]
pub struct CharResult {
    pub result_type: CharResultType,
    pub c: char,
    pub pos: usize,
}

/// Evaluates guesses against one fixed secret word.
#[derive(Clone, Copy, Debug)]
pub struct Evaluator {
    pub solution: Word,
}

/// Feedback for a whole guess: one `CharResult` per position, in position order.
#[derive(Clone, Copy, Debug)]
pub struct EvaluationResult {
    pub char_results: [CharResult; 5],
}

impl View for EvaluationResult {
    type V = Seq<CharResult>;

    open spec fn view(&self) -> Seq<CharResult> {
        self.char_results@
    }
}

/// Number of occurrences of `c` among the first `i` entries of `s`.
pub open spec fn count_before(s: Seq<char>, c: char, i: int) -> int
    decreases i,
{
    if i <= 0 {
        0
    } else {
        count_before(s, c, i - 1) + if s[i - 1] == c {
            1int
        } else {
            0int
        }
    }
}

/// Number of occurrences of `c` in `s`.
pub open spec fn count_of(s: Seq<char>, c: char) -> int {
    count_before(s, c, s.len() as int)
}

/// Number of positions below `i` where guess and secret agree and hold `c`.
pub open spec fn correct_before(secret: Seq<char>, guess: Seq<char>, c: char, i: int) -> int
    decreases i,
{
    if i <= 0 {
        0
    } else {
        correct_before(secret, guess, c, i - 1) + if guess[i - 1] == secret[i - 1] && guess[i - 1]
            == c {
            1int
        } else {
            0int
        }
    }
}

/// Number of positions below `i` that hold `c` and are marked wrong-spot.
pub open spec fn wrong_before(secret: Seq<char>, guess: Seq<char>, c: char, i: int) -> int
    decreases i, 0int,
{
    if i <= 0 {
        0
    } else {
        wrong_before(secret, guess, c, i - 1) + if guess[i - 1] == c && is_wrong_spot(
            secret,
            guess,
            i - 1,
        ) {
            1int
        } else {
            0int
        }
    }
}

/// Position `i` is marked wrong-spot: it is not an exact match, and the secret
/// still has an occurrence of the letter unconsumed by exact matches and by
/// wrong-spot marks to its left.
pub open spec fn is_wrong_spot(secret: Seq<char>, guess: Seq<char>, i: int) -> bool
    decreases i, 1int,
{
    &&& guess[i] != secret[i]
    &&& count_of(secret, guess[i]) > correct_before(secret, guess, guess[i], 5) + wrong_before(
        secret,
        guess,
        guess[i],
        i,
    )
}

/// The mark the two-pass evaluation gives to position `i`.
pub open spec fn mark_at(secret: Seq<char>, guess: Seq<char>, i: int) -> CharResultType {
    if guess[i] == secret[i] {
        CharResultType::Correct
    } else if is_wrong_spot(secret, guess, i) {
        CharResultType::WrongSpot
    } else {
        CharResultType::NotFound
    }
}

/// The full feedback entry the evaluation gives to position `i`.
pub open spec fn eval_at(secret: Seq<char>, guess: Seq<char>, i: int) -> CharResult {
    CharResult { result_type: mark_at(secret, guess, i), c: guess[i], pos: i as usize }
}

/// The feedback sequence of evaluating `guess` against `secret`.
pub open spec fn eval_results(secret: Seq<char>, guess: Seq<char>) -> Seq<CharResult> {
    Seq::new(5, |i: int| eval_at(secret, guess, i))
}

/// Number of wrong-spot entries holding `c` among the first `i` feedback entries.
pub open spec fn wrong_marked_before(rs: Seq<CharResult>, c: char, i: int) -> int
    decreases i,
{
    if i <= 0 {
        0
    } else {
        wrong_marked_before(rs, c, i - 1) + if rs[i - 1].result_type == CharResultType::WrongSpot
            && rs[i - 1].c == c {
            1int
        } else {
            0int
        }
    }
}

proof fn lemma_wrong_marked_matches(
    secret: Seq<char>,
    guess: Seq<char>,
    rs: Seq<CharResult>,
    c: char,
    i: int,
)
    requires
        0 <= i <= 5,
        secret.len() == 5,
        guess.len() == 5,
        forall|j: int| 0 <= j < i ==> rs[j] == eval_at(secret, guess, j),
    ensures
        wrong_marked_before(rs, c, i) == wrong_before(secret, guess, c, i),
    decreases i,
{
    if i > 0 {
        lemma_wrong_marked_matches(secret, guess, rs, c, i - 1);
    }
}

fn count_char(a: &[char; 5], c: char) -> (n: usize)
    ensures
        n == count_of(a@, c),
        n <= 5,
{
    let mut n: usize = 0;
    let mut i: usize = 0;
    while i < 5
        invariant
            i <= 5,
            n == count_before(a@, c, i as int),
            n <= i,
        decreases 5 - i,
    {
        if a[i] == c {
            n = n + 1;
        }
        i = i + 1;
    }
    n
}

fn correct_count_char(s: &[char; 5], g: &[char; 5], c: char) -> (n: usize)
    ensures
        n == correct_before(s@, g@, c, 5),
        n <= 5,
{
    let mut n: usize = 0;
    let mut i: usize = 0;
    while i < 5
        invariant
            i <= 5,
            n == correct_before(s@, g@, c, i as int),
            n <= i,
        decreases 5 - i,
    {
        if g[i] == s[i] && g[i] == c {
            n = n + 1;
        }
        i = i + 1;
    }
    n
}

fn wrong_marked_count(rs: &Vec<CharResult>, c: char) -> (n: usize)
    ensures
        n == wrong_marked_before(rs@, c, rs@.len() as int),
        n <= rs@.len(),
{
    let mut n: usize = 0;
    let mut i: usize = 0;
    while i < rs.len()
        invariant
            i <= rs@.len(),
            n == wrong_marked_before(rs@, c, i as int),
            n <= i,
        decreases rs@.len() - i,
    {
        let r = rs[i];
        if matches!(r.result_type, CharResultType::WrongSpot) && r.c == c {
            n = n + 1;
        }
        i = i + 1;
    }
    n
}



pub(crate) fn char_at(a: &[char; 5], i: usize) -> (c: char)
    requires
        i < 5,
    ensures
        c == a@[i as int],
{
    a[i]
}


/// A feedback value is well formed when entry `i` describes position `i`.
pub open spec fn fb_wf(fb: Seq<CharResult>) -> bool {
    forall|i: int| 0 <= i < 5 ==> (#[trigger] fb[i]).pos == i
}

/// Every Correct entry of the feedback finds its letter at its own position.
pub open spec fn corrects_ok(fb: Seq<CharResult>, w: Seq<char>) -> bool {
    forall|j: int|
        0 <= j < 5 && (#[trigger] fb[j]).result_type == CharResultType::Correct ==> w[j] == fb[j].c
}

/// The positions claimed by the Correct entries.
pub open spec fn correct_claims(fb: Seq<CharResult>) -> Seq<bool> {
    Seq::new(5, |j: int| fb[j].result_type == CharResultType::Correct)
}

/// The first position at or after `j` that is unclaimed and holds `c`, or 5.
pub open spec fn first_unclaimed_match(w: Seq<char>, claimed: Seq<bool>, c: char, j: int) -> int
    decreases 5 - j,
{
    if j < 0 || j >= 5 {
        5
    } else if !claimed[j] && w[j] == c {
        j
    } else {
        first_unclaimed_match(w, claimed, c, j + 1)
    }
}

/// Replays the WrongSpot entries from index `i` on: each needs its letter away
/// from its own position and at some unclaimed position, which it then claims
/// (the leftmost such position). Yields whether all succeeded, and the claims.
pub open spec fn proc_wrong(fb: Seq<CharResult>, w: Seq<char>, i: int, claimed: Seq<bool>) -> (
    bool,
    Seq<bool>,
)
    decreases 5 - i,
{
    if i < 0 || i >= 5 {
        (true, claimed)
    } else if fb[i].result_type != CharResultType::WrongSpot {
        proc_wrong(fb, w, i + 1, claimed)
    } else if w[i] == fb[i].c {
        (false, claimed)
    } else {
        let j = first_unclaimed_match(w, claimed, fb[i].c, 0);
        if j == 5 {
            (false, claimed)
        } else {
            proc_wrong(fb, w, i + 1, claimed.update(j, true))
        }
    }
}

/// No unclaimed position of `w` holds `c`.
pub open spec fn no_unclaimed_match(w: Seq<char>, claimed: Seq<bool>, c: char) -> bool {
    forall|j: int| 0 <= j < 5 ==> #[trigger] claimed[j] || w[j] != c
}

/// Every NotFound entry's letter is absent from all still-unclaimed positions.
pub open spec fn absents_ok(fb: Seq<CharResult>, w: Seq<char>, claimed: Seq<bool>) -> bool {
    forall|i: int|
        0 <= i < 5 && (#[trigger] fb[i]).result_type == CharResultType::NotFound
            ==> no_unclaimed_match(w, claimed, fb[i].c)
}

/// `w` could be the secret that produced feedback `fb`: the Correct entries are
/// replayed first, then the WrongSpot entries left to right, then the NotFound
/// entries, each consuming positions of `w` under the claim discipline.
pub open spec fn matches_spec(fb: Seq<CharResult>, w: Seq<char>) -> bool {
    &&& corrects_ok(fb, w)
    &&& proc_wrong(fb, w, 0, correct_claims(fb)).0
    &&& absents_ok(fb, w, proc_wrong(fb, w, 0, correct_claims(fb)).1)
}

/// All five positions are marked Correct.
pub open spec fn all_correct(fb: Seq<CharResult>) -> bool {
    forall|i: int| 0 <= i < 5 ==> (#[trigger] fb[i]).result_type == CharResultType::Correct
}

/// None of the feedback's letters occurs anywhere in `w`.
pub open spec fn not_contains_spec(fb: Seq<CharResult>, w: Seq<char>) -> bool {
    forall|k: int, j: int|
        0 <= k < 5 && 0 <= j < 5 ==> #[trigger] w[j] != (#[trigger] fb[k]).c
}

/// A mark that signals the letter is present: Correct or WrongSpot.
pub open spec fn is_match_spec(r: CharResult) -> bool {
    r.result_type == CharResultType::Correct || r.result_type == CharResultType::WrongSpot
}

/// Number of Correct or WrongSpot entries among the first `i` feedback entries.
pub open spec fn match_count_before(fb: Seq<CharResult>, i: int) -> int
    decreases i,
{
    if i <= 0 {
        0
    } else {
        match_count_before(fb, i - 1) + if is_match_spec(fb[i - 1]) {
            1int
        } else {
            0int
        }
    }
}

impl EvaluationResult {
    /// Entry `i` describes position `i`.
    pub open spec fn wf(self) -> bool {
        fb_wf(self@)
    }

    /// True iff the guess solved the puzzle: every position is Correct.
    pub fn is_correct(&self) -> (r: bool)
        ensures
            r == all_correct(self@),
    {
        let mut i: usize = 0;
        while i < 5
            invariant
                i <= 5,
                forall|j: int|
                    0 <= j < i ==> (#[trigger] self@[j]).result_type == CharResultType::Correct,
            decreases 5 - i,
        {
            let r = self.char_results[i];
            if !matches!(r.result_type, CharResultType::Correct) {
                assert(self@[i as int].result_type != CharResultType::Correct);
                return false;
            }
            i = i + 1;
        }
        true
    }

    /// Could `word` be the secret that produced this feedback?
    pub fn matches_word(&self, word: &Word) -> (r: bool)
        requires
            self.wf(),
        ensures
            r == matches_spec(self@, word.chars@),
    {
        let fb = &self.char_results;
        let w = &word.chars;
        let mut claimed: Vec<bool> = vec![false, false, false, false, false];
        // Correct entries: check and claim their own positions.
        let mut i: usize = 0;
        while i < 5
            invariant
                i <= 5,
                claimed@.len() == 5,
                fb@ == self@,
                w@ == word.chars@,
                self.wf(),
                forall|j: int|
                    0 <= j < 5 ==> claimed@[j] == (j < i && (#[trigger] fb@[j]).result_type
                        == CharResultType::Correct),
                forall|j: int|
                    0 <= j < i && (#[trigger] fb@[j]).result_type == CharResultType::Correct
                        ==> w@[j] == fb@[j].c,
            decreases 5 - i,
        {
            let r = self.char_results[i];
            if matches!(r.result_type, CharResultType::Correct) {
                if char_at(w, i) != r.c {
                    proof {
                        assert(self@[i as int].result_type == CharResultType::Correct
                            && word.chars@[i as int] != self@[i as int].c);
                        assert(!corrects_ok(self@, word.chars@));
                    }
                    return false;
                }
                claimed[i] = true;
            }
            i = i + 1;
        }
        proof {
            assert(claimed@ =~= correct_claims(self@));
            assert(corrects_ok(self@, word.chars@));
        }
        // WrongSpot entries: claim the leftmost unclaimed occurrence.
        let ghost cl1 = claimed@;
        let mut i: usize = 0;
        while i < 5
            invariant
                i <= 5,
                claimed@.len() == 5,
                fb@ == self@,
                w@ == word.chars@,
                self.wf(),
                cl1 == correct_claims(self@),
                corrects_ok(self@, word.chars@),
                proc_wrong(self@, word.chars@, 0, cl1) == proc_wrong(
                    self@,
                    word.chars@,
                    i as int,
                    claimed@,
                ),
            decreases 5 - i,
        {
            let r = self.char_results[i];
            if matches!(r.result_type, CharResultType::WrongSpot) {
                if char_at(w, i) == r.c {
                    assert(proc_wrong(self@, word.chars@, i as int, claimed@) == (
                        false,
                        claimed@,
                    ));
                    return false;
                }
                let mut j: usize = 0;
                let mut found: bool = false;
                while j < 5 && !found
                    invariant
                        j <= 5,
                        claimed@.len() == 5,
                        fb@ == self@,
                        w@ == word.chars@,
                        found ==> j < 5 && !claimed@[j as int] && w@[j as int] == r.c
                            && first_unclaimed_match(word.chars@, claimed@, r.c, 0) == j as int,
                        !found ==> first_unclaimed_match(word.chars@, claimed@, r.c, 0)
                            == first_unclaimed_match(word.chars@, claimed@, r.c, j as int),
                    decreases 5 - j + if found { 0int } else { 1int },
                {
                    if !claimed[j] && char_at(w, j) == r.c {
                        found = true;
                    } else {
                        j = j + 1;
                    }
                }
                if !found {
                    assert(first_unclaimed_match(word.chars@, claimed@, r.c, 0) == 5);
                    assert(proc_wrong(self@, word.chars@, i as int, claimed@) == (
                        false,
                        claimed@,
                    ));
                    return false;
                }
                let ghost old_claimed = claimed@;
                claimed[j] = true;
                proof {
                    assert(claimed@ =~= old_claimed.update(j as int, true));
                }
            }
            i = i + 1;
        }
        let ghost cl2 = claimed@;
        proof {
            assert(proc_wrong(self@, word.chars@, 0, cl1) == (true, cl2));
        }
        // NotFound entries: their letters must have no unclaimed occurrence left.
        let mut i: usize = 0;
        while i < 5
            invariant
                i <= 5,
                claimed@ == cl2,
                cl2.len() == 5,
                fb@ == self@,
                w@ == word.chars@,
                self.wf(),
                cl1 == correct_claims(self@),
                corrects_ok(self@, word.chars@),
                proc_wrong(self@, word.chars@, 0, cl1) == (true, cl2),
                forall|k: int|
                    0 <= k < i && (#[trigger] self@[k]).result_type == CharResultType::NotFound
                        ==> no_unclaimed_match(word.chars@, cl2, self@[k].c),
            decreases 5 - i,
        {
            let r = self.char_results[i];
            if matches!(r.result_type, CharResultType::NotFound) {
                let mut j: usize = 0;
                while j < 5
                    invariant
                        j <= 5,
                        i < 5,
                        claimed@ == cl2,
                        cl2.len() == 5,
                        fb@ == self@,
                        w@ == word.chars@,
                        self.wf(),
                        r == self@[i as int],
                        r.result_type == CharResultType::NotFound,
                        cl1 == correct_claims(self@),
                        corrects_ok(self@, word.chars@),
                        proc_wrong(self@, word.chars@, 0, cl1) == (true, cl2),
                        forall|k: int| 0 <= k < j ==> #[trigger] cl2[k] || word.chars@[k] != r.c,
                    decreases 5 - j,
                {
                    if !claimed[j] && char_at(w, j) == r.c {
                        assert(!no_unclaimed_match(word.chars@, cl2, self@[i as int].c));
                        assert(!absents_ok(self@, word.chars@, cl2));
                        return false;
                    }
                    j = j + 1;
                }
                assert(no_unclaimed_match(word.chars@, cl2, self@[i as int].c));
            }
            i = i + 1;
        }
        true
    }

    /// The coarse early-turn test: none of the feedback's letters occurs in `word`.
    pub fn not_contains_matches(&self, word: &Word) -> (r: bool)
        ensures
            r == not_contains_spec(self@, word.chars@),
    {
        let mut k: usize = 0;
        while k < 5
            invariant
                k <= 5,
                forall|k2: int, j: int|
                    0 <= k2 < k && 0 <= j < 5 ==> #[trigger] word.chars@[j] != (
                    #[trigger] self@[k2]).c,
            decreases 5 - k,
        {
            let r = self.char_results[k];
            let mut j: usize = 0;
            while j < 5
                invariant
                    j <= 5,
                    r == self@[k as int],
                    k < 5,
                    forall|j2: int| 0 <= j2 < j ==> word.chars@[j2] != r.c,
                decreases 5 - j,
            {
                if char_at(&word.chars, j) == r.c {
                    assert(!not_contains_spec(self@, word.chars@));
                    return false;
                }
                j = j + 1;
            }
            k = k + 1;
        }
        true
    }

    /// The five entries in position order.
    pub fn sorted_results(&self) -> (r: Vec<CharResult>)
        requires
            self.wf(),
        ensures
            r@ == self@,
            forall|i: int| 0 <= i < 5 ==> (#[trigger] r@[i]).pos == i,
    {
        let mut v: Vec<CharResult> = Vec::new();
        let mut i: usize = 0;
        while i < 5
            invariant
                i <= 5,
                v@.len() == i as int,
                forall|j: int| 0 <= j < i ==> v@[j] == self@[j],
            decreases 5 - i,
        {
            v.push(self.char_results[i]);
            i = i + 1;
        }
        proof {
            assert(v@ =~= self@);
        }
        v
    }

    /// Number of positions whose letter the secret was shown to contain:
    /// those marked Correct or WrongSpot.
    pub fn correct_count(&self) -> (n: u32)
        ensures
            n == match_count_before(self@, 5),
            n <= 5,
    {
        let mut n: u32 = 0;
        let mut i: usize = 0;
        while i < 5
            invariant
                i <= 5,
                n == match_count_before(self@, i as int),
                n <= i,
            decreases 5 - i,
        {
            let r = self.char_results[i];
            if r.is_match() {
                n = n + 1;
            }
            i = i + 1;
        }
        n
    }
}

impl CharResult {
    /// True iff this mark shows the letter present in the secret.
    pub fn is_match(&self) -> (b: bool)
        ensures
            b == is_match_spec(*self),
    {
        match self.result_type {
            CharResultType::NotFound => false,
            CharResultType::Correct => true,
            CharResultType::WrongSpot => true,
        }
    }

    /// Renders this entry's mark and letter.
    pub fn format(&self, emoji: bool) -> (r: String)
        ensures
            r@ == self.result_type.render_spec(self.c, emoji),
    {
        self.result_type.format(self.c, emoji)
    }
}

impl Evaluator {
    /// Binds an evaluator to the secret it will score guesses against.
    pub fn create(solution: Word) -> (r: Evaluator)
        ensures
            r.solution == solution,
    {
        Evaluator { solution }
    }

    /// Scores `guess` against the secret with the two-pass algorithm: exact
    /// matches first, then left-to-right wrong-spot marks while unconsumed
    /// occurrences remain.
    pub fn evaluate_guess(&self, guess: &Word) -> (r: EvaluationResult)
        ensures
            r@ == eval_results(self.solution.chars@, guess.chars@),
    {
        let s = &self.solution.chars;
        let g = &guess.chars;
        let mut results: Vec<CharResult> = Vec::new();
        let mut i: usize = 0;
        while i < 5
            invariant
                i <= 5,
                results@.len() == i as int,
                forall|j: int| 0 <= j < i ==> results@[j] == eval_at(s@, g@, j),
                s@ == self.solution.chars@,
                g@ == guess.chars@,
            decreases 5 - i,
        {
            let c = char_at(g, i);
            let si = char_at(s, i);
            if c == si {
                results.push(CharResult { result_type: CharResultType::Correct, c, pos: i });
            } else {
                let sc = count_char(s, c);
                let cc = correct_count_char(s, g, c);
                let wc = wrong_marked_count(&results, c);
                proof {
                    lemma_wrong_marked_matches(s@, g@, results@, c, i as int);
                }
                if sc > cc + wc {
                    results.push(CharResult { result_type: CharResultType::WrongSpot, c, pos: i });
                } else {
                    results.push(CharResult { result_type: CharResultType::NotFound, c, pos: i });
                }
            }
            i = i + 1;
        }
        let r = EvaluationResult {
            char_results: [results[0], results[1], results[2], results[3], results[4]],
        };
        proof {
            assert(r@ =~= eval_results(self.solution.chars@, guess.chars@));
        }
        r
    }
}


/// Number of entries below `i` that hold letter `c` and are marked Correct or WrongSpot.
pub open spec fn letter_match_count(fb: Seq<CharResult>, c: char, i: int) -> int
    decreases i,
{
    if i <= 0 {
        0
    } else {
        letter_match_count(fb, c, i - 1) + if fb[i - 1].c == c && is_match_spec(fb[i - 1]) {
            1int
        } else {
            0int
        }
    }
}

proof fn lemma_wrong_before_mono(secret: Seq<char>, guess: Seq<char>, c: char, i1: int, i2: int)
    requires
        0 <= i1 <= i2,
    ensures
        wrong_before(secret, guess, c, i1) <= wrong_before(secret, guess, c, i2),
    decreases i2 - i1,
{
    if i2 > i1 {
        lemma_wrong_before_mono(secret, guess, c, i1, i2 - 1);
    }
}

proof fn lemma_correct_le_secret_count(secret: Seq<char>, guess: Seq<char>, c: char, i: int)
    ensures
        correct_before(secret, guess, c, i) <= count_before(secret, c, i),
    decreases i,
{
    if i > 0 {
        lemma_correct_le_secret_count(secret, guess, c, i - 1);
    }
}

proof fn lemma_consumed_le_secret(secret: Seq<char>, guess: Seq<char>, c: char, i: int)
    requires
        secret.len() == 5,
        guess.len() == 5,
        0 <= i <= 5,
    ensures
        correct_before(secret, guess, c, 5) + wrong_before(secret, guess, c, i) <= count_of(
            secret,
            c,
        ),
    decreases i,
{
    if i == 0 {
        lemma_correct_le_secret_count(secret, guess, c, 5);
    } else {
        lemma_consumed_le_secret(secret, guess, c, i - 1);
        if guess[i - 1] == c && is_wrong_spot(secret, guess, i - 1) {
            assert(count_of(secret, c) > correct_before(secret, guess, c, 5) + wrong_before(
                secret,
                guess,
                c,
                i - 1,
            ));
        }
    }
}

proof fn lemma_marked_le_guess(secret: Seq<char>, guess: Seq<char>, c: char, i: int)
    ensures
        correct_before(secret, guess, c, i) + wrong_before(secret, guess, c, i) <= count_before(
            guess,
            c,
            i,
        ),
    decreases i,
{
    if i > 0 {
        lemma_marked_le_guess(secret, guess, c, i - 1);
        if guess[i - 1] == c && is_wrong_spot(secret, guess, i - 1) {
            assert(guess[i - 1] != secret[i - 1]);
        }
    }
}

proof fn lemma_all_marked(secret: Seq<char>, guess: Seq<char>, c: char, i: int)
    requires
        secret.len() == 5,
        guess.len() == 5,
        0 <= i <= 5,
        correct_before(secret, guess, c, 5) + wrong_before(secret, guess, c, 5) < count_of(
            secret,
            c,
        ),
    ensures
        correct_before(secret, guess, c, i) + wrong_before(secret, guess, c, i) == count_before(
            guess,
            c,
            i,
        ),
    decreases i,
{
    if i > 0 {
        lemma_all_marked(secret, guess, c, i - 1);
        if guess[i - 1] == secret[i - 1] {
            assert(!is_wrong_spot(secret, guess, i - 1));
        }
        if guess[i - 1] == c && guess[i - 1] != secret[i - 1] {
            lemma_wrong_before_mono(secret, guess, c, i - 1, 5);
            assert(count_of(secret, c) > correct_before(secret, guess, c, 5) + wrong_before(
                secret,
                guess,
                c,
                i - 1,
            ));
            assert(is_wrong_spot(secret, guess, i - 1));
        }
    }
}

proof fn lemma_correct_mono(secret: Seq<char>, guess: Seq<char>, c: char, i1: int, i2: int)
    requires
        0 <= i1 <= i2,
    ensures
        correct_before(secret, guess, c, i1) <= correct_before(secret, guess, c, i2),
    decreases i2 - i1,
{
    if i2 > i1 {
        lemma_correct_mono(secret, guess, c, i1, i2 - 1);
    }
}

proof fn lemma_letter_match_decompose(secret: Seq<char>, guess: Seq<char>, c: char, i: int)
    requires
        secret.len() == 5,
        guess.len() == 5,
        0 <= i <= 5,
    ensures
        letter_match_count(eval_results(secret, guess), c, i) == correct_before(
            secret,
            guess,
            c,
            i,
        ) + wrong_before(secret, guess, c, i),
    decreases i,
{
    if i > 0 {
        lemma_letter_match_decompose(secret, guess, c, i - 1);
        let fb = eval_results(secret, guess);
        assert(fb[i - 1] == eval_at(secret, guess, i - 1));
        if guess[i - 1] == secret[i - 1] {
            assert(!is_wrong_spot(secret, guess, i - 1));
            assert(fb[i - 1].result_type == CharResultType::Correct);
        }
    }
}

/// For every letter, the number of guess positions holding it that are marked
/// Correct or WrongSpot equals the smaller of its occurrence counts in the
/// guess and in the secret.
pub proof fn lemma_feedback_count_is_min(secret: Seq<char>, guess: Seq<char>, c: char)
    requires
        secret.len() == 5,
        guess.len() == 5,
    ensures
        letter_match_count(eval_results(secret, guess), c, 5) == if count_of(guess, c) <= count_of(
            secret,
            c,
        ) {
            count_of(guess, c)
        } else {
            count_of(secret, c)
        },
{
    lemma_letter_match_decompose(secret, guess, c, 5);
    lemma_consumed_le_secret(secret, guess, c, 5);
    lemma_marked_le_guess(secret, guess, c, 5);
    if correct_before(secret, guess, c, 5) + wrong_before(secret, guess, c, 5) < count_of(
        secret,
        c,
    ) {
        lemma_all_marked(secret, guess, c, 5);
    }
}

/// Evaluating a secret against itself marks every position Correct.
pub proof fn lemma_evaluate_self_all_correct(secret: Seq<char>)
    requires
        secret.len() == 5,
    ensures
        all_correct(eval_results(secret, secret)),
{
    assert forall|i: int| 0 <= i < 5 implies (#[trigger] eval_results(secret, secret)[i]).result_type
        == CharResultType::Correct by {
        assert(mark_at(secret, secret, i) == CharResultType::Correct);
    }
}

/// Number of unclaimed positions below `j` that hold `c`.
pub open spec fn unclaimed_before(w: Seq<char>, claimed: Seq<bool>, c: char, j: int) -> int
    decreases j,
{
    if j <= 0 {
        0
    } else {
        unclaimed_before(w, claimed, c, j - 1) + if !claimed[j - 1] && w[j - 1] == c {
            1int
        } else {
            0int
        }
    }
}

proof fn lemma_unclaimed_nonneg(w: Seq<char>, claimed: Seq<bool>, c: char, j: int)
    ensures
        unclaimed_before(w, claimed, c, j) >= 0,
    decreases j,
{
    if j > 0 {
        lemma_unclaimed_nonneg(w, claimed, c, j - 1);
    }
}

proof fn lemma_unclaimed_zero(w: Seq<char>, claimed: Seq<bool>, c: char, j: int)
    requires
        0 <= j,
    ensures
        (unclaimed_before(w, claimed, c, j) == 0) <==> (forall|k: int|
            0 <= k < j ==> #[trigger] claimed[k] || w[k] != c),
    decreases j,
{
    if j > 0 {
        lemma_unclaimed_zero(w, claimed, c, j - 1);
        lemma_unclaimed_nonneg(w, claimed, c, j - 1);
    }
}

proof fn lemma_first_match_finds(w: Seq<char>, claimed: Seq<bool>, c: char, j: int)
    requires
        0 <= j <= 5,
        w.len() == 5,
        claimed.len() == 5,
        exists|k: int| j <= k < 5 && !(#[trigger] claimed[k]) && w[k] == c,
    ensures
        ({
            let r = first_unclaimed_match(w, claimed, c, j);
            j <= r < 5 && !claimed[r] && w[r] == c
        }),
    decreases 5 - j,
{
    if !(!claimed[j] && w[j] == c) {
        let k = choose|k: int| j <= k < 5 && !(#[trigger] claimed[k]) && w[k] == c;
        assert(j + 1 <= k < 5 && !claimed[k] && w[k] == c);
        lemma_first_match_finds(w, claimed, c, j + 1);
    }
}

proof fn lemma_unclaimed_update(w: Seq<char>, claimed: Seq<bool>, c: char, p: int, j: int)
    requires
        0 <= p < claimed.len(),
        !claimed[p],
        0 <= j <= claimed.len(),
    ensures
        unclaimed_before(w, claimed.update(p, true), c, j) == unclaimed_before(w, claimed, c, j)
            - if p < j && w[p] == c {
            1int
        } else {
            0int
        },
    decreases j,
{
    if j > 0 {
        lemma_unclaimed_update(w, claimed, c, p, j - 1);
    }
}

proof fn lemma_unclaimed_base(secret: Seq<char>, guess: Seq<char>, c: char, j: int)
    requires
        secret.len() == 5,
        guess.len() == 5,
        0 <= j <= 5,
    ensures
        unclaimed_before(secret, correct_claims(eval_results(secret, guess)), c, j)
            == count_before(secret, c, j) - correct_before(secret, guess, c, j),
    decreases j,
{
    if j > 0 {
        lemma_unclaimed_base(secret, guess, c, j - 1);
        assert(correct_claims(eval_results(secret, guess))[j - 1] == (guess[j - 1] == secret[j
            - 1]));
    }
}

proof fn lemma_proc_wrong_sound(secret: Seq<char>, guess: Seq<char>, i: int, claimed: Seq<bool>)
    requires
        secret.len() == 5,
        guess.len() == 5,
        claimed.len() == 5,
        0 <= i <= 5,
        forall|c: char|
            unclaimed_before(secret, claimed, c, 5) == count_of(secret, c) - correct_before(
                secret,
                guess,
                c,
                5,
            ) - #[trigger] wrong_before(secret, guess, c, i),
    ensures
        ({
            let r = proc_wrong(eval_results(secret, guess), secret, i, claimed);
            &&& r.0
            &&& r.1.len() == 5
            &&& forall|c: char|
                unclaimed_before(secret, r.1, c, 5) == count_of(secret, c) - correct_before(
                    secret,
                    guess,
                    c,
                    5,
                ) - #[trigger] wrong_before(secret, guess, c, 5)
        }),
    decreases 5 - i,
{
    let fb = eval_results(secret, guess);
    if i < 5 {
        assert(fb[i] == eval_at(secret, guess, i));
        if fb[i].result_type != CharResultType::WrongSpot {
            assert(!is_wrong_spot(secret, guess, i));
            assert forall|c: char|
                #[trigger] wrong_before(secret, guess, c, i + 1) == wrong_before(
                    secret,
                    guess,
                    c,
                    i,
                ) by {
                assert(!(guess[i] == c && is_wrong_spot(secret, guess, i)));
            }
            lemma_proc_wrong_sound(secret, guess, i + 1, claimed);
        } else {
            let c0 = guess[i];
            assert(is_wrong_spot(secret, guess, i));
            assert(secret[i] != c0);
            assert(count_of(secret, c0) > correct_before(secret, guess, c0, 5) + wrong_before(
                secret,
                guess,
                c0,
                i,
            ));
            assert(unclaimed_before(secret, claimed, c0, 5) == count_of(secret, c0)
                - correct_before(secret, guess, c0, 5) - wrong_before(secret, guess, c0, i));
            assert(unclaimed_before(secret, claimed, c0, 5) > 0);
            lemma_unclaimed_zero(secret, claimed, c0, 5);
            assert(exists|k: int| 0 <= k < 5 && !(#[trigger] claimed[k]) && secret[k] == c0);
            lemma_first_match_finds(secret, claimed, c0, 0);
            let p = first_unclaimed_match(secret, claimed, c0, 0);
            let claimed2 = claimed.update(p, true);
            assert forall|c: char|
                unclaimed_before(secret, claimed2, c, 5) == count_of(secret, c) - correct_before(
                    secret,
                    guess,
                    c,
                    5,
                ) - #[trigger] wrong_before(secret, guess, c, i + 1) by {
                lemma_unclaimed_update(secret, claimed, c, p, 5);
                assert(unclaimed_before(secret, claimed, c, 5) == count_of(secret, c)
                    - correct_before(secret, guess, c, 5) - wrong_before(secret, guess, c, i));
                if c == c0 {
                    assert(wrong_before(secret, guess, c, i + 1) == wrong_before(
                        secret,
                        guess,
                        c,
                        i,
                    ) + 1);
                } else {
                    assert(wrong_before(secret, guess, c, i + 1) == wrong_before(
                        secret,
                        guess,
                        c,
                        i,
                    ));
                }
            }
            lemma_proc_wrong_sound(secret, guess, i + 1, claimed2);
        }
    }
}

proof fn lemma_absents_sound(secret: Seq<char>, guess: Seq<char>, cl2: Seq<bool>)
    requires
        secret.len() == 5,
        guess.len() == 5,
        cl2.len() == 5,
        forall|c: char|
            unclaimed_before(secret, cl2, c, 5) == count_of(secret, c) - correct_before(
                secret,
                guess,
                c,
                5,
            ) - #[trigger] wrong_before(secret, guess, c, 5),
    ensures
        absents_ok(eval_results(secret, guess), secret, cl2),
{
    let fb = eval_results(secret, guess);
    assert forall|i: int|
        0 <= i < 5 && (#[trigger] fb[i]).result_type == CharResultType::NotFound implies
        no_unclaimed_match(secret, cl2, fb[i].c) by {
        let c = guess[i];
        assert(!is_wrong_spot(secret, guess, i));
        assert(count_of(secret, c) <= correct_before(secret, guess, c, 5) + wrong_before(
            secret,
            guess,
            c,
            i,
        ));
        lemma_wrong_before_mono(secret, guess, c, i, 5);
        lemma_unclaimed_nonneg(secret, cl2, c, 5);
        assert(unclaimed_before(secret, cl2, c, 5) == 0);
        lemma_unclaimed_zero(secret, cl2, c, 5);
    }
}

/// Soundness of filtering: the feedback produced by evaluating any guess
/// against a secret always matches that secret itself.
pub proof fn lemma_eval_matches_secret(secret: Seq<char>, guess: Seq<char>)
    requires
        secret.len() == 5,
        guess.len() == 5,
    ensures
        matches_spec(eval_results(secret, guess), secret),
{
    let fb = eval_results(secret, guess);
    let cl1 = correct_claims(fb);
    assert(corrects_ok(fb, secret));
    assert forall|c: char|
        unclaimed_before(secret, cl1, c, 5) == count_of(secret, c) - correct_before(
            secret,
            guess,
            c,
            5,
        ) - #[trigger] wrong_before(secret, guess, c, 0) by {
        lemma_unclaimed_base(secret, guess, c, 5);
    }
    lemma_proc_wrong_sound(secret, guess, 0, cl1);
    lemma_absents_sound(secret, guess, proc_wrong(fb, secret, 0, cl1).1);
}



/// Relies on std's `format!` to render two characters as a string.
#[verifier::external_body]
fn two_char_string(a: char, b: char) -> (r: String)
    ensures
        r@ == seq![a, b],
{
    format!("{}{}", a, b)
}

/// Relies on std's `format!` to render one character as a string.
#[verifier::external_body]
fn one_char_string(a: char) -> (r: String)
    ensures
        r@ == seq![a],
{
    format!("{}", a)
}

impl CharResultType {
    /// The rendering of a mark over letter `c`: a glyph when `emoji` is set,
    /// else a sign character followed by the letter.
    pub open spec fn render_spec(self, c: char, emoji: bool) -> Seq<char> {
        if emoji {
            match self {
                CharResultType::NotFound => seq!['\u{2B1B}'],
                CharResultType::Correct => seq!['\u{1F7E9}'],
                CharResultType::WrongSpot => seq!['\u{1F7E8}'],
            }
        } else {
            match self {
                CharResultType::NotFound => seq!['-', c],
                CharResultType::Correct => seq!['+', c],
                CharResultType::WrongSpot => seq!['~', c],
            }
        }
    }

    /// Renders this mark for letter `c` as text or as a glyph.
    pub fn format(&self, c: char, emoji: bool) -> (r: String)
        ensures
            r@ == self.render_spec(c, emoji),
    {
        if emoji {
            match self {
                CharResultType::NotFound => one_char_string('\u{2B1B}'),
                CharResultType::Correct => one_char_string('\u{1F7E9}'),
                CharResultType::WrongSpot => one_char_string('\u{1F7E8}'),
            }
        } else {
            match self {
                CharResultType::NotFound => two_char_string('-', c),
                CharResultType::Correct => two_char_string('+', c),
                CharResultType::WrongSpot => two_char_string('~', c),
            }
        }
    }
}



proof fn lemma_wrongspot_entry_fails(fb: Seq<CharResult>, w: Seq<char>, i: int, cl: Seq<bool>)
    requires
        0 <= i <= 5,
        exists|j: int|
            i <= j < 5 && (#[trigger] fb[j]).result_type == CharResultType::WrongSpot && w[j]
                == fb[j].c,
    ensures
        !proc_wrong(fb, w, i, cl).0,
    decreases 5 - i,
{
    let j0 = choose|j: int|
        i <= j < 5 && (#[trigger] fb[j]).result_type == CharResultType::WrongSpot && w[j]
            == fb[j].c;
    if fb[i].result_type != CharResultType::WrongSpot {
        assert(j0 > i);
        lemma_wrongspot_entry_fails(fb, w, i + 1, cl);
    } else if w[i] != fb[i].c {
        assert(j0 > i);
        let p = first_unclaimed_match(w, cl, fb[i].c, 0);
        if p != 5 {
            lemma_wrongspot_entry_fails(fb, w, i + 1, cl.update(p, true));
        }
    }
}

proof fn lemma_no_wrong_claims(fb: Seq<CharResult>, w: Seq<char>, i: int, cl: Seq<bool>)
    requires
        0 <= i <= 5,
        forall|j: int| i <= j < 5 ==> (#[trigger] fb[j]).result_type != CharResultType::WrongSpot,
    ensures
        proc_wrong(fb, w, i, cl) == (true, cl),
    decreases 5 - i,
{
    if i < 5 {
        lemma_no_wrong_claims(fb, w, i + 1, cl);
    }
}

/// A wrong guess never survives its own feedback: evaluating `guess` against
/// a different `secret` yields feedback that `guess` itself fails to match.
/// Filtering by that feedback therefore discards the guess just played.
pub proof fn lemma_wrong_guess_excluded(secret: Seq<char>, guess: Seq<char>)
    requires
        secret.len() == 5,
        guess.len() == 5,
        guess != secret,
    ensures
        !matches_spec(eval_results(secret, guess), guess),
{
    let fb = eval_results(secret, guess);
    assert(exists|i: int| 0 <= i < 5 && guess[i] != secret[i]) by {
        if forall|i: int| 0 <= i < 5 ==> #[trigger] guess[i] == secret[i] {
            assert(guess =~= secret);
        }
    }
    if exists|j: int|
        0 <= j < 5 && (#[trigger] fb[j]).result_type == CharResultType::WrongSpot {
        let j = choose|j: int|
            0 <= j < 5 && (#[trigger] fb[j]).result_type == CharResultType::WrongSpot;
        assert(fb[j].c == guess[j]);
        lemma_wrongspot_entry_fails(fb, guess, 0, correct_claims(fb));
    } else {
        lemma_no_wrong_claims(fb, guess, 0, correct_claims(fb));
        let i = choose|i: int| 0 <= i < 5 && guess[i] != secret[i];
        assert(fb[i].result_type == CharResultType::NotFound);
        assert(!correct_claims(fb)[i]);
        assert(!no_unclaimed_match(guess, correct_claims(fb), fb[i].c));
        assert(!absents_ok(fb, guess, correct_claims(fb)));
    }
}


} // verus!
