use vstd::prelude::*;

use crate::eval::{char_at, matches_spec, not_contains_spec, EvaluationResult};
use crate::WordleError;

verus! {

/// A guess word: exactly five letters, one per position.
#[derive(Clone, Copy, Debug)]
pub struct Word {
    pub chars: [char; 5],
}

impl Word {
    /// Builds a `Word` from a string slice; fails unless it holds exactly five characters.
    pub fn create(word: &str) -> (r: Result<Word, WordleError>)
        ensures
            word@.len() == 5 <==> r is Ok,
            r is Ok ==> r->Ok_0.chars@ == word@,
            r is Err ==> r->Err_0 == WordleError::InvalidWordLength,
    {
        let mut it = word.chars();
        let c0 = it.next();
        let c1 = it.next();
        let c2 = it.next();
        let c3 = it.next();
        let c4 = it.next();
        let end = it.next();
        match (c0, c1, c2, c3, c4, end) {
            (Some(a), Some(b), Some(c), Some(d), Some(e), None) => {
                let w = Word { chars: [a, b, c, d, e] };
                proof {
                    assert(w.chars@ =~= word@);
                }
                Ok(w)
            },
            _ => Err(WordleError::InvalidWordLength),
        }
    }
}


/// The largest candidate-set size the scoring arithmetic supports.
pub const MAX_WORDS: usize = 858993459;

/// `c` is one of the 26 lowercase letters.
pub open spec fn is_lower(c: char) -> bool {
    97 <= c as int <= 122
}

/// Every letter of the word is lowercase.
pub open spec fn word_lower(w: Word) -> bool {
    forall|i: int| 0 <= i < 5 ==> is_lower(#[trigger] w.chars@[i])
}

/// Every word of the sequence is lowercase.
pub open spec fn words_lower(ws: Seq<Word>) -> bool {
    forall|i: int| 0 <= i < ws.len() ==> word_lower(#[trigger] ws[i])
}

/// The cell of the frequency table holding letter `c` at position `pos`.
pub open spec fn stat_idx(c: char, pos: int) -> int {
    (c as int - 97) * 5 + pos
}

/// Number of words among the first `n` that hold `c` at position `pos`.
pub open spec fn occ_before(ws: Seq<Word>, c: char, pos: int, n: int) -> int
    decreases n,
{
    if n <= 0 {
        0
    } else {
        occ_before(ws, c, pos, n - 1) + if ws[n - 1].chars@[pos] == c {
            1int
        } else {
            0int
        }
    }
}

/// Number of words of `ws` that hold `c` at position `pos`.
pub open spec fn occ_count(ws: Seq<Word>, c: char, pos: int) -> int {
    occ_before(ws, c, pos, ws.len() as int)
}

/// The table records, for every lowercase letter and position, how many words
/// of `ws` hold that letter at that position.
pub open spec fn stats_match(stats: Seq<u32>, ws: Seq<Word>) -> bool {
    &&& stats.len() == 130
    &&& forall|c: char, pos: int|
        is_lower(c) && 0 <= pos < 5 ==> #[trigger] stats[stat_idx(c, pos)] == occ_count(
            ws,
            c,
            pos,
        )
}

/// Every cell of the table is at most `bound`.
pub open spec fn stats_bounded(stats: Seq<u32>, bound: int) -> bool {
    forall|k: int| 0 <= k < stats.len() ==> #[trigger] stats[k] <= bound
}

/// The letter at position `i` already occurred earlier in the word.
pub open spec fn seen_before(cs: Seq<char>, i: int) -> bool {
    exists|j: int| 0 <= j < i && cs[j] == cs[i]
}

/// The heuristic score of the first `i` positions: each position adds its
/// letter's positional frequency, halved when the letter repeats an earlier
/// position of the same word.
pub open spec fn score_upto(stats: Seq<u32>, cs: Seq<char>, i: int) -> int
    decreases i,
{
    if i <= 0 {
        0
    } else {
        score_upto(stats, cs, i - 1) + if seen_before(cs, i - 1) {
            stats[stat_idx(cs[i - 1], i - 1)] as int / 2
        } else {
            stats[stat_idx(cs[i - 1], i - 1)] as int
        }
    }
}

/// The heuristic score of a whole word against the table.
pub open spec fn score_spec(stats: Seq<u32>, cs: Seq<char>) -> int {
    score_upto(stats, cs, 5)
}

/// The frequency table a candidate set determines: cell `k` counts the words
/// holding letter `k / 5` of the alphabet at position `k % 5`.
pub open spec fn table_of(ws: Seq<Word>) -> Seq<u32> {
    Seq::new(130, |k: int| occ_count(ws, ((97 + k / 5) as u8) as char, k % 5) as u32)
}


proof fn lemma_occ_le(ws: Seq<Word>, c: char, pos: int, n: int)
    requires
        0 <= n,
    ensures
        0 <= occ_before(ws, c, pos, n) <= n,
    decreases n,
{
    if n > 0 {
        lemma_occ_le(ws, c, pos, n - 1);
    }
}

/// Positional letter-frequency statistics over a candidate set.
#[derive(Clone, Debug)]
pub struct LetterStats {
    pub stats: Vec<u32>,
}

impl LetterStats {
    /// Builds the table: one pass over the words, incrementing the cell of
    /// each word's letter at each position. All 26 letters have cells, zero
    /// when absent from the candidates.
    pub fn create(words: &Vec<Word>) -> (r: LetterStats)
        requires
            words_lower(words@),
            words@.len() <= MAX_WORDS,
        ensures
            stats_match(r.stats@, words@),
            stats_bounded(r.stats@, words@.len() as int),
    {
        let mut stats: Vec<u32> = Vec::new();
        let mut k: usize = 0;
        while k < 130
            invariant
                k <= 130,
                stats@.len() == k as int,
                forall|k2: int| 0 <= k2 < k ==> #[trigger] stats@[k2] == 0,
            decreases 130 - k,
        {
            stats.push(0);
            k = k + 1;
        }
        proof {
            assert forall|c: char, pos: int| is_lower(c) && 0 <= pos < 5 implies #[trigger] stats@[
                stat_idx(c, pos)] == occ_before(words@, c, pos, 0) by {
                assert(0 <= stat_idx(c, pos) < 130);
            }
        }
        let mut n: usize = 0;
        while n < words.len()
            invariant
                n <= words@.len(),
                words@.len() <= MAX_WORDS,
                words_lower(words@),
                stats@.len() == 130,
                forall|c: char, pos: int|
                    is_lower(c) && 0 <= pos < 5 ==> #[trigger] stats@[stat_idx(c, pos)]
                        == occ_before(words@, c, pos, n as int),
                forall|k2: int| 0 <= k2 < 130 ==> #[trigger] stats@[k2] <= n,
            decreases words@.len() - n,
        {
            let w = words[n];
            let mut pos: usize = 0;
            while pos < 5
                invariant
                    pos <= 5,
                    n < words@.len(),
                    words@.len() <= MAX_WORDS,
                    words_lower(words@),
                    w == words@[n as int],
                    stats@.len() == 130,
                    forall|c: char, p: int|
                        is_lower(c) && 0 <= p < 5 ==> #[trigger] stats@[stat_idx(c, p)]
                            == occ_before(words@, c, p, n as int) + if p < pos && words@[n as int].chars@[p]
                            == c {
                            1int
                        } else {
                            0int
                        },
                    forall|k2: int| 0 <= k2 < 130 ==> #[trigger] stats@[k2] <= n + 1,
                decreases 5 - pos,
            {
                let c0 = char_at(&w.chars, pos);
                assert(is_lower(c0));
                let idx: usize = (c0 as u32 - 97) as usize * 5 + pos;
                proof {
                    assert(idx as int == stat_idx(c0, pos as int));
                }
                let cur = stats[idx];
                proof {
                    lemma_occ_le(words@, c0, pos as int, n as int);
                    assert(stats@[idx as int] == occ_before(words@, c0, pos as int, n as int));
                    assert(cur <= n);
                }
                stats[idx] = cur + 1;
                proof {
                    assert forall|c: char, p: int| is_lower(c) && 0 <= p < 5 implies #[trigger] stats@[
                        stat_idx(c, p)] == occ_before(words@, c, p, n as int) + if p < pos + 1
                        && words@[n as int].chars@[p] == c {
                        1int
                    } else {
                        0int
                    } by {
                        assert(stat_idx(c, p) == stat_idx(c0, pos as int) <==> (c == c0 && p
                            == pos as int));
                    }
                }
                pos = pos + 1;
            }
            proof {
                assert forall|c: char, p: int| is_lower(c) && 0 <= p < 5 implies #[trigger] stats@[
                    stat_idx(c, p)] == occ_before(words@, c, p, n as int + 1) by {
                }
            }
            n = n + 1;
        }
        LetterStats { stats }
    }

    /// Scores a word: positional frequency of each letter, halved for letters
    /// already seen earlier in the same word.
    pub fn calculate_score(&self, word: &Word) -> (score: u32)
        requires
            self.stats@.len() == 130,
            word_lower(*word),
            stats_bounded(self.stats@, MAX_WORDS as int),
        ensures
            score == score_spec(self.stats@, word.chars@),
    {
        let mut score: u32 = 0;
        let mut seen: Vec<char> = Vec::new();
        let mut i: usize = 0;
        while i < 5
            invariant
                i <= 5,
                self.stats@.len() == 130,
                word_lower(*word),
                stats_bounded(self.stats@, MAX_WORDS as int),
                seen@.len() == i as int,
                forall|j: int| 0 <= j < i ==> #[trigger] seen@[j] == word.chars@[j],
                score == score_upto(self.stats@, word.chars@, i as int),
                score <= i * (MAX_WORDS as int),
            decreases 5 - i,
        {
            let c = char_at(&word.chars, i);
            let mut found: bool = false;
            let mut j: usize = 0;
            while j < i
                invariant
                    j <= i,
                    i <= 5,
                    seen@.len() == i as int,
                    forall|j2: int| 0 <= j2 < i ==> #[trigger] seen@[j2] == word.chars@[j2],
                    c == word.chars@[i as int],
                    found <==> exists|j2: int| 0 <= j2 < j && word.chars@[j2] == c,
                decreases i - j,
            {
                if seen[j] == c {
                    found = true;
                }
                j = j + 1;
            }
            proof {
                assert(found <==> seen_before(word.chars@, i as int));
            }
            assert(is_lower(c));
            let idx: usize = (c as u32 - 97) as usize * 5 + i;
            proof {
                assert(idx as int == stat_idx(c, i as int));
                assert(self.stats@[idx as int] <= MAX_WORDS);
            }
            let cnt = self.stats[idx];
            if found {
                score = score + cnt / 2;
            } else {
                score = score + cnt;
            }
            seen.push(c);
            i = i + 1;
        }
        score
    }
}

/// A candidate word together with its heuristic score.
#[derive(Clone, Copy, Debug)]
pub struct DictionaryWord {
    pub word: Word,
    pub score: u32,
}

/// The words of a scored candidate sequence, in order.
pub open spec fn words_of(ws: Seq<DictionaryWord>) -> Seq<Word> {
    Seq::new(ws.len(), |i: int| ws[i].word)
}

/// The scored snapshot a word list determines: every word paired with its
/// score against the table built over that same list.
pub open spec fn scored_words(ws: Seq<Word>) -> Seq<DictionaryWord> {
    Seq::new(
        ws.len(),
        |i: int|
            DictionaryWord { word: ws[i], score: score_spec(table_of(ws), ws[i].chars@) as u32 },
    )
}

/// `w` is consistent with every feedback of the history.
pub open spec fn all_match(rs: Seq<EvaluationResult>, w: Word) -> bool {
    forall|k: int| 0 <= k < rs.len() ==> matches_spec((#[trigger] rs[k])@, w.chars@)
}

/// The words among the first `i` of `ws` that are consistent with the history.
pub open spec fn filter_upto(ws: Seq<Word>, rs: Seq<EvaluationResult>, i: int) -> Seq<Word>
    decreases i,
{
    if i <= 0 {
        Seq::empty()
    } else {
        filter_upto(ws, rs, i - 1) + if all_match(rs, ws[i - 1]) {
            seq![ws[i - 1]]
        } else {
            Seq::empty()
        }
    }
}

/// The words of `ws` consistent with every feedback of the history, in order.
pub open spec fn filter_words(ws: Seq<Word>, rs: Seq<EvaluationResult>) -> Seq<Word> {
    filter_upto(ws, rs, ws.len() as int)
}

/// None of the letters of any feedback in the history occurs in `w`.
pub open spec fn avoids_all(rs: Seq<EvaluationResult>, w: Word) -> bool {
    forall|k: int| 0 <= k < rs.len() ==> not_contains_spec((#[trigger] rs[k])@, w.chars@)
}

/// Index of the first highest-scored word among the first `n`, for `n >= 1`.
pub open spec fn best_upto(ws: Seq<DictionaryWord>, n: int) -> int
    decreases n,
{
    if n <= 1 {
        0
    } else {
        let b = best_upto(ws, n - 1);
        if ws[n - 1].score > ws[b].score {
            n - 1
        } else {
            b
        }
    }
}

/// Index of the first highest-scored word among the first `n` that avoids all
/// feedback letters, or -1 when none does.
pub open spec fn best_avoiding_upto(ws: Seq<DictionaryWord>, rs: Seq<EvaluationResult>, n: int) -> int
    decreases n,
{
    if n <= 0 {
        -1
    } else {
        let b = best_avoiding_upto(ws, rs, n - 1);
        if avoids_all(rs, ws[n - 1].word) && (b == -1 || ws[n - 1].score > ws[b].score) {
            n - 1
        } else {
            b
        }
    }
}

/// An immutable scored snapshot of the candidate words, with the frequency
/// table its scores were computed from.
#[derive(Clone, Debug)]
pub struct Dictionary {
    pub words: Vec<DictionaryWord>,
    pub stats: LetterStats,
}

impl Dictionary {
    /// The dictionary's candidate words, in stored order.
    pub open spec fn words_view(self) -> Seq<Word> {
        words_of(self.words@)
    }

    /// The dictionary is internally consistent: lowercase words, a table that
    /// counts exactly these words, and every score computed from that table.
    pub open spec fn wf(self) -> bool {
        &&& self.stats.stats@.len() == 130
        &&& self.words@.len() <= MAX_WORDS
        &&& words_lower(self.words_view())
        &&& stats_match(self.stats.stats@, self.words_view())
        &&& stats_bounded(self.stats.stats@, self.words@.len() as int)
        &&& forall|i: int|
            0 <= i < self.words@.len() ==> (#[trigger] self.words@[i]).score == score_spec(
                self.stats.stats@,
                self.words@[i].word.chars@,
            )
    }

    /// Builds a dictionary: the frequency table over `words`, then every word
    /// scored against it.
    pub fn create(words: &Vec<Word>) -> (r: Dictionary)
        requires
            words_lower(words@),
            words@.len() <= MAX_WORDS,
        ensures
            r.wf(),
            r.words_view() == words@,
            stats_match(r.stats.stats@, words@),
            r.stats.stats@ == table_of(words@),
            r.words@ == scored_words(words@),
    {
        let stats = LetterStats::create(words);
        let mut dict_words: Vec<DictionaryWord> = Vec::new();
        let mut i: usize = 0;
        while i < words.len()
            invariant
                i <= words@.len(),
                words_lower(words@),
                words@.len() <= MAX_WORDS,
                stats_match(stats.stats@, words@),
                stats_bounded(stats.stats@, words@.len() as int),
                dict_words@.len() == i as int,
                forall|j: int|
                    0 <= j < i ==> (#[trigger] dict_words@[j]).word == words@[j]
                        && dict_words@[j].score == score_spec(stats.stats@, words@[j].chars@),
            decreases words@.len() - i,
        {
            let w = words[i];
            let score = stats.calculate_score(&w);
            dict_words.push(DictionaryWord { word: w, score });
            i = i + 1;
        }
        let r = Dictionary { words: dict_words, stats };
        proof {
            assert(r.words_view() =~= words@);
            assert forall|k: int| 0 <= k < 130 implies stats.stats@[k] == table_of(words@)[k] by {
                let c = ((97 + k / 5) as u8) as char;
                let pos = k % 5;
                assert(is_lower(c));
                assert(stat_idx(c, pos) == k);
                assert(stats.stats@[k] == occ_count(words@, c, pos));
                lemma_occ_le(words@, c, pos, words@.len() as int);
            }
            assert(stats.stats@ =~= table_of(words@));
            assert forall|i: int| 0 <= i < words@.len() implies r.words@[i] == scored_words(
                words@,
            )[i] by {
                assert(r.words@[i].score as int == score_spec(stats.stats@, words@[i].chars@));
            }
            assert(r.words@ =~= scored_words(words@));
        }
        r
    }

    /// The first candidate of maximal score; fails on an empty dictionary.
    pub fn find_best_guess(&self) -> (r: Result<Word, WordleError>)
        ensures
            self.words@.len() == 0 <==> r == Err::<Word, WordleError>(WordleError::EmptyDictionary),
            r is Err ==> r->Err_0 == WordleError::EmptyDictionary,
            r is Ok ==> r->Ok_0 == self.words@[best_upto(self.words@, self.words@.len() as int)].word,
    {
        if self.words.len() == 0 {
            return Err(WordleError::EmptyDictionary);
        }
        let mut best: usize = 0;
        let mut i: usize = 1;
        while i < self.words.len()
            invariant
                1 <= i <= self.words@.len(),
                best < i,
                best as int == best_upto(self.words@, i as int),
            decreases self.words@.len() - i,
        {
            if self.words[i].score > self.words[best].score {
                best = i;
            }
            i = i + 1;
        }
        Ok(self.words[best].word)
    }

    /// A new dictionary holding only the candidates consistent with every
    /// feedback of the history, with frequencies and scores fully recomputed
    /// over the narrowed set.
    pub fn filter_based_on_results(&self, results: &Vec<EvaluationResult>) -> (r: Dictionary)
        requires
            self.wf(),
            forall|k: int| 0 <= k < results@.len() ==> (#[trigger] results@[k]).wf(),
        ensures
            r.wf(),
            r.words_view() == filter_words(self.words_view(), results@),
            stats_match(r.stats.stats@, filter_words(self.words_view(), results@)),
            r.words@ == scored_words(filter_words(self.words_view(), results@)),
    {
        let mut kept: Vec<Word> = Vec::new();
        let mut i: usize = 0;
        while i < self.words.len()
            invariant
                i <= self.words@.len(),
                self.wf(),
                forall|k: int| 0 <= k < results@.len() ==> (#[trigger] results@[k]).wf(),
                kept@ == filter_upto(self.words_view(), results@, i as int),
                kept@.len() <= i as int,
                words_lower(kept@),
            decreases self.words@.len() - i,
        {
            let w = self.words[i].word;
            proof {
                assert(w == self.words_view()[i as int]);
                assert(word_lower(w));
            }
            let mut ok: bool = true;
            let mut k: usize = 0;
            while k < results.len()
                invariant
                    k <= results@.len(),
                    forall|k2: int| 0 <= k2 < results@.len() ==> (#[trigger] results@[k2]).wf(),
                    ok <==> forall|k2: int|
                        0 <= k2 < k ==> matches_spec((#[trigger] results@[k2])@, w.chars@),
                decreases results@.len() - k,
            {
                let m = results[k].matches_word(&w);
                if !m {
                    assert(!matches_spec(results@[k as int]@, w.chars@));
                    ok = false;
                }
                k = k + 1;
            }
            if ok {
                assert(all_match(results@, w));
                kept.push(w);
            } else {
                assert(!all_match(results@, w));
            }
            proof {
                assert(kept@ =~= filter_upto(self.words_view(), results@, i as int + 1));
            }
            i = i + 1;
        }
        Dictionary::create(&kept)
    }

    /// Among this dictionary's candidates, the first highest-scored one none
    /// of whose letters appears in any feedback of the history; fails when no
    /// candidate qualifies.
    pub fn find_best_guess_not_matching(&self, results: &Vec<EvaluationResult>) -> (r: Result<
        Word,
        WordleError,
    >)
        ensures
            best_avoiding_upto(self.words@, results@, self.words@.len() as int) == -1 <==> r
                == Err::<Word, WordleError>(WordleError::NoGuessSatisfiesConstraint),
            r is Err ==> r->Err_0 == WordleError::NoGuessSatisfiesConstraint,
            r is Ok ==> r->Ok_0 == self.words@[best_avoiding_upto(
                self.words@,
                results@,
                self.words@.len() as int,
            )].word,
    {
        let mut best: usize = 0;
        let mut have: bool = false;
        let mut i: usize = 0;
        while i < self.words.len()
            invariant
                i <= self.words@.len(),
                have ==> best < i,
                have ==> best as int == best_avoiding_upto(self.words@, results@, i as int),
                !have ==> best_avoiding_upto(self.words@, results@, i as int) == -1,
            decreases self.words@.len() - i,
        {
            let w = self.words[i].word;
            let q = Dictionary::word_not_contains_matches(&w, results);
            if q && (!have || self.words[i].score > self.words[best].score) {
                best = i;
                have = true;
            }
            i = i + 1;
        }
        if have {
            Ok(self.words[best].word)
        } else {
            Err(WordleError::NoGuessSatisfiesConstraint)
        }
    }

    /// True iff none of the history's feedback letters occurs in `word`.
    pub fn word_not_contains_matches(word: &Word, results: &Vec<EvaluationResult>) -> (r: bool)
        ensures
            r == avoids_all(results@, *word),
    {
        let mut k: usize = 0;
        while k < results.len()
            invariant
                k <= results@.len(),
                forall|k2: int| 0 <= k2 < k ==> not_contains_spec((#[trigger] results@[k2])@, word.chars@),
            decreases results@.len() - k,
        {
            let ncm = results[k].not_contains_matches(word);
            if !ncm {
                assert(!not_contains_spec(results@[k as int]@, word.chars@));
                return false;
            }
            k = k + 1;
        }
        true
    }
}

proof fn lemma_filter_contains(ws: Seq<Word>, rs: Seq<EvaluationResult>, k: int, i: int)
    requires
        0 <= k < i <= ws.len(),
        all_match(rs, ws[k]),
    ensures
        filter_upto(ws, rs, i).contains(ws[k]),
    decreases i,
{
    if k == i - 1 {
        let prev = filter_upto(ws, rs, i - 1);
        assert(filter_upto(ws, rs, i)[prev.len() as int] == ws[k]);
    } else {
        lemma_filter_contains(ws, rs, k, i - 1);
        let prev = filter_upto(ws, rs, i - 1);
        let j = choose|j: int| 0 <= j < prev.len() && prev[j] == ws[k];
        assert(filter_upto(ws, rs, i)[j] == ws[k]);
    }
}

/// Filtering by feedback that was actually produced against a secret never
/// excludes that secret: it stays in the filtered word list.
pub proof fn lemma_filter_keeps_secret(
    ws: Seq<Word>,
    rs: Seq<EvaluationResult>,
    secret: Word,
    k: int,
)
    requires
        0 <= k < ws.len(),
        ws[k] == secret,
        forall|j: int|
            0 <= j < rs.len() ==> exists|g: Seq<char>|
                g.len() == 5 && (#[trigger] rs[j])@ == crate::eval::eval_results(secret.chars@, g),
    ensures
        filter_words(ws, rs).contains(secret),
{
    assert forall|j: int| 0 <= j < rs.len() implies matches_spec((#[trigger] rs[j])@, secret.chars@) by {
        let g = choose|g: Seq<char>|
            g.len() == 5 && rs[j]@ == crate::eval::eval_results(secret.chars@, g);
        crate::eval::lemma_eval_matches_secret(secret.chars@, g);
    }
    assert(all_match(rs, secret));
    lemma_filter_contains(ws, rs, k, ws.len() as int);
}

/// A history whose feedback letters cover all 26 lowercase letters leaves no
/// lowercase word able to avoid them all.
pub open spec fn covers_all_letters(rs: Seq<EvaluationResult>) -> bool {
    forall|c: char|
        #[trigger] is_lower(c) ==> exists|k: int, j: int|
            0 <= k < rs.len() && 0 <= j < 5 && (#[trigger] rs[k]@[j]).c == c
}

/// No lowercase word avoids a history that covers the whole alphabet.
pub proof fn lemma_cover_disqualifies(rs: Seq<EvaluationResult>, w: Word)
    requires
        covers_all_letters(rs),
        word_lower(w),
    ensures
        !avoids_all(rs, w),
{
    let c = w.chars@[0];
    assert(is_lower(c));
    let (k, j) = choose|k: int, j: int|
        0 <= k < rs.len() && 0 <= j < 5 && (#[trigger] rs[k]@[j]).c == c;
    assert(w.chars@[0] == rs[k]@[j].c);
    assert(!not_contains_spec(rs[k]@, w.chars@));
}

/// In a well-formed lowercase dictionary, a full-alphabet history makes
/// every candidate fail the avoidance test.
pub proof fn lemma_cover_forces_error(d: Dictionary, rs: Seq<EvaluationResult>)
    requires
        d.wf(),
        covers_all_letters(rs),
    ensures
        best_avoiding_upto(d.words@, rs, d.words@.len() as int) == -1,
{
    lemma_best_avoiding_none(d, rs, d.words@.len() as int);
}

proof fn lemma_best_avoiding_none(d: Dictionary, rs: Seq<EvaluationResult>, n: int)
    requires
        d.wf(),
        covers_all_letters(rs),
        0 <= n <= d.words@.len(),
    ensures
        best_avoiding_upto(d.words@, rs, n) == -1,
    decreases n,
{
    if n > 0 {
        lemma_best_avoiding_none(d, rs, n - 1);
        assert(d.words@[n - 1].word == d.words_view()[n - 1]);
        assert(word_lower(d.words@[n - 1].word));
        lemma_cover_disqualifies(rs, d.words@[n - 1].word);
    }
}




/// `best_upto` names the first index of maximal score: every earlier word
/// scores strictly less, and no word scores more. This is the tie-breaking
/// rule of the best-guess queries.
pub proof fn lemma_best_upto_is_first_max(ws: Seq<DictionaryWord>, n: int)
    requires
        1 <= n <= ws.len(),
    ensures
        0 <= best_upto(ws, n) < n,
        forall|j: int| 0 <= j < n ==> (#[trigger] ws[j]).score <= ws[best_upto(ws, n)].score,
        forall|j: int| 0 <= j < best_upto(ws, n) ==> (#[trigger] ws[j]).score < ws[best_upto(
            ws,
            n,
        )].score,
    decreases n,
{
    if n > 1 {
        lemma_best_upto_is_first_max(ws, n - 1);
    }
}

/// Sum of the table cells of the first `li` letters at position `pos`.
pub open spec fn table_pos_sum(stats: Seq<u32>, pos: int, li: int) -> int
    decreases li,
{
    if li <= 0 {
        0
    } else {
        table_pos_sum(stats, pos, li - 1) + stats[(li - 1) * 5 + pos]
    }
}

/// Sum over the first `li` letters of their occurrence counts at `pos` among
/// the first `n` words.
spec fn occ_sum(ws: Seq<Word>, pos: int, li: int, n: int) -> int
    decreases li,
{
    if li <= 0 {
        0
    } else {
        occ_sum(ws, pos, li - 1, n) + occ_before(ws, ((97 + li - 1) as u8) as char, pos, n)
    }
}

proof fn lemma_occ_sum_zero(ws: Seq<Word>, pos: int, li: int)
    ensures
        occ_sum(ws, pos, li, 0) == 0,
    decreases li,
{
    if li > 0 {
        lemma_occ_sum_zero(ws, pos, li - 1);
    }
}

proof fn lemma_occ_sum_step(ws: Seq<Word>, pos: int, li: int, n: int)
    requires
        0 <= n < ws.len(),
        0 <= pos < 5,
        0 <= li <= 26,
        word_lower(ws[n]),
    ensures
        occ_sum(ws, pos, li, n + 1) == occ_sum(ws, pos, li, n) + if ws[n].chars@[pos] as int - 97
            < li {
            1int
        } else {
            0int
        },
    decreases li,
{
    if li > 0 {
        lemma_occ_sum_step(ws, pos, li - 1, n);
        let c = ((97 + li - 1) as u8) as char;
        assert(c as int == 97 + li - 1);
        assert(occ_before(ws, c, pos, n + 1) == occ_before(ws, c, pos, n) + if ws[n].chars@[pos]
            == c {
            1int
        } else {
            0int
        });
        assert(ws[n].chars@[pos] == c <==> ws[n].chars@[pos] as int == 97 + li - 1);
    }
}

proof fn lemma_occ_sum_counts_all(ws: Seq<Word>, pos: int, n: int)
    requires
        0 <= n <= ws.len(),
        0 <= pos < 5,
        words_lower(ws),
    ensures
        occ_sum(ws, pos, 26, n) == n,
    decreases n,
{
    if n == 0 {
        lemma_occ_sum_zero(ws, pos, 26);
    } else {
        lemma_occ_sum_counts_all(ws, pos, n - 1);
        assert(word_lower(ws[n - 1]));
        assert(is_lower(ws[n - 1].chars@[pos]));
        lemma_occ_sum_step(ws, pos, 26, n - 1);
    }
}

proof fn lemma_table_sum_matches_occ_sum(stats: Seq<u32>, ws: Seq<Word>, pos: int, li: int)
    requires
        stats_match(stats, ws),
        0 <= pos < 5,
        0 <= li <= 26,
    ensures
        table_pos_sum(stats, pos, li) == occ_sum(ws, pos, li, ws.len() as int),
    decreases li,
{
    if li > 0 {
        lemma_table_sum_matches_occ_sum(stats, ws, pos, li - 1);
        let c = ((97 + li - 1) as u8) as char;
        assert(c as int == 97 + li - 1);
        assert(is_lower(c));
        assert(stat_idx(c, pos) == (li - 1) * 5 + pos);
        assert(stats[(li - 1) * 5 + pos] == occ_count(ws, c, pos));
    }
}

/// The table invariant: at every position, the counts of the 26 letters sum
/// to the size of the candidate set the table was built over.
pub proof fn lemma_table_position_sum(stats: Seq<u32>, ws: Seq<Word>, pos: int)
    requires
        stats_match(stats, ws),
        words_lower(ws),
        0 <= pos < 5,
    ensures
        table_pos_sum(stats, pos, 26) == ws.len(),
{
    lemma_table_sum_matches_occ_sum(stats, ws, pos, 26);
    lemma_occ_sum_counts_all(ws, pos, ws.len() as int);
}


} // verus!
