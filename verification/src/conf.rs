use vstd::prelude::*;

use crate::WordleError;
use vstd::std_specs::iter::IteratorSpec;

verus! {

/// The operation a session runs.
#[derive(Clone, Copy, Debug, PartialEq, Eq, Structural)]
pub enum WordleOp {
    /// Solve for a single target word.
    Solve,
    /// Solve every dictionary word and aggregate the guess counts.
    Simulate,
    /// Try every word as the opening guess and find the best one.
    Optimal,
}

/// The character's code with an ASCII uppercase letter folded to lowercase.
pub open spec fn lower_code(c: char) -> int {
    if 65 <= c as int <= 90 {
        c as int + 32
    } else {
        c as int
    }
}

/// `s` spells "solve", ignoring ASCII case.
pub open spec fn is_solve_str(s: Seq<char>) -> bool {
    &&& s.len() == 5
    &&& lower_code(s[0]) == 's' as int
    &&& lower_code(s[1]) == 'o' as int
    &&& lower_code(s[2]) == 'l' as int
    &&& lower_code(s[3]) == 'v' as int
    &&& lower_code(s[4]) == 'e' as int
}

/// `s` spells "simulate", ignoring ASCII case.
pub open spec fn is_simulate_str(s: Seq<char>) -> bool {
    &&& s.len() == 8
    &&& lower_code(s[0]) == 's' as int
    &&& lower_code(s[1]) == 'i' as int
    &&& lower_code(s[2]) == 'm' as int
    &&& lower_code(s[3]) == 'u' as int
    &&& lower_code(s[4]) == 'l' as int
    &&& lower_code(s[5]) == 'a' as int
    &&& lower_code(s[6]) == 't' as int
    &&& lower_code(s[7]) == 'e' as int
}

/// `s` spells "optimal", ignoring ASCII case.
pub open spec fn is_optimal_str(s: Seq<char>) -> bool {
    &&& s.len() == 7
    &&& lower_code(s[0]) == 'o' as int
    &&& lower_code(s[1]) == 'p' as int
    &&& lower_code(s[2]) == 't' as int
    &&& lower_code(s[3]) == 'i' as int
    &&& lower_code(s[4]) == 'm' as int
    &&& lower_code(s[5]) == 'a' as int
    &&& lower_code(s[6]) == 'l' as int
}

/// The operation named by `s`, if any.
pub open spec fn op_of(s: Seq<char>) -> Option<WordleOp> {
    if is_solve_str(s) {
        Some(WordleOp::Solve)
    } else if is_simulate_str(s) {
        Some(WordleOp::Simulate)
    } else if is_optimal_str(s) {
        Some(WordleOp::Optimal)
    } else {
        None
    }
}

fn str_chars(s: &str) -> (v: Vec<char>)
    ensures
        v@ == s@,
{
    let mut it = s.chars();
    let mut v: Vec<char> = Vec::new();
    loop
        invariant
            it.decrease() is Some,
            v@ + it.remaining() == s@,
        decreases it.decrease()->0,
    {
        match it.next() {
            Some(c) => {
                v.push(c);
            },
            None => {
                proof {
                    assert(v@ =~= s@);
                }
                return v;
            },
        }
    }
}

fn eq_lower(c: char, kc: char) -> (r: bool)
    ensures
        r == (lower_code(c) == kc as int),
{
    let x = c as u32;
    let lx = if x >= 65 && x <= 90 {
        x + 32
    } else {
        x
    };
    lx == kc as u32
}

impl WordleOp {
    /// Parses an operation name, ignoring ASCII case; unknown names are
    /// rejected as configuration errors.
    pub fn from_string(value: &str) -> (r: Result<WordleOp, WordleError>)
        ensures
            r is Ok <==> op_of(value@) is Some,
            r is Ok ==> op_of(value@) == Some(r->Ok_0),
            r is Err ==> r->Err_0 == WordleError::InvalidOperation,
    {
        let v = str_chars(value);
        if v.len() == 5 && eq_lower(v[0], 's') && eq_lower(v[1], 'o') && eq_lower(v[2], 'l')
            && eq_lower(v[3], 'v') && eq_lower(v[4], 'e') {
            Ok(WordleOp::Solve)
        } else if v.len() == 8 && eq_lower(v[0], 's') && eq_lower(v[1], 'i') && eq_lower(v[2], 'm')
            && eq_lower(v[3], 'u') && eq_lower(v[4], 'l') && eq_lower(v[5], 'a') && eq_lower(
            v[6],
            't',
        ) && eq_lower(v[7], 'e') {
            Ok(WordleOp::Simulate)
        } else if v.len() == 7 && eq_lower(v[0], 'o') && eq_lower(v[1], 'p') && eq_lower(v[2], 't')
            && eq_lower(v[3], 'i') && eq_lower(v[4], 'm') && eq_lower(v[5], 'a') && eq_lower(
            v[6],
            'l',
        ) {
            Ok(WordleOp::Optimal)
        } else {
            Err(WordleError::InvalidOperation)
        }
    }
}

/// A validated session configuration.
#[derive(Debug)]
pub struct WordleConfig {
    /// Path of the word list to load, when given.
    pub dictionary: Option<String>,
    /// Render feedback as glyphs rather than signed letters.
    pub emoji: bool,
    /// The opening guess to use, when given.
    pub guess: Option<String>,
    /// Hard mode: every guess must respect all feedback received so far.
    pub hard_mode: bool,
    /// What the session does.
    pub operation: WordleOp,
    /// The target word, required when solving a single word.
    pub solution: Option<String>,
}

impl WordleConfig {
    /// Validates raw option values into a configuration: the operation name
    /// must parse, and solving a single word requires a target.
    pub fn load(
        dictionary: Option<String>,
        emoji: bool,
        guess: Option<String>,
        hard_mode: bool,
        operation: &str,
        solution: Option<String>,
    ) -> (r: Result<WordleConfig, WordleError>)
        ensures
            op_of(operation@) is None <==> r == Err::<WordleConfig, WordleError>(
                WordleError::InvalidOperation,
            ),
            op_of(operation@) == Some(WordleOp::Solve) && solution is None <==> r == Err::<
                WordleConfig,
                WordleError,
            >(WordleError::MissingRequiredSolution),
            r is Ok ==> ({
                let c = r->Ok_0;
                &&& Some(c.operation) == op_of(operation@)
                &&& c.dictionary == dictionary
                &&& c.emoji == emoji
                &&& c.guess == guess
                &&& c.hard_mode == hard_mode
                &&& c.solution == solution
                &&& (c.operation == WordleOp::Solve ==> c.solution is Some)
            }),
            r is Err ==> (r->Err_0 == WordleError::InvalidOperation || r->Err_0
                == WordleError::MissingRequiredSolution),
    {
        let operation = match WordleOp::from_string(operation) {
            Ok(op) => op,
            Err(e) => {
                return Err(e);
            },
        };
        if matches!(operation, WordleOp::Solve) && solution.is_none() {
            return Err(WordleError::MissingRequiredSolution);
        }
        Ok(WordleConfig { dictionary, emoji, guess, hard_mode, operation, solution })
    }
}

} // verus!
