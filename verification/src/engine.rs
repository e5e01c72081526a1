//! The three stages of the engine and the function that runs them in turn.

use self::codegen::{code_len, get_code, CodeGenError};
use self::evaluator::{eval, EvalError};
use self::language::{lemma_program_decides, matches_prefix};
use self::parser::{chars_of, parse, parse_spec, ParseError, AST};
use self::progress::{is_productive, lemma_program_progresses, productive};
use vstd::prelude::*;

pub mod codegen;
pub mod evaluator;
pub mod language;
pub mod parser;
pub mod progress;

verus! {

/// An instruction of the matching machine. The address of an instruction is
/// its index in the program.
#[derive(Debug)]
pub enum Instruction {
    /// Consumes one character of the input if it is this one; else the
    /// current path fails.
    Char(char),
    /// Accepts: the pattern has matched up to the current position.
    Match,
    /// Goes on at the given address.
    Jump(usize),
    /// Tries the first address, then the second.
    Split(usize, usize),
}

/// Whether every address that an instruction of `prog` names is the address
/// of an instruction of `prog`.
pub open spec fn valid_targets(prog: Seq<Instruction>) -> bool {
    forall|pc: int|
        0 <= pc < prog.len() ==> match #[trigger] prog[pc] {
            Instruction::Jump(a) => a < prog.len(),
            Instruction::Split(a1, a2) => a1 < prog.len() && a2 < prog.len(),
            _ => true,
        }
}

/// Whether `prog` can be run without leaving it: it names only addresses of
/// its own instructions and ends with `Match`.
pub open spec fn well_formed(prog: Seq<Instruction>) -> bool {
    &&& prog.len() > 0
    &&& prog.last() == Instruction::Match
    &&& valid_targets(prog)
}

/// Why a pattern could not be matched against a line.
#[derive(Debug)]
pub enum MatchError {
    /// The pattern is no expression.
    Parse(ParseError),
    /// The expression has no program.
    CodeGen(CodeGenError),
    /// The program could not be run to its end.
    Eval(EvalError),
}

/// Whether the pattern `expr` matches a start of `line`, or why that cannot
/// be said: the pattern is no expression, or its program is too long.
pub open spec fn matching(expr: Seq<char>, line: Seq<char>) -> Result<bool, MatchError> {
    match parse_spec(expr) {
        Err(e) => Err(MatchError::Parse(e)),
        Ok(re) => if code_len(re) >= usize::MAX {
            Err(MatchError::CodeGen(CodeGenError::PCOverflow))
        } else {
            Ok(matches_prefix(re, line))
        },
    }
}

/// Whether the pattern `expr` repeats no expression that matches the empty
/// string, as `(a*)*` does. A pattern that is no expression counts: it is
/// refused before anything is searched.
pub open spec fn search_ends(expr: Seq<char>) -> bool {
    parse_spec(expr) matches Ok(re) ==> productive(re)
}

/// Compiles `ast` and runs its program on `line`.
fn match_ast(ast: &AST, line: &str, is_depth: bool) -> (r: Result<bool, MatchError>)
    requires
        productive(ast@),
    ensures
        r == if code_len(ast@) >= usize::MAX {
            Err::<bool, MatchError>(MatchError::CodeGen(CodeGenError::PCOverflow))
        } else {
            Ok::<bool, MatchError>(matches_prefix(ast@, line@))
        },
{
    let code = match get_code(ast) {
        Ok(code) => code,
        Err(e) => {
            return Err(MatchError::CodeGen(e));
        },
    };
    let line = chars_of(line);
    proof {
        lemma_program_progresses(ast@);
        lemma_program_decides(ast@, line@);
    }
    match eval(code.as_slice(), line.as_slice(), is_depth) {
        Ok(found) => Ok(found),
        Err(e) => Err(MatchError::Eval(e)),
    }
}

/// Matches the pattern `expr` against the start of `line`, depth-first by
/// recursion where `is_depth` is set, else with an explicit stack. Both give
/// the same result.
///
/// The pattern must not repeat an expression that matches the empty string:
/// the search for such a pattern need not end. `checked_matching` tests
/// that first.
pub fn do_matching(expr: &str, line: &str, is_depth: bool) -> (r: Result<bool, MatchError>)
    requires
        search_ends(expr@),
    ensures
        r == matching(expr@, line@),
{
    let ast = match parse(expr) {
        Ok(ast) => ast,
        Err(e) => {
            return Err(MatchError::Parse(e));
        },
    };
    match_ast(&ast, line, is_depth)
}

/// Matches like `do_matching` where the search is known to end, and returns
/// `None`, without searching, for a pattern that repeats an expression which
/// matches the empty string.
pub fn checked_matching(expr: &str, line: &str, is_depth: bool) -> (r: Option<
    Result<bool, MatchError>,
>)
    ensures
        r == if search_ends(expr@) {
            Some(matching(expr@, line@))
        } else {
            None
        },
{
    let ast = match parse(expr) {
        Ok(ast) => ast,
        Err(e) => {
            return Some(Err(MatchError::Parse(e)));
        },
    };
    if is_productive(&ast) {
        Some(match_ast(&ast, line, is_depth))
    } else {
        None
    }
}

} // verus!
