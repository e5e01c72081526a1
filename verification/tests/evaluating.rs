use regex_engine::engine::codegen::get_code;
use regex_engine::engine::evaluator::{eval, eval_depth, eval_width, pop_ctx, EvalError};
use regex_engine::engine::parser::parse;
use regex_engine::engine::Instruction;
use std::collections::VecDeque;

fn chars(s: &str) -> Vec<char> {
    s.chars().collect()
}

#[test]
fn match_succeeds_wherever_it_is_reached() {
    let prog = [Instruction::Match];
    for is_depth in [true, false] {
        assert!(matches!(eval(&prog, &chars(""), is_depth), Ok(true)));
        assert!(matches!(eval(&prog, &chars("abc"), is_depth), Ok(true)));
    }
}

#[test]
fn char_consumes_the_expected_character() {
    let prog = [Instruction::Char('a'), Instruction::Char('b'), Instruction::Match];
    for is_depth in [true, false] {
        assert!(matches!(eval(&prog, &chars("ab"), is_depth), Ok(true)));
        assert!(matches!(eval(&prog, &chars("abc"), is_depth), Ok(true)));
        assert!(matches!(eval(&prog, &chars("ac"), is_depth), Ok(false)));
        assert!(matches!(eval(&prog, &chars("a"), is_depth), Ok(false)));
        assert!(matches!(eval(&prog, &chars(""), is_depth), Ok(false)));
    }
}

#[test]
fn jump_goes_on_at_its_address() {
    let prog =
        [Instruction::Jump(2), Instruction::Char('x'), Instruction::Char('a'), Instruction::Match];
    for is_depth in [true, false] {
        assert!(matches!(eval(&prog, &chars("a"), is_depth), Ok(true)));
        assert!(matches!(eval(&prog, &chars("xa"), is_depth), Ok(false)));
    }
}

#[test]
fn split_tries_the_first_address_first() {
    // the first branch runs out of the program, the second would match
    let prog = [Instruction::Split(3, 1), Instruction::Char('a'), Instruction::Match];
    for is_depth in [true, false] {
        assert!(matches!(eval(&prog, &chars("a"), is_depth), Err(EvalError::InvalidPC)));
    }
    // the first branch matches, the second would run out of the program
    let prog = [Instruction::Split(1, 3), Instruction::Char('a'), Instruction::Match];
    for is_depth in [true, false] {
        assert!(matches!(eval(&prog, &chars("a"), is_depth), Ok(true)));
        // where the first branch fails the second is tried
        assert!(matches!(eval(&prog, &chars("b"), is_depth), Err(EvalError::InvalidPC)));
    }
}

#[test]
fn split_goes_back_to_where_it_was() {
    // a(b|c)d by hand: the second branch starts again behind the "a"
    let prog = [
        Instruction::Char('a'),
        Instruction::Split(2, 4),
        Instruction::Char('b'),
        Instruction::Jump(5),
        Instruction::Char('c'),
        Instruction::Char('d'),
        Instruction::Match,
    ];
    for is_depth in [true, false] {
        assert!(matches!(eval(&prog, &chars("abd"), is_depth), Ok(true)));
        assert!(matches!(eval(&prog, &chars("acd"), is_depth), Ok(true)));
        assert!(matches!(eval(&prog, &chars("add"), is_depth), Ok(false)));
        assert!(matches!(eval(&prog, &chars("ab"), is_depth), Ok(false)));
    }
}

#[test]
fn program_counter_behind_the_program_is_an_error() {
    let none: [Instruction; 0] = [];
    let runs_out = [Instruction::Char('a')];
    let jumps_out = [Instruction::Jump(7)];
    for is_depth in [true, false] {
        assert!(matches!(eval(&none, &chars("a"), is_depth), Err(EvalError::InvalidPC)));
        assert!(matches!(eval(&runs_out, &chars("a"), is_depth), Err(EvalError::InvalidPC)));
        assert!(matches!(eval(&runs_out, &chars("b"), is_depth), Ok(false)));
        assert!(matches!(eval(&jumps_out, &chars(""), is_depth), Err(EvalError::InvalidPC)));
    }
}

#[test]
fn eval_depth_starts_where_it_is_told() {
    let prog = [Instruction::Char('a'), Instruction::Char('b'), Instruction::Match];
    let line = chars("xab");
    assert!(matches!(eval_depth(&prog, &line, 0, 0), Ok(false)));
    assert!(matches!(eval_depth(&prog, &line, 0, 1), Ok(true)));
    assert!(matches!(eval_depth(&prog, &line, 1, 2), Ok(true)));
    assert!(matches!(eval_depth(&prog, &line, 1, 1), Ok(false)));
    assert!(matches!(eval_depth(&prog, &line, 2, 3), Ok(true)));
    assert!(matches!(eval_depth(&prog, &line, 3, 0), Err(EvalError::InvalidPC)));
    assert!(matches!(eval_depth(&prog, &line, 0, 9), Ok(false)));
}

#[test]
fn strategies_agree_on_compiled_programs() {
    let patterns = ["a*b", "(ab|cd)+", "a(b|c)*d?", "((a|b)+c)*d", "a?a?a?aaa", "(a|ab)(c|bcd)(d*)"];
    let lines = ["", "b", "aab", "abcd", "abcdcdx", "acbd", "aaa", "aaaa", "abcbcd", "dd", "abcd"];
    for expr in patterns {
        let code = get_code(&parse(expr).unwrap()).unwrap();
        for line in lines {
            let line = chars(line);
            let depth = eval_depth(&code, &line, 0, 0).unwrap();
            let width = eval_width(&code, &line).unwrap();
            assert_eq!(depth, width);
            assert_eq!(eval(&code, &line, true).unwrap(), depth);
            assert_eq!(eval(&code, &line, false).unwrap(), depth);
        }
    }
}

#[test]
fn exact_results_on_a_compiled_program() {
    let code = get_code(&parse("a(bc)+|c(def)*").unwrap()).unwrap();
    for (line, found) in [
        ("abc", true),
        ("abcbcx", true),
        ("ab", false),
        ("a", false),
        ("c", true),
        ("cdefdefdef", true),
        ("cde", true),
        ("", false),
        ("x", false),
    ] {
        assert_eq!(eval(&code, &chars(line), true).unwrap(), found, "{line}");
        assert_eq!(eval(&code, &chars(line), false).unwrap(), found, "{line}");
    }
}

#[test]
fn pop_ctx_takes_the_context_saved_last() {
    let mut ctx: VecDeque<(usize, usize)> = VecDeque::new();
    ctx.push_back((1, 2));
    ctx.push_back((3, 4));
    let mut pc = 0;
    let mut sp = 0;
    assert!(pop_ctx(&mut pc, &mut sp, &mut ctx).is_ok());
    assert_eq!((pc, sp), (3, 4));
    assert_eq!(ctx.len(), 1);
    assert!(pop_ctx(&mut pc, &mut sp, &mut ctx).is_ok());
    assert_eq!((pc, sp), (1, 2));
    assert!(ctx.is_empty());
    assert!(matches!(pop_ctx(&mut pc, &mut sp, &mut ctx), Err(EvalError::InvalidContext)));
    assert_eq!((pc, sp), (1, 2));
}
