use regex_engine::engine::codegen::{get_code, CodeGenError};
use regex_engine::engine::parser::{parse, AST};
use regex_engine::engine::progress::{is_nullable, is_productive};
use regex_engine::engine::Instruction;

fn listing(expr: &str) -> String {
    format!("{:?}", get_code(&parse(expr).unwrap()).unwrap())
}

#[test]
fn literal_is_one_instruction() {
    assert_eq!(listing("a"), "[Char('a'), Match]");
    assert_eq!(listing("abc"), "[Char('a'), Char('b'), Char('c'), Match]");
}

#[test]
fn question_branches_over_its_body() {
    assert_eq!(listing("a?"), "[Split(1, 2), Char('a'), Match]");
    assert_eq!(listing("ab?c"), "[Char('a'), Split(2, 3), Char('b'), Char('c'), Match]");
}

#[test]
fn star_loops_back_to_its_branch() {
    assert_eq!(listing("a*"), "[Split(1, 3), Char('a'), Jump(0), Match]");
    assert_eq!(listing("ba*c"), "[Char('b'), Split(2, 4), Char('a'), Jump(1), Char('c'), Match]");
}

#[test]
fn plus_branches_back_after_its_body() {
    assert_eq!(listing("a+"), "[Char('a'), Split(0, 2), Match]");
    assert_eq!(listing("ba+c"), "[Char('b'), Char('a'), Split(1, 3), Char('c'), Match]");
}

#[test]
fn alternation_jumps_over_the_second_branch() {
    assert_eq!(listing("a|b"), "[Split(1, 3), Char('a'), Jump(4), Char('b'), Match]");
    assert_eq!(
        listing("abc|def"),
        "[Split(1, 5), Char('a'), Char('b'), Char('c'), Jump(8), Char('d'), Char('e'), Char('f'), Match]"
    );
    assert_eq!(
        listing("a|b|c"),
        "[Split(1, 3), Char('a'), Jump(7), Split(4, 6), Char('b'), Jump(7), Char('c'), Match]"
    );
}

#[test]
fn nested_expressions_keep_absolute_addresses() {
    assert_eq!(
        listing("(ab|cd)+"),
        "[Split(1, 4), Char('a'), Char('b'), Jump(6), Char('c'), Char('d'), Split(0, 7), Match]"
    );
    assert_eq!(
        listing("a(b|c)*d"),
        "[Char('a'), Split(2, 7), Split(3, 5), Char('b'), Jump(6), Char('c'), Jump(1), Char('d'), Match]"
    );
}

#[test]
fn empty_concatenation_has_no_code() {
    let code = get_code(&AST::Concat(Vec::new())).unwrap();
    assert!(matches!(code.as_slice(), [Instruction::Match]));
    let code = get_code(&AST::Question(Box::new(AST::Concat(Vec::new())))).unwrap();
    assert!(matches!(code.as_slice(), [Instruction::Split(1, 1), Instruction::Match]));
}

#[test]
fn compiling_twice_gives_the_same_program() {
    for expr in ["a", "abc|def", "(ab|cd)+", "a(b|c)*d?", "((a|b)+c)*d"] {
        let ast = parse(expr).unwrap();
        let again = parse(expr).unwrap();
        let first = format!("{:?}", get_code(&ast).unwrap());
        assert_eq!(first, format!("{:?}", get_code(&ast).unwrap()));
        assert_eq!(first, format!("{:?}", get_code(&again).unwrap()));
    }
}

#[test]
fn compiling_a_parsed_pattern_does_not_fail() {
    for expr in ["a", "a|b", "a*", "a+", "a?", "(a|b)*c+d?", "a**", "(a?)+", "(a|b*)*"] {
        let r = get_code(&parse(expr).unwrap());
        assert!(!matches!(
            r,
            Err(CodeGenError::FailOr) | Err(CodeGenError::FailStar) | Err(CodeGenError::FailQuestion)
        ));
        assert!(r.is_ok());
    }
}

#[test]
fn targets_are_addresses_of_the_program() {
    for expr in ["a|b|c", "(ab|cd)+", "a(b|c)*d?", "((a|b)+c)*d", "a**"] {
        let code = get_code(&parse(expr).unwrap()).unwrap();
        assert!(matches!(code.last(), Some(Instruction::Match)));
        for inst in code.iter() {
            match inst {
                Instruction::Jump(a) => assert!(*a < code.len()),
                Instruction::Split(a1, a2) => assert!(*a1 < code.len() && *a2 < code.len()),
                _ => {}
            }
        }
    }
}

#[test]
fn nullable_expressions() {
    for (expr, nullable) in [
        ("a", false),
        ("a*", true),
        ("a?", true),
        ("a+", false),
        ("a*b", false),
        ("a*b?", true),
        ("a|b*", true),
        ("a|b", false),
        ("(a*)+", true),
        ("(a|b?)c*", true),
    ] {
        assert_eq!(is_nullable(&parse(expr).unwrap()), nullable, "{expr}");
    }
    assert!(is_nullable(&AST::Concat(Vec::new())));
}

#[test]
fn productive_expressions() {
    for (expr, productive) in [
        ("a", true),
        ("a*", true),
        ("(ab|cd)+", true),
        ("a(bc)+|c(def)*", true),
        ("(a?b)*", true),
        ("a**", false),
        ("(a?)+", false),
        ("(a*)*", false),
        ("(a|b*)+", false),
        ("x(a?b?)*", false),
        ("(a+)*", true),
        ("((a*)*)?b", false),
    ] {
        assert_eq!(is_productive(&parse(expr).unwrap()), productive, "{expr}");
    }
    assert!(!is_productive(&AST::Star(Box::new(AST::Concat(Vec::new())))));
}
