use regex_engine::engine::parser::{chars_of, fold_or, parse, parse_escape, parse_plus_star_question};
use regex_engine::engine::parser::{ParseError, AST, PSQ};

fn shape(expr: &str) -> String {
    format!("{:?}", parse(expr).unwrap())
}

#[test]
fn literals_are_concatenated() {
    assert_eq!(shape("a"), "Concat([Char('a')])");
    assert_eq!(shape("abc"), "Concat([Char('a'), Char('b'), Char('c')])");
}

#[test]
fn postfix_operator_wraps_the_last_expression() {
    assert_eq!(shape("ab+"), "Concat([Char('a'), Plus(Char('b'))])");
    assert_eq!(shape("ab*"), "Concat([Char('a'), Star(Char('b'))])");
    assert_eq!(shape("ab?"), "Concat([Char('a'), Question(Char('b'))])");
    assert_eq!(shape("a+*?"), "Concat([Question(Star(Plus(Char('a'))))])");
    assert_eq!(shape("(ab)+"), "Concat([Plus(Concat([Char('a'), Char('b')]))])");
}

#[test]
fn alternatives_nest_to_the_right() {
    assert_eq!(shape("a|b"), "Or(Concat([Char('a')]), Concat([Char('b')]))");
    assert_eq!(
        shape("abc|def|ghi"),
        "Or(Concat([Char('a'), Char('b'), Char('c')]), \
         Or(Concat([Char('d'), Char('e'), Char('f')]), \
         Concat([Char('g'), Char('h'), Char('i')])))"
    );
    assert_eq!(
        shape("a|b|c|d"),
        "Or(Concat([Char('a')]), Or(Concat([Char('b')]), Or(Concat([Char('c')]), Concat([Char('d')]))))"
    );
}

#[test]
fn single_alternative_is_no_alternation() {
    assert_eq!(shape("a|"), "Concat([Char('a')])");
    assert_eq!(shape("(a|)b"), "Concat([Concat([Char('a')]), Char('b')])");
}

#[test]
fn groups_nest() {
    assert_eq!(shape("(a)"), "Concat([Concat([Char('a')])])");
    assert_eq!(
        shape("a(b|c)d"),
        "Concat([Char('a'), Or(Concat([Char('b')]), Concat([Char('c')])), Char('d')])"
    );
    assert_eq!(shape("((a))"), "Concat([Concat([Concat([Char('a')])])])");
    assert_eq!(
        shape("a|(b|c)+"),
        "Or(Concat([Char('a')]), Concat([Plus(Or(Concat([Char('b')]), Concat([Char('c')])))]))"
    );
}

#[test]
fn empty_group_leaves_nothing() {
    assert_eq!(shape("a()b"), "Concat([Char('a'), Char('b')])");
    assert_eq!(shape("()a"), "Concat([Char('a')])");
    assert!(matches!(parse("()"), Err(ParseError::Empty)));
    assert!(matches!(parse("(())"), Err(ParseError::Empty)));
    // after an empty group an operator has nothing to apply to
    assert!(matches!(parse("()+"), Err(ParseError::NoPrev(2))));
    // and it applies to what stands before a group that left nothing
    assert_eq!(shape("a()+"), "Concat([Plus(Char('a'))])");
}

#[test]
fn escapes_are_literals() {
    assert_eq!(shape("\\+"), "Concat([Char('+')])");
    assert_eq!(
        shape("\\\\\\(\\)\\|\\+\\*\\?"),
        "Concat([Char('\\\\'), Char('('), Char(')'), Char('|'), Char('+'), Char('*'), Char('?')])"
    );
    assert_eq!(shape("a\\++"), "Concat([Char('a'), Plus(Char('+'))])");
}

#[test]
fn backslash_at_the_end_is_passed_over() {
    assert_eq!(shape("a\\"), "Concat([Char('a')])");
    assert!(matches!(parse("\\"), Err(ParseError::Empty)));
}

#[test]
fn invalid_escape_has_position_and_character() {
    assert!(matches!(parse("\\q"), Err(ParseError::InvalidEscape(1, 'q'))));
    assert!(matches!(parse("ab\\c"), Err(ParseError::InvalidEscape(3, 'c'))));
    assert!(matches!(parse("\\a+"), Err(ParseError::InvalidEscape(1, 'a'))));
}

#[test]
fn closing_parenthesis_needs_an_open_group() {
    assert!(matches!(parse("abc)"), Err(ParseError::InvalidRightParen(3))));
    assert!(matches!(parse(")"), Err(ParseError::InvalidRightParen(0))));
    assert!(matches!(parse("(a))"), Err(ParseError::InvalidRightParen(3))));
}

#[test]
fn open_group_needs_a_closing_parenthesis() {
    assert!(matches!(parse("(abc"), Err(ParseError::NoRightParen)));
    assert!(matches!(parse("("), Err(ParseError::NoRightParen)));
    assert!(matches!(parse("((a)"), Err(ParseError::NoRightParen)));
}

#[test]
fn operator_needs_a_preceding_expression() {
    assert!(matches!(parse("+"), Err(ParseError::NoPrev(0))));
    assert!(matches!(parse("*a"), Err(ParseError::NoPrev(0))));
    assert!(matches!(parse("?a"), Err(ParseError::NoPrev(0))));
    assert!(matches!(parse("|a"), Err(ParseError::NoPrev(0))));
    assert!(matches!(parse("a|+"), Err(ParseError::NoPrev(2))));
    assert!(matches!(parse("a||b"), Err(ParseError::NoPrev(2))));
    assert!(matches!(parse("(|a)"), Err(ParseError::NoPrev(1))));
    assert!(matches!(parse("a(*)"), Err(ParseError::NoPrev(2))));
}

#[test]
fn first_error_wins() {
    assert!(matches!(parse("+)"), Err(ParseError::NoPrev(0))));
    assert!(matches!(parse(")+"), Err(ParseError::InvalidRightParen(0))));
    assert!(matches!(parse("(\\q"), Err(ParseError::InvalidEscape(2, 'q'))));
}

#[test]
fn empty_pattern_is_an_error() {
    assert!(matches!(parse(""), Err(ParseError::Empty)));
}

#[test]
fn positions_count_characters() {
    assert!(matches!(parse("正規)"), Err(ParseError::InvalidRightParen(2))));
    assert_eq!(shape("正+"), "Concat([Plus(Char('正'))])");
}

#[test]
fn chars_of_gives_the_characters_in_order() {
    assert_eq!(chars_of(""), Vec::<char>::new());
    assert_eq!(chars_of("a正b"), vec!['a', '正', 'b']);
}

#[test]
fn parse_escape_takes_the_seven_characters() {
    for c in ['\\', '(', ')', '|', '+', '*', '?'] {
        assert_eq!(format!("{:?}", parse_escape(4, c)), format!("Ok(Char({:?}))", c));
    }
    assert!(matches!(parse_escape(4, 'a'), Err(ParseError::InvalidEscape(4, 'a'))));
    assert!(matches!(parse_escape(0, '.'), Err(ParseError::InvalidEscape(0, '.'))));
}

#[test]
fn parse_plus_star_question_wraps_the_last() {
    let mut seq = vec![AST::Char('a'), AST::Char('b')];
    assert!(parse_plus_star_question(&mut seq, PSQ::Plus, 2).is_ok());
    assert_eq!(format!("{:?}", seq), "[Char('a'), Plus(Char('b'))]");
    assert!(parse_plus_star_question(&mut seq, PSQ::Star, 3).is_ok());
    assert_eq!(format!("{:?}", seq), "[Char('a'), Star(Plus(Char('b')))]");
    assert!(parse_plus_star_question(&mut seq, PSQ::Question, 4).is_ok());
    assert_eq!(format!("{:?}", seq), "[Char('a'), Question(Star(Plus(Char('b'))))]");

    let mut none: Vec<AST> = Vec::new();
    assert!(matches!(
        parse_plus_star_question(&mut none, PSQ::Plus, 7),
        Err(ParseError::NoPrev(7))
    ));
    assert!(none.is_empty());
}

#[test]
fn fold_or_joins_to_the_right() {
    assert!(fold_or(Vec::new()).is_none());
    assert_eq!(format!("{:?}", fold_or(vec![AST::Char('a')])), "Some(Char('a'))");
    assert_eq!(
        format!("{:?}", fold_or(vec![AST::Char('a'), AST::Char('b')])),
        "Some(Or(Char('a'), Char('b')))"
    );
    assert_eq!(
        format!("{:?}", fold_or(vec![AST::Char('a'), AST::Char('b'), AST::Char('c')])),
        "Some(Or(Char('a'), Or(Char('b'), Char('c'))))"
    );
}
