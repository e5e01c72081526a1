use regex_engine::{checked_matching, do_matching};
use regex_engine::engine::parser::ParseError;
use regex_engine::engine::MatchError;

#[test]
fn test_matching() {
    // parse error
    assert!(do_matching("+b", "bbb", true).is_err());
    assert!(do_matching("*b", "bbb", true).is_err());
    assert!(do_matching("|b", "bbb", true).is_err());
    assert!(do_matching("?b", "bbb", true).is_err());

    // parse success, match success
    assert!(do_matching("abc|def", "def", true).is_ok());
    assert!(do_matching("(abc)*", "abcabc", true).is_ok());
    assert!(do_matching("(ab|cd)+", "abcdcd", true).is_ok());
    assert!(do_matching("abc?", "ab", true).is_ok());

    // parse success, match fail
    assert!(!do_matching("abc|def", "efa", true).unwrap());
    assert!(!do_matching("(ab|cd)+", "", true).unwrap());
    assert!(do_matching("abc?", "acb", true).is_ok());
}

#[test]
fn leading_operator_is_refused_at_position_zero() {
    for expr in ["+b", "*b", "?b", "|b", "+", "*", "?", "|", "+(a", "?\\q"] {
        for is_depth in [true, false] {
            assert!(matches!(
                do_matching(expr, "bbb", is_depth),
                Err(MatchError::Parse(ParseError::NoPrev(0)))
            ));
        }
    }
}

#[test]
fn second_alternative_is_tried_after_the_first() {
    assert!(matches!(do_matching("abc|def", "def", true), Ok(true)));
    assert!(matches!(do_matching("abc|def", "def", false), Ok(true)));
    assert!(matches!(do_matching("abc|def", "abc", true), Ok(true)));
    assert!(matches!(do_matching("abc|def", "abd", true), Ok(false)));
}

#[test]
fn a_match_needs_only_a_start_of_the_line() {
    // "abc?" is "ab" and then "c" or nothing: "ac" is no start of it
    assert!(matches!(do_matching("abc?", "acb", true), Ok(false)));
    assert!(matches!(do_matching("abc?", "acb", false), Ok(false)));
    assert!(matches!(do_matching("ab?c", "acb", true), Ok(true)));
    assert!(matches!(do_matching("ab?c", "acb", false), Ok(true)));
    assert!(matches!(do_matching("abc?", "abx", true), Ok(true)));
    assert!(matches!(do_matching("abc?", "abx", false), Ok(true)));
    assert!(matches!(do_matching("abc?", "ab", true), Ok(true)));
    assert!(matches!(do_matching("abc?", "abc", true), Ok(true)));
    assert!(matches!(do_matching("abc?", "a", true), Ok(false)));
    assert!(matches!(do_matching("a", "ab", true), Ok(true)));
    assert!(matches!(do_matching("a", "ba", true), Ok(false)));
}

#[test]
fn repetition_counts() {
    for is_depth in [true, false] {
        assert!(matches!(do_matching("(ab|cd)+", "abcdcd", is_depth), Ok(true)));
        assert!(matches!(do_matching("(ab|cd)+", "", is_depth), Ok(false)));
        assert!(matches!(do_matching("(abc)*", "abcabc", is_depth), Ok(true)));
        assert!(matches!(do_matching("(abc)*", "", is_depth), Ok(true)));
        assert!(matches!(do_matching("a+b", "aaab", is_depth), Ok(true)));
        assert!(matches!(do_matching("a+b", "b", is_depth), Ok(false)));
        assert!(matches!(do_matching("a*b", "b", is_depth), Ok(true)));
        assert!(matches!(do_matching("a*b", "aac", is_depth), Ok(false)));
    }
}

#[test]
fn unbalanced_groups_are_refused() {
    assert!(matches!(
        do_matching("(abc", "abc", true),
        Err(MatchError::Parse(ParseError::NoRightParen))
    ));
    assert!(matches!(
        do_matching("abc)", "abc", true),
        Err(MatchError::Parse(ParseError::InvalidRightParen(3)))
    ));
}

#[test]
fn escaped_operator_is_a_literal() {
    for is_depth in [true, false] {
        assert!(matches!(do_matching("\\+", "+", is_depth), Ok(true)));
        assert!(matches!(do_matching("\\+", "a", is_depth), Ok(false)));
        assert!(matches!(do_matching("a\\*", "a*", is_depth), Ok(true)));
        assert!(matches!(do_matching("a\\*", "aa", is_depth), Ok(false)));
        assert!(matches!(do_matching("\\(\\)\\|\\?\\\\", "()|?\\", is_depth), Ok(true)));
    }
    assert!(matches!(
        do_matching("\\q", "q", true),
        Err(MatchError::Parse(ParseError::InvalidEscape(1, 'q')))
    ));
}

#[test]
fn empty_pattern_is_refused() {
    assert!(matches!(do_matching("", "abc", true), Err(MatchError::Parse(ParseError::Empty))));
    assert!(matches!(do_matching("()", "abc", true), Err(MatchError::Parse(ParseError::Empty))));
}

#[test]
fn both_strategies_agree() {
    let patterns = [
        "a", "abc", "abc|def", "abc|def|ghi", "(abc)*", "(ab|cd)+", "abc?", "a+b*c?", "a(bc)+|c(def)*",
        "(a|b)*c", "((a|b)+c)*d", "a?b?c?", "(a?b)+", "x(y|z)*x", "\\(a\\)+", "(ab)+(cd)*", "a|", "(a|)b",
    ];
    let lines = [
        "", "a", "b", "ab", "abc", "abcabc", "def", "ghi", "abcdcd", "acb", "cdefdefdef", "aaab", "xyzzyx",
        "xx", "(a))", "ababcdcd", "bbbc", "abcbcd", "acbcd", "c",
    ];
    for expr in patterns {
        for line in lines {
            let depth = do_matching(expr, line, true).unwrap();
            let width = do_matching(expr, line, false).unwrap();
            assert_eq!(depth, width, "{expr} on {line}");
        }
    }
}

#[test]
fn line_of_other_scripts() {
    assert!(matches!(do_matching("正規(表現)+", "正規表現表現", true), Ok(true)));
    assert!(matches!(do_matching("正規(表現)+", "正規", false), Ok(false)));
}

#[test]
fn checked_matching_searches_where_the_search_ends() {
    for is_depth in [true, false] {
        assert!(matches!(checked_matching("a(bc)+|c(def)*", "cdefdefdef", is_depth), Some(Ok(true))));
        assert!(matches!(checked_matching("(ab|cd)+", "", is_depth), Some(Ok(false))));
        assert!(matches!(checked_matching("(a?b)*c", "abbc", is_depth), Some(Ok(true))));
        assert!(matches!(
            checked_matching("+b", "bbb", is_depth),
            Some(Err(MatchError::Parse(ParseError::NoPrev(0))))
        ));
        assert!(matches!(
            checked_matching("(a*", "a", is_depth),
            Some(Err(MatchError::Parse(ParseError::NoRightParen)))
        ));
    }
}

#[test]
fn checked_matching_refuses_a_repeated_empty_match() {
    for expr in ["a**", "(a?)+", "(a*)*b", "(a|b*)+", "x(a?b?)*y"] {
        for is_depth in [true, false] {
            assert!(checked_matching(expr, "aab", is_depth).is_none(), "{expr}");
        }
    }
}

#[test]
fn a_match_is_a_match_of_some_start() {
    // "a*" matches the empty start of every line
    for line in ["", "b", "aaa", "ba"] {
        assert!(matches!(do_matching("a*", line, true), Ok(true)));
        assert!(matches!(do_matching("a*", line, false), Ok(true)));
    }
    // no start of "abab" is "ab" three times
    assert!(matches!(do_matching("ababab", "abab", true), Ok(false)));
    // the first alternative that leads to a match need not be the first listed
    assert!(matches!(do_matching("(a|ab)c", "abc", true), Ok(true)));
    assert!(matches!(do_matching("(a|ab)c", "abc", false), Ok(true)));
    // a repetition gives back what the rest needs
    assert!(matches!(do_matching("a*ab", "aaab", true), Ok(true)));
    assert!(matches!(do_matching("a*ab", "aaab", false), Ok(true)));
    assert!(matches!(do_matching("(ab)+abc", "ababc", false), Ok(true)));
    assert!(matches!(do_matching("(ab)+abc", "abc", true), Ok(false)));
}
