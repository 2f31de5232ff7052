use regexc::ast::{CharClass, Expr, GroupKind, RepetitionKind};
use regexc::parser::{parse, try_parse, ParseError, Parser};

#[test]
fn parse_literal() {
    let result = parse("abc").unwrap();
    assert!(matches!(result, Expr::Concat(_)));
}

#[test]
fn parse_alternation() {
    let result = parse("a|b").unwrap();
    assert!(matches!(result, Expr::Alternation(_)));
}

#[test]
fn parse_repetition() {
    let result = parse("a*").unwrap();
    assert!(matches!(
        result,
        Expr::Repetition {
            kind: RepetitionKind::ZeroOrMore,
            ..
        }
    ));
}

#[test]
fn parse_character_class() {
    let result = parse("[a-z]").unwrap();
    assert!(matches!(result, Expr::Class(CharClass::Class(_))));
}

#[test]
fn parse_digit_class() {
    let result = parse(r"\d").unwrap();
    assert!(matches!(result, Expr::Class(CharClass::Digit)));
}

#[test]
fn parse_group() {
    let result = parse("(abc)").unwrap();
    assert!(matches!(
        result,
        Expr::Group {
            kind: GroupKind::Capturing(1),
            ..
        }
    ));
}

#[test]
fn parse_anchors() {
    let result = parse("^abc$").unwrap();
    assert!(matches!(result, Expr::Concat(_)));
}

#[test]
fn parse_complex_regex() {
    let result = parse(r"^\d{3}-\d{2}$").unwrap();
    assert!(result.precedence() > 0);
}

#[test]
fn parse_error() {
    let result = parse("[a-z");
    assert!(result.is_err());
}

#[test]
fn parse_single_literal_is_literal() {
    let result = parse("a").unwrap();
    assert!(matches!(result, Expr::Literal('a')));
}

#[test]
fn parse_empty_input_is_empty() {
    let result = parse("").unwrap();
    assert!(matches!(result, Expr::Empty));
}

#[test]
fn parse_counted_repetitions() {
    assert!(matches!(
        parse("a{3}").unwrap(),
        Expr::Repetition { kind: RepetitionKind::Exactly(3), .. }
    ));
    assert!(matches!(
        parse("a{2,}").unwrap(),
        Expr::Repetition { kind: RepetitionKind::AtLeast(2), .. }
    ));
    assert!(matches!(
        parse("a{2,5}").unwrap(),
        Expr::Repetition { kind: RepetitionKind::Range(2, 5), .. }
    ));
}

#[test]
fn parse_lazy_repetition_is_not_greedy() {
    assert!(matches!(
        parse("a+?").unwrap(),
        Expr::Repetition { kind: RepetitionKind::OneOrMore, greedy: false, .. }
    ));
}

#[test]
fn parse_group_kinds() {
    assert!(matches!(parse("(?:a)").unwrap(), Expr::Group { kind: GroupKind::NonCapturing, .. }));
    assert!(matches!(parse("(?=a)").unwrap(), Expr::Group { kind: GroupKind::Lookahead(true), .. }));
    assert!(matches!(parse("(?!a)").unwrap(), Expr::Group { kind: GroupKind::Lookahead(false), .. }));
    assert!(matches!(parse("(?<=a)").unwrap(), Expr::Group { kind: GroupKind::Lookbehind(true), .. }));
    assert!(matches!(parse("(?<!a)").unwrap(), Expr::Group { kind: GroupKind::Lookbehind(false), .. }));
}

#[test]
fn parse_second_group_is_numbered_two() {
    match parse("(a)(b)").unwrap() {
        Expr::Concat(items) => {
            assert_eq!(items.len(), 2);
            assert!(matches!(items[1], Expr::Group { kind: GroupKind::Capturing(2), .. }));
        }
        other => panic!("unexpected tree {:?}", other),
    }
}

#[test]
fn parse_backreference() {
    assert!(matches!(parse(r"\1").unwrap(), Expr::Backreference(1)));
}

#[test]
fn parse_unclosed_group_is_error() {
    assert!(parse("(ab").is_err());
}

#[test]
fn parse_trailing_close_paren_is_error() {
    assert!(parse("ab)").is_err());
}

#[test]
fn try_parse_reports_number_too_large() {
    assert!(matches!(try_parse("a{99999999999}"), Err(ParseError::NumberTooLarge)));
}

#[test]
fn try_parse_reports_syntax_error() {
    assert!(matches!(try_parse("[a-z"), Err(ParseError::Syntax(_))));
}

#[test]
fn parser_method_agrees_with_free_function() {
    let mut p = Parser::new("x|y");
    assert!(matches!(p.parse().unwrap(), Expr::Alternation(_)));
}
