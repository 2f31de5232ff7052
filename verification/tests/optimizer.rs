use regexc::ast::Expr;
use regexc::optimizer::{optimize, Optimizer};
use regexc::parser::parse;

#[test]
fn fold_empty_concat() {
    let ast = parse("a()b").unwrap();
    let optimized = optimize(ast);
    let opt = Optimizer::new();
    let result = opt.to_regex_string(&optimized);
    assert_eq!(result, "ab");
}

#[test]
fn fold_exactly_one() {
    let ast = parse("a{1}").unwrap();
    let optimized = optimize(ast);
    let opt = Optimizer::new();
    let result = opt.to_regex_string(&optimized);
    assert_eq!(result, "a");
}

#[test]
fn fold_range_same() {
    let ast = parse("a{2,2}").unwrap();
    let optimized = optimize(ast);
    let opt = Optimizer::new();
    let result = opt.to_regex_string(&optimized);
    assert_eq!(result, "a{2}");
}

#[test]
fn remove_non_capturing_group() {
    let ast = parse("(?:abc)").unwrap();
    let optimized = optimize(ast);
    let opt = Optimizer::new();
    let result = opt.to_regex_string(&optimized);
    assert_eq!(result, "abc");
}

#[test]
fn dedup_alternation() {
    let ast = parse("a|b|a").unwrap();
    let optimized = optimize(ast);
    let opt = Optimizer::new();
    let result = opt.to_regex_string(&optimized);
    assert!(result.contains('|'));
}

#[test]
fn to_regex_string_preserves_syntax() {
    let ast = parse(r"^\d{3}-\d{2}$").unwrap();
    let opt = Optimizer::new();
    let result = opt.to_regex_string(&ast);
    assert_eq!(result, r"^\d{3}-\d{2}$");
}

#[test]
fn optimize_complex_regex() {
    let ast = parse(r"^\d{3}-\d{2}$").unwrap();
    let optimized = optimize(ast);
    let opt = Optimizer::new();
    let result = opt.to_regex_string(&optimized);
    assert_eq!(result, r"^\d{3}-\d{2}$");
}

#[test]
fn dedup_alternation_keeps_each_branch_once() {
    let optimized = optimize(parse("a|b|a").unwrap());
    let opt = Optimizer::new();
    assert_eq!(opt.to_regex_string(&optimized), "a|b");
}

#[test]
fn fold_exactly_zero_is_empty() {
    let optimized = optimize(parse("a{0}").unwrap());
    assert!(matches!(optimized, Expr::Empty));
}

#[test]
fn optimizer_method_matches_free_function() {
    let mut o = Optimizer::new();
    let a = o.optimize(parse("(?:x)y{1}").unwrap());
    let b = optimize(parse("(?:x)y{1}").unwrap());
    let opt = Optimizer::new();
    assert_eq!(opt.to_regex_string(&a), opt.to_regex_string(&b));
    assert_eq!(opt.to_regex_string(&a), "xy");
}

#[test]
fn to_regex_string_escapes_meta_characters() {
    let ast = parse(r"a\.b\*").unwrap();
    let opt = Optimizer::new();
    assert_eq!(opt.to_regex_string(&ast), r"a\.b\*");
}

#[test]
fn to_regex_string_of_classes_and_groups() {
    let opt = Optimizer::new();
    assert_eq!(opt.to_regex_string(&parse("[^a-c]").unwrap()), "[^a-c]");
    assert_eq!(opt.to_regex_string(&parse("(ab)+?").unwrap()), "(ab)+?");
    assert_eq!(opt.to_regex_string(&parse("a{2,}").unwrap()), "a{2,}");
}
