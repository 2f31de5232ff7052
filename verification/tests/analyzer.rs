use regexc::analyzer::{analyze_redo, ReDoSAnalyzer, RiskLevel};
use regexc::parser::parse;

#[test]
fn detect_nested_quantifiers() {
    let ast = parse("(a*)*").unwrap();
    let analyzer = ReDoSAnalyzer::new();
    let result = analyzer.analyze(&ast);
    assert!(result.overall_level >= RiskLevel::High);
    assert!(result.risks.iter().any(|r| r.description.contains("Nested quantifiers")));
}

#[test]
fn detect_deeply_nested_quantifiers() {
    let ast = parse("((a+)*)+").unwrap();
    let analyzer = ReDoSAnalyzer::new();
    let result = analyzer.analyze(&ast);
    assert_eq!(result.overall_level, RiskLevel::Critical);
}

#[test]
fn detect_adjacent_overlapping_quantifiers() {
    let ast = parse("a*b*").unwrap();
    let analyzer = ReDoSAnalyzer::new();
    let result = analyzer.analyze(&ast);
    assert!(result.risks.iter().any(|r| r.description.contains("Adjacent quantifiers")));
}

#[test]
fn detect_adjacent_quantifiers_with_overlap() {
    let ast = parse("[ab]*[ac]*").unwrap();
    let analyzer = ReDoSAnalyzer::new();
    let result = analyzer.analyze(&ast);
    assert!(result.risks.iter().any(|r| r.description.contains("overlapping character sets")));
}

#[test]
fn detect_any_character() {
    let ast = parse(".*").unwrap();
    let analyzer = ReDoSAnalyzer::new();
    let result = analyzer.analyze(&ast);
    assert!(result.risks.iter().any(|r| r.description.contains("any character")));
}

#[test]
fn safe_regex() {
    let ast = parse(r"^\d{3}-\d{2}$").unwrap();
    let analyzer = ReDoSAnalyzer::new();
    let result = analyzer.analyze(&ast);
    assert_eq!(result.overall_level, RiskLevel::Safe);
}

#[test]
fn detect_alternation_with_quantifiers() {
    let ast = parse("(a|b*)*").unwrap();
    let analyzer = ReDoSAnalyzer::new();
    let result = analyzer.analyze(&ast);
    assert!(result.overall_level >= RiskLevel::High);
}

#[test]
fn detect_greedy_empty_match() {
    let ast = parse("(a?)*").unwrap();
    let analyzer = ReDoSAnalyzer::new();
    let result = analyzer.analyze(&ast);
    assert!(result.risks.iter().any(|r| r.description.contains("empty string")));
}

#[test]
fn non_greedy_no_warning() {
    let ast = parse("(a?)+?").unwrap();
    let analyzer = ReDoSAnalyzer::new();
    let result = analyzer.analyze(&ast);
    assert!(!result
        .risks
        .iter()
        .any(|r| r.description.contains("empty string") && r.level == RiskLevel::Medium));
}

#[test]
fn detect_class_with_wide_range() {
    let ast = parse("[a-z]{0,100}").unwrap();
    let analyzer = ReDoSAnalyzer::new();
    let result = analyzer.analyze(&ast);
    assert!(result.risks.iter().any(|r| r.description.contains("wide range")));
}

#[test]
fn format_report_includes_level() {
    let ast = parse("(a*)*").unwrap();
    let analyzer = ReDoSAnalyzer::new();
    let result = analyzer.analyze(&ast);
    let report = analyzer.format_report(&result, "(a*)*");
    assert!(report.contains("Critical") || report.contains("High"));
    assert!(report.contains("Nested quantifiers"));
    assert!(report.contains("Suggestion"));
}

#[test]
fn multiple_risks_detected() {
    let ast = parse("(a*|b*)*.*").unwrap();
    let analyzer = ReDoSAnalyzer::new();
    let result = analyzer.analyze(&ast);
    assert!(result.risks.len() >= 2);
}

#[test]
fn count_quantifiers_nested() {
    let ast = parse("((a*)*)*").unwrap();
    let analyzer = ReDoSAnalyzer::new();
    assert_eq!(analyzer.count_quantifiers(&ast), 3);
}

#[test]
fn count_quantifiers_concat() {
    let ast = parse("a+b*c?").unwrap();
    let analyzer = ReDoSAnalyzer::new();
    assert_eq!(analyzer.count_quantifiers(&ast), 3);
}

#[test]
fn can_match_empty() {
    let ast = parse("a*").unwrap();
    let analyzer = ReDoSAnalyzer::new();
    assert!(analyzer.can_match_empty(&ast));
}

#[test]
fn cannot_match_empty() {
    let ast = parse("a+").unwrap();
    let analyzer = ReDoSAnalyzer::new();
    assert!(!analyzer.can_match_empty(&ast));
}

#[test]
fn overall_level_is_highest_risk_level() {
    let ast = parse("(a*|b*)*.*").unwrap();
    let result = ReDoSAnalyzer::new().analyze(&ast);
    let highest = result.risks.iter().map(|r| r.level).max().unwrap_or(RiskLevel::Safe);
    assert_eq!(result.overall_level, highest);
}

#[test]
fn safe_regex_has_no_risks() {
    let result = ReDoSAnalyzer::new().analyze(&parse("abc").unwrap());
    assert!(result.risks.is_empty());
    assert_eq!(result.overall_level, RiskLevel::Safe);
}

#[test]
fn analyze_redo_matches_method() {
    let ast = parse("(a+)+").unwrap();
    let a = analyze_redo(&ast);
    let b = ReDoSAnalyzer::new().analyze(&ast);
    assert_eq!(a.overall_level, b.overall_level);
    assert_eq!(a.risks.len(), b.risks.len());
    assert_eq!(a.summary, b.summary);
}

#[test]
fn default_analyzer_behaves_like_new() {
    let ast = parse("(a*)*").unwrap();
    let a = ReDoSAnalyzer::default().analyze(&ast);
    assert_eq!(a.overall_level, ReDoSAnalyzer::new().analyze(&ast).overall_level);
}

#[test]
fn count_quantifiers_of_plain_literal_is_zero() {
    assert_eq!(ReDoSAnalyzer::new().count_quantifiers(&parse("abc").unwrap()), 0);
}

#[test]
fn contains_quantifier_sees_nested_repetition() {
    let analyzer = ReDoSAnalyzer::new();
    assert!(analyzer.contains_quantifier(&parse("(x(y+))").unwrap()));
    assert!(!analyzer.contains_quantifier(&parse("(xy)").unwrap()));
}
