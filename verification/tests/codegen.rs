use regexc::codegen::{CodeGenerator, Target};
use regexc::dfa::{build_nfa, BytecodeInstr};
use regexc::parser::parse;

#[test]
fn generate_rust_code() {
    let code_gen = CodeGenerator::new(Target::Rust);
    let code = code_gen.generate(r"^\d{3}-\d{2}$", r"^\d{3}-\d{2}$");
    assert!(code.contains("use regex::Regex"));
    assert!(code.contains("pub fn is_match"));
}

#[test]
fn generate_javascript_code() {
    let code_gen = CodeGenerator::new(Target::JavaScript);
    let code = code_gen.generate(r"^\d{3}-\d{2}$", r"^\d{3}-\d{2}$");
    assert!(code.contains("const regex = /"));
    assert!(code.contains("function isMatch"));
}

#[test]
fn generate_python_code() {
    let code_gen = CodeGenerator::new(Target::Python);
    let code = code_gen.generate(r"^\d{3}-\d{2}$", r"^\d{3}-\d{2}$");
    assert!(code.contains("import re"));
    assert!(code.contains("def is_match"));
}

#[test]
fn generate_from_ast() {
    let ast = parse("abc").unwrap();
    let code_gen = CodeGenerator::new(Target::Rust);
    let code = code_gen.generate_from_ast(&ast);
    assert!(code.contains("abc"));
}

#[test]
fn target_from_str() {
    assert_eq!(Target::from_str("rust"), Some(Target::Rust));
    assert_eq!(Target::from_str("javascript"), Some(Target::JavaScript));
    assert_eq!(Target::from_str("js"), Some(Target::JavaScript));
    assert_eq!(Target::from_str("python"), Some(Target::Python));
    assert_eq!(Target::from_str("py"), Some(Target::Python));
    assert_eq!(Target::from_str("unknown"), None);
}

#[test]
fn generate_from_bytecode_rust() {
    let ast = parse("ab").unwrap();
    let nfa = build_nfa(&ast);
    let dfa = nfa.to_dfa();
    let bytecode = dfa.to_bytecode();
    let code_gen = CodeGenerator::new(Target::Rust);
    let code = code_gen.generate_from_bytecode(&bytecode);
    assert!(code.contains("pub fn is_match"));
}

#[test]
fn handles_escaped_characters() {
    let code_gen = CodeGenerator::new(Target::Rust);
    let code = code_gen.generate("a\\.b", "a\\.b");
    assert!(code.contains("a\\.b"));
}

#[test]
fn preserves_optimized_regex() {
    let code_gen = CodeGenerator::new(Target::JavaScript);
    let code = code_gen.generate("original", "optimized");
    assert!(code.contains("Original regex: original"));
    assert!(code.contains("Optimized regex: optimized"));
}

#[test]
fn target_from_str_ignores_case() {
    assert_eq!(Target::from_str("RUST"), Some(Target::Rust));
    assert_eq!(Target::from_str("JavaScript"), Some(Target::JavaScript));
    assert_eq!(Target::from_str("Py"), Some(Target::Python));
    assert_eq!(Target::from_str(""), None);
}

#[test]
fn python_code_escapes_quotes() {
    let code = CodeGenerator::new(Target::Python).generate("a\"b", "a\"b");
    assert!(code.contains("_pattern = r\"a\\\"b\""));
}

#[test]
fn javascript_code_escapes_slashes() {
    let code = CodeGenerator::new(Target::JavaScript).generate("a/b", "a/b");
    assert!(code.contains("const regex = /a\\/b/;"));
}

#[test]
fn rust_code_escapes_quotes() {
    let code = CodeGenerator::new(Target::Rust).generate("a\"b", "a\"b");
    assert!(code.contains("Regex::new(r\"a\\\"b\")"));
}

#[test]
fn generate_from_bytecode_other_targets() {
    let bytecode = vec![BytecodeInstr::Start, BytecodeInstr::Fail];
    assert_eq!(
        CodeGenerator::new(Target::JavaScript).generate_from_bytecode(&bytecode),
        "// JavaScript bytecode generator coming soon\n"
    );
    assert_eq!(
        CodeGenerator::new(Target::Python).generate_from_bytecode(&bytecode),
        "# Python bytecode generator coming soon\n"
    );
}

#[test]
fn generate_from_bytecode_rust_transitions() {
    let bytecode = vec![
        BytecodeInstr::Start,
        BytecodeInstr::MatchChar('a', 1),
        BytecodeInstr::Fail,
        BytecodeInstr::Accept,
        BytecodeInstr::Fail,
    ];
    let code = CodeGenerator::new(Target::Rust).generate_from_bytecode(&bytecode);
    assert!(code.contains("state = 1;"));
    assert!(code.contains("'a'"));
}
