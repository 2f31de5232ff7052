pub mod ast;
pub mod text;
pub mod regex_text;
pub mod roundtrip;
pub mod parser;
pub mod optimizer;
pub mod analyzer;
pub mod dfa;
pub mod nfa;
pub mod nfa_empty;
pub mod nfa_words;
pub mod subset;
pub mod minimize;
pub mod render;
pub mod codegen;
