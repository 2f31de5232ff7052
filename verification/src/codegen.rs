//! Generation of matcher source code in Rust, JavaScript and Python.
use vstd::prelude::*;
use crate::ast::{Expr, CharClass, SClass, CharClassItem};
use crate::dfa::{BytecodeInstr, SInstr, instrs_view};
use crate::regex_text::{spec_expr_text, write_expr};
use crate::text::{push_char, push_str, push_decimal, decimal, chars_of};

verus! {

pub const RUST_PART_0: &'static str = "use regex::Regex;\n\nfn main() {\n    let re = Regex::new(r\"";
pub const RUST_PART_1: &'static str = "\").unwrap();\n    \n    // Original regex: ";
pub const RUST_PART_2: &'static str = "\n    // Optimized regex: ";
pub const RUST_PART_3: &'static str = "\n    \n    println!(\"Matching with regex: {}\", re.as_str());\n}\n\npub fn is_match(text: &str) -> bool {\n    let re = Regex::new(r\"";
pub const RUST_PART_4: &'static str = "\").unwrap();\n    re.is_match(text)\n}\n\npub fn find<'a>(text: &'a str) -> Option<&'a str> {\n    let re = Regex::new(r\"";
pub const RUST_PART_5: &'static str = "\").unwrap();\n    re.find(text).map(|m| m.as_str())\n}\n\npub fn captures<'a>(text: &'a str) -> Option<regex::Captures<'a>> {\n    let re = Regex::new(r\"";
pub const RUST_PART_6: &'static str = "\").unwrap();\n    re.captures(text)\n}\n";
pub const PYTHON_PART_0: &'static str = "import re\n\n\"\"\"\nOriginal regex: ";
pub const PYTHON_PART_1: &'static str = "\nOptimized regex: ";
pub const PYTHON_PART_2: &'static str = "\n\"\"\"\n\n_pattern = r\"";
pub const PYTHON_PART_3: &'static str = "\"\n_regex = re.compile(_pattern)\n\n\ndef is_match(text: str) -> bool:\n    \"\"\"Check if the text matches the regex.\"\"\"\n    return _regex.fullmatch(text) is not None\n\n\ndef search(text: str):\n    \"\"\"Search for the pattern in text.\"\"\"\n    return _regex.search(text)\n\n\ndef find_all(text: str):\n    \"\"\"Find all matches in text.\"\"\"\n    return _regex.findall(text)\n\n\ndef find_iter(text: str):\n    \"\"\"Return an iterator over all matches.\"\"\"\n    return _regex.finditer(text)\n\n\ndef replace(text: str, replacement: str) -> str:\n    \"\"\"Replace matches in text.\"\"\"\n    return _regex.sub(replacement, text)\n\n\ndef split(text: str):\n    \"\"\"Split text by the pattern.\"\"\"\n    return _regex.split(text)\n\n\n# Example usage:\n# if __name__ == \"__main__\":\n#     print(is_match(\"123-45\"))\n#     print(search(\"ID: 123-45\"))\n";
pub const JAVASCRIPT_PART_0: &'static str = "/**\n * Original regex: ";
pub const JAVASCRIPT_PART_1: &'static str = "\n * Optimized regex: ";
pub const JAVASCRIPT_PART_2: &'static str = "\n */\n\nconst regex = /";
pub const JAVASCRIPT_PART_3: &'static str = "/;\n\nfunction isMatch(text) {\n    return regex.test(text);\n}\n\nfunction find(text) {\n    return text.match(regex);\n}\n\nfunction findAll(text) {\n    return [...text.matchAll(new RegExp(regex.source, regex.flags + 'g'))];\n}\n\nfunction replace(text, replacement) {\n    return text.replace(regex, replacement);\n}\n\n// Example usage:\n// console.log(isMatch('123-45'));\n// console.log(find('ID: 123-45'));\n\n";
pub const JAVASCRIPT_PART_4: &'static str = "\n";
pub const JAVASCRIPT_EXPORT_LINE: &'static str = "export { regex, isMatch, find, findAll, replace };";

/// A language to generate code in.
#[derive(Debug, Clone, Copy, PartialEq, Eq, Structural)]
pub enum Target {
    Rust,
    JavaScript,
    Python,
}

/// ASCII upper-case letters turned to lower case; other characters kept.
pub open spec fn ascii_lower(s: Seq<char>) -> Seq<char>
    decreases s.len(),
{
    if s.len() == 0 {
        Seq::empty()
    } else {
        let c = s.last();
        ascii_lower(s.drop_last()).push(if 'A' <= c && c <= 'Z' { ((c as int) + 32) as char } else { c })
    }
}

/// The target that a name denotes, ignoring case. (No character outside ASCII lowers to a
/// letter of these names, so ASCII case folding decides as full lower-casing would.)
pub open spec fn spec_target_named(s: Seq<char>) -> Option<Target> {
    let l = ascii_lower(s);
    if l == "rust"@ {
        Some(Target::Rust)
    } else if l == "javascript"@ || l == "js"@ {
        Some(Target::JavaScript)
    } else if l == "python"@ || l == "py"@ {
        Some(Target::Python)
    } else {
        None
    }
}

fn lower_char(c: char) -> (r: char)
    ensures
        r == if 'A' <= c && c <= 'Z' { ((c as int) + 32) as char } else { c },
{
    if 'A' <= c && c <= 'Z' {
        let b: u8 = (c as u8) + 32;
        b as char
    } else {
        c
    }
}

fn seq_eq_str(v: &Vec<char>, s: &str) -> (b: bool)
    ensures
        b == (v@ == s@),
{
    let t = chars_of(s);
    if t.len() != v.len() {
        return false;
    }
    let mut i: usize = 0;
    while i < v.len()
        invariant
            i <= v.len(),
            t.len() == v.len(),
            t@ == s@,
            forall|k: int| 0 <= k < i ==> v@[k] == t@[k],
        decreases v.len() - i,
    {
        if v[i] != t[i] {
            return false;
        }
        i += 1;
    }
    assert(v@ =~= s@);
    true
}

impl Target {
    /// The target named by `s`, ignoring case: `rust`, `javascript` or `js`, `python` or `py`.
    pub fn from_str(s: &str) -> (r: Option<Self>)
        ensures
            r == spec_target_named(s@),
    {
        let cs = chars_of(s);
        let mut lower: Vec<char> = Vec::new();
        let mut i: usize = 0;
        while i < cs.len()
            invariant
                i <= cs.len(),
                lower@ == ascii_lower(cs@.take(i as int)),
            decreases cs.len() - i,
        {
            let l = lower_char(cs[i]);
            assert(cs@.take(i + 1).drop_last() =~= cs@.take(i as int));
            lower.push(l);
            i += 1;
        }
        assert(cs@.take(cs.len() as int) =~= cs@);
        if seq_eq_str(&lower, "rust") {
            Some(Target::Rust)
        } else if seq_eq_str(&lower, "javascript") || seq_eq_str(&lower, "js") {
            Some(Target::JavaScript)
        } else if seq_eq_str(&lower, "python") || seq_eq_str(&lower, "py") {
            Some(Target::Python)
        } else {
            None
        }
    }
}

/// Target names are read without regard to the case of ASCII letters: two names that
/// differ only there name the same target.
pub proof fn law_target_name_ignores_case(s: Seq<char>, t: Seq<char>)
    requires
        ascii_lower(s) == ascii_lower(t),
    ensures
        spec_target_named(s) == spec_target_named(t),
{
}

/// `s` with every `from` replaced by `to`.
pub open spec fn spec_replace_char(s: Seq<char>, from: char, to: Seq<char>) -> Seq<char>
    decreases s.len(),
{
    if s.len() == 0 {
        Seq::empty()
    } else {
        spec_replace_char(s.drop_last(), from, to) + if s.last() == from { to } else { seq![s.last()] }
    }
}

/// A regex placed inside a double-quoted string: `"` escaped.
pub open spec fn spec_escape_quotes(s: Seq<char>) -> Seq<char> {
    spec_replace_char(s, '"', "\\\""@)
}

/// A regex placed inside a JavaScript regex literal: `/` escaped.
pub open spec fn spec_escape_js_regex(s: Seq<char>) -> Seq<char> {
    spec_replace_char(s, '/', "\\/"@)
}

/// The Rust program for a regex and its optimized form.
pub open spec fn spec_rust_program(regex: Seq<char>, optimized: Seq<char>) -> Seq<char> {
    let e = spec_escape_quotes(optimized);
    RUST_PART_0@ + e + RUST_PART_1@ + regex + RUST_PART_2@ + optimized + RUST_PART_3@ + e + RUST_PART_4@ + e
        + RUST_PART_5@ + e + RUST_PART_6@
}

/// The JavaScript module for a regex and its optimized form.
pub open spec fn spec_javascript_program(regex: Seq<char>, optimized: Seq<char>) -> Seq<char> {
    JAVASCRIPT_PART_0@ + regex + JAVASCRIPT_PART_1@ + optimized + JAVASCRIPT_PART_2@ + spec_escape_js_regex(optimized)
        + JAVASCRIPT_PART_3@ + JAVASCRIPT_EXPORT_LINE@ + JAVASCRIPT_PART_4@
}

/// The Python module for a regex and its optimized form.
pub open spec fn spec_python_program(regex: Seq<char>, optimized: Seq<char>) -> Seq<char> {
    PYTHON_PART_0@ + regex + PYTHON_PART_1@ + optimized + PYTHON_PART_2@ + spec_escape_quotes(optimized) + PYTHON_PART_3@
}

pub open spec fn spec_generate(target: Target, regex: Seq<char>, optimized: Seq<char>) -> Seq<char> {
    match target {
        Target::Rust => spec_rust_program(regex, optimized),
        Target::JavaScript => spec_javascript_program(regex, optimized),
        Target::Python => spec_python_program(regex, optimized),
    }
}

/// Appends `s` with every `from` replaced by `to`.
fn write_replacing(out: &mut String, s: &str, from: char, to: &str)
    ensures
        final(out)@ == old(out)@ + spec_replace_char(s@, from, to@),
{
    let cs = chars_of(s);
    let ghost start = out@;
    let mut i: usize = 0;
    while i < cs.len()
        invariant
            i <= cs.len(),
            out@ == start + spec_replace_char(cs@.take(i as int), from, to@),
        decreases cs.len() - i,
    {
        let c = cs[i];
        if c == from {
            push_str(out, to);
        } else {
            push_char(out, c);
        }
        assert(cs@.take(i + 1).drop_last() =~= cs@.take(i as int));
        assert(out@ =~= start + spec_replace_char(cs@.take(i + 1), from, to@));
        i += 1;
    }
    assert(cs@.take(cs.len() as int) =~= cs@);
}

fn escape_rust_string(s: &str) -> (r: String)
    ensures
        r@ == spec_escape_quotes(s@),
{
    let mut r = String::new();
    write_replacing(&mut r, s, '"', "\\\"");
    r
}

fn escape_js_regex(s: &str) -> (r: String)
    ensures
        r@ == spec_escape_js_regex(s@),
{
    let mut r = String::new();
    write_replacing(&mut r, s, '/', "\\/");
    r
}

fn escape_python_string(s: &str) -> (r: String)
    ensures
        r@ == spec_escape_quotes(s@),
{
    let mut r = String::new();
    write_replacing(&mut r, s, '"', "\\\"");
    r
}

/// Generates matcher source code in one target language.
pub struct CodeGenerator {
    target: Target,
}

impl CodeGenerator {
    /// The language this generator writes.
    pub closed spec fn language(&self) -> Target {
        self.target
    }

    pub fn new(target: Target) -> (g: Self)
        ensures
            g.language() == target,
    {
        CodeGenerator { target }
    }

    /// A program in the target language that uses `optimized_regex`, naming both forms.
    pub fn generate(&self, regex: &str, optimized_regex: &str) -> (r: String)
        ensures
            r@ == spec_generate(self.language(), regex@, optimized_regex@),
    {
        match self.target {
            Target::Rust => self.generate_rust(regex, optimized_regex),
            Target::JavaScript => self.generate_javascript(regex, optimized_regex),
            Target::Python => self.generate_python(regex, optimized_regex),
        }
    }

    /// A program for the text of an expression, used as both forms.
    pub fn generate_from_ast(&self, expr: &Expr) -> (r: String)
        ensures
            r@ == spec_generate(self.language(), spec_expr_text(expr@, 0), spec_expr_text(expr@, 0)),
    {
        let regex = self.ast_to_regex(expr);
        self.generate(regex.as_str(), regex.as_str())
    }

    fn ast_to_regex(&self, expr: &Expr) -> (r: String)
        ensures
            r@ == spec_expr_text(expr@, 0),
    {
        let mut out = String::new();
        write_expr(&mut out, expr, 0);
        out
    }

    fn generate_rust(&self, regex: &str, optimized_regex: &str) -> (r: String)
        ensures
            r@ == spec_rust_program(regex@, optimized_regex@),
    {
        let escaped_regex = escape_rust_string(optimized_regex);
        let e = escaped_regex.as_str();
        let mut out = String::new();
        push_str(&mut out, RUST_PART_0);
        push_str(&mut out, e);
        push_str(&mut out, RUST_PART_1);
        push_str(&mut out, regex);
        push_str(&mut out, RUST_PART_2);
        push_str(&mut out, optimized_regex);
        push_str(&mut out, RUST_PART_3);
        push_str(&mut out, e);
        push_str(&mut out, RUST_PART_4);
        push_str(&mut out, e);
        push_str(&mut out, RUST_PART_5);
        push_str(&mut out, e);
        push_str(&mut out, RUST_PART_6);
        assert(out@ =~= spec_rust_program(regex@, optimized_regex@));
        out
    }

    fn generate_javascript(&self, regex: &str, optimized_regex: &str) -> (r: String)
        ensures
            r@ == spec_javascript_program(regex@, optimized_regex@),
    {
        let escaped_regex = escape_js_regex(optimized_regex);
        let export_line = JAVASCRIPT_EXPORT_LINE;
        let mut out = String::new();
        push_str(&mut out, JAVASCRIPT_PART_0);
        push_str(&mut out, regex);
        push_str(&mut out, JAVASCRIPT_PART_1);
        push_str(&mut out, optimized_regex);
        push_str(&mut out, JAVASCRIPT_PART_2);
        push_str(&mut out, escaped_regex.as_str());
        push_str(&mut out, JAVASCRIPT_PART_3);
        push_str(&mut out, export_line);
        push_str(&mut out, JAVASCRIPT_PART_4);
        assert(out@ =~= spec_javascript_program(regex@, optimized_regex@));
        out
    }

    fn generate_python(&self, regex: &str, optimized_regex: &str) -> (r: String)
        ensures
            r@ == spec_python_program(regex@, optimized_regex@),
    {
        let escaped_regex = escape_python_string(optimized_regex);
        let mut out = String::new();
        push_str(&mut out, PYTHON_PART_0);
        push_str(&mut out, regex);
        push_str(&mut out, PYTHON_PART_1);
        push_str(&mut out, optimized_regex);
        push_str(&mut out, PYTHON_PART_2);
        push_str(&mut out, escaped_regex.as_str());
        push_str(&mut out, PYTHON_PART_3);
        assert(out@ =~= spec_python_program(regex@, optimized_regex@));
        out
    }
}


/// A character inside a Rust character literal.
pub open spec fn spec_escape_rust_char(c: char) -> Seq<char> {
    if c == '\'' {
        "\\'"@
    } else if c == '\\' {
        "\\\\"@
    } else if c == '\n' {
        "\\n"@
    } else if c == '\r' {
        "\\r"@
    } else if c == '\t' {
        "\\t"@
    } else {
        seq![c]
    }
}

/// Rust code testing `chars[pos]` against a class item.
pub open spec fn spec_item_check(item: CharClassItem) -> Seq<char> {
    match item {
        CharClassItem::Literal(c) => "chars[pos] == '"@ + spec_escape_rust_char(c) + "'"@,
        CharClassItem::Range(a, b) => "chars[pos] >= '"@ + spec_escape_rust_char(a) + "' && chars[pos] <= '"@
            + spec_escape_rust_char(b) + "'"@,
        CharClassItem::Digit => "chars[pos].is_ascii_digit()"@,
        CharClassItem::Word => "chars[pos].is_ascii_alphanumeric() || chars[pos] == '_'"@,
        CharClassItem::Whitespace => "chars[pos].is_whitespace()"@,
        CharClassItem::NegatedDigit => "!chars[pos].is_ascii_digit()"@,
        CharClassItem::NegatedWord => "!(chars[pos].is_ascii_alphanumeric() || chars[pos] == '_')"@,
        CharClassItem::NegatedWhitespace => "!chars[pos].is_whitespace()"@,
    }
}

/// The items' tests joined by ` || `.
pub open spec fn spec_item_checks(items: Seq<CharClassItem>) -> Seq<char>
    decreases items.len(),
{
    if items.len() == 0 {
        Seq::empty()
    } else if items.len() == 1 {
        spec_item_check(items[0])
    } else {
        spec_item_checks(items.drop_last()) + " || "@ + spec_item_check(items.last())
    }
}

/// Rust code testing `chars[pos]` against a class.
pub open spec fn spec_class_check(cls: SClass) -> Seq<char> {
    match cls {
        SClass::Digit => "chars[pos].is_ascii_digit()"@,
        SClass::Word => "chars[pos].is_ascii_alphanumeric() || chars[pos] == '_'"@,
        SClass::Whitespace => "chars[pos].is_whitespace()"@,
        SClass::NegatedDigit => "!chars[pos].is_ascii_digit()"@,
        SClass::NegatedWord => "!(chars[pos].is_ascii_alphanumeric() || chars[pos] == '_')"@,
        SClass::NegatedWhitespace => "!chars[pos].is_whitespace()"@,
        SClass::Any => "true"@,
        SClass::Literal(c) => "chars[pos] == '"@ + spec_escape_rust_char(c) + "'"@,
        SClass::Range(a, b) => "chars[pos] >= '"@ + spec_escape_rust_char(a) + "' && chars[pos] <= '"@
            + spec_escape_rust_char(b) + "'"@,
        SClass::Class(items) => "("@ + spec_item_checks(items) + ")"@,
        SClass::NegatedClass(items) => "!("@ + spec_item_checks(items) + ")"@,
    }
}

/// The lines that advance to `target` after a match.
pub open spec fn spec_advance(target: nat) -> Seq<char> {
    "        pos += 1;\n"@ + "        state = "@ + decimal(target) + ";\n"@ + "        continue;\n"@ + "    }\n"@
}

/// The code of one instruction.
pub open spec fn spec_instr_code(instr: SInstr) -> Seq<char> {
    match instr {
        SInstr::Start => "    // Start state\n"@,
        SInstr::Accept => "    return true;\n"@,
        SInstr::Fail => "    return false;\n"@,
        SInstr::MatchChar(c, t) => "    if pos < chars.len() && chars[pos] == '"@ + spec_escape_rust_char(c) + "' {\n"@
            + spec_advance(t),
        SInstr::MatchClass(cls, t) => "    if pos < chars.len() && "@ + spec_class_check(cls) + " {\n"@ + spec_advance(t),
        SInstr::MatchAny(t) => "    if pos < chars.len() {\n"@ + spec_advance(t),
        SInstr::Jump(t) => "    state = "@ + decimal(t) + ";\n"@ + "    continue;\n"@,
    }
}

/// The code of the instructions, each preceded by a `// State i` comment.
pub open spec fn spec_instrs_code(instrs: Seq<SInstr>) -> Seq<char>
    decreases instrs.len(),
{
    if instrs.len() == 0 {
        Seq::empty()
    } else {
        spec_instrs_code(instrs.drop_last()) + "    // State "@ + decimal((instrs.len() - 1) as nat) + "\n"@
            + spec_instr_code(instrs.last())
    }
}

pub const BYTECODE_HEADER: &'static str = "// DFA-based matcher generated from compiled regex\n\n#[allow(dead_code)]\npub fn is_match(input: &str) -> bool {\n    let chars: Vec<char> = input.chars().collect();\n    let mut pos = 0;\n    let mut state = 0;\n\n";

/// The Rust matcher for a bytecode program.
pub open spec fn spec_rust_bytecode(instrs: Seq<SInstr>) -> Seq<char> {
    BYTECODE_HEADER@ + spec_instrs_code(instrs) + "}\n"@
}

pub open spec fn spec_generate_from_bytecode(target: Target, instrs: Seq<SInstr>) -> Seq<char> {
    match target {
        Target::Rust => spec_rust_bytecode(instrs),
        Target::JavaScript => "// JavaScript bytecode generator coming soon\n"@,
        Target::Python => "# Python bytecode generator coming soon\n"@,
    }
}

proof fn lemma_instrs_view_len(v: Seq<BytecodeInstr>)
    ensures
        instrs_view(v).len() == v.len(),
    decreases v.len(),
{
    if v.len() > 0 {
        lemma_instrs_view_len(v.drop_last());
    }
}

fn write_escape_rust_char(out: &mut String, c: char)
    ensures
        final(out)@ == old(out)@ + spec_escape_rust_char(c),
{
    match c {
        '\'' => push_str(out, "\\'"),
        '\\' => push_str(out, "\\\\"),
        '\n' => push_str(out, "\\n"),
        '\r' => push_str(out, "\\r"),
        '\t' => push_str(out, "\\t"),
        _ => push_char(out, c),
    }
}

fn write_item_check(out: &mut String, item: &CharClassItem)
    ensures
        final(out)@ == old(out)@ + spec_item_check(*item),
{
    match item {
        CharClassItem::Literal(c) => {
            push_str(out, "chars[pos] == '");
            write_escape_rust_char(out, *c);
            push_str(out, "'");
        },
        CharClassItem::Range(a, b) => {
            push_str(out, "chars[pos] >= '");
            write_escape_rust_char(out, *a);
            push_str(out, "' && chars[pos] <= '");
            write_escape_rust_char(out, *b);
            push_str(out, "'");
        },
        CharClassItem::Digit => push_str(out, "chars[pos].is_ascii_digit()"),
        CharClassItem::Word => push_str(out, "chars[pos].is_ascii_alphanumeric() || chars[pos] == '_'"),
        CharClassItem::Whitespace => push_str(out, "chars[pos].is_whitespace()"),
        CharClassItem::NegatedDigit => push_str(out, "!chars[pos].is_ascii_digit()"),
        CharClassItem::NegatedWord => push_str(out, "!(chars[pos].is_ascii_alphanumeric() || chars[pos] == '_')"),
        CharClassItem::NegatedWhitespace => push_str(out, "!chars[pos].is_whitespace()"),
    }
    assert(final(out)@ =~= old(out)@ + spec_item_check(*item));
}

fn write_item_checks(out: &mut String, items: &Vec<CharClassItem>)
    ensures
        final(out)@ == old(out)@ + spec_item_checks(items@),
{
    let ghost start = out@;
    let mut i: usize = 0;
    assert(start + spec_item_checks(items@.take(0)) =~= start);
    while i < items.len()
        invariant
            i <= items.len(),
            out@ == start + spec_item_checks(items@.take(i as int)),
        decreases items.len() - i,
    {
        if i > 0 {
            push_str(out, " || ");
        }
        write_item_check(out, &items[i]);
        assert(items@.take(i + 1).drop_last() =~= items@.take(i as int));
        assert(out@ =~= start + spec_item_checks(items@.take(i + 1)));
        i += 1;
    }
    assert(items@.take(items.len() as int) =~= items@);
}

fn write_advance(out: &mut String, target: usize)
    ensures
        final(out)@ == old(out)@ + spec_advance(target as nat),
{
    push_str(out, "        pos += 1;\n");
    push_str(out, "        state = ");
    push_decimal(out, target as u64);
    push_str(out, ";\n");
    push_str(out, "        continue;\n");
    push_str(out, "    }\n");
    assert(final(out)@ =~= old(out)@ + spec_advance(target as nat));
}

impl CodeGenerator {
    /// A program in the target language that runs a bytecode program.
    pub fn generate_from_bytecode(&self, bytecode: &[BytecodeInstr]) -> (r: String)
        ensures
            r@ == spec_generate_from_bytecode(self.language(), instrs_view(bytecode@)),
    {
        match self.target {
            Target::Rust => self.generate_rust_bytecode(bytecode),
            Target::JavaScript => self.generate_javascript_bytecode(bytecode),
            Target::Python => self.generate_python_bytecode(bytecode),
        }
    }

    fn class_to_rust_check(&self, out: &mut String, cls: &CharClass)
        ensures
            final(out)@ == old(out)@ + spec_class_check(cls@),
    {
        match cls {
            CharClass::Digit => push_str(out, "chars[pos].is_ascii_digit()"),
            CharClass::Word => push_str(out, "chars[pos].is_ascii_alphanumeric() || chars[pos] == '_'"),
            CharClass::Whitespace => push_str(out, "chars[pos].is_whitespace()"),
            CharClass::NegatedDigit => push_str(out, "!chars[pos].is_ascii_digit()"),
            CharClass::NegatedWord => push_str(out, "!(chars[pos].is_ascii_alphanumeric() || chars[pos] == '_')"),
            CharClass::NegatedWhitespace => push_str(out, "!chars[pos].is_whitespace()"),
            CharClass::Any => push_str(out, "true"),
            CharClass::Literal(c) => {
                push_str(out, "chars[pos] == '");
                write_escape_rust_char(out, *c);
                push_str(out, "'");
            },
            CharClass::Range(a, b) => {
                push_str(out, "chars[pos] >= '");
                write_escape_rust_char(out, *a);
                push_str(out, "' && chars[pos] <= '");
                write_escape_rust_char(out, *b);
                push_str(out, "'");
            },
            CharClass::Class(items) => {
                push_str(out, "(");
                write_item_checks(out, items);
                push_str(out, ")");
            },
            CharClass::NegatedClass(items) => {
                push_str(out, "!(");
                write_item_checks(out, items);
                push_str(out, ")");
            },
        }
        assert(final(out)@ =~= old(out)@ + spec_class_check(cls@));
    }

    fn write_instr(&self, out: &mut String, instr: &BytecodeInstr)
        ensures
            final(out)@ == old(out)@ + spec_instr_code(instr@),
    {
        match instr {
            BytecodeInstr::Start => push_str(out, "    // Start state\n"),
            BytecodeInstr::Accept => push_str(out, "    return true;\n"),
            BytecodeInstr::Fail => push_str(out, "    return false;\n"),
            BytecodeInstr::MatchChar(c, target) => {
                push_str(out, "    if pos < chars.len() && chars[pos] == '");
                write_escape_rust_char(out, *c);
                push_str(out, "' {\n");
                write_advance(out, *target);
            },
            BytecodeInstr::MatchClass(cls, target) => {
                push_str(out, "    if pos < chars.len() && ");
                self.class_to_rust_check(out, cls);
                push_str(out, " {\n");
                write_advance(out, *target);
            },
            BytecodeInstr::MatchAny(target) => {
                push_str(out, "    if pos < chars.len() {\n");
                write_advance(out, *target);
            },
            BytecodeInstr::Jump(target) => {
                push_str(out, "    state = ");
                push_decimal(out, *target as u64);
                push_str(out, ";\n");
                push_str(out, "    continue;\n");
            },
        }
        assert(final(out)@ =~= old(out)@ + spec_instr_code(instr@));
    }

    fn generate_rust_bytecode(&self, bytecode: &[BytecodeInstr]) -> (r: String)
        ensures
            r@ == spec_rust_bytecode(instrs_view(bytecode@)),
    {
        let ghost vs = instrs_view(bytecode@);
        let mut code = String::new();
        push_str(&mut code, BYTECODE_HEADER);
        let ghost start = code@;
        let mut i: usize = 0;
        assert(start + spec_instrs_code(instrs_view(bytecode@.take(0))) =~= start);
        while i < bytecode.len()
            invariant
                i <= bytecode.len(),
                code@ == start + spec_instrs_code(instrs_view(bytecode@.take(i as int))),
            decreases bytecode.len() - i,
        {
            push_str(&mut code, "    // State ");
            push_decimal(&mut code, i as u64);
            push_str(&mut code, "\n");
            self.write_instr(&mut code, &bytecode[i]);
            proof {
                let pre = instrs_view(bytecode@.take(i as int));
                assert(bytecode@.take(i + 1).drop_last() =~= bytecode@.take(i as int));
                assert(bytecode@.take(i + 1).last() == bytecode@[i as int]);
                lemma_instrs_view_len(bytecode@.take(i as int));
                let post = instrs_view(bytecode@.take(i + 1));
                assert(post == pre.push(bytecode@[i as int]@));
                assert(post.drop_last() =~= pre);
                assert(code@ =~= start + spec_instrs_code(post));
            }
            i += 1;
        }
        assert(bytecode@.take(bytecode.len() as int) =~= bytecode@);
        push_str(&mut code, "}\n");
        assert(code@ =~= spec_rust_bytecode(instrs_view(bytecode@)));
        code
    }

    fn generate_javascript_bytecode(&self, _bytecode: &[BytecodeInstr]) -> (r: String)
        ensures
            r@ == "// JavaScript bytecode generator coming soon\n"@,
    {
        let mut out = String::new();
        push_str(&mut out, "// JavaScript bytecode generator coming soon\n");
        out
    }

    fn generate_python_bytecode(&self, _bytecode: &[BytecodeInstr]) -> (r: String)
        ensures
            r@ == "# Python bytecode generator coming soon\n"@,
    {
        let mut out = String::new();
        push_str(&mut out, "# Python bytecode generator coming soon\n");
        out
    }
}

} // verus!
