//! Printing a syntax tree back as regular-expression text.
use vstd::prelude::*;
use crate::ast::{Expr, SExpr, CharClass, SClass, CharClassItem, Anchor, RepetitionKind, GroupKind, spec_precedence, view_seq};
use crate::text::{push_char, push_str, push_decimal, decimal};

verus! {

/// Metacharacters that a literal must escape with a backslash.
pub open spec fn is_literal_meta(c: char) -> bool {
    c == '.' || c == '^' || c == '$' || c == '*' || c == '+' || c == '?' || c == '(' || c == ')'
        || c == '|' || c == '[' || c == ']' || c == '{' || c == '}' || c == '\\'
}

/// The text of a literal character outside a class.
pub open spec fn spec_escape_literal(c: char) -> Seq<char> {
    if is_literal_meta(c) {
        seq!['\\', c]
    } else if c == '\n' {
        "\\n"@
    } else if c == '\r' {
        "\\r"@
    } else if c == '\t' {
        "\\t"@
    } else {
        seq![c]
    }
}

/// The text of a literal character inside a class.
pub open spec fn spec_escape_class_char(c: char) -> Seq<char> {
    if c == ']' || c == '^' || c == '-' || c == '\\' {
        seq!['\\', c]
    } else if c == '\n' {
        "\\n"@
    } else if c == '\r' {
        "\\r"@
    } else if c == '\t' {
        "\\t"@
    } else {
        seq![c]
    }
}

pub open spec fn spec_anchor_text(a: Anchor) -> Seq<char> {
    match a {
        Anchor::StartOfLine => "^"@,
        Anchor::EndOfLine => "$"@,
        Anchor::StartOfString => "\\A"@,
        Anchor::EndOfString => "\\z"@,
        Anchor::WordBoundary => "\\b"@,
        Anchor::NonWordBoundary => "\\B"@,
    }
}

pub open spec fn spec_class_item_text(item: CharClassItem) -> Seq<char> {
    match item {
        CharClassItem::Literal(c) => spec_escape_class_char(c),
        CharClassItem::Range(a, b) => seq![a, '-', b],
        CharClassItem::Digit => "\\d"@,
        CharClassItem::Word => "\\w"@,
        CharClassItem::Whitespace => "\\s"@,
        CharClassItem::NegatedDigit => "\\D"@,
        CharClassItem::NegatedWord => "\\W"@,
        CharClassItem::NegatedWhitespace => "\\S"@,
    }
}

/// The items of a class, printed one after the other.
pub open spec fn spec_class_items_text(items: Seq<CharClassItem>) -> Seq<char>
    decreases items.len(),
{
    if items.len() == 0 {
        Seq::empty()
    } else {
        spec_class_items_text(items.drop_last()) + spec_class_item_text(items.last())
    }
}

pub open spec fn spec_class_text(cls: SClass) -> Seq<char> {
    match cls {
        SClass::Literal(c) => spec_escape_literal(c),
        SClass::Range(a, b) => seq!['[', a, '-', b, ']'],
        SClass::Any => "."@,
        SClass::Digit => "\\d"@,
        SClass::Word => "\\w"@,
        SClass::Whitespace => "\\s"@,
        SClass::NegatedDigit => "\\D"@,
        SClass::NegatedWord => "\\W"@,
        SClass::NegatedWhitespace => "\\S"@,
        SClass::Class(items) => "["@ + spec_class_items_text(items) + "]"@,
        SClass::NegatedClass(items) => "[^"@ + spec_class_items_text(items) + "]"@,
    }
}

/// The quantifier suffix of a repetition, without the lazy marker.
pub open spec fn spec_repetition_suffix(kind: RepetitionKind) -> Seq<char> {
    match kind {
        RepetitionKind::ZeroOrMore => "*"@,
        RepetitionKind::OneOrMore => "+"@,
        RepetitionKind::ZeroOrOne => "?"@,
        RepetitionKind::Exactly(n) => "{"@ + decimal(n as nat) + "}"@,
        RepetitionKind::AtLeast(n) => "{"@ + decimal(n as nat) + ",}"@,
        RepetitionKind::Range(a, b) => "{"@ + decimal(a as nat) + ","@ + decimal(b as nat) + "}"@,
    }
}

/// The opening bracket of a group of the given kind.
pub open spec fn spec_group_open(kind: GroupKind) -> Seq<char> {
    match kind {
        GroupKind::Capturing(_) => "("@,
        GroupKind::NonCapturing => "(?:"@,
        GroupKind::Lookahead(true) => "(?="@,
        GroupKind::Lookahead(false) => "(?!"@,
        GroupKind::Lookbehind(true) => "(?<="@,
        GroupKind::Lookbehind(false) => "(?<!"@,
        GroupKind::Atomic => "(?>"@,
    }
}

pub open spec fn spec_group_text(kind: GroupKind, inner: Seq<char>) -> Seq<char> {
    spec_group_open(kind) + inner + ")"@
}

/// The text of an expression printed inside a context of binding strength `outer`:
/// it is wrapped in a non-capturing group when it binds more loosely than the context.
pub open spec fn spec_expr_text(e: SExpr, outer: u8) -> Seq<char>
    decreases e,
{
    let prec = spec_precedence(e);
    let inner = match e {
        SExpr::Empty => Seq::empty(),
        SExpr::Literal(c) => spec_escape_literal(c),
        SExpr::Class(cls) => spec_class_text(cls),
        SExpr::Anchor(a) => spec_anchor_text(a),
        SExpr::Concat(items) => spec_concat_text(items, prec),
        SExpr::Alternation(items) => spec_alternation_text(items, prec),
        SExpr::Repetition { expr, kind, greedy } =>
            spec_expr_text(*expr, prec) + spec_repetition_suffix(kind) + (if greedy { Seq::empty() } else { "?"@ }),
        SExpr::Group { expr, kind } => spec_group_text(kind, spec_expr_text(*expr, 0)),
        SExpr::Backreference(n) => "\\"@ + decimal(n as nat),
    };
    if prec < outer {
        "(?:"@ + inner + ")"@
    } else {
        inner
    }
}

/// The items printed one after the other.
pub open spec fn spec_concat_text(items: Seq<SExpr>, prec: u8) -> Seq<char>
    decreases items,
{
    if items.len() == 0 {
        Seq::empty()
    } else {
        spec_concat_text(items.drop_last(), prec) + spec_expr_text(items.last(), prec)
    }
}

/// The items printed with `|` between them.
pub open spec fn spec_alternation_text(items: Seq<SExpr>, prec: u8) -> Seq<char>
    decreases items,
{
    if items.len() == 0 {
        Seq::empty()
    } else if items.len() == 1 {
        spec_expr_text(items[0], prec)
    } else {
        spec_alternation_text(items.drop_last(), prec) + "|"@ + spec_expr_text(items.last(), prec)
    }
}

pub fn write_escape_literal(out: &mut String, c: char)
    ensures
        final(out)@ == old(out)@ + spec_escape_literal(c),
{
    match c {
        '.' | '^' | '$' | '*' | '+' | '?' | '(' | ')' | '|' | '[' | ']' | '{' | '}' | '\\' => {
            push_char(out, '\\');
            push_char(out, c);
        },
        '\n' => push_str(out, "\\n"),
        '\r' => push_str(out, "\\r"),
        '\t' => push_str(out, "\\t"),
        _ => push_char(out, c),
    }
    assert(final(out)@ == old(out)@ + spec_escape_literal(c));
}

pub fn write_escape_class_char(out: &mut String, c: char)
    ensures
        final(out)@ == old(out)@ + spec_escape_class_char(c),
{
    match c {
        ']' | '^' | '-' | '\\' => {
            push_char(out, '\\');
            push_char(out, c);
        },
        '\n' => push_str(out, "\\n"),
        '\r' => push_str(out, "\\r"),
        '\t' => push_str(out, "\\t"),
        _ => push_char(out, c),
    }
    assert(final(out)@ == old(out)@ + spec_escape_class_char(c));
}

pub fn write_anchor(out: &mut String, a: &Anchor)
    ensures
        final(out)@ == old(out)@ + spec_anchor_text(*a),
{
    match a {
        Anchor::StartOfLine => push_str(out, "^"),
        Anchor::EndOfLine => push_str(out, "$"),
        Anchor::StartOfString => push_str(out, "\\A"),
        Anchor::EndOfString => push_str(out, "\\z"),
        Anchor::WordBoundary => push_str(out, "\\b"),
        Anchor::NonWordBoundary => push_str(out, "\\B"),
    }
}

pub fn write_class_item(out: &mut String, item: &CharClassItem)
    ensures
        final(out)@ == old(out)@ + spec_class_item_text(*item),
{
    match item {
        CharClassItem::Literal(c) => write_escape_class_char(out, *c),
        CharClassItem::Range(a, b) => {
            push_char(out, *a);
            push_char(out, '-');
            push_char(out, *b);
            assert(final(out)@ == old(out)@ + seq![*a, '-', *b]);
        },
        CharClassItem::Digit => push_str(out, "\\d"),
        CharClassItem::Word => push_str(out, "\\w"),
        CharClassItem::Whitespace => push_str(out, "\\s"),
        CharClassItem::NegatedDigit => push_str(out, "\\D"),
        CharClassItem::NegatedWord => push_str(out, "\\W"),
        CharClassItem::NegatedWhitespace => push_str(out, "\\S"),
    }
}

pub fn write_class_items(out: &mut String, items: &Vec<CharClassItem>)
    ensures
        final(out)@ == old(out)@ + spec_class_items_text(items@),
{
    let ghost start = out@;
    let mut i: usize = 0;
    while i < items.len()
        invariant
            i <= items.len(),
            out@ == start + spec_class_items_text(items@.take(i as int)),
        decreases items.len() - i,
    {
        write_class_item(out, &items[i]);
        assert(items@.take(i + 1).drop_last() == items@.take(i as int));
        i += 1;
    }
    assert(items@.take(items.len() as int) == items@);
}

pub fn write_class(out: &mut String, cls: &CharClass)
    ensures
        final(out)@ == old(out)@ + spec_class_text(cls@),
{
    match cls {
        CharClass::Literal(c) => write_escape_literal(out, *c),
        CharClass::Range(a, b) => {
            push_char(out, '[');
            push_char(out, *a);
            push_char(out, '-');
            push_char(out, *b);
            push_char(out, ']');
            assert(final(out)@ == old(out)@ + seq!['[', *a, '-', *b, ']']);
        },
        CharClass::Any => push_str(out, "."),
        CharClass::Digit => push_str(out, "\\d"),
        CharClass::Word => push_str(out, "\\w"),
        CharClass::Whitespace => push_str(out, "\\s"),
        CharClass::NegatedDigit => push_str(out, "\\D"),
        CharClass::NegatedWord => push_str(out, "\\W"),
        CharClass::NegatedWhitespace => push_str(out, "\\S"),
        CharClass::Class(items) => {
            push_str(out, "[");
            write_class_items(out, items);
            push_str(out, "]");
        },
        CharClass::NegatedClass(items) => {
            push_str(out, "[^");
            write_class_items(out, items);
            push_str(out, "]");
        },
    }
}

pub fn write_repetition_suffix(out: &mut String, kind: &RepetitionKind)
    ensures
        final(out)@ == old(out)@ + spec_repetition_suffix(*kind),
{
    match kind {
        RepetitionKind::ZeroOrMore => push_str(out, "*"),
        RepetitionKind::OneOrMore => push_str(out, "+"),
        RepetitionKind::ZeroOrOne => push_str(out, "?"),
        RepetitionKind::Exactly(n) => {
            push_str(out, "{");
            push_decimal(out, *n as u64);
            push_str(out, "}");
        },
        RepetitionKind::AtLeast(n) => {
            push_str(out, "{");
            push_decimal(out, *n as u64);
            push_str(out, ",}");
        },
        RepetitionKind::Range(a, b) => {
            push_str(out, "{");
            push_decimal(out, *a as u64);
            push_str(out, ",");
            push_decimal(out, *b as u64);
            push_str(out, "}");
        },
    }
}

/// Appends the items' texts one after the other.
pub fn write_concat(out: &mut String, items: &Vec<Expr>, prec: u8)
    ensures
        final(out)@ == old(out)@ + spec_concat_text(view_seq(items@), prec),
    decreases items,
{
    let ghost vs = view_seq(items@);
    let ghost start = out@;
    let mut i: usize = 0;
    while i < items.len()
        invariant
            i <= items.len(),
            vs == view_seq(items@),
            out@ == start + spec_concat_text(vs.take(i as int), prec),
        decreases items.len() - i,
    {
        proof {
            assert(decreases_to!(items => items@[i as int]));
        }
        write_expr(out, &items[i], prec);
        assert(vs.take(i + 1).drop_last() == vs.take(i as int));
        i += 1;
    }
    assert(vs.take(items.len() as int) == vs);
}

/// Appends the items' texts with `|` between them.
pub fn write_alternation(out: &mut String, items: &Vec<Expr>, prec: u8)
    ensures
        final(out)@ == old(out)@ + spec_alternation_text(view_seq(items@), prec),
    decreases items,
{
    let ghost vs = view_seq(items@);
    let ghost start = out@;
    let mut i: usize = 0;
    while i < items.len()
        invariant
            i <= items.len(),
            vs == view_seq(items@),
            out@ == start + spec_alternation_text(vs.take(i as int), prec),
        decreases items.len() - i,
    {
        proof {
            assert(decreases_to!(items => items@[i as int]));
        }
        if i > 0 {
            push_str(out, "|");
        }
        write_expr(out, &items[i], prec);
        assert(vs.take(i + 1).drop_last() == vs.take(i as int));
        i += 1;
    }
    assert(vs.take(items.len() as int) == vs);
}

fn write_group_open(out: &mut String, kind: &GroupKind)
    ensures
        final(out)@ == old(out)@ + spec_group_open(*kind),
{
    match kind {
        GroupKind::Capturing(_) => push_str(out, "("),
        GroupKind::NonCapturing => push_str(out, "(?:"),
        GroupKind::Lookahead(true) => push_str(out, "(?="),
        GroupKind::Lookahead(false) => push_str(out, "(?!"),
        GroupKind::Lookbehind(true) => push_str(out, "(?<="),
        GroupKind::Lookbehind(false) => push_str(out, "(?<!"),
        GroupKind::Atomic => push_str(out, "(?>"),
    }
}

/// Appends the text of `e` in a context of binding strength `outer`.
pub fn write_expr(out: &mut String, e: &Expr, outer: u8)
    ensures
        final(out)@ == old(out)@ + spec_expr_text(e@, outer),
    decreases e,
{
    let prec = e.precedence();
    let needs_parens = prec < outer;
    if needs_parens {
        push_str(out, "(?:");
    }
    let ghost mid = out@;
    match e {
        Expr::Empty => {},
        Expr::Literal(c) => write_escape_literal(out, *c),
        Expr::Class(cls) => write_class(out, cls),
        Expr::Anchor(a) => write_anchor(out, a),
        Expr::Concat(items) => write_concat(out, items, prec),
        Expr::Alternation(items) => write_alternation(out, items, prec),
        Expr::Repetition { expr, kind, greedy } => {
            write_expr(out, expr, prec);
            write_repetition_suffix(out, kind);
            if !*greedy {
                push_str(out, "?");
            }
        },
        Expr::Group { expr, kind } => {
            write_group_open(out, kind);
            write_expr(out, expr, 0);
            push_str(out, ")");
        },
        Expr::Backreference(n) => {
            push_str(out, "\\");
            push_decimal(out, *n as u64);
        },
    }
    if needs_parens {
        push_str(out, ")");
    }
}

} // verus!
