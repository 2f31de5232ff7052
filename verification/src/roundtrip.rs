//! Printing an expression and parsing the text back.
use vstd::prelude::*;
use crate::ast::{SExpr, SClass, CharClassItem, Anchor};
use crate::parser::{
    spec_parse, spec_parse_from, spec_alternation, spec_alternation_rest, spec_concat, spec_concat_items,
    spec_repetition, spec_quantifier, spec_atom, spec_escape, spec_escape_named, spec_expect, spec_class,
    spec_class_items, spec_class_item, peek_at, concat_of, alternation_of, spec_is_meta_char,
};
use crate::regex_text::{spec_expr_text, spec_escape_literal, spec_class_text, spec_anchor_text, is_literal_meta};
use crate::text::is_digit;

verus! {

/// When the atom at the start of `s` takes up the whole text, parsing `s` gives that atom.
proof fn lemma_parse_whole_atom(s: Seq<char>, e: SExpr, g: int)
    requires
        s.len() > 0,
        s[0] != '|',
        s[0] != ')',
        spec_atom(s, 0, 0) == Ok::<(SExpr, int, int), crate::parser::PErr>((e, s.len() as int, g)),
    ensures
        spec_parse(s) == Ok::<SExpr, crate::parser::PErr>(e),
{
    let n = s.len() as int;
    assert(peek_at(s, n) is None);
    assert(spec_quantifier(s, n, e) == Ok::<(SExpr, int), crate::parser::PErr>((e, n)));
    assert(spec_repetition(s, 0, 0) == Ok::<(SExpr, int, int), crate::parser::PErr>((e, n, g)));
    assert(Seq::<SExpr>::empty().push(e) =~= seq![e]);
    assert(spec_concat_items(s, n, g, seq![e]) == Ok::<(Seq<SExpr>, int, int), crate::parser::PErr>((seq![e], n, g)));
    assert(spec_concat_items(s, 0, 0, Seq::empty()) == Ok::<(Seq<SExpr>, int, int), crate::parser::PErr>((seq![e], n, g)));
    assert(concat_of(seq![e]) == e);
    assert(spec_concat(s, 0, 0) == Ok::<(SExpr, int, int), crate::parser::PErr>((e, n, g)));
    assert(spec_alternation_rest(s, n, g, seq![e]) == Ok::<(Seq<SExpr>, int, int), crate::parser::PErr>((seq![e], n, g)));
    assert(alternation_of(seq![e]) == e);
    assert(spec_alternation(s, 0, 0) == Ok::<(SExpr, int, int), crate::parser::PErr>((e, n, g)));
    assert(spec_parse_from(s, 0, 0) == Ok::<SExpr, crate::parser::PErr>(e));
}

/// Printing a literal character and parsing the text back gives the same literal, for
/// every character but a newline, a carriage return and a tab (those print as the escapes
/// `\n`, `\r`, `\t`, which the parser reads as the letters `n`, `r`, `t`).
/// Metacharacters, `+` among them, thus print with a backslash in front.
pub proof fn law_print_parse_literal(c: char)
    requires
        c != '\n',
        c != '\r',
        c != '\t',
    ensures
        spec_parse(spec_expr_text(SExpr::Literal(c), 0)) == Ok::<SExpr, crate::parser::PErr>(SExpr::Literal(c)),
        is_literal_meta(c) ==> spec_expr_text(SExpr::Literal(c), 0) == seq!['\\', c],
{
    let s = spec_expr_text(SExpr::Literal(c), 0);
    assert(s == spec_escape_literal(c));
    if is_literal_meta(c) {
        assert(s =~= seq!['\\', c]);
        assert(spec_escape_named(c) is None);
        assert(!is_digit(c));
        assert(spec_expect(s, 0, '\\') == Ok::<int, crate::parser::PErr>(1));
        assert(spec_escape(s, 0, 0) == Ok::<(SExpr, int, int), crate::parser::PErr>((SExpr::Literal(c), 2, 0)));
        assert(spec_atom(s, 0, 0) == Ok::<(SExpr, int, int), crate::parser::PErr>((SExpr::Literal(c), 2, 0)));
        lemma_parse_whole_atom(s, SExpr::Literal(c), 0);
    } else {
        assert(s =~= seq![c]);
        assert(!spec_is_meta_char(c));
        assert(spec_atom(s, 0, 0) == Ok::<(SExpr, int, int), crate::parser::PErr>((SExpr::Literal(c), 1, 0)));
        lemma_parse_whole_atom(s, SExpr::Literal(c), 0);
    }
}


/// The one-character escape `\c` followed by nothing: parsing it gives the class or anchor
/// that the letter names.
proof fn lemma_parse_named_escape(c: char, e: SExpr)
    requires
        spec_escape_named(c) == Some(e),
    ensures
        spec_parse(seq!['\\', c]) == Ok::<SExpr, crate::parser::PErr>(e),
{
    let s = seq!['\\', c];
    assert(spec_expect(s, 0, '\\') == Ok::<int, crate::parser::PErr>(1));
    assert(spec_escape(s, 0, 0) == Ok::<(SExpr, int, int), crate::parser::PErr>((e, 2, 0)));
    assert(spec_atom(s, 0, 0) == Ok::<(SExpr, int, int), crate::parser::PErr>((e, 2, 0)));
    lemma_parse_whole_atom(s, e, 0);
}

/// The predefined classes and the any-character class, each a single atom.
pub open spec fn is_named_class(k: SClass) -> bool {
    ||| k is Any
    ||| k is Digit
    ||| k is Word
    ||| k is Whitespace
    ||| k is NegatedDigit
    ||| k is NegatedWord
    ||| k is NegatedWhitespace
}

/// Printing a predefined class (`\d`, `\w`, `\s` and their negations `\D`, `\W`, `\S`) or
/// the any-character class (`.`) and parsing the text back gives the same class: in
/// particular `\s` parses to the whitespace class and `\S` to its negation.
pub proof fn law_print_parse_named_class(k: SClass)
    requires
        is_named_class(k),
    ensures
        spec_parse(spec_expr_text(SExpr::Class(k), 0)) == Ok::<SExpr, crate::parser::PErr>(SExpr::Class(k)),
{
    let s = spec_expr_text(SExpr::Class(k), 0);
    assert(s == spec_class_text(k));
    reveal_strlit(".");
    reveal_strlit("\\d");
    reveal_strlit("\\w");
    reveal_strlit("\\s");
    reveal_strlit("\\D");
    reveal_strlit("\\W");
    reveal_strlit("\\S");
    if k is Any {
        assert(s =~= seq!['.']);
        assert(spec_atom(s, 0, 0) == Ok::<(SExpr, int, int), crate::parser::PErr>((SExpr::Class(k), 1, 0)));
        lemma_parse_whole_atom(s, SExpr::Class(k), 0);
    } else {
        let c = s[1];
        assert(s =~= seq!['\\', c]);
        assert(spec_escape_named(c) == Some(SExpr::Class(k)));
        lemma_parse_named_escape(c, SExpr::Class(k));
    }
}

/// Printing an anchor and parsing the text back gives the same anchor.
pub proof fn law_print_parse_anchor(a: Anchor)
    ensures
        spec_parse(spec_expr_text(SExpr::Anchor(a), 0)) == Ok::<SExpr, crate::parser::PErr>(SExpr::Anchor(a)),
{
    let s = spec_expr_text(SExpr::Anchor(a), 0);
    assert(s == spec_anchor_text(a));
    reveal_strlit("^");
    reveal_strlit("$");
    reveal_strlit("\\A");
    reveal_strlit("\\z");
    reveal_strlit("\\b");
    reveal_strlit("\\B");
    if a is StartOfLine || a is EndOfLine {
        assert(s =~= seq![s[0]]);
        assert(spec_atom(s, 0, 0) == Ok::<(SExpr, int, int), crate::parser::PErr>((SExpr::Anchor(a), 1, 0)));
        lemma_parse_whole_atom(s, SExpr::Anchor(a), 0);
    } else {
        let c = s[1];
        assert(s =~= seq!['\\', c]);
        assert(spec_escape_named(c) == Some(SExpr::Anchor(a)));
        lemma_parse_named_escape(c, SExpr::Anchor(a));
    }
}

/// The class that a class item stands for when it is written outside brackets.
pub open spec fn item_as_class(i: CharClassItem) -> SClass {
    match i {
        CharClassItem::Literal(c) => SClass::Literal(c),
        CharClassItem::Range(a, b) => SClass::Range(a, b),
        CharClassItem::Digit => SClass::Digit,
        CharClassItem::Word => SClass::Word,
        CharClassItem::Whitespace => SClass::Whitespace,
        CharClassItem::NegatedDigit => SClass::NegatedDigit,
        CharClassItem::NegatedWord => SClass::NegatedWord,
        CharClassItem::NegatedWhitespace => SClass::NegatedWhitespace,
    }
}

/// A class escape means the same outside and inside brackets: for each of the letters
/// `d`, `D`, `w`, `W`, `s`, `S`, the bracketed class `[\x]` parses to a class of one item,
/// and the bare escape `\x` parses to the class that this item stands for.
pub proof fn law_escape_agrees_with_class_item(c: char)
    requires
        c == 'd' || c == 'D' || c == 'w' || c == 'W' || c == 's' || c == 'S',
    ensures
        spec_parse(seq!['[', '\\', c, ']']) matches Ok(SExpr::Class(SClass::Class(items)))
            && items.len() == 1
            && spec_parse(seq!['\\', c]) == Ok::<SExpr, crate::parser::PErr>(SExpr::Class(item_as_class(items[0]))),
{
    let s = seq!['[', '\\', c, ']'];
    let r = spec_class_item(s, 1);
    assert(r is Ok);
    let item = r->Ok_0.0;
    assert(r == Ok::<(CharClassItem, int), crate::parser::PErr>((item, 3)));
    assert(Seq::<CharClassItem>::empty().push(item) =~= seq![item]);
    assert(spec_class_items(s, 3, seq![item]) == Ok::<(Seq<CharClassItem>, int), crate::parser::PErr>((seq![item], 3)));
    assert(spec_class_items(s, 1, Seq::empty()) == Ok::<(Seq<CharClassItem>, int), crate::parser::PErr>((seq![item], 3)));
    assert(spec_expect(s, 0, '[') == Ok::<int, crate::parser::PErr>(1));
    assert(spec_expect(s, 3, ']') == Ok::<int, crate::parser::PErr>(4));
    let e = SExpr::Class(SClass::Class(seq![item]));
    assert(spec_class(s, 0, 0) == Ok::<(SExpr, int, int), crate::parser::PErr>((e, 4, 0)));
    assert(spec_atom(s, 0, 0) == Ok::<(SExpr, int, int), crate::parser::PErr>((e, 4, 0)));
    lemma_parse_whole_atom(s, e, 0);
    assert(spec_escape_named(c) == Some(SExpr::Class(item_as_class(item))));
    lemma_parse_named_escape(c, SExpr::Class(item_as_class(item)));
}

} // verus!
