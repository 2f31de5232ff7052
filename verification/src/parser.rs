//! Recursive-descent parsing of regular-expression text into a syntax tree.
use vstd::prelude::*;
use crate::ast::{Expr, SExpr, CharClass, SClass, CharClassItem, Anchor, RepetitionKind, GroupKind, view_seq, lemma_view_seq_push, lemma_literal_view};
use crate::text::{push_char, push_str, push_decimal, decimal, is_digit, chars_of};

verus! {

/// Why parsing stopped.
pub enum PErr {
    /// A syntax error, with its message.
    Msg(Seq<char>),
    /// A count or back-reference number that does not fit in a `u32`.
    Overflow,
    /// More capturing groups than a `u32` counts.
    TooManyGroups,
}

/// Why parsing failed.
#[derive(Debug)]
pub enum ParseError {
    /// A syntax error, with its message.
    Syntax(String),
    /// A count or back-reference number that does not fit in a `u32`.
    NumberTooLarge,
    /// More capturing groups than a `u32` counts.
    TooManyGroups,
}

pub open spec fn err_matches(e: ParseError, pe: PErr) -> bool {
    match pe {
        PErr::Msg(m) => e is Syntax && e->Syntax_0@ == m,
        PErr::Overflow => e is NumberTooLarge,
        PErr::TooManyGroups => e is TooManyGroups,
    }
}

/// Parsing stopped at a number or a group count beyond what a `u32` holds.
pub open spec fn beyond_u32(r: Result<SExpr, PErr>) -> bool {
    ||| r matches Err(PErr::Overflow)
    ||| r matches Err(PErr::TooManyGroups)
}

pub open spec fn peek_at(s: Seq<char>, pos: int) -> Option<char> {
    if 0 <= pos < s.len() {
        Some(s[pos])
    } else {
        None
    }
}

/// Characters that cannot stand for themselves outside a class.
pub open spec fn spec_is_meta_char(c: char) -> bool {
    c == '.' || c == '^' || c == '$' || c == '*' || c == '+' || c == '?' || c == '(' || c == ')'
        || c == '|' || c == '[' || c == '{' || c == '\\'
}

pub open spec fn msg_unexpected_char(c: char, pos: int) -> Seq<char> {
    "Unexpected character '"@ + seq![c] + "' at position "@ + decimal(pos as nat)
}

pub open spec fn msg_expected(c: char, pos: int, found: char) -> Seq<char> {
    "Expected '"@ + seq![c] + "' at position "@ + decimal(pos as nat) + ", found '"@ + seq![found]
        + "'"@
}

pub open spec fn spec_expect(s: Seq<char>, pos: int, c: char) -> Result<int, PErr> {
    match peek_at(s, pos) {
        Some(f) => if f == c {
            Ok(pos + 1)
        } else {
            Err(PErr::Msg(msg_expected(c, pos, f)))
        },
        None => Err(PErr::Msg(msg_expected(c, pos, '\0'))),
    }
}

/// The end of the run of ASCII digits that starts at `pos`.
pub open spec fn digits_end(s: Seq<char>, pos: int) -> int
    decreases s.len() - pos,
{
    if 0 <= pos < s.len() && is_digit(s[pos]) {
        digits_end(s, pos + 1)
    } else {
        pos
    }
}

/// The number that the digits `s[from..to]` denote.
pub open spec fn digits_value(s: Seq<char>, from: int, to: int) -> nat
    decreases to - from,
{
    if to <= from {
        0
    } else {
        digits_value(s, from, to - 1) * 10 + (s[to - 1] as int - '0' as int) as nat
    }
}

/// A decimal number at `pos`: its value and the position after it.
pub open spec fn spec_number(s: Seq<char>, pos: int) -> Result<(u32, int), PErr> {
    let end = digits_end(s, pos);
    if end == pos {
        Err(PErr::Msg("Expected number"@))
    } else if digits_value(s, pos, end) > u32::MAX {
        Err(PErr::Overflow)
    } else {
        Ok((digits_value(s, pos, end) as u32, end))
    }
}

/// The count of a `{..}` quantifier, starting after the `{`.
pub open spec fn spec_repetition_range(s: Seq<char>, pos: int) -> Result<(RepetitionKind, int), PErr> {
    match spec_number(s, pos) {
        Err(e) => Err(e),
        Ok((min, p1)) => {
            if peek_at(s, p1) == Some(',') {
                if peek_at(s, p1 + 1) == Some('}') {
                    Ok((RepetitionKind::AtLeast(min), p1 + 1))
                } else {
                    match spec_number(s, p1 + 1) {
                        Err(e) => Err(e),
                        Ok((max, p2)) => Ok((RepetitionKind::Range(min, max), p2)),
                    }
                }
            } else if peek_at(s, p1) == Some('}') {
                Ok((RepetitionKind::Exactly(min), p1))
            } else {
                Err(PErr::Msg("Expected ',' or '}' in repetition"@))
            }
        },
    }
}

/// The quantifier, if any, that follows an atom `e` ending at `pos`.
pub open spec fn spec_quantifier(s: Seq<char>, pos: int, e: SExpr) -> Result<(SExpr, int), PErr> {
    let simple = if peek_at(s, pos) == Some('*') {
        Some(RepetitionKind::ZeroOrMore)
    } else if peek_at(s, pos) == Some('+') {
        Some(RepetitionKind::OneOrMore)
    } else if peek_at(s, pos) == Some('?') {
        Some(RepetitionKind::ZeroOrOne)
    } else {
        None
    };
    match simple {
        Some(kind) => {
            let greedy = peek_at(s, pos + 1) != Some('?');
            Ok((SExpr::Repetition { expr: Box::new(e), kind, greedy }, if greedy { pos + 1 } else { pos + 2 }))
        },
        None => if peek_at(s, pos) == Some('{') {
            match spec_repetition_range(s, pos + 1) {
                Err(err) => Err(err),
                Ok((kind, p2)) => match spec_expect(s, p2, '}') {
                    Err(err) => Err(err),
                    Ok(p3) => {
                        let greedy = peek_at(s, p3) != Some('?');
                        Ok((SExpr::Repetition { expr: Box::new(e), kind, greedy }, if greedy { p3 } else { p3 + 1 }))
                    },
                },
            }
        } else {
            Ok((e, pos))
        },
    }
}

/// One item of a bracketed class at `pos`.
pub open spec fn spec_class_item(s: Seq<char>, pos: int) -> Result<(CharClassItem, int), PErr> {
    match peek_at(s, pos) {
        None => Err(PErr::Msg("Unexpected end of input in character class"@)),
        Some(c) => if c == '\\' {
            match peek_at(s, pos + 1) {
                None => Err(PErr::Msg("Unexpected end of input in character class"@)),
                Some(d) => Ok((
                    if d == 'd' {
                        CharClassItem::Digit
                    } else if d == 'D' {
                        CharClassItem::NegatedDigit
                    } else if d == 'w' {
                        CharClassItem::Word
                    } else if d == 'W' {
                        CharClassItem::NegatedWord
                    } else if d == 's' {
                        CharClassItem::Whitespace
                    } else if d == 'S' {
                        CharClassItem::NegatedWhitespace
                    } else {
                        CharClassItem::Literal(d)
                    },
                    pos + 2,
                )),
            }
        } else if peek_at(s, pos + 1) == Some('-') {
            match peek_at(s, pos + 2) {
                Some(end) => if end != ']' {
                    Ok((CharClassItem::Range(c, end), pos + 3))
                } else {
                    Ok((CharClassItem::Literal(c), pos + 2))
                },
                None => Ok((CharClassItem::Literal(c), pos + 2)),
            }
        } else {
            Ok((CharClassItem::Literal(c), pos + 1))
        },
    }
}

/// The items of a bracketed class from `pos` on, appended to `acc`: items are read until
/// the input ends or a `]` that is not the first item.
pub open spec fn spec_class_items(s: Seq<char>, pos: int, acc: Seq<CharClassItem>) -> Result<(Seq<CharClassItem>, int), PErr>
    decreases s.len() - pos,
{
    match peek_at(s, pos) {
        None => Ok((acc, pos)),
        Some(c) => if c == ']' && acc.len() > 0 {
            Ok((acc, pos))
        } else {
            match spec_class_item(s, pos) {
                Err(e) => Err(e),
                Ok((item, p1)) => spec_class_items(s, p1, acc.push(item)),
            }
        },
    }
}

/// A bracketed class at `pos`.
pub open spec fn spec_class(s: Seq<char>, pos: int, gc: int) -> Result<(SExpr, int, int), PErr> {
    match spec_expect(s, pos, '[') {
        Err(e) => Err(e),
        Ok(p1) => {
            let negated = peek_at(s, p1) == Some('^');
            let p2 = if negated { p1 + 1 } else { p1 };
            match spec_class_items(s, p2, Seq::empty()) {
                Err(e) => Err(e),
                Ok((items, p3)) => match spec_expect(s, p3, ']') {
                    Err(e) => Err(e),
                    Ok(p4) => Ok((
                        SExpr::Class(if negated { SClass::NegatedClass(items) } else { SClass::Class(items) }),
                        p4,
                        gc,
                    )),
                },
            }
        },
    }
}

/// What a backslash followed by `c` stands for, when it is a class or an anchor.
pub open spec fn spec_escape_named(c: char) -> Option<SExpr> {
    if c == 'd' {
        Some(SExpr::Class(SClass::Digit))
    } else if c == 'D' {
        Some(SExpr::Class(SClass::NegatedDigit))
    } else if c == 'w' {
        Some(SExpr::Class(SClass::Word))
    } else if c == 'W' {
        Some(SExpr::Class(SClass::NegatedWord))
    } else if c == 's' {
        Some(SExpr::Class(SClass::Whitespace))
    } else if c == 'S' {
        Some(SExpr::Class(SClass::NegatedWhitespace))
    } else if c == 'b' {
        Some(SExpr::Anchor(Anchor::WordBoundary))
    } else if c == 'B' {
        Some(SExpr::Anchor(Anchor::NonWordBoundary))
    } else if c == 'A' {
        Some(SExpr::Anchor(Anchor::StartOfString))
    } else if c == 'z' || c == 'Z' {
        Some(SExpr::Anchor(Anchor::EndOfString))
    } else {
        None
    }
}

/// A backslash escape at `pos`.
pub open spec fn spec_escape(s: Seq<char>, pos: int, gc: int) -> Result<(SExpr, int, int), PErr> {
    match spec_expect(s, pos, '\\') {
        Err(e) => Err(e),
        Ok(p1) => match peek_at(s, p1) {
            None => Err(PErr::Msg("Unexpected end of input after backslash"@)),
            Some(c) => match spec_escape_named(c) {
                Some(e) => Ok((e, p1 + 1, gc)),
                None => if is_digit(c) {
                    let end = digits_end(s, p1);
                    if digits_value(s, p1, end) > u32::MAX {
                        Err(PErr::Overflow)
                    } else {
                        Ok((SExpr::Backreference(digits_value(s, p1, end) as u32), end, gc))
                    }
                } else {
                    Ok((SExpr::Literal(c), p1 + 1, gc))
                },
            },
        },
    }
}

/// The kind of a group whose `(` ends at `pos`; a capturing group takes the next number.
pub open spec fn spec_group_kind(s: Seq<char>, pos: int, gc: int) -> Result<(GroupKind, int, int), PErr> {
    if peek_at(s, pos) == Some('?') {
        let c = peek_at(s, pos + 1);
        if c == Some(':') {
            Ok((GroupKind::NonCapturing, pos + 2, gc))
        } else if c == Some('=') {
            Ok((GroupKind::Lookahead(true), pos + 2, gc))
        } else if c == Some('!') {
            Ok((GroupKind::Lookahead(false), pos + 2, gc))
        } else if c == Some('<') {
            if peek_at(s, pos + 2) == Some('=') {
                Ok((GroupKind::Lookbehind(true), pos + 3, gc))
            } else if peek_at(s, pos + 2) == Some('!') {
                Ok((GroupKind::Lookbehind(false), pos + 3, gc))
            } else {
                Err(PErr::Msg("Invalid group syntax"@))
            }
        } else if c == Some('>') {
            Ok((GroupKind::Atomic, pos + 2, gc))
        } else {
            Err(PErr::Msg("Invalid group syntax"@))
        }
    } else if gc >= u32::MAX {
        Err(PErr::TooManyGroups)
    } else {
        Ok((GroupKind::Capturing((gc + 1) as u32), pos, gc + 1))
    }
}

/// The branches collected into one expression.
pub open spec fn alternation_of(bs: Seq<SExpr>) -> SExpr {
    if bs.len() == 1 {
        bs[0]
    } else {
        SExpr::Alternation(bs)
    }
}

/// The items collected into one expression.
pub open spec fn concat_of(items: Seq<SExpr>) -> SExpr {
    if items.len() == 0 {
        SExpr::Empty
    } else if items.len() == 1 {
        items[0]
    } else {
        SExpr::Concat(items)
    }
}

/// The outcome of reading the branches, with the branches collected into one expression.
pub open spec fn alternation_finish(r: Result<(Seq<SExpr>, int, int), PErr>) -> Result<(SExpr, int, int), PErr> {
    match r {
        Err(e) => Err(e),
        Ok((bs, p, g)) => Ok((alternation_of(bs), p, g)),
    }
}

/// An alternation at `pos`: branches separated by `|`.
pub open spec fn spec_alternation(s: Seq<char>, pos: int, gc: int) -> Result<(SExpr, int, int), PErr>
    decreases s.len() - pos, 6int,
{
    match spec_concat(s, pos, gc) {
        Err(e) => Err(e),
        Ok((first, p1, g1)) => if p1 < pos || p1 > s.len() {
            Err(PErr::Msg(Seq::empty()))
        } else {
            alternation_finish(spec_alternation_rest(s, p1, g1, seq![first]))
        },
    }
}

/// The further `|`-separated branches from `pos` on, appended to `acc`.
pub open spec fn spec_alternation_rest(s: Seq<char>, pos: int, gc: int, acc: Seq<SExpr>) -> Result<(Seq<SExpr>, int, int), PErr>
    decreases s.len() - pos, 5int,
{
    if peek_at(s, pos) == Some('|') {
        match spec_concat(s, pos + 1, gc) {
            Err(e) => Err(e),
            Ok((b, p1, g1)) => if p1 < pos + 1 || p1 > s.len() {
                Err(PErr::Msg(Seq::empty()))
            } else {
                spec_alternation_rest(s, p1, g1, acc.push(b))
            },
        }
    } else {
        Ok((acc, pos, gc))
    }
}

/// A sequence of quantified atoms at `pos`.
pub open spec fn spec_concat(s: Seq<char>, pos: int, gc: int) -> Result<(SExpr, int, int), PErr>
    decreases s.len() - pos, 4int,
{
    match spec_concat_items(s, pos, gc, Seq::empty()) {
        Err(e) => Err(e),
        Ok((items, p1, g1)) => Ok((concat_of(items), p1, g1)),
    }
}

/// The quantified atoms from `pos` on, appended to `acc`: items are read until the input
/// ends or a `|` or `)` comes.
pub open spec fn spec_concat_items(s: Seq<char>, pos: int, gc: int, acc: Seq<SExpr>) -> Result<(Seq<SExpr>, int, int), PErr>
    decreases s.len() - pos, 3int,
{
    match peek_at(s, pos) {
        None => Ok((acc, pos, gc)),
        Some(c) => if c == '|' || c == ')' {
            Ok((acc, pos, gc))
        } else {
            match spec_repetition(s, pos, gc) {
                Err(e) => Err(e),
                Ok((item, p1, g1)) => if p1 <= pos || p1 > s.len() {
                    Err(PErr::Msg(Seq::empty()))
                } else {
                    spec_concat_items(s, p1, g1, acc.push(item))
                },
            }
        },
    }
}

/// An atom at `pos` with its quantifier, if any.
pub open spec fn spec_repetition(s: Seq<char>, pos: int, gc: int) -> Result<(SExpr, int, int), PErr>
    decreases s.len() - pos, 2int,
{
    match spec_atom(s, pos, gc) {
        Err(e) => Err(e),
        Ok((a, p1, g1)) => match spec_quantifier(s, p1, a) {
            Err(e) => Err(e),
            Ok((q, p2)) => Ok((q, p2, g1)),
        },
    }
}

/// An atom at `pos`.
pub open spec fn spec_atom(s: Seq<char>, pos: int, gc: int) -> Result<(SExpr, int, int), PErr>
    decreases s.len() - pos, 1int,
{
    match peek_at(s, pos) {
        None => Err(PErr::Msg("Unexpected end of input"@)),
        Some(c) => if c == '(' {
            spec_group(s, pos, gc)
        } else if c == '[' {
            spec_class(s, pos, gc)
        } else if c == '\\' {
            spec_escape(s, pos, gc)
        } else if c == '^' {
            Ok((SExpr::Anchor(Anchor::StartOfLine), pos + 1, gc))
        } else if c == '$' {
            Ok((SExpr::Anchor(Anchor::EndOfLine), pos + 1, gc))
        } else if c == '.' {
            Ok((SExpr::Class(SClass::Any), pos + 1, gc))
        } else if !spec_is_meta_char(c) {
            Ok((SExpr::Literal(c), pos + 1, gc))
        } else {
            Err(PErr::Msg(msg_unexpected_char(c, pos)))
        },
    }
}

/// A parenthesized group at `pos`.
pub open spec fn spec_group(s: Seq<char>, pos: int, gc: int) -> Result<(SExpr, int, int), PErr>
    decreases s.len() - pos, 0int,
{
    match spec_expect(s, pos, '(') {
        Err(e) => Err(e),
        Ok(p1) => match spec_group_kind(s, p1, gc) {
            Err(e) => Err(e),
            Ok((kind, p2, g2)) => if p2 <= pos {
                Err(PErr::Msg(Seq::empty()))
            } else {
                match spec_alternation(s, p2, g2) {
                    Err(e) => Err(e),
                    Ok((inner, p3, g3)) => match spec_expect(s, p3, ')') {
                        Err(e) => Err(e),
                        Ok(p4) => Ok((SExpr::Group { expr: Box::new(inner), kind }, p4, g3)),
                    },
                }
            },
        },
    }
}

/// The result of parsing the text `s` from position `pos` with `gc` groups numbered so far:
/// an alternation that must reach the end of the text.
pub open spec fn spec_parse_from(s: Seq<char>, pos: int, gc: int) -> Result<SExpr, PErr> {
    match spec_alternation(s, pos, gc) {
        Err(e) => Err(e),
        Ok((e, p, _)) => if p < s.len() {
            Err(PErr::Msg(msg_unexpected_char(s[p], p)))
        } else {
            Ok(e)
        },
    }
}

/// The result of parsing the whole text `s`.
pub open spec fn spec_parse(s: Seq<char>) -> Result<SExpr, PErr> {
    spec_parse_from(s, 0, 0)
}


proof fn lemma_digits_end_skip(s: Seq<char>, from: int, to: int)
    requires
        0 <= from <= to <= s.len(),
        forall|i: int| from <= i < to ==> is_digit(#[trigger] s[i]),
    ensures
        digits_end(s, from) == digits_end(s, to),
    decreases to - from,
{
    if from < to {
        lemma_digits_end_skip(s, from + 1, to);
    }
}

proof fn lemma_digits_end_ge(s: Seq<char>, pos: int)
    requires
        0 <= pos,
    ensures
        digits_end(s, pos) >= pos,
    decreases s.len() - pos,
{
    if 0 <= pos < s.len() && is_digit(s[pos]) {
        lemma_digits_end_ge(s, pos + 1);
    }
}

proof fn lemma_digits_end_digits(s: Seq<char>, pos: int)
    requires
        0 <= pos <= s.len(),
    ensures
        pos <= digits_end(s, pos) <= s.len(),
        forall|i: int| pos <= i < digits_end(s, pos) ==> is_digit(#[trigger] s[i]),
    decreases s.len() - pos,
{
    if 0 <= pos < s.len() && is_digit(s[pos]) {
        lemma_digits_end_digits(s, pos + 1);
    }
}

proof fn lemma_digits_value_mono(s: Seq<char>, from: int, a: int, b: int)
    requires
        from <= a <= b <= s.len(),
        0 <= from,
        forall|i: int| from <= i < b ==> is_digit(#[trigger] s[i]),
    ensures
        digits_value(s, from, a) <= digits_value(s, from, b),
    decreases b - a,
{
    if a < b {
        lemma_digits_value_mono(s, from, a, b - 1);
    }
}


/// A recursive-descent parser over the characters of a regular expression.
pub struct Parser {
    input: Vec<char>,
    pos: usize,
    group_counter: u32,
}

/// The outcome of an exec parsing step against the outcome that the grammar gives.
pub open spec fn expr_outcome(r: Result<Expr, ParseError>, sr: Result<(SExpr, int, int), PErr>, pos: int, gc: int) -> bool {
    match sr {
        Ok((e, p, g)) => match r {
            Ok(x) => x@ == e && pos == p && gc == g,
            Err(_) => false,
        },
        Err(pe) => match r {
            Ok(_) => false,
            Err(x) => err_matches(x, pe),
        },
    }
}

fn error_text(m: &str) -> (e: ParseError)
    ensures
        err_matches(e, PErr::Msg(m@)),
{
    let mut t = String::new();
    push_str(&mut t, m);
    ParseError::Syntax(t)
}

fn error_unexpected_char(c: char, pos: usize) -> (e: ParseError)
    ensures
        err_matches(e, PErr::Msg(msg_unexpected_char(c, pos as int))),
{
    let mut t = String::new();
    push_str(&mut t, "Unexpected character '");
    push_char(&mut t, c);
    push_str(&mut t, "' at position ");
    push_decimal(&mut t, pos as u64);
    ParseError::Syntax(t)
}

fn escape_named(c: char) -> (r: Option<Expr>)
    ensures
        match spec_escape_named(c) {
            Some(e) => r is Some && r->0@ == e,
            None => r is None,
        },
{
    match c {
        'd' => Some(Expr::Class(CharClass::Digit)),
        'D' => Some(Expr::Class(CharClass::NegatedDigit)),
        'w' => Some(Expr::Class(CharClass::Word)),
        'W' => Some(Expr::Class(CharClass::NegatedWord)),
        's' => Some(Expr::Class(CharClass::Whitespace)),
        'S' => Some(Expr::Class(CharClass::NegatedWhitespace)),
        'b' => Some(Expr::Anchor(Anchor::WordBoundary)),
        'B' => Some(Expr::Anchor(Anchor::NonWordBoundary)),
        'A' => Some(Expr::Anchor(Anchor::StartOfString)),
        'z' | 'Z' => Some(Expr::Anchor(Anchor::EndOfString)),
        _ => None,
    }
}


fn is_meta_char(c: char) -> (b: bool)
    ensures
        b == spec_is_meta_char(c),
{
    match c {
        '.' | '^' | '$' | '*' | '+' | '?' | '(' | ')' | '|' | '[' | '{' | '\\' => true,
        _ => false,
    }
}

impl Parser {
    /// The characters being parsed.
    pub closed spec fn chars(&self) -> Seq<char> {
        self.input@
    }

    /// How many characters have been consumed.
    pub closed spec fn position(&self) -> int {
        self.pos as int
    }

    /// How many capturing groups have been numbered.
    pub closed spec fn groups(&self) -> int {
        self.group_counter as int
    }

    pub closed spec fn wf(&self) -> bool {
        self.pos <= self.input.len()
    }

    pub closed spec fn advanced(&self, before: Parser) -> bool {
        &&& self.wf()
        &&& self.input@ == before.input@
        &&& self.pos >= before.pos
    }

    pub fn new(input: &str) -> (p: Self)
        ensures
            p.wf(),
            p.chars() == input@,
            p.position() == 0,
            p.groups() == 0,
    {
        Parser { input: chars_of(input), pos: 0, group_counter: 0 }
    }

    fn peek(&self) -> (r: Option<char>)
        requires
            self.pos <= self.input.len(),
        ensures
            r == peek_at(self.input@, self.pos as int),
    {
        if self.pos < self.input.len() {
            Some(self.input[self.pos])
        } else {
            None
        }
    }

    fn consume(&mut self)
        requires
            old(self).pos < old(self).input.len(),
        ensures
            final(self).pos == old(self).pos + 1,
            final(self).input == old(self).input,
            final(self).group_counter == old(self).group_counter,
    {
        self.pos += 1;
    }

    fn expect(&mut self, c: char) -> (r: Result<(), ParseError>)
        requires
            old(self).wf(),
        ensures
            final(self).advanced(*old(self)),
            final(self).group_counter == old(self).group_counter,
            match spec_expect(old(self).input@, old(self).pos as int, c) {
                Ok(p) => r is Ok && final(self).pos == p,
                Err(pe) => match r {
                    Ok(_) => false,
                    Err(x) => err_matches(x, pe),
                },
            },
    {
        match self.peek() {
            Some(f) => {
                if f == c {
                    self.consume();
                    return Ok(());
                }
            },
            None => {},
        }
        let found = match self.peek() {
            Some(f) => f,
            None => '\0',
        };
        let mut t = String::new();
        push_str(&mut t, "Expected '");
        push_char(&mut t, c);
        push_str(&mut t, "' at position ");
        push_decimal(&mut t, self.pos as u64);
        push_str(&mut t, ", found '");
        push_char(&mut t, found);
        push_str(&mut t, "'");
        Err(ParseError::Syntax(t))
    }

    fn parse_number(&mut self) -> (r: Result<u32, ParseError>)
        requires
            old(self).wf(),
        ensures
            final(self).advanced(*old(self)),
            final(self).group_counter == old(self).group_counter,
            match spec_number(old(self).input@, old(self).pos as int) {
                Ok((v, p)) => r == Ok::<u32, ParseError>(v) && final(self).pos == p,
                Err(pe) => match r {
                    Ok(_) => false,
                    Err(x) => err_matches(x, pe),
                },
            },
    {
        let ghost s = self.input@;
        let start = self.pos;
        let mut value: u32 = 0;
        loop
            invariant
                self.wf(),
                self.input@ == s,
                self.group_counter == old(self).group_counter,
                start == old(self).pos,
                s == old(self).input@,
                start <= self.pos,
                forall|i: int| start <= i < self.pos ==> is_digit(#[trigger] s[i]),
                value == digits_value(s, start as int, self.pos as int),
            ensures
                self.wf(),
                self.input@ == s,
                self.group_counter == old(self).group_counter,
                start <= self.pos,
                forall|i: int| start <= i < self.pos ==> is_digit(#[trigger] s[i]),
                value == digits_value(s, start as int, self.pos as int),
                !(self.pos < s.len() && is_digit(s[self.pos as int])),
            decreases s.len() - self.pos,
        {
            match self.peek() {
                Some(c) => {
                    if '0' <= c && c <= '9' {
                        let d: u32 = (c as u32) - ('0' as u32);
                        let next = match value.checked_mul(10) {
                            Some(v10) => v10.checked_add(d),
                            None => None,
                        };
                        match next {
                            Some(v) => {
                                value = v;
                                self.consume();
                            },
                            None => {
                                proof {
                                    let p = self.pos as int;
                                    lemma_digits_end_skip(s, start as int, p);
                                    lemma_digits_end_digits(s, p);
                                    lemma_digits_end_ge(s, p + 1);
                                    lemma_digits_value_mono(s, start as int, p + 1, digits_end(s, p));
                                    assert(digits_value(s, start as int, p + 1) > u32::MAX);
                                }
                                return Err(ParseError::NumberTooLarge);
                            },
                        }
                    } else {
                        break;
                    }
                },
                None => break,
            }
        }
        proof {
            lemma_digits_end_skip(s, start as int, self.pos as int);
        }
        if self.pos == start {
            Err(error_text("Expected number"))
        } else {
            Ok(value)
        }
    }

    fn parse_repetition_range(&mut self) -> (r: Result<RepetitionKind, ParseError>)
        requires
            old(self).wf(),
        ensures
            final(self).advanced(*old(self)),
            final(self).group_counter == old(self).group_counter,
            match spec_repetition_range(old(self).input@, old(self).pos as int) {
                Ok((k, p)) => r == Ok::<RepetitionKind, ParseError>(k) && final(self).pos == p,
                Err(pe) => match r {
                    Ok(_) => false,
                    Err(x) => err_matches(x, pe),
                },
            },
    {
        let min = self.parse_number()?;
        match self.peek() {
            Some(',') => {
                self.consume();
                if self.peek() == Some('}') {
                    Ok(RepetitionKind::AtLeast(min))
                } else {
                    let max = self.parse_number()?;
                    Ok(RepetitionKind::Range(min, max))
                }
            },
            Some('}') => Ok(RepetitionKind::Exactly(min)),
            _ => Err(error_text("Expected ',' or '}' in repetition")),
        }
    }

    fn parse_class_item(&mut self) -> (r: Result<CharClassItem, ParseError>)
        requires
            old(self).wf(),
        ensures
            final(self).advanced(*old(self)),
            final(self).group_counter == old(self).group_counter,
            match spec_class_item(old(self).input@, old(self).pos as int) {
                Ok((item, p)) => r == Ok::<CharClassItem, ParseError>(item) && final(self).pos == p,
                Err(pe) => match r {
                    Ok(_) => false,
                    Err(x) => err_matches(x, pe),
                },
            },
    {
        match self.peek() {
            Some('\\') => {
                self.consume();
                match self.peek() {
                    Some('d') => {
                        self.consume();
                        Ok(CharClassItem::Digit)
                    },
                    Some('D') => {
                        self.consume();
                        Ok(CharClassItem::NegatedDigit)
                    },
                    Some('w') => {
                        self.consume();
                        Ok(CharClassItem::Word)
                    },
                    Some('W') => {
                        self.consume();
                        Ok(CharClassItem::NegatedWord)
                    },
                    Some('s') => {
                        self.consume();
                        Ok(CharClassItem::Whitespace)
                    },
                    Some('S') => {
                        self.consume();
                        Ok(CharClassItem::NegatedWhitespace)
                    },
                    Some(c) => {
                        self.consume();
                        Ok(CharClassItem::Literal(c))
                    },
                    None => Err(error_text("Unexpected end of input in character class")),
                }
            },
            Some(c) => {
                self.consume();
                if self.peek() == Some('-') {
                    self.consume();
                    if let Some(end) = self.peek() {
                        if end != ']' {
                            self.consume();
                            return Ok(CharClassItem::Range(c, end));
                        }
                    }
                    return Ok(CharClassItem::Literal(c));
                }
                Ok(CharClassItem::Literal(c))
            },
            None => Err(error_text("Unexpected end of input in character class")),
        }
    }

    fn parse_class(&mut self) -> (r: Result<Expr, ParseError>)
        requires
            old(self).wf(),
        ensures
            final(self).advanced(*old(self)),
            r is Ok ==> final(self).pos > old(self).pos,
            expr_outcome(r, spec_class(old(self).input@, old(self).pos as int, old(self).group_counter as int), final(self).pos as int, final(self).group_counter as int),
    {
        let ghost s = self.input@;
        let ghost p0 = self.pos as int;
        let ghost g0 = self.group_counter as int;
        self.expect('[')?;
        let ghost p1 = self.pos as int;
        let negated = self.peek() == Some('^');
        if negated {
            self.consume();
        }
        let ghost p2 = self.pos as int;
        assert(spec_expect(s, p0, '[') == Ok::<int, PErr>(p1));
        assert(negated == (peek_at(s, p1) == Some('^')));
        let mut items: Vec<CharClassItem> = Vec::new();
        loop
            invariant
                self.advanced(*old(self)),
                self.group_counter == old(self).group_counter,
                s == old(self).input@,
                p0 == old(self).pos,
                g0 == old(self).group_counter,
                spec_expect(s, p0, '[') == Ok::<int, PErr>(p1),
                negated == (peek_at(s, p1) == Some('^')),
                p2 == if negated { p1 + 1 } else { p1 },
                spec_class_items(s, p2, Seq::empty()) == spec_class_items(s, self.pos as int, items@),
            ensures
                self.advanced(*old(self)),
                self.group_counter == old(self).group_counter,
                spec_class_items(s, p2, Seq::empty()) == Ok::<(Seq<CharClassItem>, int), PErr>((items@, self.pos as int)),
            decreases s.len() - self.pos,
        {
            match self.peek() {
                None => break,
                Some(c) => {
                    if c == ']' && items.len() > 0 {
                        break;
                    }
                    let ghost pb = self.pos as int;
                    let item = match self.parse_class_item() {
                        Ok(item) => item,
                        Err(e) => {
                            assert(spec_class_items(s, pb, items@) == match spec_class_item(s, pb) {
                                Err(pe) => Err::<(Seq<CharClassItem>, int), PErr>(pe),
                                Ok(_) => arbitrary(),
                            });
                            return Err(e);
                        },
                    };
                    items.push(item);
                },
            }
        }
        self.expect(']')?;
        if negated {
            Ok(Expr::Class(CharClass::NegatedClass(items)))
        } else {
            Ok(Expr::Class(CharClass::Class(items)))
        }
    }

    fn parse_escape(&mut self) -> (r: Result<Expr, ParseError>)
        requires
            old(self).wf(),
        ensures
            final(self).advanced(*old(self)),
            r is Ok ==> final(self).pos > old(self).pos,
            expr_outcome(r, spec_escape(old(self).input@, old(self).pos as int, old(self).group_counter as int), final(self).pos as int, final(self).group_counter as int),
    {
        let ghost s = self.input@;
        self.expect('\\')?;
        assert(spec_expect(s, old(self).pos as int, '\\') == Ok::<int, PErr>(self.pos as int));
        match self.peek() {
            Some(c) => {
                match escape_named(c) {
                    Some(e) => {
                        self.consume();
                        Ok(e)
                    },
                    None => {
                        if '0' <= c && c <= '9' {
                            proof {
                                lemma_digits_end_ge(s, self.pos + 1);
                            }
                            let n = self.parse_number()?;
                            Ok(Expr::Backreference(n))
                        } else {
                            proof {
                                lemma_literal_view(c);
                            }
                            self.consume();
                            Ok(Expr::Literal(c))
                        }
                    },
                }
            },
            None => Err(error_text("Unexpected end of input after backslash")),
        }
    }

    fn parse_group(&mut self) -> (r: Result<Expr, ParseError>)
        requires
            old(self).wf(),
        ensures
            final(self).advanced(*old(self)),
            r is Ok ==> final(self).pos > old(self).pos,
            expr_outcome(r, spec_group(old(self).input@, old(self).pos as int, old(self).group_counter as int), final(self).pos as int, final(self).group_counter as int),
        decreases old(self).input@.len() - old(self).pos, 0int,
    {
        let ghost s = self.input@;
        let ghost p0 = self.pos as int;
        let ghost g0 = self.group_counter as int;
        self.expect('(')?;
        let ghost p1 = self.pos as int;
        assert(spec_expect(s, p0, '(') == Ok::<int, PErr>(p1));
        let kind = if self.peek() == Some('?') {
            self.consume();
            match self.peek() {
                Some(':') => {
                    self.consume();
                    GroupKind::NonCapturing
                },
                Some('=') => {
                    self.consume();
                    GroupKind::Lookahead(true)
                },
                Some('!') => {
                    self.consume();
                    GroupKind::Lookahead(false)
                },
                Some('<') => {
                    self.consume();
                    match self.peek() {
                        Some('=') => {
                            self.consume();
                            GroupKind::Lookbehind(true)
                        },
                        Some('!') => {
                            self.consume();
                            GroupKind::Lookbehind(false)
                        },
                        _ => return Err(error_text("Invalid group syntax")),
                    }
                },
                Some('>') => {
                    self.consume();
                    GroupKind::Atomic
                },
                _ => return Err(error_text("Invalid group syntax")),
            }
        } else {
            if self.group_counter == u32::MAX {
                return Err(ParseError::TooManyGroups);
            }
            self.group_counter += 1;
            GroupKind::Capturing(self.group_counter)
        };
        assert(spec_group_kind(s, p1, g0) == Ok::<(GroupKind, int, int), PErr>((kind, self.pos as int, self.group_counter as int)));
        let expr = self.parse_alternation()?;
        self.expect(')')?;
        Ok(Expr::Group { expr: Box::new(expr), kind })
    }

    fn parse_atom(&mut self) -> (r: Result<Expr, ParseError>)
        requires
            old(self).wf(),
        ensures
            final(self).advanced(*old(self)),
            r is Ok ==> final(self).pos > old(self).pos,
            expr_outcome(r, spec_atom(old(self).input@, old(self).pos as int, old(self).group_counter as int), final(self).pos as int, final(self).group_counter as int),
        decreases old(self).input@.len() - old(self).pos, 1int,
    {
        match self.peek() {
            Some('(') => self.parse_group(),
            Some('[') => self.parse_class(),
            Some('\\') => self.parse_escape(),
            Some('^') => {
                self.consume();
                Ok(Expr::Anchor(Anchor::StartOfLine))
            },
            Some('$') => {
                self.consume();
                Ok(Expr::Anchor(Anchor::EndOfLine))
            },
            Some('.') => {
                self.consume();
                Ok(Expr::Class(CharClass::Any))
            },
            Some(c) => {
                if !is_meta_char(c) {
                    proof {
                        lemma_literal_view(c);
                    }
                    self.consume();
                    Ok(Expr::Literal(c))
                } else {
                    Err(error_unexpected_char(c, self.pos))
                }
            },
            None => Err(error_text("Unexpected end of input")),
        }
    }

    fn parse_repetition(&mut self) -> (r: Result<Expr, ParseError>)
        requires
            old(self).wf(),
        ensures
            final(self).advanced(*old(self)),
            r is Ok ==> final(self).pos > old(self).pos,
            expr_outcome(r, spec_repetition(old(self).input@, old(self).pos as int, old(self).group_counter as int), final(self).pos as int, final(self).group_counter as int),
        decreases old(self).input@.len() - old(self).pos, 2int,
    {
        let ghost s = self.input@;
        let expr = self.parse_atom()?;
        let ghost p1 = self.pos as int;
        let ghost a = expr@;
        match self.peek() {
            Some('*') => {
                self.consume();
                let greedy = self.peek() != Some('?');
                if !greedy {
                    self.consume();
                }
                Ok(Expr::Repetition { expr: Box::new(expr), kind: RepetitionKind::ZeroOrMore, greedy })
            },
            Some('+') => {
                self.consume();
                let greedy = self.peek() != Some('?');
                if !greedy {
                    self.consume();
                }
                Ok(Expr::Repetition { expr: Box::new(expr), kind: RepetitionKind::OneOrMore, greedy })
            },
            Some('?') => {
                self.consume();
                let greedy = self.peek() != Some('?');
                if !greedy {
                    self.consume();
                }
                Ok(Expr::Repetition { expr: Box::new(expr), kind: RepetitionKind::ZeroOrOne, greedy })
            },
            Some('{') => {
                self.consume();
                let kind = self.parse_repetition_range()?;
                self.expect('}')?;
                let greedy = self.peek() != Some('?');
                if !greedy {
                    self.consume();
                }
                Ok(Expr::Repetition { expr: Box::new(expr), kind, greedy })
            },
            _ => Ok(expr),
        }
    }

    fn parse_concat(&mut self) -> (r: Result<Expr, ParseError>)
        requires
            old(self).wf(),
        ensures
            final(self).advanced(*old(self)),
            expr_outcome(r, spec_concat(old(self).input@, old(self).pos as int, old(self).group_counter as int), final(self).pos as int, final(self).group_counter as int),
        decreases old(self).input@.len() - old(self).pos, 4int,
    {
        let ghost s = self.input@;
        let ghost p0 = self.pos as int;
        let ghost g0 = self.group_counter as int;
        let mut items: Vec<Expr> = Vec::new();
        assert(view_seq(items@) =~= Seq::<SExpr>::empty());
        loop
            invariant
                self.advanced(*old(self)),
                s == old(self).input@,
                p0 == old(self).pos,
                g0 == old(self).group_counter,
                spec_concat_items(s, p0, g0, Seq::empty()) == spec_concat_items(s, self.pos as int, self.group_counter as int, view_seq(items@)),
            ensures
                self.advanced(*old(self)),
                spec_concat_items(s, p0, g0, Seq::empty()) == Ok::<(Seq<SExpr>, int, int), PErr>((view_seq(items@), self.pos as int, self.group_counter as int)),
            decreases s.len() - self.pos,
        {
            match self.peek() {
                None => break,
                Some(c) => {
                    if c == '|' || c == ')' {
                        break;
                    }
                    let ghost pb = self.pos as int;
                    let ghost gb = self.group_counter as int;
                    let item = match self.parse_repetition() {
                        Ok(item) => item,
                        Err(e) => {
                            assert(spec_concat_items(s, pb, gb, view_seq(items@)) == match spec_repetition(s, pb, gb) {
                                Err(pe) => Err::<(Seq<SExpr>, int, int), PErr>(pe),
                                Ok(_) => arbitrary(),
                            });
                            return Err(e);
                        },
                    };
                    proof {
                        lemma_view_seq_push(items@, item);
                    }
                    items.push(item);
                },
            }
        }
        if items.len() == 0 {
            Ok(Expr::Empty)
        } else if items.len() == 1 {
            let only = items.pop().unwrap();
            Ok(only)
        } else {
            Ok(Expr::Concat(items))
        }
    }

    fn parse_alternation(&mut self) -> (r: Result<Expr, ParseError>)
        requires
            old(self).wf(),
        ensures
            final(self).advanced(*old(self)),
            expr_outcome(r, spec_alternation(old(self).input@, old(self).pos as int, old(self).group_counter as int), final(self).pos as int, final(self).group_counter as int),
        decreases old(self).input@.len() - old(self).pos, 6int,
    {
        let ghost s = self.input@;
        let ghost p0 = self.pos as int;
        let ghost g0 = self.group_counter as int;
        let first = self.parse_concat()?;
        let mut branches: Vec<Expr> = Vec::new();
        branches.push(first);
        assert(view_seq(branches@) =~= seq![first@]);
        loop
            invariant
                self.advanced(*old(self)),
                s == old(self).input@,
                p0 == old(self).pos,
                g0 == old(self).group_counter,
                branches.len() >= 1,
                spec_alternation(s, p0, g0) == alternation_finish(spec_alternation_rest(s, self.pos as int, self.group_counter as int, view_seq(branches@))),
            ensures
                self.advanced(*old(self)),
                branches.len() >= 1,
                spec_alternation(s, p0, g0) == Ok::<(SExpr, int, int), PErr>((alternation_of(view_seq(branches@)), self.pos as int, self.group_counter as int)),
            decreases s.len() - self.pos,
        {
            if self.peek() == Some('|') {
                self.consume();
                let ghost pb = self.pos as int;
                let ghost gb = self.group_counter as int;
                let branch = match self.parse_concat() {
                    Ok(b) => b,
                    Err(e) => {
                        assert(spec_alternation_rest(s, pb - 1, gb, view_seq(branches@)) == match spec_concat(s, pb, gb) {
                            Err(pe) => Err::<(Seq<SExpr>, int, int), PErr>(pe),
                            Ok(_) => arbitrary(),
                        });
                        return Err(e);
                    },
                };
                proof {
                    lemma_view_seq_push(branches@, branch);
                }
                branches.push(branch);
            } else {
                break;
            }
        }
        if branches.len() == 1 {
            let only = branches.pop().unwrap();
            Ok(only)
        } else {
            Ok(Expr::Alternation(branches))
        }
    }

    /// Parses the rest of the input as one regular expression; a count or back-reference
    /// number too large for a `u32` is reported as `NumberTooLarge`, and more capturing
    /// groups than a `u32` counts as `TooManyGroups`.
    pub fn parse_checked(&mut self) -> (r: Result<Expr, ParseError>)
        requires
            old(self).wf(),
        ensures
            final(self).wf(),
            final(self).chars() == old(self).chars(),
            match spec_parse_from(old(self).chars(), old(self).position(), old(self).groups()) {
                Ok(e) => r is Ok && r->Ok_0@ == e,
                Err(pe) => r is Err && err_matches(r->Err_0, pe),
            },
    {
        let expr = self.parse_alternation()?;
        if self.pos < self.input.len() {
            return Err(error_unexpected_char(self.input[self.pos], self.pos));
        }
        Ok(expr)
    }

    /// Parses the rest of the input as one regular expression.
    pub fn parse(&mut self) -> (r: Result<Expr, String>)
        requires
            old(self).wf(),
            !beyond_u32(spec_parse_from(old(self).chars(), old(self).position(), old(self).groups())),
        ensures
            final(self).wf(),
            final(self).chars() == old(self).chars(),
            match spec_parse_from(old(self).chars(), old(self).position(), old(self).groups()) {
                Ok(e) => r is Ok && r->Ok_0@ == e,
                Err(PErr::Msg(m)) => r is Err && r->Err_0@ == m,
                Err(_) => false,
            },
    {
        match self.parse_checked() {
            Ok(e) => Ok(e),
            Err(ParseError::Syntax(m)) => Err(m),
            Err(ParseError::NumberTooLarge) => Err(String::new()),
            Err(ParseError::TooManyGroups) => Err(String::new()),
        }
    }
}

} // verus!

verus! {

/// Parses a regular expression.
pub fn parse(input: &str) -> (r: Result<Expr, String>)
    requires
        !beyond_u32(spec_parse(input@)),
    ensures
        match spec_parse(input@) {
            Ok(e) => r is Ok && r->Ok_0@ == e,
            Err(PErr::Msg(m)) => r is Err && r->Err_0@ == m,
            Err(_) => false,
        },
{
    Parser::new(input).parse()
}

/// Parses a regular expression; a count or back-reference number too large for a `u32`
/// is reported as `NumberTooLarge`, and more capturing groups than a `u32` counts as
/// `TooManyGroups`.
pub fn try_parse(input: &str) -> (r: Result<Expr, ParseError>)
    ensures
        match spec_parse(input@) {
            Ok(e) => r is Ok && r->Ok_0@ == e,
            Err(pe) => r is Err && err_matches(r->Err_0, pe),
        },
{
    Parser::new(input).parse_checked()
}

} // verus!
