use vstd::prelude::*;

verus! {

/// A node of a regular expression's syntax tree.
#[derive(Debug, PartialEq, Eq, Hash, PartialOrd, Ord)]
#[allow(inconsistent_fields)]
pub enum Expr {
    Empty,
    Literal(char),
    Class(CharClass),
    Anchor(Anchor),
    Concat(Vec<Expr>),
    Alternation(Vec<Expr>),
    Repetition { expr: Box<Expr>, kind: RepetitionKind, greedy: bool },
    Group { expr: Box<Expr>, kind: GroupKind },
    Backreference(u32),
}

#[derive(Debug, Clone, PartialEq, Eq, Hash, PartialOrd, Ord)]
pub enum CharClass {
    Literal(char),
    Range(char, char),
    Any,
    Digit,
    Word,
    Whitespace,
    NegatedDigit,
    NegatedWord,
    NegatedWhitespace,
    Class(Vec<CharClassItem>),
    NegatedClass(Vec<CharClassItem>),
}

#[derive(Debug, Clone, Copy, PartialEq, Eq, Structural, Hash, PartialOrd, Ord)]
pub enum CharClassItem {
    Literal(char),
    Range(char, char),
    Digit,
    Word,
    Whitespace,
    NegatedDigit,
    NegatedWord,
    NegatedWhitespace,
}

#[derive(Debug, Clone, Copy, PartialEq, Eq, Structural, Hash, PartialOrd, Ord)]
pub enum Anchor {
    StartOfLine,
    EndOfLine,
    StartOfString,
    EndOfString,
    WordBoundary,
    NonWordBoundary,
}

#[derive(Debug, Clone, Copy, PartialEq, Eq, Structural, Hash, PartialOrd, Ord)]
pub enum RepetitionKind {
    ZeroOrMore,
    OneOrMore,
    ZeroOrOne,
    Exactly(u32),
    AtLeast(u32),
    Range(u32, u32),
}

#[derive(Debug, Clone, Copy, PartialEq, Eq, Structural, Hash, PartialOrd, Ord)]
pub enum GroupKind {
    Capturing(u32),
    NonCapturing,
    Lookahead(bool),
    Lookbehind(bool),
    Atomic,
}

/// The mathematical value of a character class.
pub enum SClass {
    Literal(char),
    Range(char, char),
    Any,
    Digit,
    Word,
    Whitespace,
    NegatedDigit,
    NegatedWord,
    NegatedWhitespace,
    Class(Seq<CharClassItem>),
    NegatedClass(Seq<CharClassItem>),
}

/// The mathematical value of a syntax tree.
#[allow(inconsistent_fields)]
pub enum SExpr {
    Empty,
    Literal(char),
    Class(SClass),
    Anchor(Anchor),
    Concat(Seq<SExpr>),
    Alternation(Seq<SExpr>),
    Repetition { expr: Box<SExpr>, kind: RepetitionKind, greedy: bool },
    Group { expr: Box<SExpr>, kind: GroupKind },
    Backreference(u32),
}

impl View for CharClass {
    type V = SClass;

    open spec fn view(&self) -> SClass {
        match self {
            CharClass::Literal(c) => SClass::Literal(*c),
            CharClass::Range(a, b) => SClass::Range(*a, *b),
            CharClass::Any => SClass::Any,
            CharClass::Digit => SClass::Digit,
            CharClass::Word => SClass::Word,
            CharClass::Whitespace => SClass::Whitespace,
            CharClass::NegatedDigit => SClass::NegatedDigit,
            CharClass::NegatedWord => SClass::NegatedWord,
            CharClass::NegatedWhitespace => SClass::NegatedWhitespace,
            CharClass::Class(items) => SClass::Class(items@),
            CharClass::NegatedClass(items) => SClass::NegatedClass(items@),
        }
    }
}

pub open spec fn view_seq(items: Seq<Expr>) -> Seq<SExpr>
    decreases items,
{
    Seq::new(items.len(), |i: int| if 0 <= i < items.len() { items[i].view_expr() } else { SExpr::Empty })
}

impl View for Expr {
    type V = SExpr;

    open spec fn view(&self) -> SExpr {
        self.view_expr()
    }
}

/// Binding strength of a node when printed: alternation binds loosest, atoms tightest.
pub open spec fn spec_precedence(e: SExpr) -> u8 {
    match e {
        SExpr::Alternation(_) => 1,
        SExpr::Concat(_) => 2,
        SExpr::Repetition { .. } => 3,
        _ => 4,
    }
}

impl Expr {
    pub fn precedence(&self) -> (p: u8)
        ensures
            p == spec_precedence(self@),
    {
        match self {
            Expr::Alternation(_) => 1,
            Expr::Concat(_) => 2,
            Expr::Repetition { .. } => 3,
            _ => 4,
        }
    }

    pub fn is_empty(&self) -> (b: bool)
        ensures
            b <==> self@ is Empty,
    {
        match self {
            Expr::Empty => true,
            _ => false,
        }
    }

    pub open spec fn view_expr(&self) -> SExpr
        decreases self,
    {
        match self {
            Expr::Empty => SExpr::Empty,
            Expr::Literal(c) => SExpr::Literal(*c),
            Expr::Class(c) => SExpr::Class(c@),
            Expr::Anchor(a) => SExpr::Anchor(*a),
            Expr::Concat(items) => SExpr::Concat(view_seq(items@)),
            Expr::Alternation(items) => SExpr::Alternation(view_seq(items@)),
            Expr::Repetition { expr, kind, greedy } => SExpr::Repetition { expr: Box::new(expr.view_expr()), kind: *kind, greedy: *greedy },
            Expr::Group { expr, kind } => SExpr::Group { expr: Box::new(expr.view_expr()), kind: *kind },
            Expr::Backreference(n) => SExpr::Backreference(*n),
        }
    }
}

} // verus!

verus! {

/// Position of a character-class item's variant in declaration order.
pub open spec fn item_rank(i: CharClassItem) -> int {
    match i {
        CharClassItem::Literal(_) => 0,
        CharClassItem::Range(_, _) => 1,
        CharClassItem::Digit => 2,
        CharClassItem::Word => 3,
        CharClassItem::Whitespace => 4,
        CharClassItem::NegatedDigit => 5,
        CharClassItem::NegatedWord => 6,
        CharClassItem::NegatedWhitespace => 7,
    }
}

/// Three-way comparison of integers: -1, 0 or 1.
pub open spec fn int_order(a: int, b: int) -> int {
    if a < b {
        -1
    } else if a == b {
        0
    } else {
        1
    }
}

/// Lexicographic combination: the first comparison decides unless it is a tie.
pub open spec fn lex(first: int, rest: int) -> int {
    if first != 0 {
        first
    } else {
        rest
    }
}

pub open spec fn bool_order(a: bool, b: bool) -> int {
    int_order(if a { 1 } else { 0 }, if b { 1 } else { 0 })
}

pub open spec fn char_order(a: char, b: char) -> int {
    int_order(a as int, b as int)
}

/// The order of class items: by variant in declaration order, then by fields.
pub open spec fn item_order(a: CharClassItem, b: CharClassItem) -> int {
    if item_rank(a) != item_rank(b) {
        int_order(item_rank(a), item_rank(b))
    } else {
        match (a, b) {
            (CharClassItem::Literal(x), CharClassItem::Literal(y)) => char_order(x, y),
            (CharClassItem::Range(x1, x2), CharClassItem::Range(y1, y2)) => lex(char_order(x1, y1), char_order(x2, y2)),
            _ => 0,
        }
    }
}

/// Lexicographic order of item sequences; a proper prefix comes first.
pub open spec fn items_order(xs: Seq<CharClassItem>, ys: Seq<CharClassItem>) -> int
    decreases xs.len(),
{
    if xs.len() == 0 {
        if ys.len() == 0 { 0 } else { -1 }
    } else if ys.len() == 0 {
        1
    } else {
        lex(item_order(xs[0], ys[0]), items_order(xs.drop_first(), ys.drop_first()))
    }
}

pub open spec fn class_rank(c: SClass) -> int {
    match c {
        SClass::Literal(_) => 0,
        SClass::Range(_, _) => 1,
        SClass::Any => 2,
        SClass::Digit => 3,
        SClass::Word => 4,
        SClass::Whitespace => 5,
        SClass::NegatedDigit => 6,
        SClass::NegatedWord => 7,
        SClass::NegatedWhitespace => 8,
        SClass::Class(_) => 9,
        SClass::NegatedClass(_) => 10,
    }
}

pub open spec fn class_order(a: SClass, b: SClass) -> int {
    if class_rank(a) != class_rank(b) {
        int_order(class_rank(a), class_rank(b))
    } else {
        match (a, b) {
            (SClass::Literal(x), SClass::Literal(y)) => char_order(x, y),
            (SClass::Range(x1, x2), SClass::Range(y1, y2)) => lex(char_order(x1, y1), char_order(x2, y2)),
            (SClass::Class(xs), SClass::Class(ys)) => items_order(xs, ys),
            (SClass::NegatedClass(xs), SClass::NegatedClass(ys)) => items_order(xs, ys),
            _ => 0,
        }
    }
}

pub open spec fn anchor_rank(a: Anchor) -> int {
    match a {
        Anchor::StartOfLine => 0,
        Anchor::EndOfLine => 1,
        Anchor::StartOfString => 2,
        Anchor::EndOfString => 3,
        Anchor::WordBoundary => 4,
        Anchor::NonWordBoundary => 5,
    }
}

pub open spec fn kind_rank(k: RepetitionKind) -> int {
    match k {
        RepetitionKind::ZeroOrMore => 0,
        RepetitionKind::OneOrMore => 1,
        RepetitionKind::ZeroOrOne => 2,
        RepetitionKind::Exactly(_) => 3,
        RepetitionKind::AtLeast(_) => 4,
        RepetitionKind::Range(_, _) => 5,
    }
}

pub open spec fn kind_order(a: RepetitionKind, b: RepetitionKind) -> int {
    if kind_rank(a) != kind_rank(b) {
        int_order(kind_rank(a), kind_rank(b))
    } else {
        match (a, b) {
            (RepetitionKind::Exactly(x), RepetitionKind::Exactly(y)) => int_order(x as int, y as int),
            (RepetitionKind::AtLeast(x), RepetitionKind::AtLeast(y)) => int_order(x as int, y as int),
            (RepetitionKind::Range(x1, x2), RepetitionKind::Range(y1, y2)) => lex(int_order(x1 as int, y1 as int), int_order(x2 as int, y2 as int)),
            _ => 0,
        }
    }
}

pub open spec fn group_rank(k: GroupKind) -> int {
    match k {
        GroupKind::Capturing(_) => 0,
        GroupKind::NonCapturing => 1,
        GroupKind::Lookahead(_) => 2,
        GroupKind::Lookbehind(_) => 3,
        GroupKind::Atomic => 4,
    }
}

pub open spec fn group_order(a: GroupKind, b: GroupKind) -> int {
    if group_rank(a) != group_rank(b) {
        int_order(group_rank(a), group_rank(b))
    } else {
        match (a, b) {
            (GroupKind::Capturing(x), GroupKind::Capturing(y)) => int_order(x as int, y as int),
            (GroupKind::Lookahead(x), GroupKind::Lookahead(y)) => bool_order(x, y),
            (GroupKind::Lookbehind(x), GroupKind::Lookbehind(y)) => bool_order(x, y),
            _ => 0,
        }
    }
}

pub open spec fn expr_rank(e: SExpr) -> int {
    match e {
        SExpr::Empty => 0,
        SExpr::Literal(_) => 1,
        SExpr::Class(_) => 2,
        SExpr::Anchor(_) => 3,
        SExpr::Concat(_) => 4,
        SExpr::Alternation(_) => 5,
        SExpr::Repetition { .. } => 6,
        SExpr::Group { .. } => 7,
        SExpr::Backreference(_) => 8,
    }
}

/// The order of expressions: by variant in declaration order, then field by field
/// (sequences lexicographically, `false` before `true`, characters by code point).
pub open spec fn expr_order(a: SExpr, b: SExpr) -> int
    decreases a,
{
    if expr_rank(a) != expr_rank(b) {
        int_order(expr_rank(a), expr_rank(b))
    } else {
        match (a, b) {
            (SExpr::Literal(x), SExpr::Literal(y)) => char_order(x, y),
            (SExpr::Class(x), SExpr::Class(y)) => class_order(x, y),
            (SExpr::Anchor(x), SExpr::Anchor(y)) => int_order(anchor_rank(x), anchor_rank(y)),
            (SExpr::Concat(xs), SExpr::Concat(ys)) => exprs_order(xs, ys),
            (SExpr::Alternation(xs), SExpr::Alternation(ys)) => exprs_order(xs, ys),
            (SExpr::Repetition { expr: x, kind: kx, greedy: gx }, SExpr::Repetition { expr: y, kind: ky, greedy: gy }) =>
                lex(expr_order(*x, *y), lex(kind_order(kx, ky), bool_order(gx, gy))),
            (SExpr::Group { expr: x, kind: kx }, SExpr::Group { expr: y, kind: ky }) =>
                lex(expr_order(*x, *y), group_order(kx, ky)),
            (SExpr::Backreference(x), SExpr::Backreference(y)) => int_order(x as int, y as int),
            _ => 0,
        }
    }
}

/// Lexicographic order of expression sequences; a proper prefix comes first.
pub open spec fn exprs_order(xs: Seq<SExpr>, ys: Seq<SExpr>) -> int
    decreases xs,
{
    if xs.len() == 0 {
        if ys.len() == 0 { 0 } else { -1 }
    } else if ys.len() == 0 {
        1
    } else {
        lex(expr_order(xs[0], ys[0]), exprs_order(xs.drop_first(), ys.drop_first()))
    }
}

} // verus!

verus! {

fn order_u32(a: u32, b: u32) -> (r: i8)
    ensures
        r == int_order(a as int, b as int),
{
    if a < b {
        -1
    } else if a == b {
        0
    } else {
        1
    }
}

fn order_char(a: char, b: char) -> (r: i8)
    ensures
        r == char_order(a, b),
{
    if a < b {
        -1
    } else if a == b {
        0
    } else {
        1
    }
}

fn order_bool(a: bool, b: bool) -> (r: i8)
    ensures
        r == bool_order(a, b),
{
    if a == b {
        0
    } else if !a {
        -1
    } else {
        1
    }
}

fn item_rank_of(i: &CharClassItem) -> (r: u32)
    ensures
        r == item_rank(*i),
{
    match i {
        CharClassItem::Literal(_) => 0,
        CharClassItem::Range(_, _) => 1,
        CharClassItem::Digit => 2,
        CharClassItem::Word => 3,
        CharClassItem::Whitespace => 4,
        CharClassItem::NegatedDigit => 5,
        CharClassItem::NegatedWord => 6,
        CharClassItem::NegatedWhitespace => 7,
    }
}

/// Compares two class items; the result is -1, 0 or 1.
pub fn order_items(a: &CharClassItem, b: &CharClassItem) -> (r: i8)
    ensures
        r == item_order(*a, *b),
{
    let ra = item_rank_of(a);
    let rb = item_rank_of(b);
    if ra != rb {
        return order_u32(ra, rb);
    }
    match (a, b) {
        (CharClassItem::Literal(x), CharClassItem::Literal(y)) => order_char(*x, *y),
        (CharClassItem::Range(x1, x2), CharClassItem::Range(y1, y2)) => {
            let c = order_char(*x1, *y1);
            if c != 0 {
                c
            } else {
                order_char(*x2, *y2)
            }
        },
        _ => 0,
    }
}

/// Compares two item sequences lexicographically.
pub fn order_item_seqs(xs: &Vec<CharClassItem>, ys: &Vec<CharClassItem>) -> (r: i8)
    ensures
        r == items_order(xs@, ys@),
{
    let mut i: usize = 0;
    assert(xs@.skip(0) =~= xs@);
    assert(ys@.skip(0) =~= ys@);
    while i < xs.len() && i < ys.len()
        invariant
            i <= xs.len(),
            i <= ys.len(),
            items_order(xs@, ys@) == items_order(xs@.skip(i as int), ys@.skip(i as int)),
        decreases xs.len() - i,
    {
        let c = order_items(&xs[i], &ys[i]);
        assert(xs@.skip(i as int).drop_first() =~= xs@.skip(i + 1));
        assert(ys@.skip(i as int).drop_first() =~= ys@.skip(i + 1));
        if c != 0 {
            return c;
        }
        i += 1;
    }
    if xs.len() == ys.len() {
        0
    } else if xs.len() < ys.len() {
        -1
    } else {
        1
    }
}

fn class_rank_of(c: &CharClass) -> (r: u32)
    ensures
        r == class_rank(c@),
{
    match c {
        CharClass::Literal(_) => 0,
        CharClass::Range(_, _) => 1,
        CharClass::Any => 2,
        CharClass::Digit => 3,
        CharClass::Word => 4,
        CharClass::Whitespace => 5,
        CharClass::NegatedDigit => 6,
        CharClass::NegatedWord => 7,
        CharClass::NegatedWhitespace => 8,
        CharClass::Class(_) => 9,
        CharClass::NegatedClass(_) => 10,
    }
}

/// Compares two character classes; the result is -1, 0 or 1.
pub fn order_classes(a: &CharClass, b: &CharClass) -> (r: i8)
    ensures
        r == class_order(a@, b@),
{
    let ra = class_rank_of(a);
    let rb = class_rank_of(b);
    if ra != rb {
        return order_u32(ra, rb);
    }
    match (a, b) {
        (CharClass::Literal(x), CharClass::Literal(y)) => order_char(*x, *y),
        (CharClass::Range(x1, x2), CharClass::Range(y1, y2)) => {
            let c = order_char(*x1, *y1);
            if c != 0 {
                c
            } else {
                order_char(*x2, *y2)
            }
        },
        (CharClass::Class(xs), CharClass::Class(ys)) => order_item_seqs(xs, ys),
        (CharClass::NegatedClass(xs), CharClass::NegatedClass(ys)) => order_item_seqs(xs, ys),
        _ => 0,
    }
}

fn anchor_rank_of(a: &Anchor) -> (r: u32)
    ensures
        r == anchor_rank(*a),
{
    match a {
        Anchor::StartOfLine => 0,
        Anchor::EndOfLine => 1,
        Anchor::StartOfString => 2,
        Anchor::EndOfString => 3,
        Anchor::WordBoundary => 4,
        Anchor::NonWordBoundary => 5,
    }
}

fn kind_rank_of(k: &RepetitionKind) -> (r: u32)
    ensures
        r == kind_rank(*k),
{
    match k {
        RepetitionKind::ZeroOrMore => 0,
        RepetitionKind::OneOrMore => 1,
        RepetitionKind::ZeroOrOne => 2,
        RepetitionKind::Exactly(_) => 3,
        RepetitionKind::AtLeast(_) => 4,
        RepetitionKind::Range(_, _) => 5,
    }
}

fn order_kinds(a: &RepetitionKind, b: &RepetitionKind) -> (r: i8)
    ensures
        r == kind_order(*a, *b),
{
    let ra = kind_rank_of(a);
    let rb = kind_rank_of(b);
    if ra != rb {
        return order_u32(ra, rb);
    }
    match (a, b) {
        (RepetitionKind::Exactly(x), RepetitionKind::Exactly(y)) => order_u32(*x, *y),
        (RepetitionKind::AtLeast(x), RepetitionKind::AtLeast(y)) => order_u32(*x, *y),
        (RepetitionKind::Range(x1, x2), RepetitionKind::Range(y1, y2)) => {
            let c = order_u32(*x1, *y1);
            if c != 0 {
                c
            } else {
                order_u32(*x2, *y2)
            }
        },
        _ => 0,
    }
}

fn group_rank_of(k: &GroupKind) -> (r: u32)
    ensures
        r == group_rank(*k),
{
    match k {
        GroupKind::Capturing(_) => 0,
        GroupKind::NonCapturing => 1,
        GroupKind::Lookahead(_) => 2,
        GroupKind::Lookbehind(_) => 3,
        GroupKind::Atomic => 4,
    }
}

fn order_group_kinds(a: &GroupKind, b: &GroupKind) -> (r: i8)
    ensures
        r == group_order(*a, *b),
{
    let ra = group_rank_of(a);
    let rb = group_rank_of(b);
    if ra != rb {
        return order_u32(ra, rb);
    }
    match (a, b) {
        (GroupKind::Capturing(x), GroupKind::Capturing(y)) => order_u32(*x, *y),
        (GroupKind::Lookahead(x), GroupKind::Lookahead(y)) => order_bool(*x, *y),
        (GroupKind::Lookbehind(x), GroupKind::Lookbehind(y)) => order_bool(*x, *y),
        _ => 0,
    }
}

fn expr_rank_of(e: &Expr) -> (r: u32)
    ensures
        r == expr_rank(e@),
{
    match e {
        Expr::Empty => 0,
        Expr::Literal(_) => 1,
        Expr::Class(_) => 2,
        Expr::Anchor(_) => 3,
        Expr::Concat(_) => 4,
        Expr::Alternation(_) => 5,
        Expr::Repetition { .. } => 6,
        Expr::Group { .. } => 7,
        Expr::Backreference(_) => 8,
    }
}

/// Compares two expressions; the result is -1, 0 or 1.
pub fn order_exprs(a: &Expr, b: &Expr) -> (r: i8)
    ensures
        r == expr_order(a@, b@),
    decreases a,
{
    let ra = expr_rank_of(a);
    let rb = expr_rank_of(b);
    if ra != rb {
        return order_u32(ra, rb);
    }
    match (a, b) {
        (Expr::Literal(x), Expr::Literal(y)) => order_char(*x, *y),
        (Expr::Class(x), Expr::Class(y)) => order_classes(x, y),
        (Expr::Anchor(x), Expr::Anchor(y)) => order_u32(anchor_rank_of(x), anchor_rank_of(y)),
        (Expr::Concat(xs), Expr::Concat(ys)) => order_expr_seqs(xs, ys),
        (Expr::Alternation(xs), Expr::Alternation(ys)) => order_expr_seqs(xs, ys),
        (Expr::Repetition { expr: x, kind: kx, greedy: gx }, Expr::Repetition { expr: y, kind: ky, greedy: gy }) => {
            let c = order_exprs(x, y);
            if c != 0 {
                return c;
            }
            let c2 = order_kinds(kx, ky);
            if c2 != 0 {
                return c2;
            }
            order_bool(*gx, *gy)
        },
        (Expr::Group { expr: x, kind: kx }, Expr::Group { expr: y, kind: ky }) => {
            let c = order_exprs(x, y);
            if c != 0 {
                return c;
            }
            order_group_kinds(kx, ky)
        },
        (Expr::Backreference(x), Expr::Backreference(y)) => order_u32(*x, *y),
        _ => 0,
    }
}

/// Compares two expression sequences lexicographically.
pub fn order_expr_seqs(xs: &Vec<Expr>, ys: &Vec<Expr>) -> (r: i8)
    ensures
        r == exprs_order(view_seq(xs@), view_seq(ys@)),
    decreases xs,
{
    let ghost vx = view_seq(xs@);
    let ghost vy = view_seq(ys@);
    let mut i: usize = 0;
    assert(vx.skip(0) =~= vx);
    assert(vy.skip(0) =~= vy);
    while i < xs.len() && i < ys.len()
        invariant
            i <= xs.len(),
            i <= ys.len(),
            vx == view_seq(xs@),
            vy == view_seq(ys@),
            exprs_order(vx, vy) == exprs_order(vx.skip(i as int), vy.skip(i as int)),
        decreases xs.len() - i,
    {
        proof {
            assert(decreases_to!(xs => xs@[i as int]));
        }
        let c = order_exprs(&xs[i], &ys[i]);
        assert(vx.skip(i as int).drop_first() =~= vx.skip(i + 1));
        assert(vy.skip(i as int).drop_first() =~= vy.skip(i + 1));
        if c != 0 {
            return c;
        }
        i += 1;
    }
    if xs.len() == ys.len() {
        0
    } else if xs.len() < ys.len() {
        -1
    } else {
        1
    }
}

/// Two class items compare as equal exactly when they are the same item.
pub proof fn lemma_item_order_zero(a: CharClassItem, b: CharClassItem)
    ensures
        (item_order(a, b) == 0) == (a == b),
{
    match (a, b) {
        (CharClassItem::Literal(x), CharClassItem::Literal(y)) => {
            assert(x as int == y as int ==> x == y);
        },
        (CharClassItem::Range(x1, x2), CharClassItem::Range(y1, y2)) => {
            assert(x1 as int == y1 as int ==> x1 == y1);
            assert(x2 as int == y2 as int ==> x2 == y2);
        },
        _ => {},
    }
}

/// Two item sequences compare as equal exactly when they are the same sequence.
pub proof fn lemma_items_order_zero(xs: Seq<CharClassItem>, ys: Seq<CharClassItem>)
    ensures
        (items_order(xs, ys) == 0) == (xs == ys),
    decreases xs.len(),
{
    if xs.len() > 0 && ys.len() > 0 {
        lemma_item_order_zero(xs[0], ys[0]);
        lemma_items_order_zero(xs.drop_first(), ys.drop_first());
        if xs[0] == ys[0] && xs.drop_first() == ys.drop_first() {
            assert(xs =~= seq![xs[0]] + xs.drop_first());
            assert(ys =~= seq![ys[0]] + ys.drop_first());
        }
    } else if xs.len() == 0 && ys.len() == 0 {
        assert(xs =~= ys);
    }
}

/// Two classes compare as equal exactly when they are the same class.
pub proof fn lemma_class_order_zero(a: SClass, b: SClass)
    ensures
        (class_order(a, b) == 0) == (a == b),
{
    match (a, b) {
        (SClass::Literal(x), SClass::Literal(y)) => {
            assert(x as int == y as int ==> x == y);
        },
        (SClass::Range(x1, x2), SClass::Range(y1, y2)) => {
            assert(x1 as int == y1 as int ==> x1 == y1);
            assert(x2 as int == y2 as int ==> x2 == y2);
        },
        (SClass::Class(xs), SClass::Class(ys)) => lemma_items_order_zero(xs, ys),
        (SClass::NegatedClass(xs), SClass::NegatedClass(ys)) => lemma_items_order_zero(xs, ys),
        _ => {},
    }
}

/// Class items are ordered antisymmetrically and transitively.
pub proof fn lemma_item_order_laws(a: CharClassItem, b: CharClassItem, c: CharClassItem)
    ensures
        item_order(a, b) == -item_order(b, a),
        item_order(a, b) < 0 && item_order(b, c) < 0 ==> item_order(a, c) < 0,
{
}

/// Item sequences are ordered antisymmetrically and transitively.
pub proof fn lemma_items_order_laws(xs: Seq<CharClassItem>, ys: Seq<CharClassItem>, zs: Seq<CharClassItem>)
    ensures
        items_order(xs, ys) == -items_order(ys, xs),
        items_order(xs, ys) < 0 && items_order(ys, zs) < 0 ==> items_order(xs, zs) < 0,
    decreases xs.len(),
{
    if xs.len() > 0 && ys.len() > 0 {
        lemma_item_order_laws(xs[0], ys[0], ys[0]);
        if zs.len() > 0 {
            lemma_item_order_laws(xs[0], ys[0], zs[0]);
            lemma_item_order_laws(xs[0], zs[0], zs[0]);
            lemma_item_order_laws(ys[0], zs[0], zs[0]);
            lemma_item_order_zero(xs[0], ys[0]);
            lemma_item_order_zero(ys[0], zs[0]);
            lemma_items_order_laws(xs.drop_first(), ys.drop_first(), zs.drop_first());
        } else {
            lemma_items_order_laws(xs.drop_first(), ys.drop_first(), ys.drop_first());
        }
    }
}

/// Classes are ordered antisymmetrically and transitively.
pub proof fn lemma_class_order_laws(a: SClass, b: SClass, c: SClass)
    ensures
        class_order(a, b) == -class_order(b, a),
        class_order(a, b) < 0 && class_order(b, c) < 0 ==> class_order(a, c) < 0,
{
    match (a, b, c) {
        (SClass::Class(xs), SClass::Class(ys), SClass::Class(zs)) => lemma_items_order_laws(xs, ys, zs),
        (SClass::NegatedClass(xs), SClass::NegatedClass(ys), SClass::NegatedClass(zs)) => lemma_items_order_laws(xs, ys, zs),
        (SClass::Class(xs), SClass::Class(ys), _) => lemma_items_order_laws(xs, ys, ys),
        (SClass::NegatedClass(xs), SClass::NegatedClass(ys), _) => lemma_items_order_laws(xs, ys, ys),
        _ => {},
    }
}

/// Whether two classes are the same class.
pub fn same_class(a: &CharClass, b: &CharClass) -> (r: bool)
    ensures
        r == (a@ == b@),
{
    proof {
        lemma_class_order_zero(a@, b@);
    }
    order_classes(a, b) == 0
}

/// A copy of a character class.
pub fn copy_class(c: &CharClass) -> (r: CharClass)
    ensures
        r@ == c@,
{
    match c {
        CharClass::Literal(x) => CharClass::Literal(*x),
        CharClass::Range(a, b) => CharClass::Range(*a, *b),
        CharClass::Any => CharClass::Any,
        CharClass::Digit => CharClass::Digit,
        CharClass::Word => CharClass::Word,
        CharClass::Whitespace => CharClass::Whitespace,
        CharClass::NegatedDigit => CharClass::NegatedDigit,
        CharClass::NegatedWord => CharClass::NegatedWord,
        CharClass::NegatedWhitespace => CharClass::NegatedWhitespace,
        CharClass::Class(items) => CharClass::Class(copy_items(items)),
        CharClass::NegatedClass(items) => CharClass::NegatedClass(copy_items(items)),
    }
}

fn copy_items(items: &Vec<CharClassItem>) -> (r: Vec<CharClassItem>)
    ensures
        r@ == items@,
{
    let mut r: Vec<CharClassItem> = Vec::new();
    let mut i: usize = 0;
    while i < items.len()
        invariant
            i <= items.len(),
            r@ == items@.take(i as int),
        decreases items.len() - i,
    {
        r.push(items[i]);
        assert(items@.take(i + 1) =~= items@.take(i as int).push(items@[i as int]));
        i += 1;
    }
    assert(items@.take(items.len() as int) =~= items@);
    r
}

impl Clone for Expr {
    /// A copy of the expression.
    fn clone(&self) -> (r: Self)
        ensures
            r@ == self@,
    {
        copy_expr(self)
    }
}

/// A copy of an expression.
pub fn copy_expr(e: &Expr) -> (r: Expr)
    ensures
        r@ == e@,
    decreases e,
{
    match e {
        Expr::Empty => Expr::Empty,
        Expr::Literal(c) => Expr::Literal(*c),
        Expr::Class(c) => Expr::Class(copy_class(c)),
        Expr::Anchor(a) => Expr::Anchor(*a),
        Expr::Concat(items) => Expr::Concat(copy_exprs(items)),
        Expr::Alternation(items) => Expr::Alternation(copy_exprs(items)),
        Expr::Repetition { expr, kind, greedy } => Expr::Repetition { expr: Box::new(copy_expr(expr)), kind: *kind, greedy: *greedy },
        Expr::Group { expr, kind } => Expr::Group { expr: Box::new(copy_expr(expr)), kind: *kind },
        Expr::Backreference(n) => Expr::Backreference(*n),
    }
}

pub proof fn lemma_literal_view(c: char)
    ensures
        Expr::Literal(c)@ == SExpr::Literal(c),
{
}

pub proof fn lemma_view_seq_push(v: Seq<Expr>, e: Expr)
    ensures
        view_seq(v.push(e)) == view_seq(v).push(e@),
{
    assert(view_seq(v.push(e)) =~= view_seq(v).push(e@));
}

/// Copies of the expressions, in order.
pub fn copy_exprs(items: &Vec<Expr>) -> (r: Vec<Expr>)
    ensures
        view_seq(r@) == view_seq(items@),
    decreases items,
{
    let mut r: Vec<Expr> = Vec::new();
    let mut i: usize = 0;
    while i < items.len()
        invariant
            i <= items.len(),
            view_seq(r@) == view_seq(items@).take(i as int),
        decreases items.len() - i,
    {
        proof {
            assert(decreases_to!(items => items@[i as int]));
        }
        let c = copy_expr(&items[i]);
        proof {
            lemma_view_seq_push(r@, c);
            assert(view_seq(r@).push(c@) =~= view_seq(items@).take(i + 1));
        }
        r.push(c);
        i += 1;
    }
    assert(view_seq(items@).take(items.len() as int) =~= view_seq(items@));
    r
}

} // verus!
