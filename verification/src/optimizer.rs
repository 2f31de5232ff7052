//! Simplification of syntax trees, and printing them back as text.
use vstd::prelude::*;
use crate::ast::{Expr, SExpr, RepetitionKind, GroupKind, view_seq, lemma_view_seq_push, lemma_literal_view, expr_order, order_exprs, copy_expr};
use crate::regex_text::{spec_expr_text, write_expr};

verus! {

/// An expression that, by this optimizer's reckoning, contributes nothing to a sequence:
/// the empty expression, a repetition that may occur zero times (`*`, `?`, `{0}`),
/// and groups, sequences and alternations made only of such expressions.
pub open spec fn spec_effectively_empty(e: SExpr) -> bool
    decreases e,
{
    match e {
        SExpr::Empty => true,
        SExpr::Group { expr, .. } => spec_effectively_empty(*expr),
        SExpr::Repetition { kind, .. } => kind == RepetitionKind::ZeroOrMore || kind == RepetitionKind::ZeroOrOne
            || kind == RepetitionKind::Exactly(0),
        SExpr::Concat(items) => all_effectively_empty(items),
        SExpr::Alternation(items) => all_effectively_empty(items),
        _ => false,
    }
}

pub open spec fn all_effectively_empty(items: Seq<SExpr>) -> bool
    decreases items,
{
    if items.len() == 0 {
        true
    } else {
        all_effectively_empty(items.drop_last()) && spec_effectively_empty(items.last())
    }
}

/// `x` placed into the ascending sequence `s`, unless an equal element is already there.
pub open spec fn insert_sorted(s: Seq<SExpr>, x: SExpr) -> Seq<SExpr>
    decreases s.len(),
{
    if s.len() == 0 {
        seq![x]
    } else if expr_order(x, s[0]) < 0 {
        seq![x] + s
    } else if expr_order(x, s[0]) == 0 {
        s
    } else {
        seq![s[0]] + insert_sorted(s.drop_first(), x)
    }
}

/// The elements of `s` in ascending order, each once.
pub open spec fn sort_dedup(s: Seq<SExpr>) -> Seq<SExpr>
    decreases s.len(),
{
    if s.len() == 0 {
        Seq::empty()
    } else {
        insert_sorted(sort_dedup(s.drop_last()), s.last())
    }
}

/// The simplified form of an expression:
/// - in a sequence, simplified items that are effectively empty are dropped; no item left
///   gives the empty expression and one item gives that item;
/// - the branches of an alternation are simplified, sorted and made distinct; one branch
///   left gives that branch;
/// - a repetition of an empty expression, or exactly zero times, is empty; exactly once is
///   its operand; `{n,n}` becomes `{n}`;
/// - a non-capturing group gives its simplified content; other groups keep their kind.
pub open spec fn spec_fold(e: SExpr) -> SExpr
    decreases e,
{
    match e {
        SExpr::Concat(items) => {
            let kept = fold_kept(items);
            if kept.len() == 0 {
                SExpr::Empty
            } else if kept.len() == 1 {
                kept[0]
            } else {
                SExpr::Concat(kept)
            }
        },
        SExpr::Alternation(items) => {
            let opt = sort_dedup(fold_all(items));
            if opt.len() == 1 {
                opt[0]
            } else {
                SExpr::Alternation(opt)
            }
        },
        SExpr::Repetition { expr, kind, greedy } => {
            let inner = spec_fold(*expr);
            if inner is Empty {
                SExpr::Empty
            } else {
                match kind {
                    RepetitionKind::Exactly(n) => if n == 0 {
                        SExpr::Empty
                    } else if n == 1 {
                        inner
                    } else {
                        SExpr::Repetition { expr: Box::new(inner), kind, greedy }
                    },
                    RepetitionKind::Range(min, max) => if min == max {
                        SExpr::Repetition { expr: Box::new(inner), kind: RepetitionKind::Exactly(min), greedy }
                    } else {
                        SExpr::Repetition { expr: Box::new(inner), kind, greedy }
                    },
                    _ => SExpr::Repetition { expr: Box::new(inner), kind, greedy },
                }
            }
        },
        SExpr::Group { expr, kind } => {
            let inner = spec_fold(*expr);
            if kind is NonCapturing {
                inner
            } else {
                SExpr::Group { expr: Box::new(inner), kind }
            }
        },
        _ => e,
    }
}

/// The simplified items, without those that are effectively empty.
pub open spec fn fold_kept(items: Seq<SExpr>) -> Seq<SExpr>
    decreases items,
{
    if items.len() == 0 {
        Seq::empty()
    } else {
        let rest = fold_kept(items.drop_last());
        let f = spec_fold(items.last());
        if spec_effectively_empty(f) {
            rest
        } else {
            rest.push(f)
        }
    }
}

/// All items simplified.
pub open spec fn fold_all(items: Seq<SExpr>) -> Seq<SExpr>
    decreases items,
{
    if items.len() == 0 {
        Seq::empty()
    } else {
        fold_all(items.drop_last()).push(spec_fold(items.last()))
    }
}


proof fn lemma_insert_sorted_prefix(s: Seq<SExpr>, x: SExpr, i: int)
    requires
        0 <= i <= s.len(),
        forall|j: int| 0 <= j < i ==> expr_order(x, #[trigger] s[j]) > 0,
    ensures
        insert_sorted(s, x) == s.take(i) + insert_sorted(s.skip(i), x),
    decreases i,
{
    if i == 0 {
        assert(s.skip(0) =~= s);
        assert(s.take(0) + insert_sorted(s, x) =~= insert_sorted(s, x));
    } else {
        let t = s.drop_first();
        assert forall|j: int| 0 <= j < i - 1 implies expr_order(x, #[trigger] t[j]) > 0 by {
            assert(t[j] == s[j + 1]);
        }
        lemma_insert_sorted_prefix(t, x, i - 1);
        assert(t.skip(i - 1) =~= s.skip(i));
        assert(seq![s[0]] + t.take(i - 1) =~= s.take(i));
        assert(seq![s[0]] + (t.take(i - 1) + insert_sorted(s.skip(i), x)) =~= s.take(i) + insert_sorted(s.skip(i), x));
    }
}

/// Places `x` into the ascending vector `v`, unless an equal element is already there.
fn insert_sorted_unique(v: &mut Vec<Expr>, x: Expr)
    ensures
        view_seq(final(v)@) == insert_sorted(view_seq(old(v)@), x@),
{
    let ghost s = view_seq(v@);
    let mut i: usize = 0;
    loop
        invariant
            i <= v.len(),
            s == view_seq(v@),
            forall|j: int| 0 <= j < i ==> expr_order(x@, #[trigger] s[j]) > 0,
        ensures
            i <= v.len(),
            s == view_seq(v@),
            forall|j: int| 0 <= j < i ==> expr_order(x@, #[trigger] s[j]) > 0,
            i == v.len() || expr_order(x@, s[i as int]) < 0,
        decreases v.len() - i,
    {
        if i >= v.len() {
            break;
        }
        let c = order_exprs(&x, &v[i]);
        if c < 0 {
            break;
        }
        if c == 0 {
            proof {
                lemma_insert_sorted_prefix(s, x@, i as int);
                assert(s.skip(i as int)[0] == s[i as int]);
                assert(s.take(i as int) + s.skip(i as int) =~= s);
            }
            return;
        }
        i += 1;
    }
    proof {
        lemma_insert_sorted_prefix(s, x@, i as int);
        if i < s.len() {
            assert(s.skip(i as int)[0] == s[i as int]);
        } else {
            assert(s.skip(i as int) =~= Seq::<SExpr>::empty());
        }
        assert(insert_sorted(s.skip(i as int), x@) == seq![x@] + s.skip(i as int));
    }
    let ghost before = v@;
    v.insert(i, x);
    assert(view_seq(v@) =~= s.take(i as int) + (seq![x@] + s.skip(i as int))) by {
        assert(v@ =~= before.insert(i as int, x));
        assert forall|j: int| 0 <= j < v@.len() implies #[trigger] view_seq(v@)[j] == (s.take(i as int) + (seq![x@] + s.skip(i as int)))[j] by {
            if j < i {
                assert(v@[j] == before[j]);
            } else if j == i {
            } else {
                assert(v@[j] == before[j - 1]);
            }
        }
    }
}

/// The expressions in ascending order, each once.
fn sort_dedup_exprs(items: Vec<Expr>) -> (r: Vec<Expr>)
    ensures
        view_seq(r@) == sort_dedup(view_seq(items@)),
{
    let ghost orig = view_seq(items@);
    let mut items = items;
    let mut sorted: Vec<Expr> = Vec::new();
    assert(view_seq(sorted@) =~= sort_dedup(orig.take(0)));
    while items.len() > 0
        invariant
            items.len() <= orig.len(),
            view_seq(items@) == orig.skip(orig.len() - items.len()),
            view_seq(sorted@) == sort_dedup(orig.take(orig.len() - items.len())),
        decreases items.len(),
    {
        let ghost k = orig.len() - items.len();
        let ghost before = items@;
        let x = items.remove(0);
        assert(x@ == orig[k]) by {
            assert(view_seq(before)[0] == orig.skip(k)[0]);
        }
        insert_sorted_unique(&mut sorted, x);
        assert(orig.take(k + 1).drop_last() =~= orig.take(k));
        assert(view_seq(items@) =~= orig.skip(k + 1)) by {
            assert(items@ =~= before.remove(0));
            assert forall|j: int| 0 <= j < view_seq(items@).len() implies view_seq(items@)[j] == orig.skip(k + 1)[j] by {
                assert(items@[j] == before[j + 1]);
                assert(view_seq(before)[j + 1] == orig.skip(k)[j + 1]);
            }
        }
    }
    assert(orig.take(orig.len() as int) =~= orig);
    sorted
}


/// The sequence and alternation nodes, and repetitions, of an expression, in pre-order:
/// the subexpressions whose occurrences the optimizer counts.
pub open spec fn compound_nodes(e: SExpr) -> Seq<SExpr>
    decreases e,
{
    let here = match e {
        SExpr::Concat(_) | SExpr::Alternation(_) | SExpr::Repetition { .. } => seq![e],
        _ => Seq::empty(),
    };
    match e {
        SExpr::Concat(items) => here + compound_nodes_of(items),
        SExpr::Alternation(items) => here + compound_nodes_of(items),
        SExpr::Repetition { expr, .. } => here + compound_nodes(*expr),
        SExpr::Group { expr, .. } => compound_nodes(*expr),
        _ => here,
    }
}

pub open spec fn compound_nodes_of(items: Seq<SExpr>) -> Seq<SExpr>
    decreases items,
{
    if items.len() == 0 {
        Seq::empty()
    } else {
        compound_nodes_of(items.drop_last()) + compound_nodes(items.last())
    }
}

/// Simplifies syntax trees, and counts the compound subexpressions it meets.
pub struct Optimizer {
    common_subexprs: Vec<Expr>,
}

impl Optimizer {
    /// The compound subexpressions met so far, each time it was met, in order.
    pub closed spec fn recorded(&self) -> Seq<SExpr> {
        view_seq(self.common_subexprs@)
    }

    pub fn new() -> (o: Self)
        ensures
            o.recorded() == Seq::<SExpr>::empty(),
    {
        let o = Optimizer { common_subexprs: Vec::new() };
        assert(o.recorded() =~= Seq::<SExpr>::empty());
        o
    }

    fn is_effectively_empty(&self, expr: &Expr) -> (b: bool)
        ensures
            b == spec_effectively_empty(expr@),
        decreases expr,
    {
        match expr {
            Expr::Empty => true,
            Expr::Group { expr, .. } => self.is_effectively_empty(expr),
            Expr::Repetition { kind, .. } => match kind {
                RepetitionKind::ZeroOrMore | RepetitionKind::ZeroOrOne => true,
                RepetitionKind::Exactly(n) => *n == 0,
                _ => false,
            },
            Expr::Concat(items) => self.all_effectively_empty(items),
            Expr::Alternation(items) => self.all_effectively_empty(items),
            _ => false,
        }
    }

    fn all_effectively_empty(&self, items: &Vec<Expr>) -> (b: bool)
        ensures
            b == all_effectively_empty(view_seq(items@)),
        decreases items,
    {
        let ghost vs = view_seq(items@);
        let mut i: usize = 0;
        while i < items.len()
            invariant
                i <= items.len(),
                vs == view_seq(items@),
                all_effectively_empty(vs.take(i as int)),
            decreases items.len() - i,
        {
            proof {
                assert(decreases_to!(items => items@[i as int]));
            }
            let e = self.is_effectively_empty(&items[i]);
            assert(vs.take(i + 1).drop_last() =~= vs.take(i as int));
            if !e {
                proof {
                    lemma_all_effectively_empty_prefix(vs, i + 1);
                }
                return false;
            }
            i += 1;
        }
        assert(vs.take(items.len() as int) =~= vs);
        true
    }

    /// Simplifies an expression, then counts its compound subexpressions.
    pub fn optimize(&mut self, expr: Expr) -> (r: Expr)
        ensures
            r@ == spec_fold(expr@),
            final(self).recorded() == old(self).recorded() + compound_nodes(spec_fold(expr@)),
    {
        let folded = self.fold_constants(&expr);
        self.eliminate_common_subexprs(folded)
    }

    fn eliminate_common_subexprs(&mut self, expr: Expr) -> (r: Expr)
        ensures
            r@ == expr@,
            final(self).recorded() == old(self).recorded() + compound_nodes(expr@),
    {
        let mapped = self.map_subexprs(&expr);
        self.deduplicate_subexprs(mapped)
    }

    /// Counts the compound subexpressions of `expr` and gives back an equal expression.
    fn map_subexprs(&mut self, expr: &Expr) -> (r: Expr)
        ensures
            r@ == expr@,
            final(self).recorded() == old(self).recorded() + compound_nodes(expr@),
        decreases expr,
    {
        let ghost start = self.recorded();
        match expr {
            Expr::Concat(_) | Expr::Alternation(_) | Expr::Repetition { .. } => {
                let c = copy_expr(expr);
                proof {
                    lemma_view_seq_push(self.common_subexprs@, c);
                }
                self.common_subexprs.push(c);
            },
            _ => {},
        }
        let ghost mid = self.recorded();
        let r = match expr {
            Expr::Concat(items) => Expr::Concat(self.map_items(items)),
            Expr::Alternation(items) => Expr::Alternation(self.map_items(items)),
            Expr::Repetition { expr: inner, kind, greedy } => {
                Expr::Repetition { expr: Box::new(self.map_subexprs(inner)), kind: *kind, greedy: *greedy }
            },
            Expr::Group { expr: inner, kind } => {
                Expr::Group { expr: Box::new(self.map_subexprs(inner)), kind: *kind }
            },
            _ => copy_expr(expr),
        };
        assert(self.recorded() =~= start + compound_nodes(expr@));
        r
    }

    fn map_items(&mut self, items: &Vec<Expr>) -> (r: Vec<Expr>)
        ensures
            view_seq(r@) == view_seq(items@),
            final(self).recorded() == old(self).recorded() + compound_nodes_of(view_seq(items@)),
        decreases items,
    {
        let ghost vs = view_seq(items@);
        let ghost start = self.recorded();
        let mut out: Vec<Expr> = Vec::new();
        let mut i: usize = 0;
        assert(start + compound_nodes_of(vs.take(0)) =~= start);
        assert(view_seq(out@) =~= vs.take(0));
        while i < items.len()
            invariant
                i <= items.len(),
                vs == view_seq(items@),
                view_seq(out@) == vs.take(i as int),
                self.recorded() == start + compound_nodes_of(vs.take(i as int)),
            decreases items.len() - i,
        {
            proof {
                assert(decreases_to!(items => items@[i as int]));
            }
            let m = self.map_subexprs(&items[i]);
            proof {
                lemma_view_seq_push(out@, m);
                assert(vs.take(i + 1).drop_last() =~= vs.take(i as int));
                assert(vs.take(i as int).push(m@) =~= vs.take(i + 1));
                assert(start + compound_nodes_of(vs.take(i + 1)) =~= start + compound_nodes_of(vs.take(i as int)) + compound_nodes(vs[i as int]));
            }
            out.push(m);
            i += 1;
        }
        assert(vs.take(items.len() as int) =~= vs);
        out
    }

    /// Gives back the expression: no subexpression is shared.
    fn deduplicate_subexprs(&self, expr: Expr) -> (r: Expr)
        ensures
            r@ == expr@,
    {
        expr
    }

    /// The text of an expression.
    pub fn to_regex_string(&self, expr: &Expr) -> (r: String)
        ensures
            r@ == spec_expr_text(expr@, 0),
    {
        let mut out = String::new();
        write_expr(&mut out, expr, 0);
        out
    }

    /// Simplifies an expression (see `spec_fold`).
    fn fold_constants(&self, expr: &Expr) -> (r: Expr)
        ensures
            r@ == spec_fold(expr@),
        decreases expr,
    {
        match expr {
            Expr::Concat(items) => {
                let kept = self.fold_kept_items(items);
                let mut folded = regroup_literals(kept);
                if folded.len() == 0 {
                    Expr::Empty
                } else if folded.len() == 1 {
                    folded.pop().unwrap()
                } else {
                    Expr::Concat(folded)
                }
            },
            Expr::Alternation(branches) => {
                let all = self.fold_all_items(branches);
                let mut optimized = sort_dedup_exprs(all);
                if optimized.len() == 1 {
                    optimized.pop().unwrap()
                } else {
                    Expr::Alternation(optimized)
                }
            },
            Expr::Repetition { expr: inner_expr, kind, greedy } => {
                let inner = self.fold_constants(inner_expr);
                if inner.is_empty() {
                    return Expr::Empty;
                }
                match kind {
                    RepetitionKind::Exactly(n) => {
                        if *n == 0 {
                            Expr::Empty
                        } else if *n == 1 {
                            inner
                        } else {
                            Expr::Repetition { expr: Box::new(inner), kind: *kind, greedy: *greedy }
                        }
                    },
                    RepetitionKind::Range(min, max) => {
                        if *min == *max {
                            Expr::Repetition { expr: Box::new(inner), kind: RepetitionKind::Exactly(*min), greedy: *greedy }
                        } else {
                            Expr::Repetition { expr: Box::new(inner), kind: *kind, greedy: *greedy }
                        }
                    },
                    _ => Expr::Repetition { expr: Box::new(inner), kind: *kind, greedy: *greedy },
                }
            },
            Expr::Group { expr: inner_expr, kind } => {
                let inner = self.fold_constants(inner_expr);
                match kind {
                    GroupKind::NonCapturing => inner,
                    _ => Expr::Group { expr: Box::new(inner), kind: *kind },
                }
            },
            _ => copy_expr(expr),
        }
    }

    /// The simplified items that are not effectively empty.
    fn fold_kept_items(&self, items: &Vec<Expr>) -> (r: Vec<Expr>)
        ensures
            view_seq(r@) == fold_kept(view_seq(items@)),
        decreases items,
    {
        let ghost vs = view_seq(items@);
        let mut kept: Vec<Expr> = Vec::new();
        let mut i: usize = 0;
        assert(view_seq(kept@) =~= fold_kept(vs.take(0)));
        while i < items.len()
            invariant
                i <= items.len(),
                vs == view_seq(items@),
                view_seq(kept@) == fold_kept(vs.take(i as int)),
            decreases items.len() - i,
        {
            proof {
                assert(decreases_to!(items => items@[i as int]));
            }
            let f = self.fold_constants(&items[i]);
            assert(vs.take(i + 1).drop_last() =~= vs.take(i as int));
            if !self.is_effectively_empty(&f) {
                proof {
                    lemma_view_seq_push(kept@, f);
                }
                kept.push(f);
            }
            i += 1;
        }
        assert(vs.take(items.len() as int) =~= vs);
        kept
    }

    /// All items simplified.
    fn fold_all_items(&self, items: &Vec<Expr>) -> (r: Vec<Expr>)
        ensures
            view_seq(r@) == fold_all(view_seq(items@)),
        decreases items,
    {
        let ghost vs = view_seq(items@);
        let mut all: Vec<Expr> = Vec::new();
        let mut i: usize = 0;
        assert(view_seq(all@) =~= fold_all(vs.take(0)));
        while i < items.len()
            invariant
                i <= items.len(),
                vs == view_seq(items@),
                view_seq(all@) == fold_all(vs.take(i as int)),
            decreases items.len() - i,
        {
            proof {
                assert(decreases_to!(items => items@[i as int]));
            }
            let f = self.fold_constants(&items[i]);
            assert(vs.take(i + 1).drop_last() =~= vs.take(i as int));
            proof {
                lemma_view_seq_push(all@, f);
            }
            all.push(f);
            i += 1;
        }
        assert(vs.take(items.len() as int) =~= vs);
        all
    }
}

proof fn lemma_all_effectively_empty_prefix(vs: Seq<SExpr>, n: int)
    requires
        0 < n <= vs.len(),
        !all_effectively_empty(vs.take(n)),
    ensures
        !all_effectively_empty(vs),
    decreases vs.len() - n,
{
    if n < vs.len() {
        assert(vs.take(n + 1).drop_last() =~= vs.take(n));
        lemma_all_effectively_empty_prefix(vs, n + 1);
    } else {
        assert(vs.take(n) =~= vs);
    }
}

/// The literal characters of `cs`, as expressions.
pub open spec fn literal_exprs(cs: Seq<char>) -> Seq<SExpr>
    decreases cs.len(),
{
    if cs.len() == 0 {
        Seq::empty()
    } else {
        literal_exprs(cs.drop_last()).push(SExpr::Literal(cs.last()))
    }
}

proof fn lemma_append_push<A>(a: Seq<A>, b: Seq<A>, y: A)
    ensures
        a + b.push(y) == (a + b).push(y),
{
    assert(a + b.push(y) =~= (a + b).push(y));
}

proof fn lemma_literal_exprs_push(cs: Seq<char>, c: char)
    ensures
        literal_exprs(cs.push(c)) == literal_exprs(cs).push(SExpr::Literal(c)),
{
    assert(cs.push(c).drop_last() =~= cs);
    assert(cs.push(c).last() == c);
}

fn literal_expr(c: char) -> (e: Expr)
    ensures
        e@ == SExpr::Literal(c),
{
    proof {
        lemma_literal_view(c);
    }
    Expr::Literal(c)
}

/// Moves the buffered characters to the end of `folded`, as literal expressions.
fn flush_literals(folded: &mut Vec<Expr>, buf: &mut Vec<char>)
    ensures
        view_seq(final(folded)@) == view_seq(old(folded)@) + literal_exprs(old(buf)@),
        final(buf)@.len() == 0,
{
    let ghost start = view_seq(folded@);
    let mut i: usize = 0;
    while i < buf.len()
        invariant
            i <= buf.len(),
            view_seq(folded@) == start + literal_exprs(buf@.take(i as int)),
        decreases buf.len() - i,
    {
        let c = buf[i];
        let e = literal_expr(c);
        proof {
            lemma_view_seq_push(folded@, e);
            assert(buf@.take(i + 1) =~= buf@.take(i as int).push(c));
            lemma_literal_exprs_push(buf@.take(i as int), c);
            lemma_append_push(start, literal_exprs(buf@.take(i as int)), SExpr::Literal(c));
        }
        folded.push(e);
        i += 1;
    }
    assert(buf@.take(buf.len() as int) =~= buf@);
    buf.clear();
}

/// Runs of literal characters gathered and put back in place: the sequence is unchanged.
fn regroup_literals(items: Vec<Expr>) -> (r: Vec<Expr>)
    ensures
        view_seq(r@) == view_seq(items@),
{
    let ghost orig = view_seq(items@);
    let mut items = items;
    let mut folded: Vec<Expr> = Vec::new();
    let mut buf: Vec<char> = Vec::new();
    assert(view_seq(folded@) + literal_exprs(buf@) =~= orig.take(0));
    while items.len() > 0
        invariant
            items.len() <= orig.len(),
            view_seq(items@) == orig.skip(orig.len() - items.len()),
            view_seq(folded@) + literal_exprs(buf@) == orig.take(orig.len() - items.len()),
        decreases items.len(),
    {
        let ghost k = orig.len() - items.len();
        let ghost before = items@;
        let x = items.remove(0);
        assert(x@ == orig[k]) by {
            assert(view_seq(before)[0] == orig.skip(k)[0]);
        }
        assert(view_seq(items@) =~= orig.skip(k + 1)) by {
            assert(items@ =~= before.remove(0));
            assert forall|j: int| 0 <= j < view_seq(items@).len() implies view_seq(items@)[j] == orig.skip(k + 1)[j] by {
                assert(items@[j] == before[j + 1]);
                assert(view_seq(before)[j + 1] == orig.skip(k)[j + 1]);
            }
        }
        match x {
            Expr::Literal(c) => {
                let ghost fb = view_seq(folded@);
                let ghost bb = buf@;
                buf.push(c);
                proof {
                    lemma_literal_exprs_push(bb, c);
                }
                assert(orig.take(k + 1) =~= orig.take(k).push(orig[k]));
                assert(fb + literal_exprs(buf@) =~= (fb + literal_exprs(bb)).push(SExpr::Literal(c)));
            },
            other => {
                flush_literals(&mut folded, &mut buf);
                let ghost fb = folded@;
                folded.push(other);
                proof {
                    lemma_view_seq_push(fb, other);
                    assert(literal_exprs(buf@) =~= Seq::<SExpr>::empty());
                    assert(orig.take(k + 1) =~= orig.take(k).push(orig[k]));
                }
            },
        }
    }
    flush_literals(&mut folded, &mut buf);
    assert(literal_exprs(buf@) =~= Seq::<SExpr>::empty());
    assert(orig.take(orig.len() as int) =~= orig);
    assert(view_seq(folded@) =~= orig);
    folded
}


/// Simplifies an expression.
pub fn optimize(expr: Expr) -> (r: Expr)
    ensures
        r@ == spec_fold(expr@),
{
    let mut o = Optimizer::new();
    o.optimize(expr)
}


/// Whether a repetition of this kind lets its operand occur exactly `n` times in a row.
pub open spec fn repetition_admits(kind: RepetitionKind, n: nat) -> bool {
    match kind {
        RepetitionKind::ZeroOrMore => true,
        RepetitionKind::OneOrMore => n >= 1,
        RepetitionKind::ZeroOrOne => n <= 1,
        RepetitionKind::Exactly(k) => n == k,
        RepetitionKind::AtLeast(k) => n >= k,
        RepetitionKind::Range(lo, hi) => lo <= n && n <= hi,
    }
}

/// Simplifying a repetition keeps the counts it admits: an operand that simplifies to
/// nothing leaves nothing; otherwise the result is nothing when only zero occurrences
/// were admitted, the simplified operand itself when only one was, and else a repetition
/// of the simplified operand, with the same greediness, that admits exactly the same
/// counts as before (so `{m,n}` with `m < n` stays a range from `m` to `n`).
pub proof fn law_fold_repetition_keeps_counts(x: SExpr, kind: RepetitionKind, greedy: bool)
    ensures
        ({
            let r = spec_fold(SExpr::Repetition { expr: Box::new(x), kind, greedy });
            let inner = spec_fold(x);
            &&& inner is Empty ==> r is Empty
            &&& !(inner is Empty) ==> {
                ||| (r is Empty && forall|n: nat| repetition_admits(kind, n) <==> n == 0)
                ||| (r == inner && forall|n: nat| repetition_admits(kind, n) <==> n == 1)
                ||| (r matches SExpr::Repetition { expr: e2, kind: k2, greedy: g2 }
                        && *e2 == inner && g2 == greedy
                        && forall|n: nat| repetition_admits(k2, n) <==> repetition_admits(kind, n))
            }
        }),
{
    let r = spec_fold(SExpr::Repetition { expr: Box::new(x), kind, greedy });
    let inner = spec_fold(x);
    if !(inner is Empty) {
        match kind {
            RepetitionKind::Exactly(k) => {
                if k == 0 {
                    assert(forall|n: nat| repetition_admits(kind, n) <==> n == 0);
                } else if k == 1 {
                    assert(forall|n: nat| repetition_admits(kind, n) <==> n == 1);
                } else {
                    assert(r == SExpr::Repetition { expr: Box::new(inner), kind, greedy });
                }
            },
            RepetitionKind::Range(lo, hi) => {
                if lo == hi {
                    assert(r == SExpr::Repetition { expr: Box::new(inner), kind: RepetitionKind::Exactly(lo), greedy });
                    assert forall|n: nat| repetition_admits(RepetitionKind::Exactly(lo), n) <==> repetition_admits(kind, n) by {}
                } else {
                    assert(r == SExpr::Repetition { expr: Box::new(inner), kind, greedy });
                }
            },
            _ => {
                assert(r == SExpr::Repetition { expr: Box::new(inner), kind, greedy });
            },
        }
    }
}

} // verus!
