//! The words that the automaton of Thompson's construction accepts.
use vstd::prelude::*;
use crate::ast::{SExpr, RepetitionKind};
use crate::dfa::{STransition, SSymbol, target_of, symbol_of, move_on};
use crate::nfa::{
    add_edge, fresh, spec_build, spec_build_sequence, spec_build_branches, spec_build_copies,
    spec_build_optionals, spec_build_repetition, spec_epsilon_closure, eps_closed, nfa_run, nfa_accepts,
    lemma_closure_closed, kind_level,
};
use crate::optimizer::repetition_admits;
use crate::nfa_empty::{
    fragment, lemma_add_edge, lemma_build, lemma_build_sequence, lemma_build_branches, lemma_build_copies,
    lemma_build_repetition,
};

verus! {

/// Every edge of `t` is an edge of `u`: `u` grew from `t` by new states and new edges.
pub open spec fn extends(t: Seq<Seq<STransition>>, u: Seq<Seq<STransition>>) -> bool {
    &&& t.len() <= u.len()
    &&& forall|i: int, j: int| 0 <= i < t.len() && 0 <= j < t[i].len() ==> u[i].contains(#[trigger] t[i][j])
}

proof fn lemma_extends_refl(t: Seq<Seq<STransition>>)
    ensures
        extends(t, t),
{
    assert forall|i: int, j: int| 0 <= i < t.len() && 0 <= j < t[i].len() implies t[i].contains(#[trigger] t[i][j]) by {}
}

proof fn lemma_extends_trans(t: Seq<Seq<STransition>>, u: Seq<Seq<STransition>>, v: Seq<Seq<STransition>>)
    requires
        extends(t, u),
        extends(u, v),
    ensures
        extends(t, v),
{
    assert forall|i: int, j: int| 0 <= i < t.len() && 0 <= j < t[i].len() implies v[i].contains(#[trigger] t[i][j]) by {
        let j2 = choose|j2: int| 0 <= j2 < u[i].len() && u[i][j2] == t[i][j];
        assert(v[i].contains(u[i][j2]));
    }
}

proof fn lemma_extends_add_edge(t: Seq<Seq<STransition>>, f: nat, tr: STransition)
    ensures
        extends(t, add_edge(t, f, tr)),
{
    let u = add_edge(t, f, tr);
    assert forall|i: int, j: int| 0 <= i < t.len() && 0 <= j < t[i].len() implies u[i].contains(#[trigger] t[i][j]) by {
        if f < t.len() && i == f && !t[f as int].contains(tr) {
            assert(u[i][j] == t[i][j]);
        } else {
            assert(u[i][j] == t[i][j]);
        }
    }
}

proof fn lemma_extends_fresh(t: Seq<Seq<STransition>>)
    ensures
        extends(t, fresh(t)),
{
    let u = fresh(t);
    assert forall|i: int, j: int| 0 <= i < t.len() && 0 <= j < t[i].len() implies u[i].contains(#[trigger] t[i][j]) by {
        assert(u[i][j] == t[i][j]);
    }
}

/// Tables whose earlier rows are untouched extend the earlier table.
proof fn lemma_extends_rows(t: Seq<Seq<STransition>>, u: Seq<Seq<STransition>>)
    requires
        t.len() <= u.len(),
        forall|i: int| 0 <= i < t.len() ==> #[trigger] u[i] == t[i],
    ensures
        extends(t, u),
{
    assert forall|i: int, j: int| 0 <= i < t.len() && 0 <= j < t[i].len() implies u[i].contains(#[trigger] t[i][j]) by {
        assert(u[i][j] == t[i][j]);
    }
}

/// The closure of a set lies in every epsilon-closed set that holds it.
proof fn lemma_closure_within(t: Seq<Seq<STransition>>, s: Set<nat>, c: Set<nat>)
    requires
        eps_closed(t, c),
        s.subset_of(c),
    ensures
        spec_epsilon_closure(t, s).subset_of(c),
{
}

proof fn lemma_closure_mono(t: Seq<Seq<STransition>>, u: Seq<Seq<STransition>>, s: Set<nat>, s2: Set<nat>)
    requires
        extends(t, u),
        s.subset_of(s2),
    ensures
        spec_epsilon_closure(t, s).subset_of(spec_epsilon_closure(u, s2)),
{
    assert forall|x: nat| spec_epsilon_closure(t, s).contains(x) implies spec_epsilon_closure(u, s2).contains(x) by {
        assert forall|c: Set<nat>| #[trigger] eps_closed(u, c) && s2.subset_of(c) implies c.contains(x) by {
            assert(eps_closed(t, c)) by {
                assert forall|i: int, j: int|
                    0 <= i < t.len() && 0 <= j < t[i].len() && c.contains(i as nat) && (#[trigger] t[i][j]) is Epsilon
                    implies c.contains(target_of(t[i][j])) by {
                    let j2 = choose|j2: int| 0 <= j2 < u[i].len() && u[i][j2] == t[i][j];
                    assert(u[i][j2] is Epsilon);
                }
            }
        }
    }
}

proof fn lemma_move_mono(t: Seq<Seq<STransition>>, u: Seq<Seq<STransition>>, s: Set<nat>, s2: Set<nat>, a: SSymbol)
    requires
        extends(t, u),
        s.subset_of(s2),
    ensures
        move_on(t, s, a).subset_of(move_on(u, s2, a)),
{
    assert forall|y: nat| move_on(t, s, a).contains(y) implies move_on(u, s2, a).contains(y) by {
        let (x, j) = choose|x: int, j: int| 0 <= x < t.len() && 0 <= j < t[x].len() && s.contains(x as nat)
            && symbol_of(#[trigger] t[x][j]) == Some(a) && target_of(t[x][j]) == y;
        let j2 = choose|j2: int| 0 <= j2 < u[x].len() && u[x][j2] == t[x][j];
        assert(symbol_of(u[x][j2]) == Some(a) && target_of(u[x][j2]) == y);
    }
}

/// Running from more states, with more edges, reaches more states.
proof fn lemma_run_mono(t: Seq<Seq<STransition>>, u: Seq<Seq<STransition>>, s: Set<nat>, s2: Set<nat>, w: Seq<SSymbol>)
    requires
        extends(t, u),
        s.subset_of(s2),
    ensures
        nfa_run(t, s, w).subset_of(nfa_run(u, s2, w)),
    decreases w.len(),
{
    if w.len() > 0 {
        lemma_move_mono(t, u, s, s2, w[0]);
        lemma_closure_mono(t, u, move_on(t, s, w[0]), move_on(u, s2, w[0]));
        lemma_run_mono(t, u, spec_epsilon_closure(t, move_on(t, s, w[0])),
            spec_epsilon_closure(u, move_on(u, s2, w[0])), w.drop_first());
    }
}

/// Reading `w1` then `w2` is reading `w1 + w2`.
proof fn lemma_run_append(t: Seq<Seq<STransition>>, s: Set<nat>, w1: Seq<SSymbol>, w2: Seq<SSymbol>)
    ensures
        nfa_run(t, s, w1 + w2) == nfa_run(t, nfa_run(t, s, w1), w2),
    decreases w1.len(),
{
    if w1.len() == 0 {
        assert(w1 + w2 =~= w2);
    } else {
        assert((w1 + w2)[0] == w1[0]);
        assert((w1 + w2).drop_first() =~= w1.drop_first() + w2);
        lemma_run_append(t, spec_epsilon_closure(t, move_on(t, s, w1[0])), w1.drop_first(), w2);
    }
}

/// Running from an epsilon-closed set ends in an epsilon-closed set.
proof fn lemma_run_closed(t: Seq<Seq<STransition>>, s: Set<nat>, w: Seq<SSymbol>)
    requires
        eps_closed(t, s),
    ensures
        eps_closed(t, nfa_run(t, s, w)),
    decreases w.len(),
{
    if w.len() > 0 {
        lemma_closure_closed(t, move_on(t, s, w[0]));
        lemma_run_closed(t, spec_epsilon_closure(t, move_on(t, s, w[0])), w.drop_first());
    }
}

/// Accepted words chain: from `s` to `m` on `w1`, then from `m` to `a` on `w2`.
proof fn lemma_accepts_trans(t: Seq<Seq<STransition>>, s: nat, m: nat, a: nat, w1: Seq<SSymbol>, w2: Seq<SSymbol>)
    requires
        nfa_accepts(t, s, m, w1),
        nfa_accepts(t, m, a, w2),
    ensures
        nfa_accepts(t, s, a, w1 + w2),
{
    let c0 = spec_epsilon_closure(t, set![s]);
    let r = nfa_run(t, c0, w1);
    lemma_closure_closed(t, set![s]);
    lemma_run_closed(t, c0, w1);
    lemma_closure_within(t, set![m], r);
    lemma_extends_refl(t);
    lemma_run_mono(t, t, spec_epsilon_closure(t, set![m]), r, w2);
    lemma_run_append(t, c0, w1, w2);
}

/// More states and edges accept every word accepted before.
proof fn lemma_accepts_extends(t: Seq<Seq<STransition>>, u: Seq<Seq<STransition>>, s: nat, a: nat, w: Seq<SSymbol>)
    requires
        extends(t, u),
        nfa_accepts(t, s, a, w),
    ensures
        nfa_accepts(u, s, a, w),
{
    lemma_closure_mono(t, u, set![s], set![s]);
    lemma_run_mono(t, u, spec_epsilon_closure(t, set![s]), spec_epsilon_closure(u, set![s]), w);
}

/// A state accepts the empty word into itself.
proof fn lemma_accepts_self(t: Seq<Seq<STransition>>, s: nat)
    ensures
        nfa_accepts(t, s, s, Seq::empty()),
{
    lemma_closure_closed(t, set![s]);
}

/// An epsilon edge accepts the empty word.
proof fn lemma_accepts_eps(t: Seq<Seq<STransition>>, x: nat, y: nat)
    requires
        x < t.len(),
        t[x as int].contains(STransition::Epsilon(y)),
    ensures
        nfa_accepts(t, x, y, Seq::empty()),
{
    lemma_closure_closed(t, set![x]);
    let j = choose|j: int| 0 <= j < t[x as int].len() && t[x as int][j] == STransition::Epsilon(y);
    assert(t[x as int][j] is Epsilon);
}

/// An edge that reads a symbol accepts the one-symbol word.
proof fn lemma_accepts_symbol(t: Seq<Seq<STransition>>, x: nat, tr: STransition, a: SSymbol)
    requires
        x < t.len(),
        t[x as int].contains(tr),
        symbol_of(tr) == Some(a),
    ensures
        nfa_accepts(t, x, target_of(tr), seq![a]),
{
    let c0 = spec_epsilon_closure(t, set![x]);
    lemma_closure_closed(t, set![x]);
    let j = choose|j: int| 0 <= j < t[x as int].len() && t[x as int][j] == tr;
    assert(move_on(t, c0, a).contains(target_of(tr))) by {
        assert(symbol_of(t[x as int][j]) == Some(a));
    }
    let m = move_on(t, c0, a);
    lemma_closure_closed(t, m);
    assert(seq![a].drop_first() =~= Seq::<SSymbol>::empty());
    assert(nfa_run(t, c0, seq![a]) == nfa_run(t, spec_epsilon_closure(t, m), Seq::empty()));
}


} // verus!

verus! {

/// The least count a repetition admits.
pub open spec fn count_low(kind: RepetitionKind) -> nat {
    match kind {
        RepetitionKind::ZeroOrMore => 0,
        RepetitionKind::OneOrMore => 1,
        RepetitionKind::ZeroOrOne => 0,
        RepetitionKind::Exactly(n) => n as nat,
        RepetitionKind::AtLeast(n) => n as nat,
        RepetitionKind::Range(lo, _) => lo as nat,
    }
}

/// The greatest count worth trying on a word of length `len`: the kind's own bound, or,
/// for a kind without one, the least count plus `len` (beyond that, pieces are empty and
/// can be left out).
pub open spec fn count_high(kind: RepetitionKind, len: nat) -> nat {
    match kind {
        RepetitionKind::ZeroOrOne => 1,
        RepetitionKind::Exactly(n) => n as nat,
        RepetitionKind::Range(_, hi) => hi as nat,
        _ => count_low(kind) + len,
    }
}

/// The words (sequences of edge labels) that an expression matches: a literal matches its
/// character, a class the class's label; a sequence matches the words split into pieces
/// that its items match in turn, an alternation the words one of its branches matches; a
/// repetition matches the words split into `k` pieces that its operand matches, for a
/// count `k` that it admits; a group matches what its content matches; the empty
/// expression, anchors and back-references read nothing and match the empty word.
pub open spec fn spec_matches(e: SExpr, w: Seq<SSymbol>) -> bool
    decreases e, 0nat, 0nat,
{
    match e {
        SExpr::Literal(c) => w == seq![SSymbol::Char(c)],
        SExpr::Class(cls) => w == seq![SSymbol::Class(cls)],
        SExpr::Concat(items) => concat_matches(items, w),
        SExpr::Alternation(items) => alt_matches(items, w),
        SExpr::Repetition { expr, kind, .. } => count_matches(*expr, count_low(kind), count_high(kind, w.len()), w),
        SExpr::Group { expr, .. } => spec_matches(*expr, w),
        _ => w.len() == 0,
    }
}

/// `w` splits into pieces that the items match in turn.
pub open spec fn concat_matches(items: Seq<SExpr>, w: Seq<SSymbol>) -> bool
    decreases items, 1nat, 0nat,
{
    if items.len() == 0 {
        w.len() == 0
    } else {
        concat_split(items, w, w.len())
    }
}

/// For some split point `j <= i`, the items but the last match `w[..j]` and the last item `w[j..]`.
pub open spec fn concat_split(items: Seq<SExpr>, w: Seq<SSymbol>, i: nat) -> bool
    decreases items, 0nat, i,
{
    if items.len() == 0 {
        false
    } else {
        (i <= w.len() && concat_matches(items.drop_last(), w.take(i as int)) && spec_matches(items.last(), w.skip(i as int)))
            || (i > 0 && concat_split(items, w, (i - 1) as nat))
    }
}

/// Some item matches `w`.
pub open spec fn alt_matches(items: Seq<SExpr>, w: Seq<SSymbol>) -> bool
    decreases items, 0nat, 0nat,
{
    if items.len() == 0 {
        false
    } else {
        alt_matches(items.drop_last(), w) || spec_matches(items.last(), w)
    }
}

/// `w` splits into `k` pieces that `x` matches, for some `k` with `lo <= k <= hi`.
pub open spec fn count_matches(x: SExpr, lo: nat, hi: nat, w: Seq<SSymbol>) -> bool
    decreases x, 2 * hi + 3, 0nat,
{
    lo <= hi && (power_matches(x, hi, w) || (hi > lo && count_matches(x, lo, (hi - 1) as nat, w)))
}

/// `w` splits into `k` pieces that `x` matches.
pub open spec fn power_matches(x: SExpr, k: nat, w: Seq<SSymbol>) -> bool
    decreases x, 2 * k + 2, 0nat,
{
    if k == 0 {
        w.len() == 0
    } else {
        power_split(x, k, w, w.len())
    }
}

/// For some split point `j <= i`, `w[..j]` is `k - 1` pieces and `x` matches `w[j..]`.
pub open spec fn power_split(x: SExpr, k: nat, w: Seq<SSymbol>, i: nat) -> bool
    decreases x, 2 * k + 1, i,
{
    if k == 0 {
        false
    } else {
        (i <= w.len() && power_matches(x, (k - 1) as nat, w.take(i as int)) && spec_matches(x, w.skip(i as int)))
            || (i > 0 && power_split(x, k, w, (i - 1) as nat))
    }
}

proof fn lemma_concat_witness(items: Seq<SExpr>, w: Seq<SSymbol>, i: nat) -> (j: nat)
    requires
        concat_split(items, w, i),
    ensures
        items.len() > 0,
        j <= i,
        j <= w.len(),
        concat_matches(items.drop_last(), w.take(j as int)),
        spec_matches(items.last(), w.skip(j as int)),
    decreases i,
{
    if i <= w.len() && concat_matches(items.drop_last(), w.take(i as int)) && spec_matches(items.last(), w.skip(i as int)) {
        i
    } else {
        lemma_concat_witness(items, w, (i - 1) as nat)
    }
}

proof fn lemma_power_witness(x: SExpr, k: nat, w: Seq<SSymbol>, i: nat) -> (j: nat)
    requires
        power_split(x, k, w, i),
    ensures
        k > 0,
        j <= i,
        j <= w.len(),
        power_matches(x, (k - 1) as nat, w.take(j as int)),
        spec_matches(x, w.skip(j as int)),
    decreases i,
{
    if i <= w.len() && power_matches(x, (k - 1) as nat, w.take(i as int)) && spec_matches(x, w.skip(i as int)) {
        i
    } else {
        lemma_power_witness(x, k, w, (i - 1) as nat)
    }
}

proof fn lemma_power_intro(x: SExpr, k: nat, w: Seq<SSymbol>, i: nat, j: nat)
    requires
        k > 0,
        j <= i,
        j <= w.len(),
        power_matches(x, (k - 1) as nat, w.take(j as int)),
        spec_matches(x, w.skip(j as int)),
    ensures
        power_split(x, k, w, i),
    decreases i,
{
    if i > j {
        lemma_power_intro(x, k, w, (i - 1) as nat, j);
    }
}

proof fn lemma_count_witness(x: SExpr, lo: nat, hi: nat, w: Seq<SSymbol>) -> (k: nat)
    requires
        count_matches(x, lo, hi, w),
    ensures
        lo <= k <= hi,
        power_matches(x, k, w),
    decreases hi,
{
    if power_matches(x, hi, w) {
        hi
    } else {
        lemma_count_witness(x, lo, (hi - 1) as nat, w)
    }
}

proof fn lemma_count_intro(x: SExpr, lo: nat, hi: nat, k: nat, w: Seq<SSymbol>)
    requires
        lo <= k <= hi,
        power_matches(x, k, w),
    ensures
        count_matches(x, lo, hi, w),
    decreases hi,
{
    if hi > k {
        lemma_count_intro(x, lo, (hi - 1) as nat, k, w);
    }
}

proof fn lemma_power_one(x: SExpr, w: Seq<SSymbol>)
    ensures
        power_matches(x, 1, w) == spec_matches(x, w),
{
    assert(w.take(0).len() == 0);
    assert(w.skip(0) =~= w);
    if spec_matches(x, w) {
        lemma_power_intro(x, 1, w, w.len(), 0);
    }
    if power_matches(x, 1, w) {
        let j = lemma_power_witness(x, 1, w, w.len());
        assert(j == 0);
    }
}

/// `k1` pieces followed by `k2` pieces are `k1 + k2` pieces.
proof fn lemma_power_append(x: SExpr, k1: nat, w1: Seq<SSymbol>, k2: nat, w2: Seq<SSymbol>)
    requires
        power_matches(x, k1, w1),
        power_matches(x, k2, w2),
    ensures
        power_matches(x, k1 + k2, w1 + w2),
    decreases k2,
{
    if k2 == 0 {
        assert(w1 + w2 =~= w1);
    } else {
        let i = lemma_power_witness(x, k2, w2, w2.len());
        lemma_power_append(x, k1, w1, (k2 - 1) as nat, w2.take(i as int));
        let w = w1 + w2;
        let n = (w1.len() + i) as nat;
        assert(w.take(n as int) =~= w1 + w2.take(i as int));
        assert(w.skip(n as int) =~= w2.skip(i as int));
        lemma_power_intro(x, k1 + k2, w, w.len(), n);
    }
}

/// `k` pieces split after the first `n` of them.
proof fn lemma_power_split(x: SExpr, k: nat, n: nat, w: Seq<SSymbol>) -> (i: nat)
    requires
        power_matches(x, k, w),
        n <= k,
    ensures
        i <= w.len(),
        power_matches(x, n, w.take(i as int)),
        power_matches(x, (k - n) as nat, w.skip(i as int)),
    decreases k,
{
    if n == k {
        assert(w.take(w.len() as int) =~= w);
        assert(w.skip(w.len() as int).len() == 0);
        w.len()
    } else {
        let i0 = lemma_power_witness(x, k, w, w.len());
        let u = w.take(i0 as int);
        let v = w.skip(i0 as int);
        let i1 = lemma_power_split(x, (k - 1) as nat, n, u);
        assert(w.take(i1 as int) =~= u.take(i1 as int));
        let rest = w.skip(i1 as int);
        assert(rest.take(i0 - i1) =~= u.skip(i1 as int));
        assert(rest.skip(i0 - i1) =~= v);
        lemma_power_intro(x, (k - n) as nat, rest, rest.len(), (i0 - i1) as nat);
        i1
    }
}

/// Pieces of a starred operand are themselves a run of at most `w.len()` pieces of the operand.
proof fn lemma_power_of_star(y: SExpr, g: bool, k: nat, w: Seq<SSymbol>) -> (k2: nat)
    requires
        power_matches(SExpr::Repetition { expr: Box::new(y), kind: RepetitionKind::ZeroOrMore, greedy: g }, k, w),
    ensures
        k2 <= w.len(),
        power_matches(y, k2, w),
    decreases k,
{
    let x = SExpr::Repetition { expr: Box::new(y), kind: RepetitionKind::ZeroOrMore, greedy: g };
    if k == 0 {
        0
    } else {
        let i = lemma_power_witness(x, k, w, w.len());
        let k1 = lemma_power_of_star(y, g, (k - 1) as nat, w.take(i as int));
        let k3 = lemma_count_witness(y, 0, w.skip(i as int).len(), w.skip(i as int));
        lemma_power_append(y, k1, w.take(i as int), k3, w.skip(i as int));
        assert(w.take(i as int) + w.skip(i as int) =~= w);
        k1 + k3
    }
}

} // verus!

verus! {

/// An edge that a row holds stays there when another edge is added.
proof fn lemma_add_edge_keeps(t: Seq<Seq<STransition>>, f: nat, tr: STransition, i: nat, x: STransition)
    requires
        i < t.len(),
        t[i as int].contains(x),
    ensures
        add_edge(t, f, tr)[i as int].contains(x),
{
    if f < t.len() {
        lemma_add_edge(t, f, tr);
        let j = choose|j: int| 0 <= j < t[i as int].len() && t[i as int][j] == x;
        if i != f {
            assert(add_edge(t, f, tr)[i as int][j] == x);
        } else {
            assert(add_edge(t, f, tr)[f as int].contains(t[f as int][j]));
        }
    }
}

/// The edges of a fragment's table are kept by the tables built on top of it.
proof fn lemma_fragment_extends(t: Seq<Seq<STransition>>, t2: Seq<Seq<STransition>>, s: nat, a: nat, nb: bool)
    requires
        fragment(t, t2, s, a, nb),
    ensures
        extends(t, t2),
{
    lemma_extends_rows(t, t2);
}

/// Three words accepted one after the other, the middle one along an epsilon edge.
proof fn lemma_accepts_via_eps(t: Seq<Seq<STransition>>, s: nat, p: nat, q: nat, a: nat, w1: Seq<SSymbol>, w2: Seq<SSymbol>)
    requires
        nfa_accepts(t, s, p, w1),
        p < t.len(),
        t[p as int].contains(STransition::Epsilon(q)),
        nfa_accepts(t, q, a, w2),
    ensures
        nfa_accepts(t, s, a, w1 + w2),
{
    lemma_accepts_eps(t, p, q);
    lemma_accepts_trans(t, s, p, q, w1, Seq::empty());
    assert(w1 + Seq::<SSymbol>::empty() =~= w1);
    lemma_accepts_trans(t, s, q, a, w1, w2);
}

pub(crate) proof fn lemma_complete(t: Seq<Seq<STransition>>, e: SExpr, w: Seq<SSymbol>)
    requires
        spec_matches(e, w),
    ensures
        nfa_accepts(spec_build(t, e).0, spec_build(t, e).1, spec_build(t, e).2, w),
    decreases e, 0nat, 0nat,
{
    match e {
        SExpr::Literal(c) => {
            let tr = STransition::Char(c, (t.len() + 1) as nat);
            let t0 = fresh(fresh(t));
            lemma_add_edge(t0, t.len(), tr);
            lemma_accepts_symbol(add_edge(t0, t.len(), tr), t.len(), tr, SSymbol::Char(c));
            assert(spec_build(t, e) == (add_edge(t0, t.len(), tr), t.len(), (t.len() + 1) as nat));
        },
        SExpr::Class(cls) => {
            let tr = STransition::Class(cls, (t.len() + 1) as nat);
            let t0 = fresh(fresh(t));
            lemma_add_edge(t0, t.len(), tr);
            lemma_accepts_symbol(add_edge(t0, t.len(), tr), t.len(), tr, SSymbol::Class(cls));
            assert(spec_build(t, e) == (add_edge(t0, t.len(), tr), t.len(), (t.len() + 1) as nat));
        },
        SExpr::Concat(items) => {
            lemma_build_sequence(t, items);
            if items.len() == 0 {
                assert(spec_build(t, e) == (fresh(t), t.len(), t.len()));
                lemma_accepts_self(fresh(t), t.len());
                assert(concat_matches(items, w));
                assert(w =~= Seq::<SSymbol>::empty());
            } else {
                lemma_seq_complete(t, items, w);
                let (t1, first, last) = spec_build_sequence(t, items);
                assert(spec_build(t, e) == (t1, first->0, last->0));
            }
        },
        SExpr::Alternation(items) => {
            lemma_branches_complete(t, items, w);
        },
        SExpr::Repetition { expr, kind, .. } => {
            let k = lemma_count_witness(*expr, count_low(kind), count_high(kind, w.len()), w);
            lemma_rep_complete(t, *expr, kind, k, w);
        },
        SExpr::Group { expr, .. } => {
            lemma_complete(t, *expr, w);
        },
        _ => {
            lemma_accepts_self(fresh(t), t.len());
            assert(w =~= Seq::<SSymbol>::empty());
        },
    }
}

proof fn lemma_seq_complete(t: Seq<Seq<STransition>>, items: Seq<SExpr>, w: Seq<SSymbol>)
    requires
        items.len() > 0,
        concat_matches(items, w),
    ensures
        nfa_accepts(spec_build_sequence(t, items).0, spec_build_sequence(t, items).1->0,
            spec_build_sequence(t, items).2->0, w),
    decreases items, 0nat, 0nat,
{
    let j = lemma_concat_witness(items, w, w.len());
    let w1 = w.take(j as int);
    let w2 = w.skip(j as int);
    assert(w1 + w2 =~= w);
    let init = items.drop_last();
    let (t1, first, prev) = spec_build_sequence(t, init);
    lemma_build_sequence(t, init);
    let (t2, s, a) = spec_build(t1, items.last());
    lemma_build(t1, items.last());
    lemma_fragment_extends(t1, t2, s, a, crate::nfa_empty::spec_nullable(items.last()));
    lemma_complete(t1, items.last(), w2);
    if init.len() == 0 {
        assert(w2 =~= w);
    } else {
        let f = first->0;
        let p = prev->0;
        lemma_seq_complete(t, init, w1);
        let u = add_edge(t2, p, STransition::Epsilon(s));
        lemma_add_edge(t2, p, STransition::Epsilon(s));
        lemma_extends_add_edge(t2, p, STransition::Epsilon(s));
        lemma_extends_trans(t1, t2, u);
        lemma_accepts_extends(t1, u, f, p, w1);
        lemma_accepts_extends(t2, u, s, a, w2);
        lemma_accepts_via_eps(u, f, p, s, a, w1, w2);
    }
}

proof fn lemma_branches_complete(t: Seq<Seq<STransition>>, items: Seq<SExpr>, w: Seq<SSymbol>)
    requires
        alt_matches(items, w),
    ensures
        nfa_accepts(spec_build_branches(fresh(fresh(t)), items, t.len(), (t.len() + 1) as nat), t.len(),
            (t.len() + 1) as nat, w),
    decreases items, 0nat, 0nat,
{
    let start = t.len();
    let accept = (t.len() + 1) as nat;
    let init = items.drop_last();
    let t1 = spec_build_branches(fresh(fresh(t)), init, start, accept);
    lemma_build_branches(t, init);
    let (t2, s, a) = spec_build(t1, items.last());
    lemma_build(t1, items.last());
    lemma_fragment_extends(t1, t2, s, a, crate::nfa_empty::spec_nullable(items.last()));
    let u1 = add_edge(t2, start, STransition::Epsilon(s));
    let u = add_edge(u1, a, STransition::Epsilon(accept));
    lemma_extends_add_edge(t2, start, STransition::Epsilon(s));
    lemma_extends_add_edge(u1, a, STransition::Epsilon(accept));
    lemma_extends_trans(t1, t2, u1);
    lemma_extends_trans(t1, u1, u);
    lemma_extends_trans(t2, u1, u);
    if alt_matches(init, w) {
        lemma_branches_complete(t, init, w);
        lemma_accepts_extends(t1, u, start, accept, w);
    } else {
        lemma_complete(t1, items.last(), w);
        lemma_accepts_extends(t2, u, s, a, w);
        lemma_add_edge(t2, start, STransition::Epsilon(s));
        lemma_add_edge_keeps(u1, a, STransition::Epsilon(accept), start, STransition::Epsilon(s));
        lemma_add_edge(u1, a, STransition::Epsilon(accept));
        lemma_accepts_eps(u, start, s);
        lemma_accepts_trans(u, start, s, a, Seq::empty(), w);
        assert(Seq::<SSymbol>::empty() + w =~= w);
        lemma_accepts_eps(u, a, accept);
        lemma_accepts_trans(u, start, a, accept, w, Seq::empty());
        assert(w + Seq::<SSymbol>::empty() =~= w);
    }
}

/// Around a loop edge from the operand's accept `a` back to its start `s`, any `k >= 1`
/// pieces that the operand matches lead from `s` to `a`.
proof fn lemma_loop_complete(t0: Seq<Seq<STransition>>, x: SExpr, u: Seq<Seq<STransition>>, k: nat, w: Seq<SSymbol>)
    requires
        extends(spec_build(t0, x).0, u),
        spec_build(t0, x).2 < u.len(),
        u[spec_build(t0, x).2 as int].contains(STransition::Epsilon(spec_build(t0, x).1)),
        k >= 1,
        power_matches(x, k, w),
    ensures
        nfa_accepts(u, spec_build(t0, x).1, spec_build(t0, x).2, w),
    decreases x, 0nat, k + 1,
{
    let (t1, s, a) = spec_build(t0, x);
    let j = lemma_power_witness(x, k, w, w.len());
    let w1 = w.take(j as int);
    let w2 = w.skip(j as int);
    assert(w1 + w2 =~= w);
    lemma_complete(t0, x, w2);
    lemma_accepts_extends(t1, u, s, a, w2);
    if k == 1 {
        assert(w2 =~= w);
    } else {
        lemma_loop_complete(t0, x, u, (k - 1) as nat, w1);
        lemma_accepts_via_eps(u, s, a, s, a, w1, w2);
    }
}

proof fn lemma_copies_complete(t: Seq<Seq<STransition>>, x: SExpr, k: nat, w: Seq<SSymbol>)
    requires
        k >= 1,
        power_matches(x, k, w),
    ensures
        nfa_accepts(spec_build_copies(t, x, k).0, spec_build_copies(t, x, k).1->0, spec_build_copies(t, x, k).2->0, w),
    decreases x, 1nat, k,
{
    let j = lemma_power_witness(x, k, w, w.len());
    let w1 = w.take(j as int);
    let w2 = w.skip(j as int);
    assert(w1 + w2 =~= w);
    let (t1, first, prev) = spec_build_copies(t, x, (k - 1) as nat);
    lemma_build_copies(t, x, (k - 1) as nat);
    let (t2, s, a) = spec_build(t1, x);
    lemma_build(t1, x);
    lemma_fragment_extends(t1, t2, s, a, crate::nfa_empty::spec_nullable(x));
    lemma_complete(t1, x, w2);
    if k == 1 {
        assert(w2 =~= w);
    } else {
        let f = first->0;
        let p = prev->0;
        lemma_copies_complete(t, x, (k - 1) as nat, w1);
        let u = add_edge(t2, p, STransition::Epsilon(s));
        lemma_add_edge(t2, p, STransition::Epsilon(s));
        lemma_extends_add_edge(t2, p, STransition::Epsilon(s));
        lemma_extends_trans(t1, t2, u);
        lemma_accepts_extends(t1, u, f, p, w1);
        lemma_accepts_extends(t2, u, s, a, w2);
        lemma_accepts_via_eps(u, f, p, s, a, w1, w2);
    }
}

proof fn lemma_opt_complete(t1: Seq<Seq<STransition>>, x: SExpr, n: nat, prev: nat, j: nat, w: Seq<SSymbol>)
    requires
        prev < t1.len(),
        j <= n,
        power_matches(x, j, w),
    ensures
        extends(t1, spec_build_optionals(t1, x, n, prev).0),
        spec_build_optionals(t1, x, n, prev).1 < spec_build_optionals(t1, x, n, prev).0.len(),
        nfa_accepts(spec_build_optionals(t1, x, n, prev).0, prev, spec_build_optionals(t1, x, n, prev).1, w),
    decreases x, 2nat, n,
{
    if n == 0 {
        lemma_extends_refl(t1);
        lemma_accepts_self(t1, prev);
        assert(w =~= Seq::<SSymbol>::empty());
    } else {
        let (ta, p1) = spec_build_optionals(t1, x, (n - 1) as nat, prev);
        let (tb, s2, a2) = spec_build_repetition(ta, x, RepetitionKind::ZeroOrOne);
        lemma_build_repetition(ta, x, RepetitionKind::ZeroOrOne);
        lemma_fragment_extends(ta, tb, s2, a2, true);
        let u = add_edge(tb, p1, STransition::Epsilon(s2));
        lemma_extends_add_edge(tb, p1, STransition::Epsilon(s2));
        lemma_extends_trans(ta, tb, u);
        if j < n {
            lemma_opt_complete(t1, x, (n - 1) as nat, prev, j, w);
            lemma_add_edge(tb, p1, STransition::Epsilon(s2));
            lemma_accepts_extends(ta, u, prev, p1, w);
            lemma_rep_complete(ta, x, RepetitionKind::ZeroOrOne, 0, Seq::empty());
            lemma_accepts_extends(tb, u, s2, a2, Seq::empty());
            lemma_accepts_via_eps(u, prev, p1, s2, a2, w, Seq::empty());
            assert(w + Seq::<SSymbol>::empty() =~= w);
        } else {
            let i = lemma_power_witness(x, j, w, w.len());
            let w1 = w.take(i as int);
            let w2 = w.skip(i as int);
            assert(w1 + w2 =~= w);
            lemma_opt_complete(t1, x, (n - 1) as nat, prev, (j - 1) as nat, w1);
            lemma_add_edge(tb, p1, STransition::Epsilon(s2));
            lemma_accepts_extends(ta, u, prev, p1, w1);
            lemma_power_one(x, w2);
            lemma_rep_complete(ta, x, RepetitionKind::ZeroOrOne, 1, w2);
            lemma_accepts_extends(tb, u, s2, a2, w2);
            lemma_accepts_via_eps(u, prev, p1, s2, a2, w1, w2);
        }
        lemma_extends_trans(t1, ta, u);
    }
}

proof fn lemma_rep_complete(t: Seq<Seq<STransition>>, x: SExpr, kind: RepetitionKind, k: nat, w: Seq<SSymbol>)
    requires
        repetition_admits(kind, k),
        power_matches(x, k, w),
    ensures
        nfa_accepts(spec_build_repetition(t, x, kind).0, spec_build_repetition(t, x, kind).1,
            spec_build_repetition(t, x, kind).2, w),
    decreases x, kind_level(kind), 0nat,
{
    let start = t.len();
    let accept = (t.len() + 1) as nat;
    let t0 = fresh(fresh(t));
    match kind {
        RepetitionKind::ZeroOrMore => {
            if x matches SExpr::Repetition { kind: RepetitionKind::ZeroOrMore, .. } {
                let y = *x->Repetition_expr;
                let g = x->Repetition_greedy;
                assert(x == SExpr::Repetition { expr: Box::new(y), kind: RepetitionKind::ZeroOrMore, greedy: g });
                let k2 = lemma_power_of_star(y, g, k, w);
                lemma_count_intro(y, 0, w.len(), k2, w);
                lemma_complete(t, x, w);
            } else {
                let (t1, s, a) = spec_build(t0, x);
                lemma_build(t0, x);
                let t2 = add_edge(t1, start, STransition::Epsilon(s));
                let t3 = add_edge(t2, start, STransition::Epsilon(accept));
                let t4 = add_edge(t3, a, STransition::Epsilon(s));
                let u = add_edge(t4, a, STransition::Epsilon(accept));
                lemma_add_edge(t1, start, STransition::Epsilon(s));
                lemma_add_edge(t2, start, STransition::Epsilon(accept));
                lemma_add_edge(t3, a, STransition::Epsilon(s));
                lemma_add_edge(t4, a, STransition::Epsilon(accept));
                lemma_add_edge_keeps(t2, start, STransition::Epsilon(accept), start, STransition::Epsilon(s));
                lemma_add_edge_keeps(t4, a, STransition::Epsilon(accept), a, STransition::Epsilon(s));
                assert(u[start as int] == t3[start as int]);
                if k == 0 {
                    lemma_accepts_eps(u, start, accept);
                    assert(w =~= Seq::<SSymbol>::empty());
                } else {
                    lemma_extends_add_edge(t1, start, STransition::Epsilon(s));
                    lemma_extends_add_edge(t2, start, STransition::Epsilon(accept));
                    lemma_extends_add_edge(t3, a, STransition::Epsilon(s));
                    lemma_extends_add_edge(t4, a, STransition::Epsilon(accept));
                    lemma_extends_trans(t1, t2, t3);
                    lemma_extends_trans(t1, t3, t4);
                    lemma_extends_trans(t1, t4, u);
                    lemma_loop_complete(t0, x, u, k, w);
                    lemma_accepts_eps(u, start, s);
                    lemma_accepts_trans(u, start, s, a, Seq::empty(), w);
                    assert(Seq::<SSymbol>::empty() + w =~= w);
                    lemma_accepts_eps(u, a, accept);
                    lemma_accepts_trans(u, start, a, accept, w, Seq::empty());
                    assert(w + Seq::<SSymbol>::empty() =~= w);
                }
            }
        },
        RepetitionKind::OneOrMore => {
            let (t1, s, a) = spec_build(t0, x);
            lemma_build(t0, x);
            let t2 = add_edge(t1, start, STransition::Epsilon(s));
            let t3 = add_edge(t2, a, STransition::Epsilon(s));
            let u = add_edge(t3, a, STransition::Epsilon(accept));
            lemma_add_edge(t1, start, STransition::Epsilon(s));
            lemma_add_edge(t2, a, STransition::Epsilon(s));
            lemma_add_edge(t3, a, STransition::Epsilon(accept));
            lemma_add_edge_keeps(t3, a, STransition::Epsilon(accept), a, STransition::Epsilon(s));
            assert(u[start as int] == t2[start as int]);
            lemma_extends_add_edge(t1, start, STransition::Epsilon(s));
            lemma_extends_add_edge(t2, a, STransition::Epsilon(s));
            lemma_extends_add_edge(t3, a, STransition::Epsilon(accept));
            lemma_extends_trans(t1, t2, t3);
            lemma_extends_trans(t1, t3, u);
            lemma_loop_complete(t0, x, u, k, w);
            lemma_accepts_eps(u, start, s);
            lemma_accepts_trans(u, start, s, a, Seq::empty(), w);
            assert(Seq::<SSymbol>::empty() + w =~= w);
            lemma_accepts_eps(u, a, accept);
            lemma_accepts_trans(u, start, a, accept, w, Seq::empty());
            assert(w + Seq::<SSymbol>::empty() =~= w);
        },
        RepetitionKind::ZeroOrOne => {
            let (t1, s, a) = spec_build(t0, x);
            lemma_build(t0, x);
            let t2 = add_edge(t1, start, STransition::Epsilon(s));
            let t3 = add_edge(t2, start, STransition::Epsilon(accept));
            let u = add_edge(t3, a, STransition::Epsilon(accept));
            lemma_add_edge(t1, start, STransition::Epsilon(s));
            lemma_add_edge(t2, start, STransition::Epsilon(accept));
            lemma_add_edge(t3, a, STransition::Epsilon(accept));
            lemma_add_edge_keeps(t2, start, STransition::Epsilon(accept), start, STransition::Epsilon(s));
            assert(u[start as int] == t3[start as int]);
            if k == 0 {
                lemma_accepts_eps(u, start, accept);
                assert(w =~= Seq::<SSymbol>::empty());
            } else {
                lemma_power_one(x, w);
                lemma_complete(t0, x, w);
                lemma_extends_add_edge(t1, start, STransition::Epsilon(s));
                lemma_extends_add_edge(t2, start, STransition::Epsilon(accept));
                lemma_extends_add_edge(t3, a, STransition::Epsilon(accept));
                lemma_extends_trans(t1, t2, t3);
                lemma_extends_trans(t1, t3, u);
                lemma_accepts_extends(t1, u, s, a, w);
                lemma_accepts_eps(u, start, s);
                lemma_accepts_trans(u, start, s, a, Seq::empty(), w);
                assert(Seq::<SSymbol>::empty() + w =~= w);
                lemma_accepts_eps(u, a, accept);
                lemma_accepts_trans(u, start, a, accept, w, Seq::empty());
                assert(w + Seq::<SSymbol>::empty() =~= w);
            }
        },
        RepetitionKind::Exactly(n) => {
            lemma_build_copies(t, x, n as nat);
            if n == 0 {
                lemma_accepts_self(fresh(t), t.len());
                assert(w =~= Seq::<SSymbol>::empty());
            } else {
                lemma_copies_complete(t, x, n as nat, w);
            }
        },
        RepetitionKind::AtLeast(n) => {
            let i = lemma_power_split(x, k, n as nat, w);
            let w1 = w.take(i as int);
            let w2 = w.skip(i as int);
            assert(w1 + w2 =~= w);
            let (t1, s, a) = spec_build_repetition(t, x, RepetitionKind::Exactly(n));
            lemma_build_repetition(t, x, RepetitionKind::Exactly(n));
            lemma_rep_complete(t, x, RepetitionKind::Exactly(n), n as nat, w1);
            let (t2, s2, a2) = spec_build_repetition(t1, x, RepetitionKind::ZeroOrMore);
            lemma_build_repetition(t1, x, RepetitionKind::ZeroOrMore);
            lemma_rep_complete(t1, x, RepetitionKind::ZeroOrMore, (k - n) as nat, w2);
            lemma_fragment_extends(t1, t2, s2, a2, true);
            let u = add_edge(t2, a, STransition::Epsilon(s2));
            lemma_add_edge(t2, a, STransition::Epsilon(s2));
            lemma_extends_add_edge(t2, a, STransition::Epsilon(s2));
            lemma_extends_trans(t1, t2, u);
            lemma_accepts_extends(t1, u, s, a, w1);
            lemma_accepts_extends(t2, u, s2, a2, w2);
            lemma_accepts_via_eps(u, s, a, s2, a2, w1, w2);
        },
        RepetitionKind::Range(min, max) => {
            let i = lemma_power_split(x, k, min as nat, w);
            let w1 = w.take(i as int);
            let w2 = w.skip(i as int);
            assert(w1 + w2 =~= w);
            let (t1, s, a) = spec_build_repetition(t, x, RepetitionKind::Exactly(min));
            lemma_build_repetition(t, x, RepetitionKind::Exactly(min));
            lemma_rep_complete(t, x, RepetitionKind::Exactly(min), min as nat, w1);
            let n: nat = if max > min { (max - min) as nat } else { 0 };
            lemma_opt_complete(t1, x, n, a, (k - min) as nat, w2);
            let (t2, last) = spec_build_optionals(t1, x, n, a);
            lemma_accepts_extends(t1, t2, s, a, w1);
            lemma_accepts_trans(t2, s, a, last, w1, w2);
        },
    }
}

} // verus!

verus! {

/// Thompson's construction accepts every word that its expression matches: whatever
/// states were built before, the fragment that `spec_build` adds for `e` leads from its
/// start state to its accept state on each word `w` that `e` matches. So `x+` accepts two
/// matches of `x` in a row, `x{m,n}` every run of `m` to `n` matches of `x`, and an
/// alternation every word of each branch.
pub proof fn law_build_accepts_matching_words(t: Seq<Seq<STransition>>, e: SExpr, w: Seq<SSymbol>)
    requires
        spec_matches(e, w),
    ensures
        nfa_accepts(spec_build(t, e).0, spec_build(t, e).1, spec_build(t, e).2, w),
{
    lemma_complete(t, e, w);
}

} // verus!
