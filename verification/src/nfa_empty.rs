//! Which fragments of Thompson's construction accept the empty word.
use vstd::prelude::*;
use crate::ast::{SExpr, RepetitionKind};
use crate::dfa::{STransition, target_of};
use crate::nfa::{
    add_edge, fresh, link, kind_level, spec_build, spec_build_sequence, spec_build_branches, spec_build_copies,
    spec_build_optionals, spec_build_repetition, spec_epsilon_closure, eps_closed, nfa_accepts,
};

verus! {

/// Whether an expression matches the empty word: a single character or class never
/// does; a sequence does when all its items do, an alternation when one branch does; `*`
/// and `?` always do, `+` when its operand does, and a counted repetition when its least
/// count is zero or its operand does; a group when its content does; the empty
/// expression, anchors and back-references read no character and do.
pub open spec fn spec_nullable(e: SExpr) -> bool
    decreases e,
{
    match e {
        SExpr::Literal(_) => false,
        SExpr::Class(_) => false,
        SExpr::Concat(items) => all_nullable(items),
        SExpr::Alternation(items) => any_nullable(items),
        SExpr::Repetition { expr, kind, .. } => kind_nullable(kind, spec_nullable(*expr)),
        SExpr::Group { expr, .. } => spec_nullable(*expr),
        _ => true,
    }
}

/// Whether a repetition of this kind matches the empty word, given whether its operand does.
pub open spec fn kind_nullable(kind: RepetitionKind, operand: bool) -> bool {
    match kind {
        RepetitionKind::ZeroOrMore => true,
        RepetitionKind::ZeroOrOne => true,
        RepetitionKind::OneOrMore => operand,
        RepetitionKind::Exactly(n) => n == 0 || operand,
        RepetitionKind::AtLeast(n) => n == 0 || operand,
        RepetitionKind::Range(min, _) => min == 0 || operand,
    }
}

pub open spec fn all_nullable(items: Seq<SExpr>) -> bool
    decreases items,
{
    if items.len() == 0 {
        true
    } else {
        all_nullable(items.drop_last()) && spec_nullable(items.last())
    }
}

pub open spec fn any_nullable(items: Seq<SExpr>) -> bool
    decreases items,
{
    if items.len() == 0 {
        false
    } else {
        any_nullable(items.drop_last()) || spec_nullable(items.last())
    }
}

/// Every epsilon edge of the states `lo..hi` ends in `lo..hi`.
pub open spec fn local_eps(t: Seq<Seq<STransition>>, lo: int, hi: int) -> bool {
    forall|i: int, j: int| lo <= i < hi && 0 <= j < t[i].len() && (#[trigger] t[i][j]) is Epsilon
        ==> lo <= target_of(t[i][j]) < hi
}

/// Every epsilon edge that leaves a state of `c` among `lo..hi`, but for state `k`, ends in `c`.
pub open spec fn closed_on(t: Seq<Seq<STransition>>, c: Set<nat>, lo: int, hi: int, k: int) -> bool {
    forall|i: int, j: int| lo <= i < hi && i != k && 0 <= j < t[i].len() && c.contains(i as nat)
        && (#[trigger] t[i][j]) is Epsilon ==> c.contains(target_of(t[i][j]))
}

/// All members of `c` lie in `lo..hi`.
pub open spec fn within(c: Set<nat>, lo: int, hi: int) -> bool {
    forall|x: nat| c.contains(x) ==> lo <= x < hi
}

/// Following epsilon edges of the states `lo..hi` from `s` (never out of `a`) reaches `a`.
pub open spec fn reaches_accept(t: Seq<Seq<STransition>>, lo: int, hi: int, s: nat, a: nat) -> bool {
    forall|c: Set<nat>| #[trigger] closed_on(t, c, lo, hi, a as int) && c.contains(s) ==> c.contains(a)
}

/// Some set of states in `lo..hi` holds `s` and not `a`, and the epsilon edges of its states lead back into it.
pub open spec fn avoids_accept(t: Seq<Seq<STransition>>, lo: int, hi: int, s: nat, a: nat) -> bool {
    exists|c: Set<nat>| #[trigger] closed_on(t, c, lo, hi, a as int) && within(c, lo, hi) && c.contains(s) && !c.contains(a)
}

/// The states `t.len()..t2.len()` of `t2` form a fragment with start `s` and accept `a`
/// built on top of `t`: the earlier states are untouched, epsilon edges stay inside the
/// fragment, the accept state has no edge, and `a` is reached from `s` by epsilon edges
/// exactly when `nb` holds.
pub open spec fn fragment(t: Seq<Seq<STransition>>, t2: Seq<Seq<STransition>>, s: nat, a: nat, nb: bool) -> bool {
    &&& t.len() <= s < t2.len()
    &&& t.len() <= a < t2.len()
    &&& forall|i: int| 0 <= i < t.len() ==> #[trigger] t2[i] == t[i]
    &&& local_eps(t2, t.len() as int, t2.len() as int)
    &&& t2[a as int].len() == 0
    &&& nb ==> reaches_accept(t2, t.len() as int, t2.len() as int, s, a)
    &&& !nb ==> avoids_accept(t2, t.len() as int, t2.len() as int, s, a)
}

/// The states in `lo..hi`.
pub open spec fn range_set(lo: int, hi: int) -> Set<nat> {
    Set::new(|x: nat| lo <= x < hi)
}

pub(crate) proof fn lemma_add_edge(t: Seq<Seq<STransition>>, f: nat, tr: STransition)
    requires
        f < t.len(),
    ensures
        add_edge(t, f, tr).len() == t.len(),
        forall|i: int| 0 <= i < t.len() && i != f ==> #[trigger] add_edge(t, f, tr)[i] == t[i],
        add_edge(t, f, tr)[f as int].contains(tr),
        forall|j: int| 0 <= j < add_edge(t, f, tr)[f as int].len() ==>
            #[trigger] add_edge(t, f, tr)[f as int][j] == tr || t[f as int].contains(add_edge(t, f, tr)[f as int][j]),
        forall|j: int| 0 <= j < t[f as int].len() ==> add_edge(t, f, tr)[f as int].contains(#[trigger] t[f as int][j]),
{
    let u = add_edge(t, f, tr);
    if t[f as int].contains(tr) {
        assert forall|j: int| 0 <= j < u[f as int].len() implies
            #[trigger] u[f as int][j] == tr || t[f as int].contains(u[f as int][j]) by {
            assert(t[f as int][j] == u[f as int][j]);
        }
        assert forall|j: int| 0 <= j < t[f as int].len() implies u[f as int].contains(#[trigger] t[f as int][j]) by {
            assert(u[f as int][j] == t[f as int][j]);
        }
    } else {
        let r = t[f as int].push(tr);
        assert(u[f as int] == r);
        assert(r[t[f as int].len() as int] == tr);
        assert forall|j: int| 0 <= j < u[f as int].len() implies
            #[trigger] u[f as int][j] == tr || t[f as int].contains(u[f as int][j]) by {
            if j < t[f as int].len() {
                assert(r[j] == t[f as int][j]);
            }
        }
        assert forall|j: int| 0 <= j < t[f as int].len() implies u[f as int].contains(#[trigger] t[f as int][j]) by {
            assert(r[j] == t[f as int][j]);
        }
    }
}

/// Following an epsilon edge out of a state of a closed set stays in the set.
proof fn lemma_step(t: Seq<Seq<STransition>>, c: Set<nat>, lo: int, hi: int, k: int, i: nat, x: nat)
    requires
        closed_on(t, c, lo, hi, k),
        lo <= i < hi,
        i != k,
        c.contains(i),
        t[i as int].contains(STransition::Epsilon(x)),
    ensures
        c.contains(x),
{
    let j = choose|j: int| 0 <= j < t[i as int].len() && t[i as int][j] == STransition::Epsilon(x);
    assert(t[i as int][j] is Epsilon);
}

/// A closed set stays closed over fewer states.
proof fn lemma_restrict(t: Seq<Seq<STransition>>, c: Set<nat>, lo: int, hi: int, k: int, lo2: int, hi2: int, k2: int)
    requires
        closed_on(t, c, lo, hi, k),
        lo <= lo2,
        hi2 <= hi,
        k == k2 || !(lo2 <= k < hi2),
    ensures
        closed_on(t, c, lo2, hi2, k2),
{
}

/// A set closed under the edges of `t2` is closed under the edges of `t` when each row of
/// `t` (in the range, but for `k`) is kept in `t2`.
proof fn lemma_closed_kept(t: Seq<Seq<STransition>>, t2: Seq<Seq<STransition>>, c: Set<nat>, lo: int, hi: int, k: int)
    requires
        closed_on(t2, c, lo, hi, k),
        forall|i: int, j: int| lo <= i < hi && i != k && 0 <= j < t[i].len() ==> t2[i].contains(#[trigger] t[i][j]),
    ensures
        closed_on(t, c, lo, hi, k),
{
    assert forall|i: int, j: int| lo <= i < hi && i != k && 0 <= j < t[i].len() && c.contains(i as nat)
        && (#[trigger] t[i][j]) is Epsilon implies c.contains(target_of(t[i][j])) by {
        let x = t[i][j];
        assert(t2[i].contains(x));
        let j2 = choose|j2: int| 0 <= j2 < t2[i].len() && t2[i][j2] == x;
        assert(t2[i][j2] is Epsilon);
    }
}

/// Rows that are equal are kept.
proof fn lemma_equal_rows_kept(t: Seq<Seq<STransition>>, t2: Seq<Seq<STransition>>, lo: int, hi: int, k: int)
    requires
        forall|i: int| lo <= i < hi && i != k ==> #[trigger] t2[i] == t[i],
    ensures
        forall|i: int, j: int| lo <= i < hi && i != k && 0 <= j < t[i].len() ==> t2[i].contains(#[trigger] t[i][j]),
{
    assert forall|i: int, j: int| lo <= i < hi && i != k && 0 <= j < t[i].len() implies t2[i].contains(#[trigger] t[i][j]) by {
        assert(t2[i][j] == t[i][j]);
    }
}

/// A fragment whose reachability is known transfers it to a table that keeps its rows.
proof fn lemma_reaches_kept(t: Seq<Seq<STransition>>, t2: Seq<Seq<STransition>>, c: Set<nat>, lo: int, hi: int, s: nat, a: nat)
    requires
        reaches_accept(t, lo, hi, s, a),
        closed_on(t2, c, lo, hi, a as int),
        c.contains(s),
        forall|i: int| lo <= i < hi && i != a ==> #[trigger] t2[i] == t[i],
    ensures
        c.contains(a),
{
    lemma_equal_rows_kept(t, t2, lo, hi, a as int);
    lemma_closed_kept(t, t2, c, lo, hi, a as int);
}

/// One fresh state is a fragment whose start is its accept.
proof fn lemma_single(t: Seq<Seq<STransition>>)
    ensures
        fragment(t, fresh(t), t.len(), t.len(), true),
{
    let u = fresh(t);
    assert forall|i: int| 0 <= i < t.len() implies #[trigger] u[i] == t[i] by {}
    assert(u[t.len() as int] == Seq::<STransition>::empty());
}

/// Two fragments joined by an epsilon edge from the first accept to the second start.
proof fn lemma_chain(t: Seq<Seq<STransition>>, t1: Seq<Seq<STransition>>, f: nat, p: nat, nb1: bool,
    t2: Seq<Seq<STransition>>, s: nat, a: nat, nb2: bool)
    requires
        fragment(t, t1, f, p, nb1),
        fragment(t1, t2, s, a, nb2),
    ensures
        fragment(t, add_edge(t2, p, STransition::Epsilon(s)), f, a, nb1 && nb2),
        add_edge(t2, p, STransition::Epsilon(s)) == link(t2, Some(p), s),
{
    let lo = t.len() as int;
    let mid = t1.len() as int;
    let hi = t2.len() as int;
    let u = add_edge(t2, p, STransition::Epsilon(s));
    lemma_add_edge(t2, p, STransition::Epsilon(s));
    assert(t2[p as int] == t1[p as int]);
    assert(t2[p as int].len() == 0);
    assert(u[p as int] =~= seq![STransition::Epsilon(s)]);
    assert forall|i: int| 0 <= i < lo implies #[trigger] u[i] == t[i] by {
        assert(t2[i] == t1[i]);
    }
    assert(local_eps(u, lo, hi)) by {
        assert forall|i: int, j: int| lo <= i < hi && 0 <= j < u[i].len() && (#[trigger] u[i][j]) is Epsilon
            implies lo <= target_of(u[i][j]) < hi by {
            if i == p {
            } else if i < mid {
                assert(u[i] == t1[i]);
            } else {
                assert(u[i] == t2[i]);
            }
        }
    }
    assert(u[a as int] == t2[a as int]);
    if nb1 && nb2 {
        assert forall|c: Set<nat>| #[trigger] closed_on(u, c, lo, hi, a as int) && c.contains(f) implies c.contains(a) by {
            lemma_restrict(u, c, lo, hi, a as int, lo, mid, p as int);
            assert forall|i: int| lo <= i < mid && i != p implies #[trigger] u[i] == t1[i] by {
                assert(u[i] == t2[i]);
            }
            lemma_reaches_kept(t1, u, c, lo, mid, f, p);
            assert(u[p as int][0] == STransition::Epsilon(s));
            lemma_step(u, c, lo, hi, a as int, p, s);
            lemma_restrict(u, c, lo, hi, a as int, mid, hi, a as int);
            lemma_reaches_kept(t2, u, c, mid, hi, s, a);
        }
    } else if !nb1 {
        let c = choose|c: Set<nat>| #[trigger] closed_on(t1, c, lo, mid, p as int) && within(c, lo, mid) && c.contains(f) && !c.contains(p);
        assert(closed_on(u, c, lo, hi, a as int)) by {
            assert forall|i: int, j: int| lo <= i < hi && i != a && 0 <= j < u[i].len() && c.contains(i as nat)
                && (#[trigger] u[i][j]) is Epsilon implies c.contains(target_of(u[i][j])) by {
                assert(u[i] == t2[i]);
                assert(t2[i] == t1[i]);
                assert(t1[i][j] is Epsilon);
            }
        }
        assert(within(c, lo, hi));
    } else {
        let c2 = choose|c: Set<nat>| #[trigger] closed_on(t2, c, mid, hi, a as int) && within(c, mid, hi) && c.contains(s) && !c.contains(a);
        let c = range_set(lo, mid).union(c2);
        assert(closed_on(u, c, lo, hi, a as int)) by {
            assert forall|i: int, j: int| lo <= i < hi && i != a && 0 <= j < u[i].len() && c.contains(i as nat)
                && (#[trigger] u[i][j]) is Epsilon implies c.contains(target_of(u[i][j])) by {
                if i == p {
                    assert(u[i][j] == STransition::Epsilon(s));
                } else if i < mid {
                    assert(u[i] == t2[i]);
                    assert(t2[i] == t1[i]);
                    assert(t1[i][j] is Epsilon);
                } else {
                    assert(u[i] == t2[i]);
                    assert(c2.contains(i as nat));
                    assert(t2[i][j] is Epsilon);
                }
            }
        }
        assert(within(c, lo, hi));
        assert(c.contains(f));
        assert(!c.contains(a));
    }
}


/// A start and an accept state joined by one edge that reads a character.
proof fn lemma_char_fragment(t: Seq<Seq<STransition>>, tr: STransition)
    requires
        !(tr is Epsilon),
    ensures
        fragment(t, add_edge(fresh(fresh(t)), t.len(), tr), t.len(), (t.len() + 1) as nat, false),
{
    let t0 = fresh(fresh(t));
    let lo = t.len() as int;
    let start = t.len();
    let accept = (t.len() + 1) as nat;
    let u = add_edge(t0, start, tr);
    lemma_add_edge(t0, start, tr);
    assert(t0[start as int].len() == 0);
    assert(u[start as int] =~= seq![tr]);
    assert(u[accept as int] == t0[accept as int]);
    assert forall|i: int| 0 <= i < lo implies #[trigger] u[i] == t[i] by {
        assert(u[i] == t0[i]);
    }
    let c = set![start];
    assert(closed_on(u, c, lo, lo + 2, accept as int)) by {
        assert forall|i: int, j: int| lo <= i < lo + 2 && i != accept && 0 <= j < u[i].len() && c.contains(i as nat)
            && (#[trigger] u[i][j]) is Epsilon implies c.contains(target_of(u[i][j])) by {
            assert(u[i][j] == tr);
        }
    }
    assert(within(c, lo, lo + 2));
    assert(local_eps(u, lo, lo + 2)) by {
        assert forall|i: int, j: int| lo <= i < lo + 2 && 0 <= j < u[i].len() && (#[trigger] u[i][j]) is Epsilon
            implies lo <= target_of(u[i][j]) < lo + 2 by {
            if i == start {
                assert(u[i][j] == tr);
            }
        }
    }
}

/// The common frame of the loops: fresh `start` and `accept` states, then a fragment for
/// the operand from `s` to `a`.
pub open spec fn loop_frame(t: Seq<Seq<STransition>>, t1: Seq<Seq<STransition>>, s: nat, a: nat, nb: bool) -> bool {
    fragment(fresh(fresh(t)), t1, s, a, nb)
}

proof fn lemma_frame_facts(t: Seq<Seq<STransition>>, t1: Seq<Seq<STransition>>, s: nat, a: nat, nb: bool)
    requires
        loop_frame(t, t1, s, a, nb),
    ensures
        t1[t.len() as int].len() == 0,
        t1[t.len() as int + 1].len() == 0,
        forall|i: int| 0 <= i < t.len() ==> #[trigger] t1[i] == t[i],
        t.len() + 2 <= s,
        t.len() + 2 <= a,
{
    let t0 = fresh(fresh(t));
    assert(t1[t.len() as int] == t0[t.len() as int]);
    assert(t1[t.len() as int + 1] == t0[t.len() as int + 1]);
    assert forall|i: int| 0 <= i < t.len() implies #[trigger] t1[i] == t[i] by {
        assert(t1[i] == t0[i]);
    }
}

/// `x*`: the start reaches the accept directly.
proof fn lemma_star_fragment(t: Seq<Seq<STransition>>, t1: Seq<Seq<STransition>>, s: nat, a: nat, nb: bool)
    requires
        loop_frame(t, t1, s, a, nb),
    ensures
        ({
            let start = t.len();
            let accept = (t.len() + 1) as nat;
            let t2 = add_edge(t1, start, STransition::Epsilon(s));
            let t3 = add_edge(t2, start, STransition::Epsilon(accept));
            let t4 = add_edge(t3, a, STransition::Epsilon(s));
            fragment(t, add_edge(t4, a, STransition::Epsilon(accept)), start, accept, true)
        }),
{
    lemma_frame_facts(t, t1, s, a, nb);
    let lo = t.len() as int;
    let hi = t1.len() as int;
    let start = t.len();
    let accept = (t.len() + 1) as nat;
    let t2 = add_edge(t1, start, STransition::Epsilon(s));
    let t3 = add_edge(t2, start, STransition::Epsilon(accept));
    let t4 = add_edge(t3, a, STransition::Epsilon(s));
    let u = add_edge(t4, a, STransition::Epsilon(accept));
    lemma_add_edge(t1, start, STransition::Epsilon(s));
    lemma_add_edge(t2, start, STransition::Epsilon(accept));
    lemma_add_edge(t3, a, STransition::Epsilon(s));
    lemma_add_edge(t4, a, STransition::Epsilon(accept));
    assert(t2[start as int] =~= seq![STransition::Epsilon(s)]);
    assert(t3[start as int] =~= seq![STransition::Epsilon(s), STransition::Epsilon(accept)]);
    assert(u[start as int] == t3[start as int]);
    assert(t3[a as int] == t1[a as int]);
    assert(t4[a as int] =~= seq![STransition::Epsilon(s)]);
    assert(u[a as int] =~= seq![STransition::Epsilon(s), STransition::Epsilon(accept)]);
    assert(u[accept as int] == t1[accept as int]);
    assert forall|i: int| 0 <= i < lo implies #[trigger] u[i] == t[i] by {
        assert(u[i] == t1[i]);
    }
    assert(local_eps(u, lo, hi)) by {
        assert forall|i: int, j: int| lo <= i < hi && 0 <= j < u[i].len() && (#[trigger] u[i][j]) is Epsilon
            implies lo <= target_of(u[i][j]) < hi by {
            if i != start && i != a {
                assert(u[i] == t1[i]);
            }
        }
    }
    assert forall|c: Set<nat>| #[trigger] closed_on(u, c, lo, hi, accept as int) && c.contains(start) implies c.contains(accept) by {
        assert(u[start as int][1] == STransition::Epsilon(accept));
        lemma_step(u, c, lo, hi, accept as int, start, accept);
    }
}

/// `x?`: the start reaches the accept directly.
proof fn lemma_opt_fragment(t: Seq<Seq<STransition>>, t1: Seq<Seq<STransition>>, s: nat, a: nat, nb: bool)
    requires
        loop_frame(t, t1, s, a, nb),
    ensures
        ({
            let start = t.len();
            let accept = (t.len() + 1) as nat;
            let t2 = add_edge(t1, start, STransition::Epsilon(s));
            let t3 = add_edge(t2, start, STransition::Epsilon(accept));
            fragment(t, add_edge(t3, a, STransition::Epsilon(accept)), start, accept, true)
        }),
{
    lemma_frame_facts(t, t1, s, a, nb);
    let lo = t.len() as int;
    let hi = t1.len() as int;
    let start = t.len();
    let accept = (t.len() + 1) as nat;
    let t2 = add_edge(t1, start, STransition::Epsilon(s));
    let t3 = add_edge(t2, start, STransition::Epsilon(accept));
    let u = add_edge(t3, a, STransition::Epsilon(accept));
    lemma_add_edge(t1, start, STransition::Epsilon(s));
    lemma_add_edge(t2, start, STransition::Epsilon(accept));
    lemma_add_edge(t3, a, STransition::Epsilon(accept));
    assert(t2[start as int] =~= seq![STransition::Epsilon(s)]);
    assert(t3[start as int] =~= seq![STransition::Epsilon(s), STransition::Epsilon(accept)]);
    assert(u[start as int] == t3[start as int]);
    assert(t3[a as int] == t1[a as int]);
    assert(u[a as int] =~= seq![STransition::Epsilon(accept)]);
    assert(u[accept as int] == t1[accept as int]);
    assert forall|i: int| 0 <= i < lo implies #[trigger] u[i] == t[i] by {
        assert(u[i] == t1[i]);
    }
    assert(local_eps(u, lo, hi)) by {
        assert forall|i: int, j: int| lo <= i < hi && 0 <= j < u[i].len() && (#[trigger] u[i][j]) is Epsilon
            implies lo <= target_of(u[i][j]) < hi by {
            if i != start && i != a {
                assert(u[i] == t1[i]);
            }
        }
    }
    assert forall|c: Set<nat>| #[trigger] closed_on(u, c, lo, hi, accept as int) && c.contains(start) implies c.contains(accept) by {
        assert(u[start as int][1] == STransition::Epsilon(accept));
        lemma_step(u, c, lo, hi, accept as int, start, accept);
    }
}

/// `x+`: the accept is reached from the start exactly when the operand matches the empty word.
proof fn lemma_plus_fragment(t: Seq<Seq<STransition>>, t1: Seq<Seq<STransition>>, s: nat, a: nat, nb: bool)
    requires
        loop_frame(t, t1, s, a, nb),
    ensures
        ({
            let start = t.len();
            let accept = (t.len() + 1) as nat;
            let t2 = add_edge(t1, start, STransition::Epsilon(s));
            let t3 = add_edge(t2, a, STransition::Epsilon(s));
            fragment(t, add_edge(t3, a, STransition::Epsilon(accept)), start, accept, nb)
        }),
{
    lemma_frame_facts(t, t1, s, a, nb);
    let lo = t.len() as int;
    let mid = lo + 2;
    let hi = t1.len() as int;
    let start = t.len();
    let accept = (t.len() + 1) as nat;
    let t2 = add_edge(t1, start, STransition::Epsilon(s));
    let t3 = add_edge(t2, a, STransition::Epsilon(s));
    let u = add_edge(t3, a, STransition::Epsilon(accept));
    lemma_add_edge(t1, start, STransition::Epsilon(s));
    lemma_add_edge(t2, a, STransition::Epsilon(s));
    lemma_add_edge(t3, a, STransition::Epsilon(accept));
    assert(t2[start as int] =~= seq![STransition::Epsilon(s)]);
    assert(u[start as int] == t2[start as int]);
    assert(t2[a as int] == t1[a as int]);
    assert(t3[a as int] =~= seq![STransition::Epsilon(s)]);
    assert(u[a as int] =~= seq![STransition::Epsilon(s), STransition::Epsilon(accept)]);
    assert(u[accept as int] == t1[accept as int]);
    assert forall|i: int| 0 <= i < lo implies #[trigger] u[i] == t[i] by {
        assert(u[i] == t1[i]);
    }
    assert forall|i: int| mid <= i < hi && i != a implies #[trigger] u[i] == t1[i] by {}
    assert(local_eps(u, lo, hi)) by {
        assert forall|i: int, j: int| lo <= i < hi && 0 <= j < u[i].len() && (#[trigger] u[i][j]) is Epsilon
            implies lo <= target_of(u[i][j]) < hi by {
            if i != start && i != a {
                assert(u[i] == t1[i]);
            }
        }
    }
    if nb {
        assert forall|c: Set<nat>| #[trigger] closed_on(u, c, lo, hi, accept as int) && c.contains(start) implies c.contains(accept) by {
            assert(u[start as int][0] == STransition::Epsilon(s));
            lemma_step(u, c, lo, hi, accept as int, start, s);
            lemma_restrict(u, c, lo, hi, accept as int, mid, hi, a as int);
            lemma_reaches_kept(t1, u, c, mid, hi, s, a);
            assert(u[a as int][1] == STransition::Epsilon(accept));
            lemma_step(u, c, lo, hi, accept as int, a, accept);
        }
    } else {
        let cx = choose|c: Set<nat>| #[trigger] closed_on(t1, c, mid, hi, a as int) && within(c, mid, hi) && c.contains(s) && !c.contains(a);
        let c = cx.insert(start);
        assert(closed_on(u, c, lo, hi, accept as int)) by {
            assert forall|i: int, j: int| lo <= i < hi && i != accept && 0 <= j < u[i].len() && c.contains(i as nat)
                && (#[trigger] u[i][j]) is Epsilon implies c.contains(target_of(u[i][j])) by {
                if i == start {
                    assert(u[i][j] == STransition::Epsilon(s));
                } else {
                    assert(cx.contains(i as nat));
                    assert(u[i] == t1[i]);
                    assert(t1[i][j] is Epsilon);
                }
            }
        }
        assert(within(c, lo, hi));
        assert(!c.contains(accept));
    }
}


/// One more branch `s..a` entered from `start` and leaving to `accept`.
proof fn lemma_branch_step(t: Seq<Seq<STransition>>, t1: Seq<Seq<STransition>>, nb1: bool,
    t2: Seq<Seq<STransition>>, s: nat, a: nat, nb2: bool)
    requires
        fragment(t, t1, t.len(), (t.len() + 1) as nat, nb1),
        fragment(t1, t2, s, a, nb2),
    ensures
        ({
            let start = t.len();
            let accept = (t.len() + 1) as nat;
            fragment(t, add_edge(add_edge(t2, start, STransition::Epsilon(s)), a, STransition::Epsilon(accept)), start, accept, nb1 || nb2)
        }),
{
    let lo = t.len() as int;
    let mid = t1.len() as int;
    let hi = t2.len() as int;
    let start = t.len();
    let accept = (t.len() + 1) as nat;
    let u1 = add_edge(t2, start, STransition::Epsilon(s));
    let u = add_edge(u1, a, STransition::Epsilon(accept));
    lemma_add_edge(t2, start, STransition::Epsilon(s));
    lemma_add_edge(u1, a, STransition::Epsilon(accept));
    assert(t2[start as int] == t1[start as int]);
    assert(u[start as int] == u1[start as int]);
    assert(u1[a as int] == t2[a as int]);
    assert(u[a as int] =~= seq![STransition::Epsilon(accept)]);
    assert(u[accept as int] == t1[accept as int]) by {
        assert(t2[accept as int] == t1[accept as int]);
    }
    assert forall|i: int| 0 <= i < lo implies #[trigger] u[i] == t[i] by {
        assert(t2[i] == t1[i]);
    }
    assert forall|i: int| mid <= i < hi && i != a implies #[trigger] u[i] == t2[i] by {}
    assert forall|i: int| lo <= i < mid && i != start implies #[trigger] u[i] == t1[i] by {
        assert(t2[i] == t1[i]);
    }
    assert(local_eps(u, lo, hi)) by {
        assert forall|i: int, j: int| lo <= i < hi && 0 <= j < u[i].len() && (#[trigger] u[i][j]) is Epsilon
            implies lo <= target_of(u[i][j]) < hi by {
            if i == start {
                if u[i][j] != STransition::Epsilon(s) {
                    let j2 = choose|j2: int| 0 <= j2 < t2[start as int].len() && t2[start as int][j2] == u[i][j];
                    assert(t1[start as int][j2] is Epsilon);
                }
            } else if i == a {
            } else if i < mid {
                assert(u[i] == t1[i]);
            } else {
                assert(u[i] == t2[i]);
            }
        }
    }
    if nb1 {
        assert forall|c: Set<nat>| #[trigger] closed_on(u, c, lo, hi, accept as int) && c.contains(start) implies c.contains(accept) by {
            lemma_restrict(u, c, lo, hi, accept as int, lo, mid, accept as int);
            assert forall|i: int, j: int| lo <= i < mid && i != accept && 0 <= j < t1[i].len() implies u[i].contains(#[trigger] t1[i][j]) by {
                if i == start {
                    assert(t2[start as int][j] == t1[start as int][j]);
                } else {
                    assert(u[i][j] == t1[i][j]);
                }
            }
            lemma_closed_kept(t1, u, c, lo, mid, accept as int);
        }
    } else if nb2 {
        assert forall|c: Set<nat>| #[trigger] closed_on(u, c, lo, hi, accept as int) && c.contains(start) implies c.contains(accept) by {
            lemma_step(u, c, lo, hi, accept as int, start, s);
            lemma_restrict(u, c, lo, hi, accept as int, mid, hi, a as int);
            lemma_reaches_kept(t2, u, c, mid, hi, s, a);
            assert(u[a as int][0] == STransition::Epsilon(accept));
            lemma_step(u, c, lo, hi, accept as int, a, accept);
        }
    } else {
        let c1 = choose|c: Set<nat>| #[trigger] closed_on(t1, c, lo, mid, accept as int) && within(c, lo, mid) && c.contains(start) && !c.contains(accept);
        let c2 = choose|c: Set<nat>| #[trigger] closed_on(t2, c, mid, hi, a as int) && within(c, mid, hi) && c.contains(s) && !c.contains(a);
        let c = c1.union(c2);
        assert(closed_on(u, c, lo, hi, accept as int)) by {
            assert forall|i: int, j: int| lo <= i < hi && i != accept && 0 <= j < u[i].len() && c.contains(i as nat)
                && (#[trigger] u[i][j]) is Epsilon implies c.contains(target_of(u[i][j])) by {
                if i == start {
                    if u[i][j] != STransition::Epsilon(s) {
                        let j2 = choose|j2: int| 0 <= j2 < t2[start as int].len() && t2[start as int][j2] == u[i][j];
                        assert(t1[start as int][j2] is Epsilon);
                    }
                } else if c1.contains(i as nat) {
                    assert(u[i] == t1[i]);
                    assert(t1[i][j] is Epsilon);
                } else {
                    assert(c2.contains(i as nat));
                    assert(u[i] == t2[i]);
                    assert(t2[i][j] is Epsilon);
                }
            }
        }
        assert(within(c, lo, hi));
        assert(!c.contains(accept));
    }
}

pub(crate) proof fn lemma_build(t: Seq<Seq<STransition>>, e: SExpr)
    ensures
        fragment(t, spec_build(t, e).0, spec_build(t, e).1, spec_build(t, e).2, spec_nullable(e)),
    decreases e, 0int, 0int,
{
    match e {
        SExpr::Literal(c) => {
            let tr = STransition::Char(c, (t.len() + 1) as nat);
            lemma_char_fragment(t, tr);
            assert(spec_build(t, e) == (add_edge(fresh(fresh(t)), t.len(), tr), t.len(), (t.len() + 1) as nat));
        },
        SExpr::Class(cls) => {
            lemma_char_fragment(t, STransition::Class(cls, (t.len() + 1) as nat));
        },
        SExpr::Concat(items) => {
            lemma_build_sequence(t, items);
            if items.len() == 0 {
                assert(spec_build_sequence(t, items) == (t, None::<nat>, None::<nat>));
                assert(spec_build(t, e) == (fresh(t), t.len(), t.len()));
                lemma_single(t);
                assert(all_nullable(items));
            } else {
                let (t1, first, last) = spec_build_sequence(t, items);
                assert(spec_build(t, e) == (t1, first->0, last->0));
            }
        },
        SExpr::Alternation(items) => {
            lemma_build_branches(t, items);
        },
        SExpr::Repetition { expr, kind, .. } => {
            lemma_build_repetition(t, *expr, kind);
        },
        SExpr::Group { expr, .. } => {
            lemma_build(t, *expr);
        },
        _ => {
            lemma_single(t);
        },
    }
}

pub(crate) proof fn lemma_build_sequence(t: Seq<Seq<STransition>>, items: Seq<SExpr>)
    ensures
        ({
            let (t1, first, last) = spec_build_sequence(t, items);
            &&& items.len() == 0 ==> t1 == t && first is None && last is None
            &&& items.len() > 0 ==> first is Some && last is Some
                && fragment(t, t1, first->0, last->0, all_nullable(items))
        }),
    decreases items, 0int, 0int,
{
    if items.len() > 0 {
        let init = items.drop_last();
        let (t1, first, prev) = spec_build_sequence(t, init);
        lemma_build_sequence(t, init);
        let (t2, s, a) = spec_build(t1, items.last());
        lemma_build(t1, items.last());
        if init.len() > 0 {
            lemma_chain(t, t1, first->0, prev->0, all_nullable(init), t2, s, a, spec_nullable(items.last()));
        } else {
            assert(all_nullable(init));
            assert(link(t2, prev, s) == t2);
        }
    }
}

pub(crate) proof fn lemma_build_branches(t: Seq<Seq<STransition>>, items: Seq<SExpr>)
    ensures
        fragment(t, spec_build_branches(fresh(fresh(t)), items, t.len(), (t.len() + 1) as nat), t.len(),
            (t.len() + 1) as nat, any_nullable(items)),
    decreases items, 0int, 0int,
{
    let start = t.len();
    let accept = (t.len() + 1) as nat;
    if items.len() == 0 {
        let t0 = fresh(fresh(t));
        let lo = t.len() as int;
        assert forall|i: int| 0 <= i < lo implies #[trigger] t0[i] == t[i] by {}
        let c = set![start];
        assert(t0[start as int].len() == 0);
        assert(closed_on(t0, c, lo, lo + 2, accept as int));
        assert(within(c, lo, lo + 2));
    } else {
        let init = items.drop_last();
        let t1 = spec_build_branches(fresh(fresh(t)), init, start, accept);
        lemma_build_branches(t, init);
        let (t2, s, a) = spec_build(t1, items.last());
        lemma_build(t1, items.last());
        lemma_branch_step(t, t1, any_nullable(init), t2, s, a, spec_nullable(items.last()));
    }
}

pub(crate) proof fn lemma_build_copies(t: Seq<Seq<STransition>>, x: SExpr, k: nat)
    ensures
        ({
            let (t1, first, last) = spec_build_copies(t, x, k);
            &&& k == 0 ==> t1 == t && first is None && last is None
            &&& k > 0 ==> first is Some && last is Some && fragment(t, t1, first->0, last->0, spec_nullable(x))
        }),
    decreases x, 1int, k,
{
    if k > 0 {
        let (t1, first, prev) = spec_build_copies(t, x, (k - 1) as nat);
        lemma_build_copies(t, x, (k - 1) as nat);
        let (t2, s, a) = spec_build(t1, x);
        lemma_build(t1, x);
        if k > 1 {
            lemma_chain(t, t1, first->0, prev->0, spec_nullable(x), t2, s, a, spec_nullable(x));
        }
    }
}

proof fn lemma_build_optionals(t: Seq<Seq<STransition>>, t1: Seq<Seq<STransition>>, s: nat, nb: bool, x: SExpr, k: nat, prev: nat)
    requires
        fragment(t, t1, s, prev, nb),
    ensures
        fragment(t, spec_build_optionals(t1, x, k, prev).0, s, spec_build_optionals(t1, x, k, prev).1, nb),
    decreases x, 2int, k,
{
    if k > 0 {
        let (ta, p1) = spec_build_optionals(t1, x, (k - 1) as nat, prev);
        lemma_build_optionals(t, t1, s, nb, x, (k - 1) as nat, prev);
        let (tb, s2, a2) = spec_build_repetition(ta, x, RepetitionKind::ZeroOrOne);
        lemma_build_repetition(ta, x, RepetitionKind::ZeroOrOne);
        lemma_chain(t, ta, s, p1, nb, tb, s2, a2, true);
    }
}

pub(crate) proof fn lemma_build_repetition(t: Seq<Seq<STransition>>, x: SExpr, kind: RepetitionKind)
    ensures
        fragment(t, spec_build_repetition(t, x, kind).0, spec_build_repetition(t, x, kind).1,
            spec_build_repetition(t, x, kind).2, kind_nullable(kind, spec_nullable(x))),
    decreases x, kind_level(kind), 0int,
{
    match kind {
        RepetitionKind::ZeroOrMore => {
            if x matches SExpr::Repetition { kind: RepetitionKind::ZeroOrMore, .. } {
                lemma_build(t, x);
            } else {
                let (t1, s, a) = spec_build(fresh(fresh(t)), x);
                lemma_build(fresh(fresh(t)), x);
                lemma_star_fragment(t, t1, s, a, spec_nullable(x));
            }
        },
        RepetitionKind::OneOrMore => {
            let (t1, s, a) = spec_build(fresh(fresh(t)), x);
            lemma_build(fresh(fresh(t)), x);
            lemma_plus_fragment(t, t1, s, a, spec_nullable(x));
        },
        RepetitionKind::ZeroOrOne => {
            let (t1, s, a) = spec_build(fresh(fresh(t)), x);
            lemma_build(fresh(fresh(t)), x);
            lemma_opt_fragment(t, t1, s, a, spec_nullable(x));
        },
        RepetitionKind::Exactly(n) => {
            lemma_build_copies(t, x, n as nat);
            if n == 0 {
                lemma_single(t);
            }
        },
        RepetitionKind::AtLeast(n) => {
            let (t1, s, a) = spec_build_repetition(t, x, RepetitionKind::Exactly(n));
            lemma_build_repetition(t, x, RepetitionKind::Exactly(n));
            let (t2, s2, a2) = spec_build_repetition(t1, x, RepetitionKind::ZeroOrMore);
            lemma_build_repetition(t1, x, RepetitionKind::ZeroOrMore);
            lemma_chain(t, t1, s, a, kind_nullable(RepetitionKind::Exactly(n), spec_nullable(x)), t2, s2, a2, true);
        },
        RepetitionKind::Range(min, max) => {
            let (t1, s, a) = spec_build_repetition(t, x, RepetitionKind::Exactly(min));
            lemma_build_repetition(t, x, RepetitionKind::Exactly(min));
            let k: nat = if max > min { (max - min) as nat } else { 0 };
            lemma_build_optionals(t, t1, s, kind_nullable(RepetitionKind::Exactly(min), spec_nullable(x)), x, k, a);
        },
    }
}


/// Thompson's construction accepts the empty word exactly for the expressions that match
/// it: whatever states were built before, the fragment that `spec_build` adds for `e`
/// reaches its accept state from its start state by epsilon edges alone exactly when `e`
/// matches the empty word. In particular `x+` accepts the empty word only when `x` does.
pub proof fn law_build_accepts_empty_iff_nullable(t: Seq<Seq<STransition>>, e: SExpr)
    ensures
        ({
            let (t2, s, a) = spec_build(t, e);
            &&& spec_epsilon_closure(t2, set![s]).contains(a) <==> spec_nullable(e)
            &&& nfa_accepts(t2, s, a, Seq::empty()) <==> spec_nullable(e)
        }),
{
    let (t2, s, a) = spec_build(t, e);
    let lo = t.len() as int;
    let hi = t2.len() as int;
    lemma_build(t, e);
    if spec_nullable(e) {
        assert forall|c: Set<nat>| #[trigger] eps_closed(t2, c) && set![s].subset_of(c) implies c.contains(a) by {
            assert(c.contains(s));
            assert(closed_on(t2, c, lo, hi, a as int));
        }
    } else {
        let c = choose|c: Set<nat>| #[trigger] closed_on(t2, c, lo, hi, a as int) && within(c, lo, hi) && c.contains(s) && !c.contains(a);
        assert(eps_closed(t2, c)) by {
            assert forall|i: int, j: int|
                0 <= i < t2.len() && 0 <= j < t2[i].len() && c.contains(i as nat) && (#[trigger] t2[i][j]) is Epsilon
                implies c.contains(target_of(t2[i][j])) by {
                assert(lo <= i < hi);
            }
        }
        assert(set![s].subset_of(c));
        assert(!spec_epsilon_closure(t2, set![s]).contains(a));
    }
}

} // verus!
