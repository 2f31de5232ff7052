//! Thompson's construction of an NFA from a syntax tree, and epsilon closures.
use vstd::prelude::*;
use crate::ast::{Expr, SExpr, RepetitionKind, view_seq, copy_class};
use crate::dfa::{
    StateId, Transition, STransition, NFA, row_view, table_view, target_of, opt_id, table_wf,
    copy_transition, same_transition, lemma_table_entry, sorted_ids, id_set, insert_id, sorted_set,
    SSymbol, move_on, lemma_sorted_ids_unique,
};

verus! {

/// The edges of state `from` get `tr` added, unless it is already there.
pub open spec fn add_edge(t: Seq<Seq<STransition>>, from: nat, tr: STransition) -> Seq<Seq<STransition>> {
    if from < t.len() {
        if t[from as int].contains(tr) {
            t
        } else {
            t.update(from as int, t[from as int].push(tr))
        }
    } else {
        t
    }
}

/// A fresh state (numbered by the count of states so far) with no edges.
pub open spec fn fresh(t: Seq<Seq<STransition>>) -> Seq<Seq<STransition>> {
    t.push(Seq::empty())
}

/// Links the previous fragment's accept state, if any, to the next fragment's start.
pub open spec fn link(t: Seq<Seq<STransition>>, prev: Option<nat>, next_start: nat) -> Seq<Seq<STransition>> {
    match prev {
        Some(p) => add_edge(t, p, STransition::Epsilon(next_start)),
        None => t,
    }
}

/// How deeply a repetition kind builds on other kinds: the measure that bounds the
/// recursion of the construction.
pub open spec fn kind_level(k: RepetitionKind) -> int {
    match k {
        RepetitionKind::AtLeast(_) | RepetitionKind::Range(_, _) => 3,
        RepetitionKind::Exactly(_) => 2,
        _ => 1,
    }
}

/// Thompson construction: the states after building a fragment for `e` on top of the
/// states `t`, with the fragment's start and accept states.
pub open spec fn spec_build(t: Seq<Seq<STransition>>, e: SExpr) -> (Seq<Seq<STransition>>, nat, nat)
    decreases e, 0int, 0int,
{
    match e {
        SExpr::Literal(c) => {
            let start = t.len();
            let accept = t.len() + 1;
            (add_edge(fresh(fresh(t)), start, STransition::Char(c, accept)), start, accept)
        },
        SExpr::Class(cls) => {
            let start = t.len();
            let accept = t.len() + 1;
            (add_edge(fresh(fresh(t)), start, STransition::Class(cls, accept)), start, accept)
        },
        SExpr::Concat(items) => {
            let (t1, first, last) = spec_build_sequence(t, items);
            match (first, last) {
                (Some(s), Some(a)) => (t1, s, a),
                _ => (fresh(t1), t1.len(), t1.len()),
            }
        },
        SExpr::Alternation(items) => {
            let start = t.len();
            let accept = t.len() + 1;
            (spec_build_branches(fresh(fresh(t)), items, start, accept), start, accept)
        },
        SExpr::Repetition { expr, kind, .. } => spec_build_repetition(t, *expr, kind),
        SExpr::Group { expr, .. } => spec_build(t, *expr),
        _ => (fresh(t), t.len(), t.len()),
    }
}

/// Fragments for the items, each accept state linked to the next start: the states,
/// the first start and the last accept.
pub open spec fn spec_build_sequence(t: Seq<Seq<STransition>>, items: Seq<SExpr>) -> (Seq<Seq<STransition>>, Option<nat>, Option<nat>)
    decreases items, 0int, 0int,
{
    if items.len() == 0 {
        (t, None, None)
    } else {
        let (t1, first, prev) = spec_build_sequence(t, items.drop_last());
        let (t2, s, a) = spec_build(t1, items.last());
        (link(t2, prev, s), if first is None { Some(s) } else { first }, Some(a))
    }
}

/// Fragments for the branches, each entered from `start` and leaving to `accept`.
pub open spec fn spec_build_branches(t: Seq<Seq<STransition>>, items: Seq<SExpr>, start: nat, accept: nat) -> Seq<Seq<STransition>>
    decreases items, 0int, 0int,
{
    if items.len() == 0 {
        t
    } else {
        let t1 = spec_build_branches(t, items.drop_last(), start, accept);
        let (t2, s, a) = spec_build(t1, items.last());
        add_edge(add_edge(t2, start, STransition::Epsilon(s)), a, STransition::Epsilon(accept))
    }
}

/// `k` fragments for `x` in a row.
pub open spec fn spec_build_copies(t: Seq<Seq<STransition>>, x: SExpr, k: nat) -> (Seq<Seq<STransition>>, Option<nat>, Option<nat>)
    decreases x, 1int, k,
{
    if k == 0 {
        (t, None, None)
    } else {
        let (t1, first, prev) = spec_build_copies(t, x, (k - 1) as nat);
        let (t2, s, a) = spec_build(t1, x);
        (link(t2, prev, s), if first is None { Some(s) } else { first }, Some(a))
    }
}

/// `k` optional fragments for `x` in a row after the state `prev`: the states and the
/// last accept state.
pub open spec fn spec_build_optionals(t: Seq<Seq<STransition>>, x: SExpr, k: nat, prev: nat) -> (Seq<Seq<STransition>>, nat)
    decreases x, 2int, k,
{
    if k == 0 {
        (t, prev)
    } else {
        let (t1, p1) = spec_build_optionals(t, x, (k - 1) as nat, prev);
        let (t2, s2, a2) = spec_build_repetition(t1, x, RepetitionKind::ZeroOrOne);
        (add_edge(t2, p1, STransition::Epsilon(s2)), a2)
    }
}

/// The fragment for `x` repeated as `kind` says.
pub open spec fn spec_build_repetition(t: Seq<Seq<STransition>>, x: SExpr, kind: RepetitionKind) -> (Seq<Seq<STransition>>, nat, nat)
    decreases x, kind_level(kind), 0int,
{
    match kind {
        RepetitionKind::ZeroOrMore => if x matches SExpr::Repetition { kind: RepetitionKind::ZeroOrMore, .. } {
            spec_build(t, x)
        } else {
            let start = t.len();
            let accept = t.len() + 1;
            let (t1, s, a) = spec_build(fresh(fresh(t)), x);
            let t2 = add_edge(t1, start, STransition::Epsilon(s));
            let t3 = add_edge(t2, start, STransition::Epsilon(accept));
            let t4 = add_edge(t3, a, STransition::Epsilon(s));
            (add_edge(t4, a, STransition::Epsilon(accept)), start, accept)
        },
        RepetitionKind::OneOrMore => {
            let start = t.len();
            let accept = t.len() + 1;
            let (t1, s, a) = spec_build(fresh(fresh(t)), x);
            let t2 = add_edge(t1, start, STransition::Epsilon(s));
            let t3 = add_edge(t2, a, STransition::Epsilon(s));
            (add_edge(t3, a, STransition::Epsilon(accept)), start, accept)
        },
        RepetitionKind::ZeroOrOne => {
            let start = t.len();
            let accept = t.len() + 1;
            let (t1, s, a) = spec_build(fresh(fresh(t)), x);
            let t2 = add_edge(t1, start, STransition::Epsilon(s));
            let t3 = add_edge(t2, start, STransition::Epsilon(accept));
            (add_edge(t3, a, STransition::Epsilon(accept)), start, accept)
        },
        RepetitionKind::Exactly(n) => {
            let (t1, first, last) = spec_build_copies(t, x, n as nat);
            match (first, last) {
                (Some(s), Some(a)) => (t1, s, a),
                _ => (fresh(t1), t1.len(), t1.len()),
            }
        },
        RepetitionKind::AtLeast(n) => {
            let (t1, s, a) = spec_build_repetition(t, x, RepetitionKind::Exactly(n));
            let (t2, s2, a2) = spec_build_repetition(t1, x, RepetitionKind::ZeroOrMore);
            (add_edge(t2, a, STransition::Epsilon(s2)), s, a2)
        },
        RepetitionKind::Range(min, max) => {
            let (t1, s, a) = spec_build_repetition(t, x, RepetitionKind::Exactly(min));
            let k: nat = if max > min { (max - min) as nat } else { 0 };
            let (t2, last) = spec_build_optionals(t1, x, k, a);
            (t2, s, last)
        },
    }
}


} // verus!

verus! {

/// A copy of the edges of one state.
fn copy_row(r: &Vec<Transition>) -> (c: Vec<Transition>)
    ensures
        row_view(c@) == row_view(r@),
{
    let mut c: Vec<Transition> = Vec::new();
    let mut i: usize = 0;
    while i < r.len()
        invariant
            i <= r.len(),
            c.len() == i,
            forall|k: int| 0 <= k < i ==> #[trigger] c@[k]@ == r@[k]@,
        decreases r.len() - i,
    {
        c.push(copy_transition(&r[i]));
        i += 1;
    }
    assert(row_view(c@) =~= row_view(r@));
    c
}

/// A copy of the edges of every state.
fn copy_table(t: &Vec<Vec<Transition>>) -> (c: Vec<Vec<Transition>>)
    ensures
        table_view(c@) == table_view(t@),
{
    let mut c: Vec<Vec<Transition>> = Vec::new();
    let mut i: usize = 0;
    while i < t.len()
        invariant
            i <= t.len(),
            c.len() == i,
            forall|k: int| 0 <= k < i ==> row_view(#[trigger] c@[k]@) == row_view(t@[k]@),
        decreases t.len() - i,
    {
        c.push(copy_row(&t[i]));
        i += 1;
    }
    assert(table_view(c@) =~= table_view(t@));
    c
}

/// No edge carries `Any`, and no state lists one edge twice.
pub open spec fn table_clean(t: Seq<Seq<STransition>>) -> bool {
    &&& forall|i: int, j: int| 0 <= i < t.len() && 0 <= j < t[i].len() ==> !((#[trigger] t[i][j]) is Any)
    &&& forall|i: int, j: int, k: int| 0 <= i < t.len() && 0 <= j < k < t[i].len() ==> (#[trigger] t[i][j]) != (#[trigger] t[i][k])
}

/// The rows of `t2` below `n`, but for row `except`, are those of `t`.
pub open spec fn keeps_rows(t: Seq<Seq<STransition>>, t2: Seq<Seq<STransition>>, n: int, except: int) -> bool {
    forall|i: int| 0 <= i < n && i != except ==> #[trigger] t2[i] == t[i]
}

/// Builds an NFA fragment by fragment (Thompson's construction).
pub struct NfaBuilder {
    next_state: usize,
    transitions: Vec<Vec<Transition>>,
}

impl NfaBuilder {
    /// The states built so far, with their edges.
    pub closed spec fn table(&self) -> Seq<Seq<STransition>> {
        table_view(self.transitions@)
    }

    pub closed spec fn wf(&self) -> bool {
        &&& self.next_state == self.transitions.len()
        &&& table_wf(self.table())
        &&& table_clean(self.table())
    }

    pub fn new() -> (b: Self)
        ensures
            b.wf(),
            b.table() == Seq::<Seq<STransition>>::empty(),
    {
        let b = NfaBuilder { next_state: 0, transitions: Vec::new() };
        assert(b.table() =~= Seq::<Seq<STransition>>::empty());
        b
    }

    fn new_state(&mut self) -> (id: StateId)
        requires
            old(self).wf(),
        ensures
            final(self).wf(),
            final(self).table() == fresh(old(self).table()),
            id.0 == old(self).table().len(),
    {
        let id = StateId(self.transitions.len());
        let row: Vec<Transition> = Vec::new();
        assert(row_view(row@) =~= Seq::<STransition>::empty());
        self.transitions.push(row);
        self.next_state = self.transitions.len();
        assert(self.table() =~= fresh(old(self).table()));
        id
    }

    fn add_transition(&mut self, from: StateId, trans: Transition)
        requires
            old(self).wf(),
            from.0 < old(self).table().len(),
            target_of(trans@) < old(self).table().len(),
            !(trans@ is Any),
        ensures
            final(self).wf(),
            final(self).table() == add_edge(old(self).table(), from.0 as nat, trans@),
    {
        let ghost t = self.table();
        let ghost tr = trans@;
        let mut present = false;
        let mut j: usize = 0;
        let n = self.transitions[from.0].len();
        while j < n
            invariant
                t == self.table(),
                from.0 < self.transitions.len(),
                n == self.transitions@[from.0 as int].len(),
                n == t[from.0 as int].len(),
                j <= n,
                tr == trans@,
                present == exists|k: int| 0 <= k < j && t[from.0 as int][k] == tr,
            decreases n - j,
        {
            proof {
                lemma_table_entry(self.transitions@, from.0 as int, j as int);
            }
            if same_transition(&self.transitions[from.0][j], &trans) {
                present = true;
            }
            j += 1;
        }
        if !present {
            let ghost before = self.transitions@;
            self.transitions[from.0].push(trans);
            proof {
                assert forall|i: int| 0 <= i < t.len() implies #[trigger] self.table()[i] == t.update(from.0 as int, t[from.0 as int].push(tr))[i] by {
                    if i == from.0 {
                        assert(row_view(self.transitions@[i]@) =~= row_view(before[i]@).push(tr));
                    }
                }
                assert(self.table() =~= t.update(from.0 as int, t[from.0 as int].push(tr)));
            }
        } else {
            assert(t[from.0 as int].contains(tr));
        }
    }

    /// Builds the fragment for `expr`: its start and accept states.
    fn build_expr(&mut self, expr: &Expr) -> (r: (StateId, StateId))
        requires
            old(self).wf(),
        ensures
            final(self).wf(),
            spec_build(old(self).table(), expr@) == (final(self).table(), r.0.0 as nat, r.1.0 as nat),
            old(self).table().len() <= final(self).table().len(),
            r.0.0 < final(self).table().len(),
            r.1.0 < final(self).table().len(),
            old(self).table().len() <= r.1.0,
            final(self).table()[r.1.0 as int].len() == 0,
            keeps_rows(old(self).table(), final(self).table(), old(self).table().len() as int, -1),
        decreases expr, 0int, 0int,
    {
        match expr {
            Expr::Literal(c) => {
                let start = self.new_state();
                let accept = self.new_state();
                self.add_transition(start, Transition::Char(*c, accept));
                (start, accept)
            },
            Expr::Class(cls) => {
                let start = self.new_state();
                let accept = self.new_state();
                self.add_transition(start, Transition::Class(copy_class(cls), accept));
                (start, accept)
            },
            Expr::Concat(items) => {
                let (first, last) = self.build_sequence(items);
                match (first, last) {
                    (Some(s), Some(a)) => (s, a),
                    _ => {
                        let s = self.new_state();
                        (s, s)
                    },
                }
            },
            Expr::Alternation(branches) => {
                let start = self.new_state();
                let accept = self.new_state();
                self.build_branches(branches, start, accept);
                (start, accept)
            },
            Expr::Repetition { expr: inner, kind, .. } => self.build_repetition(inner, kind),
            Expr::Group { expr: inner, .. } => self.build_expr(inner),
            _ => {
                let s = self.new_state();
                (s, s)
            },
        }
    }

    /// Builds the items' fragments in a row, each accept state linked to the next start.
    fn build_sequence(&mut self, items: &Vec<Expr>) -> (r: (Option<StateId>, Option<StateId>))
        requires
            old(self).wf(),
        ensures
            final(self).wf(),
            spec_build_sequence(old(self).table(), view_seq(items@)) == (final(self).table(), opt_id(r.0), opt_id(r.1)),
            old(self).table().len() <= final(self).table().len(),
            r.0 is Some <==> r.1 is Some,
            r.0 matches Some(s) ==> s.0 < final(self).table().len(),
            r.1 matches Some(a) ==> a.0 < final(self).table().len(),
            r.1 matches Some(a) ==> old(self).table().len() <= a.0 && final(self).table()[a.0 as int].len() == 0,
            keeps_rows(old(self).table(), final(self).table(), old(self).table().len() as int, -1),
        decreases items, 0int, 0int,
    {
        let ghost t0 = self.table();
        let ghost vs = view_seq(items@);
        let mut first: Option<StateId> = None;
        let mut prev: Option<StateId> = None;
        let mut i: usize = 0;
        assert(vs.take(0) =~= Seq::<SExpr>::empty());
        while i < items.len()
            invariant
                self.wf(),
                i <= items.len(),
                vs == view_seq(items@),
                spec_build_sequence(t0, vs.take(i as int)) == (self.table(), opt_id(first), opt_id(prev)),
                t0.len() <= self.table().len(),
                first is Some <==> prev is Some,
                first matches Some(s) ==> s.0 < self.table().len(),
                prev matches Some(a) ==> a.0 < self.table().len(),
                prev matches Some(a) ==> t0.len() <= a.0 && self.table()[a.0 as int].len() == 0,
                keeps_rows(t0, self.table(), t0.len() as int, -1),
            decreases items.len() - i,
        {
            proof {
                assert(decreases_to!(items => items@[i as int]));
                assert(vs.take(i + 1).drop_last() =~= vs.take(i as int));
            }
            let (s, a) = self.build_expr(&items[i]);
            if let Some(p) = prev {
                self.add_transition(p, Transition::Epsilon(s));
            }
            if first.is_none() {
                first = Some(s);
            }
            prev = Some(a);
            i += 1;
        }
        assert(vs.take(items.len() as int) =~= vs);
        (first, prev)
    }

    /// Builds each branch's fragment, entered from `start` and leaving to `accept`.
    fn build_branches(&mut self, items: &Vec<Expr>, start: StateId, accept: StateId)
        requires
            old(self).wf(),
            start.0 < old(self).table().len(),
            accept.0 < old(self).table().len(),
        ensures
            final(self).wf(),
            final(self).table() == spec_build_branches(old(self).table(), view_seq(items@), start.0 as nat, accept.0 as nat),
            old(self).table().len() <= final(self).table().len(),
            keeps_rows(old(self).table(), final(self).table(), old(self).table().len() as int, start.0 as int),
        decreases items, 0int, 0int,
    {
        let ghost t0 = self.table();
        let ghost vs = view_seq(items@);
        let mut i: usize = 0;
        assert(vs.take(0) =~= Seq::<SExpr>::empty());
        while i < items.len()
            invariant
                self.wf(),
                i <= items.len(),
                vs == view_seq(items@),
                self.table() == spec_build_branches(t0, vs.take(i as int), start.0 as nat, accept.0 as nat),
                t0.len() <= self.table().len(),
                start.0 < t0.len(),
                accept.0 < t0.len(),
                keeps_rows(t0, self.table(), t0.len() as int, start.0 as int),
            decreases items.len() - i,
        {
            proof {
                assert(decreases_to!(items => items@[i as int]));
                assert(vs.take(i + 1).drop_last() =~= vs.take(i as int));
            }
            let (s, a) = self.build_expr(&items[i]);
            self.add_transition(start, Transition::Epsilon(s));
            self.add_transition(a, Transition::Epsilon(accept));
            i += 1;
        }
        assert(vs.take(items.len() as int) =~= vs);
    }

    /// Builds the fragment for `expr` repeated as `kind` says.
    fn build_repetition(&mut self, expr: &Expr, kind: &RepetitionKind) -> (r: (StateId, StateId))
        requires
            old(self).wf(),
        ensures
            final(self).wf(),
            spec_build_repetition(old(self).table(), expr@, *kind) == (final(self).table(), r.0.0 as nat, r.1.0 as nat),
            old(self).table().len() <= final(self).table().len(),
            r.0.0 < final(self).table().len(),
            r.1.0 < final(self).table().len(),
            old(self).table().len() <= r.1.0,
            final(self).table()[r.1.0 as int].len() == 0,
            keeps_rows(old(self).table(), final(self).table(), old(self).table().len() as int, -1),
        decreases expr, kind_level(*kind), 0int,
    {
        match kind {
            RepetitionKind::ZeroOrMore => {
                if self.is_zero_or_more(expr) {
                    return self.build_expr(expr);
                }
                let start = self.new_state();
                let accept = self.new_state();
                let (s, a) = self.build_expr(expr);
                self.add_transition(start, Transition::Epsilon(s));
                self.add_transition(start, Transition::Epsilon(accept));
                self.add_transition(a, Transition::Epsilon(s));
                self.add_transition(a, Transition::Epsilon(accept));
                (start, accept)
            },
            RepetitionKind::OneOrMore => {
                let start = self.new_state();
                let accept = self.new_state();
                let (s, a) = self.build_expr(expr);
                self.add_transition(start, Transition::Epsilon(s));
                self.add_transition(a, Transition::Epsilon(s));
                self.add_transition(a, Transition::Epsilon(accept));
                (start, accept)
            },
            RepetitionKind::ZeroOrOne => {
                let start = self.new_state();
                let accept = self.new_state();
                let (s, a) = self.build_expr(expr);
                self.add_transition(start, Transition::Epsilon(s));
                self.add_transition(start, Transition::Epsilon(accept));
                self.add_transition(a, Transition::Epsilon(accept));
                (start, accept)
            },
            RepetitionKind::Exactly(n) => {
                let ghost t0 = self.table();
                let mut prev: Option<StateId> = None;
                let mut first: Option<StateId> = None;
                let mut i: u32 = 0;
                while i < *n
                    invariant
                        self.wf(),
                        i <= *n,
                        spec_build_copies(t0, expr@, i as nat) == (self.table(), opt_id(first), opt_id(prev)),
                        t0.len() <= self.table().len(),
                        first is Some <==> prev is Some,
                        first matches Some(s) ==> s.0 < self.table().len(),
                        prev matches Some(a) ==> a.0 < self.table().len(),
                        prev matches Some(a) ==> t0.len() <= a.0 && self.table()[a.0 as int].len() == 0,
                        keeps_rows(t0, self.table(), t0.len() as int, -1),
                    decreases *n - i,
                {
                    let (s, a) = self.build_expr(expr);
                    if let Some(p) = prev {
                        self.add_transition(p, Transition::Epsilon(s));
                    }
                    if first.is_none() {
                        first = Some(s);
                    }
                    prev = Some(a);
                    i += 1;
                }
                match (first, prev) {
                    (Some(s), Some(a)) => (s, a),
                    _ => {
                        let s = self.new_state();
                        (s, s)
                    },
                }
            },
            RepetitionKind::AtLeast(n) => {
                let (s, a) = self.build_repetition(expr, &RepetitionKind::Exactly(*n));
                let (s2, a2) = self.build_repetition(expr, &RepetitionKind::ZeroOrMore);
                self.add_transition(a, Transition::Epsilon(s2));
                (s, a2)
            },
            RepetitionKind::Range(min, max) => {
                let ghost t0 = self.table();
                let (s, a) = self.build_repetition(expr, &RepetitionKind::Exactly(*min));
                let ghost t1 = self.table();
                let mut prev = a;
                let mut i: u32 = *min;
                while i < *max
                    invariant
                        self.wf(),
                        kind_level(*kind) == 3,
                        *min <= i,
                        i <= *max || i == *min,
                        spec_build_optionals(t1, expr@, (i - *min) as nat, a.0 as nat) == (self.table(), prev.0 as nat),
                        t1.len() <= self.table().len(),
                        s.0 < t1.len(),
                        prev.0 < self.table().len(),
                        t0.len() <= prev.0,
                        self.table()[prev.0 as int].len() == 0,
                        keeps_rows(t0, self.table(), t0.len() as int, -1),
                        t0.len() <= t1.len(),
                    decreases *max - i,
                {
                    let (s2, a2) = self.build_repetition(expr, &RepetitionKind::ZeroOrOne);
                    self.add_transition(prev, Transition::Epsilon(s2));
                    prev = a2;
                    i += 1;
                }
                (s, prev)
            },
        }
    }

    fn is_zero_or_more(&self, expr: &Expr) -> (b: bool)
        ensures
            b == (expr@ matches SExpr::Repetition { kind: RepetitionKind::ZeroOrMore, .. }),
    {
        match expr {
            Expr::Repetition { kind: RepetitionKind::ZeroOrMore, .. } => true,
            _ => false,
        }
    }

    /// Builds the NFA for `expr` on top of the states built so far.
    pub fn build(&mut self, expr: &Expr) -> (nfa: NFA)
        requires
            old(self).wf(),
        ensures
            final(self).wf(),
            spec_build(old(self).table(), expr@) == (nfa.table(), nfa.start.0 as nat, nfa.accept.0 as nat),
            final(self).table() == nfa.table(),
            nfa.well_formed(),
            nfa.table()[nfa.accept.0 as int].len() == 0,
            table_clean(nfa.table()),
    {
        let (start, accept) = self.build_expr(expr);
        NFA { start, accept, states: copy_table(&self.transitions) }
    }
}

} // verus!

verus! {

/// The NFA for an expression.
pub fn build_nfa(expr: &Expr) -> (nfa: NFA)
    ensures
        spec_build(Seq::empty(), expr@) == (nfa.table(), nfa.start.0 as nat, nfa.accept.0 as nat),
        nfa.well_formed(),
        nfa.table()[nfa.accept.0 as int].len() == 0,
        table_clean(nfa.table()),
{
    let mut b = NfaBuilder::new();
    b.build(expr)
}

} // verus!

verus! {

/// Past this many states an epsilon closure stops growing.
pub const MAX_CLOSURE_SIZE: usize = 10000;

/// Every epsilon edge that leaves a state of `c` ends in `c`.
pub open spec fn eps_closed(t: Seq<Seq<STransition>>, c: Set<nat>) -> bool {
    forall|i: int, j: int|
        0 <= i < t.len() && 0 <= j < t[i].len() && c.contains(i as nat) && (#[trigger] t[i][j]) is Epsilon
            ==> c.contains(target_of(t[i][j]))
}

/// The epsilon closure of `s`: the states that every epsilon-closed superset of `s` holds.
pub open spec fn spec_epsilon_closure(t: Seq<Seq<STransition>>, s: Set<nat>) -> Set<nat> {
    Set::new(|x: nat| forall|c: Set<nat>| #[trigger] eps_closed(t, c) && s.subset_of(c) ==> c.contains(x))
}

/// The epsilon edges of state `x` lead into `c`.
pub open spec fn expanded(t: Seq<Seq<STransition>>, c: Set<nat>, x: nat) -> bool {
    x < t.len() ==> forall|j: int| 0 <= j < t[x as int].len() && (#[trigger] t[x as int][j]) is Epsilon ==> c.contains(target_of(t[x as int][j]))
}

/// The closure of a set is epsilon-closed and holds the set.
pub proof fn lemma_closure_closed(t: Seq<Seq<STransition>>, s: Set<nat>)
    ensures
        s.subset_of(spec_epsilon_closure(t, s)),
        eps_closed(t, spec_epsilon_closure(t, s)),
{
    let c = spec_epsilon_closure(t, s);
    assert forall|x: nat| s.contains(x) implies c.contains(x) by {
        assert forall|d: Set<nat>| #[trigger] eps_closed(t, d) && s.subset_of(d) implies d.contains(x) by {}
    }
    assert forall|i: int, j: int|
        0 <= i < t.len() && 0 <= j < t[i].len() && c.contains(i as nat) && (#[trigger] t[i][j]) is Epsilon
        implies c.contains(target_of(t[i][j])) by {
        assert forall|d: Set<nat>| #[trigger] eps_closed(t, d) && s.subset_of(d) implies d.contains(target_of(t[i][j])) by {
            assert(d.contains(i as nat));
        }
    }
}

/// Closing an epsilon closure again changes nothing.
pub proof fn law_epsilon_closure_idempotent(t: Seq<Seq<STransition>>, s: Set<nat>)
    ensures
        spec_epsilon_closure(t, spec_epsilon_closure(t, s)) == spec_epsilon_closure(t, s),
{
    let c = spec_epsilon_closure(t, s);
    lemma_closure_closed(t, s);
    lemma_closure_closed(t, c);
    assert forall|x: nat| spec_epsilon_closure(t, c).contains(x) implies c.contains(x) by {
        assert(eps_closed(t, c) && c.subset_of(c));
    }
    assert(spec_epsilon_closure(t, c) =~= c);
}

/// The state numbers of a list, in order.
pub open spec fn ids(v: Seq<StateId>) -> Seq<nat> {
    Seq::new(v.len(), |i: int| v[i].0 as nat)
}

/// The sorted list of the states in `s`.
pub open spec fn sorted_list(s: Set<nat>) -> Seq<StateId> {
    choose|v: Seq<StateId>| sorted_ids(v) && id_set(v) == s
}

/// The depth-first search that `NFA::epsilon_closure` runs: `found` holds `size` states,
/// `stack` the states still to expand (the last one next), and edges `j..` of state
/// `x` are still to be followed. A new target of an epsilon edge is added to `found`
/// and pushed. A state is taken from the stack only while `found` holds at most
/// `MAX_CLOSURE_SIZE` states; the result is `found` when no state is taken.
pub open spec fn closure_search(t: Seq<Seq<STransition>>, found: Set<nat>, size: int, stack: Seq<nat>, x: int, j: int) -> Set<nat>
    decreases
        (if size <= MAX_CLOSURE_SIZE { MAX_CLOSURE_SIZE + 1 - size } else { 0 }),
        (if size > MAX_CLOSURE_SIZE { 0 } else { stack.len() as int }),
        (if 0 <= x < t.len() && 0 <= j < t[x].len() { t[x].len() - j } else { 0 }),
{
    if 0 <= x < t.len() && 0 <= j < t[x].len() {
        if t[x][j] is Epsilon && !found.contains(target_of(t[x][j])) {
            closure_search(t, found.insert(target_of(t[x][j])), size + 1, stack.push(target_of(t[x][j])), x, j + 1)
        } else {
            closure_search(t, found, size, stack, x, j + 1)
        }
    } else if stack.len() > 0 && size <= MAX_CLOSURE_SIZE {
        closure_search(t, found, size, stack.drop_last(), stack.last() as int, 0)
    } else {
        found
    }
}

/// The set that `NFA::epsilon_closure` returns for the states `s`: the search starts
/// from their sorted list, which is also its first stack.
pub open spec fn closure_of(t: Seq<Seq<STransition>>, s: Set<nat>) -> Set<nat> {
    let v = sorted_list(s);
    closure_search(t, id_set(v), v.len() as int, ids(v), -1, 0)
}

/// An epsilon-closed set between `s` and its closure is the closure.
proof fn lemma_closure_exact(t: Seq<Seq<STransition>>, s: Set<nat>, c: Set<nat>)
    requires
        s.subset_of(c),
        c.subset_of(spec_epsilon_closure(t, s)),
        eps_closed(t, c),
    ensures
        c == spec_epsilon_closure(t, s),
{
    assert forall|x: nat| spec_epsilon_closure(t, s).contains(x) implies c.contains(x) by {
        assert(eps_closed(t, c) && s.subset_of(c));
    }
    assert(c =~= spec_epsilon_closure(t, s));
}

impl NFA {
    /// The states reachable from `states` by epsilon edges, in increasing order. The
    /// search stops once it holds more than `MAX_CLOSURE_SIZE` states.
    pub fn epsilon_closure(&self, states: &Vec<StateId>) -> (closure: Vec<StateId>)
        ensures
            sorted_ids(closure@),
            id_set(states@).subset_of(id_set(closure@)),
            id_set(closure@).subset_of(spec_epsilon_closure(self.table(), id_set(states@))),
            closure.len() <= MAX_CLOSURE_SIZE ==> id_set(closure@) == spec_epsilon_closure(self.table(), id_set(states@)),
            id_set(closure@) == closure_of(self.table(), id_set(states@)),
    {
        let ghost t = self.table();
        let ghost init = id_set(states@);
        let mut closure = sorted_set(states);
        let mut stack: Vec<StateId> = sorted_set(states);
        proof {
            let v = sorted_list(id_set(states@));
            assert(sorted_ids(v) && id_set(v) == id_set(states@));
            lemma_sorted_ids_unique(v, closure@);
            lemma_sorted_ids_unique(v, stack@);
        }
        let ghost result = closure_of(t, id_set(states@));
        assert(id_set(closure@).subset_of(spec_epsilon_closure(t, init))) by {
            assert forall|x: nat| id_set(closure@).contains(x) implies spec_epsilon_closure(t, init).contains(x) by {
                assert forall|c: Set<nat>| #[trigger] eps_closed(t, c) && init.subset_of(c) implies c.contains(x) by {
                    assert(init.contains(x));
                }
            }
        }
        while stack.len() > 0 && closure.len() <= MAX_CLOSURE_SIZE
            invariant
                t == self.table(),
                init == id_set(states@),
                sorted_ids(closure@),
                init.subset_of(id_set(closure@)),
                id_set(closure@).subset_of(spec_epsilon_closure(t, init)),
                id_set(stack@).subset_of(id_set(closure@)),
                forall|x: nat| id_set(closure@).contains(x) ==> id_set(stack@).contains(x) || expanded(t, id_set(closure@), x),
                closure_search(t, id_set(closure@), closure.len() as int, ids(stack@), -1, 0) == result,
            decreases (if closure.len() <= MAX_CLOSURE_SIZE { MAX_CLOSURE_SIZE + 1 - closure.len() } else { 0 }), stack.len(),
        {
            let ghost before = stack@;
            let state = stack.pop().unwrap();
            let ghost c0 = id_set(closure@);
            let ghost len0 = closure.len();
            let ghost rest = stack@;
            assert(before =~= rest.push(state));
            assert(ids(rest) =~= ids(before).drop_last());
            assert(ids(before).last() == state.0);
            assert(closure_search(t, c0, len0 as int, ids(rest), state.0 as int, 0) == result);
            assert(id_set(rest.push(state)) == id_set(rest).insert(state.0 as nat)) by {
                assert(id_set(rest.push(state)) =~= id_set(rest).insert(state.0 as nat)) by {
                    assert forall|y: nat| id_set(rest.push(state)).contains(y) implies id_set(rest).insert(state.0 as nat).contains(y) by {
                        let k = choose|k: int| 0 <= k < rest.len() + 1 && (#[trigger] rest.push(state)[k]).0 == y;
                        if k < rest.len() {
                            assert(rest[k] == rest.push(state)[k]);
                        }
                    }
                    assert forall|y: nat| id_set(rest).insert(state.0 as nat).contains(y) implies id_set(rest.push(state)).contains(y) by {
                        if y == state.0 {
                            assert(rest.push(state)[rest.len() as int] == state);
                        } else {
                            let k = choose|k: int| 0 <= k < rest.len() && (#[trigger] rest[k]).0 == y;
                            assert(rest.push(state)[k] == rest[k]);
                        }
                    }
                }
            }
            if state.0 < self.states.len() {
                let n = self.states[state.0].len();
                let mut j: usize = 0;
                while j < n
                    invariant
                        t == self.table(),
                        init == id_set(states@),
                        state.0 < self.states.len(),
                        n == t[state.0 as int].len(),
                        j <= n,
                        sorted_ids(closure@),
                        c0.subset_of(id_set(closure@)),
                        c0.contains(state.0 as nat),
                        id_set(closure@).subset_of(spec_epsilon_closure(t, init)),
                        id_set(stack@).subset_of(id_set(closure@)),
                        rest.len() <= stack.len(),
                        id_set(rest).subset_of(id_set(stack@)),
                        closure.len() - len0 == stack.len() - rest.len(),
                        forall|x: nat| id_set(closure@).contains(x) && !c0.contains(x) ==> id_set(stack@).contains(x),
                        forall|k: int| 0 <= k < j && (#[trigger] t[state.0 as int][k]) is Epsilon ==> id_set(closure@).contains(target_of(t[state.0 as int][k])),
                        closure_search(t, id_set(closure@), closure.len() as int, ids(stack@), state.0 as int, j as int) == result,
                    decreases n - j,
                {
                    proof {
                        lemma_table_entry(self.states@, state.0 as int, j as int);
                    }
                    let ghost f0 = id_set(closure@);
                    let ghost z0 = closure.len() as int;
                    let ghost s0 = ids(stack@);
                    assert(closure_search(t, f0, z0, s0, state.0 as int, j as int) == result);
                    if let Transition::Epsilon(next) = &self.states[state.0][j] {
                        let ghost cb = id_set(closure@);
                        let ghost sb = stack@;
                        assert(spec_epsilon_closure(t, init).contains(next.0 as nat)) by {
                            assert forall|c: Set<nat>| #[trigger] eps_closed(t, c) && init.subset_of(c) implies c.contains(next.0 as nat) by {
                                assert(spec_epsilon_closure(t, init).contains(state.0 as nat));
                                assert(c.contains(state.0 as nat));
                                assert(t[state.0 as int][j as int] is Epsilon);
                            }
                        }
                        let ghost clen = closure.len();
                        assert(t[state.0 as int][j as int] is Epsilon && target_of(t[state.0 as int][j as int]) == next.0);
                        if insert_id(&mut closure, *next) {
                            stack.push(*next);
                            proof {
                                assert(ids(stack@) =~= ids(sb).push(next.0 as nat));
                                assert(!f0.contains(next.0 as nat));
                                assert(closure_search(t, f0, z0, s0, state.0 as int, j as int)
                                    == closure_search(t, f0.insert(next.0 as nat), z0 + 1, s0.push(next.0 as nat), state.0 as int, j + 1));
                                assert(id_set(stack@) =~= id_set(sb).insert(next.0 as nat)) by {
                                    assert forall|y: nat| id_set(stack@).contains(y) implies id_set(sb).insert(next.0 as nat).contains(y) by {
                                        let k = choose|k: int| 0 <= k < stack@.len() && (#[trigger] stack@[k]).0 == y;
                                        if k < sb.len() {
                                            assert(sb[k] == stack@[k]);
                                        }
                                    }
                                    assert forall|y: nat| id_set(sb).insert(next.0 as nat).contains(y) implies id_set(stack@).contains(y) by {
                                        if y == next.0 {
                                            assert(stack@[sb.len() as int] == *next);
                                        } else {
                                            let k = choose|k: int| 0 <= k < sb.len() && (#[trigger] sb[k]).0 == y;
                                            assert(stack@[k] == sb[k]);
                                        }
                                    }
                                }
                            }
                        } else {
                            assert(id_set(closure@) == f0);
                            assert(closure_search(t, f0, z0, s0, state.0 as int, j as int)
                                == closure_search(t, f0, z0, s0, state.0 as int, j + 1));
                        }
                    } else {
                        assert(!(t[state.0 as int][j as int] is Epsilon));
                        assert(closure_search(t, f0, z0, s0, state.0 as int, j as int)
                            == closure_search(t, f0, z0, s0, state.0 as int, j + 1));
                    }
                    j += 1;
                }
                assert(expanded(t, id_set(closure@), state.0 as nat));
            }
            assert(closure_search(t, id_set(closure@), closure.len() as int, ids(stack@), -1, 0) == result);
            proof {
                assert forall|x: nat| id_set(closure@).contains(x) implies id_set(stack@).contains(x) || expanded(t, id_set(closure@), x) by {
                    if x == state.0 {
                    } else if !c0.contains(x) {
                    } else if id_set(rest).contains(x) {
                    } else {
                        assert(id_set(before).contains(x) || expanded(t, c0, x));
                        assert(expanded(t, c0, x));
                    }
                }
            }
        }
        proof {
            if closure.len() <= MAX_CLOSURE_SIZE {
                assert(eps_closed(t, id_set(closure@))) by {
                    assert forall|i: int, j: int|
                        0 <= i < t.len() && 0 <= j < t[i].len() && id_set(closure@).contains(i as nat) && (#[trigger] t[i][j]) is Epsilon
                        implies id_set(closure@).contains(target_of(t[i][j])) by {
                        assert(!id_set(stack@).contains(i as nat));
                        assert(expanded(t, id_set(closure@), i as nat));
                    }
                }
                lemma_closure_exact(t, init, id_set(closure@));
            }
        }
        closure
    }
}

/// The states the automaton can be in after reading `w` from the states `s`: each
/// letter is taken by one edge carrying it, followed by any epsilon edges.
pub open spec fn nfa_run(t: Seq<Seq<STransition>>, s: Set<nat>, w: Seq<SSymbol>) -> Set<nat>
    decreases w.len(),
{
    if w.len() == 0 {
        s
    } else {
        nfa_run(t, spec_epsilon_closure(t, move_on(t, s, w[0])), w.drop_first())
    }
}

/// The automaton with edges `t` accepts the word `w`: some path from `start` to `accept`
/// spells it, epsilon edges read as nothing.
pub open spec fn nfa_accepts(t: Seq<Seq<STransition>>, start: nat, accept: nat, w: Seq<SSymbol>) -> bool {
    nfa_run(t, spec_epsilon_closure(t, set![start]), w).contains(accept)
}

/// From no states, nothing is reached.
pub proof fn lemma_nfa_run_empty(t: Seq<Seq<STransition>>, w: Seq<SSymbol>)
    ensures
        nfa_run(t, Set::empty(), w) == Set::<nat>::empty(),
    decreases w.len(),
{
    if w.len() > 0 {
        assert(move_on(t, Set::empty(), w[0]) =~= Set::<nat>::empty());
        assert(eps_closed(t, Set::<nat>::empty()));
        assert(spec_epsilon_closure(t, Set::empty()) =~= Set::<nat>::empty()) by {
            assert forall|x: nat| !spec_epsilon_closure(t, Set::empty()).contains(x) by {
                assert(eps_closed(t, Set::<nat>::empty()) && Set::<nat>::empty().subset_of(Set::<nat>::empty()));
            }
        }
        lemma_nfa_run_empty(t, w.drop_first());
    }
}

} // verus!
