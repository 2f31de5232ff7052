//! The subset construction: a DFA whose states stand for sets of NFA states.
use vstd::prelude::*;
use crate::ast::copy_class;
use crate::dfa::{
    StateId, Transition, STransition, InputSymbol, SSymbol, NFA, DFA, target_of, lemma_table_entry,
    transition_target, sorted_ids, id_set, insert_id, contains_id, find_set, lemma_sorted_ids_unique,
    symbol_of, symbol_order, sorted_symbols, symbols_view, move_on, lemma_symbol_order_laws, order_symbols,
    copy_symbol, row_labels,
};
use crate::nfa::{MAX_CLOSURE_SIZE, spec_epsilon_closure, closure_of};

verus! {

/// Entry `k` of the label list maps label `a` to a set holding `y`.
pub open spec fn maps_to(syms: Seq<InputSymbol>, targets: Seq<Vec<StateId>>, a: SSymbol, y: nat) -> bool {
    exists|k: int| 0 <= k < syms.len() && (#[trigger] syms[k])@ == a && id_set(targets[k]@).contains(y)
}

/// Label `a` is in the label list.
pub open spec fn has_key(syms: Seq<InputSymbol>, a: SSymbol) -> bool {
    exists|k: int| 0 <= k < syms.len() && (#[trigger] syms[k])@ == a
}

/// Sorted distinct labels, each with a non-empty sorted set of states.
pub open spec fn symbol_map_wf(syms: Seq<InputSymbol>, targets: Seq<Vec<StateId>>) -> bool {
    &&& syms.len() == targets.len()
    &&& sorted_symbols(symbols_view(syms))
    &&& forall|k: int| 0 <= k < targets.len() ==> sorted_ids(#[trigger] targets[k]@) && targets[k]@.len() > 0
}

/// Adds `to` to the states that label `a` maps to.
#[verifier::spinoff_prover]
fn add_to_symbol_map(syms: &mut Vec<InputSymbol>, targets: &mut Vec<Vec<StateId>>, a: InputSymbol, to: StateId)
    requires
        symbol_map_wf(old(syms)@, old(targets)@),
    ensures
        symbol_map_wf(final(syms)@, final(targets)@),
        forall|b: SSymbol, y: nat| maps_to(final(syms)@, final(targets)@, b, y) == (maps_to(old(syms)@, old(targets)@, b, y) || (b == a@ && y == to.0)),
{
    let ghost s0 = syms@;
    let ghost t0 = targets@;
    let mut i: usize = 0;
    while i < syms.len() && order_symbols(&syms[i], &a) < 0
        invariant
            i <= syms.len(),
            syms@ == s0,
            targets@ == t0,
            forall|k: int| 0 <= k < i ==> symbol_order((#[trigger] s0[k])@, a@) < 0,
        decreases syms.len() - i,
    {
        i += 1;
    }
    if i < syms.len() && order_symbols(&syms[i], &a) == 0 {
        proof {
            lemma_symbol_order_laws(s0[i as int]@, a@, a@);
        }
        let ghost ti = targets@[i as int]@;
        insert_id(&mut targets[i], to);
        proof {
            assert forall|k: int| 0 <= k < targets@.len() implies sorted_ids(#[trigger] targets@[k]@) && targets@[k]@.len() > 0 by {
                if k != i {
                    assert(targets@[k] == t0[k]);
                }
            }
            assert forall|b: SSymbol, y: nat| maps_to(syms@, targets@, b, y) == (maps_to(s0, t0, b, y) || (b == a@ && y == to.0)) by {
                if maps_to(syms@, targets@, b, y) {
                    let k = choose|k: int| 0 <= k < syms@.len() && (#[trigger] syms@[k])@ == b && id_set(targets@[k]@).contains(y);
                    if k != i {
                        assert(targets@[k] == t0[k]);
                    }
                }
                if maps_to(s0, t0, b, y) {
                    let k = choose|k: int| 0 <= k < s0.len() && (#[trigger] s0[k])@ == b && id_set(t0[k]@).contains(y);
                    if k != i {
                        assert(targets@[k] == t0[k]);
                    }
                    assert(syms@[k]@ == b && id_set(targets@[k]@).contains(y));
                }
                if b == a@ && y == to.0 {
                    assert(syms@[i as int]@ == b && id_set(targets@[i as int]@).contains(y));
                }
            }
        }
    } else {
        let ghost av = a@;
        syms.insert(i, a);
        let mut v: Vec<StateId> = Vec::new();
        v.push(to);
        let ghost vv = v@;
        targets.insert(i, v);
        proof {
            assert(id_set(vv) =~= Set::<nat>::empty().insert(to.0 as nat)) by {
                assert forall|y: nat| id_set(vv).contains(y) implies y == to.0 by {
                    let k = choose|k: int| 0 <= k < vv.len() && (#[trigger] vv[k]).0 == y;
                }
                assert(vv[0] == to);
            }
            if i < s0.len() {
                lemma_symbol_order_laws(s0[i as int]@, av, av);
            }
            assert forall|p: int, q: int| 0 <= p < q < symbols_view(syms@).len()
                implies symbol_order(#[trigger] symbols_view(syms@)[p], #[trigger] symbols_view(syms@)[q]) < 0 by {
                let sv = symbols_view(syms@);
                let s0v = symbols_view(s0);
                if q < i {
                    assert(sv[p] == s0v[p] && sv[q] == s0v[q]);
                } else if q == i {
                    assert(sv[p] == s0[p]@);
                } else if p < i {
                    assert(sv[p] == s0[p]@ && sv[q] == s0[q - 1]@);
                    lemma_symbol_order_laws(s0[p]@, av, s0[i as int]@);
                    lemma_symbol_order_laws(av, s0[i as int]@, s0[q - 1]@);
                    lemma_symbol_order_laws(s0[p]@, s0[i as int]@, s0[q - 1]@);
                    if q - 1 > i {
                        assert(symbol_order(s0v[i as int], s0v[q - 1]) < 0);
                    }
                    assert(symbol_order(s0[p]@, s0[q - 1]@) < 0);
                } else if p == i {
                    assert(sv[q] == s0[q - 1]@);
                    lemma_symbol_order_laws(av, s0[i as int]@, s0[q - 1]@);
                    if q - 1 > i {
                        assert(symbol_order(s0v[i as int], s0v[q - 1]) < 0);
                    }
                } else {
                    assert(sv[p] == s0v[p - 1] && sv[q] == s0v[q - 1]);
                }
            }
            assert forall|k: int| 0 <= k < targets@.len() implies sorted_ids(#[trigger] targets@[k]@) && targets@[k]@.len() > 0 by {
                if k < i {
                    assert(targets@[k] == t0[k]);
                } else if k > i {
                    assert(targets@[k] == t0[k - 1]);
                }
            }
            assert forall|b: SSymbol, y: nat| maps_to(syms@, targets@, b, y) == (maps_to(s0, t0, b, y) || (b == av && y == to.0)) by {
                if maps_to(syms@, targets@, b, y) {
                    let k = choose|k: int| 0 <= k < syms@.len() && (#[trigger] syms@[k])@ == b && id_set(targets@[k]@).contains(y);
                    if k < i {
                        assert(s0[k] == syms@[k] && t0[k] == targets@[k]);
                    } else if k > i {
                        assert(s0[k - 1] == syms@[k] && t0[k - 1] == targets@[k]);
                    }
                }
                if maps_to(s0, t0, b, y) {
                    let k = choose|k: int| 0 <= k < s0.len() && (#[trigger] s0[k])@ == b && id_set(t0[k]@).contains(y);
                    if k < i {
                        assert(s0[k] == syms@[k] && t0[k] == targets@[k]);
                    } else {
                        assert(s0[k] == syms@[k + 1] && t0[k] == targets@[k + 1]);
                    }
                }
                if b == av && y == to.0 {
                    assert(syms@[i as int]@ == b && id_set(targets@[i as int]@).contains(y));
                }
            }
        }
    }
}

} // verus!

verus! {

/// An edge of a state listed before position `i` of `ss`, or of the state at `i`
/// before edge `j`, carries label `a` to `y`.
pub open spec fn edge_before(t: Seq<Seq<STransition>>, ss: Seq<StateId>, i: int, j: int, a: SSymbol, y: nat) -> bool {
    exists|p: int, q: int|
        0 <= p <= i && p < ss.len() && ss[p].0 < t.len() && 0 <= q < t[ss[p].0 as int].len() && (p < i || q < j)
            && symbol_of(#[trigger] t[ss[p].0 as int][q]) == Some(a) && target_of(t[ss[p].0 as int][q]) == y
}

/// The label of a non-epsilon edge.
fn symbol_of_transition(tr: &Transition) -> (r: Option<InputSymbol>)
    ensures
        match r {
            Some(a) => symbol_of(tr@) == Some(a@),
            None => symbol_of(tr@) is None,
        },
{
    match tr {
        Transition::Epsilon(_) => None,
        Transition::Char(c, _) => Some(InputSymbol::Char(*c)),
        Transition::Class(cls, _) => Some(InputSymbol::Class(copy_class(cls))),
        Transition::Any(_) => Some(InputSymbol::Any),
    }
}

impl NFA {
    /// For each label on an edge leaving `state_set`, the states such edges lead to:
    /// labels in increasing order, each with its sorted set of targets.
    fn get_symbol_transitions(&self, state_set: &Vec<StateId>) -> (r: (Vec<InputSymbol>, Vec<Vec<StateId>>))
        ensures
            symbol_map_wf(r.0@, r.1@),
            forall|a: SSymbol, y: nat| maps_to(r.0@, r.1@, a, y) == move_on(self.table(), id_set(state_set@), a).contains(y),
            forall|a: SSymbol| has_key(r.0@, a) == !move_on(self.table(), id_set(state_set@), a).is_empty(),
    {
        let ghost t = self.table();
        let ghost ss = state_set@;
        let mut syms: Vec<InputSymbol> = Vec::new();
        let mut targets: Vec<Vec<StateId>> = Vec::new();
        let mut i: usize = 0;
        while i < state_set.len()
            invariant
                t == self.table(),
                ss == state_set@,
                i <= ss.len(),
                symbol_map_wf(syms@, targets@),
                forall|a: SSymbol, y: nat| maps_to(syms@, targets@, a, y) == edge_before(t, ss, i as int, 0, a, y),
            decreases ss.len() - i,
        {
            let state = state_set[i];
            if state.0 < self.states.len() {
                let n = self.states[state.0].len();
                let mut j: usize = 0;
                while j < n
                    invariant
                        t == self.table(),
                        ss == state_set@,
                        i < ss.len(),
                        state == ss[i as int],
                        state.0 < t.len(),
                        n == t[state.0 as int].len(),
                        j <= n,
                        symbol_map_wf(syms@, targets@),
                        forall|a: SSymbol, y: nat| maps_to(syms@, targets@, a, y) == edge_before(t, ss, i as int, j as int, a, y),
                    decreases n - j,
                {
                    proof {
                        lemma_table_entry(self.states@, state.0 as int, j as int);
                    }
                    let tr = &self.states[state.0][j];
                    let ghost trv = t[state.0 as int][j as int];
                    assert(tr@ == trv);
                    match symbol_of_transition(tr) {
                        Some(a) => {
                            let ghost av = a@;
                            let to = transition_target(tr);
                            let ghost ms = syms@;
                            let ghost mt = targets@;
                            add_to_symbol_map(&mut syms, &mut targets, a, to);
                            proof {
                                let j1: int = j + 1;
                                assert forall|b: SSymbol, y: nat| maps_to(syms@, targets@, b, y) == edge_before(t, ss, i as int, j1, b, y) by {
                                    if edge_before(t, ss, i as int, j1, b, y) && !(b == av && y == to.0) {
                                        let (p, q) = choose|p: int, q: int|
                                            0 <= p <= i && p < ss.len() && ss[p].0 < t.len() && 0 <= q < t[ss[p].0 as int].len() && (p < i || q < j + 1)
                                                && symbol_of(#[trigger] t[ss[p].0 as int][q]) == Some(b) && target_of(t[ss[p].0 as int][q]) == y;
                                        assert(edge_before(t, ss, i as int, j as int, b, y));
                                    }
                                    if edge_before(t, ss, i as int, j as int, b, y) {
                                        let (p, q) = choose|p: int, q: int|
                                            0 <= p <= i && p < ss.len() && ss[p].0 < t.len() && 0 <= q < t[ss[p].0 as int].len() && (p < i || q < j)
                                                && symbol_of(#[trigger] t[ss[p].0 as int][q]) == Some(b) && target_of(t[ss[p].0 as int][q]) == y;
                                        assert(edge_before(t, ss, i as int, j1, b, y));
                                    }
                                    if b == av && y == to.0 {
                                        assert(symbol_of(t[ss[i as int].0 as int][j as int]) == Some(b));
                                        assert(edge_before(t, ss, i as int, j1, b, y));
                                    }
                                }
                            }
                        },
                        None => {
                            proof {
                                assert forall|b: SSymbol, y: nat| edge_before(t, ss, i as int, j + 1, b, y) == edge_before(t, ss, i as int, j as int, b, y) by {
                                    if edge_before(t, ss, i as int, j + 1, b, y) {
                                        let (p, q) = choose|p: int, q: int|
                                            0 <= p <= i && p < ss.len() && ss[p].0 < t.len() && 0 <= q < t[ss[p].0 as int].len() && (p < i || q < j + 1)
                                                && symbol_of(#[trigger] t[ss[p].0 as int][q]) == Some(b) && target_of(t[ss[p].0 as int][q]) == y;
                                        assert(edge_before(t, ss, i as int, j as int, b, y));
                                    }
                                    if edge_before(t, ss, i as int, j as int, b, y) {
                                        let (p, q) = choose|p: int, q: int|
                                            0 <= p <= i && p < ss.len() && ss[p].0 < t.len() && 0 <= q < t[ss[p].0 as int].len() && (p < i || q < j)
                                                && symbol_of(#[trigger] t[ss[p].0 as int][q]) == Some(b) && target_of(t[ss[p].0 as int][q]) == y;
                                        assert(edge_before(t, ss, i as int, j + 1, b, y));
                                    }
                                }
                            }
                        },
                    }
                    j += 1;
                }
                proof {
                    assert forall|b: SSymbol, y: nat| edge_before(t, ss, i + 1, 0, b, y) == edge_before(t, ss, i as int, n as int, b, y) by {
                        if edge_before(t, ss, i + 1, 0, b, y) {
                            let (p, q) = choose|p: int, q: int|
                                0 <= p <= i + 1 && p < ss.len() && ss[p].0 < t.len() && 0 <= q < t[ss[p].0 as int].len() && (p < i + 1 || q < 0)
                                    && symbol_of(#[trigger] t[ss[p].0 as int][q]) == Some(b) && target_of(t[ss[p].0 as int][q]) == y;
                            assert(edge_before(t, ss, i as int, n as int, b, y));
                        }
                        if edge_before(t, ss, i as int, n as int, b, y) {
                            let (p, q) = choose|p: int, q: int|
                                0 <= p <= i && p < ss.len() && ss[p].0 < t.len() && 0 <= q < t[ss[p].0 as int].len() && (p < i || q < n)
                                    && symbol_of(#[trigger] t[ss[p].0 as int][q]) == Some(b) && target_of(t[ss[p].0 as int][q]) == y;
                            assert(edge_before(t, ss, i + 1, 0, b, y));
                        }
                    }
                }
            } else {
                proof {
                    assert forall|b: SSymbol, y: nat| edge_before(t, ss, i + 1, 0, b, y) == edge_before(t, ss, i as int, 0, b, y) by {
                        if edge_before(t, ss, i + 1, 0, b, y) {
                            let (p, q) = choose|p: int, q: int|
                                0 <= p <= i + 1 && p < ss.len() && ss[p].0 < t.len() && 0 <= q < t[ss[p].0 as int].len() && (p < i + 1 || q < 0)
                                    && symbol_of(#[trigger] t[ss[p].0 as int][q]) == Some(b) && target_of(t[ss[p].0 as int][q]) == y;
                            assert(edge_before(t, ss, i as int, 0, b, y));
                        }
                        if edge_before(t, ss, i as int, 0, b, y) {
                            let (p, q) = choose|p: int, q: int|
                                0 <= p <= i && p < ss.len() && ss[p].0 < t.len() && 0 <= q < t[ss[p].0 as int].len() && (p < i || q < 0)
                                    && symbol_of(#[trigger] t[ss[p].0 as int][q]) == Some(b) && target_of(t[ss[p].0 as int][q]) == y;
                            assert(edge_before(t, ss, i + 1, 0, b, y));
                        }
                    }
                }
            }
            i += 1;
        }
        proof {
            let sset = id_set(ss);
            assert forall|a: SSymbol, y: nat| edge_before(t, ss, ss.len() as int, 0, a, y) == move_on(t, sset, a).contains(y) by {
                if edge_before(t, ss, ss.len() as int, 0, a, y) {
                    let (p, q) = choose|p: int, q: int|
                        0 <= p <= ss.len() && p < ss.len() && ss[p].0 < t.len() && 0 <= q < t[ss[p].0 as int].len() && (p < ss.len() || q < 0)
                            && symbol_of(#[trigger] t[ss[p].0 as int][q]) == Some(a) && target_of(t[ss[p].0 as int][q]) == y;
                    assert(sset.contains(ss[p].0 as nat));
                    assert(move_on(t, sset, a).contains(y));
                }
                if move_on(t, sset, a).contains(y) {
                    let (x, q) = choose|x: int, q: int| 0 <= x < t.len() && 0 <= q < t[x].len() && sset.contains(x as nat)
                        && symbol_of(#[trigger] t[x][q]) == Some(a) && target_of(t[x][q]) == y;
                    let p = choose|p: int| 0 <= p < ss.len() && (#[trigger] ss[p]).0 == x as nat;
                    assert(symbol_of(t[ss[p].0 as int][q]) == Some(a));
                    assert(edge_before(t, ss, ss.len() as int, 0, a, y));
                }
            }
            assert forall|a: SSymbol| has_key(syms@, a) == !move_on(t, sset, a).is_empty() by {
                if has_key(syms@, a) {
                    let k = choose|k: int| 0 <= k < syms@.len() && (#[trigger] syms@[k])@ == a;
                    assert(targets@[k]@.len() > 0);
                    assert(id_set(targets@[k]@).contains(targets@[k]@[0].0 as nat));
                    assert(maps_to(syms@, targets@, a, targets@[k]@[0].0 as nat));
                    assert(move_on(t, sset, a).contains(targets@[k]@[0].0 as nat));
                }
                if !move_on(t, sset, a).is_empty() {
                    let y = move_on(t, sset, a).choose();
                    assert(move_on(t, sset, a).contains(y));
                    assert(maps_to(syms@, targets@, a, y));
                }
            }
        }
        (syms, targets)
    }
}

} // verus!

verus! {

/// Past this many states the subset construction stops adding states.
pub const MAX_DFA_STATES: usize = 1000;

/// `c` is the sorted list that `NFA::epsilon_closure` returns for the states `s`: it holds
/// `s`, lies within the epsilon closure, and is the whole closure unless the search
/// stopped past `MAX_CLOSURE_SIZE` states.
pub open spec fn closure_result(t: Seq<Seq<STransition>>, s: Set<nat>, c: Seq<StateId>) -> bool {
    &&& sorted_ids(c)
    &&& s.subset_of(id_set(c))
    &&& id_set(c).subset_of(spec_epsilon_closure(t, s))
    &&& c.len() <= MAX_CLOSURE_SIZE ==> id_set(c) == spec_epsilon_closure(t, s)
    &&& id_set(c) == closure_of(t, s)
}

/// Row `i` of `rows` is the DFA state for the NFA states `sets[i]`: each label leads to
/// the state for the closure of the label's moves, in increasing order of label, and a
/// label is left out only when `MAX_DFA_STATES` states exist and none stands for that
/// closure.
pub open spec fn subset_row(t: Seq<Seq<STransition>>, sets: Seq<Seq<StateId>>, rows: Seq<Vec<(InputSymbol, StateId)>>, i: int) -> bool {
    row_ok(t, sets, rows[i]@, i)
}

/// `row` is the row of the DFA state for the NFA states `sets[i]`.
pub open spec fn row_ok(t: Seq<Seq<STransition>>, sets: Seq<Seq<StateId>>, row: Seq<(InputSymbol, StateId)>, i: int) -> bool {
    &&& sorted_symbols(row_labels(row))
    &&& forall|k: int| 0 <= k < row.len() ==> {
        let (a, j) = #[trigger] row[k];
        &&& j.0 < sets.len()
        &&& !move_on(t, id_set(sets[i]), a@).is_empty()
        &&& closure_result(t, move_on(t, id_set(sets[i]), a@), sets[j.0 as int])
    }
    &&& forall|a: SSymbol| #![trigger move_on(t, id_set(sets[i]), a)]
        !move_on(t, id_set(sets[i]), a).is_empty() && !row_labels(row).contains(a)
            ==> left_out(t, sets, move_on(t, id_set(sets[i]), a))
}

/// The closure of `s` would need a new DFA state, but `MAX_DFA_STATES` exist.
pub open spec fn left_out(t: Seq<Seq<STransition>>, sets: Seq<Seq<StateId>>, s: Set<nat>) -> bool {
    &&& sets.len() >= MAX_DFA_STATES
    &&& exists|c: Seq<StateId>| #[trigger] closure_result(t, s, c)
        && forall|j: int| 0 <= j < sets.len() ==> id_set(#[trigger] sets[j]) != id_set(c)
}

/// `d` is the subset construction of the NFA with edges `t`, start `start` and accept
/// state `accept`, its states standing for the sets of NFA states `sets`.
pub open spec fn subset_dfa(t: Seq<Seq<STransition>>, start: nat, accept: nat, d: DFA, sets: Seq<Seq<StateId>>) -> bool {
    &&& 1 <= sets.len() <= MAX_DFA_STATES
    &&& d.start.0 == 0
    &&& closure_result(t, set![start], sets[0])
    &&& forall|i: int, j: int| 0 <= i < j < sets.len() ==> id_set(#[trigger] sets[i]) != id_set(#[trigger] sets[j])
    &&& d.states.len() <= sets.len()
    &&& sets.len() < MAX_DFA_STATES ==> d.states.len() == sets.len()
    &&& forall|i: int| 0 <= i < d.states.len() ==> #[trigger] subset_row(t, sets, d.states@, i)
    &&& forall|j: int| 1 <= j < sets.len() ==> #[trigger] entered_from_before(d.states@, j)
    &&& forall|i: int, k: int| 0 <= i < d.states.len() && 0 <= k < d.states@[i]@.len()
        ==> #[trigger] numbered_in_order(d.states@.take(i), d.states@[i]@, k)
    &&& sorted_ids(d.accept@)
    &&& id_set(d.accept@) == Set::new(|i: nat| i < sets.len() && id_set(sets[i as int]).contains(accept))
}

/// An edge of `row` leads to `j`.
pub open spec fn row_enters(row: Seq<(InputSymbol, StateId)>, j: int) -> bool {
    exists|k: int| 0 <= k < row.len() && (#[trigger] row[k]).1.0 == j
}

/// An edge of one of `rows`, or one of the first `k` edges of `row`, leads to `j`.
pub open spec fn reached_before(rows: Seq<Vec<(InputSymbol, StateId)>>, row: Seq<(InputSymbol, StateId)>, k: int, j: int) -> bool {
    ||| exists|i2: int, k2: int| 0 <= i2 < rows.len() && 0 <= k2 < rows[i2]@.len() && (#[trigger] rows[i2]@[k2]).1.0 == j
    ||| exists|k2: int| 0 <= k2 < k && (#[trigger] row[k2]).1.0 == j
}

/// States are numbered in the order in which edges first reach them: an edge to a
/// state `j >= 2` comes after some edge to `j - 1`, scanning the rows in order.
pub open spec fn numbered_in_order(rows: Seq<Vec<(InputSymbol, StateId)>>, row: Seq<(InputSymbol, StateId)>, k: int) -> bool {
    row[k].1.0 >= 2 ==> reached_before(rows, row, k, row[k].1.0 - 1)
}

/// Edge `m` of `row` leads to a state below `known`, or to a state after an earlier edge
/// of `row` leads to the state before it.
pub open spec fn row_numbered(row: Seq<(InputSymbol, StateId)>, m: int, known: int) -> bool {
    row[m].1.0 >= 2 ==> row[m].1.0 - 1 < known || exists|m2: int| 0 <= m2 < m && (#[trigger] row[m2]).1.0 == row[m].1.0 - 1
}

/// An edge of a state numbered below `j` leads to `j`.
pub open spec fn entered_from_before(rows: Seq<Vec<(InputSymbol, StateId)>>, j: int) -> bool {
    exists|i: int, k: int| 0 <= i < rows.len() && 0 <= i < j && 0 <= k < rows[i]@.len() && (#[trigger] rows[i]@[k]).1.0 == j
}

/// The lists of NFA states that the DFA states stand for.
pub open spec fn sets_view(v: Seq<Vec<StateId>>) -> Seq<Seq<StateId>> {
    Seq::new(v.len(), |i: int| v[i]@)
}

} // verus!

verus! {

/// The DFA states whose NFA states hold `accept`.
pub open spec fn accepting_sets(sets: Seq<Seq<StateId>>, accept: nat) -> Set<nat> {
    Set::new(|i: nat| i < sets.len() && id_set(sets[i as int]).contains(accept))
}

/// Sorted lists for distinct sets of NFA states.
pub open spec fn sets_wf(sets: Seq<Seq<StateId>>) -> bool {
    &&& forall|i: int| 0 <= i < sets.len() ==> sorted_ids(#[trigger] sets[i])
    &&& forall|i: int, j: int| 0 <= i < j < sets.len() ==> id_set(#[trigger] sets[i]) != id_set(#[trigger] sets[j])
}

/// A row stays correct when more DFA states are added after it.
proof fn lemma_row_ok_grow(t: Seq<Seq<STransition>>, sets: Seq<Seq<StateId>>, sets2: Seq<Seq<StateId>>, row: Seq<(InputSymbol, StateId)>, i: int)
    requires
        row_ok(t, sets, row, i),
        0 <= i < sets.len(),
        sets.len() <= sets2.len() <= MAX_DFA_STATES,
        sets2.subrange(0, sets.len() as int) == sets,
    ensures
        row_ok(t, sets2, row, i),
{
    assert(sets2[i] == sets[i]);
    if sets.len() >= MAX_DFA_STATES {
        assert(sets2 =~= sets);
    }
    assert forall|k: int| 0 <= k < row.len() implies {
        let (a, j) = #[trigger] row[k];
        &&& j.0 < sets2.len()
        &&& !move_on(t, id_set(sets2[i]), a@).is_empty()
        &&& closure_result(t, move_on(t, id_set(sets2[i]), a@), sets2[j.0 as int])
    } by {
        let (a, j) = row[k];
        assert(sets2[j.0 as int] == sets[j.0 as int]);
    }
}

/// The labels of a well-formed label list are distinct.
proof fn lemma_labels_distinct(syms: Seq<InputSymbol>, targets: Seq<Vec<StateId>>, k: int, m: int)
    requires
        symbol_map_wf(syms, targets),
        0 <= k < syms.len(),
        0 <= m < syms.len(),
        syms[k]@ == syms[m]@,
    ensures
        k == m,
{
    let sv = symbols_view(syms);
    if k < m {
        assert(symbol_order(sv[k], sv[m]) < 0);
        lemma_symbol_order_laws(sv[k], sv[m], sv[m]);
    } else if m < k {
        assert(symbol_order(sv[m], sv[k]) < 0);
        lemma_symbol_order_laws(sv[m], sv[k], sv[k]);
    }
}

impl NFA {
    /// The row of DFA state `i`: each label leads to the DFA state for the closure of
    /// its moves, a new one if no state has that closure yet and fewer than
    /// `MAX_DFA_STATES` exist.
    fn build_row(&self, sets: &mut Vec<Vec<StateId>>, accept: &mut Vec<StateId>, i: usize) -> (row: Vec<(InputSymbol, StateId)>)
        requires
            i < old(sets)@.len() < MAX_DFA_STATES,
            sets_wf(sets_view(old(sets)@)),
            sorted_ids(old(accept)@),
            id_set(old(accept)@) == accepting_sets(sets_view(old(sets)@), self.accept.0 as nat),
            forall|x: int| 0 <= x < old(accept)@.len() ==> (#[trigger] old(accept)@[x]).0 < old(sets)@.len(),
        ensures
            old(sets)@.len() <= final(sets)@.len() <= MAX_DFA_STATES,
            sets_view(final(sets)@).subrange(0, old(sets)@.len() as int) == sets_view(old(sets)@),
            sets_wf(sets_view(final(sets)@)),
            sorted_ids(final(accept)@),
            id_set(final(accept)@) == accepting_sets(sets_view(final(sets)@), self.accept.0 as nat),
            forall|x: int| 0 <= x < final(accept)@.len() ==> (#[trigger] final(accept)@[x]).0 < final(sets)@.len(),
            row_ok(self.table(), sets_view(final(sets)@), row@, i as int),
            forall|j: int| old(sets)@.len() <= j < final(sets)@.len() ==> #[trigger] row_enters(row@, j),
            forall|m: int| 0 <= m < row@.len() ==> #[trigger] row_numbered(row@, m, old(sets)@.len() as int),
    {
        let ghost t = self.table();
        let ghost l0 = sets_view(sets@);
        let ghost here = id_set(l0[i as int]);
        let (syms, targets) = self.get_symbol_transitions(&sets[i]);
        assert(sets@[i as int]@ == l0[i as int]);
        let mut row: Vec<(InputSymbol, StateId)> = Vec::new();
        let mut k: usize = 0;
        while k < syms.len()
            invariant
                t == self.table(),
                here == id_set(l0[i as int]),
                i < l0.len(),
                symbol_map_wf(syms@, targets@),
                forall|a: SSymbol, y: nat| maps_to(syms@, targets@, a, y) == move_on(t, here, a).contains(y),
                k <= syms.len(),
                l0.len() <= sets@.len() <= MAX_DFA_STATES,
                sets_view(sets@).subrange(0, l0.len() as int) == l0,
                sets_wf(sets_view(sets@)),
                sorted_ids(accept@),
                id_set(accept@) == accepting_sets(sets_view(sets@), self.accept.0 as nat),
                forall|x: int| 0 <= x < accept@.len() ==> (#[trigger] accept@[x]).0 < sets@.len(),
                sorted_symbols(row_labels(row@)),
                forall|m: int| 0 <= m < row@.len() ==> exists|k2: int| 0 <= k2 < k && (#[trigger] row@[m]).0@ == syms@[k2]@,
                forall|m: int| 0 <= m < row@.len() ==> {
                    let (a, j) = #[trigger] row@[m];
                    &&& j.0 < sets@.len()
                    &&& !move_on(t, here, a@).is_empty()
                    &&& closure_result(t, move_on(t, here, a@), sets_view(sets@)[j.0 as int])
                },
                forall|k2: int| 0 <= k2 < k ==> row_labels(row@).contains((#[trigger] syms@[k2])@)
                    || left_out(t, sets_view(sets@), move_on(t, here, syms@[k2]@)),
                forall|j: int| l0.len() <= j < sets@.len() ==> #[trigger] row_enters(row@, j),
                forall|m: int| 0 <= m < row@.len() ==> #[trigger] row_numbered(row@, m, l0.len() as int),
            decreases syms.len() - k,
        {
            let ghost a = syms@[k as int]@;
            let ghost mv = move_on(t, here, a);
            assert(id_set(targets@[k as int]@) == mv) by {
                assert forall|y: nat| id_set(targets@[k as int]@).contains(y) implies mv.contains(y) by {
                    assert(maps_to(syms@, targets@, a, y));
                }
                assert forall|y: nat| mv.contains(y) implies id_set(targets@[k as int]@).contains(y) by {
                    assert(maps_to(syms@, targets@, a, y));
                    let k3 = choose|k3: int| 0 <= k3 < syms@.len() && (#[trigger] syms@[k3])@ == a && id_set(targets@[k3]@).contains(y);
                    lemma_labels_distinct(syms@, targets@, k as int, k3);
                }
                assert(id_set(targets@[k as int]@) =~= mv);
            }
            assert(!mv.is_empty()) by {
                assert(targets@[k as int]@.len() > 0);
                assert(id_set(targets@[k as int]@).contains(targets@[k as int]@[0].0 as nat));
            }
            let target_closure = self.epsilon_closure(&targets[k]);
            let is_accept = contains_id(&target_closure, self.accept);
            let ghost before = sets_view(sets@);
            let ghost old_accept = accept@;
            let found = find_set(sets, &target_closure);
            let target_id: usize;
            match found {
                Some(id) => {
                    target_id = id;
                    assert(before[id as int] == target_closure@);
                },
                None => {
                    if sets.len() >= MAX_DFA_STATES {
                        proof {
                            let c = target_closure@;
                            assert(closure_result(t, mv, c));
                            assert forall|j: int| 0 <= j < before.len() implies id_set(#[trigger] before[j]) != id_set(c) by {
                                assert(sets@[j]@ != c);
                                if id_set(before[j]) == id_set(c) {
                                    lemma_sorted_ids_unique(before[j], c);
                                }
                            }
                            assert(left_out(t, before, mv));
                        }
                        k += 1;
                        continue;
                    }
                    target_id = sets.len();
                    let ghost tc = target_closure@;
                    assert forall|p: int| 0 <= p < before.len() implies before[p] != tc by {
                        assert(sets@[p]@ != tc);
                    }
                    sets.push(target_closure);
                    if is_accept {
                        accept.push(StateId(target_id));
                    }
                    proof {
                        let after = sets_view(sets@);
                        assert(after =~= before.push(tc));
                        assert forall|p: int, q: int| 0 <= p < q < after.len() implies id_set(#[trigger] after[p]) != id_set(#[trigger] after[q]) by {
                            if q == before.len() {
                                assert(sets@[p]@ != tc);
                                if id_set(after[p]) == id_set(after[q]) {
                                    lemma_sorted_ids_unique(after[p], after[q]);
                                }
                            } else {
                                assert(after[p] == before[p] && after[q] == before[q]);
                            }
                        }
                        assert forall|p: int| 0 <= p < after.len() implies sorted_ids(#[trigger] after[p]) by {
                            if p < before.len() {
                                assert(after[p] == before[p]);
                            }
                        }
                        assert(after.subrange(0, l0.len() as int) =~= l0) by {
                            assert forall|p: int| 0 <= p < l0.len() implies after.subrange(0, l0.len() as int)[p] == l0[p] by {
                                assert(after[p] == before[p]);
                                assert(before.subrange(0, l0.len() as int)[p] == l0[p]);
                            }
                        }
                        assert(id_set(accept@) =~= accepting_sets(after, self.accept.0 as nat)) by {
                            assert forall|x: nat| accepting_sets(after, self.accept.0 as nat).contains(x) implies id_set(accept@).contains(x) by {
                                if x < before.len() {
                                    assert(after[x as int] == before[x as int]);
                                    assert(accepting_sets(before, self.accept.0 as nat).contains(x));
                                    assert(id_set(old_accept).contains(x));
                                    let p = choose|p: int| 0 <= p < old_accept.len() && (#[trigger] old_accept[p]).0 == x;
                                    assert(accept@[p] == old_accept[p]);
                                } else {
                                    assert(accept@[accept@.len() - 1].0 == x);
                                }
                            }
                            assert forall|x: nat| id_set(accept@).contains(x) implies accepting_sets(after, self.accept.0 as nat).contains(x) by {
                                let p = choose|p: int| 0 <= p < accept@.len() && (#[trigger] accept@[p]).0 == x;
                                if p < old_accept.len() {
                                    assert(accept@[p] == old_accept[p]);
                                    assert(id_set(old_accept).contains(x));
                                    assert(accepting_sets(before, self.accept.0 as nat).contains(x));
                                    assert(after[x as int] == before[x as int]);
                                } else {
                                    assert(x == target_id);
                                }
                            }
                        }
                        assert forall|p: int, q: int| 0 <= p < q < accept@.len() implies (#[trigger] accept@[p]).0 < (#[trigger] accept@[q]).0 by {
                            if q >= old_accept.len() {
                                assert(accept@[p] == old_accept[p]);
                            } else {
                                assert(accept@[p] == old_accept[p] && accept@[q] == old_accept[q]);
                            }
                        }
                        assert forall|x: int| 0 <= x < accept@.len() implies (#[trigger] accept@[x]).0 < sets@.len() by {
                            if x < old_accept.len() {
                                assert(accept@[x] == old_accept[x]);
                            }
                        }
                        assert forall|m: int| 0 <= m < row@.len() implies {
                            let (b, j) = #[trigger] row@[m];
                            &&& j.0 < sets@.len()
                            &&& !move_on(t, here, b@).is_empty()
                            &&& closure_result(t, move_on(t, here, b@), sets_view(sets@)[j.0 as int])
                        } by {
                            let (b, j) = row@[m];
                            assert(after[j.0 as int] == before[j.0 as int]);
                        }
                        assert(after[target_id as int] == tc);
                    }
                },
            }
            assert(before.len() >= MAX_DFA_STATES ==> sets_view(sets@) == before);
            let ghost old_row = row@;
            let ghost cur = sets_view(sets@);
            assert(cur[target_id as int] == target_closure@);
            row.push((copy_symbol(&syms[k]), StateId(target_id)));
            proof {
                assert(row@[old_row.len() as int].0@ == a);
                assert forall|p: int, q: int| 0 <= p < q < row_labels(row@).len()
                    implies symbol_order(#[trigger] row_labels(row@)[p], #[trigger] row_labels(row@)[q]) < 0 by {
                    assert(row@[p] == old_row[p]);
                    if q < old_row.len() {
                        assert(row@[q] == old_row[q]);
                        assert(row_labels(old_row)[p] == row_labels(row@)[p]);
                        assert(row_labels(old_row)[q] == row_labels(row@)[q]);
                    } else {
                        let k2 = choose|k2: int| 0 <= k2 < k && (#[trigger] old_row[p]).0@ == syms@[k2]@;
                        assert(symbols_view(syms@)[k2] == syms@[k2]@);
                        assert(symbols_view(syms@)[k as int] == syms@[k as int]@);
                    }
                }
                assert forall|m: int| 0 <= m < row@.len() implies exists|k2: int| 0 <= k2 < k + 1 && (#[trigger] row@[m]).0@ == syms@[k2]@ by {
                    if m < old_row.len() {
                        assert(row@[m] == old_row[m]);
                        let k2 = choose|k2: int| 0 <= k2 < k && (#[trigger] old_row[m]).0@ == syms@[k2]@;
                    } else {
                        assert(row@[m].0@ == syms@[k as int]@);
                    }
                }
                assert forall|m: int| 0 <= m < row@.len() implies {
                    let (b, j) = #[trigger] row@[m];
                    &&& j.0 < sets@.len()
                    &&& !move_on(t, here, b@).is_empty()
                    &&& closure_result(t, move_on(t, here, b@), sets_view(sets@)[j.0 as int])
                } by {
                    if m < old_row.len() {
                        assert(row@[m] == old_row[m]);
                    }
                }
                assert forall|k2: int| 0 <= k2 < k + 1 implies row_labels(row@).contains((#[trigger] syms@[k2])@)
                    || left_out(t, sets_view(sets@), move_on(t, here, syms@[k2]@)) by {
                    if k2 < k {
                        if row_labels(old_row).contains(syms@[k2]@) {
                            let m = choose|m: int| 0 <= m < row_labels(old_row).len() && row_labels(old_row)[m] == syms@[k2]@;
                            assert(row_labels(row@)[m] == row_labels(old_row)[m]);
                        } else {
                            assert(left_out(t, before, move_on(t, here, syms@[k2]@)));
                            assert(sets_view(sets@) == before);
                        }
                    } else {
                        assert(row_labels(row@)[old_row.len() as int] == syms@[k2]@);
                    }
                }
                assert forall|m: int| 0 <= m < row@.len() implies #[trigger] row_numbered(row@, m, l0.len() as int) by {
                    if m < old_row.len() {
                        assert(row@[m] == old_row[m]);
                        assert(row_numbered(old_row, m, l0.len() as int));
                        if row@[m].1.0 >= 2 && row@[m].1.0 - 1 >= l0.len() {
                            let m2 = choose|m2: int| 0 <= m2 < m && (#[trigger] old_row[m2]).1.0 == old_row[m].1.0 - 1;
                            assert(row@[m2] == old_row[m2]);
                        }
                    } else {
                        let tj = row@[m].1.0 as int;
                        if tj >= 2 && tj - 1 >= l0.len() {
                            assert(tj - 1 < cur.len());
                            assert(row_enters(old_row, tj - 1));
                            let m2 = choose|m2: int| 0 <= m2 < old_row.len() && (#[trigger] old_row[m2]).1.0 == tj - 1;
                            assert(row@[m2] == old_row[m2]);
                        }
                    }
                }
                assert forall|j: int| l0.len() <= j < sets@.len() implies #[trigger] row_enters(row@, j) by {
                    if j == target_id {
                        assert(row@[old_row.len() as int].1.0 == j);
                    } else {
                        assert(row_enters(old_row, j));
                        let m = choose|m: int| 0 <= m < old_row.len() && (#[trigger] old_row[m]).1.0 == j;
                        assert(row@[m] == old_row[m]);
                    }
                }
            }
            k += 1;
        }
        proof {
            assert forall|b: SSymbol| #![trigger move_on(t, id_set(sets_view(sets@)[i as int]), b)]
                !move_on(t, id_set(sets_view(sets@)[i as int]), b).is_empty() && !row_labels(row@).contains(b)
                implies left_out(t, sets_view(sets@), move_on(t, id_set(sets_view(sets@)[i as int]), b)) by {
                assert(sets_view(sets@)[i as int] == l0[i as int]);
                let y = move_on(t, here, b).choose();
                assert(maps_to(syms@, targets@, b, y));
                let k2 = choose|k2: int| 0 <= k2 < syms@.len() && (#[trigger] syms@[k2])@ == b && id_set(targets@[k2]@).contains(y);
            }
            assert(sets_view(sets@)[i as int] == l0[i as int]);
        }
        row
    }
}

} // verus!

verus! {

impl NFA {
    /// The subset construction: DFA state 0 stands for the epsilon closure of the
    /// start state, and each state's label leads to the state for the closure of
    /// the label's moves. States are numbered as they are found; no more than
    /// `MAX_DFA_STATES` are made.
    pub fn to_dfa(&self) -> (dfa: DFA)
        ensures
            exists|sets: Seq<Seq<StateId>>| subset_dfa(self.table(), self.start.0 as nat, self.accept.0 as nat, dfa, sets),
    {
        let ghost t = self.table();
        let mut sets: Vec<Vec<StateId>> = Vec::new();
        let mut rows: Vec<Vec<(InputSymbol, StateId)>> = Vec::new();
        let mut accept: Vec<StateId> = Vec::new();
        let mut init: Vec<StateId> = Vec::new();
        init.push(self.start);
        assert(id_set(init@) =~= set![self.start.0 as nat]) by {
            assert(init@[0] == self.start);
        }
        let start_closure = self.epsilon_closure(&init);
        if contains_id(&start_closure, self.accept) {
            accept.push(StateId(0));
        }
        sets.push(start_closure);
        proof {
            let l = sets_view(sets@);
            assert(l.len() == 1);
            assert(id_set(accept@) =~= accepting_sets(l, self.accept.0 as nat)) by {
                if accept@.len() > 0 {
                    assert(accept@[0].0 == 0);
                }
            }
        }
        let mut next: usize = 0;
        while next < sets.len()
            invariant
                t == self.table(),
                1 <= sets@.len() <= MAX_DFA_STATES,
                next <= sets@.len(),
                rows@.len() == next,
                sets_wf(sets_view(sets@)),
                closure_result(t, set![self.start.0 as nat], sets_view(sets@)[0]),
                sorted_ids(accept@),
                id_set(accept@) == accepting_sets(sets_view(sets@), self.accept.0 as nat),
                forall|x: int| 0 <= x < accept@.len() ==> (#[trigger] accept@[x]).0 < sets@.len(),
                forall|i: int| 0 <= i < rows@.len() ==> #[trigger] subset_row(t, sets_view(sets@), rows@, i),
                forall|j: int| 1 <= j < sets@.len() ==> #[trigger] entered_from_before(rows@, j),
                forall|i: int, k: int| 0 <= i < rows@.len() && 0 <= k < rows@[i]@.len()
                    ==> #[trigger] numbered_in_order(rows@.take(i), rows@[i]@, k),
            ensures
                next == sets@.len() || sets@.len() >= MAX_DFA_STATES,
            decreases MAX_DFA_STATES - next,
        {
            if sets.len() >= MAX_DFA_STATES {
                break;
            }
            let ghost l0 = sets_view(sets@);
            let ghost old_rows = rows@;
            let row = self.build_row(&mut sets, &mut accept, next);
            rows.push(row);
            proof {
                let l1 = sets_view(sets@);
                assert(l1[0] == l0[0]);
                assert forall|i: int| 0 <= i < rows@.len() implies #[trigger] subset_row(t, l1, rows@, i) by {
                    if i < old_rows.len() {
                        assert(rows@[i] == old_rows[i]);
                        assert(subset_row(t, l0, old_rows, i));
                        lemma_row_ok_grow(t, l0, l1, old_rows[i]@, i);
                    }
                }
                assert forall|i: int, k: int| 0 <= i < rows@.len() && 0 <= k < rows@[i]@.len()
                    implies #[trigger] numbered_in_order(rows@.take(i), rows@[i]@, k) by {
                    if i < old_rows.len() {
                        assert(rows@[i] == old_rows[i]);
                        assert(rows@.take(i) =~= old_rows.take(i));
                        assert(numbered_in_order(old_rows.take(i), old_rows[i]@, k));
                    } else {
                        assert(rows@.take(i) =~= old_rows);
                        assert(rows@[i]@ == row@);
                        assert(row_numbered(row@, k, l0.len() as int));
                        let tj = row@[k].1.0 as int;
                        if tj >= 2 {
                            if tj - 1 < l0.len() {
                                assert(entered_from_before(old_rows, tj - 1));
                                let (i2, k2) = choose|i2: int, k2: int| 0 <= i2 < old_rows.len() && 0 <= i2 < tj - 1
                                    && 0 <= k2 < old_rows[i2]@.len() && (#[trigger] old_rows[i2]@[k2]).1.0 == tj - 1;
                                assert(reached_before(old_rows, row@, k, tj - 1));
                            } else {
                                let m2 = choose|m2: int| 0 <= m2 < k && (#[trigger] row@[m2]).1.0 == tj - 1;
                                assert(reached_before(old_rows, row@, k, tj - 1));
                            }
                        }
                    }
                }
                assert forall|j: int| 1 <= j < sets@.len() implies #[trigger] entered_from_before(rows@, j) by {
                    if j < l0.len() {
                        assert(entered_from_before(old_rows, j));
                        let (i, k) = choose|i: int, k: int| 0 <= i < old_rows.len() && 0 <= i < j && 0 <= k < old_rows[i]@.len() && (#[trigger] old_rows[i]@[k]).1.0 == j;
                        assert(rows@[i] == old_rows[i]);
                    } else {
                        assert(row_enters(row@, j));
                        let k = choose|k: int| 0 <= k < row@.len() && (#[trigger] row@[k]).1.0 == j;
                        assert(rows@[next as int]@[k].1.0 == j);
                    }
                }
            }
            next += 1;
        }
        let dfa = DFA { start: StateId(0), accept, states: rows };
        proof {
            let l = sets_view(sets@);
            assert(subset_dfa(t, self.start.0 as nat, self.accept.0 as nat, dfa, l));
        }
        dfa
    }
}

} // verus!
