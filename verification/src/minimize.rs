//! Minimization of a DFA by partition refinement: states are merged into the
//! coarsest classes that agree on acceptance and on where each label leads.
use vstd::prelude::*;
use crate::subset::{subset_dfa, subset_row, row_ok, closure_result, left_out, MAX_DFA_STATES};
use crate::nfa::{nfa_run, nfa_accepts, lemma_nfa_run_empty, spec_epsilon_closure, MAX_CLOSURE_SIZE};
use crate::dfa::{
    STransition, SSymbol, move_on, DFA, StateId, InputSymbol, sorted_ids,
    id_set, insert_id, contains_id, row_labels, sorted_symbols, symbol_order, lemma_symbol_order_laws,
    order_symbols, copy_symbol,
};

verus! {

impl DFA {
    /// The states of the automaton: those with a row, and the accepting ones.
    pub open spec fn has_state(&self, x: nat) -> bool {
        x < self.states.len() || id_set(self.accept@).contains(x)
    }

    pub open spec fn accepts(&self, x: nat) -> bool {
        id_set(self.accept@).contains(x)
    }

    /// The edges of state `x`; a state without a row has none.
    pub open spec fn row(&self, x: nat) -> Seq<(InputSymbol, StateId)> {
        if x < self.states.len() {
            self.states@[x as int]@
        } else {
            Seq::empty()
        }
    }

    /// Accepting states listed in increasing order, rows sorted by label, and the
    /// start state and every edge's target are states of the automaton.
    pub open spec fn well_formed(&self) -> bool {
        &&& sorted_ids(self.accept@)
        &&& self.has_state(self.start.0 as nat)
        &&& forall|i: int| 0 <= i < self.states.len() ==> sorted_symbols(row_labels(#[trigger] self.states@[i]@))
        &&& forall|i: int, k: int| 0 <= i < self.states.len() && 0 <= k < self.states@[i]@.len()
            ==> self.has_state((#[trigger] self.states@[i]@[k]).1.0 as nat)
    }
}

/// Under the numbering `g`, states `x` and `y` have edges with the same labels, in the
/// same order, to states that `g` numbers alike.
pub open spec fn same_signature(d: DFA, g: spec_fn(nat) -> nat, x: nat, y: nat) -> bool {
    let rx = d.row(x);
    let ry = d.row(y);
    &&& rx.len() == ry.len()
    &&& forall|k: int| 0 <= k < rx.len() ==> (#[trigger] rx[k]).0@ == ry[k].0@ && g(rx[k].1.0 as nat) == g(ry[k].1.0 as nat)
}

/// States that `g` numbers alike agree on acceptance and on their signature.
pub open spec fn compatible(d: DFA, g: spec_fn(nat) -> nat) -> bool {
    forall|x: nat, y: nat| #![trigger g(x), g(y)]
        d.has_state(x) && d.has_state(y) && g(x) == g(y) ==> d.accepts(x) == d.accepts(y) && same_signature(d, g, x, y)
}

/// `f` merges every two states that any compatible numbering merges.
pub open spec fn coarsest(d: DFA, f: spec_fn(nat) -> nat) -> bool {
    forall|g: spec_fn(nat) -> nat| #[trigger] compatible(d, g) ==> forall|x: nat, y: nat| #![trigger g(x), g(y)]
        d.has_state(x) && d.has_state(y) && g(x) == g(y) ==> f(x) == f(y)
}

/// `m` is `d` with its states merged into the classes of `f`: class `c` has the least
/// state `reps[c]`, classes are numbered in increasing order of that state, and class
/// `c` has the edges of `reps[c]` with each target replaced by its class.
pub open spec fn quotient(d: DFA, m: DFA, f: spec_fn(nat) -> nat, reps: Seq<nat>) -> bool {
    &&& reps.len() == m.states.len()
    &&& forall|c: int, e: int| 0 <= c < e < reps.len() ==> reps[c] < reps[e]
    &&& forall|c: int| 0 <= c < reps.len() ==> d.has_state(#[trigger] reps[c]) && f(reps[c]) == c
    &&& forall|x: nat| d.has_state(x) ==> #[trigger] f(x) < reps.len() && reps[f(x) as int] <= x
    &&& m.start.0 == f(d.start.0 as nat)
    &&& sorted_ids(m.accept@)
    &&& id_set(m.accept@) == Set::new(|c: nat| c < reps.len() && d.accepts(reps[c as int]))
    &&& forall|c: int| 0 <= c < reps.len() ==> {
        let r = d.row(#[trigger] reps[c]);
        let mr = m.states@[c]@;
        &&& mr.len() == r.len()
        &&& forall|k: int| 0 <= k < r.len() ==> (#[trigger] mr[k]).0@ == r[k].0@ && mr[k].1.0 == f(r[k].1.0 as nat)
    }
}

/// The position of state `x` in the list `u`.
pub open spec fn index_of_id(u: Seq<StateId>, x: nat) -> int {
    choose|i: int| 0 <= i < u.len() && (#[trigger] u[i]).0 == x
}

/// The numbering that gives state `u[p]` the class `cls[p]`.
pub open spec fn class_fn(u: Seq<StateId>, cls: Seq<usize>) -> spec_fn(nat) -> nat {
    |x: nat| cls[index_of_id(u, x)] as nat
}

/// In a sorted list, a state's position is where it stands.
proof fn lemma_index_of_id(u: Seq<StateId>, i: int)
    requires
        sorted_ids(u),
        0 <= i < u.len(),
    ensures
        index_of_id(u, u[i].0 as nat) == i,
{
    let j = index_of_id(u, u[i].0 as nat);
    assert(0 <= j < u.len() && u[j].0 == u[i].0);
    if j < i {
        assert(u[j].0 < u[i].0);
    } else if j > i {
        assert(u[i].0 < u[j].0);
    }
}

/// The position of state `x` in the sorted list `u`.
fn position(u: &Vec<StateId>, x: StateId) -> (p: usize)
    requires
        sorted_ids(u@),
        id_set(u@).contains(x.0 as nat),
    ensures
        p < u.len(),
        u@[p as int].0 == x.0,
        index_of_id(u@, x.0 as nat) == p,
{
    let ghost w = choose|w: int| 0 <= w < u@.len() && (#[trigger] u@[w]).0 == x.0 as nat;
    let mut p: usize = 0;
    while p < u.len()
        invariant
            p <= u.len(),
            sorted_ids(u@),
            0 <= w < u@.len(),
            u@[w].0 == x.0,
            forall|k: int| 0 <= k < p ==> (#[trigger] u@[k]).0 != x.0,
        decreases u.len() - p,
    {
        if u[p].0 == x.0 {
            proof {
                lemma_index_of_id(u@, p as int);
            }
            return p;
        }
        p += 1;
    }
    assert(u@[w].0 != x.0);
    0
}

impl DFA {
    /// The states in increasing order.
    fn universe(&self) -> (u: Vec<StateId>)
        ensures
            sorted_ids(u@),
            forall|x: nat| #[trigger] id_set(u@).contains(x) == self.has_state(x),
    {
        let mut u: Vec<StateId> = Vec::new();
        let mut i: usize = 0;
        while i < self.states.len()
            invariant
                i <= self.states.len(),
                u@.len() == i,
                forall|k: int| 0 <= k < i ==> (#[trigger] u@[k]).0 == k,
            decreases self.states.len() - i,
        {
            u.push(StateId(i));
            i += 1;
        }
        assert(id_set(u@) =~= Set::new(|x: nat| x < self.states.len())) by {
            assert forall|x: nat| x < self.states.len() implies id_set(u@).contains(x) by {
                assert(u@[x as int].0 == x);
            }
        }
        let mut j: usize = 0;
        while j < self.accept.len()
            invariant
                j <= self.accept.len(),
                sorted_ids(u@),
                forall|x: nat| #[trigger] id_set(u@).contains(x) == (x < self.states.len() || id_set(self.accept@.take(j as int)).contains(x)),
            decreases self.accept.len() - j,
        {
            insert_id(&mut u, self.accept[j]);
            proof {
                let a = self.accept@;
                assert forall|x: nat| #[trigger] id_set(a.take(j + 1)).contains(x) == (id_set(a.take(j as int)).contains(x) || x == a[j as int].0) by {
                    if id_set(a.take(j + 1)).contains(x) {
                        let k = choose|k: int| 0 <= k < j + 1 && (#[trigger] a.take(j + 1)[k]).0 == x;
                        if k < j {
                            assert(a.take(j as int)[k] == a.take(j + 1)[k]);
                        }
                    }
                    if id_set(a.take(j as int)).contains(x) {
                        let k = choose|k: int| 0 <= k < j && (#[trigger] a.take(j as int)[k]).0 == x;
                        assert(a.take(j as int)[k] == a.take(j + 1)[k]);
                    }
                    if x == a[j as int].0 {
                        assert(a.take(j + 1)[j as int] == a[j as int]);
                    }
                }
            }
            j += 1;
        }
        assert(self.accept@.take(self.accept.len() as int) =~= self.accept@);
        u
    }
}

/// Class numbers `cls` for the positions `0..n`, where `reps[c]` is the least position
/// of class `c` and classes are numbered in increasing order of it.
pub open spec fn part_wf(cls: Seq<usize>, reps: Seq<usize>, n: int) -> bool {
    &&& cls.len() == n
    &&& forall|c: int, e: int| 0 <= c < e < reps.len() ==> (#[trigger] reps[c]) < (#[trigger] reps[e])
    &&& forall|c: int| 0 <= c < reps.len() ==> (#[trigger] reps[c]) < n && cls[reps[c] as int] == c
    &&& forall|p: int| 0 <= p < n ==> (#[trigger] cls[p]) < reps.len() && reps[cls[p] as int] <= p
}

/// The list `u` holds exactly the states of `d`, in increasing order.
pub open spec fn is_universe(d: DFA, u: Seq<StateId>) -> bool {
    &&& sorted_ids(u)
    &&& forall|x: nat| #[trigger] id_set(u).contains(x) == d.has_state(x)
}

/// Signatures are compared by an equivalence relation.
proof fn lemma_signature_equiv(d: DFA, g: spec_fn(nat) -> nat, x: nat, y: nat, z: nat)
    ensures
        same_signature(d, g, x, x),
        same_signature(d, g, x, y) ==> same_signature(d, g, y, x),
        same_signature(d, g, x, y) && same_signature(d, g, y, z) ==> same_signature(d, g, x, z),
{
    if same_signature(d, g, x, y) && same_signature(d, g, y, z) {
        assert forall|k: int| 0 <= k < d.row(x).len() implies (#[trigger] d.row(x)[k]).0@ == d.row(z)[k].0@
            && g(d.row(x)[k].1.0 as nat) == g(d.row(z)[k].1.0 as nat) by {
            assert(d.row(y)[k].0@ == d.row(z)[k].0@);
        }
    }
    if same_signature(d, g, x, y) {
        assert forall|k: int| 0 <= k < d.row(y).len() implies (#[trigger] d.row(y)[k]).0@ == d.row(x)[k].0@
            && g(d.row(y)[k].1.0 as nat) == g(d.row(x)[k].1.0 as nat) by {
            assert(d.row(x)[k].0@ == d.row(y)[k].0@);
        }
    }
}

/// A strictly increasing list of positions below `n` has at most `n` entries.
proof fn lemma_increasing_len(reps: Seq<usize>, n: nat)
    requires
        forall|c: int, e: int| 0 <= c < e < reps.len() ==> (#[trigger] reps[c]) < (#[trigger] reps[e]),
        forall|c: int| 0 <= c < reps.len() ==> (#[trigger] reps[c]) < n,
    ensures
        reps.len() <= n,
    decreases reps.len(),
{
    if reps.len() > 0 {
        let r = reps.drop_last();
        assert forall|c: int, e: int| 0 <= c < e < r.len() implies (#[trigger] r[c]) < (#[trigger] r[e]) by {
            assert(r[c] == reps[c] && r[e] == reps[e]);
        }
        assert forall|c: int| 0 <= c < r.len() implies (#[trigger] r[c]) < reps.last() by {
            assert(r[c] == reps[c]);
        }
        lemma_increasing_len(r, reps.last() as nat);
        assert(reps[reps.len() - 1] < n);
        assert(r.len() <= reps.last());
        assert(reps.len() == r.len() + 1);
    }
}

impl DFA {
    /// The edges of state `x`, if it has a row, and how many there are.
    fn row_len(&self, x: StateId) -> (n: usize)
        ensures
            n == self.row(x.0 as nat).len(),
    {
        if x.0 < self.states.len() {
            self.states[x.0].len()
        } else {
            0
        }
    }

    /// Whether the states at positions `p` and `q` of `u` have the same signature
    /// under the classes `cls`.
    fn signature_matches(&self, u: &Vec<StateId>, cls: &Vec<usize>, p: usize, q: usize) -> (r: bool)
        requires
            self.well_formed(),
            is_universe(*self, u@),
            cls@.len() == u@.len(),
            p < u@.len(),
            q < u@.len(),
        ensures
            r == same_signature(*self, class_fn(u@, cls@), u@[p as int].0 as nat, u@[q as int].0 as nat),
    {
        let ghost g = class_fn(u@, cls@);
        let x = u[p];
        let y = u[q];
        let ghost rx = self.row(x.0 as nat);
        let ghost ry = self.row(y.0 as nat);
        let lx = self.row_len(x);
        let ly = self.row_len(y);
        if lx != ly {
            return false;
        }
        let mut k: usize = 0;
        while k < lx
            invariant
                self.well_formed(),
                is_universe(*self, u@),
                cls@.len() == u@.len(),
                g == class_fn(u@, cls@),
                p < u@.len(),
                q < u@.len(),
                x == u@[p as int],
                y == u@[q as int],
                rx == self.row(x.0 as nat),
                ry == self.row(y.0 as nat),
                lx == rx.len(),
                lx == ry.len(),
                k <= lx,
                forall|k2: int| 0 <= k2 < k ==> (#[trigger] rx[k2]).0@ == ry[k2].0@ && g(rx[k2].1.0 as nat) == g(ry[k2].1.0 as nat),
            decreases lx - k,
        {
            let ex = &self.states[x.0][k];
            let ey = &self.states[y.0][k];
            assert(*ex == rx[k as int] && *ey == ry[k as int]);
            proof {
                lemma_symbol_order_laws(ex.0@, ey.0@, ey.0@);
                assert(self.has_state(self.states@[x.0 as int]@[k as int].1.0 as nat));
                assert(self.has_state(self.states@[y.0 as int]@[k as int].1.0 as nat));
                assert(id_set(u@).contains(ex.1.0 as nat));
                assert(id_set(u@).contains(ey.1.0 as nat));
            }
            if order_symbols(&ex.0, &ey.0) != 0 {
                assert(rx[k as int].0@ != ry[k as int].0@);
                assert(!same_signature(*self, g, x.0 as nat, y.0 as nat));
                return false;
            }
            let px = position(u, ex.1);
            let py = position(u, ey.1);
            if cls[px] != cls[py] {
                assert(g(rx[k as int].1.0 as nat) == cls@[px as int] as nat);
                assert(g(ry[k as int].1.0 as nat) == cls@[py as int] as nat);
                assert(!same_signature(*self, g, x.0 as nat, y.0 as nat));
                return false;
            }
            k += 1;
        }
        true
    }
}

/// Positions `p` and `q` of `u` are in one class of `cls`, and their states have the
/// same signature under it.
pub open spec fn equivalent(d: DFA, u: Seq<StateId>, cls: Seq<usize>, p: int, q: int) -> bool {
    cls[p] == cls[q] && same_signature(d, class_fn(u, cls), u[p].0 as nat, u[q].0 as nat)
}

/// Equivalence of positions is reflexive, symmetric and transitive.
proof fn lemma_equivalent(d: DFA, u: Seq<StateId>, cls: Seq<usize>, a: int, b: int, c: int)
    ensures
        equivalent(d, u, cls, a, a),
        equivalent(d, u, cls, a, b) ==> equivalent(d, u, cls, b, a),
        equivalent(d, u, cls, a, b) && equivalent(d, u, cls, b, c) ==> equivalent(d, u, cls, a, c),
{
    lemma_signature_equiv(d, class_fn(u, cls), u[a].0 as nat, u[b].0 as nat, u[c].0 as nat);
}

impl DFA {
    /// One round of refinement: two positions stay in one class when they were in one
    /// class and have the same signature. The new classes are numbered in increasing
    /// order of their least position. Says whether a class was split.
    fn refine(&self, u: &Vec<StateId>, cls: &Vec<usize>, reps: &Vec<usize>) -> (r: (Vec<usize>, Vec<usize>, bool))
        requires
            self.well_formed(),
            is_universe(*self, u@),
            part_wf(cls@, reps@, u@.len() as int),
        ensures
            part_wf(r.0@, r.1@, u@.len() as int),
            forall|p: int, q: int| 0 <= p < u@.len() && 0 <= q < u@.len() ==>
                ((#[trigger] r.0@[p]) == (#[trigger] r.0@[q])) == equivalent(*self, u@, cls@, p, q),
            !r.2 ==> forall|p: int, q: int| #![trigger cls@[p], cls@[q]]
                0 <= p < u@.len() && 0 <= q < u@.len() && cls@[p] == cls@[q] ==> equivalent(*self, u@, cls@, p, q),
            r.2 ==> r.1@.len() > reps@.len(),
    {
        let ghost d = *self;
        let ghost n = u@.len() as int;
        let mut ncls: Vec<usize> = Vec::new();
        let mut nreps: Vec<usize> = Vec::new();
        let mut changed = false;
        let ghost mut firsts: int = 0;
        let mut p: usize = 0;
        while p < u.len()
            invariant
                d == *self,
                self.well_formed(),
                is_universe(d, u@),
                n == u@.len(),
                part_wf(cls@, reps@, n),
                p <= n,
                part_wf(ncls@, nreps@, p as int),
                forall|p1: int| 0 <= p1 < p ==> #[trigger] equivalent(d, u@, cls@, nreps@[ncls@[p1] as int] as int, p1),
                forall|c1: int, c2: int| 0 <= c1 < c2 < nreps@.len()
                    ==> !equivalent(d, u@, cls@, #[trigger] nreps@[c1] as int, #[trigger] nreps@[c2] as int),
                !changed ==> forall|c1: int, c2: int| 0 <= c1 < c2 < nreps@.len()
                    ==> cls@[#[trigger] nreps@[c1] as int] != cls@[#[trigger] nreps@[c2] as int],
                0 <= firsts <= reps@.len(),
                forall|c: int| 0 <= c < firsts ==> #[trigger] reps@[c] < p,
                forall|c: int| firsts <= c < reps@.len() ==> #[trigger] reps@[c] >= p,
                nreps@.len() >= firsts + (if changed { 1int } else { 0int }),
            decreases n - p,
        {
            let mut q: usize = 0;
            let mut found: usize = nreps.len();
            let mut same_old = false;
            while q < nreps.len() && found == nreps.len()
                invariant
                    d == *self,
                    self.well_formed(),
                    is_universe(d, u@),
                    n == u@.len(),
                    part_wf(cls@, reps@, n),
                    p < n,
                    part_wf(ncls@, nreps@, p as int),
                    q <= nreps@.len(),
                    found <= nreps@.len(),
                    found < nreps@.len() ==> equivalent(d, u@, cls@, nreps@[found as int] as int, p as int),
                    found == nreps@.len() ==> forall|q1: int| 0 <= q1 < q ==> !equivalent(d, u@, cls@, #[trigger] nreps@[q1] as int, p as int),
                    found == nreps@.len() ==> (same_old == exists|q1: int| 0 <= q1 < q && cls@[#[trigger] nreps@[q1] as int] == cls@[p as int]),
                decreases nreps@.len() - q,
            {
                let r = nreps[q];
                if cls[r] == cls[p] {
                    same_old = true;
                    if self.signature_matches(u, cls, r, p) {
                        found = q;
                    }
                }
                q += 1;
            }
            if found < nreps.len() {
                proof {
                    let x = nreps@[found as int] as int;
                    if firsts < reps@.len() && reps@[firsts] == p {
                        assert(cls@[x] == cls@[p as int]);
                        assert(reps@[cls@[x] as int] <= x);
                    }
                }
                let ghost before = ncls@;
                ncls.push(found);
                proof {
                    assert forall|p1: int| 0 <= p1 < p + 1 implies #[trigger] equivalent(d, u@, cls@, nreps@[ncls@[p1] as int] as int, p1) by {
                        if p1 < p {
                            assert(ncls@[p1] == before[p1]);
                        }
                    }
                }
            } else {
                proof {
                    if !same_old {
                        let r0 = reps@[cls@[p as int] as int] as int;
                        if r0 < p {
                            let c0 = ncls@[r0] as int;
                            assert(equivalent(d, u@, cls@, nreps@[c0] as int, r0));
                            assert(cls@[nreps@[c0] as int] == cls@[p as int]);
                        }
                        assert(r0 == p);
                        if cls@[p as int] > firsts {
                            assert(reps@[firsts] < reps@[cls@[p as int] as int]);
                        }
                        assert(cls@[p as int] == firsts);
                    } else {
                        if firsts < reps@.len() && reps@[firsts] == p {
                            let q1 = choose|q1: int| 0 <= q1 < nreps@.len() && cls@[#[trigger] nreps@[q1] as int] == cls@[p as int];
                            let x = nreps@[q1] as int;
                            assert(reps@[cls@[x] as int] <= x);
                        }
                    }
                    lemma_equivalent(d, u@, cls@, p as int, p as int, p as int);
                }
                let c = nreps.len();
                ncls.push(c);
                nreps.push(p);
                if same_old {
                    changed = true;
                } else {
                    proof {
                        firsts = firsts + 1;
                    }
                }
            }
            p += 1;
        }
        proof {
            assert(firsts == reps@.len()) by {
                if firsts < reps@.len() {
                    assert(reps@[firsts] >= n);
                }
            }
            assert forall|p1: int, q1: int| 0 <= p1 < n && 0 <= q1 < n implies
                ((#[trigger] ncls@[p1]) == (#[trigger] ncls@[q1])) == equivalent(d, u@, cls@, p1, q1) by {
                let c1 = ncls@[p1] as int;
                let c2 = ncls@[q1] as int;
                let r1 = nreps@[c1] as int;
                let r2 = nreps@[c2] as int;
                assert(equivalent(d, u@, cls@, r1, p1));
                assert(equivalent(d, u@, cls@, r2, q1));
                lemma_equivalent(d, u@, cls@, r1, p1, q1);
                lemma_equivalent(d, u@, cls@, p1, r1, q1);
                lemma_equivalent(d, u@, cls@, r1, q1, r2);
                lemma_equivalent(d, u@, cls@, q1, r2, r2);
                lemma_equivalent(d, u@, cls@, r2, q1, p1);
                lemma_equivalent(d, u@, cls@, p1, q1, r2);
                lemma_equivalent(d, u@, cls@, r1, p1, r2);
                lemma_equivalent(d, u@, cls@, p1, r2, q1);
                if c1 < c2 {
                    assert(!equivalent(d, u@, cls@, r1, r2));
                } else if c2 < c1 {
                    assert(!equivalent(d, u@, cls@, r2, r1));
                    lemma_equivalent(d, u@, cls@, r1, r2, r2);
                }
            }
            if !changed {
                assert forall|p1: int, q1: int| #![trigger cls@[p1], cls@[q1]]
                    0 <= p1 < n && 0 <= q1 < n && cls@[p1] == cls@[q1] implies equivalent(d, u@, cls@, p1, q1) by {
                    let c1 = ncls@[p1] as int;
                    let c2 = ncls@[q1] as int;
                    assert(equivalent(d, u@, cls@, nreps@[c1] as int, p1));
                    assert(equivalent(d, u@, cls@, nreps@[c2] as int, q1));
                    if c1 < c2 {
                        assert(cls@[nreps@[c1] as int] != cls@[nreps@[c2] as int]);
                    } else if c2 < c1 {
                        assert(cls@[nreps@[c2] as int] != cls@[nreps@[c1] as int]);
                    }
                    assert(ncls@[p1] == ncls@[q1]);
                }
            }
        }
        (ncls, nreps, changed)
    }
}

/// Every compatible numbering merges only positions that `cls` puts in one class.
pub open spec fn refined_by_compatible(d: DFA, u: Seq<StateId>, cls: Seq<usize>) -> bool {
    forall|g: spec_fn(nat) -> nat| #[trigger] compatible(d, g) ==> forall|p: int, q: int| #![trigger g(u[p].0 as nat), g(u[q].0 as nat)]
        0 <= p < u.len() && 0 <= q < u.len() && g(u[p].0 as nat) == g(u[q].0 as nat) ==> cls[p] == cls[q]
}

/// Where `g` agrees on the targets of two states' edges, so does the numbering by `cls`.
proof fn lemma_coarser_signature(d: DFA, u: Seq<StateId>, cls: Seq<usize>, g: spec_fn(nat) -> nat, x: nat, y: nat)
    requires
        d.well_formed(),
        is_universe(d, u),
        cls.len() == u.len(),
        refined_by_compatible(d, u, cls),
        compatible(d, g),
        same_signature(d, g, x, y),
    ensures
        same_signature(d, class_fn(u, cls), x, y),
{
    let f = class_fn(u, cls);
    let rx = d.row(x);
    let ry = d.row(y);
    assert forall|k: int| 0 <= k < rx.len() implies (#[trigger] rx[k]).0@ == ry[k].0@ && f(rx[k].1.0 as nat) == f(ry[k].1.0 as nat) by {
        let t1 = rx[k].1.0 as nat;
        let t2 = ry[k].1.0 as nat;
        assert(x < d.states.len());
        assert(y < d.states.len());
        assert(d.states@[x as int]@[k] == rx[k]);
        assert(d.states@[y as int]@[k] == ry[k]);
        assert(d.has_state(t1));
        assert(d.has_state(t2));
        assert(id_set(u).contains(t1));
        assert(id_set(u).contains(t2));
        let i1 = index_of_id(u, t1);
        let i2 = index_of_id(u, t2);
        assert(0 <= i1 < u.len() && u[i1].0 == t1);
        assert(0 <= i2 < u.len() && u[i2].0 == t2);
        assert(g(u[i1].0 as nat) == g(u[i2].0 as nat));
        assert(cls[i1] == cls[i2]);
    }
}

impl DFA {
    /// The first partition: accepting and other states, numbered in increasing order
    /// of their least position.
    fn initial_partition(&self, u: &Vec<StateId>) -> (r: (Vec<usize>, Vec<usize>))
        requires
            is_universe(*self, u@),
        ensures
            part_wf(r.0@, r.1@, u@.len() as int),
            forall|p: int, q: int| 0 <= p < u@.len() && 0 <= q < u@.len() ==>
                ((#[trigger] r.0@[p]) == (#[trigger] r.0@[q])) == (self.accepts(u@[p].0 as nat) == self.accepts(u@[q].0 as nat)),
    {
        let mut cls: Vec<usize> = Vec::new();
        let mut reps: Vec<usize> = Vec::new();
        if u.len() == 0 {
            return (cls, reps);
        }
        let a0 = contains_id(&self.accept, u[0]);
        cls.push(0);
        reps.push(0);
        let mut p: usize = 1;
        while p < u.len()
            invariant
                1 <= p <= u@.len(),
                a0 == self.accepts(u@[0].0 as nat),
                part_wf(cls@, reps@, p as int),
                1 <= reps@.len() <= 2,
                reps@[0] == 0,
                forall|p1: int| 0 <= p1 < p ==> (#[trigger] cls@[p1] == 0) == (self.accepts(u@[p1].0 as nat) == a0),
            decreases u@.len() - p,
        {
            let a = contains_id(&self.accept, u[p]);
            if a == a0 {
                cls.push(0);
            } else {
                if reps.len() == 1 {
                    reps.push(p);
                }
                cls.push(1);
            }
            p += 1;
        }
        (cls, reps)
    }

    /// The minimal automaton: states merge into the coarsest classes in which states
    /// agree on acceptance and each label leads to one class. Class `c` is numbered by
    /// the order of its least state and keeps that state's edges.
    pub fn minimize(&self) -> (m: DFA)
        requires
            self.well_formed(),
        ensures
            exists|f: spec_fn(nat) -> nat, reps: Seq<nat>| compatible(*self, f) && coarsest(*self, f) && quotient(*self, m, f, reps),
    {
        let ghost d = *self;
        let u = self.universe();
        let ghost n = u@.len() as int;
        let (mut cls, mut reps) = self.initial_partition(&u);
        proof {
            assert forall|g: spec_fn(nat) -> nat| #[trigger] compatible(d, g) implies forall|p: int, q: int| #![trigger g(u@[p].0 as nat), g(u@[q].0 as nat)]
                0 <= p < u@.len() && 0 <= q < u@.len() && g(u@[p].0 as nat) == g(u@[q].0 as nat) ==> cls@[p] == cls@[q] by {
                assert forall|p: int, q: int| #![trigger g(u@[p].0 as nat), g(u@[q].0 as nat)]
                    0 <= p < u@.len() && 0 <= q < u@.len() && g(u@[p].0 as nat) == g(u@[q].0 as nat) implies cls@[p] == cls@[q] by {
                    assert(id_set(u@).contains(u@[p].0 as nat));
                    assert(id_set(u@).contains(u@[q].0 as nat));
                }
            }
            lemma_increasing_len(reps@, n as nat);
        }
        let mut done = false;
        while !done
            invariant
                d == *self,
                self.well_formed(),
                is_universe(d, u@),
                n == u@.len(),
                part_wf(cls@, reps@, n),
                reps@.len() <= n,
                forall|p: int, q: int| 0 <= p < n && 0 <= q < n && (#[trigger] cls@[p]) == (#[trigger] cls@[q])
                    ==> d.accepts(u@[p].0 as nat) == d.accepts(u@[q].0 as nat),
                refined_by_compatible(d, u@, cls@),
                done ==> forall|p: int, q: int| #![trigger cls@[p], cls@[q]]
                    0 <= p < n && 0 <= q < n && cls@[p] == cls@[q] ==> equivalent(d, u@, cls@, p, q),
            decreases n - reps@.len() + (if done { 0int } else { 1int }),
        {
            let (ncls, nreps, changed) = self.refine(&u, &cls, &reps);
            if changed {
                proof {
                    lemma_increasing_len(nreps@, n as nat);
                    assert forall|g: spec_fn(nat) -> nat| #[trigger] compatible(d, g) implies forall|p: int, q: int| #![trigger g(u@[p].0 as nat), g(u@[q].0 as nat)]
                        0 <= p < u@.len() && 0 <= q < u@.len() && g(u@[p].0 as nat) == g(u@[q].0 as nat) ==> ncls@[p] == ncls@[q] by {
                        assert forall|p: int, q: int| #![trigger g(u@[p].0 as nat), g(u@[q].0 as nat)]
                            0 <= p < u@.len() && 0 <= q < u@.len() && g(u@[p].0 as nat) == g(u@[q].0 as nat) implies ncls@[p] == ncls@[q] by {
                            assert(id_set(u@).contains(u@[p].0 as nat));
                            assert(id_set(u@).contains(u@[q].0 as nat));
                            assert(same_signature(d, g, u@[p].0 as nat, u@[q].0 as nat));
                            lemma_coarser_signature(d, u@, cls@, g, u@[p].0 as nat, u@[q].0 as nat);
                            assert(cls@[p] == cls@[q]);
                            assert(equivalent(d, u@, cls@, p, q));
                        }
                    }
                }
                cls = ncls;
                reps = nreps;
            } else {
                done = true;
            }
        }
        let ghost f = class_fn(u@, cls@);
        let ghost rs = Seq::new(reps@.len(), |c: int| u@[reps@[c] as int].0 as nat);
        proof {
            assert forall|x: nat| d.has_state(x) implies u@[index_of_id(u@, x)].0 == x && 0 <= index_of_id(u@, x) < n by {
                assert(id_set(u@).contains(x));
            }
            assert(compatible(d, f)) by {
                assert forall|x: nat, y: nat| #![trigger f(x), f(y)]
                    d.has_state(x) && d.has_state(y) && f(x) == f(y) implies d.accepts(x) == d.accepts(y) && same_signature(d, f, x, y) by {
                    let px = index_of_id(u@, x);
                    let py = index_of_id(u@, y);
                    assert(cls@[px] == cls@[py]);
                    assert(equivalent(d, u@, cls@, px, py));
                }
            }
            assert(coarsest(d, f)) by {
                assert forall|g: spec_fn(nat) -> nat| #[trigger] compatible(d, g) implies forall|x: nat, y: nat| #![trigger g(x), g(y)]
                    d.has_state(x) && d.has_state(y) && g(x) == g(y) ==> f(x) == f(y) by {
                    assert forall|x: nat, y: nat| #![trigger g(x), g(y)]
                        d.has_state(x) && d.has_state(y) && g(x) == g(y) implies f(x) == f(y) by {
                        let px = index_of_id(u@, x);
                        let py = index_of_id(u@, y);
                        assert(g(u@[px].0 as nat) == g(u@[py].0 as nat));
                    }
                }
            }
        }
        let m_len = reps.len();
        let start_pos = position(&u, self.start);
        let new_start = StateId(cls[start_pos]);
        let mut new_accept: Vec<StateId> = Vec::new();
        let mut new_states: Vec<Vec<(InputSymbol, StateId)>> = Vec::new();
        let mut c: usize = 0;
        while c < m_len
            invariant
                d == *self,
                self.well_formed(),
                is_universe(d, u@),
                n == u@.len(),
                part_wf(cls@, reps@, n),
                m_len == reps@.len(),
                f == class_fn(u@, cls@),
                c <= m_len,
                new_states@.len() == c,
                sorted_ids(new_accept@),
                forall|x: int| 0 <= x < new_accept@.len() ==> (#[trigger] new_accept@[x]).0 < c,
                id_set(new_accept@) == Set::new(|c2: nat| c2 < c && d.accepts(u@[reps@[c2 as int] as int].0 as nat)),
                forall|c2: int| 0 <= c2 < c ==> {
                    let r = d.row(u@[reps@[c2] as int].0 as nat);
                    let mr = #[trigger] new_states@[c2]@;
                    &&& mr.len() == r.len()
                    &&& forall|k: int| 0 <= k < r.len() ==> (#[trigger] mr[k]).0@ == r[k].0@ && mr[k].1.0 == f(r[k].1.0 as nat)
                },
            decreases m_len - c,
        {
            let rep = u[reps[c]];
            let ghost old_accept = new_accept@;
            if contains_id(&self.accept, rep) {
                new_accept.push(StateId(c));
            }
            proof {
                assert(id_set(new_accept@) =~= Set::new(|c2: nat| c2 < c + 1 && d.accepts(u@[reps@[c2 as int] as int].0 as nat))) by {
                    assert forall|c2: nat| id_set(new_accept@).contains(c2) implies c2 < c + 1 && d.accepts(u@[reps@[c2 as int] as int].0 as nat) by {
                        let x = choose|x: int| 0 <= x < new_accept@.len() && (#[trigger] new_accept@[x]).0 == c2;
                        if x < old_accept.len() {
                            assert(new_accept@[x] == old_accept[x]);
                            assert(id_set(old_accept).contains(c2));
                        }
                    }
                    assert forall|c2: nat| c2 < c + 1 && d.accepts(u@[reps@[c2 as int] as int].0 as nat) implies id_set(new_accept@).contains(c2) by {
                        if c2 < c {
                            assert(id_set(old_accept).contains(c2));
                            let x = choose|x: int| 0 <= x < old_accept.len() && (#[trigger] old_accept[x]).0 == c2;
                            assert(new_accept@[x] == old_accept[x]);
                        } else {
                            assert(new_accept@[new_accept@.len() - 1].0 == c2);
                        }
                    }
                }
                assert forall|p1: int, q1: int| 0 <= p1 < q1 < new_accept@.len() implies (#[trigger] new_accept@[p1]).0 < (#[trigger] new_accept@[q1]).0 by {
                    assert(new_accept@[p1] == old_accept[p1]);
                    if q1 < old_accept.len() {
                        assert(new_accept@[q1] == old_accept[q1]);
                    }
                }
                assert forall|x: int| 0 <= x < new_accept@.len() implies (#[trigger] new_accept@[x]).0 < c + 1 by {
                    if x < old_accept.len() {
                        assert(new_accept@[x] == old_accept[x]);
                    }
                }
            }
            let ghost r = d.row(rep.0 as nat);
            let len = self.row_len(rep);
            let mut row: Vec<(InputSymbol, StateId)> = Vec::new();
            let mut k: usize = 0;
            while k < len
                invariant
                    d == *self,
                    self.well_formed(),
                    is_universe(d, u@),
                    cls@.len() == u@.len(),
                    f == class_fn(u@, cls@),
                    r == d.row(rep.0 as nat),
                    len == r.len(),
                    k <= len,
                    row@.len() == k,
                    forall|k2: int| 0 <= k2 < k ==> (#[trigger] row@[k2]).0@ == r[k2].0@ && row@[k2].1.0 == f(r[k2].1.0 as nat),
                decreases len - k,
            {
                let e = &self.states[rep.0][k];
                assert(*e == r[k as int]);
                proof {
                    assert(d.has_state(self.states@[rep.0 as int]@[k as int].1.0 as nat));
                    assert(id_set(u@).contains(e.1.0 as nat));
                }
                let tp = position(&u, e.1);
                row.push((copy_symbol(&e.0), StateId(cls[tp])));
                k += 1;
            }
            new_states.push(row);
            c += 1;
        }
        let m = DFA { start: new_start, accept: new_accept, states: new_states };
        proof {
            assert forall|c1: int, e: int| 0 <= c1 < e < rs.len() implies rs[c1] < rs[e] by {
                assert(reps@[c1] < reps@[e]);
            }
            assert forall|c1: int| 0 <= c1 < rs.len() implies d.has_state(#[trigger] rs[c1]) && f(rs[c1]) == c1 by {
                let pos = reps@[c1] as int;
                assert(id_set(u@).contains(u@[pos].0 as nat));
                lemma_index_of_id(u@, pos);
            }
            assert forall|x: nat| d.has_state(x) implies #[trigger] f(x) < rs.len() && rs[f(x) as int] <= x by {
                let px = index_of_id(u@, x);
                let c1 = cls@[px] as int;
                assert(reps@[c1] <= px);
                if (reps@[c1] as int) < px {
                    assert(u@[reps@[c1] as int].0 < u@[px].0);
                }
            }
            lemma_index_of_id(u@, start_pos as int);
            assert(Set::new(|c2: nat| c2 < m_len && d.accepts(u@[reps@[c2 as int] as int].0 as nat))
                =~= Set::new(|c2: nat| c2 < rs.len() && d.accepts(rs[c2 as int])));
            assert(quotient(d, m, f, rs));
        }
        m
    }
}

/// A strictly increasing list of numbers below `n` has at most `n` entries.
proof fn lemma_increasing_nat_len(reps: Seq<nat>, n: nat)
    requires
        forall|c: int, e: int| 0 <= c < e < reps.len() ==> reps[c] < reps[e],
        forall|c: int| 0 <= c < reps.len() ==> #[trigger] reps[c] < n,
    ensures
        reps.len() <= n,
    decreases reps.len(),
{
    if reps.len() > 0 {
        let r = reps.drop_last();
        assert forall|c: int| 0 <= c < r.len() implies #[trigger] r[c] < reps.last() by {
            assert(r[c] == reps[c]);
        }
        lemma_increasing_nat_len(r, reps.last());
        assert(reps[reps.len() - 1] < n);
    }
}

/// Minimizing never adds states to an automaton whose accepting states all have rows.
pub proof fn law_minimize_never_grows(d: DFA, m: DFA, f: spec_fn(nat) -> nat, reps: Seq<nat>)
    requires
        d.well_formed(),
        forall|i: int| 0 <= i < d.accept@.len() ==> (#[trigger] d.accept@[i]).0 < d.states.len(),
        quotient(d, m, f, reps),
    ensures
        m.states.len() <= d.states.len(),
{
    assert forall|c: int| 0 <= c < reps.len() implies #[trigger] reps[c] < d.states.len() by {
        if reps[c] >= d.states.len() {
            assert(d.has_state(reps[c]));
            let i = choose|i: int| 0 <= i < d.accept@.len() && (#[trigger] d.accept@[i]).0 == reps[c];
        }
    }
    lemma_increasing_nat_len(reps, d.states.len() as nat);
}

/// The minimized automaton can itself be minimized: it is well formed.
pub proof fn law_minimized_well_formed(d: DFA, m: DFA, f: spec_fn(nat) -> nat, reps: Seq<nat>)
    requires
        d.well_formed(),
        quotient(d, m, f, reps),
    ensures
        m.well_formed(),
        m.targets_in_rows(),
{
    assert(m.has_state(m.start.0 as nat));
    assert forall|i: int| 0 <= i < m.states.len() implies sorted_symbols(row_labels(#[trigger] m.states@[i]@)) by {
        let r = d.row(reps[i]);
        let mr = m.states@[i]@;
        if reps[i] < d.states.len() {
            assert(sorted_symbols(row_labels(d.states@[reps[i] as int]@)));
        }
        assert forall|p: int, q: int| 0 <= p < q < row_labels(mr).len() implies
            symbol_order(#[trigger] row_labels(mr)[p], #[trigger] row_labels(mr)[q]) < 0 by {
            assert(mr[p].0@ == r[p].0@);
            assert(mr[q].0@ == r[q].0@);
            assert(row_labels(r)[p] == r[p].0@);
            assert(row_labels(r)[q] == r[q].0@);
        }
    }
    assert forall|i: int, k: int| 0 <= i < m.states.len() && 0 <= k < m.states@[i]@.len()
        implies (#[trigger] m.states@[i]@[k]).1.0 < m.states.len() by {
        let r = d.row(reps[i]);
        assert(m.states@[i]@[k].1.0 == f(r[k].1.0 as nat));
        assert(reps[i] < d.states.len());
        assert(d.states@[reps[i] as int]@[k] == r[k]);
        assert(d.has_state(r[k].1.0 as nat));
    }
}

/// Unless the state limit was reached, the subset construction gives an automaton
/// that is well formed and whose every edge leads to a state with a row.
pub proof fn law_subset_dfa_well_formed(t: Seq<Seq<STransition>>, start: nat, accept: nat, d: DFA, sets: Seq<Seq<StateId>>)
    requires
        subset_dfa(t, start, accept, d, sets),
        sets.len() < MAX_DFA_STATES,
    ensures
        d.well_formed(),
        d.targets_in_rows(),
{
    assert forall|i: int| 0 <= i < d.states.len() implies sorted_symbols(row_labels(#[trigger] d.states@[i]@)) by {
        assert(subset_row(t, sets, d.states@, i));
    }
    assert forall|i: int, k: int| 0 <= i < d.states.len() && 0 <= k < d.states@[i]@.len()
        implies (#[trigger] d.states@[i]@[k]).1.0 < d.states.len() by {
        assert(subset_row(t, sets, d.states@, i));
        assert(row_ok(t, sets, d.states@[i]@, i));
    }
}

impl DFA {
    /// Whether `x` is a state of the automaton.
    fn has_state_exec(&self, x: StateId) -> (b: bool)
        ensures
            b == self.has_state(x.0 as nat),
    {
        x.0 < self.states.len() || contains_id(&self.accept, x)
    }

    /// Whether the automaton is well formed, so that it can be minimized.
    pub fn is_well_formed(&self) -> (b: bool)
        ensures
            b == self.well_formed(),
    {
        let mut i: usize = 1;
        while i < self.accept.len()
            invariant
                1 <= i,
                i <= self.accept.len() || self.accept.len() == 0,
                forall|p: int, q: int| 0 <= p < q < i && q < self.accept@.len() ==> (#[trigger] self.accept@[p]).0 < (#[trigger] self.accept@[q]).0,
            decreases self.accept.len() - i,
        {
            if self.accept[i - 1].0 >= self.accept[i].0 {
                return false;
            }
            proof {
                assert forall|p: int, q: int| 0 <= p < q < i + 1 && q < self.accept@.len() implies (#[trigger] self.accept@[p]).0 < (#[trigger] self.accept@[q]).0 by {
                    if q == i && p < i - 1 {
                        assert(self.accept@[p].0 < self.accept@[i - 1].0);
                    }
                }
            }
            i += 1;
        }
        if !self.has_state_exec(self.start) {
            return false;
        }
        let mut s: usize = 0;
        while s < self.states.len()
            invariant
                sorted_ids(self.accept@),
                s <= self.states.len(),
                forall|i2: int| 0 <= i2 < s ==> sorted_symbols(row_labels(#[trigger] self.states@[i2]@)),
                forall|i2: int, k: int| 0 <= i2 < s && 0 <= k < self.states@[i2]@.len()
                    ==> self.has_state((#[trigger] self.states@[i2]@[k]).1.0 as nat),
            decreases self.states.len() - s,
        {
            let row = &self.states[s];
            let mut k: usize = 0;
            while k < row.len()
                invariant
                    sorted_ids(self.accept@),
                    s < self.states.len(),
                    row == &self.states@[s as int],
                    k <= row@.len(),
                    forall|p: int, q: int| 0 <= p < q < k ==> symbol_order(#[trigger] row_labels(row@)[p], #[trigger] row_labels(row@)[q]) < 0,
                    forall|k2: int| 0 <= k2 < k ==> self.has_state((#[trigger] row@[k2]).1.0 as nat),
                decreases row@.len() - k,
            {
                if !self.has_state_exec(row[k].1) {
                    assert(!self.has_state(self.states@[s as int]@[k as int].1.0 as nat));
                    return false;
                }
                if k > 0 {
                    if order_symbols(&row[k - 1].0, &row[k].0) >= 0 {
                        assert(symbol_order(row_labels(row@)[k - 1], row_labels(row@)[k as int]) >= 0);
                        return false;
                    }
                    proof {
                        assert forall|p: int, q: int| 0 <= p < q < k + 1 implies symbol_order(#[trigger] row_labels(row@)[p], #[trigger] row_labels(row@)[q]) < 0 by {
                            if q == k && p < k - 1 {
                                lemma_symbol_order_laws(row_labels(row@)[p], row_labels(row@)[k - 1], row_labels(row@)[q]);
                            }
                        }
                    }
                }
                k += 1;
            }
            s += 1;
        }
        true
    }

    /// Whether every edge leads to a state that has a row, so that the bytecode form
    /// exists.
    pub fn all_targets_have_rows(&self) -> (b: bool)
        ensures
            b == self.targets_in_rows(),
    {
        let mut s: usize = 0;
        while s < self.states.len()
            invariant
                s <= self.states.len(),
                forall|i2: int, k: int| 0 <= i2 < s && 0 <= k < self.states@[i2]@.len()
                    ==> (#[trigger] self.states@[i2]@[k]).1.0 < self.states.len(),
            decreases self.states.len() - s,
        {
            let row = &self.states[s];
            let mut k: usize = 0;
            while k < row.len()
                invariant
                    s < self.states.len(),
                    row == &self.states@[s as int],
                    k <= row@.len(),
                    forall|i2: int, k2: int| 0 <= i2 < s && 0 <= k2 < self.states@[i2]@.len()
                        ==> (#[trigger] self.states@[i2]@[k2]).1.0 < self.states.len(),
                    forall|k2: int| 0 <= k2 < k ==> (#[trigger] row@[k2]).1.0 < self.states.len(),
                decreases row@.len() - k,
            {
                if row[k].1.0 >= self.states.len() {
                    return false;
                }
                k += 1;
            }
            s += 1;
        }
        true
    }
}

/// In a minimized automaton, a compatible numbering merges no two states: a merge
/// there would give a compatible numbering of the first automaton that merges states of
/// different classes.
proof fn lemma_minimized_is_discrete(d: DFA, m: DFA, f: spec_fn(nat) -> nat, reps: Seq<nat>, g: spec_fn(nat) -> nat, c1: nat, c2: nat)
    requires
        d.well_formed(),
        compatible(d, f),
        coarsest(d, f),
        quotient(d, m, f, reps),
        compatible(m, g),
        c1 < m.states.len(),
        c2 < m.states.len(),
        g(c1) == g(c2),
    ensures
        c1 == c2,
{
    let h = |x: nat| g(f(x));
    assert forall|x: nat, y: nat| #![trigger h(x), h(y)]
        d.has_state(x) && d.has_state(y) && h(x) == h(y) implies d.accepts(x) == d.accepts(y) && same_signature(d, h, x, y) by {
        let fx = f(x);
        let fy = f(y);
        assert(fx < reps.len() && fy < reps.len());
        assert(m.has_state(fx) && m.has_state(fy));
        assert(g(fx) == g(fy));
        assert(m.accepts(fx) == m.accepts(fy) && same_signature(m, g, fx, fy));
        let rx = reps[fx as int];
        let ry = reps[fy as int];
        assert(d.has_state(rx) && f(rx) == fx);
        assert(d.has_state(ry) && f(ry) == fy);
        assert(d.accepts(x) == d.accepts(rx) && same_signature(d, f, x, rx));
        assert(d.accepts(y) == d.accepts(ry) && same_signature(d, f, y, ry));
        assert(m.accepts(fx) == d.accepts(rx)) by {
            assert(Set::new(|c: nat| c < reps.len() && d.accepts(reps[c as int])).contains(fx) == d.accepts(rx));
        }
        assert(m.accepts(fy) == d.accepts(ry)) by {
            assert(Set::new(|c: nat| c < reps.len() && d.accepts(reps[c as int])).contains(fy) == d.accepts(ry));
        }
        let mx = m.row(fx);
        let my = m.row(fy);
        assert(mx == m.states@[fx as int]@);
        assert(my == m.states@[fy as int]@);
        assert(mx.len() == d.row(rx).len());
        assert(my.len() == d.row(ry).len());
        assert forall|k: int| 0 <= k < d.row(x).len() implies (#[trigger] d.row(x)[k]).0@ == d.row(y)[k].0@
            && h(d.row(x)[k].1.0 as nat) == h(d.row(y)[k].1.0 as nat) by {
            assert(d.row(x)[k].0@ == d.row(rx)[k].0@);
            assert(f(d.row(x)[k].1.0 as nat) == f(d.row(rx)[k].1.0 as nat));
            assert(d.row(y)[k].0@ == d.row(ry)[k].0@);
            assert(f(d.row(y)[k].1.0 as nat) == f(d.row(ry)[k].1.0 as nat));
            assert(mx[k].0@ == d.row(rx)[k].0@ && mx[k].1.0 == f(d.row(rx)[k].1.0 as nat));
            assert(my[k].0@ == d.row(ry)[k].0@ && my[k].1.0 == f(d.row(ry)[k].1.0 as nat));
            assert(mx[k].0@ == my[k].0@ && g(mx[k].1.0 as nat) == g(my[k].1.0 as nat));
        }
    }
    assert(compatible(d, h));
    let x = reps[c1 as int];
    let y = reps[c2 as int];
    assert(d.has_state(x) && f(x) == c1);
    assert(d.has_state(y) && f(y) == c2);
    assert(h(x) == h(y));
}

/// Minimizing a minimized automaton gives it back: the same start, accepting states and
/// edges.
pub proof fn law_minimize_idempotent(d: DFA, m: DFA, f: spec_fn(nat) -> nat, reps: Seq<nat>, m2: DFA, f2: spec_fn(nat) -> nat, reps2: Seq<nat>)
    requires
        d.well_formed(),
        compatible(d, f),
        coarsest(d, f),
        quotient(d, m, f, reps),
        compatible(m, f2),
        coarsest(m, f2),
        quotient(m, m2, f2, reps2),
    ensures
        m2.states.len() == m.states.len(),
        m2.start == m.start,
        id_set(m2.accept@) == id_set(m.accept@),
        forall|c: int| 0 <= c < m.states.len() ==> (#[trigger] m2.states@[c])@.len() == m.states@[c]@.len(),
        forall|c: int, k: int| 0 <= c < m.states.len() && 0 <= k < m.states@[c]@.len() ==>
            (#[trigger] m2.states@[c]@[k]).0@ == m.states@[c]@[k].0@ && m2.states@[c]@[k].1 == m.states@[c]@[k].1,
{
    let n = m.states.len() as nat;
    assert forall|x: nat| #[trigger] m.has_state(x) implies x < n by {
        if !(x < n) {
            assert(id_set(m.accept@).contains(x));
        }
    }
    // Every state of `m` is the least state of its class.
    assert forall|x: nat| x < n implies #[trigger] f2(x) < reps2.len() && reps2[f2(x) as int] == x by {
        assert(m.has_state(x));
        let r = reps2[f2(x) as int];
        assert(m.has_state(r) && f2(r) == f2(x));
        assert(r < n);
        lemma_minimized_is_discrete(d, m, f, reps, f2, r, x);
    }
    // So each class is its own least state.
    assert forall|c: int| 0 <= c < reps2.len() implies #[trigger] reps2[c] == c by {
        lemma_reps_identity(reps2, f2, n, c);
    }
    if n > 0 {
        assert(reps2[f2((n - 1) as nat) as int] == n - 1);
        assert(f2((n - 1) as nat) == n - 1);
        assert(reps2.len() >= n);
    }
    if reps2.len() > 0 {
        assert(m.has_state(reps2[reps2.len() - 1]));
    }
    assert(reps2.len() == n);
    assert forall|x: nat| x < n implies #[trigger] f2(x) == x by {
        assert(reps2[f2(x) as int] == x);
    }
    assert(m.has_state(m.start.0 as nat));
    assert(id_set(m2.accept@) =~= id_set(m.accept@)) by {
        assert forall|c: nat| id_set(m2.accept@).contains(c) == id_set(m.accept@).contains(c) by {
            assert(Set::new(|c2: nat| c2 < reps2.len() && m.accepts(reps2[c2 as int])).contains(c) == id_set(m2.accept@).contains(c));
            if id_set(m.accept@).contains(c) {
                assert(m.has_state(c));
            }
        }
    }
    assert forall|c: int| 0 <= c < m.states.len() implies (#[trigger] m2.states@[c])@.len() == m.states@[c]@.len() by {
        assert(reps2[c] == c);
        assert(m.row(reps2[c]) == m.states@[c]@);
    }
    assert forall|c: int, k: int| 0 <= c < m.states.len() && 0 <= k < m.states@[c]@.len() implies
        (#[trigger] m2.states@[c]@[k]).0@ == m.states@[c]@[k].0@ && m2.states@[c]@[k].1 == m.states@[c]@[k].1 by {
        assert(reps2[c] == c);
        assert(m.row(reps2[c]) == m.states@[c]@);
        let t = m.states@[c]@[k].1;
        let r = d.row(reps[c]);
        assert(d.has_state(reps[c]));
        assert(m.states@[c]@.len() == r.len());
        assert(m.states@[c]@[k].1.0 == f(r[k].1.0 as nat));
        assert(reps[c] < d.states.len());
        assert(d.states@[reps[c] as int]@[k] == r[k]);
        assert(d.has_state(r[k].1.0 as nat));
        assert(t.0 < n);
        assert(f2(t.0 as nat) == t.0);
        assert(m2.states@[c]@[k].1.0 == f2(m.states@[c]@[k].1.0 as nat));
        assert(m2.states@[c]@[k].1 == m.states@[c]@[k].1);
        assert(m2.states@[c]@.len() == m.states@[c]@.len());
        assert(m2.states@[c]@[k].0@ == m.states@[c]@[k].0@);
    }
}

/// Strictly increasing least states that cover every state are the states themselves.
proof fn lemma_reps_identity(reps: Seq<nat>, f: spec_fn(nat) -> nat, n: nat, c: int)
    requires
        forall|a: int, b: int| 0 <= a < b < reps.len() ==> reps[a] < reps[b],
        forall|a: int| 0 <= a < reps.len() ==> #[trigger] reps[a] < n,
        forall|x: nat| x < n ==> #[trigger] f(x) < reps.len() && reps[f(x) as int] == x,
        0 <= c < reps.len(),
    ensures
        reps[c] == c,
    decreases c,
{
    lemma_reps_at_least(reps, c);
    if reps[c] > c {
        let x = c as nat;
        let j = f(x) as int;
        assert(reps[j] == x);
        if j >= c {
            if j > c {
                assert(reps[c] < reps[j]);
            }
        } else {
            lemma_reps_identity(reps, f, n, j);
        }
    }
}

/// Entry `c` of a strictly increasing list of numbers is at least `c`.
proof fn lemma_reps_at_least(reps: Seq<nat>, c: int)
    requires
        forall|a: int, b: int| 0 <= a < b < reps.len() ==> reps[a] < reps[b],
        0 <= c < reps.len(),
    ensures
        reps[c] >= c,
    decreases c,
{
    if c > 0 {
        lemma_reps_at_least(reps, c - 1);
        assert(reps[c - 1] < reps[c]);
    }
}

/// The automaton, started in state `x`, accepts the word `w`: following the edge labelled
/// by each letter in turn ends in an accepting state.
pub open spec fn accepts_from(d: DFA, x: nat, w: Seq<SSymbol>) -> bool
    decreases w.len(),
{
    if w.len() == 0 {
        d.accepts(x)
    } else {
        exists|k: int| 0 <= k < d.row(x).len() && (#[trigger] d.row(x)[k]).0@ == w[0]
            && accepts_from(d, d.row(x)[k].1.0 as nat, w.drop_first())
    }
}

/// The automaton accepts the word `w` from its start state.
pub open spec fn dfa_accepts(d: DFA, w: Seq<SSymbol>) -> bool {
    accepts_from(d, d.start.0 as nat, w)
}

proof fn lemma_quotient_accepts_from(d: DFA, m: DFA, f: spec_fn(nat) -> nat, reps: Seq<nat>, x: nat, w: Seq<SSymbol>)
    requires
        d.well_formed(),
        compatible(d, f),
        quotient(d, m, f, reps),
        d.has_state(x),
    ensures
        accepts_from(d, x, w) == accepts_from(m, f(x), w),
    decreases w.len(),
{
    let fx = f(x);
    assert(fx < reps.len());
    let rep = reps[fx as int];
    assert(d.has_state(rep) && f(rep) == fx);
    assert(d.accepts(x) == d.accepts(rep) && same_signature(d, f, x, rep));
    if w.len() == 0 {
        assert(Set::new(|c: nat| c < reps.len() && d.accepts(reps[c as int])).contains(fx) == d.accepts(rep));
    } else {
        let a = w[0];
        let rest = w.drop_first();
        let rx = d.row(x);
        let rr = d.row(rep);
        let mr = m.row(fx);
        assert(mr == m.states@[fx as int]@);
        assert(mr.len() == rr.len());
        if accepts_from(d, x, w) {
            let k = choose|k: int| 0 <= k < rx.len() && (#[trigger] rx[k]).0@ == a && accepts_from(d, rx[k].1.0 as nat, rest);
            let t = rx[k].1.0 as nat;
            assert(x < d.states.len());
            assert(d.states@[x as int]@[k] == rx[k]);
            assert(d.has_state(t));
            lemma_quotient_accepts_from(d, m, f, reps, t, rest);
            assert(rr[k].0@ == a && f(rr[k].1.0 as nat) == f(t));
            assert(mr[k].0@ == rr[k].0@ && mr[k].1.0 == f(rr[k].1.0 as nat));
            assert(accepts_from(m, mr[k].1.0 as nat, rest));
            assert(accepts_from(m, fx, w));
        }
        if accepts_from(m, fx, w) {
            let k = choose|k: int| 0 <= k < mr.len() && (#[trigger] mr[k]).0@ == a && accepts_from(m, mr[k].1.0 as nat, rest);
            assert(mr[k].0@ == rr[k].0@ && mr[k].1.0 == f(rr[k].1.0 as nat));
            assert(rx[k].0@ == rr[k].0@ && f(rx[k].1.0 as nat) == f(rr[k].1.0 as nat));
            let t = rx[k].1.0 as nat;
            assert(x < d.states.len());
            assert(d.states@[x as int]@[k] == rx[k]);
            assert(d.has_state(t));
            lemma_quotient_accepts_from(d, m, f, reps, t, rest);
            assert(accepts_from(d, x, w));
        }
    }
}

/// Minimizing keeps the language: the minimized automaton accepts exactly the words
/// that the automaton accepts.
pub proof fn law_minimize_preserves_words(d: DFA, m: DFA, f: spec_fn(nat) -> nat, reps: Seq<nat>, w: Seq<SSymbol>)
    requires
        d.well_formed(),
        compatible(d, f),
        coarsest(d, f),
        quotient(d, m, f, reps),
    ensures
        dfa_accepts(m, w) == dfa_accepts(d, w),
{
    lemma_quotient_accepts_from(d, m, f, reps, d.start.0 as nat, w);
}

/// State `i` of a subset construction accepts from a word exactly when the NFA, run
/// from the states `sets[i]` stands for, can end in its accepting state.
proof fn lemma_subset_accepts_from(t: Seq<Seq<STransition>>, start: nat, accept: nat, d: DFA, sets: Seq<Seq<StateId>>, i: nat, w: Seq<SSymbol>)
    requires
        subset_dfa(t, start, accept, d, sets),
        sets.len() < MAX_DFA_STATES,
        forall|j: int| 0 <= j < sets.len() ==> (#[trigger] sets[j]).len() <= MAX_CLOSURE_SIZE,
        i < sets.len(),
    ensures
        accepts_from(d, i, w) == nfa_run(t, id_set(sets[i as int]), w).contains(accept),
    decreases w.len(),
{
    assert(d.states.len() == sets.len());
    if w.len() == 0 {
        assert(Set::new(|x: nat| x < sets.len() && id_set(sets[x as int]).contains(accept)).contains(i)
            == id_set(sets[i as int]).contains(accept));
    } else {
        let a = w[0];
        let rest = w.drop_first();
        let row = d.states@[i as int]@;
        assert(d.row(i) == row);
        assert(subset_row(t, sets, d.states@, i as int));
        assert(row_ok(t, sets, row, i as int));
        let mv = move_on(t, id_set(sets[i as int]), a);
        if mv.is_empty() {
            assert(mv =~= Set::<nat>::empty());
            assert(spec_epsilon_closure(t, Set::empty()) =~= Set::<nat>::empty()) by {
                assert forall|x: nat| !spec_epsilon_closure(t, Set::empty()).contains(x) by {
                    assert(crate::nfa::eps_closed(t, Set::<nat>::empty()) && Set::<nat>::empty().subset_of(Set::<nat>::empty()));
                }
            }
            lemma_nfa_run_empty(t, rest);
            if accepts_from(d, i, w) {
                let k = choose|k: int| 0 <= k < row.len() && (#[trigger] row[k]).0@ == a && accepts_from(d, row[k].1.0 as nat, rest);
                assert(!move_on(t, id_set(sets[i as int]), row[k].0@).is_empty());
            }
        } else {
            if !row_labels(row).contains(a) {
                assert(left_out(t, sets, mv));
            }
            let k0 = choose|k: int| 0 <= k < row_labels(row).len() && row_labels(row)[k] == a;
            assert(row[k0].0@ == a);
            let j = row[k0].1.0 as nat;
            assert(j < sets.len());
            assert(closure_result(t, mv, sets[j as int]));
            assert(id_set(sets[j as int]) == spec_epsilon_closure(t, mv));
            lemma_subset_accepts_from(t, start, accept, d, sets, j, rest);
            if accepts_from(d, i, w) {
                let k = choose|k: int| 0 <= k < row.len() && (#[trigger] row[k]).0@ == a && accepts_from(d, row[k].1.0 as nat, rest);
                if k != k0 {
                    let lv = row_labels(row);
                    assert(lv[k] == a && lv[k0] == a);
                    if k < k0 {
                        assert(symbol_order(lv[k], lv[k0]) < 0);
                    } else {
                        assert(symbol_order(lv[k0], lv[k]) < 0);
                    }
                    lemma_symbol_order_laws(a, a, a);
                }
            }
            if nfa_run(t, id_set(sets[i as int]), w).contains(accept) {
                assert(accepts_from(d, i, w));
            }
        }
    }
}

/// Unless the state limit was reached or some state stands for more than
/// `MAX_CLOSURE_SIZE` NFA states, the subset construction accepts exactly the words
/// of the NFA it was built from.
pub proof fn law_subset_dfa_accepts_nfa_words(t: Seq<Seq<STransition>>, start: nat, accept: nat, d: DFA, sets: Seq<Seq<StateId>>, w: Seq<SSymbol>)
    requires
        subset_dfa(t, start, accept, d, sets),
        sets.len() < MAX_DFA_STATES,
        forall|j: int| 0 <= j < sets.len() ==> (#[trigger] sets[j]).len() <= MAX_CLOSURE_SIZE,
    ensures
        dfa_accepts(d, w) == nfa_accepts(t, start, accept, w),
{
    assert(closure_result(t, set![start], sets[0]));
    assert(sets[0].len() <= MAX_CLOSURE_SIZE);
    lemma_subset_accepts_from(t, start, accept, d, sets, 0, w);
}

} // verus!
