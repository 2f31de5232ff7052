//! The automata: states, NFA edges, DFA labels and bytecode instructions, with their
//! mathematical values, and the sorted lists that stand for sets of states.
use vstd::prelude::*;
use crate::ast::{
    CharClass, SClass, copy_class, same_class, order_classes, class_order, char_order, int_order,
    lemma_class_order_zero, lemma_class_order_laws,
};
pub use crate::nfa::{build_nfa, NfaBuilder};

verus! {

/// The number of a state.
#[derive(Debug, Clone, Copy, PartialEq, Eq, Structural, Hash, PartialOrd, Ord)]
pub struct StateId(pub usize);

/// An NFA edge and its target.
#[derive(Debug, Clone, PartialEq, Eq)]
pub enum Transition {
    Epsilon(StateId),
    Char(char, StateId),
    Class(CharClass, StateId),
    Any(StateId),
}

/// The mathematical value of an NFA edge.
pub enum STransition {
    Epsilon(nat),
    Char(char, nat),
    Class(SClass, nat),
    Any(nat),
}

impl View for Transition {
    type V = STransition;

    open spec fn view(&self) -> STransition {
        match self {
            Transition::Epsilon(t) => STransition::Epsilon(t.0 as nat),
            Transition::Char(c, t) => STransition::Char(*c, t.0 as nat),
            Transition::Class(cls, t) => STransition::Class(cls@, t.0 as nat),
            Transition::Any(t) => STransition::Any(t.0 as nat),
        }
    }
}

/// The label of a DFA edge.
#[derive(Debug, Clone, PartialEq, Eq)]
pub enum InputSymbol {
    Char(char),
    Class(CharClass),
    Any,
}

/// The mathematical value of a DFA edge label.
pub enum SSymbol {
    Char(char),
    Class(SClass),
    Any,
}

impl View for InputSymbol {
    type V = SSymbol;

    open spec fn view(&self) -> SSymbol {
        match self {
            InputSymbol::Char(c) => SSymbol::Char(*c),
            InputSymbol::Class(cls) => SSymbol::Class(cls@),
            InputSymbol::Any => SSymbol::Any,
        }
    }
}

/// One instruction of the bytecode form of a DFA.
#[derive(Debug, Clone, PartialEq, Eq)]
pub enum BytecodeInstr {
    Start,
    Accept,
    Fail,
    MatchChar(char, usize),
    MatchClass(CharClass, usize),
    MatchAny(usize),
    Jump(usize),
}

/// The mathematical value of an instruction.
pub enum SInstr {
    Start,
    Accept,
    Fail,
    MatchChar(char, nat),
    MatchClass(SClass, nat),
    MatchAny(nat),
    Jump(nat),
}

impl View for BytecodeInstr {
    type V = SInstr;

    open spec fn view(&self) -> SInstr {
        match self {
            BytecodeInstr::Start => SInstr::Start,
            BytecodeInstr::Accept => SInstr::Accept,
            BytecodeInstr::Fail => SInstr::Fail,
            BytecodeInstr::MatchChar(c, t) => SInstr::MatchChar(*c, *t as nat),
            BytecodeInstr::MatchClass(cls, t) => SInstr::MatchClass(cls@, *t as nat),
            BytecodeInstr::MatchAny(t) => SInstr::MatchAny(*t as nat),
            BytecodeInstr::Jump(t) => SInstr::Jump(*t as nat),
        }
    }
}

/// The mathematical values of a list of instructions.
pub open spec fn instrs_view(v: Seq<BytecodeInstr>) -> Seq<SInstr>
    decreases v.len(),
{
    if v.len() == 0 {
        Seq::empty()
    } else {
        instrs_view(v.drop_last()).push(v.last()@)
    }
}

} // verus!

verus! {

/// The mathematical values of the edges of one NFA state.
pub open spec fn row_view(r: Seq<Transition>) -> Seq<STransition> {
    Seq::new(r.len(), |i: int| r[i]@)
}

/// The mathematical values of the edges of every NFA state.
pub open spec fn table_view(t: Seq<Vec<Transition>>) -> Seq<Seq<STransition>> {
    Seq::new(t.len(), |i: int| row_view(t[i]@))
}

/// The target state of an edge.
pub open spec fn target_of(t: STransition) -> nat {
    match t {
        STransition::Epsilon(s) => s,
        STransition::Char(_, s) => s,
        STransition::Class(_, s) => s,
        STransition::Any(s) => s,
    }
}

/// The numbers of an optional state.
pub open spec fn opt_id(o: Option<StateId>) -> Option<nat> {
    match o {
        Some(s) => Some(s.0 as nat),
        None => None,
    }
}

/// Every edge of every state leads to a state of the table.
pub open spec fn table_wf(t: Seq<Seq<STransition>>) -> bool {
    forall|i: int, j: int| 0 <= i < t.len() && 0 <= j < t[i].len() ==> #[trigger] target_of(t[i][j]) < t.len()
}

/// A copy of an edge.
pub(crate) fn copy_transition(t: &Transition) -> (r: Transition)
    ensures
        r@ == t@,
{
    match t {
        Transition::Epsilon(s) => Transition::Epsilon(*s),
        Transition::Char(c, s) => Transition::Char(*c, *s),
        Transition::Class(cls, s) => Transition::Class(copy_class(cls), *s),
        Transition::Any(s) => Transition::Any(*s),
    }
}

/// Whether two edges are the same edge.
pub(crate) fn same_transition(a: &Transition, b: &Transition) -> (r: bool)
    ensures
        r == (a@ == b@),
{
    match (a, b) {
        (Transition::Epsilon(x), Transition::Epsilon(y)) => x.0 == y.0,
        (Transition::Char(c, x), Transition::Char(d, y)) => *c == *d && x.0 == y.0,
        (Transition::Class(c, x), Transition::Class(d, y)) => same_class(c, d) && x.0 == y.0,
        (Transition::Any(x), Transition::Any(y)) => x.0 == y.0,
        _ => false,
    }
}

/// The target state of an edge.
pub(crate) fn transition_target(t: &Transition) -> (s: StateId)
    ensures
        s.0 == target_of(t@),
{
    match t {
        Transition::Epsilon(s) => *s,
        Transition::Char(_, s) => *s,
        Transition::Class(_, s) => *s,
        Transition::Any(s) => *s,
    }
}

pub(crate) proof fn lemma_table_entry(t: Seq<Vec<Transition>>, i: int, j: int)
    requires
        0 <= i < t.len(),
        0 <= j < t[i]@.len(),
    ensures
        table_view(t).len() == t.len(),
        table_view(t)[i] == row_view(t[i]@),
        table_view(t)[i].len() == t[i]@.len(),
        table_view(t)[i][j] == t[i]@[j]@,
{
}


/// A nondeterministic automaton: its states are the indexes of `states`, each with
/// its outgoing edges.
#[derive(Debug, Clone, PartialEq, Eq)]
pub struct NFA {
    pub start: StateId,
    pub accept: StateId,
    pub states: Vec<Vec<Transition>>,
}

impl NFA {
    /// The edges of each state.
    pub open spec fn table(&self) -> Seq<Seq<STransition>> {
        table_view(self.states@)
    }

    /// The start and accept states exist and every edge leads to a state.
    pub open spec fn well_formed(&self) -> bool {
        &&& self.start.0 < self.states.len()
        &&& self.accept.0 < self.states.len()
        &&& table_wf(self.table())
    }
}


/// A deterministic automaton: state `i` has the edges `states[i]`, each a label and a
/// target, in increasing order of label; `accept` lists the accepting states in
/// increasing order.
#[derive(Debug, Clone, PartialEq, Eq)]
pub struct DFA {
    pub start: StateId,
    pub accept: Vec<StateId>,
    pub states: Vec<Vec<(InputSymbol, StateId)>>,
}

/// The labels of a row of DFA edges.
pub open spec fn row_labels(row: Seq<(InputSymbol, StateId)>) -> Seq<SSymbol> {
    Seq::new(row.len(), |k: int| row[k].0@)
}

} // verus!

verus! {

/// State numbers in strictly increasing order: the canonical list of a set of states.
pub open spec fn sorted_ids(s: Seq<StateId>) -> bool {
    forall|i: int, j: int| 0 <= i < j < s.len() ==> (#[trigger] s[i]).0 < (#[trigger] s[j]).0
}

/// The state numbers in a list.
pub open spec fn id_set(s: Seq<StateId>) -> Set<nat> {
    Set::new(|x: nat| exists|i: int| 0 <= i < s.len() && (#[trigger] s[i]).0 == x)
}

/// Whether `x` is in the sorted list `set`.
pub(crate) fn contains_id(set: &Vec<StateId>, x: StateId) -> (r: bool)
    ensures
        r == id_set(set@).contains(x.0 as nat),
{
    let mut i: usize = 0;
    while i < set.len()
        invariant
            i <= set.len(),
            forall|k: int| 0 <= k < i ==> (#[trigger] set@[k]).0 != x.0,
        decreases set.len() - i,
    {
        if set[i].0 == x.0 {
            return true;
        }
        i += 1;
    }
    false
}

/// Adds `x` to the sorted list `set`; says whether it was new.
pub(crate) fn insert_id(set: &mut Vec<StateId>, x: StateId) -> (added: bool)
    requires
        sorted_ids(old(set)@),
    ensures
        sorted_ids(final(set)@),
        id_set(final(set)@) == id_set(old(set)@).insert(x.0 as nat),
        added == !id_set(old(set)@).contains(x.0 as nat),
        final(set)@.len() == old(set)@.len() + if added { 1int } else { 0int },
{
    let mut i: usize = 0;
    while i < set.len() && set[i].0 < x.0
        invariant
            i <= set.len(),
            sorted_ids(set@),
            forall|k: int| 0 <= k < i ==> (#[trigger] set@[k]).0 < x.0,
        decreases set.len() - i,
    {
        i += 1;
    }
    if i < set.len() && set[i].0 == x.0 {
        assert(id_set(set@).insert(x.0 as nat) =~= id_set(set@));
        return false;
    }
    let ghost before = set@;
    assert(!id_set(before).contains(x.0 as nat)) by {
        if id_set(before).contains(x.0 as nat) {
            let k = choose|k: int| 0 <= k < before.len() && (#[trigger] before[k]).0 == x.0;
            if k >= i {
                assert(before[i as int].0 <= before[k].0);
            }
        }
    }
    set.insert(i, x);
    assert(id_set(set@) =~= id_set(before).insert(x.0 as nat)) by {
        assert forall|y: nat| id_set(before).insert(x.0 as nat).contains(y) implies id_set(set@).contains(y) by {
            if y != x.0 {
                let k = choose|k: int| 0 <= k < before.len() && (#[trigger] before[k]).0 == y;
                if k < i {
                    assert(set@[k] == before[k]);
                } else {
                    assert(set@[k + 1] == before[k]);
                }
            } else {
                assert(set@[i as int] == x);
            }
        }
    }
    true
}

/// A sorted list of the states in `states`.
pub(crate) fn sorted_set(states: &Vec<StateId>) -> (r: Vec<StateId>)
    ensures
        sorted_ids(r@),
        id_set(r@) == id_set(states@),
{
    let mut r: Vec<StateId> = Vec::new();
    let mut i: usize = 0;
    assert(id_set(r@) =~= id_set(states@.take(0)));
    while i < states.len()
        invariant
            i <= states.len(),
            sorted_ids(r@),
            id_set(r@) == id_set(states@.take(i as int)),
        decreases states.len() - i,
    {
        insert_id(&mut r, states[i]);
        assert(id_set(states@.take(i + 1)) =~= id_set(states@.take(i as int)).insert(states@[i as int].0 as nat)) by {
            assert forall|y: nat| id_set(states@.take(i + 1)).contains(y) implies id_set(states@.take(i as int)).insert(states@[i as int].0 as nat).contains(y) by {
                let k = choose|k: int| 0 <= k < i + 1 && (#[trigger] states@.take(i + 1)[k]).0 == y;
                if k < i {
                    assert(states@.take(i as int)[k] == states@.take(i + 1)[k]);
                }
            }
            assert forall|y: nat| id_set(states@.take(i as int)).insert(states@[i as int].0 as nat).contains(y) implies id_set(states@.take(i + 1)).contains(y) by {
                if y == states@[i as int].0 {
                    assert(states@.take(i + 1)[i as int] == states@[i as int]);
                } else {
                    let k = choose|k: int| 0 <= k < i && (#[trigger] states@.take(i as int)[k]).0 == y;
                    assert(states@.take(i + 1)[k] == states@.take(i as int)[k]);
                }
            }
        }
        i += 1;
    }
    assert(states@.take(states.len() as int) =~= states@);
    r
}

} // verus!

verus! {

/// A sorted list of states is determined by the set it holds.
pub proof fn lemma_sorted_ids_unique(a: Seq<StateId>, b: Seq<StateId>)
    requires
        sorted_ids(a),
        sorted_ids(b),
        id_set(a) == id_set(b),
    ensures
        a == b,
    decreases a.len(),
{
    if a.len() == 0 {
        if b.len() > 0 {
            assert(id_set(b).contains(b[0].0 as nat));
        }
        assert(a =~= b);
    } else {
        assert(id_set(a).contains(a[0].0 as nat));
        assert(b.len() > 0);
        assert(id_set(b).contains(b[0].0 as nat));
        let p = choose|p: int| 0 <= p < b.len() && (#[trigger] b[p]).0 == a[0].0 as nat;
        let q = choose|q: int| 0 <= q < a.len() && (#[trigger] a[q]).0 == b[0].0 as nat;
        if p > 0 {
            assert(b[0].0 < b[p].0);
        }
        if q > 0 {
            assert(a[0].0 < a[q].0);
        }
        assert(a[0] == b[0]);
        let ra = a.drop_first();
        let rb = b.drop_first();
        assert(id_set(ra) =~= id_set(rb)) by {
            assert forall|y: nat| id_set(ra).contains(y) implies id_set(rb).contains(y) by {
                let k = choose|k: int| 0 <= k < ra.len() && (#[trigger] ra[k]).0 == y;
                assert(a[k + 1] == ra[k]);
                assert(id_set(a).contains(y));
                let m = choose|m: int| 0 <= m < b.len() && (#[trigger] b[m]).0 == y;
                assert(a[0].0 < a[k + 1].0);
                assert(m != 0);
                assert(rb[m - 1] == b[m]);
            }
            assert forall|y: nat| id_set(rb).contains(y) implies id_set(ra).contains(y) by {
                let k = choose|k: int| 0 <= k < rb.len() && (#[trigger] rb[k]).0 == y;
                assert(b[k + 1] == rb[k]);
                assert(id_set(b).contains(y));
                let m = choose|m: int| 0 <= m < a.len() && (#[trigger] a[m]).0 == y;
                assert(b[0].0 < b[k + 1].0);
                assert(m != 0);
                assert(ra[m - 1] == a[m]);
            }
        }
        lemma_sorted_ids_unique(ra, rb);
        assert(a =~= seq![a[0]] + ra);
        assert(b =~= seq![b[0]] + rb);
    }
}

/// Whether two lists of states are the same list.
pub(crate) fn same_ids(a: &Vec<StateId>, b: &Vec<StateId>) -> (r: bool)
    ensures
        r == (a@ == b@),
{
    if a.len() != b.len() {
        return false;
    }
    let mut i: usize = 0;
    while i < a.len()
        invariant
            a.len() == b.len(),
            i <= a.len(),
            forall|k: int| 0 <= k < i ==> a@[k] == b@[k],
        decreases a.len() - i,
    {
        if a[i].0 != b[i].0 {
            assert(a@[i as int] != b@[i as int]);
            return false;
        }
        i += 1;
    }
    assert(a@ =~= b@);
    true
}

/// The position of the list `c` among `sets`, if it is there.
pub(crate) fn find_set(sets: &Vec<Vec<StateId>>, c: &Vec<StateId>) -> (r: Option<usize>)
    ensures
        match r {
            Some(k) => k < sets.len() && sets@[k as int]@ == c@,
            None => forall|k: int| 0 <= k < sets.len() ==> (#[trigger] sets@[k])@ != c@,
        },
{
    let mut k: usize = 0;
    while k < sets.len()
        invariant
            k <= sets.len(),
            forall|m: int| 0 <= m < k ==> (#[trigger] sets@[m])@ != c@,
        decreases sets.len() - k,
    {
        if same_ids(&sets[k], c) {
            return Some(k);
        }
        k += 1;
    }
    None
}

} // verus!

verus! {

/// The label that a non-epsilon edge carries.
pub open spec fn symbol_of(t: STransition) -> Option<SSymbol> {
    match t {
        STransition::Epsilon(_) => None,
        STransition::Char(c, _) => Some(SSymbol::Char(c)),
        STransition::Class(cls, _) => Some(SSymbol::Class(cls)),
        STransition::Any(_) => Some(SSymbol::Any),
    }
}

/// Position of a label's variant in declaration order.
pub open spec fn symbol_rank(a: SSymbol) -> int {
    match a {
        SSymbol::Char(_) => 0,
        SSymbol::Class(_) => 1,
        SSymbol::Any => 2,
    }
}

/// The order of labels: characters by code, then classes, then any character.
pub open spec fn symbol_order(a: SSymbol, b: SSymbol) -> int {
    if symbol_rank(a) != symbol_rank(b) {
        int_order(symbol_rank(a), symbol_rank(b))
    } else {
        match (a, b) {
            (SSymbol::Char(x), SSymbol::Char(y)) => char_order(x, y),
            (SSymbol::Class(x), SSymbol::Class(y)) => class_order(x, y),
            _ => 0,
        }
    }
}

/// Labels compare as equal exactly when they are the same; the order is
/// antisymmetric and transitive.
pub proof fn lemma_symbol_order_laws(a: SSymbol, b: SSymbol, c: SSymbol)
    ensures
        (symbol_order(a, b) == 0) == (a == b),
        symbol_order(a, b) == -symbol_order(b, a),
        symbol_order(a, b) < 0 && symbol_order(b, c) < 0 ==> symbol_order(a, c) < 0,
{
    match (a, b, c) {
        (SSymbol::Char(x), SSymbol::Char(y), _) => {
            assert(x as int == y as int ==> x == y);
        },
        (SSymbol::Class(x), SSymbol::Class(y), SSymbol::Class(z)) => {
            lemma_class_order_zero(x, y);
            lemma_class_order_laws(x, y, z);
        },
        (SSymbol::Class(x), SSymbol::Class(y), _) => {
            lemma_class_order_zero(x, y);
            lemma_class_order_laws(x, y, y);
        },
        _ => {},
    }
}

/// Compares two labels; the result is -1, 0 or 1.
pub(crate) fn order_symbols(a: &InputSymbol, b: &InputSymbol) -> (r: i8)
    ensures
        r == symbol_order(a@, b@),
{
    match (a, b) {
        (InputSymbol::Char(x), InputSymbol::Char(y)) => {
            if *x < *y {
                -1
            } else if *x == *y {
                0
            } else {
                1
            }
        },
        (InputSymbol::Class(x), InputSymbol::Class(y)) => order_classes(x, y),
        (InputSymbol::Any, InputSymbol::Any) => 0,
        (InputSymbol::Char(_), _) => -1,
        (InputSymbol::Any, _) => 1,
        (InputSymbol::Class(_), InputSymbol::Char(_)) => 1,
        (InputSymbol::Class(_), InputSymbol::Any) => -1,
    }
}

pub(crate) fn copy_symbol(a: &InputSymbol) -> (r: InputSymbol)
    ensures
        r@ == a@,
{
    match a {
        InputSymbol::Char(c) => InputSymbol::Char(*c),
        InputSymbol::Class(cls) => InputSymbol::Class(copy_class(cls)),
        InputSymbol::Any => InputSymbol::Any,
    }
}

/// Labels in strictly increasing order.
pub open spec fn sorted_symbols(s: Seq<SSymbol>) -> bool {
    forall|i: int, j: int| 0 <= i < j < s.len() ==> symbol_order(#[trigger] s[i], #[trigger] s[j]) < 0
}

/// The mathematical values of a list of labels.
pub open spec fn symbols_view(s: Seq<InputSymbol>) -> Seq<SSymbol> {
    Seq::new(s.len(), |i: int| s[i]@)
}

/// The states that a `a`-labelled edge leads to from a state of `s`.
pub open spec fn move_on(t: Seq<Seq<STransition>>, s: Set<nat>, a: SSymbol) -> Set<nat> {
    Set::new(|y: nat| exists|x: int, j: int| 0 <= x < t.len() && 0 <= j < t[x].len() && s.contains(x as nat)
        && symbol_of(#[trigger] t[x][j]) == Some(a) && target_of(t[x][j]) == y)
}

} // verus!
