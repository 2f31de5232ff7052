//! The DOT (Graphviz) and bytecode forms of a DFA.
use vstd::prelude::*;
use crate::ast::{CharClass, SClass};
use crate::dfa::{DFA, StateId, InputSymbol, SSymbol, BytecodeInstr, SInstr, instrs_view, contains_id};
use crate::text::{push_char, push_str, push_decimal, decimal};

verus! {

/// The label that the DOT form prints for an edge: characters that would break the
/// quoted label are escaped, classes print in their short form.
pub open spec fn spec_symbol_label(a: SSymbol) -> Seq<char> {
    match a {
        SSymbol::Char(c) => {
            if c == '\n' {
                seq!['\\', 'n']
            } else if c == '\r' {
                seq!['\\', 'r']
            } else if c == '\t' {
                seq!['\\', 't']
            } else if c == '"' {
                seq!['\\', '"']
            } else if c == '\\' {
                seq!['\\', '\\']
            } else {
                seq![c]
            }
        },
        SSymbol::Class(cls) => match cls {
            SClass::Digit => seq!['\\', 'd'],
            SClass::Word => seq!['\\', 'w'],
            SClass::Whitespace => seq!['\\', 's'],
            SClass::NegatedDigit => seq!['\\', 'D'],
            SClass::NegatedWord => seq!['\\', 'W'],
            SClass::NegatedWhitespace => seq!['\\', 'S'],
            SClass::Any => seq!['.'],
            SClass::Range(a, b) => seq!['[', a, '-', b, ']'],
            SClass::Literal(c) => seq![c],
            SClass::Class(_) => seq!['[', '.', '.', '.', ']'],
            SClass::NegatedClass(_) => seq!['[', '^', '.', '.', '.', ']'],
        },
        SSymbol::Any => seq!['.'],
    }
}

/// The line that marks state `i` as accepting.
pub open spec fn dot_accept_line(i: nat) -> Seq<char> {
    "  s"@ + decimal(i) + " [shape=doublecircle];\n"@
}

/// The lines for the accepting states among the first `n`.
pub open spec fn dot_accept_lines(d: DFA, n: nat) -> Seq<char>
    decreases n,
{
    if n == 0 {
        Seq::empty()
    } else {
        dot_accept_lines(d, (n - 1) as nat) + if d.accepts((n - 1) as nat) { dot_accept_line((n - 1) as nat) } else { Seq::empty() }
    }
}

/// The line for one edge.
pub open spec fn dot_edge_line(from: nat, e: (InputSymbol, StateId)) -> Seq<char> {
    "  s"@ + decimal(from) + " -> s"@ + decimal(e.1.0 as nat) + " [label=\""@ + spec_symbol_label(e.0@) + "\"];\n"@
}

/// The lines for the edges of one state.
pub open spec fn dot_row_lines(from: nat, row: Seq<(InputSymbol, StateId)>) -> Seq<char>
    decreases row.len(),
{
    if row.len() == 0 {
        Seq::empty()
    } else {
        dot_row_lines(from, row.drop_last()) + dot_edge_line(from, row.last())
    }
}

/// The lines for the edges of the first `n` states.
pub open spec fn dot_edges(d: DFA, n: nat) -> Seq<char>
    decreases n,
{
    if n == 0 {
        Seq::empty()
    } else {
        dot_edges(d, (n - 1) as nat) + dot_row_lines((n - 1) as nat, d.states@[n - 1]@)
    }
}

/// The DOT form of a DFA.
pub open spec fn spec_dot(d: DFA) -> Seq<char> {
    "digraph DFA {\n"@ + "  rankdir=LR;\n"@ + "  node [shape=circle];\n"@ + "  start [shape=plaintext, label=\"\"];\n"@
        + "  start -> s"@ + decimal(d.start.0 as nat) + ";\n"@
        + dot_accept_lines(d, d.states.len() as nat) + dot_edges(d, d.states.len() as nat) + "}\n"@
}

/// The instructions for one edge.
pub open spec fn edge_instr(e: (InputSymbol, StateId)) -> SInstr {
    match e.0@ {
        SSymbol::Char(c) => SInstr::MatchChar(c, e.1.0 as nat),
        SSymbol::Class(cls) => SInstr::MatchClass(cls, e.1.0 as nat),
        SSymbol::Any => SInstr::MatchAny(e.1.0 as nat),
    }
}

/// The instructions for the edges of one state.
pub open spec fn row_instrs(row: Seq<(InputSymbol, StateId)>) -> Seq<SInstr>
    decreases row.len(),
{
    if row.len() == 0 {
        Seq::empty()
    } else {
        row_instrs(row.drop_last()).push(edge_instr(row.last()))
    }
}

/// The instructions for the first `n` states: for each, `Accept` if it accepts, its
/// edges, then `Fail`.
pub open spec fn state_instrs(d: DFA, n: nat) -> Seq<SInstr>
    decreases n,
{
    if n == 0 {
        Seq::empty()
    } else {
        let i = (n - 1) as nat;
        state_instrs(d, i) + (if d.accepts(i) { seq![SInstr::Accept] } else { Seq::empty() })
            + row_instrs(d.states@[i as int]@) + seq![SInstr::Fail]
    }
}

/// The bytecode form of a DFA: `Start`, then the instructions of each state in order;
/// a state's number is also the number an edge to it carries.
pub open spec fn spec_bytecode(d: DFA) -> Seq<SInstr> {
    seq![SInstr::Start] + state_instrs(d, d.states.len() as nat)
}

/// Appends the DOT label of an edge.
fn write_label(out: &mut String, a: &InputSymbol)
    ensures
        final(out)@ == old(out)@ + spec_symbol_label(a@),
{
    match a {
        InputSymbol::Char(c) => {
            if *c == '\n' {
                push_char(out, '\\');
                push_char(out, 'n');
            } else if *c == '\r' {
                push_char(out, '\\');
                push_char(out, 'r');
            } else if *c == '\t' {
                push_char(out, '\\');
                push_char(out, 't');
            } else if *c == '"' {
                push_char(out, '\\');
                push_char(out, '"');
            } else if *c == '\\' {
                push_char(out, '\\');
                push_char(out, '\\');
            } else {
                push_char(out, *c);
            }
        },
        InputSymbol::Class(cls) => match cls {
            CharClass::Digit => {
                push_char(out, '\\');
                push_char(out, 'd');
            },
            CharClass::Word => {
                push_char(out, '\\');
                push_char(out, 'w');
            },
            CharClass::Whitespace => {
                push_char(out, '\\');
                push_char(out, 's');
            },
            CharClass::NegatedDigit => {
                push_char(out, '\\');
                push_char(out, 'D');
            },
            CharClass::NegatedWord => {
                push_char(out, '\\');
                push_char(out, 'W');
            },
            CharClass::NegatedWhitespace => {
                push_char(out, '\\');
                push_char(out, 'S');
            },
            CharClass::Any => push_char(out, '.'),
            CharClass::Range(lo, hi) => {
                push_char(out, '[');
                push_char(out, *lo);
                push_char(out, '-');
                push_char(out, *hi);
                push_char(out, ']');
            },
            CharClass::Literal(c) => push_char(out, *c),
            CharClass::Class(_) => {
                push_char(out, '[');
                push_char(out, '.');
                push_char(out, '.');
                push_char(out, '.');
                push_char(out, ']');
            },
            CharClass::NegatedClass(_) => {
                push_char(out, '[');
                push_char(out, '^');
                push_char(out, '.');
                push_char(out, '.');
                push_char(out, '.');
                push_char(out, ']');
            },
        },
        InputSymbol::Any => push_char(out, '.'),
    }
    assert(final(out)@ =~= old(out)@ + spec_symbol_label(a@));
}

impl DFA {
    /// The label that the DOT form prints for an edge.
    fn symbol_to_label(&self, symbol: &InputSymbol) -> (r: String)
        ensures
            r@ == spec_symbol_label(symbol@),
    {
        let mut r = String::new();
        write_label(&mut r, symbol);
        r
    }

    /// The DOT (Graphviz) form: a start arrow, a double circle for each accepting
    /// state that has a row, and one labelled arrow per edge.
    pub fn to_dot(&self) -> (dot: String)
        ensures
            dot@ == spec_dot(*self),
    {
        let ghost d = *self;
        let mut dot = String::new();
        push_str(&mut dot, "digraph DFA {\n");
        push_str(&mut dot, "  rankdir=LR;\n");
        push_str(&mut dot, "  node [shape=circle];\n");
        push_str(&mut dot, "  start [shape=plaintext, label=\"\"];\n");
        push_str(&mut dot, "  start -> s");
        push_decimal(&mut dot, self.start.0 as u64);
        push_str(&mut dot, ";\n");
        let ghost head = dot@;
        let mut i: usize = 0;
        while i < self.states.len()
            invariant
                d == *self,
                i <= self.states.len(),
                dot@ == head + dot_accept_lines(d, i as nat),
            decreases self.states.len() - i,
        {
            if contains_id(&self.accept, StateId(i)) {
                push_str(&mut dot, "  s");
                push_decimal(&mut dot, i as u64);
                push_str(&mut dot, " [shape=doublecircle];\n");
            }
            assert(dot@ =~= head + dot_accept_lines(d, (i + 1) as nat));
            i += 1;
        }
        let ghost mid = dot@;
        let mut from: usize = 0;
        assert(mid =~= mid + dot_edges(d, 0));
        while from < self.states.len()
            invariant
                d == *self,
                from <= self.states.len(),
                dot@ == mid + dot_edges(d, from as nat),
            decreases self.states.len() - from,
        {
            let row = &self.states[from];
            let ghost before_row = dot@;
            let mut k: usize = 0;
            assert(row@.take(0) =~= Seq::<(InputSymbol, StateId)>::empty());
            while k < row.len()
                invariant
                    row == &self.states@[from as int],
                    k <= row@.len(),
                    dot@ == before_row + dot_row_lines(from as nat, row@.take(k as int)),
                decreases row@.len() - k,
            {
                let e = &row[k];
                let label = self.symbol_to_label(&e.0);
                push_str(&mut dot, "  s");
                push_decimal(&mut dot, from as u64);
                push_str(&mut dot, " -> s");
                push_decimal(&mut dot, e.1.0 as u64);
                push_str(&mut dot, " [label=\"");
                push_str(&mut dot, label.as_str());
                push_str(&mut dot, "\"];\n");
                assert(row@.take(k + 1).drop_last() =~= row@.take(k as int));
                assert(dot@ =~= before_row + dot_row_lines(from as nat, row@.take(k + 1)));
                k += 1;
            }
            assert(row@.take(row@.len() as int) =~= row@);
            assert(dot@ =~= mid + dot_edges(d, (from + 1) as nat));
            from += 1;
        }
        push_str(&mut dot, "}\n");
        assert(dot@ =~= spec_dot(d));
        dot
    }
}

/// The values of a list with one more instruction.
proof fn lemma_instrs_view_push(v: Seq<BytecodeInstr>, x: BytecodeInstr)
    ensures
        instrs_view(v.push(x)) == instrs_view(v).push(x@),
{
    assert(v.push(x).drop_last() =~= v);
}

impl DFA {
    /// Every edge leads to a state that has a row.
    pub open spec fn targets_in_rows(&self) -> bool {
        forall|i: int, k: int| 0 <= i < self.states.len() && 0 <= k < self.states@[i]@.len()
            ==> (#[trigger] self.states@[i]@[k]).1.0 < self.states.len()
    }

    /// The bytecode form: `Start`, then for each state `Accept` if it accepts, one match
    /// instruction per edge (carrying the target's number) and `Fail`.
    pub fn to_bytecode(&self) -> (bytecode: Vec<BytecodeInstr>)
        requires
            self.targets_in_rows(),
        ensures
            instrs_view(bytecode@) == spec_bytecode(*self),
    {
        let ghost d = *self;
        let mut bytecode: Vec<BytecodeInstr> = Vec::new();
        let ghost empty = bytecode@;
        bytecode.push(BytecodeInstr::Start);
        proof {
            lemma_instrs_view_push(empty, BytecodeInstr::Start);
            assert(instrs_view(empty) =~= Seq::<SInstr>::empty());
        }
        let mut i: usize = 0;
        assert(instrs_view(bytecode@) =~= seq![SInstr::Start] + state_instrs(d, 0));
        while i < self.states.len()
            invariant
                d == *self,
                i <= self.states.len(),
                instrs_view(bytecode@) == seq![SInstr::Start] + state_instrs(d, i as nat),
            decreases self.states.len() - i,
        {
            let ghost before = instrs_view(bytecode@);
            if contains_id(&self.accept, StateId(i)) {
                let ghost b = bytecode@;
                bytecode.push(BytecodeInstr::Accept);
                proof {
                    lemma_instrs_view_push(b, BytecodeInstr::Accept);
                }
            }
            let ghost after_accept = instrs_view(bytecode@);
            assert(after_accept =~= before + (if d.accepts(i as nat) { seq![SInstr::Accept] } else { Seq::empty() }));
            let row = &self.states[i];
            let mut k: usize = 0;
            assert(after_accept =~= after_accept + row_instrs(row@.take(0)));
            while k < row.len()
                invariant
                    d == *self,
                    i < self.states.len(),
                    row == &self.states@[i as int],
                    k <= row@.len(),
                    instrs_view(bytecode@) == after_accept + row_instrs(row@.take(k as int)),
                decreases row@.len() - k,
            {
                let e = &row[k];
                let ghost b = bytecode@;
                let target = e.1.0;
                let instr = match &e.0 {
                    InputSymbol::Char(c) => BytecodeInstr::MatchChar(*c, target),
                    InputSymbol::Class(cls) => BytecodeInstr::MatchClass(crate::ast::copy_class(cls), target),
                    InputSymbol::Any => BytecodeInstr::MatchAny(target),
                };
                assert(instr@ == edge_instr(row@[k as int]));
                bytecode.push(instr);
                proof {
                    lemma_instrs_view_push(b, instr);
                    assert(row@.take(k + 1).drop_last() =~= row@.take(k as int));
                    assert(instrs_view(bytecode@) =~= after_accept + row_instrs(row@.take(k + 1)));
                }
                k += 1;
            }
            let ghost b = bytecode@;
            bytecode.push(BytecodeInstr::Fail);
            proof {
                lemma_instrs_view_push(b, BytecodeInstr::Fail);
                assert(row@.take(row@.len() as int) =~= row@);
                assert(instrs_view(bytecode@) =~= seq![SInstr::Start] + state_instrs(d, (i + 1) as nat));
            }
            i += 1;
        }
        bytecode
    }
}

} // verus!
