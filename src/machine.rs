use vstd::prelude::*;
use crate::ast::Node;
use crate::cfg::{
    Instr, Terminator, Routine, TAPE_LEN, lowered, emit_seq, emit_node, empty_block, targets_in,
};

verus! {

/// One call of a runtime primitive, with the byte that crossed it.
#[derive(Debug, Clone, Copy, PartialEq, Eq, Structural)]
pub enum Event {
    Input(u8),
    Output(u8),
}

/// Why execution stopped.
#[derive(Debug, Clone, Copy, PartialEq, Eq, Structural)]
pub enum Halt {
    /// The routine reached its return.
    Returned,
    /// The step budget ran out first.
    OutOfFuel,
    /// The pointer would have left the tape.
    PointerOutOfRange,
    /// The input primitive was called with no byte left.
    InputExhausted,
    /// A branch named a block that does not exist.
    BadBlock,
}

/// What a run leaves behind.
#[derive(Debug, PartialEq, Eq)]
pub struct Outcome {
    pub halt: Halt,
    pub tape: Vec<u8>,
    pub ptr: usize,
    pub trace: Vec<Event>,
}

/// Abstract machine state: tape, pointer, input bytes consumed, calls made, and the
/// block about to run.
pub ghost struct State {
    pub tape: Seq<u8>,
    pub ptr: int,
    pub consumed: int,
    pub trace: Seq<Event>,
    pub block: int,
}

/// Tape, pointer and block at program start; nothing consumed or called.
pub open spec fn initial() -> State {
    State {
        tape: Seq::new(TAPE_LEN as nat, |i: int| 0u8),
        ptr: 0,
        consumed: 0,
        trace: Seq::empty(),
        block: 0,
    }
}

/// The pointer selects a cell of the tape.
pub open spec fn in_range(s: State) -> bool {
    s.tape.len() == TAPE_LEN && 0 <= s.ptr < TAPE_LEN && 0 <= s.consumed
}

/// The current cell.
pub open spec fn cur(s: State) -> u8 {
    s.tape[s.ptr]
}

/// `s` with the current cell set to `v`.
pub open spec fn with_cur(s: State, v: u8) -> State {
    State { tape: s.tape.update(s.ptr, v), ..s }
}

/// One instruction: the next state, or why it cannot run.
pub open spec fn step(s: State, i: Instr, input: Seq<u8>) -> Result<State, Halt> {
    match i {
        Instr::PtrDec => if s.ptr == 0 {
            Err(Halt::PointerOutOfRange)
        } else {
            Ok(State { ptr: s.ptr - 1, ..s })
        },
        Instr::PtrInc => if s.ptr + 1 >= TAPE_LEN {
            Err(Halt::PointerOutOfRange)
        } else {
            Ok(State { ptr: s.ptr + 1, ..s })
        },
        Instr::CellInc => Ok(with_cur(s, ((cur(s) + 1) % 256) as u8)),
        Instr::CellDec => Ok(with_cur(s, ((cur(s) + 255) % 256) as u8)),
        Instr::Output => Ok(State { trace: s.trace.push(Event::Output(cur(s))), ..s }),
        Instr::Input => if s.consumed >= input.len() {
            Err(Halt::InputExhausted)
        } else {
            let b = input[s.consumed];
            Ok(
                State {
                    trace: with_cur(s, b).trace.push(Event::Input(b)),
                    consumed: s.consumed + 1,
                    ..with_cur(s, b)
                },
            )
        },
    }
}

/// Runs a block's instructions in order; stops at the first that cannot run, with the
/// state before it.
pub open spec fn run_instrs(s: State, code: Seq<Instr>, input: Seq<u8>) -> (Option<Halt>, State)
    decreases code.len(),
{
    if code.len() == 0 {
        (None, s)
    } else {
        let (h, t) = run_instrs(s, code.drop_last(), input);
        if h is Some {
            (h, t)
        } else {
            match step(t, code.last(), input) {
                Ok(u) => (None, u),
                Err(e) => (Some(e), t),
            }
        }
    }
}

/// Runs the routine's blocks from `s`, at most `fuel` of them.
pub open spec fn run_from(g: Seq<(Seq<Instr>, Terminator)>, s: State, input: Seq<u8>, fuel: nat) -> (
    Halt,
    State,
)
    decreases fuel,
{
    if fuel == 0 {
        (Halt::OutOfFuel, s)
    } else if !(0 <= s.block < g.len()) {
        (Halt::BadBlock, s)
    } else {
        let (h, t) = run_instrs(s, g[s.block].0, input);
        if h is Some {
            (h.unwrap(), t)
        } else {
            match g[s.block].1 {
                Terminator::Return => (Halt::Returned, t),
                Terminator::Branch { nonzero, zero } => {
                    let next = if cur(t) != 0 {
                        nonzero as int
                    } else {
                        zero as int
                    };
                    run_from(g, State { block: next, ..t }, input, (fuel - 1) as nat)
                },
            }
        }
    }
}

/// Once a block's run has stopped on an instruction, the instructions after it change
/// nothing.
proof fn lemma_halt_sticks(s: State, code: Seq<Instr>, input: Seq<u8>, j: int)
    requires
        0 <= j <= code.len(),
        run_instrs(s, code.subrange(0, j), input).0 is Some,
    ensures
        run_instrs(s, code, input) == run_instrs(s, code.subrange(0, j), input),
    decreases code.len() - j,
{
    if j < code.len() {
        let k = code.len() - 1;
        assert(code.drop_last() == code.subrange(0, k));
        if j < k {
            assert(code.subrange(0, k).subrange(0, j) == code.subrange(0, j));
            lemma_halt_sticks(s, code.subrange(0, k), input, j);
        } else {
            assert(code.subrange(0, j) == code.subrange(0, k));
        }
    } else {
        assert(code.subrange(0, j) == code);
    }
}

/// The executing machine: tape, pointer, input consumed, calls made, current block.
pub struct Machine {
    pub tape: Vec<u8>,
    pub ptr: usize,
    pub consumed: usize,
    pub trace: Vec<Event>,
    pub block: usize,
}

impl View for Machine {
    type V = State;

    open spec fn view(&self) -> State {
        State {
            tape: self.tape@,
            ptr: self.ptr as int,
            consumed: self.consumed as int,
            trace: self.trace@,
            block: self.block as int,
        }
    }
}

/// Performs one instruction on the machine, or reports why it cannot run and leaves
/// the machine as it was.
fn exec_instr(m: &mut Machine, i: Instr, input: &[u8]) -> (h: Option<Halt>)
    requires
        in_range(old(m)@),
        old(m).consumed <= input@.len(),
    ensures
        in_range(final(m)@),
        final(m).consumed <= input@.len(),
        match step(old(m)@, i, input@) {
            Ok(t) => h is None && final(m)@ == t,
            Err(e) => h == Some(e) && final(m)@ == old(m)@,
        },
{
    let p = m.ptr;
    match i {
        Instr::PtrDec => {
            if p == 0 {
                return Some(Halt::PointerOutOfRange);
            }
            m.ptr = p - 1;
        },
        Instr::PtrInc => {
            if p + 1 >= TAPE_LEN {
                return Some(Halt::PointerOutOfRange);
            }
            m.ptr = p + 1;
        },
        Instr::CellInc => {
            let v = m.tape[p];
            m.tape.set(p, if v == 255 { 0 } else { v + 1 });
        },
        Instr::CellDec => {
            let v = m.tape[p];
            m.tape.set(p, if v == 0 { 255 } else { v - 1 });
        },
        Instr::Output => {
            let v = m.tape[p];
            m.trace.push(Event::Output(v));
        },
        Instr::Input => {
            if m.consumed >= input.len() {
                return Some(Halt::InputExhausted);
            }
            let b = input[m.consumed];
            m.tape.set(p, b);
            m.trace.push(Event::Input(b));
            m.consumed = m.consumed + 1;
        },
    }
    None
}

/// Runs a block's instructions on the machine.
fn exec_block(m: &mut Machine, code: &Vec<Instr>, input: &[u8]) -> (h: Option<Halt>)
    requires
        in_range(old(m)@),
        old(m).consumed <= input@.len(),
    ensures
        in_range(final(m)@),
        final(m).consumed <= input@.len(),
        (h, final(m)@) == run_instrs(old(m)@, code@, input@),
{
    let ghost s0 = m@;
    let mut j: usize = 0;
    assert(code@.subrange(0, 0).len() == 0);
    while j < code.len()
        invariant
            s0 == old(m)@,
            j <= code@.len(),
            in_range(m@),
            m.consumed <= input@.len(),
            (None::<Halt>, m@) == run_instrs(s0, code@.subrange(0, j as int), input@),
        decreases code@.len() - j,
    {
        let ghost before = m@;
        let h = exec_instr(m, code[j], input);
        proof {
            let c = code@.subrange(0, j + 1);
            assert(c.drop_last() == code@.subrange(0, j as int));
            assert(c.last() == code@[j as int]);
            assert(run_instrs(s0, c, input@) == match step(before, code@[j as int], input@) {
                Ok(u) => (None, u),
                Err(e) => (Some(e), before),
            });
        }
        if h.is_some() {
            proof {
                let c = code@.subrange(0, j + 1);
                assert(run_instrs(s0, c, input@) == (h, m@));
                lemma_halt_sticks(s0, code@, input@, j + 1);
            }
            return h;
        }
        j = j + 1;
    }
    assert(code@.subrange(0, code@.len() as int) == code@);
    None
}

/// Runs a generated routine on a zeroed tape, feeding the input primitive from
/// `input` and running at most `fuel` blocks. Reports how it stopped, the tape and
/// pointer at that point, and every call of the two primitives in order.
pub fn run(routine: &Routine, input: &[u8], fuel: u64) -> (r: Outcome)
    ensures
        ({
            let (h, s) = run_from(routine@, initial(), input@, fuel as nat);
            &&& r.halt == h
            &&& r.tape@ == s.tape
            &&& r.ptr == s.ptr
            &&& r.trace@ == s.trace
        }),
{
    let mut tape: Vec<u8> = Vec::new();
    let mut k: usize = 0;
    while k < TAPE_LEN
        invariant
            k <= TAPE_LEN,
            tape@ == Seq::new(k as nat, |i: int| 0u8),
        decreases TAPE_LEN - k,
    {
        tape.push(0);
        k = k + 1;
        assert(tape@ =~= Seq::new(k as nat, |i: int| 0u8));
    }
    let mut m = Machine { tape, ptr: 0, consumed: 0, trace: Vec::new(), block: 0 };
    assert(m@ =~= initial());
    let mut f: u64 = fuel;
    let ghost g = routine@;
    loop
        invariant
            g == routine@,
            in_range(m@),
            m.consumed <= input@.len(),
            run_from(g, initial(), input@, fuel as nat) == run_from(g, m@, input@, f as nat),
        decreases f,
    {
        if f == 0 {
            return Outcome { halt: Halt::OutOfFuel, tape: m.tape, ptr: m.ptr, trace: m.trace };
        }
        if m.block >= routine.blocks.len() {
            return Outcome { halt: Halt::BadBlock, tape: m.tape, ptr: m.ptr, trace: m.trace };
        }
        let b = m.block;
        let ghost before = m@;
        let h = exec_block(&mut m, &routine.blocks[b].instrs, input);
        assert(routine.blocks@[b as int].instrs@ == g[b as int].0);
        if let Some(e) = h {
            return Outcome { halt: e, tape: m.tape, ptr: m.ptr, trace: m.trace };
        }
        match routine.blocks[b].term {
            Terminator::Return => {
                return Outcome { halt: Halt::Returned, tape: m.tape, ptr: m.ptr, trace: m.trace };
            },
            Terminator::Branch { nonzero, zero } => {
                let v = m.tape[m.ptr];
                m.block = if v != 0 { nonzero } else { zero };
                f = f - 1;
            },
        }
    }
}

/// The blocks generated for the program `[-]`.
proof fn lemma_clear_loop_blocks(c: Vec<Node>)
    requires
        c@ == seq![Node::Sub],
    ensures
        ({
            let test = Terminator::Branch { nonzero: 1, zero: 2 };
            lowered(seq![Node::Loop(c)]) == seq![
                (Seq::<Instr>::empty(), test),
                (seq![Instr::CellDec], test),
                (Seq::<Instr>::empty(), Terminator::Return),
            ]
        }),
{
    let test = Terminator::Branch { nonzero: 1, zero: 2 };
    let st0: (Seq<(Seq<Instr>, Terminator)>, int, Seq<Instr>) = (
        seq![empty_block()],
        0,
        Seq::empty(),
    );
    let p = seq![Node::Loop(c)];
    assert(p.subrange(0, 0) =~= Seq::<Node>::empty());
    assert(emit_seq(st0, Seq::<Node>::empty()) == st0);
    assert(p[0] == Node::Loop(c));
    assert(emit_seq(st0, p) == emit_node(st0, Node::Loop(c)));
    let opened = st0.0.update(0, (Seq::<Instr>::empty(), test)).push(empty_block()).push(
        empty_block(),
    );
    assert(c@.subrange(0, 0) =~= Seq::<Node>::empty());
    assert(emit_seq((opened, 1, Seq::empty()), Seq::<Node>::empty()) == (opened, 1int, Seq::<Instr>::empty()));
    assert(emit_seq((opened, 1, Seq::empty()), c@) == emit_node(
        (opened, 1, Seq::empty()),
        Node::Sub,
    ));
    assert(Seq::<Instr>::empty().push(Instr::CellDec) =~= seq![Instr::CellDec]);
    assert(lowered(p) =~= seq![
        (Seq::<Instr>::empty(), test),
        (seq![Instr::CellDec], test),
        (Seq::<Instr>::empty(), Terminator::Return),
    ]);
}

/// The body block of `[-]`, entered with the current cell at `k`, runs until that cell
/// is zero and then returns.
proof fn lemma_clear_loop_body(
    g: Seq<(Seq<Instr>, Terminator)>,
    t: State,
    input: Seq<u8>,
    fuel: nat,
)
    requires
        g == seq![
            (Seq::<Instr>::empty(), Terminator::Branch { nonzero: 1, zero: 2 }),
            (seq![Instr::CellDec], Terminator::Branch { nonzero: 1, zero: 2 }),
            (Seq::<Instr>::empty(), Terminator::Return),
        ],
        in_range(t),
        t.block == 1,
        cur(t) != 0,
        fuel >= cur(t) + 1,
    ensures
        run_from(g, t, input, fuel) == (Halt::Returned, State { block: 2, ..with_cur(t, 0) }),
    decreases cur(t),
{
    let code = seq![Instr::CellDec];
    let u = with_cur(t, ((cur(t) + 255) % 256) as u8);
    assert(code.drop_last() =~= Seq::<Instr>::empty());
    assert(run_instrs(t, Seq::<Instr>::empty(), input) == (None::<Halt>, t));
    assert(step(t, Instr::CellDec, input) == Ok::<State, Halt>(u));
    assert(run_instrs(t, code, input) == (None::<Halt>, u));
    assert(cur(u) == cur(t) - 1);
    assert(g[1].0 == code);
    let goal = State { block: 2, ..with_cur(t, 0) };
    if cur(u) != 0 {
        let next = State { block: 1, ..u };
        assert(run_from(g, t, input, fuel) == run_from(g, next, input, (fuel - 1) as nat));
        lemma_clear_loop_body(g, next, input, (fuel - 1) as nat);
        assert(with_cur(next, 0).tape =~= with_cur(t, 0).tape);
        assert(State { block: 2, ..with_cur(next, 0) } == goal);
    } else {
        let next = State { block: 2, ..u };
        assert(run_from(g, t, input, fuel) == run_from(g, next, input, (fuel - 1) as nat));
        assert(g[2].0 == Seq::<Instr>::empty());
        assert(run_instrs(next, Seq::<Instr>::empty(), input) == (None::<Halt>, next));
        assert(next.tape =~= goal.tape);
        assert(next == goal);
    }
}

/// The program `[-]` clears a nonzero current cell: started with that cell at `v`, the
/// generated routine returns after `v + 2` block runs with that cell at zero and the
/// rest of the state unchanged.
pub proof fn lemma_clear_loop_zeroes_cell(c: Vec<Node>, s: State, input: Seq<u8>, fuel: nat)
    requires
        c@ == seq![Node::Sub],
        in_range(s),
        s.block == 0,
        cur(s) != 0,
        fuel >= cur(s) + 2,
    ensures
        run_from(lowered(seq![Node::Loop(c)]), s, input, fuel) == (
            Halt::Returned,
            State { block: 2, ..with_cur(s, 0) },
        ),
{
    lemma_clear_loop_blocks(c);
    let g = lowered(seq![Node::Loop(c)]);
    assert(run_instrs(s, Seq::<Instr>::empty(), input) == (None::<Halt>, s));
    let next = State { block: 1, ..s };
    lemma_clear_loop_body(g, next, input, (fuel - 1) as nat);
    assert(with_cur(next, 0).tape =~= with_cur(s, 0).tape);
}

/// A routine whose branches all name its blocks never stops on a missing block.
pub proof fn lemma_no_bad_block(
    g: Seq<(Seq<Instr>, Terminator)>,
    s: State,
    input: Seq<u8>,
    fuel: nat,
)
    requires
        targets_in(g),
        0 <= s.block < g.len(),
    ensures
        run_from(g, s, input, fuel).0 != Halt::BadBlock,
    decreases fuel,
{
    if fuel > 0 {
        let (h, t) = run_instrs(s, g[s.block].0, input);
        if h is None {
            if let Terminator::Branch { nonzero, zero } = g[s.block].1 {
                let next = if cur(t) != 0 {
                    nonzero as int
                } else {
                    zero as int
                };
                lemma_no_bad_block(g, State { block: next, ..t }, input, (fuel - 1) as nat);
            }
        } else {
            lemma_instrs_never_bad_block(s, g[s.block].0, input);
        }
    }
}

/// Instructions stop only on the pointer or the input, never on a block.
proof fn lemma_instrs_never_bad_block(s: State, code: Seq<Instr>, input: Seq<u8>)
    ensures
        run_instrs(s, code, input).0 != Some(Halt::BadBlock),
    decreases code.len(),
{
    if code.len() > 0 {
        lemma_instrs_never_bad_block(s, code.drop_last(), input);
    }
}

} // verus!
