use vstd::prelude::*;
use crate::ast::{Node, flatten, flatten_node};

verus! {

/// Number of cells of the tape that a generated routine allocates.
pub const TAPE_LEN: usize = 30000;

/// A straight-line instruction of a basic block.
#[derive(Debug, Clone, Copy, PartialEq, Eq, Structural)]
pub enum Instr {
    /// pointer <- pointer - 1
    PtrDec,
    /// pointer <- pointer + 1
    PtrInc,
    /// cell <- cell + 1, modulo 256
    CellInc,
    /// cell <- cell - 1, modulo 256
    CellDec,
    /// call the output primitive with the current cell
    Output,
    /// store the result of the input primitive into the current cell
    Input,
}

/// How a basic block ends.
#[derive(Debug, Clone, Copy, PartialEq, Eq, Structural)]
pub enum Terminator {
    /// Re-read the current cell; go to `nonzero` if it is not zero, else to `zero`.
    Branch { nonzero: usize, zero: usize },
    /// Leave the routine.
    Return,
}

/// A basic block: instructions followed by one terminator.
#[derive(Debug, PartialEq, Eq)]
pub struct Block {
    pub instrs: Vec<Instr>,
    pub term: Terminator,
}

/// The generated entry routine; block 0 is its entry.
#[derive(Debug, PartialEq, Eq)]
pub struct Routine {
    pub blocks: Vec<Block>,
}

impl View for Block {
    type V = (Seq<Instr>, Terminator);

    open spec fn view(&self) -> (Seq<Instr>, Terminator) {
        (self.instrs@, self.term)
    }
}

/// The abstract contents of a list of blocks.
pub open spec fn blocks_view(v: Seq<Block>) -> Seq<(Seq<Instr>, Terminator)> {
    v.map_values(|b: Block| b@)
}

impl View for Routine {
    type V = Seq<(Seq<Instr>, Terminator)>;

    open spec fn view(&self) -> Seq<(Seq<Instr>, Terminator)> {
        blocks_view(self.blocks@)
    }
}

/// Lowering state: the blocks so far, the block being filled, and its instructions.
pub type Emit = (Seq<(Seq<Instr>, Terminator)>, int, Seq<Instr>);

/// The instruction of a non-loop node.
pub open spec fn instr_of(n: Node) -> Instr {
    match n {
        Node::Left => Instr::PtrDec,
        Node::Right => Instr::PtrInc,
        Node::Add => Instr::CellInc,
        Node::Sub => Instr::CellDec,
        Node::Write => Instr::Output,
        _ => Instr::Input,
    }
}

/// A fresh block, not yet filled.
pub open spec fn empty_block() -> (Seq<Instr>, Terminator) {
    (Seq::empty(), Terminator::Return)
}

/// Lowers one node. A leaf adds its instruction to the open block. A loop closes the
/// open block with a test of the current cell that enters a new body block or skips
/// to a new exit block; the body ends with the same test, so the loop runs while the
/// cell is nonzero, and lowering goes on in the exit block.
pub open spec fn emit_node(st: Emit, n: Node) -> Emit
    decreases n,
{
    match n {
        Node::Loop(c) => {
            let body = st.0.len() as int;
            let test = Terminator::Branch { nonzero: body as usize, zero: (body + 1) as usize };
            let opened = st.0.update(st.1, (st.2, test)).push(empty_block()).push(empty_block());
            let inner = emit_seq((opened, body, Seq::empty()), c@);
            (inner.0.update(inner.1, (inner.2, test)), body + 1, Seq::empty())
        },
        _ => (st.0, st.1, st.2.push(instr_of(n))),
    }
}

/// Lowers a sequence of nodes in order.
pub open spec fn emit_seq(st: Emit, p: Seq<Node>) -> Emit
    decreases p,
{
    if p.len() == 0 {
        st
    } else {
        emit_node(emit_seq(st, p.subrange(0, p.len() - 1)), p[p.len() - 1])
    }
}

/// The blocks of the routine generated for a program: one entry block, lowered nodes,
/// and a return at the end of the last open block.
pub open spec fn lowered(p: Seq<Node>) -> Seq<(Seq<Instr>, Terminator)> {
    let f = emit_seq((seq![empty_block()], 0, Seq::empty()), p);
    f.0.update(f.1, (f.2, Terminator::Return))
}

/// Number of loops of a node, nested ones included.
pub open spec fn node_loops(n: Node) -> nat
    decreases n,
{
    match n {
        Node::Loop(c) => 1 + loop_count(c@),
        _ => 0,
    }
}

/// Number of loops of a program, nested ones included.
pub open spec fn loop_count(p: Seq<Node>) -> nat
    decreases p,
{
    if p.len() == 0 {
        0
    } else {
        loop_count(p.subrange(0, p.len() - 1)) + node_loops(p[p.len() - 1])
    }
}

/// A prefix of a program has no more loops than a longer prefix.
pub proof fn lemma_loop_count_prefix(p: Seq<Node>, j: int, k: int)
    requires
        0 <= j <= k <= p.len(),
    ensures
        loop_count(p.subrange(0, j)) <= loop_count(p.subrange(0, k)),
    decreases k - j,
{
    if j < k {
        lemma_loop_count_prefix(p, j, k - 1);
        assert(p.subrange(0, k).subrange(0, k - 1) == p.subrange(0, k - 1));
    }
}

/// The instruction of a non-loop node.
fn leaf_instr(n: &Node) -> (r: Instr)
    requires
        !(n is Loop),
    ensures
        r == instr_of(*n),
{
    match n {
        Node::Left => Instr::PtrDec,
        Node::Right => Instr::PtrInc,
        Node::Add => Instr::CellInc,
        Node::Sub => Instr::CellDec,
        Node::Write => Instr::Output,
        _ => Instr::Input,
    }
}

/// Lowers `p` into `blocks`, starting in block `cur` whose instructions so far are
/// `open`; returns the block where control goes on and its instructions so far.
fn lower_seq(p: &Vec<Node>, blocks: &mut Vec<Block>, cur: usize, open: Vec<Instr>) -> (r: (
    usize,
    Vec<Instr>,
))
    requires
        cur < old(blocks)@.len(),
        old(blocks)@.len() + 2 * loop_count(p@) <= usize::MAX,
    ensures
        (blocks_view(final(blocks)@), r.0 as int, r.1@) == emit_seq(
            (blocks_view(old(blocks)@), cur as int, open@),
            p@,
        ),
        final(blocks)@.len() == old(blocks)@.len() + 2 * loop_count(p@),
        r.0 < final(blocks)@.len(),
    decreases p@,
{
    let ghost st0: Emit = (blocks_view(blocks@), cur as int, open@);
    let ghost len0 = blocks@.len();
    let mut cur = cur;
    let mut open = open;
    let mut i: usize = 0;
    assert(p@.subrange(0, 0) =~= Seq::<Node>::empty());
    while i < p.len()
        invariant
            i <= p@.len(),
            cur < blocks@.len(),
            len0 + 2 * loop_count(p@) <= usize::MAX,
            blocks@.len() == len0 + 2 * loop_count(p@.subrange(0, i as int)),
            (blocks_view(blocks@), cur as int, open@) == emit_seq(st0, p@.subrange(0, i as int)),
        decreases p@.len() - i,
    {
        let ghost before: Emit = (blocks_view(blocks@), cur as int, open@);
        proof {
            assert(p@.subrange(0, i + 1).subrange(0, i as int) == p@.subrange(0, i as int));
            assert(p@.subrange(0, i + 1)[i as int] == p@[i as int]);
            lemma_loop_count_prefix(p@, i + 1, p@.len() as int);
            assert(p@.subrange(0, p@.len() as int) == p@);
            assert(emit_seq(st0, p@.subrange(0, i + 1)) == emit_node(before, p@[i as int]));
        }
        match &p[i] {
            Node::Loop(c) => {
                assert(loop_count(p@.subrange(0, i + 1)) == loop_count(p@.subrange(0, i as int))
                    + node_loops(p@[i as int]));
                assert(node_loops(p@[i as int]) == 1 + loop_count(c@));
                let body = blocks.len();
                let test = Terminator::Branch { nonzero: body, zero: body + 1 };
                let ghost opened = before.0.update(cur as int, (open@, test)).push(
                    empty_block(),
                ).push(empty_block());
                blocks[cur] = Block { instrs: open, term: test };
                blocks.push(Block { instrs: Vec::new(), term: Terminator::Return });
                blocks.push(Block { instrs: Vec::new(), term: Terminator::Return });
                assert(blocks_view(blocks@) =~= opened);
                let ghost mid = blocks@;
                assert(decreases_to!(p@ => c@)) by {
                    assert(decreases_to!(p@ => p@[i as int]));
                };
                let fresh: Vec<Instr> = Vec::new();
                assert(fresh@ =~= Seq::<Instr>::empty());
                let (end, inner) = lower_seq(c, blocks, body, fresh);
                let ghost after = blocks@;
                blocks[end] = Block { instrs: inner, term: test };
                assert(blocks_view(blocks@) =~= blocks_view(after).update(
                    end as int,
                    (inner@, test),
                ));
                cur = body + 1;
                open = Vec::new();
                assert(open@ =~= Seq::<Instr>::empty());
                assert((blocks_view(blocks@), cur as int, open@) == emit_node(before, p@[i as int]));
            },
            n => {
                let ins = leaf_instr(n);
                open.push(ins);
                assert((blocks_view(blocks@), cur as int, open@) == emit_node(before, p@[i as int]));
            },
        }
        i = i + 1;
    }
    assert(p@.subrange(0, p@.len() as int) == p@);
    (cur, open)
}

/// Generates the entry routine of a program: the entry block, then the lowered
/// nodes, ending in a return.
pub fn build(p: &Vec<Node>) -> (r: Routine)
    requires
        2 * loop_count(p@) < usize::MAX,
    ensures
        r@ == lowered(p@),
        r.blocks@.len() == 1 + 2 * loop_count(p@),
        targets_in(r@),
{
    let mut blocks: Vec<Block> = Vec::new();
    blocks.push(Block { instrs: Vec::new(), term: Terminator::Return });
    assert(blocks_view(blocks@) =~= seq![empty_block()]);
    let fresh: Vec<Instr> = Vec::new();
    assert(fresh@ =~= Seq::<Instr>::empty());
    let (end, open) = lower_seq(p, &mut blocks, 0, fresh);
    let ghost after = blocks@;
    blocks[end] = Block { instrs: open, term: Terminator::Return };
    assert(blocks_view(blocks@) =~= blocks_view(after).update(
        end as int,
        (open@, Terminator::Return),
    ));
    proof {
        lemma_lowered_well_formed(p@);
    }
    Routine { blocks }
}

/// Each loop of a node accounts for two of its symbols.
pub proof fn lemma_node_loops_bounded(n: Node)
    ensures
        2 * node_loops(n) <= flatten_node(n).len(),
    decreases n,
{
    if let Node::Loop(c) = n {
        lemma_loops_bounded(c@);
    }
}

/// Each loop of a program accounts for two of its symbols.
pub proof fn lemma_loops_bounded(p: Seq<Node>)
    ensures
        2 * loop_count(p) <= flatten(p).len(),
    decreases p,
{
    if p.len() > 0 {
        lemma_loops_bounded(p.subrange(0, p.len() - 1));
        lemma_node_loops_bounded(p[p.len() - 1]);
    }
}

/// Every branch of `g` names one of its blocks.
pub open spec fn targets_in(g: Seq<(Seq<Instr>, Terminator)>) -> bool {
    forall|i: int|
        0 <= i < g.len() ==> match #[trigger] g[i].1 {
            Terminator::Branch { nonzero, zero } => nonzero < g.len() && zero < g.len(),
            Terminator::Return => true,
        }
}

/// Lowering keeps branches inside the block list and the open block among the blocks.
pub proof fn lemma_emit_node_targets(st: Emit, n: Node)
    requires
        targets_in(st.0),
        0 <= st.1 < st.0.len(),
    ensures
        targets_in(emit_node(st, n).0),
        0 <= emit_node(st, n).1 < emit_node(st, n).0.len(),
        st.0.len() <= emit_node(st, n).0.len(),
    decreases n,
{
    if let Node::Loop(c) = n {
        let body = st.0.len() as int;
        let test = Terminator::Branch { nonzero: body as usize, zero: (body + 1) as usize };
        let opened = st.0.update(st.1, (st.2, test)).push(empty_block()).push(empty_block());
        assert(targets_in(opened)) by {
            assert forall|i: int| 0 <= i < opened.len() implies match #[trigger] opened[i].1 {
                Terminator::Branch { nonzero, zero } => nonzero < opened.len() && zero
                    < opened.len(),
                Terminator::Return => true,
            } by {
                if i < st.0.len() && i != st.1 {
                    assert(opened[i] == st.0[i]);
                }
            }
        }
        lemma_emit_seq_targets((opened, body, Seq::empty()), c@);
    }
}

/// Lowering a sequence keeps branches inside the block list and the open block among
/// the blocks.
pub proof fn lemma_emit_seq_targets(st: Emit, p: Seq<Node>)
    requires
        targets_in(st.0),
        0 <= st.1 < st.0.len(),
    ensures
        targets_in(emit_seq(st, p).0),
        0 <= emit_seq(st, p).1 < emit_seq(st, p).0.len(),
        st.0.len() <= emit_seq(st, p).0.len(),
    decreases p,
{
    if p.len() > 0 {
        lemma_emit_seq_targets(st, p.subrange(0, p.len() - 1));
        lemma_emit_node_targets(emit_seq(st, p.subrange(0, p.len() - 1)), p[p.len() - 1]);
    }
}

/// A generated routine is well formed: it has an entry block, and every branch names
/// one of its blocks.
pub proof fn lemma_lowered_well_formed(p: Seq<Node>)
    ensures
        lowered(p).len() >= 1,
        targets_in(lowered(p)),
{
    let st0: Emit = (seq![empty_block()], 0, Seq::empty());
    lemma_emit_seq_targets(st0, p);
    let f = emit_seq(st0, p);
    let g = f.0.update(f.1, (f.2, Terminator::Return));
    assert forall|i: int| 0 <= i < g.len() implies match #[trigger] g[i].1 {
        Terminator::Branch { nonzero, zero } => nonzero < g.len() && zero < g.len(),
        Terminator::Return => true,
    } by {
        if i != f.1 {
            assert(g[i] == f.0[i]);
        }
    }
}

} // verus!
