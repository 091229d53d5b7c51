use vstd::prelude::*;
use crate::token::{LT, GT, PLUS, MINUS, COMMA, DOT, OPEN, CLOSE};

verus! {

/// One instruction of a parsed program; a loop owns its body.
#[derive(Debug, PartialEq, Eq)]
pub enum Node {
    Left,
    Right,
    Add,
    Sub,
    Read,
    Write,
    Loop(Vec<Node>),
}

/// The symbols that a node was parsed from, brackets included.
pub open spec fn flatten_node(n: Node) -> Seq<u8>
    decreases n,
{
    match n {
        Node::Left => seq![LT],
        Node::Right => seq![GT],
        Node::Add => seq![PLUS],
        Node::Sub => seq![MINUS],
        Node::Read => seq![COMMA],
        Node::Write => seq![DOT],
        Node::Loop(c) => seq![OPEN] + flatten(c@) + seq![CLOSE],
    }
}

/// Pre-order rendering of a program back into its symbols.
pub open spec fn flatten(p: Seq<Node>) -> Seq<u8>
    decreases p,
{
    if p.len() == 0 {
        Seq::empty()
    } else {
        flatten(p.subrange(0, p.len() - 1)) + flatten_node(p[p.len() - 1])
    }
}

/// The change of nesting depth that one symbol makes.
pub open spec fn delta(b: u8) -> int {
    if b == OPEN {
        1
    } else if b == CLOSE {
        -1
    } else {
        0
    }
}

/// Opening brackets minus closing brackets in `s`.
pub open spec fn depth(s: Seq<u8>) -> int
    decreases s.len(),
{
    if s.len() == 0 {
        0
    } else {
        depth(s.drop_last()) + delta(s.last())
    }
}

/// Depth of the symbols of `t` from `a` up to, not including, `b`.
pub open spec fn depth_between(t: Seq<u8>, a: int, b: int) -> int {
    depth(t.subrange(a, b))
}

/// No prefix of `t[a..b]` closes more brackets than it opened.
pub open spec fn never_negative(t: Seq<u8>, a: int, b: int) -> bool {
    forall|j: int| a <= j <= b ==> #[trigger] depth_between(t, a, j) >= 0
}

/// `t[a..b]` is well bracketed: every bracket has its partner inside the range.
pub open spec fn balanced_between(t: Seq<u8>, a: int, b: int) -> bool {
    depth_between(t, a, b) == 0 && never_negative(t, a, b)
}

/// A whole token stream is well bracketed.
pub open spec fn balanced(t: Seq<u8>) -> bool {
    balanced_between(t, 0, t.len() as int)
}

/// Depth is additive over adjacent ranges.
pub proof fn lemma_depth_split(t: Seq<u8>, a: int, b: int, c: int)
    requires
        0 <= a <= b <= c <= t.len(),
    ensures
        depth_between(t, a, c) == depth_between(t, a, b) + depth_between(t, b, c),
    decreases c - b,
{
    if c > b {
        lemma_depth_split(t, a, b, c - 1);
        assert(t.subrange(a, c).drop_last() == t.subrange(a, c - 1));
        assert(t.subrange(b, c).drop_last() == t.subrange(b, c - 1));
    } else {
        assert(t.subrange(b, c).len() == 0);
    }
}

/// Extending a range by one symbol adds that symbol's depth change.
pub proof fn lemma_depth_step(t: Seq<u8>, a: int, b: int)
    requires
        0 <= a <= b < t.len(),
    ensures
        depth_between(t, a, b + 1) == depth_between(t, a, b) + delta(t[b]),
{
    assert(t.subrange(a, b + 1).drop_last() == t.subrange(a, b));
}

/// The empty range has depth zero.
pub proof fn lemma_depth_empty(t: Seq<u8>, a: int)
    requires
        0 <= a <= t.len(),
    ensures
        depth_between(t, a, a) == 0,
{
    assert(t.subrange(a, a).len() == 0);
}

/// Appending a node appends its symbols.
pub proof fn lemma_flatten_push(p: Seq<Node>, n: Node)
    ensures
        flatten(p.push(n)) == flatten(p) + flatten_node(n),
{
    assert(p.push(n).subrange(0, p.len() as int) == p);
}

/// Renders a program back into its symbols, each loop between its brackets.
pub fn to_tokens(p: &Vec<Node>) -> (r: Vec<u8>)
    ensures
        r@ == flatten(p@),
    decreases p@,
{
    let mut r: Vec<u8> = Vec::new();
    let mut i: usize = 0;
    assert(p@.subrange(0, 0) =~= Seq::<Node>::empty());
    while i < p.len()
        invariant
            i <= p@.len(),
            r@ == flatten(p@.subrange(0, i as int)),
        decreases p@.len() - i,
    {
        proof {
            assert(p@.subrange(0, i + 1).subrange(0, i as int) == p@.subrange(0, i as int));
            assert(p@.subrange(0, i + 1)[i as int] == p@[i as int]);
        }
        match &p[i] {
            Node::Loop(c) => {
                assert(decreases_to!(p@ => c@)) by {
                    assert(decreases_to!(p@ => p@[i as int]));
                };
                let mut inner = to_tokens(c);
                r.push(OPEN);
                r.append(&mut inner);
                r.push(CLOSE);
            },
            Node::Left => r.push(LT),
            Node::Right => r.push(GT),
            Node::Add => r.push(PLUS),
            Node::Sub => r.push(MINUS),
            Node::Read => r.push(COMMA),
            Node::Write => r.push(DOT),
        }
        assert(r@ =~= flatten(p@.subrange(0, i as int)) + flatten_node(p@[i as int]));
        i = i + 1;
    }
    assert(p@.subrange(0, p@.len() as int) == p@);
    r
}

} // verus!
