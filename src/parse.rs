use vstd::prelude::*;
use crate::token::{LT, GT, PLUS, MINUS, COMMA, DOT, OPEN, CLOSE, is_token};
use crate::ast::{
    Node, flatten, flatten_node, delta, depth_between, never_negative, balanced_between,
    balanced, lemma_depth_split, lemma_depth_step, lemma_depth_empty, lemma_flatten_push,
};

verus! {

/// Why a token stream is not a program.
#[derive(Debug, Clone, Copy, PartialEq, Eq, Structural)]
pub enum ParseError {
    /// The `[` at this index is never closed.
    UnmatchedOpen(usize),
    /// The `]` at this index closes no open loop.
    UnmatchedClose(usize),
}

/// Every byte of `t` is one of the eight instruction symbols.
pub open spec fn all_tokens(t: Seq<u8>) -> bool {
    forall|i: int| 0 <= i < t.len() ==> #[trigger] is_token(t[i])
}

/// What an error says of the stream it came from: a `]` where depth first goes
/// negative, or, in a stream with no such `]`, a `[` that no later `]` closes.
pub open spec fn reports(t: Seq<u8>, e: ParseError) -> bool {
    match e {
        ParseError::UnmatchedClose(i) => {
            &&& i < t.len()
            &&& t[i as int] == CLOSE
            &&& never_negative(t, 0, i as int)
            &&& depth_between(t, 0, i + 1) == -1
        },
        ParseError::UnmatchedOpen(i) => {
            &&& i < t.len()
            &&& t[i as int] == OPEN
            &&& never_negative(t, 0, t.len() as int)
            &&& never_negative(t, i + 1, t.len() as int)
        },
    }
}

/// The leaf node of a non-bracket symbol.
fn leaf(b: u8) -> (r: Node)
    requires
        is_token(b),
        b != OPEN,
        b != CLOSE,
    ensures
        flatten_node(r) == seq![b],
{
    if b == LT {
        Node::Left
    } else if b == GT {
        Node::Right
    } else if b == PLUS {
        Node::Add
    } else if b == MINUS {
        Node::Sub
    } else if b == COMMA {
        Node::Read
    } else {
        Node::Write
    }
}

/// Parses the body of the loop opened at `start - 1`, up to its closing bracket.
/// On success returns the body and the index of that closing bracket.
fn parse_body(t: &[u8], start: usize) -> (r: Result<(Vec<Node>, usize), ParseError>)
    requires
        all_tokens(t@),
        1 <= start <= t@.len(),
        t@[start - 1] == OPEN,
    ensures
        match r {
            Ok((body, k)) => {
                &&& start <= k < t@.len()
                &&& t@[k as int] == CLOSE
                &&& flatten(body@) == t@.subrange(start as int, k as int)
                &&& balanced_between(t@, start as int, k as int)
            },
            Err(ParseError::UnmatchedOpen(i)) => {
                &&& i + 1 >= start
                &&& i < t@.len()
                &&& t@[i as int] == OPEN
                &&& never_negative(t@, i + 1, t@.len() as int)
                &&& never_negative(t@, start as int, t@.len() as int)
            },
            Err(ParseError::UnmatchedClose(_)) => false,
        },
    decreases t@.len() - start,
{
    let mut body: Vec<Node> = Vec::new();
    let mut pos: usize = start;
    proof {
        lemma_depth_empty(t@, start as int);
        assert(t@.subrange(start as int, start as int) =~= Seq::<u8>::empty());
    }
    while pos < t.len()
        invariant
            all_tokens(t@),
            start <= pos <= t@.len(),
            flatten(body@) == t@.subrange(start as int, pos as int),
            depth_between(t@, start as int, pos as int) == 0,
            never_negative(t@, start as int, pos as int),
        decreases t@.len() - pos,
    {
        let b = t[pos];
        assert(is_token(t@[pos as int]));
        if b == CLOSE {
            return Ok((body, pos));
        } else if b == OPEN {
            match parse_body(t, pos + 1) {
                Ok((inner, k)) => {
                    proof {
                        lemma_flatten_push(body@, Node::Loop(inner));
                        assert(t@.subrange(start as int, k + 1) =~= t@.subrange(
                            start as int,
                            pos as int,
                        ) + seq![OPEN] + t@.subrange(pos + 1, k as int) + seq![CLOSE]);
                        lemma_depth_step(t@, pos as int, pos as int);
                        lemma_depth_empty(t@, pos as int);
                        lemma_depth_split(t@, pos as int, pos + 1, k as int);
                        lemma_depth_step(t@, pos as int, k as int);
                        lemma_depth_split(t@, start as int, pos as int, k + 1);
                        assert forall|j: int| start <= j <= k + 1 implies #[trigger] depth_between(
                            t@,
                            start as int,
                            j,
                        ) >= 0 by {
                            if j > pos {
                                lemma_depth_split(t@, start as int, pos as int, j);
                                lemma_depth_step(t@, pos as int, pos as int);
                                if j > pos + 1 {
                                    lemma_depth_split(t@, pos as int, pos + 1, j);
                                    if j == k + 1 {
                                        lemma_depth_step(t@, pos + 1, k as int);
                                    }
                                    assert(never_negative(t@, pos + 1, k as int));
                                    if j <= k {
                                        assert(depth_between(t@, pos + 1, j) >= 0);
                                    }
                                }
                            }
                        }
                    }
                    body.push(Node::Loop(inner));
                    pos = k + 1;
                },
                Err(e) => {
                    proof {
                        if let ParseError::UnmatchedOpen(i) = e {
                            assert forall|j: int|
                                start <= j <= t@.len() implies #[trigger] depth_between(
                                t@,
                                start as int,
                                j,
                            ) >= 0 by {
                                if j > pos {
                                    lemma_depth_split(t@, start as int, pos as int, j);
                                    lemma_depth_split(t@, pos as int, pos + 1, j);
                                    lemma_depth_step(t@, pos as int, pos as int);
                                    lemma_depth_empty(t@, pos as int);
                                    assert(depth_between(t@, pos + 1, j) >= 0);
                                }
                            }
                        }
                    }
                    return Err(e);
                },
            }
        } else {
            let n = leaf(b);
            proof {
                lemma_flatten_push(body@, n);
                assert(t@.subrange(start as int, pos + 1) =~= t@.subrange(start as int, pos as int)
                    + seq![b]);
                lemma_depth_step(t@, start as int, pos as int);
                assert forall|j: int| start <= j <= pos + 1 implies #[trigger] depth_between(
                    t@,
                    start as int,
                    j,
                ) >= 0 by {
                    if j <= pos {
                        assert(never_negative(t@, start as int, pos as int));
                    }
                }
            }
            body.push(n);
            pos = pos + 1;
        }
    }
    Err(ParseError::UnmatchedOpen(start - 1))
}

/// Parses a token stream into a program.
///
/// Succeeds exactly when the brackets are balanced, and then the program renders back
/// to the same symbols. Otherwise reports the first `]` that closes nothing, or, when
/// there is none, a `[` that is never closed.
pub fn parse(t: &[u8]) -> (r: Result<Vec<Node>, ParseError>)
    requires
        all_tokens(t@),
    ensures
        r is Ok <==> balanced(t@),
        match r {
            Ok(p) => flatten(p@) == t@,
            Err(e) => reports(t@, e),
        },
{
    let mut prog: Vec<Node> = Vec::new();
    let mut pos: usize = 0;
    proof {
        lemma_depth_empty(t@, 0);
        assert(t@.subrange(0, 0) =~= Seq::<u8>::empty());
    }
    while pos < t.len()
        invariant
            all_tokens(t@),
            pos <= t@.len(),
            flatten(prog@) == t@.subrange(0, pos as int),
            depth_between(t@, 0, pos as int) == 0,
            never_negative(t@, 0, pos as int),
        decreases t@.len() - pos,
    {
        let b = t[pos];
        assert(is_token(t@[pos as int]));
        if b == CLOSE {
            proof {
                lemma_depth_step(t@, 0, pos as int);
                assert(depth_between(t@, 0, pos + 1) < 0);
            }
            return Err(ParseError::UnmatchedClose(pos));
        } else if b == OPEN {
            match parse_body(t, pos + 1) {
                Ok((inner, k)) => {
                    proof {
                        lemma_flatten_push(prog@, Node::Loop(inner));
                        assert(t@.subrange(0, k + 1) =~= t@.subrange(0, pos as int) + seq![OPEN]
                            + t@.subrange(pos + 1, k as int) + seq![CLOSE]);
                        lemma_depth_step(t@, pos as int, pos as int);
                        lemma_depth_empty(t@, pos as int);
                        lemma_depth_split(t@, pos as int, pos + 1, k as int);
                        lemma_depth_step(t@, pos as int, k as int);
                        lemma_depth_split(t@, 0, pos as int, k + 1);
                        assert forall|j: int| 0 <= j <= k + 1 implies #[trigger] depth_between(
                            t@,
                            0,
                            j,
                        ) >= 0 by {
                            if j > pos {
                                lemma_depth_split(t@, 0, pos as int, j);
                                lemma_depth_step(t@, pos as int, pos as int);
                                if j > pos + 1 {
                                    lemma_depth_split(t@, pos as int, pos + 1, j);
                                    if j == k + 1 {
                                        lemma_depth_step(t@, pos + 1, k as int);
                                    }
                                    assert(never_negative(t@, pos + 1, k as int));
                                    if j <= k {
                                        assert(depth_between(t@, pos + 1, j) >= 0);
                                    }
                                }
                            }
                        }
                    }
                    prog.push(Node::Loop(inner));
                    pos = k + 1;
                },
                Err(e) => {
                    proof {
                        if let ParseError::UnmatchedOpen(i) = e {
                            assert forall|j: int| 0 <= j <= t@.len() implies #[trigger] depth_between(
                                t@,
                                0,
                                j,
                            ) >= 0 by {
                                if j > pos {
                                    lemma_depth_split(t@, 0, pos as int, j);
                                    lemma_depth_split(t@, pos as int, pos + 1, j);
                                    lemma_depth_step(t@, pos as int, pos as int);
                                    lemma_depth_empty(t@, pos as int);
                                    assert(depth_between(t@, pos + 1, j) >= 0);
                                }
                            }
                            let n = t@.len() as int;
                            lemma_depth_split(t@, 0, pos as int, n);
                            lemma_depth_split(t@, pos as int, pos + 1, n);
                            lemma_depth_step(t@, pos as int, pos as int);
                            lemma_depth_empty(t@, pos as int);
                            assert(depth_between(t@, pos + 1, n) >= 0);
                        }
                    }
                    return Err(e);
                },
            }
        } else {
            let n = leaf(b);
            proof {
                lemma_flatten_push(prog@, n);
                assert(t@.subrange(0, pos + 1) =~= t@.subrange(0, pos as int) + seq![b]);
                lemma_depth_step(t@, 0, pos as int);
                assert forall|j: int| 0 <= j <= pos + 1 implies #[trigger] depth_between(
                    t@,
                    0,
                    j,
                ) >= 0 by {
                    if j <= pos {
                        assert(never_negative(t@, 0, pos as int));
                    }
                }
            }
            prog.push(n);
            pos = pos + 1;
        }
    }
    assert(t@.subrange(0, t@.len() as int) == t@);
    Ok(prog)
}

} // verus!
