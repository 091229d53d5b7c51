use vstd::prelude::*;

pub mod token;
pub mod ast;
pub mod parse;
pub mod cfg;
pub mod machine;

use crate::token::{filter, filtered};
use crate::ast::{Node, balanced, flatten};
use crate::parse::{ParseError, parse, all_tokens, reports};
use crate::cfg::{Routine, build, lowered, targets_in, lemma_loops_bounded};

verus! {

/// Compiles a source text: keeps its instruction symbols, parses them, and lowers the
/// program to its entry routine. Fails exactly when the symbols are not well bracketed.
pub fn compile(src: &[u8]) -> (r: Result<Routine, ParseError>)
    requires
        src@.len() < usize::MAX,
    ensures
        r is Ok <==> balanced(filtered(src@)),
        match r {
            Ok(g) => {
                &&& exists|p: Seq<Node>| flatten(p) == filtered(src@) && g@ == lowered(p)
                &&& targets_in(g@)
            },
            Err(e) => reports(filtered(src@), e),
        },
{
    let tokens = filter(src);
    proof {
        broadcast use vstd::seq_lib::group_filter_ensures;
        assert(all_tokens(tokens@));
    }
    match parse(tokens.as_slice()) {
        Ok(p) => {
            proof {
                lemma_loops_bounded(p@);
            }
            let g = build(&p);
            Ok(g)
        },
        Err(e) => Err(e),
    }
}

} // verus!
