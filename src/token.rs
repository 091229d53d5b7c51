use vstd::prelude::*;

verus! {

/// `<`: move the cell pointer left.
pub const LT: u8 = 60;

/// `>`: move the cell pointer right.
pub const GT: u8 = 62;

/// `+`: increment the current cell.
pub const PLUS: u8 = 43;

/// `-`: decrement the current cell.
pub const MINUS: u8 = 45;

/// `,`: read one byte into the current cell.
pub const COMMA: u8 = 44;

/// `.`: write the current cell.
pub const DOT: u8 = 46;

/// `[`: open a loop.
pub const OPEN: u8 = 91;

/// `]`: close a loop.
pub const CLOSE: u8 = 93;

/// True of the eight bytes that make up the instruction alphabet.
pub open spec fn is_token(b: u8) -> bool {
    b == LT || b == GT || b == PLUS || b == MINUS || b == COMMA || b == DOT || b == OPEN
        || b == CLOSE
}

/// The bytes of `s` that belong to the alphabet, in the order they appear.
pub open spec fn filtered(s: Seq<u8>) -> Seq<u8> {
    s.filter(|b: u8| is_token(b))
}

/// Whether `b` is one of the eight instruction symbols.
pub fn token_byte(b: u8) -> (r: bool)
    ensures
        r == is_token(b),
{
    b == LT || b == GT || b == PLUS || b == MINUS || b == COMMA || b == DOT || b == OPEN
        || b == CLOSE
}

/// Keeps the instruction symbols of a source text and drops every other byte.
pub fn filter(src: &[u8]) -> (r: Vec<u8>)
    ensures
        r@ == filtered(src@),
{
    let mut r: Vec<u8> = Vec::new();
    let mut i: usize = 0;
    while i < src.len()
        invariant
            i <= src@.len(),
            r@ == filtered(src@.subrange(0, i as int)),
        decreases src@.len() - i,
    {
        let b = src[i];
        proof {
            let s = src@.subrange(0, i as int + 1);
            assert(s.drop_last() == src@.subrange(0, i as int));
            assert(s.last() == b);
            reveal(Seq::filter);
        }
        if token_byte(b) {
            r.push(b);
        }
        i = i + 1;
    }
    assert(src@.subrange(0, src@.len() as int) == src@);
    r
}

/// Filtering is idempotent: a filtered text is left as it is by a second pass.
pub proof fn lemma_filter_idempotent(s: Seq<u8>)
    ensures
        filtered(filtered(s)) == filtered(s),
    decreases s.len(),
{
    reveal(Seq::filter);
    if s.len() > 0 {
        lemma_filter_idempotent(s.drop_last());
        let f = filtered(s.drop_last());
        if is_token(s.last()) {
            assert(filtered(s) == f.push(s.last()));
            assert(f.push(s.last()).drop_last() == f);
        }
    }
}

} // verus!
