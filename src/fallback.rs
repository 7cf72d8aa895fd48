//! The portable 16-byte kernel: two 8-byte kernels chained by a fold.
use vstd::prelude::*;

use crate::fold::{fold_8, lemma_advance};
use crate::kernels::parse_8;
use crate::model::{chunk_parsed, lemma_pow10_small};

verus! {

/// Parses exactly 16 bytes as two chunks of 8.
pub fn parse_16(s: &mut &[u8], err: &mut u64) -> (r: u64)
    requires
        old(s)@.len() >= 16,
    ensures
        final(s)@ == old(s)@.subrange(16, old(s)@.len() as int),
        chunk_parsed(old(s)@.subrange(0, 16), *old(err), *final(err), r as nat),
{
    let ghost orig = old(s)@.subrange(0, 16);
    let hi = parse_8(s, err);
    let ghost e1 = *err;
    let ghost mid = s@;
    let r = fold_8(s, err, hi);
    proof {
        let rest = orig.subrange(8, 16);
        assert(orig.subrange(0, 8) =~= old(s)@.subrange(0, 8));
        assert(rest.subrange(0, 8) =~= mid.subrange(0, 8));
        lemma_pow10_small();
        lemma_advance(orig, rest, 8, 8, *old(err), e1, *err, hi as nat, r as nat, u64::MAX as nat);
        assert(orig.subrange(0, 16) =~= orig);
        assert(s@ =~= old(s)@.subrange(16, old(s)@.len() as int));
    }
    r
}

} // verus!
