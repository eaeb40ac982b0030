//! Cycles of lines: which lines meet in which vertex.
//!
//! A closed polygon is given by the lines that carry its sides, in order:
//! vertex `i` is where line `i` meets the line after it, and the last line
//! meets the first.

use vstd::arithmetic::div_mod::{lemma_mod_self_0, lemma_small_mod};
use vstd::prelude::*;
use crate::error::KernelError;

verus! {

/// For each vertex of a polygon of `count` sides, the two lines that meet in
/// it: line `i` and its successor in the cycle.
pub open spec fn cyclic_pairs(count: nat) -> Seq<(usize, usize)> {
    Seq::new(count, |i: int| (i as usize, ((i + 1) % (count as int)) as usize))
}

/// The pairs of lines that meet in the vertices of a polygon of `count`
/// sides, vertex by vertex. Fewer than three lines bound no polygon.
pub fn cycle_pairs(count: usize) -> (pairs: Result<Vec<(usize, usize)>, KernelError>)
    ensures
        pairs is Err <==> count < 3,
        pairs is Err ==> pairs == Err::<Vec<(usize, usize)>, KernelError>(KernelError::InvalidCycle),
        pairs matches Ok(v) ==> v@ == cyclic_pairs(count as nat),
{
    if count < 3 {
        return Err(KernelError::InvalidCycle);
    }
    let mut pairs: Vec<(usize, usize)> = Vec::new();
    let mut i: usize = 0;
    while i < count
        invariant
            count >= 3,
            i <= count,
            pairs@ == cyclic_pairs(count as nat).take(i as int),
        decreases count - i,
    {
        let next = if i + 1 == count { 0 } else { i + 1 };
        let ghost before = pairs@;
        pairs.push((i, next));
        proof {
            if i + 1 == count {
                lemma_mod_self_0(count as int);
            } else {
                lemma_small_mod((i + 1) as nat, count as nat);
            }
            assert(cyclic_pairs(count as nat)[i as int] == (i, next));
            assert(pairs@ =~= before.push((i, next)));
            assert(pairs@ =~= cyclic_pairs(count as nat).take(i + 1));
        }
        i += 1;
    }
    assert(pairs@ =~= cyclic_pairs(count as nat));
    Ok(pairs)
}

} // verus!
