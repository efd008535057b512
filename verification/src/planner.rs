use vstd::prelude::*;

use vstd::arithmetic::div_mod::{
    lemma_div_is_ordered, lemma_div_plus_one, lemma_multiply_divide_le,
};
use vstd::arithmetic::mul::{lemma_mul_inequality, lemma_mul_is_commutative};

verus! {

/// Byte offset of the `i`-th candidate split point out of `threads`:
/// the floor of `(i / threads) * file_len`.
pub open spec fn planned_offset(file_len: u64, threads: usize, i: int) -> int {
    (i * file_len) / (threads as int)
}

/// Splits `[0, file_len)` into `threads` candidate offsets, evenly by
/// byte.  For fewer than two threads the sole candidate is `0`.
/// Offsets are monotonically non-decreasing; duplicates are possible
/// for tiny files and yield empty segments downstream.
pub fn segment_file_into_offsets(file_len: u64, threads: usize) -> (r: Vec<u64>)
    ensures
        r@.len() == if threads < 2 { 1int } else { threads as int },
        r@[0] == 0u64,
        forall|i: int| 0 <= i < r@.len() ==> r@[i] <= file_len,
        forall|i: int, j: int| 0 <= i <= j < r@.len() ==> r@[i] <= r@[j],
        threads >= 2 ==> forall|i: int| 0 <= i < threads as int ==> r@[i]
            == planned_offset(file_len, threads, i),
{
    let mut offsets: Vec<u64> = Vec::new();
    offsets.push(0);
    if threads < 2 {
        return offsets;
    }
    proof {
        lemma_mul_inequality(0, 1, file_len as int);
        assert(planned_offset(file_len, threads, 0) == 0) by {
            vstd::arithmetic::div_mod::lemma_basic_div_specific_divisor(threads as int);
        }
    }
    let mut i: usize = 1;
    while i < threads
        invariant
            2 <= threads,
            1 <= i <= threads,
            offsets@.len() == i as int,
            offsets@[0] == 0u64,
            forall|k: int| 0 <= k < i as int ==> offsets@[k]
                == planned_offset(file_len, threads, k),
            forall|k: int| 0 <= k < i as int ==> offsets@[k] <= file_len,
            forall|k: int, l: int| 0 <= k <= l < i as int ==> offsets@[k] <= offsets@[l],
        decreases threads - i,
    {
        proof {
            // i * file_len fits in u128 and its quotient is at most file_len.
            assert((i as int) * (file_len as int) <= u64::MAX as int * u64::MAX as int)
                by (nonlinear_arith)
                requires
                    0 <= i as int <= u64::MAX as int,
                    0 <= file_len as int <= u64::MAX as int,
            ;
            lemma_mul_inequality(i as int, threads as int, file_len as int);
            lemma_mul_is_commutative(threads as int, file_len as int);
            lemma_multiply_divide_le(
                (i as int) * (file_len as int),
                threads as int,
                file_len as int,
            );
        }
        let off128: u128 = (i as u128) * (file_len as u128) / (threads as u128);
        proof {
            assert(off128 as int == planned_offset(file_len, threads, i as int));
            assert(off128 <= file_len);
        }
        let off: u64 = off128 as u64;
        proof {
            // The new offset is at least the previous one.
            lemma_mul_inequality((i - 1) as int, i as int, file_len as int);
            lemma_div_is_ordered(
                ((i - 1) as int) * (file_len as int),
                (i as int) * (file_len as int),
                threads as int,
            );
            assert(offsets@[i as int - 1] <= off);
        }
        offsets.push(off);
        i += 1;
    }
    offsets
}

/// Part of the tiling property: when the file is at least as long as
/// the thread count, the planned candidate offsets are strictly
/// increasing, so the candidate boundaries are pairwise distinct.
pub proof fn lemma_planned_offsets_strict(file_len: u64, threads: usize, i: int, j: int)
    requires
        2 <= threads,
        threads as int <= file_len as int,
        0 <= i < j < threads as int,
    ensures
        planned_offset(file_len, threads, i) < planned_offset(file_len, threads, j),
{
    let l = file_len as int;
    let t = threads as int;
    // i*l + t <= i*l + l == (i+1)*l <= j*l
    assert((i + 1) * l == i * l + l) by (nonlinear_arith);
    lemma_mul_inequality(i + 1, j, l);
    lemma_div_plus_one(i * l, t);
    lemma_div_is_ordered(t + i * l, j * l, t);
}

} // verus!
