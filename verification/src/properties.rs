//! Adversarial entry points: each takes arbitrary byte sequences, merges
//! them, and proves the merge's guarantees on the result.
//!
//! None of these functions can panic for any input, so feeding them random
//! or fuzzed data exercises the merge on every input shape.

use vstd::prelude::*;

use crate::merge::{full_provenance, models, multidiff, restrict, restriction, tagged};

verus! {

/// `s` as merge items.
pub open spec fn widened(s: Seq<u8>) -> Seq<u64> {
    s.map_values(|b: u8| b as u64)
}

/// Converts a byte sequence into a sequence of merge items.
pub fn widen(v: &Vec<u8>) -> (r: Vec<u64>)
    ensures
        r@ == widened(v@),
{
    let mut r: Vec<u64> = Vec::new();
    let mut k: usize = 0;
    while k < v.len()
        invariant
            k <= v@.len(),
            r@.len() == k,
            forall|a: int| 0 <= a < k ==> r@[a] == v@[a] as u64,
        decreases v@.len() - k,
    {
        r.push(v[k] as u64);
        k = k + 1;
    }
    proof {
        assert(r@ =~= widened(v@));
    }
    r
}

/// Merging any three byte sequences terminates normally.
pub fn does_not_crash(data: (Vec<u8>, Vec<u8>, Vec<u8>)) {
    let (a, b, c) = data;
    let mut to_diff: Vec<Vec<u64>> = Vec::new();
    to_diff.push(widen(&a));
    to_diff.push(widen(&b));
    to_diff.push(widen(&c));
    let _ = multidiff(&to_diff);
}

/// Merging a sequence with itself yields that sequence back, every element
/// tagged with every source.
pub fn equals_return_same(data: Vec<u8>) {
    let mut to_diff: Vec<Vec<u64>> = Vec::new();
    to_diff.push(widen(&data));
    to_diff.push(widen(&data));
    to_diff.push(widen(&data));
    let res = multidiff(&to_diff);
    proof {
        assert(forall|i: int|
            0 <= i < to_diff@.len() ==> (#[trigger] to_diff@[i])@ == to_diff@[0]@);
        assert(models(res@) == tagged(widened(data@), full_provenance(3)));
        assert(res@.len() == data@.len());
        assert(forall|k: int|
            0 <= k < data@.len() ==> models(res@)[k].value == data@[k] as u64);
    }
}

/// Restricting the merged output to each source reproduces that source.
pub fn can_reconstruct_original(data: (Vec<u8>, Vec<u8>, Vec<u8>)) {
    let (a, b, c) = data;
    let mut to_diff: Vec<Vec<u64>> = Vec::new();
    to_diff.push(widen(&a));
    to_diff.push(widen(&b));
    to_diff.push(widen(&c));
    let res = multidiff(&to_diff);
    let from_a = restrict(&res, 0);
    let from_b = restrict(&res, 1);
    let from_c = restrict(&res, 2);
    proof {
        assert(restriction(models(res@), 0) == (to_diff@[0])@);
        assert(restriction(models(res@), 1) == (to_diff@[1])@);
        assert(restriction(models(res@), 2) == (to_diff@[2])@);
        assert(from_a@ == widened(a@));
        assert(from_b@ == widened(b@));
        assert(from_c@ == widened(c@));
    }
}

} // verus!
