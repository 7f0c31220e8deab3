//! Folding vectors in half, and inner products of points and scalars.

use crate::algebra::{dot, fold, lemma_add_reduced, order};
use crate::error::Error;
use crate::groups::{multiples, CurvePoint};
use crate::scalar::{lemma_scalar_range, scalar_values, Scalar};
use vstd::prelude::*;

verus! {

/// Folds a vector of points: the entry at each index `i` below `split` becomes the sum of itself
/// and of `scaler` times the entry at `split + i`, and what lies beyond `split` is cut off.
pub fn compress<C: CurvePoint>(vec: &mut Vec<C>, split: usize, scaler: &Scalar)
    requires
        split <= old(vec)@.len(),
    ensures
        multiples(final(vec)@) == fold(multiples(old(vec)@), split as int, scaler@),
        final(vec)@.len() == split,
        forall|i: int|
            0 <= i < split && split + i < old(vec)@.len() ==> (#[trigger] final(vec)@[i]).multiple() == (old(vec)@[i].multiple() + old(vec)@[split + i].multiple()
                * scaler@) % order(),
        forall|i: int|
            0 <= i < split && split + i >= old(vec)@.len() ==> #[trigger] final(vec)@[i] == old(vec)@[i],
{
    let ghost before = vec@;
    let len: usize = vec.len();
    let mut i: usize = 0;
    while i < split && i < len - split
        invariant
            i <= split <= len,
            i <= len - split,
            len == before.len(),
            vec@.len() == before.len(),
            forall|j: int| i <= j < before.len() ==> vec@[j] == before[j],
            forall|j: int|
                0 <= j < i ==> (#[trigger] vec@[j]).multiple() == (before[j].multiple() + before[split
                    + j].multiple() * scaler@) % order(),
        decreases split - i,
    {
        let x = vec[split + i].times(scaler).plus(&vec[i]);
        proof {
            lemma_add_reduced(before[split + i].multiple() * scaler@, before[i as int].multiple());
            before[i as int].lemma_multiple_range();
        }
        vec.set(i, x);
        i = i + 1;
    }
    vec.truncate(split);
    assert(multiples(vec@) =~= fold(multiples(before), split as int, scaler@));
}

/// Folds a vector of scalars of twice the length of `split`, as `compress` folds points.
pub fn compress_field(vec: &mut Vec<Scalar>, split: usize, scaler: &Scalar)
    requires
        old(vec)@.len() == 2 * split,
    ensures
        scalar_values(final(vec)@) == fold(scalar_values(old(vec)@), split as int, scaler@),
        final(vec)@.len() == split,
        forall|i: int|
            0 <= i < split ==> (#[trigger] final(vec)@[i])@ == (old(vec)@[i]@ + old(vec)@[split
                + i]@ * scaler@) % order(),
{
    let ghost before = vec@;
    let len: usize = vec.len();
    let mut i: usize = 0;
    while i < split
        invariant
            i <= split,
            len == 2 * split,
            len == before.len(),
            vec@.len() == before.len(),
            forall|j: int| i <= j < before.len() ==> vec@[j] == before[j],
            forall|j: int|
                0 <= j < i ==> (#[trigger] vec@[j])@ == (before[j]@ + before[split + j]@ * scaler@)
                    % order(),
        decreases split - i,
    {
        let x = vec[i].plus(&vec[split + i].times(scaler));
        proof {
            lemma_add_reduced(before[i as int]@, before[split + i]@ * scaler@);
            lemma_scalar_range(before[i as int]);
        }
        vec.set(i, x);
        i = i + 1;
    }
    vec.truncate(split);
    assert(scalar_values(vec@) =~= fold(scalar_values(before), split as int, scaler@));
}

/// The inner product of points and as many scalars.
pub fn multiexponentiation<G: CurvePoint>(left: &[G], right: &[Scalar]) -> (r: Result<G, Error>)
    ensures
        r is Ok <==> left@.len() == right@.len(),
        r matches Ok(p) ==> p.multiple() == dot(multiples(left@), scalar_values(right@)) % order(),
        r matches Ok(p) ==> p.multiple() == dot(
            Seq::new(left@.len(), |i: int| left@[i].multiple()),
            Seq::new(right@.len(), |i: int| right@[i]@),
        ) % order(),
        r matches Err(e) ==> e is InvalidIPVectorLength,
{
    if left.len() != right.len() {
        return Err(Error::InvalidIPVectorLength);
    }
    Ok(G::multi_scalar_mul(left, right))
}

} // verus!
