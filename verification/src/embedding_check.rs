//! The rule an embedding's components must meet: at least one, and every
//! one finite. Components are `f32` values, given here by their raw bits.

use vstd::prelude::*;
use crate::dimension::Dimension;
use crate::errors::IndexError;

verus! {

/// Whether raw `f32` bits encode a finite value (neither infinite nor NaN).
pub open spec fn f32_is_finite(bits: u32) -> bool {
    bits % 0x8000_0000 < 0x7F80_0000
}

/// Checks the components of an embedding: `EmptyEmbedding` when there are
/// none, then `NonFiniteComponent` when one is infinite or NaN; otherwise
/// the embedding's dimension.
pub fn check_components(bits: &Vec<u32>) -> (r: Result<Dimension, IndexError>)
    requires
        bits@.len() <= u32::MAX,
    ensures
        bits@.len() == 0 ==> r == Err::<Dimension, IndexError>(IndexError::EmptyEmbedding),
        bits@.len() > 0 && (exists|i: int| 0 <= i < bits@.len() && !f32_is_finite(#[trigger] bits@[i])) ==>
            r == Err::<Dimension, IndexError>(IndexError::NonFiniteComponent),
        bits@.len() > 0 && (forall|i: int| 0 <= i < bits@.len() ==> f32_is_finite(#[trigger] bits@[i])) ==>
            (r matches Ok(d) && d@ == bits@.len()),
{
    if bits.len() == 0 {
        return Err(IndexError::EmptyEmbedding);
    }
    let mut i: usize = 0;
    while i < bits.len()
        invariant
            i <= bits@.len(),
            forall|j: int| 0 <= j < i ==> f32_is_finite(#[trigger] bits@[j]),
        decreases bits.len() - i,
    {
        if bits[i] % 0x8000_0000u32 >= 0x7F80_0000u32 {
            return Err(IndexError::NonFiniteComponent);
        }
        i = i + 1;
    }
    match Dimension::new(bits.len()) {
        Ok(d) => Ok(d),
        Err(_) => Err(IndexError::EmptyEmbedding),
    }
}

} // verus!
