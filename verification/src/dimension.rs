//! The dimensionality of an embedding space.

use vstd::prelude::*;

verus! {

/// Number of components in an embedding vector. Never zero.
#[derive(Clone, Copy, Debug, PartialEq, Eq, Hash, Structural)]
pub struct Dimension(u32);

/// Errors returned when validating a [`Dimension`].
#[derive(Debug, Clone, Copy, PartialEq, Eq, Structural)]
#[non_exhaustive]
pub enum DimensionError {
    /// The requested dimension was zero.
    Zero,
    /// The requested dimension does not fit in a `u32`.
    TooLarge(usize),
}

impl View for Dimension {
    type V = nat;

    closed spec fn view(&self) -> nat {
        self.0 as nat
    }
}

impl Dimension {
    #[verifier::type_invariant]
    spec fn non_zero(self) -> bool {
        self.0 > 0
    }

    /// Returns the dimension as a `usize`.
    pub fn get(self) -> (r: usize)
        ensures
            r as nat == self@,
            r > 0,
    {
        proof {
            use_type_invariant(self);
        }
        self.0 as usize
    }

    /// Returns the dimension as a `u32`.
    pub fn as_u32(self) -> (r: u32)
        ensures
            r as nat == self@,
            r > 0,
    {
        proof {
            use_type_invariant(self);
        }
        self.0
    }

    /// Validates and builds a dimension from a component count.
    ///
    /// Fails with `TooLarge` when `components` exceeds `u32::MAX`, and with
    /// `Zero` when it is zero.
    pub fn new(components: usize) -> (r: Result<Dimension, DimensionError>)
        ensures
            components > u32::MAX ==> r == Err::<Dimension, DimensionError>(DimensionError::TooLarge(components)),
            components == 0 ==> r == Err::<Dimension, DimensionError>(DimensionError::Zero),
            0 < components <= u32::MAX ==> (r matches Ok(d) && d@ == components),
    {
        if components > 4294967295usize {
            return Err(DimensionError::TooLarge(components));
        }
        if components == 0 {
            return Err(DimensionError::Zero);
        }
        Ok(Dimension(components as u32))
    }

    /// Validates a raw `u32` dimension (the serialized form).
    pub fn from_u32(value: u32) -> (r: Result<Dimension, DimensionError>)
        ensures
            value == 0 ==> r == Err::<Dimension, DimensionError>(DimensionError::Zero),
            value > 0 ==> (r matches Ok(d) && d@ == value),
    {
        if value == 0 {
            Err(DimensionError::Zero)
        } else {
            Ok(Dimension(value))
        }
    }
}

} // verus!
