//! Tagged words: scalars and skewed pointers.
//!
//! A scalar has its lowest bit clear. A pointer is a word-aligned address
//! skewed by subtracting one, so its lowest bit is set and it can never be
//! mistaken for a scalar.
use vstd::prelude::*;

verus! {

/// Size of a machine word in bytes.
pub const WORD_SIZE: usize = 4;

/// A tagged word, either a scalar or a skewed pointer.
#[derive(Clone, Copy, Debug, PartialEq, Eq, Structural)]
pub struct Value {
    pub raw: usize,
}

/// Skewing of a word-aligned address.
pub open spec fn skew(address: int) -> int {
    address - 1
}

/// Inverse of `skew`.
pub open spec fn unskew(raw: int) -> int {
    raw + 1
}

/// The predecessor of a positive multiple of the word size is odd.
pub proof fn lemma_aligned_pred_odd(address: int)
    requires
        address % 4 == 0,
        address > 0,
    ensures
        (address - 1) % 2 == 1,
{
    let q = address / 4;
    assert(address == 4 * q);
    assert(address - 1 == 2 * (2 * q - 1) + 1);
}

impl Value {
    pub open spec fn is_ptr_spec(self) -> bool {
        self.raw % 2 == 1
    }

    /// The address a pointer value denotes.
    pub open spec fn address(self) -> int {
        unskew(self.raw as int)
    }

    /// The number a scalar value denotes.
    pub open spec fn scalar(self) -> int {
        self.raw as int / 2
    }

    pub fn from_raw(raw: usize) -> (r: Value)
        ensures
            r.raw == raw,
    {
        Value { raw }
    }

    pub fn get_raw(&self) -> (r: usize)
        ensures
            r == self.raw,
    {
        self.raw
    }

    /// The pointer value of a word-aligned, non-null address.
    pub fn from_ptr(address: usize) -> (r: Value)
        requires
            address % WORD_SIZE == 0,
            address > 0,
        ensures
            r.raw == skew(address as int),
            r.is_ptr_spec(),
            r.address() == address,
    {
        proof {
            lemma_aligned_pred_odd(address as int);
        }
        Value { raw: address - 1 }
    }

    /// The scalar value of `n`.
    pub fn from_scalar(n: usize) -> (r: Value)
        requires
            n <= usize::MAX / 2,
        ensures
            r.raw == 2 * n,
            !r.is_ptr_spec(),
            r.scalar() == n,
    {
        Value { raw: 2 * n }
    }

    pub fn is_ptr(&self) -> (r: bool)
        ensures
            r == self.is_ptr_spec(),
    {
        self.raw % 2 == 1
    }

    pub fn is_scalar(&self) -> (r: bool)
        ensures
            r == !self.is_ptr_spec(),
    {
        self.raw % 2 == 0
    }

    /// The address of a pointer value.
    pub fn get_ptr(&self) -> (r: usize)
        requires
            self.is_ptr_spec(),
            self.raw < usize::MAX,
        ensures
            r == self.address(),
    {
        self.raw + 1
    }

    /// The number held by a scalar value.
    pub fn get_scalar(&self) -> (r: usize)
        requires
            !self.is_ptr_spec(),
        ensures
            r == self.scalar(),
    {
        self.raw / 2
    }
}

} // verus!
