//! Rows of bits: the storage behind the conflict relation and the skip mask.
//!
//! A [`BitRow`] keeps its bits in a `bitvec::vec::BitVec`. The verifier
//! cannot look into that type, nor can the type be declared to it, because
//! its parameters are bound by traits of `bitvec`. So the row is opaque: what
//! the rest of the crate knows about it is the sequence of booleans [`bits`]
//! and the contracts of the four private functions below. Those contracts
//! are not proved. They restate what `bitvec` documents.

use bitvec::vec::BitVec;
use vstd::prelude::*;

verus! {

/// A fixed-length row of bits, packed by `bitvec`. The field is hidden from
/// the verifier, which knows a row only by its [`bits`].
#[verifier::external_body]
#[derive(Debug)]
pub struct BitRow {
    packed: BitVec,
}

/// The bits a row holds, first index first: what `BitVec` yields for the
/// indices `0..len()`.
pub uninterp spec fn bits(row: BitRow) -> Seq<bool>;

/// The largest number of bits a row can hold: `bitvec` keeps three bits of
/// the length word for its own use.
pub open spec fn max_bits() -> int {
    usize::MAX as int / 8
}

impl View for BitRow {
    type V = Seq<bool>;

    open spec fn view(&self) -> Seq<bool> {
        bits(*self)
    }
}

impl DeepView for BitRow {
    type V = Seq<bool>;

    open spec fn deep_view(&self) -> Seq<bool> {
        bits(*self)
    }
}

/// `BitVec::repeat`: a fresh vector of `len` copies of `bit`. The call
/// panics for a length beyond `max_bits()`, which the precondition excludes.
#[verifier::external_body]
fn packed_repeat(bit: bool, len: usize) -> (row: BitRow)
    requires
        len <= max_bits(),
    ensures
        bits(row) == Seq::new(len as nat, |i: int| bit),
{
    BitRow { packed: BitVec::repeat(bit, len) }
}

/// `BitVec::len`: the number of bits held, never more than `max_bits()`
/// because the length is stored shifted left by three.
#[verifier::external_body]
fn packed_len(row: &BitRow) -> (n: usize)
    ensures
        n == bits(*row).len(),
        n <= max_bits(),
{
    row.packed.len()
}

/// `Index<usize>` of a bit slice: the bit at `index`. The call panics out of
/// bounds, which the precondition excludes.
#[verifier::external_body]
fn packed_get(row: &BitRow, index: usize) -> (bit: bool)
    requires
        index < bits(*row).len(),
    ensures
        bit == bits(*row)[index as int],
{
    row.packed[index]
}

/// `BitSlice::set`: overwrites the bit at `index` and leaves every other bit
/// and the length alone. The call panics out of bounds, which the
/// precondition excludes.
#[verifier::external_body]
fn packed_set(row: &mut BitRow, index: usize, value: bool)
    requires
        index < bits(*old(row)).len(),
    ensures
        bits(*final(row)) == bits(*old(row)).update(index as int, value),
{
    row.packed.set(index, value)
}

impl BitRow {
    /// A row of `len` copies of `bit`.
    pub fn repeat(bit: bool, len: usize) -> (row: BitRow)
        requires
            len <= max_bits(),
        ensures
            row@.len() == len,
            forall|i: int| 0 <= i < len ==> row@[i] == bit,
    {
        packed_repeat(bit, len)
    }

    /// The number of bits in the row.
    pub fn len(&self) -> (n: usize)
        ensures
            n == self@.len(),
            n <= max_bits(),
    {
        packed_len(self)
    }

    /// The bit at `index`.
    pub fn get(&self, index: usize) -> (bit: bool)
        requires
            index < self@.len(),
        ensures
            bit == self@[index as int],
    {
        packed_get(self, index)
    }

    /// Overwrites the bit at `index` with `value`.
    pub fn set(&mut self, index: usize, value: bool)
        requires
            index < old(self)@.len(),
        ensures
            final(self)@ == old(self)@.update(index as int, value),
    {
        packed_set(self, index, value)
    }
}

} // verus!
