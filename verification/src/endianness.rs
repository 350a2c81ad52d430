//! The two bit orders, as types without state.
use vstd::prelude::*;

verus! {

/// A bit order, chosen at compile time. It fixes how the bits of a field are
/// ordered in the stream and how the bits of a stream are laid out in bytes;
/// readers and writers of one format must use the same one.
pub trait Endianness: Sized + Copy {
    /// Whether the first bit of a field is its least significant one.
    spec fn little() -> bool;

    /// Whether the first bit of a field is its least significant one.
    fn is_le() -> (le: bool)
        ensures
            le == Self::little(),
    ;

    /// Whether the first bit of a field is its most significant one.
    fn is_be() -> (be: bool)
        ensures
            be == !Self::little(),
    ;
}

/// Fields start at their least significant bit, bytes fill from the low end.
#[derive(Clone, Copy, Debug)]
pub struct LittleEndian;

/// Fields start at their most significant bit, bytes fill from the high end.
#[derive(Clone, Copy, Debug)]
pub struct BigEndian;

impl Endianness for LittleEndian {
    open spec fn little() -> bool {
        true
    }

    fn is_le() -> (le: bool) {
        true
    }

    fn is_be() -> (be: bool) {
        false
    }
}

impl Endianness for BigEndian {
    open spec fn little() -> bool {
        false
    }

    fn is_le() -> (le: bool) {
        false
    }

    fn is_be() -> (be: bool) {
        true
    }
}

} // verus!
