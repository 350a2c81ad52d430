//! The types that can be read from a stream, and how each is laid out.
use crate::endianness::Endianness;
use crate::error::ReadError;
use crate::num::BitInt;
use crate::stream::{bool_reads, int_reads, text_reads, BitStream};
use vstd::prelude::*;

verus! {

/// A type that is read from a stream without a size given from outside.
pub trait BitRead<E: Endianness>: Sized {
    /// Whether reading at position `pos` of `bits` gives `outcome` and
    /// leaves the position at `end`.
    spec fn reads(bits: Seq<bool>, pos: nat, outcome: Result<Self, ReadError>, end: nat) -> bool;

    /// Reads the value at the stream's position. A failure leaves the
    /// position where the failing part left it.
    fn read(stream: &mut BitStream<E>) -> (outcome: Result<Self, ReadError>)
        requires
            old(stream).wf(),
        ensures
            final(stream).wf(),
            final(stream).bits() == old(stream).bits(),
            old(stream).position() <= final(stream).position(),
            Self::reads(old(stream).bits(), old(stream).position(), outcome, final(stream).position()),
    ;
}

/// A type that is read from a stream with a size given from outside: for an
/// integer the number of bits, for a string the number of bytes, for a
/// vector the number of items.
pub trait BitReadSized<E: Endianness>: Sized {
    /// Whether reading with size `size` at position `pos` of `bits` gives
    /// `outcome` and leaves the position at `end`.
    spec fn reads_sized(
        bits: Seq<bool>,
        pos: nat,
        size: nat,
        outcome: Result<Self, ReadError>,
        end: nat,
    ) -> bool;

    /// Reads the value at the stream's position. A failure leaves the
    /// position where the failing part left it.
    fn read(stream: &mut BitStream<E>, size: usize) -> (outcome: Result<Self, ReadError>)
        requires
            old(stream).wf(),
        ensures
            final(stream).wf(),
            final(stream).bits() == old(stream).bits(),
            old(stream).position() <= final(stream).position(),
            Self::reads_sized(
                old(stream).bits(),
                old(stream).position(),
                size as nat,
                outcome,
                final(stream).position(),
            ),
    ;
}

/// An integer is read in its full width.
impl<E: Endianness, T: BitInt> BitRead<E> for T {
    open spec fn reads(bits: Seq<bool>, pos: nat, outcome: Result<T, ReadError>, end: nat) -> bool {
        int_reads::<T>(E::little(), bits, pos, T::width(), outcome, end)
    }

    fn read(stream: &mut BitStream<E>) -> (outcome: Result<T, ReadError>) {
        stream.read_int::<T>(T::bit_width())
    }
}

/// An integer is read from as many bits as the size says.
impl<E: Endianness, T: BitInt> BitReadSized<E> for T {
    open spec fn reads_sized(
        bits: Seq<bool>,
        pos: nat,
        size: nat,
        outcome: Result<T, ReadError>,
        end: nat,
    ) -> bool {
        int_reads::<T>(E::little(), bits, pos, size, outcome, end)
    }

    fn read(stream: &mut BitStream<E>, size: usize) -> (outcome: Result<T, ReadError>) {
        stream.read_int::<T>(size)
    }
}

/// A boolean is one bit.
impl<E: Endianness> BitRead<E> for bool {
    open spec fn reads(bits: Seq<bool>, pos: nat, outcome: Result<bool, ReadError>, end: nat) -> bool {
        bool_reads(bits, pos, outcome, end)
    }

    fn read(stream: &mut BitStream<E>) -> (outcome: Result<bool, ReadError>) {
        stream.read_bool()
    }
}

/// A string without a size runs up to a zero byte or the end of the stream.
impl<E: Endianness> BitRead<E> for String {
    open spec fn reads(bits: Seq<bool>, pos: nat, outcome: Result<String, ReadError>, end: nat) -> bool {
        text_reads(E::little(), bits, pos, None, outcome, end)
    }

    fn read(stream: &mut BitStream<E>) -> (outcome: Result<String, ReadError>) {
        stream.read_string(None)
    }
}

/// A string with a size takes that many bytes.
impl<E: Endianness> BitReadSized<E> for String {
    open spec fn reads_sized(
        bits: Seq<bool>,
        pos: nat,
        size: nat,
        outcome: Result<String, ReadError>,
        end: nat,
    ) -> bool {
        text_reads(E::little(), bits, pos, Some(size), outcome, end)
    }

    fn read(stream: &mut BitStream<E>, size: usize) -> (outcome: Result<String, ReadError>) {
        stream.read_string(Some(size))
    }
}

/// An optional value is one bit that says whether the value follows, and
/// then the value where it does.
impl<E: Endianness, T: BitRead<E>> BitRead<E> for Option<T> {
    open spec fn reads(
        bits: Seq<bool>,
        pos: nat,
        outcome: Result<Option<T>, ReadError>,
        end: nat,
    ) -> bool {
        if pos >= bits.len() {
            &&& outcome == Err::<Option<T>, ReadError>(
                ReadError::NotEnoughData { requested: 1, bits_left: 0 },
            )
            &&& end == pos
        } else if !bits[pos as int] {
            &&& outcome == Ok::<Option<T>, ReadError>(None)
            &&& end == pos + 1
        } else {
            match outcome {
                Ok(Some(value)) => T::reads(bits, pos + 1, Ok(value), end),
                Ok(None) => false,
                Err(error) => T::reads(bits, pos + 1, Err(error), end),
            }
        }
    }

    fn read(stream: &mut BitStream<E>) -> (outcome: Result<Option<T>, ReadError>) {
        match stream.read_bool() {
            Err(error) => Err(error),
            Ok(false) => Ok(None),
            Ok(true) => match T::read(stream) {
                Ok(value) => Ok(Some(value)),
                Err(error) => Err(error),
            },
        }
    }
}

/// The items of `items` were read one after another: item `i` from position
/// `stops[i]` to position `stops[i + 1]`.
pub open spec fn reads_items<E: Endianness, T: BitRead<E>>(
    bits: Seq<bool>,
    items: Seq<T>,
    stops: Seq<nat>,
) -> bool {
    &&& stops.len() == items.len() + 1
    &&& forall|i: int|
        #![trigger items[i]]
        0 <= i < items.len() ==> T::reads(bits, stops[i], Ok(items[i]), stops[i + 1])
}

/// A vector is as many items as the size says, one after another. The first
/// item that fails ends the read with its error.
impl<E: Endianness, T: BitRead<E>> BitReadSized<E> for Vec<T> {
    open spec fn reads_sized(
        bits: Seq<bool>,
        pos: nat,
        size: nat,
        outcome: Result<Vec<T>, ReadError>,
        end: nat,
    ) -> bool {
        match outcome {
            Ok(items) => items@.len() == size && exists|stops: Seq<nat>| #[trigger]
                reads_items::<E, T>(bits, items@, stops) && stops[0] == pos && stops.last()
                    == end,
            Err(error) => exists|done: Seq<T>, stops: Seq<nat>| #[trigger]
                reads_items::<E, T>(bits, done, stops) && done.len() < size && stops[0] == pos
                    && T::reads(bits, stops.last(), Err(error), end),
        }
    }

    fn read(stream: &mut BitStream<E>, size: usize) -> (outcome: Result<Vec<T>, ReadError>) {
        let ghost bits = stream.bits();
        let ghost pos = stream.position();
        let ghost mut stops: Seq<nat> = seq![pos];
        let mut items: Vec<T> = Vec::new();
        let mut k: usize = 0;
        while k < size
            invariant
                stream.wf(),
                bits == old(stream).bits(),
                pos == old(stream).position(),
                stream.bits() == bits,
                pos <= stream.position(),
                k <= size,
                items@.len() == k,
                reads_items::<E, T>(bits, items@, stops),
                stops[0] == pos,
                stops.last() == stream.position(),
            decreases size - k,
        {
            let ghost done = items@;
            match T::read(stream) {
                Ok(item) => {
                    let ghost last = item;
                    items.push(item);
                    proof {
                        stops = stops.push(stream.position());
                        assert forall|i: int| 0 <= i < items@.len() implies T::reads(
                            bits,
                            stops[i],
                            Ok(#[trigger] items@[i]),
                            stops[i + 1],
                        ) by {
                            if i < done.len() {
                                assert(items@[i] == done[i]);
                            } else {
                                assert(items@[i] == last);
                            }
                        }
                    }
                },
                Err(error) => {
                    return Err(error);
                },
            }
            k = k + 1;
        }
        Ok(items)
    }
}

} // verus!
