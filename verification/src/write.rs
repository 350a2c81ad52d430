//! The types that can be written to a stream, and how each is laid out.
use crate::endianness::Endianness;
use crate::error::BitError;
use crate::num::BitInt;
use crate::writestream::{int_bits, text_bits, BitWriteStream};
use vstd::prelude::*;
use vstd::utf8::encode_utf8;

verus! {

/// A type that is written to a stream without a size given from outside.
pub trait BitWrite<E: Endianness> {
    /// The bits that writing the value appends, also where the write fails
    /// part of the way.
    spec fn written(&self) -> Seq<bool>;

    /// The error that writing the value ends in, if it fails.
    spec fn failure(&self) -> Option<BitError>;

    /// Writes the value at the end of the stream.
    fn write(&self, stream: &mut BitWriteStream<E>) -> (outcome: Result<(), BitError>)
        requires
            old(stream).wf(),
            old(stream).bits().len() + self.written().len() <= usize::MAX,
        ensures
            final(stream).wf(),
            final(stream).prefix() == old(stream).prefix(),
            final(stream).bits() == old(stream).bits() + self.written(),
            match self.failure() {
                Some(error) => outcome == Err::<(), BitError>(error),
                None => outcome is Ok,
            },
    ;
}

/// A type that is written to a stream with a size given from outside: for an
/// integer the number of bits, for a string the number of bytes.
pub trait BitWriteSized<E: Endianness> {
    /// The bits that writing the value with size `size` appends.
    spec fn written_sized(&self, size: nat) -> Seq<bool>;

    /// The error that writing the value with size `size` ends in, if it
    /// fails.
    spec fn failure_sized(&self, size: nat) -> Option<BitError>;

    /// Writes the value at the end of the stream.
    fn write_sized(&self, stream: &mut BitWriteStream<E>, size: usize) -> (outcome: Result<
        (),
        BitError,
    >)
        requires
            old(stream).wf(),
            old(stream).bits().len() + self.written_sized(size as nat).len() <= usize::MAX,
        ensures
            final(stream).wf(),
            final(stream).prefix() == old(stream).prefix(),
            final(stream).bits() == old(stream).bits() + self.written_sized(size as nat),
            match self.failure_sized(size as nat) {
                Some(error) => outcome == Err::<(), BitError>(error),
                None => outcome is Ok,
            },
    ;
}

/// An integer is written in its full width.
impl<E: Endianness, T: BitInt> BitWrite<E> for T {
    open spec fn written(&self) -> Seq<bool> {
        int_bits(E::little(), *self, T::width())
    }

    open spec fn failure(&self) -> Option<BitError> {
        None
    }

    fn write(&self, stream: &mut BitWriteStream<E>) -> (outcome: Result<(), BitError>) {
        stream.write_int::<T>(*self, T::bit_width())
    }
}

/// An integer is written in as many bits as the size says, its low ones; a
/// size above its width is refused.
impl<E: Endianness, T: BitInt> BitWriteSized<E> for T {
    open spec fn written_sized(&self, size: nat) -> Seq<bool> {
        if size > T::width() {
            Seq::empty()
        } else {
            int_bits(E::little(), *self, size)
        }
    }

    open spec fn failure_sized(&self, size: nat) -> Option<BitError> {
        if size > T::width() {
            Some(BitError::TooManyBits { requested: size as usize, max: T::width() as usize })
        } else {
            None
        }
    }

    fn write_sized(&self, stream: &mut BitWriteStream<E>, size: usize) -> (outcome: Result<
        (),
        BitError,
    >) {
        stream.write_int::<T>(*self, size)
    }
}

/// A boolean is one bit.
impl<E: Endianness> BitWrite<E> for bool {
    open spec fn written(&self) -> Seq<bool> {
        seq![*self]
    }

    open spec fn failure(&self) -> Option<BitError> {
        None
    }

    fn write(&self, stream: &mut BitWriteStream<E>) -> (outcome: Result<(), BitError>) {
        let outcome = stream.write_bool(*self);
        proof {
            assert(old(stream).bits().push(*self) =~= old(stream).bits() + seq![*self]);
        }
        outcome
    }
}

/// A string without a size is its bytes and then a zero byte.
impl<E: Endianness> BitWrite<E> for String {
    open spec fn written(&self) -> Seq<bool> {
        text_bits(E::little(), encode_utf8(self@), 1)
    }

    open spec fn failure(&self) -> Option<BitError> {
        None
    }

    fn write(&self, stream: &mut BitWriteStream<E>) -> (outcome: Result<(), BitError>) {
        stream.write_string(self.as_str(), None)
    }
}

/// A string with a size is its bytes and then zero bytes up to the size; a
/// text of more bytes than the size is refused.
impl<E: Endianness> BitWriteSized<E> for String {
    open spec fn written_sized(&self, size: nat) -> Seq<bool> {
        if size < encode_utf8(self@).len() {
            Seq::empty()
        } else {
            text_bits(E::little(), encode_utf8(self@), (size - encode_utf8(self@).len()) as nat)
        }
    }

    open spec fn failure_sized(&self, size: nat) -> Option<BitError> {
        if size < encode_utf8(self@).len() {
            Some(
                BitError::StringToLong {
                    string_length: encode_utf8(self@).len() as usize,
                    requested_length: size as usize,
                },
            )
        } else {
            None
        }
    }

    fn write_sized(&self, stream: &mut BitWriteStream<E>, size: usize) -> (outcome: Result<
        (),
        BitError,
    >) {
        stream.write_string(self.as_str(), Some(size))
    }
}

/// An optional value is one bit that says whether the value follows, and
/// then the value where it does.
impl<E: Endianness, T: BitWrite<E>> BitWrite<E> for Option<T> {
    open spec fn written(&self) -> Seq<bool> {
        match self {
            Some(value) => seq![true] + value.written(),
            None => seq![false],
        }
    }

    open spec fn failure(&self) -> Option<BitError> {
        match self {
            Some(value) => value.failure(),
            None => None,
        }
    }

    fn write(&self, stream: &mut BitWriteStream<E>) -> (outcome: Result<(), BitError>) {
        match self {
            Some(value) => {
                let _ = stream.write_bool(true);
                let outcome = value.write(stream);
                proof {
                    assert(old(stream).bits().push(true) + value.written() =~= old(stream).bits()
                        + (seq![true] + value.written()));
                }
                outcome
            },
            None => {
                let outcome = stream.write_bool(false);
                proof {
                    assert(old(stream).bits().push(false) =~= old(stream).bits() + seq![false]);
                }
                outcome
            },
        }
    }
}

} // verus!
