//! Reading and writing of bit fields that need not lie on byte boundaries,
//! in little-endian or big-endian bit order.
//!
//! A [`BitBuffer`] is a view of bytes that can be addressed bit by bit, and a
//! [`BitStream`] a cursor over it with typed, bounds-checked reads. A
//! [`BitWriteStream`] appends typed values to a byte container. The module
//! `bits` holds the model that every contract is stated over.
pub mod bits;
pub mod buffer;
pub mod endianness;
pub mod error;
pub mod laws;
pub mod num;
pub mod read;
pub mod stream;
pub mod word;
pub mod write;
pub mod writebuffer;
pub mod writestream;

pub use crate::buffer::BitBuffer;
pub use crate::endianness::{BigEndian, Endianness, LittleEndian};
pub use crate::error::{BitError, ReadError};
pub use crate::num::BitInt;
pub use crate::read::{BitRead, BitReadSized};
pub use crate::stream::BitStream;
pub use crate::write::{BitWrite, BitWriteSized};
pub use crate::writebuffer::WriteBuffer;
pub use crate::writestream::BitWriteStream;
