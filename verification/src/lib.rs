//! Packing of unsigned integers of 1 to 64 bits into a byte buffer at any bit
//! alignment, and reading them back in the same order.
//!
//! A [`Packer`] owns the bytes it fills; an [`Unpacker`] borrows the bytes it
//! reads. Both stand for a stream of bits: [`stream`] says how the bits lie in
//! bytes, [`layout`] which bits a field takes, and [`fields`] what comes of
//! packing and reading one field after the other.

pub mod error;
pub mod fields;
pub mod layout;
pub mod packer;
pub mod stream;
pub mod unpacker;

pub use error::PackError;
pub use packer::Packer;
pub use unpacker::Unpacker;
