//! Decoders for the bit-packed sprite formats of two generations of a
//! handheld game, and the tile transposition that brings first-generation
//! output into display order.
//!
//! Every function works on bytes in memory and is total: an input that the
//! format does not allow is answered with a [`error::DecodeError`], never
//! with a panic or a partial result.
//!
//! * [`gen1`] decodes a first-generation sprite and transposes its tiles.
//!   What a stream stands for is said in [`plane`], over the bit cursor of
//!   [`bitstream`]; what transposition does is said in [`tiles`].
//! * [`gen2`] decodes a second-generation sprite. Its bit-reversing copy
//!   rests on [`reverse`].

pub mod bitstream;
pub mod error;
pub mod gen1;
pub mod gen2;
pub mod plane;
pub mod reverse;
pub mod tiles;
