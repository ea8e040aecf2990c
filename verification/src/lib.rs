//! A fountain-code engine: an object is cut into source blocks, each block is
//! encoded into an unbounded stream of fixed-size symbols over GF(256), and
//! the object is rebuilt from any sufficiently large subset of them, in
//! whatever order the symbols arrive.
//!
//! The modules, leaves first:
//!
//! - `gf256`: the arithmetic of the field, with its laws;
//! - `linear` and `solver`: systems of linear equations over the field, and
//!   the solver that returns the solution exactly when there is one and only
//!   one;
//! - `tables`, `params`, `rand`: the fixed tables, the parameters of a block
//!   size, and the generators of pseudo-random numbers, degrees and tuples;
//! - `matrix` and `system`: the LDPC, HDPC and LT rows, and the system of
//!   equations of a block;
//! - `packet`: the encoding packet and its wire format;
//! - `block_encoder` and `block_decoder`: the encoder and the decoder of one
//!   source block;
//! - `oti`, `encoder`, `decoder`: the transmission parameters of an object,
//!   and the encoder and the decoder of an object;
//! - `laws`, `order_laws`, `object_laws`, `object_order_laws`: what holds of
//!   a decoder that is fed the packets of an encoder: round trip, erasure
//!   tolerance, insufficiency, determinism, idempotence and independence of
//!   the order of delivery.
pub mod gf256;
pub mod linear;
pub mod solver;
pub mod tables;
pub mod params;
pub mod rand;
pub mod matrix;
pub mod error;
pub mod packet;
pub mod system;
pub mod block_encoder;
pub mod block_decoder;
pub mod oti;
pub mod encoder;
pub mod decoder;
pub mod laws;
pub mod order_laws;
pub mod object_laws;
pub mod object_order_laws;

pub use block_decoder::SourceBlockDecoder;
pub use block_encoder::SourceBlockEncoder;
pub use decoder::Decoder;
pub use encoder::Encoder;
pub use error::Error;
pub use oti::ObjectTransmissionInformation;
pub use packet::EncodingPacket;
