//! Bencode: the length-prefixed, self-delimiting encoding of integers, byte
//! strings, lists and dictionaries.
//!
//! The crate holds a value model ([`Benc`], with the mathematical model
//! [`Value`]), an encoder that produces canonical bytes, and a decoder that
//! turns bytes back into values and reports each kind of malformed input as
//! a distinct [`DecodeError`].
//!
//! Decoding is lenient and encoding is strict: the decoder takes the
//! entries of a dictionary in any order and lets the last entry for a key
//! win, and the encoder writes them in ascending key order. A strict
//! decoder, which takes canonical bytes only, is there for those who want
//! it. What decoding and encoding are to each other is proved in
//! [`roundtrip`].

pub mod convert;
pub mod decimal;
pub mod decode;
pub mod dict;
pub mod encode;
pub mod grammar;
pub mod order;
pub mod roundtrip;
pub mod token;
pub mod value;

pub use crate::convert::pair_vect_to_benc;
pub use crate::decode::{
    decode, decode_benc, decode_exact, decode_exact_strict, decode_strict, parse_benc,
    DEFAULT_MAX_DEPTH,
};
pub use crate::dict::BMap;
pub use crate::encode::{encode, BEncodable};
pub use crate::grammar::DecodeError;
pub use crate::value::{BDict, BList, Benc, Value};
