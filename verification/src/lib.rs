//! A bijective positional-notation codec between non-negative integers and
//! strings over a caller-supplied alphabet, together with a generator of
//! time-plus-randomness unique identifiers.

mod codec;
mod error;
mod uid;

pub use codec::all_in_alphabet;
pub use codec::canonical;
pub use codec::decode;
pub use codec::decode_spec;
pub use codec::digit_value;
pub use codec::encode;
pub use codec::encode_spec;
pub use codec::lemma_decode_append;
pub use codec::lemma_decode_empty;
pub use codec::lemma_decode_nonneg;
pub use codec::lemma_decode_positive;
pub use codec::lemma_decode_prefix;
pub use codec::lemma_digit_value_unique;
pub use codec::lemma_encode_closure;
pub use codec::lemma_encode_length;
pub use codec::lemma_encode_of_decode;
pub use codec::lemma_round_trip;
pub use codec::valid_alphabet;
pub use error::Error;
pub use uid::uid128;
pub use uid::uid128_from_parts;
pub use uid::uid64;
pub use uid::uid64_from_parts;
