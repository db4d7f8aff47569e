//! What it means for a type to have a wire format.

use crate::error::DecodeError;
use vstd::prelude::*;

verus! {

/// Bytes that one coefficient takes on the wire.
pub const COEFF_BYTES: usize = 8;

/// 16-bit words that one coefficient takes on the wire.
pub const COEFF_WORDS: usize = 4;

/// The outcome of a decoder, with the decoded value replaced by its view.
pub open spec fn decoded_view<S: View>(res: Result<S, DecodeError>) -> Result<S::V, DecodeError> {
    match res {
        Ok(value) => Ok(value@),
        Err(e) => Err(e),
    }
}

/// A type with a wire format in bytes and one in 16-bit words.
///
/// The four spec functions are the format: what a value is written as, and
/// what a block is read as. The four executable functions compute them.
pub trait Serializable: View + Sized {
    /// The bytes that a value with view `v` is written as.
    spec fn byte_image(v: Self::V) -> Seq<u8>;

    /// What `bytes` are read as: the view of a value, or the reason why they
    /// are the image of none.
    spec fn byte_parse(bytes: Seq<u8>) -> Result<Self::V, DecodeError>;

    /// The 16-bit words that a value with view `v` is written as.
    spec fn word_image(v: Self::V) -> Seq<u16>;

    /// What `words` are read as.
    spec fn word_parse(words: Seq<u16>) -> Result<Self::V, DecodeError>;

    /// Writes the value as bytes.
    fn to_bytes(&self) -> (out: Vec<u8>)
        ensures
            out@ == Self::byte_image(self@),
    ;

    /// Reads a value from bytes.
    fn from_bytes(bytes: &Vec<u8>) -> (res: Result<Self, DecodeError>)
        ensures
            decoded_view(res) == Self::byte_parse(bytes@),
    ;

    /// Writes the value as 16-bit words.
    fn to_bytes_u16(&self) -> (out: Vec<u16>)
        ensures
            out@ == Self::word_image(self@),
    ;

    /// Reads a value from 16-bit words.
    fn from_bytes_u16(words: &Vec<u16>) -> (res: Result<Self, DecodeError>)
        ensures
            decoded_view(res) == Self::word_parse(words@),
    ;
}

/// A wire format fit for the coefficients of a polynomial: every value takes
/// `COEFF_BYTES` bytes or `COEFF_WORDS` words, a shorter block is reported as
/// truncated, and what was written is read back unchanged.
pub trait FixedWidth: Serializable {
    /// Every byte image has the same length.
    proof fn lemma_byte_width(v: Self::V)
        ensures
            Self::byte_image(v).len() == COEFF_BYTES,
    ;

    /// Every word image has the same length.
    proof fn lemma_word_width(v: Self::V)
        ensures
            Self::word_image(v).len() == COEFF_WORDS,
    ;

    /// A block of bytes too short to hold a value is reported as truncated.
    proof fn lemma_byte_truncated(bytes: Seq<u8>)
        requires
            bytes.len() < COEFF_BYTES,
        ensures
            Self::byte_parse(bytes) == Err::<Self::V, DecodeError>(DecodeError::TruncatedInput),
    ;

    /// A block of words too short to hold a value is reported as truncated.
    proof fn lemma_word_truncated(words: Seq<u16>)
        requires
            words.len() < COEFF_WORDS,
        ensures
            Self::word_parse(words) == Err::<Self::V, DecodeError>(DecodeError::TruncatedInput),
    ;

    /// Reading the bytes of a value gives the value.
    proof fn lemma_byte_round_trip(v: Self::V)
        ensures
            Self::byte_parse(Self::byte_image(v)) == Ok::<Self::V, DecodeError>(v),
    ;

    /// Reading the words of a value gives the value.
    proof fn lemma_word_round_trip(v: Self::V)
        ensures
            Self::word_parse(Self::word_image(v)) == Ok::<Self::V, DecodeError>(v),
    ;
}

} // verus!
