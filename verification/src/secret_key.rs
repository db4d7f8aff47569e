//! Secret keys and their wire format, which is that of the polynomial inside.

use crate::error::DecodeError;
use crate::rqpoly::{PolyView, RqPoly};
use crate::traits::{decoded_view, FixedWidth, Serializable, COEFF_BYTES, COEFF_WORDS};
use vstd::prelude::*;

verus! {

/// A secret key: one ring polynomial, set apart by its type.
#[derive(Clone, Debug, PartialEq, Eq)]
pub struct SecretKey<T>(pub RqPoly<T>);

impl<T: View> View for SecretKey<T> {
    type V = PolyView<T::V>;

    open spec fn view(&self) -> PolyView<T::V> {
        self.0@
    }
}

impl<T: FixedWidth> Serializable for SecretKey<T> {
    /// The byte image of the polynomial, with nothing added.
    open spec fn byte_image(v: PolyView<T::V>) -> Seq<u8> {
        RqPoly::<T>::byte_image(v)
    }

    /// The whole block is read as one polynomial.
    open spec fn byte_parse(bytes: Seq<u8>) -> Result<PolyView<T::V>, DecodeError> {
        RqPoly::<T>::byte_parse(bytes)
    }

    /// The word image of the polynomial, with nothing added.
    open spec fn word_image(v: PolyView<T::V>) -> Seq<u16> {
        RqPoly::<T>::word_image(v)
    }

    /// The whole block is read as one polynomial.
    open spec fn word_parse(words: Seq<u16>) -> Result<PolyView<T::V>, DecodeError> {
        RqPoly::<T>::word_parse(words)
    }

    fn to_bytes(&self) -> (out: Vec<u8>)
        ensures
            out@ == RqPoly::<T>::byte_image(self.0@),
            out@.len() == 1 + COEFF_BYTES * self.0.coeffs@.len(),
    {
        self.0.to_bytes()
    }

    fn from_bytes(bytes: &Vec<u8>) -> (res: Result<Self, DecodeError>)
        ensures
            decoded_view(res) == RqPoly::<T>::byte_parse(bytes@),
            bytes@.len() < 1 ==> res matches Err(DecodeError::TruncatedInput),
            bytes@.len() >= 1 && (bytes@.len() - 1) % (COEFF_BYTES as int) != 0 ==> res matches Err(
                DecodeError::LengthMismatch,
            ),
    {
        match RqPoly::<T>::from_bytes(bytes) {
            Err(e) => Err(e),
            Ok(p) => Ok(SecretKey(p)),
        }
    }

    fn to_bytes_u16(&self) -> (out: Vec<u16>)
        ensures
            out@ == RqPoly::<T>::word_image(self.0@),
            out@.len() == 1 + COEFF_WORDS * self.0.coeffs@.len(),
    {
        self.0.to_bytes_u16()
    }

    fn from_bytes_u16(words: &Vec<u16>) -> (res: Result<Self, DecodeError>)
        ensures
            decoded_view(res) == RqPoly::<T>::word_parse(words@),
            words@.len() < 1 ==> res matches Err(DecodeError::TruncatedInput),
            words@.len() >= 1 && (words@.len() - 1) % (COEFF_WORDS as int) != 0 ==> res matches Err(
                DecodeError::LengthMismatch,
            ),
    {
        match RqPoly::<T>::from_bytes_u16(words) {
            Err(e) => Err(e),
            Ok(p) => Ok(SecretKey(p)),
        }
    }
}

impl<T: FixedWidth> SecretKey<T> {
    /// Reads a secret key whose polynomial has `degree` coefficients from
    /// bytes.
    pub fn from_bytes_with_degree(bytes: &Vec<u8>, degree: usize) -> (res: Result<
        Self,
        DecodeError,
    >)
        ensures
            decoded_view(res) == RqPoly::<T>::byte_parse_with_degree(bytes@, degree as nat),
            res matches Ok(k) ==> k.0.coeffs@.len() == degree,
    {
        match RqPoly::<T>::from_bytes_with_degree(bytes, degree) {
            Err(e) => Err(e),
            Ok(p) => Ok(SecretKey(p)),
        }
    }

    /// Reads a secret key whose polynomial has `degree` coefficients from
    /// 16-bit words.
    pub fn from_bytes_u16_with_degree(words: &Vec<u16>, degree: usize) -> (res: Result<
        Self,
        DecodeError,
    >)
        ensures
            decoded_view(res) == RqPoly::<T>::word_parse_with_degree(words@, degree as nat),
            res matches Ok(k) ==> k.0.coeffs@.len() == degree,
    {
        match RqPoly::<T>::from_bytes_u16_with_degree(words, degree) {
            Err(e) => Err(e),
            Ok(p) => Ok(SecretKey(p)),
        }
    }

    /// Reading what a secret key was written as gives the key.
    pub proof fn lemma_round_trip(k: PolyView<T::V>)
        ensures
            Self::byte_parse(Self::byte_image(k)) == Ok::<PolyView<T::V>, DecodeError>(k),
            Self::word_parse(Self::word_image(k)) == Ok::<PolyView<T::V>, DecodeError>(k),
    {
        RqPoly::<T>::lemma_round_trip(k);
    }

    /// A block with no unit in it is reported as truncated.
    pub proof fn lemma_truncated(bytes: Seq<u8>, words: Seq<u16>)
        ensures
            bytes.len() < 1 ==> Self::byte_parse(bytes) == Err::<PolyView<T::V>, DecodeError>(
                DecodeError::TruncatedInput,
            ),
            words.len() < 1 ==> Self::word_parse(words) == Err::<PolyView<T::V>, DecodeError>(
                DecodeError::TruncatedInput,
            ),
    {
    }
}

} // verus!
