//! Ciphertexts and their wire format: the images of the two halves, one
//! after the other, with nothing between them.

use crate::error::DecodeError;
use crate::rqpoly::{PolyView, RqPoly};
use crate::traits::{decoded_view, FixedWidth, Serializable, COEFF_BYTES, COEFF_WORDS};
use vstd::prelude::*;
use vstd::slice::{slice_subrange, slice_to_vec};

verus! {

/// A ciphertext: a pair of ring polynomials.
#[derive(Clone, Debug, PartialEq, Eq)]
pub struct FVCiphertext<T>(pub RqPoly<T>, pub RqPoly<T>);

impl<T: View> View for FVCiphertext<T> {
    type V = (PolyView<T::V>, PolyView<T::V>);

    open spec fn view(&self) -> (PolyView<T::V>, PolyView<T::V>) {
        (self.0@, self.1@)
    }
}

impl<T: FixedWidth> Serializable for FVCiphertext<T> {
    /// The byte image of the first half, then that of the second.
    open spec fn byte_image(v: (PolyView<T::V>, PolyView<T::V>)) -> Seq<u8> {
        RqPoly::<T>::byte_image(v.0) + RqPoly::<T>::byte_image(v.1)
    }

    /// Fewer than two bytes are truncated, and an odd number of bytes cannot
    /// be two halves of one length. Otherwise the block is cut in the middle
    /// and each part is read as a polynomial, the first part first.
    open spec fn byte_parse(bytes: Seq<u8>) -> Result<
        (PolyView<T::V>, PolyView<T::V>),
        DecodeError,
    > {
        if bytes.len() < 2 {
            Err(DecodeError::TruncatedInput)
        } else if bytes.len() % 2 != 0 {
            Err(DecodeError::LengthMismatch)
        } else {
            let half = (bytes.len() / 2) as int;
            match RqPoly::<T>::byte_parse(bytes.take(half)) {
                Err(e) => Err(e),
                Ok(c0) => match RqPoly::<T>::byte_parse(bytes.skip(half)) {
                    Err(e) => Err(e),
                    Ok(c1) => Ok((c0, c1)),
                },
            }
        }
    }

    /// The word image of the first half, then that of the second.
    open spec fn word_image(v: (PolyView<T::V>, PolyView<T::V>)) -> Seq<u16> {
        RqPoly::<T>::word_image(v.0) + RqPoly::<T>::word_image(v.1)
    }

    /// Fewer than two words are truncated, and an odd number of words cannot
    /// be two halves of one length. Otherwise the block is cut in the middle
    /// and each part is read as a polynomial, the first part first.
    open spec fn word_parse(words: Seq<u16>) -> Result<
        (PolyView<T::V>, PolyView<T::V>),
        DecodeError,
    > {
        if words.len() < 2 {
            Err(DecodeError::TruncatedInput)
        } else if words.len() % 2 != 0 {
            Err(DecodeError::LengthMismatch)
        } else {
            let half = (words.len() / 2) as int;
            match RqPoly::<T>::word_parse(words.take(half)) {
                Err(e) => Err(e),
                Ok(c0) => match RqPoly::<T>::word_parse(words.skip(half)) {
                    Err(e) => Err(e),
                    Ok(c1) => Ok((c0, c1)),
                },
            }
        }
    }

    fn to_bytes(&self) -> (out: Vec<u8>)
        ensures
            out@ == RqPoly::<T>::byte_image(self.0@) + RqPoly::<T>::byte_image(self.1@),
            out@.len() == RqPoly::<T>::byte_image(self.0@).len() + RqPoly::<T>::byte_image(
                self.1@,
            ).len(),
    {
        let mut out = self.0.to_bytes();
        let mut tail = self.1.to_bytes();
        out.append(&mut tail);
        out
    }

    fn from_bytes(bytes: &Vec<u8>) -> (res: Result<Self, DecodeError>)
        ensures
            decoded_view(res) == Self::byte_parse(bytes@),
            bytes@.len() < 2 ==> res matches Err(DecodeError::TruncatedInput),
            bytes@.len() >= 2 && bytes@.len() % 2 != 0 ==> res matches Err(
                DecodeError::LengthMismatch,
            ),
            res matches Ok(c) ==> c.0.coeffs@.len() == c.1.coeffs@.len() && bytes@.len() == 2
                + COEFF_BYTES * (c.0.coeffs@.len() + c.1.coeffs@.len()),
    {
        let n = bytes.len();
        if n < 2 {
            return Err(DecodeError::TruncatedInput);
        }
        if n % 2 != 0 {
            return Err(DecodeError::LengthMismatch);
        }
        let half = n / 2;
        let left = slice_to_vec(slice_subrange(bytes.as_slice(), 0, half));
        let right = slice_to_vec(slice_subrange(bytes.as_slice(), half, n));
        assert(left@ =~= bytes@.take(half as int));
        assert(right@ =~= bytes@.skip(half as int));
        match RqPoly::<T>::from_bytes(&left) {
            Err(e) => Err(e),
            Ok(c0) => match RqPoly::<T>::from_bytes(&right) {
                Err(e) => Err(e),
                Ok(c1) => Ok(FVCiphertext(c0, c1)),
            },
        }
    }

    fn to_bytes_u16(&self) -> (out: Vec<u16>)
        ensures
            out@ == RqPoly::<T>::word_image(self.0@) + RqPoly::<T>::word_image(self.1@),
            out@.len() == RqPoly::<T>::word_image(self.0@).len() + RqPoly::<T>::word_image(
                self.1@,
            ).len(),
    {
        let mut out = self.0.to_bytes_u16();
        let mut tail = self.1.to_bytes_u16();
        out.append(&mut tail);
        out
    }

    fn from_bytes_u16(words: &Vec<u16>) -> (res: Result<Self, DecodeError>)
        ensures
            decoded_view(res) == Self::word_parse(words@),
            words@.len() < 2 ==> res matches Err(DecodeError::TruncatedInput),
            words@.len() >= 2 && words@.len() % 2 != 0 ==> res matches Err(
                DecodeError::LengthMismatch,
            ),
            res matches Ok(c) ==> c.0.coeffs@.len() == c.1.coeffs@.len() && words@.len() == 2
                + COEFF_WORDS * (c.0.coeffs@.len() + c.1.coeffs@.len()),
    {
        let n = words.len();
        if n < 2 {
            return Err(DecodeError::TruncatedInput);
        }
        if n % 2 != 0 {
            return Err(DecodeError::LengthMismatch);
        }
        let half = n / 2;
        let left = slice_to_vec(slice_subrange(words.as_slice(), 0, half));
        let right = slice_to_vec(slice_subrange(words.as_slice(), half, n));
        assert(left@ =~= words@.take(half as int));
        assert(right@ =~= words@.skip(half as int));
        match RqPoly::<T>::from_bytes_u16(&left) {
            Err(e) => Err(e),
            Ok(c0) => match RqPoly::<T>::from_bytes_u16(&right) {
                Err(e) => Err(e),
                Ok(c1) => Ok(FVCiphertext(c0, c1)),
            },
        }
    }
}

impl<T: FixedWidth> FVCiphertext<T> {
    /// What `bytes` are read as when the reader knows how many coefficients
    /// each half has: a block shorter than the image of such a ciphertext is
    /// truncated, a longer one does not match, and one of that very length is
    /// read as any block is.
    pub open spec fn byte_parse_with_degree(bytes: Seq<u8>, degree: nat) -> Result<
        (PolyView<T::V>, PolyView<T::V>),
        DecodeError,
    > {
        if bytes.len() < 2 * (1 + COEFF_BYTES * degree) {
            Err(DecodeError::TruncatedInput)
        } else if bytes.len() > 2 * (1 + COEFF_BYTES * degree) {
            Err(DecodeError::LengthMismatch)
        } else {
            Self::byte_parse(bytes)
        }
    }

    /// Reads a ciphertext whose halves have `degree` coefficients each from
    /// bytes.
    pub fn from_bytes_with_degree(bytes: &Vec<u8>, degree: usize) -> (res: Result<
        Self,
        DecodeError,
    >)
        ensures
            decoded_view(res) == Self::byte_parse_with_degree(bytes@, degree as nat),
            res matches Ok(c) ==> c.0.coeffs@.len() == degree && c.1.coeffs@.len() == degree,
    {
        let n = bytes.len();
        let stride: usize = 2 * COEFF_BYTES;
        if n < 2 || (n - 2) / stride < degree {
            return Err(DecodeError::TruncatedInput);
        }
        if n - 2 > stride * degree {
            return Err(DecodeError::LengthMismatch);
        }
        Self::from_bytes(bytes)
    }

    /// What `words` are read as when the reader knows how many coefficients
    /// each half has: a block shorter than the image of such a ciphertext is
    /// truncated, a longer one does not match, and one of that very length is
    /// read as any block is.
    pub open spec fn word_parse_with_degree(words: Seq<u16>, degree: nat) -> Result<
        (PolyView<T::V>, PolyView<T::V>),
        DecodeError,
    > {
        if words.len() < 2 * (1 + COEFF_WORDS * degree) {
            Err(DecodeError::TruncatedInput)
        } else if words.len() > 2 * (1 + COEFF_WORDS * degree) {
            Err(DecodeError::LengthMismatch)
        } else {
            Self::word_parse(words)
        }
    }

    /// Reads a ciphertext whose halves have `degree` coefficients each from
    /// 16-bit words.
    pub fn from_bytes_u16_with_degree(words: &Vec<u16>, degree: usize) -> (res: Result<
        Self,
        DecodeError,
    >)
        ensures
            decoded_view(res) == Self::word_parse_with_degree(words@, degree as nat),
            res matches Ok(c) ==> c.0.coeffs@.len() == degree && c.1.coeffs@.len() == degree,
    {
        let n = words.len();
        let stride: usize = 2 * COEFF_WORDS;
        if n < 2 || (n - 2) / stride < degree {
            return Err(DecodeError::TruncatedInput);
        }
        if n - 2 > stride * degree {
            return Err(DecodeError::LengthMismatch);
        }
        Self::from_bytes_u16(words)
    }

    /// A ciphertext takes as many units as its two halves take together: two
    /// for the flags and one coefficient's width for each coefficient.
    pub proof fn lemma_image_len(c: (PolyView<T::V>, PolyView<T::V>))
        ensures
            Self::byte_image(c).len() == RqPoly::<T>::byte_image(c.0).len() + RqPoly::<
                T,
            >::byte_image(c.1).len(),
            Self::byte_image(c).len() == 2 + COEFF_BYTES * (c.0.coeffs.len() + c.1.coeffs.len()),
            Self::word_image(c).len() == RqPoly::<T>::word_image(c.0).len() + RqPoly::<
                T,
            >::word_image(c.1).len(),
            Self::word_image(c).len() == 2 + COEFF_WORDS * (c.0.coeffs.len() + c.1.coeffs.len()),
    {
        RqPoly::<T>::lemma_image_len(c.0);
        RqPoly::<T>::lemma_image_len(c.1);
    }

    /// Reading what a ciphertext was written as gives the ciphertext if its
    /// halves have the same number of coefficients, and only then: the block
    /// is cut in the middle, which is where the first half ends only if the
    /// second is as long.
    pub proof fn lemma_round_trip(c: (PolyView<T::V>, PolyView<T::V>))
        ensures
            Self::byte_parse(Self::byte_image(c)) == Ok::<
                (PolyView<T::V>, PolyView<T::V>),
                DecodeError,
            >(c) <==> c.0.coeffs.len() == c.1.coeffs.len(),
            Self::word_parse(Self::word_image(c)) == Ok::<
                (PolyView<T::V>, PolyView<T::V>),
                DecodeError,
            >(c) <==> c.0.coeffs.len() == c.1.coeffs.len(),
    {
        let bytes = Self::byte_image(c);
        let words = Self::word_image(c);
        let byte_half = (bytes.len() / 2) as int;
        let word_half = (words.len() / 2) as int;
        Self::lemma_image_len(c);
        RqPoly::<T>::lemma_image_len(c.0);
        RqPoly::<T>::lemma_image_len(c.1);
        if c.0.coeffs.len() == c.1.coeffs.len() {
            RqPoly::<T>::lemma_round_trip(c.0);
            RqPoly::<T>::lemma_round_trip(c.1);
            assert(bytes.take(byte_half) =~= RqPoly::<T>::byte_image(c.0));
            assert(bytes.skip(byte_half) =~= RqPoly::<T>::byte_image(c.1));
            assert(words.take(word_half) =~= RqPoly::<T>::word_image(c.0));
            assert(words.skip(word_half) =~= RqPoly::<T>::word_image(c.1));
        } else {
            RqPoly::<T>::lemma_parsed_len(bytes.take(byte_half), words.take(word_half));
            RqPoly::<T>::lemma_parsed_len(bytes.skip(byte_half), words.skip(word_half));
        }
    }

    /// Reading what a ciphertext with halves of `degree` coefficients each
    /// was written as, expecting that degree, gives the ciphertext.
    pub proof fn lemma_round_trip_with_degree(c: (PolyView<T::V>, PolyView<T::V>), degree: nat)
        requires
            c.0.coeffs.len() == degree,
            c.1.coeffs.len() == degree,
        ensures
            Self::byte_parse_with_degree(Self::byte_image(c), degree) == Ok::<
                (PolyView<T::V>, PolyView<T::V>),
                DecodeError,
            >(c),
            Self::word_parse_with_degree(Self::word_image(c), degree) == Ok::<
                (PolyView<T::V>, PolyView<T::V>),
                DecodeError,
            >(c),
    {
        Self::lemma_image_len(c);
        Self::lemma_round_trip(c);
    }

    /// A block of fewer than two units, too short for two flags, is reported
    /// as truncated.
    pub proof fn lemma_truncated(bytes: Seq<u8>, words: Seq<u16>)
        ensures
            bytes.len() < 2 ==> Self::byte_parse(bytes) == Err::<
                (PolyView<T::V>, PolyView<T::V>),
                DecodeError,
            >(DecodeError::TruncatedInput),
            words.len() < 2 ==> Self::word_parse(words) == Err::<
                (PolyView<T::V>, PolyView<T::V>),
                DecodeError,
            >(DecodeError::TruncatedInput),
    {
    }
}

} // verus!
