//! Polynomials and ciphertexts over plain scalars: since every eight bytes
//! are a scalar, a block's length alone decides whether it can be read.

use crate::ciphertext::FVCiphertext;
use crate::error::DecodeError;
use crate::radix::{be_value, unpack_words};
use crate::rqpoly::{coeffs_byte_parse, coeffs_word_parse, PolyView, RqPoly};
use crate::scalar::Scalar;
use crate::traits::Serializable;
use vstd::prelude::*;

verus! {

/// The scalars that the 8-byte chunks of `body` denote, in order.
pub open spec fn scalars_of_bytes(body: Seq<u8>) -> Seq<u64> {
    Seq::new(body.len() / 8, |i: int| be_value(body.subrange(8 * i, 8 * i + 8)) as u64)
}

/// The scalars that the 4-word chunks of `body` denote, in order.
pub open spec fn scalars_of_words(body: Seq<u16>) -> Seq<u64> {
    Seq::new(
        body.len() / 4,
        |i: int| be_value(unpack_words(body.subrange(4 * i, 4 * i + 4))) as u64,
    )
}

/// The polynomial over plain scalars that a block of the right length is
/// read as.
pub open spec fn scalar_poly_of_bytes(bytes: Seq<u8>) -> PolyView<u64> {
    PolyView { coeffs: scalars_of_bytes(bytes.skip(1)), is_ntt_form: bytes[0] != 0 }
}

/// The polynomial over plain scalars that a block of the right length is
/// read as.
pub open spec fn scalar_poly_of_words(words: Seq<u16>) -> PolyView<u64> {
    PolyView { coeffs: scalars_of_words(words.skip(1)), is_ntt_form: words[0] != 0 }
}

/// Every whole number of 8-byte chunks is read as that many plain scalars.
pub proof fn lemma_scalars_of_bytes(body: Seq<u8>)
    requires
        body.len() % 8 == 0,
    ensures
        coeffs_byte_parse::<Scalar>(body) == Ok::<Seq<u64>, DecodeError>(scalars_of_bytes(body)),
    decreases body.len(),
{
    if body.len() >= 8 {
        let cut = body.len() - 8;
        let front = body.take(cut);
        lemma_scalars_of_bytes(front);
        assert forall|i: int| 0 <= i < cut / 8 implies scalars_of_bytes(front)[i]
            == scalars_of_bytes(body)[i] by {
            assert(front.subrange(8 * i, 8 * i + 8) =~= body.subrange(8 * i, 8 * i + 8));
        }
        assert(body.skip(cut) =~= body.subrange(8 * (cut / 8), 8 * (cut / 8) + 8));
        assert(scalars_of_bytes(front).push(be_value(body.skip(cut)) as u64) =~= scalars_of_bytes(
            body,
        ));
    } else {
        assert(scalars_of_bytes(body) =~= Seq::<u64>::empty());
    }
}

/// Every whole number of 4-word chunks is read as that many plain scalars.
pub proof fn lemma_scalars_of_words(body: Seq<u16>)
    requires
        body.len() % 4 == 0,
    ensures
        coeffs_word_parse::<Scalar>(body) == Ok::<Seq<u64>, DecodeError>(scalars_of_words(body)),
    decreases body.len(),
{
    if body.len() >= 4 {
        let cut = body.len() - 4;
        let front = body.take(cut);
        lemma_scalars_of_words(front);
        assert forall|i: int| 0 <= i < cut / 4 implies scalars_of_words(front)[i]
            == scalars_of_words(body)[i] by {
            assert(front.subrange(4 * i, 4 * i + 4) =~= body.subrange(4 * i, 4 * i + 4));
        }
        assert(body.skip(cut).take(4) =~= body.subrange(4 * (cut / 4), 4 * (cut / 4) + 4));
        assert(scalars_of_words(front).push(
            be_value(unpack_words(body.skip(cut).take(4))) as u64,
        ) =~= scalars_of_words(body));
    } else {
        assert(scalars_of_words(body) =~= Seq::<u64>::empty());
    }
}

impl RqPoly<Scalar> {
    /// What a block of bytes is read as, by its length alone: nothing is
    /// truncated, a flag followed by a whole number of 8-byte chunks is a
    /// polynomial, and any other length does not match.
    pub proof fn lemma_byte_outcome(bytes: Seq<u8>)
        ensures
            Self::byte_parse(bytes) == if bytes.len() < 1 {
                Err::<PolyView<u64>, DecodeError>(DecodeError::TruncatedInput)
            } else if (bytes.len() - 1) % 8 != 0 {
                Err(DecodeError::LengthMismatch)
            } else {
                Ok(scalar_poly_of_bytes(bytes))
            },
    {
        if bytes.len() >= 1 && (bytes.len() - 1) % 8 == 0 {
            lemma_scalars_of_bytes(bytes.skip(1));
        }
    }

    /// What a block of words is read as, by its length alone: nothing is
    /// truncated, a flag followed by a whole number of 4-word chunks is a
    /// polynomial, and any other length does not match.
    pub proof fn lemma_word_outcome(words: Seq<u16>)
        ensures
            Self::word_parse(words) == if words.len() < 1 {
                Err::<PolyView<u64>, DecodeError>(DecodeError::TruncatedInput)
            } else if (words.len() - 1) % 4 != 0 {
                Err(DecodeError::LengthMismatch)
            } else {
                Ok(scalar_poly_of_words(words))
            },
    {
        if words.len() >= 1 && (words.len() - 1) % 4 == 0 {
            lemma_scalars_of_words(words.skip(1));
        }
    }
}

impl FVCiphertext<Scalar> {
    /// What a block of bytes is read as, by its length alone: fewer than two
    /// bytes are truncated, two halves that are each a flag and a whole
    /// number of 8-byte chunks are a ciphertext, and any other length does
    /// not match.
    pub proof fn lemma_byte_outcome(bytes: Seq<u8>)
        ensures
            Self::byte_parse(bytes) == if bytes.len() < 2 {
                Err::<(PolyView<u64>, PolyView<u64>), DecodeError>(DecodeError::TruncatedInput)
            } else if bytes.len() % 2 != 0 || (bytes.len() / 2 - 1) % 8 != 0 {
                Err(DecodeError::LengthMismatch)
            } else {
                Ok(
                    (
                        scalar_poly_of_bytes(bytes.take((bytes.len() / 2) as int)),
                        scalar_poly_of_bytes(bytes.skip((bytes.len() / 2) as int)),
                    ),
                )
            },
    {
        let half = (bytes.len() / 2) as int;
        if bytes.len() >= 2 && bytes.len() % 2 == 0 {
            RqPoly::<Scalar>::lemma_byte_outcome(bytes.take(half));
            RqPoly::<Scalar>::lemma_byte_outcome(bytes.skip(half));
        }
    }

    /// What a block of words is read as, by its length alone: fewer than two
    /// words are truncated, two halves that are each a flag and a whole
    /// number of 4-word chunks are a ciphertext, and any other length does
    /// not match.
    pub proof fn lemma_word_outcome(words: Seq<u16>)
        ensures
            Self::word_parse(words) == if words.len() < 2 {
                Err::<(PolyView<u64>, PolyView<u64>), DecodeError>(DecodeError::TruncatedInput)
            } else if words.len() % 2 != 0 || (words.len() / 2 - 1) % 4 != 0 {
                Err(DecodeError::LengthMismatch)
            } else {
                Ok(
                    (
                        scalar_poly_of_words(words.take((words.len() / 2) as int)),
                        scalar_poly_of_words(words.skip((words.len() / 2) as int)),
                    ),
                )
            },
    {
        let half = (words.len() / 2) as int;
        if words.len() >= 2 && words.len() % 2 == 0 {
            RqPoly::<Scalar>::lemma_word_outcome(words.take(half));
            RqPoly::<Scalar>::lemma_word_outcome(words.skip(half));
        }
    }
}

} // verus!
