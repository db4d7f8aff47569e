//! Modular scalars and their wire format.

use crate::error::DecodeError;
use crate::radix::{
    be_digits, be_value, lemma_be_digits_len, lemma_be_digits_of_value, lemma_be_limit_values,
    lemma_be_value_bound, lemma_be_value_of_digits, lemma_pack_unpack, lemma_unpack_pack,
    pack_be_words, pack_words, u64_from_be, u64_to_be, unpack_be_words, unpack_words,
};
use crate::traits::{FixedWidth, Serializable};
use vstd::prelude::*;

verus! {

/// An element of a ring of integers modulo a fixed modulus, held as its raw
/// 64-bit representative.
#[derive(Clone, Copy, Debug, PartialEq, Eq)]
pub struct Scalar {
    rep: u64,
}

impl View for Scalar {
    type V = u64;

    closed spec fn view(&self) -> u64 {
        self.rep
    }
}

impl Scalar {
    /// The scalar with representative `a`.
    pub fn new(a: u64) -> (s: Scalar)
        ensures
            s@ == a,
    {
        Scalar { rep: a }
    }

    /// The scalar with representative `a`, taken as it is.
    pub fn from_u64_raw(a: u64) -> (s: Scalar)
        ensures
            s@ == a,
    {
        Scalar { rep: a }
    }

    /// The raw representative.
    pub fn rep(&self) -> (a: u64)
        ensures
            a == self@,
    {
        self.rep
    }

    /// Two scalars with the same representative are the same scalar.
    pub proof fn lemma_view_injective(a: Scalar, b: Scalar)
        requires
            a@ == b@,
        ensures
            a == b,
    {
    }
}

impl Serializable for Scalar {
    /// The eight bytes of the representative, most significant first.
    open spec fn byte_image(v: u64) -> Seq<u8> {
        be_digits(v as nat, 8)
    }

    /// Exactly eight bytes are read as the 64-bit number they denote, most
    /// significant byte first; fewer are truncated, more do not match.
    open spec fn byte_parse(bytes: Seq<u8>) -> Result<u64, DecodeError> {
        if bytes.len() < 8 {
            Err(DecodeError::TruncatedInput)
        } else if bytes.len() > 8 {
            Err(DecodeError::LengthMismatch)
        } else {
            Ok(be_value(bytes) as u64)
        }
    }

    /// The byte image, packed two bytes to a word: four words.
    open spec fn word_image(v: u64) -> Seq<u16> {
        pack_words(be_digits(v as nat, 8))
    }

    /// The first four words are unpacked into eight bytes and read as the
    /// byte image is; words after them are not looked at. Fewer than four
    /// words are truncated.
    open spec fn word_parse(words: Seq<u16>) -> Result<u64, DecodeError> {
        if words.len() < 4 {
            Err(DecodeError::TruncatedInput)
        } else {
            Ok(be_value(unpack_words(words.take(4))) as u64)
        }
    }

    fn to_bytes(&self) -> (out: Vec<u8>)
        ensures
            out@ == be_digits(self@ as nat, 8),
            out@.len() == 8,
    {
        proof {
            lemma_be_digits_len(self@ as nat, 8);
        }
        u64_to_be(self.rep)
    }

    fn from_bytes(bytes: &Vec<u8>) -> (res: Result<Self, DecodeError>)
        ensures
            bytes@.len() < 8 ==> res matches Err(DecodeError::TruncatedInput),
            bytes@.len() > 8 ==> res matches Err(DecodeError::LengthMismatch),
            bytes@.len() == 8 ==> (res matches Ok(s) && s@ == be_value(bytes@)),
    {
        proof {
            lemma_be_value_bound(bytes@);
            lemma_be_limit_values();
        }
        if bytes.len() < 8 {
            Err(DecodeError::TruncatedInput)
        } else if bytes.len() > 8 {
            Err(DecodeError::LengthMismatch)
        } else {
            Ok(Scalar::new(u64_from_be(bytes)))
        }
    }

    fn to_bytes_u16(&self) -> (out: Vec<u16>)
        ensures
            out@ == pack_words(be_digits(self@ as nat, 8)),
            out@.len() == 4,
    {
        proof {
            lemma_be_digits_len(self@ as nat, 8);
        }
        let bytes = u64_to_be(self.rep);
        pack_be_words(&bytes)
    }

    fn from_bytes_u16(words: &Vec<u16>) -> (res: Result<Self, DecodeError>)
        ensures
            words@.len() < 4 ==> res matches Err(DecodeError::TruncatedInput),
            words@.len() >= 4 ==> (res matches Ok(s) && s@ == be_value(
                unpack_words(words@.take(4)),
            )),
    {
        proof {
            lemma_be_value_bound(unpack_words(words@.take(4)));
            lemma_be_limit_values();
        }
        if words.len() < 4 {
            Err(DecodeError::TruncatedInput)
        } else {
            let bytes = unpack_be_words(words, 4);
            Ok(Scalar::new(u64_from_be(&bytes)))
        }
    }
}

impl FixedWidth for Scalar {
    proof fn lemma_byte_width(v: u64) {
        lemma_be_digits_len(v as nat, 8);
    }

    proof fn lemma_word_width(v: u64) {
        lemma_be_digits_len(v as nat, 8);
    }

    proof fn lemma_byte_truncated(bytes: Seq<u8>) {
    }

    proof fn lemma_word_truncated(words: Seq<u16>) {
    }

    proof fn lemma_byte_round_trip(v: u64) {
        lemma_be_digits_len(v as nat, 8);
        lemma_be_limit_values();
        lemma_be_value_of_digits(v as nat, 8);
    }

    proof fn lemma_word_round_trip(v: u64) {
        let bytes = be_digits(v as nat, 8);
        lemma_be_digits_len(v as nat, 8);
        lemma_be_limit_values();
        lemma_be_value_of_digits(v as nat, 8);
        lemma_unpack_pack(bytes);
        assert(pack_words(bytes).take(4) =~= pack_words(bytes));
    }
}

impl Scalar {
    /// The word format carries the byte format: the words of a scalar are its
    /// bytes packed two to a word, and eight bytes packed into four words are
    /// read as the scalar that the bytes themselves are read as.
    pub proof fn lemma_paths_agree(v: u64, bytes: Seq<u8>)
        ensures
            Self::word_image(v) == pack_words(Self::byte_image(v)),
            unpack_words(Self::word_image(v)) == Self::byte_image(v),
            bytes.len() == 8 ==> Self::word_parse(pack_words(bytes)) == Self::byte_parse(bytes),
    {
        lemma_be_digits_len(v as nat, 8);
        lemma_unpack_pack(Self::byte_image(v));
        if bytes.len() == 8 {
            lemma_unpack_pack(bytes);
            assert(pack_words(bytes).take(4) =~= pack_words(bytes));
        }
    }

    /// The format is canonical: a scalar has one image only, so eight bytes,
    /// or four words, that are read as a scalar are what that scalar is
    /// written as.
    pub proof fn lemma_canonical(bytes: Seq<u8>, words: Seq<u16>)
        ensures
            bytes.len() == 8 ==> (Self::byte_parse(bytes) matches Ok(v) && Self::byte_image(v)
                == bytes),
            words.len() == 4 ==> (Self::word_parse(words) matches Ok(v) && Self::word_image(v)
                == words),
    {
        lemma_be_limit_values();
        if bytes.len() == 8 {
            lemma_be_value_bound(bytes);
            lemma_be_digits_of_value(bytes);
        }
        if words.len() == 4 {
            let unpacked = unpack_words(words);
            assert(words.take(4) =~= words);
            lemma_be_value_bound(unpacked);
            lemma_be_digits_of_value(unpacked);
            lemma_pack_unpack(words);
        }
    }
}

} // verus!
