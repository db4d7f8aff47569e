//! Ring polynomials and their wire format: one unit for the domain flag, then
//! the coefficients in order, each at its fixed width.

use crate::error::DecodeError;
use crate::traits::{decoded_view, FixedWidth, Serializable, COEFF_BYTES, COEFF_WORDS};
use vstd::prelude::*;
use vstd::slice::{slice_subrange, slice_to_vec};

verus! {

/// An element of a polynomial ring: its coefficients, index 0 first, and
/// whether they are held in the transform domain.
#[derive(Clone, Debug, PartialEq, Eq)]
pub struct RqPoly<T> {
    pub coeffs: Vec<T>,
    pub is_ntt_form: bool,
}

/// What a polynomial is to its wire format: the views of its coefficients in
/// order, and the domain flag.
pub struct PolyView<V> {
    pub coeffs: Seq<V>,
    pub is_ntt_form: bool,
}

/// The views of `items`, in order.
pub open spec fn views_of<T: View>(items: Seq<T>) -> Seq<T::V> {
    Seq::new(items.len(), |i: int| items[i]@)
}

impl<T: View> View for RqPoly<T> {
    type V = PolyView<T::V>;

    open spec fn view(&self) -> PolyView<T::V> {
        PolyView { coeffs: views_of(self.coeffs@), is_ntt_form: self.is_ntt_form }
    }
}

impl<T> RqPoly<T> {
    /// The polynomial with these coefficients and this flag. No ring is
    /// consulted: the coefficients are taken as they are.
    pub fn new_without_context(coeffs: Vec<T>, is_ntt_form: bool) -> (p: RqPoly<T>)
        ensures
            p.coeffs == coeffs,
            p.is_ntt_form == is_ntt_form,
    {
        RqPoly { coeffs, is_ntt_form }
    }
}

/// The unit that stands for the domain flag: 1 in the transform domain, else 0.
pub open spec fn flag_unit(is_ntt_form: bool) -> int {
    if is_ntt_form {
        1
    } else {
        0
    }
}

/// The byte images of `coeffs`, one after the other.
pub open spec fn coeffs_byte_image<T: Serializable>(coeffs: Seq<T::V>) -> Seq<u8>
    decreases coeffs.len(),
{
    if coeffs.len() == 0 {
        Seq::empty()
    } else {
        coeffs_byte_image::<T>(coeffs.drop_last()) + T::byte_image(coeffs.last())
    }
}

/// What `body`, a whole number of `COEFF_BYTES`-byte chunks, is read as: the
/// coefficients that its chunks are read as, in order, or the error of the
/// first chunk that is read as none.
pub open spec fn coeffs_byte_parse<T: Serializable>(body: Seq<u8>) -> Result<
    Seq<T::V>,
    DecodeError,
>
    decreases body.len(),
{
    if body.len() < COEFF_BYTES {
        Ok(Seq::empty())
    } else {
        let cut = body.len() - COEFF_BYTES;
        match coeffs_byte_parse::<T>(body.take(cut)) {
            Err(e) => Err(e),
            Ok(front) => match T::byte_parse(body.skip(cut)) {
                Err(e) => Err(e),
                Ok(last) => Ok(front.push(last)),
            },
        }
    }
}

/// The word images of `coeffs`, one after the other.
pub open spec fn coeffs_word_image<T: Serializable>(coeffs: Seq<T::V>) -> Seq<u16>
    decreases coeffs.len(),
{
    if coeffs.len() == 0 {
        Seq::empty()
    } else {
        coeffs_word_image::<T>(coeffs.drop_last()) + T::word_image(coeffs.last())
    }
}

/// What `body`, a whole number of `COEFF_WORDS`-word chunks, is read as: the
/// coefficients that its chunks are read as, in order, or the error of the
/// first chunk that is read as none.
pub open spec fn coeffs_word_parse<T: Serializable>(body: Seq<u16>) -> Result<
    Seq<T::V>,
    DecodeError,
>
    decreases body.len(),
{
    if body.len() < COEFF_WORDS {
        Ok(Seq::empty())
    } else {
        let cut = body.len() - COEFF_WORDS;
        match coeffs_word_parse::<T>(body.take(cut)) {
            Err(e) => Err(e),
            Ok(front) => match T::word_parse(body.skip(cut)) {
                Err(e) => Err(e),
                Ok(last) => Ok(front.push(last)),
            },
        }
    }
}

/// A chunk that is read as no coefficient fails the whole body with its own
/// error, whatever follows it.
pub proof fn lemma_byte_failure_spreads<T: Serializable>(body: Seq<u8>, upto: int, e: DecodeError)
    requires
        body.len() % (COEFF_BYTES as nat) == 0,
        0 <= upto <= body.len(),
        upto % (COEFF_BYTES as int) == 0,
        coeffs_byte_parse::<T>(body.take(upto)) == Err::<Seq<T::V>, DecodeError>(e),
    ensures
        coeffs_byte_parse::<T>(body) == Err::<Seq<T::V>, DecodeError>(e),
    decreases body.len(),
{
    if upto < body.len() {
        let cut = body.len() - COEFF_BYTES;
        assert(body.take(cut).take(upto) =~= body.take(upto));
        lemma_byte_failure_spreads::<T>(body.take(cut), upto, e);
    } else {
        assert(body.take(upto) =~= body);
    }
}

/// A chunk that is read as no coefficient fails the whole body with its own
/// error, whatever follows it.
pub proof fn lemma_word_failure_spreads<T: Serializable>(body: Seq<u16>, upto: int, e: DecodeError)
    requires
        body.len() % (COEFF_WORDS as nat) == 0,
        0 <= upto <= body.len(),
        upto % (COEFF_WORDS as int) == 0,
        coeffs_word_parse::<T>(body.take(upto)) == Err::<Seq<T::V>, DecodeError>(e),
    ensures
        coeffs_word_parse::<T>(body) == Err::<Seq<T::V>, DecodeError>(e),
    decreases body.len(),
{
    if upto < body.len() {
        let cut = body.len() - COEFF_WORDS;
        assert(body.take(cut).take(upto) =~= body.take(upto));
        lemma_word_failure_spreads::<T>(body.take(cut), upto, e);
    } else {
        assert(body.take(upto) =~= body);
    }
}

impl<T: FixedWidth> Serializable for RqPoly<T> {
    /// One byte for the flag, 0 or 1, then the byte images of the
    /// coefficients in order.
    open spec fn byte_image(v: PolyView<T::V>) -> Seq<u8> {
        seq![flag_unit(v.is_ntt_form) as u8] + coeffs_byte_image::<T>(v.coeffs)
    }

    /// An empty block is truncated. After the flag byte, which stands for the
    /// transform domain unless it is 0, the block must be a whole number of
    /// `COEFF_BYTES`-byte chunks, else its length does not match; the chunks
    /// are read as the coefficients.
    open spec fn byte_parse(bytes: Seq<u8>) -> Result<PolyView<T::V>, DecodeError> {
        if bytes.len() == 0 {
            Err(DecodeError::TruncatedInput)
        } else if (bytes.len() - 1) % (COEFF_BYTES as int) != 0 {
            Err(DecodeError::LengthMismatch)
        } else {
            match coeffs_byte_parse::<T>(bytes.skip(1)) {
                Err(e) => Err(e),
                Ok(coeffs) => Ok(PolyView { coeffs, is_ntt_form: bytes[0] != 0 }),
            }
        }
    }

    /// One word for the flag, 0 or 1, then the word images of the
    /// coefficients in order.
    open spec fn word_image(v: PolyView<T::V>) -> Seq<u16> {
        seq![flag_unit(v.is_ntt_form) as u16] + coeffs_word_image::<T>(v.coeffs)
    }

    /// An empty block is truncated. After the flag word, which stands for the
    /// transform domain unless it is 0, the block must be a whole number of
    /// `COEFF_WORDS`-word chunks, else its length does not match; the chunks
    /// are read as the coefficients.
    open spec fn word_parse(words: Seq<u16>) -> Result<PolyView<T::V>, DecodeError> {
        if words.len() == 0 {
            Err(DecodeError::TruncatedInput)
        } else if (words.len() - 1) % (COEFF_WORDS as int) != 0 {
            Err(DecodeError::LengthMismatch)
        } else {
            match coeffs_word_parse::<T>(words.skip(1)) {
                Err(e) => Err(e),
                Ok(coeffs) => Ok(PolyView { coeffs, is_ntt_form: words[0] != 0 }),
            }
        }
    }

    fn to_bytes(&self) -> (out: Vec<u8>)
        ensures
            out@ == Self::byte_image(self@),
            out@.len() == 1 + COEFF_BYTES * self.coeffs@.len(),
    {
        proof {
            Self::lemma_image_len(self@);
        }
        let mut out: Vec<u8> = Vec::new();
        out.push(
            if self.is_ntt_form {
                1u8
            } else {
                0u8
            },
        );
        let mut i: usize = 0;
        while i < self.coeffs.len()
            invariant
                i <= self.coeffs@.len(),
                out@ == seq![flag_unit(self.is_ntt_form) as u8] + coeffs_byte_image::<T>(
                    self@.coeffs.take(i as int),
                ),
            decreases self.coeffs@.len() - i,
        {
            let mut piece = self.coeffs[i].to_bytes();
            proof {
                let next = self@.coeffs.take(i + 1);
                assert(next.drop_last() =~= self@.coeffs.take(i as int));
                assert(next.last() == self.coeffs@[i as int]@);
            }
            out.append(&mut piece);
            i = i + 1;
        }
        assert(self@.coeffs.take(i as int) =~= self@.coeffs);
        out
    }

    fn from_bytes(bytes: &Vec<u8>) -> (res: Result<Self, DecodeError>)
        ensures
            decoded_view(res) == Self::byte_parse(bytes@),
            bytes@.len() < 1 ==> res matches Err(DecodeError::TruncatedInput),
            bytes@.len() >= 1 && (bytes@.len() - 1) % (COEFF_BYTES as int) != 0 ==> res matches Err(
                DecodeError::LengthMismatch,
            ),
            res matches Ok(p) ==> p.is_ntt_form == (bytes@[0] != 0) && bytes@.len() == 1
                + COEFF_BYTES * p.coeffs@.len(),
    {
        proof {
            Self::lemma_parsed_len(bytes@, Seq::empty());
        }
        let n = bytes.len();
        if n == 0 {
            return Err(DecodeError::TruncatedInput);
        }
        if (n - 1) % COEFF_BYTES != 0 {
            return Err(DecodeError::LengthMismatch);
        }
        let is_ntt_form = bytes[0] != 0;
        let ghost body = bytes@.skip(1);
        let mut coeffs: Vec<T> = Vec::new();
        assert(views_of(coeffs@) =~= Seq::<T::V>::empty());
        let mut i: usize = 1;
        while i < n
            invariant
                1 <= i <= n,
                n == bytes@.len(),
                body == bytes@.skip(1),
                (n - 1) % (COEFF_BYTES as int) == 0,
                (i - 1) % (COEFF_BYTES as int) == 0,
                coeffs_byte_parse::<T>(body.take(i - 1)) == Ok::<Seq<T::V>, DecodeError>(
                    views_of(coeffs@),
                ),
            decreases n - i,
        {
            let chunk = slice_to_vec(slice_subrange(bytes.as_slice(), i, i + COEFF_BYTES));
            proof {
                let upto = body.take(i - 1 + COEFF_BYTES);
                assert(upto.take(i - 1) =~= body.take(i - 1));
                assert(upto.skip(i - 1) =~= chunk@);
            }
            match T::from_bytes(&chunk) {
                Err(e) => {
                    proof {
                        lemma_byte_failure_spreads::<T>(body, i - 1 + COEFF_BYTES, e);
                    }
                    return Err(e);
                },
                Ok(c) => {
                    let ghost before = coeffs@;
                    coeffs.push(c);
                    assert(views_of(coeffs@) =~= views_of(before).push(c@));
                },
            }
            i = i + COEFF_BYTES;
        }
        assert(body.take(n - 1) =~= body);
        Ok(RqPoly { coeffs, is_ntt_form })
    }

    fn to_bytes_u16(&self) -> (out: Vec<u16>)
        ensures
            out@ == Self::word_image(self@),
            out@.len() == 1 + COEFF_WORDS * self.coeffs@.len(),
    {
        proof {
            Self::lemma_image_len(self@);
        }
        let mut out: Vec<u16> = Vec::new();
        out.push(
            if self.is_ntt_form {
                1u16
            } else {
                0u16
            },
        );
        let mut i: usize = 0;
        while i < self.coeffs.len()
            invariant
                i <= self.coeffs@.len(),
                out@ == seq![flag_unit(self.is_ntt_form) as u16] + coeffs_word_image::<T>(
                    self@.coeffs.take(i as int),
                ),
            decreases self.coeffs@.len() - i,
        {
            let mut piece = self.coeffs[i].to_bytes_u16();
            proof {
                let next = self@.coeffs.take(i + 1);
                assert(next.drop_last() =~= self@.coeffs.take(i as int));
                assert(next.last() == self.coeffs@[i as int]@);
            }
            out.append(&mut piece);
            i = i + 1;
        }
        assert(self@.coeffs.take(i as int) =~= self@.coeffs);
        out
    }

    fn from_bytes_u16(words: &Vec<u16>) -> (res: Result<Self, DecodeError>)
        ensures
            decoded_view(res) == Self::word_parse(words@),
            words@.len() < 1 ==> res matches Err(DecodeError::TruncatedInput),
            words@.len() >= 1 && (words@.len() - 1) % (COEFF_WORDS as int) != 0 ==> res matches Err(
                DecodeError::LengthMismatch,
            ),
            res matches Ok(p) ==> p.is_ntt_form == (words@[0] != 0) && words@.len() == 1
                + COEFF_WORDS * p.coeffs@.len(),
    {
        proof {
            Self::lemma_parsed_len(Seq::empty(), words@);
        }
        let n = words.len();
        if n == 0 {
            return Err(DecodeError::TruncatedInput);
        }
        if (n - 1) % COEFF_WORDS != 0 {
            return Err(DecodeError::LengthMismatch);
        }
        let is_ntt_form = words[0] != 0;
        let ghost body = words@.skip(1);
        let mut coeffs: Vec<T> = Vec::new();
        assert(views_of(coeffs@) =~= Seq::<T::V>::empty());
        let mut i: usize = 1;
        while i < n
            invariant
                1 <= i <= n,
                n == words@.len(),
                body == words@.skip(1),
                (n - 1) % (COEFF_WORDS as int) == 0,
                (i - 1) % (COEFF_WORDS as int) == 0,
                coeffs_word_parse::<T>(body.take(i - 1)) == Ok::<Seq<T::V>, DecodeError>(
                    views_of(coeffs@),
                ),
            decreases n - i,
        {
            let chunk = slice_to_vec(slice_subrange(words.as_slice(), i, i + COEFF_WORDS));
            proof {
                let upto = body.take(i - 1 + COEFF_WORDS);
                assert(upto.take(i - 1) =~= body.take(i - 1));
                assert(upto.skip(i - 1) =~= chunk@);
            }
            match T::from_bytes_u16(&chunk) {
                Err(e) => {
                    proof {
                        lemma_word_failure_spreads::<T>(body, i - 1 + COEFF_WORDS, e);
                    }
                    return Err(e);
                },
                Ok(c) => {
                    let ghost before = coeffs@;
                    coeffs.push(c);
                    assert(views_of(coeffs@) =~= views_of(before).push(c@));
                },
            }
            i = i + COEFF_WORDS;
        }
        assert(body.take(n - 1) =~= body);
        Ok(RqPoly { coeffs, is_ntt_form })
    }
}

/// The byte images of `n` coefficients take `COEFF_BYTES * n` bytes.
pub proof fn lemma_coeffs_byte_image_len<T: FixedWidth>(coeffs: Seq<T::V>)
    ensures
        coeffs_byte_image::<T>(coeffs).len() == COEFF_BYTES * coeffs.len(),
    decreases coeffs.len(),
{
    if coeffs.len() > 0 {
        lemma_coeffs_byte_image_len::<T>(coeffs.drop_last());
        T::lemma_byte_width(coeffs.last());
    }
}

/// The word images of `n` coefficients take `COEFF_WORDS * n` words.
pub proof fn lemma_coeffs_word_image_len<T: FixedWidth>(coeffs: Seq<T::V>)
    ensures
        coeffs_word_image::<T>(coeffs).len() == COEFF_WORDS * coeffs.len(),
    decreases coeffs.len(),
{
    if coeffs.len() > 0 {
        lemma_coeffs_word_image_len::<T>(coeffs.drop_last());
        T::lemma_word_width(coeffs.last());
    }
}

/// Reading the byte images of coefficients gives the coefficients.
pub proof fn lemma_coeffs_byte_round_trip<T: FixedWidth>(coeffs: Seq<T::V>)
    ensures
        coeffs_byte_parse::<T>(coeffs_byte_image::<T>(coeffs)) == Ok::<Seq<T::V>, DecodeError>(
            coeffs,
        ),
    decreases coeffs.len(),
{
    if coeffs.len() > 0 {
        let front = coeffs.drop_last();
        let body = coeffs_byte_image::<T>(coeffs);
        let cut = body.len() - COEFF_BYTES;
        lemma_coeffs_byte_image_len::<T>(coeffs);
        lemma_coeffs_byte_image_len::<T>(front);
        T::lemma_byte_width(coeffs.last());
        assert(body.take(cut) =~= coeffs_byte_image::<T>(front));
        assert(body.skip(cut) =~= T::byte_image(coeffs.last()));
        lemma_coeffs_byte_round_trip::<T>(front);
        T::lemma_byte_round_trip(coeffs.last());
        assert(front.push(coeffs.last()) =~= coeffs);
    } else {
        assert(coeffs =~= Seq::<T::V>::empty());
    }
}

/// Reading the word images of coefficients gives the coefficients.
pub proof fn lemma_coeffs_word_round_trip<T: FixedWidth>(coeffs: Seq<T::V>)
    ensures
        coeffs_word_parse::<T>(coeffs_word_image::<T>(coeffs)) == Ok::<Seq<T::V>, DecodeError>(
            coeffs,
        ),
    decreases coeffs.len(),
{
    if coeffs.len() > 0 {
        let front = coeffs.drop_last();
        let body = coeffs_word_image::<T>(coeffs);
        let cut = body.len() - COEFF_WORDS;
        lemma_coeffs_word_image_len::<T>(coeffs);
        lemma_coeffs_word_image_len::<T>(front);
        T::lemma_word_width(coeffs.last());
        assert(body.take(cut) =~= coeffs_word_image::<T>(front));
        assert(body.skip(cut) =~= T::word_image(coeffs.last()));
        lemma_coeffs_word_round_trip::<T>(front);
        T::lemma_word_round_trip(coeffs.last());
        assert(front.push(coeffs.last()) =~= coeffs);
    } else {
        assert(coeffs =~= Seq::<T::V>::empty());
    }
}

/// A body that is read as coefficients holds one chunk for each of them.
pub proof fn lemma_coeffs_byte_parse_len<T: Serializable>(body: Seq<u8>)
    requires
        body.len() % (COEFF_BYTES as nat) == 0,
    ensures
        coeffs_byte_parse::<T>(body) matches Ok(coeffs) ==> body.len() == COEFF_BYTES
            * coeffs.len(),
    decreases body.len(),
{
    if body.len() >= COEFF_BYTES {
        lemma_coeffs_byte_parse_len::<T>(body.take(body.len() - COEFF_BYTES));
    }
}

/// A body that is read as coefficients holds one chunk for each of them.
pub proof fn lemma_coeffs_word_parse_len<T: Serializable>(body: Seq<u16>)
    requires
        body.len() % (COEFF_WORDS as nat) == 0,
    ensures
        coeffs_word_parse::<T>(body) matches Ok(coeffs) ==> body.len() == COEFF_WORDS
            * coeffs.len(),
    decreases body.len(),
{
    if body.len() >= COEFF_WORDS {
        lemma_coeffs_word_parse_len::<T>(body.take(body.len() - COEFF_WORDS));
    }
}

impl<T: FixedWidth> RqPoly<T> {
    /// What `bytes` are read as when the reader knows how many coefficients to
    /// expect: a block shorter than the image of such a polynomial is
    /// truncated, a longer one does not match, and one of that very length is
    /// read as any block is.
    pub open spec fn byte_parse_with_degree(bytes: Seq<u8>, degree: nat) -> Result<
        PolyView<T::V>,
        DecodeError,
    > {
        if bytes.len() < 1 + COEFF_BYTES * degree {
            Err(DecodeError::TruncatedInput)
        } else if bytes.len() > 1 + COEFF_BYTES * degree {
            Err(DecodeError::LengthMismatch)
        } else {
            Self::byte_parse(bytes)
        }
    }

    /// Reads a polynomial of `degree` coefficients from bytes.
    pub fn from_bytes_with_degree(bytes: &Vec<u8>, degree: usize) -> (res: Result<
        Self,
        DecodeError,
    >)
        ensures
            decoded_view(res) == Self::byte_parse_with_degree(bytes@, degree as nat),
            res matches Ok(p) ==> p.coeffs@.len() == degree,
    {
        let n = bytes.len();
        if n == 0 || (n - 1) / COEFF_BYTES < degree {
            return Err(DecodeError::TruncatedInput);
        }
        if n - 1 > COEFF_BYTES * degree {
            return Err(DecodeError::LengthMismatch);
        }
        Self::from_bytes(bytes)
    }

    /// What `words` are read as when the reader knows how many coefficients to
    /// expect: a block shorter than the image of such a polynomial is
    /// truncated, a longer one does not match, and one of that very length is
    /// read as any block is.
    pub open spec fn word_parse_with_degree(words: Seq<u16>, degree: nat) -> Result<
        PolyView<T::V>,
        DecodeError,
    > {
        if words.len() < 1 + COEFF_WORDS * degree {
            Err(DecodeError::TruncatedInput)
        } else if words.len() > 1 + COEFF_WORDS * degree {
            Err(DecodeError::LengthMismatch)
        } else {
            Self::word_parse(words)
        }
    }

    /// Reads a polynomial of `degree` coefficients from 16-bit words.
    pub fn from_bytes_u16_with_degree(words: &Vec<u16>, degree: usize) -> (res: Result<
        Self,
        DecodeError,
    >)
        ensures
            decoded_view(res) == Self::word_parse_with_degree(words@, degree as nat),
            res matches Ok(p) ==> p.coeffs@.len() == degree,
    {
        let n = words.len();
        if n == 0 || (n - 1) / COEFF_WORDS < degree {
            return Err(DecodeError::TruncatedInput);
        }
        if n - 1 > COEFF_WORDS * degree {
            return Err(DecodeError::LengthMismatch);
        }
        Self::from_bytes_u16(words)
    }

    /// A block that is read as a polynomial has the length of that
    /// polynomial's image: nothing in it is passed over.
    pub proof fn lemma_parsed_len(bytes: Seq<u8>, words: Seq<u16>)
        ensures
            Self::byte_parse(bytes) matches Ok(p) ==> bytes.len() == 1 + COEFF_BYTES
                * p.coeffs.len(),
            Self::word_parse(words) matches Ok(p) ==> words.len() == 1 + COEFF_WORDS
                * p.coeffs.len(),
    {
        if bytes.len() > 0 && (bytes.len() - 1) % (COEFF_BYTES as int) == 0 {
            lemma_coeffs_byte_parse_len::<T>(bytes.skip(1));
        }
        if words.len() > 0 && (words.len() - 1) % (COEFF_WORDS as int) == 0 {
            lemma_coeffs_word_parse_len::<T>(words.skip(1));
        }
    }

    /// A polynomial of `n` coefficients is written as `1 + COEFF_BYTES * n`
    /// bytes, or as `1 + COEFF_WORDS * n` words.
    pub proof fn lemma_image_len(p: PolyView<T::V>)
        ensures
            Self::byte_image(p).len() == 1 + COEFF_BYTES * p.coeffs.len(),
            Self::word_image(p).len() == 1 + COEFF_WORDS * p.coeffs.len(),
    {
        lemma_coeffs_byte_image_len::<T>(p.coeffs);
        lemma_coeffs_word_image_len::<T>(p.coeffs);
    }

    /// Reading what a polynomial was written as gives the polynomial, with
    /// its flag, whether it has coefficients or not.
    pub proof fn lemma_round_trip(p: PolyView<T::V>)
        ensures
            Self::byte_parse(Self::byte_image(p)) == Ok::<PolyView<T::V>, DecodeError>(p),
            Self::word_parse(Self::word_image(p)) == Ok::<PolyView<T::V>, DecodeError>(p),
    {
        lemma_coeffs_byte_image_len::<T>(p.coeffs);
        lemma_coeffs_word_image_len::<T>(p.coeffs);
        lemma_coeffs_byte_round_trip::<T>(p.coeffs);
        lemma_coeffs_word_round_trip::<T>(p.coeffs);
        assert(Self::byte_image(p).skip(1) =~= coeffs_byte_image::<T>(p.coeffs));
        assert(Self::word_image(p).skip(1) =~= coeffs_word_image::<T>(p.coeffs));
    }

    /// Reading what a polynomial was written as, expecting as many
    /// coefficients as it has, gives the polynomial; expecting more, the
    /// block is truncated; expecting fewer, its length does not match.
    pub proof fn lemma_round_trip_with_degree(p: PolyView<T::V>, degree: nat)
        ensures
            Self::byte_parse_with_degree(Self::byte_image(p), degree) == if degree
                > p.coeffs.len() {
                Err::<PolyView<T::V>, DecodeError>(DecodeError::TruncatedInput)
            } else if degree < p.coeffs.len() {
                Err(DecodeError::LengthMismatch)
            } else {
                Ok(p)
            },
            Self::word_parse_with_degree(Self::word_image(p), degree) == if degree
                > p.coeffs.len() {
                Err::<PolyView<T::V>, DecodeError>(DecodeError::TruncatedInput)
            } else if degree < p.coeffs.len() {
                Err(DecodeError::LengthMismatch)
            } else {
                Ok(p)
            },
    {
        Self::lemma_image_len(p);
        Self::lemma_round_trip(p);
    }

    /// A block with no unit in it is reported as truncated.
    pub proof fn lemma_truncated(bytes: Seq<u8>, words: Seq<u16>)
        ensures
            bytes.len() < 1 ==> Self::byte_parse(bytes) == Err::<PolyView<T::V>, DecodeError>(
                DecodeError::TruncatedInput,
            ),
            words.len() < 1 ==> Self::word_parse(words) == Err::<PolyView<T::V>, DecodeError>(
                DecodeError::TruncatedInput,
            ),
    {
    }
}

} // verus!
