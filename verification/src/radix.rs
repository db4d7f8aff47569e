//! Base-256 numerals, most significant digit first, and the packing of bytes
//! into 16-bit words.

use vstd::prelude::*;

verus! {

/// How many numbers a numeral of `width` base-256 digits can denote: `256^width`.
pub open spec fn be_limit(width: nat) -> nat
    decreases width,
{
    if width == 0 {
        1
    } else {
        256 * be_limit((width - 1) as nat)
    }
}

/// The number that `digits` denotes, read as a base-256 numeral whose first
/// digit is the most significant one.
pub open spec fn be_value(digits: Seq<u8>) -> nat
    decreases digits.len(),
{
    if digits.len() == 0 {
        0
    } else {
        256 * be_value(digits.drop_last()) + digits.last() as nat
    }
}

/// The base-256 numeral of `width` digits that denotes `value`, most
/// significant digit first. A `value` of `be_limit(width)` or more loses its
/// high digits.
pub open spec fn be_digits(value: nat, width: nat) -> Seq<u8>
    decreases width,
{
    if width == 0 {
        Seq::empty()
    } else {
        be_digits(value / 256, (width - 1) as nat).push((value % 256) as u8)
    }
}

/// A numeral has as many digits as were asked for.
pub proof fn lemma_be_digits_len(value: nat, width: nat)
    ensures
        be_digits(value, width).len() == width,
    decreases width,
{
    if width > 0 {
        lemma_be_digits_len(value / 256, (width - 1) as nat);
    }
}

/// A numeral denotes a number below the limit of its width.
pub proof fn lemma_be_value_bound(digits: Seq<u8>)
    ensures
        be_value(digits) < be_limit(digits.len()),
    decreases digits.len(),
{
    if digits.len() > 0 {
        lemma_be_value_bound(digits.drop_last());
    }
}

/// Reading the numeral of a number that fits its width gives the number back.
pub proof fn lemma_be_value_of_digits(value: nat, width: nat)
    requires
        value < be_limit(width),
    ensures
        be_value(be_digits(value, width)) == value,
    decreases width,
{
    if width > 0 {
        let high = be_digits(value / 256, (width - 1) as nat);
        lemma_be_value_of_digits(value / 256, (width - 1) as nat);
        assert(be_digits(value, width).drop_last() =~= high);
    }
}

/// Writing the number that a numeral denotes, at the numeral's own width,
/// gives the numeral back.
pub proof fn lemma_be_digits_of_value(digits: Seq<u8>)
    ensures
        be_digits(be_value(digits), digits.len()) == digits,
    decreases digits.len(),
{
    if digits.len() > 0 {
        let front = digits.drop_last();
        lemma_be_digits_of_value(front);
        assert(be_value(digits) / 256 == be_value(front));
        assert(be_value(digits) % 256 == digits.last() as nat);
        assert(be_digits(be_value(digits), digits.len()) =~= digits);
    }
}

/// Eight base-256 digits cover exactly the 64-bit numbers, two the 16-bit ones.
pub proof fn lemma_be_limit_values()
    ensures
        be_limit(2) == 0x1_0000,
        be_limit(8) == 0x1_0000_0000_0000_0000,
{
    reveal_with_fuel(be_limit, 9);
}

/// The eight bytes of `value`, most significant first.
pub fn u64_to_be(value: u64) -> (out: Vec<u8>)
    ensures
        out@ == be_digits(value as nat, 8),
{
    let mut out: Vec<u8> = vec![0u8, 0u8, 0u8, 0u8, 0u8, 0u8, 0u8, 0u8];
    let mut rest: u64 = value;
    let mut i: usize = 8;
    while i > 0
        invariant
            i <= 8,
            out@.len() == 8,
            be_digits(value as nat, 8) == be_digits(rest as nat, i as nat) + out@.subrange(
                i as int,
                8,
            ),
        decreases i,
    {
        let digit: u8 = (rest % 256) as u8;
        let ghost before = out@;
        out[i - 1] = digit;
        proof {
            let high = be_digits((rest / 256) as nat, (i - 1) as nat);
            assert(be_digits(rest as nat, i as nat) == high.push(digit));
            assert(high.push(digit) + before.subrange(i as int, 8) =~= high + out@.subrange(
                i - 1,
                8,
            ));
        }
        rest = rest / 256;
        i = i - 1;
    }
    assert(out@.subrange(0, 8) =~= out@);
    out
}

/// The number whose big-endian bytes are `bytes`.
pub fn u64_from_be(bytes: &Vec<u8>) -> (value: u64)
    requires
        bytes@.len() == 8,
    ensures
        value == be_value(bytes@),
{
    let mut value: u64 = 0;
    let mut i: usize = 0;
    while i < 8
        invariant
            i <= 8,
            bytes@.len() == 8,
            value == be_value(bytes@.take(i as int)),
        decreases 8 - i,
    {
        proof {
            let read = bytes@.take(i as int);
            let next = bytes@.take(i + 1);
            lemma_be_value_bound(read);
            lemma_be_limit_monotone(i as nat, 7);
            reveal_with_fuel(be_limit, 8);
            assert(next.drop_last() =~= read);
        }
        value = value * 256 + bytes[i] as u64;
        i = i + 1;
    }
    assert(bytes@.take(8) =~= bytes@);
    value
}

/// A wider numeral can denote at least as many numbers.
pub proof fn lemma_be_limit_monotone(narrow: nat, wide: nat)
    requires
        narrow <= wide,
    ensures
        be_limit(narrow) <= be_limit(wide),
    decreases wide,
{
    if narrow < wide {
        lemma_be_limit_monotone(narrow, (wide - 1) as nat);
    }
}

/// The 16-bit words that `bytes` fill when each word takes two bytes, its
/// high byte first. A last byte without a partner is left out.
pub open spec fn pack_words(bytes: Seq<u8>) -> Seq<u16> {
    Seq::new(bytes.len() / 2, |i: int| (256 * bytes[2 * i] + bytes[2 * i + 1]) as u16)
}

/// The bytes of `words`, two for each word, its high byte first.
pub open spec fn unpack_words(words: Seq<u16>) -> Seq<u8> {
    Seq::new(
        2 * words.len(),
        |i: int|
            if i % 2 == 0 {
                (words[i / 2] / 256) as u8
            } else {
                (words[i / 2] % 256) as u8
            },
    )
}

/// Unpacking the words that an even number of bytes were packed into gives
/// the bytes back.
pub proof fn lemma_unpack_pack(bytes: Seq<u8>)
    requires
        bytes.len() % 2 == 0,
    ensures
        unpack_words(pack_words(bytes)) == bytes,
{
    let words = pack_words(bytes);
    let back = unpack_words(words);
    assert(back.len() == bytes.len());
    assert forall|i: int| 0 <= i < bytes.len() implies back[i] == bytes[i] by {
        let k = i / 2;
        assert(words[k] == 256 * bytes[2 * k] + bytes[2 * k + 1]);
    }
    assert(back =~= bytes);
}

/// Packing the bytes that words were unpacked into gives the words back.
pub proof fn lemma_pack_unpack(words: Seq<u16>)
    ensures
        pack_words(unpack_words(words)) == words,
{
    let bytes = unpack_words(words);
    let back = pack_words(bytes);
    assert(back.len() == words.len());
    assert forall|k: int| 0 <= k < words.len() implies back[k] == words[k] by {
        assert(bytes[2 * k] == words[k] / 256);
        assert(bytes[2 * k + 1] == words[k] % 256);
    }
    assert(back =~= words);
}

/// Packs `bytes` into 16-bit words, two bytes to a word, high byte first.
pub fn pack_be_words(bytes: &Vec<u8>) -> (out: Vec<u16>)
    ensures
        out@ == pack_words(bytes@),
{
    let count: usize = bytes.len() / 2;
    let mut out: Vec<u16> = Vec::new();
    let mut k: usize = 0;
    while k < count
        invariant
            k <= count,
            count == bytes@.len() / 2,
            bytes@.len() <= usize::MAX,
            out@ == pack_words(bytes@).take(k as int),
        decreases count - k,
    {
        let word: u16 = 256 * (bytes[2 * k] as u16) + bytes[2 * k + 1] as u16;
        out.push(word);
        assert(out@ =~= pack_words(bytes@).take(k + 1));
        k = k + 1;
    }
    assert(out@ =~= pack_words(bytes@));
    out
}

/// Unpacks the first `count` of `words` into bytes, two for each word, high
/// byte first.
pub fn unpack_be_words(words: &Vec<u16>, count: usize) -> (out: Vec<u8>)
    requires
        count <= words@.len(),
    ensures
        out@ == unpack_words(words@.take(count as int)),
{
    let mut out: Vec<u8> = Vec::new();
    let mut k: usize = 0;
    while k < count
        invariant
            k <= count <= words@.len(),
            out@ == unpack_words(words@.take(k as int)),
        decreases count - k,
    {
        let word: u16 = words[k];
        out.push((word / 256) as u8);
        out.push((word % 256) as u8);
        assert(out@ =~= unpack_words(words@.take(k + 1)));
        k = k + 1;
    }
    out
}

} // verus!
