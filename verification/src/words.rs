//! Byte and word encodings used on the engine's data path.
//!
//! The engine takes its input as 32-bit words assembled from bytes in
//! little-endian order, and its digest registers are read back as words that
//! are laid out in memory most significant byte first.
use vstd::prelude::*;

verus! {

/// The word that four bytes form when read in little-endian order.
pub open spec fn spec_le_word(b0: u8, b1: u8, b2: u8, b3: u8) -> u32 {
    (b0 as u32) | ((b1 as u32) << 8u32) | ((b2 as u32) << 16u32) | ((b3 as u32) << 24u32)
}

/// The `i`-th little-endian word of `bytes`.
pub open spec fn word_at(bytes: Seq<u8>, i: int) -> u32 {
    spec_le_word(bytes[4 * i], bytes[4 * i + 1], bytes[4 * i + 2], bytes[4 * i + 3])
}

/// The little-endian words of `bytes`, one for each complete group of four bytes.
pub open spec fn le_words(bytes: Seq<u8>) -> Seq<u32> {
    Seq::new(bytes.len() / 4, |i: int| word_at(bytes, i))
}

/// The four bytes of `w`, most significant first.
pub open spec fn be_bytes_u32(w: u32) -> Seq<u8> {
    seq![(w >> 24u32) as u8, (w >> 16u32) as u8, (w >> 8u32) as u8, w as u8]
}

/// The eight bytes of `x`, most significant first.
pub open spec fn be_bytes_u64(x: u64) -> Seq<u8> {
    seq![
        (x >> 56u64) as u8,
        (x >> 48u64) as u8,
        (x >> 40u64) as u8,
        (x >> 32u64) as u8,
        (x >> 24u64) as u8,
        (x >> 16u64) as u8,
        (x >> 8u64) as u8,
        x as u8,
    ]
}

/// Packs four bytes into the word they form in little-endian order.
pub fn le_word(b0: u8, b1: u8, b2: u8, b3: u8) -> (w: u32)
    ensures
        w == spec_le_word(b0, b1, b2, b3),
{
    (b0 as u32) | ((b1 as u32) << 8u32) | ((b2 as u32) << 16u32) | ((b3 as u32) << 24u32)
}

/// Splits a word into its bytes, most significant first.
pub fn u32_to_be_bytes(w: u32) -> (b: [u8; 4])
    ensures
        b@ == be_bytes_u32(w),
{
    let b = [(w >> 24u32) as u8, (w >> 16u32) as u8, (w >> 8u32) as u8, w as u8];
    assert(b@ =~= be_bytes_u32(w));
    b
}

/// Splits a 64-bit value into its bytes, most significant first.
pub fn u64_to_be_bytes(x: u64) -> (b: [u8; 8])
    ensures
        b@ == be_bytes_u64(x),
{
    let b = [
        (x >> 56u64) as u8,
        (x >> 48u64) as u8,
        (x >> 40u64) as u8,
        (x >> 32u64) as u8,
        (x >> 24u64) as u8,
        (x >> 16u64) as u8,
        (x >> 8u64) as u8,
        x as u8,
    ];
    assert(b@ =~= be_bytes_u64(x));
    b
}

/// The words of a concatenation are the words of its parts, when the first
/// part is a whole number of words.
pub proof fn lemma_le_words_append(a: Seq<u8>, b: Seq<u8>)
    requires
        a.len() % 4 == 0,
    ensures
        le_words(a + b) == le_words(a) + le_words(b),
{
    let lhs = le_words(a + b);
    let rhs = le_words(a) + le_words(b);
    assert((a.len() + b.len()) / 4 == a.len() / 4 + b.len() / 4);
    assert forall|i: int| 0 <= i < lhs.len() implies lhs[i] == rhs[i] by {
        if i < a.len() / 4 {
            assert(4 * i + 3 < a.len());
        } else {
            let j = i - a.len() / 4;
            assert(4 * i == a.len() + 4 * j);
        }
    }
    assert(lhs =~= rhs);
}

/// Four bytes can be read back from the word they form.
pub proof fn lemma_le_word_injective(a0: u8, a1: u8, a2: u8, a3: u8, b0: u8, b1: u8, b2: u8, b3: u8)
    requires
        spec_le_word(a0, a1, a2, a3) == spec_le_word(b0, b1, b2, b3),
    ensures
        a0 == b0 && a1 == b1 && a2 == b2 && a3 == b3,
{
    assert(((a0 as u32) | ((a1 as u32) << 8u32) | ((a2 as u32) << 16u32) | ((a3 as u32) << 24u32))
        == ((b0 as u32) | ((b1 as u32) << 8u32) | ((b2 as u32) << 16u32) | ((b3 as u32) << 24u32))
        ==> a0 == b0 && a1 == b1 && a2 == b2 && a3 == b3) by (bit_vector);
}

/// Byte strings of whole words that give the same words are equal: the words
/// handed to the engine determine the bytes.
pub proof fn lemma_le_words_injective(a: Seq<u8>, b: Seq<u8>)
    requires
        a.len() % 4 == 0,
        a.len() == b.len(),
        le_words(a) == le_words(b),
    ensures
        a == b,
{
    assert forall|i: int| 0 <= i < a.len() implies a[i] == b[i] by {
        let k = i / 4;
        assert(0 <= k < a.len() / 4);
        assert(le_words(a)[k] == word_at(a, k));
        assert(le_words(b)[k] == word_at(b, k));
        lemma_le_word_injective(
            a[4 * k], a[4 * k + 1], a[4 * k + 2], a[4 * k + 3],
            b[4 * k], b[4 * k + 1], b[4 * k + 2], b[4 * k + 3],
        );
        assert(i == 4 * k || i == 4 * k + 1 || i == 4 * k + 2 || i == 4 * k + 3);
    }
    assert(a =~= b);
}

/// The number that a byte string spells out, most significant byte first.
pub open spec fn be_value(bytes: Seq<u8>) -> int
    decreases bytes.len(),
{
    if bytes.len() == 0 {
        0
    } else {
        be_value(bytes.drop_last()) * 256 + bytes.last()
    }
}

/// Appending a byte shifts the value up by a byte.
pub proof fn lemma_be_value_push(bytes: Seq<u8>, x: u8)
    ensures
        be_value(bytes.push(x)) == be_value(bytes) * 256 + x,
{
    assert(bytes.push(x).drop_last() =~= bytes);
}

proof fn lemma_be_value_4(a: u8, b: u8, c: u8, d: u8)
    ensures
        be_value(seq![a, b, c, d]) == (((a as int) * 256 + b) * 256 + c) * 256 + d,
{
    let e = Seq::<u8>::empty();
    lemma_be_value_push(e, a);
    lemma_be_value_push(e.push(a), b);
    lemma_be_value_push(e.push(a).push(b), c);
    lemma_be_value_push(e.push(a).push(b).push(c), d);
    assert(e.push(a).push(b).push(c).push(d) =~= seq![a, b, c, d]);
}

/// Splitting a word into bytes, most significant first, loses nothing: the
/// bytes spell out the word.
pub proof fn lemma_be_bytes_u32_value(w: u32)
    ensures
        be_bytes_u32(w).len() == 4,
        be_value(be_bytes_u32(w)) == w,
{
    let s = be_bytes_u32(w);
    lemma_be_value_4(s[0], s[1], s[2], s[3]);
    assert(s =~= seq![s[0], s[1], s[2], s[3]]);
    let b0 = s[0];
    let b1 = s[1];
    let b2 = s[2];
    let b3 = s[3];
    assert(b0 as u64 * 0x1000000 + b1 as u64 * 0x10000 + b2 as u64 * 0x100 + b3 as u64 == w as u64)
        by (bit_vector)
        requires
            b0 == (w >> 24u32) as u8,
            b1 == (w >> 16u32) as u8,
            b2 == (w >> 8u32) as u8,
            b3 == w as u8,
    ;
}

/// Splitting a 64-bit value into bytes, most significant first, loses nothing:
/// the bytes spell out the value.
pub proof fn lemma_be_bytes_u64_value(x: u64)
    ensures
        be_bytes_u64(x).len() == 8,
        be_value(be_bytes_u64(x)) == x,
{
    let s = be_bytes_u64(x);
    let hi = seq![s[0], s[1], s[2], s[3]];
    let lo = seq![s[4], s[5], s[6], s[7]];
    assert(s =~= hi + lo);
    lemma_be_value_4(s[0], s[1], s[2], s[3]);
    lemma_be_value_push(hi, s[4]);
    lemma_be_value_push(hi.push(s[4]), s[5]);
    lemma_be_value_push(hi.push(s[4]).push(s[5]), s[6]);
    lemma_be_value_push(hi.push(s[4]).push(s[5]).push(s[6]), s[7]);
    assert(hi.push(s[4]).push(s[5]).push(s[6]).push(s[7]) =~= s);
    assert(be_value(s) == (((be_value(hi) * 256 + s[4]) * 256 + s[5]) * 256 + s[6]) * 256 + s[7]);
    let b0 = s[0];
    let b1 = s[1];
    let b2 = s[2];
    let b3 = s[3];
    let b4 = s[4];
    let b5 = s[5];
    let b6 = s[6];
    let b7 = s[7];
    assert(b0 as u128 * 0x100000000000000 + b1 as u128 * 0x1000000000000 + b2 as u128
        * 0x10000000000 + b3 as u128 * 0x100000000 + b4 as u128 * 0x1000000 + b5 as u128 * 0x10000
        + b6 as u128 * 0x100 + b7 as u128 == x as u128) by (bit_vector)
        requires
            b0 == (x >> 56u64) as u8,
            b1 == (x >> 48u64) as u8,
            b2 == (x >> 40u64) as u8,
            b3 == (x >> 32u64) as u8,
            b4 == (x >> 24u64) as u8,
            b5 == (x >> 16u64) as u8,
            b6 == (x >> 8u64) as u8,
            b7 == x as u8,
    ;
}

/// A little-endian word is its first byte plus 256 times the second, and so on.
pub proof fn lemma_le_word_value(b0: u8, b1: u8, b2: u8, b3: u8)
    ensures
        spec_le_word(b0, b1, b2, b3) == b0 + 256 * b1 + 65536 * b2 + 16777216 * b3,
{
    assert(((b0 as u32) | ((b1 as u32) << 8u32) | ((b2 as u32) << 16u32) | ((b3 as u32) << 24u32))
        as u64 == (b0 as u64) + 256 * (b1 as u64) + 65536 * (b2 as u64) + 16777216 * (b3 as u64))
        by (bit_vector);
}

/// Each word handed over is the next four bytes read in little-endian order:
/// the first byte plus 256 times the second, and so on.
pub proof fn lemma_le_words_value(bytes: Seq<u8>)
    ensures
        le_words(bytes).len() == bytes.len() / 4,
        forall|i: int|
            0 <= i < bytes.len() / 4 ==> #[trigger] le_words(bytes)[i] == bytes[4 * i] + 256
                * bytes[4 * i + 1] + 65536 * bytes[4 * i + 2] + 16777216 * bytes[4 * i + 3],
{
    assert forall|i: int| 0 <= i < bytes.len() / 4 implies #[trigger] le_words(bytes)[i] == bytes[4
        * i] + 256 * bytes[4 * i + 1] + 65536 * bytes[4 * i + 2] + 16777216 * bytes[4 * i + 3] by {
        lemma_le_word_value(bytes[4 * i], bytes[4 * i + 1], bytes[4 * i + 2], bytes[4 * i + 3]);
    }
}

} // verus!
