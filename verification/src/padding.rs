//! The padding that closes a message: an end marker, zeros, and the message
//! length in bits as a big-endian 64-bit number, up to a whole number of
//! blocks (the Merkle–Damgård layout). SHA-256 pads to its 64-byte blocks;
//! the AES path of the engine frames data in 16-byte blocks.
use vstd::prelude::*;
use crate::hasher::END_BYTE;
use crate::words::{be_bytes_u64, be_value, lemma_be_bytes_u64_value};
use vstd::arithmetic::div_mod::{lemma_fundamental_div_mod, lemma_mod_multiples_vanish, lemma_small_mod};

verus! {

/// `n` zero bytes.
pub open spec fn zeros(n: nat) -> Seq<u8> {
    Seq::new(n, |i: int| 0u8)
}

/// How many zero bytes follow the end marker when the message has `n` bytes
/// and blocks have `b` bytes: just enough to leave eight bytes for the length
/// at the end of a block.
pub open spec fn pad_zeros(n: nat, b: nat) -> nat {
    if n % b <= b - 9 {
        (b - 9 - n % b) as nat
    } else {
        (2 * b - 9 - n % b) as nat
    }
}

/// The length field: the number of bits in `total` bytes, big-endian.
pub open spec fn length_field(total: nat) -> Seq<u8> {
    be_bytes_u64((8 * total) as u64)
}

/// The closing blocks for the last `rest` bytes of a message of `total`
/// bytes, with `b`-byte blocks.
pub open spec fn pad_tail(rest: Seq<u8>, total: nat, b: nat) -> Seq<u8> {
    rest + seq![END_BYTE] + zeros(pad_zeros(rest.len(), b)) + length_field(total)
}

/// A whole message with its padding to `b`-byte blocks: the end marker, zeros,
/// and the 64-bit big-endian bit length.
pub open spec fn md_pad(msg: Seq<u8>, b: nat) -> Seq<u8> {
    msg + seq![END_BYTE] + zeros(pad_zeros(msg.len(), b)) + length_field(msg.len())
}

/// A padded message is a whole number of blocks, at least nine bytes and at
/// most a block and eight bytes longer than the message; it starts with the
/// message, then the end marker, zeros, and ends with the bit length.
pub proof fn lemma_md_pad_shape(msg: Seq<u8>, b: nat)
    requires
        b == 16 || b == 64,
    ensures
        md_pad(msg, b).len() % b == 0,
        msg.len() + 9 <= md_pad(msg, b).len() <= msg.len() + b + 8,
        md_pad(msg, b).subrange(0, msg.len() as int) == msg,
        md_pad(msg, b)[msg.len() as int] == END_BYTE,
        forall|i: int|
            msg.len() < i < md_pad(msg, b).len() - 8 ==> #[trigger] md_pad(msg, b)[i] == 0u8,
        md_pad(msg, b).subrange(md_pad(msg, b).len() - 8, md_pad(msg, b).len() as int)
            == length_field(msg.len()),
{
    let p = md_pad(msg, b);
    let n = msg.len();
    assert(p.len() == n + 1 + pad_zeros(n, b) + 8);
    let bi = b as int;
    let q = (n as int) / bi;
    lemma_fundamental_div_mod(n as int, bi);
    if (n as int) % bi <= bi - 9 {
        assert(p.len() == bi * q + bi);
        assert(bi * (q + 1) == bi * q + bi) by (nonlinear_arith);
        lemma_mod_multiples_vanish(q + 1, 0, bi);
    } else {
        assert(p.len() == bi * q + 2 * bi);
        assert(bi * (q + 2) == bi * q + 2 * bi) by (nonlinear_arith);
        lemma_mod_multiples_vanish(q + 2, 0, bi);
    }
    assert(p.subrange(0, n as int) =~= msg);
    assert(p.subrange(p.len() - 8, p.len() as int) =~= length_field(n));
}

/// Padding a message whose first part is a whole number of blocks only
/// touches the rest.
pub proof fn lemma_md_pad_split(prefix: Seq<u8>, rest: Seq<u8>, b: nat)
    requires
        b == 16 || b == 64,
        prefix.len() % b == 0,
    ensures
        md_pad(prefix + rest, b) == prefix + pad_tail(rest, prefix.len() + rest.len(), b),
{
    let bi = b as int;
    lemma_fundamental_div_mod(prefix.len() as int, bi);
    lemma_mod_multiples_vanish((prefix.len() as int) / bi, rest.len() as int, bi);
    assert((prefix.len() + rest.len()) % b == rest.len() % b);
    assert(md_pad(prefix + rest, b) =~= prefix + pad_tail(rest, prefix.len() + rest.len(), b));
}

/// The closing blocks are one block when the rest leaves room for the marker
/// and the length field, and two blocks otherwise.
pub proof fn lemma_pad_tail_len(rest: Seq<u8>, total: nat, b: nat)
    requires
        b == 16 || b == 64,
        rest.len() < b,
    ensures
        rest.len() <= b - 9 ==> pad_tail(rest, total, b).len() == b,
        rest.len() > b - 9 ==> pad_tail(rest, total, b).len() == 2 * b,
        pad_tail(rest, total, b).len() % b == 0,
{
    lemma_small_mod(rest.len(), b);
    if b == 16 {
    } else {
    }
}

/// The closing blocks end with the length field of the whole message.
pub proof fn lemma_pad_tail_ends_with_length(rest: Seq<u8>, total: nat, b: nat)
    ensures
        pad_tail(rest, total, b).subrange(
            pad_tail(rest, total, b).len() - 8,
            pad_tail(rest, total, b).len() as int,
        ) == length_field(total),
{
    let p = pad_tail(rest, total, b);
    assert(p.subrange(p.len() - 8, p.len() as int) =~= length_field(total));
}

/// The length field is eight bytes that spell out, most significant first,
/// the number of bits in the message, for every length whose bit count fits
/// in 64 bits.
pub proof fn lemma_length_field_value(total: nat)
    requires
        8 * total <= u64::MAX,
    ensures
        length_field(total).len() == 8,
        be_value(length_field(total)) == 8 * total,
{
    lemma_be_bytes_u64_value((8 * total) as u64);
}

/// The last eight bytes of a padded message spell out, most significant first,
/// the number of bits in the message.
pub proof fn lemma_md_pad_ends_with_bit_count(msg: Seq<u8>, b: nat)
    requires
        b == 16 || b == 64,
        8 * msg.len() <= u64::MAX,
    ensures
        be_value(md_pad(msg, b).subrange(md_pad(msg, b).len() - 8, md_pad(msg, b).len() as int))
            == 8 * msg.len(),
{
    lemma_md_pad_shape(msg, b);
    lemma_length_field_value(msg.len());
}

/// The last eight bytes of the closing blocks spell out, most significant
/// first, the number of bits in the whole message.
pub proof fn lemma_pad_tail_ends_with_bit_count(rest: Seq<u8>, total: nat, b: nat)
    requires
        8 * total <= u64::MAX,
    ensures
        be_value(
            pad_tail(rest, total, b).subrange(
                pad_tail(rest, total, b).len() - 8,
                pad_tail(rest, total, b).len() as int,
            ),
        ) == 8 * total,
{
    lemma_pad_tail_ends_with_length(rest, total, b);
    lemma_length_field_value(total);
}

} // verus!
