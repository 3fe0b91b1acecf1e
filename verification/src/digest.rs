//! Turning the contents of the digest registers into bytes.
//!
//! The engine leaves its result in eight 32-bit digest registers. A hash is
//! their bytes in register order, each register most significant byte first;
//! encrypted data fills its buffer from the end, one register per four bytes.
use vstd::prelude::*;
use crate::hasher::{BLOCK_LEN, HASH_LEN};
use crate::padding::zeros;
use crate::words::{be_bytes_u32, be_value, lemma_be_bytes_u32_value, u32_to_be_bytes};

verus! {

/// The number of digest registers.
pub const DIGEST_WORDS: usize = 8;

/// The bytes of the digest registers in order, each most significant byte first.
pub open spec fn digest_bytes(digest: Seq<u32>) -> Seq<u8> {
    Seq::new(4 * digest.len(), |i: int| be_bytes_u32(digest[i / 4])[i % 4])
}

/// How many registers are stored into a buffer of `n` bytes filled from its end.
pub open spec fn stored_words(n: nat) -> nat {
    if n / 4 < 8 {
        n / 4
    } else {
        8
    }
}

/// A buffer after the digest registers are stored into it from the end:
/// register `j` fills the `j`-th group of four bytes counted from the end,
/// most significant byte first, until registers or whole groups run out.
/// Bytes before the stored groups keep their value.
pub open spec fn stored_from_end(digest: Seq<u32>, old: Seq<u8>) -> Seq<u8> {
    let n = old.len();
    let c = stored_words(n);
    Seq::new(
        n,
        |i: int|
            if i >= n - 4 * c {
                let j = (n - 1 - i) / 4;
                be_bytes_u32(digest[j])[i - (n - 4 * (j + 1))]
            } else {
                old[i]
            },
    )
}

/// In the hash bytes, each group of four bytes is its register, most
/// significant byte first: the group spells out the register's value.
pub proof fn lemma_digest_bytes_layout(digest: Seq<u32>)
    ensures
        digest_bytes(digest).len() == 4 * digest.len(),
        forall|j: int, t: int|
            0 <= j < digest.len() && 0 <= t < 4 ==> #[trigger] digest_bytes(digest)[4 * j + t]
                == be_bytes_u32(digest[j])[t],
        forall|j: int|
            0 <= j < digest.len() ==> be_value(#[trigger] digest_bytes(digest).subrange(
                4 * j,
                4 * j + 4,
            )) == digest[j],
{
    assert forall|j: int, t: int| 0 <= j < digest.len() && 0 <= t < 4 implies #[trigger] digest_bytes(
        digest,
    )[4 * j + t] == be_bytes_u32(digest[j])[t] by {
        assert((4 * j + t) / 4 == j);
        assert((4 * j + t) % 4 == t);
    }
    assert forall|j: int| 0 <= j < digest.len() implies be_value(
        #[trigger] digest_bytes(digest).subrange(4 * j, 4 * j + 4),
    ) == digest[j] by {
        let g = digest_bytes(digest).subrange(4 * j, 4 * j + 4);
        assert forall|t: int| 0 <= t < 4 implies g[t] == be_bytes_u32(digest[j])[t] by {
            assert(g[t] == digest_bytes(digest)[4 * j + t]);
            assert((4 * j + t) / 4 == j);
            assert((4 * j + t) % 4 == t);
        }
        assert(g =~= be_bytes_u32(digest[j]));
        lemma_be_bytes_u32_value(digest[j]);
    }
}

/// Storing from the end puts register `j` in the `j`-th group of four bytes
/// counted from the end, most significant byte first, for each register up to
/// eight and each whole group; every byte before the stored groups is kept.
pub proof fn lemma_stored_from_end_layout(digest: Seq<u32>, old: Seq<u8>)
    ensures
        stored_from_end(digest, old).len() == old.len(),
        forall|j: int, t: int|
            0 <= j < 8 && 4 * (j + 1) <= old.len() && 0 <= t < 4 ==> #[trigger] stored_from_end(
                digest,
                old,
            )[old.len() - 4 * (j + 1) + t] == be_bytes_u32(digest[j])[t],
        forall|i: int|
            0 <= i < old.len() && i < old.len() - 4 * (if old.len() / 4 < 8 {
                old.len() / 4
            } else {
                8
            }) ==> #[trigger] stored_from_end(digest, old)[i] == old[i],
{
    let n = old.len() as int;
    assert forall|j: int, t: int|
        0 <= j < 8 && 4 * (j + 1) <= old.len() && 0 <= t < 4 implies #[trigger] stored_from_end(
        digest,
        old,
    )[old.len() - 4 * (j + 1) + t] == be_bytes_u32(digest[j])[t] by {
        let i = n - 4 * (j + 1) + t;
        assert((n - 1 - i) / 4 == j);
    }
}

/// Each stored block of encrypted output holds the first four registers of
/// its reading, register 3 first, each most significant byte first; bytes
/// after the stored blocks are kept.
pub proof fn lemma_encrypted_output_layout(captures: Seq<[u32; 8]>, old: Seq<u8>)
    requires
        old.len() == 32,
        captures.len() <= 2,
    ensures
        encrypted_output(captures, old).len() == 32,
        forall|b: int, k: int, t: int|
            0 <= b < captures.len() && 0 <= k < 4 && 0 <= t < 4 ==> #[trigger] encrypted_output(
                captures,
                old,
            )[16 * b + 4 * k + t] == be_bytes_u32(captures[b]@[3 - k])[t],
        forall|i: int|
            16 * captures.len() <= i < 32 ==> #[trigger] encrypted_output(captures, old)[i]
                == old[i],
{
    assert forall|b: int, k: int, t: int|
        0 <= b < captures.len() && 0 <= k < 4 && 0 <= t < 4 implies #[trigger] encrypted_output(
        captures,
        old,
    )[16 * b + 4 * k + t] == be_bytes_u32(captures[b]@[3 - k])[t] by {
        let i = 16 * b + 4 * k + t;
        assert(i / 16 == b);
        assert(i % 16 == 4 * k + t);
        let p = 4 * k + t;
        assert((16 - 1 - p) / 4 == 3 - k);
    }
}

/// Reads the hash out of the digest registers.
pub fn read_hash(digest: &[u32; DIGEST_WORDS], hash: &mut [u8; HASH_LEN])
    ensures
        final(hash)@ == digest_bytes(digest@),
        forall|j: int, t: int|
            0 <= j < 8 && 0 <= t < 4 ==> #[trigger] final(hash)@[4 * j + t] == be_bytes_u32(
                digest@[j],
            )[t],
{
    let mut k: usize = 0;
    while k < DIGEST_WORDS
        invariant
            0 <= k <= DIGEST_WORDS,
            forall|i: int| 0 <= i < 4 * k ==> hash@[i] == digest_bytes(digest@)[i],
        decreases DIGEST_WORDS - k,
    {
        // Values in digest registers are little-endian, swap to BE to convert to a stream of bytes
        let bytes = u32_to_be_bytes(digest[k]);
        let mut t: usize = 0;
        while t < 4
            invariant
                0 <= k < DIGEST_WORDS,
                0 <= t <= 4,
                bytes@ == be_bytes_u32(digest@[k as int]),
                forall|i: int| 0 <= i < 4 * k ==> hash@[i] == digest_bytes(digest@)[i],
                forall|i: int| 4 * k <= i < 4 * k + t ==> hash@[i] == digest_bytes(digest@)[i],
            decreases 4 - t,
        {
            hash[4 * k + t] = bytes[t];
            proof {
                let i = 4 * k + t;
                assert(i / 4 == k as int);
                assert(i % 4 == t as int);
            }
            t = t + 1;
        }
        k = k + 1;
    }
    assert(hash@ =~= digest_bytes(digest@));
    proof {
        lemma_digest_bytes_layout(digest@);
    }
}

/// Reads encrypted data out of the digest registers into `encrypteddata`,
/// filling it from the end.
pub fn read_encrypteddata(digest: &[u32; DIGEST_WORDS], encrypteddata: &mut [u8])
    requires
        old(encrypteddata)@.len() % 4 == 0 || old(encrypteddata)@.len() >= 4 * DIGEST_WORDS,
    ensures
        final(encrypteddata)@ == stored_from_end(digest@, old(encrypteddata)@),
        forall|j: int, t: int|
            0 <= j < 8 && 4 * (j + 1) <= old(encrypteddata)@.len() && 0 <= t < 4
                ==> #[trigger] final(encrypteddata)@[old(encrypteddata)@.len() - 4 * (j + 1) + t]
                == be_bytes_u32(digest@[j])[t],
{
    let ghost start = encrypteddata@;
    let n = encrypteddata.len();
    let c = if n / 4 < DIGEST_WORDS {
        n / 4
    } else {
        DIGEST_WORDS
    };
    assert(c == stored_words(n as nat));
    let mut k: usize = 0;
    while k < c
        invariant
            n == encrypteddata@.len(),
            start.len() == n,
            c == stored_words(n as nat),
            c <= DIGEST_WORDS,
            4 * c <= n,
            0 <= k <= c,
            forall|i: int|
                0 <= i < n - 4 * k ==> encrypteddata@[i] == start[i],
            forall|i: int|
                n - 4 * k <= i < n ==> encrypteddata@[i] == stored_from_end(digest@, start)[i],
        decreases c - k,
    {
        // Values in digest registers are little-endian, swap to BE to convert to a stream of bytes
        let bytes = u32_to_be_bytes(digest[k]);
        let base = n - 4 * (k + 1);
        let mut t: usize = 0;
        while t < 4
            invariant
                n == encrypteddata@.len(),
                start.len() == n,
                c == stored_words(n as nat),
                4 * c <= n,
                0 <= k < c,
                base == n - 4 * (k + 1),
                0 <= t <= 4,
                bytes@ == be_bytes_u32(digest@[k as int]),
                forall|i: int| 0 <= i < base ==> encrypteddata@[i] == start[i],
                forall|i: int| base + t <= i < n - 4 * k ==> encrypteddata@[i] == start[i],
                forall|i: int|
                    base <= i < base + t ==> encrypteddata@[i] == stored_from_end(digest@, start)[i],
                forall|i: int|
                    n - 4 * k <= i < n ==> encrypteddata@[i] == stored_from_end(digest@, start)[i],
            decreases 4 - t,
        {
            encrypteddata[base + t] = bytes[t];
            proof {
                let i = base + t;
                assert((n - 1 - i) / 4 == k as int);
                assert(i - (n - 4 * (k + 1)) == t as int);
            }
            t = t + 1;
        }
        k = k + 1;
    }
    assert(encrypteddata@ =~= stored_from_end(digest@, start));
    proof {
        lemma_stored_from_end_layout(digest@, start);
    }
}

/// The block of output that one reading of the digest registers yields.
pub open spec fn block_output(digest: Seq<u32>) -> Seq<u8> {
    stored_from_end(digest, zeros(16))
}

/// The output buffer after the results of the captured readings are stored
/// in it block by block; bytes after the last stored block keep their value.
pub open spec fn encrypted_output(captures: Seq<[u32; 8]>, old: Seq<u8>) -> Seq<u8> {
    Seq::new(
        old.len(),
        |i: int|
            if i < 16 * captures.len() {
                block_output(captures[i / 16]@)[i % 16]
            } else {
                old[i]
            },
    )
}

/// Storing into a whole block overwrites every byte of it.
pub proof fn lemma_stored_block_ignores_old(digest: Seq<u32>, old: Seq<u8>)
    requires
        old.len() == 16,
    ensures
        stored_from_end(digest, old) == block_output(digest),
{
    assert(stored_from_end(digest, old) =~= block_output(digest));
}

/// Stores the results of encrypting block after block, one reading of the
/// digest registers per block, into consecutive blocks of `encrypteddata`.
pub fn store_encrypted_blocks(captures: &[[u32; DIGEST_WORDS]], encrypteddata: &mut [u8; 32])
    requires
        captures@.len() <= 2,
    ensures
        final(encrypteddata)@ == encrypted_output(captures@, old(encrypteddata)@),
        forall|b: int, k: int, t: int|
            0 <= b < captures@.len() && 0 <= k < 4 && 0 <= t < 4
                ==> #[trigger] final(encrypteddata)@[16 * b + 4 * k + t] == be_bytes_u32(
                captures@[b]@[3 - k],
            )[t],
        forall|i: int|
            16 * captures@.len() <= i < 32 ==> #[trigger] final(encrypteddata)@[i]
                == old(encrypteddata)@[i],
{
    let ghost start = encrypteddata@;
    let mut buf = [0u8; 16];
    let mut block_num: usize = 0;
    while block_num < captures.len()
        invariant
            captures@.len() <= 2,
            0 <= block_num <= captures@.len(),
            start.len() == 32,
            forall|i: int|
                16 * block_num <= i < 32 ==> encrypteddata@[i] == start[i],
            forall|i: int|
                0 <= i < 16 * block_num ==> encrypteddata@[i] == encrypted_output(
                    captures@,
                    start,
                )[i],
        decreases captures@.len() - block_num,
    {
        let digest = captures[block_num];
        let ghost prev = buf@;
        read_encrypteddata(&digest, &mut buf);
        proof {
            lemma_stored_block_ignores_old(digest@, prev);
        }
        let mut t: usize = 0;
        while t < BLOCK_LEN
            invariant
                captures@.len() <= 2,
                0 <= block_num < captures@.len(),
                start.len() == 32,
                0 <= t <= BLOCK_LEN,
                digest == captures@[block_num as int],
                buf@ == block_output(digest@),
                forall|i: int|
                    16 * block_num + t <= i < 32 ==> encrypteddata@[i] == start[i],
                forall|i: int|
                    0 <= i < 16 * block_num + t ==> encrypteddata@[i] == encrypted_output(
                        captures@,
                        start,
                    )[i],
            decreases BLOCK_LEN - t,
        {
            encrypteddata[16 * block_num + t] = buf[t];
            proof {
                let i = 16 * block_num + t;
                assert(i / 16 == block_num as int);
                assert(i % 16 == t as int);
            }
            t = t + 1;
        }
        block_num = block_num + 1;
    }
    assert(encrypteddata@ =~= encrypted_output(captures@, start));
    proof {
        lemma_encrypted_output_layout(captures@, start);
    }
}

} // verus!
