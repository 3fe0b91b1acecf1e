//! What the planned register traffic amounts to.
//!
//! Whatever the word-level details, hashing hands the engine exactly the words
//! of the padded message, in order; these proofs relate the plans of the
//! hasher's requests to that padded message.
use vstd::prelude::*;
use crate::engine::{block_len_of, Algorithm};
use crate::hasher::{
    async_encrypt_ops, async_finalize_ops, async_hash_ops, blocking_encrypt_ops, blocking_key,
    encrypt_blocks_ops, finalize_ops, full_len, hash_ops, load_key_ops, restarts,
    submit_blocks_ops, submit_full_dma_ops, submit_full_ops, transfer_ops,
};
use crate::op::{
    blocks_ops, dma_blocks_ops, fed_words, key_ops, lemma_fed_words_append,
    lemma_fed_words_blocks, lemma_fed_words_control, lemma_fed_words_dma_blocks,
    lemma_fed_words_dma_transfer, lemma_fed_words_writes, restart_ops, transfer_block_ops,
    writes, OpModel,
};
use crate::padding::{lemma_md_pad_split, lemma_pad_tail_len, md_pad, pad_tail};
use crate::words::{le_words, lemma_le_words_append};

verus! {

/// Block lengths are 16 or 64 bytes, whole numbers of words.
pub proof fn lemma_block_len(algorithm: Algorithm)
    ensures
        block_len_of(algorithm) == 16 || block_len_of(algorithm) == 64,
        block_len_of(algorithm) % 16 == 0,
{
}

/// The whole-block part of `data` and the rest.
proof fn lemma_split_full(data: Seq<u8>, b: nat)
    requires
        b == 16 || b == 64,
    ensures
        0 <= full_len(data, b) <= data.len(),
        full_len(data, b) % (b as int) == 0,
        full_len(data, b) % 16 == 0,
        data.skip(full_len(data, b)).len() < b,
        full_len(data, b) > 0 <==> data.len() >= b,
        data.take(full_len(data, b)) + data.skip(full_len(data, b)) == data,
{
    let k = full_len(data, b);
    crate::op::lemma_block_arith(data.len() as int, b as int);
    assert(data.take(k) + data.skip(k) =~= data);
}

/// Restarts feed nothing.
proof fn lemma_restarts_feed_nothing(algorithm: Algorithm)
    ensures
        fed_words(restarts(algorithm)) == Seq::<u32>::empty(),
{
    lemma_fed_words_control(restarts(algorithm));
}

/// Submitting a run of blocks feeds the words of the blocks.
pub proof fn lemma_submit_blocks_feeds(data: Seq<u8>, algorithm: Algorithm)
    requires
        data.len() % block_len_of(algorithm) == 0,
    ensures
        fed_words(submit_blocks_ops(data, algorithm)) == le_words(data),
{
    let b = block_len_of(algorithm);
    let r = restarts(algorithm);
    lemma_restarts_feed_nothing(algorithm);
    lemma_fed_words_blocks(data, b);
    lemma_fed_words_append(r, blocks_ops(data, b));
    lemma_fed_words_append(r + blocks_ops(data, b), r);
    assert(Seq::<u32>::empty() + le_words(data) + Seq::<u32>::empty() =~= le_words(data));
}

/// Closing a message feeds the words of its closing blocks.
pub proof fn lemma_finalize_feeds(rest: Seq<u8>, total: nat, b: nat)
    requires
        b == 16 || b == 64,
        rest.len() < b,
    ensures
        fed_words(finalize_ops(rest, total, b)) == le_words(pad_tail(rest, total, b)),
        fed_words(async_finalize_ops(rest, total, b)) == le_words(pad_tail(rest, total, b)),
{
    let p = pad_tail(rest, total, b);
    lemma_pad_tail_len(rest, total, b);
    lemma_fed_words_blocks(p, b);
    lemma_fed_words_dma_blocks(p, b);
    lemma_fed_words_control(seq![OpModel::ReadDigest]);
    lemma_fed_words_append(blocks_ops(p, b), seq![OpModel::ReadDigest]);
    lemma_fed_words_append(dma_blocks_ops(p, b), seq![OpModel::ReadDigest]);
    assert(le_words(p) + Seq::<u32>::empty() =~= le_words(p));
}

/// Hashing in blocking mode feeds the words of the whole blocks of the data,
/// then those of the closing blocks of the rest, with the count of all bytes
/// taken so far as the length.
pub proof fn lemma_hash_feeds(data: Seq<u8>, written: nat, algorithm: Algorithm)
    ensures
        fed_words(hash_ops(data, written, algorithm)) == le_words(
            data.take(full_len(data, block_len_of(algorithm))) + pad_tail(
                data.skip(full_len(data, block_len_of(algorithm))),
                written + data.len(),
                block_len_of(algorithm),
            ),
        ),
{
    let b = block_len_of(algorithm);
    lemma_block_len(algorithm);
    lemma_split_full(data, b);
    let k = full_len(data, b);
    let head = data.take(k);
    let rest = data.skip(k);
    if k > 0 {
        lemma_submit_blocks_feeds(head, algorithm);
    } else {
        assert(head =~= Seq::<u8>::empty());
        assert(le_words(head) =~= Seq::<u32>::empty());
    }
    assert(fed_words(submit_full_ops(data, algorithm)) == le_words(head));
    lemma_finalize_feeds(rest, written + data.len(), b);
    lemma_fed_words_append(
        submit_full_ops(data, algorithm),
        finalize_ops(rest, written + data.len(), b),
    );
    lemma_le_words_append(head, pad_tail(rest, written + data.len(), b));
}

/// Hashing a message with a fresh blocking hasher feeds the engine exactly
/// the words of the message padded to the algorithm's blocks; for SHA-256 this
/// is the SHA-256 message padding.
pub proof fn lemma_hash_feeds_padded_message(data: Seq<u8>, algorithm: Algorithm)
    ensures
        fed_words(hash_ops(data, 0, algorithm)) == le_words(md_pad(data, block_len_of(algorithm))),
{
    let b = block_len_of(algorithm);
    lemma_block_len(algorithm);
    lemma_split_full(data, b);
    let k = full_len(data, b);
    lemma_hash_feeds(data, 0, algorithm);
    lemma_md_pad_split(data.take(k), data.skip(k), b);
}

/// The operations of submitting each part in turn.
pub open spec fn stream_ops(parts: Seq<Seq<u8>>, algorithm: Algorithm) -> Seq<OpModel>
    decreases parts.len(),
{
    if parts.len() == 0 {
        seq![]
    } else {
        submit_blocks_ops(parts.first(), algorithm) + stream_ops(parts.drop_first(), algorithm)
    }
}

/// Submitting parts made of whole blocks feeds the words of their concatenation.
pub proof fn lemma_stream_feeds(parts: Seq<Seq<u8>>, algorithm: Algorithm)
    requires
        forall|i: int|
            0 <= i < parts.len() ==> (#[trigger] parts[i]).len() % block_len_of(algorithm) == 0,
    ensures
        fed_words(stream_ops(parts, algorithm)) == le_words(parts.flatten()),
        parts.flatten().len() % block_len_of(algorithm) == 0,
    decreases parts.len(),
{
    let b = block_len_of(algorithm);
    lemma_block_len(algorithm);
    if parts.len() == 0 {
        assert(le_words(Seq::<u8>::empty()) =~= Seq::<u32>::empty());
    } else {
        let rest = parts.drop_first();
        assert forall|i: int| 0 <= i < rest.len() implies (#[trigger] rest[i]).len() % b == 0 by {
            assert(rest[i] == parts[i + 1]);
        }
        lemma_stream_feeds(rest, algorithm);
        assert(parts[0].len() % b == 0);
        assert(parts.first().len() % 4 == 0);
        lemma_submit_blocks_feeds(parts.first(), algorithm);
        lemma_fed_words_append(submit_blocks_ops(parts.first(), algorithm), stream_ops(rest, algorithm));
        lemma_le_words_append(parts.first(), rest.flatten());
    }
}

/// Feeding a message in parts made of whole blocks with `submit_blocks` and
/// closing it with `finalize` hands the engine the same words as padding the
/// whole message at once.
pub proof fn lemma_streaming_feeds_padded_message(
    parts: Seq<Seq<u8>>,
    rest: Seq<u8>,
    algorithm: Algorithm,
)
    requires
        forall|i: int|
            0 <= i < parts.len() ==> (#[trigger] parts[i]).len() % block_len_of(algorithm) == 0,
        rest.len() < block_len_of(algorithm),
    ensures
        fed_words(
            stream_ops(parts, algorithm) + finalize_ops(
                rest,
                parts.flatten().len() + rest.len(),
                block_len_of(algorithm),
            ),
        ) == le_words(md_pad(parts.flatten() + rest, block_len_of(algorithm))),
{
    let b = block_len_of(algorithm);
    lemma_block_len(algorithm);
    let msg = parts.flatten();
    let total = msg.len() + rest.len();
    lemma_stream_feeds(parts, algorithm);
    lemma_finalize_feeds(rest, total, b);
    lemma_fed_words_append(stream_ops(parts, algorithm), finalize_ops(rest, total, b));
    assert(msg.len() % 4 == 0);
    lemma_le_words_append(msg, pad_tail(rest, total, b));
    lemma_md_pad_split(msg, rest, b);
}

/// Hashing in asynchronous mode feeds the words of the whole blocks of the
/// data, then those of the closing blocks of the rest, with the count of all
/// bytes taken so far as the length.
pub proof fn lemma_async_hash_feeds(data: Seq<u8>, written: nat, algorithm: Algorithm)
    ensures
        fed_words(async_hash_ops(data, written, algorithm)) == le_words(
            data.take(full_len(data, block_len_of(algorithm))) + pad_tail(
                data.skip(full_len(data, block_len_of(algorithm))),
                written + data.len(),
                block_len_of(algorithm),
            ),
        ),
{
    let b = block_len_of(algorithm);
    lemma_block_len(algorithm);
    lemma_split_full(data, b);
    let k = full_len(data, b);
    let head = data.take(k);
    let rest = data.skip(k);
    if k > 0 {
        lemma_fed_words_dma_transfer(head);
    } else {
        assert(head =~= Seq::<u8>::empty());
        assert(le_words(head) =~= Seq::<u32>::empty());
    }
    assert(fed_words(submit_full_dma_ops(data, b)) == le_words(head));
    lemma_finalize_feeds(rest, written + data.len(), b);
    lemma_fed_words_append(
        submit_full_dma_ops(data, b),
        async_finalize_ops(rest, written + data.len(), b),
    );
    lemma_le_words_append(head, pad_tail(rest, written + data.len(), b));
}

/// Hashing a message with a fresh asynchronous hasher feeds the engine exactly
/// the words of the padded message.
pub proof fn lemma_async_hash_feeds_padded_message(data: Seq<u8>, algorithm: Algorithm)
    ensures
        fed_words(async_hash_ops(data, 0, algorithm)) == le_words(
            md_pad(data, block_len_of(algorithm)),
        ),
{
    let b = block_len_of(algorithm);
    lemma_block_len(algorithm);
    lemma_split_full(data, b);
    let k = full_len(data, b);
    lemma_async_hash_feeds(data, 0, algorithm);
    lemma_md_pad_split(data.take(k), data.skip(k), b);
}

/// Encrypting in blocking mode feeds the key, then the data as `hash` feeds it:
/// its whole blocks and the closing blocks of the rest.
pub proof fn lemma_blocking_encrypt_feeds(data: Seq<u8>, written: nat, algorithm: Algorithm)
    ensures
        fed_words(blocking_encrypt_ops(data, written, algorithm)) == le_words(blocking_key())
            + fed_words(hash_ops(data, written, algorithm)),
        written == 0 ==> fed_words(blocking_encrypt_ops(data, written, algorithm)) == le_words(
            blocking_key(),
        ) + le_words(md_pad(data, block_len_of(algorithm))),
{
    lemma_key_feeds(blocking_key());
    lemma_fed_words_append(key_ops(blocking_key()), hash_ops(data, written, algorithm));
    lemma_hash_feeds_padded_message(data, algorithm);
}

/// Submitting two runs of whole blocks one after the other feeds the same
/// words as submitting their concatenation at once.
pub proof fn lemma_submit_blocks_split(a: Seq<u8>, b: Seq<u8>, algorithm: Algorithm)
    requires
        a.len() % block_len_of(algorithm) == 0,
        b.len() % block_len_of(algorithm) == 0,
    ensures
        fed_words(submit_blocks_ops(a, algorithm) + submit_blocks_ops(b, algorithm)) == fed_words(
            submit_blocks_ops(a + b, algorithm),
        ),
{
    lemma_block_len(algorithm);
    assert((a + b).len() % block_len_of(algorithm) == 0);
    lemma_submit_blocks_feeds(a, algorithm);
    lemma_submit_blocks_feeds(b, algorithm);
    lemma_submit_blocks_feeds(a + b, algorithm);
    lemma_fed_words_append(submit_blocks_ops(a, algorithm), submit_blocks_ops(b, algorithm));
    lemma_le_words_append(a, b);
}

/// Hashing a message whose first part is whole blocks plans exactly the
/// submission of that part followed by closing the rest.
pub proof fn lemma_hash_is_submit_then_finalize(
    p: Seq<u8>,
    q: Seq<u8>,
    written: nat,
    algorithm: Algorithm,
)
    requires
        p.len() > 0,
        p.len() % block_len_of(algorithm) == 0,
        q.len() < block_len_of(algorithm),
    ensures
        hash_ops(p + q, written, algorithm) == submit_blocks_ops(p, algorithm) + finalize_ops(
            q,
            written + p.len() + q.len(),
            block_len_of(algorithm),
        ),
{
    let b = block_len_of(algorithm);
    lemma_block_len(algorithm);
    let d = p + q;
    assert(full_len(d, b) == p.len());
    assert(d.take(p.len() as int) =~= p);
    assert(d.skip(p.len() as int) =~= q);
}

/// No operation in the sequence starts a new message.
pub open spec fn never_restarts(ops: Seq<OpModel>) -> bool {
    forall|i: int|
        0 <= i < ops.len() ==> !(#[trigger] ops[i] is NewHash) && !(ops[i] is NewHashMode)
}

proof fn lemma_blocks_never_restart(data: Seq<u8>, b: nat)
    ensures
        never_restarts(blocks_ops(data, b)),
    decreases data.len(),
{
    if b > 0 && data.len() >= b {
        let head = data.subrange(0, data.len() - b);
        let tail = data.subrange(data.len() - b, data.len() as int);
        lemma_blocks_never_restart(head, b);
        let t = transfer_block_ops(tail);
        assert(never_restarts(t)) by {
            assert forall|i: int| 0 <= i < t.len() implies !(#[trigger] t[i] is NewHash) && !(
            t[i] is NewHashMode) by {
                if i < writes(le_words(tail)).len() {
                    assert(t[i] == writes(le_words(tail))[i]);
                }
            }
        }
        let all = blocks_ops(head, b) + t;
        assert forall|i: int| 0 <= i < all.len() implies !(#[trigger] all[i] is NewHash) && !(
        all[i] is NewHashMode) by {
            if i < blocks_ops(head, b).len() {
                assert(all[i] == blocks_ops(head, b)[i]);
            } else {
                assert(all[i] == t[i - blocks_ops(head, b).len()]);
            }
        }
    }
}

/// A SHA-256 hash is never restarted once it is under way: between the start of
/// the hasher and the reading of the digest, no operation starts a new message,
/// so the running hash covers the whole message.
pub proof fn lemma_sha256_hash_never_restarts(data: Seq<u8>, written: nat)
    ensures
        never_restarts(hash_ops(data, written, Algorithm::SHA256)),
{
    let b = 64nat;
    lemma_split_full(data, b);
    let k = full_len(data, b);
    let rest = data.skip(k);
    let p = pad_tail(rest, written + data.len(), b);
    lemma_blocks_never_restart(data.take(k), b);
    lemma_blocks_never_restart(p, b);
    let s = submit_full_ops(data, Algorithm::SHA256);
    let f = finalize_ops(rest, written + data.len(), b);
    if k > 0 {
        assert(s =~= blocks_ops(data.take(k), b));
    } else {
        assert(s =~= Seq::<OpModel>::empty());
    }
    assert(never_restarts(f)) by {
        assert forall|i: int| 0 <= i < f.len() implies !(#[trigger] f[i] is NewHash) && !(
        f[i] is NewHashMode) by {
            if i < blocks_ops(p, b).len() {
                assert(f[i] == blocks_ops(p, b)[i]);
            }
        }
    }
    let all = s + f;
    assert forall|i: int| 0 <= i < all.len() implies !(#[trigger] all[i] is NewHash) && !(
    all[i] is NewHashMode) by {
        if i < s.len() {
            assert(all[i] == s[i]);
        } else {
            assert(all[i] == f[i - s.len()]);
        }
    }
}

/// Loading a key feeds its words.
pub proof fn lemma_key_feeds(key: Seq<u8>)
    ensures
        fed_words(key_ops(key)) == le_words(key),
{
    lemma_fed_words_writes(le_words(key));
    lemma_fed_words_control(seq![OpModel::WaitNeedKey]);
    lemma_fed_words_append(writes(le_words(key)), seq![OpModel::WaitNeedKey]);
    assert(le_words(key) + Seq::<u32>::empty() =~= le_words(key));
}

/// The number of digest readings in a sequence of operations.
pub open spec fn reads(ops: Seq<OpModel>) -> nat
    decreases ops.len(),
{
    if ops.len() == 0 {
        0
    } else {
        reads(ops.drop_last()) + if ops.last() is ReadDigest {
            1nat
        } else {
            0nat
        }
    }
}

pub proof fn lemma_reads_append(a: Seq<OpModel>, b: Seq<OpModel>)
    ensures
        reads(a + b) == reads(a) + reads(b),
    decreases b.len(),
{
    if b.len() == 0 {
        assert(a + b =~= a);
    } else {
        lemma_reads_append(a, b.drop_last());
        assert((a + b).drop_last() =~= a + b.drop_last());
    }
}

pub proof fn lemma_reads_none(ops: Seq<OpModel>)
    requires
        forall|i: int| 0 <= i < ops.len() ==> !(#[trigger] ops[i] is ReadDigest),
    ensures
        reads(ops) == 0,
    decreases ops.len(),
{
    if ops.len() > 0 {
        lemma_reads_none(ops.drop_last());
    }
}

/// Encrypting block by block feeds the words of the data and reads the digest
/// registers once per block.
pub proof fn lemma_encrypt_blocks(data: Seq<u8>)
    requires
        data.len() % 16 == 0,
    ensures
        fed_words(encrypt_blocks_ops(data)) == le_words(data),
        reads(encrypt_blocks_ops(data)) == data.len() / 16,
    decreases data.len(),
{
    if data.len() < 16 {
        assert(data.len() == 0);
        assert(le_words(data) =~= Seq::<u32>::empty());
    } else {
        let head = data.subrange(0, data.len() - 16);
        let tail = data.subrange(data.len() - 16, data.len() as int);
        let last = transfer_ops(tail) + seq![OpModel::ReadDigest];
        lemma_encrypt_blocks(head);
        assert(encrypt_blocks_ops(data) == encrypt_blocks_ops(head) + last);
        lemma_fed_words_append(encrypt_blocks_ops(head), last);
        lemma_reads_append(encrypt_blocks_ops(head), last);
        assert(last =~= seq![OpModel::DmaTransfer(tail), OpModel::WaitDigest, OpModel::ReadDigest]);
        let s1 = seq![OpModel::DmaTransfer(tail)];
        let s2 = seq![OpModel::DmaTransfer(tail), OpModel::WaitDigest];
        assert(s1.drop_last() =~= Seq::<OpModel>::empty());
        assert(s2.drop_last() =~= s1);
        assert(last.drop_last() =~= s2);
        assert(fed_words(Seq::<OpModel>::empty()) =~= Seq::<u32>::empty());
        assert(fed_words(s1) =~= le_words(tail));
        assert(fed_words(s2) =~= le_words(tail));
        assert(fed_words(last) =~= le_words(tail));
        assert(reads(Seq::<OpModel>::empty()) == 0);
        assert(s1.last() == OpModel::DmaTransfer(tail));
        assert(reads(s1) == 0);
        assert(reads(s2) == 0);
        assert(reads(last) == 1);
        assert(head + tail =~= data);
        lemma_le_words_append(head, tail);
    }
}

/// Encrypting in asynchronous mode feeds the whole blocks of the key, then the
/// data, and reads the digest registers once per block of data.
pub proof fn lemma_async_encrypt_feeds(data: Seq<u8>, key: Seq<u8>)
    requires
        data.len() % 16 == 0,
    ensures
        fed_words(async_encrypt_ops(data, key)) == le_words(key.take(full_len(key, 16)))
            + le_words(data),
        reads(async_encrypt_ops(data, key)) == data.len() / 16,
{
    let k = full_len(key, 16);
    let head = key.take(k);
    lemma_split_full(key, 16);
    if k > 0 {
        lemma_key_feeds(head);
        lemma_reads_none(key_ops(head));
    } else {
        assert(head =~= Seq::<u8>::empty());
        assert(le_words(head) =~= Seq::<u32>::empty());
    }
    assert(fed_words(load_key_ops(key)) == le_words(head));
    assert(reads(load_key_ops(key)) == 0);
    lemma_fed_words_control(seq![OpModel::EnableDma]);
    lemma_reads_none(seq![OpModel::EnableDma]);
    lemma_encrypt_blocks(data);
    lemma_fed_words_append(load_key_ops(key), seq![OpModel::EnableDma]);
    lemma_fed_words_append(load_key_ops(key) + seq![OpModel::EnableDma], encrypt_blocks_ops(data));
    lemma_reads_append(load_key_ops(key), seq![OpModel::EnableDma]);
    lemma_reads_append(load_key_ops(key) + seq![OpModel::EnableDma], encrypt_blocks_ops(data));
    assert(le_words(head) + Seq::<u32>::empty() =~= le_words(head));
}

} // verus!
