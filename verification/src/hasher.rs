//! The hasher: plans the register traffic for hashing and encrypting data.
use core::marker::PhantomData;
use vstd::prelude::*;
use crate::engine::{block_len_of, Algorithm};
use crate::laws::{lemma_async_hash_feeds_padded_message, lemma_hash_feeds_padded_message};
use crate::mode::{Async, Blocking, Mode};
use crate::op::{
    blocks_ops, dma_blocks_ops, fed_words, key_ops, lemma_model_append, lemma_model_push, model_of,
    restart_ops, transfer_block_ops, writes, EngineMode, Op, OpModel,
};
use crate::padding::{length_field, md_pad, pad_tail, pad_zeros, zeros};
use crate::words::{le_word, le_words, u64_to_be_bytes, word_at};

verus! {

/// Block length of the engine's AES path
pub const BLOCK_LEN: usize = 16;

/// Length of a SHA-256 block.
pub const SHA256_BLOCK_LEN: usize = 64;

/// Hash length
pub const HASH_LEN: usize = 32;

/// The byte that marks the end of the message in the last block.
pub const END_BYTE: u8 = 0x80;

/// The most message bytes that fit in a last 16-byte block together with the
/// end marker and the 64-bit length.
pub const LAST_BLOCK_MAX_DATA: usize = BLOCK_LEN - 9;

/// A hasher: knows the algorithm the engine was started for, counts the bytes
/// handed to the engine so far, and plans the register operations of each
/// request.
pub struct Hasher<M: Mode> {
    written: usize,
    algorithm: Algorithm,
    _mode: PhantomData<M>,
}

impl<M: Mode> View for Hasher<M> {
    /// The number of bytes written so far.
    type V = nat;

    closed spec fn view(&self) -> nat {
        self.written as nat
    }
}

/// The next whole block after a multiple of the block length still fits.
proof fn lemma_next_block(pos: int, len: int, b: int)
    requires
        b == 16 || b == 64,
        0 <= pos < len,
        pos % b == 0,
        len % b == 0,
    ensures
        pos + b <= len,
        (pos + b) % b == 0,
{
}

/// The whole-block part of a length is a multiple of the block length.
proof fn lemma_full_len(len: int, b: int)
    requires
        b == 16 || b == 64,
        0 <= len,
    ensures
        0 <= (len / b) * b <= len,
        ((len / b) * b) % b == 0,
        ((len / b) * b) % 16 == 0,
        len - (len / b) * b < b,
        (len / b) * b > 0 <==> len >= b,
{
}

/// Appends one word write for each four bytes of `data`.
fn push_words(data: &[u8], ops: &mut Vec<Op>)
    requires
        data.len() % 4 == 0,
    ensures
        model_of(final(ops)@) == model_of(old(ops)@) + writes(le_words(data@)),
{
    let n = data.len() / 4;
    let mut i: usize = 0;
    while i < n
        invariant
            n == data.len() / 4,
            data.len() % 4 == 0,
            0 <= i <= n,
            model_of(ops@) == model_of(old(ops)@) + writes(le_words(data@).take(i as int)),
        decreases n - i,
    {
        let w = le_word(data[4 * i], data[4 * i + 1], data[4 * i + 2], data[4 * i + 3]);
        assert(w == word_at(data@, i as int));
        let ghost before = ops@;
        ops.push(Op::WriteInput(w));
        proof {
            lemma_model_push(before, Op::WriteInput(w));
            assert(writes(le_words(data@).take(i + 1)) =~= writes(le_words(data@).take(i as int)).push(
                OpModel::WriteInput(w),
            ));
        }
        i = i + 1;
    }
    assert(le_words(data@).take(n as int) =~= le_words(data@));
}

/// Restarting the engine around a batch of blocks. AES is restarted in AES
/// mode; a SHA-256 hash keeps its running state between batches, so it is not
/// restarted.
pub open spec fn restarts(algorithm: Algorithm) -> Seq<OpModel> {
    match algorithm {
        Algorithm::AES => restart_ops(),
        Algorithm::SHA256 => seq![],
    }
}

/// Submitting whole blocks: restart, the blocks, restart.
pub open spec fn submit_blocks_ops(data: Seq<u8>, algorithm: Algorithm) -> Seq<OpModel> {
    restarts(algorithm) + blocks_ops(data, block_len_of(algorithm)) + restarts(algorithm)
}

/// Closing a message whose last `rest` bytes remain, `total` bytes in all,
/// with `b`-byte blocks: the closing blocks, then the digest is read.
pub open spec fn finalize_ops(rest: Seq<u8>, total: nat, b: nat) -> Seq<OpModel> {
    blocks_ops(pad_tail(rest, total, b), b) + seq![OpModel::ReadDigest]
}

/// The number of bytes of `data` that fill whole `b`-byte blocks.
pub open spec fn full_len(data: Seq<u8>, b: nat) -> int {
    (data.len() / b) * (b as int)
}

/// Submitting the whole blocks of `data`, if there are any.
pub open spec fn submit_full_ops(data: Seq<u8>, algorithm: Algorithm) -> Seq<OpModel> {
    let k = full_len(data, block_len_of(algorithm));
    if k > 0 {
        submit_blocks_ops(data.take(k), algorithm)
    } else {
        seq![]
    }
}

/// Hashing `data` on a hasher for `algorithm` that has taken `written` bytes
/// before: the whole blocks, then the closing blocks of the rest.
pub open spec fn hash_ops(data: Seq<u8>, written: nat, algorithm: Algorithm) -> Seq<OpModel> {
    let b = block_len_of(algorithm);
    submit_full_ops(data, algorithm) + finalize_ops(
        data.skip(full_len(data, b)),
        written + data.len(),
        b,
    )
}

/// The key that blocking encryption loads.
pub open spec fn blocking_key() -> Seq<u8> {
    seq![
        0x59u8, 0x45u8, 0x4cu8, 0x4cu8, 0x4fu8, 0x57u8, 0x20u8, 0x53u8,
        0x55u8, 0x42u8, 0x4du8, 0x41u8, 0x52u8, 0x49u8, 0x4eu8, 0x45u8,
    ]
}

/// Encrypting `data` in blocking mode: load the key, then the data as `hash`
/// hands it over, then read the result.
pub open spec fn blocking_encrypt_ops(data: Seq<u8>, written: nat, algorithm: Algorithm) -> Seq<
    OpModel,
> {
    key_ops(blocking_key()) + hash_ops(data, written, algorithm)
}

/// Moving data to the engine by DMA and waiting for the digest.
pub open spec fn transfer_ops(data: Seq<u8>) -> Seq<OpModel> {
    seq![OpModel::DmaTransfer(data), OpModel::WaitDigest]
}

/// Closing a message by DMA: the closing blocks, then the digest is read.
pub open spec fn async_finalize_ops(rest: Seq<u8>, total: nat, b: nat) -> Seq<OpModel> {
    dma_blocks_ops(pad_tail(rest, total, b), b) + seq![OpModel::ReadDigest]
}

/// Moving the whole blocks of `data` by DMA in one transfer, if there are any.
pub open spec fn submit_full_dma_ops(data: Seq<u8>, b: nat) -> Seq<OpModel> {
    if full_len(data, b) > 0 {
        transfer_ops(data.take(full_len(data, b)))
    } else {
        seq![]
    }
}

/// Hashing in asynchronous mode on a hasher for `algorithm` that has taken
/// `written` bytes before: the whole blocks by DMA, then the closing blocks
/// of the rest.
pub open spec fn async_hash_ops(data: Seq<u8>, written: nat, algorithm: Algorithm) -> Seq<
    OpModel,
> {
    let b = block_len_of(algorithm);
    submit_full_dma_ops(data, b) + async_finalize_ops(
        data.skip(full_len(data, b)),
        written + data.len(),
        b,
    )
}

/// Encrypting whole 16-byte blocks by DMA, reading the result after each block.
pub open spec fn encrypt_blocks_ops(data: Seq<u8>) -> Seq<OpModel>
    decreases data.len(),
{
    if data.len() < 16 {
        seq![]
    } else {
        encrypt_blocks_ops(data.subrange(0, data.len() - 16)) + transfer_ops(
            data.subrange(data.len() - 16, data.len() as int),
        ) + seq![OpModel::ReadDigest]
    }
}

/// Loading the whole 16-byte blocks of a key, if there are any.
pub open spec fn load_key_ops(key: Seq<u8>) -> Seq<OpModel> {
    if full_len(key, 16) > 0 {
        key_ops(key.take(full_len(key, 16)))
    } else {
        seq![]
    }
}

/// Encrypting in asynchronous mode: load the key, hand the engine's requests
/// to DMA, then encrypt block by block.
pub open spec fn async_encrypt_ops(data: Seq<u8>, key: Seq<u8>) -> Seq<OpModel> {
    load_key_ops(key) + seq![OpModel::EnableDma] + encrypt_blocks_ops(data)
}

impl<M: Mode> Hasher<M> {
    /// The algorithm the engine was started for.
    pub closed spec fn algorithm(self) -> Algorithm {
        self.algorithm
    }

    /// The length of the blocks the engine processes for this hasher.
    pub open spec fn block_size(self) -> nat {
        block_len_of(self.algorithm())
    }

    /// The number of bytes written so far.
    pub fn written(&self) -> (n: usize)
        ensures
            n == self@,
    {
        self.written
    }

    /// The length of the blocks the engine processes for this hasher.
    pub fn block_len(&self) -> (n: usize)
        ensures
            n == self.block_size(),
            n == 16 || n == 64,
    {
        match self.algorithm {
            Algorithm::SHA256 => SHA256_BLOCK_LEN,
            Algorithm::AES => BLOCK_LEN,
        }
    }

    fn new_inner(algorithm: Algorithm) -> (h: Self)
        ensures
            h@ == 0,
            h.algorithm() == algorithm,
    {
        Self { written: 0, algorithm, _mode: PhantomData }
    }

    /// Puts the last bytes of the message at the start of `buffer`, followed by the
    /// end marker.
    fn init_final_data(&self, data: &[u8], buffer: &mut Vec<u8>)
        requires
            data.len() < old(buffer).len(),
        ensures
            final(buffer)@ == data@ + seq![END_BYTE] + old(buffer)@.subrange(
                data.len() + 1,
                old(buffer)@.len() as int,
            ),
    {
        let mut i: usize = 0;
        while i < data.len()
            invariant
                data.len() < buffer@.len(),
                buffer@.len() == old(buffer)@.len(),
                0 <= i <= data.len(),
                forall|k: int| 0 <= k < i ==> buffer@[k] == data@[k],
                forall|k: int| i <= k < buffer@.len() ==> buffer@[k] == old(buffer)@[k],
            decreases data.len() - i,
        {
            buffer[i] = data[i];
            i = i + 1;
        }
        buffer[data.len()] = END_BYTE;
        assert(buffer@ =~= data@ + seq![END_BYTE] + old(buffer)@.subrange(
            data.len() + 1,
            old(buffer)@.len() as int,
        ));
    }

    /// Writes the message length in bits, big-endian, into the last eight bytes.
    fn init_final_len(&self, buffer: &mut Vec<u8>)
        requires
            old(buffer).len() >= 8,
            8 * self@ <= u64::MAX,
        ensures
            final(buffer)@ == old(buffer)@.subrange(0, old(buffer)@.len() - 8) + length_field(
                self@,
            ),
    {
        let len = u64_to_be_bytes(8 * (self.written as u64));
        let n = buffer.len();
        let start = n - 8;
        let mut i: usize = 0;
        while i < 8
            invariant
                0 <= i <= 8,
                buffer@.len() == old(buffer)@.len(),
                buffer@.len() == n,
                n >= 8,
                start == n - 8,
                len@ == length_field(self@),
                forall|k: int| 0 <= k < start ==> buffer@[k] == old(buffer)@[k],
                forall|k: int| start <= k < start + i ==> buffer@[k] == len@[k - start],
            decreases 8 - i,
        {
            buffer[start + i] = len[i];
            i = i + 1;
        }
        assert(buffer@ =~= old(buffer)@.subrange(0, old(buffer)@.len() - 8) + length_field(
            self@,
        ));
    }

    /// Fills the closing blocks: message bytes and end marker at the start, the
    /// length at the end.
    fn init_final_block(&self, data: &[u8], buffer: &mut Vec<u8>)
        requires
            data.len() + 9 <= old(buffer).len(),
            8 * self@ <= u64::MAX,
        ensures
            final(buffer)@ == data@ + seq![END_BYTE] + old(buffer)@.subrange(
                data.len() + 1,
                old(buffer)@.len() - 8,
            ) + length_field(self@),
    {
        let ghost start = buffer@;
        self.init_final_data(data, buffer);
        let ghost mid = buffer@;
        self.init_final_len(buffer);
        assert(mid.subrange(0, mid.len() - 8) =~= data@ + seq![END_BYTE] + start.subrange(
            data.len() + 1,
            start.len() - 8,
        ));
    }

    /// The closing blocks of the message whose last bytes are `data`, with the
    /// count of bytes written as the length: one block when the bytes leave
    /// room for the end marker and the length, otherwise two.
    fn closing_blocks(&self, data: &[u8]) -> (tail: Vec<u8>)
        requires
            data.len() < self.block_size(),
            8 * self@ <= u64::MAX,
        ensures
            tail@ == pad_tail(data@, self@, self.block_size()),
    {
        let b = self.block_len();
        let n = if data.len() + 9 <= b {
            b
        } else {
            2 * b
        };
        let mut tail = vec![0u8; n];
        let ghost zero = tail@;
        assert(forall|i: int| 0 <= i < n ==> zero[i] == 0u8);
        self.init_final_block(data, &mut tail);
        proof {
            assert(data@.len() % (b as nat) == data@.len());
            assert(pad_zeros(data@.len(), b as nat) == n - 9 - data.len());
        }
        assert(zero.subrange(data.len() + 1, n - 8) =~= zeros(pad_zeros(data@.len(), b as nat)));
        assert(tail@ =~= pad_tail(data@, self@, b as nat));
        tail
    }

    /// Plans the wait for the engine to finish digesting a block.
    fn wait_for_digest(&self, ops: &mut Vec<Op>)
        ensures
            model_of(final(ops)@) == model_of(old(ops)@).push(OpModel::WaitDigest),
    {
        let ghost before = ops@;
        ops.push(Op::WaitDigest);
        proof {
            lemma_model_push(before, Op::WaitDigest);
        }
    }

    /// Plans the wait for the engine to take a key.
    fn wait_for_needkey(&self, ops: &mut Vec<Op>)
        ensures
            model_of(final(ops)@) == model_of(old(ops)@).push(OpModel::WaitNeedKey),
    {
        let ghost before = ops@;
        ops.push(Op::WaitNeedKey);
        proof {
            lemma_model_push(before, Op::WaitNeedKey);
        }
    }

    /// Plans a restart of the engine in AES mode around a batch of AES blocks.
    fn check_for_digest(&self, ops: &mut Vec<Op>)
        ensures
            model_of(final(ops)@) == model_of(old(ops)@) + restarts(self.algorithm()),
    {
        match self.algorithm {
            Algorithm::AES => {
                let ghost before = ops@;
                ops.push(Op::NewHash);
                proof {
                    lemma_model_push(before, Op::NewHash);
                }
                let ghost mid = ops@;
                ops.push(Op::NewHashMode(EngineMode::Aes));
                proof {
                    lemma_model_push(mid, Op::NewHashMode(EngineMode::Aes));
                    assert(model_of(ops@) =~= model_of(before) + restart_ops());
                }
            },
            Algorithm::SHA256 => {
                assert(model_of(ops@) =~= model_of(old(ops)@) + restarts(self.algorithm()));
            },
        }
    }
}

impl Hasher<Blocking> {
    /// Create a new hasher instance for the algorithm the engine was started for
    pub fn new_blocking(algorithm: Algorithm) -> (h: Self)
        ensures
            h@ == 0,
            h.algorithm() == algorithm,
    {
        Self::new_inner(algorithm)
    }

    /// Plans writing one block word by word, then waiting for the digest.
    fn transfer_block(&mut self, data: &[u8], ops: &mut Vec<Op>)
        requires
            data.len() % 4 == 0,
        ensures
            final(self)@ == old(self)@,
            final(self).algorithm() == old(self).algorithm(),
            model_of(final(ops)@) == model_of(old(ops)@) + transfer_block_ops(data@),
    {
        push_words(data, ops);
        self.wait_for_digest(ops);
        assert(model_of(ops@) =~= model_of(old(ops)@) + transfer_block_ops(data@));
    }

    /// Plans writing whole blocks one after the other.
    fn transfer_blocks(&mut self, data: &[u8], ops: &mut Vec<Op>)
        requires
            data@.len() % old(self).block_size() == 0,
        ensures
            final(self)@ == old(self)@,
            final(self).algorithm() == old(self).algorithm(),
            model_of(final(ops)@) == model_of(old(ops)@) + blocks_ops(
                data@,
                old(self).block_size(),
            ),
    {
        let b = self.block_len();
        let mut pos: usize = 0;
        assert(data@.subrange(0, 0) =~= Seq::<u8>::empty());
        while pos < data.len()
            invariant
                b == self.block_size(),
                b == 16 || b == 64,
                self@ == old(self)@,
                self.algorithm() == old(self).algorithm(),
                data.len() % b == 0,
                pos % b == 0,
                pos <= data.len(),
                model_of(ops@) == model_of(old(ops)@) + blocks_ops(
                    data@.subrange(0, pos as int),
                    b as nat,
                ),
            decreases data.len() - pos,
        {
            proof {
                lemma_next_block(pos as int, data.len() as int, b as int);
            }
            let block = &data[pos..pos + b];
            assert(block@.len() % 4 == 0);
            self.transfer_block(block, ops);
            proof {
                let upto = data@.subrange(0, pos + b);
                assert(upto.subrange(0, upto.len() - b) =~= data@.subrange(0, pos as int));
                assert(upto.subrange(upto.len() - b, upto.len() as int) =~= block@);
            }
            pos = pos + b;
        }
        assert(data@.subrange(0, data.len() as int) =~= data@);
    }

    /// Plans writing a key word by word, then waiting until the engine has taken it.
    fn write_key(&mut self, data: &[u8], ops: &mut Vec<Op>)
        requires
            data.len() % 4 == 0,
        ensures
            final(self)@ == old(self)@,
            final(self).algorithm() == old(self).algorithm(),
            model_of(final(ops)@) == model_of(old(ops)@) + key_ops(data@),
    {
        push_words(data, ops);
        self.wait_for_needkey(ops);
        assert(model_of(ops@) =~= model_of(old(ops)@) + key_ops(data@));
    }

    /// Submit one or more blocks of data to the hasher, data must be a multiple of the block length
    pub fn submit_blocks(&mut self, data: &[u8]) -> (ops: Vec<Op>)
        requires
            data.len() > 0,
            data@.len() % old(self).block_size() == 0,
            old(self)@ + data.len() <= usize::MAX,
        ensures
            final(self)@ == old(self)@ + data@.len(),
            final(self).algorithm() == old(self).algorithm(),
            model_of(ops@) == submit_blocks_ops(data@, old(self).algorithm()),
    {
        let mut ops: Vec<Op> = Vec::new();
        assert(model_of(ops@) =~= Seq::<OpModel>::empty());
        self.check_for_digest(&mut ops);
        self.transfer_blocks(data, &mut ops);
        self.written = self.written + data.len();
        self.check_for_digest(&mut ops);
        ops
    }

    /// Plans the closing blocks of the message: the last bytes, the end marker,
    /// zeros and the bit length of everything written.
    fn close(&mut self, data: &[u8], ops: &mut Vec<Op>)
        requires
            data.len() < old(self).block_size(),
            old(self)@ + data@.len() <= usize::MAX,
            8 * (old(self)@ + data@.len()) <= u64::MAX,
        ensures
            final(self)@ == old(self)@ + data@.len(),
            final(self).algorithm() == old(self).algorithm(),
            model_of(final(ops)@) == model_of(old(ops)@) + blocks_ops(
                pad_tail(data@, old(self)@ + data@.len(), old(self).block_size()),
                old(self).block_size(),
            ),
    {
        self.written = self.written + data.len();
        let tail = self.closing_blocks(data);
        let b = self.block_len();
        proof {
            crate::padding::lemma_pad_tail_len(data@, self@, b as nat);
        }
        self.transfer_blocks(tail.as_slice(), ops);
    }

    /// Submits the final data for hashing
    pub fn finalize(self, data: &[u8]) -> (ops: Vec<Op>)
        requires
            data.len() < self.block_size(),
            self@ + data@.len() <= usize::MAX,
            8 * (self@ + data@.len()) <= u64::MAX,
        ensures
            model_of(ops@) == finalize_ops(data@, self@ + data@.len(), self.block_size()),
    {
        let mut this = self;
        let mut ops: Vec<Op> = Vec::new();
        assert(model_of(ops@) =~= Seq::<OpModel>::empty());
        this.close(data, &mut ops);
        let ghost before = ops@;
        ops.push(Op::ReadDigest);
        proof {
            lemma_model_push(before, Op::ReadDigest);
        }
        ops
    }

    /// Submits the final data for encryption: whole blocks are submitted, the
    /// rest is closed as `finalize` closes it, then the result is read.
    pub fn finalizeencrypt(self, data: &[u8]) -> (ops: Vec<Op>)
        requires
            self@ + data@.len() <= usize::MAX,
            8 * (self@ + data@.len()) <= u64::MAX,
        ensures
            model_of(ops@) == hash_ops(data@, self@, self.algorithm()),
    {
        self.hash(data)
    }

    /// Computes the hash of the given data
    pub fn hash(self, data: &[u8]) -> (ops: Vec<Op>)
        requires
            self@ + data@.len() <= usize::MAX,
            8 * (self@ + data@.len()) <= u64::MAX,
        ensures
            model_of(ops@) == hash_ops(data@, self@, self.algorithm()),
            self@ == 0 ==> fed_words(model_of(ops@)) == le_words(md_pad(data@, self.block_size())),
    {
        let mut this = self;
        let b = this.block_len();
        let full_blocks = data.len() / b;
        proof {
            lemma_full_len(data.len() as int, b as int);
        }
        let (head, tail) = data.split_at(full_blocks * b);
        assert(full_len(data@, b as nat) == full_blocks * b);
        let mut ops: Vec<Op> = Vec::new();
        assert(model_of(ops@) =~= Seq::<OpModel>::empty());
        if full_blocks > 0 {
            ops = this.submit_blocks(head);
        }
        assert(model_of(ops@) == submit_full_ops(data@, self.algorithm()));
        let mut fin = this.finalize(tail);
        let ghost first = ops@;
        let ghost second = fin@;
        ops.append(&mut fin);
        proof {
            lemma_model_append(first, second);
            lemma_hash_feeds_padded_message(data@, self.algorithm());
        }
        ops
    }

    /// Encrypts the given data with the built-in key: the whole blocks are
    /// submitted, the rest is closed, then the result is read.
    pub fn encrypt(self, data: &[u8]) -> (ops: Vec<Op>)
        requires
            self@ + data@.len() <= usize::MAX,
            8 * (self@ + data@.len()) <= u64::MAX,
        ensures
            model_of(ops@) == blocking_encrypt_ops(data@, self@, self.algorithm()),
    {
        let mut this = self;
        let aeskey: [u8; 16] = [
            0x59, 0x45, 0x4c, 0x4c, 0x4f, 0x57, 0x20, 0x53, 0x55, 0x42, 0x4d, 0x41, 0x52, 0x49,
            0x4e, 0x45,
        ];
        assert(aeskey@ =~= blocking_key());
        let mut ops: Vec<Op> = Vec::new();
        assert(model_of(ops@) =~= Seq::<OpModel>::empty());
        this.write_key(aeskey.as_slice(), &mut ops);
        let b = this.block_len();
        let full_blocks = data.len() / b;
        proof {
            lemma_full_len(data.len() as int, b as int);
        }
        let (head, tail) = data.split_at(full_blocks * b);
        let ghost keyed = ops@;
        if full_blocks > 0 {
            let mut sub = this.submit_blocks(head);
            let ghost second = sub@;
            ops.append(&mut sub);
            proof {
                lemma_model_append(keyed, second);
            }
        }
        assert(model_of(ops@) =~= key_ops(blocking_key()) + submit_full_ops(
            data@,
            self.algorithm(),
        ));
        let mut fin = this.finalizeencrypt(tail);
        proof {
            lemma_full_len(tail.len() as int, b as int);
            assert(full_len(tail@, b as nat) == 0);
            assert(tail@.skip(0) =~= tail@);
            assert(submit_full_ops(tail@, self.algorithm()) =~= Seq::<OpModel>::empty());
            assert(model_of(fin@) =~= finalize_ops(tail@, self@ + data@.len(), b as nat));
        }
        let ghost first = ops@;
        let ghost second = fin@;
        ops.append(&mut fin);
        proof {
            lemma_model_append(first, second);
            assert(model_of(ops@) =~= blocking_encrypt_ops(data@, self@, self.algorithm()));
        }
        ops
    }
}

impl Hasher<Async> {
    /// Create a new hasher instance for the algorithm the engine was started for
    pub fn new_async(algorithm: Algorithm) -> (h: Self)
        ensures
            h@ == 0,
            h.algorithm() == algorithm,
    {
        Self::new_inner(algorithm)
    }

    /// Plans a DMA transfer of whole 16-byte blocks, then the wait for the digest.
    fn transfer(&mut self, data: &[u8], ops: &mut Vec<Op>)
        requires
            data.len() > 0,
            data.len() % BLOCK_LEN == 0,
        ensures
            final(self)@ == old(self)@,
            final(self).algorithm() == old(self).algorithm(),
            model_of(final(ops)@) == model_of(old(ops)@) + transfer_ops(data@),
    {
        let bytes = vstd::slice::slice_to_vec(data);
        let ghost before = ops@;
        ops.push(Op::DmaTransfer(bytes));
        proof {
            lemma_model_push(before, Op::DmaTransfer(bytes));
        }
        // Wait for the digest to finish, this takes <100 clock cycles so it's not worth doing async
        self.wait_for_digest(ops);
        assert(model_of(ops@) =~= model_of(old(ops)@) + transfer_ops(data@));
    }

    /// Plans moving whole blocks by DMA, one transfer per block.
    fn transfer_each(&mut self, data: &[u8], ops: &mut Vec<Op>)
        requires
            data@.len() % old(self).block_size() == 0,
        ensures
            final(self)@ == old(self)@,
            final(self).algorithm() == old(self).algorithm(),
            model_of(final(ops)@) == model_of(old(ops)@) + dma_blocks_ops(
                data@,
                old(self).block_size(),
            ),
    {
        let b = self.block_len();
        let mut pos: usize = 0;
        assert(data@.subrange(0, 0) =~= Seq::<u8>::empty());
        while pos < data.len()
            invariant
                b == self.block_size(),
                b == 16 || b == 64,
                self@ == old(self)@,
                self.algorithm() == old(self).algorithm(),
                data.len() % b == 0,
                pos % b == 0,
                pos <= data.len(),
                model_of(ops@) == model_of(old(ops)@) + dma_blocks_ops(
                    data@.subrange(0, pos as int),
                    b as nat,
                ),
            decreases data.len() - pos,
        {
            proof {
                lemma_next_block(pos as int, data.len() as int, b as int);
            }
            let block = &data[pos..pos + b];
            self.transfer(block, ops);
            proof {
                let upto = data@.subrange(0, pos + b);
                assert(upto.subrange(0, upto.len() - b) =~= data@.subrange(0, pos as int));
                assert(upto.subrange(upto.len() - b, upto.len() as int) =~= block@);
                assert(model_of(ops@) =~= model_of(old(ops)@) + dma_blocks_ops(upto, b as nat));
            }
            pos = pos + b;
        }
        assert(data@.subrange(0, data.len() as int) =~= data@);
    }

    /// Plans writing a key word by word, then waiting until the engine has taken it.
    fn transfer_key(&mut self, data: &[u8], ops: &mut Vec<Op>)
        requires
            data.len() % 4 == 0,
        ensures
            final(self)@ == old(self)@,
            final(self).algorithm() == old(self).algorithm(),
            model_of(final(ops)@) == model_of(old(ops)@) + key_ops(data@),
    {
        push_words(data, ops);
        self.wait_for_needkey(ops);
        assert(model_of(ops@) =~= model_of(old(ops)@) + key_ops(data@));
    }

    /// Submit one or more blocks of data to the hasher, data must be a multiple of the block length
    pub fn submit_blocks(&mut self, data: &[u8]) -> (ops: Vec<Op>)
        requires
            data.len() > 0,
            data.len() % BLOCK_LEN == 0,
            old(self)@ + data@.len() <= usize::MAX,
        ensures
            final(self)@ == old(self)@ + data@.len(),
            final(self).algorithm() == old(self).algorithm(),
            model_of(ops@) == transfer_ops(data@) + seq![OpModel::ReadDigest],
    {
        let mut ops: Vec<Op> = Vec::new();
        assert(model_of(ops@) =~= Seq::<OpModel>::empty());
        self.transfer(data, &mut ops);
        self.written = self.written + data.len();
        let ghost before = ops@;
        ops.push(Op::ReadDigest);
        proof {
            lemma_model_push(before, Op::ReadDigest);
        }
        ops
    }

    /// Submit one or more blocks of data to the hasher, data must be a multiple of the block length
    pub fn submit_blocks_key(&mut self, data: &[u8]) -> (ops: Vec<Op>)
        requires
            data.len() % 4 == 0,
            old(self)@ + data@.len() <= usize::MAX,
        ensures
            final(self)@ == old(self)@ + data@.len(),
            final(self).algorithm() == old(self).algorithm(),
            model_of(ops@) == key_ops(data@),
    {
        let mut ops: Vec<Op> = Vec::new();
        assert(model_of(ops@) =~= Seq::<OpModel>::empty());
        self.transfer_key(data, &mut ops);
        self.written = self.written + data.len();
        assert(model_of(ops@) =~= key_ops(data@));
        ops
    }

    /// Plans the closing blocks of the message, moved by DMA one block at a time.
    fn close(&mut self, data: &[u8], ops: &mut Vec<Op>)
        requires
            data.len() < old(self).block_size(),
            old(self)@ + data@.len() <= usize::MAX,
            8 * (old(self)@ + data@.len()) <= u64::MAX,
        ensures
            final(self)@ == old(self)@ + data@.len(),
            final(self).algorithm() == old(self).algorithm(),
            model_of(final(ops)@) == model_of(old(ops)@) + dma_blocks_ops(
                pad_tail(data@, old(self)@ + data@.len(), old(self).block_size()),
                old(self).block_size(),
            ),
    {
        self.written = self.written + data.len();
        let tail = self.closing_blocks(data);
        let b = self.block_len();
        proof {
            crate::padding::lemma_pad_tail_len(data@, self@, b as nat);
        }
        self.transfer_each(tail.as_slice(), ops);
    }

    /// Submits the final data for hashing
    pub fn finalize(self, data: &[u8]) -> (ops: Vec<Op>)
        requires
            data.len() < self.block_size(),
            self@ + data@.len() <= usize::MAX,
            8 * (self@ + data@.len()) <= u64::MAX,
        ensures
            model_of(ops@) == async_finalize_ops(data@, self@ + data@.len(), self.block_size()),
    {
        let mut this = self;
        let mut ops: Vec<Op> = Vec::new();
        assert(model_of(ops@) =~= Seq::<OpModel>::empty());
        this.close(data, &mut ops);
        let ghost before = ops@;
        ops.push(Op::ReadDigest);
        proof {
            lemma_model_push(before, Op::ReadDigest);
        }
        ops
    }

    /// Submits the final data for encryption: whole blocks are moved by DMA,
    /// the rest is closed as `finalize` closes it, then the result is read.
    pub fn finalizeencrypt(self, data: &[u8]) -> (ops: Vec<Op>)
        requires
            self@ + data@.len() <= usize::MAX,
            8 * (self@ + data@.len()) <= u64::MAX,
        ensures
            model_of(ops@) == async_hash_ops(data@, self@, self.algorithm()),
    {
        self.hash(data)
    }

    /// Computes the hash of the given data: the whole blocks are moved by DMA,
    /// then the rest is closed.
    pub fn hash(self, data: &[u8]) -> (ops: Vec<Op>)
        requires
            self@ + data@.len() <= usize::MAX,
            8 * (self@ + data@.len()) <= u64::MAX,
        ensures
            model_of(ops@) == async_hash_ops(data@, self@, self.algorithm()),
            self@ == 0 ==> fed_words(model_of(ops@)) == le_words(md_pad(data@, self.block_size())),
    {
        let mut this = self;
        let b = this.block_len();
        let full_blocks = data.len() / b;
        proof {
            lemma_full_len(data.len() as int, b as int);
        }
        let (head, tail) = data.split_at(full_blocks * b);
        assert(full_len(data@, b as nat) == full_blocks * b);
        let mut ops: Vec<Op> = Vec::new();
        assert(model_of(ops@) =~= Seq::<OpModel>::empty());
        if full_blocks > 0 {
            this.transfer(head, &mut ops);
            this.written = this.written + head.len();
        }
        assert(model_of(ops@) == submit_full_dma_ops(data@, b as nat));
        let mut fin = this.finalize(tail);
        let ghost first = ops@;
        let ghost second = fin@;
        ops.append(&mut fin);
        proof {
            lemma_model_append(first, second);
            lemma_async_hash_feeds_padded_message(data@, self.algorithm());
        }
        ops
    }

    /// Encrypts the given data block by block with the whole blocks of `aeskey`
    pub fn encrypt(self, data: &[u8], aeskey: &[u8]) -> (ops: Vec<Op>)
        requires
            data.len() % BLOCK_LEN == 0,
            data.len() <= 2 * BLOCK_LEN,
            self@ + full_len(aeskey@, 16) + data@.len() <= usize::MAX,
        ensures
            model_of(ops@) == async_encrypt_ops(data@, aeskey@),
    {
        let mut this = self;
        let mut ops: Vec<Op> = Vec::new();
        assert(model_of(ops@) =~= Seq::<OpModel>::empty());
        let full_blocks_key = aeskey.len() / BLOCK_LEN;
        assert(full_len(aeskey@, 16) == full_blocks_key * BLOCK_LEN);
        if full_blocks_key > 0 {
            let (key, _rest) = aeskey.split_at(full_blocks_key * BLOCK_LEN);
            ops = this.submit_blocks_key(key);
        }
        assert(model_of(ops@) == load_key_ops(aeskey@));
        let ghost before = ops@;
        ops.push(Op::EnableDma);
        proof {
            lemma_model_push(before, Op::EnableDma);
        }
        let ghost keyed = model_of(ops@);
        let n = data.len() / BLOCK_LEN;
        let mut block_num: usize = 0;
        while block_num < n
            invariant
                n == data.len() / BLOCK_LEN,
                data.len() % BLOCK_LEN == 0,
                0 <= block_num <= n,
                this@ + 16 * (n - block_num) <= usize::MAX,
                model_of(ops@) == keyed + encrypt_blocks_ops(data@.subrange(0, 16 * block_num)),
            decreases n - block_num,
        {
            let (_done, rest) = data.split_at(16 * block_num);
            let (block, _later) = rest.split_at(BLOCK_LEN);
            let mut sub = this.submit_blocks(block);
            let ghost first = ops@;
            let ghost second = sub@;
            ops.append(&mut sub);
            proof {
                lemma_model_append(first, second);
                let upto = data@.subrange(0, 16 * (block_num + 1));
                assert(upto.subrange(0, upto.len() - 16) =~= data@.subrange(0, 16 * block_num));
                assert(upto.subrange(upto.len() - 16, upto.len() as int) =~= block@);
                assert(model_of(ops@) =~= keyed + encrypt_blocks_ops(upto));
            }
            block_num = block_num + 1;
        }
        assert(data@.subrange(0, 16 * n) =~= data@);
        ops
    }
}

} // verus!
