//! The register-level operations that drive the engine.
//!
//! Every high-level request of the library is planned as a sequence of [`Op`]s.
//! Carrying them out on the peripheral (and reading the digest registers when
//! an [`Op::ReadDigest`] comes up) is left to the code that owns the hardware.
use vstd::prelude::*;
use crate::words::{le_words, lemma_le_words_append};

verus! {

/// The value written into the MODE field of the control register.
#[derive(Clone, Copy, Debug, PartialEq, Eq, Structural)]
pub enum EngineMode {
    /// The engine is idle.
    Disabled,
    /// AES block cipher.
    Aes,
    /// SHA-256 hash.
    Sha256,
}

/// One step of work on the engine's registers.
#[derive(Debug, PartialEq, Eq)]
pub enum Op {
    /// Set NEW_HASH in the control register, keeping the mode.
    NewHash,
    /// Set NEW_HASH in the control register and select a mode.
    NewHashMode(EngineMode),
    /// Configure the AES unit: ECB, normal key path, 128-bit key, in the given direction.
    ConfigureAes { decrypt: bool },
    /// Let the engine's input and output requests drive the DMA channel.
    EnableDma,
    /// Write one word into INDATA.
    WriteInput(u32),
    /// Move these bytes into INDATA by DMA, 32 bits at a time, and wait until the
    /// engine has taken them.
    DmaTransfer(Vec<u8>),
    /// Spin until the status register reports the digest as ready.
    WaitDigest,
    /// Spin until the status register stops asking for a key.
    WaitNeedKey,
    /// Read the eight digest registers and hand them back.
    ReadDigest,
}

/// The mathematical value of an [`Op`].
pub enum OpModel {
    NewHash,
    NewHashMode(EngineMode),
    ConfigureAes { decrypt: bool },
    EnableDma,
    WriteInput(u32),
    DmaTransfer(Seq<u8>),
    WaitDigest,
    WaitNeedKey,
    ReadDigest,
}

impl Op {
    pub open spec fn model(self) -> OpModel {
        match self {
            Op::NewHash => OpModel::NewHash,
            Op::NewHashMode(m) => OpModel::NewHashMode(m),
            Op::ConfigureAes { decrypt } => OpModel::ConfigureAes { decrypt },
            Op::EnableDma => OpModel::EnableDma,
            Op::WriteInput(w) => OpModel::WriteInput(w),
            Op::DmaTransfer(v) => OpModel::DmaTransfer(v@),
            Op::WaitDigest => OpModel::WaitDigest,
            Op::WaitNeedKey => OpModel::WaitNeedKey,
            Op::ReadDigest => OpModel::ReadDigest,
        }
    }
}

/// The models of a sequence of operations.
pub open spec fn model_of(ops: Seq<Op>) -> Seq<OpModel> {
    Seq::new(ops.len(), |i: int| ops[i].model())
}

/// The input words that one operation hands to the engine.
pub open spec fn words_of(op: OpModel) -> Seq<u32> {
    match op {
        OpModel::WriteInput(w) => seq![w],
        OpModel::DmaTransfer(bytes) => le_words(bytes),
        _ => seq![],
    }
}

/// All input words that a sequence of operations hands to the engine, in order.
pub open spec fn fed_words(ops: Seq<OpModel>) -> Seq<u32>
    decreases ops.len(),
{
    if ops.len() == 0 {
        seq![]
    } else {
        fed_words(ops.drop_last()) + words_of(ops.last())
    }
}

/// One word write per word.
pub open spec fn writes(words: Seq<u32>) -> Seq<OpModel> {
    Seq::new(words.len(), |i: int| OpModel::WriteInput(words[i]))
}

/// Writing one block word by word and waiting for the engine to digest it.
pub open spec fn transfer_block_ops(block: Seq<u8>) -> Seq<OpModel> {
    writes(le_words(block)) + seq![OpModel::WaitDigest]
}

/// Writing whole `b`-byte blocks one after the other, each followed by a wait.
pub open spec fn blocks_ops(data: Seq<u8>, b: nat) -> Seq<OpModel>
    decreases data.len(),
{
    if b == 0 || data.len() < b {
        seq![]
    } else {
        blocks_ops(data.subrange(0, data.len() - b), b) + transfer_block_ops(
            data.subrange(data.len() - b, data.len() as int),
        )
    }
}

/// Moving whole `b`-byte blocks one after the other by DMA, each followed by
/// a wait.
pub open spec fn dma_blocks_ops(data: Seq<u8>, b: nat) -> Seq<OpModel>
    decreases data.len(),
{
    if b == 0 || data.len() < b {
        seq![]
    } else {
        dma_blocks_ops(data.subrange(0, data.len() - b), b) + seq![
            OpModel::DmaTransfer(data.subrange(data.len() - b, data.len() as int)),
            OpModel::WaitDigest,
        ]
    }
}

/// Restarting the engine in AES mode, as done around every batch of blocks.
pub open spec fn restart_ops() -> Seq<OpModel> {
    seq![OpModel::NewHash, OpModel::NewHashMode(EngineMode::Aes)]
}

/// Writing a key word by word and waiting until the engine has taken it.
pub open spec fn key_ops(key: Seq<u8>) -> Seq<OpModel> {
    writes(le_words(key)) + seq![OpModel::WaitNeedKey]
}

pub proof fn lemma_model_push(ops: Seq<Op>, op: Op)
    ensures
        model_of(ops.push(op)) == model_of(ops).push(op.model()),
{
    assert(model_of(ops.push(op)) =~= model_of(ops).push(op.model()));
}

pub proof fn lemma_model_append(a: Seq<Op>, b: Seq<Op>)
    ensures
        model_of(a + b) == model_of(a) + model_of(b),
{
    assert(model_of(a + b) =~= model_of(a) + model_of(b));
}

/// The words fed by a concatenation are those of its parts.
pub proof fn lemma_fed_words_append(a: Seq<OpModel>, b: Seq<OpModel>)
    ensures
        fed_words(a + b) == fed_words(a) + fed_words(b),
    decreases b.len(),
{
    if b.len() == 0 {
        assert(a + b =~= a);
        assert(fed_words(a) + fed_words(b) =~= fed_words(a));
    } else {
        lemma_fed_words_append(a, b.drop_last());
        assert((a + b).drop_last() =~= a + b.drop_last());
        assert((a + b).last() == b.last());
        assert(fed_words(a + b) =~= fed_words(a) + fed_words(b));
    }
}

/// Word writes feed exactly their words.
pub proof fn lemma_fed_words_writes(words: Seq<u32>)
    ensures
        fed_words(writes(words)) == words,
    decreases words.len(),
{
    if words.len() > 0 {
        lemma_fed_words_writes(words.drop_last());
        assert(writes(words).drop_last() =~= writes(words.drop_last()));
        assert(fed_words(writes(words)) =~= words);
    } else {
        assert(writes(words) =~= seq![]);
        assert(words =~= seq![]);
    }
}

/// Operations that carry no data feed nothing.
pub proof fn lemma_fed_words_control(ops: Seq<OpModel>)
    requires
        forall|i: int| 0 <= i < ops.len() ==> words_of(#[trigger] ops[i]) == Seq::<u32>::empty(),
    ensures
        fed_words(ops) == Seq::<u32>::empty(),
    decreases ops.len(),
{
    if ops.len() > 0 {
        lemma_fed_words_control(ops.drop_last());
        assert(words_of(ops[ops.len() - 1]) == Seq::<u32>::empty());
        assert(fed_words(ops) =~= Seq::<u32>::empty());
    }
}

/// A block transfer feeds the block's words.
pub proof fn lemma_fed_words_transfer_block(block: Seq<u8>)
    ensures
        fed_words(transfer_block_ops(block)) == le_words(block),
{
    lemma_fed_words_append(writes(le_words(block)), seq![OpModel::WaitDigest]);
    lemma_fed_words_writes(le_words(block));
    lemma_fed_words_control(seq![OpModel::WaitDigest]);
    assert(le_words(block) + Seq::<u32>::empty() =~= le_words(block));
}

/// Facts about lengths and block lengths of 16 or 64 bytes.
pub proof fn lemma_block_arith(n: int, b: int)
    requires
        b == 16 || b == 64,
        n >= 0,
    ensures
        n % b == 0 ==> n % 16 == 0 && n % 4 == 0,
        n % b == 0 && n >= b ==> (n - b) % b == 0,
        n % b == 0 && n < b ==> n == 0,
        0 <= (n / b) * b <= n,
        ((n / b) * b) % b == 0,
        ((n / b) * b) % 16 == 0,
        n - (n / b) * b < b,
        (n / b) * b > 0 <==> n >= b,
{
    if b == 16 {
    } else {
    }
}

/// Transferring whole blocks feeds the words of the data, in order.
pub proof fn lemma_fed_words_blocks(data: Seq<u8>, b: nat)
    requires
        b == 16 || b == 64,
        data.len() % b == 0,
    ensures
        fed_words(blocks_ops(data, b)) == le_words(data),
    decreases data.len(),
{
    lemma_block_arith(data.len() as int, b as int);
    if data.len() < b {
        assert(data.len() == 0);
        assert(le_words(data) =~= Seq::<u32>::empty());
    } else {
        let head = data.subrange(0, data.len() - b);
        let tail = data.subrange(data.len() - b, data.len() as int);
        lemma_block_arith(data.len() as int, b as int);
        lemma_block_arith(head.len() as int, b as int);
        lemma_fed_words_blocks(head, b);
        lemma_fed_words_append(blocks_ops(head, b), transfer_block_ops(tail));
        lemma_fed_words_transfer_block(tail);
        assert(head + tail =~= data);
        lemma_le_words_append(head, tail);
    }
}

/// Moving whole blocks by DMA feeds the words of the data, in order.
pub proof fn lemma_fed_words_dma_blocks(data: Seq<u8>, b: nat)
    requires
        b == 16 || b == 64,
        data.len() % b == 0,
    ensures
        fed_words(dma_blocks_ops(data, b)) == le_words(data),
    decreases data.len(),
{
    lemma_block_arith(data.len() as int, b as int);
    if data.len() < b {
        assert(data.len() == 0);
        assert(le_words(data) =~= Seq::<u32>::empty());
    } else {
        let head = data.subrange(0, data.len() - b);
        let tail = data.subrange(data.len() - b, data.len() as int);
        let last = seq![OpModel::DmaTransfer(tail), OpModel::WaitDigest];
        lemma_block_arith(data.len() as int, b as int);
        lemma_block_arith(head.len() as int, b as int);
        lemma_fed_words_dma_blocks(head, b);
        lemma_fed_words_append(dma_blocks_ops(head, b), last);
        lemma_fed_words_dma_transfer(tail);
        assert(head + tail =~= data);
        lemma_le_words_append(head, tail);
    }
}

/// A DMA transfer followed by a wait feeds the transferred words.
pub proof fn lemma_fed_words_dma_transfer(bytes: Seq<u8>)
    ensures
        fed_words(seq![OpModel::DmaTransfer(bytes), OpModel::WaitDigest]) == le_words(bytes),
{
    let last = seq![OpModel::DmaTransfer(bytes), OpModel::WaitDigest];
    assert(last.drop_last() =~= seq![OpModel::DmaTransfer(bytes)]);
    assert(seq![OpModel::DmaTransfer(bytes)].drop_last() =~= Seq::<OpModel>::empty());
    assert(fed_words(Seq::<OpModel>::empty()) =~= Seq::<u32>::empty());
    assert(fed_words(seq![OpModel::DmaTransfer(bytes)]) =~= le_words(bytes));
    assert(fed_words(last) =~= le_words(bytes));
}

} // verus!
