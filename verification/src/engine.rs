//! Choosing what the engine does.
use vstd::prelude::*;
use crate::op::{lemma_model_push, model_of, EngineMode, Op, OpModel};

verus! {

/// Hashcrypt mode
#[derive(Debug, Copy, Clone)]
#[non_exhaustive]
pub enum Algorithm {
    /// SHA256
    SHA256,
    /// AES
    AES,
}

/// The value of the MODE field that selects an algorithm.
pub open spec fn algorithm_code(algorithm: Algorithm) -> u8 {
    match algorithm {
        Algorithm::SHA256 => 0x2,
        Algorithm::AES => 0x4,
    }
}

/// The length of the blocks that the engine processes for an algorithm: 64
/// bytes for SHA-256, 16 bytes for AES.
pub open spec fn block_len_of(algorithm: Algorithm) -> nat {
    match algorithm {
        Algorithm::SHA256 => 64,
        Algorithm::AES => 16,
    }
}

/// The mode that runs an algorithm.
pub open spec fn mode_of(algorithm: Algorithm) -> EngineMode {
    match algorithm {
        Algorithm::SHA256 => EngineMode::Sha256,
        Algorithm::AES => EngineMode::Aes,
    }
}

impl From<Algorithm> for u8 {
    fn from(value: Algorithm) -> (code: u8) {
        match value {
            Algorithm::SHA256 => 0x2,
            Algorithm::AES => 0x4,
        }
    }
}

impl vstd::std_specs::convert::FromSpecImpl<Algorithm> for u8 {
    open spec fn obeys_from_spec() -> bool {
        true
    }

    open spec fn from_spec(v: Algorithm) -> u8 {
        algorithm_code(v)
    }
}

/// Setting the engine up for AES in ECB mode with a 128-bit key, then
/// restarting it in AES mode.
pub open spec fn start_aes_ops(decrypt: bool) -> Seq<OpModel> {
    seq![
        OpModel::ConfigureAes { decrypt },
        OpModel::NewHashMode(EngineMode::Disabled),
        OpModel::NewHashMode(EngineMode::Aes),
    ]
}

/// Plans the start of an AES operation, encrypting or decrypting.
pub fn start_aes(_algorithm: Algorithm, decrypt: bool, _dma: bool) -> (ops: Vec<Op>)
    ensures
        model_of(ops@) == start_aes_ops(decrypt),
        model_of(ops@)[0] == (OpModel::ConfigureAes { decrypt }),
        model_of(ops@).last() == OpModel::NewHashMode(EngineMode::Aes),
{
    let mut ops: Vec<Op> = Vec::new();
    assert(model_of(ops@) =~= Seq::<OpModel>::empty());
    if decrypt == false {
        ops.push(Op::ConfigureAes { decrypt: false });
    } else {
        ops.push(Op::ConfigureAes { decrypt: true });
    }
    proof {
        lemma_model_push(Seq::<Op>::empty(), Op::ConfigureAes { decrypt });
        assert(Seq::<Op>::empty().push(Op::ConfigureAes { decrypt }) =~= ops@);
    }
    let ghost a = ops@;
    ops.push(Op::NewHashMode(EngineMode::Disabled));
    proof {
        lemma_model_push(a, Op::NewHashMode(EngineMode::Disabled));
    }
    let ghost b = ops@;
    ops.push(Op::NewHashMode(EngineMode::Aes));
    proof {
        lemma_model_push(b, Op::NewHashMode(EngineMode::Aes));
        assert(model_of(ops@) =~= start_aes_ops(decrypt));
        lemma_start_aes_directions();
    }
    ops
}

/// Starting a new message in the mode of an algorithm.
pub open spec fn start_algorithm_ops(algorithm: Algorithm) -> Seq<OpModel> {
    seq![OpModel::NewHashMode(mode_of(algorithm))]
}

/// Plans the start of a new message in the mode of `algorithm`.
pub fn start_algorithm(algorithm: Algorithm, _dma: bool) -> (ops: Vec<Op>)
    ensures
        model_of(ops@) == start_algorithm_ops(algorithm),
{
    let mode = match algorithm {
        Algorithm::SHA256 => EngineMode::Sha256,
        Algorithm::AES => EngineMode::Aes,
    };
    let mut ops: Vec<Op> = Vec::new();
    ops.push(Op::NewHashMode(mode));
    proof {
        lemma_model_push(Seq::<Op>::empty(), Op::NewHashMode(mode));
        assert(Seq::<Op>::empty().push(Op::NewHashMode(mode)) =~= ops@);
        assert(model_of(Seq::<Op>::empty()) =~= Seq::<OpModel>::empty());
        assert(model_of(ops@) =~= start_algorithm_ops(algorithm));
    }
    ops
}

/// Encrypting and decrypting start the engine the same way apart from the
/// direction given to the AES unit: both configure the unit first, and both
/// leave the engine started in AES mode.
pub proof fn lemma_start_aes_directions()
    ensures
        start_aes_ops(true).len() == start_aes_ops(false).len(),
        forall|i: int|
            1 <= i < start_aes_ops(true).len() ==> #[trigger] start_aes_ops(true)[i]
                == start_aes_ops(false)[i],
        forall|d: bool| #[trigger] start_aes_ops(d)[0] == (OpModel::ConfigureAes { decrypt: d }),
        forall|d: bool|
            #[trigger] start_aes_ops(d).last() == OpModel::NewHashMode(EngineMode::Aes),
        forall|d: bool, i: int|
            1 <= i < start_aes_ops(d).len() ==> !(#[trigger] start_aes_ops(d)[i] is ConfigureAes),
{
}

} // verus!
