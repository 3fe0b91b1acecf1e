use hashcrypt::engine::Algorithm;
use hashcrypt::hasher::{Hasher, SHA256_BLOCK_LEN, BLOCK_LEN, END_BYTE, HASH_LEN, LAST_BLOCK_MAX_DATA};
use hashcrypt::mode::{Async, Blocking};
use hashcrypt::op::{EngineMode, Op};

fn le(b: &[u8]) -> u32 {
    u32::from_le_bytes([b[0], b[1], b[2], b[3]])
}

/// Padding to `b`-byte blocks (end marker, zeros, 64-bit bit length),
/// written out independently of the library.
fn padded(msg: &[u8], b: usize) -> Vec<u8> {
    let mut out = msg.to_vec();
    out.push(0x80);
    while out.len() % b != b - 8 {
        out.push(0);
    }
    out.extend_from_slice(&((msg.len() as u64) * 8).to_be_bytes());
    out
}

fn words(bytes: &[u8]) -> Vec<u32> {
    bytes.chunks(4).map(le).collect()
}

/// The words that a plan hands to the engine, by processor writes or DMA.
fn fed(ops: &[Op]) -> Vec<u32> {
    let mut out = Vec::new();
    for op in ops {
        match op {
            Op::WriteInput(w) => out.push(*w),
            Op::DmaTransfer(bytes) => out.extend(words(bytes)),
            _ => {}
        }
    }
    out
}

fn block_ops(block: &[u8]) -> Vec<Op> {
    let mut ops: Vec<Op> = words(block).into_iter().map(Op::WriteInput).collect();
    ops.push(Op::WaitDigest);
    ops
}

fn restart() -> Vec<Op> {
    vec![Op::NewHash, Op::NewHashMode(EngineMode::Aes)]
}

#[test]
fn constants_have_their_values() {
    assert_eq!(BLOCK_LEN, 16);
    assert_eq!(HASH_LEN, 32);
    assert_eq!(END_BYTE, 0x80);
    assert_eq!(LAST_BLOCK_MAX_DATA, 7);
    assert_eq!(SHA256_BLOCK_LEN, 64);
    assert_eq!(Hasher::<Blocking>::new_blocking(Algorithm::AES).block_len(), 16);
    assert_eq!(Hasher::<Async>::new_async(Algorithm::SHA256).block_len(), 64);
}

#[test]
fn hash_of_short_message_is_one_closing_block() {
    let ops = Hasher::<Blocking>::new_blocking(Algorithm::AES).hash(b"abc");
    assert_eq!(
        ops,
        vec![
            Op::WriteInput(0x8063_6261),
            Op::WriteInput(0),
            Op::WriteInput(0),
            Op::WriteInput(0x1800_0000),
            Op::WaitDigest,
            Op::ReadDigest,
        ]
    );
}

#[test]
fn seven_bytes_still_fit_in_one_block() {
    let ops = Hasher::<Blocking>::new_blocking(Algorithm::AES).finalize(b"abcdefg");
    let mut block = b"abcdefg".to_vec();
    block.push(0x80);
    block.extend_from_slice(&56u64.to_be_bytes());
    let mut expected = block_ops(&block);
    expected.push(Op::ReadDigest);
    assert_eq!(ops, expected);
}

#[test]
fn eight_bytes_need_a_second_block() {
    let ops = Hasher::<Blocking>::new_blocking(Algorithm::AES).finalize(b"abcdefgh");
    let mut first = b"abcdefgh".to_vec();
    first.push(0x80);
    first.resize(16, 0);
    let mut second = vec![0u8; 8];
    second.extend_from_slice(&64u64.to_be_bytes());
    let mut expected = block_ops(&first);
    expected.extend(block_ops(&second));
    expected.push(Op::ReadDigest);
    assert_eq!(ops, expected);
}

#[test]
fn fifteen_bytes_close_with_two_blocks() {
    let msg = b"abcdefghijklmno";
    let ops = Hasher::<Blocking>::new_blocking(Algorithm::AES).finalize(msg);
    assert_eq!(ops.len(), 11);
    assert_eq!(fed(&ops), words(&padded(msg, 16)));
}

#[test]
fn hash_of_exactly_one_block() {
    let msg = b"abcdefghijklmnop";
    let ops = Hasher::<Blocking>::new_blocking(Algorithm::AES).hash(msg);
    let mut expected = restart();
    expected.extend(block_ops(msg));
    expected.extend(restart());
    let mut last = vec![0x80u8];
    last.resize(8, 0);
    last.extend_from_slice(&128u64.to_be_bytes());
    expected.extend(block_ops(&last));
    expected.push(Op::ReadDigest);
    assert_eq!(ops, expected);
}

#[test]
fn hash_feeds_the_padded_message() {
    let msg: Vec<u8> = (0u8..100).collect();
    for len in 0..msg.len() {
        let ops = Hasher::<Blocking>::new_blocking(Algorithm::AES).hash(&msg[..len]);
        assert_eq!(fed(&ops), words(&padded(&msg[..len], 16)), "length {}", len);
        assert_eq!(ops.last(), Some(&Op::ReadDigest));
    }
}

#[test]
fn streaming_matches_one_shot_hashing() {
    let msg: Vec<u8> = (0u8..53).map(|b| b.wrapping_mul(7)).collect();
    let mut h = Hasher::<Blocking>::new_blocking(Algorithm::AES);
    let mut ops = h.submit_blocks(&msg[..16]);
    ops.extend(h.submit_blocks(&msg[16..48]));
    ops.extend(h.finalize(&msg[48..]));
    assert_eq!(fed(&ops), words(&padded(&msg, 16)));
    assert_eq!(fed(&Hasher::<Blocking>::new_blocking(Algorithm::AES).hash(&msg)), fed(&ops));
}

#[test]
fn submit_blocks_restarts_around_the_blocks() {
    let data: Vec<u8> = (0u8..32).collect();
    let mut h = Hasher::<Blocking>::new_blocking(Algorithm::AES);
    let ops = h.submit_blocks(&data);
    let mut expected = restart();
    expected.extend(block_ops(&data[..16]));
    expected.extend(block_ops(&data[16..]));
    expected.extend(restart());
    assert_eq!(ops, expected);
}

#[test]
fn length_field_counts_earlier_blocks() {
    let mut h = Hasher::<Blocking>::new_blocking(Algorithm::AES);
    h.submit_blocks(&[0u8; 32]);
    let ops = h.finalize(b"x");
    // 33 bytes are 264 bits, 0x108, whose last four bytes are 00 00 01 08.
    assert_eq!(ops[3], Op::WriteInput(0x0801_0000));
    assert_eq!(ops[0], Op::WriteInput(0x0000_8078));
}

#[test]
fn blocking_finalizeencrypt_submits_the_final_data() {
    let ops = Hasher::<Blocking>::new_blocking(Algorithm::AES).finalizeencrypt(b"tail");
    assert_eq!(ops, Hasher::<Blocking>::new_blocking(Algorithm::AES).finalize(b"tail"));
    assert_eq!(fed(&ops), words(&padded(b"tail", 16)));
    assert_eq!(ops.last(), Some(&Op::ReadDigest));
}

#[test]
fn blocking_encrypt_loads_key_then_blocks() {
    let data: Vec<u8> = (100u8..120).collect();
    let ops = Hasher::<Blocking>::new_blocking(Algorithm::AES).encrypt(&data);
    let mut expected: Vec<Op> = words(b"YELLOW SUBMARINE").into_iter().map(Op::WriteInput).collect();
    expected.push(Op::WaitNeedKey);
    expected.extend(restart());
    expected.extend(block_ops(&data[..16]));
    expected.extend(restart());
    let mut closing = data[16..].to_vec();
    closing.extend_from_slice(&[0x80, 0, 0, 0]);
    // the closing block counts all 20 bytes: 160 bits.
    closing.extend_from_slice(&160u64.to_be_bytes());
    expected.extend(block_ops(&closing));
    expected.push(Op::ReadDigest);
    assert_eq!(expected[expected.len() - 3], Op::WriteInput(0xa000_0000));
    assert_eq!(ops, expected);
    assert_eq!(ops[0], Op::WriteInput(0x4c4c_4559));
}

#[test]
fn blocking_encrypt_of_partial_block_closes_it() {
    let ops = Hasher::<Blocking>::new_blocking(Algorithm::AES).encrypt(b"short");
    let mut expected: Vec<Op> = words(b"YELLOW SUBMARINE").into_iter().map(Op::WriteInput).collect();
    expected.push(Op::WaitNeedKey);
    expected.extend(Hasher::<Blocking>::new_blocking(Algorithm::AES).finalize(b"short"));
    assert_eq!(ops, expected);
    let mut all = b"YELLOW SUBMARINE".to_vec();
    all.extend(padded(b"short", 16));
    assert_eq!(fed(&ops), words(&all));
}

#[test]
fn async_submit_blocks_moves_data_by_dma() {
    let data: Vec<u8> = (0u8..32).collect();
    let mut h = Hasher::<Async>::new_async(Algorithm::AES);
    let ops = h.submit_blocks(&data);
    assert_eq!(ops, vec![Op::DmaTransfer(data.clone()), Op::WaitDigest, Op::ReadDigest]);
    let fin = h.finalize(b"");
    // 32 bytes before: 256 bits.
    assert_eq!(fin[0], Op::DmaTransfer({
        let mut b = vec![0x80u8];
        b.resize(14, 0);
        b.extend_from_slice(&[0x01, 0x00]);
        b
    }));
}

#[test]
fn async_submit_blocks_key_writes_words() {
    let mut h = Hasher::<Async>::new_async(Algorithm::AES);
    let ops = h.submit_blocks_key(b"12345678");
    assert_eq!(ops, vec![Op::WriteInput(le(b"1234")), Op::WriteInput(le(b"5678")), Op::WaitNeedKey]);
    let fin = h.finalize(b"");
    assert_eq!(fin.len(), 3);
    // the key bytes count towards the length: 64 bits.
    let mut closing = vec![0x80u8];
    closing.resize(15, 0);
    closing.push(64);
    assert_eq!(fin[0], Op::DmaTransfer(closing));
}

#[test]
fn async_finalize_moves_closing_blocks_by_dma() {
    let ops = Hasher::<Async>::new_async(Algorithm::AES).finalize(b"abcdefghij");
    let p = padded(b"abcdefghij", 16);
    assert_eq!(
        ops,
        vec![
            Op::DmaTransfer(p[..16].to_vec()),
            Op::WaitDigest,
            Op::DmaTransfer(p[16..].to_vec()),
            Op::WaitDigest,
            Op::ReadDigest,
        ]
    );
}

#[test]
fn async_hash_of_short_message_feeds_padded_message() {
    for len in 0..16 {
        let msg: Vec<u8> = (0..len as u8).collect();
        let ops = Hasher::<Async>::new_async(Algorithm::AES).hash(&msg);
        assert_eq!(fed(&ops), words(&padded(&msg, 16)));
    }
}

#[test]
fn async_hash_moves_whole_blocks_then_closes() {
    let msg: Vec<u8> = (0u8..20).collect();
    let ops = Hasher::<Async>::new_async(Algorithm::AES).hash(&msg);
    let mut expected = vec![Op::DmaTransfer(msg[..16].to_vec()), Op::WaitDigest];
    let p = padded(&msg, 16);
    expected.push(Op::DmaTransfer(p[16..].to_vec()));
    expected.push(Op::WaitDigest);
    expected.push(Op::ReadDigest);
    assert_eq!(ops, expected);
}

#[test]
fn async_hash_feeds_padded_message_of_any_length() {
    let msg: Vec<u8> = (0u8..130).map(|b| b ^ 0x5a).collect();
    for len in [16, 17, 23, 24, 32, 64, 72, 124, 130] {
        let ops = Hasher::<Async>::new_async(Algorithm::AES).hash(&msg[..len]);
        assert_eq!(fed(&ops), words(&padded(&msg[..len], 16)), "length {}", len);
    }
}

#[test]
fn async_finalizeencrypt_submits_the_final_data() {
    let ops = Hasher::<Async>::new_async(Algorithm::AES).finalizeencrypt(b"anything");
    assert_eq!(ops, Hasher::<Async>::new_async(Algorithm::AES).finalize(b"anything"));
    assert_eq!(fed(&ops), words(&padded(b"anything", 16)));
}

#[test]
fn one_shot_hash_equals_submit_then_finalize() {
    let msg: Vec<u8> = (0u8..45).collect();
    let mut h = Hasher::<Blocking>::new_blocking(Algorithm::AES);
    let mut ops = h.submit_blocks(&msg[..32]);
    ops.extend(h.finalize(&msg[32..]));
    assert_eq!(Hasher::<Blocking>::new_blocking(Algorithm::AES).hash(&msg), ops);
}

#[test]
fn two_submissions_feed_as_one() {
    let data: Vec<u8> = (0u8..48).collect();
    let mut h1 = Hasher::<Blocking>::new_blocking(Algorithm::AES);
    let mut ops1 = h1.submit_blocks(&data[..16]);
    ops1.extend(h1.submit_blocks(&data[16..]));
    let mut h2 = Hasher::<Blocking>::new_blocking(Algorithm::AES);
    let ops2 = h2.submit_blocks(&data);
    assert_eq!(fed(&ops1), fed(&ops2));
    assert_eq!(h1.written(), h2.written());
    assert_eq!(h1.written(), 48);
}

#[test]
fn async_encrypt_reads_once_per_block() {
    let data: Vec<u8> = (0u8..32).collect();
    let key = b"dcbadcbadcbadcbf";
    let ops = Hasher::<Async>::new_async(Algorithm::AES).encrypt(&data, key);
    let mut expected: Vec<Op> = words(key).into_iter().map(Op::WriteInput).collect();
    expected.push(Op::WaitNeedKey);
    expected.push(Op::EnableDma);
    for block in data.chunks(16) {
        expected.push(Op::DmaTransfer(block.to_vec()));
        expected.push(Op::WaitDigest);
        expected.push(Op::ReadDigest);
    }
    assert_eq!(ops, expected);
}

#[test]
fn async_encrypt_with_short_key_loads_nothing() {
    let ops = Hasher::<Async>::new_async(Algorithm::AES).encrypt(&[7u8; 16], b"short key");
    assert_eq!(
        ops,
        vec![Op::EnableDma, Op::DmaTransfer(vec![7u8; 16]), Op::WaitDigest, Op::ReadDigest]
    );
}

#[test]
fn async_encrypt_of_nothing_only_enables_dma() {
    let ops = Hasher::<Async>::new_async(Algorithm::AES).encrypt(&[], &[0u8; 20]);
    assert_eq!(ops.len(), 6);
    assert_eq!(ops[4], Op::WaitNeedKey);
    assert_eq!(ops[5], Op::EnableDma);
}

#[test]
fn finalizeencrypt_accepts_whole_blocks_too() {
    let data: Vec<u8> = (0u8..37).collect();
    let ops = Hasher::<Blocking>::new_blocking(Algorithm::AES).finalizeencrypt(&data);
    assert_eq!(ops, Hasher::<Blocking>::new_blocking(Algorithm::AES).hash(&data));
    assert_eq!(fed(&ops), words(&padded(&data, 16)));
    let ops = Hasher::<Async>::new_async(Algorithm::AES).finalizeencrypt(&data);
    assert_eq!(ops, Hasher::<Async>::new_async(Algorithm::AES).hash(&data));
}

#[test]
fn sha256_hash_of_abc_is_one_padded_block() {
    let ops = Hasher::<Blocking>::new_blocking(Algorithm::SHA256).hash(b"abc");
    let mut expected: Vec<Op> = words(&padded(b"abc", 64)).into_iter().map(Op::WriteInput).collect();
    expected.push(Op::WaitDigest);
    expected.push(Op::ReadDigest);
    assert_eq!(ops, expected);
    assert_eq!(ops[0], Op::WriteInput(0x8063_6261));
    assert_eq!(ops[15], Op::WriteInput(0x1800_0000));
}

#[test]
fn sha256_hash_feeds_the_sha256_padding() {
    let msg: &[u8] = b"abcdefghijklmnopqrstuvwxyzABCDEFGHIJKLMNOPQRSTUVWXYZ1234567890!@abcdefghijklmnopqrstuvwxyzABCDEFGHIJKLMNOPQRSTUVWXYZ12345678";
    for len in [0, 3, 55, 56, 63, 64, 72, 124] {
        let ops = Hasher::<Blocking>::new_blocking(Algorithm::SHA256).hash(&msg[..len]);
        assert_eq!(fed(&ops), words(&padded(&msg[..len], 64)), "length {}", len);
        assert!(!ops.iter().any(|op| matches!(op, Op::NewHash | Op::NewHashMode(_))));
        let ops = Hasher::<Async>::new_async(Algorithm::SHA256).hash(&msg[..len]);
        assert_eq!(fed(&ops), words(&padded(&msg[..len], 64)), "length {}", len);
    }
}

#[test]
fn sha256_fifty_six_bytes_need_a_second_block() {
    let msg = [0x61u8; 56];
    let ops = Hasher::<Blocking>::new_blocking(Algorithm::SHA256).finalize(&msg);
    // two 64-byte blocks: 16 words and a wait each, then the reading.
    assert_eq!(ops.len(), 2 * 17 + 1);
    let ops = Hasher::<Blocking>::new_blocking(Algorithm::SHA256).finalize(&msg[..55]);
    assert_eq!(ops.len(), 17 + 1);
}

#[test]
fn sha256_streaming_is_not_restarted() {
    let msg: Vec<u8> = (0u8..150).collect();
    let mut h = Hasher::<Blocking>::new_blocking(Algorithm::SHA256);
    let mut ops = h.submit_blocks(&msg[..64]);
    ops.extend(h.submit_blocks(&msg[64..128]));
    assert_eq!(h.written(), 128);
    ops.extend(h.finalize(&msg[128..]));
    assert_eq!(fed(&ops), words(&padded(&msg, 64)));
    assert!(!ops.iter().any(|op| matches!(op, Op::NewHash | Op::NewHashMode(_))));
}
