use hashcrypt::engine::{start_aes, start_algorithm, Algorithm};
use hashcrypt::op::{EngineMode, Op};
use hashcrypt::words::{le_word, u32_to_be_bytes, u64_to_be_bytes};

#[test]
fn aes_selects_mode_four() {
    assert_eq!(u8::from(Algorithm::AES), 0x4);
}

#[test]
fn sha256_selects_mode_two() {
    assert_eq!(u8::from(Algorithm::SHA256), 0x2);
}

#[test]
fn start_algorithm_selects_the_mode() {
    assert_eq!(start_algorithm(Algorithm::SHA256, false), vec![Op::NewHashMode(EngineMode::Sha256)]);
    assert_eq!(start_algorithm(Algorithm::AES, true), vec![Op::NewHashMode(EngineMode::Aes)]);
}

#[test]
fn start_aes_configures_then_restarts() {
    assert_eq!(
        start_aes(Algorithm::AES, false, false),
        vec![
            Op::ConfigureAes { decrypt: false },
            Op::NewHashMode(EngineMode::Disabled),
            Op::NewHashMode(EngineMode::Aes),
        ]
    );
    assert_eq!(start_aes(Algorithm::AES, true, true)[0], Op::ConfigureAes { decrypt: true });
}

#[test]
fn words_are_little_endian() {
    assert_eq!(le_word(0x61, 0x62, 0x63, 0x80), 0x8063_6261);
    assert_eq!(le_word(1, 2, 3, 4), u32::from_le_bytes([1, 2, 3, 4]));
}

#[test]
fn bytes_are_big_endian() {
    assert_eq!(u32_to_be_bytes(0x1234_5678), [0x12, 0x34, 0x56, 0x78]);
    assert_eq!(u64_to_be_bytes(0x0102_0304_0506_0708), [1, 2, 3, 4, 5, 6, 7, 8]);
    assert_eq!(u64_to_be_bytes(24), 24u64.to_be_bytes());
}
