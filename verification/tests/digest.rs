use hashcrypt::digest::{read_encrypteddata, read_hash, store_encrypted_blocks};

const DIGEST: [u32; 8] = [
    0x0102_0304, 0x0506_0708, 0x090a_0b0c, 0x0d0e_0f10, 0x1112_1314, 0x1516_1718, 0x191a_1b1c,
    0x1d1e_1f20,
];

#[test]
fn read_hash_lays_registers_out_big_endian() {
    let mut hash = [0xaau8; 32];
    read_hash(&DIGEST, &mut hash);
    let expected: Vec<u8> = (1u8..=32).collect();
    assert_eq!(hash.to_vec(), expected);
}

#[test]
fn read_hash_of_sha256_abc_registers() {
    let regs = [
        0xba78_16bf, 0x8f01_cfea, 0x4141_40de, 0x5dae_2223, 0xb003_61a3, 0x9617_7a9c, 0xb410_ff61,
        0xf200_15ad,
    ];
    let mut hash = [0u8; 32];
    read_hash(&regs, &mut hash);
    assert_eq!(
        hash,
        [
            0xba, 0x78, 0x16, 0xbf, 0x8f, 0x01, 0xcf, 0xea, 0x41, 0x41, 0x40, 0xde, 0x5d, 0xae, 0x22,
            0x23, 0xb0, 0x03, 0x61, 0xa3, 0x96, 0x17, 0x7a, 0x9c, 0xb4, 0x10, 0xff, 0x61, 0xf2, 0x00,
            0x15, 0xad
        ]
    );
}

#[test]
fn encrypted_data_fills_from_the_end() {
    let mut out = [0u8; 32];
    read_encrypteddata(&DIGEST, &mut out);
    assert_eq!(&out[28..], &[1, 2, 3, 4]);
    assert_eq!(&out[24..28], &[5, 6, 7, 8]);
    assert_eq!(&out[..4], &[0x1d, 0x1e, 0x1f, 0x20]);
}

#[test]
fn encrypted_block_uses_first_four_registers() {
    let mut out = [0xffu8; 16];
    read_encrypteddata(&DIGEST, &mut out);
    assert_eq!(out, [13, 14, 15, 16, 9, 10, 11, 12, 5, 6, 7, 8, 1, 2, 3, 4]);
}

#[test]
fn longer_buffer_keeps_its_first_bytes() {
    let mut out = [0xeeu8; 34];
    read_encrypteddata(&DIGEST, &mut out);
    assert_eq!(&out[..2], &[0xee, 0xee]);
    assert_eq!(&out[2..6], &[0x1d, 0x1e, 0x1f, 0x20]);
    assert_eq!(&out[30..], &[1, 2, 3, 4]);
}

#[test]
fn empty_buffer_is_left_alone() {
    let mut out: [u8; 0] = [];
    read_encrypteddata(&DIGEST, &mut out);
    assert_eq!(out.len(), 0);
}

#[test]
fn one_capture_fills_the_first_block_only() {
    let mut out = [0x55u8; 32];
    store_encrypted_blocks(&[DIGEST], &mut out);
    assert_eq!(&out[..16], &[13, 14, 15, 16, 9, 10, 11, 12, 5, 6, 7, 8, 1, 2, 3, 4]);
    assert_eq!(&out[16..], &[0x55u8; 16]);
}

#[test]
fn two_captures_fill_both_blocks() {
    let mut second = DIGEST;
    second[0] = 0xa0b0_c0d0;
    let mut out = [0u8; 32];
    store_encrypted_blocks(&[DIGEST, second], &mut out);
    assert_eq!(&out[28..], &[0xa0, 0xb0, 0xc0, 0xd0]);
    assert_eq!(&out[12..16], &[1, 2, 3, 4]);
}

#[test]
fn no_capture_changes_nothing() {
    let mut out = [9u8; 32];
    store_encrypted_blocks(&[], &mut out);
    assert_eq!(out, [9u8; 32]);
}
