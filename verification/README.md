# hashcrypt

Verified planning of the register traffic of the i.MX RT685 HASHCRYPT engine.

The library (`src/`) computes, for each request of a hasher, the exact
sequence of register operations (`op::Op`): the words written into INDATA,
DMA transfers, waits on the status register, control and AES configuration
writes, and digest readings. It also turns digest register contents into
output bytes. A hasher knows the algorithm the engine was started for: SHA-256
works on 64-byte blocks and is never restarted mid-message, AES on 16-byte
blocks. Every function is proved against its contract with Verus; the proofs
in `laws.rs` show that hashing, in either mode, hands the engine exactly the
words of the message padded to the algorithm's blocks, whether the message is
hashed at once or block by block.

- `words.rs`: little-endian word packing and big-endian byte splitting.
- `padding.rs`: the end marker, zero fill and 64-bit bit length that close a message.
- `op.rs`: the operations and the words they hand to the engine.
- `hasher.rs`: the hasher in blocking and asynchronous mode.
- `digest.rs`: reading hashes and encrypted blocks out of the digest registers.
- `engine.rs`: algorithms, their block lengths and modes, and starting the engine.
- `laws.rs`: what the plans amount to.

`app/` owns the peripheral (through the device's register access crate) and
carries the planned operations out.
