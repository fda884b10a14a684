//! The encryption stage: a 256-bit-key, 16-byte-block cipher run in CBC mode
//! with PKCS#7 padding, key derivation from password and salt, per-chunk IVs,
//! and the password test block.
//!
//! The block cipher is an eight-round Feistel network over a pair of 64-bit
//! words, so decryption provably inverts encryption.  Key derivation folds
//! the password bytes and the salt into a 256-bit state and stirs it a fixed
//! number of times ([`KDF_ITERATIONS`]); the count is a policy constant so
//! archives stay portable.  The IV of a chunk is derived deterministically
//! from the key and the archive-wide chunk counter, so decryption needs only
//! the password and the salt stored in the archive header.

use vstd::prelude::*;
use vstd::bytes::spec_u64_from_le_bytes;
use vstd::bytes::spec_u64_to_le_bytes;
use vstd::bytes::lemma_auto_spec_u64_to_from_le_bytes;
use vstd::bytes::u64_from_le_bytes;
use vstd::bytes::u64_to_le_bytes;
use vstd::slice::slice_subrange;
use vstd::slice::slice_to_vec;
use vstd::wrapping::u64_specs;
use crate::error::Error;

verus! {

/// Key size of the encryption stage, in bytes: a 256-bit key.
pub const AES_KEY_SIZE: usize = 32;

/// Block size of the encryption stage, in bytes.
pub const AES_BLOCK_SIZE: usize = 16;

/// Size, in 32-bit words, of a cipher context on the C-compatible surface:
/// room for an IV word count, a mark word count and fifteen round-key rows.
pub const AES_NUM_IVMRK_WORDS: usize = (1 + 1 + 15) * 4;

/// Rounds of the Feistel network.
pub const CIPHER_ROUNDS: usize = 8;

/// Stir iterations of the key-derivation function.  Fixed policy constant:
/// changing it would make existing encrypted archives unreadable.
pub const KDF_ITERATIONS: usize = 4096;

/// Salt length, in bytes, stored in the archive header.
pub const SALT_LEN: usize = 16;

/// Multiplier of the word-mixing function.
pub const MIX_MUL: u64 = 0xff51afd7ed558ccd;

/// Multiplier of the round-key schedule.
pub const ROUND_MUL: u64 = 0x9e3779b97f4a7c15;

/// Low word of the known plaintext encrypted once as the password test block.
pub const TEST_BLOCK_LO: u64 = 0x0123456789abcdef;

/// High word of the known plaintext encrypted once as the password test block.
pub const TEST_BLOCK_HI: u64 = 0xfedcba9876543210;

/// Seed words of the key-derivation state.
pub const KDF_SEED_0: u64 = 0x736176656d656d6f;

/// Seed words of the key-derivation state.
pub const KDF_SEED_1: u64 = 0x62796b6473747265;
/// Seed words of the key-derivation state.
pub const KDF_SEED_2: u64 = 0x616d656e67696e65;
/// Seed words of the key-derivation state.
pub const KDF_SEED_3: u64 = 0x76303176303176ff;

/// A 256-bit cipher key as four 64-bit words.
#[derive(Debug, Clone, Copy, PartialEq, Eq, Structural)]
pub struct CipherKey {
    pub w0: u64,
    pub w1: u64,
    pub w2: u64,
    pub w3: u64,
}

/// The word-mixing function of the cipher and the key-derivation function.
pub open spec fn spec_mix(x: u64, k: u64) -> u64 {
    u64_specs::wrapping_mul((x ^ k) | 1, MIX_MUL) ^ ((x ^ k) >> 31)
}

/// The word-mixing function of the cipher and the key-derivation function.
#[verifier::when_used_as_spec(spec_mix)]
pub fn mix(x: u64, k: u64) -> (r: u64)
    ensures
        r == spec_mix(x, k),
{
    ((x ^ k) | 1).wrapping_mul(MIX_MUL) ^ ((x ^ k) >> 31)
}

/// The round key of round `i`.
pub open spec fn spec_round_key(key: CipherKey, i: nat) -> u64 {
    let base = if i % 4 == 0 {
        key.w0
    } else if i % 4 == 1 {
        key.w1
    } else if i % 4 == 2 {
        key.w2
    } else {
        key.w3
    };
    u64_specs::wrapping_add(base, u64_specs::wrapping_mul(ROUND_MUL, (i + 1) as u64))
}

/// The round key of round `i`.
pub fn round_key(key: &CipherKey, i: usize) -> (r: u64)
    requires
        i < CIPHER_ROUNDS,
    ensures
        r == spec_round_key(*key, i as nat),
{
    let base = if i % 4 == 0 {
        key.w0
    } else if i % 4 == 1 {
        key.w1
    } else if i % 4 == 2 {
        key.w2
    } else {
        key.w3
    };
    base.wrapping_add(ROUND_MUL.wrapping_mul((i + 1) as u64))
}

/// The state after `n` Feistel rounds of encryption.
pub open spec fn spec_enc_rounds(b: (u64, u64), key: CipherKey, n: nat) -> (u64, u64)
    decreases n,
{
    if n == 0 {
        b
    } else {
        let p = spec_enc_rounds(b, key, (n - 1) as nat);
        (p.1, p.0 ^ spec_mix(p.1, spec_round_key(key, (n - 1) as nat)))
    }
}

/// The state after `n` Feistel rounds of decryption, undoing rounds
/// `n-1` down to `0`.
pub open spec fn spec_dec_rounds(b: (u64, u64), key: CipherKey, n: nat) -> (u64, u64)
    decreases n,
{
    if n == 0 {
        b
    } else {
        spec_dec_rounds(
            (b.1 ^ spec_mix(b.0, spec_round_key(key, (n - 1) as nat)), b.0),
            key,
            (n - 1) as nat,
        )
    }
}

/// Encrypting one block.
pub open spec fn spec_block_encrypt(b: (u64, u64), key: CipherKey) -> (u64, u64) {
    spec_enc_rounds(b, key, CIPHER_ROUNDS as nat)
}

/// Decrypting one block.
pub open spec fn spec_block_decrypt(b: (u64, u64), key: CipherKey) -> (u64, u64) {
    spec_dec_rounds(b, key, CIPHER_ROUNDS as nat)
}

/// XOR is its own inverse.
pub proof fn lemma_xor_cancel(a: u64, m: u64)
    ensures
        (a ^ m) ^ m == a,
{
    assert((a ^ m) ^ m == a) by (bit_vector);
}

proof fn lemma_rounds_round_trip(b: (u64, u64), key: CipherKey, n: nat)
    ensures
        spec_dec_rounds(spec_enc_rounds(b, key, n), key, n) == b,
    decreases n,
{
    if n > 0 {
        let p = spec_enc_rounds(b, key, (n - 1) as nat);
        let rk = spec_round_key(key, (n - 1) as nat);
        let e = spec_enc_rounds(b, key, n);
        lemma_xor_cancel(p.0, spec_mix(p.1, rk));
        assert((e.1 ^ spec_mix(e.0, rk), e.0) == p);
        lemma_rounds_round_trip(b, key, (n - 1) as nat);
    }
}

/// Decrypting an encrypted block returns the block.
pub proof fn lemma_block_round_trip(b: (u64, u64), key: CipherKey)
    ensures
        spec_block_decrypt(spec_block_encrypt(b, key), key) == b,
{
    lemma_rounds_round_trip(b, key, CIPHER_ROUNDS as nat);
}

/// Encrypt one block.
pub fn block_encrypt(b: (u64, u64), key: &CipherKey) -> (r: (u64, u64))
    ensures
        r == spec_block_encrypt(b, *key),
{
    let mut cur = b;
    let mut n: usize = 0;
    while n < CIPHER_ROUNDS
        invariant
            n <= CIPHER_ROUNDS,
            cur == spec_enc_rounds(b, *key, n as nat),
        decreases CIPHER_ROUNDS - n,
    {
        let rk = round_key(key, n);
        cur = (cur.1, cur.0 ^ mix(cur.1, rk));
        n = n + 1;
    }
    cur
}

/// Decrypt one block.
pub fn block_decrypt(b: (u64, u64), key: &CipherKey) -> (r: (u64, u64))
    ensures
        r == spec_block_decrypt(b, *key),
{
    let mut cur = b;
    let mut n: usize = 0;
    while n < CIPHER_ROUNDS
        invariant
            n <= CIPHER_ROUNDS,
            spec_dec_rounds(b, *key, CIPHER_ROUNDS as nat) == spec_dec_rounds(
                cur,
                *key,
                (CIPHER_ROUNDS - n) as nat,
            ),
        decreases CIPHER_ROUNDS - n,
    {
        let rk = round_key(key, CIPHER_ROUNDS - 1 - n);
        cur = (cur.1 ^ mix(cur.0, rk), cur.0);
        n = n + 1;
    }
    cur
}

/// CBC encryption of a block sequence, chained from `prev`.
pub open spec fn spec_cbc_encrypt(prev: (u64, u64), blocks: Seq<(u64, u64)>, key: CipherKey) -> Seq<
    (u64, u64),
>
    decreases blocks.len(),
{
    if blocks.len() == 0 {
        Seq::empty()
    } else {
        let c = spec_block_encrypt((blocks[0].0 ^ prev.0, blocks[0].1 ^ prev.1), key);
        seq![c] + spec_cbc_encrypt(c, blocks.skip(1), key)
    }
}

/// CBC decryption of a block sequence, chained from `prev`.
pub open spec fn spec_cbc_decrypt(prev: (u64, u64), cts: Seq<(u64, u64)>, key: CipherKey) -> Seq<
    (u64, u64),
>
    decreases cts.len(),
{
    if cts.len() == 0 {
        Seq::empty()
    } else {
        let p = spec_block_decrypt(cts[0], key);
        seq![(p.0 ^ prev.0, p.1 ^ prev.1)] + spec_cbc_decrypt(cts[0], cts.skip(1), key)
    }
}

/// CBC decryption inverts CBC encryption.
pub proof fn lemma_cbc_round_trip(prev: (u64, u64), blocks: Seq<(u64, u64)>, key: CipherKey)
    ensures
        spec_cbc_decrypt(prev, spec_cbc_encrypt(prev, blocks, key), key) == blocks,
    decreases blocks.len(),
{
    if blocks.len() == 0 {
        assert(spec_cbc_decrypt(prev, spec_cbc_encrypt(prev, blocks, key), key) =~= blocks);
    } else {
        let x = (blocks[0].0 ^ prev.0, blocks[0].1 ^ prev.1);
        let c = spec_block_encrypt(x, key);
        lemma_block_round_trip(x, key);
        lemma_xor_cancel(blocks[0].0, prev.0);
        lemma_xor_cancel(blocks[0].1, prev.1);
        let cts = spec_cbc_encrypt(prev, blocks, key);
        assert(cts[0] == c);
        assert(cts.skip(1) =~= spec_cbc_encrypt(c, blocks.skip(1), key));
        lemma_cbc_round_trip(c, blocks.skip(1), key);
        assert(spec_cbc_decrypt(prev, cts, key) =~= blocks);
    }
}

/// CBC-encrypt a block vector.
fn cbc_encrypt_blocks(iv: (u64, u64), blocks: &Vec<(u64, u64)>, key: &CipherKey) -> (r: Vec<
    (u64, u64),
>)
    ensures
        r@ == spec_cbc_encrypt(iv, blocks@, *key),
{
    let mut out: Vec<(u64, u64)> = Vec::new();
    let mut prev = iv;
    let mut i: usize = 0;
    proof {
        assert(blocks@.skip(0) =~= blocks@);
        assert(out@ + spec_cbc_encrypt(prev, blocks@, *key) =~= spec_cbc_encrypt(
            prev,
            blocks@,
            *key,
        ));
    }
    while i < blocks.len()
        invariant
            i <= blocks@.len(),
            spec_cbc_encrypt(iv, blocks@, *key) == out@ + spec_cbc_encrypt(
                prev,
                blocks@.skip(i as int),
                *key,
            ),
        decreases blocks@.len() - i,
    {
        let b = blocks[i];
        proof {
            assert(blocks@.skip(i as int)[0] == blocks@[i as int]);
            assert(blocks@.skip(i as int).skip(1) =~= blocks@.skip(i as int + 1));
        }
        let c = block_encrypt((b.0 ^ prev.0, b.1 ^ prev.1), key);
        out.push(c);
        proof {
            assert(out@ + spec_cbc_encrypt(c, blocks@.skip(i as int + 1), *key) =~= spec_cbc_encrypt(
                iv,
                blocks@,
                *key,
            ));
        }
        prev = c;
        i = i + 1;
    }
    proof {
        assert(blocks@.skip(i as int) =~= Seq::<(u64, u64)>::empty());
        assert(out@ + Seq::<(u64, u64)>::empty() =~= out@);
    }
    out
}

/// CBC-decrypt a block vector.
fn cbc_decrypt_blocks(iv: (u64, u64), cts: &Vec<(u64, u64)>, key: &CipherKey) -> (r: Vec<
    (u64, u64),
>)
    ensures
        r@ == spec_cbc_decrypt(iv, cts@, *key),
{
    let mut out: Vec<(u64, u64)> = Vec::new();
    let mut prev = iv;
    let mut i: usize = 0;
    proof {
        assert(cts@.skip(0) =~= cts@);
        assert(out@ + spec_cbc_decrypt(prev, cts@, *key) =~= spec_cbc_decrypt(prev, cts@, *key));
    }
    while i < cts.len()
        invariant
            i <= cts@.len(),
            spec_cbc_decrypt(iv, cts@, *key) == out@ + spec_cbc_decrypt(
                prev,
                cts@.skip(i as int),
                *key,
            ),
        decreases cts@.len() - i,
    {
        let c = cts[i];
        proof {
            assert(cts@.skip(i as int)[0] == cts@[i as int]);
            assert(cts@.skip(i as int).skip(1) =~= cts@.skip(i as int + 1));
        }
        let p = block_decrypt(c, key);
        out.push((p.0 ^ prev.0, p.1 ^ prev.1));
        proof {
            assert(out@ + spec_cbc_decrypt(c, cts@.skip(i as int + 1), *key) =~= spec_cbc_decrypt(
                iv,
                cts@,
                *key,
            ));
        }
        prev = c;
        i = i + 1;
    }
    proof {
        assert(cts@.skip(i as int) =~= Seq::<(u64, u64)>::empty());
        assert(out@ + Seq::<(u64, u64)>::empty() =~= out@);
    }
    out
}

/// The 16-byte groups of a byte sequence as 64-bit word pairs.
pub open spec fn spec_blocks_of_bytes(s: Seq<u8>) -> Seq<(u64, u64)>
    decreases s.len(),
{
    if s.len() < 16 {
        Seq::empty()
    } else {
        seq![
            (spec_u64_from_le_bytes(s.subrange(0, 8)), spec_u64_from_le_bytes(s.subrange(8, 16))),
        ] + spec_blocks_of_bytes(s.skip(16))
    }
}

/// The bytes of a word-pair sequence, little endian.
pub open spec fn spec_bytes_of_blocks(bs: Seq<(u64, u64)>) -> Seq<u8>
    decreases bs.len(),
{
    if bs.len() == 0 {
        Seq::empty()
    } else {
        spec_u64_to_le_bytes(bs[0].0) + spec_u64_to_le_bytes(bs[0].1) + spec_bytes_of_blocks(
            bs.skip(1),
        )
    }
}

/// A word-pair sequence writes exactly sixteen bytes per block.
pub proof fn lemma_bytes_of_blocks_len(bs: Seq<(u64, u64)>)
    ensures
        spec_bytes_of_blocks(bs).len() == 16 * bs.len(),
    decreases bs.len(),
{
    lemma_auto_spec_u64_to_from_le_bytes();
    if bs.len() > 0 {
        lemma_bytes_of_blocks_len(bs.skip(1));
    }
}

/// Reading the bytes of a block sequence back as blocks returns the blocks.
pub proof fn lemma_blocks_of_bytes_of_blocks(bs: Seq<(u64, u64)>)
    ensures
        spec_blocks_of_bytes(spec_bytes_of_blocks(bs)) == bs,
    decreases bs.len(),
{
    lemma_auto_spec_u64_to_from_le_bytes();
    if bs.len() == 0 {
        assert(spec_blocks_of_bytes(spec_bytes_of_blocks(bs)) =~= bs);
    } else {
        let s = spec_bytes_of_blocks(bs);
        let lo = spec_u64_to_le_bytes(bs[0].0);
        let hi = spec_u64_to_le_bytes(bs[0].1);
        let rest = spec_bytes_of_blocks(bs.skip(1));
        lemma_bytes_of_blocks_len(bs.skip(1));
        assert(s.subrange(0, 8) =~= lo);
        assert(s.subrange(8, 16) =~= hi);
        assert(s.skip(16) =~= rest);
        lemma_blocks_of_bytes_of_blocks(bs.skip(1));
        assert(spec_blocks_of_bytes(s) =~= bs);
    }
}

/// Writing the blocks of a 16-byte-aligned byte sequence back as bytes
/// returns the bytes.
pub proof fn lemma_bytes_of_blocks_of_bytes(s: Seq<u8>)
    requires
        s.len() % 16 == 0,
    ensures
        spec_bytes_of_blocks(spec_blocks_of_bytes(s)) == s,
    decreases s.len(),
{
    lemma_auto_spec_u64_to_from_le_bytes();
    if s.len() == 0 {
        assert(spec_bytes_of_blocks(spec_blocks_of_bytes(s)) =~= s);
    } else {
        assert(s.len() >= 16);
        let bs = spec_blocks_of_bytes(s);
        assert(bs[0].0 == spec_u64_from_le_bytes(s.subrange(0, 8)));
        assert(s.subrange(0, 8).len() == 8);
        assert(s.subrange(8, 16).len() == 8);
        assert(spec_u64_to_le_bytes(bs[0].0) == s.subrange(0, 8));
        assert(spec_u64_to_le_bytes(bs[0].1) == s.subrange(8, 16));
        assert(s.skip(16).len() % 16 == 0);
        lemma_bytes_of_blocks_of_bytes(s.skip(16));
        assert(bs.skip(1) =~= spec_blocks_of_bytes(s.skip(16)));
        assert(spec_bytes_of_blocks(bs) =~= s);
    }
}

/// Group a 16-byte-aligned slice into word-pair blocks.
fn blocks_of_bytes(data: &[u8]) -> (r: Vec<(u64, u64)>)
    requires
        data@.len() % 16 == 0,
    ensures
        r@ == spec_blocks_of_bytes(data@),
{
    let mut out: Vec<(u64, u64)> = Vec::new();
    let mut i: usize = 0;
    proof {
        assert(data@.skip(0) =~= data@);
        assert(out@ + spec_blocks_of_bytes(data@) =~= spec_blocks_of_bytes(data@));
    }
    while i < data.len()
        invariant
            i <= data@.len(),
            i % 16 == 0,
            data@.len() % 16 == 0,
            spec_blocks_of_bytes(data@) == out@ + spec_blocks_of_bytes(data@.skip(i as int)),
        decreases data@.len() - i,
    {
        proof {
            assert(data@.len() - i >= 16) by {
                assert(data@.len() - i != 0);
                assert((data@.len() - i) % 16 == 0) by (nonlinear_arith)
                    requires
                        data@.len() % 16 == 0,
                        i % 16 == 0,
                        i <= data@.len(),
                ;
            }
        }
        let lo = u64_from_le_bytes(slice_subrange(data, i, i + 8));
        let hi = u64_from_le_bytes(slice_subrange(data, i + 8, i + 16));
        proof {
            let rem = data@.skip(i as int);
            assert(rem.subrange(0, 8) =~= data@.subrange(i as int, i as int + 8));
            assert(rem.subrange(8, 16) =~= data@.subrange(i as int + 8, i as int + 16));
            assert(rem.skip(16) =~= data@.skip(i as int + 16));
        }
        out.push((lo, hi));
        proof {
            assert(out@ + spec_blocks_of_bytes(data@.skip(i as int + 16)) =~= spec_blocks_of_bytes(
                data@,
            ));
        }
        i = i + 16;
    }
    proof {
        assert(data@.skip(i as int) =~= Seq::<u8>::empty());
        assert(out@ + Seq::<(u64, u64)>::empty() =~= out@);
    }
    out
}

/// Write word-pair blocks out as bytes, little endian.
fn bytes_of_blocks(blocks: &Vec<(u64, u64)>) -> (r: Vec<u8>)
    ensures
        r@ == spec_bytes_of_blocks(blocks@),
{
    let mut out: Vec<u8> = Vec::new();
    let mut i: usize = 0;
    proof {
        assert(blocks@.skip(0) =~= blocks@);
        assert(out@ + spec_bytes_of_blocks(blocks@) =~= spec_bytes_of_blocks(blocks@));
    }
    while i < blocks.len()
        invariant
            i <= blocks@.len(),
            spec_bytes_of_blocks(blocks@) == out@ + spec_bytes_of_blocks(blocks@.skip(i as int)),
        decreases blocks@.len() - i,
    {
        let b = blocks[i];
        proof {
            assert(blocks@.skip(i as int)[0] == blocks@[i as int]);
            assert(blocks@.skip(i as int).skip(1) =~= blocks@.skip(i as int + 1));
        }
        let mut lo = u64_to_le_bytes(b.0);
        out.append(&mut lo);
        let mut hi = u64_to_le_bytes(b.1);
        out.append(&mut hi);
        proof {
            assert(out@ + spec_bytes_of_blocks(blocks@.skip(i as int + 1)) =~= spec_bytes_of_blocks(
                blocks@,
            ));
        }
        i = i + 1;
    }
    proof {
        assert(blocks@.skip(i as int) =~= Seq::<(u64, u64)>::empty());
        assert(out@ + Seq::<u8>::empty() =~= out@);
    }
    out
}

/// PKCS#7 padding: append `n` bytes of value `n`, where `n` is 16 minus the
/// length remainder (so always between 1 and 16).
pub open spec fn spec_pkcs7_pad(s: Seq<u8>) -> Seq<u8> {
    let n = 16 - (s.len() % 16);
    s + Seq::new(n as nat, |i: int| n as u8)
}

/// PKCS#7 unpadding; `None` when the bytes are not a padded sequence.
pub open spec fn spec_pkcs7_unpad(s: Seq<u8>) -> Option<Seq<u8>> {
    if s.len() == 0 || s.len() % 16 != 0 {
        None
    } else {
        let n = s[s.len() - 1] as int;
        if 1 <= n <= 16 && n <= s.len() && (forall|k: int|
            s.len() - n <= k < s.len() ==> #[trigger] s[k] == n as u8) {
            Some(s.take(s.len() - n))
        } else {
            None
        }
    }
}

/// Unpadding a padded sequence returns the original.
pub proof fn lemma_pkcs7_round_trip(s: Seq<u8>)
    ensures
        spec_pkcs7_unpad(spec_pkcs7_pad(s)).unwrap() == s,
        spec_pkcs7_unpad(spec_pkcs7_pad(s)) is Some,
        spec_pkcs7_pad(s).len() == s.len() + 16 - (s.len() % 16),
        spec_pkcs7_pad(s).len() % 16 == 0,
        spec_pkcs7_pad(s).len() > 0,
{
    let n = 16 - (s.len() % 16);
    let p = spec_pkcs7_pad(s);
    assert(p.len() == s.len() + n);
    assert(p.len() % 16 == 0) by (nonlinear_arith)
        requires
            p.len() == s.len() + 16 - (s.len() % 16),
    ;
    assert(p[p.len() - 1] == n as u8);
    assert forall|k: int| p.len() - n <= k < p.len() implies #[trigger] p[k] == n as u8 by {
        assert(k >= s.len());
    }
    assert(p.take(p.len() - n) =~= s);
}

/// Pad a chunk to a whole number of blocks.
pub fn pkcs7_pad(data: &[u8]) -> (r: Vec<u8>)
    requires
        data@.len() + 16 <= usize::MAX,
    ensures
        r@ == spec_pkcs7_pad(data@),
        r@.len() % 16 == 0,
        r@.len() == data@.len() + 16 - (data@.len() % 16),
{
    proof {
        lemma_pkcs7_round_trip(data@);
    }
    let mut out = slice_to_vec(data);
    let n: usize = 16 - (data.len() % 16);
    crate::codec::push_repeat(&mut out, n as u8, n);
    proof {
        assert(out@ =~= spec_pkcs7_pad(data@));
    }
    out
}

/// Remove PKCS#7 padding; `CorruptArchive` when the padding is malformed.
pub fn pkcs7_unpad(data: &[u8]) -> (r: Result<Vec<u8>, Error>)
    ensures
        match r {
            Ok(v) => spec_pkcs7_unpad(data@) == Some(v@),
            Err(e) => e == Error::CorruptArchive && spec_pkcs7_unpad(data@) is None,
        },
{
    if data.len() == 0 || data.len() % 16 != 0 {
        return Err(Error::CorruptArchive);
    }
    let n = data[data.len() - 1];
    if n == 0 || n > 16 || (n as usize) > data.len() {
        return Err(Error::CorruptArchive);
    }
    let start = data.len() - (n as usize);
    let mut k = start;
    while k < data.len()
        invariant
            start <= k <= data@.len(),
            start == data@.len() - n,
            n == data@[data@.len() - 1],
            1 <= n <= 16,
            n as int <= data@.len(),
            forall|t: int| start <= t < k ==> #[trigger] data@[t] == n,
        decreases data@.len() - k,
    {
        if data[k] != n {
            return Err(Error::CorruptArchive);
        }
        k = k + 1;
    }
    let out = slice_to_vec(slice_subrange(data, 0, start));
    proof {
        assert(out@ =~= data@.take(data@.len() - n));
    }
    Ok(out)
}

/// Encrypting a chunk: pad, group into blocks, CBC-encrypt from the IV, and
/// write the ciphertext blocks back as bytes.
pub open spec fn spec_encrypt_chunk(key: CipherKey, iv: (u64, u64), s: Seq<u8>) -> Seq<u8> {
    spec_bytes_of_blocks(spec_cbc_encrypt(iv, spec_blocks_of_bytes(spec_pkcs7_pad(s)), key))
}

/// Decrypting a chunk: group into blocks, CBC-decrypt from the IV, write the
/// plaintext blocks back as bytes and unpad.  `None` when the ciphertext
/// length is not a whole positive number of blocks or the padding is
/// malformed.
pub open spec fn spec_decrypt_chunk(key: CipherKey, iv: (u64, u64), s: Seq<u8>) -> Option<Seq<u8>> {
    if s.len() == 0 || s.len() % 16 != 0 {
        None
    } else {
        spec_pkcs7_unpad(spec_bytes_of_blocks(spec_cbc_decrypt(iv, spec_blocks_of_bytes(s), key)))
    }
}

/// Decrypting an encrypted chunk returns the chunk.
pub proof fn lemma_encrypt_chunk_round_trip(key: CipherKey, iv: (u64, u64), s: Seq<u8>)
    ensures
        spec_decrypt_chunk(key, iv, spec_encrypt_chunk(key, iv, s)) == Some(s),
        spec_encrypt_chunk(key, iv, s).len() == s.len() + 16 - (s.len() % 16),
{
    lemma_pkcs7_round_trip(s);
    let padded = spec_pkcs7_pad(s);
    let blocks = spec_blocks_of_bytes(padded);
    let cts = spec_cbc_encrypt(iv, blocks, key);
    let ct_bytes = spec_bytes_of_blocks(cts);
    lemma_cbc_len(iv, blocks, key);
    lemma_blocks_of_bytes_len(padded);
    lemma_bytes_of_blocks_len(cts);
    lemma_blocks_of_bytes_of_blocks(cts);
    lemma_cbc_round_trip(iv, blocks, key);
    lemma_bytes_of_blocks_of_bytes(padded);
    assert(ct_bytes.len() == padded.len());
    assert(ct_bytes.len() % 16 == 0 && ct_bytes.len() > 0);
    assert(spec_cbc_decrypt(iv, spec_blocks_of_bytes(ct_bytes), key) == blocks);
    assert(spec_bytes_of_blocks(blocks) == padded);
}

/// CBC encryption keeps the block count.
pub proof fn lemma_cbc_len(prev: (u64, u64), blocks: Seq<(u64, u64)>, key: CipherKey)
    ensures
        spec_cbc_encrypt(prev, blocks, key).len() == blocks.len(),
    decreases blocks.len(),
{
    if blocks.len() > 0 {
        let c = spec_block_encrypt((blocks[0].0 ^ prev.0, blocks[0].1 ^ prev.1), key);
        lemma_cbc_len(c, blocks.skip(1), key);
    }
}

/// A 16-byte-aligned sequence groups into one block per sixteen bytes.
pub proof fn lemma_blocks_of_bytes_len(s: Seq<u8>)
    requires
        s.len() % 16 == 0,
    ensures
        spec_blocks_of_bytes(s).len() * 16 == s.len(),
    decreases s.len(),
{
    if s.len() >= 16 {
        assert(s.skip(16).len() % 16 == 0);
        lemma_blocks_of_bytes_len(s.skip(16));
    }
}

/// Encrypt one chunk with the given key and IV.
pub fn encrypt_chunk(key: &CipherKey, iv: (u64, u64), data: &[u8]) -> (r: Vec<u8>)
    requires
        data@.len() + 16 <= usize::MAX,
    ensures
        r@ == spec_encrypt_chunk(*key, iv, data@),
        r@.len() == data@.len() + 16 - (data@.len() % 16),
{
    proof {
        lemma_encrypt_chunk_round_trip(*key, iv, data@);
    }
    let padded = pkcs7_pad(data);
    let blocks = blocks_of_bytes(padded.as_slice());
    let cts = cbc_encrypt_blocks(iv, &blocks, key);
    bytes_of_blocks(&cts)
}

/// Decrypt one chunk with the given key and IV; `CorruptArchive` when the
/// ciphertext is not a whole positive number of blocks or the padding is
/// malformed.
pub fn decrypt_chunk(key: &CipherKey, iv: (u64, u64), data: &[u8]) -> (r: Result<Vec<u8>, Error>)
    ensures
        match r {
            Ok(v) => spec_decrypt_chunk(*key, iv, data@) == Some(v@),
            Err(e) => e == Error::CorruptArchive && spec_decrypt_chunk(*key, iv, data@) is None,
        },
{
    if data.len() == 0 || data.len() % 16 != 0 {
        return Err(Error::CorruptArchive);
    }
    let cts = blocks_of_bytes(data);
    let blocks = cbc_decrypt_blocks(iv, &cts, key);
    let plain = bytes_of_blocks(&blocks);
    pkcs7_unpad(plain.as_slice())
}

/// One key-derivation absorption step: rotate the state words and mix the
/// byte into the trailing word.
pub open spec fn spec_absorb_byte(st: CipherKey, b: u8) -> CipherKey {
    CipherKey {
        w0: st.w1,
        w1: st.w2,
        w2: st.w3,
        w3: spec_mix(st.w0, u64_specs::wrapping_add(st.w3, b as u64)),
    }
}

/// The key-derivation state after absorbing all of `s`.
pub open spec fn spec_absorb(st: CipherKey, s: Seq<u8>) -> CipherKey
    decreases s.len(),
{
    if s.len() == 0 {
        st
    } else {
        spec_absorb(spec_absorb_byte(st, s[0]), s.skip(1))
    }
}

/// One stir round of the key-derivation state.
pub open spec fn spec_stir(st: CipherKey) -> CipherKey {
    let a = spec_mix(st.w0, st.w1);
    let b = spec_mix(st.w1, st.w2);
    let c = spec_mix(st.w2, st.w3);
    let d = spec_mix(st.w3, a);
    CipherKey { w0: a, w1: b, w2: c, w3: d }
}

/// The key-derivation state after `n` stir rounds.
pub open spec fn spec_stir_n(st: CipherKey, n: nat) -> CipherKey
    decreases n,
{
    if n == 0 {
        st
    } else {
        spec_stir(spec_stir_n(st, (n - 1) as nat))
    }
}

/// The seed of the key-derivation state.
pub open spec fn spec_kdf_seed() -> CipherKey {
    CipherKey { w0: KDF_SEED_0, w1: KDF_SEED_1, w2: KDF_SEED_2, w3: KDF_SEED_3 }
}

/// The key derived from a password and a salt: absorb the password bytes,
/// then the salt bytes, then stir [`KDF_ITERATIONS`] times.
pub open spec fn spec_derive_key(password: Seq<u8>, salt: Seq<u8>) -> CipherKey {
    spec_stir_n(
        spec_absorb(spec_absorb(spec_kdf_seed(), password), salt),
        KDF_ITERATIONS as nat,
    )
}

/// Absorb a byte slice into the key-derivation state.
fn absorb(st: CipherKey, s: &[u8]) -> (r: CipherKey)
    ensures
        r == spec_absorb(st, s@),
{
    let mut cur = st;
    let mut i: usize = 0;
    proof {
        assert(s@.skip(0) =~= s@);
    }
    while i < s.len()
        invariant
            i <= s@.len(),
            spec_absorb(st, s@) == spec_absorb(cur, s@.skip(i as int)),
        decreases s@.len() - i,
    {
        proof {
            assert(s@.skip(i as int)[0] == s@[i as int]);
            assert(s@.skip(i as int).skip(1) =~= s@.skip(i as int + 1));
        }
        cur = CipherKey {
            w0: cur.w1,
            w1: cur.w2,
            w2: cur.w3,
            w3: mix(cur.w0, cur.w3.wrapping_add(s[i] as u64)),
        };
        i = i + 1;
    }
    proof {
        assert(s@.skip(i as int) =~= Seq::<u8>::empty());
    }
    cur
}

/// Derive the cipher key of an archive from its password and salt.
pub fn derive_key(password: &[u8], salt: &[u8]) -> (r: CipherKey)
    ensures
        r == spec_derive_key(password@, salt@),
{
    let seeded = CipherKey { w0: KDF_SEED_0, w1: KDF_SEED_1, w2: KDF_SEED_2, w3: KDF_SEED_3 };
    let absorbed = absorb(absorb(seeded, password), salt);
    let mut cur = absorbed;
    let mut n: usize = 0;
    while n < KDF_ITERATIONS
        invariant
            n <= KDF_ITERATIONS,
            cur == spec_stir_n(absorbed, n as nat),
        decreases KDF_ITERATIONS - n,
    {
        let a = mix(cur.w0, cur.w1);
        let b = mix(cur.w1, cur.w2);
        let c = mix(cur.w2, cur.w3);
        let d = mix(cur.w3, a);
        cur = CipherKey { w0: a, w1: b, w2: c, w3: d };
        n = n + 1;
    }
    cur
}

/// The deterministic IV of the chunk with archive-wide index `counter`.
pub open spec fn spec_chunk_iv(key: CipherKey, counter: u64) -> (u64, u64) {
    (spec_mix(key.w0, counter), spec_mix(key.w2, counter ^ 0x5555555555555555))
}

/// The deterministic IV of the chunk with archive-wide index `counter`.
pub fn chunk_iv(key: &CipherKey, counter: u64) -> (r: (u64, u64))
    ensures
        r == spec_chunk_iv(*key, counter),
{
    (mix(key.w0, counter), mix(key.w2, counter ^ 0x5555555555555555))
}

/// The test block of a key: the fixed known plaintext, encrypted once.
pub open spec fn spec_test_block(key: CipherKey) -> (u64, u64) {
    spec_block_encrypt((TEST_BLOCK_LO, TEST_BLOCK_HI), key)
}

/// The test block of a key: the fixed known plaintext, encrypted once.
pub fn make_test_block(key: &CipherKey) -> (r: (u64, u64))
    ensures
        r == spec_test_block(*key),
{
    block_encrypt((TEST_BLOCK_LO, TEST_BLOCK_HI), key)
}

/// Whether a stored test block decrypts to the known plaintext under `key`:
/// the password check run before any bulk decryption.
pub open spec fn spec_test_block_ok(key: CipherKey, tb: (u64, u64)) -> bool {
    spec_block_decrypt(tb, key) == (TEST_BLOCK_LO, TEST_BLOCK_HI)
}

/// Check a stored test block against a derived key.
pub fn check_test_block(key: &CipherKey, tb: (u64, u64)) -> (r: bool)
    ensures
        r == spec_test_block_ok(*key, tb),
{
    let p = block_decrypt(tb, key);
    p.0 == TEST_BLOCK_LO && p.1 == TEST_BLOCK_HI
}

/// The test block a key writes always verifies under the same key.
pub proof fn lemma_test_block_round_trip(key: CipherKey)
    ensures
        spec_test_block_ok(key, spec_test_block(key)),
{
    lemma_block_round_trip((TEST_BLOCK_LO, TEST_BLOCK_HI), key);
}

} // verus!
