//! The block decryptor: TEA in ECB mode with sixteen rounds, keyed by a
//! sixteen-byte key that callers give in hexadecimal.

use crate::endian::{
    le_bytes,
    le_u32,
    lemma_bytes_of_word,
    lemma_word_of_bytes,
    word_from_le,
    word_to_le,
};
use vstd::prelude::*;
use vstd::wrapping::u32_specs::{wrapping_add, wrapping_sub};

verus! {

/// The cipher's round constant.
pub const TEA_DELTA: u32 = 0x9E37_79B9;

/// The running sum at the start of decryption.
pub const TEA_INITIAL_SUM: u32 = 0xC6EF_3720;

/// Number of rounds applied to each block.
pub const TEA_ROUNDS: u32 = 16;

/// Bytes in a key.
pub const TEA_KEY_LEN: usize = 16;

/// Bytes in a cipher block.
pub const TEA_BLOCK_LEN: usize = 8;

/// The four little-endian subkeys of a key.
pub struct SubKeys {
    pub k0: u32,
    pub k1: u32,
    pub k2: u32,
    pub k3: u32,
}

/// The two halves of a cipher block.
pub struct Halves {
    pub v0: u32,
    pub v1: u32,
}

/// Subkeys of the first sixteen bytes of `key`.
pub open spec fn subkeys(key: Seq<u8>) -> SubKeys
    recommends
        key.len() >= TEA_KEY_LEN,
{
    SubKeys {
        k0: le_u32(key.subrange(0, 4)) as u32,
        k1: le_u32(key.subrange(4, 8)) as u32,
        k2: le_u32(key.subrange(8, 12)) as u32,
        k3: le_u32(key.subrange(12, 16)) as u32,
    }
}

/// What one half contributes to the update of the other in a round.
pub open spec fn mix(v: u32, ka: u32, kb: u32, sum: u32) -> u32 {
    wrapping_add(v << 4, ka) ^ wrapping_add(v, sum) ^ wrapping_add(v >> 5, kb)
}

/// One decryption round.
pub open spec fn round(h: Halves, k: SubKeys, sum: u32) -> Halves {
    let v1 = wrapping_sub(h.v1, mix(h.v0, k.k2, k.k3, sum));
    let v0 = wrapping_sub(h.v0, mix(v1, k.k0, k.k1, sum));
    Halves { v0, v1 }
}

/// `n` decryption rounds, the running sum starting at `sum` and falling by
/// the round constant after each.
pub open spec fn rounds(h: Halves, k: SubKeys, sum: u32, n: nat) -> Halves
    decreases n,
{
    if n == 0 {
        h
    } else {
        rounds(round(h, k, sum), k, wrapping_sub(sum, TEA_DELTA), (n - 1) as nat)
    }
}

/// The two little-endian words of an eight-byte block.
#[verifier::opaque]
pub open spec fn halves_of(block: Seq<u8>) -> Halves
    recommends
        block.len() == TEA_BLOCK_LEN,
{
    Halves {
        v0: le_u32(block.subrange(0, 4)) as u32,
        v1: le_u32(block.subrange(4, 8)) as u32,
    }
}

/// The eight bytes of two words, each in little-endian order.
#[verifier::opaque]
pub open spec fn halves_bytes(h: Halves) -> Seq<u8> {
    le_bytes(h.v0) + le_bytes(h.v1)
}

/// The decryption of one eight-byte block.
pub open spec fn decrypt_block(block: Seq<u8>, key: Seq<u8>) -> Seq<u8>
    recommends
        block.len() == TEA_BLOCK_LEN,
        key.len() >= TEA_KEY_LEN,
{
    halves_bytes(rounds(halves_of(block), subkeys(key), TEA_INITIAL_SUM, TEA_ROUNDS as nat))
}

/// Start of the cipher block that holds byte `i`.
pub open spec fn block_start(i: int) -> int {
    i - i % (TEA_BLOCK_LEN as int)
}

/// The decryption of `data`: each full eight-byte block is decrypted on its
/// own, bytes after the last full block stay, and a key shorter than sixteen
/// bytes changes nothing.
pub open spec fn tea_decrypted(data: Seq<u8>, key: Seq<u8>) -> Seq<u8> {
    if key.len() < TEA_KEY_LEN {
        data
    } else {
        Seq::new(
            data.len(),
            |i: int|
                if block_start(i) + TEA_BLOCK_LEN <= data.len() {
                    decrypt_block(
                        data.subrange(block_start(i), block_start(i) + TEA_BLOCK_LEN),
                        key,
                    )[i % (TEA_BLOCK_LEN as int)]
                } else {
                    data[i]
                },
        )
    }
}

/// The round that `round` undoes.
pub open spec fn unround(h: Halves, k: SubKeys, sum: u32) -> Halves {
    let v0 = wrapping_add(h.v0, mix(h.v1, k.k0, k.k1, sum));
    let v1 = wrapping_add(h.v1, mix(v0, k.k2, k.k3, sum));
    Halves { v0, v1 }
}

/// The `n` rounds that `rounds` undoes: the last of them runs under `sum`,
/// the one before under `sum` less the round constant, and so on.
pub open spec fn unrounds(h: Halves, k: SubKeys, sum: u32, n: nat) -> Halves
    decreases n,
{
    if n == 0 {
        h
    } else {
        unround(unrounds(h, k, wrapping_sub(sum, TEA_DELTA), (n - 1) as nat), k, sum)
    }
}

/// The encryption of one eight-byte block: the block that decrypts to it.
pub open spec fn encrypt_block(block: Seq<u8>, key: Seq<u8>) -> Seq<u8>
    recommends
        block.len() == TEA_BLOCK_LEN,
        key.len() >= TEA_KEY_LEN,
{
    halves_bytes(unrounds(halves_of(block), subkeys(key), TEA_INITIAL_SUM, TEA_ROUNDS as nat))
}

/// The encryption of `data`: each full eight-byte block is encrypted on its
/// own and bytes after the last full block stay.
pub open spec fn tea_encrypted(data: Seq<u8>, key: Seq<u8>) -> Seq<u8> {
    Seq::new(
        data.len(),
        |i: int|
            if block_start(i) + TEA_BLOCK_LEN <= data.len() {
                encrypt_block(
                    data.subrange(block_start(i), block_start(i) + TEA_BLOCK_LEN),
                    key,
                )[i % (TEA_BLOCK_LEN as int)]
            } else {
                data[i]
            },
    )
}

/// A round undoes the round that goes with it.
pub proof fn lemma_round_undoes(h: Halves, k: SubKeys, sum: u32)
    ensures
        round(unround(h, k, sum), k, sum) == h,
{
}

/// The rounds of decryption undo those of encryption.
pub proof fn lemma_rounds_undo(h: Halves, k: SubKeys, sum: u32, n: nat)
    ensures
        rounds(unrounds(h, k, sum, n), k, sum, n) == h,
    decreases n,
{
    if n > 0 {
        let inner = unrounds(h, k, wrapping_sub(sum, TEA_DELTA), (n - 1) as nat);
        lemma_round_undoes(inner, k, sum);
        lemma_rounds_undo(h, k, wrapping_sub(sum, TEA_DELTA), (n - 1) as nat);
    }
}

/// The bytes of two words spell the two words.
pub proof fn lemma_halves_of_bytes(h: Halves)
    ensures
        halves_bytes(h).len() == TEA_BLOCK_LEN,
        halves_of(halves_bytes(h)) == h,
{
    reveal(halves_of);
    reveal(halves_bytes);
    lemma_word_of_bytes(h.v0);
    lemma_word_of_bytes(h.v1);
    let lo = le_bytes(h.v0);
    let hi = le_bytes(h.v1);
    assert((lo + hi).subrange(0, 4) =~= lo);
    assert((lo + hi).subrange(4, 8) =~= hi);
}

/// The two words of a block spell the block.
pub proof fn lemma_bytes_of_halves(block: Seq<u8>)
    requires
        block.len() == TEA_BLOCK_LEN,
    ensures
        halves_bytes(halves_of(block)) == block,
{
    reveal(halves_of);
    reveal(halves_bytes);
    let lo = block.subrange(0, 4);
    let hi = block.subrange(4, 8);
    lemma_bytes_of_word(lo);
    lemma_bytes_of_word(hi);
    assert(lo + hi =~= block);
}

/// Decrypting the encryption of a block gives the block.
pub proof fn lemma_block_roundtrip(block: Seq<u8>, key: Seq<u8>)
    requires
        block.len() == TEA_BLOCK_LEN,
    ensures
        encrypt_block(block, key).len() == TEA_BLOCK_LEN,
        decrypt_block(encrypt_block(block, key), key) == block,
{
    let h = halves_of(block);
    let e = unrounds(h, subkeys(key), TEA_INITIAL_SUM, TEA_ROUNDS as nat);
    lemma_halves_of_bytes(e);
    lemma_rounds_undo(h, subkeys(key), TEA_INITIAL_SUM, TEA_ROUNDS as nat);
    lemma_bytes_of_halves(block);
}

/// Decryption undoes encryption under the same key.
pub proof fn lemma_decrypt_undoes_encrypt(data: Seq<u8>, key: Seq<u8>)
    requires
        key.len() >= TEA_KEY_LEN,
    ensures
        tea_decrypted(tea_encrypted(data, key), key) == data,
{
    let sealed = tea_encrypted(data, key);
    let opened = tea_decrypted(sealed, key);
    assert forall|i: int| 0 <= i < data.len() implies opened[i] == data[i] by {
        let start = block_start(i);
        if start + TEA_BLOCK_LEN <= data.len() {
            let block = data.subrange(start, start + TEA_BLOCK_LEN);
            lemma_block_roundtrip(block, key);
            assert forall|j: int| 0 <= j < TEA_BLOCK_LEN implies sealed.subrange(
                start,
                start + TEA_BLOCK_LEN,
            )[j] == encrypt_block(block, key)[j] by {
                assert(block_start(start + j) == start);
                assert((start + j) % (TEA_BLOCK_LEN as int) == j);
            }
            assert(sealed.subrange(start, start + TEA_BLOCK_LEN) =~= encrypt_block(block, key));
            assert(block[i - start] == data[i]);
        }
    }
    assert(opened =~= data);
}

/// Runs the sixteen rounds on one block.
fn decrypt_halves(v0: u32, v1: u32, k: &SubKeys) -> (d: Halves)
    ensures
        d == rounds(Halves { v0, v1 }, *k, TEA_INITIAL_SUM, TEA_ROUNDS as nat),
{
    let mut v0 = v0;
    let mut v1 = v1;
    let mut sum: u32 = TEA_INITIAL_SUM;
    let ghost start = Halves { v0, v1 };
    let mut done: u32 = 0;
    while done < TEA_ROUNDS
        invariant
            done <= TEA_ROUNDS,
            rounds(start, *k, TEA_INITIAL_SUM, TEA_ROUNDS as nat) == rounds(
                Halves { v0, v1 },
                *k,
                sum,
                (TEA_ROUNDS - done) as nat,
            ),
        decreases TEA_ROUNDS - done,
    {
        v1 = v1.wrapping_sub(
            ((v0 << 4).wrapping_add(k.k2)) ^ (v0.wrapping_add(sum)) ^ ((v0 >> 5).wrapping_add(
                k.k3,
            )),
        );
        v0 = v0.wrapping_sub(
            ((v1 << 4).wrapping_add(k.k0)) ^ (v1.wrapping_add(sum)) ^ ((v1 >> 5).wrapping_add(
                k.k1,
            )),
        );
        sum = sum.wrapping_sub(TEA_DELTA);
        done = done + 1;
    }
    Halves { v0, v1 }
}

/// Decrypts `data` in place under `key`.
pub fn decrypt_tea(data: &mut [u8], key: &[u8])
    ensures
        final(data)@ == tea_decrypted(old(data)@, key@),
{
    if key.len() < TEA_KEY_LEN {
        return ;
    }
    let k = SubKeys {
        k0: word_from_le(key[0], key[1], key[2], key[3]),
        k1: word_from_le(key[4], key[5], key[6], key[7]),
        k2: word_from_le(key[8], key[9], key[10], key[11]),
        k3: word_from_le(key[12], key[13], key[14], key[15]),
    };
    proof {
        assert(key@.subrange(0, 4) =~= seq![key@[0], key@[1], key@[2], key@[3]]);
        assert(key@.subrange(4, 8) =~= seq![key@[4], key@[5], key@[6], key@[7]]);
        assert(key@.subrange(8, 12) =~= seq![key@[8], key@[9], key@[10], key@[11]]);
        assert(key@.subrange(12, 16) =~= seq![key@[12], key@[13], key@[14], key@[15]]);
        assert(k == subkeys(key@));
    }
    let len = data.len();
    let mut i: usize = 0;
    while len - i >= TEA_BLOCK_LEN
        invariant
            len == old(data)@.len(),
            data@.len() == len,
            key@.len() >= TEA_KEY_LEN,
            k == subkeys(key@),
            i % TEA_BLOCK_LEN == 0,
            i <= len,
            forall|j: int| 0 <= j < i ==> data@[j] == tea_decrypted(old(data)@, key@)[j],
            forall|j: int| i <= j < len ==> data@[j] == old(data)@[j],
        decreases len - i,
    {
        let ghost block = old(data)@.subrange(i as int, i + TEA_BLOCK_LEN);
        let v0 = word_from_le(data[i], data[i + 1], data[i + 2], data[i + 3]);
        let v1 = word_from_le(data[i + 4], data[i + 5], data[i + 6], data[i + 7]);
        proof {
            reveal(halves_of);
            reveal(halves_bytes);
            assert(block.subrange(0, 4) =~= seq![data@[i as int], data@[i + 1], data@[i + 2], data@[i + 3]]);
            assert(block.subrange(4, 8) =~= seq![data@[i + 4], data@[i + 5], data@[i + 6], data@[i + 7]]);
        }
        let d = decrypt_halves(v0, v1, &k);
        let lo = word_to_le(d.v0);
        let hi = word_to_le(d.v1);
        assert(decrypt_block(block, key@) =~= lo@ + hi@);
        data[i] = lo[0];
        data[i + 1] = lo[1];
        data[i + 2] = lo[2];
        data[i + 3] = lo[3];
        data[i + 4] = hi[0];
        data[i + 5] = hi[1];
        data[i + 6] = hi[2];
        data[i + 7] = hi[3];
        proof {
            assert forall|j: int| i <= j < i + TEA_BLOCK_LEN implies data@[j] == tea_decrypted(
                old(data)@,
                key@,
            )[j] by {
                assert(block_start(j) == i);
                assert(j % (TEA_BLOCK_LEN as int) == j - i);
            }
        }
        i = i + TEA_BLOCK_LEN;
    }
    proof {
        assert forall|j: int| i <= j < len implies data@[j] == tea_decrypted(old(data)@, key@)[j] by {
            assert(block_start(j) >= i);
        }
        assert(data@ =~= tea_decrypted(old(data)@, key@));
    }
}

} // verus!
