//! The single-block primitive and the byte-level helpers both modes share.

use aes::cipher::{BlockDecrypt, BlockEncrypt, KeyInit};
use aes::cipher::generic_array::GenericArray;
use aes::Aes128;
use vstd::prelude::*;

verus! {

/// Size in bytes of a key, an IV and a block.
pub const BLOCK_SIZE: usize = 16;

/// AES-128 encryption of one 16-byte block under a 16-byte key.
pub uninterp spec fn aes128_encrypt(key: Seq<u8>, block: Seq<u8>) -> Seq<u8>;

/// AES-128 decryption of one 16-byte block under a 16-byte key.
pub uninterp spec fn aes128_decrypt(key: Seq<u8>, block: Seq<u8>) -> Seq<u8>;

/// Relies on `aes::Aes128`: `KeyInit::new` expands `key`, and
/// `BlockEncrypt::encrypt_block` then encrypts `block` under it.
/// AES is a permutation of blocks, and `BlockDecrypt::decrypt_block`
/// under the same key is its inverse.
#[verifier::external_body]
pub(crate) fn encrypt_block(key: &[u8; 16], block: &[u8; 16]) -> (r: [u8; 16])
    ensures
        r@ == aes128_encrypt(key@, block@),
        aes128_decrypt(key@, r@) == block@,
{
    let cipher = Aes128::new(&GenericArray::from(*key));
    let mut b = GenericArray::from(*block);
    cipher.encrypt_block(&mut b);
    b.into()
}

/// Relies on `aes::Aes128`: `KeyInit::new` expands `key`, and
/// `BlockDecrypt::decrypt_block` then decrypts `block` under it.
#[verifier::external_body]
pub(crate) fn decrypt_block(key: &[u8; 16], block: &[u8; 16]) -> (r: [u8; 16])
    ensures
        r@ == aes128_decrypt(key@, block@),
{
    let cipher = Aes128::new(&GenericArray::from(*key));
    let mut b = GenericArray::from(*block);
    cipher.decrypt_block(&mut b);
    b.into()
}

/// Byte-wise exclusive or of two blocks.
pub open spec fn xor_block(a: Seq<u8>, b: Seq<u8>) -> Seq<u8> {
    Seq::new(16, |i: int| a[i] ^ b[i])
}

/// The 16 bytes of `s` that start at `start`.
pub open spec fn block_at(s: Seq<u8>, start: int) -> Seq<u8> {
    s.subrange(start, start + 16)
}

pub proof fn lemma_xor_u8_cancel(a: u8, b: u8)
    ensures
        (a ^ b) ^ b == a,
{
    assert((a ^ b) ^ b == a) by (bit_vector);
}

/// Exclusive or undoes itself: xoring twice with the same block gives the
/// original bytes back.
pub proof fn lemma_xor_block_cancel(a: Seq<u8>, b: Seq<u8>)
    requires
        a.len() == 16,
    ensures
        xor_block(xor_block(a, b), b) == a,
{
    assert forall|i: int| 0 <= i < 16 implies xor_block(xor_block(a, b), b)[i] == a[i] by {
        lemma_xor_u8_cancel(a[i], b[i]);
    }
    assert(xor_block(xor_block(a, b), b) =~= a);
}

/// Byte-wise exclusive or of two blocks.
pub fn xor_blocks(a: &[u8; 16], b: &[u8; 16]) -> (r: [u8; 16])
    ensures
        r@ == xor_block(a@, b@),
{
    let mut r: [u8; 16] = [0u8; 16];
    let mut i: usize = 0;
    while i < 16
        invariant
            i <= 16,
            r@.len() == 16,
            forall|j: int| 0 <= j < i ==> r@[j] == a@[j] ^ b@[j],
        decreases 16 - i,
    {
        r[i] = a[i] ^ b[i];
        i += 1;
    }
    assert(r@ =~= xor_block(a@, b@));
    r
}

/// Copies the 16 bytes of `s` that start at `start` into a block.
pub fn read_block(s: &[u8], start: usize) -> (r: [u8; 16])
    requires
        start + 16 <= s.len(),
    ensures
        r@ == block_at(s@, start as int),
{
    let mut r: [u8; 16] = [0u8; 16];
    let mut i: usize = 0;
    while i < 16
        invariant
            i <= 16,
            start + 16 <= s.len(),
            r@.len() == 16,
            forall|j: int| 0 <= j < i ==> r@[j] == s@[start + j],
        decreases 16 - i,
    {
        r[i] = s[start + i];
        i += 1;
    }
    assert(r@ =~= block_at(s@, start as int));
    r
}

/// Appends the bytes of a block to `out`.
pub fn push_block(out: &mut Vec<u8>, b: &[u8; 16])
    ensures
        final(out)@ == old(out)@ + b@,
{
    let ghost start = out@;
    let mut i: usize = 0;
    while i < 16
        invariant
            i <= 16,
            out@ == start + b@.subrange(0, i as int),
        decreases 16 - i,
    {
        out.push(b[i]);
        i += 1;
        assert(out@ =~= start + b@.subrange(0, i as int));
    }
    assert(b@.subrange(0, 16) =~= b@);
}

} // verus!
