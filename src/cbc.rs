//! AES-128 in cipher block chaining mode, with PKCS#7 padding.

use crate::block::{
    aes128_decrypt, aes128_encrypt, decrypt_block, encrypt_block, lemma_xor_block_cancel,
    push_block, read_block, xor_block, xor_blocks,
};
use vstd::prelude::*;

verus! {

/// Why a ciphertext could not be decrypted.
#[derive(Clone, Copy, Debug, PartialEq, Eq, Structural)]
pub enum CbcError {
    /// The ciphertext is empty or not a whole number of blocks.
    InvalidLength,
    /// The decrypted bytes do not end in well-formed PKCS#7 padding.
    InvalidPadding,
}

/// `p` followed by `n` bytes of value `n`, where `n` (1 to 16) brings the
/// length up to the next multiple of 16.
pub open spec fn pkcs7_pad(p: Seq<u8>) -> Seq<u8> {
    let n = 16 - p.len() % 16;
    p + Seq::new(n as nat, |_i: int| n as u8)
}

/// `b` ends in `n` bytes of value `n`, for some `n` from 1 to 16.
pub open spec fn has_valid_padding(b: Seq<u8>) -> bool {
    &&& b.len() > 0
    &&& 1 <= b.last() <= 16
    &&& b.last() <= b.len()
    &&& forall|i: int| b.len() - b.last() <= i < b.len() ==> b[i] == b.last()
}

/// `b` without the padding that its last byte announces.
pub open spec fn pkcs7_unpad(b: Seq<u8>) -> Seq<u8> {
    b.subrange(0, b.len() - b.last())
}

/// CBC encryption of whole blocks: each block is xored with the previous
/// ciphertext block (`prev` for the first) and then encrypted.
pub open spec fn cbc_encrypt_blocks(key: Seq<u8>, prev: Seq<u8>, p: Seq<u8>) -> Seq<u8>
    decreases p.len(),
{
    if p.len() < 16 {
        Seq::empty()
    } else {
        let c = aes128_encrypt(key, xor_block(p.subrange(0, 16), prev));
        c + cbc_encrypt_blocks(key, c, p.subrange(16, p.len() as int))
    }
}

/// CBC decryption of whole blocks: each block is decrypted and then xored
/// with the previous ciphertext block (`prev` for the first).
pub open spec fn cbc_decrypt_blocks(key: Seq<u8>, prev: Seq<u8>, c: Seq<u8>) -> Seq<u8>
    decreases c.len(),
{
    if c.len() < 16 {
        Seq::empty()
    } else {
        let head = c.subrange(0, 16);
        xor_block(aes128_decrypt(key, head), prev) + cbc_decrypt_blocks(
            key,
            head,
            c.subrange(16, c.len() as int),
        )
    }
}

/// The ciphertext of `p` under `key` and `iv`: padded, then chained.
pub open spec fn cbc_encrypt(key: Seq<u8>, iv: Seq<u8>, p: Seq<u8>) -> Seq<u8> {
    cbc_encrypt_blocks(key, iv, pkcs7_pad(p))
}

/// The plaintext of `c` under `key` and `iv`, or why there is none.
pub open spec fn cbc_decrypt(key: Seq<u8>, iv: Seq<u8>, c: Seq<u8>) -> Result<Seq<u8>, CbcError> {
    if c.len() == 0 || c.len() % 16 != 0 {
        Err(CbcError::InvalidLength)
    } else {
        let raw = cbc_decrypt_blocks(key, iv, c);
        if has_valid_padding(raw) {
            Ok(pkcs7_unpad(raw))
        } else {
            Err(CbcError::InvalidPadding)
        }
    }
}

/// Every block encrypted along the chain of `p` from `prev` comes back
/// under decryption, and is a full block.
pub open spec fn chain_inverts(key: Seq<u8>, prev: Seq<u8>, p: Seq<u8>) -> bool
    decreases p.len(),
{
    if p.len() < 16 {
        true
    } else {
        let x = xor_block(p.subrange(0, 16), prev);
        let c = aes128_encrypt(key, x);
        &&& c.len() == 16
        &&& aes128_decrypt(key, c) == x
        &&& chain_inverts(key, c, p.subrange(16, p.len() as int))
    }
}

/// Where the block cipher inverts along the chain, decryption undoes
/// encryption of whole blocks.
pub proof fn lemma_cbc_blocks_round_trip(key: Seq<u8>, prev: Seq<u8>, p: Seq<u8>)
    requires
        p.len() % 16 == 0,
        chain_inverts(key, prev, p),
    ensures
        cbc_decrypt_blocks(key, prev, cbc_encrypt_blocks(key, prev, p)) == p,
    decreases p.len(),
{
    if p.len() >= 16 {
        let head = p.subrange(0, 16);
        let tail = p.subrange(16, p.len() as int);
        let x = xor_block(head, prev);
        let c = aes128_encrypt(key, x);
        let rest = cbc_encrypt_blocks(key, c, tail);
        lemma_cbc_blocks_round_trip(key, c, tail);
        let e = c + rest;
        assert(e.subrange(0, 16) =~= c);
        assert(e.subrange(16, e.len() as int) =~= rest);
        lemma_xor_block_cancel(head, prev);
        assert(p =~= head + tail);
    } else {
        assert(p =~= Seq::<u8>::empty());
    }
}

/// Padding is always well formed, and removing it gives the input back.
pub proof fn lemma_pad_unpad(p: Seq<u8>)
    ensures
        has_valid_padding(pkcs7_pad(p)),
        pkcs7_unpad(pkcs7_pad(p)) == p,
        pkcs7_pad(p).len() == p.len() + (16 - p.len() % 16),
        pkcs7_pad(p).len() % 16 == 0,
{
    let b = pkcs7_pad(p);
    assert(b.last() == (16 - p.len() % 16) as u8);
    assert(pkcs7_unpad(b) =~= p);
}

/// Decryption undoes encryption, under the same key and IV, for every
/// plaintext, wherever the block cipher inverts each block it encrypted
/// along the chain; `Aes128CBC::encrypt` establishes that for its output.
pub proof fn lemma_cbc_round_trip(key: Seq<u8>, iv: Seq<u8>, p: Seq<u8>)
    requires
        chain_inverts(key, iv, pkcs7_pad(p)),
    ensures
        cbc_decrypt(key, iv, cbc_encrypt(key, iv, p)) == Ok::<Seq<u8>, CbcError>(p),
{
    let padded = pkcs7_pad(p);
    lemma_pad_unpad(p);
    lemma_cbc_blocks_round_trip(key, iv, padded);
    lemma_cbc_encrypt_blocks_len(key, iv, padded);
}

/// Where every encrypted block is a full block, encryption of whole blocks
/// keeps the length.
pub proof fn lemma_cbc_encrypt_blocks_len(key: Seq<u8>, prev: Seq<u8>, p: Seq<u8>)
    requires
        p.len() % 16 == 0,
        chain_inverts(key, prev, p),
    ensures
        cbc_encrypt_blocks(key, prev, p).len() == p.len(),
    decreases p.len(),
{
    if p.len() >= 16 {
        let c = aes128_encrypt(key, xor_block(p.subrange(0, 16), prev));
        lemma_cbc_encrypt_blocks_len(key, c, p.subrange(16, p.len() as int));
    }
}

/// The ciphertext depends on the key, the IV and the plaintext alone: two
/// engines with the same key and IV, or one engine used twice, give the
/// same bytes.
pub proof fn lemma_cbc_deterministic(a: Aes128CBC, b: Aes128CBC, p: Seq<u8>)
    requires
        a.key() == b.key(),
        a.iv() == b.iv(),
    ensures
        cbc_encrypt(a.key(), a.iv(), p) == cbc_encrypt(b.key(), b.iv(), p),
        cbc_decrypt(a.key(), a.iv(), p) == cbc_decrypt(b.key(), b.iv(), p),
{
}

/// AES-128 in CBC mode with PKCS#7 padding, under one key and one IV.
pub struct Aes128CBC {
    key: [u8; 16],
    iv: [u8; 16],
}

impl Aes128CBC {
    /// The key that the engine encrypts under.
    pub closed spec fn key(&self) -> Seq<u8> {
        self.key@
    }

    /// The initialization vector that seeds the chain.
    pub closed spec fn iv(&self) -> Seq<u8> {
        self.iv@
    }

    pub fn new(key: &[u8; 16], iv: &[u8; 16]) -> (r: Self)
        ensures
            r.key() == key@,
            r.iv() == iv@,
    {
        Aes128CBC { key: *key, iv: *iv }
    }

    pub fn set_key(&mut self, key: &[u8; 16])
        ensures
            final(self).key() == key@,
            final(self).iv() == old(self).iv(),
    {
        self.key = *key;
    }

    pub fn set_iv(&mut self, iv: &[u8; 16])
        ensures
            final(self).key() == old(self).key(),
            final(self).iv() == iv@,
    {
        self.iv = *iv;
    }

    /// `plain_text` followed by its PKCS#7 padding.
    fn apply_pkcs5_padding(plain_text: &[u8]) -> (r: Vec<u8>)
        requires
            plain_text@.len() + 16 <= usize::MAX,
        ensures
            r@ == pkcs7_pad(plain_text@),
    {
        let n: usize = 16 - plain_text.len() % 16;
        let mut r: Vec<u8> = Vec::new();
        let mut i: usize = 0;
        while i < plain_text.len()
            invariant
                i <= plain_text@.len(),
                r@ == plain_text@.subrange(0, i as int),
            decreases plain_text@.len() - i,
        {
            r.push(plain_text[i]);
            i += 1;
            assert(r@ =~= plain_text@.subrange(0, i as int));
        }
        let mut j: usize = 0;
        while j < n
            invariant
                1 <= n <= 16,
                n == 16 - plain_text@.len() % 16,
                j <= n,
                r@ == plain_text@ + Seq::new(j as nat, |_i: int| n as u8),
            decreases n - j,
        {
            r.push(n as u8);
            j += 1;
            assert(r@ =~= plain_text@ + Seq::new(j as nat, |_i: int| n as u8));
        }
        r
    }

    /// Encrypts `plain_text` after padding it; the ciphertext is always
    /// between 1 and 16 bytes longer, and decrypts back to `plain_text`.
    pub fn encrypt(&self, plain_text: &[u8]) -> (r: Vec<u8>)
        requires
            plain_text@.len() + 16 <= usize::MAX,
        ensures
            r@ == cbc_encrypt(self.key(), self.iv(), plain_text@),
            r@.len() == plain_text@.len() + (16 - plain_text@.len() % 16),
            cbc_decrypt(self.key(), self.iv(), r@) == Ok::<Seq<u8>, CbcError>(plain_text@),
    {
        let padded = Self::apply_pkcs5_padding(plain_text);
        proof {
            lemma_pad_unpad(plain_text@);
        }
        let r = self.encrypt_blocks(padded.as_slice());
        proof {
            lemma_cbc_blocks_round_trip(self.key(), self.iv(), padded@);
        }
        r
    }

    /// Chains whole blocks through the cipher, starting from the IV.
    fn encrypt_blocks(&self, blocks: &[u8]) -> (r: Vec<u8>)
        requires
            blocks@.len() % 16 == 0,
        ensures
            r@ == cbc_encrypt_blocks(self.key(), self.iv(), blocks@),
            r@.len() == blocks@.len(),
            chain_inverts(self.key(), self.iv(), blocks@),
    {
        let ghost key = self.key();
        let ghost all = blocks@;
        let mut prev: [u8; 16] = self.iv;
        let mut out: Vec<u8> = Vec::new();
        let mut i: usize = 0;
        proof {
            assert(all.subrange(0, all.len() as int) =~= all);
        }
        while i < blocks.len()
            invariant
                key == self.key@,
                all == blocks@,
                all.len() % 16 == 0,
                i % 16 == 0,
                i <= all.len(),
                out@.len() == i,
                out@ + cbc_encrypt_blocks(key, prev@, all.subrange(i as int, all.len() as int))
                    == cbc_encrypt_blocks(key, self.iv@, all),
                chain_inverts(key, prev@, all.subrange(i as int, all.len() as int))
                    ==> chain_inverts(key, self.iv@, all),
            decreases all.len() - i,
        {
            let ghost rest = all.subrange(i as int, all.len() as int);
            let ghost old_prev = prev@;
            let ghost old_out = out@;
            let b = read_block(blocks, i);
            let x = xor_blocks(&b, &prev);
            let c = encrypt_block(&self.key, &x);
            push_block(&mut out, &c);
            prev = c;
            i += 16;
            proof {
                assert(rest.subrange(0, 16) =~= b@);
                assert(rest.subrange(16, rest.len() as int) =~= all.subrange(
                    i as int,
                    all.len() as int,
                ));
                assert(old_out + (c@ + cbc_encrypt_blocks(key, c@, all.subrange(i as int, all.len() as int)))
                    =~= out@ + cbc_encrypt_blocks(key, c@, all.subrange(i as int, all.len() as int)));
            }
        }
        proof {
            assert(all.subrange(i as int, all.len() as int) =~= Seq::<u8>::empty());
            assert(out@ + Seq::<u8>::empty() =~= out@);
        }
        out
    }

    /// Decrypts `cipher_text` and removes its padding.
    pub fn decrypt(&self, cipher_text: &[u8]) -> (r: Result<Vec<u8>, CbcError>)
        ensures
            match r {
                Ok(v) => cbc_decrypt(self.key(), self.iv(), cipher_text@) == Ok::<
                    Seq<u8>,
                    CbcError,
                >(v@),
                Err(e) => cbc_decrypt(self.key(), self.iv(), cipher_text@) == Err::<
                    Seq<u8>,
                    CbcError,
                >(e),
            },
    {
        if cipher_text.len() == 0 || cipher_text.len() % 16 != 0 {
            return Err(CbcError::InvalidLength);
        }
        let raw = self.decrypt_blocks(cipher_text);
        Self::remove_pkcs5_padding(raw)
    }

    /// Undoes the chain over whole blocks, starting from the IV.
    fn decrypt_blocks(&self, blocks: &[u8]) -> (r: Vec<u8>)
        requires
            blocks@.len() % 16 == 0,
        ensures
            r@ == cbc_decrypt_blocks(self.key(), self.iv(), blocks@),
    {
        let ghost key = self.key();
        let ghost all = blocks@;
        let mut prev: [u8; 16] = self.iv;
        let mut out: Vec<u8> = Vec::new();
        let mut i: usize = 0;
        proof {
            assert(all.subrange(0, all.len() as int) =~= all);
        }
        while i < blocks.len()
            invariant
                key == self.key@,
                all == blocks@,
                all.len() % 16 == 0,
                i % 16 == 0,
                i <= all.len(),
                out@ + cbc_decrypt_blocks(key, prev@, all.subrange(i as int, all.len() as int))
                    == cbc_decrypt_blocks(key, self.iv@, all),
            decreases all.len() - i,
        {
            let ghost rest = all.subrange(i as int, all.len() as int);
            let ghost old_out = out@;
            let saved = read_block(blocks, i);
            let d = decrypt_block(&self.key, &saved);
            let x = xor_blocks(&d, &prev);
            push_block(&mut out, &x);
            prev = saved;
            i += 16;
            proof {
                assert(rest.subrange(0, 16) =~= saved@);
                assert(rest.subrange(16, rest.len() as int) =~= all.subrange(
                    i as int,
                    all.len() as int,
                ));
                assert(old_out + (x@ + cbc_decrypt_blocks(key, saved@, all.subrange(i as int, all.len() as int)))
                    =~= out@ + cbc_decrypt_blocks(key, saved@, all.subrange(i as int, all.len() as int)));
            }
        }
        proof {
            assert(all.subrange(i as int, all.len() as int) =~= Seq::<u8>::empty());
            assert(out@ + Seq::<u8>::empty() =~= out@);
        }
        out
    }

    /// Checks that `raw` ends in well-formed padding and strips it.
    fn remove_pkcs5_padding(raw: Vec<u8>) -> (r: Result<Vec<u8>, CbcError>)
        ensures
            match r {
                Ok(v) => has_valid_padding(raw@) && v@ == pkcs7_unpad(raw@),
                Err(e) => !has_valid_padding(raw@) && e == CbcError::InvalidPadding,
            },
    {
        let len = raw.len();
        if len == 0 {
            return Err(CbcError::InvalidPadding);
        }
        let p = raw[len - 1];
        if p == 0 || p > 16 || p as usize > len {
            return Err(CbcError::InvalidPadding);
        }
        let start: usize = len - p as usize;
        let mut i: usize = start;
        while i < len
            invariant
                len == raw@.len(),
                start <= i <= len,
                p == raw@.last(),
                start == len - p,
                forall|j: int| start <= j < i ==> raw@[j] == p,
            decreases len - i,
        {
            if raw[i] != p {
                return Err(CbcError::InvalidPadding);
            }
            i += 1;
        }
        let mut v = raw;
        v.truncate(start);
        assert(v@ =~= pkcs7_unpad(raw@));
        Ok(v)
    }
}

} // verus!
