//! AES-128 in counter mode.

use crate::block::{aes128_encrypt, encrypt_block, lemma_xor_u8_cancel};
use vstd::prelude::*;

verus! {

/// 256 to the power `n`.
pub open spec fn radix(n: nat) -> nat
    decreases n,
{
    if n == 0 {
        1
    } else {
        256 * radix((n - 1) as nat)
    }
}

/// The unsigned integer whose big-endian bytes are `s`.
pub open spec fn be_value(s: Seq<u8>) -> nat
    decreases s.len(),
{
    if s.len() == 0 {
        0
    } else {
        be_value(s.drop_last()) * 256 + s.last() as nat
    }
}

/// The eight big-endian bytes of `v`.
pub open spec fn be_bytes(v: u64) -> Seq<u8> {
    Seq::new(8, |j: int| (v >> ((56 - 8 * j) as u64)) as u8)
}

/// The counter of block `i`: the last eight bytes of the IV read as a
/// big-endian integer, plus `i`, modulo 2^64.
pub open spec fn counter_value(iv: Seq<u8>, i: nat) -> u64 {
    ((be_value(iv.subrange(8, 16)) + i) % 0x1_0000_0000_0000_0000) as u64
}

/// The input to the cipher for block `i`: the nonce (the first eight bytes
/// of the IV) followed by the block's counter.
pub open spec fn counter_block(iv: Seq<u8>, i: nat) -> Seq<u8> {
    iv.subrange(0, 8) + be_bytes(counter_value(iv, i))
}

/// Byte `j` of the keystream.
pub open spec fn keystream_byte(key: Seq<u8>, iv: Seq<u8>, j: int) -> u8 {
    aes128_encrypt(key, counter_block(iv, (j / 16) as nat))[j % 16]
}

/// CTR transform of `d`: each byte xored with the matching keystream byte.
pub open spec fn ctr_apply(key: Seq<u8>, iv: Seq<u8>, d: Seq<u8>) -> Seq<u8> {
    Seq::new(d.len(), |j: int| d[j] ^ keystream_byte(key, iv, j))
}

/// The CTR transform is its own inverse: applying it twice under the same
/// key and IV gives the input back.
pub proof fn lemma_ctr_self_inverse(key: Seq<u8>, iv: Seq<u8>, d: Seq<u8>)
    ensures
        ctr_apply(key, iv, ctr_apply(key, iv, d)) == d,
{
    let twice = ctr_apply(key, iv, ctr_apply(key, iv, d));
    assert forall|j: int| 0 <= j < d.len() implies twice[j] == d[j] by {
        lemma_xor_u8_cancel(d[j], keystream_byte(key, iv, j));
    }
    assert(twice =~= d);
}

/// The CTR transform keeps the length of its input.
pub proof fn lemma_ctr_length(key: Seq<u8>, iv: Seq<u8>, d: Seq<u8>)
    ensures
        ctr_apply(key, iv, d).len() == d.len(),
{
}

/// The output depends on the key, the IV and the input alone: two engines
/// with the same key and IV, or one engine used twice, give the same bytes.
pub proof fn lemma_ctr_deterministic(a: Aes128CTR, b: Aes128CTR, d: Seq<u8>)
    requires
        a.key() == b.key(),
        a.iv() == b.iv(),
    ensures
        ctr_apply(a.key(), a.iv(), d) == ctr_apply(b.key(), b.iv(), d),
{
}

proof fn lemma_block_index(b: int, t: int)
    requires
        0 <= b,
        0 <= t < 16,
    ensures
        (16 * b + t) / 16 == b,
        (16 * b + t) % 16 == t,
{
    assert((16 * b + t) / 16 == b) by (nonlinear_arith)
        requires
            0 <= b,
            0 <= t < 16,
    ;
    assert((16 * b + t) % 16 == t) by (nonlinear_arith)
        requires
            0 <= b,
            0 <= t < 16,
    ;
}

proof fn lemma_radix_step(v: nat, b: nat, n: nat)
    requires
        v < radix(n),
        b < 256,
    ensures
        v * 256 + b < radix(n + 1),
{
    let r = radix(n);
    assert(radix(n + 1) == 256 * r);
    assert(v * 256 + b < 256 * r) by (nonlinear_arith)
        requires
            v < r,
            b < 256,
    ;
}

/// AES-128 in CTR mode, under one key and one IV.
pub struct Aes128CTR {
    key: [u8; 16],
    iv: [u8; 16],
}

impl Aes128CTR {
    /// The key that the keystream is generated under.
    pub closed spec fn key(&self) -> Seq<u8> {
        self.key@
    }

    /// The nonce (first eight bytes) and initial counter (last eight).
    pub closed spec fn iv(&self) -> Seq<u8> {
        self.iv@
    }

    pub fn new(key: &[u8; 16], iv: &[u8; 16]) -> (r: Self)
        ensures
            r.key() == key@,
            r.iv() == iv@,
    {
        Aes128CTR { key: *key, iv: *iv }
    }

    pub fn set_key(&mut self, key: &[u8; 16])
        ensures
            final(self).key() == key@,
            final(self).iv() == old(self).iv(),
    {
        self.key = *key;
    }

    pub fn set_iv(&mut self, iv: &[u8; 16])
        ensures
            final(self).key() == old(self).key(),
            final(self).iv() == iv@,
    {
        self.iv = *iv;
    }

    /// The counter of the first block, read big-endian from the IV.
    fn initial_counter(&self) -> (r: u64)
        ensures
            r == counter_value(self.iv(), 0),
    {
        let ghost s = self.iv@.subrange(8, 16);
        let mut v: u64 = 0;
        let mut j: usize = 0;
        assert(radix(0) == 1);
        while j < 8
            invariant
                j <= 8,
                s == self.iv@.subrange(8, 16),
                v as nat == be_value(s.subrange(0, j as int)),
                v < radix(j as nat),
            decreases 8 - j,
        {
            let b = self.iv[8 + j];
            proof {
                lemma_radix_step(v as nat, b as nat, j as nat);
                lemma_radix_eight();
                lemma_radix_monotone((j + 1) as nat, 8);
                assert(s.subrange(0, j + 1).drop_last() =~= s.subrange(0, j as int));
            }
            v = v * 256 + b as u64;
            j += 1;
        }
        assert(s.subrange(0, 8) =~= s);
        v
    }

    /// The nonce of the IV followed by the big-endian bytes of `ctr`.
    fn counter_block(&self, ctr: u64) -> (r: [u8; 16])
        ensures
            r@ == self.iv@.subrange(0, 8) + be_bytes(ctr),
    {
        let mut r: [u8; 16] = [0u8; 16];
        let mut j: usize = 0;
        while j < 8
            invariant
                j <= 8,
                r@.len() == 16,
                forall|m: int| 0 <= m < j ==> r@[m] == self.iv@[m],
            decreases 8 - j,
        {
            r[j] = self.iv[j];
            j += 1;
        }
        while j < 16
            invariant
                8 <= j <= 16,
                r@.len() == 16,
                forall|m: int| 0 <= m < 8 ==> r@[m] == self.iv@[m],
                forall|m: int| 8 <= m < j ==> r@[m] == (ctr >> ((56 - 8 * (m - 8)) as u64)) as u8,
            decreases 16 - j,
        {
            r[j] = (ctr >> ((56 - 8 * (j - 8)) as u64)) as u8;
            j += 1;
        }
        assert(r@ =~= self.iv@.subrange(0, 8) + be_bytes(ctr));
        r
    }

    /// Xors `data` with the keystream of this key and IV; the output has the
    /// length of the input.
    pub fn encrypt(&self, cipher_text: &[u8]) -> (r: Vec<u8>)
        ensures
            r@ == ctr_apply(self.key(), self.iv(), cipher_text@),
            r@.len() == cipher_text@.len(),
    {
        let ghost key = self.key();
        let ghost iv = self.iv();
        let ghost d = cipher_text@;
        let len = cipher_text.len();
        let mut out: Vec<u8> = Vec::new();
        let mut ctr = self.initial_counter();
        let mut pos: usize = 0;
        let ghost mut blk: nat = 0;
        while pos < len
            invariant
                key == self.key@,
                iv == self.iv@,
                d == cipher_text@,
                len == d.len(),
                pos <= len,
                pos < len ==> pos == 16 * blk,
                ctr == counter_value(iv, blk),
                out@.len() == pos,
                forall|m: int| 0 <= m < pos ==> out@[m] == d[m] ^ keystream_byte(key, iv, m),
            decreases len - pos,
        {
            let cb = self.counter_block(ctr);
            let ks = encrypt_block(&self.key, &cb);
            let take: usize = if len - pos < 16 { len - pos } else { 16 };
            let mut t: usize = 0;
            while t < take
                invariant
                    key == self.key@,
                    iv == self.iv@,
                    d == cipher_text@,
                    len == d.len(),
                    take <= 16,
                    pos + take <= len,
                    pos == 16 * blk,
                    ks@ == aes128_encrypt(key, counter_block(iv, blk)),
                    t <= take,
                    out@.len() == pos + t,
                    forall|m: int| 0 <= m < pos + t ==> out@[m] == d[m] ^ keystream_byte(key, iv, m),
                decreases take - t,
            {
                proof {
                    lemma_block_index(blk as int, t as int);
                }
                out.push(cipher_text[pos + t] ^ ks[t]);
                t += 1;
            }
            pos += take;
            proof {
                lemma_counter_next(iv, blk);
                blk = blk + 1;
            }
            ctr = ctr.wrapping_add(1);
        }
        assert(out@ =~= ctr_apply(key, iv, d));
        out
    }

    /// The same transform as `encrypt`: counter mode is its own inverse.
    pub fn decrypt(&self, plain_text: &[u8]) -> (r: Vec<u8>)
        ensures
            r@ == ctr_apply(self.key(), self.iv(), plain_text@),
            r@.len() == plain_text@.len(),
    {
        self.encrypt(plain_text)
    }
}

proof fn lemma_radix_eight()
    ensures
        radix(8) == 0x1_0000_0000_0000_0000,
{
    assert(radix(0) == 1);
    assert(radix(1) == 256);
    assert(radix(2) == 0x1_0000);
    assert(radix(3) == 0x100_0000);
    assert(radix(4) == 0x1_0000_0000);
    assert(radix(5) == 0x100_0000_0000);
    assert(radix(6) == 0x1_0000_0000_0000);
    assert(radix(7) == 0x100_0000_0000_0000);
}

proof fn lemma_radix_monotone(a: nat, b: nat)
    requires
        a <= b,
    ensures
        radix(a) <= radix(b),
    decreases b - a,
{
    if a < b {
        lemma_radix_monotone(a, (b - 1) as nat);
    }
}

proof fn lemma_counter_next(iv: Seq<u8>, i: nat)
    ensures
        counter_value(iv, i + 1) == (counter_value(iv, i) as u64).wrapping_add(1),
{
    let c = be_value(iv.subrange(8, 16));
    assert(((c + i + 1) % 0x1_0000_0000_0000_0000) == if (c + i) % 0x1_0000_0000_0000_0000
        == 0xffff_ffff_ffff_ffff {
        0
    } else {
        (c + i) % 0x1_0000_0000_0000_0000 + 1
    });
}

} // verus!
