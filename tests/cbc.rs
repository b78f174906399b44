use aes::cipher::generic_array::GenericArray;
use aes::cipher::{BlockEncrypt, KeyInit};
use aes::Aes128;
use aes_modes::{Aes128CBC, CbcError};

const KEY: [u8; 16] = [
    0x01, 0x23, 0x45, 0x67, 0x89, 0xab, 0xcd, 0xef, 0x01, 0x23, 0x45, 0x67, 0x89, 0xab, 0xcd, 0xef,
];
const IV: [u8; 16] = [
    0x00, 0x00, 0x11, 0x11, 0x22, 0x22, 0x33, 0x33, 0x44, 0x44, 0x55, 0x55, 0x66, 0x66, 0x77, 0x77,
];

fn input_data() -> Vec<Vec<u8>> {
    vec![
        KEY.to_vec(),
        "".as_bytes().to_vec(),
        "a".as_bytes().to_vec(),
        "It's dangerous to go alone, take this!".as_bytes().to_vec(),
    ]
}

fn aes_block(key: &[u8; 16], block: [u8; 16]) -> [u8; 16] {
    let cipher = Aes128::new(&GenericArray::from(*key));
    let mut b = GenericArray::from(block);
    cipher.encrypt_block(&mut b);
    b.into()
}

fn xor(a: [u8; 16], b: [u8; 16]) -> [u8; 16] {
    let mut r = [0u8; 16];
    for i in 0..16 {
        r[i] = a[i] ^ b[i];
    }
    r
}

#[test]
fn test_cbc() {
    let aes_cbc = Aes128CBC::new(&KEY, &IV);
    for input in input_data() {
        let cipher_text = aes_cbc.encrypt(&input);
        let decrypted_text = aes_cbc.decrypt(&cipher_text).unwrap();
        assert_eq!(input, decrypted_text);
    }
}

#[test]
fn cbc_empty_plaintext_is_one_padding_block() {
    let aes_cbc = Aes128CBC::new(&KEY, &IV);
    let c = aes_cbc.encrypt(&[]);
    let expected = aes_block(&KEY, xor(IV, [0x10u8; 16]));
    assert_eq!(c, expected.to_vec());
    assert_eq!(aes_cbc.decrypt(&c), Ok(Vec::new()));
}

#[test]
fn cbc_two_blocks_chain() {
    let aes_cbc = Aes128CBC::new(&KEY, &IV);
    let p = [7u8; 16];
    let c = aes_cbc.encrypt(&p);
    let c0 = aes_block(&KEY, xor(IV, p));
    let c1 = aes_block(&KEY, xor(c0, [0x10u8; 16]));
    let mut expected = c0.to_vec();
    expected.extend_from_slice(&c1);
    assert_eq!(c, expected);
}

#[test]
fn cbc_padding_lengths() {
    let aes_cbc = Aes128CBC::new(&KEY, &IV);
    for n in 0..50usize {
        let p = vec![0xa5u8; n];
        let c = aes_cbc.encrypt(&p);
        assert_eq!(c.len(), n + (16 - n % 16));
        assert_eq!(aes_cbc.decrypt(&c), Ok(p));
    }
}

#[test]
fn cbc_deterministic_across_calls() {
    let a = Aes128CBC::new(&KEY, &IV);
    let b = Aes128CBC::new(&KEY, &IV);
    let p = "It's dangerous to go alone, take this!".as_bytes();
    let first = a.encrypt(p);
    let second = a.encrypt(p);
    assert_eq!(first, second);
    assert_eq!(first, b.encrypt(p));
}

#[test]
fn cbc_set_key_and_iv() {
    let mut e = Aes128CBC::new(&[0u8; 16], &[0u8; 16]);
    let before = e.encrypt(b"hello");
    e.set_key(&KEY);
    e.set_iv(&IV);
    let after = e.encrypt(b"hello");
    assert_ne!(before, after);
    assert_eq!(after, Aes128CBC::new(&KEY, &IV).encrypt(b"hello"));
}

#[test]
fn cbc_rejects_bad_lengths() {
    let aes_cbc = Aes128CBC::new(&KEY, &IV);
    assert_eq!(aes_cbc.decrypt(&[]), Err(CbcError::InvalidLength));
    assert_eq!(aes_cbc.decrypt(&[0u8; 15]), Err(CbcError::InvalidLength));
    assert_eq!(aes_cbc.decrypt(&[0u8; 17]), Err(CbcError::InvalidLength));
}

#[test]
fn cbc_rejects_zero_padding_byte() {
    let aes_cbc = Aes128CBC::new(&KEY, &IV);
    let c = aes_block(&KEY, xor(IV, [0u8; 16]));
    assert_eq!(aes_cbc.decrypt(&c), Err(CbcError::InvalidPadding));
}

#[test]
fn cbc_rejects_inconsistent_padding() {
    let aes_cbc = Aes128CBC::new(&KEY, &IV);
    let mut block = [0u8; 16];
    block[15] = 3;
    block[14] = 3;
    let c = aes_block(&KEY, xor(IV, block));
    assert_eq!(aes_cbc.decrypt(&c), Err(CbcError::InvalidPadding));
    block[13] = 3;
    let c = aes_block(&KEY, xor(IV, block));
    assert_eq!(aes_cbc.decrypt(&c), Ok(vec![0u8; 13]));
}

#[test]
fn cbc_rejects_padding_byte_over_sixteen() {
    let aes_cbc = Aes128CBC::new(&KEY, &IV);
    let c = aes_block(&KEY, xor(IV, [17u8; 16]));
    let mut two = c.to_vec();
    two.extend_from_slice(&aes_block(&KEY, xor(c, [17u8; 16])));
    assert_eq!(aes_cbc.decrypt(&two), Err(CbcError::InvalidPadding));
}
