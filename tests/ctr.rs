use aes::cipher::generic_array::GenericArray;
use aes::cipher::{BlockEncrypt, KeyInit};
use aes::Aes128;
use aes_modes::Aes128CTR;

const KEY: [u8; 16] = [
    0x01, 0x23, 0x45, 0x67, 0x89, 0xab, 0xcd, 0xef, 0x01, 0x23, 0x45, 0x67, 0x89, 0xab, 0xcd, 0xef,
];
const IV: [u8; 16] = [
    0x00, 0x00, 0x11, 0x11, 0x22, 0x22, 0x33, 0x33, 0x44, 0x44, 0x55, 0x55, 0x66, 0x66, 0x77, 0x77,
];

fn input_data() -> Vec<Vec<u8>> {
    vec![
        KEY.to_vec(),
        "".as_bytes().to_vec(),
        "a".as_bytes().to_vec(),
        "It's dangerous to go alone, take this!".as_bytes().to_vec(),
    ]
}

fn aes_block(key: &[u8; 16], block: [u8; 16]) -> [u8; 16] {
    let cipher = Aes128::new(&GenericArray::from(*key));
    let mut b = GenericArray::from(block);
    cipher.encrypt_block(&mut b);
    b.into()
}

#[test]
fn test_ctr() {
    let aes_ctr = Aes128CTR::new(&KEY, &IV);
    for input in input_data() {
        let cipher_text = aes_ctr.decrypt(&input);
        let decrypted_text = aes_ctr.encrypt(&cipher_text);
        assert_eq!(input, decrypted_text);
    }
}

#[test]
fn ctr_single_byte() {
    let aes_ctr = Aes128CTR::new(&KEY, &IV);
    let out = aes_ctr.encrypt(b"a");
    let ks = aes_block(&KEY, IV);
    assert_eq!(out, vec![ks[0] ^ 0x61]);
}

#[test]
fn ctr_empty_input() {
    let aes_ctr = Aes128CTR::new(&KEY, &IV);
    assert_eq!(aes_ctr.encrypt(&[]), Vec::<u8>::new());
    assert_eq!(aes_ctr.decrypt(&[]), Vec::<u8>::new());
}

#[test]
fn ctr_second_block_uses_next_counter() {
    let aes_ctr = Aes128CTR::new(&KEY, &IV);
    let data = [0u8; 17];
    let out = aes_ctr.encrypt(&data);
    let mut expected = aes_block(&KEY, IV).to_vec();
    let mut next = IV;
    next[15] = 0x78;
    expected.push(aes_block(&KEY, next)[0]);
    assert_eq!(out, expected);
}

#[test]
fn ctr_counter_wraps() {
    let mut iv = [0xffu8; 16];
    iv[0] = 0x12;
    let aes_ctr = Aes128CTR::new(&KEY, &iv);
    let out = aes_ctr.encrypt(&[0u8; 32]);
    let mut expected = aes_block(&KEY, iv).to_vec();
    let mut wrapped = [0u8; 16];
    wrapped[..8].copy_from_slice(&iv[..8]);
    expected.extend_from_slice(&aes_block(&KEY, wrapped));
    assert_eq!(out, expected);
}

#[test]
fn ctr_lengths_and_round_trip() {
    let aes_ctr = Aes128CTR::new(&KEY, &IV);
    for n in 0..50usize {
        let d: Vec<u8> = (0..n).map(|i| i as u8).collect();
        let e = aes_ctr.encrypt(&d);
        assert_eq!(e.len(), n);
        assert_eq!(aes_ctr.decrypt(&e), d);
        assert_eq!(aes_ctr.encrypt(&aes_ctr.decrypt(&d)), d);
    }
}

#[test]
fn ctr_deterministic_across_calls() {
    let a = Aes128CTR::new(&KEY, &IV);
    let b = Aes128CTR::new(&KEY, &IV);
    let d = "It's dangerous to go alone, take this!".as_bytes();
    let first = a.encrypt(d);
    assert_eq!(first, a.encrypt(d));
    assert_eq!(first, b.encrypt(d));
    assert_ne!(first, d.to_vec());
}

#[test]
fn ctr_set_key_and_iv() {
    let mut e = Aes128CTR::new(&[0u8; 16], &[0u8; 16]);
    let before = e.encrypt(b"hello");
    e.set_key(&KEY);
    e.set_iv(&IV);
    let after = e.encrypt(b"hello");
    assert_ne!(before, after);
    assert_eq!(after, Aes128CTR::new(&KEY, &IV).encrypt(b"hello"));
}
