use repak::{Error, Key, PakVariant};
use repak::cipher::{decrypt, encrypt, encrypt_block, reverse_words};

fn key() -> [u8; 32] {
    let mut key = [0u8; 32];
    for i in 0..32 {
        key[i] = i as u8;
    }
    key
}

fn plain() -> [u8; 16] {
    [
        0x00, 0x11, 0x22, 0x33, 0x44, 0x55, 0x66, 0x77, 0x88, 0x99, 0xaa, 0xbb, 0xcc, 0xdd, 0xee,
        0xff,
    ]
}

// the AES-256 example of FIPS 197
fn coded() -> [u8; 16] {
    [
        0x8e, 0xa2, 0xb7, 0xca, 0x51, 0x67, 0x45, 0xbf, 0xea, 0xfc, 0x49, 0x90, 0x4b, 0x49, 0x60,
        0x89,
    ]
}

fn reversed(block: [u8; 16]) -> [u8; 16] {
    let mut block = block;
    for word in block.chunks_mut(4) {
        word.reverse();
    }
    block
}

#[test]
fn a_block_is_encrypted_with_aes_256() {
    let mut block = plain();
    encrypt_block(PakVariant::Standard, &key(), &mut block);
    assert_eq!(block, coded());
    decrypt(PakVariant::Standard, &Key::Some(key()), &mut block).unwrap();
    assert_eq!(block, plain());
}

#[test]
fn a_variant_reverses_the_words_before_and_after() {
    let mut block = reversed(plain());
    encrypt_block(PakVariant::MarvelRivals, &key(), &mut block);
    assert_eq!(block, reversed(coded()));
    decrypt(PakVariant::MarvelRivals, &Key::Some(key()), &mut block).unwrap();
    assert_eq!(block, reversed(plain()));
}

#[test]
fn each_block_is_encrypted_on_its_own_and_decrypting_undoes_it() {
    for variant in [PakVariant::Standard, PakVariant::MarvelRivals] {
        let original: Vec<u8> = (0..160u32).map(|i| (i * 7 % 251) as u8).collect();
        let mut bytes = original.clone();
        encrypt(variant, &key(), &mut bytes);
        for i in 0..10 {
            let mut block = original[16 * i..16 * i + 16].to_vec();
            encrypt_block(variant, &key(), &mut block);
            assert_eq!(&bytes[16 * i..16 * i + 16], &block[..]);
        }
        assert_ne!(bytes, original);
        decrypt(variant, &Key::Some(key()), &mut bytes).unwrap();
        assert_eq!(bytes, original);
    }
}

#[test]
fn nothing_is_decrypted_without_a_key() {
    let mut bytes = vec![1, 2, 3];
    let r = decrypt(PakVariant::Standard, &Key::None, &mut bytes);
    assert!(matches!(r, Err(Error::Encrypted)));
    assert_eq!(bytes, [1, 2, 3]);
    let mut empty: Vec<u8> = vec![];
    encrypt(PakVariant::MarvelRivals, &key(), &mut empty);
    assert!(empty.is_empty());
}

#[test]
fn the_words_of_a_block_are_reversed_one_by_one() {
    let mut block: Vec<u8> = (0..16).collect();
    reverse_words(&mut block);
    assert_eq!(block, [3, 2, 1, 0, 7, 6, 5, 4, 11, 10, 9, 8, 15, 14, 13, 12]);
}
