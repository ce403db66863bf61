//! Encryption of whole cipher blocks with AES-256.

use aes::cipher::{BlockDecrypt, BlockEncrypt, KeyInit};
use crate::error::Error;
use crate::variant::PakVariant;
use vstd::prelude::*;

verus! {

/// The key of an archive, if there is one.
pub type Key = Option<[u8; 32]>;

/// What AES-256 makes of a block of sixteen bytes under a key of 32 bytes.
pub uninterp spec fn aes256_encrypted(key: Seq<u8>, block: Seq<u8>) -> Seq<u8>;

/// The block that AES-256 turns into this one.
pub uninterp spec fn aes256_decrypted(key: Seq<u8>, block: Seq<u8>) -> Seq<u8>;

/// `aes::Aes256::encrypt_block` (of `aes::cipher::BlockEncrypt`): encrypts a block of sixteen
/// bytes. Decrypting the result under the same key gives the block back. The result depends on
/// key and block alone; the cipher itself is not stated.
#[verifier::external_body]
fn aes256_encrypt_block(key: &[u8; 32], block: &mut [u8])
    requires
        old(block)@.len() == 16,
    ensures
        final(block)@ == aes256_encrypted(key@, old(block)@),
        final(block)@.len() == 16,
        aes256_decrypted(key@, final(block)@) == old(block)@,
{
    aes::Aes256::new(key.into()).encrypt_block(aes::Block::from_mut_slice(block))
}

/// `aes::Aes256::decrypt_block` (of `aes::cipher::BlockDecrypt`): decrypts a block of sixteen
/// bytes. The result depends on key and block alone.
#[verifier::external_body]
fn aes256_decrypt_block(key: &[u8; 32], block: &mut [u8])
    requires
        old(block)@.len() == 16,
    ensures
        final(block)@ == aes256_decrypted(key@, old(block)@),
        final(block)@.len() == 16,
{
    aes::Aes256::new(key.into()).decrypt_block(aes::Block::from_mut_slice(block))
}

/// A block with each of its words of four bytes reversed.
pub open spec fn words_reversed(s: Seq<u8>) -> Seq<u8> {
    Seq::new(s.len(), |i: int| s[i / 4 * 4 + 3 - i % 4])
}

proof fn lemma_words_reversed_twice(s: Seq<u8>)
    requires
        s.len() == 16,
    ensures
        words_reversed(words_reversed(s)) == s,
{
    assert(words_reversed(words_reversed(s)) =~= s);
}

pub open spec fn in_word_order(variant: PakVariant, s: Seq<u8>) -> Seq<u8> {
    if variant.reverse_word_order() {
        words_reversed(s)
    } else {
        s
    }
}

/// A block as the variant encrypts it.
pub open spec fn block_encrypted(variant: PakVariant, key: Seq<u8>, s: Seq<u8>) -> Seq<u8> {
    in_word_order(variant, aes256_encrypted(key, in_word_order(variant, s)))
}

pub open spec fn block_decrypted(variant: PakVariant, key: Seq<u8>, s: Seq<u8>) -> Seq<u8> {
    in_word_order(variant, aes256_decrypted(key, in_word_order(variant, s)))
}

/// The cipher block in which the byte at `i` lies.
pub open spec fn block_around(s: Seq<u8>, i: int) -> Seq<u8> {
    s.subrange(i / 16 * 16, i / 16 * 16 + 16)
}

/// Full cipher blocks, each encrypted on its own.
pub open spec fn encrypted(variant: PakVariant, key: Seq<u8>, s: Seq<u8>) -> Seq<u8> {
    Seq::new(s.len(), |i: int| block_encrypted(variant, key, block_around(s, i))[i % 16])
}

pub open spec fn decrypted(variant: PakVariant, key: Seq<u8>, s: Seq<u8>) -> Seq<u8> {
    Seq::new(s.len(), |i: int| block_decrypted(variant, key, block_around(s, i))[i % 16])
}

/// Reverses each word of a block.
pub fn reverse_words(chunk: &mut [u8])
    requires
        old(chunk)@.len() == 16,
    ensures
        final(chunk)@ == words_reversed(old(chunk)@),
{
    let ghost s = chunk@;
    let mut w: usize = 0;
    while w < 16
        invariant
            w <= 16,
            w % 4 == 0,
            s.len() == 16,
            chunk@.len() == 16,
            forall|i: int| 0 <= i < w ==> chunk@[i] == words_reversed(s)[i],
            forall|i: int| w <= i < 16 ==> chunk@[i] == s[i],
        decreases 16 - w,
    {
        let outer: u8 = chunk[w];
        let inner: u8 = chunk[w + 1];
        chunk[w] = chunk[w + 3];
        chunk[w + 1] = chunk[w + 2];
        chunk[w + 2] = inner;
        chunk[w + 3] = outer;
        w += 4;
    }
    assert(chunk@ =~= words_reversed(s));
}

/// Encrypts one block, in the word order of the variant.
pub fn encrypt_block(variant: PakVariant, key: &[u8; 32], chunk: &mut [u8])
    requires
        old(chunk)@.len() == 16,
    ensures
        final(chunk)@ == block_encrypted(variant, key@, old(chunk)@),
        final(chunk)@.len() == 16,
        block_decrypted(variant, key@, final(chunk)@) == old(chunk)@,
{
    proof {
        lemma_words_reversed_twice(chunk@);
    }
    if variant.reverse_word_order() {
        reverse_words(chunk);
    }
    aes256_encrypt_block(key, chunk);
    proof {
        lemma_words_reversed_twice(chunk@);
    }
    if variant.reverse_word_order() {
        reverse_words(chunk);
    }
}

fn decrypt_block(variant: PakVariant, key: &[u8; 32], chunk: &mut [u8])
    requires
        old(chunk)@.len() == 16,
    ensures
        final(chunk)@ == block_decrypted(variant, key@, old(chunk)@),
        final(chunk)@.len() == 16,
{
    if variant.reverse_word_order() {
        reverse_words(chunk);
    }
    aes256_decrypt_block(key, chunk);
    if variant.reverse_word_order() {
        reverse_words(chunk);
    }
}

/// Encrypts full cipher blocks. Decrypting gives back what was there.
pub fn encrypt(variant: PakVariant, key: &[u8; 32], bytes: &mut [u8])
    requires
        old(bytes)@.len() % 16 == 0,
    ensures
        final(bytes)@ == encrypted(variant, key@, old(bytes)@),
        decrypted(variant, key@, final(bytes)@) == old(bytes)@,
{
    let ghost s = bytes@;
    let ghost done = encrypted(variant, key@, s);
    let n: usize = bytes.len();
    let mut at: usize = 0;
    while at < n
        invariant
            at <= n == s.len(),
            n % 16 == 0,
            at % 16 == 0,
            done == encrypted(variant, key@, s),
            bytes@ == done.take(at as int) + s.skip(at as int),
            decrypted(variant, key@, bytes@).take(at as int) == s.take(at as int),
        decreases n - at,
    {
        let ghost before = bytes@;
        let (_, rest) = bytes.split_at_mut(at);
        let (chunk, _) = rest.split_at_mut(16);
        let ghost plain = chunk@;
        assert(plain =~= s.subrange(at as int, at + 16));
        encrypt_block(variant, key, chunk);
        let ghost coded = chunk@;
        proof {
            assert(bytes@ =~= before.take(at as int) + coded + before.skip(at + 16));
            assert forall|i: int| at <= i < at + 16 implies bytes@[i] == done[i] by {
                assert(block_around(s, i) =~= plain);
            }
            assert(bytes@ =~= done.take(at + 16) + s.skip(at + 16));
            let back = decrypted(variant, key@, bytes@);
            assert forall|i: int| 0 <= i < at + 16 implies back[i] == s[i] by {
                if i < at {
                    assert(block_around(bytes@, i) =~= block_around(before, i));
                    assert(back[i] == decrypted(variant, key@, before).take(at as int)[i]);
                } else {
                    assert(block_around(bytes@, i) =~= coded);
                }
            }
            assert(back.take(at + 16) =~= s.take(at + 16));
        }
        at += 16;
    }
    assert(bytes@ =~= done);
    let ghost back = decrypted(variant, key@, bytes@);
    assert(back.take(at as int) =~= back && s.take(at as int) =~= s);
}

/// Decrypts full cipher blocks, if there is a key.
pub fn decrypt(variant: PakVariant, key: &Key, bytes: &mut [u8]) -> (r: Result<(), Error>)
    requires
        *key is Some ==> old(bytes)@.len() % 16 == 0,
    ensures
        match *key {
            Some(k) => r is Ok && final(bytes)@ == decrypted(variant, k@, old(bytes)@),
            None => r == Err::<(), Error>(Error::Encrypted) && final(bytes)@ == old(bytes)@,
        },
{
    let key = match key {
        Some(key) => key,
        None => return Err(Error::Encrypted),
    };
    let ghost s = bytes@;
    let ghost done = decrypted(variant, key@, s);
    let n: usize = bytes.len();
    let mut at: usize = 0;
    while at < n
        invariant
            at <= n == s.len(),
            n % 16 == 0,
            at % 16 == 0,
            done == decrypted(variant, key@, s),
            bytes@ == done.take(at as int) + s.skip(at as int),
        decreases n - at,
    {
        let ghost before = bytes@;
        let (_, rest) = bytes.split_at_mut(at);
        let (chunk, _) = rest.split_at_mut(16);
        let ghost coded = chunk@;
        assert(coded =~= s.subrange(at as int, at + 16));
        decrypt_block(variant, key, chunk);
        let ghost plain = chunk@;
        proof {
            assert(bytes@ =~= before.take(at as int) + plain + before.skip(at + 16));
            assert forall|i: int| at <= i < at + 16 implies bytes@[i] == done[i] by {
                assert(block_around(s, i) =~= coded);
            }
            assert(bytes@ =~= done.take(at + 16) + s.skip(at + 16));
        }
        at += 16;
    }
    assert(bytes@ =~= done);
    Ok(())
}

/// Each word of four bytes is reversed in its place.
pub proof fn law_words_reversed(s: Seq<u8>, word: int)
    requires
        s.len() == 16,
        0 <= word < 4,
    ensures
        words_reversed(s).len() == 16,
        words_reversed(s)[4 * word] == s[4 * word + 3],
        words_reversed(s)[4 * word + 1] == s[4 * word + 2],
        words_reversed(s)[4 * word + 2] == s[4 * word + 1],
        words_reversed(s)[4 * word + 3] == s[4 * word],
{
}

/// Each block of sixteen bytes is encrypted and decrypted on its own: in the standard variant by
/// the cipher alone, otherwise with the words reversed before and after.
pub proof fn law_blocks_on_their_own(key: Seq<u8>, s: Seq<u8>, b: int, i: int)
    requires
        s.len() % 16 == 0,
        0 <= 16 * b < s.len(),
        0 <= i < 16,
    ensures
        ({
            let block = s.subrange(16 * b, 16 * b + 16);
            let turned = words_reversed(block);
            &&& encrypted(PakVariant::Standard, key, s).len() == s.len()
            &&& decrypted(PakVariant::Standard, key, s).len() == s.len()
            &&& encrypted(PakVariant::Standard, key, s)[16 * b + i] == aes256_encrypted(
                key,
                block,
            )[i]
            &&& decrypted(PakVariant::Standard, key, s)[16 * b + i] == aes256_decrypted(
                key,
                block,
            )[i]
            &&& encrypted(PakVariant::MarvelRivals, key, s)[16 * b + i] == words_reversed(
                aes256_encrypted(key, turned),
            )[i]
            &&& decrypted(PakVariant::MarvelRivals, key, s)[16 * b + i] == words_reversed(
                aes256_decrypted(key, turned),
            )[i]
        }),
{
    assert((16 * b + i) / 16 == b && (16 * b + i) % 16 == i);
    assert(block_around(s, 16 * b + i) =~= s.subrange(16 * b, 16 * b + 16));
}

} // verus!
