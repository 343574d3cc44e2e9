use crate::error::ConvertError;
use aes::cipher::generic_array::GenericArray;
use aes::cipher::{BlockDecrypt, BlockEncrypt, KeyInit};
use aes::Aes256;
use sha2::{Digest, Sha256};
use vstd::prelude::*;

verus! {

/// What AES-256 encryption under `key` makes of the 16-byte block `block`.
pub uninterp spec fn aes256_encrypt_block_spec(key: Seq<u8>, block: Seq<u8>) -> Seq<u8>;

/// What AES-256 decryption under `key` makes of the 16-byte block `block`.
pub uninterp spec fn aes256_decrypt_block_spec(key: Seq<u8>, block: Seq<u8>) -> Seq<u8>;

/// The SHA-256 digest of `data`.
pub uninterp spec fn sha256_spec(data: Seq<u8>) -> Seq<u8>;

/// Encrypts one block with `aes::Aes256` (`KeyInit::new`, then
/// `BlockEncrypt::encrypt_block`). Claimed: the result is the 16-byte AES-256
/// encryption of `block` under `key`, a function of the two alone, and
/// AES-256 decryption under the same key gives `block` back (AES is a block
/// cipher: a permutation of 16-byte blocks whose inverse is decryption).
#[verifier::external_body]
fn aes256_encrypt_block(key: &[u8; 32], block: &[u8]) -> (res: Vec<u8>)
    requires
        block@.len() == 16,
    ensures
        res@ == aes256_encrypt_block_spec(key@, block@),
        res@.len() == 16,
        aes256_decrypt_block_spec(key@, res@) == block@,
{
    let cipher = Aes256::new(GenericArray::from_slice(key));
    let mut buffer = GenericArray::clone_from_slice(block);
    cipher.encrypt_block(&mut buffer);
    buffer.to_vec()
}

/// Decrypts one block with `aes::Aes256` (`KeyInit::new`, then
/// `BlockDecrypt::decrypt_block`). Claimed: the result is the 16-byte AES-256
/// decryption of `block` under `key`, a function of the two alone, and
/// AES-256 encryption under the same key gives `block` back (AES is a
/// permutation of 16-byte blocks; decryption is its inverse).
#[verifier::external_body]
fn aes256_decrypt_block(key: &[u8; 32], block: &[u8]) -> (res: Vec<u8>)
    requires
        block@.len() == 16,
    ensures
        res@ == aes256_decrypt_block_spec(key@, block@),
        res@.len() == 16,
        aes256_encrypt_block_spec(key@, res@) == block@,
{
    let cipher = Aes256::new(GenericArray::from_slice(key));
    let mut buffer = GenericArray::clone_from_slice(block);
    cipher.decrypt_block(&mut buffer);
    buffer.to_vec()
}

/// Hashes `data` with `sha2::Sha256::digest`. Claimed: the result is the
/// 32-byte SHA-256 digest of `data`, a function of `data` alone.
#[verifier::external_body]
fn sha256_digest(data: &[u8]) -> (res: Vec<u8>)
    ensures
        res@ == sha256_spec(data@),
        res@.len() == 32,
{
    Sha256::digest(data).to_vec()
}

/// The lower-case hexadecimal digit for a nibble.
pub open spec fn hex_digit_lower(n: int) -> char {
    if n < 10 {
        (n + 48) as char
    } else {
        (n + 87) as char
    }
}

/// `data` written as lower-case hexadecimal, two digits per byte, high nibble first.
pub open spec fn hex_lower(data: Seq<u8>) -> Seq<char> {
    Seq::new(
        2 * data.len(),
        |i: int|
            if i % 2 == 0 {
                hex_digit_lower(data[i / 2] as int / 16)
            } else {
                hex_digit_lower(data[i / 2] as int % 16)
            },
    )
}

/// Encodes bytes with `hex::encode`. Claimed, as the crate documents and its
/// source (`BytesToHexChars` over the lower-case table) shows: two lower-case
/// digits per byte, high nibble first.
#[verifier::external_body]
fn hex_encode(data: &[u8]) -> (res: String)
    ensures
        res@ == hex_lower(data@),
{
    hex::encode(data)
}

/// The SHA-256 digest of `data` as lower-case hexadecimal.
pub fn sha256_hex(data: &[u8]) -> (res: String)
    ensures
        res@ == hex_lower(sha256_spec(data@)),
{
    let digest = sha256_digest(data);
    hex_encode(digest.as_slice())
}

/// AES-256 applied to one block in the chosen direction.
pub open spec fn aes_block(key: Seq<u8>, block: Seq<u8>, encrypt: bool) -> Seq<u8> {
    if encrypt {
        aes256_encrypt_block_spec(key, block)
    } else {
        aes256_decrypt_block_spec(key, block)
    }
}

/// AES-256 in ECB mode: byte `i` of the result is byte `i % 16` of what the
/// cipher makes of input block `i / 16`.
pub open spec fn ecb(key: Seq<u8>, data: Seq<u8>, encrypt: bool) -> Seq<u8> {
    Seq::new(
        data.len(),
        |i: int| aes_block(key, data.subrange(i - i % 16, i - i % 16 + 16), encrypt)[i % 16],
    )
}

/// The first block of an ECB transform is the transform of the first block.
pub(crate) proof fn lemma_ecb_first_block(key: Seq<u8>, data: Seq<u8>, encrypt: bool)
    requires
        data.len() >= 16,
    ensures
        ecb(key, data.take(16), encrypt) == ecb(key, data, encrypt).subrange(0, 16),
{
    let first = ecb(key, data.take(16), encrypt);
    let whole = ecb(key, data, encrypt);
    assert(data.take(16).subrange(0, 16) =~= data.subrange(0, 16));
    assert forall|i: int| 0 <= i < 16 implies #[trigger] first[i] == whole[i] by {
        assert(i % 16 == i);
    }
    assert(first =~= whole.subrange(0, 16));
}

/// The last block of an ECB transform of whole blocks is the transform of the last block.
pub(crate) proof fn lemma_ecb_last_block(key: Seq<u8>, data: Seq<u8>, encrypt: bool)
    requires
        data.len() >= 16,
        data.len() % 16 == 0,
    ensures
        ecb(key, data.skip(data.len() - 16), encrypt) == ecb(key, data, encrypt).subrange(data.len() - 16, data.len() as int),
{
    let n = data.len() as int;
    let last = ecb(key, data.skip(n - 16), encrypt);
    let whole = ecb(key, data, encrypt);
    assert(data.skip(n - 16).subrange(0, 16) =~= data.subrange(n - 16, n));
    assert forall|i: int| 0 <= i < 16 implies #[trigger] last[i] == whole[n - 16 + i] by {
        assert(i % 16 == i);
        assert((n - 16 + i) % 16 == i);
        assert((n - 16 + i) - i == n - 16);
    }
    assert(last =~= whole.subrange(n - 16, n));
}

/// Encrypts or decrypts `data` block by block (AES-256-ECB); fails when the
/// input is not a whole number of blocks. Transforming the result the other
/// way under the same key gives `data` back.
pub fn aes_ecb(data: &[u8], key: &[u8; 32], encrypt: bool) -> (res: Result<Vec<u8>, ConvertError>)
    ensures
        data@.len() % 16 == 0 ==> (res matches Ok(v) && v@ == ecb(key@, data@, encrypt)),
        data@.len() % 16 == 0 ==> (res matches Ok(v) && ecb(key@, v@, !encrypt) == data@),
        data@.len() % 16 != 0 ==> res == Err::<Vec<u8>, ConvertError>(ConvertError::AesUnaligned),
{
    if data.len() % 16 != 0 {
        return Err(ConvertError::AesUnaligned);
    }
    let mut output: Vec<u8> = Vec::with_capacity(data.len());
    let mut start: usize = 0;
    while start < data.len()
        invariant
            data@.len() % 16 == 0,
            start % 16 == 0,
            start <= data@.len(),
            output@.len() == start,
            forall|i: int| 0 <= i < start ==> output@[i] == #[trigger] ecb(key@, data@, encrypt)[i],
            forall|i: int| 0 <= i < start ==> aes_block(key@, output@.subrange(i - i % 16, i - i % 16 + 16), !encrypt)[i % 16] == #[trigger] data@[i],
        decreases data@.len() - start,
    {
        let block = &data[start..start + 16];
        let transformed = if encrypt {
            aes256_encrypt_block(key, block)
        } else {
            aes256_decrypt_block(key, block)
        };
        assert(block@ =~= data@.subrange(start as int, start + 16));
        let ghost before = output@;
        output.extend_from_slice(transformed.as_slice());
        assert forall|i: int| 0 <= i < start + 16 implies output@[i] == #[trigger] ecb(key@, data@, encrypt)[i] by {
            if i >= start {
                assert(i - i % 16 == start);
                assert(output@[i] == transformed@[i - start]);
            } else {
                assert(output@[i] == before[i]);
            }
        }
        assert(output@.subrange(start as int, start + 16) =~= transformed@);
        assert forall|i: int| 0 <= i < start + 16 implies aes_block(key@, output@.subrange(i - i % 16, i - i % 16 + 16), !encrypt)[i % 16] == #[trigger] data@[i] by {
            if i >= start {
                assert(i - i % 16 == start);
                assert(block@[i - start] == data@[i]);
            } else {
                assert(output@.subrange(i - i % 16, i - i % 16 + 16) =~= before.subrange(i - i % 16, i - i % 16 + 16));
            }
        }
        start = start + 16;
    }
    assert(output@ =~= ecb(key@, data@, encrypt));
    assert(ecb(key@, output@, !encrypt) =~= data@);
    Ok(output)
}

} // verus!
