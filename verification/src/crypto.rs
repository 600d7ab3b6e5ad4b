//! Cryptographic primitives and randomness.
//!
//! Every item here that carries `#[verifier::external_body]` is a trusted
//! wrapper around an outside crate (`ring`, `aes_gcm`, `rand`,
//! `rand_chacha`) or `std`; its contract states only what that crate's
//! source or documentation shows.  Everything else in the crate is verified
//! against these contracts.

use vstd::prelude::*;

use aes_gcm::aead::{AeadInPlace, KeyInit};
use aes_gcm::{Aes128Gcm, Nonce};
use rand::seq::SliceRandom;
use rand::{Rng, RngCore, SeedableRng};
use rand_chacha::ChaCha20Rng;
use ring::{digest, hkdf};

use crate::constants::{NONCE_SIZE, TAG_SIZE};
use crate::error::MycoError;
use crate::utils::{pad_message, pad_spec};

verus! {

/// Which padded length an encryption targets.
#[derive(Debug, Clone, Copy)]
pub enum EncryptionType {
    /// Single encryption: pad the plaintext to `MESSAGE_SIZE`.
    Encrypt,
    /// Double encryption: pad the (already encrypted) plaintext to
    /// `INNER_BLOCK_SIZE`.
    DoubleEncrypt,
}

/// The padded length an encryption mode targets.
pub open spec fn enc_target(t: EncryptionType) -> int {
    match t {
        EncryptionType::Encrypt => crate::constants::MESSAGE_SIZE as int,
        EncryptionType::DoubleEncrypt => crate::constants::INNER_BLOCK_SIZE as int,
    }
}

/// The 16 bytes that the key-derivation function returns for a key and a
/// label.  Stated only by this name: same inputs, same output, everywhere.
pub uninterp spec fn kdf_of(key: Seq<u8>, label: Seq<char>) -> Seq<u8>;

/// The 32 bytes that the pseudorandom function returns for a key and an
/// input.
pub uninterp spec fn prf_of(key: Seq<u8>, input: Seq<u8>) -> Seq<u8>;

/// What decrypting a ciphertext under a key yields: the plaintext, or
/// `None` when the key is wrong, the input is malformed, or authentication
/// fails.  Decryption is a pure function of key and ciphertext.
pub uninterp spec fn dec_of(key: Seq<u8>, ciphertext: Seq<u8>) -> Option<Seq<u8>>;

/// Derives a 16-byte key from an input key and a label.
///
/// Relies on `ring`'s HKDF-SHA256 (fixed salt `SHA-256("MC-OSAM-Salt")`,
/// info = the label's UTF-8 bytes, output truncated to 16 bytes): the
/// result is a deterministic function of key and label, and `expand` /
/// `fill` fail only for outputs longer than 255 hash blocks, which 32
/// bytes never is.
#[verifier::external_body]
pub fn kdf(key: &[u8], input: &str) -> (r: Result<Vec<u8>, MycoError>)
    ensures
        r is Ok,
        r matches Ok(v) ==> v@ == kdf_of(key@, input@) && v@.len() == 16,
{
    let salt = digest::digest(&digest::SHA256, b"MC-OSAM-Salt");
    let prk = hkdf::Salt::new(hkdf::HKDF_SHA256, salt.as_ref()).extract(key);
    let binding = [input.as_bytes()];
    let okm = prk.expand(&binding, hkdf::HKDF_SHA256).map_err(|_| MycoError::HkdfExpansionFailed)?;
    let mut result = vec![0u8; 32];
    okm.fill(&mut result).map_err(|_| MycoError::HkdfFillFailed)?;
    Ok(result[..16].to_vec())
}

/// Produces 32 pseudorandom bytes from a key and an input.
///
/// Relies on `ring`'s HKDF-SHA256 exactly as [`kdf`] does, with the raw
/// input bytes as info and the full 32-byte output kept.
#[verifier::external_body]
pub fn prf(key: &[u8], input: &[u8]) -> (r: Result<Vec<u8>, MycoError>)
    ensures
        r is Ok,
        r matches Ok(v) ==> v@ == prf_of(key@, input@) && v@.len() == 32,
{
    let salt = digest::digest(&digest::SHA256, b"MC-OSAM-Salt");
    let prk = hkdf::Salt::new(hkdf::HKDF_SHA256, salt.as_ref()).extract(key);
    let binding = [input];
    let okm = prk.expand(&binding, hkdf::HKDF_SHA256).map_err(|_| MycoError::HkdfExpansionFailed)?;
    let mut result = vec![0u8; 32];
    okm.fill(&mut result).map_err(|_| MycoError::HkdfFillFailed)?;
    Ok(result)
}

/// Seals a plaintext under AES-128-GCM with a fresh random 12-byte nonce
/// prepended.
///
/// Relies on `aes_gcm`: `new_from_slice` fails exactly when the key is not
/// 16 bytes; `encrypt_in_place` cannot fail for in-memory plaintexts; and
/// decrypting the produced `nonce ∥ ciphertext ∥ tag` under the same key
/// yields the plaintext (the AEAD round-trip its documentation promises).
/// The nonce comes from `rand::thread_rng`, so the ciphertext itself is
/// not a function of the arguments and is described only through
/// [`dec_of`].
#[verifier::external_body]
fn aead_encrypt(key: &[u8], plaintext: &[u8]) -> (r: Result<Vec<u8>, MycoError>)
    requires
        plaintext@.len() <= 0x1_0000_0000,
    ensures
        r is Err ==> key@.len() != 16,
        r is Ok ==> key@.len() == 16,
        r matches Ok(ct) ==> {
            &&& ct@.len() == NONCE_SIZE + plaintext@.len() + TAG_SIZE
            &&& dec_of(key@, ct@) == Some(plaintext@)
        },
        r matches Err(e) ==> e == MycoError::EncryptionFailed,
{
    let cipher = Aes128Gcm::new_from_slice(key).map_err(|_| MycoError::EncryptionFailed)?;
    let nonce_bytes = rand::thread_rng().gen::<[u8; 12]>();
    let nonce = Nonce::from_slice(&nonce_bytes);
    let mut buffer = Vec::from(plaintext);
    cipher.encrypt_in_place(nonce, b"", &mut buffer).map_err(|_| MycoError::EncryptionFailed)?;
    Ok([nonce.as_slice(), buffer.as_slice()].concat())
}

/// Encrypts a message, zero-padded to the mode's target length, under
/// AES-128-GCM with a fresh random 12-byte nonce prepended.
pub fn encrypt(key: &[u8], message: &[u8], encryption_type: EncryptionType) -> (r: Result<
    Vec<u8>,
    MycoError,
>)
    requires
        message@.len() <= 0x1_0000_0000,
    ensures
        r is Err ==> key@.len() != 16,
        r is Ok ==> key@.len() == 16,
        r matches Ok(ct) ==> {
            &&& ct@.len() == NONCE_SIZE + pad_spec(message@, enc_target(encryption_type)).len()
                + TAG_SIZE
            &&& dec_of(key@, ct@) == Some(pad_spec(message@, enc_target(encryption_type)))
        },
        r matches Err(e) ==> e == MycoError::EncryptionFailed,
{
    let padding_size: usize = match encryption_type {
        EncryptionType::Encrypt => crate::constants::MESSAGE_SIZE,
        EncryptionType::DoubleEncrypt => crate::constants::INNER_BLOCK_SIZE,
    };
    let padded: Vec<u8> = pad_message(message, padding_size);
    aead_encrypt(key, padded.as_slice())
}

/// Decrypts a `nonce ∥ ciphertext ∥ tag` bundle under AES-128-GCM.
///
/// Relies on `aes_gcm`: decryption is deterministic in key and input;
/// `new_from_slice` fails exactly when the key is not 16 bytes; an input
/// shorter than the 12-byte nonce is rejected; and a successful result is
/// the input minus nonce and tag.  Failure is a value, never a panic: it is
/// the normal branch when a block does not belong to the caller's key.
#[verifier::external_body]
pub fn decrypt(key: &[u8], ciphertext: &[u8]) -> (r: Result<Vec<u8>, MycoError>)
    ensures
        r matches Ok(m) ==> dec_of(key@, ciphertext@) == Some(m@),
        r is Err ==> dec_of(key@, ciphertext@) is None,
        r is Ok ==> ciphertext@.len() >= NONCE_SIZE,
        r is Ok ==> key@.len() == 16,
        r matches Ok(m) ==> m@.len() + NONCE_SIZE + TAG_SIZE == ciphertext@.len(),
        r matches Err(e) ==> e == MycoError::NoMessageFound,
{
    if ciphertext.len() < 12 {
        return Err(MycoError::NoMessageFound);
    }
    let cipher = Aes128Gcm::new_from_slice(key).map_err(|_| MycoError::NoMessageFound)?;
    let (nonce, rest) = ciphertext.split_at(12);
    let nonce = Nonce::from_slice(nonce);
    let mut buffer = Vec::from(rest);
    cipher.decrypt_in_place(nonce, b"", &mut buffer).map_err(|_| MycoError::NoMessageFound)?;
    Ok(buffer)
}

/// `n` uniformly random bytes.
///
/// Relies on `rand_chacha`'s `ChaCha20Rng::from_entropy` and `fill_bytes`;
/// nothing is promised of the values, only the length.
#[verifier::external_body]
pub fn random_bytes(n: usize) -> (r: Vec<u8>)
    ensures
        r@.len() == n,
{
    let mut rng = ChaCha20Rng::from_entropy();
    let mut bytes = vec![0u8; n];
    rng.fill_bytes(&mut bytes);
    bytes
}

/// The index permutation that a seeded shuffle of `n` elements applies:
/// position `i` of the result holds the element from position
/// `perm_of(seed, n)[i]` of the input.
pub uninterp spec fn perm_of(seed: Seq<u8>, n: nat) -> Seq<int>;

/// Whether `p` is a permutation of the positions `0 .. n`.
pub open spec fn perm_valid(p: Seq<int>, n: nat) -> bool {
    &&& p.len() == n
    &&& forall|i: int| 0 <= i < p.len() ==> 0 <= #[trigger] p[i] < n
    &&& forall|i: int, j: int| 0 <= i < j < p.len() ==> p[i] != p[j]
}

/// `s` rearranged by `p`: position `i` holds `s[p[i]]`.
pub open spec fn apply_perm<T>(s: Seq<T>, p: Seq<int>) -> Seq<T> {
    Seq::new(p.len(), |i: int| s[p[i]])
}

/// Equal-length lists rearranged by one valid permutation stay aligned:
/// each output position holds a pair drawn from one shared input position.
pub proof fn lemma_perm_aligned<A, B>(a: Seq<A>, b: Seq<B>, p: Seq<int>)
    requires
        a.len() == b.len(),
        perm_valid(p, a.len()),
    ensures
        apply_perm(a, p).len() == a.len(),
        apply_perm(b, p).len() == b.len(),
        forall|i: int|
            #![trigger p[i]]
            0 <= i < a.len() ==> 0 <= p[i] < a.len() && apply_perm(a, p)[i] == a[p[i]]
                && apply_perm(b, p)[i] == b[p[i]],
{
}

/// Permutes `v` in place by the permutation that the 32-byte seed
/// determines.
///
/// Relies on `rand`'s `SliceRandom::shuffle` (an in-place Fisher–Yates, so
/// the result holds exactly the old elements, rearranged by a sequence of
/// swaps) driven by `rand_chacha`'s `ChaCha20Rng::from_seed`, which is
/// deterministic in the seed: the permutation applied is a function of the
/// seed and the length alone, so two equal-length vectors shuffled with
/// the same seed are permuted the same way.
#[verifier::external_body]
pub fn shuffle_seeded<T>(v: &mut Vec<T>, seed: &Vec<u8>)
    requires
        seed@.len() == 32,
    ensures
        final(v)@.to_multiset() == old(v)@.to_multiset(),
        final(v)@ == apply_perm(old(v)@, perm_of(seed@, old(v)@.len())) && perm_valid(
            perm_of(seed@, old(v)@.len()),
            old(v)@.len(),
        ),
{
    let mut seed_arr = [0u8; 32];
    seed_arr.copy_from_slice(seed);
    let mut rng = ChaCha20Rng::from_seed(seed_arr);
    v.shuffle(&mut rng);
}

/// The decimal digits of `n`, most significant first.
pub open spec fn dec_chars(n: nat) -> Seq<char>
    decreases n,
{
    if n < 10 {
        seq![dec_digit(n)]
    } else {
        dec_chars(n / 10).push(dec_digit(n % 10))
    }
}

/// The character for one decimal digit.
pub open spec fn dec_digit(d: nat) -> char {
    if d == 0 {
        '0'
    } else if d == 1 {
        '1'
    } else if d == 2 {
        '2'
    } else if d == 3 {
        '3'
    } else if d == 4 {
        '4'
    } else if d == 5 {
        '5'
    } else if d == 6 {
        '6'
    } else if d == 7 {
        '7'
    } else if d == 8 {
        '8'
    } else {
        '9'
    }
}

/// Renders `n` in decimal.
///
/// Relies on `std`'s `u64::to_string`, whose documentation promises the
/// base-10 digits with no sign and no leading zeros.
#[verifier::external_body]
pub fn decimal_string(n: u64) -> (r: String)
    ensures
        r@ == dec_chars(n as nat),
{
    n.to_string()
}

/// The big-endian bytes of a 64-bit integer: byte `i` holds bits
/// `56 - 8i` and up.
pub open spec fn be_byte(n: u64, i: int) -> u8 {
    ((n >> (8 * (7 - i)) as u64) & 0xff) as u8
}

/// The eight big-endian bytes of `n`.
pub open spec fn be_bytes_of(n: u64) -> Seq<u8> {
    Seq::new(8, |i: int| be_byte(n, i))
}

/// Writes `n` as eight big-endian bytes.
pub fn u64_be_bytes(n: u64) -> (r: Vec<u8>)
    ensures
        r@ == be_bytes_of(n),
{
    proof {
        lemma_masked_byte_bound(n);
    }
    let mut r: Vec<u8> = Vec::new();
    r.push(((n >> 56) & 0xff) as u8);
    r.push(((n >> 48) & 0xff) as u8);
    r.push(((n >> 40) & 0xff) as u8);
    r.push(((n >> 32) & 0xff) as u8);
    r.push(((n >> 24) & 0xff) as u8);
    r.push(((n >> 16) & 0xff) as u8);
    r.push(((n >> 8) & 0xff) as u8);
    r.push((n & 0xff) as u8);
    assert(r@ =~= be_bytes_of(n)) by {
        assert(n & 0xff == (n >> 0) & 0xff) by (bit_vector);
    }
    r
}

/// Any shifted-and-masked byte of `n` fits in eight bits.
proof fn lemma_masked_byte_bound(n: u64)
    ensures
        forall|s: u64| ((n >> s) & 0xff) < 256,
{
    assert forall|s: u64| ((n >> s) & 0xff) < 256 by {
        assert((n >> s) & 0xff < 256) by (bit_vector);
    }
}

} // verus!
