//! Sealing with XChaCha20-Poly1305 and keys from passwords with Argon2id.

use crate::error::VaultError;
use chacha20poly1305::aead::Aead;
use chacha20poly1305::KeyInit;
use rand::RngCore;
use vstd::prelude::*;
use zeroize::Zeroize;

verus! {

pub const NONCE_LEN: usize = 24;

pub const SALT_LEN: usize = 16;

pub const KEY_LEN: usize = 32;

/// What the cipher adds to the plain text.
pub const TAG_LEN: usize = 16;

/// The error of the cipher.
#[verifier::external_type_specification]
#[verifier::external_body]
pub struct ExCipherError(chacha20poly1305::Error);

/// The error of the key derivation.
#[verifier::external_type_specification]
#[verifier::external_body]
pub struct ExArgonError(argon2::Error);

/// The ciphertext with its tag that XChaCha20-Poly1305 makes of `plain`.
pub uninterp spec fn xchacha_sealed(key: Seq<u8>, nonce: Seq<u8>, plain: Seq<u8>) -> Seq<u8>;

/// The plain text of `sealed` if its tag is right under `key` and `nonce`.
pub uninterp spec fn xchacha_opened(key: Seq<u8>, nonce: Seq<u8>, sealed: Seq<u8>) -> Option<
    Seq<u8>,
>;

/// The 32 bytes that Argon2id with its default parameters makes of `password` and `salt`.
pub uninterp spec fn argon2id_key(password: Seq<u8>, salt: Seq<u8>) -> Seq<u8>;

/// The cipher takes plain texts of up to this many blocks of 64 bytes: its counter has 32 bits
/// and starts at 1.
pub open spec fn sealable(len: nat) -> bool {
    (len + 63) / 64 <= 0xffff_fffe
}

/// Whether the cipher takes a plain text of `len` bytes.
pub fn is_sealable(len: usize) -> (r: bool)
    ensures
        r == sealable(len as nat),
{
    let n: u64 = len as u64;
    let whole: u64 = n / 64;
    if n % 64 == 0 {
        whole <= 0xffff_fffe
    } else {
        whole < 0xffff_fffe
    }
}

/// The key derivation takes passwords and salts of these lengths.
pub open spec fn derivable(password_len: nat, salt_len: nat) -> bool {
    password_len <= 0xffff_ffff && 8 <= salt_len <= 0xffff_ffff
}

/// Calls `XChaCha20Poly1305::encrypt`. It succeeds on every plain text that the block counter
/// is enough for; what it makes is 16 bytes longer than the plain text, and `decrypt` under the
/// same key and nonce gives the plain text back.
#[verifier::external_body]
fn xchacha_encrypt(key: &[u8; 32], nonce: &[u8; 24], plain: &[u8]) -> (r: Result<
    Vec<u8>,
    chacha20poly1305::Error,
>)
    requires
        sealable(plain@.len()),
    ensures
        r is Ok,
        r matches Ok(out) ==> out@ == xchacha_sealed(key@, nonce@, plain@) && out@.len()
            == plain@.len() + 16 && xchacha_opened(key@, nonce@, out@) == Some(plain@),
{
    let cipher = chacha20poly1305::XChaCha20Poly1305::new(
        chacha20poly1305::Key::from_slice(key),
    );
    cipher.encrypt(chacha20poly1305::XNonce::from_slice(nonce), plain)
}

/// Calls `XChaCha20Poly1305::decrypt` on a text and a tag that the block counter is enough for;
/// its result is named by [`xchacha_opened`].
#[verifier::external_body]
fn xchacha_decrypt(key: &[u8; 32], nonce: &[u8; 24], sealed: &[u8]) -> (r: Result<
    Vec<u8>,
    chacha20poly1305::Error,
>)
    requires
        sealed@.len() >= 16 ==> sealable((sealed@.len() - 16) as nat),
    ensures
        match r {
            Ok(out) => xchacha_opened(key@, nonce@, sealed@) == Some(out@),
            Err(_) => xchacha_opened(key@, nonce@, sealed@) is None,
        },
{
    let cipher = chacha20poly1305::XChaCha20Poly1305::new(
        chacha20poly1305::Key::from_slice(key),
    );
    cipher.decrypt(chacha20poly1305::XNonce::from_slice(nonce), sealed)
}

/// Calls `Argon2::hash_password_into` with the default parameters for 32 bytes. It fails only
/// on lengths that [`derivable`] leaves out.
#[verifier::external_body]
fn argon2id(password: &[u8], salt: &[u8]) -> (r: Result<[u8; 32], argon2::Error>)
    ensures
        r is Ok == derivable(password@.len(), salt@.len()),
        r matches Ok(key) ==> key@ == argon2id_key(password@, salt@),
{
    let mut key = [0u8; 32];
    argon2::Argon2::default().hash_password_into(password, salt, &mut key)?;
    Ok(key)
}

/// Calls `OsRng::fill_bytes`. Nothing is known of the bytes. A system that cannot give any
/// makes the call panic.
#[verifier::external_body]
pub(crate) fn random_bytes<const N: usize>() -> (r: [u8; N]) {
    let mut b = [0u8; N];
    rand::rngs::OsRng.fill_bytes(&mut b);
    b
}

/// Calls `Zeroize::zeroize` on a key: every byte of it is 0 afterwards.
#[verifier::external_body]
pub(crate) fn erase(key: &mut [u8; 32])
    ensures
        final(key)@ == Seq::new(32, |i: int| 0u8),
    opens_invariants none
    no_unwind
{
    key.zeroize();
}

/// The key that `password` and `salt` give.
pub open spec fn password_key(password: Seq<char>, salt: Seq<u8>) -> Seq<u8> {
    argon2id_key(vstd::utf8::encode_utf8(password), salt)
}

/// Derives the master key from the password.
pub fn derive_key(password: &str, salt: &[u8]) -> (r: Result<[u8; 32], VaultError>)
    ensures
        match r {
            Ok(key) => derivable(vstd::utf8::encode_utf8(password@).len(), salt@.len()) && key@
                == password_key(password@, salt@),
            Err(e) => !derivable(vstd::utf8::encode_utf8(password@).len(), salt@.len()) && e
                == VaultError::KeyDerivation,
        },
{
    match argon2id(password.as_bytes(), salt) {
        Ok(key) => Ok(key),
        Err(_) => Err(VaultError::KeyDerivation),
    }
}

/// `out` is `plain` sealed under `key`: a nonce and the ciphertext that goes with it.
pub open spec fn is_seal(out: Seq<u8>, key: Seq<u8>, plain: Seq<u8>) -> bool {
    &&& out.len() == 24 + plain.len() + 16
    &&& out.skip(24) == xchacha_sealed(key, out.take(24), plain)
    &&& opened(key, out) == Some(plain)
}

/// What `data` holds under `key`.
pub open spec fn opened(key: Seq<u8>, data: Seq<u8>) -> Option<Seq<u8>> {
    if data.len() < 24 || (data.len() >= 40 && !sealable((data.len() - 40) as nat)) {
        None
    } else {
        xchacha_opened(key, data.take(24), data.skip(24))
    }
}

/// Seals `plain` under `key` with the nonce given.
pub fn seal_with(key: &[u8; 32], nonce: &[u8; 24], plain: &[u8]) -> (r: Result<
    Vec<u8>,
    VaultError,
>)
    ensures
        match r {
            Ok(out) => sealable(plain@.len()) && out@ == nonce@ + xchacha_sealed(
                key@,
                nonce@,
                plain@,
            ) && is_seal(out@, key@, plain@),
            Err(e) => !sealable(plain@.len()) && e == VaultError::Encrypt,
        },
{
    if !is_sealable(plain.len()) {
        return Err(VaultError::Encrypt);
    }
    match xchacha_encrypt(key, nonce, plain) {
        Ok(ct) => {
            let mut out: Vec<u8> = Vec::new();
            out.extend_from_slice(nonce);
            out.extend_from_slice(ct.as_slice());
            proof {
                assert(out@ =~= nonce@ + ct@);
                assert(out@.take(24) =~= nonce@);
                assert(out@.skip(24) =~= ct@);
            }
            Ok(out)
        },
        Err(_) => Err(VaultError::Encrypt),
    }
}

/// Seals `plain` under `key` with a fresh nonce.
pub fn seal(key: &[u8; 32], plain: &[u8]) -> (r: Result<Vec<u8>, VaultError>)
    ensures
        match r {
            Ok(out) => sealable(plain@.len()) && is_seal(out@, key@, plain@),
            Err(e) => !sealable(plain@.len()) && e == VaultError::Encrypt,
        },
{
    let nonce: [u8; 24] = random_bytes();
    seal_with(key, &nonce, plain)
}

/// The inverse of [`seal`].
pub fn unseal(key: &[u8; 32], data: &[u8]) -> (r: Result<Vec<u8>, VaultError>)
    ensures
        match r {
            Ok(plain) => opened(key@, data@) == Some(plain@),
            Err(VaultError::SealedTooShort) => data@.len() < 24,
            Err(e) => e == VaultError::Decrypt && data@.len() >= 24 && opened(
                key@,
                data@,
            ) is None,
        },
{
    if data.len() < NONCE_LEN {
        return Err(VaultError::SealedTooShort);
    }
    if data.len() >= 40 && !is_sealable(data.len() - 40) {
        return Err(VaultError::Decrypt);
    }
    let mut nonce: [u8; 24] = [0;24];
    let mut i: usize = 0;
    while i < 24
        invariant
            i <= 24 <= data@.len(),
            forall|j: int| 0 <= j < i ==> nonce@[j] == data@[j],
        decreases 24 - i,
    {
        nonce[i] = data[i];
        i = i + 1;
    }
    let (_, ct) = data.split_at(NONCE_LEN);
    proof {
        assert(nonce@ =~= data@.take(24));
        assert(ct@ =~= data@.skip(24));
    }
    match xchacha_decrypt(key, &nonce, ct) {
        Ok(plain) => Ok(plain),
        Err(_) => Err(VaultError::Decrypt),
    }
}

/// The cipher takes texts of up to two to the 32nd less two blocks of 64 bytes.
pub proof fn longest_text_that_is_sealed(len: nat)
    ensures
        sealable(len) <==> len <= 274_877_906_816,
{
}

/// A sealed text is a nonce of 24 bytes and the text and its tag behind it: 40 bytes longer than
/// the text, which it opens to with its key.
pub proof fn sealed_text_layout(out: Seq<u8>, key: Seq<u8>, plain: Seq<u8>)
    requires
        is_seal(out, key, plain),
    ensures
        out.len() == plain.len() + 40,
        out.skip(24) == xchacha_sealed(key, out.take(24), plain),
        xchacha_opened(key, out.take(24), out.skip(24)) == Some(plain),
{
}

/// What is shorter than a nonce does not open, nor what is longer than any sealed text; all else
/// opens as the cipher says, with the first 24 bytes for the nonce.
pub proof fn sealed_text_has_its_length(key: Seq<u8>, data: Seq<u8>)
    ensures
        data.len() < 24 ==> opened(key, data) is None,
        24 <= data.len() <= 274_877_906_856 ==> opened(key, data) == xchacha_opened(
            key,
            data.take(24),
            data.skip(24),
        ),
        data.len() > 274_877_906_856 ==> opened(key, data) is None,
{
}

} // verus!
