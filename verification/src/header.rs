//! The header of a vault: 4096 bytes that say where the catalog is and how it is locked.

use crate::bytes::{push_le32, push_le64, push_zeros, read_le32, read_le64};
use crate::crypto::{derive_key, random_bytes, seal_with, unseal};
use crate::error::VaultError;
use vstd::prelude::*;

verus! {

/// How long the header is.
pub const HEADER_SIZE: u64 = 4096;

/// The version that is written.
pub const FORMAT_VERSION: u32 = 9;

/// The oldest version that can be read.
pub const MIN_FORMAT_VERSION: u32 = 8;

/// The bytes that every vault starts with: `FSMVLT01`.
pub open spec fn magic() -> Seq<u8> {
    seq![70u8, 83u8, 77u8, 86u8, 76u8, 84u8, 48u8, 49u8]
}

/// The text that is sealed in the header so that a password can be tried: `fsmanager-verify`.
#[verifier::opaque]
pub open spec fn token() -> Seq<u8> {
    seq![
        102u8,
        115u8,
        109u8,
        97u8,
        110u8,
        97u8,
        103u8,
        101u8,
        114u8,
        45u8,
        118u8,
        101u8,
        114u8,
        105u8,
        102u8,
        121u8,
    ]
}

pub fn magic_bytes() -> (r: Vec<u8>)
    ensures
        r@ == magic(),
{
    let r: Vec<u8> = vec![70, 83, 77, 86, 76, 84, 48, 49];
    assert(r@ =~= magic());
    r
}

pub fn token_bytes() -> (r: Vec<u8>)
    ensures
        r@ == token(),
{
    let r: Vec<u8> = vec![
        102,
        115,
        109,
        97,
        110,
        97,
        103,
        101,
        114,
        45,
        118,
        101,
        114,
        105,
        102,
        121,
    ];
    reveal(token);
    assert(r@ =~= token());
    r
}

/// How a vault is locked: the key, the salt it was derived with and the sealed token.
pub struct EncState {
    pub(crate) key: [u8; 32],
    pub(crate) salt: [u8; 16],
    pub(crate) verify: Vec<u8>,
}

/// A lock as a value.
#[verifier::ext_equal]
pub struct EncView {
    pub key: Seq<u8>,
    pub salt: Seq<u8>,
    pub verify: Seq<u8>,
}

impl View for EncState {
    type V = EncView;

    closed spec fn view(&self) -> EncView {
        EncView { key: self.key@, salt: self.salt@, verify: self.verify@ }
    }
}

impl EncView {
    /// The salt and the token fit in the header.
    pub open spec fn fits(self) -> bool {
        self.key.len() == 32 && self.salt.len() == 16 && self.verify.len() <= 4040
    }

    /// `password` opens this lock.
    pub open spec fn opens_with(self, password: Seq<char>) -> bool {
        &&& self.fits()
        &&& crate::crypto::derivable(vstd::utf8::encode_utf8(password).len(), 16)
        &&& self.key == crate::crypto::password_key(password, self.salt)
        &&& crate::crypto::opened(self.key, self.verify) == Some(token())
    }

    /// This is the lock that `password` makes with this salt.
    pub open spec fn made_with(self, password: Seq<char>) -> bool {
        &&& self.salt.len() == 16
        &&& crate::crypto::derivable(vstd::utf8::encode_utf8(password).len(), 16)
        &&& self.key == crate::crypto::password_key(password, self.salt)
        &&& self.key.len() == 32
        &&& crate::crypto::is_seal(self.verify, self.key, token())
    }
}

impl EncState {
    /// The lock for `password` with the salt and the nonce given.
    pub fn with_salt(password: &str, salt: [u8; 16], nonce: &[u8; 24]) -> (r: Result<
        EncState,
        VaultError,
    >)
        ensures
            match r {
                Ok(e) => e@.made_with(password@) && e@.fits() && e@.salt == salt@
                    && e@.verify.take(24) == nonce@,
                Err(e) => e == VaultError::KeyDerivation && !crate::crypto::derivable(
                    vstd::utf8::encode_utf8(password@).len(),
                    16,
                ),
            },
    {
        match derive_key(password, &salt) {
            Err(e) => Err(e),
            Ok(key) => {
                let text = token_bytes();
                assert(text@.len() == 16) by {
                    reveal(token);
                }
                match seal_with(&key, nonce, text.as_slice()) {
                    Err(e) => Err(e),
                    Ok(verify) => {
                        assert(verify@.take(24) =~= nonce@);
                        Ok(EncState { key, salt, verify })
                    },
                }
            },
        }
    }

    /// The lock for `password` with a fresh salt.
    pub fn new(password: &str) -> (r: Result<EncState, VaultError>)
        ensures
            match r {
                Ok(e) => e@.made_with(password@) && e@.fits(),
                Err(e) => e == VaultError::KeyDerivation && !crate::crypto::derivable(
                    vstd::utf8::encode_utf8(password@).len(),
                    16,
                ),
            },
    {
        let salt: [u8; 16] = random_bytes();
        let nonce: [u8; 24] = random_bytes();
        EncState::with_salt(password, salt, &nonce)
    }

    /// Erases the key: it is all zeros afterwards.
    pub fn wipe(&mut self)
        ensures
            final(self)@ == (EncView { key: Seq::new(32, |i: int| 0u8), ..old(self)@ }),
        opens_invariants none
        no_unwind
    {
        crate::crypto::erase(&mut self.key);
    }

    pub(crate) fn key(&self) -> (r: &[u8; 32])
        ensures
            r@ == self@.key,
    {
        &self.key
    }
}

/// The key does not outlive the lock: it is erased wherever the lock is given up.
impl Drop for EncState {
    fn drop(&mut self)
        ensures
            final(self)@ == (EncView { key: Seq::new(32, |i: int| 0u8), ..old(self)@ }),
        opens_invariants none
        no_unwind
    {
        self.wipe();
    }
}

/// The part of the header behind the catalog's place.
#[verifier::opaque]
pub open spec fn lock_bytes(enc: Option<EncView>) -> Seq<u8> {
    match enc {
        None => crate::bytes::zeros(4064),
        Some(e) => crate::bytes::le32(1) + e.salt + crate::bytes::le32(e.verify.len() as u32)
            + e.verify + crate::bytes::zeros(4040 - e.verify.len()),
    }
}

/// The header of a vault whose catalog stands at `catalog_offset`.
#[verifier::opaque]
pub open spec fn header_bytes(
    chunk_size: u32,
    catalog_offset: u64,
    catalog_len: u64,
    enc: Option<EncView>,
) -> Seq<u8> {
    magic() + crate::bytes::le32(FORMAT_VERSION) + crate::bytes::le32(chunk_size)
        + crate::bytes::le64(catalog_offset) + crate::bytes::le64(catalog_len) + lock_bytes(enc)
}

/// The view of an optional lock.
pub open spec fn enc_view(enc: Option<&EncState>) -> Option<EncView> {
    match enc {
        Some(e) => Some(e@),
        None => None,
    }
}

/// Appends the part of the header behind the catalog's place.
fn push_lock(out: &mut Vec<u8>, enc: Option<&EncState>)
    requires
        enc matches Some(e) ==> e@.fits(),
    ensures
        final(out)@ == old(out)@ + lock_bytes(enc_view(enc)),
        lock_bytes(enc_view(enc)).len() == 4064,
{
    reveal(lock_bytes);
    match enc {
        None => {
            push_zeros(out, 4064);
        },
        Some(e) => {
            let ghost front = out@;
            let n: u32 = e.verify.len() as u32;
            push_le32(out, 1);
            out.extend_from_slice(&e.salt);
            push_le32(out, n);
            out.extend_from_slice(e.verify.as_slice());
            push_zeros(out, 4040 - e.verify.len());
            proof {
                let f = crate::bytes::le32(1);
                let s = e@.salt;
                let c = crate::bytes::le32(n);
                let v = e@.verify;
                let z = crate::bytes::zeros(4040 - v.len());
                crate::bytes::lemma_le32(1, Seq::empty());
                crate::bytes::lemma_le32(n, Seq::empty());
                lemma_lock(f, s, c, v, z);
                lemma_regroup(front, f, s, c, v, z);
                assert(out@ =~= front + f + s + c + v + z);
            }
        },
    }
}

proof fn lemma_regroup(
    front: Seq<u8>,
    f: Seq<u8>,
    s: Seq<u8>,
    c: Seq<u8>,
    v: Seq<u8>,
    z: Seq<u8>,
)
    ensures
        front + f + s + c + v + z == front + (f + s + c + v + z),
{
    assert(front + f + s + c + v + z =~= front + (f + s + c + v + z));
}

/// Writes the header.
pub fn build_header(
    chunk_size: u32,
    catalog_offset: u64,
    catalog_len: u64,
    enc: Option<&EncState>,
) -> (r: Vec<u8>)
    requires
        enc matches Some(e) ==> e@.fits(),
    ensures
        r@ == header_bytes(chunk_size, catalog_offset, catalog_len, enc_view(enc)),
        r@.len() == HEADER_SIZE,
{
    let mut out = magic_bytes();
    push_le32(&mut out, FORMAT_VERSION);
    push_le32(&mut out, chunk_size);
    push_le64(&mut out, catalog_offset);
    push_le64(&mut out, catalog_len);
    push_lock(&mut out, enc);
    proof {
        reveal(header_bytes);
        crate::bytes::lemma_le32(FORMAT_VERSION, Seq::empty());
        crate::bytes::lemma_le32(chunk_size, Seq::empty());
        crate::bytes::lemma_le64(catalog_offset, Seq::empty());
        crate::bytes::lemma_le64(catalog_len, Seq::empty());
        lemma_front(
            magic(),
            crate::bytes::le32(FORMAT_VERSION),
            crate::bytes::le32(chunk_size),
            crate::bytes::le64(catalog_offset),
            crate::bytes::le64(catalog_len),
            lock_bytes(enc_view(enc)),
        );
    }
    out
}

/// What a header says.
#[derive(Clone, Copy, Debug, PartialEq, Eq, Structural)]
pub struct Header {
    pub version: u32,
    pub chunk_size: u32,
    pub catalog_offset: u64,
    pub catalog_len: u64,
    pub encrypted: bool,
}

/// What the header `b` says, or why it is refused.
pub open spec fn parsed(b: Seq<u8>) -> Result<Header, VaultError> {
    let version = crate::bytes::from_le32(b.skip(8));
    if b.take(8) != magic() {
        Err(VaultError::BadSignature)
    } else if !(MIN_FORMAT_VERSION <= version <= FORMAT_VERSION) {
        Err(VaultError::UnsupportedVersion(version as u32))
    } else {
        Ok(
            Header {
                version: version as u32,
                chunk_size: crate::bytes::from_le32(b.skip(12)) as u32,
                catalog_offset: crate::bytes::from_le64(b.skip(16)) as u64,
                catalog_len: crate::bytes::from_le64(b.skip(24)) as u64,
                encrypted: crate::bytes::from_le32(b.skip(32)) % 2 == 1,
            },
        )
    }
}

/// How long the sealed token in the header `b` is.
pub open spec fn token_len(b: Seq<u8>) -> int {
    crate::bytes::from_le32(b.skip(52))
}

/// Reads the header.
pub fn parse_header(b: &[u8]) -> (r: Result<Header, VaultError>)
    requires
        b@.len() == HEADER_SIZE,
    ensures
        r == parsed(b@),
{
    let sign = magic_bytes();
    let mut i: usize = 0;
    while i < 8
        invariant
            i <= 8,
            b@.len() == HEADER_SIZE,
            sign@ == magic(),
            forall|j: int| 0 <= j < i ==> b@[j] == magic()[j],
        decreases 8 - i,
    {
        if b[i] != sign[i] {
            assert(b@.take(8)[i as int] != magic()[i as int]);
            return Err(VaultError::BadSignature);
        }
        i = i + 1;
    }
    assert(b@.take(8) =~= magic());
    let version: u32 = read_le32(b, 8);
    if version < MIN_FORMAT_VERSION || version > FORMAT_VERSION {
        return Err(VaultError::UnsupportedVersion(version));
    }
    let flags: u32 = read_le32(b, 32);
    assert((flags & 1 != 0) == (flags % 2 == 1)) by (bit_vector);
    Ok(
        Header {
            version,
            chunk_size: read_le32(b, 12),
            catalog_offset: read_le64(b, 16),
            catalog_len: read_le64(b, 24),
            encrypted: flags & 1 != 0,
        },
    )
}

/// The lock that the header `b` and the password give, or why they give none.
pub open spec fn unlocked(b: Seq<u8>, encrypted: bool, password: Option<Seq<char>>) -> Result<
    Option<EncView>,
    VaultError,
> {
    let salt = b.subrange(36, 52);
    let verify = b.subrange(56, 56 + token_len(b));
    if !encrypted {
        Ok(None)
    } else {
        match password {
            None => Err(VaultError::PasswordRequired),
            Some(p) => if !crate::crypto::derivable(vstd::utf8::encode_utf8(p).len(), 16) {
                Err(VaultError::KeyDerivation)
            } else if crate::crypto::opened(crate::crypto::password_key(p, salt), verify) == Some(
                token(),
            ) {
                Ok(Some(EncView { key: crate::crypto::password_key(p, salt), salt, verify }))
            } else {
                Err(VaultError::WrongPassword)
            },
        }
    }
}

/// Whether the sealed token of an encrypted vault ends inside the header.
pub fn token_fits(b: &[u8]) -> (r: bool)
    requires
        b@.len() == HEADER_SIZE,
    ensures
        r == (token_len(b@) <= 4040),
{
    read_le32(b, 52) <= 4040
}

/// The view of an optional string.
pub open spec fn text_view(s: Option<&str>) -> Option<Seq<char>> {
    match s {
        Some(t) => Some(t@),
        None => None,
    }
}

/// Whether two byte strings are the same.
fn same_bytes(a: &Vec<u8>, b: &Vec<u8>) -> (r: bool)
    ensures
        r == (a@ == b@),
{
    if a.len() != b.len() {
        return false;
    }
    let mut i: usize = 0;
    while i < a.len()
        invariant
            i <= a@.len(),
            a@.len() == b@.len(),
            forall|j: int| 0 <= j < i ==> a@[j] == b@[j],
        decreases a@.len() - i,
    {
        if a[i] != b[i] {
            return false;
        }
        i = i + 1;
    }
    assert(a@ =~= b@);
    true
}

/// Tries the password on the header. The password of a vault that is not encrypted is ignored.
pub fn unlock(b: &[u8], encrypted: bool, password: Option<&str>) -> (r: Result<
    Option<EncState>,
    VaultError,
>)
    requires
        b@.len() == HEADER_SIZE,
        encrypted && password is Some ==> token_len(b@) <= 4040,
    ensures
        match r {
            Ok(None) => unlocked(b@, encrypted, text_view(password)) == Ok::<
                Option<EncView>,
                VaultError,
            >(None),
            Ok(Some(e)) => unlocked(b@, encrypted, text_view(password)) == Ok::<
                Option<EncView>,
                VaultError,
            >(Some(e@)) && e@.fits(),
            Err(e) => unlocked(b@, encrypted, text_view(password)) == Err::<
                Option<EncView>,
                VaultError,
            >(e),
        },
{
    if !encrypted {
        return Ok(None);
    }
    match password {
        None => Err(VaultError::PasswordRequired),
        Some(p) => {
            let n: usize = read_le32(b, 52) as usize;
            let mut salt: [u8; 16] = [0;16];
            let mut i: usize = 0;
            while i < 16
                invariant
                    i <= 16,
                    b@.len() == HEADER_SIZE,
                    forall|j: int| 0 <= j < i ==> salt@[j] == b@[36 + j],
                decreases 16 - i,
            {
                salt[i] = b[36 + i];
                i = i + 1;
            }
            assert(salt@ =~= b@.subrange(36, 52));
            let verify = crate::pipeline::bytes_of(vstd::slice::slice_subrange(b, 56, 56 + n));
            match derive_key(p, &salt) {
                Err(e) => Err(e),
                Ok(key) => {
                    match unseal(&key, verify.as_slice()) {
                        Err(_) => Err(VaultError::WrongPassword),
                        Ok(plain) => {
                            let text = token_bytes();
                            if same_bytes(&plain, &text) {
                                Ok(Some(EncState { key, salt, verify }))
                            } else {
                                Err(VaultError::WrongPassword)
                            }
                        },
                    }
                },
            }
        },
    }
}

/// A header that was written is read back as it was meant.
pub proof fn header_reads_back(
    chunk_size: u32,
    catalog_offset: u64,
    catalog_len: u64,
    enc: Option<EncView>,
)
    requires
        enc matches Some(e) ==> e.fits(),
    ensures
        parsed(header_bytes(chunk_size, catalog_offset, catalog_len, enc)) == Ok::<
            Header,
            VaultError,
        >(
            Header {
                version: FORMAT_VERSION,
                chunk_size,
                catalog_offset,
                catalog_len,
                encrypted: enc is Some,
            },
        ),
        header_bytes(chunk_size, catalog_offset, catalog_len, enc).len() == HEADER_SIZE,
{
    reveal(header_bytes);
    reveal(lock_bytes);
    let lock = lock_bytes(enc);
    let v = crate::bytes::le32(FORMAT_VERSION);
    let c = crate::bytes::le32(chunk_size);
    let o = crate::bytes::le64(catalog_offset);
    let l = crate::bytes::le64(catalog_len);
    crate::bytes::lemma_le64(catalog_len, lock);
    crate::bytes::lemma_le64(catalog_offset, l + lock);
    crate::bytes::lemma_le32(chunk_size, o + l + lock);
    crate::bytes::lemma_le32(FORMAT_VERSION, c + o + l + lock);
    lemma_front(magic(), v, c, o, l, lock);
    match enc {
        None => {
            assert(crate::bytes::from_le32(lock) == 0);
        },
        Some(e) => {
            let n = crate::bytes::le32(e.verify.len() as u32);
            let z = crate::bytes::zeros(4040 - e.verify.len());
            crate::bytes::lemma_le32(e.verify.len() as u32, Seq::empty());
            lemma_lock(crate::bytes::le32(1), e.salt, n, e.verify, z);
            crate::bytes::lemma_le32(1, e.salt + n + e.verify + z);
        },
    }
}

/// The parts of the header in front of the lock.
proof fn lemma_front(
    m: Seq<u8>,
    v: Seq<u8>,
    c: Seq<u8>,
    o: Seq<u8>,
    l: Seq<u8>,
    lock: Seq<u8>,
)
    requires
        m.len() == 8,
        v.len() == 4,
        c.len() == 4,
        o.len() == 8,
        l.len() == 8,
    ensures
        ({
            let b = m + v + c + o + l + lock;
            &&& b.len() == 32 + lock.len()
            &&& b.take(8) == m
            &&& b.skip(8) == v + (c + o + l + lock)
            &&& b.skip(12) == c + (o + l + lock)
            &&& b.skip(16) == o + (l + lock)
            &&& b.skip(24) == l + lock
            &&& b.skip(32) == lock
        }),
{
    let b = m + v + c + o + l + lock;
    assert(b.take(8) =~= m);
    assert(b.skip(8) =~= v + (c + o + l + lock));
    assert(b.skip(12) =~= c + (o + l + lock));
    assert(b.skip(16) =~= o + (l + lock));
    assert(b.skip(24) =~= l + lock);
    assert(b.skip(32) =~= lock);
}

/// The parts of the lock.
proof fn lemma_lock(f: Seq<u8>, salt: Seq<u8>, n: Seq<u8>, verify: Seq<u8>, z: Seq<u8>)
    requires
        f.len() == 4,
        salt.len() == 16,
        n.len() == 4,
    ensures
        ({
            let lock = f + salt + n + verify + z;
            &&& lock.len() == 24 + verify.len() + z.len()
            &&& lock == f + (salt + n + verify + z)
            &&& lock.subrange(4, 20) == salt
            &&& lock.skip(20) == n + (verify + z)
            &&& lock.subrange(24, 24 + verify.len() as int) == verify
        }),
{
    let lock = f + salt + n + verify + z;
    assert(lock =~= f + (salt + n + verify + z));
    assert(lock.subrange(4, 20) =~= salt);
    assert(lock.skip(20) =~= n + (verify + z));
    assert(lock.subrange(24, 24 + verify.len() as int) =~= verify);
}

/// A password that opens the lock of a vault unlocks its header and gives the same key; without
/// a password it stays locked.
pub proof fn right_password_unlocks(
    chunk_size: u32,
    catalog_offset: u64,
    catalog_len: u64,
    enc: EncView,
    password: Seq<char>,
)
    requires
        enc.opens_with(password),
    ensures
        ({
            let b = header_bytes(chunk_size, catalog_offset, catalog_len, Some(enc));
            &&& token_len(b) <= 4040
            &&& unlocked(b, true, Some(password)) == Ok::<Option<EncView>, VaultError>(Some(enc))
            &&& unlocked(b, true, None) == Err::<Option<EncView>, VaultError>(
                VaultError::PasswordRequired,
            )
        }),
{
    lemma_lock_fields(chunk_size, catalog_offset, catalog_len, enc);
}

/// The password that a lock was made with opens it.
pub proof fn made_lock_opens(enc: EncView, password: Seq<char>)
    requires
        enc.made_with(password),
    ensures
        enc.opens_with(password),
{
    assert(token().len() == 16) by {
        reveal(token);
    }
}

/// The password that unlocked a header opens the lock that came out of it.
pub proof fn unlocked_lock_opens(b: Seq<u8>, enc: EncView, password: Seq<char>)
    requires
        unlocked(b, true, Some(password)) == Ok::<Option<EncView>, VaultError>(Some(enc)),
        enc.fits(),
    ensures
        enc.opens_with(password),
{
}

/// A password whose key does not open the token is refused.
pub proof fn wrong_password_is_refused(
    chunk_size: u32,
    catalog_offset: u64,
    catalog_len: u64,
    enc: EncView,
    password: Seq<char>,
)
    requires
        enc.fits(),
        crate::crypto::derivable(vstd::utf8::encode_utf8(password).len(), 16),
        crate::crypto::opened(crate::crypto::password_key(password, enc.salt), enc.verify) != Some(
            token(),
        ),
    ensures
        unlocked(
            header_bytes(chunk_size, catalog_offset, catalog_len, Some(enc)),
            true,
            Some(password),
        ) == Err::<Option<EncView>, VaultError>(VaultError::WrongPassword),
{
    lemma_lock_fields(chunk_size, catalog_offset, catalog_len, enc);
}

proof fn lemma_lock_fields(
    chunk_size: u32,
    catalog_offset: u64,
    catalog_len: u64,
    enc: EncView,
)
    requires
        enc.fits(),
    ensures
        ({
            let b = header_bytes(chunk_size, catalog_offset, catalog_len, Some(enc));
            &&& b.subrange(36, 52) == enc.salt
            &&& token_len(b) == enc.verify.len()
            &&& b.subrange(56, 56 + token_len(b)) == enc.verify
        }),
{
    reveal(header_bytes);
    reveal(lock_bytes);
    let b = header_bytes(chunk_size, catalog_offset, catalog_len, Some(enc));
    let lock = lock_bytes(Some(enc));
    let n = crate::bytes::le32(enc.verify.len() as u32);
    let z = crate::bytes::zeros(4040 - enc.verify.len());
    crate::bytes::lemma_le64(catalog_offset, Seq::empty());
    crate::bytes::lemma_le64(catalog_len, Seq::empty());
    crate::bytes::lemma_le32(FORMAT_VERSION, Seq::empty());
    crate::bytes::lemma_le32(chunk_size, Seq::empty());
    crate::bytes::lemma_le32(1, Seq::empty());
    crate::bytes::lemma_le32(enc.verify.len() as u32, enc.verify + z);
    lemma_front(
        magic(),
        crate::bytes::le32(FORMAT_VERSION),
        crate::bytes::le32(chunk_size),
        crate::bytes::le64(catalog_offset),
        crate::bytes::le64(catalog_len),
        lock,
    );
    lemma_lock(crate::bytes::le32(1), enc.salt, n, enc.verify, z);
    assert(b.skip(32) == lock);
    assert(b.subrange(36, 52) =~= b.skip(32).subrange(4, 20));
    assert(b.skip(52) =~= b.skip(32).skip(20));
    assert(b.subrange(56, 56 + enc.verify.len() as int) =~= b.skip(32).subrange(
        24,
        24 + enc.verify.len() as int,
    ));
}

/// Where the fields of a header stand: the signature, the version, the chunk size, the place and
/// the length of the catalog, and the lock: its flag, its salt and its token with the length in
/// front. All that is left is zero.
pub proof fn header_layout(
    chunk_size: u32,
    catalog_offset: u64,
    catalog_len: u64,
    enc: Option<EncView>,
)
    requires
        enc matches Some(e) ==> e.fits(),
    ensures
        ({
            let b = header_bytes(chunk_size, catalog_offset, catalog_len, enc);
            &&& b.len() == 4096
            &&& b.take(8) == seq![70u8, 83u8, 77u8, 86u8, 76u8, 84u8, 48u8, 49u8]
            &&& b.subrange(8, 12) == crate::bytes::le32(9)
            &&& b.subrange(12, 16) == crate::bytes::le32(chunk_size)
            &&& b.subrange(16, 24) == crate::bytes::le64(catalog_offset)
            &&& b.subrange(24, 32) == crate::bytes::le64(catalog_len)
            &&& match enc {
                None => forall|i: int| 32 <= i < 4096 ==> b[i] == 0,
                Some(e) => {
                    &&& b.subrange(32, 36) == crate::bytes::le32(1)
                    &&& b.subrange(36, 52) == e.salt
                    &&& b.subrange(52, 56) == crate::bytes::le32(e.verify.len() as u32)
                    &&& b.subrange(56, 56int + e.verify.len()) == e.verify
                    &&& forall|i: int| 56 + e.verify.len() <= i < 4096 ==> b[i] == 0
                },
            }
        }),
{
    reveal(header_bytes);
    reveal(lock_bytes);
    let b = header_bytes(chunk_size, catalog_offset, catalog_len, enc);
    let lock = lock_bytes(enc);
    let front = magic() + crate::bytes::le32(9) + crate::bytes::le32(chunk_size)
        + crate::bytes::le64(catalog_offset) + crate::bytes::le64(catalog_len);
    assert(b =~= front + lock);
    assert(front.len() == 32);
    assert(b.take(8) =~= magic());
    assert(b.subrange(8, 12) =~= crate::bytes::le32(9));
    assert(b.subrange(12, 16) =~= crate::bytes::le32(chunk_size));
    assert(b.subrange(16, 24) =~= crate::bytes::le64(catalog_offset));
    assert(b.subrange(24, 32) =~= crate::bytes::le64(catalog_len));
    match enc {
        None => {
            assert forall|i: int| 32 <= i < 4096 implies b[i] == 0 by {
                assert(b[i] == lock[i - 32]);
            }
        },
        Some(e) => {
            assert(b.subrange(32, 36) =~= crate::bytes::le32(1));
            assert(b.subrange(36, 52) =~= e.salt);
            assert(b.subrange(52, 56) =~= crate::bytes::le32(e.verify.len() as u32));
            assert(b.subrange(56, 56int + e.verify.len()) =~= e.verify);
            assert forall|i: int| 56 + e.verify.len() <= i < 4096 implies b[i] == 0 by {
                assert(b[i] == lock[i - 32]);
            }
        },
    }
}

/// A header is read exactly if it begins with the signature and its version is 8 or 9; otherwise
/// the signature, and then the version, is what is wrong with it. The fields are read where they
/// are written.
pub proof fn header_is_read_by_its_fields(
    b: Seq<u8>,
    version: u32,
    chunk_size: u32,
    catalog_offset: u64,
    catalog_len: u64,
    flags: u32,
)
    requires
        b.len() == 4096,
        b.subrange(8, 12) == crate::bytes::le32(version),
        b.subrange(12, 16) == crate::bytes::le32(chunk_size),
        b.subrange(16, 24) == crate::bytes::le64(catalog_offset),
        b.subrange(24, 32) == crate::bytes::le64(catalog_len),
        b.subrange(32, 36) == crate::bytes::le32(flags),
    ensures
        b.take(8) != seq![70u8, 83u8, 77u8, 86u8, 76u8, 84u8, 48u8, 49u8] ==> parsed(b) == Err::<
            Header,
            VaultError,
        >(VaultError::BadSignature),
        b.take(8) == seq![70u8, 83u8, 77u8, 86u8, 76u8, 84u8, 48u8, 49u8] && version != 8
            && version != 9 ==> parsed(b) == Err::<Header, VaultError>(
            VaultError::UnsupportedVersion(version),
        ),
        b.take(8) == seq![70u8, 83u8, 77u8, 86u8, 76u8, 84u8, 48u8, 49u8] && (version == 8
            || version == 9) ==> parsed(b) == Ok::<Header, VaultError>(
            Header {
                version,
                chunk_size,
                catalog_offset,
                catalog_len,
                encrypted: flags % 2 == 1,
            },
        ),
{
    crate::bytes::number32_is_stored_lowest_byte_first(version);
    crate::bytes::number32_is_stored_lowest_byte_first(chunk_size);
    crate::bytes::number64_is_stored_lowest_byte_first(catalog_offset);
    crate::bytes::number64_is_stored_lowest_byte_first(catalog_len);
    crate::bytes::number32_is_stored_lowest_byte_first(flags);
    lemma_field32(b, 8);
    lemma_field32(b, 12);
    lemma_field64(b, 16);
    lemma_field64(b, 24);
    lemma_field32(b, 32);
}

proof fn lemma_field32(b: Seq<u8>, at: int)
    requires
        0 <= at,
        at + 4 <= b.len(),
    ensures
        crate::bytes::from_le32(b.skip(at)) == crate::bytes::from_le32(b.subrange(at, at + 4)),
{
    assert forall|i: int| 0 <= i < 4 implies b.skip(at)[i] == b.subrange(at, at + 4)[i] by {}
}

proof fn lemma_field64(b: Seq<u8>, at: int)
    requires
        0 <= at,
        at + 8 <= b.len(),
    ensures
        crate::bytes::from_le64(b.skip(at)) == crate::bytes::from_le64(b.subrange(at, at + 8)),
{
    let s = b.skip(at);
    let t = b.subrange(at, at + 8);
    assert forall|i: int| 0 <= i < 8 implies s[i] == t[i] by {}
    assert(s.skip(4)[0] == t.skip(4)[0]);
    assert(s.skip(4)[1] == t.skip(4)[1]);
    assert(s.skip(4)[2] == t.skip(4)[2]);
    assert(s.skip(4)[3] == t.skip(4)[3]);
}

/// A vault without a lock opens with any password and with none; one with a lock needs the
/// password that its token opens with, under the key made of it and the salt.
pub proof fn lock_is_opened_by_its_password(b: Seq<u8>, password: Seq<char>, n: u32)
    requires
        b.len() == 4096,
        n <= 4040,
        b.subrange(52, 56) == crate::bytes::le32(n),
    ensures
        ({
            let salt = b.subrange(36, 52);
            let verify = b.subrange(56, 56 + n);
            let key = crate::crypto::argon2id_key(vstd::utf8::encode_utf8(password), salt);
            let word = seq![
                102u8,
                115u8,
                109u8,
                97u8,
                110u8,
                97u8,
                103u8,
                101u8,
                114u8,
                45u8,
                118u8,
                101u8,
                114u8,
                105u8,
                102u8,
                121u8,
            ];
            let r = unlocked(b, true, Some(password));
            &&& unlocked(b, false, Some(password)) == Ok::<Option<EncView>, VaultError>(None)
            &&& unlocked(b, false, None) == Ok::<Option<EncView>, VaultError>(None)
            &&& unlocked(b, true, None) == Err::<Option<EncView>, VaultError>(
                VaultError::PasswordRequired,
            )
            &&& vstd::utf8::encode_utf8(password).len() > 0xffff_ffff ==> r == Err::<
                Option<EncView>,
                VaultError,
            >(VaultError::KeyDerivation)
            &&& vstd::utf8::encode_utf8(password).len() <= 0xffff_ffff ==> (if crate::crypto::opened(
                key,
                verify,
            ) == Some(word) {
                r == Ok::<Option<EncView>, VaultError>(Some(EncView { key, salt, verify }))
            } else {
                r == Err::<Option<EncView>, VaultError>(VaultError::WrongPassword)
            })
        }),
{
    crate::bytes::number32_is_stored_lowest_byte_first(n);
    lemma_field32(b, 52);
    assert(token_len(b) == n);
    assert(b.subrange(56, 56 + token_len(b)) == b.subrange(56, 56 + n));
    let word = seq![
        102u8,
        115u8,
        109u8,
        97u8,
        110u8,
        97u8,
        103u8,
        101u8,
        114u8,
        45u8,
        118u8,
        101u8,
        114u8,
        105u8,
        102u8,
        121u8,
    ];
    reveal(token);
    assert(token() =~= word);
}

/// A password that is given is taken as it is, and so is a lock.
pub proof fn given_password_is_taken(s: &str, e: &EncState)
    ensures
        text_view(Some(s)) == Some(s@),
        text_view(None) is None,
        enc_view(Some(e)) == Some(e@),
        enc_view(None) is None,
{
}

} // verus!
