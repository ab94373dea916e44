//! What can go wrong in a vault.

use vstd::prelude::*;

verus! {

/// Why an operation on a vault was refused.
#[derive(Clone, Copy, Debug, PartialEq, Eq, Structural)]
pub enum VaultError {
    /// The key derivation refused the password or the salt.
    KeyDerivation,
    /// The cipher refused the plain text.
    Encrypt,
    /// Sealed data that is shorter than a nonce.
    SealedTooShort,
    /// The tag of sealed data does not fit: a wrong password or damaged data.
    Decrypt,
    /// The compressor failed on the sample of a block.
    CompressSample,
    /// The compressor failed on a block.
    CompressBlock,
    /// The decompressor failed on a block.
    DecompressBlock,
    /// A stored block without its flag byte.
    EmptyBlock,
    /// An encrypted block in a vault that was opened without a password.
    LockedBlock,
    /// A file refers to a block that the index does not hold.
    MissingBlock,
    /// The block does not fit under the size limit given here.
    QuotaExceeded(u64),
    /// The file does not start with the signature of a vault.
    BadSignature,
    /// A format version that cannot be read.
    UnsupportedVersion(u32),
    /// The vault is encrypted and no password was given.
    PasswordRequired,
    WrongPassword,
    FileNotFound,
    /// A file stands where a directory is to be made.
    FileInTheWay,
    /// Nothing stands at the path that is to be moved.
    SourceNotFound,
    EmptySnapshotName,
    SnapshotExists,
    SnapshotNotFound,
}

} // verus!
