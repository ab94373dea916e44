//! How a block is stored: compressed where that pays, sealed where there is a key.
//!
//! The first byte of a stored block says which of the two was done.

use crate::crypto::{seal, unseal};
use crate::error::VaultError;
use vstd::prelude::*;

verus! {

pub const FLAG_ZSTD: u8 = 0x01;

pub const FLAG_ENC: u8 = 0x02;

/// How much of a block is tried before the whole of it is compressed.
pub const SAMPLE_LEN: usize = 8192;

/// The default zstd level.
pub const DEFAULT_ZSTD_LEVEL: i32 = 3;

/// A content address: the BLAKE3 digest.
pub type Hash = [u8; 32];

/// The error of the compressor.
#[verifier::external_type_specification]
#[verifier::external_body]
pub struct ExIoError(std::io::Error);

/// The BLAKE3 digest of `data`.
pub uninterp spec fn blake3_digest(data: Seq<u8>) -> Seq<u8>;

/// The zstd frame that `data` is compressed to.
pub uninterp spec fn zstd_frame(data: Seq<u8>, level: i32) -> Seq<u8>;

/// What the zstd frames in `frame` decompress to, if they are valid.
pub uninterp spec fn zstd_content(frame: Seq<u8>) -> Option<Seq<u8>>;

/// Calls `blake3::hash`; its result is named by [`blake3_digest`].
#[verifier::external_body]
pub(crate) fn content_hash(data: &[u8]) -> (r: Hash)
    ensures
        r@ == blake3_digest(data@),
{
    *blake3::hash(data).as_bytes()
}

/// Calls `zstd::stream::encode_all`. It compresses any bytes at any level, as long as there is
/// memory; the frame decompresses to `data`.
#[verifier::external_body]
fn zstd_encode(data: &[u8], level: i32) -> (r: Result<Vec<u8>, std::io::Error>)
    ensures
        r is Ok,
        r matches Ok(out) ==> out@ == zstd_frame(data@, level) && zstd_content(out@) == Some(data@),
{
    zstd::stream::encode_all(data, level)
}

/// Calls `zstd::stream::decode_all`; its result is named by [`zstd_content`]. As long as there
/// is memory it fails on frames that are not valid, and on no others.
#[verifier::external_body]
fn zstd_decode(frame: &[u8]) -> (r: Result<Vec<u8>, std::io::Error>)
    ensures
        match r {
            Ok(out) => zstd_content(frame@) == Some(out@),
            Err(_) => zstd_content(frame@) is None,
        },
{
    zstd::stream::decode_all(frame)
}

/// How many bytes of a block of `n` bytes are tried.
pub open spec fn sampled(n: nat) -> nat {
    if n <= 8192 {
        n
    } else {
        8192
    }
}

/// The sample shrinks by more than a tenth.
pub open spec fn sample_pays(data: Seq<u8>, level: i32) -> bool {
    let n = sampled(data.len());
    n > 0 && zstd_frame(data.take(n as int), level).len() < n * 9 / 10
}

/// The flags and the body of `data` before it is sealed.
pub open spec fn packed(data: Seq<u8>, level: i32) -> (u8, Seq<u8>) {
    if sample_pays(data, level) && zstd_frame(data, level).len() < data.len() {
        (FLAG_ZSTD, zstd_frame(data, level))
    } else {
        (0, data)
    }
}

/// The cipher, if there is a key, takes the body of `data`.
pub open spec fn encodable(data: Seq<u8>, level: i32, key: Option<Seq<u8>>) -> bool {
    key is Some ==> crate::crypto::sealable(packed(data, level).1.len())
}

/// `stored` is `data` as a block of a vault with this key.
pub open spec fn is_block(
    stored: Seq<u8>,
    data: Seq<u8>,
    level: i32,
    key: Option<Seq<u8>>,
) -> bool {
    let (flags, inner) = packed(data, level);
    &&& flags == FLAG_ZSTD ==> zstd_content(inner) == Some(data)
    &&& match key {
        None => stored == seq![flags] + inner,
        Some(k) => stored.len() > 0 && stored[0] == flags | FLAG_ENC && crate::crypto::is_seal(
            stored.skip(1),
            k,
            inner,
        ),
    }
}

/// The body of a stored block once it is unsealed, or why it cannot be.
pub open spec fn block_inner(stored: Seq<u8>, key: Option<Seq<u8>>) -> Result<Seq<u8>, VaultError> {
    if stored.len() == 0 {
        Err(VaultError::EmptyBlock)
    } else if stored[0] & FLAG_ENC != 0 {
        match key {
            None => Err(VaultError::LockedBlock),
            Some(k) => if stored.len() < 25 {
                Err(VaultError::SealedTooShort)
            } else {
                match crate::crypto::opened(k, stored.skip(1)) {
                    Some(inner) => Ok(inner),
                    None => Err(VaultError::Decrypt),
                }
            },
        }
    } else {
        Ok(stored.skip(1))
    }
}

/// The content of a stored block, or why it has none.
pub open spec fn block_decoded(stored: Seq<u8>, key: Option<Seq<u8>>) -> Result<
    Seq<u8>,
    VaultError,
> {
    match block_inner(stored, key) {
        Err(e) => Err(e),
        Ok(inner) => if stored[0] & FLAG_ZSTD != 0 {
            match zstd_content(inner) {
                Some(data) => Ok(data),
                None => Err(VaultError::DecompressBlock),
            }
        } else {
            Ok(inner)
        },
    }
}

/// The content of a stored block.
pub open spec fn block_content(stored: Seq<u8>, key: Option<Seq<u8>>) -> Option<Seq<u8>> {
    match block_decoded(stored, key) {
        Ok(data) => Some(data),
        Err(_) => None,
    }
}

/// How long `data` is as a block: the flags, the body, and a nonce and a tag if it is sealed.
pub open spec fn block_len(data: Seq<u8>, level: i32, key: Option<Seq<u8>>) -> nat {
    1 + packed(data, level).1.len() + (if key is Some {
        40nat
    } else {
        0
    })
}

/// The view of an optional key.
pub open spec fn key_view(key: Option<&[u8; 32]>) -> Option<Seq<u8>> {
    match key {
        Some(k) => Some(k@),
        None => None,
    }
}

/// Whether a sample of `sample_len` bytes that compresses to `packed_len` bytes pays.
pub fn worth_compressing(sample_len: usize, packed_len: usize) -> (r: bool)
    requires
        sample_len <= SAMPLE_LEN,
    ensures
        r == (packed_len < sample_len * 9 / 10),
{
    packed_len < sample_len * 9 / 10
}

/// The body that is stored of `data` when it compresses to `compressed`.
pub fn smaller_body(data: &[u8], compressed: Vec<u8>) -> (r: (u8, Vec<u8>))
    ensures
        r.0 == (if compressed@.len() < data@.len() {
            FLAG_ZSTD
        } else {
            0
        }),
        r.1@ == (if compressed@.len() < data@.len() {
            compressed@
        } else {
            data@
        }),
{
    if compressed.len() < data.len() {
        (FLAG_ZSTD, compressed)
    } else {
        (0, bytes_of(data))
    }
}

/// A vector with the bytes of `data`.
pub fn bytes_of(data: &[u8]) -> (r: Vec<u8>)
    ensures
        r@ == data@,
{
    let mut r: Vec<u8> = Vec::new();
    r.extend_from_slice(data);
    assert(r@ =~= data@);
    r
}

/// Compresses `data` where that pays.
pub fn pack_block(data: &[u8], level: i32) -> (r: Result<(u8, Vec<u8>), VaultError>)
    ensures
        r matches Ok(p) && (p.0, p.1@) == packed(data@, level) && (p.0 == FLAG_ZSTD
            ==> zstd_content(p.1@) == Some(data@)),
{
    let sample_len: usize = if data.len() < SAMPLE_LEN {
        data.len()
    } else {
        SAMPLE_LEN
    };
    if sample_len == 0 {
        return Ok((0, bytes_of(data)));
    }
    let (sample, _) = data.split_at(sample_len);
    assert(sample@ =~= data@.take(sampled(data@.len()) as int));
    match zstd_encode(sample, level) {
        Err(_) => Err(VaultError::CompressSample),
        Ok(tried) => {
            if !worth_compressing(sample_len, tried.len()) {
                return Ok((0, bytes_of(data)));
            }
            match zstd_encode(data, level) {
                Err(_) => Err(VaultError::CompressBlock),
                Ok(compressed) => Ok(smaller_body(data, compressed)),
            }
        },
    }
}

/// The flag byte and then the body.
pub fn flagged(flags: u8, body: &[u8]) -> (r: Vec<u8>)
    ensures
        r@ == seq![flags] + body@,
{
    let mut out: Vec<u8> = Vec::new();
    out.push(flags);
    out.extend_from_slice(body);
    assert(out@ =~= seq![flags] + body@);
    out
}

/// Encodes a block. It fails where the body is too long for the cipher.
pub fn encode_block(data: &[u8], level: i32, key: Option<&[u8; 32]>) -> (r: Result<
    Vec<u8>,
    VaultError,
>)
    ensures
        match r {
            Ok(stored) => is_block(stored@, data@, level, key_view(key)) && encodable(
                data@,
                level,
                key_view(key),
            ),
            Err(e) => e == VaultError::Encrypt && !encodable(data@, level, key_view(key)),
        },
{
    match pack_block(data, level) {
        Err(e) => Err(e),
        Ok((flags, inner)) => match key {
            None => Ok(flagged(flags, inner.as_slice())),
            Some(k) => match seal(k, inner.as_slice()) {
                Err(e) => Err(e),
                Ok(body) => {
                    let stored = flagged(flags | FLAG_ENC, body.as_slice());
                    assert(stored@.skip(1) =~= body@);
                    Ok(stored)
                },
            },
        },
    }
}

/// The content of a compressed block, given what its body decompressed to.
pub fn body_content(decoded: Result<Vec<u8>, std::io::Error>) -> (r: Result<Vec<u8>, VaultError>)
    ensures
        match decoded {
            Ok(data) => r == Ok::<Vec<u8>, VaultError>(data),
            Err(_) => r == Err::<Vec<u8>, VaultError>(VaultError::DecompressBlock),
        },
{
    match decoded {
        Err(_) => Err(VaultError::DecompressBlock),
        Ok(data) => Ok(data),
    }
}

/// The inverse of [`encode_block`].
pub fn decode_block(stored: &[u8], key: Option<&[u8; 32]>) -> (r: Result<Vec<u8>, VaultError>)
    ensures
        match r {
            Ok(data) => block_decoded(stored@, key_view(key)) == Ok::<Seq<u8>, VaultError>(data@),
            Err(e) => block_decoded(stored@, key_view(key)) == Err::<Seq<u8>, VaultError>(e),
        },
{
    if stored.len() == 0 {
        return Err(VaultError::EmptyBlock);
    }
    let flags: u8 = stored[0];
    let (_, body) = stored.split_at(1);
    assert(body@ =~= stored@.skip(1));
    let inner: Vec<u8> = if flags & FLAG_ENC != 0 {
        match key {
            None => {
                return Err(VaultError::LockedBlock);
            },
            Some(k) => match unseal(k, body) {
                Err(e) => {
                    return Err(e);
                },
                Ok(plain) => plain,
            },
        }
    } else {
        bytes_of(body)
    };
    if flags & FLAG_ZSTD != 0 {
        body_content(zstd_decode(inner.as_slice()))
    } else {
        Ok(inner)
    }
}

/// What the flags of a block say.
proof fn lemma_flags()
    ensures
        0u8 & FLAG_ENC == 0,
        0u8 & FLAG_ZSTD == 0,
        FLAG_ZSTD & FLAG_ENC == 0,
        FLAG_ZSTD & FLAG_ZSTD != 0,
        (0u8 | FLAG_ENC) & FLAG_ENC != 0,
        (0u8 | FLAG_ENC) & FLAG_ZSTD == 0,
        (FLAG_ZSTD | FLAG_ENC) & FLAG_ENC != 0,
        (FLAG_ZSTD | FLAG_ENC) & FLAG_ZSTD != 0,
{
    assert(0u8 & 2u8 == 0 && 0u8 & 1u8 == 0 && 1u8 & 2u8 == 0 && 1u8 & 1u8 != 0 && (0u8 | 2u8) & 2u8
        != 0 && (0u8 | 2u8) & 1u8 == 0 && (1u8 | 2u8) & 2u8 != 0 && (1u8 | 2u8) & 1u8 != 0)
        by (bit_vector);
}

/// A block that was encoded decodes to the data it was made of, and without the key a sealed
/// one does not decode.
pub proof fn stored_block_reads_back(
    stored: Seq<u8>,
    data: Seq<u8>,
    level: i32,
    key: Option<Seq<u8>>,
)
    requires
        is_block(stored, data, level, key),
    ensures
        block_decoded(stored, key) == Ok::<Seq<u8>, VaultError>(data),
        key is Some ==> block_decoded(stored, None) == Err::<Seq<u8>, VaultError>(
            VaultError::LockedBlock,
        ),
{
    lemma_flags();
    let (flags, inner) = packed(data, level);
    match key {
        None => {
            assert(stored.skip(1) =~= inner);
        },
        Some(k) => {
            assert(stored.len() >= 25);
        },
    }
}

/// Content that is not too long for the cipher can be encoded, whatever the level and the key.
pub proof fn short_content_is_encodable(data: Seq<u8>, level: i32, key: Option<Seq<u8>>)
    requires
        crate::crypto::sealable(data.len()),
    ensures
        encodable(data, level, key),
{
    assert(packed(data, level).1.len() <= data.len());
}

/// A stored block is at most 41 bytes longer than its content: the flags, a nonce and a tag.
pub proof fn stored_block_size(stored: Seq<u8>, data: Seq<u8>, level: i32, key: Option<Seq<u8>>)
    requires
        is_block(stored, data, level, key),
    ensures
        stored.len() == block_len(data, level, key),
        1 <= stored.len() <= data.len() + 41,
{
}

/// A content is compressed exactly if its beginning, of at most 8192 bytes, shrinks below nine
/// tenths, and the whole to less than it is; otherwise it is kept as it is.
pub proof fn content_is_compressed_where_it_pays(data: Seq<u8>, level: i32)
    ensures
        ({
            let n = if data.len() < 8192 {
                data.len() as int
            } else {
                8192
            };
            let pays = n > 0 && zstd_frame(data.take(n), level).len() < n * 9 / 10 && zstd_frame(
                data,
                level,
            ).len() < data.len();
            &&& pays ==> packed(data, level) == (1u8, zstd_frame(data, level))
            &&& !pays ==> packed(data, level) == (0u8, data)
            &&& packed(data, level).1.len() <= data.len()
        }),
{
}

/// A stored block is one byte of flags and what they tell of: bit 0 for a compressed content, bit
/// 1 for a sealed one. Without a key nothing is sealed, and with one everything is.
pub proof fn block_layout(stored: Seq<u8>, data: Seq<u8>, level: i32, key: Option<Seq<u8>>)
    requires
        is_block(stored, data, level, key),
    ensures
        ({
            let (flags, inner) = packed(data, level);
            &&& stored.len() == 1 + inner.len() + if key is Some {
                40int
            } else {
                0
            }
            &&& key is None ==> stored[0] == flags && stored.skip(1) == inner
            &&& key is Some ==> stored[0] == flags + 2 && stored.skip(25)
                == crate::crypto::xchacha_sealed(key->0, stored.subrange(1, 25), inner)
        }),
{
    let (flags, inner) = packed(data, level);
    match key {
        None => {
            assert(stored.skip(1) =~= inner);
        },
        Some(k) => {
            assert(0u8 | 2u8 == 2u8 && 1u8 | 2u8 == 3u8) by (bit_vector);
            assert(stored.skip(1).skip(24) =~= stored.skip(25));
            assert(stored.skip(1).take(24) =~= stored.subrange(1, 25));
        },
    }
}

/// What a block is refused for: being empty, being sealed where there is no key, being too short
/// for its nonce, not opening with the key, or not decompressing.
pub proof fn block_errors_tell_why(stored: Seq<u8>, key: Option<Seq<u8>>)
    ensures
        stored.len() == 0 ==> block_decoded(stored, key) == Err::<Seq<u8>, VaultError>(
            VaultError::EmptyBlock,
        ),
        stored.len() > 0 && stored[0] / 2 % 2 == 0 ==> block_inner(stored, key) == Ok::<
            Seq<u8>,
            VaultError,
        >(stored.skip(1)),
        stored.len() > 0 && stored[0] / 2 % 2 == 1 ==> block_inner(stored, key) == (match key {
            None => Err::<Seq<u8>, VaultError>(VaultError::LockedBlock),
            Some(k) => if stored.len() < 25 {
                Err(VaultError::SealedTooShort)
            } else {
                match crate::crypto::opened(k, stored.skip(1)) {
                    None => Err(VaultError::Decrypt),
                    Some(inner) => Ok(inner),
                }
            },
        }),
        stored.len() > 0 ==> block_decoded(stored, key) == (match block_inner(stored, key) {
            Err(e) => Err::<Seq<u8>, VaultError>(e),
            Ok(inner) => if stored[0] % 2 == 0 {
                Ok(inner)
            } else {
                match zstd_content(inner) {
                    Some(data) => Ok(data),
                    None => Err(VaultError::DecompressBlock),
                }
            },
        }),
        block_content(stored, key) == (match block_decoded(stored, key) {
            Ok(data) => Some(data),
            Err(e) => None,
        }),
{
    if stored.len() > 0 {
        let b = stored[0];
        assert((b & 2u8 != 0u8) == (b / 2 % 2 == 1)) by (bit_vector);
        assert((b & 1u8 != 0u8) == (b % 2 == 1)) by (bit_vector);
    }
}

/// Every content can be stored without a key; with one, as long as what is left of it after
/// compression is not longer than the cipher takes.
pub proof fn content_that_can_be_stored(data: Seq<u8>, level: i32, key: Option<Seq<u8>>)
    ensures
        key is None ==> encodable(data, level, key),
        key is Some ==> (encodable(data, level, key) <==> packed(data, level).1.len()
            <= 274_877_906_816),
        data.len() <= 274_877_906_816 ==> encodable(data, level, key),
        block_len(data, level, key) == 1 + packed(data, level).1.len() + if key is Some {
            40int
        } else {
            0
        },
{
    crate::crypto::longest_text_that_is_sealed(packed(data, level).1.len());
}

} // verus!
