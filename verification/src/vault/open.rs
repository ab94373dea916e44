//! Opening a vault: from the header to the catalog.

use crate::catalog::Catalog;
use crate::error::VaultError;
use crate::header::{parse_header, unlock, EncState, Header};
use crate::pipeline::DEFAULT_ZSTD_LEVEL;
use crate::vault::Vault;
use vstd::prelude::*;

verus! {

/// How a catalog is written down.
#[derive(Clone, Copy, Debug, PartialEq, Eq, Structural)]
pub enum CatalogCodec {
    /// Fields by position.
    Bincode,
    /// Fields by name.
    MessagePack,
}

/// The codec of a format version.
pub open spec fn codec_of(version: u32) -> Result<CatalogCodec, VaultError> {
    if version == 8 {
        Ok(CatalogCodec::Bincode)
    } else if version == 9 {
        Ok(CatalogCodec::MessagePack)
    } else {
        Err(VaultError::UnsupportedVersion(version))
    }
}

/// Which codec the catalog of a format version is written with.
pub fn catalog_codec(version: u32) -> (r: Result<CatalogCodec, VaultError>)
    ensures
        r == codec_of(version),
{
    if version == 8 {
        Ok(CatalogCodec::Bincode)
    } else if version == 9 {
        Ok(CatalogCodec::MessagePack)
    } else {
        Err(VaultError::UnsupportedVersion(version))
    }
}

/// A vault whose header was read and unlocked.
pub struct Opening {
    header: Header,
    enc: Option<EncState>,
}

/// An opening as a value.
#[verifier::ext_equal]
pub struct OpeningView {
    pub header: Header,
    pub enc: Option<crate::header::EncView>,
}

impl View for Opening {
    type V = OpeningView;

    closed spec fn view(&self) -> OpeningView {
        OpeningView {
            header: self.header,
            enc: match self.enc {
                Some(e) => Some(e@),
                None => None,
            },
        }
    }
}

/// What the header bytes and the password lead to.
pub open spec fn opening_of(b: Seq<u8>, password: Option<Seq<char>>) -> Result<
    OpeningView,
    VaultError,
> {
    match crate::header::parsed(b) {
        Err(e) => Err(e),
        Ok(header) => match crate::header::unlocked(b, header.encrypted, password) {
            Err(e) => Err(e),
            Ok(enc) => Ok(OpeningView { header, enc }),
        },
    }
}

/// The plain catalog that the stored bytes hold, or why they do not.
pub open spec fn catalog_plain(
    enc: Option<crate::header::EncView>,
    stored: Seq<u8>,
) -> Result<Seq<u8>, VaultError> {
    match enc {
        None => Ok(stored),
        Some(e) => if stored.len() < 24 {
            Err(VaultError::SealedTooShort)
        } else {
            match crate::crypto::opened(e.key, stored) {
                Some(raw) => Ok(raw),
                None => Err(VaultError::Decrypt),
            }
        },
    }
}

impl Opening {
    pub closed spec fn wf(self) -> bool {
        self.enc matches Some(e) ==> e@.fits()
    }

    pub fn header(&self) -> (r: Header)
        ensures
            r == self@.header,
    {
        self.header
    }

    /// Unseals the catalog.
    pub fn unseal_catalog(&self, stored: Vec<u8>) -> (r: Result<Vec<u8>, VaultError>)
        ensures
            match r {
                Ok(raw) => catalog_plain(self@.enc, stored@) == Ok::<Seq<u8>, VaultError>(raw@),
                Err(e) => catalog_plain(self@.enc, stored@) == Err::<Seq<u8>, VaultError>(e),
            },
    {
        match &self.enc {
            None => Ok(stored),
            Some(e) => crate::crypto::unseal(e.key(), stored.as_slice()),
        }
    }

    /// The vault with the catalog that was read. Blocks are appended behind the catalog.
    pub fn finish(self, catalog: Catalog) -> (r: Vault)
        requires
            self.wf(),
            catalog.wf(),
            self@.header.catalog_offset + self@.header.catalog_len <= u64::MAX,
        ensures
            r.wf(),
            r@ == (crate::vault::VaultView {
                chunk_size: self@.header.chunk_size,
                catalog: catalog@,
                next_append: (self@.header.catalog_offset + self@.header.catalog_len) as u64,
                zstd_level: DEFAULT_ZSTD_LEVEL,
                enc: self@.enc,
            }),
    {
        Vault {
            chunk_size: self.header.chunk_size,
            catalog,
            next_append: self.header.catalog_offset + self.header.catalog_len,
            zstd_level: DEFAULT_ZSTD_LEVEL,
            enc: self.enc,
        }
    }
}

impl Vault {
    /// Reads the header and tries the password.
    pub fn open(header: &[u8], password: Option<&str>) -> (r: Result<Opening, VaultError>)
        requires
            header@.len() == crate::header::HEADER_SIZE,
            crate::header::parsed(header@) matches Ok(h) && h.encrypted && password is Some
                ==> crate::header::token_len(header@) <= 4040,
        ensures
            match r {
                Ok(o) => o.wf() && opening_of(header@, crate::header::text_view(password)) == Ok::<
                    OpeningView,
                    VaultError,
                >(o@),
                Err(e) => opening_of(header@, crate::header::text_view(password)) == Err::<
                    OpeningView,
                    VaultError,
                >(e),
            },
    {
        match parse_header(header) {
            Err(e) => Err(e),
            Ok(h) => match unlock(header, h.encrypted, password) {
                Err(e) => Err(e),
                Ok(enc) => Ok(Opening { header: h, enc }),
            },
        }
    }
}

/// Catalogs of version 8 are read in one form and those of version 9 in the other; no other
/// version is read.
pub proof fn catalog_form_follows_the_version(version: u32)
    ensures
        version == 8 ==> codec_of(version) == Ok::<CatalogCodec, VaultError>(CatalogCodec::Bincode),
        version == 9 ==> codec_of(version) == Ok::<CatalogCodec, VaultError>(
            CatalogCodec::MessagePack,
        ),
        version != 8 && version != 9 ==> codec_of(version) == Err::<CatalogCodec, VaultError>(
            VaultError::UnsupportedVersion(version),
        ),
{
}

/// The catalog of a vault without a lock is read as it is stored; that of another one has to
/// open with its key.
pub proof fn catalog_opens_with_the_key(e: crate::header::EncView, stored: Seq<u8>, raw: Seq<u8>)
    ensures
        catalog_plain(None, stored) == Ok::<Seq<u8>, VaultError>(stored),
        stored.len() < 24 ==> catalog_plain(Some(e), stored) == Err::<Seq<u8>, VaultError>(
            VaultError::SealedTooShort,
        ),
        stored.len() >= 24 && crate::crypto::opened(e.key, stored) is None ==> catalog_plain(
            Some(e),
            stored,
        ) == Err::<Seq<u8>, VaultError>(VaultError::Decrypt),
        stored.len() >= 24 && crate::crypto::opened(e.key, stored) == Some(raw) ==> catalog_plain(
            Some(e),
            stored,
        ) == Ok::<Seq<u8>, VaultError>(raw),
{
}

} // verus!
