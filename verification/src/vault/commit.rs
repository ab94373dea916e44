//! Writing the catalog down.
//!
//! The catalog goes behind everything that is stored; only once it is safe there the header is
//! made to point at it. If the header is never written, the old catalog still holds.

use crate::crypto::seal;
use crate::error::VaultError;
use crate::header::{build_header, EncState};
use crate::vault::{Vault, VaultView};
use vstd::prelude::*;

verus! {

/// A catalog and a header that have to be written, in this order.
pub struct CatalogWrite {
    /// Where the catalog goes.
    pub offset: u64,
    /// The catalog as it is stored.
    pub bytes: Vec<u8>,
    /// The header that points at it.
    pub header: Vec<u8>,
}

/// `stored` is the catalog `raw` as a vault with this lock stores it.
pub open spec fn is_stored_catalog(
    stored: Seq<u8>,
    raw: Seq<u8>,
    enc: Option<crate::header::EncView>,
) -> bool {
    match enc {
        None => stored == raw,
        Some(e) => crate::crypto::is_seal(stored, e.key, raw),
    }
}

/// `w` stores the catalog `raw` at `offset`.
pub open spec fn is_catalog_write(
    w: CatalogWrite,
    chunk_size: u32,
    offset: u64,
    raw: Seq<u8>,
    enc: Option<crate::header::EncView>,
) -> bool {
    &&& w.offset == offset
    &&& is_stored_catalog(w.bytes@, raw, enc)
    &&& w.bytes@.len() <= raw.len() + 40
    &&& w.header@ == crate::header::header_bytes(chunk_size, offset, w.bytes@.len() as u64, enc)
}

/// Seals a catalog that was written down and makes the header that points at it.
pub fn place_catalog(
    chunk_size: u32,
    offset: u64,
    raw: Vec<u8>,
    enc: Option<&EncState>,
) -> (r: Result<CatalogWrite, VaultError>)
    requires
        enc matches Some(e) ==> e@.fits(),
    ensures
        match r {
            Ok(w) => is_catalog_write(
                w,
                chunk_size,
                offset,
                raw@,
                crate::header::enc_view(enc),
            ),
            Err(e) => e == VaultError::Encrypt && enc is Some && !crate::crypto::sealable(
                raw@.len(),
            ),
        },
{
    let bytes = match enc {
        None => raw,
        Some(e) => match seal(e.key(), raw.as_slice()) {
            Err(e) => {
                return Err(e);
            },
            Ok(bytes) => bytes,
        },
    };
    let header = build_header(chunk_size, offset, bytes.len() as u64, enc);
    Ok(CatalogWrite { offset, bytes, header })
}

impl Vault {
    /// What has to be written so that the vault lasts; `raw` is the catalog written down.
    pub fn commit(&self, raw: Vec<u8>) -> (r: Result<CatalogWrite, VaultError>)
        requires
            self.wf(),
        ensures
            match r {
                Ok(w) => is_catalog_write(
                    w,
                    self@.chunk_size,
                    self@.next_append,
                    raw@,
                    self@.enc,
                ),
                Err(e) => e == VaultError::Encrypt && self@.enc is Some
                    && !crate::crypto::sealable(raw@.len()),
            },
    {
        self.commit_at(self.next_append, raw)
    }

    /// Like [`Vault::commit`], for a file in which the catalog goes to `offset`.
    pub fn commit_at(&self, offset: u64, raw: Vec<u8>) -> (r: Result<CatalogWrite, VaultError>)
        requires
            self.wf(),
        ensures
            match r {
                Ok(w) => is_catalog_write(w, self@.chunk_size, offset, raw@, self@.enc),
                Err(e) => e == VaultError::Encrypt && self@.enc is Some
                    && !crate::crypto::sealable(raw@.len()),
            },
    {
        place_catalog(self.chunk_size, offset, raw, self.enc.as_ref())
    }

    /// Goes on behind the catalog that was written.
    pub fn committed(&mut self, w: &CatalogWrite)
        requires
            old(self).wf(),
            w.offset + w.bytes@.len() <= u64::MAX,
        ensures
            final(self).wf(),
            final(self)@ == (VaultView {
                next_append: (w.offset + w.bytes@.len()) as u64,
                ..old(self)@
            }),
    {
        self.next_append = w.offset + w.bytes.len() as u64;
    }
}

/// The file of a vault after the catalog and then the header were written.
pub open spec fn committed_file(disk: Seq<u8>, w: CatalogWrite) -> Seq<u8> {
    crate::vault::stream::overwritten(
        crate::vault::stream::overwritten(disk, w.offset as int, w.bytes@),
        0,
        w.header@,
    )
}

/// The bytes in front of a write stay as they are.
pub proof fn lemma_write_keeps_front(disk: Seq<u8>, at: int, bytes: Seq<u8>, n: int)
    requires
        0 <= n <= at,
        n <= disk.len(),
    ensures
        crate::vault::stream::overwritten(disk, at, bytes).take(n) == disk.take(n),
{
    assert(crate::vault::stream::overwritten(disk, at, bytes).take(n) =~= disk.take(n));
}

/// Until the header is written, a commit changes nothing of what the header and the old catalog
/// stand in: everything in front of where blocks are appended.
pub proof fn interrupted_commit_is_harmless(disk: Seq<u8>, v: VaultView, w: CatalogWrite, raw: Seq<u8>)
    requires
        is_catalog_write(w, v.chunk_size, v.next_append, raw, v.enc),
        v.next_append <= disk.len(),
    ensures
        crate::vault::stream::overwritten(disk, w.offset as int, w.bytes@).take(
            v.next_append as int,
        ) == disk.take(v.next_append as int),
{
    lemma_write_keeps_front(disk, w.offset as int, w.bytes@, v.next_append as int);
}

/// A vault that was committed opens again, without a password or with the right one, and gives
/// the catalog that was written down.
pub proof fn committed_vault_opens(
    disk: Seq<u8>,
    v: VaultView,
    w: CatalogWrite,
    raw: Seq<u8>,
    password: Option<Seq<char>>,
)
    requires
        is_catalog_write(w, v.chunk_size, v.next_append, raw, v.enc),
        crate::header::HEADER_SIZE <= v.next_append <= disk.len(),
        w.offset + w.bytes@.len() <= u64::MAX,
        match v.enc {
            None => true,
            Some(e) => password is Some && e.opens_with(password->0),
        },
    ensures
        ({
            let file = committed_file(disk, w);
            let header = crate::header::Header {
                version: crate::header::FORMAT_VERSION,
                chunk_size: v.chunk_size,
                catalog_offset: w.offset,
                catalog_len: w.bytes@.len() as u64,
                encrypted: v.enc is Some,
            };
            &&& crate::vault::open::opening_of(file.take(4096), password) == Ok::<
                crate::vault::open::OpeningView,
                VaultError,
            >(crate::vault::open::OpeningView { header, enc: v.enc })
            &&& crate::vault::open::catalog_plain(
                v.enc,
                file.subrange(w.offset as int, w.offset + w.bytes@.len()),
            ) == Ok::<Seq<u8>, VaultError>(raw)
            &&& crate::vault::open::codec_of(header.version) == Ok::<
                crate::vault::open::CatalogCodec,
                VaultError,
            >(crate::vault::open::CatalogCodec::MessagePack)
        }),
{
    let file = committed_file(disk, w);
    let n = w.bytes@.len() as u64;
    crate::header::header_reads_back(v.chunk_size, w.offset, n, v.enc);
    assert(file.take(4096) =~= w.header@);
    assert(file.subrange(w.offset as int, w.offset + w.bytes@.len()) =~= w.bytes@);
    match v.enc {
        None => {},
        Some(e) => {
            crate::header::right_password_unlocks(
                v.chunk_size,
                w.offset,
                n,
                e,
                password->0,
            );
        },
    }
}

/// The vault that a file gives when it is opened and its catalog reads as `catalog`, if it opens.
pub open spec fn reopened(
    file: Seq<u8>,
    password: Option<Seq<char>>,
    catalog: crate::catalog::CatalogView,
) -> Option<VaultView> {
    match crate::vault::open::opening_of(file.take(4096), password) {
        Ok(o) => Some(
            VaultView {
                chunk_size: o.header.chunk_size,
                catalog,
                next_append: (o.header.catalog_offset + o.header.catalog_len) as u64,
                zstd_level: crate::pipeline::DEFAULT_ZSTD_LEVEL,
                enc: o.enc,
            },
        ),
        Err(_) => None,
    }
}

/// A vault that was committed is the same when it is opened again: the tree, the blocks, the
/// snapshots and the quota, the lock and how many bytes are used. Every block has the bytes that
/// it had.
pub proof fn committed_vault_is_as_it_was(
    disk: Seq<u8>,
    v: VaultView,
    w: CatalogWrite,
    raw: Seq<u8>,
    password: Option<Seq<char>>,
)
    requires
        is_catalog_write(w, v.chunk_size, v.next_append, raw, v.enc),
        crate::header::HEADER_SIZE <= v.next_append <= disk.len(),
        w.offset + w.bytes@.len() <= u64::MAX,
        match v.enc {
            None => true,
            Some(e) => password is Some && e.opens_with(password->0),
        },
    ensures
        ({
            let file = committed_file(disk, w);
            let r = reopened(file, password, v.catalog);
            &&& r == Some(
                VaultView {
                    next_append: (w.offset + w.bytes@.len()) as u64,
                    zstd_level: crate::pipeline::DEFAULT_ZSTD_LEVEL,
                    ..v
                },
            )
            &&& r->0.next_append <= file.len()
            &&& forall|a: int, n: int|
                #![trigger file.subrange(a, n)]
                crate::header::HEADER_SIZE <= a <= n <= v.next_append ==> file.subrange(a, n)
                    == disk.subrange(a, n)
            &&& crate::vault::laws::intact(v, disk) ==> crate::vault::laws::intact(r->0, file)
        }),
{
    committed_vault_opens(disk, v, w, raw, password);
    let file = committed_file(disk, w);
    crate::header::header_reads_back(v.chunk_size, w.offset, w.bytes@.len() as u64, v.enc);
    assert forall|a: int, n: int|
        #![trigger file.subrange(a, n)]
        crate::header::HEADER_SIZE <= a <= n <= v.next_append implies file.subrange(a, n)
        == disk.subrange(a, n) by {
        assert(file.subrange(a, n) =~= disk.subrange(a, n));
    }
    let r = reopened(file, password, v.catalog)->0;
    if crate::vault::laws::intact(v, disk) {
        assert forall|h: Seq<u8>| #[trigger] v.catalog.blocks.contains_key(
            h,
        ) implies crate::vault::laws::content_at(file, v.catalog.blocks[h], r.key())
            == crate::vault::laws::content_at(disk, v.catalog.blocks[h], v.key()) by {
            let b = v.catalog.blocks[h];
            assert(file.subrange(b.offset as int, b.offset + b.len) == disk.subrange(
                b.offset as int,
                b.offset + b.len,
            ));
        }
    }
}

} // verus!
