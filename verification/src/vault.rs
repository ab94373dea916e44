//! An open vault: its catalog, where the next block goes and how blocks are sealed.
//!
//! A vault does no input or output. What has to be written is handed out as [`BlockWrite`]s and
//! what was read is handed in as bytes.

pub mod add;
pub mod commit;
pub mod fetch;
pub mod integrity;
pub mod integrity_laws;
pub mod io_laws;
pub mod laws;
pub mod list;
pub mod list_laws;
pub mod moves;
pub mod open;
pub mod read;
pub mod rekey;
pub mod rename_laws;
pub mod repair;
pub mod repair_laws;
pub mod rewrite;
pub mod rewrite_laws;
pub mod search;
pub mod snapshots;
pub mod stats;
pub mod stream;
pub mod tree;
pub mod tree_laws;
pub mod write;

use crate::catalog::Catalog;
use crate::error::VaultError;
use crate::header::{EncState, HEADER_SIZE};
use crate::pipeline::DEFAULT_ZSTD_LEVEL;
use vstd::prelude::*;

verus! {

/// An open vault.
pub struct Vault {
    chunk_size: u32,
    catalog: Catalog,
    /// Where the next block goes.
    next_append: u64,
    zstd_level: i32,
    enc: Option<EncState>,
}

/// A vault as a value.
#[verifier::ext_equal]
pub struct VaultView {
    pub chunk_size: u32,
    pub catalog: crate::catalog::CatalogView,
    pub next_append: u64,
    pub zstd_level: i32,
    pub enc: Option<crate::header::EncView>,
}

impl VaultView {
    /// The key that blocks are sealed with.
    pub open spec fn key(self) -> Option<Seq<u8>> {
        match self.enc {
            Some(e) => Some(e.key),
            None => None,
        }
    }
}

impl View for Vault {
    type V = VaultView;

    closed spec fn view(&self) -> VaultView {
        VaultView {
            chunk_size: self.chunk_size,
            catalog: self.catalog@,
            next_append: self.next_append,
            zstd_level: self.zstd_level,
            enc: match self.enc {
                Some(e) => Some(e@),
                None => None,
            },
        }
    }
}

/// A new vault with this lock.
pub open spec fn fresh(chunk_size: u32, enc: Option<crate::header::EncView>) -> VaultView {
    VaultView {
        chunk_size,
        catalog: crate::catalog::empty_catalog(),
        next_append: HEADER_SIZE,
        zstd_level: DEFAULT_ZSTD_LEVEL,
        enc,
    }
}

impl Vault {
    pub closed spec fn wf(self) -> bool {
        &&& self.catalog.wf()
        &&& self.enc matches Some(e) ==> e@.fits()
    }

    /// A new empty vault without a password.
    pub fn create(chunk_size: u32) -> (r: Vault)
        ensures
            r.wf(),
            r@ == fresh(chunk_size, None),
    {
        Vault::create_inner(chunk_size, None)
    }

    /// A new empty vault that `password` locks.
    pub fn create_encrypted(chunk_size: u32, password: &str) -> (r: Result<Vault, VaultError>)
        ensures
            match r {
                Ok(v) => v.wf() && v@ == fresh(chunk_size, v@.enc) && v@.enc is Some
                    && v@.enc->0.made_with(password@),
                Err(e) => e == VaultError::KeyDerivation && !crate::crypto::derivable(
                    vstd::utf8::encode_utf8(password@).len(),
                    16,
                ),
            },
    {
        match EncState::new(password) {
            Ok(e) => Ok(Vault::create_inner(chunk_size, Some(e))),
            Err(e) => Err(e),
        }
    }

    fn create_inner(chunk_size: u32, enc: Option<EncState>) -> (r: Vault)
        requires
            enc matches Some(e) ==> e@.fits(),
        ensures
            r.wf(),
            r@ == fresh(
                chunk_size,
                match enc {
                    Some(e) => Some(e@),
                    None => None,
                },
            ),
    {
        Vault {
            chunk_size,
            catalog: Catalog::default(),
            next_append: HEADER_SIZE,
            zstd_level: DEFAULT_ZSTD_LEVEL,
            enc,
        }
    }

    pub fn catalog(&self) -> (r: &Catalog)
        requires
            self.wf(),
        ensures
            r.wf(),
            r@ == self@.catalog,
    {
        &self.catalog
    }

    pub fn is_encrypted(&self) -> (r: bool)
        ensures
            r == (self@.enc is Some),
    {
        match &self.enc {
            Some(_) => true,
            None => false,
        }
    }

    /// The average chunk size that the vault aims at.
    pub fn chunk_size(&self) -> (r: u32)
        ensures
            r == self@.chunk_size,
    {
        self.chunk_size
    }

    /// Sets the zstd level for the blocks that are stored from now on.
    pub fn set_zstd_level(&mut self, level: i32)
        requires
            old(self).wf(),
        ensures
            final(self).wf(),
            final(self)@ == (VaultView { zstd_level: level, ..old(self)@ }),
    {
        self.zstd_level = level;
    }

    /// Sets the most bytes that the file of the vault may take; `None` for no limit.
    pub fn set_quota(&mut self, quota: Option<u64>)
        requires
            old(self).wf(),
        ensures
            final(self).wf(),
            final(self)@ == (VaultView {
                catalog: crate::catalog::CatalogView { quota, ..old(self)@.catalog },
                ..old(self)@
            }),
    {
        self.catalog.quota = quota;
    }

    pub fn quota(&self) -> (r: Option<u64>)
        ensures
            r == self@.catalog.quota,
    {
        self.catalog.quota
    }

    /// How many bytes the file of the vault takes.
    pub fn used_bytes(&self) -> (r: u64)
        ensures
            r == self@.next_append,
    {
        self.next_append
    }

    /// The key that blocks are sealed with.
    fn key(&self) -> (r: Option<&[u8; 32]>)
        ensures
            crate::pipeline::key_view(r) == self@.key(),
    {
        match &self.enc {
            Some(e) => Some(e.key()),
            None => None,
        }
    }
}

/// `v` with other blocks, and the next one going to `next_append`.
pub open spec fn with_blocks(
    v: VaultView,
    blocks: Map<Seq<u8>, crate::catalog::BlockRef>,
    next_append: u64,
) -> VaultView {
    VaultView {
        catalog: crate::catalog::CatalogView { blocks, ..v.catalog },
        next_append,
        ..v
    }
}

/// `v` with another tree of files and directories.
pub open spec fn with_tree(
    v: VaultView,
    files: Map<Seq<char>, crate::catalog::FileView>,
    dirs: Set<Seq<char>>,
) -> VaultView {
    VaultView { catalog: crate::catalog::CatalogView { files, dirs, ..v.catalog }, ..v }
}

/// A new vault is empty: it has no files, directories, snapshots, blocks or quota, and its first
/// block will lie behind the header.
pub proof fn new_vault_is_empty(chunk_size: u32, enc: Option<crate::header::EncView>, k: Seq<char>)
    ensures
        ({
            let v = fresh(chunk_size, enc);
            &&& !v.catalog.files.contains_key(k) && !v.catalog.dirs.contains(k)
            &&& v.catalog.snapshots.len() == 0 && v.catalog.quota is None
            &&& v.catalog.blocks == Map::<Seq<u8>, crate::catalog::BlockRef>::empty()
            &&& v.next_append == 4096
            &&& v.chunk_size == chunk_size && v.enc == enc && v.zstd_level == 3
        }),
{
}

/// The blocks of a vault are sealed with the key of its lock, and those of one without a lock are
/// not sealed.
pub proof fn blocks_are_sealed_with_the_key_of_the_lock(v: VaultView)
    ensures
        v.enc is None ==> v.key() is None,
        v.enc matches Some(e) ==> v.key() == Some(e.key),
{
}

} // verus!
