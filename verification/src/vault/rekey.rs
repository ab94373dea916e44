//! Rewriting a vault under another password, or under none.

use crate::catalog::{BlockMap, BlockRef, Catalog};
use crate::error::VaultError;
use crate::header::{EncState, HEADER_SIZE};
use crate::pipeline::encode_block;
use crate::sorted::SortedMap;
use crate::vault::write::BlockWrite;
use crate::vault::Vault;
use vstd::prelude::*;

verus! {

/// A new file that is being written under another lock.
pub struct Rekey {
    enc: Option<EncState>,
    index: BlockMap,
    next: u64,
}

/// A new file as a value.
#[verifier::ext_equal]
pub struct RekeyView {
    pub enc: Option<crate::header::EncView>,
    pub blocks: Map<Seq<u8>, BlockRef>,
    /// Where the next block goes.
    pub next: u64,
}

impl View for Rekey {
    type V = RekeyView;

    closed spec fn view(&self) -> RekeyView {
        RekeyView {
            enc: match self.enc {
                Some(e) => Some(e@),
                None => None,
            },
            blocks: self.index@,
            next: self.next,
        }
    }
}

impl RekeyView {
    /// The key that the new blocks are sealed with.
    pub open spec fn key(self) -> Option<Seq<u8>> {
        match self.enc {
            Some(e) => Some(e.key),
            None => None,
        }
    }
}

/// The file once `w` is in its index.
pub open spec fn rekey_after(s: RekeyView, w: BlockWrite) -> RekeyView {
    RekeyView {
        blocks: s.blocks.insert(w.hash@, crate::vault::write::place_of(w)),
        next: (s.next + w.bytes@.len()) as u64,
        ..s
    }
}

/// A vault that was rewritten: what is left is to write its catalog at the end.
pub struct Rekeyed {
    pub catalog: Catalog,
    pub end: u64,
    pub enc: Option<EncState>,
}

impl Rekey {
    pub closed spec fn wf(self) -> bool {
        self.index.wf() && (self.enc matches Some(e) ==> e@.fits())
    }

    /// Where the next block goes.
    pub fn next(&self) -> (r: u64)
        ensures
            r == self@.next,
    {
        self.next
    }

    /// Gives a block that was encoded its place at the end of the new file.
    pub fn place_block(&mut self, hash: crate::pipeline::Hash, stored: Vec<u8>, raw_len: u32) -> (r:
        BlockWrite)
        requires
            old(self).wf(),
            old(self)@.next + stored@.len() <= u64::MAX,
        ensures
            final(self).wf(),
            r == (BlockWrite { hash, offset: old(self)@.next, bytes: stored, raw_len }),
            final(self)@ == rekey_after(old(self)@, r),
    {
        let ghost before = self@;
        let offset: u64 = self.next;
        let len: u32 = stored.len() as u32;
        self.index.insert(hash, BlockRef { offset, len, raw_len });
        self.next = offset + stored.len() as u64;
        let w = BlockWrite { hash, offset, bytes: stored, raw_len };
        assert(self@ =~= rekey_after(before, w));
        w
    }

    fn key(&self) -> (r: Option<&[u8; 32]>)
        ensures
            crate::pipeline::key_view(r) == self@.key(),
    {
        match &self.enc {
            Some(e) => Some(e.key()),
            None => None,
        }
    }
}

impl Vault {
    /// Starts a new file under `new_password`, or under none. The blocks of
    /// [`Vault::live_blocks`] go into it.
    pub fn rekey_to(new_password: Option<&str>) -> (r: Result<Rekey, VaultError>)
        ensures
            match r {
                Ok(s) => {
                    &&& s.wf()
                    &&& s@.blocks == Map::<Seq<u8>, BlockRef>::empty()
                    &&& s@.next == HEADER_SIZE
                    &&& match new_password {
                        None => s@.enc is None,
                        Some(p) => s@.enc is Some && s@.enc->0.made_with(p@),
                    }
                },
                Err(e) => e == VaultError::KeyDerivation && new_password is Some
                    && !crate::crypto::derivable(
                    vstd::utf8::encode_utf8(new_password->0@).len(),
                    16,
                ),
            },
    {
        let enc = match new_password {
            None => None,
            Some(p) => match EncState::new(p) {
                Err(e) => {
                    return Err(e);
                },
                Ok(e) => Some(e),
            },
        };
        Ok(Rekey { enc, index: SortedMap::new(), next: HEADER_SIZE })
    }

    /// Puts a block with the content `plain` into the new file. Its address stays.
    pub fn rekey_block(&self, s: &mut Rekey, hash: &crate::pipeline::Hash, plain: &[u8]) -> (r:
        Result<BlockWrite, VaultError>)
        requires
            self.wf(),
            old(s).wf(),
            old(s)@.next + plain@.len() + 41 <= u64::MAX,
        ensures
            final(s).wf(),
            match r {
                Ok(w) => {
                    &&& w.hash@ == hash@
                    &&& w.offset == old(s)@.next
                    &&& w.raw_len == plain@.len() as u32
                    &&& crate::pipeline::is_block(
                        w.bytes@,
                        plain@,
                        self@.zstd_level,
                        old(s)@.key(),
                    )
                    &&& w.bytes@.len() == crate::pipeline::block_len(
                        plain@,
                        self@.zstd_level,
                        old(s)@.key(),
                    )
                    &&& final(s)@ == rekey_after(old(s)@, w)
                    &&& crate::pipeline::encodable(plain@, self@.zstd_level, old(s)@.key())
                },
                Err(e) => {
                    &&& final(s)@ == old(s)@
                    &&& e == VaultError::Encrypt
                    &&& !crate::pipeline::encodable(plain@, self@.zstd_level, old(s)@.key())
                },
            },
    {
        let ghost before = s@;
        match encode_block(plain, self.zstd_level, s.key()) {
            Err(e) => Err(e),
            Ok(stored) => {
                proof {
                    crate::pipeline::stored_block_size(
                        stored@,
                        plain@,
                        self@.zstd_level,
                        before.key(),
                    );
                }
                Ok(s.place_block(*hash, stored, plain.len() as u32))
            },
        }
    }

    /// Closes the new file. The tree, the snapshots and the quota go along unchanged.
    pub fn rekey_finish(&self, s: Rekey) -> (r: Rekeyed)
        requires
            self.wf(),
            s.wf(),
        ensures
            r.catalog.wf(),
            r.catalog@ == (crate::catalog::CatalogView {
                blocks: s@.blocks,
                ..self@.catalog
            }),
            r.end == s@.next,
            match r.enc {
                Some(e) => s@.enc == Some(e@),
                None => s@.enc is None,
            },
            r.enc matches Some(e) ==> e@.fits(),
    {
        Rekeyed { catalog: self.catalog_with(s.index), end: s.next, enc: s.enc }
    }
}

/// The blocks of a vault that is being rekeyed are sealed with the key of the new lock; each that
/// is placed lies right behind those before it.
pub proof fn rekeyed_blocks_follow_each_other(s: RekeyView, w: BlockWrite, h: Seq<u8>)
    requires
        w.offset == s.next,
        w.bytes@.len() <= u32::MAX,
        s.next + w.bytes@.len() <= u64::MAX,
    ensures
        ({
            let r = rekey_after(s, w);
            &&& r.enc == s.enc && r.next == s.next + w.bytes@.len()
            &&& r.blocks.contains_key(w.hash@)
            &&& r.blocks[w.hash@].offset == s.next && r.blocks[w.hash@].len == w.bytes@.len()
                && r.blocks[w.hash@].raw_len == w.raw_len
            &&& h != w.hash@ ==> (r.blocks.contains_key(h) <==> s.blocks.contains_key(h))
            &&& h != w.hash@ && s.blocks.contains_key(h) ==> r.blocks[h] == s.blocks[h]
        }),
        s.enc is None ==> s.key() is None,
        s.enc matches Some(e) ==> s.key() == Some(e.key),
{
}

} // verus!
