//! The index of a vault: blocks, files, explicit directories, snapshots and the quota.

use crate::sorted::{Duplicate, SortedMap, SortedSet};
use vstd::prelude::*;

verus! {

/// Where a block stands in the file of the vault.
#[derive(Clone, Copy, Debug, PartialEq, Eq, Structural)]
pub struct BlockRef {
    /// Where the flag byte stands.
    pub offset: u64,
    /// How many bytes are stored.
    pub len: u32,
    /// How long the content is.
    pub raw_len: u32,
}

impl View for BlockRef {
    type V = BlockRef;

    open spec fn view(&self) -> BlockRef {
        *self
    }
}

impl Duplicate for BlockRef {
    fn duplicate(&self) -> (r: Self) {
        *self
    }
}

/// One piece of a file: the address of its content and how long it is.
#[derive(Clone, Copy, Debug)]
pub struct ChunkRef {
    pub hash: crate::pipeline::Hash,
    pub len: u32,
}

/// A file of the vault.
#[derive(Debug)]
pub struct FileEntry {
    pub size: u64,
    pub mtime: i64,
    /// The pieces in order.
    pub chunks: Vec<ChunkRef>,
}

/// A file as a value.
#[verifier::ext_equal]
pub struct FileView {
    pub size: u64,
    pub mtime: i64,
    pub chunks: Seq<ChunkRef>,
}

impl View for FileEntry {
    type V = FileView;

    open spec fn view(&self) -> FileView {
        FileView { size: self.size, mtime: self.mtime, chunks: self.chunks@ }
    }
}

impl Duplicate for FileEntry {
    fn duplicate(&self) -> (r: Self) {
        let mut chunks: Vec<ChunkRef> = Vec::new();
        let mut i: usize = 0;
        while i < self.chunks.len()
            invariant
                i <= self.chunks@.len(),
                chunks@ == self.chunks@.take(i as int),
            decreases self.chunks@.len() - i,
        {
            chunks.push(self.chunks[i]);
            assert(self.chunks@.take(i + 1) =~= self.chunks@.take(i as int).push(
                self.chunks@[i as int],
            ));
            i = i + 1;
        }
        assert(self.chunks@.take(i as int) =~= self.chunks@);
        FileEntry { size: self.size, mtime: self.mtime, chunks }
    }
}

/// The files of a tree by path.
pub type FileMap = SortedMap<String, FileEntry>;

/// The explicit directories of a tree.
pub type DirSet = SortedSet<String>;

/// The blocks by address.
pub type BlockMap = SortedMap<crate::pipeline::Hash, BlockRef>;

/// A named version of the tree.
pub struct Snapshot {
    pub name: String,
    /// When it was made, in seconds of Unix time.
    pub created: i64,
    pub files: FileMap,
    pub dirs: DirSet,
}

/// A snapshot as a value.
#[verifier::ext_equal]
pub struct SnapshotView {
    pub name: Seq<char>,
    pub created: i64,
    pub files: Map<Seq<char>, FileView>,
    pub dirs: Set<Seq<char>>,
}

impl View for Snapshot {
    type V = SnapshotView;

    open spec fn view(&self) -> SnapshotView {
        SnapshotView {
            name: self.name@,
            created: self.created,
            files: self.files@,
            dirs: self.dirs@,
        }
    }
}

impl Snapshot {
    pub open spec fn wf(self) -> bool {
        self.files.wf() && self.dirs.wf()
    }

    pub fn copy(&self) -> (r: Self)
        requires
            self.wf(),
        ensures
            r.wf(),
            r@ == self@,
    {
        Snapshot {
            name: self.name.clone(),
            created: self.created,
            files: self.files.copy(),
            dirs: self.dirs.copy(),
        }
    }
}

/// The index of a vault.
pub struct Catalog {
    /// Content to place.
    pub blocks: BlockMap,
    /// Path to file, for the current tree.
    pub files: FileMap,
    /// The named versions, oldest first.
    pub snapshots: Vec<Snapshot>,
    /// The directories that were made as such; those that files imply are not here.
    pub dirs: DirSet,
    /// The most bytes that the file of the vault may take.
    pub quota: Option<u64>,
}

/// A catalog as a value.
#[verifier::ext_equal]
pub struct CatalogView {
    pub blocks: Map<Seq<u8>, BlockRef>,
    pub files: Map<Seq<char>, FileView>,
    pub snapshots: Seq<SnapshotView>,
    pub dirs: Set<Seq<char>>,
    pub quota: Option<u64>,
}

/// The views of the snapshots.
pub open spec fn snapshot_views(s: Seq<Snapshot>) -> Seq<SnapshotView> {
    Seq::new(s.len(), |i: int| s[i]@)
}

impl View for Catalog {
    type V = CatalogView;

    open spec fn view(&self) -> CatalogView {
        CatalogView {
            blocks: self.blocks@,
            files: self.files@,
            snapshots: snapshot_views(self.snapshots@),
            dirs: self.dirs@,
            quota: self.quota,
        }
    }
}

/// The catalog of a new vault.
pub open spec fn empty_catalog() -> CatalogView {
    CatalogView {
        blocks: Map::empty(),
        files: Map::empty(),
        snapshots: Seq::empty(),
        dirs: Set::empty(),
        quota: None,
    }
}

impl Catalog {
    pub open spec fn wf(self) -> bool {
        &&& self.blocks.wf()
        &&& self.files.wf()
        &&& self.dirs.wf()
        &&& forall|i: int| 0 <= i < self.snapshots@.len() ==> (#[trigger] self.snapshots@[i]).wf()
    }
}

impl Default for Catalog {
    fn default() -> (r: Self)
        ensures
            r.wf(),
            r@ == empty_catalog(),
    {
        let r = Catalog {
            blocks: SortedMap::new(),
            files: SortedMap::new(),
            snapshots: Vec::new(),
            dirs: SortedSet::new(),
            quota: None,
        };
        assert(r@ =~= empty_catalog());
        r
    }
}

/// Copies of the snapshots.
pub fn copy_snapshots(s: &Vec<Snapshot>) -> (r: Vec<Snapshot>)
    requires
        forall|i: int| 0 <= i < s@.len() ==> (#[trigger] s@[i]).wf(),
    ensures
        forall|i: int| 0 <= i < r@.len() ==> (#[trigger] r@[i]).wf(),
        snapshot_views(r@) == snapshot_views(s@),
{
    let mut r: Vec<Snapshot> = Vec::new();
    let mut i: usize = 0;
    while i < s.len()
        invariant
            i <= s@.len(),
            r@.len() == i,
            forall|j: int| 0 <= j < s@.len() ==> (#[trigger] s@[j]).wf(),
            forall|j: int| 0 <= j < i ==> (#[trigger] r@[j]).wf() && r@[j]@ == s@[j]@,
        decreases s@.len() - i,
    {
        r.push(s[i].copy());
        i = i + 1;
    }
    assert(snapshot_views(r@) =~= snapshot_views(s@));
    r
}

/// A file is recorded by its size, its time and its chunks; a snapshot by its name, its time, its
/// files and its directories, and snapshots one by one.
pub proof fn catalog_holds_what_is_recorded(
    f: FileEntry,
    s: Snapshot,
    snapshots: Seq<Snapshot>,
    c: Catalog,
    i: int,
)
    ensures
        f@.size == f.size && f@.mtime == f.mtime && f@.chunks == f.chunks@,
        s@.name == s.name@ && s@.created == s.created && s@.files == s.files@ && s@.dirs == s.dirs@,
        snapshot_views(snapshots).len() == snapshots.len(),
        0 <= i < snapshots.len() ==> snapshot_views(snapshots)[i] == snapshots[i]@,
        c@.blocks == c.blocks@ && c@.files == c.files@ && c@.dirs == c.dirs@ && c@.quota == c.quota,
        c@.snapshots == snapshot_views(c.snapshots@),
{
}

} // verus!
