//! A mounted vault as the kernel sees it: numbered nodes and files that are open.
//!
//! What needs the file of the vault (contents of closed files, storing what was written) is left
//! to the caller: the session says what to read or to store and is told what came of it.

use crate::mount::inodes::InodeTable;
use crate::naming::{join, parent_path};
use crate::paths::is_root;
use crate::pipeline::bytes_of;
use crate::sorted::SortedMap;
use crate::vault::stream::overlay;
use crate::vault::tree::NodeKind;
use crate::vault::Vault;
use vstd::prelude::*;

verus! {

/// The size of the units that a file's blocks are counted in.
pub const BLOCK: u64 = 512;

/// Why a request is refused.
#[derive(Clone, Copy, Debug, PartialEq, Eq, Structural)]
pub enum Refusal {
    NoEntry,
    Exists,
    IsDirectory,
    NotDirectory,
    NotEmpty,
}

/// The attributes of a node.
#[derive(Clone, Copy, Debug, PartialEq, Eq, Structural)]
pub struct Attr {
    pub ino: u64,
    pub size: u64,
    pub blocks: u64,
    /// Seconds since the epoch.
    pub mtime: u64,
    pub is_dir: bool,
    pub perm: u16,
    pub nlink: u32,
}

/// The content of an open file.
pub struct FileBuf {
    pub data: Vec<u8>,
    /// It differs from what the vault holds.
    pub dirty: bool,
}

/// The content of an open file as a value.
#[verifier::ext_equal]
pub struct BufView {
    pub data: Seq<u8>,
    pub dirty: bool,
}

impl View for FileBuf {
    type V = BufView;

    open spec fn view(&self) -> BufView {
        BufView { data: self.data@, dirty: self.dirty }
    }
}

/// A mounted vault.
pub struct Session {
    table: InodeTable,
    buffers: SortedMap<u64, FileBuf>,
    open: SortedMap<u64, u32>,
}

/// A mounted vault as a value.
#[verifier::ext_equal]
pub struct SessionView {
    pub table: crate::mount::inodes::TableView,
    pub buffers: Map<u64, BufView>,
    /// How often each node is open.
    pub open: Map<u64, u32>,
}

impl View for Session {
    type V = SessionView;

    closed spec fn view(&self) -> SessionView {
        SessionView { table: self.table@, buffers: self.buffers@, open: self.open@ }
    }
}

/// A time without what lies before the epoch.
pub open spec fn since_epoch(secs: i64) -> u64 {
    if secs <= 0 {
        0
    } else {
        secs as u64
    }
}

/// How many units a size takes, the last one perhaps not full.
pub open spec fn units(size: u64) -> nat {
    ((size + BLOCK - 1) / BLOCK as int) as nat
}

/// The attributes of a node.
pub open spec fn attributes(ino: u64, size: u64, mtime: i64, is_dir: bool) -> Attr {
    Attr {
        ino,
        size,
        blocks: units(size) as u64,
        mtime: since_epoch(mtime),
        is_dir,
        perm: if is_dir {
            0o755
        } else {
            0o644
        },
        nlink: if is_dir {
            2
        } else {
            1
        },
    }
}

/// The attributes of the node `ino` at `path`: those of its open content if there is one, else
/// those in the vault.
pub open spec fn attributes_at(
    s: SessionView,
    v: crate::vault::VaultView,
    ino: u64,
    path: Seq<char>,
    now: i64,
) -> Option<Attr> {
    if s.buffers.contains_key(ino) {
        Some(attributes(ino, s.buffers[ino].data.len() as u64, now, false))
    } else {
        match crate::vault::tree::resolved(v, path) {
            Some(NodeKind::Dir) => Some(attributes(ino, 0, 0, true)),
            Some(NodeKind::File { size, mtime }) => Some(attributes(ino, size, mtime, false)),
            None => None,
        }
    }
}

/// The path of the child `name` of the node `parent`, if there is such a node.
pub open spec fn child_path(s: SessionView, parent: u64, name: Seq<char>) -> Option<Seq<char>> {
    if s.table.by_ino.contains_key(parent) {
        Some(crate::naming::child_of(s.table.by_ino[parent], name))
    } else {
        None
    }
}

/// `s` with a number for `path`.
pub open spec fn with_number(s: SessionView, path: Seq<char>) -> SessionView {
    SessionView { table: crate::mount::inodes::interned(s.table, path), ..s }
}

/// The number of `path` once it has one.
pub open spec fn number(s: SessionView, path: Seq<char>) -> u64 {
    with_number(s, path).table.by_path[path]
}

/// `s` without the node at `path` and what is open of it.
pub open spec fn without_node(s: SessionView, path: Seq<char>) -> SessionView {
    if s.table.by_path.contains_key(path) {
        let ino = s.table.by_path[path];
        SessionView {
            table: crate::mount::inodes::forgotten(s.table, path),
            buffers: s.buffers.remove(ino),
            open: s.open.remove(ino),
        }
    } else {
        s
    }
}

/// How often a node is open.
pub open spec fn opens(s: SessionView, ino: u64) -> u32 {
    if s.open.contains_key(ino) {
        s.open[ino]
    } else {
        0
    }
}

/// `s` with the node open once more.
pub open spec fn opened(s: SessionView, ino: u64) -> SessionView {
    SessionView { open: s.open.insert(ino, (opens(s, ino) + 1) as u32), ..s }
}

/// How often the node stays open after one release. A node that was never opened counts as
/// open once.
pub open spec fn still_open(s: SessionView, ino: u64) -> u32 {
    if opens(s, ino) == 0 {
        0
    } else {
        (opens(s, ino) - 1) as u32
    }
}

/// The part of `data` from `offset` on, at most `size` bytes.
pub open spec fn window(data: Seq<u8>, offset: u64, size: u32) -> Seq<u8> {
    let from = if offset < data.len() {
        offset as int
    } else {
        data.len() as int
    };
    let to = if from + size < data.len() {
        from + size
    } else {
        data.len() as int
    };
    data.subrange(from, to)
}

/// `data` cut, or filled up with zeros, to `size` bytes.
pub open spec fn resized(data: Seq<u8>, size: nat) -> Seq<u8> {
    Seq::new(
        size,
        |i: int|
            if i < data.len() {
                data[i]
            } else {
                0u8
            },
    )
}

/// Where the bytes for a read come from.
pub enum ReadFrom {
    /// These are the bytes.
    Open(Vec<u8>),
    /// From the vault, at this path.
    Vault(String),
}

/// A node in the listing of a directory.
pub struct DirItem {
    pub ino: u64,
    /// Where the listing goes on after this node.
    pub next: u64,
    pub is_dir: bool,
    pub name: String,
}

/// A node in the listing of a directory as a value.
#[verifier::ext_equal]
pub struct ItemView {
    pub ino: u64,
    pub next: u64,
    pub is_dir: bool,
    pub name: Seq<char>,
}

impl View for DirItem {
    type V = ItemView;

    open spec fn view(&self) -> ItemView {
        ItemView { ino: self.ino, next: self.next, is_dir: self.is_dir, name: self.name@ }
    }
}

/// The table with numbers for the first `n` children of the directory at `dir`.
pub open spec fn numbered_children(
    t: crate::mount::inodes::TableView,
    dir: Seq<char>,
    es: Seq<crate::vault::list::EntryView>,
    n: int,
) -> crate::mount::inodes::TableView
    decreases n,
{
    if n <= 0 {
        t
    } else {
        crate::mount::inodes::interned(
            numbered_children(t, dir, es, n - 1),
            crate::naming::child_of(dir, es[n - 1].name),
        )
    }
}

/// The number of the directory that `path` stands in; the root stands in itself, and what is
/// not numbered counts as the root.
pub open spec fn number_above(
    t: crate::mount::inodes::TableView,
    ino: u64,
    path: Seq<char>,
) -> u64 {
    if path == crate::paths::root() {
        ino
    } else {
        match crate::naming::parent_of(path) {
            Some(p) => if t.by_path.contains_key(p) {
                t.by_path[p]
            } else {
                1
            },
            None => 1,
        }
    }
}

/// The node `i` of the listing of the directory `ino` at `dir`: itself, the one above it, then
/// its children.
pub open spec fn item(
    t: crate::mount::inodes::TableView,
    ino: u64,
    dir: Seq<char>,
    es: Seq<crate::vault::list::EntryView>,
    i: int,
) -> ItemView {
    if i == 0 {
        ItemView { ino, next: 1, is_dir: true, name: seq!['.'] }
    } else if i == 1 {
        ItemView { ino: number_above(t, ino, dir), next: 2, is_dir: true, name: seq!['.', '.'] }
    } else {
        let e = es[i - 2];
        ItemView {
            ino: numbered_children(t, dir, es, i - 1).by_path[crate::naming::child_of(dir, e.name)],
            next: (i + 1) as u64,
            is_dir: e.is_dir,
            name: e.name,
        }
    }
}

/// The listing of the directory `ino` at `dir` from the node `offset` on.
pub open spec fn items_from(
    t: crate::mount::inodes::TableView,
    ino: u64,
    dir: Seq<char>,
    es: Seq<crate::vault::list::EntryView>,
    offset: u64,
) -> Seq<ItemView> {
    let all = Seq::new((es.len() + 2) as nat, |i: int| item(t, ino, dir, es, i));
    if offset < all.len() {
        all.skip(offset as int)
    } else {
        Seq::empty()
    }
}

/// The views of the items.
pub open spec fn item_views(items: Seq<DirItem>) -> Seq<ItemView> {
    Seq::new(items.len(), |i: int| items[i]@)
}

/// What listing the directory `ino` from `offset` on gives and makes of the session.
pub open spec fn listed(
    s0: SessionView,
    s: SessionView,
    v: crate::vault::VaultView,
    ino: u64,
    offset: u64,
    items: Seq<ItemView>,
    es: Seq<crate::vault::list::EntryView>,
) -> bool {
    let dir = s0.table.by_ino[ino];
    &&& crate::vault::list::is_listing(
        v,
        crate::vault::list::list_prefix(crate::paths::normal(dir)),
        es,
    )
    &&& s == (SessionView {
        table: numbered_children(s0.table, dir, es, es.len() as int),
        ..s0
    })
    &&& items == items_from(s0.table, ino, dir, es, offset)
}

/// [`listed`] with the children of the directory.
pub open spec fn is_listed(
    s0: SessionView,
    s: SessionView,
    v: crate::vault::VaultView,
    ino: u64,
    offset: u64,
    items: Seq<ItemView>,
) -> bool {
    exists|es: Seq<crate::vault::list::EntryView>| listed(s0, s, v, ino, offset, items, es)
}

fn attributes_of(ino: u64, size: u64, mtime: i64, is_dir: bool) -> (r: Attr)
    ensures
        r == attributes(ino, size, mtime, is_dir),
{
    let whole: u64 = size / BLOCK;
    let blocks: u64 = if size % BLOCK == 0 {
        whole
    } else {
        whole + 1
    };
    let mtime: u64 = if mtime <= 0 {
        0
    } else {
        mtime as u64
    };
    let perm: u16 = if is_dir {
        0o755
    } else {
        0o644
    };
    let nlink: u32 = if is_dir {
        2
    } else {
        1
    };
    Attr { ino, size, blocks, mtime, is_dir, perm, nlink }
}

impl Session {
    pub closed spec fn wf(self) -> bool {
        self.table.wf() && self.buffers.wf() && self.open.wf()
    }

    /// A vault that was just mounted.
    pub fn new(vault: &Vault) -> (r: Session)
        requires
            vault.wf(),
        ensures
            r.wf(),
            r@ == (SessionView {
                table: crate::mount::inodes::numbered(
                    crate::vault::tree::path_order(
                        crate::mount::inodes::first_paths(vault@.catalog),
                    ),
                ),
                buffers: Map::empty(),
                open: Map::empty(),
            }),
    {
        Session {
            table: InodeTable::new(vault.catalog()),
            buffers: SortedMap::new(),
            open: SortedMap::new(),
        }
    }

    /// The path of a node.
    pub fn path_of(&self, ino: u64) -> (r: Option<String>)
        requires
            self.wf(),
        ensures
            match r {
                Some(p) => self@.table.by_ino.contains_key(ino) && self@.table.by_ino[ino] == p@,
                None => !self@.table.by_ino.contains_key(ino),
            },
    {
        self.table.path_of(ino)
    }

    /// The number of a path.
    pub fn number_of(&self, path: &String) -> (r: Option<u64>)
        requires
            self.wf(),
        ensures
            match r {
                Some(i) => self@.table.by_path.contains_key(path@) && self@.table.by_path[path@]
                    == i,
                None => !self@.table.by_path.contains_key(path@),
            },
    {
        self.table.number_of(path)
    }

    /// How often a node is open.
    pub fn open_count(&self, ino: u64) -> (r: u32)
        requires
            self.wf(),
        ensures
            r == opens(self@, ino),
    {
        match self.open.get(&ino) {
            Some(n) => *n,
            None => 0,
        }
    }

    /// The next number that a new node gets.
    pub fn next_number(&self) -> (r: u64)
        requires
            self.wf(),
        ensures
            r == self@.table.next,
    {
        self.table.next_number()
    }

    fn child(&self, parent: u64, name: &str) -> (r: Option<String>)
        requires
            self.wf(),
        ensures
            match r {
                Some(p) => child_path(self@, parent, name@) == Some(p@),
                None => child_path(self@, parent, name@) is None,
            },
    {
        match self.table.path_of(parent) {
            Some(p) => Some(join(&p, name)),
            None => None,
        }
    }

    fn attr_of(&self, vault: &Vault, ino: u64, path: &String, now: i64) -> (r: Option<Attr>)
        requires
            self.wf(),
            vault.wf(),
        ensures
            r == attributes_at(self@, vault@, ino, path@, now),
    {
        if let Some(b) = self.buffers.get(&ino) {
            let n: usize = b.data.len();
            return Some(attributes_of(ino, n as u64, now, false));
        }
        match vault.resolve(path.as_str()) {
            Some(NodeKind::Dir) => Some(attributes_of(ino, 0, 0, true)),
            Some(NodeKind::File { size, mtime }) => Some(attributes_of(ino, size, mtime, false)),
            None => None,
        }
    }

    /// Looks a child up by name and gives it a number.
    pub fn lookup(&mut self, vault: &Vault, parent: u64, name: &str, now: i64) -> (r: Result<
        Attr,
        Refusal,
    >)
        requires
            old(self).wf(),
            vault.wf(),
            old(self)@.table.next < u64::MAX,
        ensures
            final(self).wf(),
            match child_path(old(self)@, parent, name@) {
                Some(c) => match crate::vault::tree::resolved(vault@, c) {
                    Some(_) => {
                        &&& final(self)@ == with_number(old(self)@, c)
                        &&& r matches Ok(a) && Some(a) == attributes_at(
                            final(self)@,
                            vault@,
                            number(old(self)@, c),
                            c,
                            now,
                        )
                    },
                    None => r == Err::<Attr, Refusal>(Refusal::NoEntry) && final(self)@
                        == old(self)@,
                },
                None => r == Err::<Attr, Refusal>(Refusal::NoEntry) && final(self)@ == old(self)@,
            },
    {
        let child = match self.child(parent, name) {
            Some(c) => c,
            None => {
                return Err(Refusal::NoEntry);
            },
        };
        if vault.resolve(child.as_str()).is_none() {
            return Err(Refusal::NoEntry);
        }
        let ino: u64 = self.table.intern(&child);
        match self.attr_of(vault, ino, &child, now) {
            Some(a) => Ok(a),
            None => Err(Refusal::NoEntry),
        }
    }

    /// The attributes of a node.
    pub fn getattr(&self, vault: &Vault, ino: u64, now: i64) -> (r: Result<Attr, Refusal>)
        requires
            self.wf(),
            vault.wf(),
        ensures
            match r {
                Ok(a) => self@.table.by_ino.contains_key(ino) && attributes_at(
                    self@,
                    vault@,
                    ino,
                    self@.table.by_ino[ino],
                    now,
                ) == Some(a),
                Err(e) => e == Refusal::NoEntry && (!self@.table.by_ino.contains_key(ino)
                    || attributes_at(self@, vault@, ino, self@.table.by_ino[ino], now) is None),
            },
    {
        match self.table.path_of(ino) {
            Some(path) => match self.attr_of(vault, ino, &path, now) {
                Some(a) => Ok(a),
                None => Err(Refusal::NoEntry),
            },
            None => Err(Refusal::NoEntry),
        }
    }

    fn count_open(&mut self, ino: u64)
        requires
            old(self).wf(),
            opens(old(self)@, ino) < u32::MAX,
        ensures
            final(self).wf(),
            final(self)@ == opened(old(self)@, ino),
    {
        let n: u32 = self.open_count(ino);
        self.open.insert(ino, n + 1);
    }

    /// Opens a node.
    pub fn open(&mut self, ino: u64) -> (r: Result<(), Refusal>)
        requires
            old(self).wf(),
            opens(old(self)@, ino) < u32::MAX,
        ensures
            final(self).wf(),
            if old(self)@.table.by_ino.contains_key(ino) {
                r is Ok && final(self)@ == opened(old(self)@, ino)
            } else {
                r == Err::<(), Refusal>(Refusal::NoEntry) && final(self)@ == old(self)@
            },
    {
        if self.table.path_of(ino).is_none() {
            return Err(Refusal::NoEntry);
        }
        self.count_open(ino);
        Ok(())
    }

    /// Releases a node once; `true` if it is not open any more. Then what was written is to be
    /// stored, and [`Session::close`] ends it.
    pub fn release(&mut self, ino: u64) -> (r: bool)
        requires
            old(self).wf(),
        ensures
            final(self).wf(),
            r == (still_open(old(self)@, ino) == 0),
            final(self)@ == (SessionView {
                open: if r {
                    old(self)@.open.remove(ino)
                } else {
                    old(self)@.open.insert(ino, still_open(old(self)@, ino))
                },
                ..old(self)@
            }),
    {
        let n: u32 = self.open_count(ino);
        if n <= 1 {
            let _ = self.open.remove(&ino);
            true
        } else {
            self.open.insert(ino, n - 1);
            false
        }
    }

    /// Drops the open content of a node.
    pub fn close(&mut self, ino: u64)
        requires
            old(self).wf(),
        ensures
            final(self).wf(),
            final(self)@ == (SessionView { buffers: old(self)@.buffers.remove(ino), ..old(self)@ }),
    {
        let _ = self.buffers.remove(&ino);
    }

    /// Reads from a node: what its open content holds, or where in the vault to read.
    pub fn read(&self, ino: u64, offset: u64, size: u32) -> (r: Result<ReadFrom, Refusal>)
        requires
            self.wf(),
        ensures
            match r {
                Ok(ReadFrom::Open(b)) => self@.table.by_ino.contains_key(ino)
                    && self@.buffers.contains_key(ino) && b@ == window(
                    self@.buffers[ino].data,
                    offset,
                    size,
                ),
                Ok(ReadFrom::Vault(p)) => self@.table.by_ino.contains_key(ino)
                    && !self@.buffers.contains_key(ino) && p@ == self@.table.by_ino[ino],
                Err(e) => e == Refusal::NoEntry && !self@.table.by_ino.contains_key(ino),
            },
    {
        let path = match self.table.path_of(ino) {
            Some(p) => p,
            None => {
                return Err(Refusal::NoEntry);
            },
        };
        match self.buffers.get(&ino) {
            None => Ok(ReadFrom::Vault(path)),
            Some(b) => {
                let n: usize = b.data.len();
                let from: usize = if offset < n as u64 {
                    offset as usize
                } else {
                    n
                };
                let to: usize = if (size as u64) < (n - from) as u64 {
                    from + size as usize
                } else {
                    n
                };
                let part = bytes_of(vstd::slice::slice_subrange(b.data.as_slice(), from, to));
                Ok(ReadFrom::Open(part))
            },
        }
    }

    /// What has to be loaded before a node can be written: nothing if it has open content, else
    /// the file at this path with this size.
    pub fn content_needed(&self, vault: &Vault, ino: u64) -> (r: Result<
        Option<(String, u64)>,
        Refusal,
    >)
        requires
            self.wf(),
            vault.wf(),
        ensures
            match r {
                Ok(None) => self@.table.by_ino.contains_key(ino) && self@.buffers.contains_key(ino),
                Ok(Some((p, n))) => {
                    &&& self@.table.by_ino.contains_key(ino)
                    &&& !self@.buffers.contains_key(ino)
                    &&& p@ == self@.table.by_ino[ino]
                    &&& n == (match crate::vault::tree::resolved(vault@, p@) {
                        Some(NodeKind::File { size, mtime }) => size,
                        _ => 0,
                    })
                },
                Err(e) => e == Refusal::NoEntry && !self@.table.by_ino.contains_key(ino),
            },
    {
        match self.table.path_of(ino) {
            None => Err(Refusal::NoEntry),
            Some(path) => {
                if self.buffers.contains_key(&ino) {
                    return Ok(None);
                }
                let size: u64 = match vault.resolve(path.as_str()) {
                    Some(NodeKind::File { size, mtime }) => size,
                    _ => 0,
                };
                Ok(Some((path, size)))
            },
        }
    }

    /// Takes `data` as the open content of a node.
    pub fn load(&mut self, ino: u64, data: Vec<u8>)
        requires
            old(self).wf(),
        ensures
            final(self).wf(),
            final(self)@ == (SessionView {
                buffers: old(self)@.buffers.insert(ino, BufView { data: data@, dirty: false }),
                ..old(self)@
            }),
    {
        let b = FileBuf { data, dirty: false };
        self.buffers.insert(ino, b);
    }

    /// Writes into the open content of a node; gives how many bytes were taken. `None` if the
    /// node has no open content.
    pub fn write(&mut self, ino: u64, offset: usize, data: &[u8]) -> (r: Option<usize>)
        requires
            old(self).wf(),
            offset + data@.len() <= usize::MAX,
        ensures
            final(self).wf(),
            if old(self)@.buffers.contains_key(ino) {
                &&& r == Some(data@.len() as usize)
                &&& final(self)@ == (SessionView {
                    buffers: old(self)@.buffers.insert(
                        ino,
                        BufView {
                            data: crate::vault::stream::overwritten(
                                old(self)@.buffers[ino].data,
                                offset as int,
                                data@,
                            ),
                            dirty: true,
                        },
                    ),
                    ..old(self)@
                })
            } else {
                r is None && final(self)@ == old(self)@
            },
    {
        match self.buffers.remove(&ino) {
            None => None,
            Some(mut b) => {
                overlay(&mut b.data, offset, data);
                b.dirty = true;
                self.buffers.insert(ino, b);
                assert(self@.buffers =~= old(self)@.buffers.insert(
                    ino,
                    BufView {
                        data: crate::vault::stream::overwritten(
                            old(self)@.buffers[ino].data,
                            offset as int,
                            data@,
                        ),
                        dirty: true,
                    },
                ));
                Some(data.len())
            },
        }
    }

    /// Gives the open content of a node another size; `false` if it has none.
    pub fn resize(&mut self, ino: u64, size: usize) -> (r: bool)
        requires
            old(self).wf(),
        ensures
            final(self).wf(),
            r == old(self)@.buffers.contains_key(ino),
            final(self)@ == (if r {
                SessionView {
                    buffers: old(self)@.buffers.insert(
                        ino,
                        BufView {
                            data: resized(old(self)@.buffers[ino].data, size as nat),
                            dirty: true,
                        },
                    ),
                    ..old(self)@
                }
            } else {
                old(self)@
            }),
    {
        match self.buffers.remove(&ino) {
            None => false,
            Some(mut b) => {
                let ghost before = b.data@;
                set_len(&mut b.data, size);
                b.dirty = true;
                self.buffers.insert(ino, b);
                assert(self@.buffers =~= old(self)@.buffers.insert(
                    ino,
                    BufView { data: resized(before, size as nat), dirty: true },
                ));
                true
            },
        }
    }

    /// Makes an empty file and opens it.
    pub fn create(&mut self, vault: &mut Vault, parent: u64, name: &str, now: i64) -> (r: Result<
        Attr,
        Refusal,
    >)
        requires
            old(self).wf(),
            old(vault).wf(),
            old(self)@.table.next < u64::MAX,
            match child_path(old(self)@, parent, name@) {
                Some(c) => opens(old(self)@, number(old(self)@, c)) < u32::MAX,
                None => true,
            },
        ensures
            final(self).wf(),
            final(vault).wf(),
            match child_path(old(self)@, parent, name@) {
                Some(c) => if crate::vault::tree::resolved(old(vault)@, c) is None {
                    let s = with_number(old(self)@, c);
                    let ino = number(old(self)@, c);
                    &&& r == Ok::<Attr, Refusal>(attributes(ino, 0, now, false))
                    &&& final(vault)@ == crate::vault::write::linked(
                        old(vault)@,
                        c,
                        crate::catalog::FileView { size: 0, mtime: now, chunks: Seq::empty() },
                    )
                    &&& final(self)@ == opened(
                        SessionView {
                            buffers: s.buffers.insert(
                                ino,
                                BufView { data: Seq::empty(), dirty: false },
                            ),
                            ..s
                        },
                        ino,
                    )
                } else {
                    &&& r == Err::<Attr, Refusal>(Refusal::Exists)
                    &&& final(self)@ == old(self)@
                    &&& final(vault)@ == old(vault)@
                },
                None => r == Err::<Attr, Refusal>(Refusal::NoEntry) && final(self)@ == old(self)@
                    && final(vault)@ == old(vault)@,
            },
    {
        let child = match self.child(parent, name) {
            Some(c) => c,
            None => {
                return Err(Refusal::NoEntry);
            },
        };
        if vault.resolve(child.as_str()).is_some() {
            return Err(Refusal::Exists);
        }
        // An empty file needs no blocks.
        vault.link_file(child.as_str(), 0, now, Vec::new());
        let ino: u64 = self.table.intern(&child);
        self.load(ino, Vec::new());
        self.count_open(ino);
        Ok(attributes_of(ino, 0, now, false))
    }

    /// Makes a directory.
    pub fn mkdir(&mut self, vault: &mut Vault, parent: u64, name: &str, now: i64) -> (r: Result<
        Attr,
        Refusal,
    >)
        requires
            old(self).wf(),
            old(vault).wf(),
            old(self)@.table.next < u64::MAX,
        ensures
            final(self).wf(),
            final(vault).wf(),
            match child_path(old(self)@, parent, name@) {
                Some(c) => if crate::vault::tree::resolved(old(vault)@, c) is None {
                    &&& r == Ok::<Attr, Refusal>(attributes(number(old(self)@, c), 0, now, true))
                    &&& final(vault)@ == crate::vault::with_tree(
                        old(vault)@,
                        old(vault)@.catalog.files,
                        old(vault)@.catalog.dirs.insert(crate::paths::normal(c)),
                    )
                    &&& final(self)@ == with_number(old(self)@, c)
                } else {
                    &&& r == Err::<Attr, Refusal>(Refusal::Exists)
                    &&& final(self)@ == old(self)@
                    &&& final(vault)@ == old(vault)@
                },
                None => r == Err::<Attr, Refusal>(Refusal::NoEntry) && final(self)@ == old(self)@
                    && final(vault)@ == old(vault)@,
            },
    {
        let child = match self.child(parent, name) {
            Some(c) => c,
            None => {
                return Err(Refusal::NoEntry);
            },
        };
        if vault.resolve(child.as_str()).is_some() {
            return Err(Refusal::Exists);
        }
        let _ = vault.create_dir(child.as_str());
        let ino: u64 = self.table.intern(&child);
        Ok(attributes_of(ino, 0, now, true))
    }

    fn forget(&mut self, path: &String)
        requires
            old(self).wf(),
        ensures
            final(self).wf(),
            final(self)@ == without_node(old(self)@, path@),
    {
        if let Some(ino) = self.table.forget(path) {
            let _ = self.buffers.remove(&ino);
            let _ = self.open.remove(&ino);
        }
    }

    /// Takes a file out.
    pub fn unlink(&mut self, vault: &mut Vault, parent: u64, name: &str) -> (r: Result<
        (),
        Refusal,
    >)
        requires
            old(self).wf(),
            old(vault).wf(),
        ensures
            final(self).wf(),
            final(vault).wf(),
            match child_path(old(self)@, parent, name@) {
                Some(c) => match crate::vault::tree::resolved(old(vault)@, c) {
                    Some(NodeKind::File { size, mtime }) => {
                        &&& r is Ok
                        &&& final(self)@ == without_node(old(self)@, c)
                        &&& final(vault)@ == crate::vault::with_tree(
                            old(vault)@,
                            old(vault)@.catalog.files.remove(crate::paths::normal(c)),
                            old(vault)@.catalog.dirs,
                        )
                    },
                    Some(NodeKind::Dir) => r == Err::<(), Refusal>(Refusal::IsDirectory)
                        && final(self)@ == old(self)@ && final(vault)@ == old(vault)@,
                    None => r == Err::<(), Refusal>(Refusal::NoEntry) && final(self)@
                        == old(self)@ && final(vault)@ == old(vault)@,
                },
                None => r == Err::<(), Refusal>(Refusal::NoEntry) && final(self)@ == old(self)@
                    && final(vault)@ == old(vault)@,
            },
    {
        let child = match self.child(parent, name) {
            Some(c) => c,
            None => {
                return Err(Refusal::NoEntry);
            },
        };
        match vault.resolve(child.as_str()) {
            Some(NodeKind::File { size, mtime }) => {
                let _ = vault.remove(child.as_str());
                self.forget(&child);
                Ok(())
            },
            Some(NodeKind::Dir) => Err(Refusal::IsDirectory),
            None => Err(Refusal::NoEntry),
        }
    }

    /// Takes a directory out that has nothing in it.
    pub fn rmdir(&mut self, vault: &mut Vault, parent: u64, name: &str) -> (r: Result<
        (),
        Refusal,
    >)
        requires
            old(self).wf(),
            old(vault).wf(),
        ensures
            final(self).wf(),
            final(vault).wf(),
            match child_path(old(self)@, parent, name@) {
                Some(c) => match crate::vault::tree::resolved(old(vault)@, c) {
                    Some(NodeKind::Dir) => if crate::vault::list::is_listing(
                        old(vault)@,
                        crate::vault::list::list_prefix(crate::paths::normal(c)),
                        Seq::empty(),
                    ) {
                        &&& r is Ok
                        &&& final(self)@ == without_node(old(self)@, c)
                        &&& final(vault)@ == crate::vault::with_tree(
                            old(vault)@,
                            old(vault)@.catalog.files,
                            old(vault)@.catalog.dirs.remove(crate::paths::normal(c)),
                        )
                    } else {
                        r == Err::<(), Refusal>(Refusal::NotEmpty) && final(self)@ == old(self)@
                            && final(vault)@ == old(vault)@
                    },
                    Some(NodeKind::File { size, mtime }) => r == Err::<(), Refusal>(
                        Refusal::NotDirectory,
                    ) && final(self)@ == old(self)@ && final(vault)@ == old(vault)@,
                    None => r == Err::<(), Refusal>(Refusal::NoEntry) && final(self)@
                        == old(self)@ && final(vault)@ == old(vault)@,
                },
                None => r == Err::<(), Refusal>(Refusal::NoEntry) && final(self)@ == old(self)@
                    && final(vault)@ == old(vault)@,
            },
    {
        let child = match self.child(parent, name) {
            Some(c) => c,
            None => {
                return Err(Refusal::NoEntry);
            },
        };
        match vault.resolve(child.as_str()) {
            Some(NodeKind::Dir) => {
                let es = vault.list_dir(child.as_str());
                proof {
                    crate::vault::list::lemma_listing_empty(
                        vault@,
                        crate::vault::list::list_prefix(crate::paths::normal(child@)),
                        es@,
                    );
                }
                if es.len() > 0 {
                    return Err(Refusal::NotEmpty);
                }
                let _ = vault.remove_empty_dir(child.as_str());
                self.forget(&child);
                Ok(())
            },
            Some(NodeKind::File { size, mtime }) => Err(Refusal::NotDirectory),
            None => Err(Refusal::NoEntry),
        }
    }

    /// Moves a node, with everything inside.
    pub fn rename(
        &mut self,
        vault: &mut Vault,
        parent: u64,
        name: &str,
        new_parent: u64,
        new_name: &str,
    ) -> (r: Result<(), Refusal>)
        requires
            old(self).wf(),
            old(vault).wf(),
        ensures
            final(self).wf(),
            final(vault).wf(),
            ({
                let from = child_path(old(self)@, parent, name@);
                let to = child_path(old(self)@, new_parent, new_name@);
                if from is Some && to is Some && crate::vault::moves::renamed(
                    old(vault)@,
                    from->0,
                    to->0,
                ) is Some {
                    let t = old(self)@.table;
                    let moved = crate::mount::inodes::moved_numbers(t, from->0);
                    &&& r is Ok
                    &&& Some(final(vault)@) == crate::vault::moves::renamed(
                        old(vault)@,
                        from->0,
                        to->0,
                    )
                    &&& final(self)@ == (SessionView {
                        table: crate::mount::inodes::paths_moved(
                            t,
                            from->0,
                            to->0,
                            moved,
                            moved.len() as int,
                        ),
                        ..old(self)@
                    })
                } else {
                    &&& r == Err::<(), Refusal>(Refusal::NoEntry)
                    &&& final(self)@ == old(self)@
                    &&& final(vault)@ == old(vault)@
                }
            }),
    {
        let (from, to) = match (self.child(parent, name), self.child(new_parent, new_name)) {
            (Some(f), Some(t)) => (f, t),
            _ => {
                return Err(Refusal::NoEntry);
            },
        };
        if vault.rename(from.as_str(), to.as_str()).is_err() {
            return Err(Refusal::NoEntry);
        }
        self.table.rename_paths(&from, &to);
        Ok(())
    }

    /// Lists a directory from the node `offset` on: itself, the one above it, then its children,
    /// which all get numbers.
    pub fn readdir(&mut self, vault: &Vault, ino: u64, offset: u64) -> (r: Result<
        Vec<DirItem>,
        Refusal,
    >)
        requires
            old(self).wf(),
            vault.wf(),
            old(self)@.table.by_ino.contains_key(ino) ==> {
                let dir = old(self)@.table.by_ino[ino];
                &&& dir == crate::paths::root() || crate::naming::parent_of(dir) is Some
                &&& forall|es: Seq<crate::vault::list::EntryView>| #[trigger]
                    crate::vault::list::is_listing(
                        vault@,
                        crate::vault::list::list_prefix(crate::paths::normal(dir)),
                        es,
                    ) ==> old(self)@.table.next + es.len() + 2 <= u64::MAX
            },
        ensures
            final(self).wf(),
            match r {
                Ok(items) => old(self)@.table.by_ino.contains_key(ino) && is_listed(
                    old(self)@,
                    final(self)@,
                    vault@,
                    ino,
                    offset,
                    item_views(items@),
                ),
                Err(e) => e == Refusal::NoEntry && !old(self)@.table.by_ino.contains_key(ino)
                    && final(self)@ == old(self)@,
            },
    {
        let path = match self.table.path_of(ino) {
            Some(p) => p,
            None => {
                return Err(Refusal::NoEntry);
            },
        };
        let above: u64 = self.number_above(ino, &path);
        let children = vault.list_dir(path.as_str());
        let ghost es = crate::vault::list::entry_views(children@);
        let ghost t0 = self.table@;
        let ghost s0 = self@;
        let mut items: Vec<DirItem> = Vec::new();
        if offset == 0 {
            items.push(DirItem { ino, next: 1, is_dir: true, name: dots(1) });
        }
        if offset <= 1 {
            items.push(DirItem { ino: above, next: 2, is_dir: true, name: dots(2) });
        }
        let n: usize = children.len();
        let mut i: usize = 0;
        proof {
            assert(Seq::new(1, |k: int| '.') =~= seq!['.']);
            assert(Seq::new(2, |k: int| '.') =~= seq!['.', '.']);
            assert forall|k: int| 0 <= k < items@.len() implies (#[trigger] items@[k])@ == item(
                t0,
                ino,
                path@,
                es,
                offset + k,
            ) by {}
        }
        while i < n
            invariant
                self.wf(),
                n == children@.len(),
                i <= n,
                es == crate::vault::list::entry_views(children@),
                t0 == s0.table,
                self@ == (SessionView {
                    table: numbered_children(t0, path@, es, i as int),
                    ..s0
                }),
                self@.table.next <= t0.next + i,
                t0.next + n + 2 <= u64::MAX,
                items@.len() == (if offset < i + 2 {
                    i + 2 - offset
                } else {
                    0
                }),
                forall|k: int|
                    0 <= k < items@.len() ==> (#[trigger] items@[k])@ == item(
                        t0,
                        ino,
                        path@,
                        es,
                        offset + k,
                    ),
            decreases n - i,
        {
            let e = &children[i];
            assert(es[i as int] == e@);
            let child = join(&path, e.name.as_str());
            let number: u64 = self.table.intern(&child);
            let at: u64 = i as u64 + 2;
            if at >= offset {
                let it = DirItem {
                    ino: number,
                    next: at + 1,
                    is_dir: e.is_dir,
                    name: e.name.clone(),
                };
                assert(it@ == item(t0, ino, path@, es, i + 2));
                items.push(it);
            }
            i = i + 1;
        }
        proof {
            assert(item_views(items@) =~= items_from(t0, ino, path@, es, offset));
            assert(listed(s0, self@, vault@, ino, offset, item_views(items@), es));
        }
        Ok(items)
    }

    fn number_above(&self, ino: u64, path: &String) -> (r: u64)
        requires
            self.wf(),
        ensures
            r == number_above(self@.table, ino, path@),
    {
        if is_root(path) {
            return ino;
        }
        match parent_path(path) {
            Some(p) => match self.table.number_of(&p) {
                Some(n) => n,
                None => 1,
            },
            None => 1,
        }
    }

    /// What has to be stored: the path of a node and its open content, if it was written to.
    pub fn unsaved(&self, ino: u64) -> (r: Option<(String, &Vec<u8>)>)
        requires
            self.wf(),
        ensures
            match r {
                Some((p, d)) => {
                    &&& self@.table.by_ino.contains_key(ino)
                    &&& p@ == self@.table.by_ino[ino]
                    &&& self@.buffers.contains_key(ino)
                    &&& self@.buffers[ino] == (BufView { data: d@, dirty: true })
                },
                None => !self@.table.by_ino.contains_key(ino) || !self@.buffers.contains_key(ino)
                    || !self@.buffers[ino].dirty,
            },
    {
        match self.table.path_of(ino) {
            None => None,
            Some(path) => match self.buffers.get(&ino) {
                None => None,
                Some(b) => if b.dirty {
                    Some((path, &b.data))
                } else {
                    None
                },
            },
        }
    }

    /// The open content of a node was stored.
    pub fn saved(&mut self, ino: u64)
        requires
            old(self).wf(),
        ensures
            final(self).wf(),
            final(self)@ == (if old(self)@.buffers.contains_key(ino) {
                SessionView {
                    buffers: old(self)@.buffers.insert(
                        ino,
                        BufView { dirty: false, ..old(self)@.buffers[ino] },
                    ),
                    ..old(self)@
                }
            } else {
                old(self)@
            }),
    {
        if let Some(mut b) = self.buffers.remove(&ino) {
            b.dirty = false;
            self.buffers.insert(ino, b);
            assert(self@.buffers =~= old(self)@.buffers.insert(
                ino,
                BufView { dirty: false, ..old(self)@.buffers[ino] },
            ));
        }
    }
}

fn dots(n: usize) -> (r: String)
    ensures
        r@ == Seq::new(n as nat, |i: int| '.'),
{
    let mut r = String::new();
    let mut i: usize = 0;
    while i < n
        invariant
            i <= n,
            r@ == Seq::new(i as nat, |k: int| '.'),
        decreases n - i,
    {
        r.push('.');
        assert(r@ =~= Seq::new((i + 1) as nat, |k: int| '.'));
        i = i + 1;
    }
    r
}

/// Cuts `data`, or fills it up with zeros, to `size` bytes.
pub fn set_len(data: &mut Vec<u8>, size: usize)
    ensures
        final(data)@ == resized(old(data)@, size as nat),
{
    let ghost before = data@;
    let had: usize = data.len();
    if size > had {
        crate::bytes::push_zeros(data, size - had);
    } else {
        data.truncate(size);
    }
    assert(data@ =~= resized(before, size as nat));
}

} // verus!
