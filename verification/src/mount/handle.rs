//! A mounted vault as Windows sees it: files and directories that are open.
//!
//! A file that is made or overwritten is written as a stream; one that is read meanwhile, cut or
//! written with a limit is held in memory as a whole. Never both.

use crate::error::VaultError;
use crate::mount::session::set_len;
use crate::naming::{join, leaf_name, win_to_logical};
use crate::pipeline::bytes_of;
use crate::vault::list::DirEntry;
use crate::vault::stream::{overlay, writer_content, StreamWriter};
use crate::vault::tree::NodeKind;
use crate::vault::write::BlockWrite;
use crate::vault::Vault;
use std::sync::Arc;
use vstd::prelude::*;

verus! {

pub const FILE_ATTRIBUTE_DIRECTORY: u32 = 0x10;

pub const FILE_ATTRIBUTE_ARCHIVE: u32 = 0x20;

/// The size of the units that space is given out in.
pub const ALLOC_UNIT: u64 = 4096;

/// The option that a directory is to be made.
pub const FILE_DIRECTORY_FILE: u32 = 1;

/// The flag that what is cleaned up is to be deleted.
pub const CLEANUP_DELETE: u32 = 1;

/// The seconds from 1601 to 1970.
pub const FILETIME_EPOCH: u64 = 11_644_473_600;

/// The units of a file time in a second.
pub const FILETIME_SECOND: u64 = 10_000_000;

/// Why a request is refused.
#[derive(Clone, Copy, Debug, PartialEq, Eq, Structural)]
pub enum Status {
    NameNotFound,
    NameCollision,
    InvalidParameter,
    EndOfFile,
    DirectoryNotEmpty,
}

/// What Windows is told of a file or a directory.
#[derive(Clone, Copy, Debug, PartialEq, Eq, Structural)]
pub struct Info {
    pub attributes: u32,
    pub size: u64,
    pub allocation: u64,
    /// The time of the file; a directory has none.
    pub time: Option<u64>,
}

/// A file time: units of 100 ns since 1601, or 0.
pub open spec fn filetime(secs: i64) -> int {
    if secs <= 0 {
        0
    } else {
        (secs + FILETIME_EPOCH) * FILETIME_SECOND
    }
}

/// The next multiple of the allocation unit.
pub open spec fn aligned(n: u64) -> int {
    (n + ALLOC_UNIT - 1) / ALLOC_UNIT as int * ALLOC_UNIT
}

/// The size and the time of the file can be told.
pub open spec fn tellable(size: u64, mtime: i64) -> bool {
    aligned(size) <= u64::MAX && filetime(mtime) <= u64::MAX
}

/// What is told of a directory.
pub open spec fn dir_info() -> Info {
    Info { attributes: FILE_ATTRIBUTE_DIRECTORY, size: 0, allocation: 0, time: None }
}

/// What is told of a file.
pub open spec fn file_info(size: u64, mtime: i64) -> Info {
    Info {
        attributes: FILE_ATTRIBUTE_ARCHIVE,
        size,
        allocation: aligned(size) as u64,
        time: Some(filetime(mtime) as u64),
    }
}

/// What is told of a node.
pub open spec fn node_info(n: NodeKind) -> Info {
    match n {
        NodeKind::Dir => dir_info(),
        NodeKind::File { size, mtime } => file_info(size, mtime),
    }
}

/// What is told of the node can be told.
pub open spec fn node_tellable(n: NodeKind) -> bool {
    match n {
        NodeKind::Dir => true,
        NodeKind::File { size, mtime } => tellable(size, mtime),
    }
}

/// Whether the size and the time of a file can be told.
pub fn can_tell(size: u64, mtime: i64) -> (r: bool)
    ensures
        r == tellable(size, mtime),
{
    let last: u64 = u64::MAX / ALLOC_UNIT * ALLOC_UNIT;
    if size > last {
        return false;
    }
    mtime <= 0 || mtime as u64 <= u64::MAX / FILETIME_SECOND - FILETIME_EPOCH
}

/// The file time of a time.
pub fn to_filetime(secs: i64) -> (r: u64)
    requires
        filetime(secs) <= u64::MAX,
    ensures
        r == filetime(secs),
{
    if secs <= 0 {
        0
    } else {
        (secs as u64 + FILETIME_EPOCH) * FILETIME_SECOND
    }
}

/// The next multiple of the allocation unit.
pub fn align_up(n: u64) -> (r: u64)
    requires
        aligned(n) <= u64::MAX,
    ensures
        r == aligned(n),
{
    let whole: u64 = n / ALLOC_UNIT;
    let k: u64 = if n % ALLOC_UNIT == 0 {
        whole
    } else {
        whole + 1
    };
    k * ALLOC_UNIT
}

fn fill_dir() -> (r: Info)
    ensures
        r == dir_info(),
{
    Info { attributes: FILE_ATTRIBUTE_DIRECTORY, size: 0, allocation: 0, time: None }
}

/// What is told of a file.
pub fn fill_file(size: u64, mtime: i64) -> (r: Info)
    requires
        tellable(size, mtime),
    ensures
        r == file_info(size, mtime),
{
    Info {
        attributes: FILE_ATTRIBUTE_ARCHIVE,
        size,
        allocation: align_up(size),
        time: Some(to_filetime(mtime)),
    }
}

/// What is told of a node.
pub fn fill_from_kind(kind: &NodeKind) -> (r: Info)
    requires
        node_tellable(*kind),
    ensures
        r == node_info(*kind),
{
    match kind {
        NodeKind::Dir => fill_dir(),
        NodeKind::File { size, mtime } => fill_file(*size, *mtime),
    }
}

/// What is told of a child in the listing of a directory. Of a directory no size is told.
pub fn fill_entry(e: &DirEntry) -> (r: Info)
    requires
        !e.is_dir ==> tellable(e.size, e.mtime),
    ensures
        r == (if e.is_dir {
            dir_info()
        } else {
            file_info(e.size, e.mtime)
        }),
{
    if e.is_dir {
        fill_dir()
    } else {
        fill_file(e.size, e.mtime)
    }
}

/// The attributes of what a name of Windows stands for.
pub fn attributes_by_name(vault: &Vault, name: &str) -> (r: Result<u32, Status>)
    requires
        vault.wf(),
    ensures
        r == (match crate::vault::tree::resolved_ci(vault@, crate::paths::slashed(name@)) {
            Some((_, n)) => Ok::<u32, Status>(node_info(n).attributes),
            None => Err::<u32, Status>(Status::NameNotFound),
        }),
{
    let path = win_to_logical(name);
    match vault.resolve_ci(path.as_str()) {
        Some((_, NodeKind::Dir)) => Ok(FILE_ATTRIBUTE_DIRECTORY),
        Some((_, NodeKind::File { size, mtime })) => Ok(FILE_ATTRIBUTE_ARCHIVE),
        None => Err(Status::NameNotFound),
    }
}

/// The space of a mounted vault, in all and free.
pub fn volume_size(used: u64, free: u64) -> (r: (u64, u64))
    requires
        used + free <= u64::MAX,
    ensures
        r == ((used + free) as u64, free),
{
    (used + free, free)
}

/// An open file or directory.
pub struct Handle {
    path: String,
    is_dir: bool,
    /// The stream that the file is written with.
    writer: Option<StreamWriter>,
    /// The whole content.
    buf: Option<Vec<u8>>,
    /// There is something that is not stored.
    dirty: bool,
}

/// An open file or directory as a value.
#[verifier::ext_equal]
pub struct HandleView {
    pub path: Seq<char>,
    pub is_dir: bool,
    pub writer: Option<crate::vault::stream::WriterView>,
    pub buf: Option<Seq<u8>>,
    pub dirty: bool,
}

impl View for Handle {
    type V = HandleView;

    closed spec fn view(&self) -> HandleView {
        HandleView {
            path: self.path@,
            is_dir: self.is_dir,
            writer: match self.writer {
                Some(w) => Some(w@),
                None => None,
            },
            buf: match self.buf {
                Some(b) => Some(b@),
                None => None,
            },
            dirty: self.dirty,
        }
    }
}

/// An open file or directory that nothing is known of yet.
pub open spec fn reading(path: Seq<char>, is_dir: bool) -> HandleView {
    HandleView { path, is_dir, writer: None, buf: None, dirty: false }
}

/// A file that is written as a stream.
pub open spec fn writing(path: Seq<char>, w: crate::vault::stream::WriterView) -> HandleView {
    HandleView { path, is_dir: false, writer: Some(w), buf: None, dirty: true }
}

/// The size of an open file: that of the stream or of the content, else that in the vault.
pub open spec fn size_of(h: HandleView, v: crate::vault::VaultView) -> u64 {
    match h.writer {
        Some(w) => w.size,
        None => match h.buf {
            Some(b) => b.len() as u64,
            None => match crate::vault::tree::resolved(v, h.path) {
                Some(NodeKind::File { size, mtime }) => size,
                _ => 0,
            },
        },
    }
}

/// What has to be had before the whole content of a file is there.
#[derive(Clone, Copy, Debug, PartialEq, Eq, Structural)]
pub enum Need {
    Nothing,
    /// The blocks that the stream stored.
    Blocks,
    /// This many bytes of the file in the vault.
    File(u64),
}

/// What has to be had before the whole content of the file is there.
pub open spec fn needed(h: HandleView, v: crate::vault::VaultView) -> Need {
    if h.buf is Some {
        Need::Nothing
    } else if h.writer is Some {
        Need::Blocks
    } else {
        Need::File(
            match crate::vault::tree::resolved(v, h.path) {
                Some(NodeKind::File { size, mtime }) => size,
                _ => 0,
            },
        )
    }
}

/// How a read is answered.
pub enum ReadStep {
    Bytes(Vec<u8>),
    /// The file is being written as a stream: its content has to be had first.
    NeedsContent,
    /// From the vault.
    Vault,
}

/// How a write is done.
#[derive(Clone, Copy, Debug, PartialEq, Eq, Structural)]
pub enum WriteStep {
    /// Into the stream, at this offset.
    Stream(u64),
    /// The content has to be had first.
    NeedsContent,
    /// Into the content.
    Content,
}

/// How a file is given another size.
#[derive(Clone, Copy, Debug, PartialEq, Eq, Structural)]
pub enum SizeStep {
    /// A stream that is not longer goes on as it is.
    Keep,
    NeedsContent,
    Content,
}

/// Where a write goes.
pub open spec fn position(offset: u64, to_end: bool, len: u64) -> u64 {
    if to_end {
        len
    } else {
        offset
    }
}

/// How many of `n` bytes at `at` are written into a content of `len` bytes that must not grow.
pub open spec fn allowed(len: nat, at: u64, n: nat) -> nat {
    if at >= len {
        0
    } else if at + n <= len {
        n
    } else {
        (len - at) as nat
    }
}

/// What is left to store, and how.
pub enum Pending {
    Nothing,
    /// A file of this size from these chunks, once the blocks are written.
    File(u64, Vec<crate::catalog::ChunkRef>),
}

impl Handle {
    pub closed spec fn wf(self) -> bool {
        &&& self.writer matches Some(w) ==> w.wf()
        &&& !(self.writer is Some && self.buf is Some)
    }

    /// A file is never written as a stream and held as a whole at once.
    pub proof fn stream_and_buffer_exclude_each_other(self)
        requires
            self.wf(),
        ensures
            !(self@.writer is Some && self@.buf is Some),
    {
    }

    /// Opens what a name of Windows stands for; the case of letters does not count.
    pub fn open(vault: &Vault, name: &str) -> (r: Result<(Handle, Info), Status>)
        requires
            vault.wf(),
            match crate::vault::tree::resolved_ci(vault@, crate::paths::slashed(name@)) {
                Some((_, n)) => node_tellable(n),
                None => true,
            },
        ensures
            match r {
                Ok((h, i)) => h.wf() && (crate::vault::tree::resolved_ci(
                    vault@,
                    crate::paths::slashed(name@),
                ) matches Some((p, n)) && h@ == reading(p, n is Dir) && i == node_info(n)),
                Err(e) => e == Status::NameNotFound && crate::vault::tree::resolved_ci(
                    vault@,
                    crate::paths::slashed(name@),
                ) is None,
            },
    {
        let path = win_to_logical(name);
        match vault.resolve_ci(path.as_str()) {
            None => Err(Status::NameNotFound),
            Some((actual, kind)) => {
                let is_dir = match kind {
                    NodeKind::Dir => true,
                    NodeKind::File { size, mtime } => false,
                };
                let info = fill_from_kind(&kind);
                Ok((Handle { path: actual, is_dir, writer: None, buf: None, dirty: false }, info))
            },
        }
    }

    /// Makes a directory, or an empty file that is then written as a stream.
    pub fn create(vault: &mut Vault, name: &str, options: u32, now: i64) -> (r: Result<
        (Handle, Info),
        Status,
    >)
        requires
            old(vault).wf(),
            tellable(0, now),
        ensures
            final(vault).wf(),
            ({
                let p = crate::paths::slashed(name@);
                if crate::vault::tree::resolved_ci(old(vault)@, p) is Some {
                    r == Err::<(Handle, Info), Status>(Status::NameCollision) && final(vault)@
                        == old(vault)@
                } else if options & FILE_DIRECTORY_FILE != 0 {
                    &&& r matches Ok((h, i)) && h.wf() && h@ == reading(p, true) && i == dir_info()
                    &&& final(vault)@ == crate::vault::with_tree(
                        old(vault)@,
                        old(vault)@.catalog.files,
                        old(vault)@.catalog.dirs.insert(crate::paths::normal(p)),
                    )
                } else {
                    &&& r matches Ok((h, i)) && h.wf() && h@ == writing(
                        p,
                        crate::vault::stream::fresh_writer(old(vault)@.chunk_size),
                    ) && i == file_info(0, now)
                    &&& final(vault)@ == crate::vault::write::linked(
                        old(vault)@,
                        p,
                        crate::catalog::FileView { size: 0, mtime: now, chunks: Seq::empty() },
                    )
                }
            }),
    {
        let path = win_to_logical(name);
        if vault.resolve_ci(path.as_str()).is_some() {
            return Err(Status::NameCollision);
        }
        if options & FILE_DIRECTORY_FILE != 0 {
            let _ = vault.create_dir(path.as_str());
            return Ok(
                (
                    Handle { path, is_dir: true, writer: None, buf: None, dirty: false },
                    fill_dir(),
                ),
            );
        }
        // An empty file needs no blocks.
        vault.link_file(path.as_str(), 0, now, Vec::new());
        let w = vault.stream_writer();
        Ok(
            (
                Handle { path, is_dir: false, writer: Some(w), buf: None, dirty: true },
                fill_file(0, now),
            ),
        )
    }

    /// The path of what is open.
    pub fn path(&self) -> (r: &String)
        ensures
            r@ == self@.path,
    {
        &self.path
    }

    pub fn is_dir(&self) -> (r: bool)
        ensures
            r == self@.is_dir,
    {
        self.is_dir
    }

    /// What has to be had before the whole content is there.
    pub fn need(&self, vault: &Vault) -> (r: Need)
        requires
            vault.wf(),
        ensures
            r == needed(self@, vault@),
    {
        if self.buf.is_some() {
            return Need::Nothing;
        }
        if self.writer.is_some() {
            return Need::Blocks;
        }
        match vault.resolve(self.path.as_str()) {
            Some(NodeKind::File { size, mtime }) => Need::File(size),
            _ => Need::File(0),
        }
    }

    /// The stream that the file is written with.
    pub fn writer(&self) -> (r: Option<&StreamWriter>)
        requires
            self.wf(),
        ensures
            match r {
                Some(w) => w.wf() && self@.writer == Some(w@),
                None => self@.writer is None,
            },
    {
        match &self.writer {
            Some(w) => Some(w),
            None => None,
        }
    }

    /// Takes the stream out, to write to it.
    pub fn take_writer(&mut self) -> (r: Option<StreamWriter>)
        requires
            old(self).wf(),
        ensures
            final(self).wf(),
            final(self)@ == (HandleView { writer: None, ..old(self)@ }),
            match r {
                Some(w) => w.wf() && old(self)@.writer == Some(w@),
                None => old(self)@.writer is None,
            },
    {
        self.writer.take()
    }

    /// Puts the stream back after a write, or starts a new one.
    pub fn put_writer(&mut self, w: StreamWriter)
        requires
            old(self).wf(),
            w.wf(),
            old(self)@.buf is None,
        ensures
            final(self).wf(),
            final(self)@ == (HandleView { writer: Some(w@), dirty: true, ..old(self)@ }),
    {
        self.writer = Some(w);
        self.dirty = true;
    }

    /// Ends the stream and holds what was written to it as a whole. `blocks` are those that the
    /// stream stored.
    pub fn materialize(&mut self, blocks: &Vec<Arc<Vec<u8>>>)
        requires
            old(self).wf(),
        ensures
            final(self).wf(),
            final(self)@ == (match old(self)@.writer {
                Some(w) => HandleView {
                    writer: None,
                    buf: Some(crate::vault::stream::content_of(w, blocks@)),
                    ..old(self)@
                },
                None => old(self)@,
            }),
    {
        if let Some(w) = self.writer.take() {
            let b = writer_content(&w, blocks);
            self.buf = Some(b);
        }
    }

    /// Holds `data`, which was read from the vault, as the content.
    pub fn load(&mut self, data: Vec<u8>)
        requires
            old(self).wf(),
            old(self)@.writer is None,
        ensures
            final(self).wf(),
            final(self)@ == (HandleView { buf: Some(data@), ..old(self)@ }),
    {
        self.buf = Some(data);
    }

    /// The size of the file.
    pub fn cur_size(&self, vault: &Vault) -> (r: u64)
        requires
            vault.wf(),
        ensures
            r == size_of(self@, vault@),
    {
        if let Some(w) = &self.writer {
            return w.len();
        }
        if let Some(b) = &self.buf {
            return b.len() as u64;
        }
        match vault.resolve(self.path.as_str()) {
            Some(NodeKind::File { size, mtime }) => size,
            _ => 0,
        }
    }

    /// What is told of the open file or directory. A file always has the time of now.
    pub fn get_file_info(&self, vault: &Vault, now: i64) -> (r: Info)
        requires
            vault.wf(),
            self@.is_dir || tellable(size_of(self@, vault@), now),
        ensures
            r == (if self@.is_dir {
                dir_info()
            } else {
                file_info(size_of(self@, vault@), now)
            }),
    {
        if self.is_dir {
            return fill_dir();
        }
        fill_file(self.cur_size(vault), now)
    }

    /// Reads from the content, or says where the bytes are.
    pub fn read(&self, offset: u64, len: usize) -> (r: Result<ReadStep, Status>)
        requires
            self.wf(),
        ensures
            if self@.is_dir {
                r is Err && r->Err_0 == Status::InvalidParameter
            } else if self@.writer is Some {
                r matches Ok(ReadStep::NeedsContent)
            } else {
                match self@.buf {
                    Some(b) => if offset >= b.len() {
                        r is Err && r->Err_0 == Status::EndOfFile
                    } else {
                        r matches Ok(ReadStep::Bytes(part)) && part@ == b.subrange(
                            offset as int,
                            if offset + len <= b.len() {
                                offset + len
                            } else {
                                b.len() as int
                            },
                        )
                    },
                    None => r matches Ok(ReadStep::Vault),
                }
            },
    {
        if self.is_dir {
            return Err(Status::InvalidParameter);
        }
        if self.writer.is_some() {
            return Ok(ReadStep::NeedsContent);
        }
        match &self.buf {
            None => Ok(ReadStep::Vault),
            Some(b) => {
                let n: usize = b.len();
                if offset >= n as u64 {
                    return Err(Status::EndOfFile);
                }
                let from: usize = offset as usize;
                let to: usize = if len <= n - from {
                    from + len
                } else {
                    n
                };
                let part = bytes_of(vstd::slice::slice_subrange(b.as_slice(), from, to));
                Ok(ReadStep::Bytes(part))
            },
        }
    }

    /// How a write is done.
    pub fn write_step(&self, offset: u64, to_end: bool, constrained: bool) -> (r: Result<
        WriteStep,
        Status,
    >)
        requires
            self.wf(),
        ensures
            r == (if self@.is_dir {
                Err::<WriteStep, Status>(Status::InvalidParameter)
            } else if self@.writer is Some && !constrained {
                Ok(WriteStep::Stream(position(offset, to_end, self@.writer->0.size)))
            } else if self@.buf is None {
                Ok(WriteStep::NeedsContent)
            } else {
                Ok(WriteStep::Content)
            }),
    {
        if self.is_dir {
            return Err(Status::InvalidParameter);
        }
        if let Some(w) = &self.writer {
            if !constrained {
                let at: u64 = if to_end {
                    w.len()
                } else {
                    offset
                };
                return Ok(WriteStep::Stream(at));
            }
        }
        if self.buf.is_none() {
            return Ok(WriteStep::NeedsContent);
        }
        Ok(WriteStep::Content)
    }

    /// Writes into the content; gives how many bytes were taken. A constrained write does not
    /// make the file longer.
    pub fn write_content(&mut self, offset: u64, to_end: bool, constrained: bool, data: &[u8]) -> (r:
        usize)
        requires
            old(self).wf(),
            old(self)@.buf is Some,
            constrained || position(offset, to_end, old(self)@.buf->0.len() as u64) + data@.len()
                <= usize::MAX,
        ensures
            final(self).wf(),
            ({
                let b = old(self)@.buf->0;
                let at = position(offset, to_end, b.len() as u64);
                let n = if constrained {
                    allowed(b.len(), at, data@.len())
                } else {
                    data@.len()
                };
                &&& r == n
                &&& final(self)@ == (HandleView {
                    buf: Some(
                        if constrained && at >= b.len() {
                            b
                        } else {
                            crate::vault::stream::overwritten(b, at as int, data@.take(n as int))
                        },
                    ),
                    dirty: true,
                    ..old(self)@
                })
            }),
    {
        let ghost before = self@;
        let mut b = match self.buf.take() {
            Some(b) => b,
            None => Vec::new(),
        };
        let ghost b0 = b@;
        let n: usize = b.len();
        let at: u64 = if to_end {
            n as u64
        } else {
            offset
        };
        let mut written: usize = 0;
        if constrained {
            if at < n as u64 {
                let room: usize = n - at as usize;
                written = if data.len() <= room {
                    data.len()
                } else {
                    room
                };
                let part = vstd::slice::slice_subrange(data, 0, written);
                overlay(&mut b, at as usize, part);
                assert(part@ =~= data@.take(written as int));
            }
        } else {
            written = data.len();
            overlay(&mut b, at as usize, data);
            assert(data@.take(written as int) =~= data@);
        }
        self.buf = Some(b);
        self.dirty = true;
        written
    }

    /// Empties the file and starts a new stream.
    pub fn overwrite(&mut self, vault: &Vault) -> (r: Result<(), Status>)
        requires
            old(self).wf(),
        ensures
            final(self).wf(),
            if old(self)@.is_dir {
                r == Err::<(), Status>(Status::InvalidParameter) && final(self)@ == old(self)@
            } else {
                r is Ok && final(self)@ == writing(
                    old(self)@.path,
                    crate::vault::stream::fresh_writer(vault@.chunk_size),
                )
            },
    {
        if self.is_dir {
            return Err(Status::InvalidParameter);
        }
        self.buf = None;
        self.writer = Some(vault.stream_writer());
        self.dirty = true;
        Ok(())
    }

    /// How the file is given another size. A stream goes on unless it is to be cut.
    pub fn size_step(&self, new_size: u64) -> (r: Result<SizeStep, Status>)
        requires
            self.wf(),
        ensures
            r == (if self@.is_dir {
                Err::<SizeStep, Status>(Status::InvalidParameter)
            } else if self@.writer is Some && new_size >= self@.writer->0.size {
                Ok(SizeStep::Keep)
            } else if self@.buf is None {
                Ok(SizeStep::NeedsContent)
            } else {
                Ok(SizeStep::Content)
            }),
    {
        if self.is_dir {
            return Err(Status::InvalidParameter);
        }
        if let Some(w) = &self.writer {
            if new_size >= w.len() {
                return Ok(SizeStep::Keep);
            }
        }
        if self.buf.is_none() {
            return Ok(SizeStep::NeedsContent);
        }
        Ok(SizeStep::Content)
    }

    /// Gives the content another size.
    pub fn resize_content(&mut self, new_size: usize)
        requires
            old(self).wf(),
            old(self)@.buf is Some,
        ensures
            final(self).wf(),
            final(self)@ == (HandleView {
                buf: Some(
                    crate::mount::session::resized(old(self)@.buf->0, new_size as nat),
                ),
                dirty: true,
                ..old(self)@
            }),
    {
        let ghost before = self@;
        let mut b = match self.buf.take() {
            Some(b) => b,
            None => Vec::new(),
        };
        set_len(&mut b, new_size);
        self.buf = Some(b);
        self.dirty = true;
    }

    /// Whether a directory may be deleted: not while something is in it.
    pub fn set_delete(&self, vault: &Vault, delete: bool) -> (r: Result<(), Status>)
        requires
            vault.wf(),
        ensures
            r == (if delete && self@.is_dir && !crate::vault::list::is_listing(
                vault@,
                crate::vault::list::list_prefix(crate::paths::normal(self@.path)),
                Seq::empty(),
            ) {
                Err::<(), Status>(Status::DirectoryNotEmpty)
            } else {
                Ok(())
            }),
    {
        if delete && self.is_dir {
            let es = vault.list_dir(self.path.as_str());
            proof {
                crate::vault::list::lemma_listing_empty(
                    vault@,
                    crate::vault::list::list_prefix(crate::paths::normal(self@.path)),
                    es@,
                );
            }
            if es.len() > 0 {
                return Err(Status::DirectoryNotEmpty);
            }
        }
        Ok(())
    }

    /// Whether a flush has something to store. A stream goes on.
    pub fn flushes(&self) -> (r: bool)
        ensures
            r == (!self@.is_dir && self@.writer is None && self@.dirty),
    {
        !self.is_dir && self.writer.is_none() && self.dirty
    }

    /// Whether cleaning up with these flags deletes.
    pub fn deletes(flags: u32) -> (r: bool)
        ensures
            r == (flags & CLEANUP_DELETE != 0),
    {
        flags & CLEANUP_DELETE != 0
    }

    /// Takes what is open out of the vault; there is nothing to store any more.
    pub fn delete(&mut self, vault: &mut Vault)
        requires
            old(self).wf(),
            old(vault).wf(),
        ensures
            final(self).wf(),
            final(vault).wf(),
            final(self)@ == (HandleView { writer: None, dirty: false, ..old(self)@ }),
            final(vault)@ == (if old(self)@.is_dir {
                crate::vault::with_tree(
                    old(vault)@,
                    old(vault)@.catalog.files,
                    old(vault)@.catalog.dirs.remove(crate::paths::normal(old(self)@.path)),
                )
            } else {
                crate::vault::with_tree(
                    old(vault)@,
                    old(vault)@.catalog.files.remove(crate::paths::normal(old(self)@.path)),
                    old(vault)@.catalog.dirs,
                )
            }),
    {
        if self.is_dir {
            let _ = vault.remove_empty_dir(self.path.as_str());
        } else {
            let _ = vault.remove(self.path.as_str());
        }
        self.writer = None;
        self.dirty = false;
    }

    /// Stores what is not stored. The stream ends with it. The caller writes `out`, links the
    /// file and then calls [`Handle::persisted`].
    pub fn persist(&mut self, vault: &mut Vault, out: &mut Vec<BlockWrite>) -> (r: Result<
        Pending,
        VaultError,
    >)
        requires
            old(self).wf(),
            old(vault).wf(),
            match old(self)@.writer {
                Some(w) => crate::vault::write::has_room(
                    old(vault)@,
                    crate::vault::stream::rest_of(old(vault)@, w).0.len(),
                ),
                None => old(self)@.buf matches Some(b) ==> crate::vault::write::has_room(
                    old(vault)@,
                    b.len(),
                ),
            },
        ensures
            final(self).wf(),
            final(vault).wf(),
            final(self)@ == (HandleView { writer: None, ..old(self)@ }),
            match old(self)@.writer {
                Some(w) => match r {
                    Ok(Pending::File(size, chunks)) => crate::vault::stream::finished(
                        old(vault)@,
                        final(vault)@,
                        w,
                        size,
                        chunks@,
                        old(out)@,
                        final(out)@,
                    ),
                    Ok(Pending::Nothing) => false,
                    Err(e) => exists|k: int|
                        crate::vault::write::stored_part(
                            old(vault)@,
                            final(vault)@,
                            crate::vault::stream::rest_of(old(vault)@, w).0,
                            crate::vault::stream::rest_of(old(vault)@, w).1,
                            k,
                            e,
                            old(out)@,
                            final(out)@,
                        ),
                },
                None => if old(self)@.dirty && old(self)@.buf is Some {
                    let b = old(self)@.buf->0;
                    let cuts = crate::vault::write::cuts_in(old(vault)@.chunk_size, b);
                    match r {
                        Ok(Pending::File(size, chunks)) => size == b.len()
                            && crate::vault::write::stored_whole(
                            old(vault)@,
                            final(vault)@,
                            b,
                            cuts,
                            chunks@,
                            old(out)@,
                            final(out)@,
                        ),
                        Ok(Pending::Nothing) => false,
                        Err(e) => exists|k: int|
                            crate::vault::write::stored_part(
                                old(vault)@,
                                final(vault)@,
                                b,
                                cuts,
                                k,
                                e,
                                old(out)@,
                                final(out)@,
                            ),
                    }
                } else {
                    r matches Ok(Pending::Nothing) && final(vault)@ == old(vault)@ && final(out)@
                        == old(out)@
                },
            },
    {
        if let Some(w) = self.writer.take() {
            return match vault.finish_chunks(w, out) {
                Ok((size, chunks)) => Ok(Pending::File(size, chunks)),
                Err(e) => Err(e),
            };
        }
        if self.dirty {
            if let Some(b) = &self.buf {
                let size: u64 = b.len() as u64;
                return match vault.store_data(b.as_slice(), out) {
                    Ok(chunks) => Ok(Pending::File(size, chunks)),
                    Err(e) => Err(e),
                };
            }
        }
        Ok(Pending::Nothing)
    }

    /// What was pending is stored.
    pub fn persisted(&mut self)
        requires
            old(self).wf(),
        ensures
            final(self).wf(),
            final(self)@ == (HandleView { dirty: false, ..old(self)@ }),
    {
        self.dirty = false;
    }

    /// A child of the open directory by its name: its real name and what is told of it.
    pub fn child_info(&self, vault: &Vault, leaf: &str) -> (r: Result<(String, Info), Status>)
        requires
            vault.wf(),
            match crate::vault::tree::resolved_ci(
                vault@,
                crate::naming::child_of(self@.path, leaf@),
            ) {
                Some((_, n)) => node_tellable(n),
                None => true,
            },
        ensures
            match r {
                Ok((name, info)) => crate::vault::tree::resolved_ci(
                    vault@,
                    crate::naming::child_of(self@.path, leaf@),
                ) matches Some((p, n)) && name@ == crate::naming::leaf_of(p) && info == node_info(
                    n,
                ),
                Err(e) => e == Status::NameNotFound && crate::vault::tree::resolved_ci(
                    vault@,
                    crate::naming::child_of(self@.path, leaf@),
                ) is None,
            },
    {
        let child = join(&self.path, leaf);
        match vault.resolve_ci(child.as_str()) {
            None => Err(Status::NameNotFound),
            Some((actual, kind)) => Ok((leaf_name(&actual), fill_from_kind(&kind))),
        }
    }
}

/// Moves what a name of Windows stands for; the case of letters in it does not count.
pub fn rename_by_name(vault: &mut Vault, name: &str, new_name: &str) -> (r: Result<
    (),
    VaultError,
>)
    requires
        old(vault).wf(),
    ensures
        final(vault).wf(),
        ({
            let from = crate::paths::slashed(name@);
            let actual = match crate::vault::tree::resolved_ci(old(vault)@, from) {
                Some((p, _)) => p,
                None => from,
            };
            match crate::vault::moves::renamed(
                old(vault)@,
                actual,
                crate::paths::slashed(new_name@),
            ) {
                Some(v) => r is Ok && final(vault)@ == v,
                None => r == Err::<(), VaultError>(VaultError::SourceNotFound) && final(vault)@
                    == old(vault)@,
            }
        }),
{
    let from = win_to_logical(name);
    let to = win_to_logical(new_name);
    let actual = match vault.resolve_ci(from.as_str()) {
        Some((p, _)) => p,
        None => from,
    };
    vault.rename(actual.as_str(), to.as_str())
}

/// What a read from the vault is answered with: nothing read is the end of the file.
pub fn delivered(data: Vec<u8>) -> (r: Result<Vec<u8>, Status>)
    ensures
        match r {
            Ok(d) => d@ == data@ && data@.len() > 0,
            Err(e) => e == Status::EndOfFile && data@.len() == 0,
        },
{
    if data.len() == 0 {
        Err(Status::EndOfFile)
    } else {
        Ok(data)
    }
}

/// A time of Windows counts tenths of a microsecond from the year 1601 on: it is larger by ten
/// million for each second, and nothing for times up to the epoch.
pub proof fn windows_counts_from_1601(secs: i64)
    ensures
        secs <= 0 ==> filetime(secs) == 0,
        secs > 0 ==> filetime(secs) == 116_444_736_000_000_000 + 10_000_000 * secs,
{
}

/// What a file takes is its size, filled up to whole units of 4096 bytes.
pub proof fn allocation_is_in_whole_units(n: u64)
    ensures
        n <= aligned(n) < n + 4096,
        aligned(n) % 4096 == 0,
{
    assert(aligned(n) == (n + 4095) / 4096 * 4096);
    assert((n + 4095) / 4096 * 4096 % 4096 == 0);
}

/// What Windows is told of a node: of a directory its kind alone; of a file its size, what it
/// takes, and its time.
pub proof fn windows_is_told_what_is_there(size: u64, mtime: i64)
    requires
        tellable(size, mtime),
    ensures
        node_info(NodeKind::Dir) == (Info { attributes: 0x10, size: 0, allocation: 0, time: None }),
        ({
            let i = node_info((NodeKind::File { size, mtime }));
            &&& i.attributes == 0x20
            &&& i.size == size
            &&& i.allocation == aligned(size)
            &&& i.time == Some(filetime(mtime) as u64)
            &&& i.time->0 == filetime(mtime)
        }),
        file_info(size, mtime) == node_info((NodeKind::File { size, mtime })),
        dir_info() == node_info(NodeKind::Dir),
{
}

/// Times and sizes are told as long as they fit the numbers of Windows.
pub proof fn what_fits_is_told(size: u64, mtime: i64)
    ensures
        tellable(size, mtime) <==> aligned(size) <= u64::MAX && filetime(mtime) <= u64::MAX,
        size <= 0xffff_ffff_ffff_f000 && mtime <= 1_833_029_933_770 ==> tellable(size, mtime),
        node_tellable(NodeKind::Dir),
        node_tellable((NodeKind::File { size, mtime })) <==> tellable(size, mtime),
{
    allocation_is_in_whole_units(size);
    if size <= 0xffff_ffff_ffff_f000 {
        assert(aligned(size) <= 0xffff_ffff_ffff_f000) by {
            assert(aligned(size) == (size + 4095) / 4096 * 4096);
            assert(0xffff_ffff_ffff_f000int % 4096 == 0);
        }
    }
}

/// The size of an open file is that of what was written to it, if something was, and the size in
/// the vault otherwise; its content has to be fetched from there in the same cases.
pub proof fn open_file_has_its_written_size(
    h: HandleView,
    v: crate::vault::VaultView,
    size: u64,
    mtime: i64,
)
    ensures
        h.writer matches Some(w) ==> size_of(h, v) == w.size,
        h.writer is None && h.buf is Some ==> size_of(h, v) == h.buf->0.len() as u64,
        h.writer is None && h.buf is None && crate::vault::tree::resolved(v, h.path) == Some(
            (NodeKind::File { size, mtime }),
        ) ==> size_of(h, v) == size && needed(h, v) == Need::File(size),
        h.writer is None && h.buf is None && !(crate::vault::tree::resolved(v, h.path) matches Some(
            NodeKind::File { size: s, mtime: t },
        )) ==> size_of(h, v) == 0 && needed(h, v) == Need::File(0),
        h.buf is Some ==> needed(h, v) == Need::Nothing,
        h.buf is None && h.writer is Some ==> needed(h, v) == Need::Blocks,
{
}

/// A write goes to its offset, or to the end if it is to be appended; one that may not make the
/// file longer writes as much as fits in front of its end.
pub proof fn constrained_write_keeps_the_size(offset: u64, len: u64, n: nat)
    ensures
        position(offset, true, len) == len,
        position(offset, false, len) == offset,
        offset >= len ==> allowed(len as nat, offset, n) == 0,
        offset < len ==> allowed(len as nat, offset, n) <= n && offset + allowed(
            len as nat,
            offset,
            n,
        ) <= len && (allowed(len as nat, offset, n) == n || offset + allowed(
            len as nat,
            offset,
            n,
        ) == len),
{
}

/// A handle that was opened has nothing written to it; one of a new file has a writer.
pub proof fn new_handle_has_its_kind(
    path: Seq<char>,
    is_dir: bool,
    w: crate::vault::stream::WriterView,
)
    ensures
        reading(path, is_dir).path == path && reading(path, is_dir).is_dir == is_dir,
        reading(path, is_dir).writer is None && reading(path, is_dir).buf is None && !reading(
            path,
            is_dir,
        ).dirty,
        writing(path, w).path == path && !writing(path, w).is_dir,
        writing(path, w).writer == Some(w) && writing(path, w).buf is None && writing(
            path,
            w,
        ).dirty,
{
}

} // verus!
