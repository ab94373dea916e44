//! What holds of a mounted vault across requests.

use crate::catalog::ChunkRef;
use crate::mount::session::SessionView;
use crate::vault::tree::NodeKind;
use crate::vault::write::BlockWrite;
use crate::vault::VaultView;
use vstd::prelude::*;

verus! {

/// What was written into an open file is read back from there.
pub proof fn written_bytes_are_read_back(b: Seq<u8>, offset: u64, data: Seq<u8>)
    requires
        data.len() <= u32::MAX,
        offset + data.len() <= usize::MAX,
    ensures
        data.len() > 0 ==> crate::mount::session::window(
            crate::vault::stream::overwritten(b, offset as int, data),
            offset,
            data.len() as u32,
        ) == data,
{
    if data.len() > 0 {
        assert(crate::mount::session::window(
            crate::vault::stream::overwritten(b, offset as int, data),
            offset,
            data.len() as u32,
        ) =~= data);
    }
}

/// Writing changes no byte outside of what is written.
pub proof fn write_keeps_other_bytes(b: Seq<u8>, offset: u64, data: Seq<u8>, i: int)
    requires
        0 <= i < b.len(),
        i < offset || offset + data.len() <= i,
    ensures
        crate::vault::stream::overwritten(b, offset as int, data)[i] == b[i],
        crate::vault::stream::overwritten(b, offset as int, data).len() >= b.len(),
{
}

/// A directory that was made is found as a directory, and what was there before still is.
pub proof fn made_directory_is_found(v: VaultView, path: Seq<char>)
    requires
        crate::vault::tree::resolved(v, path) is None,
    ensures
        ({
            let after = crate::vault::with_tree(
                v,
                v.catalog.files,
                v.catalog.dirs.insert(crate::paths::normal(path)),
            );
            &&& crate::vault::tree::resolved(after, path) == Some(NodeKind::Dir)
            &&& forall|q: Seq<char>| #[trigger]
                crate::vault::tree::resolved(v, q) is Some ==> crate::vault::tree::resolved(
                    after,
                    q,
                ) == crate::vault::tree::resolved(v, q)
        }),
{
    let after = crate::vault::with_tree(
        v,
        v.catalog.files,
        v.catalog.dirs.insert(crate::paths::normal(path)),
    );
    assert forall|q: Seq<char>| #[trigger]
        crate::vault::tree::resolved(v, q) is Some implies crate::vault::tree::resolved(after, q)
        == crate::vault::tree::resolved(v, q) by {
        let p = crate::paths::normal(q);
        let within = crate::paths::inside(p);
        if exists|k: Seq<char>| #[trigger]
            v.catalog.files.contains_key(k) && crate::text::begins(k, within) {
            assert(crate::vault::tree::has_children(after, p));
        } else if exists|k: Seq<char>| #[trigger]
            v.catalog.dirs.contains(k) && crate::text::begins(k, within) {
            let k = choose|k: Seq<char>| #[trigger]
                v.catalog.dirs.contains(k) && crate::text::begins(k, within);
            assert(after.catalog.dirs.contains(k));
        }
    }
}

/// What was held in memory and then stored and linked is the content of the file.
pub proof fn persisted_buffer_is_content(
    v0: VaultView,
    stored: VaultView,
    file: Seq<u8>,
    path: Seq<char>,
    b: Seq<u8>,
    size: u64,
    mtime: i64,
    chunks: Seq<ChunkRef>,
    out0: Seq<BlockWrite>,
    out: Seq<BlockWrite>,
)
    requires
        crate::vault::laws::appendable(v0, file),
        size == b.len(),
        crate::vault::write::stored_whole(
            v0,
            stored,
            b,
            crate::vault::write::cuts_in(v0.chunk_size, b),
            chunks,
            out0,
            out,
        ),
        crate::vault::laws::no_clash(
            v0,
            file,
            crate::vault::write::pieces_of(b, crate::vault::write::cuts_in(v0.chunk_size, b)),
        ),
    ensures
        ({
            let v = crate::vault::write::linked(
                stored,
                path,
                crate::catalog::FileView { size, mtime, chunks },
            );
            let after = crate::vault::laws::written(
                file,
                crate::vault::write::grown(out0, out),
            );
            let p = crate::paths::normal(path);
            &&& crate::vault::laws::appendable(v, after)
            &&& crate::vault::laws::intact(v0, file) ==> crate::vault::laws::intact(v, after)
            &&& v.catalog.files.contains_key(p)
            &&& crate::vault::laws::has_content(v, after, v.catalog.files[p], b)
        }),
{
    let v = crate::vault::write::linked(
        stored,
        path,
        crate::catalog::FileView { size, mtime, chunks },
    );
    crate::vault::laws::written_file_has_content(v0, v, file, path, b, mtime, out0, out);
}

/// What was written as a stream and then stored and linked is the content of the file.
pub proof fn persisted_stream_is_content(
    v0: VaultView,
    stored: VaultView,
    file: Seq<u8>,
    path: Seq<char>,
    w: crate::vault::stream::WriterView,
    size: u64,
    mtime: i64,
    chunks: Seq<ChunkRef>,
    out0: Seq<BlockWrite>,
    out: Seq<BlockWrite>,
    bytes: Seq<u8>,
)
    requires
        crate::vault::laws::appendable(v0, file),
        crate::vault::laws::writer_sound(v0, file, w, bytes),
        crate::vault::stream::finished(v0, stored, w, size, chunks, out0, out),
        ({
            let (rest, cuts) = crate::vault::stream::rest_of(v0, w);
            crate::vault::laws::no_clash(v0, file, crate::vault::write::pieces_of(rest, cuts))
        }),
    ensures
        ({
            let v = crate::vault::write::linked(
                stored,
                path,
                crate::catalog::FileView { size, mtime, chunks },
            );
            let after = crate::vault::laws::written(
                file,
                crate::vault::write::grown(out0, out),
            );
            let p = crate::paths::normal(path);
            &&& crate::vault::laws::appendable(v, after)
            &&& crate::vault::laws::intact(v0, file) ==> crate::vault::laws::intact(v, after)
            &&& v.catalog.files.contains_key(p)
            &&& crate::vault::laws::has_content(v, after, v.catalog.files[p], bytes)
        }),
{
    let v = crate::vault::write::linked(
        stored,
        path,
        crate::catalog::FileView { size, mtime, chunks },
    );
    crate::vault::laws::streamed_file_has_content(
        v0,
        v,
        file,
        w,
        path,
        mtime,
        out0,
        out,
        bytes,
    );
}

/// A file that was made is found, empty and with its time.
pub proof fn created_file_is_found(v: VaultView, path: Seq<char>, now: i64)
    requires
        crate::vault::tree::resolved(v, path) is None,
    ensures
        crate::vault::tree::resolved(
            crate::vault::write::linked(
                v,
                path,
                crate::catalog::FileView { size: 0, mtime: now, chunks: Seq::empty() },
            ),
            path,
        ) == Some(NodeKind::File { size: 0, mtime: now }),
{
}

/// A file that was taken out is no file any more.
pub proof fn unlinked_file_is_gone(v: VaultView, path: Seq<char>)
    ensures
        !(crate::vault::tree::resolved(
            crate::vault::with_tree(
                v,
                v.catalog.files.remove(crate::paths::normal(path)),
                v.catalog.dirs,
            ),
            path,
        ) matches Some(NodeKind::File { size, mtime })),
{
}

/// What stands inside a directory is in its listing.
proof fn lemma_child_listed(v: VaultView, pre: Seq<char>, k: Seq<char>)
    requires
        v.catalog.files.contains_key(k) || v.catalog.dirs.contains(k),
        crate::vault::list::stands_inside(k, pre),
    ensures
        !crate::vault::list::is_listing(v, pre, Seq::empty()),
{
    let rest = crate::vault::list::tail(k, pre);
    assert(pre + rest =~= k) by {
        assert(k.take(pre.len() as int) =~= pre);
    }
    let name = crate::vault::list::child_name(k, pre);
    lemma_slash_inside(rest);
    if v.catalog.files.contains_key(k) && crate::vault::list::is_child(k, pre) {
        assert(crate::vault::list::lists_file(v, pre, rest));
    } else if v.catalog.files.contains_key(k) {
        assert(crate::vault::list::in_child(k, pre, name));
        assert(crate::vault::list::lists_dir(v, pre, name));
    } else {
        assert(crate::vault::list::at_child(k, pre, name));
        assert(crate::vault::list::lists_dir(v, pre, name));
    }
}

proof fn lemma_slash_inside(s: Seq<char>)
    ensures
        0 <= crate::vault::list::first_slash(s) <= s.len(),
    decreases s.len(),
{
    if s.len() > 0 && s[0] != '/' {
        lemma_slash_inside(s.drop_first());
    }
}

/// A directory with nothing in it that was taken out is gone. The root stays, and so does a
/// directory in which an entry without a name stands.
pub proof fn removed_directory_is_gone(v: VaultView, path: Seq<char>)
    requires
        crate::paths::normal(path) != crate::paths::root(),
        !v.catalog.files.contains_key(crate::paths::normal(path)),
        crate::vault::list::is_listing(
            v,
            crate::vault::list::list_prefix(crate::paths::normal(path)),
            Seq::empty(),
        ),
        !v.catalog.files.contains_key(crate::paths::inside(crate::paths::normal(path))),
        !v.catalog.dirs.contains(crate::paths::inside(crate::paths::normal(path))),
    ensures
        crate::vault::tree::resolved(
            crate::vault::with_tree(
                v,
                v.catalog.files,
                v.catalog.dirs.remove(crate::paths::normal(path)),
            ),
            path,
        ) is None,
{
    let p = crate::paths::normal(path);
    let pre = crate::paths::inside(p);
    assert(crate::vault::list::list_prefix(p) == pre);
    if exists|k: Seq<char>| #[trigger]
        v.catalog.files.contains_key(k) && crate::text::begins(k, pre) {
        let k = choose|k: Seq<char>| #[trigger]
            v.catalog.files.contains_key(k) && crate::text::begins(k, pre);
        assert(k.len() == pre.len() ==> k =~= pre);
        lemma_child_listed(v, pre, k);
    }
    if exists|k: Seq<char>| #[trigger] v.catalog.dirs.contains(k) && crate::text::begins(k, pre) {
        let k = choose|k: Seq<char>| #[trigger]
            v.catalog.dirs.contains(k) && crate::text::begins(k, pre);
        assert(k.len() == pre.len() ==> k =~= pre);
        lemma_child_listed(v, pre, k);
    }
}

/// Giving a node a number keeps numbers and paths one to one.
pub proof fn numbering_keeps_matched(s: SessionView, path: Seq<char>)
    requires
        s.table.matched(),
        s.table.next < u64::MAX,
    ensures
        crate::mount::session::with_number(s, path).table.matched(),
        crate::mount::session::with_number(s, path).table.by_ino[crate::mount::session::number(
            s,
            path,
        )] == path,
{
    crate::mount::inodes::intern_keeps_matched(s.table, path);
}

/// Taking a node out keeps numbers and paths one to one.
pub proof fn removal_keeps_matched(s: SessionView, path: Seq<char>)
    requires
        s.table.matched(),
    ensures
        crate::mount::session::without_node(s, path).table.matched(),
{
    crate::mount::inodes::forget_keeps_matched(s.table, path);
}

/// Listing a directory keeps numbers and paths one to one, and no node loses its number.
pub proof fn listing_keeps_matched(
    t: crate::mount::inodes::TableView,
    dir: Seq<char>,
    es: Seq<crate::vault::list::EntryView>,
    n: int,
)
    requires
        t.matched(),
        0 <= n <= es.len(),
        t.next + n <= u64::MAX,
    ensures
        ({
            let u = crate::mount::session::numbered_children(t, dir, es, n);
            &&& u.matched()
            &&& u.next <= t.next + n
            &&& t.by_ino.submap_of(u.by_ino)
        }),
    decreases n,
{
    if n > 0 {
        listing_keeps_matched(t, dir, es, n - 1);
        let prev = crate::mount::session::numbered_children(t, dir, es, n - 1);
        let c = crate::naming::child_of(dir, es[n - 1].name);
        crate::mount::inodes::intern_keeps_matched(prev, c);
        assert(!prev.by_path.contains_key(c) ==> !prev.by_ino.contains_key(prev.next));
        assert(prev.by_ino.submap_of(crate::mount::inodes::interned(prev, c).by_ino));
    }
}

/// As often as a node was opened, so often it has to be released before it is closed.
pub proof fn release_undoes_open(s: SessionView, ino: u64)
    requires
        crate::mount::session::opens(s, ino) < u32::MAX,
    ensures
        crate::mount::session::still_open(crate::mount::session::opened(s, ino), ino)
            == crate::mount::session::opens(s, ino),
{
}

/// What a node is told as: a file may be read by all and written by its owner and counts once; a
/// directory may be entered too and counts twice. Its units have 512 bytes, the last one begun
/// counts whole, and times before the epoch are the epoch.
pub proof fn attributes_tell_what_is_there(ino: u64, size: u64, mtime: i64, is_dir: bool)
    ensures
        ({
            let a = crate::mount::session::attributes(ino, size, mtime, is_dir);
            &&& a.ino == ino && a.size == size && a.is_dir == is_dir
            &&& 512 * a.blocks >= size && 512 * a.blocks < size + 512
            &&& mtime >= 0 ==> a.mtime == mtime
            &&& mtime < 0 ==> a.mtime == 0
            &&& is_dir ==> a.perm == 0o755 && a.nlink == 2
            &&& !is_dir ==> a.perm == 0o644 && a.nlink == 1
        }),
{
}

/// An open file is told with the size of what was written to it and the time now; any other node
/// as it is in the vault, and what is not there not at all.
pub proof fn open_file_is_told_as_written(
    s: SessionView,
    v: VaultView,
    ino: u64,
    path: Seq<char>,
    now: i64,
)
    ensures
        ({
            let r = crate::mount::session::attributes_at(s, v, ino, path, now);
            if s.buffers.contains_key(ino) {
                r == Some(
                    crate::mount::session::attributes(
                        ino,
                        s.buffers[ino].data.len() as u64,
                        now,
                        false,
                    ),
                )
            } else {
                match crate::vault::tree::resolved(v, path) {
                    None => r is None,
                    Some(NodeKind::Dir) => r == Some(
                        crate::mount::session::attributes(ino, 0, 0, true),
                    ),
                    Some(NodeKind::File { size, mtime }) => r == Some(
                        crate::mount::session::attributes(ino, size, mtime, false),
                    ),
                }
            }
        }),
{
}

/// A read of an open file gives as many bytes as were asked for from the offset on, or those up
/// to the end.
pub proof fn open_file_is_read_up_to_its_end(data: Seq<u8>, offset: u64, size: u32)
    ensures
        ({
            let r = crate::mount::session::window(data, offset, size);
            &&& offset >= data.len() ==> r.len() == 0
            &&& offset < data.len() && offset + size <= data.len() ==> r == data.subrange(
                offset as int,
                offset + size,
            )
            &&& offset < data.len() && offset + size > data.len() ==> r == data.skip(offset as int)
        }),
{
    if offset < data.len() {
        assert(data.subrange(offset as int, data.len() as int) =~= data.skip(offset as int));
    }
}

/// A file that is given another size keeps its beginning; what is new is zero.
pub proof fn resized_file_keeps_its_beginning(data: Seq<u8>, size: nat, i: int)
    ensures
        ({
            let r = crate::mount::session::resized(data, size);
            &&& r.len() == size
            &&& size <= data.len() ==> r == data.take(size as int)
            &&& size >= data.len() ==> r.take(data.len() as int) == data
            &&& data.len() <= i < size ==> r[i] == 0u8
        }),
{
    let r = crate::mount::session::resized(data, size);
    if size <= data.len() {
        assert(r =~= data.take(size as int));
    }
    if size >= data.len() {
        assert(r.take(data.len() as int) =~= data);
    }
}

/// A name is looked up below the path of its directory; a number that none has leads nowhere.
pub proof fn name_is_looked_up_in_its_directory(s: SessionView, parent: u64, name: Seq<char>)
    ensures
        !s.table.by_ino.contains_key(parent) ==> crate::mount::session::child_path(
            s,
            parent,
            name,
        ) is None,
        s.table.by_ino.contains_key(parent) ==> crate::mount::session::child_path(s, parent, name)
            == Some(crate::naming::child_of(s.table.by_ino[parent], name)),
{
}

/// A path that is removed takes its number, what was written to it and its count of openings
/// with it; all others stay.
pub proof fn removed_node_takes_its_own_alone(s: SessionView, path: Seq<char>, ino: u64)
    requires
        s.table.matched(),
    ensures
        ({
            let r = crate::mount::session::without_node(s, path);
            let its = s.table.by_path.contains_key(path) && s.table.by_path[path] == ino;
            &&& r.table == crate::mount::inodes::forgotten(s.table, path)
            &&& its ==> !r.table.by_ino.contains_key(ino) && !r.buffers.contains_key(ino)
                && !r.open.contains_key(ino)
            &&& !its ==> (r.buffers.contains_key(ino) <==> s.buffers.contains_key(ino)) && (
            r.open.contains_key(ino) <==> s.open.contains_key(ino)) && (r.table.by_ino.contains_key(
                ino,
            ) <==> s.table.by_ino.contains_key(ino))
            &&& !its && s.buffers.contains_key(ino) ==> r.buffers[ino] == s.buffers[ino]
            &&& !its && s.open.contains_key(ino) ==> r.open[ino] == s.open[ino]
        }),
{
}

/// Openings are counted, each number by itself.
pub proof fn openings_are_counted(s: SessionView, ino: u64, other: u64)
    requires
        crate::mount::session::opens(s, ino) < u32::MAX,
    ensures
        ({
            let r = crate::mount::session::opened(s, ino);
            &&& crate::mount::session::opens(r, ino) == crate::mount::session::opens(s, ino) + 1
            &&& other != ino ==> crate::mount::session::opens(r, other)
                == crate::mount::session::opens(s, other)
            &&& r.table == s.table && r.buffers == s.buffers
            &&& !s.open.contains_key(ino) ==> crate::mount::session::opens(s, ino) == 0
            &&& s.open.contains_key(ino) ==> crate::mount::session::opens(s, ino) == s.open[ino]
        }),
{
}

/// A directory is told as itself, the one above it, and its entries in order; each tells where to
/// go on behind it, and a listing from there gives exactly what is left.
pub proof fn listing_goes_on_where_it_stopped(
    t: crate::mount::inodes::TableView,
    ino: u64,
    dir: Seq<char>,
    es: Seq<crate::vault::list::EntryView>,
    i: int,
)
    requires
        0 <= i < es.len() + 2,
        es.len() + 2 <= u64::MAX,
    ensures
        ({
            let all = crate::mount::session::items_from(t, ino, dir, es, 0);
            &&& all.len() == es.len() + 2
            &&& all[0].name == seq!['.'] && all[0].is_dir && all[0].ino == ino
            &&& all[1].name == seq!['.', '.'] && all[1].is_dir && all[1].ino
                == crate::mount::session::number_above(t, ino, dir)
            &&& i >= 2 ==> all[i].name == es[i - 2].name && all[i].is_dir == es[i - 2].is_dir
            &&& all[i].next == i + 1
            &&& crate::mount::session::items_from(t, ino, dir, es, all[i].next) == all.skip(i + 1)
        }),
{
    let all = Seq::new(
        (es.len() + 2) as nat,
        |i: int| crate::mount::session::item(t, ino, dir, es, i),
    );
    assert(all.skip(0) =~= all);
    if i + 1 == all.len() {
        assert(all.skip(i + 1) =~= Seq::empty());
    }
}

/// What a listing tells has the number of its path, which stays its number.
pub proof fn listed_entry_has_its_number(
    t: crate::mount::inodes::TableView,
    ino: u64,
    dir: Seq<char>,
    es: Seq<crate::vault::list::EntryView>,
    i: int,
)
    requires
        t.matched(),
        0 <= i < es.len(),
        t.next + es.len() <= u64::MAX,
        es.len() + 2 <= u64::MAX,
    ensures
        ({
            let all = crate::mount::session::items_from(t, ino, dir, es, 0);
            let u = crate::mount::session::numbered_children(t, dir, es, es.len() as int);
            let c = crate::naming::child_of(dir, es[i].name);
            &&& u.by_path.contains_key(c) && u.by_path[c] == all[i + 2].ino
            &&& t.by_path.contains_key(c) ==> all[i + 2].ino == t.by_path[c]
        }),
{
    let all = Seq::new(
        (es.len() + 2) as nat,
        |i: int| crate::mount::session::item(t, ino, dir, es, i),
    );
    assert(all.skip(0) =~= all);
    let c = crate::naming::child_of(dir, es[i].name);
    listing_keeps_matched(t, dir, es, i);
    crate::mount::inodes::intern_keeps_matched(
        crate::mount::session::numbered_children(t, dir, es, i),
        c,
    );
    lemma_number_stays(t, dir, es, i + 1, es.len() as int, c);
    lemma_number_stays(t, dir, es, 0, i + 1, c);
}

proof fn lemma_number_stays(
    t: crate::mount::inodes::TableView,
    dir: Seq<char>,
    es: Seq<crate::vault::list::EntryView>,
    m: int,
    n: int,
    c: Seq<char>,
)
    requires
        0 <= m <= n <= es.len(),
    ensures
        ({
            let a = crate::mount::session::numbered_children(t, dir, es, m);
            let b = crate::mount::session::numbered_children(t, dir, es, n);
            a.by_path.contains_key(c) ==> b.by_path.contains_key(c) && b.by_path[c]
                == a.by_path[c]
        }),
    decreases n,
{
    if m < n {
        lemma_number_stays(t, dir, es, m, n - 1, c);
    }
}

/// The number above a directory is that of its parent, if that has one; the root is its own
/// parent.
pub proof fn number_above_is_that_of_the_parent(
    t: crate::mount::inodes::TableView,
    ino: u64,
    above: Seq<char>,
    name: Seq<char>,
)
    requires
        !name.contains('/'),
        above + seq!['/'] + name != seq!['/'],
    ensures
        crate::mount::session::number_above(t, ino, seq!['/']) == ino,
        ({
            let parent = if above.len() == 0 {
                seq!['/']
            } else {
                above
            };
            let r = crate::mount::session::number_above(t, ino, above + seq!['/'] + name);
            &&& t.by_path.contains_key(parent) ==> r == t.by_path[parent]
            &&& !t.by_path.contains_key(parent) ==> r == 1
        }),
{
    crate::naming::path_is_split_at_its_last_slash(above, name);
}

/// The items of a listing are told one by one, each with its number, its place, its kind and its
/// name.
pub proof fn items_are_told_one_by_one(items: Seq<crate::mount::session::DirItem>, i: int)
    requires
        0 <= i < items.len(),
    ensures
        crate::mount::session::item_views(items).len() == items.len(),
        crate::mount::session::item_views(items)[i].ino == items[i].ino,
        crate::mount::session::item_views(items)[i].next == items[i].next,
        crate::mount::session::item_views(items)[i].is_dir == items[i].is_dir,
        crate::mount::session::item_views(items)[i].name == items[i].name@,
{
}

} // verus!
