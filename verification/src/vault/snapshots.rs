//! Named versions of the tree.

use crate::catalog::Snapshot;
use crate::error::VaultError;
use crate::text::trim;
use crate::vault::{Vault, VaultView};
use vstd::prelude::*;

verus! {

/// `v` with other snapshots.
pub open spec fn with_snapshots(
    v: VaultView,
    snapshots: Seq<crate::catalog::SnapshotView>,
) -> VaultView {
    VaultView { catalog: crate::catalog::CatalogView { snapshots, ..v.catalog }, ..v }
}

/// The first snapshot with this name.
pub open spec fn snapshot_named(
    snapshots: Seq<crate::catalog::SnapshotView>,
    name: Seq<char>,
) -> Option<crate::catalog::SnapshotView>
    decreases snapshots.len(),
{
    if snapshots.len() == 0 {
        None
    } else if snapshots[0].name == name {
        Some(snapshots[0])
    } else {
        snapshot_named(snapshots.drop_first(), name)
    }
}

/// The current tree under a name.
pub open spec fn snapshot_of(
    v: VaultView,
    name: Seq<char>,
    now: i64,
) -> crate::catalog::SnapshotView {
    crate::catalog::SnapshotView {
        name,
        created: now,
        files: v.catalog.files,
        dirs: v.catalog.dirs,
    }
}

/// What making a snapshot leads to: a name of white space and one that is taken are refused.
pub open spec fn snapshot_made(v: VaultView, name: Seq<char>, now: i64) -> Result<
    VaultView,
    VaultError,
> {
    if crate::text::trimmed(name).len() == 0 {
        Err(VaultError::EmptySnapshotName)
    } else if snapshot_named(v.catalog.snapshots, name) is Some {
        Err(VaultError::SnapshotExists)
    } else {
        Ok(with_snapshots(v, v.catalog.snapshots.push(snapshot_of(v, name, now))))
    }
}

/// What going back to a snapshot leads to.
pub open spec fn snapshot_restored(v: VaultView, name: Seq<char>) -> Result<VaultView, VaultError> {
    match snapshot_named(v.catalog.snapshots, name) {
        Some(s) => Ok(crate::vault::with_tree(v, s.files, s.dirs)),
        None => Err(VaultError::SnapshotNotFound),
    }
}

/// Snapshots with another name.
pub open spec fn not_named(name: Seq<char>) -> spec_fn(crate::catalog::SnapshotView) -> bool {
    |s: crate::catalog::SnapshotView| s.name != name
}

impl Vault {
    /// Where the first snapshot with this name stands.
    fn find_snapshot(&self, name: &str) -> (r: Option<usize>)
        requires
            self.wf(),
        ensures
            match r {
                Some(i) => i < self@.catalog.snapshots.len() && snapshot_named(
                    self@.catalog.snapshots,
                    name@,
                ) == Some(self@.catalog.snapshots[i as int]),
                None => snapshot_named(self@.catalog.snapshots, name@) is None,
            },
    {
        let ghost all = self@.catalog.snapshots;
        let wanted = name.to_owned();
        let mut i: usize = 0;
        assert(all.skip(0) =~= all);
        while i < self.catalog.snapshots.len()
            invariant
                self.wf(),
                all == self@.catalog.snapshots,
                i <= all.len(),
                wanted@ == name@,
                snapshot_named(all.skip(i as int), name@) == snapshot_named(all, name@),
            decreases all.len() - i,
        {
            let s = &self.catalog.snapshots[i];
            assert(all.skip(i as int)[0] == s@);
            if s.name == wanted {
                return Some(i);
            }
            assert(all.skip(i as int).drop_first() =~= all.skip(i + 1));
            i = i + 1;
        }
        None
    }

    /// Keeps the current tree under a name. `now` is the time in seconds of Unix time.
    pub fn snapshot_create(&mut self, name: &str, now: i64) -> (r: Result<(), VaultError>)
        requires
            old(self).wf(),
        ensures
            final(self).wf(),
            match snapshot_made(old(self)@, name@, now) {
                Ok(v) => r is Ok && final(self)@ == v,
                Err(e) => r == Err::<(), VaultError>(e) && final(self)@ == old(self)@,
            },
    {
        if trim(name).as_str().is_empty() {
            return Err(VaultError::EmptySnapshotName);
        }
        if self.find_snapshot(name).is_some() {
            return Err(VaultError::SnapshotExists);
        }
        let ghost before = self@;
        let s = Snapshot {
            name: name.to_owned(),
            created: now,
            files: self.catalog.files.copy(),
            dirs: self.catalog.dirs.copy(),
        };
        let ghost sv = s@;
        self.catalog.snapshots.push(s);
        proof {
            assert(self@.catalog.snapshots =~= before.catalog.snapshots.push(sv));
            assert(self@ =~= with_snapshots(before, before.catalog.snapshots.push(sv)));
        }
        Ok(())
    }

    /// The snapshots, oldest first.
    pub fn snapshots(&self) -> (r: &Vec<Snapshot>)
        ensures
            crate::catalog::snapshot_views(r@) == self@.catalog.snapshots,
    {
        &self.catalog.snapshots
    }

    /// Puts the tree of a snapshot in place of the current one.
    pub fn snapshot_restore(&mut self, name: &str) -> (r: Result<(), VaultError>)
        requires
            old(self).wf(),
        ensures
            final(self).wf(),
            match snapshot_restored(old(self)@, name@) {
                Ok(v) => r is Ok && final(self)@ == v,
                Err(e) => r == Err::<(), VaultError>(e) && final(self)@ == old(self)@,
            },
    {
        match self.find_snapshot(name) {
            None => Err(VaultError::SnapshotNotFound),
            Some(i) => {
                let files = self.catalog.snapshots[i].files.copy();
                let dirs = self.catalog.snapshots[i].dirs.copy();
                self.catalog.files = files;
                self.catalog.dirs = dirs;
                Ok(())
            },
        }
    }

    /// Takes the snapshots with this name out; `true` if there was one.
    pub fn snapshot_delete(&mut self, name: &str) -> (r: bool)
        requires
            old(self).wf(),
        ensures
            final(self).wf(),
            final(self)@ == with_snapshots(
                old(self)@,
                old(self)@.catalog.snapshots.filter(not_named(name@)),
            ),
            r == (snapshot_named(old(self)@.catalog.snapshots, name@) is Some),
    {
        let ghost before = self@;
        let ghost all = before.catalog.snapshots;
        let ghost p = not_named(name@);
        let there = self.find_snapshot(name).is_some();
        let wanted = name.to_owned();
        let mut i: usize = 0;
        let ghost mut seen: int = 0;
        proof {
            reveal(Seq::filter);
            assert(all.skip(0) =~= all);
            assert(all.take(0).filter(p) =~= Seq::empty());
            assert(all.take(0).filter(p) + all.skip(0) =~= all);
        }
        while i < self.catalog.snapshots.len()
            invariant
                self.wf(),
                p == not_named(name@),
                wanted@ == name@,
                0 <= seen <= all.len(),
                i == all.take(seen).filter(p).len(),
                self@.catalog.snapshots == all.take(seen).filter(p) + all.skip(seen),
                self@ == with_snapshots(before, self@.catalog.snapshots),
            decreases all.len() - seen,
        {
            let ghost now = self@.catalog.snapshots;
            proof {
                assert(now.len() > i);
                assert(seen < all.len());
                assert(now[i as int] == all.skip(seen)[0]);
                assert(all.skip(seen)[0] == all[seen]);
                reveal(Seq::filter);
                assert(all.take(seen + 1).drop_last() =~= all.take(seen));
                assert(all.take(seen + 1).last() == all[seen]);
                assert(self.catalog.snapshots@[i as int]@ == now[i as int]);
            }
            if self.catalog.snapshots[i].name == wanted {
                let _ = self.catalog.snapshots.remove(i);
                proof {
                    assert(self@.catalog.snapshots =~= now.remove(i as int));
                    assert(now.remove(i as int) =~= all.take(seen + 1).filter(p) + all.skip(
                        seen + 1,
                    ));
                    assert(self@ =~= with_snapshots(before, self@.catalog.snapshots));
                }
            } else {
                proof {
                    assert(now =~= all.take(seen + 1).filter(p) + all.skip(seen + 1));
                }
                i = i + 1;
            }
            proof {
                seen = seen + 1;
            }
        }
        proof {
            assert(seen == all.len());
            assert(all.take(seen) =~= all);
            assert(self@.catalog.snapshots =~= all.filter(p));
        }
        there
    }
}

/// A snapshot is found under its name as long as the snapshots stay.
proof fn lemma_named_last(
    snapshots: Seq<crate::catalog::SnapshotView>,
    s: crate::catalog::SnapshotView,
)
    requires
        snapshot_named(snapshots, s.name) is None,
    ensures
        snapshot_named(snapshots.push(s), s.name) == Some(s),
    decreases snapshots.len(),
{
    let more = snapshots.push(s);
    if snapshots.len() > 0 {
        assert(more.drop_first() =~= snapshots.drop_first().push(s));
        lemma_named_last(snapshots.drop_first(), s);
    } else {
        assert(more[0] == s);
    }
}

/// A snapshot that was deleted cannot be gone back to.
pub proof fn deleted_snapshot_is_gone(v: VaultView, name: Seq<char>)
    ensures
        snapshot_named(v.catalog.snapshots.filter(not_named(name)), name) is None,
{
    lemma_filtered_names(v.catalog.snapshots, name);
    lemma_none_named(v.catalog.snapshots.filter(not_named(name)), name);
}

proof fn lemma_filtered_names(snapshots: Seq<crate::catalog::SnapshotView>, name: Seq<char>)
    ensures
        forall|i: int|
            0 <= i < snapshots.filter(not_named(name)).len() ==> (#[trigger] snapshots.filter(
                not_named(name),
            )[i]).name != name,
    decreases snapshots.len(),
{
    reveal(Seq::filter);
    if snapshots.len() > 0 {
        lemma_filtered_names(snapshots.drop_last(), name);
    }
}

proof fn lemma_none_named(snapshots: Seq<crate::catalog::SnapshotView>, name: Seq<char>)
    requires
        forall|i: int| 0 <= i < snapshots.len() ==> (#[trigger] snapshots[i]).name != name,
    ensures
        snapshot_named(snapshots, name) is None,
    decreases snapshots.len(),
{
    if snapshots.len() > 0 {
        assert(snapshots[0].name != name);
        lemma_none_named(snapshots.drop_first(), name);
    }
}

/// A snapshot behind others is found only if none of them has its name.
proof fn lemma_named_push(
    snapshots: Seq<crate::catalog::SnapshotView>,
    s: crate::catalog::SnapshotView,
    name: Seq<char>,
)
    ensures
        snapshot_named(snapshots.push(s), name) == (match snapshot_named(snapshots, name) {
            Some(t) => Some(t),
            None => if s.name == name {
                Some(s)
            } else {
                None
            },
        }),
    decreases snapshots.len(),
{
    let more = snapshots.push(s);
    if snapshots.len() > 0 {
        assert(more[0] == snapshots[0]);
        assert(more.drop_first() =~= snapshots.drop_first().push(s));
        lemma_named_push(snapshots.drop_first(), s, name);
    } else {
        assert(more[0] == s);
        assert(more.drop_first() =~= snapshots);
        assert(snapshot_named(snapshots, name) is None);
    }
}

/// To delete a snapshot leaves those with other names.
proof fn lemma_named_filter(
    snapshots: Seq<crate::catalog::SnapshotView>,
    gone: Seq<char>,
    name: Seq<char>,
)
    requires
        gone != name,
    ensures
        snapshot_named(snapshots.filter(not_named(gone)), name) == snapshot_named(snapshots, name),
    decreases snapshots.len(),
{
    reveal(Seq::filter);
    if snapshots.len() > 0 {
        let init = snapshots.drop_last();
        let last = snapshots.last();
        lemma_named_filter(init, gone, name);
        assert(snapshots =~= init.push(last));
        lemma_named_push(init, last, name);
        lemma_named_push(init.filter(not_named(gone)), last, name);
    }
}

/// `w` comes from `v` by a call that leaves the snapshot `name` alone: one that changes no
/// snapshot at all, or one that makes or deletes another one.
pub open spec fn spares_snapshot(v: VaultView, w: VaultView, name: Seq<char>) -> bool {
    ||| w.catalog.snapshots == v.catalog.snapshots
    ||| exists|other: Seq<char>, now: i64| #[trigger]
        snapshot_made(v, other, now) == Ok::<VaultView, VaultError>(w)
    ||| exists|other: Seq<char>|
        other != name && w == with_snapshots(
            v,
            #[trigger] v.catalog.snapshots.filter(not_named(other)),
        )
}

/// However many calls that leave it alone come after a snapshot was made, going back to it gives
/// the tree of the time when it was made. `states` are the vault right after it was made and
/// after each of the calls.
pub proof fn snapshot_outlives_other_calls(
    v: VaultView,
    name: Seq<char>,
    now: i64,
    states: Seq<VaultView>,
)
    requires
        states.len() > 0,
        snapshot_made(v, name, now) == Ok::<VaultView, VaultError>(states[0]),
        forall|i: int|
            #![trigger states[i]]
            0 < i < states.len() ==> spares_snapshot(states[i - 1], states[i], name),
    ensures
        snapshot_restored(states.last(), name) == Ok::<VaultView, VaultError>(
            crate::vault::with_tree(states.last(), v.catalog.files, v.catalog.dirs),
        ),
{
    lemma_outlives(v, name, now, states, states.len() - 1);
}

proof fn lemma_outlives(
    v: VaultView,
    name: Seq<char>,
    now: i64,
    states: Seq<VaultView>,
    n: int,
)
    requires
        0 <= n < states.len(),
        snapshot_made(v, name, now) == Ok::<VaultView, VaultError>(states[0]),
        forall|i: int|
            #![trigger states[i]]
            0 < i < states.len() ==> spares_snapshot(states[i - 1], states[i], name),
    ensures
        snapshot_named(states[n].catalog.snapshots, name) == Some(snapshot_of(v, name, now)),
    decreases n,
{
    if n == 0 {
        lemma_named_last(v.catalog.snapshots, snapshot_of(v, name, now));
    } else {
        lemma_outlives(v, name, now, states, n - 1);
        let a = states[n - 1];
        let b = states[n];
        assert(spares_snapshot(a, b, name));
        if b.catalog.snapshots != a.catalog.snapshots {
            if exists|other: Seq<char>, t: i64| #[trigger]
                snapshot_made(a, other, t) == Ok::<VaultView, VaultError>(b) {
                let (other, t) = choose|other: Seq<char>, t: i64| #[trigger]
                    snapshot_made(a, other, t) == Ok::<VaultView, VaultError>(b);
                lemma_named_push(a.catalog.snapshots, snapshot_of(a, other, t), name);
            } else {
                let other = choose|other: Seq<char>|
                    other != name && b == with_snapshots(
                        a,
                        #[trigger] a.catalog.snapshots.filter(not_named(other)),
                    );
                lemma_named_filter(a.catalog.snapshots, other, name);
            }
        }
    }
}

/// Storing, linking, adding, removing, moving, making a directory and going back to a snapshot
/// change no snapshot.
pub proof fn tree_calls_spare_snapshots(
    v: VaultView,
    ws: Seq<crate::vault::write::BlockWrite>,
    path: Seq<char>,
    other: Seq<char>,
    f: crate::catalog::FileView,
    intake: crate::vault::add::IntakeView,
    mtime: i64,
)
    ensures
        crate::vault::write::after_writes(v, ws).catalog.snapshots == v.catalog.snapshots,
        crate::vault::write::linked(v, path, f).catalog.snapshots == v.catalog.snapshots,
        crate::vault::add::added(v, intake, path, mtime).catalog.snapshots == v.catalog.snapshots,
        crate::vault::moves::pruned(v, path).catalog.snapshots == v.catalog.snapshots,
        crate::vault::moves::renamed(v, path, other) matches Some(w) ==> w.catalog.snapshots
            == v.catalog.snapshots,
        snapshot_restored(v, other) matches Ok(w) ==> w.catalog.snapshots == v.catalog.snapshots,
{
    crate::vault::write::lemma_after_writes_frame(v, ws);
}

/// The vault `w` with the file `g` comes from `v` with the file `f` by a call that stores pieces,
/// or none, whatever it does to the tree, to the snapshots and to the quota.
pub open spec fn only_stores(v: VaultView, f: Seq<u8>, w: VaultView, g: Seq<u8>) -> bool {
    exists|pieces: Seq<Seq<u8>>, ws: Seq<crate::vault::write::BlockWrite>|
        #[trigger] stores_pieces(v, f, w, g, pieces, ws)
}

/// The blocks and the file are those of `v` and `f` once `ws` have stored `pieces`.
pub open spec fn stores_pieces(
    v: VaultView,
    f: Seq<u8>,
    w: VaultView,
    g: Seq<u8>,
    pieces: Seq<Seq<u8>>,
    ws: Seq<crate::vault::write::BlockWrite>,
) -> bool {
    let after = crate::vault::write::after_writes(v, ws);
    &&& crate::vault::write::stores(v, pieces, ws)
    &&& forall|i: int|
        0 <= i < pieces.len() ==> (#[trigger] pieces[i]).len() <= crate::chunking::MAX_CHUNK
    &&& w.catalog.blocks == after.catalog.blocks
    &&& w.next_append == after.next_append
    &&& w.enc == v.enc
    &&& g == crate::vault::laws::written(f, ws)
}

/// The vault `w` with the file `g` is `v` with the file `f` after a commit.
pub open spec fn commits(v: VaultView, f: Seq<u8>, w: VaultView, g: Seq<u8>) -> bool {
    exists|c: crate::vault::commit::CatalogWrite, raw: Seq<u8>|
        #[trigger] crate::vault::commit::is_catalog_write(
            c,
            v.chunk_size,
            v.next_append,
            raw,
            v.enc,
        ) && c.offset + c.bytes@.len() <= u64::MAX && g == crate::vault::commit::committed_file(
            f,
            c,
        ) && w == (VaultView { next_append: (c.offset + c.bytes@.len()) as u64, ..v })
}

/// Storing keeps the content of a file that stands.
proof fn lemma_stores_keep(
    v: VaultView,
    f: Seq<u8>,
    w: VaultView,
    g: Seq<u8>,
    entry: crate::catalog::FileView,
    bytes: Seq<u8>,
)
    requires
        only_stores(v, f, w, g),
        crate::vault::laws::appendable(v, f),
        crate::vault::laws::has_content(v, f, entry, bytes),
        crate::vault::laws::file_stands(v, entry),
    ensures
        crate::vault::laws::appendable(w, g),
        crate::vault::laws::has_content(w, g, entry, bytes),
        crate::vault::laws::file_stands(w, entry),
{
    let (pieces, ws) = choose|
        pieces: Seq<Seq<u8>>,
        ws: Seq<crate::vault::write::BlockWrite>,
    | #[trigger] stores_pieces(v, f, w, g, pieces, ws);
    let after = crate::vault::write::after_writes(v, ws);
    crate::vault::laws::stored_pieces_stay(v, f, pieces, ws);
    crate::vault::laws::other_writes_keep_content(v, f, pieces, ws, entry, bytes);
    crate::vault::write::lemma_after_writes_frame(v, ws);
    lemma_same_blocks_same_content(after, w, g, entry, bytes);
}

/// What a file holds depends on the blocks, the key and the file of the vault only.
proof fn lemma_same_blocks_same_content(
    v: VaultView,
    w: VaultView,
    file: Seq<u8>,
    entry: crate::catalog::FileView,
    bytes: Seq<u8>,
)
    requires
        w.catalog.blocks == v.catalog.blocks,
        w.next_append == v.next_append,
        w.key() == v.key(),
        crate::vault::laws::has_content(v, file, entry, bytes),
        crate::vault::laws::file_stands(v, entry),
    ensures
        crate::vault::laws::has_content(w, file, entry, bytes),
        crate::vault::laws::file_stands(w, entry),
{
    assert forall|i: int| 0 <= i < entry.chunks.len() implies crate::vault::laws::stands(
        w,
        (#[trigger] entry.chunks[i]).hash@,
    ) && crate::vault::laws::content_of(w, file, entry.chunks[i].hash@)
        == crate::vault::laws::content_of(v, file, entry.chunks[i].hash@) by {
        assert(crate::vault::laws::stands(v, entry.chunks[i].hash@));
    }
}

/// A commit keeps the content of a file that stands behind the header.
proof fn lemma_commit_keeps(
    v: VaultView,
    f: Seq<u8>,
    w: VaultView,
    g: Seq<u8>,
    entry: crate::catalog::FileView,
    bytes: Seq<u8>,
)
    requires
        commits(v, f, w, g),
        v.enc matches Some(e) ==> e.fits(),
        crate::vault::laws::appendable(v, f),
        crate::vault::laws::has_content(v, f, entry, bytes),
        crate::vault::laws::file_stands(v, entry),
        behind_header(v, entry),
    ensures
        crate::vault::laws::appendable(w, g),
        crate::vault::laws::has_content(w, g, entry, bytes),
        crate::vault::laws::file_stands(w, entry),
{
    let (c, raw) = choose|c: crate::vault::commit::CatalogWrite, raw: Seq<u8>|
        #[trigger] crate::vault::commit::is_catalog_write(
            c,
            v.chunk_size,
            v.next_append,
            raw,
            v.enc,
        ) && c.offset + c.bytes@.len() <= u64::MAX && g == crate::vault::commit::committed_file(
            f,
            c,
        ) && w == (VaultView { next_append: (c.offset + c.bytes@.len()) as u64, ..v });
    crate::header::header_reads_back(v.chunk_size, c.offset, c.bytes@.len() as u64, v.enc);
    assert(w.key() == v.key());
    assert forall|i: int| 0 <= i < entry.chunks.len() implies crate::vault::laws::stands(
        w,
        (#[trigger] entry.chunks[i]).hash@,
    ) && crate::vault::laws::content_of(w, g, entry.chunks[i].hash@)
        == crate::vault::laws::content_of(v, f, entry.chunks[i].hash@) by {
        let h = entry.chunks[i].hash@;
        assert(crate::vault::laws::stands(v, h));
        let b = v.catalog.blocks[h];
        assert(crate::header::HEADER_SIZE <= b.offset);
        assert(g.subrange(b.offset as int, b.offset + b.len) =~= f.subrange(
            b.offset as int,
            b.offset + b.len,
        ));
    }
}

/// The blocks of the file stand behind the header.
pub open spec fn behind_header(v: VaultView, entry: crate::catalog::FileView) -> bool {
    forall|i: int|
        0 <= i < entry.chunks.len() ==> crate::header::HEADER_SIZE
            <= v.catalog.blocks[(#[trigger] entry.chunks[i]).hash@].offset
}

/// However many calls come after a snapshot was made that leave it alone and store, relink,
/// prune or commit, going back to it gives back its files, and each of them has the content that
/// it had. `states` and `disks` are the vault and its file right after the snapshot was made and
/// after each of the calls.
pub proof fn snapshot_keeps_its_contents(
    v: VaultView,
    name: Seq<char>,
    now: i64,
    states: Seq<VaultView>,
    disks: Seq<Seq<u8>>,
    path: Seq<char>,
    bytes: Seq<u8>,
)
    requires
        states.len() > 0,
        disks.len() == states.len(),
        snapshot_made(v, name, now) == Ok::<VaultView, VaultError>(states[0]),
        forall|i: int|
            #![trigger states[i]]
            0 < i < states.len() ==> spares_snapshot(states[i - 1], states[i], name) && (
            only_stores(states[i - 1], disks[i - 1], states[i], disks[i]) || commits(
                states[i - 1],
                disks[i - 1],
                states[i],
                disks[i],
            )),
        v.enc matches Some(e) ==> e.fits(),
        crate::vault::laws::appendable(v, disks[0]),
        v.catalog.files.contains_key(path),
        crate::vault::laws::has_content(v, disks[0], v.catalog.files[path], bytes),
        crate::vault::laws::file_stands(v, v.catalog.files[path]),
        behind_header(v, v.catalog.files[path]),
    ensures
        ({
            let last = states.last();
            let f = v.catalog.files[path];
            let r = crate::vault::with_tree(last, v.catalog.files, v.catalog.dirs);
            &&& snapshot_restored(last, name) == Ok::<VaultView, VaultError>(r)
            &&& r.catalog.files.contains_key(path)
            &&& r.catalog.files[path] == f
            &&& crate::vault::laws::has_content(r, disks.last(), f, bytes)
            &&& r.catalog.snapshots == last.catalog.snapshots
            &&& r.catalog.blocks == last.catalog.blocks
            &&& r.catalog.quota == last.catalog.quota
        }),
{
    let f = v.catalog.files[path];
    let n = states.len() - 1;
    snapshot_outlives_other_calls(v, name, now, states);
    lemma_contents_outlive(v, name, now, states, disks, f, bytes, n);
    lemma_same_blocks_same_content(
        states[n],
        crate::vault::with_tree(states[n], v.catalog.files, v.catalog.dirs),
        disks[n],
        f,
        bytes,
    );
}

proof fn lemma_contents_outlive(
    v: VaultView,
    name: Seq<char>,
    now: i64,
    states: Seq<VaultView>,
    disks: Seq<Seq<u8>>,
    f: crate::catalog::FileView,
    bytes: Seq<u8>,
    n: int,
)
    requires
        0 <= n < states.len(),
        disks.len() == states.len(),
        snapshot_made(v, name, now) == Ok::<VaultView, VaultError>(states[0]),
        forall|i: int|
            #![trigger states[i]]
            0 < i < states.len() ==> spares_snapshot(states[i - 1], states[i], name) && (
            only_stores(states[i - 1], disks[i - 1], states[i], disks[i]) || commits(
                states[i - 1],
                disks[i - 1],
                states[i],
                disks[i],
            )),
        v.enc matches Some(e) ==> e.fits(),
        crate::vault::laws::appendable(v, disks[0]),
        crate::vault::laws::has_content(v, disks[0], f, bytes),
        crate::vault::laws::file_stands(v, f),
        behind_header(v, f),
    ensures
        states[n].enc == v.enc,
        crate::vault::laws::appendable(states[n], disks[n]),
        crate::vault::laws::has_content(states[n], disks[n], f, bytes),
        crate::vault::laws::file_stands(states[n], f),
        behind_header(states[n], f),
    decreases n,
{
    if n == 0 {
        lemma_same_blocks_same_content(v, states[0], disks[0], f, bytes);
    } else {
        lemma_contents_outlive(v, name, now, states, disks, f, bytes, n - 1);
        let a = states[n - 1];
        let b = states[n];
        let x = disks[n - 1];
        let y = disks[n];
        assert(only_stores(a, x, b, y) || commits(a, x, b, y));
        if only_stores(a, x, b, y) {
            lemma_stores_keep(a, x, b, y, f, bytes);
            lemma_places_stay(a, x, b, y, f);
        } else {
            lemma_commit_keeps(a, x, b, y, f, bytes);
        }
    }
}

/// Storing moves no block that is in the index.
proof fn lemma_places_stay(
    v: VaultView,
    f: Seq<u8>,
    w: VaultView,
    g: Seq<u8>,
    entry: crate::catalog::FileView,
)
    requires
        only_stores(v, f, w, g),
        crate::vault::laws::file_stands(v, entry),
        behind_header(v, entry),
    ensures
        behind_header(w, entry),
{
    let (pieces, ws) = choose|
        pieces: Seq<Seq<u8>>,
        ws: Seq<crate::vault::write::BlockWrite>,
    | #[trigger] stores_pieces(v, f, w, g, pieces, ws);
    assert forall|i: int| 0 <= i < entry.chunks.len() implies crate::header::HEADER_SIZE
        <= w.catalog.blocks[(#[trigger] entry.chunks[i]).hash@].offset by {
        let h = entry.chunks[i].hash@;
        assert(crate::vault::laws::stands(v, h));
        crate::vault::write::lemma_place_stays(v, pieces, ws, h);
    }
}

proof fn lemma_named(snapshots: Seq<crate::catalog::SnapshotView>, name: Seq<char>) -> (i: int)
    ensures
        match snapshot_named(snapshots, name) {
            Some(s) => 0 <= i < snapshots.len() && snapshots[i] == s && s.name == name && forall|
                j: int,
            |
                0 <= j < i ==> (#[trigger] snapshots[j]).name != name,
            None => forall|j: int| 0 <= j < snapshots.len() ==> (#[trigger] snapshots[j]).name
                != name,
        },
    decreases snapshots.len(),
{
    if snapshots.len() == 0 || snapshots[0].name == name {
        0
    } else {
        let rest = snapshots.drop_first();
        let i = lemma_named(rest, name);
        match snapshot_named(rest, name) {
            Some(s) => {
                assert forall|j: int| 0 <= j < i + 1 implies (#[trigger] snapshots[j]).name
                    != name by {
                    if j > 0 {
                        assert(rest[j - 1] == snapshots[j]);
                    }
                }
            },
            None => {
                assert forall|j: int| 0 <= j < snapshots.len() implies (
                #[trigger] snapshots[j]).name != name by {
                    if j > 0 {
                        assert(rest[j - 1] == snapshots[j]);
                    }
                }
            },
        }
        i + 1
    }
}

/// A snapshot is made exactly if its name is more than white space and no other one has it; it
/// then stands behind the others with the files and directories of the tree and the time given,
/// and nothing else changes. Otherwise the error tells which of the two was wrong.
pub proof fn made_snapshot_is_the_tree(v: VaultView, name: Seq<char>, now: i64)
    ensures
        ({
            let blank = forall|i: int| 0 <= i < name.len() ==> crate::text::is_space(name[i]);
            let taken = exists|i: int|
                0 <= i < v.catalog.snapshots.len() && (#[trigger] v.catalog.snapshots[i]).name
                    == name;
            match snapshot_made(v, name, now) {
                Ok(w) => {
                    &&& !blank && !taken
                    &&& w.catalog.snapshots.len() == v.catalog.snapshots.len() + 1
                    &&& w.catalog.snapshots.drop_last() == v.catalog.snapshots
                    &&& w.catalog.snapshots.last().name == name
                    &&& w.catalog.snapshots.last().created == now
                    &&& w.catalog.snapshots.last().files == v.catalog.files
                    &&& w.catalog.snapshots.last().dirs == v.catalog.dirs
                    &&& w.catalog.files == v.catalog.files && w.catalog.dirs == v.catalog.dirs
                    &&& w.catalog.blocks == v.catalog.blocks && w.catalog.quota == v.catalog.quota
                    &&& w.next_append == v.next_append && w.enc == v.enc
                },
                Err(e) => if blank {
                    e == VaultError::EmptySnapshotName
                } else {
                    taken && e == VaultError::SnapshotExists
                },
            }
        }),
{
    let i = lemma_named(v.catalog.snapshots, name);
    crate::text::blank_text_is_trimmed_away(name);
    if snapshot_made(v, name, now) is Ok {
        let w = snapshot_made(v, name, now)->Ok_0;
        assert(w.catalog.snapshots.drop_last() =~= v.catalog.snapshots);
    }
}

/// To restore a snapshot gives the tree the files and directories of the first one with its name,
/// and changes nothing else; it is refused exactly if there is none.
pub proof fn restored_tree_is_the_snapshot(v: VaultView, name: Seq<char>, i: int)
    requires
        forall|j: int| 0 <= j < i ==> (#[trigger] v.catalog.snapshots[j]).name != name,
        0 <= i <= v.catalog.snapshots.len(),
        i < v.catalog.snapshots.len() ==> v.catalog.snapshots[i].name == name,
    ensures
        i == v.catalog.snapshots.len() ==> snapshot_restored(v, name) == Err::<
            VaultView,
            VaultError,
        >(VaultError::SnapshotNotFound),
        i < v.catalog.snapshots.len() ==> (snapshot_restored(v, name) matches Ok(w) && {
            &&& w.catalog.files == v.catalog.snapshots[i].files
            &&& w.catalog.dirs == v.catalog.snapshots[i].dirs
            &&& w.catalog.snapshots == v.catalog.snapshots
            &&& w.catalog.blocks == v.catalog.blocks && w.catalog.quota == v.catalog.quota
            &&& w.next_append == v.next_append && w.enc == v.enc
        }),
{
    let k = lemma_named(v.catalog.snapshots, name);
    if i < v.catalog.snapshots.len() {
        assert(v.catalog.snapshots[i].name == name);
        if snapshot_named(v.catalog.snapshots, name) is Some {
            assert(v.catalog.snapshots[k].name == name);
        }
    }
}

/// To delete a snapshot takes those of its name, and leaves all others as they were.
pub proof fn other_snapshots_stay(v: VaultView, name: Seq<char>, s: crate::catalog::SnapshotView)
    ensures
        v.catalog.snapshots.filter(not_named(name)).contains(s) <==> v.catalog.snapshots.contains(
            s,
        ) && s.name != name,
        (forall|j: int|
            0 <= j < v.catalog.snapshots.len() ==> (#[trigger] v.catalog.snapshots[j]).name != name)
            ==> v.catalog.snapshots.filter(not_named(name)) == v.catalog.snapshots,
        snapshot_named(v.catalog.snapshots, name) is Some <==> exists|j: int|
            0 <= j < v.catalog.snapshots.len() && (#[trigger] v.catalog.snapshots[j]).name == name,
{
    let k = lemma_named(v.catalog.snapshots, name);
    lemma_others_kept(v.catalog.snapshots, name, s);
}

proof fn lemma_others_kept(
    snapshots: Seq<crate::catalog::SnapshotView>,
    name: Seq<char>,
    s: crate::catalog::SnapshotView,
)
    ensures
        snapshots.filter(not_named(name)).contains(s) <==> snapshots.contains(s) && s.name != name,
        (forall|j: int| 0 <= j < snapshots.len() ==> (#[trigger] snapshots[j]).name != name)
            ==> snapshots.filter(not_named(name)) == snapshots,
    decreases snapshots.len(),
{
    reveal(Seq::filter);
    if snapshots.len() > 0 {
        let front = snapshots.drop_last();
        let last = snapshots.last();
        lemma_others_kept(front, name, s);
        let f = front.filter(not_named(name));
        let g = snapshots.filter(not_named(name));
        assert(snapshots[snapshots.len() - 1] == last);
        assert(snapshots.contains(s) == (front.contains(s) || s == last)) by {
            if front.contains(s) {
                assert(snapshots[front.index_of(s)] == s);
            }
            if snapshots.contains(s) && s != last {
                assert(front[snapshots.index_of(s)] == s);
            }
        }
        if last.name != name {
            assert(g == f.push(last));
            assert(g[f.len() as int] == last);
            assert(g.contains(s) == (f.contains(s) || s == last)) by {
                if f.contains(s) {
                    assert(g[f.index_of(s)] == s);
                }
                if g.contains(s) && s != last {
                    assert(f[g.index_of(s)] == s);
                }
            }
        }
        if forall|j: int| 0 <= j < snapshots.len() ==> (#[trigger] snapshots[j]).name != name {
            assert forall|j: int| 0 <= j < front.len() implies (#[trigger] front[j]).name
                != name by {
                assert(snapshots[j].name != name);
            }
            assert(g =~= snapshots);
        }
    }
}

} // verus!
