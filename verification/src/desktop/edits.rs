//! Edits of one or several paths.

use crate::error::VaultError;
use crate::naming::{join_logical, leaf_name};
use crate::paths::with_slash;
use crate::text::{chars_of, starts_with};
use crate::vault::tree::NodeKind;
use crate::vault::{Vault, VaultView};
use vstd::prelude::*;

verus! {

/// Why an edit is refused.
#[derive(Clone, Copy, Debug, PartialEq, Eq, Structural)]
pub enum EditError {
    NotFound,
    Exists,
}

/// The vault without the file at `p`.
pub open spec fn without_file(v: VaultView, p: Seq<char>) -> VaultView {
    crate::vault::with_tree(
        v,
        v.catalog.files.remove(crate::paths::normal(p)),
        v.catalog.dirs,
    )
}

/// The vault without what is at `p`, be it a file, a directory with everything inside or
/// nothing.
pub open spec fn without_node(v: VaultView, p: Seq<char>) -> VaultView {
    match crate::vault::tree::resolved(v, p) {
        Some(NodeKind::Dir) => crate::vault::moves::pruned(v, p),
        Some(NodeKind::File { size, mtime }) => without_file(v, p),
        None => v,
    }
}

/// The vault without what is at the first `n` paths.
pub open spec fn without_nodes(v: VaultView, paths: Seq<String>, n: int) -> VaultView
    decreases n,
{
    if n <= 0 {
        v
    } else {
        without_node(without_nodes(v, paths, n - 1), paths[n - 1]@)
    }
}

/// A move of `p` into `dest` is passed over: into itself, into something inside it or to where
/// it is already.
pub open spec fn stays(p: Seq<char>, dest: Seq<char>) -> bool {
    dest == p || crate::text::begins(dest, crate::paths::inside(p)) || crate::naming::placed_in(
        dest,
        crate::naming::leaf_of(p),
    ) == p
}

/// The vault after the first `n` paths were moved into `dest`, up to the first that is not
/// there; `true` if there was none such.
pub open spec fn moved_into(v: VaultView, paths: Seq<String>, dest: Seq<char>, n: int) -> (
    VaultView,
    bool,
)
    decreases n,
{
    if n <= 0 {
        (v, true)
    } else {
        let (u, ok) = moved_into(v, paths, dest, n - 1);
        let p = paths[n - 1]@;
        if !ok || stays(p, dest) {
            (u, ok)
        } else {
            match crate::vault::moves::renamed(
                u,
                p,
                crate::naming::placed_in(dest, crate::naming::leaf_of(p)),
            ) {
                Some(w) => (w, true),
                None => (u, false),
            }
        }
    }
}

/// Makes an empty file where nothing is yet.
pub fn new_file(vault: &mut Vault, path: &str, now: i64) -> (r: Result<(), EditError>)
    requires
        old(vault).wf(),
    ensures
        final(vault).wf(),
        if crate::vault::tree::resolved(old(vault)@, path@) is Some {
            r == Err::<(), EditError>(EditError::Exists) && final(vault)@ == old(vault)@
        } else {
            r is Ok && final(vault)@ == crate::vault::write::linked(
                old(vault)@,
                path@,
                crate::catalog::FileView { size: 0, mtime: now, chunks: Seq::empty() },
            )
        },
{
    if vault.resolve(path).is_some() {
        return Err(EditError::Exists);
    }
    // An empty file needs no blocks.
    vault.link_file(path, 0, now, Vec::new());
    Ok(())
}

/// Takes a file out, or with `recursive` everything in and at a directory.
pub fn remove_path(vault: &mut Vault, logical: &str, recursive: bool) -> (r: Result<
    (),
    EditError,
>)
    requires
        old(vault).wf(),
    ensures
        final(vault).wf(),
        if recursive {
            r is Ok && final(vault)@ == crate::vault::moves::pruned(old(vault)@, logical@)
        } else if old(vault)@.catalog.files.contains_key(crate::paths::normal(logical@)) {
            r is Ok && final(vault)@ == without_file(old(vault)@, logical@)
        } else {
            r == Err::<(), EditError>(EditError::NotFound) && final(vault)@ == old(vault)@
        },
{
    let ghost before = vault@;
    if recursive {
        let _ = vault.remove_dir(logical);
        return Ok(());
    }
    if !vault.remove(logical) {
        assert(vault@ =~= before) by {
            assert(vault@.catalog.files =~= before.catalog.files);
        }
        return Err(EditError::NotFound);
    }
    Ok(())
}

/// Takes out what is at each of the paths. A path where nothing is is passed over.
pub fn remove_paths(vault: &mut Vault, paths: &Vec<String>)
    requires
        old(vault).wf(),
    ensures
        final(vault).wf(),
        final(vault)@ == without_nodes(old(vault)@, paths@, paths@.len() as int),
{
    let ghost before = vault@;
    let mut i: usize = 0;
    while i < paths.len()
        invariant
            vault.wf(),
            i <= paths@.len(),
            vault@ == without_nodes(before, paths@, i as int),
        decreases paths@.len() - i,
    {
        let p = paths[i].as_str();
        match vault.resolve(p) {
            Some(NodeKind::Dir) => {
                let _ = vault.remove_dir(p);
            },
            Some(NodeKind::File { size, mtime }) => {
                let _ = vault.remove(p);
            },
            None => {},
        }
        i = i + 1;
    }
}

/// Moves each of the paths into a directory. A directory is not moved into itself. The first
/// path that is not there ends it; those before it are moved.
pub fn move_paths(vault: &mut Vault, paths: &Vec<String>, dest_dir: &String) -> (r: Result<
    (),
    VaultError,
>)
    requires
        old(vault).wf(),
    ensures
        final(vault).wf(),
        ({
            let (v, ok) = moved_into(old(vault)@, paths@, dest_dir@, paths@.len() as int);
            &&& final(vault)@ == v
            &&& r == (if ok {
                Ok(())
            } else {
                Err::<(), VaultError>(VaultError::SourceNotFound)
            })
        }),
{
    let ghost before = vault@;
    let dest = chars_of(dest_dir.as_str());
    let mut i: usize = 0;
    while i < paths.len()
        invariant
            vault.wf(),
            i <= paths@.len(),
            dest@ == dest_dir@,
            before == old(vault)@,
            (vault@, true) == moved_into(before, paths@, dest_dir@, i as int),
        decreases paths@.len() - i,
    {
        let p = &paths[i];
        let inner = chars_of(with_slash(p).as_str());
        if *dest_dir == *p || starts_with(&dest, &inner) {
            i = i + 1;
            continue ;
        }
        let to = join_logical(dest_dir, leaf_name(p).as_str());
        if to == *p {
            i = i + 1;
            continue ;
        }
        if let Err(e) = vault.rename(p.as_str(), to.as_str()) {
            proof {
                lemma_failed_stays(before, paths@, dest_dir@, i + 1, paths@.len() as int);
            }
            return Err(e);
        }
        i = i + 1;
    }
    Ok(())
}

proof fn lemma_failed_stays(v: VaultView, paths: Seq<String>, dest: Seq<char>, k: int, n: int)
    requires
        0 <= k <= n,
        !moved_into(v, paths, dest, k).1,
    ensures
        moved_into(v, paths, dest, n) == moved_into(v, paths, dest, k),
    decreases n - k,
{
    if k < n {
        lemma_failed_stays(v, paths, dest, k, n - 1);
    }
}

/// A directory that was removed is not there any more. (The path has no slash at its end, so it
/// is not the root.)
pub proof fn pruned_directory_is_gone(v: VaultView, p: Seq<char>)
    requires
        crate::paths::normal(p) == crate::vault::moves::base_of(crate::paths::normal(p)),
    ensures
        crate::vault::tree::resolved(v, p) == Some(NodeKind::Dir) ==> crate::vault::tree::resolved(
            without_node(v, p),
            p,
        ) is None,
{
    let q = crate::paths::normal(p);
    let u = without_node(v, p);
    if crate::vault::tree::resolved(v, p) == Some(NodeKind::Dir) {
        let gone = crate::vault::moves::subtree(q);
        crate::paths::normal_shape(p);
        assert(q != crate::paths::root()) by {
            reveal_with_fuel(crate::text::without_trailing, 2);
        }
        assert(gone(q));
        assert forall|k: Seq<char>| #[trigger] u.catalog.files.contains_key(
            k,
        ) implies !crate::text::begins(k, crate::paths::inside(q)) by {
            assert(!gone(k));
        }
        assert forall|k: Seq<char>| #[trigger] u.catalog.dirs.contains(
            k,
        ) implies !crate::text::begins(k, crate::paths::inside(q)) by {
            assert(!gone(k));
        }
    }
}

/// To remove a path removes the file that it names and nothing else, or the directory with all
/// that is in it; a path that names nothing removes nothing. Several paths are removed one after
/// the other.
pub proof fn removed_path_is_what_it_names(
    v: VaultView,
    p: Seq<char>,
    k: Seq<char>,
    paths: Seq<String>,
    n: int,
)
    requires
        0 <= n < paths.len(),
    ensures
        ({
            let w = without_node(v, p);
            match crate::vault::tree::resolved(v, p) {
                None => w == v,
                Some(NodeKind::Dir) => w == crate::vault::moves::pruned(v, p),
                Some(NodeKind::File { size, mtime }) => {
                    &&& w.catalog.files.contains_key(k) <==> v.catalog.files.contains_key(k) && k
                        != crate::paths::normal(p)
                    &&& w.catalog.files.contains_key(k) ==> w.catalog.files[k]
                        == v.catalog.files[k]
                    &&& w.catalog.dirs == v.catalog.dirs && w.catalog.blocks == v.catalog.blocks
                    &&& w.catalog.snapshots == v.catalog.snapshots
                    &&& w.catalog.quota == v.catalog.quota && w.next_append == v.next_append
                },
            }
        }),
        without_nodes(v, paths, 0) == v,
        without_nodes(v, paths, n + 1) == without_node(without_nodes(v, paths, n), paths[n]@),
        ({
            let w = without_file(v, p);
            &&& w.catalog.files.contains_key(k) <==> v.catalog.files.contains_key(k) && k
                != crate::paths::normal(p)
            &&& w.catalog.files.contains_key(k) ==> w.catalog.files[k] == v.catalog.files[k]
            &&& w.catalog.dirs == v.catalog.dirs
        }),
{
}

/// A path stays where it is exactly if the destination is the path itself, stands below it, or
/// holds it already.
pub proof fn nothing_is_moved_into_itself(p: Seq<char>, dest: Seq<char>)
    ensures
        stays(p, dest) <==> dest == p || (dest.len() > p.len() && dest.take(p.len() as int) == p
            && dest[p.len() as int] == '/') || crate::naming::placed_in(
            dest,
            crate::naming::leaf_of(p),
        ) == p,
{
    crate::vault::tree_laws::lemma_begins_inside(dest, p);
}

/// Paths are moved one after the other, each under its own name into the destination; those that
/// stay are passed over, and nothing is moved behind one that is not there.
pub proof fn paths_are_moved_in_order(
    v: VaultView,
    paths: Seq<String>,
    dest: Seq<char>,
    n: int,
)
    requires
        0 <= n < paths.len(),
    ensures
        moved_into(v, paths, dest, 0) == (v, true),
        ({
            let (u, ok) = moved_into(v, paths, dest, n);
            let p = paths[n]@;
            let moved = crate::vault::moves::renamed(
                u,
                p,
                crate::naming::placed_in(dest, crate::naming::leaf_of(p)),
            );
            &&& !ok ==> moved_into(v, paths, dest, n + 1) == (u, false)
            &&& ok && stays(p, dest) ==> moved_into(v, paths, dest, n + 1) == (u, true)
            &&& ok && !stays(p, dest) && moved is Some ==> moved_into(v, paths, dest, n + 1) == (
                moved->0,
                true,
            )
            &&& ok && !stays(p, dest) && moved is None ==> moved_into(v, paths, dest, n + 1) == (
                u,
                false,
            )
        }),
{
}

} // verus!
