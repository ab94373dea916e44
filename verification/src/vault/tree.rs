//! The tree: directories, lookups, removal and moves.

use crate::error::VaultError;
use crate::paths::{is_root, normalize_path, with_slash};
use crate::sorted::SortedMap;
use crate::text::{chars_of, same_prefix_but_case, starts_with, string_of};
use crate::vault::{Vault, VaultView};
use vstd::prelude::*;

verus! {

/// What a path stands for.
#[derive(Clone, Copy, Debug, PartialEq, Eq, Structural)]
pub enum NodeKind {
    Dir,
    File { size: u64, mtime: i64 },
}

/// The file `f` as a node.
pub open spec fn file_node(f: crate::catalog::FileView) -> NodeKind {
    NodeKind::File { size: f.size, mtime: f.mtime }
}

/// Something stands inside the directory `p`.
pub open spec fn has_children(v: VaultView, p: Seq<char>) -> bool {
    ||| exists|k: Seq<char>| #[trigger]
        v.catalog.files.contains_key(k) && crate::text::begins(k, crate::paths::inside(p))
    ||| exists|k: Seq<char>| #[trigger]
        v.catalog.dirs.contains(k) && crate::text::begins(k, crate::paths::inside(p))
}

/// What the path stands for, if for anything.
pub open spec fn resolved(v: VaultView, path: Seq<char>) -> Option<NodeKind> {
    let p = crate::paths::normal(path);
    if p == crate::paths::root() {
        Some(NodeKind::Dir)
    } else if v.catalog.files.contains_key(p) {
        Some(file_node(v.catalog.files[p]))
    } else if v.catalog.dirs.contains(p) || has_children(v, p) {
        Some(NodeKind::Dir)
    } else {
        None
    }
}

/// The first of `keys` that `p` picks.
pub open spec fn first_where(keys: Seq<Seq<char>>, p: spec_fn(Seq<char>) -> bool) -> Option<
    Seq<char>,
>
    decreases keys.len(),
{
    if keys.len() == 0 {
        None
    } else if p(keys[0]) {
        Some(keys[0])
    } else {
        first_where(keys.drop_first(), p)
    }
}

/// `k` is `q` but for the case of ASCII letters.
pub open spec fn named_like(q: Seq<char>) -> spec_fn(Seq<char>) -> bool {
    |k: Seq<char>| crate::text::same_but_case(k, q)
}

/// `k` stands inside the directory `q`, but for the case of ASCII letters.
pub open spec fn inside_like(q: Seq<char>) -> spec_fn(Seq<char>) -> bool {
    |k: Seq<char>|
        k.len() > q.len() && k[q.len() as int] == '/' && crate::text::same_but_case(
            k.take(q.len() as int),
            q,
        )
}

/// The paths of a set in order.
pub open spec fn path_order(s: Set<Seq<char>>) -> Seq<Seq<char>> {
    crate::sorted::in_order::<String>(s)
}

/// What the path stands for when the case of ASCII letters does not count, and its real name.
pub open spec fn resolved_ci(v: VaultView, path: Seq<char>) -> Option<(Seq<char>, NodeKind)> {
    let q = crate::paths::normal(path);
    let files = path_order(v.catalog.files.dom());
    let dirs = path_order(v.catalog.dirs);
    let n = q.len() as int;
    if q == crate::paths::root() {
        Some((q, NodeKind::Dir))
    } else if v.catalog.files.contains_key(q) {
        Some((q, file_node(v.catalog.files[q])))
    } else if v.catalog.dirs.contains(q) {
        Some((q, NodeKind::Dir))
    } else {
        match first_where(files, named_like(q)) {
            Some(k) => Some((k, file_node(v.catalog.files[k]))),
            None => match first_where(dirs, named_like(q)) {
                Some(k) => Some((k, NodeKind::Dir)),
                None => match first_where(files, inside_like(q)) {
                    Some(k) => Some((k.take(n), NodeKind::Dir)),
                    None => match first_where(dirs, inside_like(q)) {
                        Some(k) => Some((k.take(n), NodeKind::Dir)),
                        None => None,
                    },
                },
            },
        }
    }
}

/// Whether a key starts with `pre`.
fn any_begins<T: View>(m: &SortedMap<String, T>, pre: &Vec<char>) -> (r: bool)
    requires
        m.wf(),
    ensures
        r == exists|k: Seq<char>| #[trigger] m@.contains_key(k) && crate::text::begins(k, pre@),
{
    proof {
        m.lemma_rows();
    }
    let mut i: usize = 0;
    while i < m.len()
        invariant
            m.wf(),
            i <= m.key_seq().len(),
            forall|j: int|
                0 <= j < i ==> !crate::text::begins(#[trigger] m.key_seq()[j], pre@),
        decreases m.key_seq().len() - i,
    {
        let k = chars_of(m.key_at(i).as_str());
        if starts_with(&k, pre) {
            proof {
                m.lemma_rows();
                assert(m@.contains_key(m.key_seq()[i as int]));
            }
            return true;
        }
        i = i + 1;
    }
    proof {
        m.lemma_rows();
        assert forall|k: Seq<char>| #[trigger]
            m@.contains_key(k) implies !crate::text::begins(k, pre@) by {
            let j = m.key_seq().index_of(k);
            assert(m.key_seq()[j] == k);
        }
    }
    false
}

/// Where the first key stands that is `q` but for the case of ASCII letters.
fn find_named_like<T: View>(m: &SortedMap<String, T>, q: &Vec<char>) -> (r: Option<usize>)
    requires
        m.wf(),
    ensures
        match r {
            Some(i) => i < m.key_seq().len() && first_where(m.key_seq(), named_like(q@)) == Some(
                m.key_seq()[i as int],
            ),
            None => first_where(m.key_seq(), named_like(q@)) is None,
        },
{
    let mut i: usize = 0;
    assert(m.key_seq().skip(0) =~= m.key_seq());
    while i < m.len()
        invariant
            m.wf(),
            i <= m.key_seq().len(),
            first_where(m.key_seq().skip(i as int), named_like(q@)) == first_where(
                m.key_seq(),
                named_like(q@),
            ),
        decreases m.key_seq().len() - i,
    {
        let k = chars_of(m.key_at(i).as_str());
        let ghost left = m.key_seq().skip(i as int);
        assert(left[0] == k@);
        if k.len() == q.len() {
            let n: usize = k.len();
            assert(k@.take(n as int) =~= k@);
            assert(q@.take(n as int) =~= q@);
            if same_prefix_but_case(&k, q, n) {
                return Some(i);
            }
        }
        assert(left.drop_first() =~= m.key_seq().skip(i + 1));
        i = i + 1;
    }
    None
}

/// Where the first key stands that is inside `q` but for the case of ASCII letters.
fn find_inside_like<T: View>(m: &SortedMap<String, T>, q: &Vec<char>) -> (r: Option<usize>)
    requires
        m.wf(),
    ensures
        match r {
            Some(i) => i < m.key_seq().len() && first_where(m.key_seq(), inside_like(q@)) == Some(
                m.key_seq()[i as int],
            ) && m.key_seq()[i as int].len() > q@.len(),
            None => first_where(m.key_seq(), inside_like(q@)) is None,
        },
{
    let mut i: usize = 0;
    assert(m.key_seq().skip(0) =~= m.key_seq());
    while i < m.len()
        invariant
            m.wf(),
            i <= m.key_seq().len(),
            first_where(m.key_seq().skip(i as int), inside_like(q@)) == first_where(
                m.key_seq(),
                inside_like(q@),
            ),
        decreases m.key_seq().len() - i,
    {
        let k = chars_of(m.key_at(i).as_str());
        let ghost left = m.key_seq().skip(i as int);
        assert(left[0] == k@);
        let n: usize = q.len();
        assert(q@.take(n as int) =~= q@);
        if k.len() > n && k[n] == '/' && same_prefix_but_case(&k, q, n) {
            return Some(i);
        }
        assert(left.drop_first() =~= m.key_seq().skip(i + 1));
        i = i + 1;
    }
    None
}

/// The view of a lookup.
pub open spec fn found_view(r: Option<(String, NodeKind)>) -> Option<(Seq<char>, NodeKind)> {
    match r {
        Some((s, n)) => Some((s@, n)),
        None => None,
    }
}

impl Vault {
    /// Makes an explicit directory. The root is always there; a file in its place is an error.
    pub fn create_dir(&mut self, logical: &str) -> (r: Result<(), VaultError>)
        requires
            old(self).wf(),
        ensures
            final(self).wf(),
            ({
                let p = crate::paths::normal(logical@);
                if p == crate::paths::root() {
                    r is Ok && final(self)@ == old(self)@
                } else if old(self)@.catalog.files.contains_key(p) {
                    r == Err::<(), VaultError>(VaultError::FileInTheWay) && final(self)@
                        == old(self)@
                } else {
                    r is Ok && final(self)@ == crate::vault::with_tree(
                        old(self)@,
                        old(self)@.catalog.files,
                        old(self)@.catalog.dirs.insert(p),
                    )
                }
            }),
    {
        let p = normalize_path(logical);
        if is_root(&p) {
            return Ok(());
        }
        if self.catalog.files.contains_key(&p) {
            return Err(VaultError::FileInTheWay);
        }
        self.catalog.dirs.insert(p);
        Ok(())
    }

    /// Takes an explicit directory out; `true` if it was there.
    pub fn remove_empty_dir(&mut self, logical: &str) -> (r: bool)
        requires
            old(self).wf(),
        ensures
            final(self).wf(),
            r == old(self)@.catalog.dirs.contains(crate::paths::normal(logical@)),
            final(self)@ == crate::vault::with_tree(
                old(self)@,
                old(self)@.catalog.files,
                old(self)@.catalog.dirs.remove(crate::paths::normal(logical@)),
            ),
    {
        let p = normalize_path(logical);
        self.catalog.dirs.remove(&p)
    }

    /// Takes a file out; `true` if it was there. Its blocks stay until the vault is compacted.
    pub fn remove(&mut self, logical: &str) -> (r: bool)
        requires
            old(self).wf(),
        ensures
            final(self).wf(),
            r == old(self)@.catalog.files.contains_key(crate::paths::normal(logical@)),
            final(self)@ == crate::vault::with_tree(
                old(self)@,
                old(self)@.catalog.files.remove(crate::paths::normal(logical@)),
                old(self)@.catalog.dirs,
            ),
    {
        let p = normalize_path(logical);
        match self.catalog.files.remove(&p) {
            Some(_) => true,
            None => false,
        }
    }

    /// What stands at a path: a file, an explicit directory, one that the paths inside it
    /// imply, or nothing.
    pub fn resolve(&self, path: &str) -> (r: Option<NodeKind>)
        requires
            self.wf(),
        ensures
            r == resolved(self@, path@),
    {
        let p = normalize_path(path);
        if is_root(&p) {
            return Some(NodeKind::Dir);
        }
        if let Some(e) = self.catalog.files.get(&p) {
            return Some(NodeKind::File { size: e.size, mtime: e.mtime });
        }
        if self.catalog.dirs.contains(&p) {
            return Some(NodeKind::Dir);
        }
        let pre = chars_of(with_slash(&p).as_str());
        if any_begins(&self.catalog.files, &pre) || any_begins(self.catalog.dirs.as_map(), &pre) {
            return Some(NodeKind::Dir);
        }
        None
    }

    /// Like [`Vault::resolve`], but the case of ASCII letters does not count. Gives the real
    /// name too.
    pub fn resolve_ci(&self, path: &str) -> (r: Option<(String, NodeKind)>)
        requires
            self.wf(),
        ensures
            found_view(r) == resolved_ci(self@, path@),
    {
        proof {
            self.catalog.files.lemma_rows();
            self.catalog.dirs.lemma_rows();
        }
        let p = normalize_path(path);
        if is_root(&p) {
            return Some((p, NodeKind::Dir));
        }
        if let Some(e) = self.catalog.files.get(&p) {
            return Some((p, NodeKind::File { size: e.size, mtime: e.mtime }));
        }
        if self.catalog.dirs.contains(&p) {
            return Some((p, NodeKind::Dir));
        }
        let q = chars_of(p.as_str());
        let dirs = self.catalog.dirs.as_map();
        if let Some(i) = find_named_like(&self.catalog.files, &q) {
            let e = self.catalog.files.value_at(i);
            return Some(
                (
                    self.catalog.files.key_at(i).clone(),
                    NodeKind::File { size: e.size, mtime: e.mtime },
                ),
            );
        }
        if let Some(i) = find_named_like(dirs, &q) {
            return Some((dirs.key_at(i).clone(), NodeKind::Dir));
        }
        if let Some(i) = find_inside_like(&self.catalog.files, &q) {
            let k = chars_of(self.catalog.files.key_at(i).as_str());
            let s = string_of(&k, 0, q.len());
            assert(s@ =~= k@.take(q@.len() as int));
            return Some((s, NodeKind::Dir));
        }
        if let Some(i) = find_inside_like(dirs, &q) {
            let k = chars_of(dirs.key_at(i).as_str());
            let s = string_of(&k, 0, q.len());
            assert(s@ =~= k@.take(q@.len() as int));
            return Some((s, NodeKind::Dir));
        }
        None
    }
}

} // verus!
