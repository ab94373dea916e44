//! Removing and moving whole directories.

use crate::error::VaultError;
use crate::paths::{normalize_path, with_slash};
use crate::sorted::SortedMap;
use crate::text::{chars_of, skip_trailing, starts_with, string_of};
use crate::vault::{Vault, VaultView};
use vstd::prelude::*;

verus! {

/// The views of the strings.
pub open spec fn names(v: Seq<String>) -> Seq<Seq<char>> {
    Seq::new(v.len(), |i: int| v[i]@)
}

/// Paths that are `exact` or start with `pre`.
pub open spec fn picked(exact: Option<Seq<char>>, pre: Seq<char>) -> spec_fn(Seq<char>) -> bool {
    |k: Seq<char>| exact == Some(k) || crate::text::begins(k, pre)
}

/// `p` without the slashes at its end.
pub open spec fn base_of(p: Seq<char>) -> Seq<char> {
    crate::text::without_trailing(p, '/')
}

/// The paths in and at the directory `p`.
pub open spec fn subtree(p: Seq<char>) -> spec_fn(Seq<char>) -> bool {
    picked(Some(p), crate::paths::inside(base_of(p)))
}

/// The vault without everything in and at the directory `p`.
pub open spec fn pruned(v: VaultView, p: Seq<char>) -> VaultView {
    let gone = subtree(crate::paths::normal(p));
    let files = v.catalog.files;
    let dirs = v.catalog.dirs;
    crate::vault::with_tree(
        v,
        files.remove_keys(files.dom().filter(gone)),
        dirs.difference(dirs.filter(gone)),
    )
}

/// Where the path `k` under `pre` goes when its directory becomes `base`.
pub open spec fn target(base: Seq<char>, pre: Seq<char>, k: Seq<char>) -> Seq<char> {
    crate::paths::inside(base) + k.skip(pre.len() as int)
}

/// The files after those at `keys` were moved one by one.
pub open spec fn moved_files(
    files: Map<Seq<char>, crate::catalog::FileView>,
    keys: Seq<Seq<char>>,
    pre: Seq<char>,
    base: Seq<char>,
) -> Map<Seq<char>, crate::catalog::FileView>
    decreases keys.len(),
{
    if keys.len() == 0 {
        files
    } else {
        let m = moved_files(files, keys.drop_last(), pre, base);
        let k = keys.last();
        m.remove(k).insert(target(base, pre, k), m[k])
    }
}

/// The explicit directories after those at `keys` were moved one by one.
pub open spec fn moved_dirs(
    dirs: Set<Seq<char>>,
    keys: Seq<Seq<char>>,
    src: Seq<char>,
    dst: Seq<char>,
) -> Set<Seq<char>>
    decreases keys.len(),
{
    if keys.len() == 0 {
        dirs
    } else {
        let k = keys.last();
        let to = if k == src {
            dst
        } else {
            target(base_of(dst), crate::paths::inside(src), k)
        };
        moved_dirs(dirs, keys.drop_last(), src, dst).remove(k).insert(to)
    }
}

/// What moving `src` to `dst` makes of the vault. A file takes the place of what is at `dst`;
/// of a directory everything inside goes along. `None` if nothing is at `src`.
pub open spec fn renamed(v: VaultView, src: Seq<char>, dst: Seq<char>) -> Option<VaultView> {
    let s = crate::paths::normal(src);
    let d = crate::paths::normal(dst);
    let files = v.catalog.files;
    let dirs = v.catalog.dirs;
    let pre = crate::paths::inside(s);
    if files.contains_key(s) {
        Some(
            crate::vault::with_tree(v, files.remove(s).insert(d, files[s]), dirs.remove(d)),
        )
    } else if dirs.contains(s) || crate::vault::tree::has_children(v, s) {
        Some(
            crate::vault::with_tree(
                v,
                moved_files(
                    files,
                    crate::vault::tree::path_order(files.dom()).filter(picked(None, pre)),
                    pre,
                    base_of(d),
                ),
                moved_dirs(
                    dirs,
                    crate::vault::tree::path_order(dirs).filter(picked(Some(s), pre)),
                    s,
                    d,
                ),
            ),
        )
    } else {
        None
    }
}

/// The view of an optional string.
pub open spec fn name_view(s: Option<&String>) -> Option<Seq<char>> {
    match s {
        Some(t) => Some(t@),
        None => None,
    }
}

/// The keys that are `exact` or start with `pre`, in order.
fn select_keys<T: View>(
    m: &SortedMap<String, T>,
    exact: Option<&String>,
    pre: &Vec<char>,
) -> (r: Vec<String>)
    requires
        m.wf(),
    ensures
        names(r@) == m.key_seq().filter(picked(name_view(exact), pre@)),
{
    let ghost p = picked(name_view(exact), pre@);
    let mut r: Vec<String> = Vec::new();
    let mut i: usize = 0;
    proof {
        reveal(Seq::filter);
        assert(m.key_seq().take(0).filter(p) =~= Seq::empty());
    }
    while i < m.len()
        invariant
            m.wf(),
            i <= m.key_seq().len(),
            p == picked(name_view(exact), pre@),
            names(r@) == m.key_seq().take(i as int).filter(p),
        decreases m.key_seq().len() - i,
    {
        let key = m.key_at(i);
        let k = chars_of(key.as_str());
        let same = match exact {
            Some(e) => *e == *key,
            None => false,
        };
        let ghost before = r@;
        proof {
            reveal(Seq::filter);
            assert(m.key_seq().take(i + 1).drop_last() =~= m.key_seq().take(i as int));
            assert(m.key_seq().take(i + 1).last() == k@);
        }
        if same || starts_with(&k, pre) {
            r.push(key.clone());
            assert(names(r@) =~= names(before).push(k@));
        }
        i = i + 1;
    }
    assert(m.key_seq().take(i as int) =~= m.key_seq());
    r
}

/// What a filter picks out of an enumeration.
pub proof fn lemma_filtered<A>(keys: Seq<A>, p: spec_fn(A) -> bool)
    requires
        keys.no_duplicates(),
    ensures
        keys.filter(p).no_duplicates(),
        keys.filter(p).to_set() == keys.to_set().filter(p),
        forall|k: A| #[trigger] keys.filter(p).contains(k) <==> keys.contains(k) && p(k),
        keys.filter(p).len() == keys.to_set().filter(p).len(),
    decreases keys.len(),
{
    lemma_filtered_members(keys, p);
    let f = keys.filter(p);
    assert(f.to_set() =~= keys.to_set().filter(p));
    f.unique_seq_to_set();
}

pub proof fn lemma_filtered_members<A>(keys: Seq<A>, p: spec_fn(A) -> bool)
    requires
        keys.no_duplicates(),
    ensures
        keys.filter(p).no_duplicates(),
        forall|k: A| #[trigger] keys.filter(p).contains(k) <==> keys.contains(k) && p(k),
    decreases keys.len(),
{
    reveal(Seq::filter);
    if keys.len() > 0 {
        let init = keys.drop_last();
        let last = keys.last();
        lemma_filtered_members(init, p);
        let g = init.filter(p);
        let f = keys.filter(p);
        assert(!init.contains(last)) by {
            if init.contains(last) {
                let i = init.index_of(last);
                assert(keys[i] == keys[keys.len() - 1]);
            }
        }
        assert forall|k: A| #[trigger] f.contains(k) <==> keys.contains(k) && p(k) by {
            if keys.contains(k) && k != last {
                let i = keys.index_of(k);
                assert(init[i] == k);
                assert(init.contains(k));
            }
            if init.contains(k) {
                let i = init.index_of(k);
                assert(keys[i] == k);
            }
            if p(k) && k == last {
                assert(f[f.len() - 1] == k);
                assert(keys[keys.len() - 1] == k);
            }
            if g.contains(k) {
                let i = g.index_of(k);
                assert(f[i] == k);
            }
            if f.contains(k) && k != last {
                let i = f.index_of(k);
                assert(g[i] == k);
                assert(g.contains(k));
            }
        }
        assert(f.no_duplicates()) by {
            if p(last) {
                assert(!g.contains(last));
                assert forall|i: int, j: int|
                    0 <= i < f.len() && 0 <= j < f.len() && i != j implies f[i] != f[j] by {
                    if i < g.len() {
                        assert(g.contains(g[i]));
                    }
                    if j < g.len() {
                        assert(g.contains(g[j]));
                    }
                }
            }
        }
    } else {
        assert forall|k: A| #[trigger] keys.filter(p).contains(k) <==> keys.contains(k)
            && p(k) by {}
    }
}

/// Takes the keys out.
fn remove_keys<T: View>(m: &mut SortedMap<String, T>, keys: &Vec<String>)
    requires
        old(m).wf(),
    ensures
        final(m).wf(),
        final(m)@ == old(m)@.remove_keys(names(keys@).to_set()),
{
    let ghost before = m@;
    let mut i: usize = 0;
    assert(m@ =~= before.remove_keys(names(keys@).take(0).to_set()));
    while i < keys.len()
        invariant
            m.wf(),
            i <= keys@.len(),
            m@ == before.remove_keys(names(keys@).take(i as int).to_set()),
        decreases keys@.len() - i,
    {
        let _ = m.remove(&keys[i]);
        proof {
            let a = names(keys@).take(i as int);
            let b = names(keys@).take(i + 1);
            assert forall|k: Seq<char>| b.to_set().contains(k) <==> (a.to_set().contains(k) || k
                == keys@[i as int]@) by {
                if b.contains(k) {
                    let j = b.index_of(k);
                    if j < i {
                        assert(a[j] == k);
                        assert(a.contains(k));
                    }
                }
                if a.contains(k) {
                    let j = a.index_of(k);
                    assert(b[j] == k);
                }
                assert(b[i as int] == keys@[i as int]@);
            }
            assert(m@ =~= before.remove_keys(b.to_set()));
        }
        i = i + 1;
    }
    assert(names(keys@).take(i as int) =~= names(keys@));
}

/// `base`, a slash and `k` behind its first `n` characters.
fn retargeted(base: &String, k: &String, n: usize) -> (r: String)
    requires
        n <= k@.len(),
    ensures
        r@ == crate::paths::inside(base@) + k@.skip(n as int),
{
    let cs = chars_of(k.as_str());
    let rest = string_of(&cs, n, cs.len());
    assert(rest@ =~= k@.skip(n as int));
    let mut r = with_slash(base);
    r.append(rest.as_str());
    r
}

impl Vault {
    /// Takes out everything in and at a directory, and says how many files that were.
    pub fn remove_dir(&mut self, prefix: &str) -> (r: usize)
        requires
            old(self).wf(),
        ensures
            final(self).wf(),
            r == old(self)@.catalog.files.dom().filter(subtree(crate::paths::normal(prefix@))).len(),
            final(self)@ == pruned(old(self)@, prefix@),
    {
        proof {
            self.catalog.files.lemma_rows();
            self.catalog.dirs.lemma_rows();
        }
        let base = normalize_path(prefix);
        let cs = chars_of(base.as_str());
        let n: usize = skip_trailing(&cs, '/');
        let trimmed = string_of(&cs, 0, n);
        assert(trimmed@ =~= base_of(base@));
        let pre = chars_of(with_slash(&trimmed).as_str());
        let ghost p = subtree(base@);
        let victims = select_keys(&self.catalog.files, Some(&base), &pre);
        let dir_victims = select_keys(self.catalog.dirs.as_map(), Some(&base), &pre);
        let ghost fk = self.catalog.files.key_seq();
        let ghost dk = self.catalog.dirs.key_seq();
        let ghost before = self@;
        proof {
            lemma_filtered(fk, p);
            lemma_filtered(dk, p);
        }
        remove_keys(&mut self.catalog.files, &victims);
        let mut i: usize = 0;
        while i < dir_victims.len()
            invariant
                self.wf(),
                i <= dir_victims@.len(),
                self@ == crate::vault::with_tree(
                    before,
                    before.catalog.files.remove_keys(names(victims@).to_set()),
                    self@.catalog.dirs,
                ),
                self@.catalog.dirs == before.catalog.dirs.difference(
                    names(dir_victims@).take(i as int).to_set(),
                ),
            decreases dir_victims@.len() - i,
        {
            let _ = self.catalog.dirs.remove(&dir_victims[i]);
            proof {
                let a = names(dir_victims@).take(i as int);
                let b = names(dir_victims@).take(i + 1);
                assert forall|k: Seq<char>| b.to_set().contains(k) <==> (a.to_set().contains(k)
                    || k == dir_victims@[i as int]@) by {
                    if b.contains(k) {
                        let j = b.index_of(k);
                        if j < i {
                            assert(a[j] == k);
                            assert(a.contains(k));
                        }
                    }
                    if a.contains(k) {
                        let j = a.index_of(k);
                        assert(b[j] == k);
                    }
                    assert(b[i as int] == dir_victims@[i as int]@);
                }
                assert(self@.catalog.dirs =~= before.catalog.dirs.difference(b.to_set()));
            }
            i = i + 1;
        }
        assert(names(dir_victims@).take(i as int) =~= names(dir_victims@));
        victims.len()
    }
}

impl Vault {
    /// Moves the files at `keys` from under `pre` to under `base`, one by one.
    fn move_files(&mut self, keys: &Vec<String>, pre: &Vec<char>, base: &String)
        requires
            old(self).wf(),
            names(keys@).no_duplicates(),
            forall|i: int|
                0 <= i < keys@.len() ==> old(self)@.catalog.files.contains_key(
                    #[trigger] keys@[i]@,
                ) && crate::text::begins(keys@[i]@, pre@),
        ensures
            final(self).wf(),
            final(self)@ == crate::vault::with_tree(
                old(self)@,
                moved_files(old(self)@.catalog.files, names(keys@), pre@, base@),
                old(self)@.catalog.dirs,
            ),
    {
        let ghost before = self@;
        let ghost ns = names(keys@);
        let mut i: usize = 0;
        assert(ns.take(0) =~= Seq::empty());
        while i < keys.len()
            invariant
                self.wf(),
                i <= keys@.len(),
                ns == names(keys@),
                ns.no_duplicates(),
                self@ == crate::vault::with_tree(
                    before,
                    moved_files(before.catalog.files, ns.take(i as int), pre@, base@),
                    before.catalog.dirs,
                ),
                forall|j: int|
                    i <= j < keys@.len() ==> self@.catalog.files.contains_key(#[trigger] keys@[j]@),
                forall|j: int|
                    0 <= j < keys@.len() ==> crate::text::begins(#[trigger] keys@[j]@, pre@),
            decreases keys@.len() - i,
        {
            let key = &keys[i];
            assert(crate::text::begins(keys@[i as int]@, pre@));
            let new = retargeted(base, key, pre.len());
            proof {
                assert(ns.take(i + 1).drop_last() =~= ns.take(i as int));
                assert(ns.take(i + 1).last() == key@);
                assert forall|j: int| i < j < keys@.len() implies keys@[j]@ != key@ by {
                    assert(ns[j] != ns[i as int]);
                }
            }
            match self.catalog.files.remove(key) {
                None => {},
                Some(entry) => {
                    self.catalog.files.insert(new, entry);
                },
            }
            i = i + 1;
        }
        assert(ns.take(i as int) =~= ns);
    }

    /// Moves the explicit directories at `keys`, one by one.
    fn move_dirs(&mut self, keys: &Vec<String>, src: &String, dst: &String, base: &String)
        requires
            old(self).wf(),
            base@ == base_of(dst@),
            forall|i: int|
                0 <= i < keys@.len() ==> picked(Some(src@), crate::paths::inside(src@))(
                    #[trigger] keys@[i]@,
                ),
        ensures
            final(self).wf(),
            final(self)@ == crate::vault::with_tree(
                old(self)@,
                old(self)@.catalog.files,
                moved_dirs(old(self)@.catalog.dirs, names(keys@), src@, dst@),
            ),
    {
        let ghost before = self@;
        let ghost ns = names(keys@);
        let n: usize = chars_of(with_slash(src).as_str()).len();
        let mut i: usize = 0;
        assert(ns.take(0) =~= Seq::empty());
        while i < keys.len()
            invariant
                self.wf(),
                i <= keys@.len(),
                ns == names(keys@),
                base@ == base_of(dst@),
                n == crate::paths::inside(src@).len(),
                self@ == crate::vault::with_tree(
                    before,
                    before.catalog.files,
                    moved_dirs(before.catalog.dirs, ns.take(i as int), src@, dst@),
                ),
                forall|j: int|
                    0 <= j < keys@.len() ==> picked(Some(src@), crate::paths::inside(src@))(
                        #[trigger] keys@[j]@,
                    ),
            decreases keys@.len() - i,
        {
            let key = &keys[i];
            proof {
                assert(ns.take(i + 1).drop_last() =~= ns.take(i as int));
                assert(ns.take(i + 1).last() == key@);
                assert(picked(Some(src@), crate::paths::inside(src@))(keys@[i as int]@));
            }
            let _ = self.catalog.dirs.remove(key);
            let new = if *key == *src {
                dst.clone()
            } else {
                retargeted(base, key, n)
            };
            self.catalog.dirs.insert(new);
            i = i + 1;
        }
        assert(ns.take(i as int) =~= ns);
    }

    /// Moves a file, or a directory with everything inside.
    pub fn rename(&mut self, src: &str, dst: &str) -> (r: Result<(), VaultError>)
        requires
            old(self).wf(),
        ensures
            final(self).wf(),
            match renamed(old(self)@, src@, dst@) {
                Some(v) => r is Ok && final(self)@ == v,
                None => r == Err::<(), VaultError>(VaultError::SourceNotFound) && final(self)@
                    == old(self)@,
            },
    {
        let ghost before = self@;
        let src = normalize_path(src);
        let dst = normalize_path(dst);
        match self.catalog.files.remove(&src) {
            Some(entry) => {
                let _ = self.catalog.dirs.remove(&dst);
                self.catalog.files.insert(dst, entry);
                return Ok(());
            },
            None => {},
        }
        assert(self@ =~= before);
        let pre = chars_of(with_slash(&src).as_str());
        proof {
            self.catalog.files.lemma_rows();
            self.catalog.dirs.lemma_rows();
            lemma_filtered(self.catalog.files.key_seq(), picked(None, pre@));
            lemma_filtered(self.catalog.dirs.key_seq(), picked(Some(src@), pre@));
        }
        let file_moves = select_keys(&self.catalog.files, None, &pre);
        let dir_moves = select_keys(self.catalog.dirs.as_map(), Some(&src), &pre);
        proof {
            let fs = names(file_moves@);
            let ds = names(dir_moves@);
            assert forall|i: int| 0 <= i < file_moves@.len() implies before.catalog.files.contains_key(
                #[trigger] file_moves@[i]@,
            ) && crate::text::begins(file_moves@[i]@, pre@) by {
                assert(fs[i] == file_moves@[i]@);
                assert(fs.contains(fs[i]));
            }
            assert forall|i: int| 0 <= i < dir_moves@.len() implies before.catalog.dirs.contains(
                #[trigger] dir_moves@[i]@,
            ) && picked(Some(src@), pre@)(dir_moves@[i]@) by {
                assert(ds[i] == dir_moves@[i]@);
                assert(ds.contains(ds[i]));
            }
            if file_moves@.len() > 0 {
                assert(before.catalog.files.contains_key(file_moves@[0]@));
            }
            if dir_moves@.len() > 0 {
                assert(before.catalog.dirs.contains(dir_moves@[0]@));
                if dir_moves@[0]@ == src@ {
                    assert(before.catalog.dirs.contains(src@));
                }
            }
            if before.catalog.dirs.contains(src@) {
                assert(ds.contains(src@));
            }
            assert forall|k: Seq<char>| #[trigger] before.catalog.files.contains_key(k)
                && crate::text::begins(k, pre@) implies file_moves@.len() > 0 by {
                assert(fs.contains(k));
            }
            assert forall|k: Seq<char>| #[trigger] before.catalog.dirs.contains(k)
                && crate::text::begins(k, pre@) implies dir_moves@.len() > 0 by {
                assert(ds.contains(k));
            }
        }
        if file_moves.len() == 0 && dir_moves.len() == 0 {
            return Err(VaultError::SourceNotFound);
        }
        let cs = chars_of(dst.as_str());
        let base = string_of(&cs, 0, skip_trailing(&cs, '/'));
        assert(base@ =~= base_of(dst@));
        self.move_files(&file_moves, &pre, &base);
        self.move_dirs(&dir_moves, &src, &dst, &base);
        Ok(())
    }
}

/// Of two beginnings of one text one is the beginning of the other.
pub proof fn lemma_two_beginnings(t: Seq<char>, a: Seq<char>, b: Seq<char>)
    requires
        crate::text::begins(t, a),
        crate::text::begins(t, b),
    ensures
        crate::text::begins(a, b) || crate::text::begins(b, a),
{
    if a.len() <= b.len() {
        assert(b.take(a.len() as int) =~= t.take(a.len() as int));
    } else {
        assert(a.take(b.len() as int) =~= t.take(b.len() as int));
    }
}

/// What moving files one by one makes of them when no file moves to where another one is.
pub proof fn lemma_moved_apart(
    files: Map<Seq<char>, crate::catalog::FileView>,
    keys: Seq<Seq<char>>,
    pre: Seq<char>,
    base: Seq<char>,
)
    requires
        keys.no_duplicates(),
        forall|i: int|
            0 <= i < keys.len() ==> files.contains_key(#[trigger] keys[i]) && crate::text::begins(
                keys[i],
                pre,
            ),
        forall|i: int, j: int|
            #![trigger keys[i], keys[j]]
            0 <= i < keys.len() && 0 <= j < keys.len() ==> target(base, pre, keys[i]) != keys[j],
    ensures
        ({
            let m = moved_files(files, keys, pre, base);
            &&& forall|i: int|
                0 <= i < keys.len() ==> m.contains_key(target(base, pre, #[trigger] keys[i]))
                    && m[target(base, pre, keys[i])] == files[keys[i]] && !m.contains_key(keys[i])
            &&& forall|k: Seq<char>|
                !keys.contains(k) && (forall|i: int|
                    0 <= i < keys.len() ==> target(base, pre, #[trigger] keys[i]) != k)
                    ==> #[trigger] m.contains_key(k) == files.contains_key(k) && m[k] == files[k]
        }),
    decreases keys.len(),
{
    if keys.len() > 0 {
        let init = keys.drop_last();
        let last = keys.last();
        let n = keys.len() - 1;
        assert forall|i: int| 0 <= i < init.len() implies files.contains_key(#[trigger] init[i])
            && crate::text::begins(init[i], pre) by {
            assert(init[i] == keys[i]);
        }
        assert forall|i: int, j: int|
            #![trigger init[i], init[j]]
            0 <= i < init.len() && 0 <= j < init.len() implies target(base, pre, init[i])
            != init[j] by {
            assert(init[i] == keys[i] && init[j] == keys[j]);
        }
        assert(init.no_duplicates()) by {
            assert forall|i: int, j: int|
                0 <= i < init.len() && 0 <= j < init.len() && i != j implies init[i] != init[j] by {
                assert(keys[i] != keys[j]);
            }
        }
        lemma_moved_apart(files, init, pre, base);
        let m0 = moved_files(files, init, pre, base);
        let m = moved_files(files, keys, pre, base);
        let to = target(base, pre, last);
        assert(keys[n] == last);
        assert(!init.contains(last)) by {
            if init.contains(last) {
                let i = init.index_of(last);
                assert(keys[i] == keys[n]);
            }
        }
        assert forall|i: int| 0 <= i < init.len() implies target(base, pre, #[trigger] init[i])
            != last by {
            assert(target(base, pre, keys[i]) != keys[n]);
        }
        assert(!init.contains(last) && (forall|i: int|
            0 <= i < init.len() ==> target(base, pre, #[trigger] init[i]) != last));
        assert(m0.contains_key(last) == files.contains_key(last));
        assert(m0[last] == files[last]);
        assert forall|i: int| 0 <= i < keys.len() implies m.contains_key(
            target(base, pre, #[trigger] keys[i]),
        ) && m[target(base, pre, keys[i])] == files[keys[i]] && !m.contains_key(keys[i]) by {
            assert(target(base, pre, keys[n]) != keys[i]);
            if i < n {
                assert(init[i] == keys[i]);
                assert(m0.contains_key(target(base, pre, init[i])));
                assert(target(base, pre, keys[i]) != keys[n]);
                assert(target(base, pre, keys[i]) != to) by {
                    if target(base, pre, keys[i]) == to {
                        lemma_target_injective(base, pre, keys[i], last);
                        assert(keys[i] != keys[n]);
                    }
                }
            } else {
                assert(target(base, pre, keys[n]) != keys[n]);
            }
        }
        assert forall|k: Seq<char>|
            !keys.contains(k) && (forall|i: int|
                0 <= i < keys.len() ==> target(base, pre, #[trigger] keys[i])
                    != k) implies #[trigger] m.contains_key(k) == files.contains_key(k) && m[k]
            == files[k] by {
            assert(!init.contains(k)) by {
                if init.contains(k) {
                    let i = init.index_of(k);
                    assert(keys[i] == k);
                }
            }
            assert forall|i: int| 0 <= i < init.len() implies target(base, pre, #[trigger] init[i])
                != k by {
                assert(init[i] == keys[i]);
            }
            assert(target(base, pre, keys[n]) != k);
            assert(k != last) by {
                assert(keys.contains(keys[n]));
            }
            assert(m0.contains_key(k) == files.contains_key(k));
        }
    }
}

proof fn lemma_target_injective(base: Seq<char>, pre: Seq<char>, a: Seq<char>, b: Seq<char>)
    requires
        crate::text::begins(a, pre),
        crate::text::begins(b, pre),
        target(base, pre, a) == target(base, pre, b),
    ensures
        a == b,
{
    let n = crate::paths::inside(base).len() as int;
    assert(target(base, pre, a).skip(n) =~= a.skip(pre.len() as int));
    assert(target(base, pre, b).skip(n) =~= b.skip(pre.len() as int));
    assert(a =~= a.take(pre.len() as int) + a.skip(pre.len() as int));
    assert(b =~= b.take(pre.len() as int) + b.skip(pre.len() as int));
}

/// A file that is moved is at its new path with the same content, and no longer at the old one.
pub proof fn renamed_file_keeps_content(v: VaultView, src: Seq<char>, dst: Seq<char>)
    requires
        v.catalog.files.contains_key(crate::paths::normal(src)),
    ensures
        ({
            let s = crate::paths::normal(src);
            let d = crate::paths::normal(dst);
            &&& renamed(v, src, dst) is Some
            &&& renamed(v, src, dst)->0.catalog.files.contains_key(d)
            &&& renamed(v, src, dst)->0.catalog.files[d] == v.catalog.files[s]
            &&& s != d ==> !renamed(v, src, dst)->0.catalog.files.contains_key(s)
            &&& renamed(v, src, dst)->0.catalog.blocks == v.catalog.blocks
        }),
{
}

/// When a directory is moved to a place that is neither inside it nor around it, every file in
/// it is at the corresponding path with the same content, and none is left at the old place.
pub proof fn renamed_directory_keeps_content(
    v: VaultView,
    src: Seq<char>,
    dst: Seq<char>,
    k: Seq<char>,
)
    requires
        v.catalog.files.dom().finite(),
        !v.catalog.files.contains_key(crate::paths::normal(src)),
        v.catalog.files.contains_key(k),
        crate::text::begins(k, crate::paths::inside(crate::paths::normal(src))),
        !crate::text::begins(
            crate::paths::inside(crate::paths::normal(src)),
            crate::paths::inside(base_of(crate::paths::normal(dst))),
        ),
        !crate::text::begins(
            crate::paths::inside(base_of(crate::paths::normal(dst))),
            crate::paths::inside(crate::paths::normal(src)),
        ),
    ensures
        ({
            let pre = crate::paths::inside(crate::paths::normal(src));
            let to = target(base_of(crate::paths::normal(dst)), pre, k);
            &&& renamed(v, src, dst) is Some
            &&& renamed(v, src, dst)->0.catalog.files.contains_key(to)
            &&& renamed(v, src, dst)->0.catalog.files[to] == v.catalog.files[k]
            &&& !renamed(v, src, dst)->0.catalog.files.contains_key(k)
            &&& renamed(v, src, dst)->0.catalog.blocks == v.catalog.blocks
        }),
{
    let files = v.catalog.files;
    let s = crate::paths::normal(src);
    let pre = crate::paths::inside(s);
    let base = base_of(crate::paths::normal(dst));
    let order = crate::vault::tree::path_order(files.dom());
    let p = picked(None, pre);
    crate::sorted::lemma_in_order_exists::<String>(files.dom());
    lemma_filtered(order, p);
    let keys = order.filter(p);
    assert(crate::vault::tree::has_children(v, s));
    assert forall|i: int| 0 <= i < keys.len() implies files.contains_key(#[trigger] keys[i])
        && crate::text::begins(keys[i], pre) by {
        assert(keys.contains(keys[i]));
        assert(order.to_set().contains(keys[i]));
    }
    assert forall|i: int, j: int|
        #![trigger keys[i], keys[j]]
        0 <= i < keys.len() && 0 <= j < keys.len() implies target(base, pre, keys[i]) != keys[j] by {
        let t = target(base, pre, keys[i]);
        assert(t.take(crate::paths::inside(base).len() as int) =~= crate::paths::inside(base));
        if t == keys[j] {
            lemma_two_beginnings(t, pre, crate::paths::inside(base));
        }
    }
    lemma_moved_apart(files, keys, pre, base);
    assert(order.to_set().contains(k));
    assert(keys.contains(k));
    let i = keys.index_of(k);
    assert(keys[i] == k);
}

} // verus!
