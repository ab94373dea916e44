//! Searching the whole tree.

use crate::sorted::SortedSet;
use crate::text::{chars_of, contains_text, string_of, to_lowercase, trim};
use crate::vault::{Vault, VaultView};
use vstd::prelude::*;

verus! {

/// A path that a search found.
#[derive(Debug)]
pub struct SearchHit {
    pub path: String,
    pub is_dir: bool,
    pub size: u64,
    pub mtime: i64,
}

/// A hit as a value.
#[verifier::ext_equal]
pub struct HitView {
    pub path: Seq<char>,
    pub is_dir: bool,
    pub size: u64,
    pub mtime: i64,
}

impl View for SearchHit {
    type V = HitView;

    open spec fn view(&self) -> HitView {
        HitView {
            path: self.path@,
            is_dir: self.is_dir,
            size: self.size,
            mtime: self.mtime,
        }
    }
}

/// The views of the hits.
pub open spec fn hit_views(hits: Seq<SearchHit>) -> Seq<HitView> {
    Seq::new(hits.len(), |i: int| hits[i]@)
}

/// The directories that the path `p` stands in, but for the root.
pub open spec fn ancestors(p: Seq<char>) -> Set<Seq<char>> {
    Set::new(|d: Seq<char>| exists|i: int| 0 < i < p.len() && #[trigger] p[i] == '/' && d == p.take(i))
}

/// All directories: the explicit ones and those that files imply.
pub open spec fn all_dirs(v: VaultView) -> Set<Seq<char>> {
    Set::new(
        |d: Seq<char>|
            v.catalog.dirs.contains(d) || exists|k: Seq<char>| #[trigger]
                v.catalog.files.contains_key(k) && ancestors(k).contains(d),
    )
}

/// Paths that hold `q`, whatever the case.
pub open spec fn path_has(q: Seq<char>) -> spec_fn(Seq<char>) -> bool {
    |p: Seq<char>| crate::text::holds_text(crate::text::lowercase(p), q)
}

/// The hit for a directory.
pub open spec fn dir_hit(p: Seq<char>) -> HitView {
    HitView { path: p, is_dir: true, size: 0, mtime: 0 }
}

/// The hit for a file.
pub open spec fn file_hit(
    files: Map<Seq<char>, crate::catalog::FileView>,
    p: Seq<char>,
) -> HitView {
    HitView { path: p, is_dir: false, size: files[p].size, mtime: files[p].mtime }
}

/// What a search finds: directories first, then files, both by path.
pub open spec fn found(v: VaultView, query: Seq<char>) -> Seq<HitView> {
    let q = crate::text::lowercase(crate::text::trimmed(query));
    let files = v.catalog.files;
    if q.len() == 0 {
        Seq::empty()
    } else {
        crate::vault::tree::path_order(all_dirs(v)).filter(path_has(q)).map_values(
            |p: Seq<char>| dir_hit(p),
        ) + crate::vault::tree::path_order(files.dom()).filter(path_has(q)).map_values(
            |p: Seq<char>| file_hit(files, p),
        )
    }
}

/// Whether the path holds `q`, whatever the case.
fn matches_query(path: &String, q: &Vec<char>) -> (r: bool)
    ensures
        r == path_has(q@)(path@),
{
    let lower = to_lowercase(path.as_str());
    contains_text(&chars_of(lower.as_str()), q)
}

/// Adds the directories that `path` stands in.
pub(crate) fn add_ancestors(dirs: &mut SortedSet<String>, path: &String)
    requires
        old(dirs).wf(),
    ensures
        final(dirs).wf(),
        final(dirs)@ == old(dirs)@.union(ancestors(path@)),
{
    let cs = chars_of(path.as_str());
    let ghost before = dirs@;
    let ghost p = path@;
    if cs.len() == 0 {
        assert(dirs@ =~= before.union(ancestors(p)));
        return ;
    }
    let mut i: usize = 1;
    while i < cs.len()
        invariant
            1 <= i <= cs@.len(),
            cs@ == p,
            dirs.wf(),
            forall|d: Seq<char>| #[trigger]
                dirs@.contains(d) <==> before.contains(d) || exists|j: int|
                    0 < j < i && #[trigger] p[j] == '/' && d == p.take(j),
        decreases cs@.len() - i,
    {
        let ghost now = dirs@;
        if cs[i] == '/' {
            let d = string_of(&cs, 0, i);
            assert(d@ =~= p.take(i as int));
            dirs.insert(d);
        }
        proof {
            assert forall|d: Seq<char>| #[trigger] dirs@.contains(d) <==> before.contains(d)
                || exists|j: int| 0 < j < i + 1 && #[trigger] p[j] == '/' && d == p.take(j) by {
                if now.contains(d) && !before.contains(d) {
                    let j = choose|j: int| 0 < j < i && #[trigger] p[j] == '/' && d == p.take(j);
                    assert(p[j] == '/');
                }
                if exists|j: int| 0 < j < i + 1 && #[trigger] p[j] == '/' && d == p.take(j) {
                    let j = choose|j: int| 0 < j < i + 1 && #[trigger] p[j] == '/' && d == p.take(j);
                    if j < i {
                        assert(p[j] == '/');
                    }
                }
            }
        }
        i = i + 1;
    }
    assert(dirs@ =~= before.union(ancestors(p)));
}

impl Vault {
    /// All directories, explicit or implied.
    fn every_dir(&self) -> (r: SortedSet<String>)
        requires
            self.wf(),
        ensures
            r.wf(),
            r@ == all_dirs(self@),
    {
        let mut dirs = self.catalog.dirs.copy();
        let ghost v = self@;
        let ghost fk = self.catalog.files.key_seq();
        let mut i: usize = 0;
        while i < self.catalog.files.len()
            invariant
                self.wf(),
                v == self@,
                fk == self.catalog.files.key_seq(),
                i <= fk.len(),
                dirs.wf(),
                forall|d: Seq<char>| #[trigger]
                    dirs@.contains(d) <==> v.catalog.dirs.contains(d) || exists|j: int|
                        0 <= j < i && ancestors(#[trigger] fk[j]).contains(d),
            decreases fk.len() - i,
        {
            let ghost now = dirs@;
            add_ancestors(&mut dirs, self.catalog.files.key_at(i));
            proof {
                assert forall|d: Seq<char>| #[trigger] dirs@.contains(d)
                    <==> v.catalog.dirs.contains(d) || exists|j: int|
                    0 <= j < i + 1 && ancestors(#[trigger] fk[j]).contains(d) by {
                    if now.contains(d) && !v.catalog.dirs.contains(d) {
                        let j = choose|j: int| 0 <= j < i && ancestors(#[trigger] fk[j]).contains(d);
                        assert(ancestors(fk[j]).contains(d));
                    }
                    if ancestors(fk[i as int]).contains(d) {
                        assert(ancestors(fk[i as int]).contains(d));
                    }
                }
            }
            i = i + 1;
        }
        proof {
            self.catalog.files.lemma_rows();
            assert forall|d: Seq<char>| #[trigger] dirs@.contains(d) <==> all_dirs(v).contains(
                d,
            ) by {
                if exists|j: int| 0 <= j < fk.len() && ancestors(#[trigger] fk[j]).contains(d) {
                    let j = choose|j: int|
                        0 <= j < fk.len() && ancestors(#[trigger] fk[j]).contains(d);
                    assert(v.catalog.files.contains_key(fk[j]));
                }
                if exists|k: Seq<char>| #[trigger]
                    v.catalog.files.contains_key(k) && ancestors(k).contains(d) {
                    let k = choose|k: Seq<char>| #[trigger]
                        v.catalog.files.contains_key(k) && ancestors(k).contains(d);
                    assert(fk.contains(k));
                    let j = fk.index_of(k);
                    assert(ancestors(fk[j]).contains(d));
                }
            }
            assert(dirs@ =~= all_dirs(v));
        }
        dirs
    }

    /// Every file and directory whose path holds `query`, whatever the case. White space around
    /// the query does not count; an empty one finds nothing.
    pub fn search(&self, query: &str) -> (r: Vec<SearchHit>)
        requires
            self.wf(),
        ensures
            hit_views(r@) == found(self@, query@),
    {
        let lower = to_lowercase(trim(query).as_str());
        let q = chars_of(lower.as_str());
        let mut hits: Vec<SearchHit> = Vec::new();
        if q.len() == 0 {
            assert(hit_views(hits@) =~= Seq::empty());
            return hits;
        }
        let ghost v = self@;
        let ghost files = v.catalog.files;
        let ghost p = path_has(q@);
        let ghost df = |x: Seq<char>| dir_hit(x);
        let ghost ff = |x: Seq<char>| file_hit(files, x);
        let dirs = self.every_dir();
        let ghost dk = dirs.key_seq();
        let ghost fk = self.catalog.files.key_seq();
        proof {
            reveal(Seq::filter);
            dirs.lemma_rows();
            self.catalog.files.lemma_rows();
            assert(hit_views(hits@) =~= dk.take(0).filter(p).map_values(df));
        }
        let mut i: usize = 0;
        while i < dirs.len()
            invariant
                dirs.wf(),
                dk == dirs.key_seq(),
                i <= dk.len(),
                p == path_has(q@),
                df == (|x: Seq<char>| dir_hit(x)),
                hit_views(hits@) == dk.take(i as int).filter(p).map_values(df),
            decreases dk.len() - i,
        {
            let path = dirs.key_at(i);
            let ghost before = hits@;
            proof {
                reveal(Seq::filter);
                assert(dk.take(i + 1).drop_last() =~= dk.take(i as int));
                assert(dk.take(i + 1).last() == path@);
            }
            if matches_query(path, &q) {
                hits.push(SearchHit { path: path.clone(), is_dir: true, size: 0, mtime: 0 });
                assert(hit_views(hits@) =~= hit_views(before).push(dir_hit(path@)));
                assert(dk.take(i + 1).filter(p).map_values(df) =~= dk.take(i as int).filter(
                    p,
                ).map_values(df).push(dir_hit(path@)));
            }
            i = i + 1;
        }
        assert(dk.take(i as int) =~= dk);
        let ghost front = hit_views(hits@);
        proof {
            reveal(Seq::filter);
            assert(hit_views(hits@) =~= front + fk.take(0).filter(p).map_values(ff));
        }
        let mut j: usize = 0;
        while j < self.catalog.files.len()
            invariant
                self.wf(),
                v == self@,
                files == v.catalog.files,
                fk == self.catalog.files.key_seq(),
                j <= fk.len(),
                p == path_has(q@),
                ff == (|x: Seq<char>| file_hit(files, x)),
                hit_views(hits@) == front + fk.take(j as int).filter(p).map_values(ff),
            decreases fk.len() - j,
        {
            proof {
                self.catalog.files.lemma_rows();
            }
            let path = self.catalog.files.key_at(j);
            let e = self.catalog.files.value_at(j);
            let ghost before = hits@;
            proof {
                reveal(Seq::filter);
                assert(fk.take(j + 1).drop_last() =~= fk.take(j as int));
                assert(fk.take(j + 1).last() == path@);
                assert(files[fk[j as int]] == e@);
            }
            if matches_query(path, &q) {
                hits.push(
                    SearchHit { path: path.clone(), is_dir: false, size: e.size, mtime: e.mtime },
                );
                assert(hit_views(hits@) =~= hit_views(before).push(file_hit(files, path@)));
                assert(fk.take(j + 1).filter(p).map_values(ff) =~= fk.take(j as int).filter(
                    p,
                ).map_values(ff).push(file_hit(files, path@)));
                assert(hit_views(hits@) =~= front + fk.take(j + 1).filter(p).map_values(ff));
            }
            j = j + 1;
        }
        assert(fk.take(j as int) =~= fk);
        hits
    }
}

proof fn lemma_ancestors_finite(p: Seq<char>)
    ensures
        ancestors(p).finite(),
{
    let places = vstd::set_lib::set_int_range(0, p.len() as int);
    vstd::set_lib::lemma_int_range(0, p.len() as int);
    let cuts = places.map(|i: int| p.take(i));
    places.lemma_map_finite(|i: int| p.take(i));
    assert forall|d: Seq<char>| ancestors(p).contains(d) implies cuts.contains(d) by {
        let i = choose|i: int| 0 < i < p.len() && #[trigger] p[i] == '/' && d == p.take(i);
        assert(places.contains(i));
    }
    vstd::set_lib::lemma_len_subset(ancestors(p), cuts);
}

proof fn lemma_above_finite(keys: Seq<Seq<char>>)
    ensures
        Set::new(
            |d: Seq<char>|
                exists|i: int| 0 <= i < keys.len() && ancestors(#[trigger] keys[i]).contains(d),
        ).finite(),
    decreases keys.len(),
{
    let all = Set::new(
        |d: Seq<char>|
            exists|i: int| 0 <= i < keys.len() && ancestors(#[trigger] keys[i]).contains(d),
    );
    if keys.len() == 0 {
        assert(all =~= Set::empty());
    } else {
        let front = keys.drop_last();
        lemma_above_finite(front);
        lemma_ancestors_finite(keys.last());
        let less = Set::new(
            |d: Seq<char>|
                exists|i: int| 0 <= i < front.len() && ancestors(#[trigger] front[i]).contains(d),
        );
        assert forall|d: Seq<char>| all.contains(d) implies less.union(
            ancestors(keys.last()),
        ).contains(d) by {
            let i = choose|i: int|
                0 <= i < keys.len() && ancestors(#[trigger] keys[i]).contains(d);
            if i < front.len() {
                assert(front[i] == keys[i]);
            }
        }
        vstd::set_lib::lemma_len_subset(all, less.union(ancestors(keys.last())));
    }
}

proof fn lemma_dirs_finite(v: VaultView)
    requires
        v.catalog.files.dom().finite(),
        v.catalog.dirs.finite(),
    ensures
        all_dirs(v).finite(),
{
    let keys = crate::vault::tree::path_order(v.catalog.files.dom());
    crate::sorted::lemma_in_order_exists::<String>(v.catalog.files.dom());
    lemma_above_finite(keys);
    let above = Set::new(
        |d: Seq<char>|
            exists|i: int| 0 <= i < keys.len() && ancestors(#[trigger] keys[i]).contains(d),
    );
    assert forall|d: Seq<char>| all_dirs(v).contains(d) implies v.catalog.dirs.union(
        above,
    ).contains(d) by {
        if !v.catalog.dirs.contains(d) {
            let k = choose|k: Seq<char>| #[trigger]
                v.catalog.files.contains_key(k) && ancestors(k).contains(d);
            assert(keys.to_set().contains(k));
            assert(keys.contains(k));
            let i = keys.index_of(k);
            assert(ancestors(keys[i]).contains(d));
        }
    }
    vstd::set_lib::lemma_len_subset(all_dirs(v), v.catalog.dirs.union(above));
}

proof fn lemma_hits(
    s: Set<Seq<char>>,
    q: Seq<char>,
    hit: spec_fn(Seq<char>) -> HitView,
    p: Seq<char>,
)
    requires
        s.finite(),
    ensures
        ({
            let kept = crate::vault::tree::path_order(s).filter(path_has(q));
            let hits = kept.map_values(hit);
            &&& s.contains(p) && path_has(q)(p) ==> hits.contains(hit(p))
            &&& forall|i: int|
                0 <= i < hits.len() ==> #[trigger] hits[i] == hit(kept[i]) && s.contains(kept[i])
                    && path_has(q)(kept[i])
        }),
{
    let keys = crate::vault::tree::path_order(s);
    let kept = keys.filter(path_has(q));
    let hits = kept.map_values(hit);
    crate::sorted::lemma_in_order_exists::<String>(s);
    crate::vault::moves::lemma_filtered_members(keys, path_has(q));
    if s.contains(p) && path_has(q)(p) {
        assert(keys.to_set().contains(p));
        assert(kept.contains(p));
        let j = kept.index_of(p);
        assert(hits[j] == hit(p));
    }
    assert forall|i: int| 0 <= i < hits.len() implies #[trigger] hits[i] == hit(kept[i])
        && s.contains(kept[i]) && path_has(q)(kept[i]) by {
        let k = kept[i];
        assert(kept.contains(k));
        assert(keys.to_set().contains(k));
        assert(s.contains(k));
    }
}

/// Whether one text stands in another, in terms of its places.
proof fn lemma_held(s: Seq<char>, q: Seq<char>)
    ensures
        crate::text::holds_text(s, q) <==> exists|at: int|
            0 <= at && at + q.len() <= s.len() && #[trigger] s.subrange(at, at + q.len()) == q,
{
    if crate::text::holds_text(s, q) {
        let at = choose|at: int| crate::text::stands_at(s, q, at);
        assert(s.subrange(at, at + q.len()) == q);
    }
    if exists|at: int| 0 <= at && at + q.len() <= s.len() && #[trigger] s.subrange(
        at,
        at + q.len(),
    ) == q {
        let at = choose|at: int|
            0 <= at && at + q.len() <= s.len() && #[trigger] s.subrange(at, at + q.len()) == q;
        assert(crate::text::stands_at(s, q, at));
    }
}

/// A file is found for every query that stands in its path up to case, and only for those; the
/// hit tells its size and time. The same of recorded directories and of those above a file, whose
/// hits tell nothing but the path. A query of white space finds nothing.
pub proof fn path_is_found_by_what_it_contains(v: VaultView, query: Seq<char>, p: Seq<char>)
    requires
        v.catalog.files.dom().finite(),
        v.catalog.dirs.finite(),
    ensures
        ({
            let q = crate::text::lowercase(crate::text::trimmed(query));
            let s = crate::text::lowercase(p);
            let held = q.len() > 0 && exists|at: int|
                0 <= at && at + q.len() <= s.len() && #[trigger] s.subrange(at, at + q.len()) == q;
            let file = v.catalog.files.contains_key(p) && held;
            let above = exists|k: Seq<char>| #[trigger]
                v.catalog.files.contains_key(k) && 0 < p.len() < k.len() && k.take(p.len() as int)
                    == p && k[p.len() as int] == '/';
            let dir = (v.catalog.dirs.contains(p) || above) && held;
            &&& file <==> found(v, query).contains(
                HitView {
                    path: p,
                    is_dir: false,
                    size: v.catalog.files[p].size,
                    mtime: v.catalog.files[p].mtime,
                },
            )
            &&& dir <==> found(v, query).contains(
                HitView { path: p, is_dir: true, size: 0, mtime: 0 },
            )
            &&& forall|i: int|
                0 <= i < found(v, query).len() && (#[trigger] found(v, query)[i]).path == p ==> (
                if found(v, query)[i].is_dir {
                    dir && found(v, query)[i].size == 0 && found(v, query)[i].mtime == 0
                } else {
                    file && found(v, query)[i].size == v.catalog.files[p].size && found(
                        v,
                        query,
                    )[i].mtime == v.catalog.files[p].mtime
                })
        }),
{
    let q = crate::text::lowercase(crate::text::trimmed(query));
    let files = v.catalog.files;
    let dh = |p: Seq<char>| dir_hit(p);
    let fh = |p: Seq<char>| file_hit(files, p);
    let a = crate::vault::tree::path_order(all_dirs(v)).filter(path_has(q)).map_values(dh);
    let b = crate::vault::tree::path_order(files.dom()).filter(path_has(q)).map_values(fh);
    lemma_dirs_finite(v);
    lemma_held(crate::text::lowercase(p), q);
    lemma_hits(all_dirs(v), q, dh, p);
    lemma_hits(files.dom(), q, fh, p);
    let r = found(v, query);
    assert forall|k: Seq<char>| #[trigger] files.contains_key(k) implies (ancestors(k).contains(p)
        == (0 < p.len() < k.len() && k.take(p.len() as int) == p && k[p.len() as int] == '/')) by {
        if ancestors(k).contains(p) {
            let i = choose|i: int| 0 < i < k.len() && #[trigger] k[i] == '/' && p == k.take(i);
            assert(i == p.len());
        }
    }
    if q.len() > 0 {
        assert(r =~= a + b);
        if a.contains(dh(p)) {
            let i = a.index_of(dh(p));
            assert(r[i] == dh(p));
        }
        if b.contains(fh(p)) {
            let i = b.index_of(fh(p));
            assert(r[a.len() + i] == fh(p));
        }
        assert forall|i: int| 0 <= i < r.len() implies #[trigger] r[i] == (if i < a.len() {
            a[i]
        } else {
            b[i - a.len()]
        }) by {}
        assert forall|i: int| 0 <= i < a.len() && (#[trigger] a[i]).path == p implies a[i] == dh(p)
            && all_dirs(v).contains(p) && path_has(q)(p) by {}
        assert forall|i: int| 0 <= i < b.len() && (#[trigger] b[i]).path == p implies b[i] == fh(p)
            && files.contains_key(p) && path_has(q)(p) by {}
        assert forall|i: int| 0 <= i < a.len() implies (#[trigger] a[i]).is_dir by {}
        assert forall|i: int| 0 <= i < b.len() implies !(#[trigger] b[i]).is_dir by {}
        if r.contains(dh(p)) {
            let i = r.index_of(dh(p));
            assert(r[i].path == p);
        }
        if r.contains(fh(p)) {
            let i = r.index_of(fh(p));
            assert(r[i].path == p);
        }
    }
}

/// Every file is found when it is searched for by its own path, in upper or lower case or as it
/// is, unless white space stands at an end of the path.
pub proof fn path_finds_itself(v: VaultView, p: Seq<char>, query: Seq<char>)
    requires
        v.catalog.files.contains_key(p),
        v.catalog.files.dom().finite(),
        v.catalog.dirs.finite(),
        query.len() > 0 ==> !crate::text::is_space(query[0]) && !crate::text::is_space(
            query.last(),
        ),
        crate::text::lowercase(query) == crate::text::lowercase(p),
        crate::text::lowercase(p).len() > 0,
    ensures
        found(v, query).contains(
            HitView {
                path: p,
                is_dir: false,
                size: v.catalog.files[p].size,
                mtime: v.catalog.files[p].mtime,
            },
        ),
{
    let none = Seq::<char>::empty();
    crate::text::trim_cuts_the_margins(none, query, none);
    assert(none + query + none =~= query);
    let s = crate::text::lowercase(p);
    assert(s.subrange(0int, 0int + s.len()) =~= s);
    path_is_found_by_what_it_contains(v, query, p);
}

/// Directories stand in front of files among the hits, each sort in the order of their paths,
/// and nothing is told twice.
pub proof fn hits_are_in_order(v: VaultView, query: Seq<char>, i: int, j: int)
    requires
        v.catalog.files.dom().finite(),
        v.catalog.dirs.finite(),
        0 <= i < j < found(v, query).len(),
    ensures
        found(v, query)[j].is_dir ==> found(v, query)[i].is_dir,
        found(v, query)[i].is_dir == found(v, query)[j].is_dir ==> <String as crate::order::SortKey>::key_before(
            found(v, query)[i].path,
            found(v, query)[j].path,
        ),
{
    let q = crate::text::lowercase(crate::text::trimmed(query));
    let files = v.catalog.files;
    let a = crate::vault::tree::path_order(all_dirs(v));
    let b = crate::vault::tree::path_order(files.dom());
    let n = a.filter(path_has(q)).len();
    lemma_dirs_finite(v);
    crate::sorted::lemma_in_order_exists::<String>(all_dirs(v));
    crate::sorted::lemma_in_order_exists::<String>(files.dom());
    lemma_filter_ascends(a, path_has(q));
    lemma_filter_ascends(b, path_has(q));
    if j < n {
        assert(<String as crate::order::SortKey>::key_before(
            a.filter(path_has(q))[i],
            a.filter(path_has(q))[j],
        ));
    } else if i >= n {
        assert(<String as crate::order::SortKey>::key_before(
            b.filter(path_has(q))[i - n],
            b.filter(path_has(q))[j - n],
        ));
    }
}

pub proof fn lemma_filter_ascends(keys: Seq<Seq<char>>, p: spec_fn(Seq<char>) -> bool)
    requires
        crate::sorted::ascending::<String>(keys),
        keys.no_duplicates(),
    ensures
        crate::sorted::ascending::<String>(keys.filter(p)),
    decreases keys.len(),
{
    reveal(Seq::filter);
    if keys.len() > 0 {
        let front = keys.drop_last();
        lemma_filter_ascends(front, p);
        crate::vault::moves::lemma_filtered_members(front, p);
        let f = front.filter(p);
        assert forall|i: int| 0 <= i < f.len() implies <String as crate::order::SortKey>::key_before(
            #[trigger] f[i],
            keys.last(),
        ) by {
            assert(f.contains(f[i]));
            assert(front.contains(f[i]));
            let j = front.index_of(f[i]);
            assert(keys[j] == f[i]);
            assert(<String as crate::order::SortKey>::key_before(keys[j], keys[keys.len() - 1]));
        }
    }
}

/// The hits are told one by one, each with its path, kind, size and time.
pub proof fn hits_are_told_one_by_one(hits: Seq<SearchHit>, i: int)
    requires
        0 <= i < hits.len(),
    ensures
        hit_views(hits).len() == hits.len(),
        hit_views(hits)[i].path == hits[i].path@,
        hit_views(hits)[i].is_dir == hits[i].is_dir,
        hit_views(hits)[i].size == hits[i].size,
        hit_views(hits)[i].mtime == hits[i].mtime,
{
}

} // verus!
