//! What the calls on the tree find and leave, in terms of its paths alone.

use vstd::prelude::*;

use crate::order::SortKey;
use crate::vault::tree::NodeKind;
use crate::vault::VaultView;

verus! {

/// A path with one leading slash and no backslash is a normal one.
pub proof fn lemma_normal_stays(n: Seq<char>)
    requires
        n.len() > 0,
        n[0] == '/',
        n.len() > 1 ==> n[1] != '/',
        forall|i: int| 0 <= i < n.len() ==> n[i] != '\\',
    ensures
        crate::paths::normal(n) == n,
{
    assert(crate::paths::slashed(n) =~= n);
    let dot = seq!['.', '/'];
    if crate::text::begins(n, dot) {
        assert(n.take(2)[0] == dot[0]);
    }
    assert(crate::text::without_leading_text(n, dot) == n);
    let rest = n.drop_first();
    assert(crate::text::without_leading(n, '/') == crate::text::without_leading(rest, '/'));
    assert(crate::text::without_leading(rest, '/') == rest);
    assert(crate::paths::normal(n) =~= n);
}

/// What stands at a path that differs from a normal one in case alone is normal too.
proof fn lemma_like_normal(k: Seq<char>, path: Seq<char>)
    requires
        crate::text::same_but_case(k, crate::paths::normal(path)),
    ensures
        crate::paths::normal(k) == k,
{
    let q = crate::paths::normal(path);
    crate::paths::normal_shape(path);
    crate::text::case_alone_is_ignored(k, q);
    assert(k[0] == q[0]);
    if k.len() > 1 {
        assert(k[1] == k[1]);
    }
    assert forall|i: int| 0 <= i < k.len() implies k[i] != '\\' by {
        assert(k[i] == k[i]);
        assert(q[i] != '\\');
    }
    lemma_normal_stays(k);
}

pub proof fn lemma_begins_inside(k: Seq<char>, p: Seq<char>)
    ensures
        crate::text::begins(k, crate::paths::inside(p)) <==> k.len() > p.len() && k.take(
            p.len() as int,
        ) == p && k[p.len() as int] == '/',
{
    let n = p.len() as int;
    if crate::text::begins(k, crate::paths::inside(p)) {
        let f = k.take(n + 1);
        assert(f == p.push('/'));
        assert(f[n] == '/');
        assert(k.take(n) =~= f.take(n));
        assert(f.take(n) =~= p);
    }
    if k.len() > n && k.take(n) == p && k[n] == '/' {
        assert(k.take(n + 1) =~= p.push('/'));
    }
}

/// A path resolves to a file exactly if it is that of a file, with what is recorded of it; to a
/// directory if it is the root or, without a file there, that of a directory or one with
/// something behind it and a slash; and to nothing otherwise.
pub proof fn resolve_tells_what_is_there(v: VaultView, path: Seq<char>)
    ensures
        ({
            let p = crate::paths::normal(path);
            let n = p.len() as int;
            let r = crate::vault::tree::resolved(v, path);
            let file = p != seq!['/'] && v.catalog.files.contains_key(p);
            let dir = v.catalog.dirs.contains(p) || (exists|k: Seq<char>| #[trigger]
                v.catalog.files.contains_key(k) && k.len() > n && k.take(n) == p && k[n] == '/')
                || (exists|k: Seq<char>| #[trigger]
                v.catalog.dirs.contains(k) && k.len() > n && k.take(n) == p && k[n] == '/');
            &&& file ==> r == Some(
                NodeKind::File {
                    size: v.catalog.files[p].size,
                    mtime: v.catalog.files[p].mtime,
                },
            )
            &&& !file && (p == seq!['/'] || dir) ==> r == Some(NodeKind::Dir)
            &&& !file && p != seq!['/'] && !dir ==> r is None
        }),
{
    let p = crate::paths::normal(path);
    let n = p.len() as int;
    assert forall|k: Seq<char>| #[trigger] crate::text::begins(k, crate::paths::inside(p)) <==> (
    k.len() > n && k.take(n) == p && k[n] == '/') by {
        lemma_begins_inside(k, p);
    }
    assert forall|k: Seq<char>| #[trigger] v.catalog.files.contains_key(k) implies (k.len() > n
        && k.take(n) == p && k[n] == '/') == crate::text::begins(k, crate::paths::inside(p)) by {}
    assert forall|k: Seq<char>| #[trigger] v.catalog.dirs.contains(k) implies (k.len() > n
        && k.take(n) == p && k[n] == '/') == crate::text::begins(k, crate::paths::inside(p)) by {}
}

proof fn lemma_first_where(keys: Seq<Seq<char>>, p: spec_fn(Seq<char>) -> bool) -> (i: int)
    ensures
        match crate::vault::tree::first_where(keys, p) {
            Some(k) => 0 <= i < keys.len() && keys[i] == k && p(k) && forall|j: int|
                0 <= j < i ==> !p(#[trigger] keys[j]),
            None => forall|j: int| 0 <= j < keys.len() ==> !p(#[trigger] keys[j]),
        },
    decreases keys.len(),
{
    if keys.len() == 0 {
        0
    } else if p(keys[0]) {
        0
    } else {
        let rest = keys.drop_first();
        let i = lemma_first_where(rest, p);
        match crate::vault::tree::first_where(rest, p) {
            Some(k) => {
                assert forall|j: int| 0 <= j < i + 1 implies !p(#[trigger] keys[j]) by {
                    if j > 0 {
                        assert(rest[j - 1] == keys[j]);
                    }
                }
            },
            None => {
                assert forall|j: int| 0 <= j < keys.len() implies !p(#[trigger] keys[j]) by {
                    if j > 0 {
                        assert(rest[j - 1] == keys[j]);
                    }
                }
            },
        }
        i + 1
    }
}

proof fn lemma_first_in_set(s: Set<Seq<char>>, p: spec_fn(Seq<char>) -> bool)
    requires
        s.finite(),
    ensures
        match crate::vault::tree::first_where(crate::vault::tree::path_order(s), p) {
            Some(k) => s.contains(k) && p(k) && forall|m: Seq<char>| #[trigger]
                s.contains(m) && p(m) && m != k ==> <String as SortKey>::key_before(k, m),
            None => forall|m: Seq<char>| #[trigger] s.contains(m) ==> !p(m),
        },
{
    let keys = crate::vault::tree::path_order(s);
    crate::sorted::lemma_in_order_exists::<String>(s);
    let i = lemma_first_where(keys, p);
    match crate::vault::tree::first_where(keys, p) {
        Some(k) => {
            assert(keys.contains(keys[i]));
            assert(keys.to_set().contains(k));
            assert forall|m: Seq<char>| #[trigger] s.contains(m) && p(m) && m != k implies <
                String as SortKey>::key_before(k, m) by {
                assert(keys.to_set().contains(m));
                assert(keys.contains(m));
                let j = keys.index_of(m);
                assert(keys[j] == m);
                if j < i {
                    assert(!p(keys[j]));
                }
                assert(i < j);
                assert(<String as SortKey>::key_before(keys[i], keys[j]));
            }
        },
        None => {
            assert forall|m: Seq<char>| #[trigger] s.contains(m) implies !p(m) by {
                assert(keys.to_set().contains(m));
                assert(keys.contains(m));
                let j = keys.index_of(m);
                assert(!p(keys[j]));
            }
        },
    }
}

/// Whatever is found without regard to case is really there: the name that is given resolves to
/// the kind that is given, and differs from the normal path in the case of letters from `a` to
/// `z` alone. A path that names a file or a recorded directory as it is written finds that.
/// Nothing is found only where no path is the same but for case, up to its end or up to a slash.
pub proof fn found_without_case_is_there(v: VaultView, path: Seq<char>)
    requires
        v.catalog.files.dom().finite(),
        v.catalog.dirs.finite(),
    ensures
        ({
            let q = crate::paths::normal(path);
            let n = q.len() as int;
            match crate::vault::tree::resolved_ci(v, path) {
                Some((name, kind)) => {
                    &&& crate::vault::tree::resolved(v, name) == Some(kind)
                    &&& name.len() == q.len()
                    &&& forall|i: int|
                        0 <= i < q.len() ==> {
                            ||| #[trigger] name[i] == q[i]
                            ||| 'A' <= name[i] <= 'Z' && q[i] as int == name[i] as int + 32
                            ||| 'A' <= q[i] <= 'Z' && name[i] as int == q[i] as int + 32
                        }
                    &&& v.catalog.files.contains_key(q) || v.catalog.dirs.contains(q) || q
                        == seq!['/'] ==> name == q
                },
                None => {
                    &&& crate::vault::tree::resolved(v, path) is None
                    &&& forall|k: Seq<char>| #[trigger]
                        v.catalog.files.contains_key(k) ==> !crate::text::same_but_case(k, q) && !(
                        k.len() > n && k[n] == '/' && crate::text::same_but_case(k.take(n), q))
                    &&& forall|k: Seq<char>| #[trigger]
                        v.catalog.dirs.contains(k) ==> !crate::text::same_but_case(k, q) && !(
                        k.len() > n && k[n] == '/' && crate::text::same_but_case(k.take(n), q))
                },
            }
        }),
{
    let q = crate::paths::normal(path);
    let n = q.len() as int;
    let files = v.catalog.files;
    let dirs = v.catalog.dirs;
    let named = crate::vault::tree::named_like(q);
    let inside = crate::vault::tree::inside_like(q);
    let fk = crate::vault::tree::path_order(files.dom());
    let dk = crate::vault::tree::path_order(dirs);
    lemma_first_in_set(files.dom(), named);
    lemma_first_in_set(dirs, named);
    lemma_first_in_set(files.dom(), inside);
    lemma_first_in_set(dirs, inside);
    crate::paths::normalize_is_idempotent(path);
    crate::paths::normal_shape(path);
    crate::text::case_alone_is_ignored(q, q);
    match crate::vault::tree::resolved_ci(v, path) {
        Some((name, kind)) => {
            assert(crate::text::same_but_case(name, q));
            lemma_like_normal(name, path);
            crate::text::case_alone_is_ignored(name, q);
            assert(q != seq!['/'] ==> name != seq!['/']) by {
                if name == seq!['/'] {
                    assert(name[0] == '/');
                    assert(q =~= seq!['/']);
                }
            }
            if q != crate::paths::root() && !files.contains_key(q) && !dirs.contains(q) {
                match crate::vault::tree::first_where(fk, named) {
                    Some(k) => {},
                    None => {
                        assert(!files.contains_key(name)) by {
                            if files.dom().contains(name) {
                                assert(!named(name));
                            }
                        }
                        match crate::vault::tree::first_where(dk, named) {
                            Some(k) => {},
                            None => {
                                match crate::vault::tree::first_where(fk, inside) {
                                    Some(k) => {
                                        assert(files.dom().contains(k) && inside(k));
                                        assert(files.contains_key(k));
                                        lemma_begins_inside(k, name);
                                    },
                                    None => {
                                        let k = crate::vault::tree::first_where(dk, inside)->0;
                                        assert(dirs.contains(k) && inside(k));
                                        lemma_begins_inside(k, name);
                                    },
                                }
                            },
                        }
                    },
                }
            }
        },
        None => {
            assert forall|k: Seq<char>| #[trigger] files.contains_key(k) implies !named(k)
                && !inside(k) by {
                assert(files.dom().contains(k));
            }
            assert forall|k: Seq<char>| #[trigger] dirs.contains(k) implies !named(k) && !inside(
                k,
            ) by {}
            assert forall|k: Seq<char>| crate::text::begins(k, crate::paths::inside(q)) implies #[trigger] inside(k) by {
                lemma_begins_inside(k, q);
            }
        },
    }
}

/// Of several files that a path names but for case, where nothing has the path as it is written,
/// the first in the order of paths is found; and of recorded directories too, if no such file is
/// there.
pub proof fn first_of_the_like_is_found(v: VaultView, path: Seq<char>, k: Seq<char>)
    requires
        v.catalog.files.dom().finite(),
        v.catalog.dirs.finite(),
        crate::vault::tree::resolved(v, path) is None,
        crate::text::same_but_case(k, crate::paths::normal(path)),
    ensures
        v.catalog.files.contains_key(k) ==> (crate::vault::tree::resolved_ci(v, path) matches Some(
            (name, kind),
        ) && kind is File && (name == k || <String as SortKey>::key_before(name, k))),
        v.catalog.dirs.contains(k) ==> (crate::vault::tree::resolved_ci(v, path) matches Some(
            (name, kind),
        ) && (kind is File || name == k || <String as SortKey>::key_before(name, k))),
{
    let q = crate::paths::normal(path);
    let named = crate::vault::tree::named_like(q);
    lemma_first_in_set(v.catalog.files.dom(), named);
    lemma_first_in_set(v.catalog.dirs, named);
    assert(named(k));
    if v.catalog.files.contains_key(k) {
        assert(v.catalog.files.dom().contains(k));
    }
}

/// Removing a directory leaves every other path alone: a file or directory whose path is neither
/// the removed path nor begins with it and a slash is there afterwards as it was, and no other
/// one is. The number that is told is that of the files that went.
pub proof fn removed_directory_takes_its_own_alone(
    v: VaultView,
    path: Seq<char>,
    base: Seq<char>,
    slashes: Seq<char>,
    k: Seq<char>,
)
    requires
        v.catalog.files.dom().finite(),
        crate::paths::normal(path) == base + slashes,
        base.len() > 0 ==> base.last() != '/',
        forall|i: int| 0 <= i < slashes.len() ==> slashes[i] == '/',
    ensures
        ({
            let w = crate::vault::moves::pruned(v, path);
            let n = base.len() as int;
            let goes = k == base + slashes || (k.len() > n && k.take(n) == base && k[n] == '/');
            &&& w.catalog.files.contains_key(k) <==> v.catalog.files.contains_key(k) && !goes
            &&& w.catalog.files.contains_key(k) ==> w.catalog.files[k] == v.catalog.files[k]
            &&& w.catalog.dirs.contains(k) <==> v.catalog.dirs.contains(k) && !goes
            &&& w.catalog.blocks == v.catalog.blocks
            &&& w.catalog.snapshots == v.catalog.snapshots
            &&& w.catalog.quota == v.catalog.quota
            &&& w.enc == v.enc && w.next_append == v.next_append && w.chunk_size == v.chunk_size
            &&& w.zstd_level == v.zstd_level
            &&& v.catalog.files.dom().filter(
                crate::vault::moves::subtree(crate::paths::normal(path)),
            ).len() + w.catalog.files.dom().len() == v.catalog.files.dom().len()
        }),
{
    let p = crate::paths::normal(path);
    let files = v.catalog.files;
    let gone = crate::vault::moves::subtree(p);
    let b = crate::vault::moves::base_of(p);
    crate::text::trailing_run_is_cut(p, '/');
    if b.len() > base.len() {
        assert(b.last() == p[b.len() - 1]);
        assert(p[b.len() - 1] == slashes[b.len() - 1 - base.len()]);
    } else if b.len() < base.len() {
        assert(p[base.len() - 1] == base.last());
    }
    assert(b =~= base);
    lemma_begins_inside(k, base);
    let out = files.dom().filter(gone);
    let w = crate::vault::moves::pruned(v, path);
    vstd::set_lib::lemma_len_subset(out, files.dom());
    vstd::set_lib::lemma_len_subset(w.catalog.files.dom(), files.dom());
    assert(w.catalog.files.dom() =~= files.dom().difference(out));
    assert(out.disjoint(w.catalog.files.dom()));
    assert(out + w.catalog.files.dom() =~= files.dom());
    vstd::set_lib::lemma_set_disjoint_lens(out, w.catalog.files.dom());
}

/// A directory that is only known from what is in it is found under the name that the first file
/// in the order of paths gives it, if no file or recorded directory has the path but for case;
/// and under that of the first recorded directory, if no file is in it.
pub proof fn first_inside_gives_the_name(v: VaultView, path: Seq<char>, k: Seq<char>)
    requires
        v.catalog.files.dom().finite(),
        v.catalog.dirs.finite(),
        crate::paths::normal(path) != seq!['/'],
        forall|m: Seq<char>| #[trigger]
            v.catalog.files.contains_key(m) ==> !crate::text::same_but_case(
                m,
                crate::paths::normal(path),
            ),
        forall|m: Seq<char>| #[trigger]
            v.catalog.dirs.contains(m) ==> !crate::text::same_but_case(
                m,
                crate::paths::normal(path),
            ),
        ({
            let q = crate::paths::normal(path);
            let n = q.len() as int;
            k.len() > n && k[n] == '/' && crate::text::same_but_case(k.take(n), q)
        }),
    ensures
        ({
            let q = crate::paths::normal(path);
            let n = q.len() as int;
            let r = crate::vault::tree::resolved_ci(v, path);
            let least_file = v.catalog.files.contains_key(k) && forall|m: Seq<char>| #[trigger]
                v.catalog.files.contains_key(m) && m.len() > n && m[n] == '/'
                    && crate::text::same_but_case(m.take(n), q) && m != k ==> <
                    String as SortKey>::key_before(k, m);
            let no_file = forall|m: Seq<char>| #[trigger]
                v.catalog.files.contains_key(m) ==> !(m.len() > n && m[n] == '/'
                    && crate::text::same_but_case(m.take(n), q));
            let least_dir = v.catalog.dirs.contains(k) && forall|m: Seq<char>| #[trigger]
                v.catalog.dirs.contains(m) && m.len() > n && m[n] == '/'
                    && crate::text::same_but_case(m.take(n), q) && m != k ==> <
                    String as SortKey>::key_before(k, m);
            least_file || (no_file && least_dir) ==> r == Some((k.take(n), NodeKind::Dir))
        }),
{
    let q = crate::paths::normal(path);
    let n = q.len() as int;
    let files = v.catalog.files;
    let dirs = v.catalog.dirs;
    let named = crate::vault::tree::named_like(q);
    let inside = crate::vault::tree::inside_like(q);
    lemma_first_in_set(files.dom(), named);
    lemma_first_in_set(dirs, named);
    lemma_first_in_set(files.dom(), inside);
    lemma_first_in_set(dirs, inside);
    crate::text::case_alone_is_ignored(q, q);
    assert(inside(k));
    let fk = crate::vault::tree::first_where(crate::vault::tree::path_order(files.dom()), inside);
    let dk = crate::vault::tree::first_where(crate::vault::tree::path_order(dirs), inside);
    assert(crate::vault::tree::first_where(
        crate::vault::tree::path_order(files.dom()),
        named,
    ) is None) by {
        if crate::vault::tree::first_where(
            crate::vault::tree::path_order(files.dom()),
            named,
        ) is Some {
            let m = crate::vault::tree::first_where(
                crate::vault::tree::path_order(files.dom()),
                named,
            )->0;
            assert(files.dom().contains(m) && named(m));
            assert(files.contains_key(m));
        }
    }
    if fk is Some {
        let m = fk->0;
        assert(files.dom().contains(m) && inside(m));
        assert(files.contains_key(m));
        if files.contains_key(k) && m != k {
            assert(files.dom().contains(k));
            <String as SortKey>::order_irreflexive(k);
            if <String as SortKey>::key_before(k, m) {
                <String as SortKey>::order_transitive(k, m, k);
            }
        }
    } else if files.contains_key(k) {
        assert(files.dom().contains(k));
    }
    if dk is Some {
        let m = dk->0;
        assert(dirs.contains(m) && inside(m));
        if dirs.contains(k) && m != k {
            <String as SortKey>::order_irreflexive(k);
            if <String as SortKey>::key_before(k, m) {
                <String as SortKey>::order_transitive(k, m, k);
            }
        }
    }
}

/// What is found is told by its name and its kind.
pub proof fn found_node_is_told_by_name_and_kind(name: String, kind: NodeKind)
    ensures
        crate::vault::tree::found_view(Some((name, kind))) == Some((name@, kind)),
        crate::vault::tree::found_view(None) is None,
{
}

/// Names are told one by one.
pub proof fn names_are_told_one_by_one(names: Seq<String>, i: int)
    requires
        0 <= i < names.len(),
    ensures
        crate::vault::moves::names(names).len() == names.len(),
        crate::vault::moves::names(names)[i] == names[i]@,
{
}

} // verus!
