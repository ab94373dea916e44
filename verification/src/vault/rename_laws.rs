//! What moving does where the destination is free, and that moving back undoes it.

use crate::vault::VaultView;
use vstd::prelude::*;

verus! {

/// `p` does not end with a slash.
pub open spec fn plain(p: Seq<char>) -> bool {
    p.len() > 0 && p.last() != '/'
}

/// Nothing stands at `p` or inside it.
pub open spec fn free(v: VaultView, p: Seq<char>) -> bool {
    &&& !v.catalog.files.contains_key(p)
    &&& !v.catalog.dirs.contains(p)
    &&& !crate::vault::tree::has_children(v, p)
}

/// The path under `src` that goes to `k` under `dst`.
pub open spec fn source(src: Seq<char>, dst: Seq<char>, k: Seq<char>) -> Seq<char> {
    crate::paths::inside(src) + k.skip(crate::paths::inside(dst).len() as int)
}

/// The files when those inside `src` are at the corresponding paths inside `dst` and all others
/// are where they were.
pub open spec fn relocated_files(
    files: Map<Seq<char>, crate::catalog::FileView>,
    src: Seq<char>,
    dst: Seq<char>,
) -> Map<Seq<char>, crate::catalog::FileView> {
    let to = crate::paths::inside(dst);
    Map::new(
        |k: Seq<char>|
            if crate::text::begins(k, to) {
                files.contains_key(source(src, dst, k))
            } else {
                files.contains_key(k) && !crate::text::begins(k, crate::paths::inside(src))
            },
        |k: Seq<char>|
            if crate::text::begins(k, to) {
                files[source(src, dst, k)]
            } else {
                files[k]
            },
    )
}

/// The explicit directories when `src` and those inside it are at the corresponding paths at and
/// inside `dst` and all others are where they were.
pub open spec fn relocated_dirs(
    dirs: Set<Seq<char>>,
    src: Seq<char>,
    dst: Seq<char>,
) -> Set<Seq<char>> {
    Set::new(
        |k: Seq<char>|
            if k == dst {
                dirs.contains(src)
            } else if crate::text::begins(k, crate::paths::inside(dst)) {
                dirs.contains(source(src, dst, k))
            } else {
                dirs.contains(k) && k != src && !crate::text::begins(
                    k,
                    crate::paths::inside(src),
                )
            },
    )
}

/// Where the directory `k` at or inside `src` goes.
pub open spec fn dir_target(src: Seq<char>, dst: Seq<char>, k: Seq<char>) -> Seq<char> {
    if k == src {
        dst
    } else {
        crate::vault::moves::target(
            crate::vault::moves::base_of(dst),
            crate::paths::inside(src),
            k,
        )
    }
}

/// What moving directories one by one makes of them when none moves to where another one is.
proof fn lemma_dirs_apart(dirs: Set<Seq<char>>, keys: Seq<Seq<char>>, s: Seq<char>, d: Seq<char>)
    requires
        forall|i: int, j: int|
            #![trigger keys[i], keys[j]]
            0 <= i < keys.len() && 0 <= j < keys.len() ==> dir_target(s, d, keys[i]) != keys[j],
    ensures
        forall|k: Seq<char>| #[trigger]
            crate::vault::moves::moved_dirs(dirs, keys, s, d).contains(k) <==> (exists|i: int|
                0 <= i < keys.len() && dir_target(s, d, #[trigger] keys[i]) == k) || (
            dirs.contains(k) && !keys.contains(k)),
    decreases keys.len(),
{
    let m = crate::vault::moves::moved_dirs(dirs, keys, s, d);
    if keys.len() > 0 {
        let init = keys.drop_last();
        let last = keys.last();
        let n = keys.len() - 1;
        assert forall|i: int, j: int|
            #![trigger init[i], init[j]]
            0 <= i < init.len() && 0 <= j < init.len() implies dir_target(s, d, init[i])
            != init[j] by {
            assert(init[i] == keys[i] && init[j] == keys[j]);
        }
        lemma_dirs_apart(dirs, init, s, d);
        let m0 = crate::vault::moves::moved_dirs(dirs, init, s, d);
        assert(keys[n] == last);
        assert forall|k: Seq<char>| #[trigger] m.contains(k) <==> (exists|i: int|
            0 <= i < keys.len() && dir_target(s, d, #[trigger] keys[i]) == k) || (dirs.contains(k)
            && !keys.contains(k)) by {
            assert(m.contains(k) == (k == dir_target(s, d, last) || (k != last && m0.contains(
                k,
            ))));
            assert(keys.contains(k) == (init.contains(k) || k == last)) by {
                if init.contains(k) {
                    assert(keys[init.index_of(k)] == k);
                }
                if keys.contains(k) && k != last {
                    assert(init[keys.index_of(k)] == k);
                }
            }
            if exists|i: int| 0 <= i < init.len() && dir_target(s, d, #[trigger] init[i]) == k {
                let i = choose|i: int|
                    0 <= i < init.len() && dir_target(s, d, #[trigger] init[i]) == k;
                assert(dir_target(s, d, keys[i]) == k);
                assert(dir_target(s, d, keys[i]) != keys[n]);
            }
            if exists|i: int| 0 <= i < keys.len() && dir_target(s, d, #[trigger] keys[i]) == k {
                let i = choose|i: int|
                    0 <= i < keys.len() && dir_target(s, d, #[trigger] keys[i]) == k;
                assert(dir_target(s, d, keys[i]) != keys[n]);
                if i < n {
                    assert(init[i] == keys[i]);
                }
            }
        }
    }
}

/// Two directories of which neither is at or inside the other.
proof fn lemma_apart(v: VaultView, s: Seq<char>, d: Seq<char>)
    requires
        s != d,
        !crate::text::begins(d, crate::paths::inside(s)),
        free(v, d),
        v.catalog.dirs.contains(s) || crate::vault::tree::has_children(v, s),
    ensures
        !crate::text::begins(crate::paths::inside(d), crate::paths::inside(s)),
        !crate::text::begins(crate::paths::inside(s), crate::paths::inside(d)),
        !crate::text::begins(s, crate::paths::inside(d)),
{
    let a = crate::paths::inside(s);
    let b = crate::paths::inside(d);
    if crate::text::begins(b, a) {
        if a.len() == b.len() {
            assert(b.take(a.len() as int) =~= b);
            assert(s =~= a.drop_last());
            assert(d =~= b.drop_last());
        } else {
            assert(d.take(a.len() as int) =~= b.take(a.len() as int));
        }
    }
    if crate::text::begins(s, b) {
        assert(a.take(b.len() as int) =~= s.take(b.len() as int));
    }
    if crate::text::begins(a, b) {
        if a.len() == b.len() {
            assert(a.take(b.len() as int) =~= a);
            assert(s =~= a.drop_last());
            assert(d =~= b.drop_last());
        } else {
            assert(s.take(b.len() as int) =~= a.take(b.len() as int));
            if v.catalog.dirs.contains(s) {
                assert(crate::vault::tree::has_children(v, d));
            } else {
                if exists|k: Seq<char>| #[trigger]
                    v.catalog.files.contains_key(k) && crate::text::begins(k, a) {
                    let k = choose|k: Seq<char>| #[trigger]
                        v.catalog.files.contains_key(k) && crate::text::begins(k, a);
                    assert(k.take(b.len() as int) =~= k.take(a.len() as int).take(b.len() as int));
                    assert(crate::vault::tree::has_children(v, d));
                } else {
                    let k = choose|k: Seq<char>| #[trigger]
                        v.catalog.dirs.contains(k) && crate::text::begins(k, a);
                    assert(k.take(b.len() as int) =~= k.take(a.len() as int).take(b.len() as int));
                    assert(crate::vault::tree::has_children(v, d));
                }
            }
        }
    }
}

/// Going there and back along two directories.
proof fn lemma_there_and_back(s: Seq<char>, d: Seq<char>, k: Seq<char>)
    requires
        crate::text::begins(k, crate::paths::inside(s)),
    ensures
        ({
            let t = crate::vault::moves::target(d, crate::paths::inside(s), k);
            crate::text::begins(t, crate::paths::inside(d)) && source(s, d, t) == k && t == source(
                d,
                s,
                k,
            )
        }),
{
    let a = crate::paths::inside(s);
    let b = crate::paths::inside(d);
    let t = crate::vault::moves::target(d, a, k);
    assert(t.take(b.len() as int) =~= b);
    assert(t.skip(b.len() as int) =~= k.skip(a.len() as int));
    assert(k =~= k.take(a.len() as int) + k.skip(a.len() as int));
}

proof fn lemma_files_relocated(v: VaultView, s: Seq<char>, d: Seq<char>)
    requires
        v.catalog.files.dom().finite(),
        plain(d),
        s != d,
        !crate::text::begins(d, crate::paths::inside(s)),
        free(v, d),
        v.catalog.dirs.contains(s) || crate::vault::tree::has_children(v, s),
    ensures
        ({
            let files = v.catalog.files;
            let pre = crate::paths::inside(s);
            crate::vault::moves::moved_files(
                files,
                crate::vault::tree::path_order(files.dom()).filter(
                    crate::vault::moves::picked(None, pre),
                ),
                pre,
                crate::vault::moves::base_of(d),
            ) == relocated_files(files, s, d)
        }),
{
    let files = v.catalog.files;
    let pre = crate::paths::inside(s);
    let to = crate::paths::inside(d);
    let order = crate::vault::tree::path_order(files.dom());
    let p = crate::vault::moves::picked(None, pre);
    lemma_apart(v, s, d);
    crate::sorted::lemma_in_order_exists::<String>(files.dom());
    crate::vault::moves::lemma_filtered(order, p);
    let keys = order.filter(p);
    assert(crate::vault::moves::base_of(d) == d);
    assert forall|i: int| 0 <= i < keys.len() implies files.contains_key(#[trigger] keys[i])
        && crate::text::begins(keys[i], pre) by {
        assert(keys.contains(keys[i]));
        assert(order.to_set().contains(keys[i]));
    }
    assert forall|i: int, j: int|
        #![trigger keys[i], keys[j]]
        0 <= i < keys.len() && 0 <= j < keys.len() implies crate::vault::moves::target(
        d,
        pre,
        keys[i],
    ) != keys[j] by {
        lemma_there_and_back(s, d, keys[i]);
        let t = crate::vault::moves::target(d, pre, keys[i]);
        if t == keys[j] {
            crate::vault::moves::lemma_two_beginnings(t, pre, to);
        }
    }
    crate::vault::moves::lemma_moved_apart(files, keys, pre, d);
    let m = crate::vault::moves::moved_files(files, keys, pre, d);
    let r = relocated_files(files, s, d);
    assert forall|k: Seq<char>| #[trigger] files.contains_key(k) && crate::text::begins(
        k,
        pre,
    ) implies keys.contains(k) by {
        assert(order.to_set().contains(k));
    }
    assert forall|k: Seq<char>| #[trigger] m.contains_key(k) == r.contains_key(k) && (
    m.contains_key(k) ==> m[k] == r[k]) by {
        if crate::text::begins(k, to) {
            let from = source(s, d, k);
            assert(from.take(pre.len() as int) =~= pre);
            assert(crate::vault::moves::target(d, pre, from) =~= k) by {
                assert(from.skip(pre.len() as int) =~= k.skip(to.len() as int));
                assert(k =~= k.take(to.len() as int) + k.skip(to.len() as int));
            }
            if files.contains_key(from) {
                let i = keys.index_of(from);
                assert(keys[i] == from);
            } else {
                assert forall|i: int| 0 <= i < keys.len() implies crate::vault::moves::target(
                    d,
                    pre,
                    #[trigger] keys[i],
                ) != k by {
                    lemma_there_and_back(s, d, keys[i]);
                }
                if keys.contains(k) {
                    assert(crate::vault::tree::has_children(v, d));
                }
                assert(m.contains_key(k) == files.contains_key(k));
                if files.contains_key(k) {
                    assert(crate::vault::tree::has_children(v, d));
                }
            }
        } else {
            assert forall|i: int| 0 <= i < keys.len() implies crate::vault::moves::target(
                d,
                pre,
                #[trigger] keys[i],
            ) != k by {
                lemma_there_and_back(s, d, keys[i]);
            }
            if keys.contains(k) {
                let i = keys.index_of(k);
                assert(keys[i] == k);
            } else {
                assert(m.contains_key(k) == files.contains_key(k));
            }
        }
    }
    assert(m =~= r);
}

proof fn lemma_dirs_relocated(v: VaultView, s: Seq<char>, d: Seq<char>)
    requires
        v.catalog.dirs.finite(),
        plain(d),
        s != d,
        !crate::text::begins(d, crate::paths::inside(s)),
        free(v, d),
        v.catalog.dirs.contains(s) || crate::vault::tree::has_children(v, s),
    ensures
        ({
            let dirs = v.catalog.dirs;
            crate::vault::moves::moved_dirs(
                dirs,
                crate::vault::tree::path_order(dirs).filter(
                    crate::vault::moves::picked(Some(s), crate::paths::inside(s)),
                ),
                s,
                d,
            ) == relocated_dirs(dirs, s, d)
        }),
{
    let dirs = v.catalog.dirs;
    let pre = crate::paths::inside(s);
    let to = crate::paths::inside(d);
    let order = crate::vault::tree::path_order(dirs);
    let p = crate::vault::moves::picked(Some(s), pre);
    lemma_apart(v, s, d);
    crate::sorted::lemma_in_order_exists::<String>(dirs);
    crate::vault::moves::lemma_filtered(order, p);
    let keys = order.filter(p);
    assert(crate::vault::moves::base_of(d) == d);
    assert forall|k: Seq<char>| #[trigger] keys.contains(k) <==> dirs.contains(k) && (k == s
        || crate::text::begins(k, pre)) by {
        assert(order.to_set().contains(k) == order.contains(k));
    }
    assert forall|i: int| 0 <= i < keys.len() implies dirs.contains(#[trigger] keys[i]) && (keys[i]
        == s || crate::text::begins(keys[i], pre)) by {
        assert(keys.contains(keys[i]));
    }
    assert forall|i: int, j: int|
        #![trigger keys[i], keys[j]]
        0 <= i < keys.len() && 0 <= j < keys.len() implies dir_target(s, d, keys[i])
        != keys[j] by {
        let t = dir_target(s, d, keys[i]);
        if keys[i] != s {
            lemma_there_and_back(s, d, keys[i]);
            if t == keys[j] && keys[j] != s {
                crate::vault::moves::lemma_two_beginnings(t, pre, to);
            }
        }
    }
    lemma_dirs_apart(dirs, keys, s, d);
    let m = crate::vault::moves::moved_dirs(dirs, keys, s, d);
    let r = relocated_dirs(dirs, s, d);
    assert forall|k: Seq<char>| #[trigger] m.contains(k) == r.contains(k) by {
        let moved = exists|i: int|
            0 <= i < keys.len() && dir_target(s, d, #[trigger] keys[i]) == k;
        if k == d {
            assert(!crate::text::begins(d, to));
            if moved {
                let i = choose|i: int|
                    0 <= i < keys.len() && dir_target(s, d, #[trigger] keys[i]) == k;
                if keys[i] != s {
                    lemma_there_and_back(s, d, keys[i]);
                }
            }
            if dirs.contains(s) {
                assert(keys.contains(s));
                let i = keys.index_of(s);
                assert(keys[i] == s);
                assert(moved);
            }
        } else if crate::text::begins(k, to) {
            let from = source(s, d, k);
            assert(from.take(pre.len() as int) =~= pre);
            assert(crate::vault::moves::target(d, pre, from) =~= k) by {
                assert(from.skip(pre.len() as int) =~= k.skip(to.len() as int));
                assert(k =~= k.take(to.len() as int) + k.skip(to.len() as int));
            }
            assert(from != s);
            if moved {
                let i = choose|i: int|
                    0 <= i < keys.len() && dir_target(s, d, #[trigger] keys[i]) == k;
                lemma_there_and_back(s, d, keys[i]);
            }
            if dirs.contains(from) {
                assert(keys.contains(from));
                let i = keys.index_of(from);
                assert(keys[i] == from);
                assert(moved);
            }
            if dirs.contains(k) {
                assert(crate::vault::tree::has_children(v, d));
            }
        } else {
            if moved {
                let i = choose|i: int|
                    0 <= i < keys.len() && dir_target(s, d, #[trigger] keys[i]) == k;
                if keys[i] != s {
                    lemma_there_and_back(s, d, keys[i]);
                }
            }
        }
    }
    assert(m =~= r);
}

/// When a directory is moved to a free place that is not inside it, everything in it is at the
/// corresponding path, and all else stays where it is.
pub proof fn moved_directory_is_relocated(v: VaultView, src: Seq<char>, dst: Seq<char>)
    requires
        v.catalog.files.dom().finite(),
        v.catalog.dirs.finite(),
        ({
            let s = crate::paths::normal(src);
            let d = crate::paths::normal(dst);
            &&& !v.catalog.files.contains_key(s)
            &&& v.catalog.dirs.contains(s) || crate::vault::tree::has_children(v, s)
            &&& plain(d)
            &&& free(v, d)
            &&& s != d
            &&& !crate::text::begins(d, crate::paths::inside(s))
        }),
    ensures
        ({
            let s = crate::paths::normal(src);
            let d = crate::paths::normal(dst);
            crate::vault::moves::renamed(v, src, dst) == Some(
                crate::vault::with_tree(
                    v,
                    relocated_files(v.catalog.files, s, d),
                    relocated_dirs(v.catalog.dirs, s, d),
                ),
            )
        }),
{
    let s = crate::paths::normal(src);
    let d = crate::paths::normal(dst);
    lemma_files_relocated(v, s, d);
    lemma_dirs_relocated(v, s, d);
}

/// A directory with nothing in it that is moved to a free place is there and nowhere else.
proof fn lemma_empty_directory_moves(v: VaultView, src: Seq<char>, dst: Seq<char>)
    requires
        v.catalog.files.dom().finite(),
        v.catalog.dirs.finite(),
        ({
            let s = crate::paths::normal(src);
            &&& !v.catalog.files.contains_key(s)
            &&& v.catalog.dirs.contains(s)
            &&& !crate::vault::tree::has_children(v, s)
        }),
    ensures
        ({
            let s = crate::paths::normal(src);
            let d = crate::paths::normal(dst);
            crate::vault::moves::renamed(v, src, dst) == Some(
                crate::vault::with_tree(
                    v,
                    v.catalog.files,
                    v.catalog.dirs.remove(s).insert(d),
                ),
            )
        }),
{
    let s = crate::paths::normal(src);
    let d = crate::paths::normal(dst);
    let pre = crate::paths::inside(s);
    let files = v.catalog.files;
    let dirs = v.catalog.dirs;
    let order = crate::vault::tree::path_order(files.dom());
    let p = crate::vault::moves::picked(None, pre);
    crate::sorted::lemma_in_order_exists::<String>(files.dom());
    crate::vault::moves::lemma_filtered(order, p);
    let keys = order.filter(p);
    assert(keys.len() == 0) by {
        if keys.len() > 0 {
            assert(keys.contains(keys[0]));
            assert(order.to_set().contains(keys[0]));
            assert(files.contains_key(keys[0]));
        }
    }
    let dir_order = crate::vault::tree::path_order(dirs);
    let q = crate::vault::moves::picked(Some(s), pre);
    crate::sorted::lemma_in_order_exists::<String>(dirs);
    crate::vault::moves::lemma_filtered(dir_order, q);
    let dir_keys = dir_order.filter(q);
    assert(dir_keys =~= seq![s]) by {
        assert(dir_order.to_set().contains(s));
        assert(dir_keys.contains(s));
        assert forall|i: int| 0 <= i < dir_keys.len() implies dir_keys[i] == s by {
            assert(dir_keys.contains(dir_keys[i]));
            assert(dir_order.to_set().contains(dir_keys[i]));
            assert(dirs.contains(dir_keys[i]));
        }
        if dir_keys.len() > 1 {
            assert(dir_keys[0] != dir_keys[1]);
        }
    }
    assert(dir_keys.last() == s);
    assert(dir_keys.drop_last() =~= Seq::empty());
    assert(crate::vault::moves::moved_dirs(dirs, dir_keys.drop_last(), s, d) == dirs);
}

/// To move something to a free place and then back brings all files and directories back. What
/// is moved is not both a file and an explicit directory. A directory with something in it does
/// not go into itself, and neither of its paths ends with a slash.
pub proof fn moving_back_restores(v: VaultView, src: Seq<char>, dst: Seq<char>)
    requires
        v.catalog.files.dom().finite(),
        v.catalog.dirs.finite(),
        crate::vault::moves::renamed(v, src, dst) is Some,
        ({
            let s = crate::paths::normal(src);
            let d = crate::paths::normal(dst);
            &&& !(v.catalog.files.contains_key(s) && v.catalog.dirs.contains(s))
            &&& free(v, d)
            &&& v.catalog.files.contains_key(s) || !crate::vault::tree::has_children(v, s) || (
            plain(s) && plain(d) && !crate::text::begins(d, crate::paths::inside(s)))
        }),
    ensures
        crate::vault::moves::renamed(
            crate::vault::moves::renamed(v, src, dst)->0,
            dst,
            src,
        ) == Some(v),
{
    let s = crate::paths::normal(src);
    let d = crate::paths::normal(dst);
    let files = v.catalog.files;
    let dirs = v.catalog.dirs;
    let w = crate::vault::moves::renamed(v, src, dst)->0;
    if files.contains_key(s) {
        assert(files.remove(s).insert(d, files[s]).remove(d).insert(s, files[s]) =~= files);
        assert(dirs.remove(d).remove(s) =~= dirs);
        assert(crate::vault::moves::renamed(w, dst, src)->0 =~= v);
    } else if !crate::vault::tree::has_children(v, s) {
        let b = crate::paths::inside(d);
        lemma_empty_directory_moves(v, src, dst);
        assert(w.catalog.dirs == dirs.remove(s).insert(d));
        assert(!crate::vault::tree::has_children(w, d)) by {
            assert(!crate::text::begins(d, b));
            assert forall|k: Seq<char>| #[trigger]
                w.catalog.dirs.contains(k) implies !crate::text::begins(k, b) by {
                if k != d && crate::text::begins(k, b) {
                    assert(v.catalog.dirs.contains(k));
                }
            }
            assert forall|k: Seq<char>| #[trigger]
                w.catalog.files.contains_key(k) implies !crate::text::begins(k, b) by {
                if crate::text::begins(k, b) {
                    assert(v.catalog.files.contains_key(k));
                }
            }
        }
        lemma_empty_directory_moves(w, dst, src);
        assert(dirs.remove(s).insert(d).remove(d).insert(s) =~= dirs);
        assert(crate::vault::with_tree(w, files, dirs) =~= v);
    } else {
        let a = crate::paths::inside(s);
        let b = crate::paths::inside(d);
        assert(s != d);
        moved_directory_is_relocated(v, src, dst);
        lemma_apart(v, s, d);
        assert(!crate::text::begins(d, b));
        assert(!crate::text::begins(s, a));
        assert(!w.catalog.files.contains_key(d));
        assert(w.catalog.dirs.contains(d) || crate::vault::tree::has_children(w, d)) by {
            if !dirs.contains(s) {
                if exists|k: Seq<char>| #[trigger]
                    files.contains_key(k) && crate::text::begins(k, a) {
                    let k = choose|k: Seq<char>| #[trigger]
                        files.contains_key(k) && crate::text::begins(k, a);
                    lemma_there_and_back(s, d, k);
                    assert(w.catalog.files.contains_key(
                        crate::vault::moves::target(d, a, k),
                    ));
                } else {
                    let k = choose|k: Seq<char>| #[trigger]
                        dirs.contains(k) && crate::text::begins(k, a);
                    lemma_there_and_back(s, d, k);
                    assert(w.catalog.dirs.contains(crate::vault::moves::target(d, a, k)));
                }
            }
        }
        assert(free(w, s)) by {
            assert(!w.catalog.files.contains_key(s));
            assert(!w.catalog.dirs.contains(s));
            assert forall|k: Seq<char>| #[trigger]
                w.catalog.files.contains_key(k) implies !crate::text::begins(k, a) by {
                if crate::text::begins(k, a) && crate::text::begins(k, b) {
                    crate::vault::moves::lemma_two_beginnings(k, a, b);
                }
            }
            assert forall|k: Seq<char>| #[trigger]
                w.catalog.dirs.contains(k) implies !crate::text::begins(k, a) by {
                if crate::text::begins(k, a) && crate::text::begins(k, b) {
                    crate::vault::moves::lemma_two_beginnings(k, a, b);
                }
            }
        }
        lemma_finite_relocated(v, s, d);
        moved_directory_is_relocated(w, dst, src);
        assert(relocated_files(w.catalog.files, d, s) =~= files) by {
            assert forall|k: Seq<char>| #[trigger] relocated_files(
                w.catalog.files,
                d,
                s,
            ).contains_key(k) == files.contains_key(k) && (files.contains_key(k)
                ==> relocated_files(w.catalog.files, d, s)[k] == files[k]) by {
                if crate::text::begins(k, a) {
                    lemma_there_and_back(s, d, k);
                } else if crate::text::begins(k, b) {
                    if files.contains_key(k) {
                        assert(crate::vault::tree::has_children(v, d));
                    }
                }
            }
        }
        assert(relocated_dirs(w.catalog.dirs, d, s) =~= dirs) by {
            assert forall|k: Seq<char>| #[trigger] relocated_dirs(
                w.catalog.dirs,
                d,
                s,
            ).contains(k) == dirs.contains(k) by {
                if k != s && crate::text::begins(k, a) {
                    lemma_there_and_back(s, d, k);
                    assert(crate::vault::moves::target(d, a, k) != d);
                } else if crate::text::begins(k, b) {
                    if dirs.contains(k) {
                        assert(crate::vault::tree::has_children(v, d));
                    }
                }
            }
        }
        assert(crate::vault::with_tree(w, files, dirs) =~= v);
    }
}

/// Moving leaves finitely many files and directories.
proof fn lemma_finite_relocated(v: VaultView, s: Seq<char>, d: Seq<char>)
    requires
        v.catalog.files.dom().finite(),
        v.catalog.dirs.finite(),
    ensures
        relocated_files(v.catalog.files, s, d).dom().finite(),
        relocated_dirs(v.catalog.dirs, s, d).finite(),
{
    let a = crate::paths::inside(s);
    let b = crate::paths::inside(d);
    let there = |k: Seq<char>| crate::vault::moves::target(d, a, k);
    let fd = v.catalog.files.dom();
    let all = fd + fd.map(there);
    fd.lemma_map_finite(there);
    let rf = relocated_files(v.catalog.files, s, d).dom();
    assert forall|k: Seq<char>| rf.contains(k) implies all.contains(k) by {
        if crate::text::begins(k, b) {
            let from = source(s, d, k);
            lemma_source_goes_there(s, d, k);
            assert(fd.map(there).contains(there(from)));
        }
    }
    vstd::set_lib::lemma_len_subset(rf, all);
    let dd = v.catalog.dirs;
    let every = (dd + dd.map(there)).insert(d);
    dd.lemma_map_finite(there);
    let rd = relocated_dirs(dd, s, d);
    assert forall|k: Seq<char>| rd.contains(k) implies every.contains(k) by {
        if k != d && crate::text::begins(k, b) {
            let from = source(s, d, k);
            lemma_source_goes_there(s, d, k);
            assert(dd.map(there).contains(there(from)));
        }
    }
    vstd::set_lib::lemma_len_subset(rd, every);
}

proof fn lemma_source_goes_there(s: Seq<char>, d: Seq<char>, k: Seq<char>)
    requires
        crate::text::begins(k, crate::paths::inside(d)),
    ensures
        crate::vault::moves::target(d, crate::paths::inside(s), source(s, d, k)) == k,
{
    let a = crate::paths::inside(s);
    let b = crate::paths::inside(d);
    assert(source(s, d, k).skip(a.len() as int) =~= k.skip(b.len() as int));
    assert(k =~= k.take(b.len() as int) + k.skip(b.len() as int));
}

/// A move is refused exactly if the source is neither a file nor a directory: nothing has its
/// path, and no path begins with it and a slash. A move changes the tree alone.
pub proof fn move_needs_a_source(v: VaultView, src: Seq<char>, dst: Seq<char>)
    ensures
        ({
            let s = crate::paths::normal(src);
            let n = s.len() as int;
            let r = crate::vault::moves::renamed(v, src, dst);
            &&& r is None <==> !v.catalog.files.contains_key(s) && !v.catalog.dirs.contains(s) && (
            forall|k: Seq<char>| #[trigger]
                v.catalog.files.contains_key(k) ==> !(k.len() > n && k.take(n) == s && k[n]
                    == '/')) && (forall|k: Seq<char>| #[trigger]
                v.catalog.dirs.contains(k) ==> !(k.len() > n && k.take(n) == s && k[n] == '/'))
            &&& r matches Some(w) ==> {
                &&& w.catalog.blocks == v.catalog.blocks
                &&& w.catalog.snapshots == v.catalog.snapshots
                &&& w.catalog.quota == v.catalog.quota
                &&& w.enc == v.enc && w.next_append == v.next_append
                &&& w.chunk_size == v.chunk_size && w.zstd_level == v.zstd_level
            }
        }),
{
    let s = crate::paths::normal(src);
    let n = s.len() as int;
    assert forall|k: Seq<char>| #[trigger] v.catalog.files.contains_key(k) implies (k.len() > n
        && k.take(n) == s && k[n] == '/') == crate::text::begins(k, crate::paths::inside(s)) by {
        crate::vault::tree_laws::lemma_begins_inside(k, s);
    }
    assert forall|k: Seq<char>| #[trigger] v.catalog.dirs.contains(k) implies (k.len() > n
        && k.take(n) == s && k[n] == '/') == crate::text::begins(k, crate::paths::inside(s)) by {
        crate::vault::tree_laws::lemma_begins_inside(k, s);
    }
}

/// A file that is moved stands at its new path with all that is recorded of it, in the place of
/// what stood there, and no longer at the old one; every other path stays as it was.
pub proof fn moved_file_changes_place_alone(
    v: VaultView,
    src: Seq<char>,
    dst: Seq<char>,
    k: Seq<char>,
)
    requires
        v.catalog.files.contains_key(crate::paths::normal(src)),
    ensures
        ({
            let s = crate::paths::normal(src);
            let d = crate::paths::normal(dst);
            crate::vault::moves::renamed(v, src, dst) matches Some(w) && {
                &&& w.catalog.files.contains_key(d) && w.catalog.files[d] == v.catalog.files[s]
                &&& k != d ==> (w.catalog.files.contains_key(k) <==> k != s
                    && v.catalog.files.contains_key(k))
                &&& k != d && w.catalog.files.contains_key(k) ==> w.catalog.files[k]
                    == v.catalog.files[k]
                &&& w.catalog.dirs.contains(k) <==> v.catalog.dirs.contains(k) && k != d
            }
        }),
{
}

/// When a directory is moved, each path below it stands below the new place under the same rest,
/// with all that is recorded of it, and nothing is left at the old place; every path elsewhere
/// stays as it was. (No path that is to be moved stands where another one goes, as it may where
/// one of the two places is in the other.)
pub proof fn moved_directory_changes_place_alone(
    v: VaultView,
    src: Seq<char>,
    dst: Seq<char>,
    base: Seq<char>,
    slashes: Seq<char>,
    k: Seq<char>,
)
    requires
        v.catalog.files.dom().finite(),
        v.catalog.dirs.finite(),
        !v.catalog.files.contains_key(crate::paths::normal(src)),
        crate::vault::moves::renamed(v, src, dst) is Some,
        crate::paths::normal(dst) == base + slashes,
        base.len() > 0 ==> base.last() != '/',
        forall|i: int| 0 <= i < slashes.len() ==> slashes[i] == '/',
        ({
            let s = crate::paths::normal(src);
            let n = base.len() as int;
            let m = s.len() as int;
            &&& forall|x: Seq<char>| #[trigger]
                v.catalog.files.contains_key(x) && x.len() > m && x.take(m) == s && x[m] == '/'
                    && x.len() > n && x.take(n) == base && x[n] == '/'
                    ==> !v.catalog.files.contains_key(s + x.skip(n))
            &&& forall|x: Seq<char>| #[trigger]
                v.catalog.dirs.contains(x) && (x == s || (x.len() > m && x.take(m) == s && x[m]
                    == '/')) ==> !(x == base + slashes && v.catalog.dirs.contains(s)) && !(x.len()
                    > n && x.take(n) == base && x[n] == '/' && v.catalog.dirs.contains(
                    s + x.skip(n),
                ))
        }),
    ensures
        ({
            let s = crate::paths::normal(src);
            let d = base + slashes;
            let w = crate::vault::moves::renamed(v, src, dst)->0;
            let n = base.len() as int;
            let m = s.len() as int;
            let there = k.len() > n && k.take(n) == base && k[n] == '/';
            let here = k.len() > m && k.take(m) == s && k[m] == '/';
            let from = s + k.skip(n);
            &&& w.catalog.files.contains_key(k) <==> (there && v.catalog.files.contains_key(from))
                || (!here && v.catalog.files.contains_key(k))
            &&& there && v.catalog.files.contains_key(from) ==> w.catalog.files[k]
                == v.catalog.files[from]
            &&& !(there && v.catalog.files.contains_key(from)) && w.catalog.files.contains_key(k)
                ==> w.catalog.files[k] == v.catalog.files[k]
            &&& w.catalog.dirs.contains(k) <==> (k == d && v.catalog.dirs.contains(s)) || (there
                && v.catalog.dirs.contains(from)) || (k != s && !here && v.catalog.dirs.contains(
                k,
            ))
        }),
{
    let s = crate::paths::normal(src);
    let d = crate::paths::normal(dst);
    lemma_cut_slashes(d, base, slashes);
    crate::vault::tree_laws::lemma_begins_inside(k, s);
    crate::vault::tree_laws::lemma_begins_inside(k, base);
    assert forall|x: Seq<char>| #[trigger]
        v.catalog.files.contains_key(x) && crate::text::begins(x, crate::paths::inside(s))
            && crate::text::begins(
            x,
            crate::paths::inside(base),
        ) implies !v.catalog.files.contains_key(s + x.skip(base.len() as int)) by {
        crate::vault::tree_laws::lemma_begins_inside(x, s);
        crate::vault::tree_laws::lemma_begins_inside(x, base);
    }
    assert forall|x: Seq<char>| #[trigger]
        v.catalog.dirs.contains(x) && (x == s || crate::text::begins(
            x,
            crate::paths::inside(s),
        )) implies !(x == d && v.catalog.dirs.contains(s)) && !(crate::text::begins(
        x,
        crate::paths::inside(base),
    ) && v.catalog.dirs.contains(s + x.skip(base.len() as int))) by {
        crate::vault::tree_laws::lemma_begins_inside(x, s);
        crate::vault::tree_laws::lemma_begins_inside(x, base);
    }
    lemma_moved_files_raw(v.catalog.files, s, base, k);
    lemma_moved_dirs_raw(v.catalog.dirs, s, d, k);
}

proof fn lemma_cut_slashes(d: Seq<char>, base: Seq<char>, slashes: Seq<char>)
    requires
        d == base + slashes,
        base.len() > 0 ==> base.last() != '/',
        forall|i: int| 0 <= i < slashes.len() ==> slashes[i] == '/',
    ensures
        crate::vault::moves::base_of(d) == base,
{
    crate::text::trailing_run_is_cut(d, '/');
    let cut = crate::vault::moves::base_of(d);
    if cut.len() > base.len() {
        assert(cut.last() == d[cut.len() - 1]);
        assert(d[cut.len() - 1] == slashes[cut.len() - 1 - base.len()]);
    } else if cut.len() < base.len() {
        assert(d[base.len() - 1] == base.last());
    }
    assert(cut =~= base);
}

proof fn lemma_sources_agree(s: Seq<char>, base: Seq<char>, k: Seq<char>)
    requires
        crate::text::begins(k, crate::paths::inside(base)),
    ensures
        source(s, base, k) == s + k.skip(base.len() as int),
{
    let to = crate::paths::inside(base);
    crate::vault::tree_laws::lemma_begins_inside(k, base);
    assert(k.skip(base.len() as int) =~= seq!['/'] + k.skip(to.len() as int));
    assert(source(s, base, k) =~= s + k.skip(base.len() as int));
}

proof fn lemma_source_raw(s: Seq<char>, base: Seq<char>, k: Seq<char>)
    requires
        crate::text::begins(k, crate::paths::inside(base)),
    ensures
        ({
            let from = s + k.skip(base.len() as int);
            &&& crate::text::begins(from, crate::paths::inside(s))
            &&& crate::vault::moves::target(base, crate::paths::inside(s), from) == k
        }),
{
    let a = crate::paths::inside(s);
    let b = crate::paths::inside(base);
    let from = s + k.skip(base.len() as int);
    crate::vault::tree_laws::lemma_begins_inside(k, base);
    assert(from.take(a.len() as int) =~= a);
    assert(crate::vault::moves::target(base, a, from) =~= k) by {
        assert(from.skip(a.len() as int) =~= k.skip(b.len() as int));
        assert(k =~= k.take(b.len() as int) + k.skip(b.len() as int));
    }
}

proof fn lemma_moved_files_raw(
    files: Map<Seq<char>, crate::catalog::FileView>,
    s: Seq<char>,
    base: Seq<char>,
    k: Seq<char>,
)
    requires
        files.dom().finite(),
        forall|x: Seq<char>| #[trigger]
            files.contains_key(x) && crate::text::begins(x, crate::paths::inside(s))
                && crate::text::begins(x, crate::paths::inside(base)) ==> !files.contains_key(
                s + x.skip(base.len() as int),
            ),
    ensures
        ({
            let pre = crate::paths::inside(s);
            let m = crate::vault::moves::moved_files(
                files,
                crate::vault::tree::path_order(files.dom()).filter(
                    crate::vault::moves::picked(None, pre),
                ),
                pre,
                base,
            );
            let there = crate::text::begins(k, crate::paths::inside(base));
            let from = s + k.skip(base.len() as int);
            &&& m.contains_key(k) <==> (there && files.contains_key(from)) || (
            !crate::text::begins(k, pre) && files.contains_key(k))
            &&& there && files.contains_key(from) ==> m[k] == files[from]
            &&& !(there && files.contains_key(from)) && m.contains_key(k) ==> m[k] == files[k]
        }),
{
    let pre = crate::paths::inside(s);
    let to = crate::paths::inside(base);
    let order = crate::vault::tree::path_order(files.dom());
    let p = crate::vault::moves::picked(None, pre);
    crate::sorted::lemma_in_order_exists::<String>(files.dom());
    crate::vault::moves::lemma_filtered(order, p);
    let keys = order.filter(p);
    assert forall|i: int| 0 <= i < keys.len() implies files.contains_key(#[trigger] keys[i])
        && crate::text::begins(keys[i], pre) by {
        assert(keys.contains(keys[i]));
        assert(order.to_set().contains(keys[i]));
    }
    assert forall|i: int, j: int|
        #![trigger keys[i], keys[j]]
        0 <= i < keys.len() && 0 <= j < keys.len() implies crate::vault::moves::target(
        base,
        pre,
        keys[i],
    ) != keys[j] by {
        lemma_there_and_back(s, base, keys[i]);
        let t = crate::vault::moves::target(base, pre, keys[i]);
        if t == keys[j] {
            lemma_sources_agree(s, base, t);
            assert(files.contains_key(keys[i]) && files.contains_key(t));
        }
    }
    crate::vault::moves::lemma_moved_apart(files, keys, pre, base);
    let m = crate::vault::moves::moved_files(files, keys, pre, base);
    let there = crate::text::begins(k, to);
    let from = s + k.skip(base.len() as int);
    if there {
        lemma_source_raw(s, base, k);
    }
    if there && files.contains_key(from) {
        assert(order.to_set().contains(from));
        assert(order.contains(from));
        assert(keys.contains(from));
        let i = keys.index_of(from);
        assert(keys[i] == from);
        assert(m.contains_key(crate::vault::moves::target(base, pre, keys[i])));
    } else {
        assert forall|i: int| 0 <= i < keys.len() implies crate::vault::moves::target(
            base,
            pre,
            #[trigger] keys[i],
        ) != k by {
            lemma_there_and_back(s, base, keys[i]);
            if crate::vault::moves::target(base, pre, keys[i]) == k {
                assert(source(s, base, k) =~= from) by {
                    crate::vault::tree_laws::lemma_begins_inside(k, base);
                    assert(k.skip(base.len() as int) =~= seq!['/'] + k.skip(to.len() as int));
                }
            }
        }
        if keys.contains(k) {
            let i = keys.index_of(k);
            assert(keys[i] == k);
            assert(!m.contains_key(keys[i]));
        } else {
            assert(m.contains_key(k) == files.contains_key(k));
            if files.contains_key(k) && crate::text::begins(k, pre) {
                assert(order.to_set().contains(k));
                assert(order.contains(k));
            }
        }
    }
}

proof fn lemma_moved_dirs_raw(
    dirs: Set<Seq<char>>,
    s: Seq<char>,
    d: Seq<char>,
    k: Seq<char>,
)
    requires
        dirs.finite(),
        forall|x: Seq<char>| #[trigger]
            dirs.contains(x) && (x == s || crate::text::begins(x, crate::paths::inside(s))) ==> !(x
                == d && dirs.contains(s)) && !(crate::text::begins(
                x,
                crate::paths::inside(crate::vault::moves::base_of(d)),
            ) && dirs.contains(s + x.skip(crate::vault::moves::base_of(d).len() as int))),
    ensures
        ({
            let base = crate::vault::moves::base_of(d);
            let pre = crate::paths::inside(s);
            let m = crate::vault::moves::moved_dirs(
                dirs,
                crate::vault::tree::path_order(dirs).filter(
                    crate::vault::moves::picked(Some(s), pre),
                ),
                s,
                d,
            );
            let there = crate::text::begins(k, crate::paths::inside(base));
            let from = s + k.skip(base.len() as int);
            m.contains(k) <==> (k == d && dirs.contains(s)) || (there && dirs.contains(from)) || (k
                != s && !crate::text::begins(k, pre) && dirs.contains(k))
        }),
{
    let base = crate::vault::moves::base_of(d);
    let pre = crate::paths::inside(s);
    let to = crate::paths::inside(base);
    let order = crate::vault::tree::path_order(dirs);
    let p = crate::vault::moves::picked(Some(s), pre);
    crate::sorted::lemma_in_order_exists::<String>(dirs);
    crate::vault::moves::lemma_filtered(order, p);
    let keys = order.filter(p);
    assert forall|x: Seq<char>| #[trigger] keys.contains(x) <==> dirs.contains(x) && (x == s
        || crate::text::begins(x, pre)) by {
        assert(order.to_set().contains(x) == order.contains(x));
    }
    assert forall|i: int| 0 <= i < keys.len() implies dirs.contains(#[trigger] keys[i]) && (keys[i]
        == s || crate::text::begins(keys[i], pre)) by {
        assert(keys.contains(keys[i]));
    }
    assert forall|i: int, j: int|
        #![trigger keys[i], keys[j]]
        0 <= i < keys.len() && 0 <= j < keys.len() implies dir_target(s, d, keys[i])
        != keys[j] by {
        let t = dir_target(s, d, keys[i]);
        if keys[i] != s {
            lemma_there_and_back(s, base, keys[i]);
            if t == keys[j] {
                lemma_sources_agree(s, base, t);
                assert(dirs.contains(keys[i]) && dirs.contains(t));
            }
        } else {
            assert(dirs.contains(keys[j]));
        }
    }
    lemma_dirs_apart(dirs, keys, s, d);
    let m = crate::vault::moves::moved_dirs(dirs, keys, s, d);
    let there = crate::text::begins(k, to);
    let from = s + k.skip(base.len() as int);
    let moved = exists|i: int| 0 <= i < keys.len() && dir_target(s, d, #[trigger] keys[i]) == k;
    if moved {
        let i = choose|i: int| 0 <= i < keys.len() && dir_target(s, d, #[trigger] keys[i]) == k;
        if keys[i] != s {
            lemma_there_and_back(s, base, keys[i]);
            assert(source(s, base, k) =~= from) by {
                crate::vault::tree_laws::lemma_begins_inside(k, base);
                assert(k.skip(base.len() as int) =~= seq!['/'] + k.skip(to.len() as int));
            }
        }
    }
    if k == d && dirs.contains(s) {
        assert(keys.contains(s));
        assert(keys[keys.index_of(s)] == s);
        assert(moved);
    }
    if there && dirs.contains(from) {
        lemma_source_raw(s, base, k);
        assert(keys.contains(from));
        let i = keys.index_of(from);
        assert(keys[i] == from);
        assert(from != s);
        assert(dir_target(s, d, keys[i]) == k);
        assert(moved);
    }
}

/// A move touches its two places alone: a path that is at or below neither of them stays as it
/// was, wherever they lie.
pub proof fn moves_touch_their_places_alone(
    v: VaultView,
    src: Seq<char>,
    dst: Seq<char>,
    base: Seq<char>,
    slashes: Seq<char>,
    k: Seq<char>,
)
    requires
        v.catalog.files.dom().finite(),
        v.catalog.dirs.finite(),
        crate::vault::moves::renamed(v, src, dst) is Some,
        crate::paths::normal(dst) == base + slashes,
        base.len() > 0 ==> base.last() != '/',
        forall|i: int| 0 <= i < slashes.len() ==> slashes[i] == '/',
        ({
            let s = crate::paths::normal(src);
            let n = base.len() as int;
            let m = s.len() as int;
            &&& k != s && !(k.len() > m && k.take(m) == s && k[m] == '/')
            &&& k != base + slashes && !(k.len() > n && k.take(n) == base && k[n] == '/')
        }),
    ensures
        ({
            let w = crate::vault::moves::renamed(v, src, dst)->0;
            &&& w.catalog.files.contains_key(k) <==> v.catalog.files.contains_key(k)
            &&& v.catalog.files.contains_key(k) ==> w.catalog.files[k] == v.catalog.files[k]
            &&& w.catalog.dirs.contains(k) <==> v.catalog.dirs.contains(k)
        }),
{
    let s = crate::paths::normal(src);
    let d = crate::paths::normal(dst);
    let pre = crate::paths::inside(s);
    let files = v.catalog.files;
    let dirs = v.catalog.dirs;
    lemma_cut_slashes(d, base, slashes);
    crate::vault::tree_laws::lemma_begins_inside(k, s);
    crate::vault::tree_laws::lemma_begins_inside(k, base);
    if !files.contains_key(s) {
        let fo = crate::vault::tree::path_order(files.dom());
        let dk = crate::vault::tree::path_order(dirs);
        let p = crate::vault::moves::picked(None, pre);
        let q = crate::vault::moves::picked(Some(s), pre);
        crate::sorted::lemma_in_order_exists::<String>(files.dom());
        crate::sorted::lemma_in_order_exists::<String>(dirs);
        crate::vault::moves::lemma_filtered_members(fo, p);
        crate::vault::moves::lemma_filtered_members(dk, q);
        assert forall|i: int| 0 <= i < fo.filter(p).len() implies crate::text::begins(
            #[trigger] fo.filter(p)[i],
            pre,
        ) by {
            assert(fo.filter(p).contains(fo.filter(p)[i]));
        }
        assert forall|i: int| 0 <= i < dk.filter(q).len() implies dk.filter(q)[i] == s
            || crate::text::begins(#[trigger] dk.filter(q)[i], pre) by {
            assert(dk.filter(q).contains(dk.filter(q)[i]));
        }
        lemma_files_elsewhere(files, fo.filter(p), s, base, k);
        lemma_dirs_elsewhere(dirs, dk.filter(q), s, d, k);
    }
}

proof fn lemma_files_elsewhere(
    files: Map<Seq<char>, crate::catalog::FileView>,
    keys: Seq<Seq<char>>,
    s: Seq<char>,
    base: Seq<char>,
    k: Seq<char>,
)
    requires
        forall|i: int|
            0 <= i < keys.len() ==> crate::text::begins(
                #[trigger] keys[i],
                crate::paths::inside(s),
            ),
        !crate::text::begins(k, crate::paths::inside(s)),
        !crate::text::begins(k, crate::paths::inside(base)),
    ensures
        ({
            let m = crate::vault::moves::moved_files(files, keys, crate::paths::inside(s), base);
            m.contains_key(k) == files.contains_key(k) && m[k] == files[k]
        }),
    decreases keys.len(),
{
    if keys.len() > 0 {
        let front = keys.drop_last();
        assert forall|i: int| 0 <= i < front.len() implies crate::text::begins(
            #[trigger] front[i],
            crate::paths::inside(s),
        ) by {
            assert(front[i] == keys[i]);
        }
        lemma_files_elsewhere(files, front, s, base, k);
        assert(crate::text::begins(keys[keys.len() - 1], crate::paths::inside(s)));
        lemma_there_and_back(s, base, keys.last());
    }
}

proof fn lemma_dirs_elsewhere(
    dirs: Set<Seq<char>>,
    keys: Seq<Seq<char>>,
    s: Seq<char>,
    d: Seq<char>,
    k: Seq<char>,
)
    requires
        forall|i: int|
            0 <= i < keys.len() ==> keys[i] == s || crate::text::begins(
                #[trigger] keys[i],
                crate::paths::inside(s),
            ),
        k != s,
        k != d,
        !crate::text::begins(k, crate::paths::inside(s)),
        !crate::text::begins(k, crate::paths::inside(crate::vault::moves::base_of(d))),
    ensures
        crate::vault::moves::moved_dirs(dirs, keys, s, d).contains(k) == dirs.contains(k),
    decreases keys.len(),
{
    if keys.len() > 0 {
        let front = keys.drop_last();
        assert forall|i: int| 0 <= i < front.len() implies front[i] == s || crate::text::begins(
            #[trigger] front[i],
            crate::paths::inside(s),
        ) by {
            assert(front[i] == keys[i]);
        }
        lemma_dirs_elsewhere(dirs, front, s, d, k);
        let x = keys[keys.len() - 1];
        if x != s {
            assert(crate::text::begins(x, crate::paths::inside(s)));
            lemma_there_and_back(s, crate::vault::moves::base_of(d), x);
        }
    }
}

/// To move a file or a directory onto itself changes nothing.
pub proof fn moving_onto_itself_changes_nothing(v: VaultView, src: Seq<char>, dst: Seq<char>)
    requires
        v.catalog.files.dom().finite(),
        v.catalog.dirs.finite(),
        crate::paths::normal(src) == crate::paths::normal(dst),
        crate::paths::normal(src).last() != '/',
        v.catalog.files.contains_key(crate::paths::normal(src)) ==> !v.catalog.dirs.contains(
            crate::paths::normal(src),
        ),
        crate::vault::moves::renamed(v, src, dst) is Some,
    ensures
        crate::vault::moves::renamed(v, src, dst)->0 == v,
{
    let s = crate::paths::normal(src);
    let pre = crate::paths::inside(s);
    let files = v.catalog.files;
    let dirs = v.catalog.dirs;
    let none = Seq::<char>::empty();
    crate::paths::normal_shape(src);
    assert(s + none =~= s);
    lemma_cut_slashes(s, s, none);
    if files.contains_key(s) {
        assert(files.remove(s).insert(s, files[s]) =~= files);
        assert(dirs.remove(s) =~= dirs);
    } else {
        let fo = crate::vault::tree::path_order(files.dom());
        let dk = crate::vault::tree::path_order(dirs);
        let p = crate::vault::moves::picked(None, pre);
        let q = crate::vault::moves::picked(Some(s), pre);
        crate::sorted::lemma_in_order_exists::<String>(files.dom());
        crate::sorted::lemma_in_order_exists::<String>(dirs);
        crate::vault::moves::lemma_filtered_members(fo, p);
        crate::vault::moves::lemma_filtered_members(dk, q);
        assert forall|i: int| 0 <= i < fo.filter(p).len() implies files.contains_key(
            #[trigger] fo.filter(p)[i],
        ) && crate::text::begins(fo.filter(p)[i], pre) by {
            assert(fo.filter(p).contains(fo.filter(p)[i]));
            assert(fo.to_set().contains(fo.filter(p)[i]));
        }
        assert forall|i: int| 0 <= i < dk.filter(q).len() implies dirs.contains(
            #[trigger] dk.filter(q)[i],
        ) && (dk.filter(q)[i] == s || crate::text::begins(dk.filter(q)[i], pre)) by {
            assert(dk.filter(q).contains(dk.filter(q)[i]));
            assert(dk.to_set().contains(dk.filter(q)[i]));
        }
        lemma_files_onto_themselves(files, fo.filter(p), s);
        lemma_dirs_onto_themselves(dirs, dk.filter(q), s);
    }
}

proof fn lemma_onto_itself(s: Seq<char>, k: Seq<char>)
    requires
        crate::text::begins(k, crate::paths::inside(s)),
    ensures
        crate::vault::moves::target(s, crate::paths::inside(s), k) == k,
{
    let pre = crate::paths::inside(s);
    assert(k =~= k.take(pre.len() as int) + k.skip(pre.len() as int));
}

proof fn lemma_files_onto_themselves(
    files: Map<Seq<char>, crate::catalog::FileView>,
    keys: Seq<Seq<char>>,
    s: Seq<char>,
)
    requires
        forall|i: int|
            0 <= i < keys.len() ==> files.contains_key(#[trigger] keys[i]) && crate::text::begins(
                keys[i],
                crate::paths::inside(s),
            ),
    ensures
        crate::vault::moves::moved_files(files, keys, crate::paths::inside(s), s) == files,
    decreases keys.len(),
{
    if keys.len() > 0 {
        let front = keys.drop_last();
        assert forall|i: int| 0 <= i < front.len() implies files.contains_key(#[trigger] front[i])
            && crate::text::begins(front[i], crate::paths::inside(s)) by {
            assert(front[i] == keys[i]);
        }
        lemma_files_onto_themselves(files, front, s);
        let k = keys[keys.len() - 1];
        assert(files.contains_key(k));
        lemma_onto_itself(s, k);
        assert(files.remove(k).insert(k, files[k]) =~= files);
    }
}

proof fn lemma_dirs_onto_themselves(dirs: Set<Seq<char>>, keys: Seq<Seq<char>>, s: Seq<char>)
    requires
        crate::vault::moves::base_of(s) == s,
        forall|i: int|
            0 <= i < keys.len() ==> dirs.contains(#[trigger] keys[i]) && (keys[i] == s
                || crate::text::begins(keys[i], crate::paths::inside(s))),
    ensures
        crate::vault::moves::moved_dirs(dirs, keys, s, s) == dirs,
    decreases keys.len(),
{
    if keys.len() > 0 {
        let front = keys.drop_last();
        assert forall|i: int| 0 <= i < front.len() implies dirs.contains(#[trigger] front[i]) && (
        front[i] == s || crate::text::begins(front[i], crate::paths::inside(s))) by {
            assert(front[i] == keys[i]);
        }
        lemma_dirs_onto_themselves(dirs, front, s);
        let k = keys[keys.len() - 1];
        assert(dirs.contains(k));
        if k != s {
            lemma_onto_itself(s, k);
        }
        assert(dirs.remove(k).insert(k) =~= dirs);
    }
}

} // verus!
