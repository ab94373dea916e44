//! What a listing holds, in terms of the paths of the tree.

use vstd::prelude::*;

use crate::vault::list::EntryView;
use crate::vault::VaultView;

verus! {

proof fn lemma_first_slash(s: Seq<char>)
    ensures
        0 <= crate::vault::list::first_slash(s) <= s.len(),
        forall|i: int| 0 <= i < crate::vault::list::first_slash(s) ==> s[i] != '/',
        crate::vault::list::first_slash(s) < s.len() ==> s[crate::vault::list::first_slash(s)]
            == '/',
    decreases s.len(),
{
    if s.len() > 0 && s[0] != '/' {
        let t = s.drop_first();
        lemma_first_slash(t);
        assert forall|i: int| 0 <= i < crate::vault::list::first_slash(s) implies s[i] != '/' by {
            if i > 0 {
                assert(s[i] == t[i - 1]);
            }
        }
    }
}

/// A path stands below a child exactly if it begins with the child's path and a slash.
proof fn lemma_in_child(k: Seq<char>, pre: Seq<char>, name: Seq<char>)
    ensures
        crate::vault::list::in_child(k, pre, name) <==> !name.contains('/') && k.len() > (pre
            + name).len() && k.take((pre + name).len() as int) == pre + name && k[(pre
            + name).len() as int] == '/',
{
    let n = pre.len() as int;
    let m = (pre + name).len() as int;
    let t = crate::vault::list::tail(k, pre);
    let i = crate::vault::list::first_slash(t);
    lemma_first_slash(t);
    if crate::vault::list::in_child(k, pre, name) {
        assert(k.take(n) == pre);
        assert(t.take(i) == name);
        assert(name.len() == i);
        assert forall|j: int| 0 <= j < name.len() implies name[j] != '/' by {
            assert(name[j] == t[j]);
        }
        assert(k[m] == t[i]);
        assert(k.take(m) =~= pre + name) by {
            assert forall|j: int| 0 <= j < m implies k[j] == #[trigger] (pre + name)[j] by {
                if j < n {
                    assert(k.take(n)[j] == pre[j]);
                } else {
                    assert(t.take(i)[j - n] == name[j - n]);
                }
            }
        }
    }
    if !name.contains('/') && k.len() > m && k.take(m) == pre + name && k[m] == '/' {
        let c = pre + name;
        assert forall|j: int| 0 <= j < name.len() implies t[j] == name[j] && t[j] != '/' by {
            assert(k.take(m)[n + j] == c[n + j]);
            assert(name.contains(name[j]));
        }
        assert(t[name.len() as int] == '/');
        if i < name.len() {
            assert(t[i] != '/');
        }
        if i > name.len() {
            assert(t[name.len() as int] != '/');
        }
        assert(t.take(i) =~= name);
        assert(k.take(n) =~= pre) by {
            assert forall|j: int| 0 <= j < n implies k[j] == #[trigger] pre[j] by {
                assert(k.take(m)[j] == c[j]);
            }
        }
    }
}

/// A path is that of a child exactly if it is the directory's with a name behind it.
proof fn lemma_is_child(pre: Seq<char>, name: Seq<char>)
    ensures
        crate::vault::list::is_child(pre + name, pre) <==> name.len() > 0 && !name.contains('/'),
{
    let k = pre + name;
    let t = crate::vault::list::tail(k, pre);
    assert(t =~= name);
    assert(k.take(pre.len() as int) =~= pre);
    lemma_first_slash(name);
    if crate::vault::list::first_slash(name) < name.len() {
        assert(name.contains(name[crate::vault::list::first_slash(name)]));
    } else if name.contains('/') {
        assert(name[name.index_of('/')] == '/');
    }
}

proof fn lemma_at_child(k: Seq<char>, pre: Seq<char>, name: Seq<char>)
    ensures
        crate::vault::list::at_child(k, pre, name) <==> crate::vault::list::in_child(k, pre, name)
            || (k == pre + name && name.len() > 0 && !name.contains('/')),
{
    let t = crate::vault::list::tail(k, pre);
    let i = crate::vault::list::first_slash(t);
    lemma_first_slash(t);
    lemma_is_child(pre, name);
    if crate::vault::list::at_child(k, pre, name) && i == t.len() {
        assert(t.take(i) =~= t);
        assert(k =~= pre + name) by {
            assert(k.take(pre.len() as int) == pre);
            assert(k =~= k.take(pre.len() as int) + t);
        }
    }
    if k == pre + name && name.len() > 0 && !name.contains('/') {
        assert(t =~= name);
        assert(t.take(i) =~= name);
    }
}

/// The directory whose children are listed stands in front of their names with one slash.
pub proof fn listed_prefix_ends_in_a_slash(p: Seq<char>)
    ensures
        p == seq!['/'] ==> crate::vault::list::list_prefix(p) == p,
        p != seq!['/'] ==> crate::vault::list::list_prefix(p) == p + seq!['/'],
{
    assert(p.push('/') =~= p + seq!['/']);
}

/// A listing tells each file right in the directory, by its name, size and time, once; it tells
/// no other file.
pub proof fn listing_tells_the_files_of_a_directory(
    v: VaultView,
    pre: Seq<char>,
    es: Seq<EntryView>,
    name: Seq<char>,
    size: u64,
    mtime: i64,
)
    requires
        crate::vault::list::is_listing(v, pre, es),
    ensures
        es.contains(EntryView { name, is_dir: false, size, mtime }) <==> name.len() > 0
            && !name.contains('/') && v.catalog.files.contains_key(pre + name)
            && v.catalog.files[pre + name].size == size && v.catalog.files[pre + name].mtime
            == mtime,
{
    let e = EntryView { name, is_dir: false, size, mtime };
    lemma_is_child(pre, name);
    if es.contains(e) {
        let i = es.index_of(e);
        assert(crate::vault::list::is_entry(v, pre, es[i]));
    }
    if crate::vault::list::lists_file(v, pre, name) && v.catalog.files[pre + name].size == size
        && v.catalog.files[pre + name].mtime == mtime {
        let i = choose|i: int|
            0 <= i < es.len() && (#[trigger] es[i]).name == name && !es[i].is_dir;
        assert(crate::vault::list::is_entry(v, pre, es[i]));
        assert(es[i] == e);
    }
}

/// A listing tells a directory of a name exactly if one is recorded under it, or a file or a
/// directory stands below it.
pub proof fn listing_tells_the_directories_of_a_directory(
    v: VaultView,
    pre: Seq<char>,
    es: Seq<EntryView>,
    name: Seq<char>,
)
    requires
        crate::vault::list::is_listing(v, pre, es),
    ensures
        ({
            let c = pre + name;
            let n = c.len() as int;
            let below = (exists|k: Seq<char>| #[trigger]
                v.catalog.files.contains_key(k) && k.len() > n && k.take(n) == c && k[n] == '/')
                || (exists|k: Seq<char>| #[trigger]
                v.catalog.dirs.contains(k) && k.len() > n && k.take(n) == c && k[n] == '/');
            (exists|i: int| 0 <= i < es.len() && (#[trigger] es[i]).name == name && es[i].is_dir)
                <==> !name.contains('/') && (below || (name.len() > 0 && v.catalog.dirs.contains(
                c,
            )))
        }),
{
    let c = pre + name;
    let n = c.len() as int;
    assert forall|k: Seq<char>| #[trigger] v.catalog.files.contains_key(k) implies (
    crate::vault::list::in_child(k, pre, name) == (!name.contains('/') && k.len() > n && k.take(n)
        == c && k[n] == '/')) by {
        lemma_in_child(k, pre, name);
    }
    assert forall|k: Seq<char>| #[trigger] v.catalog.dirs.contains(k) implies (
    crate::vault::list::at_child(k, pre, name) == (!name.contains('/') && ((k.len() > n && k.take(n)
        == c && k[n] == '/') || (k == c && name.len() > 0)))) by {
        lemma_in_child(k, pre, name);
        lemma_at_child(k, pre, name);
    }
    if exists|i: int| 0 <= i < es.len() && (#[trigger] es[i]).name == name && es[i].is_dir {
        let i = choose|i: int|
            0 <= i < es.len() && (#[trigger] es[i]).name == name && es[i].is_dir;
        assert(crate::vault::list::is_entry(v, pre, es[i]));
        assert(crate::vault::list::lists_dir(v, pre, name));
    } else {
        assert(!crate::vault::list::lists_dir(v, pre, name));
        if v.catalog.dirs.contains(c) {
            assert(crate::vault::list::at_child(c, pre, name) == (!name.contains('/') && ((
            c.len() > n && c.take(n) == c && c[n] == '/') || (c == c && name.len() > 0))));
        }
    }
}

/// The names of a listing stand in order; a file stands in front of a directory of its name.
pub proof fn listing_is_in_order(v: VaultView, pre: Seq<char>, es: Seq<EntryView>, i: int, j: int)
    requires
        crate::vault::list::is_listing(v, pre, es),
        0 <= i < j < es.len(),
    ensures
        <String as crate::order::SortKey>::key_before(es[i].name, es[j].name) || (es[i].name
            == es[j].name && !es[i].is_dir && es[j].is_dir),
{
    assert(crate::vault::list::entry_before(es[i], es[j]));
}

spec fn below_weight(
    files: Map<Seq<char>, crate::catalog::FileView>,
    pre: Seq<char>,
    name: Seq<char>,
) -> spec_fn(Seq<char>) -> nat {
    |k: Seq<char>|
        if crate::vault::list::in_child(k, pre, name) {
            files[k].size as nat
        } else {
            0
        }
}

proof fn lemma_sizes_summed(
    files: Map<Seq<char>, crate::catalog::FileView>,
    keys: Seq<Seq<char>>,
    pre: Seq<char>,
    name: Seq<char>,
)
    ensures
        crate::vault::list::sizes_in(files, keys, pre, name) == crate::sums::sum_over(
            keys,
            below_weight(files, pre, name),
        ),
    decreases keys.len(),
{
    if keys.len() > 0 {
        lemma_sizes_summed(files, keys.drop_last(), pre, name);
    }
}

proof fn lemma_nothing_below(
    files: Map<Seq<char>, crate::catalog::FileView>,
    keys: Seq<Seq<char>>,
    pre: Seq<char>,
    name: Seq<char>,
)
    requires
        forall|i: int|
            0 <= i < keys.len() ==> !crate::vault::list::in_child(#[trigger] keys[i], pre, name),
    ensures
        crate::vault::list::sizes_in(files, keys, pre, name) == 0,
        crate::vault::list::latest_in(files, keys, pre, name) == 0,
    decreases keys.len(),
{
    if keys.len() > 0 {
        lemma_nothing_below(files, keys.drop_last(), pre, name);
        assert(!crate::vault::list::in_child(keys[keys.len() - 1], pre, name));
    }
}

/// The size of a directory in a listing is that of all files below it together: with one file
/// more below it, it is larger by that file's size, as far as a size can tell; a file elsewhere
/// makes no difference; and with no file below it, it is nothing.
pub proof fn listed_size_adds_up(
    v: VaultView,
    w: VaultView,
    pre: Seq<char>,
    e: EntryView,
    e2: EntryView,
    p: Seq<char>,
    f: crate::catalog::FileView,
)
    requires
        v.catalog.files.dom().finite(),
        crate::vault::list::is_entry(v, pre, e),
        crate::vault::list::is_entry(w, pre, e2),
        e.is_dir && e2.is_dir && e.name == e2.name,
        w.catalog.files == v.catalog.files.insert(p, f),
        !v.catalog.files.contains_key(p),
    ensures
        ({
            let c = pre + e.name;
            let n = c.len() as int;
            let below = p.len() > n && p.take(n) == c && p[n] == '/';
            &&& below && e.size + f.size <= u64::MAX ==> e2.size == e.size + f.size
            &&& below && e.size + f.size > u64::MAX ==> e2.size == u64::MAX
            &&& !below ==> e2.size == e.size
            &&& (forall|k: Seq<char>| #[trigger]
                v.catalog.files.contains_key(k) ==> !(k.len() > n && k.take(n) == c && k[n]
                    == '/')) ==> e.size == 0
        }),
{
    let name = e.name;
    let files = v.catalog.files;
    let more = w.catalog.files;
    let a = crate::vault::tree::path_order(files.dom());
    let b = crate::vault::tree::path_order(more.dom());
    crate::sorted::lemma_in_order_exists::<String>(files.dom());
    crate::sorted::lemma_in_order_exists::<String>(more.dom());
    lemma_sizes_summed(files, a, pre, name);
    lemma_sizes_summed(more, b, pre, name);
    lemma_in_child(p, pre, name);
    lemma_listed_name(v, pre, e);
    let x = below_weight(files, pre, name);
    let y = below_weight(more, pre, name);
    assert(a.to_set().contains(p) == a.contains(p));
    assert(b.to_set() =~= a.to_set().insert(p));
    crate::sums::lemma_sum_with_one(a, b, p, y);
    assert forall|i: int| 0 <= i < a.len() implies x(#[trigger] a[i]) == y(a[i]) by {
        assert(a.contains(a[i]));
    }
    crate::sums::lemma_sum_same(a, x, y);
    let c = pre + name;
    let n = c.len() as int;
    if forall|k: Seq<char>| #[trigger]
        files.contains_key(k) ==> !(k.len() > n && k.take(n) == c && k[n] == '/') {
        assert forall|i: int| 0 <= i < a.len() implies !crate::vault::list::in_child(
            #[trigger] a[i],
            pre,
            name,
        ) by {
            assert(a.to_set().contains(a[i]));
            assert(files.contains_key(a[i]));
            lemma_in_child(a[i], pre, name);
        }
        lemma_nothing_below(files, a, pre, name);
    }
}

proof fn lemma_listed_name(v: VaultView, pre: Seq<char>, e: EntryView)
    requires
        crate::vault::list::is_entry(v, pre, e),
    ensures
        !e.name.contains('/'),
{
    if e.is_dir {
        if exists|k: Seq<char>| #[trigger]
            v.catalog.files.contains_key(k) && crate::vault::list::in_child(k, pre, e.name) {
            let k = choose|k: Seq<char>| #[trigger]
                v.catalog.files.contains_key(k) && crate::vault::list::in_child(k, pre, e.name);
            lemma_in_child(k, pre, e.name);
        } else {
            let k = choose|k: Seq<char>| #[trigger]
                v.catalog.dirs.contains(k) && crate::vault::list::at_child(k, pre, e.name);
            lemma_in_child(k, pre, e.name);
            lemma_at_child(k, pre, e.name);
        }
    } else {
        lemma_is_child(pre, e.name);
    }
}

proof fn lemma_latest(
    files: Map<Seq<char>, crate::catalog::FileView>,
    keys: Seq<Seq<char>>,
    pre: Seq<char>,
    name: Seq<char>,
)
    ensures
        ({
            let t = crate::vault::list::latest_in(files, keys, pre, name);
            &&& t >= 0
            &&& forall|i: int|
                0 <= i < keys.len() && crate::vault::list::in_child(#[trigger] keys[i], pre, name)
                    ==> files[keys[i]].mtime <= t
            &&& t > 0 ==> exists|i: int|
                0 <= i < keys.len() && crate::vault::list::in_child(#[trigger] keys[i], pre, name)
                    && files[keys[i]].mtime == t
        }),
    decreases keys.len(),
{
    if keys.len() > 0 {
        let front = keys.drop_last();
        lemma_latest(files, front, pre, name);
        let t = crate::vault::list::latest_in(files, keys, pre, name);
        let u = crate::vault::list::latest_in(files, front, pre, name);
        assert forall|i: int|
            0 <= i < keys.len() && crate::vault::list::in_child(
                #[trigger] keys[i],
                pre,
                name,
            ) implies files[keys[i]].mtime <= t by {
            if i < front.len() {
                assert(front[i] == keys[i]);
            }
        }
        if t > 0 {
            if t == u {
                let i = choose|i: int|
                    0 <= i < front.len() && crate::vault::list::in_child(
                        #[trigger] front[i],
                        pre,
                        name,
                    ) && files[front[i]].mtime == u;
                assert(keys[i] == front[i]);
            } else {
                assert(crate::vault::list::in_child(keys[keys.len() - 1], pre, name));
            }
        }
    }
}

/// The time of a directory in a listing is the latest of the files below it, if that is after
/// the epoch.
pub proof fn listed_time_is_the_latest(v: VaultView, pre: Seq<char>, e: EntryView)
    requires
        v.catalog.files.dom().finite(),
        crate::vault::list::is_entry(v, pre, e),
        e.is_dir,
    ensures
        ({
            let c = pre + e.name;
            let n = c.len() as int;
            &&& e.mtime >= 0
            &&& forall|k: Seq<char>| #[trigger]
                v.catalog.files.contains_key(k) && k.len() > n && k.take(n) == c && k[n] == '/'
                    ==> v.catalog.files[k].mtime <= e.mtime
            &&& e.mtime > 0 ==> exists|k: Seq<char>| #[trigger]
                v.catalog.files.contains_key(k) && k.len() > n && k.take(n) == c && k[n] == '/'
                    && v.catalog.files[k].mtime == e.mtime
        }),
{
    let files = v.catalog.files;
    let name = e.name;
    let c = pre + name;
    let n = c.len() as int;
    let keys = crate::vault::tree::path_order(files.dom());
    crate::sorted::lemma_in_order_exists::<String>(files.dom());
    lemma_latest(files, keys, pre, name);
    lemma_listed_name(v, pre, e);
    assert forall|k: Seq<char>| #[trigger]
        files.contains_key(k) && k.len() > n && k.take(n) == c && k[n]
            == '/' implies files[k].mtime <= e.mtime by {
        lemma_in_child(k, pre, name);
        assert(keys.to_set().contains(k));
        assert(keys.contains(k));
        let i = keys.index_of(k);
        assert(crate::vault::list::in_child(keys[i], pre, name));
    }
    if e.mtime > 0 {
        let i = choose|i: int|
            0 <= i < keys.len() && crate::vault::list::in_child(#[trigger] keys[i], pre, name)
                && files[keys[i]].mtime == e.mtime;
        let k = keys[i];
        lemma_in_child(k, pre, name);
        assert(keys.to_set().contains(k));
        assert(files.contains_key(k));
    }
}

/// The entries of a listing are told one by one, each with its name, kind, size and time.
pub proof fn entries_are_told_one_by_one(es: Seq<crate::vault::list::DirEntry>, i: int)
    requires
        0 <= i < es.len(),
    ensures
        crate::vault::list::entry_views(es).len() == es.len(),
        crate::vault::list::entry_views(es)[i].name == es[i].name@,
        crate::vault::list::entry_views(es)[i].is_dir == es[i].is_dir,
        crate::vault::list::entry_views(es)[i].size == es[i].size,
        crate::vault::list::entry_views(es)[i].mtime == es[i].mtime,
{
}

} // verus!
