//! Listing a directory.

use crate::order::SortKey;
use crate::paths::{is_root, normalize_path, with_slash};
use crate::sorted::SortedMap;
use crate::text::{chars_of, find_char, starts_with, string_of};
use crate::vault::{Vault, VaultView};
use vstd::prelude::*;

verus! {

/// A child of a directory.
#[derive(Debug)]
pub struct DirEntry {
    pub name: String,
    pub is_dir: bool,
    pub size: u64,
    pub mtime: i64,
}

/// A child as a value.
#[verifier::ext_equal]
pub struct EntryView {
    pub name: Seq<char>,
    pub is_dir: bool,
    pub size: u64,
    pub mtime: i64,
}

impl View for DirEntry {
    type V = EntryView;

    open spec fn view(&self) -> EntryView {
        EntryView {
            name: self.name@,
            is_dir: self.is_dir,
            size: self.size,
            mtime: self.mtime,
        }
    }
}

/// The size and the time of a child.
#[derive(Clone, Copy, Debug, PartialEq, Eq, Structural)]
pub struct Meta {
    pub size: u64,
    pub mtime: i64,
}

impl View for Meta {
    type V = Meta;

    open spec fn view(&self) -> Meta {
        *self
    }
}

/// What the paths inside the directory `p` start with; for the root that is the root itself.
pub open spec fn list_prefix(p: Seq<char>) -> Seq<char> {
    if p == crate::paths::root() {
        p
    } else {
        crate::paths::inside(p)
    }
}

/// Where the first slash of `s` stands, or its end.
pub open spec fn first_slash(s: Seq<char>) -> int
    decreases s.len(),
{
    if s.len() == 0 || s[0] == '/' {
        0
    } else {
        1 + first_slash(s.drop_first())
    }
}

/// `k` stands inside the directory with this prefix.
pub open spec fn stands_inside(k: Seq<char>, pre: Seq<char>) -> bool {
    crate::text::begins(k, pre) && k.len() > pre.len()
}

/// The part of `k` behind the prefix.
pub open spec fn tail(k: Seq<char>, pre: Seq<char>) -> Seq<char> {
    k.skip(pre.len() as int)
}

/// The child of the directory that `k` is or stands in.
pub open spec fn child_name(k: Seq<char>, pre: Seq<char>) -> Seq<char> {
    tail(k, pre).take(first_slash(tail(k, pre)))
}

/// `k` is itself a child of the directory.
pub open spec fn is_child(k: Seq<char>, pre: Seq<char>) -> bool {
    stands_inside(k, pre) && first_slash(tail(k, pre)) == tail(k, pre).len()
}

/// `k` stands in the child `name` of the directory.
pub open spec fn in_child(k: Seq<char>, pre: Seq<char>, name: Seq<char>) -> bool {
    stands_inside(k, pre) && first_slash(tail(k, pre)) < tail(k, pre).len() && child_name(k, pre)
        == name
}

/// `k` is the child `name` of the directory or stands in it.
pub open spec fn at_child(k: Seq<char>, pre: Seq<char>, name: Seq<char>) -> bool {
    stands_inside(k, pre) && child_name(k, pre) == name
}

/// The sizes of the files of `keys` in the child `name`, together.
pub open spec fn sizes_in(
    files: Map<Seq<char>, crate::catalog::FileView>,
    keys: Seq<Seq<char>>,
    pre: Seq<char>,
    name: Seq<char>,
) -> nat
    decreases keys.len(),
{
    if keys.len() == 0 {
        0
    } else {
        let k = keys.last();
        sizes_in(files, keys.drop_last(), pre, name) + if in_child(k, pre, name) {
            files[k].size as nat
        } else {
            0
        }
    }
}

/// The latest time of the files of `keys` in the child `name`, but not before 0.
pub open spec fn latest_in(
    files: Map<Seq<char>, crate::catalog::FileView>,
    keys: Seq<Seq<char>>,
    pre: Seq<char>,
    name: Seq<char>,
) -> i64
    decreases keys.len(),
{
    if keys.len() == 0 {
        0
    } else {
        let k = keys.last();
        let t = latest_in(files, keys.drop_last(), pre, name);
        if in_child(k, pre, name) && files[k].mtime > t {
            files[k].mtime
        } else {
            t
        }
    }
}

/// `n`, or the largest number that fits.
pub open spec fn capped(n: nat) -> u64 {
    if n <= u64::MAX {
        n as u64
    } else {
        u64::MAX
    }
}

/// The size and the time of the directory `name`: those of all the files in it.
pub open spec fn dir_meta(
    files: Map<Seq<char>, crate::catalog::FileView>,
    keys: Seq<Seq<char>>,
    pre: Seq<char>,
    name: Seq<char>,
) -> Meta {
    Meta {
        size: capped(sizes_in(files, keys, pre, name)),
        mtime: latest_in(files, keys, pre, name),
    }
}

/// There is a file `name` in the directory.
pub open spec fn lists_file(v: VaultView, pre: Seq<char>, name: Seq<char>) -> bool {
    is_child(pre + name, pre) && v.catalog.files.contains_key(pre + name)
}

/// There is a directory `name` in the directory: an explicit one, or one that a path implies.
pub open spec fn lists_dir(v: VaultView, pre: Seq<char>, name: Seq<char>) -> bool {
    ||| exists|k: Seq<char>| #[trigger] v.catalog.files.contains_key(k) && in_child(k, pre, name)
    ||| exists|k: Seq<char>| #[trigger] v.catalog.dirs.contains(k) && at_child(k, pre, name)
}

/// `e` is a child of the directory with the right size and time.
pub open spec fn is_entry(v: VaultView, pre: Seq<char>, e: EntryView) -> bool {
    let files = v.catalog.files;
    if e.is_dir {
        &&& lists_dir(v, pre, e.name)
        &&& Meta { size: e.size, mtime: e.mtime } == dir_meta(
            files,
            crate::vault::tree::path_order(files.dom()),
            pre,
            e.name,
        )
    } else {
        &&& lists_file(v, pre, e.name)
        &&& e.size == files[pre + e.name].size
        &&& e.mtime == files[pre + e.name].mtime
    }
}

/// By name, and of one name the file first.
pub open spec fn entry_before(a: EntryView, b: EntryView) -> bool {
    <String as SortKey>::key_before(a.name, b.name) || (a.name == b.name && !a.is_dir && b.is_dir)
}

/// The children of the directory, each once and in order.
pub open spec fn is_listing(v: VaultView, pre: Seq<char>, es: Seq<EntryView>) -> bool {
    &&& forall|i: int| 0 <= i < es.len() ==> is_entry(v, pre, #[trigger] es[i])
    &&& forall|i: int, j: int|
        #![trigger es[i], es[j]]
        0 <= i < j < es.len() ==> entry_before(es[i], es[j])
    &&& forall|name: Seq<char>| #[trigger]
        lists_file(v, pre, name) ==> exists|i: int|
            0 <= i < es.len() && (#[trigger] es[i]).name == name && !es[i].is_dir
    &&& forall|name: Seq<char>| #[trigger]
        lists_dir(v, pre, name) ==> exists|i: int|
            0 <= i < es.len() && (#[trigger] es[i]).name == name && es[i].is_dir
}

/// The views of the entries.
pub open spec fn entry_views(es: Seq<DirEntry>) -> Seq<EntryView> {
    Seq::new(es.len(), |i: int| es[i]@)
}

proof fn lemma_first_slash(s: Seq<char>, i: int)
    requires
        0 <= i <= s.len(),
        forall|j: int| 0 <= j < i ==> s[j] != '/',
        i < s.len() ==> s[i] == '/',
    ensures
        first_slash(s) == i,
    decreases s.len(),
{
    if i > 0 {
        assert(s[0] != '/');
        assert forall|j: int| 0 <= j < i - 1 implies s.drop_first()[j] != '/' by {
            assert(s[j + 1] != '/');
        }
        lemma_first_slash(s.drop_first(), i - 1);
    }
}

/// How a path stands to a directory.
enum Place {
    Outside,
    Child(String),
    Below(String),
}

/// Whether `k` is a child of the directory, stands in a child, or neither.
fn place_in(k: &String, pre: &Vec<char>) -> (r: Place)
    ensures
        match r {
            Place::Outside => !stands_inside(k@, pre@),
            Place::Child(name) => is_child(k@, pre@) && k@ == pre@ + name@ && child_name(k@, pre@)
                == name@,
            Place::Below(name) => in_child(k@, pre@, name@),
        },
{
    let cs = chars_of(k.as_str());
    let n: usize = pre.len();
    if !starts_with(&cs, pre) || cs.len() == n {
        return Place::Outside;
    }
    let ghost t = tail(k@, pre@);
    match find_char(&cs, n, '/') {
        None => {
            let name = string_of(&cs, n, cs.len());
            proof {
                assert forall|j: int| 0 <= j < t.len() implies t[j] != '/' by {
                    assert(cs@[n + j] != '/');
                }
                lemma_first_slash(t, t.len() as int);
                assert(name@ =~= t);
                assert(t.take(t.len() as int) =~= t);
                assert(k@ =~= k@.take(n as int) + t);
            }
            Place::Child(name)
        },
        Some(i) => {
            let name = string_of(&cs, n, i);
            proof {
                assert forall|j: int| 0 <= j < i - n implies t[j] != '/' by {
                    assert(cs@[n + j] != '/');
                }
                lemma_first_slash(t, i - n);
                assert(name@ =~= t.take(i - n));
            }
            Place::Below(name)
        },
    }
}

/// The files of the directory and its subdirectories, of the first `n` files and the first `m`
/// explicit directories.
spec fn gathered(
    v: VaultView,
    fk: Seq<Seq<char>>,
    dk: Seq<Seq<char>>,
    pre: Seq<char>,
    n: int,
    m: int,
    here: Map<Seq<char>, Meta>,
    subs: Map<Seq<char>, Meta>,
) -> bool {
    let files = v.catalog.files;
    &&& forall|name: Seq<char>| #[trigger]
        here.contains_key(name) <==> exists|j: int|
            0 <= j < n && is_child(#[trigger] fk[j], pre) && fk[j] == pre + name
    &&& forall|name: Seq<char>| #[trigger]
        here.contains_key(name) ==> here[name].size == files[pre + name].size && here[name].mtime
            == files[pre + name].mtime
    &&& forall|name: Seq<char>| #[trigger]
        subs.contains_key(name) <==> (exists|j: int|
            0 <= j < n && in_child(#[trigger] fk[j], pre, name)) || (exists|j: int|
            0 <= j < m && at_child(#[trigger] dk[j], pre, name))
    &&& forall|name: Seq<char>| #[trigger]
        subs.contains_key(name) ==> subs[name] == dir_meta(files, fk.take(n), pre, name)
}

/// Nothing in a child, no size and no time.
proof fn lemma_no_files(
    files: Map<Seq<char>, crate::catalog::FileView>,
    keys: Seq<Seq<char>>,
    pre: Seq<char>,
    name: Seq<char>,
)
    requires
        forall|j: int| 0 <= j < keys.len() ==> !in_child(#[trigger] keys[j], pre, name),
    ensures
        dir_meta(files, keys, pre, name) == (Meta { size: 0, mtime: 0 }),
    decreases keys.len(),
{
    if keys.len() > 0 {
        assert(!in_child(keys[keys.len() - 1], pre, name));
        assert forall|j: int| 0 <= j < keys.drop_last().len() implies !in_child(
            #[trigger] keys.drop_last()[j],
            pre,
            name,
        ) by {
            assert(!in_child(keys[j], pre, name));
        }
        lemma_no_files(files, keys.drop_last(), pre, name);
    }
}

/// How one more file changes the size and the time of a directory.
proof fn lemma_one_more(
    files: Map<Seq<char>, crate::catalog::FileView>,
    keys: Seq<Seq<char>>,
    n: int,
    pre: Seq<char>,
    name: Seq<char>,
)
    requires
        0 <= n < keys.len(),
    ensures
        ({
            let old_meta = dir_meta(files, keys.take(n), pre, name);
            let k = keys[n];
            dir_meta(files, keys.take(n + 1), pre, name) == if in_child(k, pre, name) {
                Meta {
                    size: capped(old_meta.size as nat + files[k].size as nat),
                    mtime: if files[k].mtime > old_meta.mtime {
                        files[k].mtime
                    } else {
                        old_meta.mtime
                    },
                }
            } else {
                old_meta
            }
        }),
{
    assert(keys.take(n + 1).drop_last() =~= keys.take(n));
    assert(keys.take(n + 1).last() == keys[n]);
}

impl Vault {
    /// The files and the subdirectories of the directory with this prefix.
    #[verifier::rlimit(40)]
    fn gather(&self, pre: &Vec<char>) -> (r: (SortedMap<String, Meta>, SortedMap<String, Meta>))
        requires
            self.wf(),
        ensures
            r.0.wf(),
            r.1.wf(),
            gathered(
                self@,
                crate::vault::tree::path_order(self@.catalog.files.dom()),
                crate::vault::tree::path_order(self@.catalog.dirs),
                pre@,
                self@.catalog.files.dom().len() as int,
                self@.catalog.dirs.len() as int,
                r.0@,
                r.1@,
            ),
            crate::vault::tree::path_order(self@.catalog.files.dom()).to_set()
                == self@.catalog.files.dom(),
            crate::vault::tree::path_order(self@.catalog.files.dom()).len()
                == self@.catalog.files.dom().len(),
            crate::vault::tree::path_order(self@.catalog.dirs).to_set() == self@.catalog.dirs,
            crate::vault::tree::path_order(self@.catalog.dirs).len() == self@.catalog.dirs.len(),
    {
        let ghost v = self@;
        let ghost files = v.catalog.files;
        let ghost fk = self.catalog.files.key_seq();
        let ghost dk = self.catalog.dirs.key_seq();
        proof {
            self.catalog.files.lemma_rows();
            self.catalog.dirs.lemma_rows();
        }
        let mut here: SortedMap<String, Meta> = SortedMap::new();
        let mut subs: SortedMap<String, Meta> = SortedMap::new();
        let mut i: usize = 0;
        while i < self.catalog.files.len()
            invariant
                self.wf(),
                v == self@,
                files == v.catalog.files,
                fk == self.catalog.files.key_seq(),
                i <= fk.len(),
                here.wf(),
                subs.wf(),
                gathered(v, fk, dk, pre@, i as int, 0, here@, subs@),
            decreases fk.len() - i,
        {
            proof {
                self.catalog.files.lemma_rows();
            }
            let k = self.catalog.files.key_at(i);
            let e = self.catalog.files.value_at(i);
            let ghost here0 = here@;
            let ghost subs0 = subs@;
            assert(files[fk[i as int]] == e@);
            match place_in(k, pre) {
                Place::Outside => {
                    proof {
                        assert forall|name: Seq<char>| #[trigger]
                            subs@.contains_key(name) implies subs@[name] == dir_meta(
                            files,
                            fk.take(i + 1),
                            pre@,
                            name,
                        ) by {
                            lemma_one_more(files, fk, i as int, pre@, name);
                        }
                    }
                },
                Place::Child(name) => {
                    let ghost n = name@;
                    here.insert(name, Meta { size: e.size, mtime: e.mtime });
                    proof {
                        assert(fk[i as int] == pre@ + n);
                        assert forall|x: Seq<char>| #[trigger]
                            here@.contains_key(x) <==> exists|j: int|
                            0 <= j < i + 1 && is_child(#[trigger] fk[j], pre@) && fk[j] == pre@
                                + x by {
                            if x == n {
                                assert(is_child(fk[i as int], pre@));
                            } else if here0.contains_key(x) {
                                let j = choose|j: int|
                                    0 <= j < i && is_child(#[trigger] fk[j], pre@) && fk[j] == pre@
                                        + x;
                                assert(is_child(fk[j], pre@));
                            } else {
                                assert(pre@ + x != pre@ + n) by {
                                    if pre@ + x == pre@ + n {
                                        assert((pre@ + x).skip(pre@.len() as int) =~= x);
                                        assert((pre@ + n).skip(pre@.len() as int) =~= n);
                                    }
                                }
                            }
                        }
                        assert forall|x: Seq<char>| #[trigger]
                            subs@.contains_key(x) implies subs@[x] == dir_meta(
                            files,
                            fk.take(i + 1),
                            pre@,
                            x,
                        ) by {
                            lemma_one_more(files, fk, i as int, pre@, x);
                        }
                    }
                },
                Place::Below(name) => {
                    let ghost n = name@;
                    let had: Meta = match subs.get(&name) {
                        Some(m) => *m,
                        None => Meta { size: 0, mtime: 0 },
                    };
                    proof {
                        if !subs0.contains_key(n) {
                            assert forall|j: int| 0 <= j < fk.take(i as int).len() implies !in_child(
                                #[trigger] fk.take(i as int)[j],
                                pre@,
                                n,
                            ) by {
                                assert(fk.take(i as int)[j] == fk[j]);
                            }
                            lemma_no_files(files, fk.take(i as int), pre@, n);
                        }
                        lemma_one_more(files, fk, i as int, pre@, n);
                    }
                    let size: u64 = had.size.saturating_add(e.size);
                    let mtime: i64 = if e.mtime > had.mtime {
                        e.mtime
                    } else {
                        had.mtime
                    };
                    subs.insert(name, Meta { size, mtime });
                    proof {
                        assert(in_child(fk[i as int], pre@, n));
                        assert forall|x: Seq<char>| #[trigger]
                            subs@.contains_key(x) <==> (exists|j: int|
                            0 <= j < i + 1 && in_child(#[trigger] fk[j], pre@, x)) || (exists|
                            j: int,
                        |
                            0 <= j < 0 && at_child(#[trigger] dk[j], pre@, x)) by {
                            if x != n && subs0.contains_key(x) {
                                let j = choose|j: int|
                                    0 <= j < i && in_child(#[trigger] fk[j], pre@, x);
                                assert(in_child(fk[j], pre@, x));
                            }
                        }
                        assert forall|x: Seq<char>| #[trigger]
                            subs@.contains_key(x) implies subs@[x] == dir_meta(
                            files,
                            fk.take(i + 1),
                            pre@,
                            x,
                        ) by {
                            lemma_one_more(files, fk, i as int, pre@, x);
                        }
                    }
                },
            }
            i = i + 1;
        }
        let mut j: usize = 0;
        let ghost all = i as int;
        while j < self.catalog.dirs.len()
            invariant
                self.wf(),
                v == self@,
                files == v.catalog.files,
                fk == self.catalog.files.key_seq(),
                dk == self.catalog.dirs.key_seq(),
                all == fk.len(),
                j <= dk.len(),
                here.wf(),
                subs.wf(),
                gathered(v, fk, dk, pre@, all, j as int, here@, subs@),
            decreases dk.len() - j,
        {
            let k = self.catalog.dirs.key_at(j);
            let ghost subs0 = subs@;
            let name = match place_in(k, pre) {
                Place::Outside => None,
                Place::Child(name) => Some(name),
                Place::Below(name) => Some(name),
            };
            match name {
                None => {
                    assert(!stands_inside(dk[j as int], pre@));
                },
                Some(name) => {
                    let ghost n = name@;
                    assert(at_child(dk[j as int], pre@, n));
                    if !subs.contains_key(&name) {
                        proof {
                            assert forall|l: int| 0 <= l < fk.take(all).len() implies !in_child(
                                #[trigger] fk.take(all)[l],
                                pre@,
                                n,
                            ) by {
                                assert(fk.take(all)[l] == fk[l]);
                            }
                            lemma_no_files(files, fk.take(all), pre@, n);
                        }
                        subs.insert(name, Meta { size: 0, mtime: 0 });
                    }
                    proof {
                        assert forall|x: Seq<char>| #[trigger]
                            subs@.contains_key(x) <==> (exists|l: int|
                            0 <= l < all && in_child(#[trigger] fk[l], pre@, x)) || (exists|l: int|
                            0 <= l < j + 1 && at_child(#[trigger] dk[l], pre@, x)) by {
                            if subs0.contains_key(x) {
                                if exists|l: int| 0 <= l < j && at_child(#[trigger] dk[l], pre@, x) {
                                    let l = choose|l: int|
                                        0 <= l < j && at_child(#[trigger] dk[l], pre@, x);
                                    assert(at_child(dk[l], pre@, x));
                                }
                            }
                            if x == n {
                                assert(at_child(dk[j as int], pre@, x));
                            }
                        }
                    }
                },
            }
            j = j + 1;
        }
        (here, subs)
    }
}

/// `e` is the row of the map at its name.
spec fn is_row(m: Map<Seq<char>, Meta>, e: EntryView) -> bool {
    m.contains_key(e.name) && m[e.name] == (Meta { size: e.size, mtime: e.mtime })
}

/// What was put out so far stands in front of everything that is left.
spec fn in_front(e: EntryView, hk: Seq<Seq<char>>, i: int, sk: Seq<Seq<char>>, j: int) -> bool {
    &&& forall|x: int|
        i <= x < hk.len() ==> <String as SortKey>::key_before(e.name, #[trigger] hk[x])
    &&& forall|x: int|
        j <= x < sk.len() ==> <String as SortKey>::key_before(e.name, #[trigger] sk[x]) || (e.name
            == sk[x] && !e.is_dir)
}

/// An entry with this name and kind was put out.
spec fn put_out(out: Seq<DirEntry>, name: Seq<char>, is_dir: bool) -> bool {
    exists|x: int|
        0 <= x < out.len() && (#[trigger] out[x])@.name == name && out[x]@.is_dir == is_dir
}

/// Files and directories by name; of one name the file first.
fn merge(here: &SortedMap<String, Meta>, subs: &SortedMap<String, Meta>) -> (r: Vec<DirEntry>)
    requires
        here.wf(),
        subs.wf(),
    ensures
        ({
            let es = entry_views(r@);
            &&& forall|x: int|
                0 <= x < es.len() ==> (if (#[trigger] es[x]).is_dir {
                    is_row(subs@, es[x])
                } else {
                    is_row(here@, es[x])
                })
            &&& forall|x: int, y: int|
                #![trigger es[x], es[y]]
                0 <= x < y < es.len() ==> entry_before(es[x], es[y])
            &&& forall|name: Seq<char>| #[trigger]
                here@.contains_key(name) ==> exists|x: int|
                    0 <= x < es.len() && (#[trigger] es[x]).name == name && !es[x].is_dir
            &&& forall|name: Seq<char>| #[trigger]
                subs@.contains_key(name) ==> exists|x: int|
                    0 <= x < es.len() && (#[trigger] es[x]).name == name && es[x].is_dir
        }),
{
    proof {
        here.lemma_rows();
        subs.lemma_rows();
    }
    let ghost hk = here.key_seq();
    let ghost sk = subs.key_seq();
    let mut out: Vec<DirEntry> = Vec::new();
    let mut i: usize = 0;
    let mut j: usize = 0;
    while i < here.len() || j < subs.len()
        invariant
            here.wf(),
            subs.wf(),
            hk == here.key_seq(),
            sk == subs.key_seq(),
            i <= hk.len(),
            j <= sk.len(),
            forall|x: int|
                0 <= x < out@.len() ==> (if (#[trigger] out@[x])@.is_dir {
                    is_row(subs@, out@[x]@)
                } else {
                    is_row(here@, out@[x]@)
                }),
            forall|x: int, y: int|
                #![trigger out@[x], out@[y]]
                0 <= x < y < out@.len() ==> entry_before(out@[x]@, out@[y]@),
            forall|x: int|
                0 <= x < out@.len() ==> in_front((#[trigger] out@[x])@, hk, i as int, sk, j as int),
            forall|l: int| 0 <= l < i ==> put_out(out@, #[trigger] hk[l], false),
            forall|l: int| 0 <= l < j ==> put_out(out@, #[trigger] sk[l], true),
        decreases hk.len() - i + sk.len() - j,
    {
        proof {
            here.lemma_rows();
            subs.lemma_rows();
        }
        let file_next = if i == here.len() {
            false
        } else if j == subs.len() {
            true
        } else {
            !subs.key_at(j).is_before(here.key_at(i))
        };
        let ghost before = out@;
        let ghost i0 = i as int;
        let ghost j0 = j as int;
        let e = if file_next {
            let m = here.value_at(i);
            let e = DirEntry {
                name: here.key_at(i).clone(),
                is_dir: false,
                size: m.size,
                mtime: m.mtime,
            };
            i = i + 1;
            e
        } else {
            let m = subs.value_at(j);
            let e = DirEntry {
                name: subs.key_at(j).clone(),
                is_dir: true,
                size: m.size,
                mtime: m.mtime,
            };
            j = j + 1;
            e
        };
        let ghost ev = e@;
        out.push(e);
        proof {
            if file_next {
                assert(ev.name == hk[i0]);
                if j0 < sk.len() {
                    if hk[i0] != sk[j0] {
                        <String as SortKey>::order_total(hk[i0], sk[j0]);
                    }
                    assert forall|x: int| j0 <= x < sk.len() implies <String as SortKey>::key_before(
                        ev.name,
                        #[trigger] sk[x],
                    ) || ev.name == sk[x] by {
                        if x > j0 {
                            assert(<String as SortKey>::key_before(sk[j0], sk[x]));
                            if ev.name != sk[j0] {
                                <String as SortKey>::order_transitive(ev.name, sk[j0], sk[x]);
                            }
                        }
                    }
                }
                assert(in_front(ev, hk, i as int, sk, j as int));
            } else {
                assert(ev.name == sk[j0]);
                if i0 < hk.len() {
                    assert forall|x: int| i0 <= x < hk.len() implies <String as SortKey>::key_before(
                        ev.name,
                        #[trigger] hk[x],
                    ) by {
                        if x > i0 {
                            assert(<String as SortKey>::key_before(hk[i0], hk[x]));
                            <String as SortKey>::order_transitive(ev.name, hk[i0], hk[x]);
                        }
                    }
                }
                assert(in_front(ev, hk, i as int, sk, j as int));
            }
            assert forall|x: int| 0 <= x < out@.len() implies in_front(
                (#[trigger] out@[x])@,
                hk,
                i as int,
                sk,
                j as int,
            ) by {
                if x < before.len() {
                    assert(out@[x] == before[x]);
                    assert(in_front(before[x]@, hk, i0, sk, j0));
                }
            }
            assert forall|x: int, y: int|
                #![trigger out@[x], out@[y]]
                0 <= x < y < out@.len() implies entry_before(out@[x]@, out@[y]@) by {
                assert(out@[x] == before[x]);
                if y < before.len() {
                    assert(out@[y] == before[y]);
                } else {
                    assert(in_front(before[x]@, hk, i0, sk, j0));
                }
            }
            assert forall|l: int| 0 <= l < i implies put_out(out@, #[trigger] hk[l], false) by {
                if l < i0 {
                    assert(put_out(before, hk[l], false));
                    let x = choose|x: int|
                        0 <= x < before.len() && (#[trigger] before[x])@.name == hk[l]
                            && !before[x]@.is_dir;
                    assert(out@[x] == before[x]);
                } else {
                    assert(out@[before.len() as int]@ == ev);
                }
            }
            assert forall|l: int| 0 <= l < j implies put_out(out@, #[trigger] sk[l], true) by {
                if l < j0 {
                    assert(put_out(before, sk[l], true));
                    let x = choose|x: int|
                        0 <= x < before.len() && (#[trigger] before[x])@.name == sk[l]
                            && before[x]@.is_dir;
                    assert(out@[x] == before[x]);
                } else {
                    assert(out@[before.len() as int]@ == ev);
                }
            }
        }
    }
    proof {
        here.lemma_rows();
        subs.lemma_rows();
        let es = entry_views(out@);
        assert forall|x: int| 0 <= x < es.len() implies (if (#[trigger] es[x]).is_dir {
            is_row(subs@, es[x])
        } else {
            is_row(here@, es[x])
        }) by {
            assert(es[x] == out@[x]@);
        }
        assert forall|x: int, y: int|
            #![trigger es[x], es[y]]
            0 <= x < y < es.len() implies entry_before(es[x], es[y]) by {
            assert(entry_before(out@[x]@, out@[y]@));
        }
        assert forall|name: Seq<char>| #[trigger] here@.contains_key(name) implies exists|x: int|
            0 <= x < es.len() && (#[trigger] es[x]).name == name && !es[x].is_dir by {
            let l = hk.index_of(name);
            assert(hk[l] == name);
            assert(put_out(out@, hk[l], false));
            let x = choose|x: int|
                0 <= x < out@.len() && (#[trigger] out@[x])@.name == hk[l] && !out@[x]@.is_dir;
            assert(es[x] == out@[x]@);
        }
        assert forall|name: Seq<char>| #[trigger] subs@.contains_key(name) implies exists|x: int|
            0 <= x < es.len() && (#[trigger] es[x]).name == name && es[x].is_dir by {
            let l = sk.index_of(name);
            assert(sk[l] == name);
            assert(put_out(out@, sk[l], true));
            let x = choose|x: int|
                0 <= x < out@.len() && (#[trigger] out@[x])@.name == sk[l] && out@[x]@.is_dir;
            assert(es[x] == out@[x]@);
        }
    }
    out
}

impl Vault {
    /// The children of a directory by name. A directory has the sizes of all files in it
    /// together and the latest of their times; one without files has 0 for both.
    pub fn list_dir(&self, path: &str) -> (r: Vec<DirEntry>)
        requires
            self.wf(),
        ensures
            is_listing(self@, list_prefix(crate::paths::normal(path@)), entry_views(r@)),
    {
        let p = normalize_path(path);
        let pre = if is_root(&p) {
            chars_of(p.as_str())
        } else {
            chars_of(with_slash(&p).as_str())
        };
        let (here, subs) = self.gather(&pre);
        let r = merge(&here, &subs);
        proof {
            let v = self@;
            let fk = crate::vault::tree::path_order(v.catalog.files.dom());
            let dk = crate::vault::tree::path_order(v.catalog.dirs);
            let es = entry_views(r@);
            assert(fk.take(fk.len() as int) =~= fk);
            assert forall|name: Seq<char>| #[trigger] here@.contains_key(name) <==> lists_file(
                v,
                pre@,
                name,
            ) by {
                if here@.contains_key(name) {
                    let j = choose|j: int|
                        0 <= j < fk.len() && is_child(#[trigger] fk[j], pre@) && fk[j] == pre@
                            + name;
                    assert(fk.to_set().contains(fk[j]));
                }
                if lists_file(v, pre@, name) {
                    assert(fk.to_set().contains(pre@ + name));
                    let j = fk.index_of(pre@ + name);
                    assert(is_child(fk[j], pre@));
                }
            }
            assert forall|name: Seq<char>| #[trigger] subs@.contains_key(name) <==> lists_dir(
                v,
                pre@,
                name,
            ) by {
                lemma_lists_dir(v, fk, dk, pre@, name);
            }
            assert forall|x: int| 0 <= x < es.len() implies is_entry(v, pre@, #[trigger] es[x]) by {
                if es[x].is_dir {
                    assert(is_row(subs@, es[x]));
                    assert(subs@.contains_key(es[x].name));
                } else {
                    assert(is_row(here@, es[x]));
                    assert(here@.contains_key(es[x].name));
                }
            }
            assert forall|name: Seq<char>| #[trigger]
                lists_file(v, pre@, name) implies exists|i: int|
                0 <= i < es.len() && (#[trigger] es[i]).name == name && !es[i].is_dir by {
                assert(here@.contains_key(name));
            }
            assert forall|name: Seq<char>| #[trigger]
                lists_dir(v, pre@, name) implies exists|i: int|
                0 <= i < es.len() && (#[trigger] es[i]).name == name && es[i].is_dir by {
                assert(subs@.contains_key(name));
            }
        }
        r
    }
}

/// A directory is listed if one of the paths in order shows it.
proof fn lemma_lists_dir(
    v: VaultView,
    fk: Seq<Seq<char>>,
    dk: Seq<Seq<char>>,
    pre: Seq<char>,
    name: Seq<char>,
)
    requires
        fk.to_set() == v.catalog.files.dom(),
        dk.to_set() == v.catalog.dirs,
    ensures
        lists_dir(v, pre, name) == ((exists|j: int|
            0 <= j < fk.len() && in_child(#[trigger] fk[j], pre, name)) || (exists|j: int|
            0 <= j < dk.len() && at_child(#[trigger] dk[j], pre, name))),
{
    if exists|j: int| 0 <= j < fk.len() && in_child(#[trigger] fk[j], pre, name) {
        let j = choose|j: int| 0 <= j < fk.len() && in_child(#[trigger] fk[j], pre, name);
        assert(fk.to_set().contains(fk[j]));
        assert(v.catalog.files.contains_key(fk[j]));
    }
    if exists|j: int| 0 <= j < dk.len() && at_child(#[trigger] dk[j], pre, name) {
        let j = choose|j: int| 0 <= j < dk.len() && at_child(#[trigger] dk[j], pre, name);
        assert(dk.to_set().contains(dk[j]));
        assert(v.catalog.dirs.contains(dk[j]));
    }
    if lists_dir(v, pre, name) {
        if exists|k: Seq<char>| #[trigger]
            v.catalog.files.contains_key(k) && in_child(k, pre, name) {
            let k = choose|k: Seq<char>| #[trigger]
                v.catalog.files.contains_key(k) && in_child(k, pre, name);
            assert(fk.to_set().contains(k));
            let j = fk.index_of(k);
            assert(in_child(fk[j], pre, name));
        } else {
            let k = choose|k: Seq<char>| #[trigger]
                v.catalog.dirs.contains(k) && at_child(k, pre, name);
            assert(dk.to_set().contains(k));
            let j = dk.index_of(k);
            assert(at_child(dk[j], pre, name));
        }
    }
}

/// A directory has one listing.
pub proof fn listing_is_unique(v: VaultView, pre: Seq<char>, a: Seq<EntryView>, b: Seq<EntryView>)
    requires
        is_listing(v, pre, a),
        is_listing(v, pre, b),
    ensures
        a == b,
    decreases a.len(),
{
    lemma_listing_prefix(v, pre, a, b, a.len() as int);
    lemma_listing_prefix(v, pre, b, a, b.len() as int);
    assert(a.len() == b.len());
    assert(a.take(a.len() as int) =~= a);
    assert(b.take(a.len() as int) =~= b);
}

/// Entries that stand in front of each other are not the same, and not both ways.
proof fn lemma_entry_order(a: EntryView, b: EntryView)
    requires
        entry_before(a, b),
    ensures
        !entry_before(b, a),
        a.name != b.name || a.is_dir != b.is_dir,
{
    <String as SortKey>::order_irreflexive(a.name);
    if <String as SortKey>::key_before(a.name, b.name) && <String as SortKey>::key_before(
        b.name,
        a.name,
    ) {
        <String as SortKey>::order_transitive(a.name, b.name, a.name);
    }
}

/// Two entries of one directory with the same name and kind are the same.
proof fn lemma_same_entry(v: VaultView, pre: Seq<char>, a: EntryView, b: EntryView)
    requires
        is_entry(v, pre, a),
        is_entry(v, pre, b),
        a.name == b.name,
        a.is_dir == b.is_dir,
    ensures
        a == b,
{
}

/// Where the entry `e` of the directory stands in a listing.
proof fn lemma_find_entry(v: VaultView, pre: Seq<char>, es: Seq<EntryView>, e: EntryView) -> (i:
    int)
    requires
        is_listing(v, pre, es),
        is_entry(v, pre, e),
    ensures
        0 <= i < es.len(),
        es[i] == e,
{
    let i = if e.is_dir {
        assert(lists_dir(v, pre, e.name));
        choose|i: int| 0 <= i < es.len() && (#[trigger] es[i]).name == e.name && es[i].is_dir
    } else {
        assert(lists_file(v, pre, e.name));
        choose|i: int| 0 <= i < es.len() && (#[trigger] es[i]).name == e.name && !es[i].is_dir
    };
    assert(is_entry(v, pre, es[i]));
    lemma_same_entry(v, pre, es[i], e);
    i
}

proof fn lemma_listing_prefix(
    v: VaultView,
    pre: Seq<char>,
    a: Seq<EntryView>,
    b: Seq<EntryView>,
    n: int,
)
    requires
        is_listing(v, pre, a),
        is_listing(v, pre, b),
        0 <= n <= a.len(),
    ensures
        n <= b.len(),
        a.take(n) == b.take(n),
    decreases n,
{
    if n > 0 {
        lemma_listing_prefix(v, pre, a, b, n - 1);
        let e = a[n - 1];
        assert(is_entry(v, pre, e));
        let i = lemma_find_entry(v, pre, b, e);
        assert forall|x: int| 0 <= x < n - 1 implies a[x] == b[x] by {
            assert(a.take(n - 1)[x] == b.take(n - 1)[x]);
        }
        if i < n - 1 {
            assert(a[i] == e);
            assert(entry_before(a[i], a[n - 1]));
            lemma_entry_order(a[i], a[n - 1]);
        } else if i > n - 1 {
            let d = b[n - 1];
            assert(is_entry(v, pre, d));
            let y = lemma_find_entry(v, pre, a, d);
            assert(entry_before(b[n - 1], b[i]));
            lemma_entry_order(d, e);
            if y < n - 1 {
                assert(b[y] == d);
                assert(entry_before(b[y], b[n - 1]));
                lemma_entry_order(b[y], b[n - 1]);
            } else if y > n - 1 {
                assert(entry_before(a[n - 1], a[y]));
            }
        }
        assert(a.take(n) =~= a.take(n - 1).push(e));
        assert(b.take(n) =~= b.take(n - 1).push(b[n - 1]));
    } else {
        assert(a.take(0) =~= b.take(0));
    }
}

/// A directory has an empty listing if and only if its listing is empty.
pub proof fn lemma_listing_empty(v: VaultView, pre: Seq<char>, es: Seq<DirEntry>)
    requires
        is_listing(v, pre, entry_views(es)),
    ensures
        is_listing(v, pre, Seq::empty()) == (es.len() == 0),
{
    if es.len() == 0 {
        assert(entry_views(es) =~= Seq::empty());
    } else if is_listing(v, pre, Seq::empty()) {
        listing_is_unique(v, pre, entry_views(es), Seq::empty());
        assert(entry_views(es).len() == es.len());
    }
}

} // verus!
