//! The numbers under which the kernel knows the paths of a vault.

use crate::catalog::Catalog;
use crate::paths::with_slash;
use crate::sorted::{SortedMap, SortedSet};
use crate::text::{chars_of, starts_with, string_of};
use vstd::prelude::*;

verus! {

/// Numbers to paths and paths to numbers.
pub struct InodeTable {
    by_ino: SortedMap<u64, String>,
    by_path: SortedMap<String, u64>,
    next: u64,
}

/// A table as a value.
#[verifier::ext_equal]
pub struct TableView {
    pub by_ino: Map<u64, Seq<char>>,
    pub by_path: Map<Seq<char>, u64>,
    /// The next number to give out.
    pub next: u64,
}

impl View for InodeTable {
    type V = TableView;

    closed spec fn view(&self) -> TableView {
        TableView { by_ino: self.by_ino@, by_path: self.by_path@, next: self.next }
    }
}

impl TableView {
    /// Numbers and paths belong to each other one to one, and the next number is free.
    pub open spec fn matched(self) -> bool {
        &&& forall|i: u64| #[trigger]
            self.by_ino.contains_key(i) ==> i < self.next && self.by_path.contains_key(
                self.by_ino[i],
            ) && self.by_path[self.by_ino[i]] == i
        &&& forall|p: Seq<char>| #[trigger]
            self.by_path.contains_key(p) ==> self.by_ino.contains_key(self.by_path[p])
                && self.by_ino[self.by_path[p]] == p
    }
}

/// The paths that a mounted vault starts with: the root, every file, every explicit directory
/// and the directories that they stand in.
pub open spec fn first_paths(c: crate::catalog::CatalogView) -> Set<Seq<char>> {
    Set::new(
        |p: Seq<char>|
            p == crate::paths::root() || (exists|k: Seq<char>| #[trigger]
                c.files.contains_key(k) && (p == k || crate::vault::search::ancestors(k).contains(
                    p,
                ))) || (exists|k: Seq<char>| #[trigger]
                c.dirs.contains(k) && (p == k || crate::vault::search::ancestors(k).contains(p))),
    )
}

/// One more, as far as there is one.
pub open spec fn next_number(n: nat) -> u64 {
    if n < u64::MAX {
        (n + 1) as u64
    } else {
        u64::MAX
    }
}

/// The table that numbers the paths from 1 on.
pub open spec fn numbered(order: Seq<Seq<char>>) -> TableView {
    TableView {
        by_ino: Map::new(|i: u64| 1 <= i <= order.len(), |i: u64| order[i - 1]),
        by_path: Map::new(|p: Seq<char>| order.contains(p), |p: Seq<char>| (order.index_of(p) + 1) as u64),
        next: next_number(order.len()),
    }
}

/// The table with a number for `p`.
pub open spec fn interned(t: TableView, p: Seq<char>) -> TableView {
    if t.by_path.contains_key(p) {
        t
    } else {
        TableView {
            by_ino: t.by_ino.insert(t.next, p),
            by_path: t.by_path.insert(p, t.next),
            next: (t.next + 1) as u64,
        }
    }
}

/// The table without `p`.
pub open spec fn forgotten(t: TableView, p: Seq<char>) -> TableView {
    if t.by_path.contains_key(p) {
        TableView {
            by_ino: t.by_ino.remove(t.by_path[p]),
            by_path: t.by_path.remove(p),
            ..t
        }
    } else {
        t
    }
}

/// The path `p`, which is `old` or stands in it, once `old` is called `new`.
pub open spec fn moved_name(old: Seq<char>, new: Seq<char>, p: Seq<char>) -> Seq<char> {
    new + p.skip(old.len() as int)
}

/// `p` is `old` or stands in it.
pub open spec fn is_moved(old: Seq<char>, p: Seq<char>) -> bool {
    p == old || crate::text::begins(p, crate::paths::inside(old))
}

/// The numbers whose paths move, in order.
pub open spec fn moved_numbers(t: TableView, old: Seq<char>) -> Seq<u64> {
    crate::sorted::in_order::<u64>(t.by_ino.dom()).filter(|i: u64| is_moved(old, t.by_ino[i]))
}

/// The table after the first `n` of the numbers were given their new paths.
pub open spec fn paths_moved(
    t: TableView,
    old: Seq<char>,
    new: Seq<char>,
    numbers: Seq<u64>,
    n: int,
) -> TableView
    decreases n,
{
    if n <= 0 {
        t
    } else {
        let prev = paths_moved(t, old, new, numbers, n - 1);
        let i = numbers[n - 1];
        let to = moved_name(old, new, t.by_ino[i]);
        TableView {
            by_ino: prev.by_ino.insert(i, to),
            by_path: prev.by_path.remove(t.by_ino[i]).insert(to, i),
            ..prev
        }
    }
}

/// Adds the directories that the keys of `m` stand in, and the keys themselves.
fn add_paths<T: View>(paths: &mut SortedSet<String>, m: &SortedMap<String, T>)
    requires
        old(paths).wf(),
        m.wf(),
    ensures
        final(paths).wf(),
        forall|p: Seq<char>| #[trigger]
            final(paths)@.contains(p) <==> old(paths)@.contains(p) || exists|k: Seq<char>|
                #[trigger] m@.contains_key(k) && (p == k
                    || crate::vault::search::ancestors(k).contains(p)),
{
    let ghost first = paths@;
    let ghost keys = m.key_seq();
    let mut i: usize = 0;
    while i < m.len()
        invariant
            m.wf(),
            paths.wf(),
            keys == m.key_seq(),
            i <= keys.len(),
            forall|p: Seq<char>| #[trigger]
                paths@.contains(p) <==> first.contains(p) || exists|x: int|
                    0 <= x < i && (p == #[trigger] keys[x]
                        || crate::vault::search::ancestors(keys[x]).contains(p)),
        decreases keys.len() - i,
    {
        let ghost before = paths@;
        let key = m.key_at(i);
        paths.insert(key.clone());
        crate::vault::search::add_ancestors(paths, key);
        proof {
            assert forall|p: Seq<char>| #[trigger] paths@.contains(p) <==> first.contains(p)
                || exists|x: int|
                0 <= x < i + 1 && (p == #[trigger] keys[x]
                    || crate::vault::search::ancestors(keys[x]).contains(p)) by {
                if before.contains(p) && !first.contains(p) {
                    let x = choose|x: int|
                        0 <= x < i && (p == #[trigger] keys[x]
                            || crate::vault::search::ancestors(keys[x]).contains(p));
                    assert(p == keys[x] || crate::vault::search::ancestors(keys[x]).contains(p));
                }
                if p == keys[i as int] || crate::vault::search::ancestors(
                    keys[i as int],
                ).contains(p) {
                    assert(paths@.contains(p));
                }
            }
        }
        i = i + 1;
    }
    proof {
        m.lemma_rows();
        assert forall|p: Seq<char>| #[trigger] paths@.contains(p) <==> first.contains(p) || exists|
            k: Seq<char>,
        | #[trigger]
            m@.contains_key(k) && (p == k || crate::vault::search::ancestors(k).contains(p)) by {
            if paths@.contains(p) && !first.contains(p) {
                let x = choose|x: int|
                    0 <= x < keys.len() && (p == #[trigger] keys[x]
                        || crate::vault::search::ancestors(keys[x]).contains(p));
                assert(m@.contains_key(keys[x]));
            }
            if exists|k: Seq<char>| #[trigger]
                m@.contains_key(k) && (p == k || crate::vault::search::ancestors(k).contains(p)) {
                let k = choose|k: Seq<char>| #[trigger]
                    m@.contains_key(k) && (p == k || crate::vault::search::ancestors(k).contains(
                        p,
                    ));
                let x = keys.index_of(k);
                assert(keys[x] == k);
            }
        }
    }
}

impl InodeTable {
    pub closed spec fn wf(self) -> bool {
        self.by_ino.wf() && self.by_path.wf()
    }

    /// The table of a vault that is being mounted: all its paths, numbered in order from 1 on.
    pub fn new(catalog: &Catalog) -> (r: Self)
        requires
            catalog.wf(),
        ensures
            r.wf(),
            r@ == numbered(crate::vault::tree::path_order(first_paths(catalog@))),
    {
        let mut paths: SortedSet<String> = SortedSet::new();
        let slash: Vec<char> = vec!['/'];
        let top = string_of(&slash, 0, 1);
        assert(top@ =~= crate::paths::root());
        paths.insert(top);
        add_paths(&mut paths, &catalog.files);
        add_paths(&mut paths, catalog.dirs.as_map());
        proof {
            assert(paths@ =~= first_paths(catalog@)) by {
                assert forall|p: Seq<char>| paths@.contains(p) <==> first_paths(
                    catalog@,
                ).contains(p) by {
                    if exists|k: Seq<char>| #[trigger]
                        catalog.dirs@.contains(k) && (p == k
                            || crate::vault::search::ancestors(k).contains(p)) {
                        let k = choose|k: Seq<char>| #[trigger]
                            catalog.dirs@.contains(k) && (p == k
                                || crate::vault::search::ancestors(k).contains(p));
                        assert(catalog.dirs@.contains(k));
                    }
                }
            }
            paths.lemma_rows();
        }
        InodeTable::of_paths(&paths)
    }

    fn of_paths(paths: &SortedSet<String>) -> (r: Self)
        requires
            paths.wf(),
        ensures
            r.wf(),
            r@ == numbered(paths.key_seq()),
    {
        proof {
            paths.lemma_rows();
        }
        let ghost order = paths.key_seq();
        let mut by_ino: SortedMap<u64, String> = SortedMap::new();
        let mut by_path: SortedMap<String, u64> = SortedMap::new();
        let n: usize = paths.len();
        let mut i: usize = 0;
        while i < n
            invariant
                paths.wf(),
                order == paths.key_seq(),
                order.no_duplicates(),
                n == order.len(),
                i <= n,
                by_ino.wf(),
                by_path.wf(),
                forall|x: u64| #[trigger] by_ino@.contains_key(x) <==> 1 <= x <= i,
                forall|x: u64| #[trigger] by_ino@.contains_key(x) ==> by_ino@[x] == order[x - 1],
                forall|p: Seq<char>| #[trigger]
                    by_path@.contains_key(p) <==> exists|x: int|
                        0 <= x < i && #[trigger] order[x] == p,
                forall|x: int| 0 <= x < i ==> by_path@[#[trigger] order[x]] == x + 1,
            decreases n - i,
        {
            let ino: u64 = i as u64 + 1;
            let ghost before = by_path@;
            by_ino.insert(ino, paths.key_at(i).clone());
            by_path.insert(paths.key_at(i).clone(), ino);
            proof {
                assert forall|p: Seq<char>| #[trigger] by_path@.contains_key(p) <==> exists|x: int|
                    0 <= x < i + 1 && #[trigger] order[x] == p by {
                    if before.contains_key(p) {
                        let x = choose|x: int| 0 <= x < i && #[trigger] order[x] == p;
                        assert(order[x] == p);
                    }
                    if p == order[i as int] {
                        assert(order[i as int] == p);
                    }
                }
                assert forall|x: int| 0 <= x < i + 1 implies by_path@[#[trigger] order[x]] == x
                    + 1 by {
                    if x < i {
                        assert(order[x] != order[i as int]);
                    }
                }
            }
            i = i + 1;
        }
        let next: u64 = (n as u64).saturating_add(1);
        let r = InodeTable { by_ino, by_path, next };
        proof {
            let t = numbered(order);
            assert(r@.by_ino =~= t.by_ino);
            assert forall|p: Seq<char>| #[trigger] r@.by_path.contains_key(p)
                <==> t.by_path.contains_key(p) by {
                if order.contains(p) {
                    let x = order.index_of(p);
                    assert(order[x] == p);
                }
                if r@.by_path.contains_key(p) {
                    let x = choose|x: int| 0 <= x < n && #[trigger] order[x] == p;
                    assert(order.contains(order[x]));
                }
            }
            assert forall|p: Seq<char>| #[trigger] r@.by_path.contains_key(p) implies r@.by_path[p]
                == t.by_path[p] by {
                let x = order.index_of(p);
                assert(order.contains(p));
                assert(order[x] == p);
            }
            assert(r@.by_path =~= t.by_path);
        }
        r
    }

    /// The path of a number.
    pub fn path_of(&self, ino: u64) -> (r: Option<String>)
        requires
            self.wf(),
        ensures
            match r {
                Some(p) => self@.by_ino.contains_key(ino) && self@.by_ino[ino] == p@,
                None => !self@.by_ino.contains_key(ino),
            },
    {
        match self.by_ino.get(&ino) {
            Some(p) => Some(p.clone()),
            None => None,
        }
    }

    /// The number of a path.
    pub fn number_of(&self, path: &String) -> (r: Option<u64>)
        requires
            self.wf(),
        ensures
            match r {
                Some(i) => self@.by_path.contains_key(path@) && self@.by_path[path@] == i,
                None => !self@.by_path.contains_key(path@),
            },
    {
        match self.by_path.get(path) {
            Some(i) => Some(*i),
            None => None,
        }
    }

    /// The next number to give out.
    pub fn next_number(&self) -> (r: u64)
        requires
            self.wf(),
        ensures
            r == self@.next,
    {
        self.next
    }

    /// The number of a path; a new one if it has none.
    pub fn intern(&mut self, path: &String) -> (r: u64)
        requires
            old(self).wf(),
            old(self)@.next < u64::MAX,
        ensures
            final(self).wf(),
            final(self)@ == interned(old(self)@, path@),
            r == interned(old(self)@, path@).by_path[path@],
    {
        if let Some(i) = self.by_path.get(path) {
            return *i;
        }
        let ino: u64 = self.next;
        self.next = ino + 1;
        self.by_ino.insert(ino, path.clone());
        self.by_path.insert(path.clone(), ino);
        ino
    }

    /// Takes a path out and returns its number.
    pub fn forget(&mut self, path: &String) -> (r: Option<u64>)
        requires
            old(self).wf(),
        ensures
            final(self).wf(),
            final(self)@ == forgotten(old(self)@, path@),
            match r {
                Some(i) => old(self)@.by_path.contains_key(path@) && i
                    == old(self)@.by_path[path@],
                None => !old(self)@.by_path.contains_key(path@),
            },
    {
        match self.by_path.remove(path) {
            None => None,
            Some(ino) => {
                let _ = self.by_ino.remove(&ino);
                Some(ino)
            },
        }
    }

    /// The numbers whose paths are `old` or stand in it, with those paths.
    fn affected(&self, old: &String) -> (r: (Vec<u64>, Vec<String>))
        requires
            self.wf(),
        ensures
            r.0@ == moved_numbers(self@, old@),
            r.0@.len() == r.1@.len(),
            forall|x: int|
                0 <= x < r.0@.len() ==> self@.by_ino.contains_key(#[trigger] r.0@[x])
                    && r.1@[x]@ == self@.by_ino[r.0@[x]] && is_moved(old@, r.1@[x]@),
    {
        proof {
            self.by_ino.lemma_rows();
        }
        let ghost keys = self.by_ino.key_seq();
        let ghost p = |i: u64| is_moved(old@, self@.by_ino[i]);
        let pre = chars_of(with_slash(old).as_str());
        let mut numbers: Vec<u64> = Vec::new();
        let mut paths: Vec<String> = Vec::new();
        let mut i: usize = 0;
        proof {
            reveal(Seq::filter);
            assert(numbers@ =~= keys.take(0).filter(p));
        }
        while i < self.by_ino.len()
            invariant
                self.wf(),
                keys == self.by_ino.key_seq(),
                i <= keys.len(),
                pre@ == crate::paths::inside(old@),
                p == (|i: u64| is_moved(old@, self@.by_ino[i])),
                numbers@ == keys.take(i as int).filter(p),
                numbers@.len() == paths@.len(),
                forall|x: int|
                    0 <= x < numbers@.len() ==> self@.by_ino.contains_key(#[trigger] numbers@[x])
                        && paths@[x]@ == self@.by_ino[numbers@[x]] && is_moved(old@, paths@[x]@),
            decreases keys.len() - i,
        {
            proof {
                self.by_ino.lemma_rows();
                reveal(Seq::filter);
                assert(keys.take(i + 1).drop_last() =~= keys.take(i as int));
                assert(keys.take(i + 1).last() == keys[i as int]);
                assert(self@.by_ino.contains_key(keys[i as int]));
            }
            let path = self.by_ino.value_at(i);
            let cs = chars_of(path.as_str());
            if *path == *old || starts_with(&cs, &pre) {
                numbers.push(*self.by_ino.key_at(i));
                paths.push(path.clone());
            }
            i = i + 1;
        }
        assert(keys.take(i as int) =~= keys);
        (numbers, paths)
    }

    /// Gives the paths that are `old` or stand in it their new names, one by one in the order
    /// of their numbers.
    pub fn rename_paths(&mut self, old_path: &String, new_path: &String)
        requires
            old(self).wf(),
        ensures
            final(self).wf(),
            final(self)@ == paths_moved(
                old(self)@,
                old_path@,
                new_path@,
                moved_numbers(old(self)@, old_path@),
                moved_numbers(old(self)@, old_path@).len() as int,
            ),
    {
        let ghost t = self@;
        let (numbers, paths) = self.affected(old_path);
        let n: usize = chars_of(old_path.as_str()).len();
        let mut i: usize = 0;
        while i < numbers.len()
            invariant
                self.wf(),
                i <= numbers@.len(),
                n == old_path@.len(),
                numbers@.len() == paths@.len(),
                forall|x: int|
                    0 <= x < numbers@.len() ==> t.by_ino.contains_key(#[trigger] numbers@[x])
                        && paths@[x]@ == t.by_ino[numbers@[x]] && is_moved(
                        old_path@,
                        paths@[x]@,
                    ),
                self@ == paths_moved(t, old_path@, new_path@, numbers@, i as int),
            decreases numbers@.len() - i,
        {
            let p = &paths[i];
            assert(t.by_ino.contains_key(numbers@[i as int]));
            assert(is_moved(old_path@, paths@[i as int]@));
            let cs = chars_of(p.as_str());
            let rest = string_of(&cs, n, cs.len());
            assert(rest@ =~= p@.skip(n as int));
            let mut to = new_path.clone();
            to.append(rest.as_str());
            let _ = self.by_path.remove(p);
            self.by_ino.insert(numbers[i], to.clone());
            self.by_path.insert(to, numbers[i]);
            i = i + 1;
        }
    }
}

/// A table that numbers paths one by one is matched.
pub proof fn new_table_is_matched(order: Seq<Seq<char>>)
    requires
        order.no_duplicates(),
        order.len() < u64::MAX,
    ensures
        numbered(order).matched(),
{
    let t = numbered(order);
    assert forall|i: u64| #[trigger] t.by_ino.contains_key(i) implies i < t.next
        && t.by_path.contains_key(t.by_ino[i]) && t.by_path[t.by_ino[i]] == i by {
        let p = order[i - 1];
        assert(order.contains(p));
        let x = order.index_of(p);
        assert(order[x] == p);
    }
    assert forall|p: Seq<char>| #[trigger] t.by_path.contains_key(p) implies t.by_ino.contains_key(
        t.by_path[p],
    ) && t.by_ino[t.by_path[p]] == p by {
        let x = order.index_of(p);
        assert(order[x] == p);
    }
}

/// A new number keeps the table matched.
pub proof fn intern_keeps_matched(t: TableView, p: Seq<char>)
    requires
        t.matched(),
        t.next < u64::MAX,
    ensures
        interned(t, p).matched(),
        interned(t, p).by_path.contains_key(p),
{
    let u = interned(t, p);
    if !t.by_path.contains_key(p) {
        assert forall|q: Seq<char>| #[trigger] u.by_path.contains_key(
            q,
        ) implies u.by_ino.contains_key(u.by_path[q]) && u.by_ino[u.by_path[q]] == q by {
            if q != p {
                assert(t.by_path.contains_key(q));
                assert(t.by_ino.contains_key(t.by_path[q]));
            }
        }
        assert forall|i: u64| #[trigger] u.by_ino.contains_key(i) implies i < u.next
            && u.by_path.contains_key(u.by_ino[i]) && u.by_path[u.by_ino[i]] == i by {
            if i != t.next {
                assert(t.by_ino.contains_key(i));
            }
        }
    }
}

/// To take a path out keeps the table matched.
pub proof fn forget_keeps_matched(t: TableView, p: Seq<char>)
    requires
        t.matched(),
    ensures
        forgotten(t, p).matched(),
        !forgotten(t, p).by_path.contains_key(p),
{
    let u = forgotten(t, p);
    if t.by_path.contains_key(p) {
        assert forall|q: Seq<char>| #[trigger] u.by_path.contains_key(
            q,
        ) implies u.by_ino.contains_key(u.by_path[q]) && u.by_ino[u.by_path[q]] == q by {
            assert(t.by_path.contains_key(q));
            assert(t.by_ino[t.by_path[q]] == q);
        }
        assert forall|i: u64| #[trigger] u.by_ino.contains_key(i) implies i < u.next
            && u.by_path.contains_key(u.by_ino[i]) && u.by_path[u.by_ino[i]] == i by {
            assert(t.by_ino.contains_key(i));
        }
    }
}

proof fn lemma_moved_injective(old: Seq<char>, new: Seq<char>, a: Seq<char>, b: Seq<char>)
    requires
        is_moved(old, a),
        is_moved(old, b),
        moved_name(old, new, a) == moved_name(old, new, b),
    ensures
        a == b,
{
    let n = old.len() as int;
    assert(moved_name(old, new, a).skip(new.len() as int) =~= a.skip(n));
    assert(moved_name(old, new, b).skip(new.len() as int) =~= b.skip(n));
    lemma_moved_front(old, a);
    lemma_moved_front(old, b);
    assert(a =~= a.take(n) + a.skip(n));
    assert(b =~= b.take(n) + b.skip(n));
}

proof fn lemma_moved_front(old: Seq<char>, p: Seq<char>)
    requires
        is_moved(old, p),
    ensures
        p.len() >= old.len(),
        p.take(old.len() as int) == old,
{
    if p == old {
        assert(p.take(old.len() as int) =~= old);
    } else {
        let pre = crate::paths::inside(old);
        assert(p.take(old.len() as int) =~= p.take(pre.len() as int).take(old.len() as int));
        assert(pre.take(old.len() as int) =~= old);
    }
}

/// Moving paths to names that are not in use keeps the table matched; every number that moves
/// has its new path, and all others keep theirs.
pub proof fn rename_keeps_matched(
    t: TableView,
    old: Seq<char>,
    new: Seq<char>,
    numbers: Seq<u64>,
    n: int,
)
    requires
        t.matched(),
        0 <= n <= numbers.len(),
        numbers.no_duplicates(),
        forall|x: int|
            0 <= x < numbers.len() ==> t.by_ino.contains_key(#[trigger] numbers[x]) && is_moved(
                old,
                t.by_ino[numbers[x]],
            ),
        forall|x: int|
            0 <= x < numbers.len() ==> !t.by_path.contains_key(
                moved_name(old, new, t.by_ino[#[trigger] numbers[x]]),
            ),
    ensures
        ({
            let u = paths_moved(t, old, new, numbers, n);
            &&& u.matched()
            &&& u.next == t.next
            &&& u.by_ino.dom() == t.by_ino.dom()
            &&& forall|i: u64|
                t.by_ino.contains_key(i) ==> #[trigger] u.by_ino[i] == (if numbers.take(
                    n,
                ).contains(i) {
                    moved_name(old, new, t.by_ino[i])
                } else {
                    t.by_ino[i]
                })
        }),
    decreases n,
{
    let u = paths_moved(t, old, new, numbers, n);
    if n > 0 {
        rename_keeps_matched(t, old, new, numbers, n - 1);
        let prev = paths_moved(t, old, new, numbers, n - 1);
        let i = numbers[n - 1];
        let from = t.by_ino[i];
        let to = moved_name(old, new, from);
        assert(t.by_ino.contains_key(i));
        assert(!numbers.take(n - 1).contains(i)) by {
            if numbers.take(n - 1).contains(i) {
                let x = numbers.take(n - 1).index_of(i);
                assert(numbers[x] == numbers[n - 1]);
            }
        }
        assert(prev.by_ino[i] == from);
        assert(!prev.by_path.contains_key(to)) by {
            if prev.by_path.contains_key(to) {
                let k = prev.by_path[to];
                assert(prev.by_ino.contains_key(k));
                assert(prev.by_ino.dom().contains(k));
                assert(t.by_ino.contains_key(k));
                assert(prev.by_ino[k] == to);
                if numbers.take(n - 1).contains(k) {
                    let x = numbers.take(n - 1).index_of(k);
                    assert(numbers[x] == k);
                    lemma_moved_injective(old, new, t.by_ino[k], from);
                    assert(t.by_path[t.by_ino[k]] == k && t.by_path[from] == i);
                } else {
                    assert(t.by_ino[k] == to);
                    assert(t.by_path.contains_key(to));
                }
            }
        }
        assert(u.by_ino.dom() =~= t.by_ino.dom());
        assert forall|k: u64| t.by_ino.contains_key(k) implies #[trigger] u.by_ino[k] == (
        if numbers.take(n).contains(k) {
            moved_name(old, new, t.by_ino[k])
        } else {
            t.by_ino[k]
        }) by {
            assert(numbers.take(n) =~= numbers.take(n - 1).push(i));
            if k == i {
                assert(numbers.take(n)[n - 1] == i);
            } else {
                if numbers.take(n).contains(k) {
                    let x = numbers.take(n).index_of(k);
                    assert(numbers.take(n - 1)[x] == k);
                }
                if numbers.take(n - 1).contains(k) {
                    let x = numbers.take(n - 1).index_of(k);
                    assert(numbers.take(n)[x] == k);
                }
                assert(prev.by_ino[k] == u.by_ino[k]);
            }
        }
        assert forall|k: u64| #[trigger] u.by_ino.contains_key(k) implies k < u.next
            && u.by_path.contains_key(u.by_ino[k]) && u.by_path[u.by_ino[k]] == k by {
            if k != i {
                assert(prev.by_ino.contains_key(k));
                assert(prev.by_ino[k] != from) by {
                    if prev.by_ino[k] == from {
                        assert(prev.by_path[from] == k);
                        assert(prev.by_ino.contains_key(i));
                        assert(prev.by_path[prev.by_ino[i]] == i);
                    }
                }
                assert(prev.by_ino[k] != to);
            } else {
                assert(prev.by_ino.contains_key(i));
            }
        }
        assert forall|q: Seq<char>| #[trigger] u.by_path.contains_key(
            q,
        ) implies u.by_ino.contains_key(u.by_path[q]) && u.by_ino[u.by_path[q]] == q by {
            if q != to {
                assert(prev.by_path.contains_key(q));
                assert(prev.by_ino[prev.by_path[q]] == q);
                assert(prev.by_path[q] != i);
            }
        }
    } else {
        assert forall|k: u64| t.by_ino.contains_key(k) implies !numbers.take(0).contains(k) by {}
    }
}

/// At first exactly the root, every file and directory, and every directory above one of them
/// has a number.
pub proof fn every_path_is_numbered_at_first(c: crate::catalog::CatalogView, p: Seq<char>)
    ensures
        ({
            let n = p.len() as int;
            first_paths(c).contains(p) <==> p == seq!['/'] || c.files.contains_key(p)
                || c.dirs.contains(p) || (exists|k: Seq<char>| #[trigger]
                c.files.contains_key(k) && 0 < n < k.len() && k.take(n) == p && k[n] == '/') || (
            exists|k: Seq<char>| #[trigger]
                c.dirs.contains(k) && 0 < n < k.len() && k.take(n) == p && k[n] == '/')
        }),
{
    let n = p.len() as int;
    assert forall|k: Seq<char>| #[trigger] crate::vault::search::ancestors(k).contains(p) <==> (0
        < n < k.len() && k.take(n) == p && k[n] == '/') by {
        if crate::vault::search::ancestors(k).contains(p) {
            let i = choose|i: int| 0 < i < k.len() && #[trigger] k[i] == '/' && p == k.take(i);
            assert(i == n);
        }
    }
    assert forall|k: Seq<char>| #[trigger] c.files.contains_key(k) implies (
    crate::vault::search::ancestors(k).contains(p) == (0 < n < k.len() && k.take(n) == p && k[n]
        == '/')) by {}
    assert forall|k: Seq<char>| #[trigger] c.dirs.contains(k) implies (
    crate::vault::search::ancestors(k).contains(p) == (0 < n < k.len() && k.take(n) == p && k[n]
        == '/')) by {}
}

/// The first numbers are given in order, from one on, and the next one is free.
pub proof fn first_numbers_are_in_order(order: Seq<Seq<char>>, i: int, p: Seq<char>)
    requires
        order.no_duplicates(),
        order.len() < u64::MAX,
        0 <= i < order.len(),
    ensures
        numbered(order).by_ino.contains_key((i + 1) as u64),
        numbered(order).by_ino[(i + 1) as u64] == order[i],
        numbered(order).by_path.contains_key(p) <==> order.contains(p),
        numbered(order).by_path[order[i]] == i + 1,
        numbered(order).next == order.len() + 1,
        !numbered(order).by_ino.contains_key(0),
        !numbered(order).by_ino.contains_key(numbered(order).next),
{
    assert(order.contains(order[i]));
    assert(order.index_of(order[i]) == i);
}

/// A path that has a number keeps it; a new one gets the next number, which no path had; no other
/// number changes.
pub proof fn new_path_gets_the_next_number(t: TableView, p: Seq<char>, q: Seq<char>, i: u64)
    requires
        t.matched(),
        t.next < u64::MAX,
    ensures
        t.by_path.contains_key(p) ==> interned(t, p) == t,
        !t.by_path.contains_key(p) ==> {
            let u = interned(t, p);
            &&& !t.by_ino.contains_key(t.next)
            &&& u.by_path.contains_key(p) && u.by_path[p] == t.next && u.by_ino[t.next] == p
            &&& u.next == t.next + 1
            &&& q != p ==> (u.by_path.contains_key(q) <==> t.by_path.contains_key(q))
            &&& q != p && t.by_path.contains_key(q) ==> u.by_path[q] == t.by_path[q]
            &&& i != t.next ==> (u.by_ino.contains_key(i) <==> t.by_ino.contains_key(i))
            &&& i != t.next && t.by_ino.contains_key(i) ==> u.by_ino[i] == t.by_ino[i]
        },
{
}

/// A path that is forgotten takes its number with it, and no other; the number is not given
/// again.
pub proof fn forgotten_path_takes_its_number(t: TableView, p: Seq<char>, q: Seq<char>)
    requires
        t.matched(),
    ensures
        ({
            let u = forgotten(t, p);
            &&& u.next == t.next
            &&& !u.by_path.contains_key(p)
            &&& t.by_path.contains_key(p) ==> !u.by_ino.contains_key(t.by_path[p])
            &&& q != p ==> (u.by_path.contains_key(q) <==> t.by_path.contains_key(q))
            &&& q != p && t.by_path.contains_key(q) ==> u.by_path[q] == t.by_path[q]
                && u.by_ino.contains_key(t.by_path[q]) && u.by_ino[t.by_path[q]] == q
            &&& !t.by_path.contains_key(p) ==> u == t
        }),
{
}

/// When a path is renamed, it and every path below it keep their numbers under the new name with
/// the same rest behind it, and every other path keeps number and name. (No new name is that of
/// another path.)
pub proof fn numbers_follow_renamed_paths(t: TableView, old: Seq<char>, new: Seq<char>, i: u64)
    requires
        t.matched(),
        t.by_ino.dom().finite(),
        t.by_ino.contains_key(i),
        forall|p: Seq<char>| #[trigger]
            t.by_path.contains_key(p) && (p == old || (p.len() > old.len() && p.take(
                old.len() as int,
            ) == old && p[old.len() as int] == '/')) ==> !t.by_path.contains_key(
                new + p.skip(old.len() as int),
            ),
    ensures
        ({
            let numbers = moved_numbers(t, old);
            let u = paths_moved(t, old, new, numbers, numbers.len() as int);
            let p = t.by_ino[i];
            let n = old.len() as int;
            &&& u.matched()
            &&& u.next == t.next
            &&& u.by_ino.dom() == t.by_ino.dom()
            &&& p == old || (p.len() > n && p.take(n) == old && p[n] == '/') ==> u.by_ino[i] == new
                + p.skip(n)
            &&& !(p == old || (p.len() > n && p.take(n) == old && p[n] == '/')) ==> u.by_ino[i] == p
        }),
{
    let all = crate::sorted::in_order::<u64>(t.by_ino.dom());
    let f = |i: u64| is_moved(old, t.by_ino[i]);
    let numbers = moved_numbers(t, old);
    crate::sorted::lemma_in_order_exists::<u64>(t.by_ino.dom());
    crate::vault::moves::lemma_filtered_members(all, f);
    assert(numbers == all.filter(f));
    assert forall|x: int| 0 <= x < numbers.len() implies t.by_ino.contains_key(
        #[trigger] numbers[x],
    ) && is_moved(old, t.by_ino[numbers[x]]) by {
        assert(numbers.contains(numbers[x]));
        assert(all.to_set().contains(numbers[x]));
    }
    assert forall|x: int| 0 <= x < numbers.len() implies !t.by_path.contains_key(
        moved_name(old, new, t.by_ino[#[trigger] numbers[x]]),
    ) by {
        let p = t.by_ino[numbers[x]];
        assert(is_moved(old, p));
        crate::vault::tree_laws::lemma_begins_inside(p, old);
        assert(t.by_path.contains_key(p));
    }
    rename_keeps_matched(t, old, new, numbers, numbers.len() as int);
    assert(numbers.take(numbers.len() as int) =~= numbers);
    crate::vault::tree_laws::lemma_begins_inside(t.by_ino[i], old);
    assert(all.to_set().contains(i));
    assert(all.contains(i));
    assert(numbers.contains(i) == f(i));
    let u = paths_moved(t, old, new, numbers, numbers.len() as int);
    assert(u.by_ino[i] == (if numbers.take(numbers.len() as int).contains(i) {
        moved_name(old, new, t.by_ino[i])
    } else {
        t.by_ino[i]
    }));
}

proof fn lemma_names_moved(
    t: TableView,
    old: Seq<char>,
    new: Seq<char>,
    numbers: Seq<u64>,
    n: int,
    i: u64,
)
    requires
        0 <= n <= numbers.len(),
        forall|x: int| 0 <= x < numbers.len() ==> t.by_ino.contains_key(#[trigger] numbers[x]),
    ensures
        ({
            let u = paths_moved(t, old, new, numbers, n);
            &&& u.next == t.next
            &&& u.by_ino.dom() == t.by_ino.dom()
            &&& numbers.take(n).contains(i) ==> u.by_ino[i] == moved_name(old, new, t.by_ino[i])
            &&& !numbers.take(n).contains(i) ==> u.by_ino[i] == t.by_ino[i]
        }),
    decreases n,
{
    if n > 0 {
        lemma_names_moved(t, old, new, numbers, n - 1, i);
        let prev = paths_moved(t, old, new, numbers, n - 1);
        let u = paths_moved(t, old, new, numbers, n);
        let k = numbers[n - 1];
        assert(t.by_ino.contains_key(k));
        assert(u.by_ino.dom() =~= prev.by_ino.dom());
        let front = numbers.take(n - 1);
        let more = numbers.take(n);
        assert(more[n - 1] == k);
        if front.contains(i) {
            assert(more[front.index_of(i)] == i);
        }
        if more.contains(i) && i != k {
            assert(front[more.index_of(i)] == i);
        }
    } else {
        assert(numbers.take(0) =~= Seq::empty());
    }
}

/// The numbers of renamed paths lead to the new names, also where a new name was that of another
/// path; all other numbers lead where they led.
pub proof fn numbers_lead_to_new_names(t: TableView, old: Seq<char>, new: Seq<char>, i: u64)
    requires
        t.by_ino.dom().finite(),
        t.by_ino.contains_key(i),
    ensures
        ({
            let numbers = moved_numbers(t, old);
            let u = paths_moved(t, old, new, numbers, numbers.len() as int);
            let p = t.by_ino[i];
            let n = old.len() as int;
            let moved = p == old || (p.len() > n && p.take(n) == old && p[n] == '/');
            &&& u.next == t.next
            &&& u.by_ino.dom() == t.by_ino.dom()
            &&& moved ==> u.by_ino[i] == new + p.skip(n)
            &&& !moved ==> u.by_ino[i] == p
        }),
{
    let all = crate::sorted::in_order::<u64>(t.by_ino.dom());
    let f = |i: u64| is_moved(old, t.by_ino[i]);
    let numbers = moved_numbers(t, old);
    crate::sorted::lemma_in_order_exists::<u64>(t.by_ino.dom());
    crate::vault::moves::lemma_filtered_members(all, f);
    assert(numbers == all.filter(f));
    assert forall|x: int| 0 <= x < numbers.len() implies t.by_ino.contains_key(
        #[trigger] numbers[x],
    ) by {
        assert(numbers.contains(numbers[x]));
        assert(all.to_set().contains(numbers[x]));
    }
    lemma_names_moved(t, old, new, numbers, numbers.len() as int, i);
    assert(numbers.take(numbers.len() as int) =~= numbers);
    crate::vault::tree_laws::lemma_begins_inside(t.by_ino[i], old);
    assert(all.to_set().contains(i));
    assert(all.contains(i));
    assert(numbers.contains(i) == f(i));
}

} // verus!
