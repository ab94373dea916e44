//! Putting paths together and taking them apart.

use crate::paths::{is_root, prefixed, with_slash};
use crate::text::{chars_of, rfind_char, skip_trailing, string_of};
use vstd::prelude::*;

verus! {

/// The child `name` of the directory `parent`.
pub open spec fn child_of(parent: Seq<char>, name: Seq<char>) -> Seq<char> {
    if parent == crate::paths::root() {
        seq!['/'] + name
    } else {
        crate::paths::inside(parent) + name
    }
}

/// `name` in the directory `dir`, whatever slashes `dir` ends with.
pub open spec fn placed_in(dir: Seq<char>, name: Seq<char>) -> Seq<char> {
    if dir.len() == 0 || dir == crate::paths::root() {
        seq!['/'] + name
    } else {
        crate::paths::inside(crate::text::without_trailing(dir, '/')) + name
    }
}

/// What stands behind the last slash of `s`.
pub open spec fn leaf_of(s: Seq<char>) -> Seq<char>
    decreases s.len(),
{
    if s.len() == 0 || s.last() == '/' {
        Seq::empty()
    } else {
        leaf_of(s.drop_last()).push(s.last())
    }
}

/// The directory that `s` stands in; `None` if it has no slash.
pub open spec fn parent_of(s: Seq<char>) -> Option<Seq<char>> {
    let i = s.len() - leaf_of(s).len() - 1;
    if i < 0 {
        None
    } else if i == 0 {
        Some(crate::paths::root())
    } else {
        Some(s.take(i))
    }
}

/// The child `name` of the directory `parent`.
pub fn join(parent: &String, name: &str) -> (r: String)
    ensures
        r@ == child_of(parent@, name@),
{
    if is_root(parent) {
        let n = name.to_owned();
        return prefixed('/', &n);
    }
    let mut r = with_slash(parent);
    r.append(name);
    r
}

/// `name` in the directory `dir`.
pub fn join_logical(dir: &String, name: &str) -> (r: String)
    ensures
        r@ == placed_in(dir@, name@),
{
    let cs = chars_of(dir.as_str());
    if cs.len() == 0 || is_root(dir) {
        let n = name.to_owned();
        return prefixed('/', &n);
    }
    let base = string_of(&cs, 0, skip_trailing(&cs, '/'));
    assert(base@ =~= crate::text::without_trailing(dir@, '/'));
    let mut r = with_slash(&base);
    r.append(name);
    r
}

/// What stands behind the last slash is what follows it.
proof fn lemma_leaf(s: Seq<char>, i: int)
    requires
        -1 <= i < s.len(),
        i >= 0 ==> s[i] == '/',
        forall|j: int| i < j < s.len() ==> s[j] != '/',
    ensures
        leaf_of(s) == s.skip(i + 1),
    decreases s.len(),
{
    if s.len() > 0 && i < s.len() - 1 {
        assert(s[s.len() - 1] != '/');
        lemma_leaf(s.drop_last(), i);
        assert(s.skip(i + 1) =~= s.drop_last().skip(i + 1).push(s.last()));
    } else {
        assert(s.skip(i + 1) =~= Seq::empty());
    }
}

/// What stands behind the last slash.
pub fn leaf_name(path: &String) -> (r: String)
    ensures
        r@ == leaf_of(path@),
{
    let cs = chars_of(path.as_str());
    let from: usize = match rfind_char(&cs, cs.len(), '/') {
        Some(i) => {
            proof {
                lemma_leaf(cs@, i as int);
            }
            i + 1
        },
        None => {
            proof {
                lemma_leaf(cs@, -1);
            }
            0
        },
    };
    let r = string_of(&cs, from, cs.len());
    assert(r@ =~= cs@.skip(from as int));
    r
}

/// The directory that a path stands in; `None` if the path has no slash.
pub fn parent_path(path: &String) -> (r: Option<String>)
    ensures
        match r {
            Some(p) => parent_of(path@) == Some(p@),
            None => parent_of(path@) is None,
        },
{
    let cs = chars_of(path.as_str());
    match rfind_char(&cs, cs.len(), '/') {
        None => {
            proof {
                lemma_leaf(cs@, -1);
            }
            None
        },
        Some(i) => {
            proof {
                lemma_leaf(cs@, i as int);
            }
            let to: usize = if i == 0 {
                1
            } else {
                i
            };
            let r = string_of(&cs, 0, to);
            proof {
                if i == 0 {
                    assert(r@ =~= crate::paths::root());
                } else {
                    assert(r@ =~= cs@.take(i as int));
                }
            }
            Some(r)
        },
    }
}

/// `s` with every slash turned into a backslash.
pub open spec fn backslashed(s: Seq<char>) -> Seq<char> {
    s.map_values(
        |c: char|
            if c == '/' {
                '\\'
            } else {
                c
            },
    )
}

/// A logical path with the separators of Windows.
pub fn to_windows(path: &str) -> (r: String)
    ensures
        r@ == backslashed(path@),
{
    let cs = chars_of(path);
    let mut r = String::new();
    let mut i: usize = 0;
    while i < cs.len()
        invariant
            i <= cs@.len(),
            r@.len() == i,
            forall|j: int| 0 <= j < i ==> r@[j] == backslashed(cs@)[j],
        decreases cs@.len() - i,
    {
        let c = if cs[i] == '/' {
            '\\'
        } else {
            cs[i]
        };
        r.push(c);
        i = i + 1;
    }
    assert(r@ =~= backslashed(cs@));
    r
}

/// A name of Windows with the separators of logical paths.
pub fn win_to_logical(name: &str) -> (r: String)
    ensures
        r@ == crate::paths::slashed(name@),
{
    let cs = crate::paths::with_slashes(name);
    let r = string_of(&cs, 0, cs.len());
    assert(r@ =~= cs@);
    r
}

/// An empty string is none.
pub fn empty_to_none(p: Option<String>) -> (r: Option<String>)
    ensures
        match p {
            Some(s) => if s@.len() == 0 {
                r is None
            } else {
                r matches Some(t) && t@ == s@
            },
            None => r is None,
        },
{
    match p {
        None => None,
        Some(s) => {
            if s.as_str().is_empty() {
                None
            } else {
                Some(s)
            }
        },
    }
}

/// A child stands in the directory it was made in, if its name has no slash.
pub proof fn child_stands_in_parent(parent: Seq<char>, name: Seq<char>)
    requires
        parent.len() > 0,
        !name.contains('/'),
    ensures
        leaf_of(child_of(parent, name)) == name,
        parent_of(child_of(parent, name)) == Some(parent),
{
    let c = child_of(parent, name);
    let i = c.len() - name.len() - 1;
    assert forall|j: int| i < j < c.len() implies c[j] != '/' by {
        assert(c[j] == name[j - i - 1]);
        assert(name.contains(name[j - i - 1]));
    }
    lemma_leaf(c, i);
    assert(c.skip(i + 1) =~= name);
    if parent != crate::paths::root() {
        assert(c.take(i) =~= parent);
    }
}

/// A name stands behind its directory and one slash, below the root as elsewhere.
pub proof fn child_path_is_parent_slash_name(parent: Seq<char>, name: Seq<char>)
    ensures
        parent == seq!['/'] ==> child_of(parent, name) == parent + name,
        parent != seq!['/'] ==> child_of(parent, name) == parent + seq!['/'] + name,
{
    if parent != seq!['/'] {
        assert(child_of(parent, name) =~= parent + seq!['/'] + name);
    }
}

/// What is placed in a directory stands behind it and one slash, with however many slashes the
/// directory was written.
pub proof fn placed_path_has_one_slash(dir: Seq<char>, slashes: Seq<char>, name: Seq<char>)
    requires
        dir.len() > 0 ==> dir.last() != '/',
        forall|i: int| 0 <= i < slashes.len() ==> slashes[i] == '/',
    ensures
        placed_in(dir + slashes, name) == dir + seq!['/'] + name,
{
    let all = dir + slashes;
    let cut = crate::text::without_trailing(all, '/');
    crate::text::trailing_run_is_cut(all, '/');
    if cut.len() > dir.len() {
        assert(cut.last() == all[cut.len() - 1]);
        assert(all[cut.len() - 1] == slashes[cut.len() - 1 - dir.len()]);
    } else if cut.len() < dir.len() {
        assert(all[dir.len() - 1] == dir.last());
    }
    assert(cut =~= dir);
    assert(placed_in(all, name) =~= dir + seq!['/'] + name);
}

/// The last name of a path is what stands behind its last slash, and the path above it is what
/// stands in front of that slash; a path without a slash is a name with nothing above it.
pub proof fn path_is_split_at_its_last_slash(dir: Seq<char>, name: Seq<char>)
    requires
        !name.contains('/'),
    ensures
        leaf_of(name) == name,
        parent_of(name) is None,
        leaf_of(dir + seq!['/'] + name) == name,
        parent_of(dir + seq!['/'] + name) == Some(
            if dir.len() == 0 {
                seq!['/']
            } else {
                dir
            },
        ),
{
    assert forall|j: int| 0 <= j < name.len() implies name[j] != '/' by {
        assert(name.contains(name[j]));
    }
    lemma_whole_leaf(name);
    let c = dir + seq!['/'] + name;
    let i = dir.len() as int;
    assert forall|j: int| i < j < c.len() implies c[j] != '/' by {
        assert(c[j] == name[j - i - 1]);
    }
    lemma_leaf(c, i);
    assert(c.skip(i + 1) =~= name);
    assert(c.take(i) =~= dir);
}

proof fn lemma_whole_leaf(s: Seq<char>)
    requires
        forall|j: int| 0 <= j < s.len() ==> s[j] != '/',
    ensures
        leaf_of(s) == s,
    decreases s.len(),
{
    if s.len() > 0 {
        lemma_whole_leaf(s.drop_last());
        assert(leaf_of(s) =~= s);
    }
}

/// Slashes become backslashes, and nothing else changes.
pub proof fn slashes_are_turned(s: Seq<char>)
    ensures
        backslashed(s).len() == s.len(),
        forall|i: int|
            0 <= i < s.len() ==> #[trigger] backslashed(s)[i] == (if s[i] == '/' {
                '\\'
            } else {
                s[i]
            }),
{
}

} // verus!
