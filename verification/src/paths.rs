//! Logical paths: `/` separates the parts and every path starts with it.

use crate::text::{chars_of, skip_leading, skip_leading_text, string_of};
use vstd::prelude::*;

verus! {

/// `s` with every backslash turned into a slash.
pub open spec fn slashed(s: Seq<char>) -> Seq<char> {
    s.map_values(
        |c: char|
            if c == '\\' {
                '/'
            } else {
                c
            },
    )
}

/// The logical path that `p` names: slashes for backslashes, no `./` in front, one leading slash.
pub open spec fn normal(p: Seq<char>) -> Seq<char> {
    seq!['/'] + crate::text::without_leading(
        crate::text::without_leading_text(slashed(p), seq!['.', '/']),
        '/',
    )
}

/// The root directory.
pub open spec fn root() -> Seq<char> {
    seq!['/']
}

/// What the paths inside the directory `p` start with.
pub open spec fn inside(p: Seq<char>) -> Seq<char> {
    p.push('/')
}

/// `s` as characters, with slashes for backslashes.
pub fn with_slashes(s: &str) -> (r: Vec<char>)
    ensures
        r@ == slashed(s@),
{
    let mut cs = chars_of(s);
    let ghost all = cs@;
    let mut i: usize = 0;
    while i < cs.len()
        invariant
            i <= cs@.len(),
            all == s@,
            cs@.len() == all.len(),
            forall|j: int| 0 <= j < i ==> cs@[j] == slashed(all)[j],
            forall|j: int| i <= j < all.len() ==> cs@[j] == all[j],
        decreases cs@.len() - i,
    {
        if cs[i] == '\\' {
            cs.set(i, '/');
        }
        i = i + 1;
    }
    assert(cs@ =~= slashed(all));
    cs
}

/// The logical path that `p` names.
pub fn normalize_path(p: &str) -> (r: String)
    ensures
        r@ == normal(p@),
{
    let cs = with_slashes(p);
    let here: Vec<char> = vec!['.', '/'];
    assert(here@ =~= seq!['.', '/']);
    assert(cs@.skip(0) =~= cs@);
    let a: usize = skip_leading_text(&cs, 0, &here);
    let b: usize = skip_leading(&cs, a, '/');
    let rest = string_of(&cs, b, cs.len());
    assert(rest@ =~= cs@.skip(b as int));
    prefixed('/', &rest)
}

/// `c` and then `s`.
pub fn prefixed(c: char, s: &String) -> (r: String)
    ensures
        r@ == seq![c] + s@,
{
    let mut r = String::new();
    r.push(c);
    r.append(s.as_str());
    assert(r@ =~= seq![c] + s@);
    r
}

/// `s` with a slash behind it.
pub fn with_slash(s: &String) -> (r: String)
    ensures
        r@ == inside(s@),
{
    let mut r = s.clone();
    r.push('/');
    r
}

/// Whether `p` is the root directory.
pub fn is_root(p: &String) -> (r: bool)
    ensures
        r == (p@ == root()),
{
    let cs = chars_of(p.as_str());
    let r = cs.len() == 1 && cs[0] == '/';
    assert(r ==> cs@ =~= root());
    r
}

/// A path without its leading slashes has none left.
proof fn lemma_leading_gone(s: Seq<char>, c: char)
    ensures
        ({
            let t = crate::text::without_leading(s, c);
            t.len() == 0 || t[0] != c
        }),
        forall|i: int|
            0 <= i < crate::text::without_leading(s, c).len() ==> s.contains(
                #[trigger] crate::text::without_leading(s, c)[i],
            ),
    decreases s.len(),
{
    if s.len() > 0 && s[0] == c {
        lemma_leading_gone(s.drop_first(), c);
        let t = crate::text::without_leading(s, c);
        assert forall|i: int| 0 <= i < t.len() implies s.contains(#[trigger] t[i]) by {
            assert(s.drop_first().contains(t[i]));
            let j = s.drop_first().index_of(t[i]);
            assert(s[j + 1] == t[i]);
        }
    } else {
        assert forall|i: int| 0 <= i < s.len() implies s.contains(#[trigger] s[i]) by {}
    }
}

proof fn lemma_leading_text_contained(s: Seq<char>, p: Seq<char>)
    ensures
        forall|i: int|
            0 <= i < crate::text::without_leading_text(s, p).len() ==> s.contains(
                #[trigger] crate::text::without_leading_text(s, p)[i],
            ),
    decreases s.len(),
{
    let t = crate::text::without_leading_text(s, p);
    if p.len() > 0 && crate::text::begins(s, p) {
        let rest = s.skip(p.len() as int);
        lemma_leading_text_contained(rest, p);
        let u = crate::text::without_leading_text(rest, p);
        assert(t == u);
        assert forall|i: int| 0 <= i < t.len() implies s.contains(#[trigger] t[i]) by {
            assert(rest.contains(u[i]));
            let j = rest.index_of(t[i]);
            assert(s[j + p.len()] == t[i]);
        }
    } else {
        assert forall|i: int| 0 <= i < s.len() implies s.contains(#[trigger] s[i]) by {}
    }
}

/// A normal path has one leading slash and no backslash.
pub proof fn normal_shape(p: Seq<char>)
    ensures
        normal(p).len() >= 1,
        normal(p)[0] == '/',
        normal(p).len() > 1 ==> normal(p)[1] != '/',
        forall|i: int| 0 <= i < normal(p).len() ==> normal(p)[i] != '\\',
{
    let a = slashed(p);
    let b = crate::text::without_leading_text(a, seq!['.', '/']);
    let c = crate::text::without_leading(b, '/');
    lemma_leading_text_contained(a, seq!['.', '/']);
    lemma_leading_gone(b, '/');
    assert forall|i: int| 0 <= i < normal(p).len() implies normal(p)[i] != '\\' by {
        if i > 0 {
            assert(normal(p)[i] == c[i - 1]);
            assert(b.contains(c[i - 1]));
            let j = b.index_of(c[i - 1]);
            assert(a.contains(b[j]));
            let k = a.index_of(b[j]);
            assert(a[k] != '\\');
        }
    }
}

/// To normalise a path twice is to normalise it once.
pub proof fn normalize_is_idempotent(p: Seq<char>)
    ensures
        normal(normal(p)) == normal(p),
{
    normal_shape(p);
    let n = normal(p);
    assert(slashed(n) =~= n);
    let dot = seq!['.', '/'];
    assert(!crate::text::begins(n, dot)) by {
        if crate::text::begins(n, dot) {
            assert(n.take(2)[0] == dot[0]);
        }
    }
    assert(crate::text::without_leading_text(n, dot) == n);
    let rest = n.drop_first();
    assert(crate::text::without_leading(n, '/') == crate::text::without_leading(rest, '/'));
    assert(crate::text::without_leading(rest, '/') == rest);
    assert(normal(n) =~= n);
}

/// A path that needs nothing done to it is only put below the root.
pub proof fn plain_path_is_rooted(q: Seq<char>)
    requires
        forall|i: int| 0 <= i < q.len() ==> q[i] != '\\',
        q.len() > 0 ==> q[0] != '/',
        q.len() > 1 ==> !(q[0] == '.' && q[1] == '/'),
    ensures
        normal(q) == seq!['/'] + q,
{
    let dot = seq!['.', '/'];
    assert(slashed(q) =~= q);
    if crate::text::begins(q, dot) {
        assert(q.take(2)[0] == dot[0] && q.take(2)[1] == dot[1]);
    }
    assert(crate::text::without_leading_text(q, dot) == q);
    assert(crate::text::without_leading(q, '/') == q);
}

/// A leading slash makes no difference, unless what follows it begins with a dot and a slash.
pub proof fn leading_slash_is_dropped(q: Seq<char>)
    requires
        q.len() > 1 ==> !(q[0] == '.' && (q[1] == '/' || q[1] == '\\')),
    ensures
        normal(seq!['/'] + q) == normal(q),
{
    let dot = seq!['.', '/'];
    let p = seq!['/'] + q;
    let a = slashed(p);
    let b = slashed(q);
    assert(a =~= seq!['/'] + b);
    if crate::text::begins(a, dot) {
        assert(a.take(2)[0] == dot[0]);
    }
    if crate::text::begins(b, dot) {
        assert(b.take(2)[0] == dot[0] && b.take(2)[1] == dot[1]);
        assert(b[0] == '.' && b[1] == '/');
    }
    assert(crate::text::without_leading_text(a, dot) == a);
    assert(crate::text::without_leading_text(b, dot) == b);
    assert(a[0] == '/');
    assert(a.drop_first() =~= b);
    assert(crate::text::without_leading(a, '/') == crate::text::without_leading(b, '/'));
}

/// A leading dot with its slash makes no difference.
pub proof fn leading_dot_is_dropped(q: Seq<char>)
    ensures
        normal(seq!['.', '/'] + q) == normal(q),
{
    let dot = seq!['.', '/'];
    let a = slashed(dot + q);
    let b = slashed(q);
    assert(a =~= dot + b);
    assert(a.take(2) =~= dot);
    assert(crate::text::begins(a, dot));
    assert(a.skip(2) =~= b);
}

/// Backslashes and slashes are the same in a path.
pub proof fn backslash_is_a_slash(p: Seq<char>, q: Seq<char>)
    requires
        p.len() == q.len(),
        forall|i: int|
            0 <= i < p.len() ==> #[trigger] q[i] == p[i] || (p[i] == '\\' && q[i] == '/'),
    ensures
        normal(p) == normal(q),
{
    assert(slashed(p) =~= slashed(q));
}

/// Only leading dots are dropped: one behind a slash stays.
pub proof fn dot_behind_a_slash_stays(r: Seq<char>)
    requires
        forall|i: int| 0 <= i < r.len() ==> r[i] != '\\',
    ensures
        normal(seq!['/', '.', '/'] + r) == seq!['/', '.', '/'] + r,
{
    let p = seq!['/', '.', '/'] + r;
    let dot = seq!['.', '/'];
    assert(slashed(p) =~= p);
    if crate::text::begins(p, dot) {
        assert(p.take(2)[0] == dot[0]);
    }
    assert(crate::text::without_leading_text(p, dot) == p);
    let rest = p.drop_first();
    assert(rest[0] == '.');
    assert(p[0] == '/');
    assert(crate::text::without_leading(rest, '/') == rest);
    assert(crate::text::without_leading(p, '/') == crate::text::without_leading(rest, '/'));
    assert(normal(p) =~= p);
}

/// Backslashes become slashes, and nothing else changes.
pub proof fn separators_are_turned(s: Seq<char>)
    ensures
        slashed(s).len() == s.len(),
        forall|i: int|
            0 <= i < s.len() ==> #[trigger] slashed(s)[i] == (if s[i] == '\\' {
                '/'
            } else {
                s[i]
            }),
{
}

} // verus!
