//! Strings as sequences of characters.

use vstd::prelude::*;

verus! {

/// `String::push` appends one character.
pub assume_specification[ String::push ](s: &mut String, c: char)
    ensures
        final(s)@ == old(s)@.push(c),
;

/// What `str::to_lowercase` makes of a string.
pub uninterp spec fn lowercase(s: Seq<char>) -> Seq<char>;

/// Calls `str::to_lowercase`; its result is named by [`lowercase`].
#[verifier::external_body]
pub(crate) fn to_lowercase(s: &str) -> (r: String)
    ensures
        r@ == lowercase(s@),
{
    s.to_lowercase()
}

/// What `String::from_utf8_lossy` makes of bytes.
pub uninterp spec fn utf8_lossy(b: Seq<u8>) -> Seq<char>;

/// Calls `String::from_utf8_lossy`; its result is named by [`utf8_lossy`]. Bytes that are the
/// UTF-8 of some text give that text.
#[verifier::external_body]
pub(crate) fn from_utf8_lossy(b: &[u8]) -> (r: String)
    ensures
        r@ == utf8_lossy(b@),
        forall|s: Seq<char>| b@ == #[trigger] vstd::utf8::encode_utf8(s) ==> r@ == s,
{
    String::from_utf8_lossy(b).into_owned()
}

/// The characters of `s`.
pub fn chars_of(s: &str) -> (r: Vec<char>)
    ensures
        r@ == s@,
{
    let mut r: Vec<char> = Vec::new();
    let mut left = s.chars();
    loop
        invariant
            s@ == r@ + vstd::std_specs::iter::IteratorSpec::remaining(&left),
        decreases s@.len() - r@.len(),
    {
        let ghost before = r@;
        let ghost rest = vstd::std_specs::iter::IteratorSpec::remaining(&left);
        match left.next() {
            None => {
                assert(r@ + rest =~= r@);
                return r;
            },
            Some(c) => {
                r.push(c);
                assert(before + rest =~= r@ + rest.drop_first());
            },
        }
    }
}

/// The string made of the characters `cs[from..to]`.
pub fn string_of(cs: &Vec<char>, from: usize, to: usize) -> (r: String)
    requires
        from <= to <= cs@.len(),
    ensures
        r@ == cs@.subrange(from as int, to as int),
{
    let mut r = String::new();
    let mut i: usize = from;
    while i < to
        invariant
            from <= i <= to <= cs@.len(),
            r@ == cs@.subrange(from as int, i as int),
        decreases to - i,
    {
        r.push(cs[i]);
        assert(cs@.subrange(from as int, i + 1) =~= cs@.subrange(from as int, i as int).push(
            cs@[i as int],
        ));
        i = i + 1;
    }
    r
}

/// `s` starts with `p`.
pub open spec fn begins(s: Seq<char>, p: Seq<char>) -> bool {
    p.len() <= s.len() && s.take(p.len() as int) == p
}

/// `p` stands in `s` at `at`.
pub open spec fn stands_at(s: Seq<char>, p: Seq<char>, at: int) -> bool {
    0 <= at && at + p.len() <= s.len() && s.subrange(at, at + p.len()) == p
}

/// `p` stands somewhere in `s`.
pub open spec fn holds_text(s: Seq<char>, p: Seq<char>) -> bool {
    exists|at: int| stands_at(s, p, at)
}

/// Whether `p` stands in `s` at `at`.
pub fn matches_at(s: &Vec<char>, p: &Vec<char>, at: usize) -> (r: bool)
    requires
        at <= s@.len(),
    ensures
        r == stands_at(s@, p@, at as int),
{
    if p.len() > s.len() - at {
        return false;
    }
    let mut i: usize = 0;
    while i < p.len()
        invariant
            i <= p@.len(),
            at + p@.len() <= s@.len() <= usize::MAX,
            forall|j: int| 0 <= j < i ==> s@[at + j] == p@[j],
        decreases p@.len() - i,
    {
        if s[at + i] != p[i] {
            assert(s@.subrange(at as int, at + p@.len())[i as int] == s@[at + i]);
            return false;
        }
        i = i + 1;
    }
    assert(s@.subrange(at as int, at + p@.len()) =~= p@);
    true
}

/// Whether `s` starts with `p`.
pub fn starts_with(s: &Vec<char>, p: &Vec<char>) -> (r: bool)
    ensures
        r == begins(s@, p@),
{
    let r = matches_at(s, p, 0);
    assert(p@.len() <= s@.len() ==> s@.subrange(0, p@.len() as int) =~= s@.take(p@.len() as int));
    r
}

/// Whether `p` stands somewhere in `s`.
pub fn contains_text(s: &Vec<char>, p: &Vec<char>) -> (r: bool)
    ensures
        r == holds_text(s@, p@),
{
    let mut at: usize = 0;
    while at < s.len()
        invariant
            at <= s@.len(),
            forall|k: int| 0 <= k < at ==> !stands_at(s@, p@, k),
        decreases s@.len() - at,
    {
        if matches_at(s, p, at) {
            return true;
        }
        at = at + 1;
    }
    let r = matches_at(s, p, at);
    assert forall|k: int| stands_at(s@, p@, k) implies r by {
        assert(k == at);
    }
    r
}

/// Where `c` first stands in `s` at or after `from`.
pub fn find_char(s: &Vec<char>, from: usize, c: char) -> (r: Option<usize>)
    requires
        from <= s@.len(),
    ensures
        match r {
            Some(i) => from <= i < s@.len() && s@[i as int] == c && forall|j: int|
                from <= j < i ==> s@[j] != c,
            None => forall|j: int| from <= j < s@.len() ==> s@[j] != c,
        },
{
    let mut i: usize = from;
    while i < s.len()
        invariant
            from <= i <= s@.len(),
            forall|j: int| from <= j < i ==> s@[j] != c,
        decreases s@.len() - i,
    {
        if s[i] == c {
            return Some(i);
        }
        i = i + 1;
    }
    None
}

/// Where `c` last stands in `s[..to]`.
pub fn rfind_char(s: &Vec<char>, to: usize, c: char) -> (r: Option<usize>)
    requires
        to <= s@.len(),
    ensures
        match r {
            Some(i) => i < to && s@[i as int] == c && forall|j: int| i < j < to ==> s@[j] != c,
            None => forall|j: int| 0 <= j < to ==> s@[j] != c,
        },
{
    let mut i: usize = to;
    while i > 0
        invariant
            i <= to <= s@.len(),
            forall|j: int| i <= j < to ==> s@[j] != c,
        decreases i,
    {
        i = i - 1;
        if s[i] == c {
            return Some(i);
        }
    }
    None
}

/// `s` without the characters `c` it starts with.
pub open spec fn without_leading(s: Seq<char>, c: char) -> Seq<char>
    decreases s.len(),
{
    if s.len() > 0 && s[0] == c {
        without_leading(s.drop_first(), c)
    } else {
        s
    }
}

/// `s` without the characters `c` it ends with.
pub open spec fn without_trailing(s: Seq<char>, c: char) -> Seq<char>
    decreases s.len(),
{
    if s.len() > 0 && s.last() == c {
        without_trailing(s.drop_last(), c)
    } else {
        s
    }
}

/// `s` without the copies of `p` it starts with.
pub open spec fn without_leading_text(s: Seq<char>, p: Seq<char>) -> Seq<char>
    decreases s.len(),
{
    if p.len() > 0 && begins(s, p) {
        without_leading_text(s.skip(p.len() as int), p)
    } else {
        s
    }
}

/// How many characters at `from` and after it are copies of `c`, as the place behind them.
pub fn skip_leading(s: &Vec<char>, from: usize, c: char) -> (r: usize)
    requires
        from <= s@.len(),
    ensures
        from <= r <= s@.len(),
        s@.skip(r as int) == without_leading(s@.skip(from as int), c),
{
    let mut i: usize = from;
    while i < s.len() && s[i] == c
        invariant
            from <= i <= s@.len(),
            without_leading(s@.skip(i as int), c) == without_leading(s@.skip(from as int), c),
        decreases s@.len() - i,
    {
        assert(s@.skip(i as int).drop_first() =~= s@.skip(i + 1));
        i = i + 1;
    }
    i
}

/// Where `s` ends once the characters `c` at its end are left out.
pub fn skip_trailing(s: &Vec<char>, c: char) -> (r: usize)
    ensures
        r <= s@.len(),
        s@.take(r as int) == without_trailing(s@, c),
{
    let mut i: usize = s.len();
    assert(s@.take(i as int) =~= s@);
    while i > 0 && s[i - 1] == c
        invariant
            i <= s@.len(),
            without_trailing(s@.take(i as int), c) == without_trailing(s@, c),
        decreases i,
    {
        assert(s@.take(i as int).drop_last() =~= s@.take(i - 1));
        i = i - 1;
    }
    i
}

/// Behind the copies of `p` that stand at `from`.
pub fn skip_leading_text(s: &Vec<char>, from: usize, p: &Vec<char>) -> (r: usize)
    requires
        from <= s@.len(),
        p@.len() > 0,
    ensures
        from <= r <= s@.len(),
        s@.skip(r as int) == without_leading_text(s@.skip(from as int), p@),
{
    let n: usize = s.len();
    let mut i: usize = from;
    loop
        invariant
            from <= i <= s@.len(),
            n == s@.len(),
            p@.len() > 0,
            without_leading_text(s@.skip(i as int), p@) == without_leading_text(
                s@.skip(from as int),
                p@,
            ),
        decreases s@.len() - i,
    {
        let here = matches_at(s, p, i);
        proof {
            if i + p@.len() <= s@.len() {
                assert(s@.skip(i as int).take(p@.len() as int) =~= s@.subrange(
                    i as int,
                    i + p@.len(),
                ));
            }
        }
        if !here {
            return i;
        }
        assert(s@.skip(i as int).skip(p@.len() as int) =~= s@.skip(i + p@.len()));
        i = i + p.len();
    }
}

/// The letters `A` to `Z` made small; every other character stays.
pub open spec fn ascii_folded(c: char) -> char {
    if 'A' <= c && c <= 'Z' {
        (c as u32 + 32) as char
    } else {
        c
    }
}

/// The two strings differ at most in the case of ASCII letters.
pub open spec fn same_but_case(a: Seq<char>, b: Seq<char>) -> bool {
    a.len() == b.len() && forall|i: int|
        0 <= i < a.len() ==> #[trigger] ascii_folded(a[i]) == ascii_folded(b[i])
}

pub fn fold_ascii(c: char) -> (r: char)
    ensures
        r == ascii_folded(c),
{
    if 'A' <= c && c <= 'Z' {
        let code: u8 = c as u8;
        (code + 32) as char
    } else {
        c
    }
}

/// Whether `a[..n]` and `b[..n]` differ at most in the case of ASCII letters.
pub fn same_prefix_but_case(a: &Vec<char>, b: &Vec<char>, n: usize) -> (r: bool)
    requires
        n <= a@.len(),
        n <= b@.len(),
    ensures
        r == same_but_case(a@.take(n as int), b@.take(n as int)),
{
    let mut i: usize = 0;
    while i < n
        invariant
            i <= n <= a@.len(),
            n <= b@.len(),
            forall|j: int| 0 <= j < i ==> #[trigger] ascii_folded(a@[j]) == ascii_folded(b@[j]),
        decreases n - i,
    {
        if fold_ascii(a[i]) != fold_ascii(b[i]) {
            assert(ascii_folded(a@.take(n as int)[i as int]) != ascii_folded(
                b@.take(n as int)[i as int],
            ));
            return false;
        }
        i = i + 1;
    }
    assert forall|j: int| 0 <= j < n implies #[trigger] ascii_folded(a@.take(n as int)[j])
        == ascii_folded(b@.take(n as int)[j]) by {
        assert(ascii_folded(a@[j]) == ascii_folded(b@[j]));
    }
    true
}

/// The characters with Unicode's `White_Space` property.
pub open spec fn is_space(c: char) -> bool {
    let n = c as u32;
    ||| 0x9 <= n <= 0xd
    ||| n == 0x20
    ||| n == 0x85
    ||| n == 0xa0
    ||| n == 0x1680
    ||| 0x2000 <= n <= 0x200a
    ||| n == 0x2028
    ||| n == 0x2029
    ||| n == 0x202f
    ||| n == 0x205f
    ||| n == 0x3000
}

pub fn is_whitespace(c: char) -> (r: bool)
    ensures
        r == is_space(c),
{
    let n: u32 = c as u32;
    (0x9 <= n && n <= 0xd) || n == 0x20 || n == 0x85 || n == 0xa0 || n == 0x1680 || (0x2000 <= n
        && n <= 0x200a) || n == 0x2028 || n == 0x2029 || n == 0x202f || n == 0x205f || n == 0x3000
}

/// `s` without the white space it starts with.
pub open spec fn without_leading_space(s: Seq<char>) -> Seq<char>
    decreases s.len(),
{
    if s.len() > 0 && is_space(s[0]) {
        without_leading_space(s.drop_first())
    } else {
        s
    }
}

/// `s` without the white space it ends with.
pub open spec fn without_trailing_space(s: Seq<char>) -> Seq<char>
    decreases s.len(),
{
    if s.len() > 0 && is_space(s.last()) {
        without_trailing_space(s.drop_last())
    } else {
        s
    }
}

/// `s` without the white space around it.
pub open spec fn trimmed(s: Seq<char>) -> Seq<char> {
    without_trailing_space(without_leading_space(s))
}

/// `s` without the white space around it.
pub fn trim(s: &str) -> (r: String)
    ensures
        r@ == trimmed(s@),
{
    let cs = chars_of(s);
    let mut from: usize = 0;
    assert(cs@.skip(0) =~= cs@);
    while from < cs.len() && is_whitespace(cs[from])
        invariant
            from <= cs@.len(),
            without_leading_space(cs@.skip(from as int)) == without_leading_space(cs@),
        decreases cs@.len() - from,
    {
        assert(cs@.skip(from as int).drop_first() =~= cs@.skip(from + 1));
        from = from + 1;
    }
    let mut to: usize = cs.len();
    assert(cs@.subrange(from as int, to as int) =~= cs@.skip(from as int));
    while to > from && is_whitespace(cs[to - 1])
        invariant
            from <= to <= cs@.len(),
            without_trailing_space(cs@.subrange(from as int, to as int)) == trimmed(cs@),
        decreases to,
    {
        assert(cs@.subrange(from as int, to as int).drop_last() =~= cs@.subrange(
            from as int,
            to - 1,
        ));
        to = to - 1;
    }
    string_of(&cs, from, to)
}

/// Only leading `c`s are taken from the front of a text, and all of them.
pub proof fn leading_run_is_cut(s: Seq<char>, c: char)
    ensures
        without_leading(s, c).len() <= s.len(),
        without_leading(s, c) == s.skip(s.len() - without_leading(s, c).len()),
        forall|i: int| 0 <= i < s.len() - without_leading(s, c).len() ==> s[i] == c,
        without_leading(s, c).len() > 0 ==> without_leading(s, c)[0] != c,
    decreases s.len(),
{
    if s.len() > 0 && s[0] == c {
        let t = s.drop_first();
        leading_run_is_cut(t, c);
        assert forall|i: int| 0 <= i < s.len() - without_leading(s, c).len() implies s[i] == c by {
            if i > 0 {
                assert(t[i - 1] == c);
            }
        }
    }
}

/// Only trailing `c`s are taken from the end of a text, and all of them.
pub proof fn trailing_run_is_cut(s: Seq<char>, c: char)
    ensures
        without_trailing(s, c).len() <= s.len(),
        without_trailing(s, c) == s.take(without_trailing(s, c).len() as int),
        forall|i: int| without_trailing(s, c).len() <= i < s.len() ==> s[i] == c,
        without_trailing(s, c).len() > 0 ==> without_trailing(s, c).last() != c,
    decreases s.len(),
{
    if s.len() > 0 && s.last() == c {
        let t = s.drop_last();
        trailing_run_is_cut(t, c);
        assert forall|i: int| without_trailing(s, c).len() <= i < s.len() implies s[i] == c by {
            if i < t.len() {
                assert(t[i] == c);
            }
        }
    }
}

proof fn lemma_leading_space(s: Seq<char>)
    ensures
        without_leading_space(s).len() <= s.len(),
        without_leading_space(s) == s.skip(s.len() - without_leading_space(s).len()),
        forall|i: int| 0 <= i < s.len() - without_leading_space(s).len() ==> is_space(s[i]),
        without_leading_space(s).len() > 0 ==> !is_space(without_leading_space(s)[0]),
    decreases s.len(),
{
    if s.len() > 0 && is_space(s[0]) {
        let t = s.drop_first();
        lemma_leading_space(t);
        assert forall|i: int| 0 <= i < s.len() - without_leading_space(s).len() implies is_space(
            s[i],
        ) by {
            if i > 0 {
                assert(is_space(t[i - 1]));
            }
        }
    }
}

proof fn lemma_trailing_space(s: Seq<char>)
    ensures
        without_trailing_space(s).len() <= s.len(),
        without_trailing_space(s) == s.take(without_trailing_space(s).len() as int),
        forall|i: int| without_trailing_space(s).len() <= i < s.len() ==> is_space(s[i]),
        without_trailing_space(s).len() > 0 ==> !is_space(without_trailing_space(s).last()),
    decreases s.len(),
{
    if s.len() > 0 && is_space(s.last()) {
        let t = s.drop_last();
        lemma_trailing_space(t);
        assert forall|i: int| without_trailing_space(s).len() <= i < s.len() implies is_space(
            s[i],
        ) by {
            if i < t.len() {
                assert(is_space(t[i]));
            }
        }
    }
}

/// A text that neither begins nor ends with white space is what is left of it with white space
/// on both sides.
pub proof fn trim_cuts_the_margins(front: Seq<char>, s: Seq<char>, back: Seq<char>)
    requires
        forall|i: int| 0 <= i < front.len() ==> is_space(front[i]),
        forall|i: int| 0 <= i < back.len() ==> is_space(back[i]),
        s.len() > 0 ==> !is_space(s[0]) && !is_space(s.last()),
    ensures
        trimmed(front + s + back) == s,
{
    let all = front + s + back;
    let a = without_leading_space(all);
    let t = trimmed(all);
    lemma_leading_space(all);
    lemma_trailing_space(a);
    let from = all.len() - a.len();
    if s.len() == 0 {
        if t.len() > 0 {
            assert(t[0] == all[from as int] && t[0] == a[0]);
            assert(is_space(all[from as int]));
        }
        assert(t =~= s);
    } else {
        if from < front.len() {
            assert(a[0] == all[from as int]);
            assert(all[from as int] == front[from as int]);
        } else if from > front.len() {
            assert(is_space(all[front.len() as int]));
            assert(all[front.len() as int] == s[0]);
        }
        assert(from == front.len());
        assert(a =~= s + back);
        if t.len() > s.len() {
            assert(t.last() == a[t.len() - 1]);
            assert(a[t.len() - 1] == back[t.len() - 1 - s.len()]);
        } else if t.len() < s.len() {
            assert(is_space(a[s.len() - 1]));
            assert(a[s.len() - 1] == s.last());
        }
        assert(t =~= s);
    }
}

/// Two texts are the same but for case exactly if they have the same length and each character
/// of one is that of the other, or is the same letter of `a` to `z` in the other case.
pub proof fn case_alone_is_ignored(a: Seq<char>, b: Seq<char>)
    ensures
        same_but_case(a, b) <==> a.len() == b.len() && forall|i: int|
            0 <= i < a.len() ==> {
                ||| #[trigger] a[i] == b[i]
                ||| 'A' <= a[i] <= 'Z' && b[i] as int == a[i] as int + 32
                ||| 'A' <= b[i] <= 'Z' && a[i] as int == b[i] as int + 32
            },
{
    if same_but_case(a, b) {
        assert forall|i: int| 0 <= i < a.len() implies {
            ||| #[trigger] a[i] == b[i]
            ||| 'A' <= a[i] <= 'Z' && b[i] as int == a[i] as int + 32
            ||| 'A' <= b[i] <= 'Z' && a[i] as int == b[i] as int + 32
        } by {
            assert(ascii_folded(a[i]) == ascii_folded(b[i]));
        }
    }
    if a.len() == b.len() && forall|i: int|
        0 <= i < a.len() ==> {
            ||| #[trigger] a[i] == b[i]
            ||| 'A' <= a[i] <= 'Z' && b[i] as int == a[i] as int + 32
            ||| 'A' <= b[i] <= 'Z' && a[i] as int == b[i] as int + 32
        } {
        assert forall|i: int| 0 <= i < a.len() implies #[trigger] ascii_folded(a[i])
            == ascii_folded(b[i]) by {
            assert(a[i] == a[i]);
        }
    }
}

/// Nothing is left of a text exactly if it is white space alone.
pub proof fn blank_text_is_trimmed_away(s: Seq<char>)
    ensures
        trimmed(s).len() == 0 <==> forall|i: int| 0 <= i < s.len() ==> is_space(s[i]),
{
    let a = without_leading_space(s);
    lemma_leading_space(s);
    lemma_trailing_space(a);
    if trimmed(s).len() == 0 {
        let from = s.len() - a.len();
        assert forall|i: int| 0 <= i < s.len() implies is_space(s[i]) by {
            if i >= from {
                assert(is_space(a[i - from]));
            }
        }
    }
    if trimmed(s).len() > 0 {
        assert(a.len() > 0);
        assert(a[0] == s[s.len() - a.len()]);
        assert(!is_space(s[s.len() - a.len()]));
    }
}

} // verus!
