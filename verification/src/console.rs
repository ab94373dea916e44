//! What the command line computes: which files it lists, quotas, its test data and the password
//! that it reads.

use crate::bytes::push_le64;
use crate::catalog::{Catalog, Snapshot};
use crate::paths::{prefixed, with_slash, with_slashes};
use crate::text::{chars_of, from_utf8_lossy, skip_leading, skip_trailing, starts_with, string_of};
use crate::vault::stats::total_size;
use vstd::prelude::*;

verus! {

/// A megabyte.
pub const MEGABYTE: u64 = 1_048_576;

/// The path that a prefix on the command line stands for.
pub open spec fn prefix_path(p: Seq<char>) -> Seq<char> {
    seq!['/'] + crate::text::without_leading(crate::paths::slashed(p), '/')
}

/// The file is the one at `f` or stands inside it, whatever slashes `f` ends with.
pub open spec fn listed_under(f: Seq<char>) -> spec_fn(Seq<char>) -> bool {
    |path: Seq<char>|
        path == f || crate::text::begins(
            path,
            crate::paths::inside(crate::text::without_trailing(f, '/')),
        )
}

/// The paths of the files that are listed, in order.
pub open spec fn listed_paths(
    c: crate::catalog::CatalogView,
    prefix: Option<Seq<char>>,
) -> Seq<Seq<char>> {
    let all = crate::vault::tree::path_order(c.files.dom());
    match prefix {
        Some(p) => all.filter(listed_under(prefix_path(p))),
        None => all,
    }
}

/// The view of an optional text.
pub open spec fn text_view(s: Option<&str>) -> Option<Seq<char>> {
    match s {
        Some(s) => Some(s@),
        None => None,
    }
}

/// `r` holds the files that are listed, with their sizes.
pub open spec fn is_file_list(
    c: crate::catalog::CatalogView,
    prefix: Option<Seq<char>>,
    r: Seq<(String, u64)>,
) -> bool {
    let paths = listed_paths(c, prefix);
    &&& r.len() == paths.len()
    &&& forall|i: int|
        0 <= i < r.len() ==> (#[trigger] r[i]).0@ == paths[i] && c.files.contains_key(paths[i])
            && r[i].1 == c.files[paths[i]].size
}

fn prefix_of(p: &str) -> (r: String)
    ensures
        r@ == prefix_path(p@),
{
    let cs = with_slashes(p);
    assert(cs@.skip(0) =~= cs@);
    let from: usize = skip_leading(&cs, 0, '/');
    let rest = string_of(&cs, from, cs.len());
    assert(rest@ =~= cs@.skip(from as int));
    prefixed('/', &rest)
}

/// The files under a prefix, or all of them, with their sizes.
pub fn list_files(catalog: &Catalog, prefix: Option<&str>) -> (r: Vec<(String, u64)>)
    requires
        catalog.wf(),
    ensures
        is_file_list(catalog@, text_view(prefix), r@),
{
    let f = match prefix {
        Some(p) => Some(prefix_of(p)),
        None => None,
    };
    let stem: Vec<char> = match &f {
        Some(f) => {
            let cs = chars_of(f.as_str());
            let base = string_of(&cs, 0, skip_trailing(&cs, '/'));
            assert(base@ =~= crate::text::without_trailing(f@, '/'));
            chars_of(with_slash(&base).as_str())
        },
        None => Vec::new(),
    };
    let ghost keys = catalog.files.key_seq();
    let ghost pick = |k: Seq<char>|
        match f {
            Some(f) => listed_under(f@)(k),
            None => true,
        };
    let mut r: Vec<(String, u64)> = Vec::new();
    let mut i: usize = 0;
    proof {
        catalog.files.lemma_rows();
        reveal(Seq::filter);
        assert(keys.take(0).filter(pick) =~= Seq::empty());
    }
    while i < catalog.files.len()
        invariant
            catalog.wf(),
            keys == catalog.files.key_seq(),
            i <= keys.len(),
            f matches Some(g) ==> stem@ == crate::paths::inside(
                crate::text::without_trailing(g@, '/'),
            ),
            pick == (|k: Seq<char>|
                match f {
                    Some(f) => listed_under(f@)(k),
                    None => true,
                }),
            r@.len() == keys.take(i as int).filter(pick).len(),
            forall|j: int|
                0 <= j < r@.len() ==> (#[trigger] r@[j]).0@ == keys.take(i as int).filter(pick)[j]
                    && catalog@.files.contains_key(r@[j].0@) && r@[j].1
                    == catalog@.files[r@[j].0@].size,
        decreases keys.len() - i,
    {
        proof {
            catalog.files.lemma_rows();
            reveal(Seq::filter);
            assert(keys.take(i + 1).drop_last() =~= keys.take(i as int));
            assert(keys.take(i + 1).last() == keys[i as int]);
            assert(catalog@.files.contains_key(keys[i as int]));
        }
        let path = catalog.files.key_at(i);
        let size: u64 = catalog.files.value_at(i).size;
        let wanted = match &f {
            Some(g) => *path == *g || {
                let cs = chars_of(path.as_str());
                starts_with(&cs, &stem)
            },
            None => true,
        };
        if wanted {
            r.push((path.clone(), size));
        }
        i = i + 1;
    }
    proof {
        assert(keys.take(i as int) =~= keys);
        match f {
            Some(g) => {
                assert(pick =~= listed_under(g@));
            },
            None => {
                lemma_all_kept(keys, pick);
            },
        }
        catalog.files.lemma_rows();
        let paths = listed_paths(catalog@, text_view(prefix));
        assert(crate::vault::tree::path_order(catalog@.files.dom()) == keys);
        assert(paths == keys.filter(pick));
        assert(is_file_list(catalog@, text_view(prefix), r@));
    }
    r
}

proof fn lemma_all_kept(keys: Seq<Seq<char>>, p: spec_fn(Seq<char>) -> bool)
    requires
        forall|i: int| 0 <= i < keys.len() ==> p(#[trigger] keys[i]),
    ensures
        keys.filter(p) == keys,
    decreases keys.len(),
{
    reveal(Seq::filter);
    if keys.len() > 0 {
        lemma_all_kept(keys.drop_last(), p);
        assert(keys =~= keys.drop_last().push(keys.last()));
    } else {
        assert(keys.filter(p) =~= keys);
    }
}

/// A quota in bytes; one that is too large is the largest there is.
pub fn quota_bytes(megabytes: u64) -> (r: u64)
    ensures
        r == (if megabytes * MEGABYTE <= u64::MAX {
            (megabytes * MEGABYTE) as u64
        } else {
            u64::MAX
        }),
{
    if megabytes <= u64::MAX / MEGABYTE {
        megabytes * MEGABYTE
    } else {
        u64::MAX
    }
}

/// The sizes of the files in a snapshot together.
pub fn snapshot_size(s: &Snapshot) -> (r: u128)
    requires
        s.wf(),
    ensures
        r == crate::vault::stats::size_total(s@.files),
{
    total_size(&s.files)
}

/// What the test data starts from.
pub const SEED: u64 = 0x2545_F491_4F6C_DD1D;

/// The next state of the generator.
pub open spec fn shifted(x: u64) -> u64 {
    let a = x ^ (x << 13);
    let b = a ^ (a >> 7);
    b ^ (b << 17)
}

/// The state of the generator after `n` steps.
pub open spec fn state(n: int) -> u64
    decreases n,
{
    if n <= 0 {
        SEED
    } else {
        shifted(state(n - 1))
    }
}

/// The byte `i` of the test data: the bytes of one state after the other.
pub open spec fn random_byte(i: int) -> u8 {
    crate::bytes::le64(state(i / 8 + 1))[i % 8]
}

/// `n` bytes of test data that do not compress.
pub fn gen_pseudo_random(n: usize) -> (r: Vec<u8>)
    ensures
        r@ == Seq::new(n as nat, |i: int| random_byte(i)),
{
    let mut out: Vec<u8> = Vec::new();
    let mut x: u64 = SEED;
    let ghost mut steps: int = 0;
    while n - out.len() >= 8
        invariant
            out@.len() <= n,
            out@.len() == 8 * steps,
            steps >= 0,
            x == state(steps),
            forall|i: int| 0 <= i < out@.len() ==> out@[i] == random_byte(i),
        decreases n - out@.len(),
    {
        let ghost before = out@;
        x = next_state(x);
        push_le64(&mut out, x);
        proof {
            steps = steps + 1;
            crate::bytes::lemma_le64(x, Seq::empty());
            assert forall|i: int| 0 <= i < out@.len() implies out@[i] == random_byte(i) by {
                if i >= before.len() {
                    assert(i / 8 + 1 == steps);
                    assert(i % 8 == i - before.len());
                }
            }
        }
    }
    let left: usize = n - out.len();
    if left > 0 {
        let ghost before = out@;
        x = next_state(x);
        let mut last: Vec<u8> = Vec::new();
        push_le64(&mut last, x);
        proof {
            crate::bytes::lemma_le64(x, Seq::empty());
            assert(last@ =~= crate::bytes::le64(x));
        }
        let mut k: usize = 0;
        while k < left
            invariant
                k <= left < 8,
                last@.len() == 8,
                last@ == crate::bytes::le64(x),
                x == state(steps + 1),
                before.len() == 8 * steps,
                steps >= 0,
                out@.len() == before.len() + k,
                n == before.len() + left,
                forall|i: int| 0 <= i < out@.len() ==> out@[i] == random_byte(i),
            decreases left - k,
        {
            assert((before.len() + k) / 8 == steps);
            assert((before.len() + k) % 8 == k);
            out.push(last[k]);
            k = k + 1;
        }
    }
    assert(out@ =~= Seq::new(n as nat, |i: int| random_byte(i)));
    out
}

fn next_state(x: u64) -> (r: u64)
    ensures
        r == shifted(x),
{
    let a: u64 = x ^ (x << 13);
    let b: u64 = a ^ (a >> 7);
    b ^ (b << 17)
}

/// The password in the bytes of a line: without a byte order mark in front and carriage returns
/// at the end. An empty one is none.
pub fn password_of_line(line: &[u8]) -> (r: Option<String>)
    ensures
        ({
            let text = crate::text::without_trailing(
                crate::text::without_leading(crate::text::utf8_lossy(line@), '\u{feff}'),
                '\r',
            );
            match r {
                Some(p) => p@ == text && text.len() > 0,
                None => text.len() == 0,
            }
        }),
        forall|s: Seq<char>|
            line@ == #[trigger] vstd::utf8::encode_utf8(s) ==> ({
                let text = crate::text::without_trailing(
                    crate::text::without_leading(s, '\u{feff}'),
                    '\r',
                );
                match r {
                    Some(p) => p@ == text && text.len() > 0,
                    None => text.len() == 0,
                }
            }),
{
    let s = from_utf8_lossy(line);
    let cs = chars_of(s.as_str());
    assert(cs@.skip(0) =~= cs@);
    let from: usize = skip_leading(&cs, 0, '\u{feff}');
    let tail = string_of(&cs, from, cs.len());
    assert(tail@ =~= cs@.skip(from as int));
    let ts = chars_of(tail.as_str());
    let to: usize = skip_trailing(&ts, '\r');
    let p = string_of(&ts, 0, to);
    assert(p@ =~= ts@.take(to as int));
    crate::naming::empty_to_none(Some(p))
}

/// A prefix is put below the root: leading slashes and backslashes make no difference, and a
/// backslash is a slash elsewhere too.
pub proof fn prefix_is_rooted(p: Seq<char>, q: Seq<char>)
    requires
        p.len() == q.len(),
        forall|i: int|
            0 <= i < p.len() ==> #[trigger] q[i] == p[i] || (p[i] == '\\' && q[i] == '/'),
        q.len() > 0 ==> q[0] != '/',
        forall|i: int| 0 <= i < q.len() ==> q[i] != '\\',
    ensures
        prefix_path(p) == seq!['/'] + q,
        prefix_path(seq!['/'] + p) == seq!['/'] + q,
        prefix_path(seq!['\\'] + p) == seq!['/'] + q,
{
    assert(crate::paths::slashed(p) =~= q);
    assert(crate::text::without_leading(q, '/') == q);
    let a = seq!['/'] + p;
    let b = seq!['\\'] + p;
    assert(crate::paths::slashed(a) =~= seq!['/'] + q);
    assert(crate::paths::slashed(b) =~= seq!['/'] + q);
    let c = seq!['/'] + q;
    assert(c.drop_first() =~= q);
    assert(crate::text::without_leading(c, '/') == crate::text::without_leading(q, '/'));
}

/// A list of files tells each file with its size, once and in the order of paths; with a prefix
/// only those whose path is the prefix, or begins with it and a slash.
pub proof fn files_under_the_prefix_are_listed(
    c: crate::catalog::CatalogView,
    prefix: Option<Seq<char>>,
    r: Seq<(String, u64)>,
    base: Seq<char>,
    slashes: Seq<char>,
    k: Seq<char>,
)
    requires
        c.files.dom().finite(),
        is_file_list(c, prefix, r),
        prefix matches Some(p) ==> prefix_path(p) == base + slashes,
        base.len() > 0 ==> base.last() != '/',
        forall|i: int| 0 <= i < slashes.len() ==> slashes[i] == '/',
    ensures
        ({
            let n = base.len() as int;
            let under = prefix is None || k == base + slashes || (k.len() > n && k.take(n) == base
                && k[n] == '/');
            &&& (exists|i: int| 0 <= i < r.len() && (#[trigger] r[i]).0@ == k)
                <==> c.files.contains_key(k) && under
            &&& forall|i: int|
                0 <= i < r.len() && (#[trigger] r[i]).0@ == k ==> r[i].1 == c.files[k].size
            &&& forall|i: int, j: int|
                #![trigger r[i], r[j]]
                0 <= i < j < r.len() ==> <String as crate::order::SortKey>::key_before(
                    r[i].0@,
                    r[j].0@,
                )
        }),
{
    let all = crate::vault::tree::path_order(c.files.dom());
    let paths = listed_paths(c, prefix);
    crate::sorted::lemma_in_order_exists::<String>(c.files.dom());
    assert(all.to_set().contains(k) == all.contains(k));
    match prefix {
        None => {},
        Some(p) => {
            let f = prefix_path(p);
            let cut = crate::text::without_trailing(f, '/');
            crate::text::trailing_run_is_cut(f, '/');
            if cut.len() > base.len() {
                assert(cut.last() == f[cut.len() - 1]);
                assert(f[cut.len() - 1] == slashes[cut.len() - 1 - base.len()]);
            } else if cut.len() < base.len() {
                assert(f[base.len() - 1] == base.last());
            }
            assert(cut =~= base);
            crate::vault::moves::lemma_filtered_members(all, listed_under(f));
            crate::vault::search::lemma_filter_ascends(all, listed_under(f));
            crate::vault::tree_laws::lemma_begins_inside(k, base);
        },
    }
    assert(paths.contains(k) <==> exists|i: int| 0 <= i < r.len() && (#[trigger] r[i]).0@ == k) by {
        if paths.contains(k) {
            let i = paths.index_of(k);
            assert(r[i].0@ == k);
        }
        if exists|i: int| 0 <= i < r.len() && (#[trigger] r[i]).0@ == k {
            let i = choose|i: int| 0 <= i < r.len() && (#[trigger] r[i]).0@ == k;
            assert(paths[i] == k);
        }
    }
}

/// However many slashes a prefix begins with, it is the same prefix.
pub proof fn leading_slashes_of_a_prefix_are_one(p: Seq<char>)
    ensures
        prefix_path(seq!['/'] + p) == prefix_path(p),
        prefix_path(seq!['\\'] + p) == prefix_path(p),
{
    let a = seq!['/'] + p;
    let b = crate::paths::slashed(p);
    assert(crate::paths::slashed(a) =~= seq!['/'] + b);
    assert(crate::paths::slashed(seq!['\\'] + p) =~= seq!['/'] + b);
    assert((seq!['/'] + b).drop_first() =~= b);
}

/// A prefix that is given is taken as it is.
pub proof fn given_prefix_is_taken(s: &str)
    ensures
        text_view(Some(s)) == Some(s@),
        text_view(None) is None,
{
}

} // verus!
