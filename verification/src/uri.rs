//! Paths that come from a drop: plain ones, or `file://` addresses with escapes.

use crate::text::{chars_of, from_utf8_lossy, string_of, trim};
use vstd::prelude::*;

verus! {

/// The value of a hexadecimal digit.
pub open spec fn hex(b: u8) -> Option<u8> {
    if 0x30 <= b <= 0x39 {
        Some((b - 0x30) as u8)
    } else if 0x41 <= b <= 0x46 {
        Some((b - 0x41 + 10) as u8)
    } else if 0x61 <= b <= 0x66 {
        Some((b - 0x61 + 10) as u8)
    } else {
        None
    }
}

/// The value of two bytes that are a hexadecimal number: two digits, or a plus sign and a digit.
pub open spec fn hex_pair(a: u8, b: u8) -> Option<u8> {
    match (hex(a), hex(b)) {
        (Some(x), Some(y)) => Some((16 * x + y) as u8),
        (None, Some(y)) => if a == 0x2b {
            Some(y)
        } else {
            None
        },
        _ => None,
    }
}

/// At `i` stands a percent sign with two bytes behind it.
pub open spec fn escape_at(b: Seq<u8>, i: int) -> bool {
    b[i] == 0x25 && i + 2 < b.len()
}

/// The bytes from `i` on with the escapes replaced.
pub open spec fn decoded(b: Seq<u8>, i: int) -> Seq<u8>
    decreases b.len() - i,
{
    if i < 0 || i >= b.len() {
        Seq::empty()
    } else if escape_at(b, i) && hex_pair(b[i + 1], b[i + 2]) is Some {
        seq![hex_pair(b[i + 1], b[i + 2])->0] + decoded(b, i + 3)
    } else {
        seq![b[i]] + decoded(b, i + 1)
    }
}

fn hex_value(b: u8) -> (r: Option<u8>)
    ensures
        r == hex(b),
{
    if 0x30 <= b && b <= 0x39 {
        Some(b - 0x30)
    } else if 0x41 <= b && b <= 0x46 {
        Some(b - 0x41 + 10)
    } else if 0x61 <= b && b <= 0x66 {
        Some(b - 0x61 + 10)
    } else {
        None
    }
}

fn pair_value(a: u8, b: u8) -> (r: Option<u8>)
    ensures
        r == hex_pair(a, b),
{
    match (hex_value(a), hex_value(b)) {
        (Some(x), Some(y)) => Some(16 * x + y),
        (None, Some(y)) => if a == 0x2b {
            Some(y)
        } else {
            None
        },
        _ => None,
    }
}

/// Replaces the escapes of a text; a percent sign without a number behind it stays.
pub fn percent_decode(s: &str) -> (r: String)
    ensures
        r@ == crate::text::utf8_lossy(decoded(vstd::utf8::encode_utf8(s@), 0)),
        forall|t: Seq<char>|
            decoded(vstd::utf8::encode_utf8(s@), 0) == #[trigger] vstd::utf8::encode_utf8(t)
                ==> r@ == t,
{
    let b = s.as_bytes();
    let n: usize = b.len();
    let mut out: Vec<u8> = Vec::new();
    let mut i: usize = 0;
    assert(out@ + decoded(b@, 0) =~= decoded(b@, 0));
    while i < n
        invariant
            n == b@.len(),
            i <= n,
            out@ + decoded(b@, i as int) == decoded(b@, 0),
        decreases n - i,
    {
        let ghost before = out@;
        if b[i] == 0x25 && n - i > 2 {
            if let Some(h) = pair_value(b[i + 1], b[i + 2]) {
                out.push(h);
                assert(before + decoded(b@, i as int) =~= out@ + decoded(b@, i + 3));
                i = i + 3;
                continue ;
            }
        }
        out.push(b[i]);
        assert(before + decoded(b@, i as int) =~= out@ + decoded(b@, i + 1));
        i = i + 1;
    }
    assert(out@ + decoded(b@, i as int) =~= out@);
    from_utf8_lossy(out.as_slice())
}

/// A byte of a character that is not ASCII is not ASCII either.
proof fn lemma_wide_bytes(c: u32, i: int)
    requires
        vstd::utf8::is_scalar(c),
        0 <= i < vstd::utf8::encode_scalar(c).len(),
    ensures
        c <= 0x7f ==> vstd::utf8::encode_scalar(c)[i] == c,
        c > 0x7f ==> vstd::utf8::encode_scalar(c)[i] >= 0x80,
{
    assert(c <= 0x7f ==> (c & 0x7f) as u8 == c) by (bit_vector);
    assert(0xC0u8 | ((c >> 6u32) & 0x1F) as u8 >= 0x80) by (bit_vector);
    assert(0xE0u8 | ((c >> 12u32) & 0x0F) as u8 >= 0x80) by (bit_vector);
    assert(0xF0u8 | ((c >> 18u32) & 0x7) as u8 >= 0x80) by (bit_vector);
    assert(0x80u8 | (c & 0x3F) as u8 >= 0x80) by (bit_vector);
    assert(0x80u8 | ((c >> 6u32) & 0x3F) as u8 >= 0x80) by (bit_vector);
    assert(0x80u8 | ((c >> 12u32) & 0x3F) as u8 >= 0x80) by (bit_vector);
}

proof fn lemma_no_percent(s: Seq<char>, i: int)
    requires
        !s.contains('%'),
        0 <= i < vstd::utf8::encode_utf8(s).len(),
    ensures
        vstd::utf8::encode_utf8(s)[i] != 0x25,
    decreases s.len(),
{
    let c = s[0] as u32;
    let front = vstd::utf8::encode_scalar(c);
    vstd::utf8::char_is_scalar(s[0]);
    assert(s.contains(s[0]));
    if i < front.len() {
        lemma_wide_bytes(c, i);
        vstd::utf8::char_u32_cast(s[0], c);
        assert(0x25u32 as char == '%');
    } else {
        assert forall|x: char| s.drop_first().contains(x) implies s.contains(x) by {
            let k = s.drop_first().index_of(x);
            assert(s[k + 1] == x);
        }
        lemma_no_percent(s.drop_first(), i - front.len());
    }
}

proof fn lemma_nothing_decoded(b: Seq<u8>, i: int)
    requires
        0 <= i <= b.len(),
        forall|k: int| 0 <= k < b.len() ==> b[k] != 0x25,
    ensures
        decoded(b, i) == b.skip(i),
    decreases b.len() - i,
{
    if i < b.len() {
        lemma_nothing_decoded(b, i + 1);
        assert(b.skip(i) =~= seq![b[i]] + b.skip(i + 1));
    } else {
        assert(b.skip(i) =~= Seq::empty());
    }
}

/// A text without a percent sign stays as it is.
pub proof fn text_without_escapes_stays(s: Seq<char>)
    requires
        !s.contains('%'),
    ensures
        decoded(vstd::utf8::encode_utf8(s), 0) == vstd::utf8::encode_utf8(s),
{
    let b = vstd::utf8::encode_utf8(s);
    assert forall|k: int| 0 <= k < b.len() implies b[k] != 0x25 by {
        lemma_no_percent(s, k);
    }
    lemma_nothing_decoded(b, 0);
    assert(b.skip(0) =~= b);
}

/// What a `file://` address starts with.
pub open spec fn scheme() -> Seq<char> {
    seq!['f', 'i', 'l', 'e', ':', '/', '/']
}

/// What stands behind the scheme of the address in `p`, if it is one. On Windows the slash in
/// front of the drive goes too.
pub open spec fn address(p: Seq<char>, windows: bool) -> Option<Seq<char>> {
    let t = crate::text::trimmed(p);
    if crate::text::begins(t, scheme()) {
        let rest = t.skip(7);
        if windows && rest.len() > 0 && rest[0] == '/' {
            Some(rest.drop_first())
        } else {
            Some(rest)
        }
    } else {
        None
    }
}

fn address_of(p: &str, windows: bool) -> (r: (String, bool))
    ensures
        match address(p@, windows) {
            Some(a) => r.1 && r.0@ == a,
            None => !r.1 && r.0@ == crate::text::trimmed(p@),
        },
{
    let t = trim(p);
    let cs = chars_of(t.as_str());
    let front: Vec<char> = vec!['f', 'i', 'l', 'e', ':', '/', '/'];
    assert(front@ =~= scheme());
    if !crate::text::starts_with(&cs, &front) {
        return (t, false);
    }
    let from: usize = if windows && cs.len() > 7 && cs[7] == '/' {
        8
    } else {
        7
    };
    let a = string_of(&cs, from, cs.len());
    proof {
        assert(a@ =~= cs@.skip(from as int));
        if from == 8 {
            assert(cs@.skip(8) =~= cs@.skip(7).drop_first());
        }
    }
    (a, true)
}

/// The path on the disk that a dropped path stands for: a `file://` address is turned into the
/// path in it, anything else only loses the white space around it.
pub fn normalize_drop_path(p: &str, windows: bool) -> (r: String)
    ensures
        match address(p@, windows) {
            Some(a) => r@ == crate::text::utf8_lossy(decoded(vstd::utf8::encode_utf8(a), 0))
                && forall|t: Seq<char>|
                decoded(vstd::utf8::encode_utf8(a), 0) == #[trigger] vstd::utf8::encode_utf8(t)
                    ==> r@ == t,
            None => r@ == crate::text::trimmed(p@),
        },
{
    let (a, is_address) = address_of(p, windows);
    if is_address {
        percent_decode(a.as_str())
    } else {
        a
    }
}

proof fn lemma_decoded_behind(front: Seq<u8>, rest: Seq<u8>, i: int)
    requires
        0 <= i,
    ensures
        decoded(front + rest, front.len() + i) == decoded(rest, i),
    decreases rest.len() - i,
{
    let b = front + rest;
    let j = front.len() + i;
    if i < rest.len() {
        assert(b[j] == rest[i]);
        if i + 2 < rest.len() {
            assert(b[j + 1] == rest[i + 1] && b[j + 2] == rest[i + 2]);
            lemma_decoded_behind(front, rest, i + 3);
        }
        lemma_decoded_behind(front, rest, i + 1);
    }
}

/// A byte that is no percent sign stands for itself, whatever follows it.
pub proof fn plain_byte_stays(c: u8, rest: Seq<u8>)
    requires
        c != 0x25,
    ensures
        decoded(seq![c] + rest, 0) == seq![c] + decoded(rest, 0),
        decoded(Seq::empty(), 0) == Seq::<u8>::empty(),
{
    lemma_decoded_behind(seq![c], rest, 0);
    assert((seq![c] + rest)[0] == c);
}

/// A percent sign with two hexadecimal digits, in upper or lower case, stands for the byte that
/// they write.
pub proof fn escaped_byte_is_decoded(a: u8, b: u8, x: u8, y: u8, rest: Seq<u8>)
    requires
        x < 16,
        y < 16,
        if x < 10 {
            a == 48 + x
        } else {
            a == 55 + x || a == 87 + x
        },
        if y < 10 {
            b == 48 + y
        } else {
            b == 55 + y || b == 87 + y
        },
    ensures
        decoded(seq![0x25u8, a, b] + rest, 0) == seq![(16 * x + y) as u8] + decoded(rest, 0),
{
    let front = seq![0x25u8, a, b];
    let all = front + rest;
    lemma_decoded_behind(front, rest, 0);
    assert(all[0] == 0x25 && all[1] == a && all[2] == b);
    assert(hex(a) == Some(x));
    assert(hex(b) == Some(y));
}

/// A percent sign that no two digits follow stands for itself; a plus sign counts in front of a
/// digit.
pub proof fn percent_sign_without_digits_stays(rest: Seq<u8>)
    requires
        rest.len() >= 2 ==> {
            let a = rest[0];
            let b = rest[1];
            let digit = 48 <= b <= 57 || 65 <= b <= 70 || 97 <= b <= 102;
            !digit || !(48 <= a <= 57 || 65 <= a <= 70 || 97 <= a <= 102 || a == 0x2b)
        },
    ensures
        decoded(seq![0x25u8] + rest, 0) == seq![0x25u8] + decoded(rest, 0),
{
    let all = seq![0x25u8] + rest;
    lemma_decoded_behind(seq![0x25u8], rest, 0);
    assert(all[0] == 0x25);
    if rest.len() >= 2 {
        assert(all[1] == rest[0] && all[2] == rest[1]);
    }
}

/// A plus sign between a percent sign and a digit counts for nothing.
pub proof fn plus_sign_counts_for_nothing(b: u8, y: u8, rest: Seq<u8>)
    requires
        y < 16,
        if y < 10 {
            b == 48 + y
        } else {
            b == 55 + y || b == 87 + y
        },
    ensures
        decoded(seq![0x25u8, 0x2bu8, b] + rest, 0) == seq![y] + decoded(rest, 0),
{
    let front = seq![0x25u8, 0x2bu8, b];
    let all = front + rest;
    lemma_decoded_behind(front, rest, 0);
    assert(all[0] == 0x25 && all[1] == 0x2b && all[2] == b);
}

/// The address in a dropped text is what stands behind the scheme, on Windows without the slash
/// in front of a drive, and without the white space around it all; a text without the scheme has
/// none.
pub proof fn address_stands_behind_the_scheme(
    front: Seq<char>,
    t: Seq<char>,
    back: Seq<char>,
    rest: Seq<char>,
)
    requires
        forall|i: int| 0 <= i < front.len() ==> crate::text::is_space(front[i]),
        forall|i: int| 0 <= i < back.len() ==> crate::text::is_space(back[i]),
        t.len() > 0 ==> !crate::text::is_space(t[0]) && !crate::text::is_space(t.last()),
    ensures
        ({
            let p = front + t + back;
            let word = seq!['f', 'i', 'l', 'e', ':', '/', '/'];
            &&& t == word + rest ==> address(p, false) == Some(rest)
            &&& t == word + rest && !(rest.len() > 0 && rest[0] == '/') ==> address(p, true) == Some(
                rest,
            )
            &&& t == word + rest && rest.len() > 0 && rest[0] == '/' ==> address(p, true) == Some(
                rest.skip(1),
            )
            &&& t.len() < 7 || t.take(7) != word ==> address(p, false) is None && address(
                p,
                true,
            ) is None
            &&& crate::text::trimmed(p) == t
        }),
{
    let word = seq!['f', 'i', 'l', 'e', ':', '/', '/'];
    crate::text::trim_cuts_the_margins(front, t, back);
    if t == word + rest {
        assert(t.take(7) =~= word);
        assert(t.skip(7) =~= rest);
        if rest.len() > 0 {
            assert(rest.drop_first() =~= rest.skip(1));
        }
    }
}

} // verus!
