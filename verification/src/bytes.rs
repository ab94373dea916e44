//! Integers as bytes, least significant first.

use vstd::prelude::*;

verus! {

/// The four bytes of `n`.
pub open spec fn le32(n: u32) -> Seq<u8> {
    seq![
        (n % 256) as u8,
        (n / 256 % 256) as u8,
        (n / 65536 % 256) as u8,
        (n / 16777216 % 256) as u8,
    ]
}

/// The number whose four bytes `s` starts with.
pub open spec fn from_le32(s: Seq<u8>) -> int {
    s[0] + 256 * s[1] + 65536 * s[2] + 16777216 * s[3]
}

/// The eight bytes of `n`.
pub open spec fn le64(n: u64) -> Seq<u8> {
    le32((n % 0x1_0000_0000) as u32) + le32((n / 0x1_0000_0000) as u32)
}

/// The number whose eight bytes `s` starts with.
pub open spec fn from_le64(s: Seq<u8>) -> int {
    from_le32(s) + 0x1_0000_0000 * from_le32(s.skip(4))
}

/// `n` zeros.
pub open spec fn zeros(n: int) -> Seq<u8> {
    Seq::new(n as nat, |i: int| 0u8)
}

pub proof fn lemma_le32(n: u32, rest: Seq<u8>)
    ensures
        from_le32(le32(n) + rest) == n,
        le32(n).len() == 4,
{
    let s = le32(n) + rest;
    assert(s[0] == (n % 256) as u8);
    assert(s[1] == (n / 256 % 256) as u8);
    assert(s[2] == (n / 65536 % 256) as u8);
    assert(s[3] == (n / 16777216 % 256) as u8);
}

pub proof fn lemma_le64(n: u64, rest: Seq<u8>)
    ensures
        from_le64(le64(n) + rest) == n,
        le64(n).len() == 8,
{
    let low = (n % 0x1_0000_0000) as u32;
    let high = (n / 0x1_0000_0000) as u32;
    let s = le64(n) + rest;
    assert(s =~= le32(low) + (le32(high) + rest));
    lemma_le32(low, le32(high) + rest);
    lemma_le32(high, rest);
    assert(s.skip(4) =~= le32(high) + rest);
}

/// The number in the four bytes at `at`.
pub fn read_le32(s: &[u8], at: usize) -> (r: u32)
    requires
        at + 4 <= s@.len(),
    ensures
        r == from_le32(s@.skip(at as int)),
{
    s[at] as u32 + 256 * (s[at + 1] as u32) + 65536 * (s[at + 2] as u32) + 16777216 * (s[at
        + 3] as u32)
}

/// The number in the eight bytes at `at`.
pub fn read_le64(s: &[u8], at: usize) -> (r: u64)
    requires
        at + 8 <= s@.len(),
    ensures
        r == from_le64(s@.skip(at as int)),
{
    let n: usize = s.len();
    assert(at + 8 <= n);
    let low: u32 = read_le32(s, at);
    let high: u32 = read_le32(s, at + 4);
    assert(s@.skip(at as int).skip(4) =~= s@.skip(at + 4));
    low as u64 + 0x1_0000_0000 * (high as u64)
}

/// Appends the four bytes of `n`.
pub fn push_le32(out: &mut Vec<u8>, n: u32)
    ensures
        final(out)@ == old(out)@ + le32(n),
{
    out.push((n % 256) as u8);
    out.push((n / 256 % 256) as u8);
    out.push((n / 65536 % 256) as u8);
    out.push((n / 16777216 % 256) as u8);
    assert(out@ =~= old(out)@ + le32(n));
}

/// Appends the eight bytes of `n`.
pub fn push_le64(out: &mut Vec<u8>, n: u64)
    ensures
        final(out)@ == old(out)@ + le64(n),
{
    push_le32(out, (n % 0x1_0000_0000) as u32);
    push_le32(out, (n / 0x1_0000_0000) as u32);
    assert(out@ =~= old(out)@ + le64(n));
}

/// Appends `n` zeros.
pub fn push_zeros(out: &mut Vec<u8>, n: usize)
    ensures
        final(out)@ == old(out)@ + zeros(n as int),
{
    let ghost before = out@;
    let mut i: usize = 0;
    while i < n
        invariant
            i <= n,
            out@ == before + zeros(i as int),
        decreases n - i,
    {
        out.push(0);
        assert(out@ =~= before + zeros(i + 1));
        i = i + 1;
    }
}

/// A number of 32 bits is stored in four bytes, the lowest first, and read back from them.
pub proof fn number32_is_stored_lowest_byte_first(n: u32)
    ensures
        le32(n).len() == 4,
        le32(n)[0] + 256 * le32(n)[1] + 65536 * le32(n)[2] + 16777216 * le32(n)[3] == n,
        from_le32(le32(n)) == n,
{
}

/// A number of 64 bits is stored in eight bytes, those of its lower half first.
pub proof fn number64_is_stored_lowest_byte_first(n: u64)
    ensures
        le64(n).len() == 8,
        le64(n)[0] + 256 * le64(n)[1] + 65536 * le64(n)[2] + 16777216 * le64(n)[3]
            + 0x1_0000_0000 * (le64(n)[4] + 256 * le64(n)[5] + 65536 * le64(n)[6] + 16777216
            * le64(n)[7]) == n,
        from_le64(le64(n)) == n,
{
    let a = (n % 0x1_0000_0000) as u32;
    let b = (n / 0x1_0000_0000) as u32;
    number32_is_stored_lowest_byte_first(a);
    number32_is_stored_lowest_byte_first(b);
    assert(le64(n).skip(4) =~= le32(b));
    assert(n == 0x1_0000_0000 * b + a);
}

} // verus!
