//! Little-endian integers in byte sequences.

use vstd::prelude::*;

verus! {

/// The two bytes of `n`, low byte first.
pub open spec fn le16(n: u16) -> Seq<u8> {
    seq![(n % 256) as u8, (n / 256) as u8]
}

/// The four bytes of `n`, low byte first.
pub open spec fn le32(n: u32) -> Seq<u8> {
    seq![
        (n % 256) as u8,
        (n / 256 % 256) as u8,
        (n / 65536 % 256) as u8,
        (n / 16777216) as u8,
    ]
}

/// The number that four bytes at `at` stand for, low byte first.
pub open spec fn le32_at(s: Seq<u8>, at: int) -> int {
    s[at] + 256 * s[at + 1] + 65536 * s[at + 2] + 16777216 * s[at + 3]
}

/// Appends the two bytes of `n`.
pub(crate) fn push_le16(out: &mut Vec<u8>, n: u16)
    ensures
        final(out)@ == old(out)@ + le16(n),
{
    out.push((n % 256) as u8);
    out.push((n / 256) as u8);
    assert(out@ =~= old(out)@ + le16(n));
}

/// Appends the four bytes of `n`.
pub(crate) fn push_le32(out: &mut Vec<u8>, n: u32)
    ensures
        final(out)@ == old(out)@ + le32(n),
{
    out.push((n % 256) as u8);
    out.push((n / 256 % 256) as u8);
    out.push((n / 65536 % 256) as u8);
    out.push((n / 16777216) as u8);
    assert(out@ =~= old(out)@ + le32(n));
}

/// Reads the number written by the four bytes at `at`.
pub(crate) fn read_le32(s: &[u8], at: usize) -> (r: u32)
    requires
        at + 4 <= s@.len(),
    ensures
        r == le32_at(s@, at as int),
{
    (s[at] as u32) + 256 * (s[at + 1] as u32) + 65536 * (s[at + 2] as u32) + 16777216 * (s[at
        + 3] as u32)
}

/// Reading a number back from the four bytes that were written for it gives the
/// number.
pub proof fn lemma_le32_round_trip(s: Seq<u8>, at: int, n: u32)
    requires
        0 <= at,
        at + 4 <= s.len(),
        s.subrange(at, at + 4) == le32(n),
    ensures
        le32_at(s, at) == n,
{
    let t = s.subrange(at, at + 4);
    assert(t[0] == s[at] && t[1] == s[at + 1] && t[2] == s[at + 2] && t[3] == s[at + 3]);
}

} // verus!
