//! The bytes of an archive.

use crate::bytes;
use crate::crc;
use crate::zip;
use crate::zip::Part;
use vstd::prelude::*;
use vstd::utf8::*;

verus! {

/// The number that two bytes at `at` stand for, low byte first.
pub open spec fn short_at(s: Seq<u8>, at: int) -> int {
    s[at] + 256 * s[at + 1]
}

/// The number that four bytes at `at` stand for, low byte first.
pub open spec fn long_at(s: Seq<u8>, at: int) -> int {
    s[at] + 256 * s[at + 1] + 65536 * s[at + 2] + 16777216 * s[at + 3]
}

proof fn lemma_short(n: u16)
    ensures
        bytes::le16(n).len() == 2,
        bytes::le16(n)[0] + 256 * bytes::le16(n)[1] == n,
{
}

proof fn lemma_long(n: u32)
    ensures
        bytes::le32(n).len() == 4,
        long_at(bytes::le32(n), 0) == n,
{
    let t = bytes::le32(n);
    assert(t.subrange(0, 4) =~= t);
    bytes::lemma_le32_round_trip(t, 0, n);
}

/// A header in front of data: its signature, version 2.0, no flags, the method of deflated data,
/// the checksum, the sizes and the name.
pub proof fn lemma_local_header(name: Seq<u8>, crc: u32, comp: u32, uncomp: u32)
    requires
        name.len() <= u16::MAX,
    ensures
        ({
            let h = zip::local_header(name, crc, comp, uncomp);
            &&& h.len() == 30 + name.len()
            &&& h[0] == 0x50 && h[1] == 0x4b && h[2] == 3 && h[3] == 4
            &&& short_at(h, 4) == 20 && short_at(h, 6) == 0 && short_at(h, 8) == 8
            &&& short_at(h, 10) == 0 && short_at(h, 12) == 33
            &&& long_at(h, 14) == crc && long_at(h, 18) == comp && long_at(h, 22) == uncomp
            &&& short_at(h, 26) == name.len() && short_at(h, 28) == 0
            &&& h.skip(30) == name
        }),
{
    lemma_long(crc);
    lemma_long(comp);
    lemma_long(uncomp);
    lemma_short(name.len() as u16);
    let h = zip::local_header(name, crc, comp, uncomp);
    assert(h.skip(30) =~= name);
}

/// An entry of the directory: its signature, the versions, no flags, the method, the checksum,
/// the sizes, where the header is, and the name.
pub proof fn lemma_central_entry(name: Seq<u8>, crc: u32, comp: u32, uncomp: u32, offset: u32)
    requires
        name.len() <= u16::MAX,
    ensures
        ({
            let h = zip::central_entry(name, crc, comp, uncomp, offset);
            &&& h.len() == 46 + name.len()
            &&& h[0] == 0x50 && h[1] == 0x4b && h[2] == 1 && h[3] == 2
            &&& short_at(h, 4) == 20 && short_at(h, 6) == 20 && short_at(h, 8) == 0
            &&& short_at(h, 10) == 8 && short_at(h, 12) == 0 && short_at(h, 14) == 33
            &&& long_at(h, 16) == crc && long_at(h, 20) == comp && long_at(h, 24) == uncomp
            &&& short_at(h, 28) == name.len() && short_at(h, 30) == 0 && short_at(h, 32) == 0
            &&& short_at(h, 34) == 0 && short_at(h, 36) == 0 && long_at(h, 38) == 0
            &&& long_at(h, 42) == offset
            &&& h.skip(46) == name
        }),
{
    lemma_long(crc);
    lemma_long(comp);
    lemma_long(uncomp);
    lemma_long(offset);
    lemma_short(name.len() as u16);
    let h = zip::central_entry(name, crc, comp, uncomp, offset);
    assert(h.skip(46) =~= name);
}

/// The record at the end: its signature, one disk, how many entries there are, how long the
/// directory is and where it stands, and no comment.
pub proof fn lemma_end_record(count: u16, size: u32, offset: u32)
    ensures
        ({
            let h = zip::end_record(count, size, offset);
            &&& h.len() == 22
            &&& h[0] == 0x50 && h[1] == 0x4b && h[2] == 5 && h[3] == 6
            &&& short_at(h, 4) == 0 && short_at(h, 6) == 0
            &&& short_at(h, 8) == count && short_at(h, 10) == count
            &&& long_at(h, 12) == size && long_at(h, 16) == offset && short_at(h, 20) == 0
        }),
{
    lemma_long(size);
    lemma_long(offset);
    lemma_short(count);
}

/// An archive lists every file, with the checksum of its content, the sizes, and the place where
/// its header stands.
pub proof fn lemma_listed(parts: Seq<Part>, level: u32, last: Part)
    ensures
        ({
            let packed = crate::deflate::deflated(last.content, level);
            let at = zip::entries(parts, level).len();
            &&& zip::entries(Seq::empty(), level).len() == 0
            &&& zip::directory(Seq::empty(), level).len() == 0
            &&& zip::entries(parts.push(last), level) == zip::entries(parts, level)
                + zip::local_header(
                encode_utf8(last.name),
                crc::crc32(last.content),
                packed.len() as u32,
                last.content.len() as u32,
            ) + packed
            &&& zip::directory(parts.push(last), level) == zip::directory(parts, level)
                + zip::central_entry(
                encode_utf8(last.name),
                crc::crc32(last.content),
                packed.len() as u32,
                last.content.len() as u32,
                at as u32,
            )
        }),
{
    assert(parts.push(last).drop_last() =~= parts);
    let packed = crate::deflate::deflated(last.content, level);
    let head = zip::local_header(
        encode_utf8(last.name),
        crc::crc32(last.content),
        packed.len() as u32,
        last.content.len() as u32,
    );
    assert(zip::entries(parts.push(last), level) =~= zip::entries(parts, level) + head + packed);
}

/// An archive: the files, the directory, and the record that tells how many there are and where
/// the directory stands.
pub proof fn lemma_archive(parts: Seq<Part>, level: u32, last: Part, packed: Seq<u8>)
    ensures
        ({
            let at = zip::entries(parts, level).len();
            let sum = crc::crc32(last.content);
            let files = zip::entries(parts, level) + zip::local_header(
                encode_utf8(last.name),
                sum,
                packed.len() as u32,
                last.content.len() as u32,
            ) + packed;
            let list = zip::directory(parts, level) + zip::central_entry(
                encode_utf8(last.name),
                sum,
                packed.len() as u32,
                last.content.len() as u32,
                at as u32,
            );
            zip::archive(parts, level, last, packed) == files + list + zip::end_record(
                (parts.len() + 1) as u16,
                list.len() as u32,
                files.len() as u32,
            )
        }),
{
    let head = zip::local_header(
        encode_utf8(last.name),
        crc::crc32(last.content),
        packed.len() as u32,
        last.content.len() as u32,
    );
    assert(zip::entries(parts, level) + (head + packed) =~= zip::entries(parts, level) + head
        + packed);
}

/// The checksum of data with a byte more: the byte is added to the running remainder, and the
/// remainder of its eight bits by the polynomial of CRC-32 is taken.
pub proof fn lemma_checksum(data: Seq<u8>, b: u8)
    ensures
        crc::crc32(Seq::empty()) == 0,
        !crc::crc32(data.push(b)) == reduced(!crc::crc32(data) ^ (b as u32), 8),
{
    assert(data.push(b).drop_last() =~= data);
    let x = crc::crc_over(!0u32, data);
    let y = crc::crc_over(!0u32, data.push(b));
    assert(!(!0u32) == 0u32) by (bit_vector);
    assert(!(!x) == x) by (bit_vector);
    assert(!(!y) == y) by (bit_vector);
    reveal_with_fuel(reduced, 10);
    assert forall|c: u32| #[trigger] crc::crc_bit(c) == halved(c) by {
        let d = c >> 1;
        assert(c & 1 == 0 || c & 1 == 1) by (bit_vector);
        assert(3988292384u32 ^ d == d ^ 3988292384u32) by (bit_vector);
    }
}

/// A remainder after `n` more bits.
pub open spec fn reduced(c: u32, n: nat) -> u32
    decreases n,
{
    if n == 0 {
        c
    } else {
        halved(reduced(c, (n - 1) as nat))
    }
}

/// A remainder after one more bit: shifted down, and the reversed polynomial taken away where a
/// one was shifted out.
pub open spec fn halved(c: u32) -> u32 {
    if c & 1 == 1 {
        (c >> 1) ^ 3988292384u32
    } else {
        c >> 1
    }
}

} // verus!
