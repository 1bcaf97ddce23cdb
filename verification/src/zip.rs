//! The records of a ZIP archive.

use crate::bytes;
use crate::bytes::push_le16;
use crate::bytes::push_le32;
use crate::crc;
use crate::crc::CrcTable;
use crate::deflate;
use crate::deflate::deflate_all;
use vstd::prelude::*;
use vstd::utf8::*;

verus! {

/// What comes before the checksum and sizes in a local header: signature, version, flags,
/// method (deflate), time and date.
pub open spec fn local_front() -> Seq<u8> {
    bytes::le32(0x0403_4b50) + bytes::le16(20) + bytes::le16(0) + bytes::le16(8) + bytes::le16(0)
        + bytes::le16(0x0021)
}

/// Checksum and sizes.
pub open spec fn sizes(crc: u32, comp: u32, uncomp: u32) -> Seq<u8> {
    bytes::le32(crc) + bytes::le32(comp) + bytes::le32(uncomp)
}

/// What comes behind the sizes in a local header: the name with its length.
pub open spec fn local_back(name: Seq<u8>) -> Seq<u8> {
    bytes::le16(name.len() as u16) + bytes::le16(0) + name
}

/// The header in front of an entry's data.
pub open spec fn local_header(name: Seq<u8>, crc: u32, comp: u32, uncomp: u32) -> Seq<u8> {
    local_front() + sizes(crc, comp, uncomp) + local_back(name)
}

/// What comes before the checksum and sizes in a directory entry.
pub open spec fn central_front() -> Seq<u8> {
    bytes::le32(0x0201_4b50) + bytes::le16(20) + bytes::le16(20) + bytes::le16(0) + bytes::le16(8)
        + bytes::le16(0) + bytes::le16(0x0021)
}

/// What comes behind the sizes in a directory entry: the name's length, no extra field,
/// no comment, disk and attributes of zero, where the local header is, and the name.
pub open spec fn central_back(name: Seq<u8>, offset: u32) -> Seq<u8> {
    bytes::le16(name.len() as u16) + bytes::le16(0) + bytes::le16(0) + bytes::le16(0)
        + bytes::le16(0) + bytes::le32(0) + bytes::le32(offset) + name
}

/// An entry of the central directory.
pub open spec fn central_entry(
    name: Seq<u8>,
    crc: u32,
    comp: u32,
    uncomp: u32,
    offset: u32,
) -> Seq<u8> {
    central_front() + sizes(crc, comp, uncomp) + central_back(name, offset)
}

/// The record at the end of an archive: how many entries, and where the directory is.
pub open spec fn end_record(count: u16, size: u32, offset: u32) -> Seq<u8> {
    bytes::le32(0x0605_4b50) + bytes::le16(0) + bytes::le16(0) + bytes::le16(count) + bytes::le16(
        count,
    ) + bytes::le32(size) + bytes::le32(offset) + bytes::le16(0)
}

/// A length or an offset in 32 bits.
pub open spec fn low32(n: int) -> u32 {
    n as u32
}

/// A file of an archive.
pub struct Part {
    pub name: Seq<char>,
    pub content: Seq<u8>,
}

/// A file with its data packed to `packed`.
pub open spec fn entry(part: Part, packed: Seq<u8>) -> Seq<u8> {
    local_header(
        encode_utf8(part.name),
        crc::crc32(part.content),
        low32(packed.len() as int),
        low32(part.content.len() as int),
    ) + packed
}

/// The directory entry of a file that stands at `offset`.
pub open spec fn listing(part: Part, packed: Seq<u8>, offset: int) -> Seq<u8> {
    central_entry(
        encode_utf8(part.name),
        crc::crc32(part.content),
        low32(packed.len() as int),
        low32(part.content.len() as int),
        low32(offset),
    )
}

/// All files can be deflated at a level.
pub open spec fn packable(parts: Seq<Part>, level: u32) -> bool {
    forall|i: int|
        0 <= i < parts.len() ==> deflate::deflation((#[trigger] parts[i]).content, level) is Some
}

/// Files one behind the other, deflated at a level.
pub open spec fn entries(parts: Seq<Part>, level: u32) -> Seq<u8>
    decreases parts.len(),
{
    if parts.len() == 0 {
        Seq::empty()
    } else {
        entries(parts.drop_last(), level) + entry(
            parts.last(),
            deflate::deflated(parts.last().content, level),
        )
    }
}

/// The directory of files that stand one behind the other.
pub open spec fn directory(parts: Seq<Part>, level: u32) -> Seq<u8>
    decreases parts.len(),
{
    if parts.len() == 0 {
        Seq::empty()
    } else {
        directory(parts.drop_last(), level) + listing(
            parts.last(),
            deflate::deflated(parts.last().content, level),
            entries(parts.drop_last(), level).len() as int,
        )
    }
}

/// A finished archive: `parts` deflated at `level`, and `last` packed to `packed` behind
/// them.
pub open spec fn archive(parts: Seq<Part>, level: u32, last: Part, packed: Seq<u8>) -> Seq<u8> {
    let front = entries(parts, level) + entry(last, packed);
    let list = directory(parts, level) + listing(last, packed, entries(parts, level).len() as int);
    front + list + end_record(
        (parts.len() + 1) as u16,
        low32(list.len() as int),
        low32(front.len() as int),
    )
}

fn push_sizes(out: &mut Vec<u8>, crc: u32, comp: u32, uncomp: u32)
    ensures
        final(out)@ == old(out)@ + sizes(crc, comp, uncomp),
{
    push_le32(out, crc);
    push_le32(out, comp);
    push_le32(out, uncomp);
    assert(out@ =~= old(out)@ + sizes(crc, comp, uncomp));
}

/// Appends a local header.
pub(crate) fn write_local_header(
    out: &mut Vec<u8>,
    name: &str,
    crc: u32,
    comp: u32,
    uncomp: u32,
)
    ensures
        final(out)@ == old(out)@ + local_header(encode_utf8(name@), crc, comp, uncomp),
{
    let ghost start = out@;
    push_le32(out, 0x0403_4b50);
    push_le16(out, 20);
    push_le16(out, 0);
    push_le16(out, 8);
    push_le16(out, 0);
    push_le16(out, 0x0021);
    assert(out@ =~= start + local_front());
    push_sizes(out, crc, comp, uncomp);
    let ghost before = out@;
    let text = name.as_bytes();
    push_le16(out, text.len() as u16);
    push_le16(out, 0);
    out.extend_from_slice(text);
    assert(out@ =~= before + local_back(text@));
    assert(out@ =~= start + local_header(text@, crc, comp, uncomp));
}

/// Appends a directory entry.
fn write_central_entry(
    cd: &mut Vec<u8>,
    name: &str,
    crc: u32,
    comp: u32,
    uncomp: u32,
    offset: u32,
)
    ensures
        final(cd)@ == old(cd)@ + central_entry(encode_utf8(name@), crc, comp, uncomp, offset),
{
    let ghost start = cd@;
    push_le32(cd, 0x0201_4b50);
    push_le16(cd, 20);
    push_le16(cd, 20);
    push_le16(cd, 0);
    push_le16(cd, 8);
    push_le16(cd, 0);
    push_le16(cd, 0x0021);
    assert(cd@ =~= start + central_front());
    push_sizes(cd, crc, comp, uncomp);
    let ghost before = cd@;
    let text = name.as_bytes();
    push_le16(cd, text.len() as u16);
    push_le16(cd, 0);
    push_le16(cd, 0);
    push_le16(cd, 0);
    push_le16(cd, 0);
    push_le32(cd, 0);
    push_le32(cd, offset);
    cd.extend_from_slice(text);
    assert(cd@ =~= before + central_back(text@, offset));
    assert(cd@ =~= start + central_entry(text@, crc, comp, uncomp, offset));
}

/// Appends the record at the end of an archive.
fn write_end_record(out: &mut Vec<u8>, count: u16, size: u32, offset: u32)
    ensures
        final(out)@ == old(out)@ + end_record(count, size, offset),
{
    let ghost start = out@;
    push_le32(out, 0x0605_4b50);
    push_le16(out, 0);
    push_le16(out, 0);
    push_le16(out, count);
    push_le16(out, count);
    push_le32(out, size);
    push_le32(out, offset);
    push_le16(out, 0);
    assert(out@ =~= start + end_record(count, size, offset));
}

/// Adds a file to an archive; false, with nothing added, exactly where it could not be
/// deflated.
pub(crate) fn add_file(
    out: &mut Vec<u8>,
    cd: &mut Vec<u8>,
    table: &CrcTable,
    name: &str,
    content: &[u8],
    level: u32,
    Ghost(parts): Ghost<Seq<Part>>,
) -> (ok: bool)
    requires
        table.wf(),
        level <= 9,
        old(out)@ == entries(parts, level),
        old(cd)@ == directory(parts, level),
    ensures
        ok == (deflate::deflation(content@, level) is Some),
        ok ==> final(out)@ == entries(parts.push(Part { name: name@, content: content@ }), level),
        ok ==> final(cd)@ == directory(parts.push(Part { name: name@, content: content@ }), level),
        !ok ==> final(out)@ == old(out)@ && final(cd)@ == old(cd)@,
{
    let crc: u32 = !table.crc32_update(!0u32, content);
    let compressed = match deflate_all(content, level) {
        Some(v) => v,
        None => {
            return false;
        },
    };
    let ghost part = Part { name: name@, content: content@ };
    let offset: u32 = out.len() as u32;
    let packed_len: u32 = compressed.len() as u32;
    let content_len: u32 = content.len() as u32;
    write_local_header(out, name, crc, packed_len, content_len);
    out.extend_from_slice(compressed.as_slice());
    write_central_entry(cd, name, crc, packed_len, content_len, offset);
    proof {
        assert(parts.push(part).drop_last() =~= parts);
        assert(out@ =~= entries(parts, level) + entry(part, compressed@));
    }
    true
}

/// Overwrites four bytes with a number.
fn patch_u32(out: &mut Vec<u8>, pos: usize, val: u32)
    requires
        pos + 4 <= old(out)@.len(),
    ensures
        final(out)@ == old(out)@.take(pos as int) + bytes::le32(val) + old(out)@.skip(pos + 4),
{
    let n: usize = out.len();
    assert(pos + 4 <= n);
    out.set(pos, (val % 256) as u8);
    out.set(pos + 1, (val / 256 % 256) as u8);
    out.set(pos + 2, (val / 65536 % 256) as u8);
    out.set(pos + 3, (val / 16777216) as u8);
    assert(out@ =~= old(out)@.take(pos as int) + bytes::le32(val) + old(out)@.skip(pos + 4));
}

/// Puts checksum and sizes into the local header at `at`, written without them.
fn patch_sizes(
    out: &mut Vec<u8>,
    at: usize,
    crc: u32,
    comp: u32,
    uncomp: u32,
    Ghost(front): Ghost<Seq<u8>>,
    Ghost(name): Ghost<Seq<u8>>,
    Ghost(back): Ghost<Seq<u8>>,
)
    requires
        at == front.len(),
        old(out)@ == front + local_header(name, 0, 0, 0) + back,
    ensures
        final(out)@ == front + local_header(name, crc, comp, uncomp) + back,
{
    assert(local_front().len() == 14);
    assert(sizes(0, 0, 0).len() == 12 && sizes(crc, comp, uncomp).len() == 12);
    let n: usize = out.len();
    assert(out@.len() == front.len() + 26 + local_back(name).len() + back.len());
    let ghost rest = local_back(name) + back;
    proof {
        assert(out@ =~= front + local_front() + bytes::le32(0) + bytes::le32(0) + bytes::le32(0)
            + rest);
    }
    patch_u32(out, at + 14, crc);
    proof {
        assert(out@ =~= front + local_front() + bytes::le32(crc) + bytes::le32(0) + bytes::le32(0)
            + rest);
    }
    patch_u32(out, at + 18, comp);
    proof {
        assert(out@ =~= front + local_front() + bytes::le32(crc) + bytes::le32(comp) + bytes::le32(
            0,
        ) + rest);
    }
    patch_u32(out, at + 22, uncomp);
    proof {
        assert(out@ =~= front + local_front() + bytes::le32(crc) + bytes::le32(comp) + bytes::le32(
            uncomp,
        ) + rest);
        assert(out@ =~= front + local_header(name, crc, comp, uncomp) + back);
    }
}

/// Ends an archive whose last file was packed behind a header without checksum and sizes:
/// puts those in, and appends the directory and the end record.
pub(crate) fn seal(
    output: Vec<u8>,
    central_dir: Vec<u8>,
    name: &str,
    at: usize,
    data_at: usize,
    crc: u32,
    uncomp: u64,
    count: u16,
    Ghost(parts): Ghost<Seq<Part>>,
    Ghost(level): Ghost<u32>,
    Ghost(content): Ghost<Seq<u8>>,
    Ghost(packed): Ghost<Seq<u8>>,
) -> (r: Vec<u8>)
    requires
        output@ == entries(parts, level) + local_header(encode_utf8(name@), 0, 0, 0) + packed,
        central_dir@ == directory(parts, level),
        at == entries(parts, level).len(),
        data_at == at + local_header(encode_utf8(name@), 0, 0, 0).len(),
        crc == crc::crc32(content),
        uncomp == content.len(),
        parts.len() == count,
        count < u16::MAX,
    ensures
        r@ == archive(parts, level, Part { name: name@, content }, packed),
{
    let ghost last = Part { name: name@, content };
    let ghost front = entries(parts, level);
    let mut output = output;
    let mut central_dir = central_dir;
    let len: usize = output.len();
    let comp_size: u32 = (len - data_at) as u32;
    let uncomp_size: u32 = uncomp as u32;
    patch_sizes(
        &mut output,
        at,
        crc,
        comp_size,
        uncomp_size,
        Ghost(front),
        Ghost(encode_utf8(name@)),
        Ghost(packed),
    );
    assert(output@ =~= front + entry(last, packed));
    write_central_entry(&mut central_dir, name, crc, comp_size, uncomp_size, at as u32);
    let cd_offset: u32 = output.len() as u32;
    let cd_size: u32 = central_dir.len() as u32;
    output.extend_from_slice(central_dir.as_slice());
    write_end_record(&mut output, count + 1, cd_size, cd_offset);
    assert(output@ =~= archive(parts, level, last, packed));
    output
}

/// What the fields of the end record read as.
proof fn lemma_end_record(count: u16, size: u32, offset: u32)
    ensures
        end_record(count, size, offset).len() == 22,
        bytes::le32_at(end_record(count, size, offset), 0) == 0x0605_4b50,
        bytes::le32_at(end_record(count, size, offset), 12) == size,
        bytes::le32_at(end_record(count, size, offset), 16) == offset,
{
    let tail = end_record(count, size, offset);
    assert(tail.subrange(0, 4) =~= bytes::le32(0x0605_4b50));
    assert(tail.subrange(12, 16) =~= bytes::le32(size));
    assert(tail.subrange(16, 20) =~= bytes::le32(offset));
    bytes::lemma_le32_round_trip(tail, 0, 0x0605_4b50);
    bytes::lemma_le32_round_trip(tail, 12, size);
    bytes::lemma_le32_round_trip(tail, 16, offset);
}

/// The end record of an archive leads to what stands before it.
proof fn lemma_tail_read(front: Seq<u8>, list: Seq<u8>, count: u16, size: u32, offset: u32)
    requires
        size == list.len(),
        offset == front.len(),
    ensures
        ({
            let a = front + list + end_record(count, size, offset);
            let n = a.len() as int;
            &&& n == front.len() + list.len() + 22
            &&& bytes::le32_at(a, n - 22) == 0x0605_4b50
            &&& bytes::le32_at(a, n - 10) == size
            &&& bytes::le32_at(a, n - 6) == offset
            &&& a.subrange(offset as int, offset + size) == list
            &&& a.take(offset as int) == front
        }),
{
    let tail = end_record(count, size, offset);
    lemma_end_record(count, size, offset);
    let a = front + list + tail;
    let n = a.len() as int;
    assert forall|k: int| 0 <= k < 22 implies #[trigger] tail[k] == a[n - 22 + k] by {}
    assert(tail[0] == a[n - 22] && tail[1] == a[n - 21] && tail[2] == a[n - 20] && tail[3] == a[n
        - 19]);
    assert(tail[12] == a[n - 10] && tail[13] == a[n - 9] && tail[14] == a[n - 8] && tail[15]
        == a[n - 7]);
    assert(tail[16] == a[n - 6] && tail[17] == a[n - 5] && tail[18] == a[n - 4] && tail[19] == a[n
        - 3]);
    assert(a.subrange(offset as int, offset + size) =~= list);
    assert(a.take(offset as int) =~= front);
}

/// An archive's last record tells where its directory is and how long, for an archive
/// whose sizes fit in 32 bits: reading the record and going there finds the directory.
pub proof fn lemma_directory_found(parts: Seq<Part>, level: u32, last: Part, packed: Seq<u8>)
    requires
        archive(parts, level, last, packed).len() <= u32::MAX,
    ensures
        ({
            let a = archive(parts, level, last, packed);
            let n = a.len() as int;
            let size = bytes::le32_at(a, n - 10);
            let offset = bytes::le32_at(a, n - 6);
            &&& n >= 22
            &&& bytes::le32_at(a, n - 22) == 0x0605_4b50
            &&& offset + size + 22 == n
            &&& a.subrange(offset, offset + size) == directory(parts, level) + listing(
                last,
                packed,
                entries(parts, level).len() as int,
            )
            &&& a.take(offset) == entries(parts, level) + entry(last, packed)
        }),
{
    let front = entries(parts, level) + entry(last, packed);
    let list = directory(parts, level) + listing(last, packed, entries(parts, level).len() as int);
    lemma_tail_read(
        front,
        list,
        (parts.len() + 1) as u16,
        low32(list.len() as int),
        low32(front.len() as int),
    );
}

/// An entry's header tells the checksum and the sizes, for data whose sizes fit in 32 bits and
/// a name whose length fits in 16; the packed data stands behind the name.
pub proof fn lemma_entry_read(part: Part, packed: Seq<u8>)
    requires
        packed.len() <= u32::MAX,
        part.content.len() <= u32::MAX,
        encode_utf8(part.name).len() <= u16::MAX,
    ensures
        ({
            let e = entry(part, packed);
            let name = encode_utf8(part.name);
            &&& bytes::le32_at(e, 0) == 0x0403_4b50
            &&& bytes::le32_at(e, 14) == crc::crc32(part.content)
            &&& bytes::le32_at(e, 18) == packed.len()
            &&& bytes::le32_at(e, 22) == part.content.len()
            &&& e[26] + 256 * e[27] == name.len()
            &&& e.subrange(30, 30 + name.len() as int) == name
            &&& e.skip(30 + name.len() as int) == packed
        }),
{
    let e = entry(part, packed);
    let name = encode_utf8(part.name);
    let crc = crc::crc32(part.content);
    let comp = low32(packed.len() as int);
    let uncomp = low32(part.content.len() as int);
    let front = local_front();
    let mid = sizes(crc, comp, uncomp);
    let back = local_back(name);
    assert(front.len() == 14 && mid.len() == 12 && back.len() == 4 + name.len());
    assert(front.subrange(0, 4) =~= bytes::le32(0x0403_4b50));
    assert(mid.subrange(0, 4) =~= bytes::le32(crc));
    assert(mid.subrange(4, 8) =~= bytes::le32(comp));
    assert(mid.subrange(8, 12) =~= bytes::le32(uncomp));
    assert(e.subrange(0, 4) =~= front.subrange(0, 4));
    assert(e.subrange(14, 18) =~= mid.subrange(0, 4));
    assert(e.subrange(18, 22) =~= mid.subrange(4, 8));
    assert(e.subrange(22, 26) =~= mid.subrange(8, 12));
    bytes::lemma_le32_round_trip(e, 0, 0x0403_4b50);
    bytes::lemma_le32_round_trip(e, 14, crc);
    bytes::lemma_le32_round_trip(e, 18, comp);
    bytes::lemma_le32_round_trip(e, 22, uncomp);
    assert(e[26] == back[0] && e[27] == back[1]);
    assert(e.subrange(30, 30 + name.len() as int) =~= name);
    assert(e.skip(30 + name.len() as int) =~= packed);
}

} // verus!
