//! An append-only arena of strings in extents, and the interning of repeated
//! strings in it.

use crate::bytes;
use crate::bytes::push_le32;
use crate::bytes::read_le32;
use crate::text::same_bytes;
use std::collections::HashMap;
use vstd::prelude::*;
use vstd::utf8::*;

verus! {

broadcast use vstd::std_specs::hash::group_hash_axioms;

pub const STR_CHUNK_SHIFT: u32 = 20;

/// Bytes per ordinary extent.
pub const STR_CHUNK_SIZE: usize = 1048576;

pub const STR_CHUNK_MASK: u32 = 0xf_ffff;

/// Most extents that a reference can address.
pub const STR_CHUNK_LIMIT: usize = 4096;

/// The strings of a document: how far each extent is filled, the bytes behind each
/// reference, and the last reference given out for each content hash.
#[verifier::ext_equal]
pub struct Pool {
    pub fill: Seq<nat>,
    pub refs: Map<u32, Seq<u8>>,
    pub index: Map<u64, u32>,
}

/// The pool before any string.
pub open spec fn empty_pool() -> Pool {
    Pool { fill: Seq::empty(), refs: Map::empty(), index: Map::empty() }
}

/// Whether an entry of `len` bytes and its length word still fit in the last extent.
pub open spec fn fits_last(fill: Seq<nat>, len: nat) -> bool {
    fill.len() > 0 && fill.last() + 4 + len <= STR_CHUNK_SIZE
}

/// Whether the arena can take an entry of `len` bytes at all.
pub open spec fn can_append(fill: Seq<nat>, len: nat) -> bool {
    len <= u32::MAX && (fits_last(fill, len) || fill.len() < STR_CHUNK_LIMIT)
}

/// The reference of the next entry: extent number and offset, packed.
pub open spec fn next_ref(fill: Seq<nat>, len: nat) -> u32 {
    if fits_last(fill, len) {
        ((fill.len() - 1) * STR_CHUNK_SIZE + fill.last()) as u32
    } else {
        (fill.len() * STR_CHUNK_SIZE) as u32
    }
}

/// The extents after an entry of `len` bytes: it goes behind the last entry, or
/// opens an extent of its own.
pub open spec fn next_fill(fill: Seq<nat>, len: nat) -> Seq<nat> {
    if fits_last(fill, len) {
        fill.update(fill.len() - 1, fill.last() + 4 + len)
    } else {
        fill.push(4 + len)
    }
}

/// FNV-1a over the bytes, 64 bits wide.
pub open spec fn fnv1a(bytes: Seq<u8>) -> u64
    decreases bytes.len(),
{
    if bytes.len() == 0 {
        0xcbf2_9ce4_8422_2325
    } else {
        fnv_step(fnv1a(bytes.drop_last()), bytes.last())
    }
}

/// One step of FNV-1a: mix the byte in, then multiply by the prime.
pub open spec fn fnv_step(h: u64, b: u8) -> u64 {
    (h ^ (b as u64)).wrapping_mul(0x0000_0100_0000_01b3)
}

/// Whether the pool already holds these bytes under their hash.
pub open spec fn pool_has(p: Pool, bytes: Seq<u8>) -> bool {
    p.index.dom().contains(fnv1a(bytes)) && p.refs[p.index[fnv1a(bytes)]] == bytes
}

/// Whether a string can be interned.
pub open spec fn pool_takes(p: Pool, bytes: Seq<u8>) -> bool {
    pool_has(p, bytes) || can_append(p.fill, bytes.len())
}

/// The reference that interning a string gives.
pub open spec fn pool_ref(p: Pool, bytes: Seq<u8>) -> u32 {
    if pool_has(p, bytes) {
        p.index[fnv1a(bytes)]
    } else {
        next_ref(p.fill, bytes.len())
    }
}

/// The pool after interning a string: unchanged if it was there, otherwise with a
/// new entry.
pub open spec fn pool_intern(p: Pool, bytes: Seq<u8>) -> Pool {
    if pool_has(p, bytes) {
        p
    } else {
        let r = next_ref(p.fill, bytes.len());
        Pool {
            fill: next_fill(p.fill, bytes.len()),
            refs: p.refs.insert(r, bytes),
            index: p.index.insert(fnv1a(bytes), r),
        }
    }
}

/// The entries that a pool's references can stand for: each lies inside its extent.
pub open spec fn entry_inside(fill: Seq<nat>, r: u32, len: nat) -> bool {
    &&& r / 0x10_0000 < fill.len()
    &&& r % 0x10_0000 + 4 + len <= fill[(r / 0x10_0000) as int]
}

/// A pool that interning can have made.
pub open spec fn pool_wf(p: Pool) -> bool {
    &&& p.fill.len() <= STR_CHUNK_LIMIT
    &&& forall|r: u32| #[trigger]
        p.refs.dom().contains(r) ==> r < 0xffff_ffff && entry_inside(p.fill, r, p.refs[r].len())
            && valid_utf8(p.refs[r])
    &&& forall|h: u64| #[trigger] p.index.dom().contains(h) ==> p.refs.dom().contains(p.index[h])
}

/// Interning a string leaves every earlier reference standing for what it stood
/// for, and the new reference stands for the string. No reference is all ones.
pub proof fn lemma_intern_keeps(p: Pool, bytes: Seq<u8>)
    requires
        pool_wf(p),
        pool_takes(p, bytes),
        valid_utf8(bytes),
    ensures
        pool_wf(pool_intern(p, bytes)),
        p.refs.submap_of(pool_intern(p, bytes).refs),
        pool_intern(p, bytes).refs.dom().contains(pool_ref(p, bytes)),
        pool_intern(p, bytes).refs[pool_ref(p, bytes)] == bytes,
        pool_ref(p, bytes) < 0xffff_ffff,
        !pool_has(p, bytes) ==> !p.refs.dom().contains(pool_ref(p, bytes)),
        pool_has(pool_intern(p, bytes), bytes),
{
    let q = pool_intern(p, bytes);
    if pool_has(p, bytes) {
    } else {
        let r = next_ref(p.fill, bytes.len());
        assert(r < 0xffff_ffff && !p.refs.dom().contains(r));
        assert forall|x: u32| #[trigger] q.refs.dom().contains(x) implies x < 0xffff_ffff
            && entry_inside(q.fill, x, q.refs[x].len()) && valid_utf8(q.refs[x]) by {
            if x != r {
                assert(p.refs.dom().contains(x));
            }
        }
    }
}

/// Equal strings share one reference: interning the same bytes again, right after,
/// gives the reference back and changes nothing.
pub proof fn lemma_intern_shares(p: Pool, bytes: Seq<u8>)
    requires
        pool_wf(p),
        pool_takes(p, bytes),
        valid_utf8(bytes),
    ensures
        pool_takes(pool_intern(p, bytes), bytes),
        pool_ref(pool_intern(p, bytes), bytes) == pool_ref(p, bytes),
        pool_intern(pool_intern(p, bytes), bytes) == pool_intern(p, bytes),
{
    lemma_intern_keeps(p, bytes);
}

/// A string stays shared while others are interned, unless one of them has the
/// same hash and other bytes.
pub proof fn lemma_intern_stays_shared(p: Pool, bytes: Seq<u8>, other: Seq<u8>)
    requires
        pool_wf(p),
        pool_has(p, bytes),
        pool_takes(p, other),
        valid_utf8(other),
        fnv1a(bytes) == fnv1a(other) ==> bytes == other,
    ensures
        pool_has(pool_intern(p, other), bytes),
        pool_ref(pool_intern(p, other), bytes) == pool_ref(p, bytes),
{
    lemma_intern_keeps(p, other);
}

/// FNV-1a 64-bit hash of `bytes`.
pub fn hash_bytes(bytes: &[u8]) -> (h: u64)
    ensures
        h == fnv1a(bytes@),
{
    let mut h: u64 = 0xcbf2_9ce4_8422_2325;
    let mut i: usize = 0;
    while i < bytes.len()
        invariant
            i <= bytes@.len(),
            h == fnv1a(bytes@.take(i as int)),
        decreases bytes@.len() - i,
    {
        h = (h ^ (bytes[i] as u64)).wrapping_mul(0x0000_0100_0000_01b3);
        assert(bytes@.take(i + 1).drop_last() =~= bytes@.take(i as int));
        i += 1;
    }
    assert(bytes@.take(i as int) =~= bytes@);
    h
}

/// The string arena: entries of a four-byte length and the UTF-8 bytes, packed back
/// to back, none across two extents.
pub struct StrArena {
    chunks: Vec<Vec<u8>>,
    refs: Ghost<Map<u32, Seq<u8>>>,
}

impl StrArena {
    /// How far each extent is filled.
    pub closed spec fn fill(self) -> Seq<nat> {
        self.chunks@.map_values(|c: Vec<u8>| c@.len())
    }

    /// The bytes behind each reference.
    pub closed spec fn refs(self) -> Map<u32, Seq<u8>> {
        self.refs@
    }

    /// Each reference's entry lies in its extent as length and bytes.
    pub closed spec fn wf(self) -> bool {
        &&& self.chunks@.len() <= STR_CHUNK_LIMIT
        &&& forall|r: u32| #[trigger]
            self.refs@.dom().contains(r) ==> entry_at(self.chunks@, r, self.refs@[r])
    }

    /// The empty arena.
    pub fn new() -> (r: Self)
        ensures
            r.wf(),
            r.fill() == Seq::<nat>::empty(),
            r.refs() == Map::<u32, Seq<u8>>::empty(),
    {
        let r = StrArena { chunks: Vec::new(), refs: Ghost(Map::empty()) };
        assert(r.fill() =~= Seq::<nat>::empty());
        r
    }

    /// Appends `s` and returns its reference; `None` where no extent is left for it.
    pub fn append(&mut self, s: &str) -> (r: Option<u32>)
        requires
            old(self).wf(),
        ensures
            final(self).wf(),
            r is Some <==> can_append(old(self).fill(), encode_utf8(s@).len()),
            r matches Some(x) ==> {
                &&& x == next_ref(old(self).fill(), encode_utf8(s@).len())
                &&& final(self).fill() == next_fill(old(self).fill(), encode_utf8(s@).len())
                &&& final(self).refs() == old(self).refs().insert(x, encode_utf8(s@))
            },
            r is None ==> *final(self) == *old(self),
    {
        let bytes = s.as_bytes();
        let ghost fill0 = self.fill();
        if bytes.len() as u64 > 0xffff_ffff {
            return None;
        }
        let n: usize = self.chunks.len();
        let fits: bool = n > 0 && bytes.len() <= STR_CHUNK_SIZE - 4 && self.chunks[n - 1].len()
            <= STR_CHUNK_SIZE - 4 - bytes.len();
        assert(fits == fits_last(fill0, bytes@.len()));
        if !fits {
            if n >= STR_CHUNK_LIMIT {
                return None;
            }
            let size: usize = if bytes.len() <= STR_CHUNK_SIZE - 4 {
                STR_CHUNK_SIZE
            } else {
                bytes.len()
            };
            self.chunks.push(Vec::with_capacity(size));
        }
        let c: usize = self.chunks.len() - 1;
        let local: usize = self.chunks[c].len();
        let ghost before = self.chunks@;
        push_le32(&mut self.chunks[c], bytes.len() as u32);
        self.chunks[c].extend_from_slice(bytes);
        let hi: u32 = c as u32;
        let lo: u32 = local as u32;
        let r: u32 = (hi << STR_CHUNK_SHIFT) | lo;
        assert(r == hi * 0x10_0000 + lo) by (bit_vector)
            requires
                r == (hi << 20u32) | lo,
                hi < 4096,
                lo < 0x10_0000,
        ;
        proof {
            let after = self.chunks@;
            self.refs@ = self.refs@.insert(r, bytes@);
            assert(after[c as int]@ =~= before[c as int]@ + bytes::le32(bytes@.len() as u32) + bytes@);
            assert(self.fill() =~= next_fill(fill0, bytes@.len()));
            assert(after[c as int]@.subrange(local as int, local + 4) =~= bytes::le32(
                bytes@.len() as u32,
            ));
            bytes::lemma_le32_round_trip(after[c as int]@, local as int, bytes@.len() as u32);
            assert(after[c as int]@.subrange(local + 4, local + 4 + bytes@.len()) =~= bytes@);
            assert(r / 0x10_0000 == c && r % 0x10_0000 == local);
            assert(entry_at(after, r, bytes@));
            let refs0 = old(self).refs@;
            assert forall|x: u32| #[trigger] refs0.dom().contains(x) && x != r implies entry_at(
                after,
                x,
                refs0[x],
            ) by {
                assert(entry_at(old(self).chunks@, x, refs0[x]));
                let k = (x / 0x10_0000) as int;
                let at = (x % 0x10_0000) as int;
                let len = refs0[x].len();
                assert(after[k]@.subrange(at + 4, at + 4 + len) =~= old(self).chunks@[k]@.subrange(
                    at + 4,
                    at + 4 + len,
                ));
            }
        }
        Some(r)
    }

    /// The bytes behind a reference.
    pub fn get(&self, sref: u32) -> (r: &[u8])
        requires
            self.wf(),
            self.refs().dom().contains(sref),
        ensures
            r@ == self.refs()[sref],
    {
        assert(entry_at(self.chunks@, sref, self.refs@[sref]));
        assert(sref >> 20u32 == sref / 0x10_0000) by (bit_vector);
        assert(sref & 0xf_ffffu32 == sref % 0x10_0000) by (bit_vector);
        let chunk: usize = (sref >> STR_CHUNK_SHIFT) as usize;
        let local: usize = (sref & STR_CHUNK_MASK) as usize;
        let buf = self.chunks[chunk].as_slice();
        let total: usize = buf.len();
        let len: usize = read_le32(buf, local) as usize;
        assert(local + 4 + len <= total);
        vstd::slice::slice_subrange(buf, local + 4, local + 4 + len)
    }

    /// The string behind a reference.
    pub fn text(&self, sref: u32) -> (r: &str)
        requires
            self.wf(),
            self.refs().dom().contains(sref),
            valid_utf8(self.refs()[sref]),
        ensures
            encode_utf8(r@) == self.refs()[sref],
    {
        let bytes = self.get(sref);
        match core::str::from_utf8(bytes) {
            Ok(s) => s,
            Err(_) => "",
        }
    }

    /// Number of extents.
    pub fn chunk_count(&self) -> (r: usize)
        ensures
            r == self.fill().len(),
    {
        self.chunks.len()
    }
}

/// The extents hold, at reference `r`, the length of `bytes` and then `bytes`.
spec fn entry_at(chunks: Seq<Vec<u8>>, r: u32, bytes: Seq<u8>) -> bool {
    let k = (r / 0x10_0000) as int;
    let at = (r % 0x10_0000) as int;
    &&& k < chunks.len()
    &&& at + 4 + bytes.len() <= chunks[k]@.len()
    &&& bytes::le32_at(chunks[k]@, at) == bytes.len()
    &&& chunks[k]@.subrange(at + 4, at + 4 + bytes.len()) == bytes
}

/// The arena with its index of strings by content hash.
pub struct Interner {
    strings: StrArena,
    index: HashMap<u64, u32>,
}

impl View for Interner {
    type V = Pool;

    closed spec fn view(&self) -> Pool {
        Pool { fill: self.strings.fill(), refs: self.strings.refs(), index: self.index@ }
    }
}

impl Interner {
    pub closed spec fn wf(self) -> bool {
        &&& self.strings.wf()
        &&& pool_wf(self@)
    }

    /// The empty pool.
    pub fn new() -> (r: Self)
        ensures
            r.wf(),
            r@ == empty_pool(),
    {
        Interner { strings: StrArena::new(), index: HashMap::new() }
    }

    /// Interns `s`: the reference of its entry, which is appended the first time the
    /// string is seen. Two strings of one hash are both appended.
    pub fn intern(&mut self, s: &str) -> (r: Option<u32>)
        requires
            old(self).wf(),
        ensures
            final(self).wf(),
            r is Some <==> pool_takes(old(self)@, encode_utf8(s@)),
            r matches Some(x) ==> {
                &&& x == pool_ref(old(self)@, encode_utf8(s@))
                &&& final(self)@ == pool_intern(old(self)@, encode_utf8(s@))
            },
            r is None ==> final(self)@ == old(self)@,
    {
        let ghost bytes = encode_utf8(s@);
        let ghost p = self@;
        proof {
            encode_utf8_valid_utf8(s@);
            if pool_takes(p, bytes) {
                lemma_intern_keeps(p, bytes);
            }
        }
        let h: u64 = hash_bytes(s.as_bytes());
        let known: Option<u32> = match self.index.get(&h) {
            Some(r) => Some(*r),
            None => None,
        };
        match known {
            Some(r) => {
                assert(p.index.dom().contains(h));
                if same_bytes(self.strings.get(r), s.as_bytes()) {
                    return Some(r);
                }
            },
            None => {},
        }
        match self.strings.append(s) {
            Some(r) => {
                self.index.insert(h, r);
                assert(self@ =~= pool_intern(p, bytes));
                Some(r)
            },
            None => None,
        }
    }

    /// The string behind a reference.
    pub fn text(&self, sref: u32) -> (r: &str)
        requires
            self.wf(),
            self@.refs.dom().contains(sref),
        ensures
            encode_utf8(r@) == self@.refs[sref],
    {
        self.strings.text(sref)
    }

    /// The arena without the index.
    pub fn into_strings(self) -> (r: StrArena)
        requires
            self.wf(),
        ensures
            r.wf(),
            r.fill() == self@.fill,
            r.refs() == self@.refs,
    {
        self.strings
    }
}

} // verus!
