//! The CRC-32 checksum of ZIP archives.

use vstd::prelude::*;

verus! {

/// One bit of the checksum.
pub open spec fn crc_bit(c: u32) -> u32 {
    if c & 1 != 0 {
        0xEDB8_8320u32 ^ (c >> 1)
    } else {
        c >> 1
    }
}

/// Eight bits of the checksum.
pub open spec fn crc_eight(c: u32) -> u32 {
    crc_bit(crc_bit(crc_bit(crc_bit(crc_bit(crc_bit(crc_bit(crc_bit(c))))))))
}

/// The running checksum with one more byte.
pub open spec fn crc_byte(crc: u32, b: u8) -> u32 {
    crc_eight(crc ^ (b as u32))
}

/// The running checksum with more data.
pub open spec fn crc_over(crc: u32, data: Seq<u8>) -> u32
    decreases data.len(),
{
    if data.len() == 0 {
        crc
    } else {
        crc_byte(crc_over(crc, data.drop_last()), data.last())
    }
}

/// The checksum of data.
pub open spec fn crc32(data: Seq<u8>) -> u32 {
    !crc_over(!0u32, data)
}

/// Checksumming data in two pieces is checksumming it in one.
pub proof fn lemma_crc_concat(crc: u32, a: Seq<u8>, b: Seq<u8>)
    ensures
        crc_over(crc_over(crc, a), b) == crc_over(crc, a + b),
    decreases b.len(),
{
    if b.len() == 0 {
        assert(a + b =~= a);
    } else {
        lemma_crc_concat(crc, a, b.drop_last());
        assert((a + b).drop_last() =~= a + b.drop_last());
    }
}

/// The low byte picks what is added to the rest.
proof fn lemma_table_step(c: u32)
    ensures
        crc_eight(c) == crc_eight(c & 0xFF) ^ (c >> 8),
        c & 0xFF < 256,
{
    assert(crc_eight(c) == crc_eight(c & 0xFF) ^ (c >> 8)) by (bit_vector);
    assert(c & 0xFF < 256) by (bit_vector);
}

proof fn lemma_high_bits(crc: u32, b: u32)
    requires
        b < 256,
    ensures
        (crc ^ b) >> 8 == crc >> 8,
{
    assert((crc ^ b) >> 8 == crc >> 8) by (bit_vector)
        requires
            b < 256,
    ;
}

/// Eight checksum bits for each value of a byte.
pub struct CrcTable {
    entries: Vec<u32>,
}

impl CrcTable {
    /// Each entry is what eight bits make of its index.
    pub closed spec fn wf(self) -> bool {
        &&& self.entries@.len() == 256
        &&& forall|i: int| 0 <= i < 256 ==> #[trigger] self.entries@[i] == crc_eight(i as u32)
    }

    /// Fills the table.
    pub fn new() -> (r: Self)
        ensures
            r.wf(),
    {
        let mut entries: Vec<u32> = Vec::new();
        let mut i: u32 = 0;
        while i < 256
            invariant
                i <= 256,
                entries@.len() == i,
                forall|j: int| 0 <= j < i ==> #[trigger] entries@[j] == crc_eight(j as u32),
            decreases 256 - i,
        {
            let mut c: u32 = i;
            let mut k: u32 = 0;
            let ghost bits = seq![
                i,
                crc_bit(i),
                crc_bit(crc_bit(i)),
                crc_bit(crc_bit(crc_bit(i))),
                crc_bit(crc_bit(crc_bit(crc_bit(i)))),
                crc_bit(crc_bit(crc_bit(crc_bit(crc_bit(i))))),
                crc_bit(crc_bit(crc_bit(crc_bit(crc_bit(crc_bit(i)))))),
                crc_bit(crc_bit(crc_bit(crc_bit(crc_bit(crc_bit(crc_bit(i))))))),
                crc_eight(i),
            ];
            while k < 8
                invariant
                    k <= 8,
                    c == bits[k as int],
                    bits.len() == 9,
                    bits[1] == crc_bit(bits[0]),
                    bits[2] == crc_bit(bits[1]),
                    bits[3] == crc_bit(bits[2]),
                    bits[4] == crc_bit(bits[3]),
                    bits[5] == crc_bit(bits[4]),
                    bits[6] == crc_bit(bits[5]),
                    bits[7] == crc_bit(bits[6]),
                    bits[8] == crc_bit(bits[7]),
                decreases 8 - k,
            {
                c = if c & 1 != 0 {
                    0xEDB8_8320 ^ (c >> 1)
                } else {
                    c >> 1
                };
                k += 1;
            }
            entries.push(c);
            i += 1;
        }
        CrcTable { entries }
    }

    /// Runs the checksum over more data.
    pub fn crc32_update(&self, crc: u32, data: &[u8]) -> (r: u32)
        requires
            self.wf(),
        ensures
            r == crc_over(crc, data@),
    {
        let n: usize = data.len();
        let mut c: u32 = crc;
        let mut i: usize = 0;
        assert(data@.take(0) =~= Seq::<u8>::empty());
        while i < n
            invariant
                i <= n == data@.len(),
                self.wf(),
                c == crc_over(crc, data@.take(i as int)),
            decreases n - i,
        {
            let b: u32 = data[i] as u32;
            proof {
                assert(data@.take(i + 1).drop_last() =~= data@.take(i as int));
                assert(data@.take(i + 1).last() == data@[i as int]);
                lemma_table_step(c ^ b);
                lemma_high_bits(c, b);
            }
            let at: usize = ((c ^ b) & 0xFF) as usize;
            c = self.entries[at] ^ (c >> 8);
            i += 1;
        }
        assert(data@.take(i as int) =~= data@);
        c
    }
}

} // verus!
