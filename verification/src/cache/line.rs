use vstd::prelude::*;
use crate::cache::bytes::{
    byte_weight, drop_digits, le_value, lemma_byte_weight_small, lemma_le_value_bound,
    lemma_le_value_step, mask_bit, mask_fits, masked_store, masked_store_upto,
    zero_bytes,
};

verus! {

/// The bytes held by one cache line.
pub type LineData = Vec<u8>;

/// One slot of a direct-mapped cache: its status bits, the tag of the memory
/// line it holds, and that line's bytes.
#[derive(Debug, Clone)]
pub struct CacheLine {
    pub valid: bool,
    pub dirty: bool,
    pub tag: u32,
    pub data: LineData,
}

impl CacheLine {
    /// An empty (invalid, clean) line of `line_size` zero bytes with tag 0.
    pub fn new(line_size: usize) -> (line: Self)
        ensures
            !line.valid,
            !line.dirty,
            line.tag == 0,
            line.data@ == zero_bytes(line_size as nat),
    {
        let mut data: Vec<u8> = Vec::new();
        let mut i: usize = 0;
        while i < line_size
            invariant
                i <= line_size,
                data@ == zero_bytes(i as nat),
            decreases line_size - i,
        {
            data.push(0u8);
            i += 1;
            assert(data@ =~= zero_bytes(i as nat));
        }
        CacheLine { valid: false, dirty: false, tag: 0, data }
    }

    /// Whether the line holds the memory line with this tag.
    pub fn is_hit(&self, tag: u32) -> (hit: bool)
        ensures
            hit == (self.valid && self.tag == tag),
    {
        self.valid && self.tag == tag
    }

    /// Reads `rsize` bytes (at most four) from `offset` on, little-endian.
    pub fn read_u32(&self, offset: usize, rsize: u8) -> (value: u32)
        requires
            rsize <= 4,
            offset + rsize <= self.data@.len(),
        ensures
            value == le_value(self.data@.subrange(offset as int, offset + rsize)),
    {
        let n = rsize as usize;
        let mut value: u32 = 0;
        let mut i: usize = n;
        proof {
            lemma_byte_weight_small();
            assert(self.data@.subrange(offset + n, offset + n) =~= Seq::<u8>::empty());
        }
        while i > 0
            invariant
                i <= n,
                n <= 4,
                offset + n <= self.data.len(),
                value == le_value(self.data@.subrange(offset + i, offset + n)),
                value < byte_weight((n - i) as nat),
            decreases i,
        {
            i -= 1;
            proof {
                lemma_byte_weight_small();
                lemma_le_value_step(self.data@, offset + i, offset + n);
                lemma_le_value_bound(self.data@.subrange(offset + i, offset + n));
                assert(value < 16777216) by {
                    assert(n - i - 1 <= 3);
                    if n - i - 1 == 0 {
                    } else if n - i - 1 == 1 {
                    } else if n - i - 1 == 2 {
                    } else {
                    }
                }
            }
            value = value * 256 + self.data[offset + i] as u32;
        }
        value
    }

    /// Stores the bytes of `wdata` that `wmask` selects (bit `k` for byte `k`)
    /// at `offset` onward, and marks the line dirty.
    pub fn write_u32(&mut self, offset: usize, wdata: u32, wmask: u8)
        requires
            mask_fits(old(self).data@.len() as int, offset as int, wmask),
        ensures
            final(self).valid == old(self).valid,
            final(self).tag == old(self).tag,
            final(self).dirty,
            final(self).data@ == masked_store(old(self).data@, offset as int, wdata, wmask),
    {
        let ghost before = self.data@;
        let ghost valid = self.valid;
        let ghost tag = self.tag;
        let mut word: u32 = wdata;
        let mut bits: u8 = wmask;
        let mut k: usize = 0;
        assert(self.data@ =~= masked_store_upto(before, offset as int, wdata, wmask, 0));
        while k < 4
            invariant
                k <= 4,
                word == drop_digits(wdata as nat, 256, k as nat),
                bits == drop_digits(wmask as nat, 2, k as nat),
                self.data@ == masked_store_upto(before, offset as int, wdata, wmask, k as int),
                mask_fits(before.len() as int, offset as int, wmask),
                self.data.len() == before.len(),
                self.valid == valid,
                self.tag == tag,
            decreases 4 - k,
        {
            if bits % 2 == 1 {
                assert(mask_bit(wmask, k as int));
                self.data.set(offset + k, (word % 256) as u8);
            }
            proof {
                assert(drop_digits(wdata as nat, 256, (k + 1) as nat) == word / 256);
                assert(drop_digits(wmask as nat, 2, (k + 1) as nat) == bits / 2);
            }
            word = word / 256;
            bits = bits / 2;
            k += 1;
            assert(self.data@ =~= masked_store_upto(before, offset as int, wdata, wmask, k as int));
        }
        self.dirty = true;
    }

    /// Loads a whole memory line into this slot: valid, clean, with the given tag
    /// and a copy of `data`.
    pub fn fill(&mut self, tag: u32, data: &[u8])
        ensures
            final(self).valid,
            !final(self).dirty,
            final(self).tag == tag,
            final(self).data@ == data@,
    {
        self.valid = true;
        self.dirty = false;
        self.tag = tag;
        self.data = vstd::slice::slice_to_vec(data);
    }
}

} // verus!
