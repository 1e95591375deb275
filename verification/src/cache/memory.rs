use vstd::prelude::*;
use crate::cache::bytes::zero_bytes;

verus! {

/// `mem` after the bytes `line` are written starting at `line_addr`.
pub open spec fn store_line(mem: Seq<u8>, line_addr: int, line: Seq<u8>) -> Seq<u8> {
    Seq::new(
        mem.len(),
        |j: int|
            if line_addr <= j < line_addr + line.len() {
                line[j - line_addr]
            } else {
                mem[j]
            },
    )
}

/// A flat byte memory that is read and written one whole line at a time.
#[derive(Debug, Clone)]
pub struct MockMemory {
    pub line_size: usize,
    pub data: Vec<u8>,
}

impl MockMemory {
    /// A memory of `size` zero bytes, accessed in lines of `line_size` bytes.
    pub fn new(line_size: usize, size: usize) -> (memory: Self)
        ensures
            memory.line_size == line_size,
            memory.data@ == zero_bytes(size as nat),
    {
        let mut data: Vec<u8> = Vec::new();
        let mut i: usize = 0;
        while i < size
            invariant
                i <= size,
                data@ == zero_bytes(i as nat),
            decreases size - i,
        {
            data.push(0u8);
            i += 1;
            assert(data@ =~= zero_bytes(i as nat));
        }
        MockMemory { line_size, data }
    }

    /// A copy of the `line_size` bytes starting at `line_addr`.
    pub fn read_line(&self, line_addr: usize) -> (line: Vec<u8>)
        requires
            line_addr + self.line_size <= self.data@.len(),
        ensures
            line@ == self.data@.subrange(line_addr as int, line_addr + self.line_size),
    {
        let mut line: Vec<u8> = Vec::new();
        let mut i: usize = 0;
        while i < self.line_size
            invariant
                i <= self.line_size,
                line_addr + self.line_size <= self.data.len(),
                line@ == self.data@.subrange(line_addr as int, line_addr + i),
            decreases self.line_size - i,
        {
            line.push(self.data[line_addr + i]);
            i += 1;
            assert(line@ =~= self.data@.subrange(line_addr as int, line_addr + i));
        }
        line
    }

    /// Overwrites the `line_size` bytes starting at `line_addr` with `line_data`.
    pub fn write_line(&mut self, line_addr: usize, line_data: &[u8])
        requires
            line_addr + old(self).line_size <= old(self).data@.len(),
            line_data@.len() == old(self).line_size,
        ensures
            final(self).line_size == old(self).line_size,
            final(self).data@ == store_line(old(self).data@, line_addr as int, line_data@),
    {
        let ghost before = self.data@;
        let mut i: usize = 0;
        assert(self.data@ =~= store_line(before, line_addr as int, line_data@.subrange(0, 0)));
        while i < self.line_size
            invariant
                i <= self.line_size,
                line_data@.len() == self.line_size,
                line_addr + self.line_size <= self.data.len(),
                self.data.len() == before.len(),
                self.data@ == store_line(before, line_addr as int, line_data@.subrange(0, i as int)),
            decreases self.line_size - i,
        {
            self.data.set(line_addr + i, line_data[i]);
            i += 1;
            assert(self.data@ =~= store_line(
                before,
                line_addr as int,
                line_data@.subrange(0, i as int),
            ));
        }
        assert(line_data@.subrange(0, i as int) =~= line_data@);
    }
}

/// Reading back a line that was just written gives the written bytes, and
/// bytes outside the written line keep their old values.
pub proof fn lemma_line_read_after_write(mem: Seq<u8>, line_addr: int, line: Seq<u8>)
    requires
        0 <= line_addr,
        line_addr + line.len() <= mem.len(),
    ensures
        store_line(mem, line_addr, line).len() == mem.len(),
        store_line(mem, line_addr, line).subrange(line_addr, line_addr + line.len()) == line,
        forall|j: int|
            0 <= j < mem.len() && !(line_addr <= j < line_addr + line.len())
                ==> #[trigger] store_line(mem, line_addr, line)[j] == mem[j],
{
    assert(store_line(mem, line_addr, line).subrange(line_addr, line_addr + line.len()) =~= line);
}

} // verus!
