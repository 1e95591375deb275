pub mod addr;
pub mod bytes;
pub mod coherence;
pub mod line;
pub mod memory;

pub use addr::{AddressParts, decode_address};
pub use line::{CacheLine, LineData};
pub use memory::MockMemory;

use vstd::prelude::*;
use crate::cache::addr::{
    addr_index, addr_offset, addr_tag, cut_addr, line_base, line_number,
    lemma_address_decomposition, lemma_cut_addr_bound,
};
use vstd::arithmetic::power2::pow2;
use crate::cache::bytes::{le_value, mask_fits, masked_store, zero_bytes};
use crate::cache::memory::store_line;

verus! {

/// The shape of a cache.
#[derive(Debug, Clone, Copy)]
pub struct CacheConfig {
    /// Width of an address in bits: the cache keeps only this many low bits
    /// of a request's address (all of them from 32 on).
    pub addr_width: u8,
    /// Total size of the cache in bytes.
    pub cache_size: usize,
    /// Size of one cache line in bytes.
    pub line_size: usize,
}

#[derive(Debug, Clone, Copy, PartialEq, Eq, Structural)]
pub enum AccessType {
    Read,
    Write,
}

/// A request from the processor. `rsize` is the number of bytes a read returns;
/// `wdata` and `wmask` (bit `k` selects byte `k` of `wdata`) describe a write.
#[derive(Debug, Clone, Copy)]
pub struct AccessRequest {
    pub addr: u32,
    pub access_type: AccessType,
    pub rsize: u8,
    pub wdata: u32,
    pub wmask: u8,
}

#[derive(Debug, Clone, Copy, PartialEq, Eq, Structural)]
pub enum AccessStatus {
    Hit,
    Miss,
}

/// The answer to a request: whether it hit, the data read (reads that hit
/// only), and whether the cache is ready for the next request. A served miss
/// is never ready; a refused (unaligned) request answers a miss that is ready.
#[derive(Debug, Clone, Copy)]
pub struct AccessResponse {
    pub status: AccessStatus,
    pub rdata: u32,
    pub ready: bool,
}

/// A direct-mapped, write-back, write-allocate cache in front of a mock memory.
#[derive(Debug, Clone)]
pub struct Cache {
    pub config: CacheConfig,
    pub lines: Vec<CacheLine>,
    pub memory: MockMemory,
}

impl Cache {
    pub open spec fn line_size_spec(self) -> int {
        self.config.line_size as int
    }

    pub open spec fn num_lines_spec(self) -> int {
        self.lines@.len() as int
    }

    /// The contents of the backing memory.
    pub open spec fn mem(self) -> Seq<u8> {
        self.memory.data@
    }

    /// The slot that `addr` maps to.
    pub open spec fn slot_of(self, addr: int) -> int {
        addr_index(addr, self.line_size_spec(), self.num_lines_spec())
    }

    pub open spec fn tag_of(self, addr: int) -> int {
        addr_tag(addr, self.line_size_spec(), self.num_lines_spec())
    }

    pub open spec fn offset_of(self, addr: int) -> int {
        addr_offset(addr, self.line_size_spec())
    }

    /// The first address of the memory line that holds `addr`.
    pub open spec fn line_addr_of(self, addr: int) -> int {
        line_number(addr, self.line_size_spec()) * self.line_size_spec()
    }

    /// The memory address that the line in slot `i` belongs to.
    pub open spec fn home(self, i: int) -> int {
        line_base(
            self.lines@[i].tag as int,
            i,
            self.line_size_spec(),
            self.num_lines_spec(),
        )
    }

    /// Whether the slot for `addr` holds the memory line of `addr`.
    pub open spec fn hits(self, addr: int) -> bool {
        let line = self.lines@[self.slot_of(addr)];
        line.valid && line.tag == self.tag_of(addr)
    }

    /// The structural invariant: positive line size, every slot holds exactly
    /// one line of bytes, the memory moves lines of the same size, and every
    /// valid line belongs to a memory line inside the memory.
    pub open spec fn wf(self) -> bool {
        &&& self.config.line_size > 0
        &&& self.memory.line_size == self.config.line_size
        &&& forall|i: int|
            0 <= i < self.num_lines_spec() ==> (#[trigger] self.lines@[i]).data@.len()
                == self.line_size_spec()
        &&& forall|i: int|
            0 <= i < self.num_lines_spec() && (#[trigger] self.lines@[i]).valid
                ==> self.home(i) + self.line_size_spec() <= self.mem().len()
    }

    /// The geometry lets every address be decoded: positive line size, at
    /// least one line, and `line_size * num_lines` fits in an address.
    pub open spec fn decodable(self) -> bool {
        &&& self.config.line_size > 0
        &&& self.num_lines_spec() > 0
        &&& self.line_size_spec() * self.num_lines_spec() <= u32::MAX
    }

    /// The address the cache works with: `addr` cut to `addr_width` bits.
    pub open spec fn effective_addr(self, addr: u32) -> int {
        cut_addr(addr as int, self.config.addr_width as int)
    }

    /// A request at (effective) address `a` is naturally aligned: a read is
    /// of 1, 2 or 4 bytes at a multiple of its size, a write (a word under a
    /// byte mask) at a multiple of 4.
    pub open spec fn aligned_at(a: int, request: AccessRequest) -> bool {
        match request.access_type {
            AccessType::Read => (request.rsize == 1 || request.rsize == 2 || request.rsize == 4)
                && a % (request.rsize as int) == 0,
            AccessType::Write => a % 4 == 0,
        }
    }

    /// The request is naturally aligned at its effective address.
    pub open spec fn is_aligned(self, request: AccessRequest) -> bool {
        Self::aligned_at(self.effective_addr(request.addr), request)
    }

    /// The answer to a refused (unaligned) request: no hit, no data, and the
    /// cache ready for the next request.
    pub open spec fn refusal() -> AccessResponse {
        AccessResponse { status: AccessStatus::Miss, rdata: 0, ready: true }
    }

    /// The cache can serve `request` at (effective) address `a` without
    /// leaving its line or its memory: on a hit the bytes read or written
    /// lie in the slot's line; on a miss the victim (when it must be written
    /// back) and the fetched line lie inside the memory, and the written
    /// bytes lie in the fetched line.
    pub open spec fn can_serve(self, a: int, request: AccessRequest) -> bool {
        let i = self.slot_of(a);
        let line = self.lines@[i];
        let o = self.offset_of(a);
        let mls = self.memory.line_size as int;
        if self.hits(a) {
            match request.access_type {
                AccessType::Read => request.rsize <= 4 && o + request.rsize <= line.data@.len(),
                AccessType::Write => mask_fits(line.data@.len() as int, o, request.wmask),
            }
        } else {
            &&& line.valid && line.dirty ==> self.home(i) + mls <= self.mem().len()
                && line.data@.len() == mls
            &&& self.line_addr_of(a) + mls <= self.mem().len()
            &&& request.access_type == AccessType::Write ==> mask_fits(mls, o, request.wmask)
        }
    }

    /// An aligned request can be served at its effective address (an
    /// unaligned one is refused without touching the cache).
    pub open spec fn request_ok(self, request: AccessRequest) -> bool {
        self.is_aligned(request) ==> self.can_serve(self.effective_addr(request.addr), request)
    }

    /// The memory after the line in slot `i` is evicted: written back when it
    /// is valid and dirty, untouched otherwise.
    pub open spec fn flushed(self, i: int) -> Seq<u8> {
        let line = self.lines@[i];
        if line.valid && line.dirty {
            store_line(self.mem(), self.home(i), line.data@)
        } else {
            self.mem()
        }
    }

    /// The bytes fetched for the line of `addr` after its slot was evicted.
    pub open spec fn refill(self, addr: int) -> Seq<u8> {
        let start = self.line_addr_of(addr);
        self.flushed(self.slot_of(addr)).subrange(start, start + self.memory.line_size)
    }

    /// What writing back the line in slot `index` yields: memory as after its
    /// eviction, the line marked clean if it was valid, all else unchanged.
    pub open spec fn writeback_outcome(self, index: int, after: Self) -> bool {
        let line = self.lines@[index];
        let new_line = after.lines@[index];
        &&& after.config == self.config
        &&& after.memory.line_size == self.memory.line_size
        &&& after.lines@.len() == self.lines@.len()
        &&& after.mem() == self.flushed(index)
        &&& forall|j: int|
            0 <= j < self.num_lines_spec() && j != index ==> #[trigger] after.lines@[j]
                == self.lines@[j]
        &&& new_line.valid == line.valid
        &&& new_line.tag == line.tag
        &&& new_line.data@ == line.data@
        &&& new_line.dirty == (line.dirty && !line.valid)
    }

    /// What serving `request` at the effective address `a` yields: the cache
    /// `after` and the response `resp`. Only the slot of `a` changes; on a
    /// miss the victim is written back if valid and dirty and the line of `a`
    /// is fetched; a write then merges the masked bytes and marks the line dirty.
    pub open spec fn outcome_at(
        self,
        a: int,
        request: AccessRequest,
        after: Self,
        resp: AccessResponse,
    ) -> bool {
        let i = self.slot_of(a);
        let hit = self.hits(a);
        let line = self.lines@[i];
        let new_line = after.lines@[i];
        let o = self.offset_of(a);
        let loaded = if hit {
            line.data@
        } else {
            self.refill(a)
        };
        &&& after.config == self.config
        &&& after.memory.line_size == self.memory.line_size
        &&& after.lines@.len() == self.lines@.len()
        &&& forall|j: int|
            0 <= j < self.num_lines_spec() && j != i ==> #[trigger] after.lines@[j]
                == self.lines@[j]
        &&& after.mem() == (if hit {
            self.mem()
        } else {
            self.flushed(i)
        })
        &&& new_line.valid
        &&& new_line.tag == self.tag_of(a)
        &&& resp.status == (if hit {
            AccessStatus::Hit
        } else {
            AccessStatus::Miss
        })
        &&& resp.ready == hit
        &&& match request.access_type {
            AccessType::Read => {
                &&& new_line.dirty == (hit && line.dirty)
                &&& new_line.data@ == loaded
                &&& resp.rdata == (if hit {
                    le_value(loaded.subrange(o, o + request.rsize))
                } else {
                    0
                })
            },
            AccessType::Write => {
                &&& new_line.dirty
                &&& new_line.data@ == masked_store(loaded, o, request.wdata, request.wmask)
                &&& resp.rdata == 0
            },
        }
    }

    /// What serving an aligned `request` yields: the outcome at its effective address.
    pub open spec fn access_outcome(
        self,
        request: AccessRequest,
        after: Self,
        resp: AccessResponse,
    ) -> bool {
        self.outcome_at(self.effective_addr(request.addr), request, after, resp)
    }

    /// What `access` yields: an aligned request is served as
    /// `access_outcome` says; an unaligned one is refused, with the cache
    /// left exactly as it was.
    pub open spec fn access_result(
        self,
        request: AccessRequest,
        after: Self,
        resp: AccessResponse,
    ) -> bool {
        if self.is_aligned(request) {
            self.access_outcome(request, after, resp)
        } else {
            after == self && resp == Self::refusal()
        }
    }

    /// A cache of `cache_size / line_size` empty lines over a zeroed memory
    /// four times the cache size.
    pub fn new(config: CacheConfig) -> (cache: Self)
        requires
            config.line_size > 0,
            config.cache_size * 4 <= usize::MAX,
        ensures
            cache.config == config,
            cache.lines@.len() == config.cache_size / config.line_size,
            forall|i: int|
                0 <= i < cache.lines@.len() ==> {
                    let line = #[trigger] cache.lines@[i];
                    &&& !line.valid
                    &&& !line.dirty
                    &&& line.tag == 0
                    &&& line.data@ == zero_bytes(config.line_size as nat)
                },
            cache.memory.line_size == config.line_size,
            cache.memory.data@ == zero_bytes((config.cache_size * 4) as nat),
            cache.wf(),
            cache.coherent(),
            cache.lines@.len() > 0 ==> cache.mem_view() == zero_bytes(
                (config.cache_size * 4) as nat,
            ),
    {
        let count = config.cache_size / config.line_size;
        let mut lines: Vec<CacheLine> = Vec::new();
        let mut i: usize = 0;
        while i < count
            invariant
                i <= count,
                lines@.len() == i,
                forall|j: int|
                    0 <= j < i ==> {
                        let line = #[trigger] lines@[j];
                        &&& !line.valid
                        &&& !line.dirty
                        &&& line.tag == 0
                        &&& line.data@ == zero_bytes(config.line_size as nat)
                    },
            decreases count - i,
        {
            lines.push(CacheLine::new(config.line_size));
            i += 1;
        }
        let memory = MockMemory::new(config.line_size, config.cache_size * 4);
        let cache = Cache { config, lines, memory };
        proof {
            if cache.lines@.len() > 0 {
                assert forall|b: int| 0 <= b < cache.mem().len() implies #[trigger] cache.mem_view()[b]
                    == cache.mem()[b] by {
                    lemma_address_decomposition(
                        b,
                        cache.line_size_spec(),
                        cache.num_lines_spec(),
                    );
                }
                assert(cache.mem_view() =~= zero_bytes((config.cache_size * 4) as nat));
            }
        }
        cache
    }

    /// The number of lines (slots) in the cache.
    pub fn num_lines(&self) -> (n: usize)
        ensures
            n == self.lines@.len(),
    {
        self.lines.len()
    }

    /// Serves one read or write request. The address is first cut to
    /// `addr_width` bits; a request that is not naturally aligned at that
    /// address is refused and leaves the cache unchanged.
    pub fn access(&mut self, request: AccessRequest) -> (resp: AccessResponse)
        requires
            old(self).decodable(),
            old(self).request_ok(request),
        ensures
            old(self).access_result(request, *final(self), resp),
            ({
                let a = old(self).effective_addr(request.addr);
                let served = match request.access_type {
                    AccessType::Read => request.rsize == 1 || (request.rsize == 2 && a % 2 == 0)
                        || (request.rsize == 4 && a % 4 == 0),
                    AccessType::Write => a % 4 == 0,
                };
                let ls = old(self).config.line_size as int;
                let nl = old(self).lines@.len() as int;
                let line = old(self).lines@[(a / ls) % nl];
                if served {
                    &&& old(self).access_outcome(request, *final(self), resp)
                    &&& (resp.status == AccessStatus::Hit) == (line.valid && line.tag == a / (ls
                        * nl))
                    &&& resp.ready == (resp.status == AccessStatus::Hit)
                    &&& (request.access_type == AccessType::Write || resp.status
                        == AccessStatus::Miss) ==> resp.rdata == 0
                } else {
                    &&& *final(self) == *old(self)
                    &&& resp.status == AccessStatus::Miss
                    &&& resp.rdata == 0
                    &&& resp.ready
                }
            }),
            final(self).mem().len() == old(self).mem().len(),
            old(self).wf() ==> final(self).wf(),
            old(self).is_aligned(request) ==> final(self).hits(
                old(self).effective_addr(request.addr),
            ),
            old(self).wf() && old(self).coherent() ==> final(self).coherent(),
            old(self).wf() && old(self).coherent() ==> final(self).mem_view() == old(
                self,
            ).view_after(request),
            old(self).wf() && old(self).coherent() && request.access_type == AccessType::Read
                && resp.status == AccessStatus::Hit ==> resp.rdata == le_value(
                old(self).mem_view().subrange(
                    old(self).effective_addr(request.addr),
                    old(self).effective_addr(request.addr) + request.rsize,
                ),
            ),
    {
        let addr = self.cut_address(request.addr);
        let aligned = match request.access_type {
            AccessType::Read => (request.rsize == 1 || request.rsize == 2 || request.rsize == 4)
                && addr % (request.rsize as u32) == 0,
            AccessType::Write => addr % 4 == 0,
        };
        if !aligned {
            proof {
                old(self).lemma_admission(request);
            }
            return AccessResponse { status: AccessStatus::Miss, rdata: 0, ready: true };
        }
        let local = AccessRequest { addr, ..request };
        let resp = match request.access_type {
            AccessType::Read => self.read(local),
            AccessType::Write => self.write(local),
        };
        proof {
            old(self).lemma_admission(request);
            lemma_cut_addr_bound(request.addr as int, self.config.addr_width as int);
            vstd::arithmetic::div_mod::lemma_div_denominator(
                old(self).effective_addr(request.addr),
                self.config.line_size as int,
                self.lines@.len() as int,
            );
            old(self).lemma_outcome_resident(request, *self, resp);
            old(self).lemma_result_keeps_memory_size(request, *self, resp);
            if old(self).wf() {
                old(self).lemma_access_keeps_wf(request, *self, resp);
                if old(self).coherent() {
                    old(self).lemma_access_keeps_view(request, *self, resp);
                }
            }
        }
        resp
    }

    /// `addr` cut to `addr_width` bits.
    fn cut_address(&self, addr: u32) -> (a: u32)
        ensures
            a == self.effective_addr(addr),
    {
        let width = self.config.addr_width;
        if width >= 32 {
            addr
        } else {
            let mut modulus: u32 = 1;
            let mut i: u8 = 0;
            proof {
                vstd::arithmetic::power2::lemma2_to64();
            }
            while i < width
                invariant
                    i <= width,
                    width < 32,
                    modulus as nat == pow2(i as nat),
                decreases width - i,
            {
                proof {
                    vstd::arithmetic::power2::lemma_pow2_unfold((i + 1) as nat);
                    vstd::arithmetic::power2::lemma_pow2_strictly_increases(i as nat, 31);
                    vstd::arithmetic::power2::lemma2_to64();
                }
                modulus = modulus * 2;
                i += 1;
            }
            addr % modulus
        }
    }

    fn read(&mut self, request: AccessRequest) -> (resp: AccessResponse)
        requires
            old(self).decodable(),
            old(self).can_serve(request.addr as int, request),
            request.access_type == AccessType::Read,
        ensures
            old(self).outcome_at(request.addr as int, request, *final(self), resp),
    {
        let parts = decode_address(request.addr, self.config.line_size, self.num_lines());
        if self.lines[parts.index].is_hit(parts.tag) {
            let rdata = self.lines[parts.index].read_u32(parts.offset, request.rsize);
            AccessResponse { status: AccessStatus::Hit, rdata, ready: true }
        } else {
            let needs_writeback = {
                let line = &self.lines[parts.index];
                line.valid && line.dirty
            };
            if needs_writeback {
                self.writeback_if_dirty(parts.index);
            }
            let line_addr = self.line_addr(request.addr);
            let line_data = self.memory.read_line(line_addr);
            self.lines[parts.index].fill(parts.tag, line_data.as_slice());
            AccessResponse { status: AccessStatus::Miss, rdata: 0, ready: false }
        }
    }

    fn write(&mut self, request: AccessRequest) -> (resp: AccessResponse)
        requires
            old(self).decodable(),
            old(self).can_serve(request.addr as int, request),
            request.access_type == AccessType::Write,
        ensures
            old(self).outcome_at(request.addr as int, request, *final(self), resp),
    {
        let parts = decode_address(request.addr, self.config.line_size, self.num_lines());
        if self.lines[parts.index].is_hit(parts.tag) {
            self.lines[parts.index].write_u32(parts.offset, request.wdata, request.wmask);
            AccessResponse { status: AccessStatus::Hit, rdata: 0, ready: true }
        } else {
            self.handle_write_miss(request, parts)
        }
    }

    fn handle_write_miss(&mut self, request: AccessRequest, addr_parts: AddressParts) -> (resp:
        AccessResponse)
        requires
            old(self).decodable(),
            old(self).can_serve(request.addr as int, request),
            request.access_type == AccessType::Write,
            !old(self).hits(request.addr as int),
            addr_parts.tag == old(self).tag_of(request.addr as int),
            addr_parts.index == old(self).slot_of(request.addr as int),
            addr_parts.offset == old(self).offset_of(request.addr as int),
        ensures
            old(self).outcome_at(request.addr as int, request, *final(self), resp),
    {
        let needs_writeback = {
            let line = &self.lines[addr_parts.index];
            line.valid && line.dirty
        };
        if needs_writeback {
            self.writeback_if_dirty(addr_parts.index);
        }
        let line_addr = self.line_addr(request.addr);
        let line_data = self.memory.read_line(line_addr);
        self.lines[addr_parts.index].fill(addr_parts.tag, line_data.as_slice());
        self.lines[addr_parts.index].write_u32(addr_parts.offset, request.wdata, request.wmask);
        AccessResponse { status: AccessStatus::Miss, rdata: 0, ready: false }
    }

    /// The first address of the memory line that holds `addr`.
    fn line_addr(&self, addr: u32) -> (start: usize)
        requires
            self.config.line_size > 0,
        ensures
            start == self.line_addr_of(addr as int),
            start <= addr,
    {
        proof {
            vstd::arithmetic::div_mod::lemma_fundamental_div_mod(
                addr as int,
                self.config.line_size as int,
            );
            vstd::arithmetic::mul::lemma_mul_is_commutative(
                self.config.line_size as int,
                addr as int / self.config.line_size as int,
            );
        }
        (addr as usize / self.config.line_size) * self.config.line_size
    }

    /// Writes the line in slot `index` back to memory when it is valid and
    /// dirty, and marks it clean.
    fn writeback_if_dirty(&mut self, index: usize)
        requires
            old(self).decodable(),
            index < old(self).lines@.len(),
            old(self).lines@[index as int].valid && old(self).lines@[index as int].dirty ==> {
                &&& old(self).home(index as int) + old(self).memory.line_size
                    <= old(self).mem().len()
                &&& old(self).lines@[index as int].data@.len() == old(self).memory.line_size
            },
        ensures
            old(self).writeback_outcome(index as int, *final(self)),
    {
        if self.lines[index].valid && self.lines[index].dirty {
            proof {
                assert(self.memory.data@.len() == self.memory.data.len());
                lemma_home_arith(
                    self.lines@[index as int].tag as int,
                    index as int,
                    self.config.line_size as int,
                    self.lines@.len() as int,
                );
            }
            let line_addr = (self.lines[index].tag as usize) * self.config.line_size
                * self.num_lines() + index * self.config.line_size;
            self.memory.write_line(line_addr, self.lines[index].data.as_slice());
            self.lines[index].dirty = false;
        }
    }

    /// The line fetched on a miss belongs, as the slot's new content, to a
    /// memory line starting at the address it was fetched from.
    pub proof fn lemma_refill_home(self, addr: int)
        requires
            self.config.line_size > 0,
            self.decodable(),
            0 <= addr <= u32::MAX,
        ensures
            line_base(
                self.tag_of(addr),
                self.slot_of(addr),
                self.line_size_spec(),
                self.num_lines_spec(),
            ) == self.line_addr_of(addr),
            0 <= self.slot_of(addr) < self.num_lines_spec(),
            0 <= self.tag_of(addr) <= u32::MAX,
    {
        let ls = self.line_size_spec();
        let nl = self.num_lines_spec();
        lemma_address_decomposition(addr, ls, nl);
        vstd::arithmetic::div_mod::lemma_fundamental_div_mod(addr, ls);
        vstd::arithmetic::mul::lemma_mul_is_commutative(ls, addr / ls);
        assert(self.tag_of(addr) <= u32::MAX) by {
            vstd::arithmetic::div_mod::lemma_div_pos_is_pos(addr, ls);
            vstd::arithmetic::div_mod::lemma_div_nonincreasing(addr / ls, nl);
            vstd::arithmetic::div_mod::lemma_div_nonincreasing(addr, ls);
        }
    }
}

/// The write-back address `tag * line_size * num_lines + index * line_size`
/// equals the line base, and its partial products do not exceed it.
proof fn lemma_home_arith(tag: int, index: int, ls: int, nl: int)
    requires
        tag >= 0,
        0 <= index,
        ls > 0,
        nl > 0,
    ensures
        line_base(tag, index, ls, nl) == tag * ls * nl + index * ls,
        tag * ls <= tag * ls * nl,
        0 <= tag * ls,
        0 <= index * ls,
{
    assert(line_base(tag, index, ls, nl) == tag * ls * nl + index * ls) by (nonlinear_arith);
    assert(tag * ls <= tag * ls * nl) by (nonlinear_arith)
        requires
            tag >= 0,
            ls > 0,
            nl > 0,
    ;
    assert(0 <= tag * ls) by (nonlinear_arith)
        requires
            tag >= 0,
            ls > 0,
    ;
    assert(0 <= index * ls) by (nonlinear_arith)
        requires
            index >= 0,
            ls > 0,
    ;
}

} // verus!
