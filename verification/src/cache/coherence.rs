use vstd::prelude::*;
use crate::cache::{AccessRequest, AccessResponse, AccessStatus, AccessType, Cache};
use crate::cache::addr::{
    addr_index, addr_offset, addr_tag, line_base, lemma_address_decomposition,
    lemma_cut_addr_bound, lemma_line_base_decodes,
};
use vstd::arithmetic::power2::pow2;
use crate::cache::bytes::{le_value, lemma_store_then_load, mask_bit, masked_store};

verus! {

impl Cache {
    /// The byte that a processor sees at address `b`: taken from the slot of
    /// `b` when that slot holds the line of `b`, from memory otherwise.
    pub open spec fn byte_view(self, b: int) -> u8 {
        let ls = self.line_size_spec();
        let nl = self.num_lines_spec();
        let line = self.lines@[addr_index(b, ls, nl)];
        if line.valid && line.tag == addr_tag(b, ls, nl) {
            line.data@[addr_offset(b, ls)]
        } else {
            self.mem()[b]
        }
    }

    /// The memory as the processor sees it through the cache.
    pub open spec fn mem_view(self) -> Seq<u8> {
        Seq::new(self.mem().len(), |b: int| self.byte_view(b))
    }

    /// Every valid clean line holds the same bytes as the memory line it
    /// belongs to.
    pub open spec fn coherent(self) -> bool {
        forall|i: int|
            0 <= i < self.num_lines_spec() && (#[trigger] self.lines@[i]).valid
                && !self.lines@[i].dirty ==> self.lines@[i].data@ == self.mem().subrange(
                self.home(i),
                self.home(i) + self.line_size_spec(),
            )
    }

    /// The processor's view of memory after `request`: unchanged by a read or
    /// a refused request, the masked bytes of the word stored by a write at
    /// its effective address.
    pub open spec fn view_after(self, request: AccessRequest) -> Seq<u8> {
        if !self.is_aligned(request) {
            self.mem_view()
        } else {
            match request.access_type {
            AccessType::Read => self.mem_view(),
            AccessType::Write => masked_store(
                self.mem_view(),
                self.effective_addr(request.addr),
                request.wdata,
                request.wmask,
            ),
            }
        }
    }

    /// After any access the slot of the address holds the address's line, so
    /// the next access to it hits.
    pub proof fn lemma_outcome_resident(
        self,
        request: AccessRequest,
        after: Self,
        resp: AccessResponse,
    )
        requires
            self.access_outcome(request, after, resp),
        ensures
            after.hits(self.effective_addr(request.addr)),
    {
    }

    /// What the processor sees at one address after a request, compared with
    /// the view before it.
    proof fn lemma_byte_after(self, request: AccessRequest, after: Self, resp: AccessResponse, b: int)
        requires
            self.wf(),
            self.decodable(),
            self.request_ok(request),
            self.is_aligned(request),
            self.coherent(),
            self.access_outcome(request, after, resp),
            0 <= b < self.mem().len(),
        ensures
            after.byte_view(b) == self.view_after(request)[b],
    {
        let ls = self.line_size_spec();
        let nl = self.num_lines_spec();
        let a = self.effective_addr(request.addr);
        lemma_cut_addr_bound(request.addr as int, self.config.addr_width as int);
        let i = self.slot_of(a);
        let t = self.tag_of(a);
        let o = self.offset_of(a);
        let line = self.lines@[i];
        let new_line = after.lines@[i];
        let hit = self.hits(a);
        let bi = addr_index(b, ls, nl);
        let bt = addr_tag(b, ls, nl);
        let bo = addr_offset(b, ls);
        lemma_address_decomposition(a, ls, nl);
        lemma_address_decomposition(b, ls, nl);
        self.lemma_refill_home(a);
        let base = line_base(t, i, ls, nl);
        lemma_in_line(b, t, i, ls, nl);
        if line.valid {
            lemma_in_line(b, line.tag as int, i, ls, nl);
        }
        assert(self.mem_view()[b] == self.byte_view(b));
        assert(after.mem().len() == self.mem().len());
        // the byte of `b` after the slot of `a` was evicted and refilled, before any store
        let loaded_byte = if bi == i && bt == t {
            if hit {
                line.data@[bo]
            } else {
                self.flushed(i)[b]
            }
        } else {
            after.byte_view(b)
        };
        assert(loaded_byte == self.byte_view(b)) by {
            if bi == i && bt == t {
                if !hit {
                    if line.valid && line.dirty {
                        assert(line.tag != t);
                    }
                }
            } else if bi == i {
                if hit {
                } else if line.valid && line.tag == bt {
                    if !line.dirty {
                        assert(line.data@[bo] == self.mem().subrange(
                            self.home(i),
                            self.home(i) + ls,
                        )[bo]);
                    }
                }
            } else {
                assert(after.lines@[bi] == self.lines@[bi]);
                if !hit && line.valid && line.dirty {
                    assert(!(self.home(i) <= b < self.home(i) + ls));
                }
            }
        }
        if request.access_type == AccessType::Write {
            let m = request.wmask;
            if a <= b < a + 4 && mask_bit(m, b - a) {
                let k = b - a;
                assert(mask_bit(m, k));
                assert(o + k < ls);
                lemma_line_base_decodes(t, i, o + k, ls, nl);
                assert(b == base + (o + k));
            }
            if bi == i && bt == t {
                assert(b - a == bo - o);
                if !hit {
                    assert(self.refill(a)[bo] == self.flushed(i)[b]);
                }
            }
        } else {
            if bi == i && bt == t && !hit {
                assert(self.refill(a)[bo] == self.flushed(i)[b]);
            }
        }
    }

    /// After a request, every valid clean line still holds the bytes of its
    /// memory line.
    proof fn lemma_coherent_after(self, request: AccessRequest, after: Self, resp: AccessResponse)
        requires
            self.wf(),
            self.decodable(),
            self.request_ok(request),
            self.is_aligned(request),
            self.coherent(),
            self.access_outcome(request, after, resp),
        ensures
            after.coherent(),
    {
        let ls = self.line_size_spec();
        let nl = self.num_lines_spec();
        let a = self.effective_addr(request.addr);
        lemma_cut_addr_bound(request.addr as int, self.config.addr_width as int);
        let i = self.slot_of(a);
        let line = self.lines@[i];
        let hit = self.hits(a);
        self.lemma_refill_home(a);
        lemma_address_decomposition(a, ls, nl);
        assert forall|j: int|
            0 <= j < after.num_lines_spec() && (#[trigger] after.lines@[j]).valid
                && !after.lines@[j].dirty implies after.lines@[j].data@ == after.mem().subrange(
            after.home(j),
            after.home(j) + after.line_size_spec(),
        ) by {
            if j != i {
                assert(after.lines@[j] == self.lines@[j]);
                assert(after.home(j) == self.home(j));
                let hj = self.home(j);
                if !hit && line.valid && line.dirty {
                    assert forall|c: int| hj <= c < hj + ls implies after.mem()[c] == self.mem()[c] by {
                        lemma_in_line(c, self.lines@[j].tag as int, j, ls, nl);
                        lemma_in_line(c, line.tag as int, i, ls, nl);
                    }
                    assert(after.mem().subrange(hj, hj + ls) =~= self.mem().subrange(hj, hj + ls));
                }
            }
        }
    }

    /// Serving an aligned request keeps the structural invariant.
    proof fn lemma_served_wf(self, request: AccessRequest, after: Self, resp: AccessResponse)
        requires
            self.wf(),
            self.decodable(),
            self.request_ok(request),
            self.is_aligned(request),
            self.access_outcome(request, after, resp),
        ensures
            after.wf(),
    {
        let a = self.effective_addr(request.addr);
        lemma_cut_addr_bound(request.addr as int, self.config.addr_width as int);
        let i = self.slot_of(a);
        self.lemma_refill_home(a);
        assert forall|j: int| 0 <= j < after.num_lines_spec() implies (#[trigger] after.lines@[j]).data@.len()
            == after.line_size_spec() && (after.lines@[j].valid ==> after.home(j)
            + after.line_size_spec() <= after.mem().len()) by {
            if j != i {
                assert(after.lines@[j] == self.lines@[j]);
            }
        }
    }

    /// Serving an aligned request on a coherent cache: the view laws.
    proof fn lemma_served_keeps_view(
        self,
        request: AccessRequest,
        after: Self,
        resp: AccessResponse,
    )
        requires
            self.wf(),
            self.decodable(),
            self.request_ok(request),
            self.is_aligned(request),
            self.coherent(),
            self.access_outcome(request, after, resp),
        ensures
            after.coherent(),
            after.mem_view() == self.view_after(request),
            request.access_type == AccessType::Read && resp.status == AccessStatus::Hit
                ==> resp.rdata == le_value(
                self.mem_view().subrange(
                    self.effective_addr(request.addr),
                    self.effective_addr(request.addr) + request.rsize,
                ),
            ),
    {
        let ls = self.line_size_spec();
        let nl = self.num_lines_spec();
        let a = self.effective_addr(request.addr);
        lemma_cut_addr_bound(request.addr as int, self.config.addr_width as int);
        self.lemma_coherent_after(request, after, resp);
        assert forall|b: int| 0 <= b < self.mem().len() implies after.mem_view()[b]
            == self.view_after(request)[b] by {
            self.lemma_byte_after(request, after, resp, b);
        }
        assert(after.mem_view() =~= self.view_after(request));
        if request.access_type == AccessType::Read && resp.status == AccessStatus::Hit {
            let i = self.slot_of(a);
            let t = self.tag_of(a);
            let o = self.offset_of(a);
            let n = request.rsize as int;
            let line = self.lines@[i];
            lemma_address_decomposition(a, ls, nl);
            assert forall|k: int| 0 <= k < n implies #[trigger] line.data@.subrange(o, o + n)[k]
                == self.mem_view().subrange(a, a + n)[k] by {
                lemma_line_base_decodes(t, i, o + k, ls, nl);
            }
            assert(line.data@.subrange(o, o + n) =~= self.mem_view().subrange(a, a + n));
        }
    }


    /// Which requests are served: a write at an effective address that is a
    /// multiple of 4; a read of one byte at any effective address, of two
    /// bytes at an even one, of four bytes at a multiple of 4. Every other
    /// request is refused.
    pub proof fn lemma_admission(self, request: AccessRequest)
        ensures
            self.is_aligned(request) == match request.access_type {
                AccessType::Read => request.rsize == 1 || (request.rsize == 2
                    && self.effective_addr(request.addr) % 2 == 0) || (request.rsize == 4
                    && self.effective_addr(request.addr) % 4 == 0),
                AccessType::Write => self.effective_addr(request.addr) % 4 == 0,
            },
    {
        let a = self.effective_addr(request.addr);
        vstd::arithmetic::div_mod::lemma_fundamental_div_mod_converse(a, 1, a, 0);
    }

    /// Every access, served or refused, keeps the size of the memory.
    pub proof fn lemma_result_keeps_memory_size(
        self,
        request: AccessRequest,
        after: Self,
        resp: AccessResponse,
    )
        requires
            self.access_result(request, after, resp),
        ensures
            after.mem().len() == self.mem().len(),
    {
    }

    /// Every access, served or refused, keeps the structural invariant.
    pub proof fn lemma_access_keeps_wf(self, request: AccessRequest, after: Self, resp: AccessResponse)
        requires
            self.wf(),
            self.decodable(),
            self.request_ok(request),
            self.access_result(request, after, resp),
        ensures
            after.wf(),
    {
        if self.is_aligned(request) {
            self.lemma_served_wf(request, after, resp);
        }
    }

    /// An access on a coherent cache keeps it coherent; a read or a refused
    /// request leaves the processor's view of memory unchanged and a write
    /// stores exactly the masked bytes of its word; a read that hits returns
    /// the bytes of that view.
    pub proof fn lemma_access_keeps_view(
        self,
        request: AccessRequest,
        after: Self,
        resp: AccessResponse,
    )
        requires
            self.wf(),
            self.decodable(),
            self.request_ok(request),
            self.coherent(),
            self.access_result(request, after, resp),
        ensures
            after.coherent(),
            after.mem_view() == self.view_after(request),
            request.access_type == AccessType::Read && resp.status == AccessStatus::Hit
                ==> resp.rdata == le_value(
                self.mem_view().subrange(
                    self.effective_addr(request.addr),
                    self.effective_addr(request.addr) + request.rsize,
                ),
            ),
    {
        if self.is_aligned(request) {
            self.lemma_served_keeps_view(request, after, resp);
        }
    }

    /// Repeating an aligned request right after it was served hits and finds
    /// the cache ready: the first access left the line resident.
    pub proof fn lemma_repeat_hits(
        self,
        request: AccessRequest,
        c1: Self,
        r1: AccessResponse,
        c2: Self,
        r2: AccessResponse,
    )
        requires
            self.is_aligned(request),
            self.access_result(request, c1, r1),
            c1.access_result(request, c2, r2),
        ensures
            r2.status == AccessStatus::Hit,
            r2.ready,
    {
        self.lemma_outcome_resident(request, c1, r1);
    }

    /// The result of an access is determined by the cache and the fields the
    /// request uses: its address and kind, `rsize` for a read, `wdata` and
    /// `wmask` for a write.
    pub proof fn lemma_result_determined(
        self,
        req1: AccessRequest,
        after1: Self,
        resp1: AccessResponse,
        req2: AccessRequest,
        after2: Self,
        resp2: AccessResponse,
    )
        requires
            self.access_result(req1, after1, resp1),
            self.access_result(req2, after2, resp2),
            req1.addr == req2.addr,
            req1.access_type == req2.access_type,
            req1.access_type == AccessType::Read ==> req1.rsize == req2.rsize,
            req1.access_type == AccessType::Write ==> req1.wdata == req2.wdata && req1.wmask
                == req2.wmask,
        ensures
            resp1 == resp2,
            after1.config == after2.config,
            after1.memory.line_size == after2.memory.line_size,
            after1.mem() == after2.mem(),
            after1.lines@.len() == after2.lines@.len(),
            forall|j: int|
                0 <= j < after1.lines@.len() ==> {
                    &&& (#[trigger] after1.lines@[j]).valid == after2.lines@[j].valid
                    &&& after1.lines@[j].dirty == after2.lines@[j].dirty
                    &&& after1.lines@[j].tag == after2.lines@[j].tag
                    &&& after1.lines@[j].data@ == after2.lines@[j].data@
                },
    {
        let a = self.effective_addr(req1.addr);
        let i = self.slot_of(a);
        if self.is_aligned(req1) {
            assert forall|j: int| 0 <= j < after1.lines@.len() implies {
                &&& (#[trigger] after1.lines@[j]).valid == after2.lines@[j].valid
                &&& after1.lines@[j].dirty == after2.lines@[j].dirty
                &&& after1.lines@[j].tag == after2.lines@[j].tag
                &&& after1.lines@[j].data@ == after2.lines@[j].data@
            } by {
                if j != i {
                    assert(after1.lines@[j] == self.lines@[j]);
                    assert(after2.lines@[j] == self.lines@[j]);
                }
            }
        }
    }

    /// Cutting a request's address to `addr_width` bits beforehand changes
    /// nothing: the cut request is admitted and served exactly as the original.
    pub proof fn lemma_cut_request_same(self, request: AccessRequest, cut: AccessRequest)
        requires
            cut.addr == self.effective_addr(request.addr),
            cut.access_type == request.access_type,
            cut.rsize == request.rsize,
            cut.wdata == request.wdata,
            cut.wmask == request.wmask,
        ensures
            self.effective_addr(cut.addr) == self.effective_addr(request.addr),
            self.request_ok(cut) == self.request_ok(request),
            forall|after: Self, resp: AccessResponse|
                #[trigger] self.access_result(cut, after, resp) == self.access_result(
                    request,
                    after,
                    resp,
                ),
    {
        let w = self.config.addr_width as int;
        if w < 32 {
            vstd::arithmetic::power2::lemma_pow2_pos(w as nat);
            vstd::arithmetic::div_mod::lemma_mod_twice(request.addr as int, pow2(w as nat) as int);
        }
        assert(self.effective_addr(cut.addr) == self.effective_addr(request.addr));
    }
}

/// A whole-word write followed by a four-byte read of the same address: the
/// read hits and returns the word that was written.
pub proof fn lemma_read_returns_written_word(
    c0: Cache,
    write: AccessRequest,
    c1: Cache,
    r1: AccessResponse,
    read: AccessRequest,
    c2: Cache,
    r2: AccessResponse,
)
    requires
        c0.wf(),
        c0.decodable(),
        c0.coherent(),
        c0.request_ok(write),
        c0.effective_addr(write.addr) % 4 == 0,
        write.access_type == AccessType::Write,
        write.wmask == 15,
        c0.access_result(write, c1, r1),
        read.access_type == AccessType::Read,
        read.addr == write.addr,
        read.rsize == 4,
        c1.offset_of(c1.effective_addr(read.addr)) + 4 <= c1.line_size_spec(),
        c1.access_result(read, c2, r2),
    ensures
        r2.status == AccessStatus::Hit,
        r2.rdata == write.wdata,
{
    let a = c0.effective_addr(write.addr);
    lemma_cut_addr_bound(write.addr as int, c0.config.addr_width as int);
    c0.lemma_admission(write);
    c0.lemma_admission(read);
    let ls = c0.line_size_spec();
    let nl = c0.num_lines_spec();
    c0.lemma_access_keeps_view(write, c1, r1);
    c0.lemma_outcome_resident(write, c1, r1);
    c0.lemma_access_keeps_wf(write, c1, r1);
    assert(c1.decodable());
    assert(c1.is_aligned(read));
    assert(c1.request_ok(read));
    c1.lemma_access_keeps_view(read, c2, r2);
    let i = c1.slot_of(a);
    lemma_address_decomposition(a, ls, nl);
    assert(c1.lines@[i].valid);
    assert(a + 4 <= c0.mem().len());
    lemma_store_then_load(c0.mem_view(), a, write.wdata);
}

/// Writing back a slot a second time changes nothing: after the first
/// write-back the line is no longer both valid and dirty.
pub proof fn lemma_writeback_idempotent(c0: Cache, index: int, c1: Cache, c2: Cache)
    requires
        0 <= index < c0.num_lines_spec(),
        c0.writeback_outcome(index, c1),
        c1.writeback_outcome(index, c2),
    ensures
        c2.config == c1.config,
        c2.memory.line_size == c1.memory.line_size,
        c2.mem() == c1.mem(),
        c2.lines@.len() == c1.lines@.len(),
        forall|j: int|
            0 <= j < c1.num_lines_spec() ==> {
                &&& (#[trigger] c2.lines@[j]).valid == c1.lines@[j].valid
                &&& c2.lines@[j].dirty == c1.lines@[j].dirty
                &&& c2.lines@[j].tag == c1.lines@[j].tag
                &&& c2.lines@[j].data@ == c1.lines@[j].data@
            },
{
}

/// The bytes of the memory line with tag `t` in slot `i` are exactly the
/// addresses that decode to that slot and tag; for them the offset is the
/// distance from the line base.
pub proof fn lemma_in_line(b: int, t: int, i: int, ls: int, nl: int)
    requires
        b >= 0,
        t >= 0,
        0 <= i < nl,
        ls > 0,
    ensures
        (line_base(t, i, ls, nl) <= b < line_base(t, i, ls, nl) + ls) == (addr_index(b, ls, nl)
            == i && addr_tag(b, ls, nl) == t),
        addr_index(b, ls, nl) == i && addr_tag(b, ls, nl) == t ==> addr_offset(b, ls) == b
            - line_base(t, i, ls, nl),
{
    let base = line_base(t, i, ls, nl);
    lemma_address_decomposition(b, ls, nl);
    if base <= b < base + ls {
        lemma_line_base_decodes(t, i, b - base, ls, nl);
    }
    lemma_line_base_decodes(t, i, 0, ls, nl);
}

} // verus!
