use vstd::prelude::*;
use vstd::arithmetic::div_mod::{
    lemma_div_denominator, lemma_fundamental_div_mod, lemma_fundamental_div_mod_converse,
};
use vstd::arithmetic::mul::lemma_mul_inequality;
use vstd::arithmetic::power2::pow2;

verus! {

/// The three fields an address is split into for a direct-mapped cache.
#[derive(Debug, Clone, Copy, PartialEq, Eq)]
pub struct AddressParts {
    pub tag: u32,
    pub index: usize,
    pub offset: usize,
}

/// The number of the line (a `line_size`-byte block of memory) that holds `addr`.
pub open spec fn line_number(addr: int, line_size: int) -> int {
    addr / line_size
}

/// The tag of `addr`: which of the memory lines mapping to the same cache slot it is.
pub open spec fn addr_tag(addr: int, line_size: int, num_lines: int) -> int {
    line_number(addr, line_size) / num_lines
}

/// The cache slot that `addr` maps to.
pub open spec fn addr_index(addr: int, line_size: int, num_lines: int) -> int {
    line_number(addr, line_size) % num_lines
}

/// The position of `addr` inside its line.
pub open spec fn addr_offset(addr: int, line_size: int) -> int {
    addr % line_size
}

/// The first address of the line with the given tag that maps to slot `index`.
pub open spec fn line_base(tag: int, index: int, line_size: int, num_lines: int) -> int {
    (tag * num_lines + index) * line_size
}

/// `addr` cut to its `width` lowest bits (unchanged from 32 bits on).
pub open spec fn cut_addr(addr: int, width: int) -> int {
    if width >= 32 {
        addr
    } else {
        addr % (pow2(width as nat) as int)
    }
}

/// Cutting an address never makes it larger or negative.
pub proof fn lemma_cut_addr_bound(addr: int, width: int)
    requires
        addr >= 0,
    ensures
        0 <= cut_addr(addr, width) <= addr,
{
    if width < 32 {
        vstd::arithmetic::power2::lemma_pow2_pos(width as nat);
        vstd::arithmetic::div_mod::lemma_mod_decreases(addr as nat, pow2(width as nat));
    }
}

/// Cutting to `width` bits keeps an address from 32 bits on; below that it
/// gives the unique value under `2^width` that differs from the address by a
/// multiple of `2^width`, so an address that already fits is kept.
pub proof fn lemma_cut_addr_law(addr: int, width: int)
    requires
        addr >= 0,
        width >= 0,
    ensures
        width >= 32 ==> cut_addr(addr, width) == addr,
        width < 32 ==> 0 <= cut_addr(addr, width) < pow2(width as nat),
        width < 32 ==> (addr - cut_addr(addr, width)) % (pow2(width as nat) as int) == 0,
        width < 32 && addr < pow2(width as nat) ==> cut_addr(addr, width) == addr,
{
    if width < 32 {
        let m = pow2(width as nat) as int;
        vstd::arithmetic::power2::lemma_pow2_pos(width as nat);
        vstd::arithmetic::div_mod::lemma_mod_pos_bound(addr, m);
        lemma_fundamental_div_mod(addr, m);
        vstd::arithmetic::mul::lemma_mul_is_commutative(m, addr / m);
        vstd::arithmetic::div_mod::lemma_mod_multiples_basic(addr / m, m);
        if addr < m {
            vstd::arithmetic::div_mod::lemma_small_mod(addr as nat, m as nat);
        }
    }
}

/// Splits `addr` into tag, index and offset for a cache of `num_lines` lines
/// of `line_size` bytes each.
pub fn decode_address(addr: u32, line_size: usize, num_lines: usize) -> (parts: AddressParts)
    requires
        line_size > 0,
        num_lines > 0,
        line_size * num_lines <= u32::MAX,
    ensures
        parts.tag == (addr as int) / (line_size * num_lines),
        parts.tag == addr_tag(addr as int, line_size as int, num_lines as int),
        parts.index == addr_index(addr as int, line_size as int, num_lines as int),
        parts.offset == addr_offset(addr as int, line_size as int),
{
    proof {
        lemma_mul_inequality(1, num_lines as int, line_size as int);
        lemma_mul_inequality(1, line_size as int, num_lines as int);
        lemma_div_denominator(addr as int, line_size as int, num_lines as int);
    }
    let ls = line_size as u32;
    let nl = num_lines as u32;
    let span = ls * nl;
    AddressParts {
        tag: addr / span,
        index: ((addr / ls) % nl) as usize,
        offset: (addr % ls) as usize,
    }
}

/// Every address is the base of the line that holds it plus its offset, with
/// the index below the number of lines and the offset below the line size.
pub proof fn lemma_address_decomposition(addr: int, line_size: int, num_lines: int)
    requires
        addr >= 0,
        line_size > 0,
        num_lines > 0,
    ensures
        addr_tag(addr, line_size, num_lines) >= 0,
        0 <= addr_index(addr, line_size, num_lines) < num_lines,
        0 <= addr_offset(addr, line_size) < line_size,
        addr == line_base(
            addr_tag(addr, line_size, num_lines),
            addr_index(addr, line_size, num_lines),
            line_size,
            num_lines,
        ) + addr_offset(addr, line_size),
{
    let n = line_number(addr, line_size);
    lemma_fundamental_div_mod(addr, line_size);
    lemma_fundamental_div_mod(n, num_lines);
    assert(n >= 0) by {
        vstd::arithmetic::div_mod::lemma_div_pos_is_pos(addr, line_size);
    }
    assert(addr_tag(addr, line_size, num_lines) >= 0) by {
        vstd::arithmetic::div_mod::lemma_div_pos_is_pos(n, num_lines);
    }
    assert(n == addr_tag(addr, line_size, num_lines) * num_lines + addr_index(addr, line_size, num_lines)) by {
        vstd::arithmetic::mul::lemma_mul_is_commutative(num_lines, n / num_lines);
    }
    vstd::arithmetic::mul::lemma_mul_is_commutative(line_size, n);
}

/// Decoding an address given as line base plus offset gives back the tag,
/// index and offset it was built from.
pub proof fn lemma_line_base_decodes(tag: int, index: int, offset: int, line_size: int, num_lines: int)
    requires
        tag >= 0,
        0 <= index < num_lines,
        0 <= offset < line_size,
    ensures
        line_base(tag, index, line_size, num_lines) >= 0,
        line_number(line_base(tag, index, line_size, num_lines) + offset, line_size)
            == tag * num_lines + index,
        addr_tag(line_base(tag, index, line_size, num_lines) + offset, line_size, num_lines) == tag,
        addr_index(line_base(tag, index, line_size, num_lines) + offset, line_size, num_lines) == index,
        addr_offset(line_base(tag, index, line_size, num_lines) + offset, line_size) == offset,
{
    let n = tag * num_lines + index;
    assert(n >= 0) by {
        vstd::arithmetic::mul::lemma_mul_nonnegative(tag, num_lines);
    }
    assert(line_base(tag, index, line_size, num_lines) >= 0) by {
        vstd::arithmetic::mul::lemma_mul_nonnegative(n, line_size);
    }
    lemma_fundamental_div_mod_converse(n * line_size + offset, line_size, n, offset);
    lemma_fundamental_div_mod_converse(n, num_lines, tag, index);
}

} // verus!
