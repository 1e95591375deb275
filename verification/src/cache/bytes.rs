use vstd::prelude::*;
use vstd::arithmetic::power::pow;

verus! {

/// `256` raised to the power `n`: the weight of byte `n` in a little-endian number.
pub open spec fn byte_weight(n: nat) -> nat
    decreases n,
{
    if n == 0 {
        1
    } else {
        256 * byte_weight((n - 1) as nat)
    }
}

/// The number whose little-endian bytes are `s` (lowest address = lowest byte).
pub open spec fn le_value(s: Seq<u8>) -> nat
    decreases s.len(),
{
    if s.len() == 0 {
        0
    } else {
        s[0] as nat + 256 * le_value(s.drop_first())
    }
}

/// `x` with its `k` lowest digits in base `radix` removed.
pub open spec fn drop_digits(x: nat, radix: nat, k: nat) -> nat
    decreases k,
{
    if k == 0 {
        x
    } else {
        drop_digits(x, radix, (k - 1) as nat) / radix
    }
}

/// Digit `k` (counting from the lowest) of `x` in base `radix`.
pub open spec fn digit(x: nat, radix: nat, k: nat) -> nat {
    drop_digits(x, radix, k) % radix
}

/// Byte `k` of the little-endian encoding of `w`.
pub open spec fn word_byte(w: u32, k: int) -> u8 {
    digit(w as nat, 256, k as nat) as u8
}

/// Whether bit `k` of the write mask `m` is set.
pub open spec fn mask_bit(m: u8, k: int) -> bool {
    digit(m as nat, 2, k as nat) == 1
}

/// Every byte that the mask `m` selects, counted from `offset`, lies below `len`.
pub open spec fn mask_fits(len: int, offset: int, m: u8) -> bool {
    forall|k: int| 0 <= k < 4 && #[trigger] mask_bit(m, k) ==> offset + k < len
}

/// `s` after the first `n` of the four bytes of `w` selected by `m` are stored
/// at `offset` onward.
pub open spec fn masked_store_upto(s: Seq<u8>, offset: int, w: u32, m: u8, n: int) -> Seq<u8> {
    Seq::new(
        s.len(),
        |j: int|
            if offset <= j < offset + n && mask_bit(m, j - offset) {
                word_byte(w, j - offset)
            } else {
                s[j]
            },
    )
}

/// `s` after the bytes of the little-endian word `w` selected by the mask `m`
/// (bit `k` selects byte `k`) are stored at `offset` onward.
pub open spec fn masked_store(s: Seq<u8>, offset: int, w: u32, m: u8) -> Seq<u8> {
    masked_store_upto(s, offset, w, m, 4)
}

/// A run of `n` zero bytes.
pub open spec fn zero_bytes(n: nat) -> Seq<u8> {
    Seq::new(n, |i: int| 0u8)
}

pub proof fn lemma_byte_weight_small()
    ensures
        byte_weight(0) == 1,
        byte_weight(1) == 256,
        byte_weight(2) == 65536,
        byte_weight(3) == 16777216,
        byte_weight(4) == 4294967296,
{
    reveal_with_fuel(byte_weight, 5);
}

/// A little-endian number of `n` bytes is below `256^n`.
pub proof fn lemma_le_value_bound(s: Seq<u8>)
    ensures
        le_value(s) < byte_weight(s.len()),
    decreases s.len(),
{
    if s.len() > 0 {
        lemma_le_value_bound(s.drop_first());
    }
}

/// Peeling the lowest byte off a little-endian run `s[lo..hi]`.
pub proof fn lemma_le_value_step(s: Seq<u8>, lo: int, hi: int)
    requires
        0 <= lo < hi <= s.len(),
    ensures
        le_value(s.subrange(lo, hi)) == s[lo] as nat + 256 * le_value(s.subrange(lo + 1, hi)),
{
    assert(s.subrange(lo, hi).drop_first() =~= s.subrange(lo + 1, hi));
}

/// The four bytes of a word, read back little-endian, give the word.
pub proof fn lemma_word_bytes_roundtrip(w: u32)
    ensures
        le_value(seq![word_byte(w, 0), word_byte(w, 1), word_byte(w, 2), word_byte(w, 3)])
            == w,
{
    let x0 = w as nat;
    let x1 = x0 / 256;
    let x2 = x1 / 256;
    let x3 = x2 / 256;
    reveal_with_fuel(drop_digits, 4);
    assert(drop_digits(x0, 256, 1) == x1);
    assert(drop_digits(x0, 256, 2) == x2);
    assert(drop_digits(x0, 256, 3) == x3);
    assert(x3 < 256) by {
        vstd::arithmetic::div_mod::lemma_div_denominator(x0 as int, 256, 256);
        vstd::arithmetic::div_mod::lemma_div_denominator(x0 as int, 65536, 256);
    }
    let s = seq![word_byte(w, 0), word_byte(w, 1), word_byte(w, 2), word_byte(w, 3)];
    reveal_with_fuel(le_value, 5);
    assert(s.drop_first() =~= seq![word_byte(w, 1), word_byte(w, 2), word_byte(w, 3)]);
    assert(s.drop_first().drop_first() =~= seq![word_byte(w, 2), word_byte(w, 3)]);
    assert(s.drop_first().drop_first().drop_first() =~= seq![word_byte(w, 3)]);
    assert(s.drop_first().drop_first().drop_first().drop_first() =~= Seq::<u8>::empty());
    assert(x0 == x0 % 256 + 256 * x1);
    assert(x1 == x1 % 256 + 256 * x2);
    assert(x2 == x2 % 256 + 256 * x3);
}

/// Every bit of the mask `0xF` selects its byte.
pub proof fn lemma_full_mask()
    ensures
        forall|k: int| 0 <= k < 4 ==> #[trigger] mask_bit(15u8, k),
{
    reveal_with_fuel(drop_digits, 4);
    assert(mask_bit(15u8, 0));
    assert(mask_bit(15u8, 1));
    assert(mask_bit(15u8, 2));
    assert(mask_bit(15u8, 3));
}

/// Storing a whole word (mask `0xF`) and reading the same four bytes back
/// little-endian gives the word that was stored.
pub proof fn lemma_store_then_load(s: Seq<u8>, offset: int, w: u32)
    requires
        0 <= offset,
        offset + 4 <= s.len(),
    ensures
        le_value(masked_store(s, offset, w, 15u8).subrange(offset, offset + 4)) == w,
{
    lemma_full_mask();
    assert(masked_store(s, offset, w, 15u8).subrange(offset, offset + 4) =~= seq![
        word_byte(w, 0),
        word_byte(w, 1),
        word_byte(w, 2),
        word_byte(w, 3),
    ]);
    lemma_word_bytes_roundtrip(w);
}

/// Removing `k` digits in base `r` is dividing by `r^k`.
pub proof fn lemma_drop_digits_is_division(x: nat, r: nat, k: nat)
    requires
        r > 0,
    ensures
        pow(r as int, k) > 0,
        drop_digits(x, r, k) as int == x as int / pow(r as int, k),
    decreases k,
{
    reveal(pow);
    vstd::arithmetic::power::lemma_pow_positive(r as int, k);
    if k > 0 {
        let k1 = (k - 1) as nat;
        lemma_drop_digits_is_division(x, r, k1);
        let p = pow(r as int, k1);
        vstd::arithmetic::div_mod::lemma_div_denominator(x as int, p, r as int);
        assert(pow(r as int, k) == r * p);
        vstd::arithmetic::mul::lemma_mul_is_commutative(r as int, p);
    }
}

/// A masked store puts byte `k` of the word (the word divided by `256^k`,
/// modulo 256) at `offset + k` exactly when bit `k` of the mask (the mask
/// divided by `2^k`, modulo 2) is set, for every mask; every other byte,
/// in the four positions or outside them, keeps its value.
pub proof fn lemma_masked_store_bytes(s: Seq<u8>, offset: int, w: u32, m: u8)
    ensures
        masked_store(s, offset, w, m).len() == s.len(),
        forall|j: int|
            0 <= j < s.len() ==> #[trigger] masked_store(s, offset, w, m)[j] == if offset <= j
                < offset + 4 && (m as int / pow(2, (j - offset) as nat)) % 2 == 1 {
                ((w as int / pow(256, (j - offset) as nat)) % 256) as u8
            } else {
                s[j]
            },
{
    assert forall|j: int| 0 <= j < s.len() implies #[trigger] masked_store(s, offset, w, m)[j]
        == if offset <= j < offset + 4 && (m as int / pow(2, (j - offset) as nat)) % 2 == 1 {
        ((w as int / pow(256, (j - offset) as nat)) % 256) as u8
    } else {
        s[j]
    } by {
        if offset <= j < offset + 4 {
            let k = (j - offset) as nat;
            lemma_drop_digits_is_division(m as nat, 2, k);
            lemma_drop_digits_is_division(w as nat, 256, k);
        }
    }
}

/// Reading 1, 2 or 4 bytes little-endian: the lowest address holds the
/// lowest byte.
pub proof fn lemma_le_value_small(s: Seq<u8>)
    ensures
        s.len() == 1 ==> le_value(s) == s[0],
        s.len() == 2 ==> le_value(s) == s[0] + 256 * s[1],
        s.len() == 4 ==> le_value(s) == s[0] + 256 * s[1] + 65536 * s[2] + 16777216 * s[3],
{
    reveal_with_fuel(le_value, 5);
    if s.len() >= 1 {
        let t1 = s.drop_first();
        if s.len() >= 2 {
            let t2 = t1.drop_first();
            if s.len() >= 3 {
                let t3 = t2.drop_first();
                assert(t3.len() == s.len() - 3);
                if s.len() == 4 {
                    assert(t3.drop_first().len() == 0);
                    assert(t3[0] == s[3]);
                }
                assert(t2[0] == s[2]);
            } else {
                assert(t2.len() == 0);
            }
            assert(t1[0] == s[1]);
        } else {
            assert(t1.len() == 0);
        }
    }
}

} // verus!
