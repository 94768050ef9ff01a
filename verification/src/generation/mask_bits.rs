use vstd::prelude::*;
use vstd::std_specs::bits::{u32_trailing_zeros, axiom_u32_trailing_zeros};

verus! {

/// Bit `b` of a 32-bit row mask.
pub open spec fn bit_set(m: u32, b: int) -> bool {
    0 <= b < 32 && (m >> (b as u32)) & 1u32 == 1u32
}

/// The mask with bits `start .. start + width` set.
pub open spec fn span_mask(start: u32, width: u32) -> u32 {
    if width == 32 {
        u32::MAX
    } else {
        (((1u32 << width) - 1u32) as u32) << start
    }
}

pub proof fn lemma_zero_has_no_bits(b: int)
    ensures
        !bit_set(0u32, b),
{
    if 0 <= b < 32 {
        let bb = b as u32;
        assert((0u32 >> bb) & 1u32 == 0u32) by (bit_vector);
    }
}

pub proof fn lemma_single_bit_test(m: u32, k: u32)
    requires
        k < 32,
    ensures
        ((m & (1u32 << k)) == 0u32) == !bit_set(m, k as int),
{
    assert(((m & (1u32 << k)) == 0u32) == (((m >> k) & 1u32) != 1u32)) by (bit_vector)
        requires k < 32u32;
}

pub proof fn lemma_span_mask_bit(start: u32, width: u32, b: int)
    requires
        1 <= width <= 32,
        start + width <= 32,
    ensures
        bit_set(span_mask(start, width), b) == (0 <= b < 32 && start <= b < start + width),
{
    if 0 <= b < 32 {
        let bb = b as u32;
        if width == 32 {
            assert((u32::MAX >> bb) & 1u32 == 1u32) by (bit_vector)
                requires bb < 32u32;
        } else {
            assert(((((((1u32 << width) - 1u32) as u32) << start) >> bb) & 1u32 == 1u32) == (start <= bb
                && bb < start + width)) by (bit_vector)
                requires
                    1u32 <= width < 32u32,
                    start + width <= 32u32,
                    bb < 32u32,
            ;
        }
    }
}

pub proof fn lemma_and_not_bit(m: u32, x: u32, b: int)
    ensures
        bit_set(m & !x, b) == (bit_set(m, b) && !bit_set(x, b)),
{
    if 0 <= b < 32 {
        let bb = b as u32;
        assert((((m & !x) >> bb) & 1u32 == 1u32) == (((m >> bb) & 1u32 == 1u32) && !((x >> bb)
            & 1u32 == 1u32))) by (bit_vector)
            requires bb < 32u32;
    }
}

pub proof fn lemma_and_full_bits(m: u32, x: u32, b: int)
    requires
        m & x == x,
        bit_set(x, b),
    ensures
        bit_set(m, b),
{
    let bb = b as u32;
    assert((m >> bb) & 1u32 == 1u32) by (bit_vector)
        requires
            m & x == x,
            (x >> bb) & 1u32 == 1u32,
            bb < 32u32,
    ;
}

pub proof fn lemma_and_not_shrinks(m: u32, x: u32, b: int)
    requires
        bit_set(m, b),
        bit_set(x, b),
    ensures
        (m & !x) < m,
{
    let bb = b as u32;
    assert((m & !x) < m) by (bit_vector)
        requires
            (m >> bb) & 1u32 == 1u32,
            (x >> bb) & 1u32 == 1u32,
            bb < 32u32,
    ;
}

/// When `m` lacks some bit of `x`, that bit can be named.
pub proof fn lemma_and_not_full(m: u32, x: u32) -> (b: int)
    requires
        m & x != x,
    ensures
        bit_set(x, b),
        !bit_set(m, b),
{
    let y = x & !m;
    assert(y != 0u32) by (bit_vector)
        requires m & x != x, y == x & !m;
    axiom_u32_trailing_zeros(y);
    let t = u32_trailing_zeros(y);
    assert(t < 32);
    assert((y >> t) & 1u32 == 1u32);
    assert(bit_set(y, t as int));
    lemma_and_not_bit(x, m, t as int);
    t as int
}

pub proof fn lemma_or_single_bit(m: u32, k: u32, b: int)
    requires
        k < 32,
    ensures
        bit_set(m | (1u32 << k), b) == (bit_set(m, b) || b == k),
{
    if 0 <= b < 32 {
        let bb = b as u32;
        assert((((m | (1u32 << k)) >> bb) & 1u32 == 1u32) == (((m >> bb) & 1u32 == 1u32) || bb
            == k)) by (bit_vector)
            requires
                k < 32u32,
                bb < 32u32,
        ;
    }
}

} // verus!
