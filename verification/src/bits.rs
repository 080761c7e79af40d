//! Single bits of 64-bit words, and the facts about `|`, `!`, shifts and
//! trailing zeros that the bitmap code needs.
use vstd::prelude::*;

verus! {

/// Bit `j` of `w`.
pub open spec fn bit(w: u64, j: u64) -> bool {
    (w >> j) & 1u64 == 1u64
}

pub proof fn lemma_bit_or(a: u64, b: u64, j: u64)
    requires
        j < 64,
    ensures
        bit(a | b, j) == (bit(a, j) || bit(b, j)),
{
    assert(((a | b) >> j) & 1u64 == 1u64 <==> ((a >> j) & 1u64 == 1u64 || (b >> j) & 1u64 == 1u64)) by (bit_vector)
        requires j < 64;
}

pub proof fn lemma_bit_not(a: u64, j: u64)
    requires
        j < 64,
    ensures
        bit(!a, j) == !bit(a, j),
{
    assert(((!a) >> j) & 1u64 == 1u64 <==> !((a >> j) & 1u64 == 1u64)) by (bit_vector)
        requires j < 64;
}

pub proof fn lemma_bit_set(w: u64, j: u64, k: u64)
    requires
        j < 64,
        k < 64,
    ensures
        bit(w | (1u64 << j), k) == (bit(w, k) || j == k),
{
    assert(((w | (1u64 << j)) >> k) & 1u64 == 1u64 <==> ((w >> k) & 1u64 == 1u64 || j == k)) by (bit_vector)
        requires j < 64, k < 64;
}

pub proof fn lemma_bit_zero(j: u64)
    requires
        j < 64,
    ensures
        !bit(0u64, j),
{
    assert((0u64 >> j) & 1u64 == 0u64) by (bit_vector);
}

pub proof fn lemma_bit_max(j: u64)
    requires
        j < 64,
    ensures
        bit(u64::MAX, j),
{
    assert((0xffff_ffff_ffff_ffffu64 >> j) & 1u64 == 1u64) by (bit_vector)
        requires j < 64;
}

pub proof fn lemma_lowest_set_bit(w: u64)
    requires
        w != 0,
    ensures
        (w.trailing_zeros() as u64) < 64,
        bit(w, w.trailing_zeros() as u64),
        forall|j: u64| j < w.trailing_zeros() ==> !#[trigger] bit(w, j),
{
    vstd::std_specs::bits::axiom_u64_trailing_zeros(w);
    assert forall|j: u64| j < w.trailing_zeros() implies !#[trigger] bit(w, j) by {
        assert((w >> j) & 1u64 == 0u64);
    }
}

} // verus!
