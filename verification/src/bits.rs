use vstd::prelude::*;

verus! {

/// Whether square `sq` (0..64) is set in the bitboard `bb`.
pub open spec fn has_bit(bb: u64, sq: int) -> bool {
    0 <= sq < 64 && (bb >> (sq as u64)) & 1u64 == 1u64
}

/// The mask holding exactly square `sq`.
pub open spec fn square_bit(sq: int) -> u64 {
    1u64 << (sq as u64)
}

pub proof fn lemma_square_bit(sq: u64)
    requires
        sq < 64,
    ensures
        forall|j: u64| j < 64 ==> (((1u64 << sq) >> j) & 1u64 == 1u64 <==> j == sq),
        1u64 << sq != 0,
{
    assert(forall|j: u64| j < 64 ==> (((1u64 << sq) >> j) & 1u64 == 1u64 <==> j == sq)) by (bit_vector)
        requires sq < 64;
    assert(1u64 << sq != 0) by (bit_vector) requires sq < 64;
}

pub proof fn lemma_bit_ops(a: u64, b: u64)
    ensures
        forall|j: u64| j < 64 ==> (((a | b) >> j) & 1u64 == 1u64 <==> ((a >> j) & 1u64 == 1u64 || (b >> j) & 1u64 == 1u64)),
        forall|j: u64| j < 64 ==> (((a & b) >> j) & 1u64 == 1u64 <==> ((a >> j) & 1u64 == 1u64 && (b >> j) & 1u64 == 1u64)),
        forall|j: u64| j < 64 ==> (((a & !b) >> j) & 1u64 == 1u64 <==> ((a >> j) & 1u64 == 1u64 && (b >> j) & 1u64 != 1u64)),
{
    assert(forall|j: u64| j < 64 ==> (((a | b) >> j) & 1u64 == 1u64 <==> ((a >> j) & 1u64 == 1u64 || (b >> j) & 1u64 == 1u64))) by (bit_vector);
    assert(forall|j: u64| j < 64 ==> (((a & b) >> j) & 1u64 == 1u64 <==> ((a >> j) & 1u64 == 1u64 && (b >> j) & 1u64 == 1u64))) by (bit_vector);
    assert(forall|j: u64| j < 64 ==> (((a & !b) >> j) & 1u64 == 1u64 <==> ((a >> j) & 1u64 == 1u64 && (b >> j) & 1u64 != 1u64))) by (bit_vector);
}

proof fn lemma_bits_ext_from(a: u64, b: u64, k: u64)
    requires
        k <= 64,
        forall|j: u64| k <= j < 64 ==> (a >> j) & 1u64 == (b >> j) & 1u64,
    ensures
        a >> k == b >> k,
    decreases 64 - k,
{
    if k == 64 {
        assert(a >> 64u64 == 0u64 && b >> 64u64 == 0u64) by (bit_vector);
    } else {
        lemma_bits_ext_from(a, b, (k + 1) as u64);
        let k1 = (k + 1) as u64;
        assert((a >> k) & 1u64 == (b >> k) & 1u64);
        assert(a >> k == b >> k) by (bit_vector)
            requires k < 64, k1 == k + 1, a >> k1 == b >> k1, (a >> k) & 1u64 == (b >> k) & 1u64;
    }
}

/// Two bitboards with the same squares are equal.
pub proof fn lemma_bits_ext(a: u64, b: u64)
    requires
        forall|j: u64| j < 64 ==> (a >> j) & 1u64 == (b >> j) & 1u64,
    ensures
        a == b,
{
    lemma_bits_ext_from(a, b, 0);
    assert(a >> 0u64 == a && b >> 0u64 == b) by (bit_vector);
}

pub proof fn lemma_mask_test(bb: u64, sq: u64)
    requires
        sq < 64,
    ensures
        (bb & (1u64 << sq) != 0) <==> has_bit(bb, sq as int),
{
    assert((bb & (1u64 << sq) != 0) <==> ((bb >> sq) & 1u64 == 1u64)) by (bit_vector)
        requires sq < 64;
}


/// Clearing the lowest set bit: `bb & (bb - 1)` keeps every square of `bb`
/// except the one at `trailing_zeros(bb)`, and is smaller than `bb`.
pub proof fn lemma_pop_lowest(bb: u64)
    requires
        bb != 0,
    ensures
        (bb.trailing_zeros() as int) < 64,
        has_bit(bb, bb.trailing_zeros() as int),
        forall|s: int| 0 <= s < bb.trailing_zeros() ==> !#[trigger] has_bit(bb, s),
        forall|s: int| #[trigger] has_bit(bb & ((bb - 1u64) as u64), s) <==> (has_bit(bb, s) && s != bb.trailing_zeros() as int),
        bb & ((bb - 1u64) as u64) < bb,
{
    vstd::std_specs::bits::axiom_u64_trailing_zeros(bb);
    let t = bb.trailing_zeros() as u64;
    assert(t < 64);
    assert(forall|j: u64| j < 64 ==> (((bb & ((bb - 1u64) as u64)) >> j) & 1u64 == 1u64 <==> ((bb >> j) & 1u64 == 1u64 && j != t))) by (bit_vector)
        requires bb != 0, t < 64, (bb >> t) & 1u64 == 1u64, bb << ((64u64 - t) as u64) == 0;
    assert(bb & ((bb - 1u64) as u64) < bb) by (bit_vector) requires bb != 0;
    assert forall|s: int| 0 <= s < bb.trailing_zeros() implies !#[trigger] has_bit(bb, s) by {
        let j = s as u64;
        assert((bb >> j) & 1u64 == 0u64);
    }
    assert forall|s: int| #[trigger] has_bit(bb & ((bb - 1u64) as u64), s) <==> (has_bit(bb, s) && s != bb.trailing_zeros() as int) by {
        if 0 <= s < 64 {
            let j = s as u64;
            assert(((bb & ((bb - 1u64) as u64)) >> j) & 1u64 == 1u64 <==> ((bb >> j) & 1u64 == 1u64 && j != t));
        }
    }
}


/// Removing square `a` from a bitboard.
pub broadcast proof fn lemma_clear_bit(x: u64, a: u64, s: int)
    requires
        a < 64,
    ensures
        #[trigger] has_bit(x & !(1u64 << a), s) <==> (has_bit(x, s) && s != a),
{
    if 0 <= s < 64 {
        let j = s as u64;
        assert(((x & !(1u64 << a)) >> j) & 1u64 == 1u64 <==> ((x >> j) & 1u64 == 1u64 && j != a)) by (bit_vector)
            requires a < 64, j < 64;
    }
}

/// Adding square `a` to a bitboard.
pub broadcast proof fn lemma_set_bit(x: u64, a: u64, s: int)
    requires
        a < 64,
    ensures
        #[trigger] has_bit(x | (1u64 << a), s) <==> (has_bit(x, s) || s == a),
{
    if 0 <= s < 64 {
        let j = s as u64;
        assert(((x | (1u64 << a)) >> j) & 1u64 == 1u64 <==> ((x >> j) & 1u64 == 1u64 || j == a)) by (bit_vector)
            requires a < 64, j < 64;
    }
}


/// Two bitboards holding the same squares are equal.
pub proof fn lemma_has_bit_ext(a: u64, b: u64)
    requires
        forall|s: int| 0 <= s < 64 ==> has_bit(a, s) == has_bit(b, s),
    ensures
        a == b,
{
    assert forall|j: u64| j < 64 implies (a >> j) & 1u64 == (b >> j) & 1u64 by {
        assert(has_bit(a, j as int) == has_bit(b, j as int));
        assert((a >> j) & 1u64 == 1u64 || (a >> j) & 1u64 == 0u64) by (bit_vector);
        assert((b >> j) & 1u64 == 1u64 || (b >> j) & 1u64 == 0u64) by (bit_vector);
    }
    lemma_bits_ext(a, b);
}

} // verus!
