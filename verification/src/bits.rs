//! Bits of a 32-bit word: which are set, how many there are, and how many stand
//! above a given position.

use vstd::arithmetic::div_mod::lemma_mod_breakdown;
use vstd::arithmetic::power2::{lemma2_to64, lemma_pow2_pos, lemma_pow2_unfold, pow2};
use vstd::bits::lemma_u32_shr_is_div;
use vstd::prelude::*;

verus! {

/// Bit `i` of `b` is set. Position 0 is the least significant bit.
pub open spec fn has_bit(b: u32, i: u32) -> bool {
    (b >> i) & 1 == 1
}

/// The number of set bits of `b` at position `i` and above.
pub open spec fn ones_from(b: u32, i: u32) -> nat
    decreases 32 - i,
{
    if i >= 32 {
        0
    } else {
        (if has_bit(b, i) {
            1nat
        } else {
            0nat
        }) + ones_from(b, (i + 1) as u32)
    }
}

/// The number of set bits of `b`.
pub open spec fn ones(b: u32) -> nat {
    ones_from(b, 0)
}

/// The number of set bits of `b` strictly above position `i`.
pub open spec fn rank(b: u32, i: u32) -> nat {
    ones_from(b, (i + 1) as u32)
}

/// Position `i` is that of the least significant set bit of `b`.
pub open spec fn is_lowest(b: u32, i: u32) -> bool {
    &&& i < 32
    &&& has_bit(b, i)
    &&& forall|k: u32| k < i ==> !has_bit(b, k)
}

/// `u32::count_ones` of std: the number of ones in the binary representation.
pub assume_specification[ u32::count_ones ](b: u32) -> (r: u32)
    ensures
        r == ones(b),
;

pub proof fn lemma_ones_from_mono(b: u32, i: u32, j: u32)
    requires
        i <= j,
    ensures
        ones_from(b, j) <= ones_from(b, i),
        j <= 32 ==> ones_from(b, i) <= ones_from(b, j) + (j - i),
    decreases j - i,
{
    if i < j && i < 32 {
        lemma_ones_from_mono(b, (i + 1) as u32, j);
    }
}

/// Ranks grow from the most significant set bit down.
pub proof fn lemma_rank_decreasing(b: u32, i: u32, j: u32)
    requires
        i < j < 32,
        has_bit(b, j),
    ensures
        rank(b, j) < rank(b, i),
{
    lemma_ones_from_mono(b, (i + 1) as u32, j);
}

pub proof fn lemma_rank_bound(b: u32, i: u32)
    requires
        i < 32,
    ensures
        has_bit(b, i) ==> rank(b, i) < ones(b),
        rank(b, i) <= ones(b) <= 32,
        !has_bit(b, i) ==> ones(b) < 32,
{
    lemma_ones_from_mono(b, 0, i);
    lemma_ones_from_mono(b, (i + 1) as u32, 32);
}

pub proof fn lemma_rank_injective(b: u32, i: u32, j: u32)
    requires
        i < 32,
        j < 32,
        has_bit(b, i),
        has_bit(b, j),
        rank(b, i) == rank(b, j),
    ensures
        i == j,
{
    if i < j {
        lemma_rank_decreasing(b, i, j);
    } else if j < i {
        lemma_rank_decreasing(b, j, i);
    }
}

pub proof fn lemma_ones_from_shift(b: u32, k: u32, i: u32)
    requires
        k < 32,
        i <= 32,
    ensures
        ones_from(b >> k, i) == ones_from(b, (i + k) as u32),
    decreases 32 - i,
{
    if i < 32 {
        assert(i < 32 && k < 32 && i + k < 32 ==> ((b >> k) >> i) & 1 == (b >> ((i + k) as u32))
            & 1) by (bit_vector);
        assert(i < 32 && k < 32 && i + k >= 32 ==> ((b >> k) >> i) & 1 == 0) by (bit_vector);
        lemma_ones_from_shift(b, k, (i + 1) as u32);
    }
}

/// Shifting right by `k` keeps the bits at position `k` and above.
pub proof fn lemma_ones_shift(b: u32, k: u32)
    requires
        k < 32,
    ensures
        ones(b >> k) == ones_from(b, k),
{
    lemma_ones_from_shift(b, k, 0);
}

pub proof fn lemma_has_bit_or(b: u32, i: u32, k: u32)
    requires
        i < 32,
        k < 32,
    ensures
        has_bit(b | (1u32 << i), k) == (has_bit(b, k) || k == i),
        has_bit(1u32 << i, k) == (k == i),
{
    assert(i < 32 && k < 32 ==> (((b | (1u32 << i)) >> k) & 1 == 1 <==> ((b >> k) & 1 == 1 || k
        == i))) by (bit_vector);
    assert(i < 32 && k < 32 ==> (((1u32 << i) >> k) & 1 == 1 <==> k == i)) by (bit_vector);
}

/// Setting a clear bit adds one to the count at and below its position.
pub proof fn lemma_ones_from_set(b: u32, i: u32, j: u32)
    requires
        i < 32,
        j <= 32,
        !has_bit(b, i),
    ensures
        ones_from(b | (1u32 << i), j) == ones_from(b, j) + (if j <= i {
            1nat
        } else {
            0nat
        }),
    decreases 32 - j,
{
    if j < 32 {
        lemma_has_bit_or(b, i, j);
        lemma_ones_from_set(b, i, (j + 1) as u32);
    }
}

pub proof fn lemma_ones_zero(b: u32)
    ensures
        ones(b) == 0 <==> b == 0,
{
    if b == 0 {
        assert forall|k: u32| k < 32 implies !has_bit(0, k) by {
            lemma_zero_has_no_bit(k);
        }
        lemma_ones_from_none(0, 0);
    } else {
        lemma_lowest_bit(b);
        let i: u32 = vstd::std_specs::bits::u32_trailing_zeros(b);
        lemma_rank_bound(b, i);
    }
}

proof fn lemma_ones_from_none(b: u32, i: u32)
    requires
        forall|k: u32| i <= k < 32 ==> !has_bit(b, k),
    ensures
        ones_from(b, i) == 0,
    decreases 32 - i,
{
    if i < 32 {
        lemma_ones_from_none(b, (i + 1) as u32);
    }
}

/// The number of trailing zeros is the position of the lowest set bit.
pub proof fn lemma_lowest_bit(b: u32)
    requires
        b != 0,
    ensures
        is_lowest(b, vstd::std_specs::bits::u32_trailing_zeros(b)),
{
    vstd::std_specs::bits::axiom_u32_trailing_zeros(b);
}

/// The high and the low half of a word share out its set bits.
pub proof fn lemma_halves(b: u32)
    ensures
        ones(b & 0xffff_0000) + ones(b & 0x0000_ffff) == ones(b),
        forall|i: u32|
            16 <= i < 32 ==> #[trigger] has_bit(b & 0xffff_0000, i) == has_bit(b, i) && rank(
                b & 0xffff_0000,
                i,
            ) == rank(b, i),
        forall|i: u32|
            i < 16 ==> #[trigger] has_bit(b & 0x0000_ffff, i) == has_bit(b, i) && rank(b, i)
                == ones(b & 0xffff_0000) + rank(b & 0x0000_ffff, i),
        forall|i: u32| i < 16 ==> !#[trigger] has_bit(b & 0xffff_0000, i),
        forall|i: u32| 16 <= i < 32 ==> !#[trigger] has_bit(b & 0x0000_ffff, i),
{
    let hi: u32 = b & 0xffff_0000;
    let lo: u32 = b & 0x0000_ffff;
    assert forall|i: u32| i < 32 implies {
        &&& #[trigger] has_bit(hi, i) == (has_bit(b, i) && 16 <= i)
        &&& has_bit(lo, i) == (has_bit(b, i) && i < 16)
    } by {
        assert(i < 32 ==> (((b & 0xffff_0000) >> i) & 1 == 1 <==> ((b >> i) & 1 == 1 && 16 <= i)))
            by (bit_vector);
        assert(i < 32 ==> (((b & 0xffff) >> i) & 1 == 1 <==> ((b >> i) & 1 == 1 && i < 16)))
            by (bit_vector);
    }
    assert forall|i: u32| 16 <= i < 32 implies #[trigger] has_bit(lo, i) == false by {
        assert(has_bit(hi, i) == has_bit(b, i));
    }
    assert forall|i: u32| i < 16 implies #[trigger] has_bit(lo, i) == has_bit(b, i) by {
        assert(has_bit(hi, i) == false);
    }
    lemma_halves_from(b, hi, lo, 0);
    lemma_halves_from(b, hi, lo, 16);
    lemma_ones_from_none(lo, 16);
    assert(ones(hi) == ones_from(b, 16)) by {
        lemma_ones_from_low(hi, 0);
    }
    assert forall|i: u32| 16 <= i < 32 implies rank(hi, i) == rank(b, i) by {
        lemma_halves_from(b, hi, lo, (i + 1) as u32);
        lemma_ones_from_none(lo, (i + 1) as u32);
    }
    assert forall|i: u32| i < 16 implies rank(b, i) == ones(hi) + rank(lo, i) by {
        lemma_halves_from(b, hi, lo, (i + 1) as u32);
        lemma_ones_from_low(hi, (i + 1) as u32);
    }
}

proof fn lemma_halves_from(b: u32, hi: u32, lo: u32, i: u32)
    requires
        i <= 32,
        forall|k: u32|
            k < 32 ==> #[trigger] has_bit(b, k) == (has_bit(hi, k) || has_bit(lo, k)) && !(has_bit(
                hi,
                k,
            ) && has_bit(lo, k)),
    ensures
        ones_from(b, i) == ones_from(hi, i) + ones_from(lo, i),
    decreases 32 - i,
{
    if i < 32 {
        assert(has_bit(b, i) == (has_bit(hi, i) || has_bit(lo, i)));
        lemma_halves_from(b, hi, lo, (i + 1) as u32);
    }
}

proof fn lemma_ones_from_low(b: u32, i: u32)
    requires
        i <= 16,
        forall|k: u32| k < 16 ==> !has_bit(b, k),
    ensures
        ones_from(b, i) == ones_from(b, 16),
    decreases 16 - i,
{
    if i < 16 {
        lemma_ones_from_low(b, (i + 1) as u32);
    }
}

/// A half word has at most 16 set bits.
pub proof fn lemma_ones_low_half(b: u32)
    ensures
        ones(b & 0x0000_ffff) <= 16,
{
    lemma_halves(b);
    lemma_ones_from_none(b & 0x0000_ffff, 16);
    lemma_ones_from_mono(b & 0x0000_ffff, 0, 16);
}

/// A word with one set bit picks that bit out of another.
pub proof fn lemma_single_bit(b: u32, i: u32)
    requires
        i < 32,
    ensures
        vstd::std_specs::bits::u32_trailing_zeros(1u32 << i) == i,
        b & (1u32 << i) != 0 <==> has_bit(b, i),
        ones(b >> i) == rank(b, i) + (if has_bit(b, i) {
            1nat
        } else {
            0nat
        }),
{
    let m: u32 = 1u32 << i;
    assert(i < 32 ==> (1u32 << i) != 0) by (bit_vector);
    assert(i < 32 ==> (b & (1u32 << i) != 0 <==> (b >> i) & 1 == 1)) by (bit_vector);
    lemma_lowest_bit(m);
    lemma_has_bit_or(0, i, vstd::std_specs::bits::u32_trailing_zeros(m));
    lemma_ones_shift(b, i);
}

pub proof fn lemma_zero_has_no_bit(i: u32)
    ensures
        !has_bit(0, i),
{
    assert((0u32 >> i) & 1 == 0) by (bit_vector);
}

/// The positions of the set bits of `b`.
pub open spec fn bit_set(b: u32) -> Set<u32> {
    Set::new(|k: u32| k < 32 && has_bit(b, k))
}

/// The number of set bits is the number of their positions.
pub proof fn lemma_bit_set(b: u32)
    ensures
        bit_set(b).finite(),
        bit_set(b).len() == ones(b),
{
    lemma_bit_set_from(b, 0);
    assert(bit_set(b) =~= Set::new(|k: u32| 0 <= k < 32 && has_bit(b, k)));
}

proof fn lemma_bit_set_from(b: u32, i: u32)
    requires
        i <= 32,
    ensures
        Set::new(|k: u32| i <= k < 32 && has_bit(b, k)).finite(),
        Set::new(|k: u32| i <= k < 32 && has_bit(b, k)).len() == ones_from(b, i),
    decreases 32 - i,
{
    let here: Set<u32> = Set::new(|k: u32| i <= k < 32 && has_bit(b, k));
    if i == 32 {
        assert(here =~= Set::empty());
    } else {
        let above: Set<u32> = Set::new(|k: u32| i + 1 <= k < 32 && has_bit(b, k));
        lemma_bit_set_from(b, (i + 1) as u32);
        assert(above =~= Set::new(|k: u32| ((i + 1) as u32) <= k < 32 && has_bit(b, k)));
        if has_bit(b, i) {
            assert(here =~= above.insert(i));
        } else {
            assert(here =~= above);
        }
    }
}

/// The bits of a word are the digits of the number to the base 2.
pub proof fn law_bits_are_binary_digits(b: u32, i: u32)
    requires
        i < 32,
    ensures
        has_bit(b, i) <==> (b as nat / pow2(i as nat)) % 2 == 1,
{
    let h: u32 = b >> i;
    lemma_u32_shr_is_div(b, i);
    assert(h & 1 == h % 2) by (bit_vector);
}

/// Counting set bits is counting the binary digits that are one: all of them, or
/// those above a position.
pub proof fn law_ones_are_counted(b: u32, i: u32)
    requires
        i < 32,
    ensures
        Set::new(|k: u32| k < 32 && (b as nat / pow2(k as nat)) % 2 == 1).finite(),
        Set::new(|k: u32| k < 32 && (b as nat / pow2(k as nat)) % 2 == 1).len() == ones(b),
        Set::new(|k: u32| i < k < 32 && (b as nat / pow2(k as nat)) % 2 == 1).finite(),
        Set::new(|k: u32| i < k < 32 && (b as nat / pow2(k as nat)) % 2 == 1).len() == rank(b, i),
{
    assert forall|k: u32| k < 32 implies #[trigger] has_bit(b, k) == ((b as nat / pow2(k as nat))
        % 2 == 1) by {
        law_bits_are_binary_digits(b, k);
    }
    lemma_bit_set(b);
    assert(bit_set(b) =~= Set::new(|k: u32| k < 32 && (b as nat / pow2(k as nat)) % 2 == 1));
    let j: u32 = (i + 1) as u32;
    lemma_bit_set_from(b, j);
    assert(Set::new(|k: u32| j <= k < 32 && has_bit(b, k)) =~= Set::new(
        |k: u32| i < k < 32 && (b as nat / pow2(k as nat)) % 2 == 1,
    ));
}

/// The position of the lowest set bit is the number of times that two divides the
/// number.
pub proof fn law_lowest_bit_divides(b: u32, i: u32)
    ensures
        is_lowest(b, i) <==> i < 32 && b as nat % pow2((i + 1) as nat) == pow2(i as nat),
{
    if i < 32 {
        lemma_low_digits(b, i);
        law_bits_are_binary_digits(b, i);
        lemma_next_digit(b, i);
        lemma_pow2_pos(i as nat);
    }
}

/// The remainder by the next power of two takes one more digit.
proof fn lemma_next_digit(b: u32, i: u32)
    requires
        i < 32,
    ensures
        b as nat % pow2((i + 1) as nat) == b as nat % pow2(i as nat) + (if (b as nat / pow2(
            i as nat,
        )) % 2 == 1 {
            pow2(i as nat)
        } else {
            0
        }),
        b as nat % pow2(i as nat) < pow2(i as nat),
{
    let p: int = pow2(i as nat) as int;
    let digit: int = (b as int / p) % 2;
    lemma_pow2_pos(i as nat);
    lemma_pow2_unfold((i + 1) as nat);
    lemma_mod_breakdown(b as int, p, 2);
    assert(p * 2 == 2 * p);
    assert(digit == 0 ==> p * digit == 0) by (nonlinear_arith);
    assert(digit == 1 ==> p * digit == p) by (nonlinear_arith);
}

/// The low digits are all zero exactly if the power of two divides the number.
proof fn lemma_low_digits(b: u32, i: u32)
    requires
        i <= 32,
    ensures
        (forall|k: u32| k < i ==> !has_bit(b, k)) <==> b as nat % pow2(i as nat) == 0,
    decreases i,
{
    if i == 0 {
        lemma2_to64();
    } else {
        let j: u32 = (i - 1) as u32;
        lemma_low_digits(b, j);
        lemma_next_digit(b, j);
        law_bits_are_binary_digits(b, j);
        lemma_pow2_pos(j as nat);
        if forall|k: u32| k < j ==> !has_bit(b, k) {
            assert(!has_bit(b, j) <==> (forall|k: u32| k < i ==> !has_bit(b, k)));
        } else {
            let k: u32 = choose|k: u32| k < j && has_bit(b, k);
            assert(has_bit(b, k) && k < i);
        }
    }
}

} // verus!
