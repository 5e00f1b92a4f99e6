//! Numbers as bit sequences, least significant bit first: the order in which
//! they cross the wire.

use vstd::arithmetic::div_mod::*;
use vstd::arithmetic::power2::*;
use vstd::prelude::*;

verus! {

/// The lowest `count` bits of `value`.
pub open spec fn bits_of(value: nat, count: nat) -> Seq<bool>
    decreases count,
{
    if count == 0 {
        Seq::empty()
    } else {
        seq![value % 2 == 1] + bits_of(value / 2, (count - 1) as nat)
    }
}

/// The number that `bits` spell.
pub open spec fn value_of(bits: Seq<bool>) -> nat
    decreases bits.len(),
{
    if bits.len() == 0 {
        0
    } else {
        (if bits[0] {
            1nat
        } else {
            0
        }) + 2 * value_of(bits.skip(1))
    }
}

/// Is the number of ones in `value` odd?
pub open spec fn odd_parity(value: nat) -> bool
    decreases value,
{
    if value == 0 {
        false
    } else {
        (value % 2 == 1) != odd_parity(value / 2)
    }
}

/// `count` zeros.
pub open spec fn zeros(count: nat) -> Seq<bool> {
    Seq::new(count, |i: int| false)
}

pub proof fn lemma_bits_len(value: nat, count: nat)
    ensures
        bits_of(value, count).len() == count,
    decreases count,
{
    if count > 0 {
        lemma_bits_len(value / 2, (count - 1) as nat);
    }
}

pub proof fn lemma_bits_skip(value: nat, count: nat)
    requires
        count > 0,
    ensures
        bits_of(value, count).skip(1) == bits_of(value / 2, (count - 1) as nat),
        bits_of(value, count)[0] == (value % 2 == 1),
{
    assert(bits_of(value, count).skip(1) =~= bits_of(value / 2, (count - 1) as nat));
}

/// A number is told by its bits, and its bits by the number.
pub proof fn law_value_of_undoes_bits_of(value: nat, count: nat)
    requires
        value < pow2(count),
    ensures
        value_of(bits_of(value, count)) == value,
    decreases count,
{
    if count > 0 {
        lemma_pow2_unfold(count);
        law_value_of_undoes_bits_of(value / 2, (count - 1) as nat);
        lemma_bits_skip(value, count);
        lemma_bits_len(value, count);
    } else {
        lemma2_to64();
    }
}

/// The bits of a number tell what it is but for what they leave out.
pub proof fn lemma_value_of_bits(value: nat, count: nat)
    ensures
        value_of(bits_of(value, count)) == value % pow2(count),
    decreases count,
{
    lemma_bits_len(value, count);
    if count > 0 {
        let half = value / 2;
        let p = pow2((count - 1) as nat);
        lemma_value_of_bits(half, (count - 1) as nat);
        lemma_bits_skip(value, count);
        lemma_pow2_unfold(count);
        lemma_pow2_pos((count - 1) as nat);
        let (q, r) = (half / p, half % p);
        lemma_fundamental_div_mod(half as int, p as int);
        assert(half == p * q + r);
        assert(value == (2 * p) * q + (2 * r + value % 2)) by (nonlinear_arith)
            requires
                half == p * q + r,
                value == 2 * half + value % 2,
        ;
        assert(r < p);
        assert((2 * p) * q == q * (2 * p)) by (nonlinear_arith);
        lemma_fundamental_div_mod_converse(
            value as int,
            (2 * p) as int,
            q as int,
            (2 * r + value % 2) as int,
        );
    } else {
        lemma2_to64();
    }
}

pub proof fn law_bits_of_undoes_value_of(bits: Seq<bool>)
    ensures
        bits_of(value_of(bits), bits.len()) == bits,
    decreases bits.len(),
{
    if bits.len() > 0 {
        law_bits_of_undoes_value_of(bits.skip(1));
        assert(value_of(bits) / 2 == value_of(bits.skip(1)));
        assert(bits_of(value_of(bits), bits.len()) =~= bits);
    } else {
        assert(bits_of(value_of(bits), bits.len()) =~= bits);
    }
}

/// The bits of a number stand by their weight: the one at `at` tells of the
/// power of two with that exponent.
pub proof fn law_bits_stand_by_their_weight(value: nat, count: nat, at: nat)
    requires
        at < count,
    ensures
        bits_of(value, count).len() == count,
        bits_of(value, count)[at as int] == (value / pow2(at) % 2 == 1),
    decreases count,
{
    lemma_bits_len(value, count);
    lemma_bits_skip(value, count);
    lemma2_to64();
    if at > 0 {
        law_bits_stand_by_their_weight(value / 2, (count - 1) as nat, (at - 1) as nat);
        lemma_bits_len(value / 2, (count - 1) as nat);
        assert(bits_of(value, count).skip(1)[at - 1] == bits_of(value, count)[at as int]);
        lemma_pow2_unfold(at);
        lemma_pow2_pos((at - 1) as nat);
        let p = pow2((at - 1) as nat);
        lemma_div_denominator(value as int, 2, p as int);
        assert(pow2(at) == 2 * p);
        assert(value / pow2(at) == value / 2 / p);
    } else {
        assert(pow2(at) == 1);
        assert(value / pow2(at) == value) by (nonlinear_arith)
            requires
                pow2(at) == 1,
        ;
    }
}

/// How many of `bits` are ones.
pub open spec fn ones(bits: Seq<bool>) -> nat
    decreases bits.len(),
{
    if bits.len() == 0 {
        0
    } else {
        ones(bits.drop_last()) + (if bits.last() {
            1nat
        } else {
            0
        })
    }
}

proof fn lemma_ones_first(bits: Seq<bool>)
    requires
        bits.len() > 0,
    ensures
        ones(bits) == ones(bits.skip(1)) + (if bits[0] {
            1nat
        } else {
            0
        }),
    decreases bits.len(),
{
    if bits.len() == 1 {
        assert(bits.drop_last() =~= bits.skip(1));
    } else {
        lemma_ones_first(bits.drop_last());
        assert(bits.drop_last().skip(1) =~= bits.skip(1).drop_last());
    }
}

/// A number is of odd parity if an odd number of its bits are ones.
pub proof fn law_parity_counts_the_ones(value: nat, count: nat)
    requires
        value < pow2(count),
    ensures
        odd_parity(value) == (ones(bits_of(value, count)) % 2 == 1),
    decreases count,
{
    lemma2_to64();
    lemma_bits_len(value, count);
    if count > 0 {
        lemma_pow2_unfold(count);
        law_parity_counts_the_ones(value / 2, (count - 1) as nat);
        lemma_bits_skip(value, count);
        lemma_ones_first(bits_of(value, count));
        if value == 0 {
            assert(!odd_parity(0));
        }
    }
}

pub proof fn lemma_value_bound(bits: Seq<bool>)
    ensures
        value_of(bits) < pow2(bits.len()),
    decreases bits.len(),
{
    if bits.len() > 0 {
        lemma_value_bound(bits.skip(1));
        lemma_pow2_unfold(bits.len());
    } else {
        lemma2_to64();
    }
}

pub proof fn lemma_value_concat(low: Seq<bool>, high: Seq<bool>)
    ensures
        value_of(low + high) == value_of(low) + pow2(low.len()) * value_of(high),
    decreases low.len(),
{
    if low.len() == 0 {
        lemma2_to64();
        assert(low + high =~= high);
    } else {
        lemma_value_concat(low.skip(1), high);
        assert((low + high).skip(1) =~= low.skip(1) + high);
        lemma_pow2_unfold(low.len());
        let (p, v) = (pow2((low.len() - 1) as nat), value_of(high));
        assert(2 * (p * v) == (2 * p) * v) by (nonlinear_arith);
    }
}

pub proof fn lemma_value_push(bits: Seq<bool>, bit: bool)
    ensures
        value_of(bits.push(bit)) == value_of(bits) + (if bit {
            pow2(bits.len())
        } else {
            0
        }),
{
    assert(bits.push(bit) =~= bits + seq![bit]);
    lemma_value_concat(bits, seq![bit]);
    assert(seq![bit].skip(1) =~= Seq::empty());
    let v = value_of(seq![bit]);
    let p = pow2(bits.len());
    assert(value_of(Seq::<bool>::empty()) == 0);
    assert(v == (if bit {
        1nat
    } else {
        0
    }));
    assert(p * v == (if bit {
        p
    } else {
        0
    })) by (nonlinear_arith)
        requires
            v == (if bit {
                1nat
            } else {
                0
            }),
    ;
}

/// Is the number of ones in `value` odd?
pub fn parity(value: u32) -> (odd: bool)
    ensures
        odd == odd_parity(value as nat),
{
    let mut rest: u32 = value;
    let mut odd: bool = false;
    while rest != 0
        invariant
            odd_parity(value as nat) == (odd != odd_parity(rest as nat)),
        decreases rest,
    {
        odd = odd != (rest % 2 == 1);
        rest = rest / 2;
    }
    odd
}

} // verus!
