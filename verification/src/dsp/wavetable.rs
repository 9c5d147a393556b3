//! The index permutation that starts the radix-2 FFT with which the
//! band-limited oscillator tables are built: every element moves to the
//! position whose binary digits are its own in reverse order.

use vstd::prelude::*;
use vstd::arithmetic::power2::{pow2, lemma_pow2_unfold, lemma_pow2_pos};
use vstd::bits::lemma_usize_shl_is_mul;
use crate::dsp::delay::lemma_exp_fits;
use vstd::arithmetic::div_mod::{
    lemma_fundamental_div_mod, lemma_fundamental_div_mod_converse, lemma_div_denominator,
    lemma_mod_mod, lemma_mod_breakdown,
};

verus! {

/// `x` with its lowest `b` binary digits written in reverse order.
pub open spec fn rev_bits(x: nat, b: nat) -> nat
    decreases b,
{
    if b == 0 {
        0
    } else {
        (x % 2) * pow2((b - 1) as nat) + rev_bits(x / 2, (b - 1) as nat)
    }
}

/// Reversed digits stay below `2^b`.
pub proof fn lemma_rev_bound(x: nat, b: nat)
    ensures
        rev_bits(x, b) < pow2(b),
    decreases b,
{
    if b == 0 {
        vstd::arithmetic::power::lemma_pow0(2);
    } else {
        lemma_rev_bound(x / 2, (b - 1) as nat);
        lemma_pow2_unfold(b);
        if x % 2 == 0 {
            assert((x % 2) * pow2((b - 1) as nat) == 0);
        } else {
            assert((x % 2) * pow2((b - 1) as nat) == pow2((b - 1) as nat));
        }
    }
}

proof fn lemma_rev_split(y: nat, m: nat)
    ensures
        rev_bits(y, m + 1) == (if y % 2 == 1 {
            pow2(m)
        } else {
            0
        }) + rev_bits(y / 2, m),
{
    assert(rev_bits(y, m + 1) == (y % 2) * pow2(m) + rev_bits(y / 2, m));
    if y % 2 == 1 {
        assert((y % 2) * pow2(m) == pow2(m));
    } else {
        assert((y % 2) * pow2(m) == 0);
    }
}

proof fn lemma_rev_zero(b: nat)
    ensures
        rev_bits(0, b) == 0,
    decreases b,
{
    if b > 0 {
        lemma_rev_zero((b - 1) as nat);
        lemma_rev_split(0, (b - 1) as nat);
    }
}

proof fn lemma_rev_top(x: nat, b: nat)
    requires
        b >= 1,
        x < pow2(b),
    ensures
        rev_bits(x, b) == 2 * rev_bits(x % pow2((b - 1) as nat), (b - 1) as nat) + x / pow2(
            (b - 1) as nat,
        ),
    decreases b,
{
    lemma_pow2_unfold(b);
    if b == 1 {
        vstd::arithmetic::power::lemma_pow0(2);
        assert(x < 2);
        assert(x % 1 == 0 && x / 1 == x);
        assert(rev_bits(x / 2, 0) == 0);
    } else {
        let q = pow2((b - 2) as nat);
        let p = pow2((b - 1) as nat);
        lemma_pow2_unfold((b - 1) as nat);
        lemma_pow2_pos((b - 2) as nat);
        assert(p == 2 * q);
        assert(x / 2 < p) by {
            lemma_fundamental_div_mod(x as int, 2);
        }
        lemma_rev_top(x / 2, (b - 1) as nat);
        // rev(x/2, b-1) == 2 * rev((x/2) % q, b-2) + (x/2) / q
        lemma_div_denominator(x as int, 2, q as int);
        lemma_mod_mod(x as int, 2, q as int);
        lemma_mod_breakdown(x as int, 2, q as int);
        let xp = x % p;
        assert(xp % 2 == x % 2);
        assert(xp == 2 * ((x / 2) % q) + x % 2);
        lemma_fundamental_div_mod_converse(xp as int, 2, ((x / 2) % q) as int, (x % 2) as int);
        assert(xp / 2 == (x / 2) % q);
        lemma_rev_split(xp, (b - 2) as nat);
        lemma_rev_split(x, (b - 1) as nat);
        assert((x / 2) / q == x / p);
        if x % 2 == 1 {
            assert(rev_bits(xp, (b - 1) as nat) == q + rev_bits((x / 2) % q, (b - 2) as nat));
        } else {
            assert(rev_bits(xp, (b - 1) as nat) == rev_bits((x / 2) % q, (b - 2) as nat));
        }
    }
}

/// Reversing the digits twice gives the number back.
pub proof fn lemma_rev_involution(x: nat, b: nat)
    requires
        x < pow2(b),
    ensures
        rev_bits(rev_bits(x, b), b) == x,
    decreases b,
{
    if b == 0 {
        vstd::arithmetic::power::lemma_pow0(2);
    } else {
        let p = pow2((b - 1) as nat);
        lemma_pow2_unfold(b);
        lemma_pow2_pos((b - 1) as nat);
        let r1 = rev_bits(x / 2, (b - 1) as nat);
        lemma_rev_bound(x / 2, (b - 1) as nat);
        lemma_rev_bound(x, b);
        let r = rev_bits(x, b);
        assert(r == (x % 2) * p + r1);
        lemma_fundamental_div_mod_converse(r as int, p as int, (x % 2) as int, r1 as int);
        lemma_rev_top(r, b);
        assert(x / 2 < p) by {
            lemma_fundamental_div_mod(x as int, 2);
        }
        lemma_rev_involution(x / 2, (b - 1) as nat);
        lemma_fundamental_div_mod(x as int, 2);
    }
}

proof fn lemma_bit_ops(j: usize, bit: usize, m: nat)
    requires
        bit == pow2(m),
        m < usize::BITS,
        j < 2 * bit,
    ensures
        (j & bit != 0) == (j >= bit),
        j >= bit ==> (j ^ bit) == j - bit,
        j < bit ==> (j | bit) == j + bit,
        m >= 1 ==> bit >> 1usize == pow2((m - 1) as nat),
{
    let k = m as usize;
    lemma_usize_shl_is_mul(1, k);
    assert(1usize << k == bit);
    assert(k < usize::BITS && bit == 1usize << k && j < 2 * bit ==> ((j & bit != 0) == (j >= bit))
        && (j >= bit ==> (j ^ bit) == j - bit) && (j < bit ==> (j | bit) == j + bit)) by (bit_vector);
    if m >= 1 {
        lemma_pow2_unfold(m);
        assert(bit >> 1usize == bit / 2) by (bit_vector);
    }
}

/// The exponent of a power of two.
pub open spec fn log2_of(n: nat) -> nat {
    choose|b: nat| pow2(b) == n
}

/// The smaller of two integers.
pub open spec fn smaller(a: int, b: int) -> int {
    if a < b {
        a
    } else {
        b
    }
}

/// Moves every element to the position whose binary digits are its own
/// reversed (the length is a power of two).
pub fn bit_reverse<T: Copy>(xs: &mut Vec<T>)
    requires
        exists|b: nat| pow2(b) == old(xs)@.len(),
    ensures
        final(xs)@.len() == old(xs)@.len(),
        forall|i: int|
            0 <= i < old(xs)@.len() ==> #[trigger] final(xs)@[i] == old(xs)@[rev_bits(
                i as nat,
                log2_of(old(xs)@.len() as nat),
            ) as int],
{
    let ghost b = log2_of(xs@.len() as nat);
    let ghost orig = xs@;
    let n = xs.len();
    proof {
        lemma_exp_fits(b);
        lemma_pow2_pos(b);
        lemma_rev_zero(b);
        assert forall|x: int| 0 <= x < n implies #[trigger] xs@[x] == if smaller(
            x,
            rev_bits(x as nat, b) as int,
        ) < 1 {
            orig[rev_bits(x as nat, b) as int]
        } else {
            orig[x]
        } by {
            lemma_rev_involution(x as nat, b);
        }
    }
    let mut j: usize = 0;
    let mut i: usize = 1;
    while i < n
        invariant
            n == xs@.len() == orig.len() == pow2(b),
            b < usize::BITS,
            1 <= i <= n,
            j == rev_bits((i - 1) as nat, b),
            forall|x: int|
                0 <= x < n ==> #[trigger] xs@[x] == if smaller(x, rev_bits(x as nat, b) as int) < i {
                    orig[rev_bits(x as nat, b) as int]
                } else {
                    orig[x]
                },
        decreases n - i,
    {
        proof {
            if b == 0 {
                vstd::arithmetic::power::lemma_pow0(2);
            }
            lemma_pow2_unfold(b);
            assert(n >> 1usize == n / 2) by (bit_vector);
        }
        let mut bit = n >> 1;
        let ghost mut y: nat = (i - 1) as nat;
        let ghost mut m: nat = (b - 1) as nat;
        proof {
            lemma_rev_bound(y, b);
        }
        while j & bit != 0
            invariant
                m + 1 <= b,
                b < usize::BITS,
                bit == pow2(m),
                j == rev_bits(y, m + 1),
                y + 1 < pow2(m + 1),
                rev_bits(i as nat, b) == rev_bits(y + 1, m + 1),
            decreases m,
        {
            proof {
                lemma_pow2_unfold(m + 1);
                lemma_rev_bound(y / 2, m);
                lemma_rev_bound(y, m + 1);
                lemma_bit_ops(j, bit, m);
                lemma_rev_split(y, m);
                lemma_rev_split(y + 1, m);
                assert(y % 2 == 1);
                if m == 0 {
                    vstd::arithmetic::power::lemma_pow0(2);
                    assert(false);
                }
                assert((y + 1) % 2 == 0 && (y + 1) / 2 == y / 2 + 1);
            }
            j = j ^ bit;
            bit = bit >> 1;
            proof {
                y = y / 2;
                m = (m - 1) as nat;
            }
        }
        proof {
            lemma_pow2_unfold(m + 1);
            lemma_rev_bound(y / 2, m);
            lemma_rev_bound(y, m + 1);
            lemma_bit_ops(j, bit, m);
            lemma_rev_split(y, m);
            lemma_rev_split(y + 1, m);
            assert(y % 2 == 0);
            assert((y + 1) % 2 == 1 && (y + 1) / 2 == y / 2);
        }
        j = j | bit;
        proof {
            lemma_rev_bound(i as nat, b);
            lemma_rev_involution(i as nat, b);
        }
        if i < j {
            let a = xs[i];
            let c = xs[j];
            xs.set(i, c);
            xs.set(j, a);
        }
        proof {
            assert forall|x: int| 0 <= x < n implies #[trigger] xs@[x] == if smaller(
                x,
                rev_bits(x as nat, b) as int,
            ) < i + 1 {
                orig[rev_bits(x as nat, b) as int]
            } else {
                orig[x]
            } by {
                lemma_rev_bound(x as nat, b);
                lemma_rev_involution(x as nat, b);
            }
        }
        i += 1;
    }
    proof {
        assert forall|x: int| 0 <= x < n implies #[trigger] xs@[x] == orig[rev_bits(x as nat, b) as int] by {}
    }
}

} // verus!
