//! Seeded random numbers (mulberry32), the same generator that the browser
//! version is driven with when both are compared sample for sample.

use vstd::prelude::*;
use vstd::arithmetic::div_mod::{
    lemma_add_mod_noop, lemma_small_mod, lemma_mod_self_0, lemma_div_denominator,
    lemma_fundamental_div_mod, lemma_fundamental_div_mod_converse,
};
use vstd::arithmetic::power2::{pow2, lemma_pow2_unfold};

verus! {

/// The constant that the generator's state advances by on every draw.
pub const STEP: u32 = 0x6D2B_79F5;

/// The state after one draw.
pub open spec fn advance(a: u32) -> u32 {
    a.wrapping_add(STEP)
}

/// mulberry32's output mixer, applied to the advanced state.
pub open spec fn mix(a: u32) -> u32 {
    let t0 = (a ^ (a >> 15u32)).wrapping_mul(a | 1u32);
    let t1 = t0 ^ t0.wrapping_add((t0 ^ (t0 >> 7u32)).wrapping_mul(t0 | 61u32));
    t1 ^ (t1 >> 14u32)
}

/// The state after `k` draws from state `a`.
pub open spec fn advance_n(a: u32, k: nat) -> u32
    decreases k,
{
    if k == 0 {
        a
    } else {
        advance(advance_n(a, (k - 1) as nat))
    }
}

/// The `k`-th value (counting from 0) drawn from a generator in state `a`.
pub open spec fn draw(a: u32, k: nat) -> u32 {
    mix(advance_n(a, k + 1))
}

/// 2^53: integers below it have an exact `f64`.
pub open spec fn f64_exact_limit() -> nat {
    0x20_0000_0000_0000
}

/// The number of low binary digits that an `f64` cannot hold of `x`: how
/// often `x` must be halved to fall below 2^53.
pub open spec fn dropped_bits(x: nat) -> nat
    decreases x,
{
    if x < f64_exact_limit() {
        0
    } else {
        1 + dropped_bits(x / 2)
    }
}

/// The `f64` nearest to the integer `x` (53 significant bits, ties to even).
pub open spec fn f64_round(x: nat) -> nat {
    let e = dropped_bits(x);
    if e == 0 {
        x
    } else {
        let p = pow2(e);
        let q = x / p;
        let r = x % p;
        let h = p / 2;
        if r > h || (r == h && q % 2 == 1) {
            (q + 1) * p
        } else {
            q * p
        }
    }
}

/// Index that a draw `u` selects among `n` candidates, as `f64` arithmetic
/// gives it: `u / 2^32` (exact) times `n` rounded to an `f64`, the product
/// rounded to an `f64`, its integer part, and at most `n - 1`. The scaling by
/// 2^32 is exact, so the product is rounded as the integer `u * n` is.
pub open spec fn pick_index(u: u32, n: nat) -> int {
    let i = f64_round(u as nat * f64_round(n)) / 0x1_0000_0000;
    if i < n - 1 {
        i as int
    } else {
        n - 1
    }
}

/// `x` rounded to the nearest `f64` (see `f64_round`).
fn round_to_f64(x: u128) -> (r: u128)
    requires
        x < 0x10_0000_0000_0000_0000_0000_0000,
    ensures
        r == f64_round(x as nat),
        r <= 2 * x,
{
    let mut t: u128 = x;
    let mut p: u128 = 1;
    let ghost mut e: nat = 0;
    proof {
        vstd::arithmetic::power::lemma_pow0(2);
    }
    while t >= 0x20_0000_0000_0000
        invariant
            x < 0x10_0000_0000_0000_0000_0000_0000,
            p == pow2(e),
            p >= 1,
            p <= x || p == 1,
            t == x as nat / (p as nat),
            dropped_bits(x as nat) == e + dropped_bits(t as nat),
        decreases t,
    {
        proof {
            lemma_fundamental_div_mod(x as int, p as int);
            assert(x as int >= p * 2) by (nonlinear_arith)
                requires
                    x as int == p * (x as int / p as int) + x as int % p as int,
                    x as int / p as int >= 2,
                    x as int % p as int >= 0,
                    p >= 1,
            ;
            lemma_div_denominator(x as int, p as int, 2);
            lemma_pow2_unfold(e + 1);
        }
        t = t / 2;
        p = p * 2;
        proof {
            e = e + 1;
        }
    }
    if p == 1 {
        assert(e == 0) by {
            if e > 0 {
                vstd::arithmetic::power2::lemma_pow2_strictly_increases(0, e);
                vstd::arithmetic::power::lemma_pow0(2);
            }
        }
        assert(x as nat / 1 == x);
        return x;
    }
    proof {
        if e == 0 {
            vstd::arithmetic::power::lemma_pow0(2);
        }
        lemma_fundamental_div_mod(x as int, p as int);
    }
    let q = t;
    assert(q * p <= x) by (nonlinear_arith)
        requires
            x as int == p * q + x as int % p as int,
            x as int % p as int >= 0,
    ;
    let r = x - q * p;
    let h = p / 2;
    assert(r == x as nat % (p as nat));
    if r > h || (r == h && q % 2 == 1) {
        assert((q + 1) * p <= 2 * x) by (nonlinear_arith)
            requires
                q * p <= x,
                p <= x,
        ;
        (q + 1) * p
    } else {
        q * p
    }
}

/// The generator is a counter: after `k` draws from state `a` its state is
/// `a + k * STEP` modulo 2^32, so the `k`-th value depends on the seed and `k`
/// alone.
pub proof fn lemma_state_after(a: u32, k: nat)
    ensures
        advance_n(a, k) as int == (a as int + k * STEP as int) % 0x1_0000_0000,
        draw(a, k) == mix(((a as int + (k + 1) * STEP as int) % 0x1_0000_0000) as u32),
{
    lemma_state_after_n(a, k);
    lemma_state_after_n(a, k + 1);
}

proof fn lemma_state_after_n(a: u32, k: nat)
    ensures
        advance_n(a, k) as int == (a as int + k * STEP as int) % 0x1_0000_0000,
    decreases k,
{
    let m = 0x1_0000_0000int;
    if k == 0 {
        lemma_small_mod(a as nat, m as nat);
    } else {
        lemma_state_after_n(a, (k - 1) as nat);
        let prev = advance_n(a, (k - 1) as nat);
        let total = a as int + (k - 1) * STEP as int;
        lemma_add_mod_noop(total, STEP as int, m);
        lemma_small_mod(STEP as nat, m as nat);
        assert(advance(prev) as int == (prev as int + STEP as int) % m) by {
            if prev as int + STEP as int > u32::MAX {
                lemma_mod_self_0(m);
                lemma_add_mod_noop(prev as int + STEP as int - m, m, m);
                lemma_small_mod((prev as int + STEP as int - m) as nat, m as nat);
            } else {
                lemma_small_mod((prev as int + STEP as int) as nat, m as nat);
            }
        }
        lemma_small_mod(prev as nat, m as nat);
        assert(total + STEP as int == a as int + k * STEP as int);
    }
}

/// mulberry32's output mixer, written over the integers: for every 32-bit
/// state `a`, with products and sums taken modulo 2^32,
/// `t0 = (a ^ (a >> 15)) * (a | 1)`,
/// `t1 = t0 ^ (t0 + (t0 ^ (t0 >> 7)) * (t0 | 61))`,
/// and the value drawn at `a` is `t1 ^ (t1 >> 14)`.
pub proof fn lemma_mix_is_mulberry32(a: u32)
    ensures
        ({
            let m = 0x1_0000_0000int;
            let t0 = (((a ^ (a >> 15u32)) as int * (a | 1u32) as int) % m) as u32;
            let t1 = t0 ^ (((t0 as int + (t0 ^ (t0 >> 7u32)) as int * (t0 | 61u32) as int)
                % m) as u32);
            mix(a) == t1 ^ (t1 >> 14u32)
        }),
{
    let m = 0x1_0000_0000int;
    let t0 = (a ^ (a >> 15u32)).wrapping_mul(a | 1u32);
    let p = (t0 ^ (t0 >> 7u32)).wrapping_mul(t0 | 61u32);
    assert(p as int == ((t0 ^ (t0 >> 7u32)) as int * (t0 | 61u32) as int) % m);
    lemma_wrapping_add_mod(t0, p);
    lemma_add_mod_noop(t0 as int, (t0 ^ (t0 >> 7u32)) as int * (t0 | 61u32) as int, m);
    lemma_small_mod(t0 as nat, m as nat);
}

/// The stream from seed 1 begins 2693262067, 11749833, 2265367787,
/// 4213581821, 4159151403, 1207330352.
pub proof fn lemma_seed_one_stream()
    ensures
        draw(1, 0) == 2693262067u32,
        draw(1, 1) == 11749833u32,
        draw(1, 2) == 2265367787u32,
        draw(1, 3) == 4213581821u32,
        draw(1, 4) == 4159151403u32,
        draw(1, 5) == 1207330352u32,
{
    lemma_state_after(1, 0);
    assert(0x6d2b79f6u32 ^ (0x6d2b79f6u32 >> 15u32) == 0x6d2ba3a0u32
        && (0x6d2b79f6u32 | 1u32) == 0x6d2b79f7u32
        && 0x91517f60u32 ^ (0x91517f60u32 >> 7u32) == 0x9073dd9eu32
        && (0x91517f60u32 | 61u32) == 0x91517f7du32
        && 0x91517f60u32 ^ 0x31d41786u32 == 0xa08568e6u32
        && 0xa08568e6u32 ^ (0xa08568e6u32 >> 14u32) == 2693262067u32) by (bit_vector);
    lemma_fundamental_div_mod_converse(0x6d2ba3a0int * 0x6d2b79f7, 0x1_0000_0000, 0x2e8e1f02, 0x91517f60);
    lemma_fundamental_div_mod_converse(0x91517f60int + 0x9073dd9e * 0x91517f7d, 0x1_0000_0000, 0x51ff9d20, 0x31d41786);
    lemma_mix_at(
        0x6d2b79f6, 0x6d2ba3a0, 0x6d2b79f7, 0x91517f60, 0x9073dd9e,
        0x91517f7d, 0x31d41786, 0xa08568e6, 2693262067,
    );
    lemma_state_after(1, 1);
    assert(0xda56f3ebu32 ^ (0xda56f3ebu32 >> 15u32) == 0xda574746u32
        && (0xda56f3ebu32 | 1u32) == 0xda56f3ebu32
        && 0xd449df42u32 ^ (0xd449df42u32 >> 7u32) == 0xd5e14cfcu32
        && (0xd449df42u32 | 61u32) == 0xd449df7fu32
        && 0xd449df42u32 ^ 0xd4fa9446u32 == 0xb34b04u32
        && 0xb34b04u32 ^ (0xb34b04u32 >> 14u32) == 11749833u32) by (bit_vector);
    lemma_fundamental_div_mod_converse(0xda574746int * 0xda56f3eb, 0x1_0000_0000, 0xba387c0c, 0xd449df42);
    lemma_fundamental_div_mod_converse(0xd449df42int + 0xd5e14cfc * 0xd449df7f, 0x1_0000_0000, 0xb15c4bb9, 0xd4fa9446);
    lemma_mix_at(
        0xda56f3eb, 0xda574746, 0xda56f3eb, 0xd449df42, 0xd5e14cfc,
        0xd449df7f, 0xd4fa9446, 0xb34b04, 11749833,
    );
    lemma_state_after(1, 2);
    assert(0x47826de0u32 ^ (0x47826de0u32 >> 15u32) == 0x4782e2e4u32
        && (0x47826de0u32 | 1u32) == 0x47826de1u32
        && 0x86c7e64u32 ^ (0x86c7e64u32 >> 7u32) == 0x87ca698u32
        && (0x86c7e64u32 | 61u32) == 0x86c7e7du32
        && 0x86c7e64u32 ^ 0x8f68a69cu32 == 0x8704d8f8u32
        && 0x8704d8f8u32 ^ (0x8704d8f8u32 >> 14u32) == 2265367787u32) by (bit_vector);
    lemma_fundamental_div_mod_converse(0x4782e2e4int * 0x47826de1, 0x1_0000_0000, 0x13f9bc16, 0x86c7e64);
    lemma_fundamental_div_mod_converse(0x86c7e64int + 0x87ca698 * 0x86c7e7d, 0x1_0000_0000, 0x477dfc, 0x8f68a69c);
    lemma_mix_at(
        0x47826de0, 0x4782e2e4, 0x47826de1, 0x86c7e64, 0x87ca698,
        0x86c7e7d, 0x8f68a69c, 0x8704d8f8, 2265367787,
    );
    lemma_state_after(1, 3);
    assert(0xb4ade7d5u32 ^ (0xb4ade7d5u32 >> 15u32) == 0xb4ac8e8eu32
        && (0xb4ade7d5u32 | 1u32) == 0xb4ade7d5u32
        && 0x362abe26u32 ^ (0x362abe26u32 >> 7u32) == 0x3646eb5au32
        && (0x362abe26u32 | 61u32) == 0x362abe3fu32
        && 0x362abe26u32 ^ 0xcd0f754cu32 == 0xfb25cb6au32
        && 0xfb25cb6au32 ^ (0xfb25cb6au32 >> 14u32) == 4213581821u32) by (bit_vector);
    lemma_fundamental_div_mod_converse(0xb4ac8e8eint * 0xb4ade7d5, 0x1_0000_0000, 0x7f841076, 0x362abe26);
    lemma_fundamental_div_mod_converse(0x362abe26int + 0x3646eb5a * 0x362abe3f, 0x1_0000_0000, 0xb7c059d, 0xcd0f754c);
    lemma_mix_at(
        0xb4ade7d5, 0xb4ac8e8e, 0xb4ade7d5, 0x362abe26, 0x3646eb5a,
        0x362abe3f, 0xcd0f754c, 0xfb25cb6a, 4213581821,
    );
    lemma_state_after(1, 4);
    assert(0x21d961cau32 ^ (0x21d961cau32 >> 15u32) == 0x21d92278u32
        && (0x21d961cau32 | 1u32) == 0x21d961cbu32
        && 0xccf5cd28u32 ^ (0xccf5cd28u32 >> 7u32) == 0xcd6c26b2u32
        && (0xccf5cd28u32 | 61u32) == 0xccf5cd3du32
        && 0xccf5cd28u32 ^ 0x3b118f92u32 == 0xf7e442bau32
        && 0xf7e442bau32 ^ (0xf7e442bau32 >> 14u32) == 4159151403u32) by (bit_vector);
    lemma_fundamental_div_mod_converse(0x21d92278int * 0x21d961cb, 0x1_0000_0000, 0x479bb6d, 0xccf5cd28);
    lemma_fundamental_div_mod_converse(0xccf5cd28int + 0xcd6c26b2 * 0xccf5cd3d, 0x1_0000_0000, 0xa4776c08, 0x3b118f92);
    lemma_mix_at(
        0x21d961ca, 0x21d92278, 0x21d961cb, 0xccf5cd28, 0xcd6c26b2,
        0xccf5cd3d, 0x3b118f92, 0xf7e442ba, 4159151403,
    );
    lemma_state_after(1, 5);
    assert(0x8f04dbbfu32 ^ (0x8f04dbbfu32 >> 15u32) == 0x8f05c5b6u32
        && (0x8f04dbbfu32 | 1u32) == 0x8f04dbbfu32
        && 0x664934cau32 ^ (0x664934cau32 >> 7u32) == 0x6685a6a3u32
        && (0x664934cau32 | 61u32) == 0x664934ffu32
        && 0x664934cau32 ^ 0x21be4d27u32 == 0x47f779edu32
        && 0x47f779edu32 ^ (0x47f779edu32 >> 14u32) == 1207330352u32) by (bit_vector);
    lemma_fundamental_div_mod_converse(0x8f05c5b6int * 0x8f04dbbf, 0x1_0000_0000, 0x4fe6f04c, 0x664934ca);
    lemma_fundamental_div_mod_converse(0x664934caint + 0x6685a6a3 * 0x664934ff, 0x1_0000_0000, 0x28f691bb, 0x21be4d27);
    lemma_mix_at(
        0x8f04dbbf, 0x8f05c5b6, 0x8f04dbbf, 0x664934ca, 0x6685a6a3,
        0x664934ff, 0x21be4d27, 0x47f779ed, 1207330352,
    );
}

/// `mix(a) == r`, from the intermediate values of mulberry32 at `a`.
proof fn lemma_mix_at(a: u32, x: u32, y: u32, t0: u32, z: u32, w: u32, s: u32, t1: u32, r: u32)
    requires
        x == a ^ (a >> 15u32),
        y == a | 1u32,
        t0 as int == (x as int * y as int) % 0x1_0000_0000,
        z == t0 ^ (t0 >> 7u32),
        w == t0 | 61u32,
        s as int == (t0 as int + z as int * w as int) % 0x1_0000_0000,
        t1 == t0 ^ s,
        r == t1 ^ (t1 >> 14u32),
    ensures
        mix(a) == r,
{
    lemma_mix_is_mulberry32(a);
}

proof fn lemma_wrapping_add_mod(x: u32, y: u32)
    ensures
        x.wrapping_add(y) as int == (x as int + y as int) % 0x1_0000_0000,
{
    let m = 0x1_0000_0000int;
    if x as int + y as int > u32::MAX {
        lemma_mod_self_0(m);
        lemma_add_mod_noop(x as int + y as int - m, m, m);
        lemma_small_mod((x as int + y as int - m) as nat, m as nat);
    } else {
        lemma_small_mod((x as int + y as int) as nat, m as nat);
    }
}

/// The generator. Its whole state is one 32-bit word.
pub struct Rng {
    a: u32,
}

impl View for Rng {
    type V = u32;

    closed spec fn view(&self) -> u32 {
        self.a
    }
}

impl Rng {
    /// A generator seeded with the low 32 bits of `seed`.
    pub fn new(seed: u64) -> (r: Self)
        ensures
            r@ == (seed % 0x1_0000_0000) as u32,
    {
        assert(seed as u32 == seed % 0x1_0000_0000) by (bit_vector);
        Rng { a: seed as u32 }
    }

    /// The next 32-bit value.
    pub fn next_u32(&mut self) -> (r: u32)
        ensures
            final(self)@ == advance(old(self)@),
            r == mix(final(self)@),
    {
        self.a = self.a.wrapping_add(STEP);
        let mut t = self.a;
        t = (t ^ (t >> 15)).wrapping_mul(t | 1);
        t ^= t.wrapping_add((t ^ (t >> 7)).wrapping_mul(t | 61));
        t ^ (t >> 14)
    }

    /// Picks one of `xs`. A single candidate is returned without drawing;
    /// otherwise the next draw `u`, scaled to [0, 1) and multiplied by the
    /// length in `f64`, selects the index (see `pick_index`), which the
    /// integers here compute with the same rounding.
    pub fn pick<T: Copy>(&mut self, xs: &[T]) -> (r: T)
        requires
            xs@.len() > 0,
        ensures
            xs@.len() == 1 ==> r == xs@[0] && final(self)@ == old(self)@,
            xs@.len() > 1 ==> final(self)@ == advance(old(self)@) && r == xs@[pick_index(
                mix(final(self)@),
                xs@.len(),
            )],
    {
        if xs.len() == 1 {
            return xs[0];
        }
        let u = self.next_u32();
        let n = xs.len();
        let len = round_to_f64(n as u128);
        assert(u as int * len as int <= 0x1_0000_0000 * 0x2_0000_0000_0000_0000) by (nonlinear_arith)
            requires
                u < 0x1_0000_0000int,
                len <= 0x2_0000_0000_0000_0000int,
        ;
        let prod: u128 = u as u128 * len;
        let i = round_to_f64(prod) / 0x1_0000_0000;
        let k: usize = if i < (n - 1) as u128 {
            i as usize
        } else {
            n - 1
        };
        xs[k]
    }
}

} // verus!
