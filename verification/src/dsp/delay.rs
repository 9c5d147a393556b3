//! DelayNode's ring buffer and the 128-sample cycle breaker.

use vstd::prelude::*;
use vstd::arithmetic::power2::{pow2, lemma_pow2_strictly_increases, lemma_pow2_unfold, lemma2_to64};
use vstd::arithmetic::div_mod::{lemma_fundamental_div_mod, lemma_mod_multiples_vanish, lemma_mod_sub_multiples_vanish, lemma_small_mod};
use vstd::bits::lemma_usize_low_bits_mask_is_mod;
use crate::dsp::{slide, lemma_slide};

verus! {

/// A capacity of `n` samples suits a request for `len`: `n` is the smallest
/// power of two that is at least `len` and at least 2.
pub open spec fn fits(n: nat, len: nat) -> bool {
    let m = if len < 2 {
        2
    } else {
        len
    };
    &&& exists|k: nat| pow2(k) == n
    &&& m <= n < 2 * m
}

pub(crate) proof fn lemma_exp_fits(k: nat)
    requires
        pow2(k) <= usize::MAX,
    ensures
        k < usize::BITS,
{
    if k >= usize::BITS {
        lemma2_to64();
        if k > usize::BITS {
            lemma_pow2_strictly_increases(usize::BITS as nat, k);
        }
    }
}

proof fn lemma_mask_is_mod(i: usize, n: nat, m: usize)
    requires
        exists|k: nat| pow2(k) == n,
        n <= usize::MAX,
        m + 1 == n,
    ensures
        i & m == i % (n as usize),
{
    let k = choose|k: nat| pow2(k) == n;
    lemma_exp_fits(k);
    lemma_usize_low_bits_mask_is_mod(i, k);
}

/// Position `k` (below `2 * n`) folded into `0..n`.
pub open spec fn wrap(k: int, n: int) -> int {
    if k < n {
        k
    } else {
        k - n
    }
}

proof fn lemma_shift_index(w: int, i: int, n: int)
    requires
        0 <= w < n,
        i >= 0,
    ensures
        0 <= (i - w) % n < n,
        wrap(w + (i - w) % n, n) == i % n,
{
    let r = (i - w) % n;
    let q = (i - w) / n;
    lemma_fundamental_div_mod(i - w, n);
    lemma_mod_multiples_vanish(q, w + r, n);
    assert(i == n * q + (w + r));
    if w + r < n {
        lemma_small_mod((w + r) as nat, n as nat);
    } else {
        lemma_mod_sub_multiples_vanish(w + r, n);
        lemma_small_mod((w + r - n) as nat, n as nat);
    }
}

/// The ring buffer of a delay line. Its capacity is a power of two so that
/// positions wrap with a mask.
#[derive(Clone, Debug)]
pub struct Delay<T> {
    buf: Vec<T>,
    mask: usize,
    w: usize,
}

impl<T: Copy> View for Delay<T> {
    type V = Seq<T>;

    /// The last `capacity()` samples, oldest first.
    closed spec fn view(&self) -> Seq<T> {
        Seq::new(self.buf@.len(), |j: int| self.buf@[wrap(self.w + j, self.buf@.len() as int)])
    }
}

impl<T: Copy> Delay<T> {
    /// The position the next sample is written to.
    pub closed spec fn next_pos(&self) -> nat {
        self.w as nat
    }

    /// Capacity a power of two (at least 2); the write position inside it.
    pub closed spec fn wf(&self) -> bool {
        &&& exists|k: nat| pow2(k) == self.buf@.len()
        &&& self.buf@.len() >= 2
        &&& self.mask + 1 == self.buf@.len()
        &&& self.w < self.buf@.len()
    }

    /// A delay line that holds at least `len` samples, all `fill`. It
    /// allocates here and nowhere else.
    pub fn new(len: usize, fill: T) -> (d: Self)
        requires
            len <= usize::MAX / 2 + 1,
        ensures
            d.wf(),
            fits(d@.len(), len as nat),
            d.next_pos() == 0,
            forall|j: int| 0 <= j < d@.len() ==> #[trigger] d@[j] == fill,
    {
        let m: usize = if len < 2 {
            2
        } else {
            len
        };
        let mut n: usize = 1;
        let ghost mut k: nat = 0;
        proof {
            vstd::arithmetic::power::lemma_pow0(2);
        }
        while n < m
            invariant
                m >= 2,
                m <= usize::MAX / 2 + 1,
                1 <= n,
                n == pow2(k),
                n < 2 * m,
            decreases 2 * m - n,
        {
            proof {
                lemma_pow2_unfold(k + 1);
            }
            n = n * 2;
            proof {
                k = k + 1;
            }
        }
        let mut buf: Vec<T> = Vec::new();
        let mut i: usize = 0;
        while i < n
            invariant
                i <= n,
                buf@.len() == i,
                forall|j: int| 0 <= j < i ==> #[trigger] buf@[j] == fill,
            decreases n - i,
        {
            buf.push(fill);
            i += 1;
        }
        let d = Delay { buf, mask: n - 1, w: 0 };
        proof {
            assert(d@.len() == n);
            assert forall|j: int| 0 <= j < d@.len() implies #[trigger] d@[j] == fill by {
                assert(wrap(j, n as int) == j);
            }
        }
        d
    }

    /// The number of samples the line holds.
    pub fn capacity(&self) -> (n: usize)
        requires
            self.wf(),
        ensures
            n == self@.len(),
    {
        self.buf.len()
    }

    /// Where the next sample goes.
    pub fn write_pos(&self) -> (w: usize)
        requires
            self.wf(),
        ensures
            w == self.next_pos(),
            w < self@.len(),
    {
        self.w
    }

    /// Every sample becomes `fill`; writing starts over at position 0.
    pub fn clear(&mut self, fill: T)
        requires
            old(self).wf(),
        ensures
            final(self).wf(),
            final(self)@.len() == old(self)@.len(),
            final(self).next_pos() == 0,
            forall|j: int| 0 <= j < final(self)@.len() ==> #[trigger] final(self)@[j] == fill,
    {
        let n = self.buf.len();
        let mut i: usize = 0;
        while i < n
            invariant
                n == self.buf@.len(),
                i <= n,
                forall|j: int| 0 <= j < i ==> #[trigger] self.buf@[j] == fill,
                exists|k: nat| pow2(k) == self.buf@.len(),
                self.mask + 1 == n,
                n >= 2,
            decreases n - i,
        {
            self.buf.set(i, fill);
            i += 1;
        }
        self.w = 0;
        proof {
            assert forall|j: int| 0 <= j < self@.len() implies #[trigger] self@[j] == fill by {
                assert(wrap(j, n as int) == j);
            }
        }
    }

    /// The sample at absolute position `i`, wrapped into the buffer: the one
    /// `(i - next_pos()) mod capacity` places into the window.
    pub fn at(&self, i: usize) -> (x: T)
        requires
            self.wf(),
        ensures
            x == self@[(i - self.next_pos()) % (self@.len() as int)],
    {
        let n = self.buf.len();
        proof {
            lemma_mask_is_mod(i, n as nat, self.mask);
            lemma_shift_index(self.w as int, i as int, n as int);
        }
        self.buf[i & self.mask]
    }

    /// Appends `x`, dropping the oldest sample.
    pub fn push(&mut self, x: T)
        requires
            old(self).wf(),
        ensures
            final(self).wf(),
            final(self)@ == old(self)@.drop_first().push(x),
            final(self).next_pos() == (old(self).next_pos() + 1) % old(self)@.len(),
    {
        let ghost before = self@;
        let n = self.buf.len();
        let w = self.w;
        self.buf.set(w, x);
        proof {
            lemma_mask_is_mod((w + 1) as usize, n as nat, self.mask);
            if w + 1 == n {
                vstd::arithmetic::div_mod::lemma_mod_self_0(n as int);
            } else {
                lemma_small_mod((w + 1) as nat, n as nat);
            }
        }
        self.w = (w + 1) & self.mask;
        proof {
            let after = self@;
            let expect = before.drop_first().push(x);
            assert forall|j: int| 0 <= j < n implies #[trigger] after[j] == expect[j] by {
                if j < n - 1 {
                    assert(expect[j] == before[j + 1]);
                }
            }
            assert(after =~= expect);
        }
    }
}

/// The length of one render quantum in samples.
pub const QUANTUM: usize = 128;

/// One render quantum of delay. Chromium breaks a cycle of nodes with the
/// previous output of the node being processed, so exactly one edge of every
/// cycle lags by 128 samples (on top of any DelayNode in the cycle).
#[derive(Clone, Debug)]
pub struct Quantum<T> {
    buf: Vec<T>,
    i: usize,
}

impl<T: Copy> View for Quantum<T> {
    type V = Seq<T>;

    /// The samples still in flight, the one due next first.
    closed spec fn view(&self) -> Seq<T> {
        Seq::new(QUANTUM as nat, |j: int| self.buf@[wrap(self.i + j, QUANTUM as int)])
    }
}

impl<T: Copy> Quantum<T> {
    /// One slot per sample in flight; the read position inside.
    pub closed spec fn wf(&self) -> bool {
        &&& self.buf@.len() == QUANTUM
        &&& self.i < QUANTUM
    }

    /// A quantum delay whose first 128 outputs are `fill`.
    pub fn new(fill: T) -> (q: Self)
        ensures
            q.wf(),
            q@ == Seq::new(QUANTUM as nat, |j: int| fill),
    {
        let mut buf: Vec<T> = Vec::new();
        let mut k: usize = 0;
        while k < QUANTUM
            invariant
                k <= QUANTUM,
                buf@ =~= Seq::new(k as nat, |j: int| fill),
            decreases QUANTUM - k,
        {
            buf.push(fill);
            k += 1;
        }
        let q = Quantum { buf, i: 0 };
        assert(q@ =~= Seq::new(QUANTUM as nat, |j: int| fill));
        q
    }

    /// Forgets everything in flight: the next 128 outputs are `fill`.
    pub fn clear(&mut self, fill: T)
        requires
            old(self).wf(),
        ensures
            final(self).wf(),
            final(self)@ == Seq::new(QUANTUM as nat, |j: int| fill),
    {
        let mut k: usize = 0;
        while k < QUANTUM
            invariant
                k <= QUANTUM,
                self.buf@.len() == QUANTUM,
                forall|j: int| 0 <= j < k ==> #[trigger] self.buf@[j] == fill,
            decreases QUANTUM - k,
        {
            self.buf.set(k, fill);
            k += 1;
        }
        self.i = 0;
        assert(self@ =~= Seq::new(QUANTUM as nat, |j: int| fill));
    }

    /// Takes `x` in and hands back the sample taken in 128 calls earlier.
    pub fn process(&mut self, x: T) -> (y: T)
        requires
            old(self).wf(),
        ensures
            final(self).wf(),
            y == old(self)@[0],
            final(self)@ == old(self)@.drop_first().push(x),
    {
        let ghost before = self@;
        let i = self.i;
        let y = self.buf[i];
        self.buf.set(i, x);
        assert(((i + 1) as usize) & 127 == if i + 1 == 128 { 0usize } else { (i + 1) as usize }) by (bit_vector)
            requires
                i < 128,
        ;
        self.i = (i + 1) & 127;
        proof {
            let after = self@;
            let expect = before.drop_first().push(x);
            assert forall|j: int| 0 <= j < QUANTUM implies #[trigger] after[j] == expect[j] by {
                if j < QUANTUM - 1 {
                    assert(expect[j] == before[j + 1]);
                }
            }
            assert(after =~= expect);
        }
        y
    }
}

/// Every sample fed through a quantum delay comes back out exactly 128 calls
/// later: the `k`-th output of a run over `xs` is `xs[k - 128]`, or for the
/// first 128 calls what was in flight when the run began.
pub proof fn lemma_quantum_lag<T>(win: Seq<T>, xs: Seq<T>, k: int)
    requires
        win.len() == QUANTUM,
        0 <= k < xs.len(),
    ensures
        slide(win, xs.take(k))[0] == if k < QUANTUM {
            win[k]
        } else {
            xs[k - QUANTUM]
        },
{
    lemma_slide(win, xs.take(k));
    assert(xs.take(k).len() == k);
}

} // verus!
