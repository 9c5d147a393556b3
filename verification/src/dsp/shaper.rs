//! The ring that the oversampler's half-band FIR filters read from. Every
//! sample is written twice, `n` apart, so the last `n` samples always lie
//! contiguously in the buffer.

use vstd::prelude::*;

verus! {

/// A ring of the last `n` samples with a doubled buffer.
#[derive(Clone, Debug)]
pub struct Ring<T> {
    buf: Vec<T>,
    n: usize,
    w: usize,
}

impl<T: Copy> View for Ring<T> {
    type V = Seq<T>;

    /// The last `n` samples, oldest first.
    closed spec fn view(&self) -> Seq<T> {
        self.buf@.subrange(self.w + 1, self.w + 1 + self.n)
    }
}

impl<T: Copy> Ring<T> {
    /// Both halves agree; the newest sample sits at `w` and at `w + n`.
    pub closed spec fn wf(&self) -> bool {
        &&& 1 <= self.n <= usize::MAX / 2
        &&& self.buf@.len() == 2 * self.n
        &&& self.w < self.n
        &&& forall|k: int| 0 <= k < self.n ==> #[trigger] self.buf@[k] == self.buf@[k + self.n]
    }

    /// A ring of `n` samples, all `fill`.
    pub fn new(n: usize, fill: T) -> (r: Self)
        requires
            1 <= n <= usize::MAX / 2,
        ensures
            r.wf(),
            r@ == Seq::new(n as nat, |j: int| fill),
    {
        let mut buf: Vec<T> = Vec::new();
        let mut k: usize = 0;
        while k < 2 * n
            invariant
                k <= 2 * n,
                n <= usize::MAX / 2,
                buf@ =~= Seq::new(k as nat, |j: int| fill),
            decreases 2 * n - k,
        {
            buf.push(fill);
            k += 1;
        }
        let r = Ring { buf, n, w: 0 };
        assert(r@ =~= Seq::new(n as nat, |j: int| fill));
        r
    }

    /// The number of samples the ring keeps.
    pub fn len(&self) -> (n: usize)
        requires
            self.wf(),
        ensures
            n == self@.len(),
    {
        self.n
    }

    /// Appends `x`, dropping the oldest sample.
    pub fn push(&mut self, x: T)
        requires
            old(self).wf(),
        ensures
            final(self).wf(),
            final(self)@ == old(self)@.drop_first().push(x),
    {
        let ghost before = self@;
        let ghost old_buf = self.buf@;
        let n = self.n;
        self.w = if self.w + 1 == n {
            0
        } else {
            self.w + 1
        };
        let w = self.w;
        self.buf.set(w, x);
        self.buf.set(w + n, x);
        proof {
            let after = self@;
            let expect = before.drop_first().push(x);
            assert forall|j: int| 0 <= j < n implies #[trigger] after[j] == expect[j] by {
                if j < n - 1 {
                    assert(expect[j] == before[j + 1]);
                    if w == 0 {
                        assert(old_buf[1 + j] == old_buf[1 + j + n]);
                    }
                }
            }
            assert(after =~= expect);
        }
    }

    /// The sample pushed `k` pushes ago (0 is the newest).
    pub fn ago(&self, k: usize) -> (x: T)
        requires
            self.wf(),
            k < self@.len(),
        ensures
            x == self@[self@.len() - 1 - k],
    {
        self.buf[self.w + self.n - k]
    }
}

} // verus!
