//! Sample buffers of the Web Audio parts: the delay line, the one-quantum
//! cycle breaker, and the double-written ring of the oversampler's filters.
//! The float arithmetic around them stays with the audio code; these hold
//! and hand back samples of any copyable type.

pub mod delay;
pub mod shaper;
pub mod wavetable;

use vstd::prelude::*;

verus! {

/// The window of the last `win.len()` samples after `xs` has been pushed,
/// one sample at a time, into a buffer holding `win` (oldest first).
pub open spec fn slide<T>(win: Seq<T>, xs: Seq<T>) -> Seq<T>
    decreases xs.len(),
{
    if xs.len() == 0 {
        win
    } else {
        slide(win, xs.drop_last()).drop_first().push(xs.last())
    }
}

/// Pushing samples one at a time into a delay line, a quantum delay or a
/// ring (each push drops the oldest sample and appends the new one) keeps the
/// most recent samples: after pushing `xs` into a buffer holding `win`, it
/// holds the last `win.len()` entries of `win` followed by `xs`.
pub proof fn lemma_slide<T>(win: Seq<T>, xs: Seq<T>)
    requires
        win.len() > 0,
    ensures
        slide(win, xs) =~= (win + xs).subrange(xs.len() as int, xs.len() + win.len() as int),
    decreases xs.len(),
{
    if xs.len() > 0 {
        lemma_slide(win, xs.drop_last());
        let prev = xs.drop_last();
        assert((win + xs).subrange(0, prev.len() + win.len() as int) =~= win + prev);
    }
}

} // verus!
