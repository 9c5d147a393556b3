//! The voice pool: which of the engine's voices a pad press takes, which
//! voices a release reaches, and in which order the engine visits the
//! sounding voices (the order in which they were started).

use vstd::prelude::*;

verus! {

/// The number of voices the engine allocates up front; no more sound at once.
pub const MAX_VOICES: usize = 40;

/// The number of pads (one patch each).
pub const PADS: usize = 16;

/// What the pool knows of one voice.
#[derive(Clone, Copy, PartialEq, Eq, Structural, Debug)]
pub struct Slot {
    /// The voice sounds (it may be in its release).
    pub active: bool,
    /// The pad that started it.
    pub pad: usize,
    /// The pad was let go.
    pub released: bool,
    /// Start number: the n-th press that the pool served.
    pub born: u64,
}

/// The slot a voice takes when `pad` starts it as the pool's `born`-th voice.
pub open spec fn started(pad: usize, born: u64) -> Slot {
    Slot { active: true, pad, released: false, born }
}

/// A voice that releasing `pad` reaches.
pub open spec fn releasable(s: Slot, pad: usize) -> bool {
    s.active && s.pad == pad && !s.released
}

/// The number of sounding voices in `s`.
pub open spec fn active_count(s: Seq<Slot>) -> nat
    decreases s.len(),
{
    if s.len() == 0 {
        0
    } else {
        active_count(s.drop_last()) + if s.last().active {
            1nat
        } else {
            0nat
        }
    }
}

/// The indices below `k` of the voices that releasing `pad` reaches, in
/// increasing order.
pub open spec fn releasable_below(s: Seq<Slot>, pad: usize, k: nat) -> Seq<usize>
    decreases k,
{
    if k == 0 {
        Seq::empty()
    } else {
        let prev = releasable_below(s, pad, (k - 1) as nat);
        if releasable(s[k - 1], pad) {
            prev.push((k - 1) as usize)
        } else {
            prev
        }
    }
}

/// `s[i]` is the slot that a press takes in `s`: the first silent voice; with
/// none, the released voice started first; with none, the voice started first.
pub open spec fn is_victim(s: Seq<Slot>, i: int) -> bool {
    &&& 0 <= i < s.len()
    &&& (exists|j: int| 0 <= j < s.len() && !s[j].active) ==> {
        &&& !s[i].active
        &&& forall|j: int| 0 <= j < i ==> s[j].active
    }
    &&& (forall|j: int| 0 <= j < s.len() ==> s[j].active) && (exists|j: int|
        0 <= j < s.len() && s[j].released) ==> {
        &&& s[i].released
        &&& forall|j: int| 0 <= j < s.len() && s[j].released ==> s[i].born <= s[j].born
        &&& forall|j: int| 0 <= j < i && s[j].released ==> s[i].born < s[j].born
    }
    &&& (forall|j: int| 0 <= j < s.len() ==> s[j].active && !s[j].released) ==> {
        &&& forall|j: int| 0 <= j < s.len() ==> s[i].born <= s[j].born
        &&& forall|j: int| 0 <= j < i ==> s[i].born < s[j].born
    }
}

proof fn lemma_count_bound(s: Seq<Slot>)
    ensures
        active_count(s) <= s.len(),
        active_count(s) == s.len() <==> forall|j: int| 0 <= j < s.len() ==> s[j].active,
    decreases s.len(),
{
    if s.len() > 0 {
        lemma_count_bound(s.drop_last());
        if forall|j: int| 0 <= j < s.len() ==> s[j].active {
            assert forall|j: int| 0 <= j < s.drop_last().len() implies s.drop_last()[j].active by {
                assert(s[j].active);
            }
        }
        if forall|j: int| 0 <= j < s.drop_last().len() ==> s.drop_last()[j].active {
            if s.last().active {
                assert forall|j: int| 0 <= j < s.len() implies s[j].active by {
                    if j < s.len() - 1 {
                        assert(s.drop_last()[j].active);
                    }
                }
            }
        }
    }
}

proof fn lemma_count_update(s: Seq<Slot>, i: int, x: Slot)
    requires
        0 <= i < s.len(),
    ensures
        active_count(s.update(i, x)) + (if s[i].active {
            1int
        } else {
            0int
        }) == active_count(s) + (if x.active {
            1int
        } else {
            0int
        }),
    decreases s.len(),
{
    let t = s.update(i, x);
    if i == s.len() - 1 {
        assert(t.drop_last() =~= s.drop_last());
    } else {
        assert(t.drop_last() =~= s.drop_last().update(i, x));
        lemma_count_update(s.drop_last(), i, x);
    }
}

proof fn lemma_count_silent(s: Seq<Slot>)
    requires
        forall|i: int| 0 <= i < s.len() ==> !(#[trigger] s[i]).active,
    ensures
        active_count(s) == 0,
    decreases s.len(),
{
    if s.len() > 0 {
        lemma_count_silent(s.drop_last());
    }
}

proof fn lemma_count_same_activity(s: Seq<Slot>, t: Seq<Slot>)
    requires
        s.len() == t.len(),
        forall|i: int| 0 <= i < s.len() ==> (#[trigger] s[i]).active == t[i].active,
    ensures
        active_count(s) == active_count(t),
    decreases s.len(),
{
    if s.len() > 0 {
        lemma_count_same_activity(s.drop_last(), t.drop_last());
    }
}

/// The engine's voices as far as allocation goes.
pub struct VoicePool {
    slots: Vec<Slot>,
    born: u64,
}

impl View for VoicePool {
    type V = Seq<Slot>;

    closed spec fn view(&self) -> Seq<Slot> {
        self.slots@
    }
}

impl VoicePool {
    /// The number of presses served so far (the last start number).
    pub closed spec fn served(&self) -> u64 {
        self.born
    }

    /// The pool's invariant: one slot per voice; every sounding voice belongs
    /// to a pad and holds a start number of its own, at most `served()`.
    pub closed spec fn wf(&self) -> bool {
        &&& self.slots@.len() == MAX_VOICES
        &&& forall|i: int|
            0 <= i < MAX_VOICES && #[trigger] self.slots@[i].active ==> 1 <= self.slots@[i].born
                <= self.born && self.slots@[i].pad < PADS
        &&& forall|i: int, j: int|
            0 <= i < MAX_VOICES && 0 <= j < MAX_VOICES && i != j && #[trigger] self.slots@[i].active
                && #[trigger] self.slots@[j].active ==> self.slots@[i].born != self.slots@[j].born
    }

    /// A valid pool has one slot for each of the `MAX_VOICES` voices, so a
    /// full pool is one with `active_count(self@) == MAX_VOICES`.
    pub proof fn lemma_len(&self)
        requires
            self.wf(),
        ensures
            self@.len() == MAX_VOICES,
            active_count(self@) <= MAX_VOICES,
            active_count(self@) == MAX_VOICES <==> forall|j: int|
                0 <= j < MAX_VOICES ==> self@[j].active,
    {
        lemma_count_bound(self.slots@);
    }

    /// When all 40 voices sound, a press takes the released voice started
    /// first; with none released, the voice started first.
    pub proof fn lemma_full_pool_victim(&self, i: int)
        requires
            self.wf(),
            active_count(self@) == MAX_VOICES,
            is_victim(self@, i),
        ensures
            0 <= i < MAX_VOICES,
            (exists|j: int| 0 <= j < MAX_VOICES && self@[j].released) ==> {
                &&& self@[i].released
                &&& forall|j: int|
                    0 <= j < MAX_VOICES && self@[j].released ==> self@[i].born <= self@[j].born
            },
            (forall|j: int| 0 <= j < MAX_VOICES ==> !self@[j].released) ==> forall|j: int|
                0 <= j < MAX_VOICES ==> self@[i].born <= self@[j].born,
    {
        self.lemma_len();
    }

    /// All voices silent, nothing served yet.
    pub fn new() -> (p: Self)
        ensures
            p.wf(),
            p.served() == 0,
            active_count(p@) == 0,
            p@ == Seq::new(
                MAX_VOICES as nat,
                |i: int| Slot { active: false, pad: 0, released: false, born: 0 },
            ),
    {
        let mut slots: Vec<Slot> = Vec::new();
        let mut i: usize = 0;
        while i < MAX_VOICES
            invariant
                i <= MAX_VOICES,
                slots@ =~= Seq::new(
                    i as nat,
                    |k: int| Slot { active: false, pad: 0, released: false, born: 0 },
                ),
            decreases MAX_VOICES - i,
        {
            slots.push(Slot { active: false, pad: 0, released: false, born: 0 });
            i += 1;
        }
        proof {
            lemma_count_silent(slots@);
        }
        VoicePool { slots, born: 0 }
    }

    /// The number of presses served so far.
    pub fn born(&self) -> (b: u64)
        ensures
            b == self.served(),
    {
        self.born
    }

    /// What the pool knows of voice `i`.
    pub fn slot(&self, i: usize) -> (s: Slot)
        requires
            self.wf(),
            i < MAX_VOICES,
        ensures
            s == self@[i as int],
            self@.len() == MAX_VOICES,
    {
        self.slots[i]
    }

    /// The slot that a press would take now.
    fn victim(&self) -> (i: usize)
        requires
            self.wf(),
        ensures
            is_victim(self@, i as int),
    {
        let n = self.slots.len();
        let mut i: usize = 0;
        while i < n
            invariant
                n == self.slots@.len(),
                i <= n,
                forall|j: int| 0 <= j < i ==> self.slots@[j].active,
            decreases n - i,
        {
            if !self.slots[i].active {
                return i;
            }
            i += 1;
        }
        // Every voice sounds: the released voice started first, else the voice
        // started first.
        let mut best: usize = n;
        let mut k: usize = 0;
        while k < n
            invariant
                n == self.slots@.len() == MAX_VOICES,
                k <= n,
                best == n || (best < k && self.slots@[best as int].released),
                best == n ==> forall|j: int| 0 <= j < k ==> !self.slots@[j].released,
                best < n ==> forall|j: int|
                    0 <= j < k && self.slots@[j].released ==> self.slots@[best as int].born
                        <= self.slots@[j].born,
                best < n ==> forall|j: int|
                    0 <= j < best && self.slots@[j].released ==> self.slots@[best as int].born
                        < self.slots@[j].born,
            decreases n - k,
        {
            let s = self.slots[k];
            if s.released && (best == n || s.born < self.slots[best].born) {
                best = k;
            }
            k += 1;
        }
        if best < n {
            return best;
        }
        let mut best: usize = 0;
        let mut k: usize = 1;
        while k < n
            invariant
                n == self.slots@.len() == MAX_VOICES,
                1 <= k <= n,
                best < k,
                forall|j: int| 0 <= j < k ==> self.slots@[best as int].born <= self.slots@[j].born,
                forall|j: int| 0 <= j < best ==> self.slots@[best as int].born < self.slots@[j].born,
            decreases n - k,
        {
            if self.slots[k].born < self.slots[best].born {
                best = k;
            }
            k += 1;
        }
        best
    }

    /// A press of `pad`. Out-of-range pads are ignored; otherwise the victim
    /// slot (see `is_victim`) starts a new voice, whose index is returned.
    pub fn note_on(&mut self, pad: usize) -> (r: Option<usize>)
        requires
            old(self).wf(),
            old(self).served() < u64::MAX,
        ensures
            final(self).wf(),
            pad >= PADS ==> r is None && final(self)@ == old(self)@ && final(self).served()
                == old(self).served(),
            pad < PADS ==> {
                &&& r is Some
                &&& is_victim(old(self)@, r->0 as int)
                &&& final(self).served() == old(self).served() + 1
                &&& final(self)@ == old(self)@.update(
                    r->0 as int,
                    started(pad, final(self).served()),
                )
            },
            // at most MAX_VOICES voices: a press adds one while there is room
            pad < PADS ==> active_count(final(self)@) == if active_count(old(self)@)
                < MAX_VOICES {
                active_count(old(self)@) + 1
            } else {
                MAX_VOICES as nat
            },
            // the voice just started is the newest one
            pad < PADS ==> forall|j: int|
                0 <= j < MAX_VOICES && j != r->0 && final(self)@[j].active ==> final(self)@[j].born
                    < final(self)@[r->0 as int].born,
    {
        if pad >= PADS {
            return None;
        }
        let slot = self.victim();
        proof {
            lemma_count_bound(self.slots@);
            lemma_count_update(self.slots@, slot as int, started(pad, (self.born + 1) as u64));
            if active_count(self.slots@) < MAX_VOICES {
                assert(!self.slots@[slot as int].active);
            } else {
                assert(self.slots@[slot as int].active);
            }
        }
        self.born = self.born + 1;
        self.slots.set(slot, Slot { active: true, pad, released: false, born: self.born });
        Some(slot)
    }

    /// A release of `pad`: every sounding, not yet released voice of `pad`
    /// enters its release. `out` receives their indices in increasing order.
    pub fn note_off(&mut self, pad: usize, out: &mut Vec<usize>)
        requires
            old(self).wf(),
        ensures
            final(self).wf(),
            final(self).served() == old(self).served(),
            final(self)@.len() == MAX_VOICES,
            forall|i: int|
                0 <= i < MAX_VOICES ==> #[trigger] final(self)@[i] == if releasable(
                    old(self)@[i],
                    pad,
                ) {
                    Slot { released: true, ..old(self)@[i] }
                } else {
                    old(self)@[i]
                },
            final(out)@ == releasable_below(old(self)@, pad, MAX_VOICES as nat),
            // nothing of `pad` is left to release
            forall|i: int| 0 <= i < MAX_VOICES ==> !releasable(#[trigger] final(self)@[i], pad),
            // a release silences nothing: the sounding voices and their start numbers stay
            forall|i: int|
                0 <= i < MAX_VOICES ==> (#[trigger] final(self)@[i]).active == old(self)@[i].active
                    && final(self)@[i].born == old(self)@[i].born && final(self)@[i].pad
                    == old(self)@[i].pad,
            active_count(final(self)@) == active_count(old(self)@),
    {
        out.clear();
        let ghost before = self.slots@;
        let mut i: usize = 0;
        while i < MAX_VOICES
            invariant
                i <= MAX_VOICES,
                self.slots@.len() == MAX_VOICES,
                self.born == old(self).born,
                before == old(self).slots@,
                old(self).wf(),
                forall|k: int|
                    0 <= k < MAX_VOICES ==> #[trigger] self.slots@[k] == if k < i && releasable(
                        before[k],
                        pad,
                    ) {
                        Slot { released: true, ..before[k] }
                    } else {
                        before[k]
                    },
                out@ == releasable_below(before, pad, i as nat),
            decreases MAX_VOICES - i,
        {
            let s = self.slots[i];
            if s.active && s.pad == pad && !s.released {
                self.slots.set(i, Slot { released: true, ..s });
                out.push(i);
            }
            i += 1;
        }
        proof {
            assert forall|a: int, b: int|
                0 <= a < MAX_VOICES && 0 <= b < MAX_VOICES && a != b
                    && #[trigger] self.slots@[a].active && #[trigger] self.slots@[b].active implies
                self.slots@[a].born != self.slots@[b].born by {
                assert(before[a].active && before[b].active);
            }
            assert forall|k: int| 0 <= k < MAX_VOICES && #[trigger] self.slots@[k].active implies 1
                <= self.slots@[k].born <= self.born && self.slots@[k].pad < PADS by {
                assert(before[k].active);
            }
            lemma_count_same_activity(self.slots@, before);
        }
    }

    /// Voice `i` has fallen silent at the end of its release.
    pub fn finish(&mut self, i: usize)
        requires
            old(self).wf(),
            i < MAX_VOICES,
        ensures
            final(self).wf(),
            final(self).served() == old(self).served(),
            final(self)@ == old(self)@.update(i as int, Slot { active: false, ..old(self)@[i as int] }),
    {
        let s = self.slots[i];
        self.slots.set(i, Slot { active: false, ..s });
        proof {
            let before = old(self).slots@;
            assert forall|a: int, b: int|
                0 <= a < MAX_VOICES && 0 <= b < MAX_VOICES && a != b
                    && #[trigger] self.slots@[a].active && #[trigger] self.slots@[b].active implies
                self.slots@[a].born != self.slots@[b].born by {
                assert(before[a].active && before[b].active);
            }
            assert forall|k: int| 0 <= k < MAX_VOICES && #[trigger] self.slots@[k].active implies 1
                <= self.slots@[k].born <= self.born && self.slots@[k].pad < PADS by {
                assert(before[k].active);
            }
        }
    }

    /// The number of sounding voices.
    pub fn voice_count(&self) -> (n: usize)
        requires
            self.wf(),
        ensures
            n == active_count(self@),
            n <= MAX_VOICES,
            self@.len() == MAX_VOICES,
    {
        let mut n: usize = 0;
        let mut i: usize = 0;
        while i < MAX_VOICES
            invariant
                i <= MAX_VOICES,
                self.slots@.len() == MAX_VOICES,
                n == active_count(self.slots@.take(i as int)),
                n <= i,
            decreases MAX_VOICES - i,
        {
            assert(self.slots@.take(i + 1).drop_last() =~= self.slots@.take(i as int));
            if self.slots[i].active {
                n += 1;
            }
            i += 1;
        }
        assert(self.slots@.take(MAX_VOICES as int) =~= self.slots@);
        n
    }

    /// The sounding voices in the order they were started (oldest first),
    /// written to `out`.
    pub fn order(&self, out: &mut Vec<usize>)
        requires
            self.wf(),
        ensures
            forall|k: int|
                0 <= k < final(out)@.len() ==> #[trigger] final(out)@[k] < MAX_VOICES
                    && self@[final(out)@[k] as int].active,
            forall|j: int|
                0 <= j < MAX_VOICES && #[trigger] self@[j].active ==> final(out)@.contains(j as usize),
            forall|a: int, b: int|
                0 <= a < b < final(out)@.len() ==> self@[#[trigger] final(out)@[a] as int].born
                    < self@[#[trigger] final(out)@[b] as int].born,
            final(out)@.len() == active_count(self@),
            self@.len() == MAX_VOICES,
    {
        out.clear();
        let mut i: usize = 0;
        while i < MAX_VOICES
            invariant
                i <= MAX_VOICES,
                self.wf(),
                forall|k: int|
                    0 <= k < out@.len() ==> #[trigger] out@[k] < i && self@[out@[k] as int].active,
                forall|j: int| 0 <= j < i && #[trigger] self@[j].active ==> out@.contains(j as usize),
                forall|a: int, b: int|
                    0 <= a < b < out@.len() ==> self@[#[trigger] out@[a] as int].born
                        < self@[#[trigger] out@[b] as int].born,
                out@.len() == active_count(self.slots@.take(i as int)),
            decreases MAX_VOICES - i,
        {
            assert(self.slots@.take(i + 1).drop_last() =~= self.slots@.take(i as int));
            if self.slots[i].active {
                let b = self.slots[i].born;
                let mut pos: usize = 0;
                while pos < out.len() && self.slots[out[pos]].born < b
                    invariant
                        i < MAX_VOICES,
                        self.wf(),
                        pos <= out@.len(),
                        b == self@[i as int].born,
                        forall|k: int|
                            0 <= k < out@.len() ==> #[trigger] out@[k] < i && self@[out@[k] as int].active,
                        forall|k: int| 0 <= k < pos ==> self@[#[trigger] out@[k] as int].born < b,
                    decreases out@.len() - pos,
                {
                    pos += 1;
                }
                let ghost prev = out@;
                proof {
                    assert forall|k: int| pos <= k < prev.len() implies b < self@[
                        #[trigger] prev[k] as int].born by {
                        assert(prev[k] != i);
                        assert(self@[prev[k] as int].born != b);
                        if k > pos {
                            assert(self@[prev[pos as int] as int].born < self@[prev[k] as int].born);
                        }
                    }
                }
                out.insert(pos, i);
                proof {
                    assert(out@ =~= prev.insert(pos as int, i));
                    assert forall|j: int| 0 <= j < i + 1 && #[trigger] self@[j].active implies out@.contains(
                        j as usize,
                    ) by {
                        if j < i {
                            let k = choose|k: int| 0 <= k < prev.len() && prev[k] == j as usize;
                            if k < pos {
                                assert(out@[k] == j as usize);
                            } else {
                                assert(out@[k + 1] == j as usize);
                            }
                        } else {
                            assert(out@[pos as int] == i);
                        }
                    }
                }
            }
            i += 1;
        }
        assert(self.slots@.take(MAX_VOICES as int) =~= self.slots@);
    }
}

} // verus!
