//! A voice's bookkeeping: which sound layers a press created, in which order
//! (the order in which their random wandering is advanced), within the caps of
//! each kind; and the arpeggiator's queue of scheduled pitch changes. A voice
//! books the changes of the next 100 ms ahead; at most 16 wait at a time, and
//! a change booked while the queue is full is dropped.

use vstd::prelude::*;

verus! {

/// The most oscillators a voice holds.
pub const MAX_OSC: usize = 8;
/// The most noise layers a voice holds.
pub const MAX_NOISE: usize = 2;
/// The most plucked-string (Karplus) layers a voice holds.
pub const MAX_KARPLUS: usize = 2;
/// Every layer a voice can hold: the caps of all kinds, and one grain cloud.
pub const MAX_LAYERS: usize = MAX_OSC + MAX_NOISE + MAX_KARPLUS + 1;

/// A kind of sound layer.
#[derive(Clone, Copy, PartialEq, Eq, Structural, Debug, Default)]
pub enum Kind {
    #[default]
    Osc,
    Noise,
    Karplus,
    Grain,
}

/// How many layers of `k` a voice holds at most.
pub open spec fn cap(k: Kind) -> nat {
    match k {
        Kind::Osc => MAX_OSC as nat,
        Kind::Noise => MAX_NOISE as nat,
        Kind::Karplus => MAX_KARPLUS as nat,
        Kind::Grain => 1,
    }
}

/// The number of layers of kind `k` in `s`.
pub open spec fn count(s: Seq<(Kind, usize)>, k: Kind) -> nat
    decreases s.len(),
{
    if s.len() == 0 {
        0
    } else {
        count(s.drop_last(), k) + if s.last().0 == k {
            1nat
        } else {
            0nat
        }
    }
}

proof fn lemma_count_sum(s: Seq<(Kind, usize)>)
    ensures
        count(s, Kind::Osc) + count(s, Kind::Noise) + count(s, Kind::Karplus) + count(s, Kind::Grain)
            == s.len(),
    decreases s.len(),
{
    if s.len() > 0 {
        lemma_count_sum(s.drop_last());
    }
}

/// The layers of a voice in the order they were created. Each entry is the
/// layer's kind and its index among the layers of that kind.
#[derive(Clone, Copy, Debug)]
pub struct Layers {
    order: [(Kind, usize); MAX_LAYERS],
    n: usize,
    counts: [usize; 4],
}

/// The slot of kind `k` in the per-kind counters.
pub open spec fn kind_index(k: Kind) -> int {
    match k {
        Kind::Osc => 0,
        Kind::Noise => 1,
        Kind::Karplus => 2,
        Kind::Grain => 3,
    }
}

impl View for Layers {
    type V = Seq<(Kind, usize)>;

    closed spec fn view(&self) -> Seq<(Kind, usize)> {
        self.order@.take(self.n as int)
    }
}

impl Layers {
    /// Entries numbered per kind in creation order; no kind over its cap.
    pub closed spec fn wf(&self) -> bool {
        &&& self.n <= MAX_LAYERS
        &&& forall|k: Kind| #[trigger] self.counts@[kind_index(k)] == count(self@, k)
        &&& forall|k: Kind| count(self@, k) <= #[trigger] cap(k)
        &&& forall|j: int|
            0 <= j < self@.len() ==> (#[trigger] self@[j]).1 == count(self@.take(j), self@[j].0)
    }

    /// No layers.
    pub fn new() -> (l: Self)
        ensures
            l.wf(),
            l@ == Seq::<(Kind, usize)>::empty(),
    {
        let l = Layers { order: [(Kind::Osc, 0); MAX_LAYERS], n: 0, counts: [0; 4] };
        assert(l@ =~= Seq::<(Kind, usize)>::empty());
        l
    }

    /// Forgets every layer.
    pub fn clear(&mut self)
        requires
            old(self).wf(),
        ensures
            final(self).wf(),
            final(self)@ == Seq::<(Kind, usize)>::empty(),
    {
        self.n = 0;
        self.counts = [0; 4];
        assert(self@ =~= Seq::<(Kind, usize)>::empty());
    }

    /// Adds a layer of kind `k` if the voice has room for one: its index
    /// among the layers of that kind; `None` when that kind is full.
    pub fn add(&mut self, k: Kind) -> (r: Option<usize>)
        requires
            old(self).wf(),
        ensures
            final(self).wf(),
            count(old(self)@, k) < cap(k) ==> r == Some(count(old(self)@, k) as usize)
                && final(self)@ == old(self)@.push((k, count(old(self)@, k) as usize)),
            count(old(self)@, k) >= cap(k) ==> r is None && final(self)@ == old(self)@,
    {
        let ki: usize = match k {
            Kind::Osc => 0,
            Kind::Noise => 1,
            Kind::Karplus => 2,
            Kind::Grain => 3,
        };
        let limit: usize = match k {
            Kind::Osc => MAX_OSC,
            Kind::Noise => MAX_NOISE,
            Kind::Karplus => MAX_KARPLUS,
            Kind::Grain => 1,
        };
        assert(ki as int == kind_index(k));
        assert(self.counts@[kind_index(k)] == count(self@, k));
        let c = self.counts[ki];
        if c >= limit {
            return None;
        }
        let ghost before = self@;
        proof {
            lemma_count_sum(before);
            assert(self.counts@[kind_index(Kind::Osc)] == count(before, Kind::Osc));
            assert(self.counts@[kind_index(Kind::Noise)] == count(before, Kind::Noise));
            assert(self.counts@[kind_index(Kind::Karplus)] == count(before, Kind::Karplus));
            assert(self.counts@[kind_index(Kind::Grain)] == count(before, Kind::Grain));
            assert(count(before, Kind::Osc) <= cap(Kind::Osc));
            assert(count(before, Kind::Noise) <= cap(Kind::Noise));
            assert(count(before, Kind::Karplus) <= cap(Kind::Karplus));
            assert(count(before, Kind::Grain) <= cap(Kind::Grain));
            assert(self.n < MAX_LAYERS);
        }
        self.order[self.n] = (k, c);
        self.n = self.n + 1;
        self.counts[ki] = c + 1;
        proof {
            let after = self@;
            assert(after =~= before.push((k, c)));
            assert(after.drop_last() =~= before);
            assert forall|j: int| 0 <= j < after.len() implies (#[trigger] after[j]).1 == count(
                after.take(j),
                after[j].0,
            ) by {
                if j < before.len() {
                    assert(after.take(j) =~= before.take(j));
                } else {
                    assert(after.take(j) =~= before);
                }
            }
            assert forall|q: Kind| #[trigger] self.counts@[kind_index(q)] == count(after, q) by {
                if q != k {
                    assert(kind_index(q) != ki);
                }
            }
        }
        Some(c)
    }

    /// The number of layers.
    pub fn len(&self) -> (n: usize)
        requires
            self.wf(),
        ensures
            n == self@.len(),
            n <= MAX_LAYERS,
    {
        self.n
    }

    /// The `j`-th layer created.
    pub fn get(&self, j: usize) -> (e: (Kind, usize))
        requires
            self.wf(),
            j < self@.len(),
        ensures
            e == self@[j as int],
    {
        self.order[j]
    }

    /// The number of layers of kind `k`.
    pub fn count_of(&self, k: Kind) -> (c: usize)
        requires
            self.wf(),
        ensures
            c == count(self@, k),
            c <= cap(k),
    {
        let ki: usize = match k {
            Kind::Osc => 0,
            Kind::Noise => 1,
            Kind::Karplus => 2,
            Kind::Grain => 3,
        };
        assert(ki as int == kind_index(k));
        assert(self.counts@[kind_index(k)] == count(self@, k));
        assert(count(self@, k) <= cap(k));
        self.counts[ki]
    }
}

/// The most pitch changes a voice keeps booked.
pub const MAX_ARP_EVENTS: usize = 16;

/// A bounded first-in first-out queue of booked events.
#[derive(Clone, Copy, Debug)]
pub struct EventQueue<T> {
    events: [T; MAX_ARP_EVENTS],
    n: usize,
}

impl<T: Copy> View for EventQueue<T> {
    type V = Seq<T>;

    /// The booked events, the one due first first.
    closed spec fn view(&self) -> Seq<T> {
        self.events@.take(self.n as int)
    }
}

impl<T: Copy> EventQueue<T> {
    /// No more events than places.
    pub closed spec fn wf(&self) -> bool {
        self.n <= MAX_ARP_EVENTS
    }

    /// An empty queue; `fill` only occupies the unused places.
    pub fn new(fill: T) -> (q: Self)
        ensures
            q.wf(),
            q@ == Seq::<T>::empty(),
    {
        let q = EventQueue { events: [fill; MAX_ARP_EVENTS], n: 0 };
        assert(q@ =~= Seq::<T>::empty());
        q
    }

    /// The number of booked events.
    pub fn len(&self) -> (n: usize)
        requires
            self.wf(),
        ensures
            n == self@.len(),
            n <= MAX_ARP_EVENTS,
    {
        self.n
    }

    /// Forgets every booked event.
    pub fn clear(&mut self)
        requires
            old(self).wf(),
        ensures
            final(self).wf(),
            final(self)@ == Seq::<T>::empty(),
    {
        self.n = 0;
        assert(self@ =~= Seq::<T>::empty());
    }

    /// Books `x` after the others. A full queue drops it (returns `false`).
    pub fn push(&mut self, x: T) -> (kept: bool)
        requires
            old(self).wf(),
        ensures
            final(self).wf(),
            kept == (old(self)@.len() < MAX_ARP_EVENTS),
            kept ==> final(self)@ == old(self)@.push(x),
            !kept ==> final(self)@ == old(self)@,
    {
        if self.n < MAX_ARP_EVENTS {
            let ghost before = self@;
            self.events[self.n] = x;
            self.n = self.n + 1;
            assert(self@ =~= before.push(x));
            true
        } else {
            false
        }
    }

    /// The event due first, if any.
    pub fn front(&self) -> (r: Option<T>)
        requires
            self.wf(),
        ensures
            self@.len() == 0 ==> r is None,
            self@.len() > 0 ==> r == Some(self@[0]),
    {
        if self.n > 0 {
            Some(self.events[0])
        } else {
            None
        }
    }

    /// Removes the event due first (nothing when empty).
    pub fn pop_front(&mut self)
        requires
            old(self).wf(),
        ensures
            final(self).wf(),
            old(self)@.len() == 0 ==> final(self)@ == old(self)@,
            old(self)@.len() > 0 ==> final(self)@ == old(self)@.drop_first(),
    {
        if self.n == 0 {
            return;
        }
        let ghost before = self@;
        let n = self.n;
        let mut k: usize = 1;
        while k < n
            invariant
                1 <= k <= n <= MAX_ARP_EVENTS,
                before.len() == n,
                forall|j: int| 0 <= j < k - 1 ==> #[trigger] self.events@[j] == before[j + 1],
                forall|j: int| k <= j < n ==> #[trigger] self.events@[j] == before[j],
            decreases n - k,
        {
            let x = self.events[k];
            self.events[k - 1] = x;
            k += 1;
        }
        self.n = n - 1;
        assert(self@ =~= before.drop_first());
    }
}

} // verus!
