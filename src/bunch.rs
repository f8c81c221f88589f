//! The arena: lanes of doubling capacity, each allocated once and in full.
use crate::lanes::{
    lane_capacity, lane_of, lane_offset, lane_size, lane_start, lemma_decompose_round_trip,
    lemma_lane_of_unique, lemma_lane_start_increases, lemma_lane_start_step, offset_of,
};
use vstd::prelude::*;

verus! {

/// The most lanes an arena ever holds; enough for any `usize` index.
pub const MAX_LANES: usize = 64;

/// An append-only arena. Lane `k` is created with room for `2^(k+1)`
/// elements and filled to that capacity before lane `k + 1` is created, so
/// pushing never moves an element that is already stored.
pub struct Bunch<T> {
    lanes: Vec<Vec<T>>,
    len: usize,
}

/// The number of elements lane `k` holds when the arena holds `len` elements.
pub open spec fn lane_fill(k: nat, len: nat) -> nat {
    if len <= lane_start(k) {
        0
    } else if len - lane_start(k) < lane_capacity(k) {
        (len - lane_start(k)) as nat
    } else {
        lane_capacity(k)
    }
}

impl<T> View for Bunch<T> {
    type V = Seq<T>;

    /// The elements in the order they were pushed.
    closed spec fn view(&self) -> Seq<T> {
        Seq::new(
            self.len as nat,
            |i: int| self.lanes@[lane_of(i as nat) as int]@[offset_of(i as nat) as int],
        )
    }
}

impl<T> Bunch<T> {
    /// The lanes in use are exactly those that start below the length, and
    /// each holds as many elements as the length gives it.
    pub closed spec fn wf(&self) -> bool {
        &&& self.lanes@.len() <= MAX_LANES
        &&& lane_start(self.lanes@.len()) >= self.len
        &&& self.lanes@.len() > 0 ==> lane_start((self.lanes@.len() - 1) as nat) < self.len
        &&& forall|k: int|
            0 <= k < self.lanes@.len() ==> #[trigger] self.lanes@[k]@.len() == lane_fill(
                k as nat,
                self.len as nat,
            )
    }

    proof fn lemma_slot(&self, i: nat)
        requires
            self.wf(),
            i < self.len,
        ensures
            lane_of(i) < self.lanes@.len(),
            offset_of(i) < self.lanes@[lane_of(i) as int]@.len(),
    {
        lemma_decompose_round_trip(i);
        let k = lane_of(i);
        if k > self.lanes@.len() {
            lemma_lane_start_increases(self.lanes@.len(), k);
        }
        lemma_lane_start_step(k);
    }

    /// Creates an empty arena.
    pub fn new() -> (r: Self)
        ensures
            r.wf(),
            r@ == Seq::<T>::empty(),
    {
        proof {
            lemma_lane_start_step(0);
        }
        let r = Bunch { lanes: Vec::with_capacity(MAX_LANES), len: 0 };
        assert(r@ =~= Seq::<T>::empty());
        r
    }

    /// The number of elements pushed so far.
    pub fn len(&self) -> (r: usize)
        requires
            self.wf(),
        ensures
            r == self@.len(),
    {
        self.len
    }

    /// Where the next element goes: lane `lane_of(len)` is the last lane in
    /// use, or the first lane not yet created when `len` is where it starts.
    proof fn lemma_tail(&self)
        requires
            self.wf(),
            self.len < usize::MAX - 1,
        ensures
            offset_of(self.len as nat) == 0 ==> self.lanes@.len() == lane_of(self.len as nat),
            offset_of(self.len as nat) != 0 ==> self.lanes@.len() == lane_of(self.len as nat) + 1,
            lane_capacity(lane_of(self.len as nat)) <= usize::MAX,
            lane_of(self.len as nat) < MAX_LANES,
    {
        let len = self.len as nat;
        let lane = lane_of(len);
        let n = self.lanes@.len();
        lemma_decompose_round_trip(len);
        lemma_lane_start_step(lane);
        if n < lane {
            lemma_lane_start_increases(n, lane);
        }
        if n > lane + 1 {
            if n - 1 > lane + 1 {
                lemma_lane_start_increases(lane + 1, (n - 1) as nat);
            }
            assert(self.lanes@[n - 1]@.len() == lane_fill((n - 1) as nat, len));
        }
        if offset_of(len) == 0 && n == lane + 1 {
            assert(self.lanes@[lane as int]@.len() == lane_fill(lane, len));
        }
        if offset_of(len) != 0 && n == lane {
            assert(lane_start(lane) < len);
        }
        vstd::arithmetic::power2::lemma2_to64();
        if lane >= MAX_LANES {
            vstd::arithmetic::power2::lemma_pow2_strictly_increases(64, lane + 1);
        }
    }

    /// Appends `t` and returns a reference to it. When the last lane is full,
    /// a new lane is first allocated with room for its whole capacity.
    pub fn push(&mut self, t: T) -> (r: &T)
        requires
            old(self).wf(),
            old(self)@.len() < usize::MAX - 1,
        ensures
            final(self).wf(),
            final(self)@ == old(self)@.push(t),
            *r == t,
    {
        let (lane, offset) = lane_offset(self.len);
        proof {
            self.lemma_tail();
        }
        if offset == 0 {
            let size = lane_size(lane);
            self.lanes.push(Vec::with_capacity(size));
        }
        proof {
            assert(self.lanes@[lane as int]@.len() == offset);
        }
        self.lanes[lane].push(t);
        self.len = self.len + 1;
        proof {
            self.lemma_after_push(*old(self), t, lane as nat);
        }
        &self.lanes[lane][offset]
    }

    proof fn lemma_after_push(&self, before: Self, t: T, lane: nat)
        requires
            before.wf(),
            before.len < usize::MAX - 1,
            lane == lane_of(before.len as nat),
            lane < MAX_LANES,
            self.len == before.len + 1,
            self.lanes@.len() == lane + 1,
            offset_of(before.len as nat) == 0 ==> before.lanes@.len() == lane,
            offset_of(before.len as nat) != 0 ==> before.lanes@.len() == lane + 1,
            forall|k: int| 0 <= k < lane ==> self.lanes@[k] == before.lanes@[k],
            self.lanes@[lane as int]@ == (if offset_of(before.len as nat) == 0 {
                Seq::<T>::empty()
            } else {
                before.lanes@[lane as int]@
            }).push(t),
        ensures
            self.wf(),
            self@ == before@.push(t),
    {
        let len = before.len as nat;
        lemma_decompose_round_trip(len);
        lemma_lane_start_step(lane);
        assert forall|k: int| 0 <= k < self.lanes@.len() implies #[trigger] self.lanes@[k]@.len() == lane_fill(k as nat, self.len as nat) by {
            if k < lane {
                lemma_lane_start_increases(k as nat, lane);
                lemma_lane_start_step(k as nat);
                assert(before.lanes@[k]@.len() == lane_fill(k as nat, len));
            } else if offset_of(len) != 0 {
                assert(before.lanes@[k]@.len() == lane_fill(k as nat, len));
            }
        }
        assert forall|i: int| 0 <= i < self.len implies #[trigger] self@[i] == before@.push(t)[i] by {
            lemma_decompose_round_trip(i as nat);
            let k = lane_of(i as nat);
            if k > lane {
                lemma_lane_start_increases(lane, k);
            }
            if i < len {
                before.lemma_slot(i as nat);
            } else {
                lemma_lane_of_unique(i as nat, lane);
            }
        }
        assert(self@ =~= before@.push(t));
    }

    /// The element at logical index `idx`.
    pub fn get(&self, idx: usize) -> (r: &T)
        requires
            self.wf(),
            idx < self@.len(),
        ensures
            *r == self@[idx as int],
    {
        let (lane, offset) = lane_offset(idx);
        proof {
            self.lemma_slot(idx as nat);
        }
        &self.lanes[lane][offset]
    }
}

impl<T> Default for Bunch<T> {
    fn default() -> (r: Self)
        ensures
            r.wf(),
            r@ == Seq::<T>::empty(),
    {
        Self::new()
    }
}

/// Sequential pushes: when `views[j + 1]` is the arena's contents after
/// pushing `values[j]` onto `views[j]`, starting from an empty arena, reading
/// index `i` at the end gives `values[i]`, for every `i` below the count.
pub proof fn lemma_pushes_in_order<T>(views: Seq<Seq<T>>, values: Seq<T>)
    requires
        views.len() == values.len() + 1,
        views[0] == Seq::<T>::empty(),
        forall|j: int| 0 <= j < values.len() ==> #[trigger] views[j + 1] == views[j].push(values[j]),
    ensures
        views.last() == values,
        forall|i: int| 0 <= i < values.len() ==> views.last()[i] == values[i],
    decreases values.len(),
{
    if values.len() > 0 {
        let m = values.len() - 1;
        let shorter = views.take(views.len() - 1);
        assert(views[m + 1] == views[m].push(values[m]));
        lemma_pushes_in_order(shorter, values.take(m));
        assert(views.last() =~= values);
    } else {
        assert(views.last() =~= values);
    }
}

/// Later pushes leave earlier elements alone: along any run of pushes, the
/// element at index `i` after push `j` is the same after every later push `m`.
pub proof fn lemma_earlier_elements_stay<T>(views: Seq<Seq<T>>, values: Seq<T>, j: int, m: int, i: int)
    requires
        views.len() == values.len() + 1,
        forall|k: int| 0 <= k < values.len() ==> #[trigger] views[k + 1] == views[k].push(values[k]),
        0 <= j <= m < views.len(),
        0 <= i < views[j].len(),
    ensures
        i < views[m].len(),
        views[m][i] == views[j][i],
    decreases m - j,
{
    if j < m {
        let k = m - 1;
        assert(views[k + 1] == views[k].push(values[k]));
        lemma_earlier_elements_stay(views, values, j, m - 1, i);
    }
}

} // verus!
