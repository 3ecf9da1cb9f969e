//! The record of where the tail has been.

use std::collections::HashSet;
use vstd::prelude::*;
use crate::position::{Point, Pos};

verus! {

broadcast use vstd::std_specs::hash::group_hash_axioms;

/// The number under which a point is kept: the two coordinates, each shifted
/// to be non-negative, side by side.
pub open spec fn cell_key(p: Point) -> int {
    (p.x + 0x8000_0000) * 0x1_0000_0000 + (p.y + 0x8000_0000)
}

/// Whether some observation of `log` is kept under the number `k`.
pub open spec fn keyed(log: Seq<Point>, k: int) -> bool {
    exists|i: int| 0 <= i < log.len() && #[trigger] cell_key(log[i]) == k
}

/// Representable points are kept under different numbers.
pub proof fn lemma_cell_key_injective(p: Point, q: Point)
    requires
        p.representable(),
        q.representable(),
        cell_key(p) == cell_key(q),
    ensures
        p == q,
{
}

/// The places the tail has been observed at, from the origin on.
///
/// The model is the sequence of all observations in the order they were made,
/// repeats included; the view is the set of places among them.
pub struct TailRecorder {
    cells: HashSet<u64>,
    log: Ghost<Seq<Point>>,
}

impl View for TailRecorder {
    type V = Set<Point>;

    /// The set of distinct places observed.
    open spec fn view(&self) -> Set<Point> {
        self.observations().to_set()
    }
}

impl TailRecorder {
    /// Every observation made so far, oldest first.
    pub closed spec fn observations(&self) -> Seq<Point> {
        self.log@
    }

    /// The recorder's invariant: the first observation is the origin, every
    /// observation is representable, and the table holds exactly the numbers
    /// of the observed places.
    pub closed spec fn wf(&self) -> bool {
        &&& self.log@.len() >= 1
        &&& self.log@[0] == Point::origin()
        &&& forall|i: int| 0 <= i < self.log@.len() ==> (#[trigger] self.log@[i]).representable()
        &&& self.cells@.finite()
        &&& forall|k: u64| #[trigger] self.cells@.contains(k) <==> keyed(self.log@, k as int)
        &&& self.cells@.len() == self.log@.to_set().len()
    }

    /// The origin is always among the places recorded, and it is the first
    /// observation.
    pub proof fn lemma_origin_recorded(self)
        requires
            self.wf(),
        ensures
            self.observations().len() >= 1,
            self.observations()[0] == Point::origin(),
            self@.contains(Point::origin()),
            self@.finite(),
    {
        assert(self.log@.contains(self.log@[0]));
        vstd::seq_lib::seq_to_set_is_finite(self.log@);
    }

    /// A recorder that has seen the tail at the origin and nowhere else.
    pub fn new() -> (recorder: TailRecorder)
        ensures
            recorder.wf(),
            recorder.observations() == Seq::<Point>::empty().push(Point::origin()),
            recorder@ == Set::<Point>::empty().insert(Point::origin()),
    {
        let mut cells: HashSet<u64> = HashSet::new();
        let start = Pos { x: 0, y: 0 };
        cells.insert(key_of(start));
        let ghost first = Seq::<Point>::empty().push(Point::origin());
        let recorder = TailRecorder { cells, log: Ghost(first) };
        proof {
            let log = recorder.log@;
            assert(log[0] == Point::origin());
            assert forall|k: u64| recorder.cells@.contains(k) <==> keyed(log, k as int) by {
                if recorder.cells@.contains(k) {
                    assert(cell_key(log[0]) == k);
                }
            }
            assert(log.to_set() =~= Set::<Point>::empty().insert(Point::origin())) by {
                assert forall|p: Point| log.to_set().contains(p) implies p == Point::origin() by {
                    let i = choose|i: int| 0 <= i < log.len() && log[i] == p;
                }
                assert(log.contains(log[0]));
            }
        }
        recorder
    }

    /// Adds one observation of the tail. A place seen before stays in the set
    /// once.
    pub fn record(&mut self, pos: Pos)
        requires
            old(self).wf(),
        ensures
            final(self).wf(),
            final(self).observations() == old(self).observations().push(pos@),
            final(self)@ == old(self)@.insert(pos@),
            old(self)@.subset_of(final(self)@),
            final(self)@.len() >= old(self)@.len(),
    {
        let ghost before = self.log@;
        let key = key_of(pos);
        let fresh = self.cells.insert(key);
        self.log = Ghost(before.push(pos@));
        proof {
            let after = self.log@;
            before.lemma_push_to_set_commute(pos@);
            vstd::seq_lib::seq_to_set_is_finite(before);
            assert(cell_key(after[before.len() as int]) == key);
            assert forall|k: u64| self.cells@.contains(k) <==> keyed(after, k as int) by {
                if keyed(before, k as int) {
                    let i = choose|i: int| 0 <= i < before.len() && cell_key(before[i]) == k;
                    assert(cell_key(after[i]) == k);
                }
                if keyed(after, k as int) && k != key {
                    let i = choose|i: int| 0 <= i < after.len() && cell_key(after[i]) == k;
                    assert(cell_key(before[i]) == k);
                }
            }
            if fresh {
                if before.to_set().contains(pos@) {
                    let i = choose|i: int| 0 <= i < before.len() && before[i] == pos@;
                    assert(cell_key(before[i]) == key);
                    assert(keyed(before, key as int));
                }
            } else {
                assert(old(self).cells@.contains(key));
                let i = choose|i: int| 0 <= i < before.len() && cell_key(before[i]) == key;
                lemma_cell_key_injective(before[i], pos@);
                assert(before.contains(pos@));
            }
        }
    }

    /// The number of distinct places the tail has been observed at.
    pub fn count(&self) -> (n: usize)
        requires
            self.wf(),
        ensures
            n == self@.len(),
    {
        self.cells.len()
    }

    /// Tells whether the tail has been observed at `pos`.
    pub fn contains(&self, pos: Pos) -> (seen: bool)
        requires
            self.wf(),
        ensures
            seen == self@.contains(pos@),
    {
        let key = key_of(pos);
        let seen = self.cells.contains(&key);
        proof {
            let log = self.log@;
            assert(seen == self.cells@.contains(key));
            if seen {
                let i = choose|i: int| 0 <= i < log.len() && cell_key(log[i]) == key;
                lemma_cell_key_injective(log[i], pos@);
                assert(log.contains(pos@));
            }
            if log.to_set().contains(pos@) {
                let i = choose|i: int| 0 <= i < log.len() && log[i] == pos@;
                assert(cell_key(log[i]) == key);
            }
        }
        seen
    }
}

/// The number under which `pos` is kept.
fn key_of(pos: Pos) -> (key: u64)
    ensures
        key == cell_key(pos@),
{
    let column: u64 = (pos.x as i64 + 0x8000_0000) as u64;
    let row: u64 = (pos.y as i64 + 0x8000_0000) as u64;
    column * 0x1_0000_0000 + row
}

} // verus!
