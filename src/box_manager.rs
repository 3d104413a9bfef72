//! Registration of boxes and their deduplicated FIFO run queue.
use vstd::prelude::*;
use std::collections::{HashSet, VecDeque};
use crate::graph::{BoxId, ChangeSet, MethodCallBox};

verus! {

broadcast use vstd::std_specs::vec::group_vec_axioms, vstd::std_specs::hash::group_hash_axioms;

/// Holds every box by id and the queue of boxes waiting to fire.
pub struct BoxManager {
    /// Slot `i` holds the box with id `i`, or nothing while it is detached.
    pub boxes: Vec<Option<MethodCallBox>>,
    pub run_queue: VecDeque<BoxId>,
    pub run_queue_set: HashSet<usize>,
}

/// The number of occupied slots.
pub open spec fn count_boxes(s: Seq<Option<MethodCallBox>>) -> nat
    decreases s.len(),
{
    if s.len() == 0 {
        0
    } else {
        count_boxes(s.drop_last()) + if s.last() is Some {
            1nat
        } else {
            0nat
        }
    }
}

impl Default for BoxManager {
    fn default() -> (r: BoxManager)
        ensures
            r.wf(),
            r.boxes@.len() == 0,
            r.run_queue@.len() == 0,
    {
        BoxManager::new()
    }
}

impl BoxManager {
    /// The ids in the run queue.
    pub open spec fn queued(&self) -> Seq<BoxId> {
        self.run_queue@
    }

    pub open spec fn wf(&self) -> bool {
        &&& self.run_queue@.no_duplicates()
        &&& forall|x: usize| #[trigger] self.run_queue_set@.contains(x) <==> self.run_queue@.contains(BoxId(x))
    }

    pub open spec fn has_box(&self, id: BoxId) -> bool {
        id.0 < self.boxes@.len() && self.boxes@[id.0 as int] is Some
    }

    pub open spec fn box_at(&self, id: BoxId) -> MethodCallBox {
        self.boxes@[id.0 as int]->Some_0
    }

    pub fn new() -> (r: BoxManager)
        ensures
            r.wf(),
            r.boxes@.len() == 0,
            r.run_queue@.len() == 0,
    {
        BoxManager { boxes: Vec::new(), run_queue: VecDeque::new(), run_queue_set: HashSet::new() }
    }

    /// Stores a box under the next free id, which it returns.
    pub fn register(&mut self, box_instance: MethodCallBox) -> (id: BoxId)
        requires
            old(self).boxes@.len() < usize::MAX,
        ensures
            id.0 == old(self).boxes@.len(),
            final(self).boxes@ == old(self).boxes@.push(Some(box_instance)),
            final(self).run_queue == old(self).run_queue,
            final(self).run_queue_set == old(self).run_queue_set,
    {
        let id = BoxId(self.boxes.len());
        self.boxes.push(Some(box_instance));
        id
    }

    pub fn get(&self, id: BoxId) -> (r: Option<&MethodCallBox>)
        ensures
            match r {
                Some(b) => self.has_box(id) && *b == self.box_at(id),
                None => !self.has_box(id),
            },
    {
        if id.0 < self.boxes.len() {
            match &self.boxes[id.0] {
                Some(b) => Some(b),
                None => None,
            }
        } else {
            None
        }
    }

    /// Detaches a box and hands it out.
    pub fn remove(&mut self, id: BoxId) -> (r: Option<MethodCallBox>)
        ensures
            match r {
                Some(b) => old(self).has_box(id) && b == old(self).box_at(id) && final(self).boxes@
                    == old(self).boxes@.update(id.0 as int, None),
                None => !old(self).has_box(id) && final(self).boxes@ == old(self).boxes@,
            },
            final(self).run_queue == old(self).run_queue,
            final(self).run_queue_set == old(self).run_queue_set,
    {
        if id.0 < self.boxes.len() {
            let mut slot: Option<MethodCallBox> = None;
            std::mem::swap(&mut slot, &mut self.boxes[id.0]);
            slot
        } else {
            None
        }
    }

    /// Puts a box back under `id`, growing the table if needed.
    pub fn insert(&mut self, id: BoxId, box_instance: MethodCallBox)
        ensures
            final(self).boxes@.len() == if id.0 < old(self).boxes@.len() {
                old(self).boxes@.len() as int
            } else {
                id.0 + 1
            },
            final(self).boxes@[id.0 as int] == Some(box_instance),
            forall|i: int|
                0 <= i < final(self).boxes@.len() && i != id.0 ==> #[trigger] final(self).boxes@[i] == if i
                    < old(self).boxes@.len() {
                    old(self).boxes@[i]
                } else {
                    None
                },
            final(self).run_queue == old(self).run_queue,
            final(self).run_queue_set == old(self).run_queue_set,
    {
        while self.boxes.len() < id.0
            invariant
                self.boxes@.len() <= id.0 || self.boxes@.len() == old(self).boxes@.len(),
                self.boxes@.len() >= old(self).boxes@.len(),
                forall|i: int| 0 <= i < self.boxes@.len() ==> #[trigger] self.boxes@[i] == if i < old(self).boxes@.len() {
                    old(self).boxes@[i]
                } else {
                    None
                },
                self.run_queue == old(self).run_queue,
                self.run_queue_set == old(self).run_queue_set,
            decreases id.0 - self.boxes@.len(),
        {
            self.boxes.push(None);
        }
        if id.0 < self.boxes.len() {
            self.boxes.set(id.0, Some(box_instance));
        } else {
            self.boxes.push(Some(box_instance));
        }
    }

    pub fn contains(&self, id: BoxId) -> (r: bool)
        ensures
            r == self.has_box(id),
    {
        id.0 < self.boxes.len() && self.boxes[id.0].is_some()
    }

    /// Appends `box_id` to the run queue unless it is already waiting there.
    pub fn add_run(&mut self, box_id: BoxId)
        requires
            old(self).wf(),
        ensures
            final(self).wf(),
            final(self).run_queue@ == if old(self).run_queue@.contains(box_id) {
                old(self).run_queue@
            } else {
                old(self).run_queue@.push(box_id)
            },
            final(self).boxes == old(self).boxes,
    {
        if !self.run_queue_set.contains(&box_id.0) {
            let ghost before = self.run_queue@;
            self.run_queue.push_back(box_id);
            self.run_queue_set.insert(box_id.0);
            proof {
                assert forall|x: usize| #[trigger] self.run_queue_set@.contains(x) <==> self.run_queue@.contains(BoxId(x)) by {
                    if x == box_id.0 {
                        assert(self.run_queue@[before.len() as int] == box_id);
                    } else if before.contains(BoxId(x)) {
                        let k = choose|k: int| 0 <= k < before.len() && before[k] == BoxId(x);
                        assert(self.run_queue@[k] == BoxId(x));
                    } else if self.run_queue@.contains(BoxId(x)) {
                        let k = choose|k: int| 0 <= k < self.run_queue@.len() && self.run_queue@[k] == BoxId(x);
                        assert(before[k] == BoxId(x));
                    }
                }
                assert(!before.contains(box_id));
            }
        }
    }

    /// Takes the box at the front of the run queue.
    pub fn pop_run(&mut self) -> (r: Option<BoxId>)
        requires
            old(self).wf(),
        ensures
            final(self).wf(),
            final(self).boxes == old(self).boxes,
            match r {
                Some(id) => old(self).run_queue@.len() > 0 && id == old(self).run_queue@[0] && final(self).run_queue@
                    == old(self).run_queue@.subrange(1, old(self).run_queue@.len() as int),
                None => old(self).run_queue@.len() == 0 && *final(self) == *old(self),
            },
    {
        if self.run_queue.len() == 0 {
            return None;
        }
        let ghost before = self.run_queue@;
        let popped = self.run_queue.pop_front();
        if let Some(box_id) = popped {
            proof {
                assert(before.len() > 0);
                assert(box_id == before[0]);
                assert(self.run_queue@ == before.subrange(1, before.len() as int));
            }
            self.run_queue_set.remove(&box_id.0);
            proof {
                assert forall|x: usize| #[trigger] self.run_queue_set@.contains(x) <==> self.run_queue@.contains(BoxId(x)) by {
                    if self.run_queue@.contains(BoxId(x)) {
                        let k = choose|k: int| 0 <= k < self.run_queue@.len() && self.run_queue@[k] == BoxId(x);
                        assert(before[k + 1] == BoxId(x));
                        assert(before.contains(BoxId(x)));
                        assert(k + 1 != 0);
                    }
                    if x != box_id.0 && before.contains(BoxId(x)) {
                        let k = choose|k: int| 0 <= k < before.len() && before[k] == BoxId(x);
                        assert(k != 0);
                        assert(self.run_queue@[k - 1] == BoxId(x));
                    }
                }
            }
            assert(self.run_queue@ == old(self).run_queue@.subrange(1, old(self).run_queue@.len() as int));
            assert(box_id == old(self).run_queue@[0]);
            Some(box_id)
        } else {
            None
        }
    }

    pub fn queue_is_empty(&self) -> (r: bool)
        ensures
            r == (self.run_queue@.len() == 0),
    {
        self.run_queue.len() == 0
    }

    /// The number of boxes held.
    pub fn len(&self) -> (r: usize)
        ensures
            r == count_boxes(self.boxes@),
    {
        let mut n: usize = 0;
        let mut i: usize = 0;
        while i < self.boxes.len()
            invariant
                0 <= i <= self.boxes@.len(),
                n == count_boxes(self.boxes@.subrange(0, i as int)),
                n <= i,
            decreases self.boxes.len() - i,
        {
            proof {
                assert(self.boxes@.subrange(0, i + 1).drop_last() =~= self.boxes@.subrange(0, i as int));
            }
            if self.boxes[i].is_some() {
                n = n + 1;
            }
            i = i + 1;
        }
        proof {
            assert(self.boxes@.subrange(0, i as int) =~= self.boxes@);
        }
        n
    }

    pub fn is_empty(&self) -> (r: bool)
        ensures
            r == (count_boxes(self.boxes@) == 0),
    {
        self.len() == 0
    }

    /// Detaches a box, lets `executor` work on it with a fresh change set,
    /// puts it back, and returns the change set; `None` when there is no box.
    pub fn execute_box<F>(&mut self, box_id: BoxId, executor: F) -> (r: Option<ChangeSet>)
        where
            F: FnOnce(MethodCallBox, ChangeSet) -> (MethodCallBox, ChangeSet),
        requires
            forall|b: MethodCallBox, c: ChangeSet| executor.requires((b, c)),
        ensures
            r is Some <==> old(self).has_box(box_id),
            final(self).run_queue == old(self).run_queue,
            final(self).run_queue_set == old(self).run_queue_set,
            final(self).boxes@.len() == old(self).boxes@.len(),
            match r {
                Some(c) => final(self).has_box(box_id) && (exists|c0: ChangeSet|
                    c0.edges@.len() == 0 && executor.ensures(
                        (old(self).box_at(box_id), c0),
                        (final(self).box_at(box_id), c),
                    )) && forall|i: int|
                    0 <= i < final(self).boxes@.len() && i != box_id.0 ==> #[trigger] final(self).boxes@[i]
                        == old(self).boxes@[i],
                None => final(self).boxes@ == old(self).boxes@,
            },
    {
        let b = match self.remove(box_id) {
            Some(b) => b,
            None => {
                return None;
            },
        };
        let fresh = ChangeSet::new();
        let ghost c0 = fresh;
        let (b2, changes) = executor(b, fresh);
        self.insert(box_id, b2);
        proof {
            assert(c0.edges@.len() == 0);
        }
        Some(changes)
    }
}

} // verus!
