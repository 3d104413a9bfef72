//! The driver of one analysis: owns the graph, the registry, the boxes, the
//! scopes and the errors, and drains the run queue to quiescence.
use vstd::prelude::*;
use crate::box_manager::BoxManager;
use crate::graph::{BoxId, ChangeSet, MethodCallBox, SourceLocation, Source, Vertex, VertexId};
use crate::method_registry::{MethodInfo, MethodRegistry};
use crate::scope::ScopeManager;
use crate::type_error::TypeError;
use crate::types::{Type, TypeModel, copy_type, models, type_eq};
use crate::graph::copy_location;
use vstd::set_lib::lemma_len_subset;
use crate::vertex_manager::{VertexManager, lemma_added_covers};
use crate::graph::added_types;

verus! {

broadcast use vstd::std_specs::vec::group_vec_axioms, vstd::seq_lib::group_seq_properties;

/// What a slot contributes to the firing measure: the types of the universe
/// that its box has not seen yet.
pub open spec fn slot_slack(s: Option<MethodCallBox>, cap: nat) -> nat {
    match s {
        Some(b) => if b.seen_types@.len() <= cap {
            (cap - b.seen_types@.len()) as nat
        } else {
            0
        },
        None => 0,
    }
}

pub open spec fn box_slack(s: Seq<Option<MethodCallBox>>, cap: nat) -> nat
    decreases s.len(),
{
    if s.len() == 0 {
        0
    } else {
        box_slack(s.drop_last(), cap) + slot_slack(s.last(), cap)
    }
}

proof fn lemma_box_slack_update(s: Seq<Option<MethodCallBox>>, i: int, x: Option<MethodCallBox>, cap: nat)
    requires
        0 <= i < s.len(),
    ensures
        box_slack(s.update(i, x), cap) + slot_slack(s[i], cap) == box_slack(s, cap) + slot_slack(x, cap),
    decreases s.len(),
{
    let u = s.update(i, x);
    if i == s.len() - 1 {
        assert(u.drop_last() =~= s.drop_last());
    } else {
        assert(u.drop_last() =~= s.drop_last().update(i, x));
        lemma_box_slack_update(s.drop_last(), i, x, cap);
    }
}

/// Whether a list of types holds `t`.
fn contains_type(ts: &Vec<Type>, t: &Type) -> (r: bool)
    ensures
        r == models(ts@).contains(t@),
{
    let mut i: usize = 0;
    while i < ts.len()
        invariant
            0 <= i <= ts@.len(),
            forall|j: int| 0 <= j < i ==> ts@[j]@ != t@,
        decreases ts.len() - i,
    {
        if type_eq(&ts[i], t) {
            proof {
                assert(models(ts@)[i as int] == t@);
            }
            return true;
        }
        i = i + 1;
    }
    proof {
        if models(ts@).contains(t@) {
            let j = choose|j: int| 0 <= j < models(ts@).len() && models(ts@)[j] == t@;
            assert(ts@[j]@ == t@);
        }
    }
    false
}

pub struct GlobalEnv {
    pub vertex_manager: VertexManager,
    pub method_registry: MethodRegistry,
    pub box_manager: BoxManager,
    pub scope_manager: ScopeManager,
    pub type_errors: Vec<TypeError>,
}

impl GlobalEnv {
    /// An error for receiver type `t`, method `name`, at `loc` was recorded.
    pub open spec fn error_recorded(&self, t: TypeModel, name: Seq<char>, loc: Option<SourceLocation>) -> bool {
        exists|k: int|
            0 <= k < self.type_errors@.len() && #[trigger] self.type_errors@[k].receiver_type@ == t
                && self.type_errors@[k].method_name@ == name && self.type_errors@[k].location == loc
    }

    /// Box `b` has dealt with receiver type `t`: the method resolved and its
    /// return type reached the return vertex, or the miss was recorded.
    pub open spec fn answered(&self, b: MethodCallBox, t: TypeModel) -> bool {
        ||| (self.method_registry@.contains_key((t, b.method_name@)) && self.vertex_manager.holds(
            b.return_vertex,
            self.method_registry@[(t, b.method_name@)],
        ))
        ||| self.error_recorded(t, b.method_name@, b.location)
    }

    pub open spec fn box_ok(&self, b: MethodCallBox) -> bool {
        &&& self.vertex_manager.is_source(b.receiver) || (self.vertex_manager.is_vertex(b.receiver)
            && self.vertex_manager.vertex(b.receiver).boxes@.contains(b.id))
        &&& self.vertex_manager.is_vertex(b.return_vertex)
        &&& b.seen().no_duplicates()
        &&& forall|t: TypeModel| #[trigger] b.seen().contains(t) ==> self.vertex_manager.holds(b.receiver, t)
    }

    /// Box `b` has seen every type its receiver holds.
    pub open spec fn caught_up(&self, b: MethodCallBox) -> bool {
        forall|t: TypeModel| #[trigger] self.vertex_manager.holds(b.receiver, t) ==> b.seen().contains(t)
    }

    pub open spec fn slot(&self, i: int) -> MethodCallBox {
        self.box_manager.boxes@[i]->Some_0
    }

    pub open spec fn occupied(&self, i: int) -> bool {
        0 <= i < self.box_manager.boxes@.len() && self.box_manager.boxes@[i] is Some
    }

    pub open spec fn wf(&self) -> bool {
        &&& self.vertex_manager.wf()
        &&& self.vertex_manager.woken@.len() == 0
        &&& self.method_registry.wf()
        &&& self.box_manager.wf()
        &&& self.scope_manager.wf()
        &&& forall|k: (TypeModel, Seq<char>)| #[trigger] self.method_registry@.contains_key(k)
            ==> self.vertex_manager.universe@.contains(self.method_registry@[k])
        &&& forall|k: int| 0 <= k < self.type_errors@.len() ==> (#[trigger] self.type_errors@[k]).receiver_type@ != TypeModel::Bot
        &&& forall|i: int| #[trigger] self.occupied(i) ==> self.box_ok(self.slot(i)) && self.slot(i).id == BoxId(i as usize)
        &&& forall|i: int| #[trigger] self.occupied(i) ==> self.box_manager.run_queue@.contains(BoxId(i as usize))
            || self.caught_up(self.slot(i))
    }

    /// Every type a box has seen (other than `Bot`) has been answered.
    pub open spec fn settled(&self) -> bool {
        forall|i: int, t: TypeModel|
            #[trigger] self.occupied(i) && #[trigger] self.slot(i).seen().contains(t) && t != TypeModel::Bot
                ==> self.answered(self.slot(i), t)
    }

    /// No box has fired yet: none has seen a type.
    pub open spec fn unfired(&self) -> bool {
        forall|i: int| #[trigger] self.occupied(i) ==> self.slot(i).seen_types@.len() == 0
    }

    pub fn new() -> (r: GlobalEnv)
        ensures
            r.wf(),
            r.settled(),
            r.unfired(),
            r.type_errors@.len() == 0,
            r.method_registry@ == Map::<(TypeModel, Seq<char>), TypeModel>::empty(),
            r.vertex_manager.nodes@.len() == 0,
            r.box_manager.boxes@.len() == 0,
    {
        GlobalEnv {
            vertex_manager: VertexManager::new(),
            method_registry: MethodRegistry::new(),
            box_manager: BoxManager::new(),
            scope_manager: ScopeManager::new(),
            type_errors: Vec::new(),
        }
    }

    /// Every box subscribed to a vertex whose types changed since `start` is
    /// in the run queue.
    pub open spec fn woke_into_queue(&self, start: &GlobalEnv) -> bool {
        forall|id: VertexId, k: int|
            start.vertex_manager.is_vertex(id) && 0 <= k < start.vertex_manager.vertex(id).boxes@.len()
                && self.vertex_manager.vertex(id).types@.len() != start.vertex_manager.vertex(id).types@.len()
                ==> self.box_manager.run_queue@.contains(#[trigger] start.vertex_manager.vertex(id).boxes@[k])
    }

    /// The run queue only gained entries.
    pub open spec fn queue_kept(&self, start: &GlobalEnv) -> bool {
        forall|b: BoxId| #[trigger] start.box_manager.run_queue@.contains(b) ==> self.box_manager.run_queue@.contains(b)
    }

    /// A graph edit keeps the driver's invariants.
    proof fn lemma_edit_preserves(&self, start: &GlobalEnv)
        requires
            start.wf(),
            self.vertex_manager.wf(),
            self.vertex_manager.woken@.len() == 0,
            self.vertex_manager.keeps_frame(&start.vertex_manager),
            self.vertex_manager.grows_from(&start.vertex_manager),
            self.box_manager.wf(),
            self.box_manager.boxes == start.box_manager.boxes,
            self.woke_into_queue(start),
            self.queue_kept(start),
            self.method_registry == start.method_registry,
            self.scope_manager == start.scope_manager,
            self.type_errors == start.type_errors,
        ensures
            self.wf(),
            start.settled() ==> self.settled(),
            start.unfired() ==> self.unfired(),
    {
        self.vertex_manager.lemma_holds_mono(&start.vertex_manager);
        assert forall|i: int| #[trigger] self.occupied(i) implies self.box_ok(self.slot(i)) && self.slot(i).id == BoxId(
            i as usize,
        ) by {
            assert(start.occupied(i));
            let b = self.slot(i);
            assert(start.box_ok(b));
            assert(self.vertex_manager.is_source(b.receiver) == start.vertex_manager.is_source(b.receiver));
            if start.vertex_manager.is_vertex(b.receiver) {
                assert(self.vertex_manager.vertex(b.receiver).boxes == start.vertex_manager.vertex(b.receiver).boxes);
            }
            assert forall|t: TypeModel| #[trigger] b.seen().contains(t) implies self.vertex_manager.holds(b.receiver, t) by {
                assert(start.vertex_manager.holds(b.receiver, t));
            }
        }
        assert forall|i: int| #[trigger] self.occupied(i) implies self.box_manager.run_queue@.contains(BoxId(i as usize))
            || self.caught_up(self.slot(i)) by {
            assert(start.occupied(i));
            let b = self.slot(i);
            if !self.box_manager.run_queue@.contains(BoxId(i as usize)) {
                assert(!start.box_manager.run_queue@.contains(BoxId(i as usize)));
                assert(start.caught_up(b));
                if start.vertex_manager.is_vertex(b.receiver) {
                    let v = start.vertex_manager.vertex(b.receiver);
                    let k = choose|k: int| 0 <= k < v.boxes@.len() && v.boxes@[k] == b.id;
                    if self.vertex_manager.vertex(b.receiver).types@.len() != v.types@.len() {
                        assert(self.box_manager.run_queue@.contains(v.boxes@[k]));
                    }
                    assert(self.vertex_manager.vertex(b.receiver).type_seq() =~= v.type_seq()) by {
                        assert(self.vertex_manager.vertex(b.receiver).type_seq().subrange(0, v.type_seq().len() as int)
                            == v.type_seq());
                    }
                    assert(self.vertex_manager.node_types(b.receiver) == start.vertex_manager.node_types(b.receiver));
                } else {
                    assert(self.vertex_manager.node_types(b.receiver) == start.vertex_manager.node_types(b.receiver));
                }
                assert forall|t: TypeModel| #[trigger] self.vertex_manager.holds(b.receiver, t) implies b.seen().contains(t) by {
                    assert(start.vertex_manager.holds(b.receiver, t));
                }
            }
        }
        if start.settled() {
            assert forall|i: int, t: TypeModel|
                #[trigger] self.occupied(i) && #[trigger] self.slot(i).seen().contains(t) && t != TypeModel::Bot
                    implies self.answered(self.slot(i), t) by {
                assert(start.occupied(i));
                assert(start.answered(start.slot(i), t));
                let b = self.slot(i);
                if start.method_registry@.contains_key((t, b.method_name@)) && start.vertex_manager.holds(
                    b.return_vertex,
                    start.method_registry@[(t, b.method_name@)],
                ) {
                    assert(self.vertex_manager.holds(b.return_vertex, self.method_registry@[(t, b.method_name@)]));
                }
            }
        }
        if start.unfired() {
            assert forall|i: int| #[trigger] self.occupied(i) implies self.slot(i).seen_types@.len() == 0 by {
                assert(start.occupied(i));
            }
        }
    }

    /// Moves the woken boxes into the run queue.
    fn drain_woken(&mut self)
        requires
            old(self).box_manager.wf(),
        ensures
            final(self).box_manager.wf(),
            final(self).vertex_manager.woken@.len() == 0,
            final(self).vertex_manager.nodes == old(self).vertex_manager.nodes,
            final(self).vertex_manager.universe == old(self).vertex_manager.universe,
            final(self).vertex_manager.edges == old(self).vertex_manager.edges,
            final(self).box_manager.boxes == old(self).box_manager.boxes,
            forall|b: BoxId| #[trigger] old(self).box_manager.run_queue@.contains(b) ==> final(self).box_manager.run_queue@.contains(b),
            forall|k: int| 0 <= k < old(self).vertex_manager.woken@.len() ==> final(self).box_manager.run_queue@.contains(
                #[trigger] old(self).vertex_manager.woken@[k],
            ),
            old(self).vertex_manager.woken@.len() == 0 ==> final(self).box_manager == old(self).box_manager,
            final(self).method_registry == old(self).method_registry,
            final(self).scope_manager == old(self).scope_manager,
            final(self).type_errors == old(self).type_errors,
    {
        let woken = self.vertex_manager.take_woken();
        let mut k: usize = 0;
        while k < woken.len()
            invariant
                0 <= k <= woken@.len(),
                woken@ == old(self).vertex_manager.woken@,
                self.box_manager.wf(),
                self.vertex_manager.woken@.len() == 0,
                self.vertex_manager.nodes == old(self).vertex_manager.nodes,
                self.vertex_manager.universe == old(self).vertex_manager.universe,
                self.vertex_manager.edges == old(self).vertex_manager.edges,
                self.box_manager.boxes == old(self).box_manager.boxes,
                forall|b: BoxId| #[trigger] old(self).box_manager.run_queue@.contains(b) ==> self.box_manager.run_queue@.contains(b),
                forall|q: int| 0 <= q < k ==> self.box_manager.run_queue@.contains(#[trigger] woken@[q]),
                k == 0 ==> self.box_manager == old(self).box_manager,
                self.method_registry == old(self).method_registry,
                self.scope_manager == old(self).scope_manager,
                self.type_errors == old(self).type_errors,
            decreases woken.len() - k,
        {
            let ghost before = self.box_manager.run_queue@;
            self.box_manager.add_run(woken[k]);
            proof {
                assert forall|b: BoxId| #[trigger] before.contains(b) implies self.box_manager.run_queue@.contains(b) by {
                    if !before.contains(woken@[k as int]) {
                        let j = choose|j: int| 0 <= j < before.len() && before[j] == b;
                        assert(self.box_manager.run_queue@[j] == b);
                    }
                }
                if !before.contains(woken@[k as int]) {
                    assert(self.box_manager.run_queue@[before.len() as int] == woken@[k as int]);
                }
            }
            k = k + 1;
        }
    }

    /// Commits an edge and queues the boxes whose receivers gained types.
    pub fn add_edge(&mut self, src: VertexId, dst: VertexId)
        requires
            old(self).wf(),
            dst.0 < old(self).vertex_manager.nodes@.len(),
        ensures
            final(self).wf(),
            old(self).settled() ==> final(self).settled(),
            old(self).unfired() ==> final(self).unfired(),
            final(self).vertex_manager.keeps_frame(&old(self).vertex_manager),
            final(self).vertex_manager.grows_from(&old(self).vertex_manager),
            final(self).queue_kept(old(self)),
            final(self).steps_from(old(self)),
            final(self).vertex_manager.measure() <= old(self).vertex_manager.measure(),
            src.0 < old(self).vertex_manager.nodes@.len() ==> final(self).vertex_manager.edges@
                == old(self).vertex_manager.edges@.insert((src, dst)),
            src.0 >= old(self).vertex_manager.nodes@.len() ==> final(self).vertex_manager.edges@
                == old(self).vertex_manager.edges@,
            final(self).method_registry == old(self).method_registry,
            final(self).scope_manager == old(self).scope_manager,
            final(self).type_errors == old(self).type_errors,
            final(self).box_manager.boxes == old(self).box_manager.boxes,
            final(self).vertex_manager.monotone_from(&old(self).vertex_manager),
    {
        let ghost start = *self;
        self.vertex_manager.add_edge(src, dst);
        let ghost mid = *self;
        self.drain_woken();
        proof {
            mid.vertex_manager.lemma_same_graph(&self.vertex_manager);
            assert forall|id: VertexId, k: int|
                start.vertex_manager.is_vertex(id) && 0 <= k < start.vertex_manager.vertex(id).boxes@.len()
                    && self.vertex_manager.vertex(id).types@.len() != start.vertex_manager.vertex(id).types@.len()
                    implies self.box_manager.run_queue@.contains(#[trigger] start.vertex_manager.vertex(id).boxes@[k]) by {
                let j = choose|j: int| 0 <= j < mid.vertex_manager.woken@.len() && mid.vertex_manager.woken@[j]
                    == start.vertex_manager.vertex(id).boxes@[k];
                assert(self.box_manager.run_queue@.contains(mid.vertex_manager.woken@[j]));
            }
            self.lemma_edit_preserves(&start);
            self.vertex_manager.lemma_frame_extends(&start.vertex_manager);
            self.vertex_manager.lemma_extends_monotone(&start.vertex_manager);
        }
    }

    /// Commits every edge of a change set, in order.
    pub fn apply_changes(&mut self, changes: ChangeSet)
        requires
            old(self).wf(),
            forall|k: int|
                0 <= k < changes.edges@.len() ==> (#[trigger] changes.edges@[k]).1.0 < old(self).vertex_manager.nodes@.len(),
        ensures
            final(self).wf(),
            old(self).settled() ==> final(self).settled(),
            old(self).unfired() ==> final(self).unfired(),
            final(self).vertex_manager.keeps_frame(&old(self).vertex_manager),
            final(self).vertex_manager.grows_from(&old(self).vertex_manager),
            final(self).method_registry == old(self).method_registry,
            final(self).scope_manager == old(self).scope_manager,
            final(self).type_errors == old(self).type_errors,
            final(self).box_manager.boxes == old(self).box_manager.boxes,
            final(self).vertex_manager.monotone_from(&old(self).vertex_manager),
            changes.edges@.len() == 0 ==> *final(self) == *old(self),
            forall|k: int|
                0 <= k < changes.edges@.len() && (#[trigger] changes.edges@[k]).0.0 < old(
                    self,
                ).vertex_manager.nodes@.len() ==> final(self).vertex_manager.edges@.contains(changes.edges@[k]),
            forall|e: (VertexId, VertexId)| #[trigger] final(self).vertex_manager.edges@.contains(e) ==> old(
                self,
            ).vertex_manager.edges@.contains(e) || changes.edges@.contains(e),
            final(self).vertex_manager.nodes@.len() == old(self).vertex_manager.nodes@.len(),
    {
        let mut i: usize = 0;
        proof {
            self.vertex_manager.lemma_refl();
            self.vertex_manager.lemma_frame_extends(&old(self).vertex_manager);
            self.vertex_manager.lemma_extends_monotone(&old(self).vertex_manager);
        }
        while i < changes.edges.len()
            invariant
                0 <= i <= changes.edges@.len(),
                self.wf(),
                old(self).settled() ==> self.settled(),
                old(self).unfired() ==> self.unfired(),
                self.vertex_manager.keeps_frame(&old(self).vertex_manager),
                self.vertex_manager.grows_from(&old(self).vertex_manager),
                self.vertex_manager.monotone_from(&old(self).vertex_manager),
                i == 0 ==> *self == *old(self),
                self.vertex_manager.nodes@.len() == old(self).vertex_manager.nodes@.len(),
                forall|k: int|
                    0 <= k < i && (#[trigger] changes.edges@[k]).0.0 < old(self).vertex_manager.nodes@.len()
                        ==> self.vertex_manager.edges@.contains(changes.edges@[k]),
                forall|k: int|
                    0 <= k < changes.edges@.len() ==> (#[trigger] changes.edges@[k]).1.0 < old(self).vertex_manager.nodes@.len(),
                forall|e: (VertexId, VertexId)| #[trigger] self.vertex_manager.edges@.contains(e) ==> old(
                    self,
                ).vertex_manager.edges@.contains(e) || changes.edges@.subrange(0, i as int).contains(e),
                self.method_registry == old(self).method_registry,
                self.scope_manager == old(self).scope_manager,
                self.type_errors == old(self).type_errors,
                self.box_manager.boxes == old(self).box_manager.boxes,
            decreases changes.edges.len() - i,
        {
            let (src, dst) = changes.edges[i];
            let ghost before = self.vertex_manager;
            self.add_edge(src, dst);
            proof {
                assert(changes.edges@[i as int] == (src, dst));
                if src.0 < before.nodes@.len() {
                    assert(self.vertex_manager.edges@ == before.edges@.insert((src, dst)));
                } else {
                    assert(self.vertex_manager.edges@ == before.edges@);
                }
                assert forall|e: (VertexId, VertexId)| #[trigger] self.vertex_manager.edges@.contains(e) implies old(
                    self,
                ).vertex_manager.edges@.contains(e) || changes.edges@.subrange(0, i + 1).contains(e) by {
                    if before.edges@.contains(e) {
                        if !old(self).vertex_manager.edges@.contains(e) {
                            let q = choose|q: int| 0 <= q < i && changes.edges@.subrange(0, i as int)[q] == e;
                            assert(changes.edges@.subrange(0, i + 1)[q] == e);
                        }
                    } else {
                        assert(e == (src, dst));
                        assert(changes.edges@.subrange(0, i + 1)[i as int] == e);
                    }
                }
                assert forall|k: int|
                    0 <= k < i + 1 && (#[trigger] changes.edges@[k]).0.0 < old(self).vertex_manager.nodes@.len()
                        implies self.vertex_manager.edges@.contains(changes.edges@[k]) by {
                    if k < i {
                        assert(before.edges@.contains(changes.edges@[k]));
                    }
                }
                self.vertex_manager.lemma_frame_chain(&before, &old(self).vertex_manager);
                self.vertex_manager.lemma_frame_extends(&old(self).vertex_manager);
                self.vertex_manager.lemma_extends_monotone(&old(self).vertex_manager);
            }
            i = i + 1;
        }
        proof {
            assert(changes.edges@.subrange(0, i as int) =~= changes.edges@);
        }
    }

    /// Allocating a node keeps the driver's invariants.
    proof fn lemma_alloc_preserves(&self, start: &GlobalEnv)
        requires
            start.wf(),
            self.vertex_manager.wf(),
            self.vertex_manager.woken@.len() == 0,
            self.vertex_manager.nodes@.len() == start.vertex_manager.nodes@.len() + 1,
            forall|i: int| 0 <= i < start.vertex_manager.nodes@.len() ==> self.vertex_manager.nodes@[i]
                == start.vertex_manager.nodes@[i],
            start.vertex_manager.universe@.subset_of(self.vertex_manager.universe@),
            self.box_manager == start.box_manager,
            self.method_registry == start.method_registry,
            self.scope_manager == start.scope_manager,
            self.type_errors == start.type_errors,
        ensures
            self.wf(),
            start.settled() ==> self.settled(),
            start.unfired() ==> self.unfired(),
    {
        let n = start.vertex_manager.nodes@.len();
        let vm = self.vertex_manager;
        let svm = start.vertex_manager;
        assert forall|id: VertexId| id.0 < n implies #[trigger] vm.node_types(id) == svm.node_types(id)
            && vm.is_vertex(id) == svm.is_vertex(id) && vm.is_source(id) == svm.is_source(id) by {
            assert(vm.nodes@[id.0 as int] == svm.nodes@[id.0 as int]);
        }
        assert forall|i: int| #[trigger] self.occupied(i) implies self.box_ok(self.slot(i)) && self.slot(i).id == BoxId(
            i as usize,
        ) by {
            assert(start.occupied(i));
            let b = self.slot(i);
            assert(start.box_ok(b));
            assert(vm.node_types(b.receiver) == svm.node_types(b.receiver));
            assert(vm.node_types(b.return_vertex) == svm.node_types(b.return_vertex));
            if svm.is_vertex(b.receiver) {
                assert(vm.nodes@[b.receiver.0 as int] == svm.nodes@[b.receiver.0 as int]);
            }
            assert forall|t: TypeModel| #[trigger] b.seen().contains(t) implies vm.holds(b.receiver, t) by {
                assert(svm.holds(b.receiver, t));
            }
        }
        assert forall|i: int| #[trigger] self.occupied(i) implies self.box_manager.run_queue@.contains(BoxId(i as usize))
            || self.caught_up(self.slot(i)) by {
            assert(start.occupied(i));
            let b = self.slot(i);
            assert(start.box_ok(b));
            assert(vm.node_types(b.receiver) == svm.node_types(b.receiver));
            if !self.box_manager.run_queue@.contains(BoxId(i as usize)) {
                assert(start.caught_up(b));
                assert forall|t: TypeModel| #[trigger] vm.holds(b.receiver, t) implies b.seen().contains(t) by {
                    assert(svm.holds(b.receiver, t));
                }
            }
        }
        if start.settled() {
            assert forall|i: int, t: TypeModel|
                #[trigger] self.occupied(i) && #[trigger] self.slot(i).seen().contains(t) && t != TypeModel::Bot
                    implies self.answered(self.slot(i), t) by {
                assert(start.occupied(i));
                assert(start.answered(start.slot(i), t));
                let b = self.slot(i);
                assert(start.box_ok(b));
                assert(vm.node_types(b.return_vertex) == svm.node_types(b.return_vertex));
            }
        }
        if start.unfired() {
            assert forall|i: int| #[trigger] self.occupied(i) implies self.slot(i).seen_types@.len() == 0 by {
                assert(start.occupied(i));
            }
        }
    }

    pub fn new_vertex(&mut self) -> (id: VertexId)
        requires
            old(self).wf(),
            old(self).vertex_manager.nodes@.len() < usize::MAX,
        ensures
            final(self).wf(),
            old(self).settled() ==> final(self).settled(),
            old(self).unfired() ==> final(self).unfired(),
            id.0 == old(self).vertex_manager.nodes@.len(),
            final(self).vertex_manager.nodes@.len() == old(self).vertex_manager.nodes@.len() + 1,
            forall|i: int| 0 <= i < old(self).vertex_manager.nodes@.len() ==> final(self).vertex_manager.nodes@[i]
                == old(self).vertex_manager.nodes@[i],
            final(self).vertex_manager.is_vertex(id),
            final(self).vertex_manager.vertex(id).types@.len() == 0,
            final(self).vertex_manager.edges == old(self).vertex_manager.edges,
            final(self).vertex_manager.universe == old(self).vertex_manager.universe,
            final(self).box_manager == old(self).box_manager,
            final(self).method_registry == old(self).method_registry,
            final(self).scope_manager == old(self).scope_manager,
            final(self).type_errors == old(self).type_errors,
            final(self).vertex_manager.monotone_from(&old(self).vertex_manager),
    {
        let ghost start = *self;
        let id = self.vertex_manager.new_vertex();
        proof {
            self.lemma_alloc_preserves(&start);
            self.vertex_manager.lemma_push_extends(&start.vertex_manager);
            self.vertex_manager.lemma_extends_monotone(&start.vertex_manager);
        }
        id
    }

    pub fn new_source(&mut self, t: Type) -> (id: VertexId)
        requires
            old(self).wf(),
            old(self).vertex_manager.nodes@.len() < usize::MAX,
        ensures
            final(self).wf(),
            old(self).settled() ==> final(self).settled(),
            old(self).unfired() ==> final(self).unfired(),
            id.0 == old(self).vertex_manager.nodes@.len(),
            final(self).vertex_manager.nodes@.len() == old(self).vertex_manager.nodes@.len() + 1,
            forall|i: int| 0 <= i < old(self).vertex_manager.nodes@.len() ==> final(self).vertex_manager.nodes@[i]
                == old(self).vertex_manager.nodes@[i],
            final(self).vertex_manager.is_source(id),
            final(self).vertex_manager.source_type(id) == t@,
            final(self).vertex_manager.edges == old(self).vertex_manager.edges,
            final(self).vertex_manager.universe@ == old(self).vertex_manager.universe@.insert(t@),
            final(self).box_manager == old(self).box_manager,
            final(self).method_registry == old(self).method_registry,
            final(self).scope_manager == old(self).scope_manager,
            final(self).type_errors == old(self).type_errors,
            final(self).vertex_manager.monotone_from(&old(self).vertex_manager),
    {
        let ghost start = *self;
        let id = self.vertex_manager.new_source(t);
        proof {
            self.lemma_alloc_preserves(&start);
            self.vertex_manager.lemma_push_extends(&start.vertex_manager);
            self.vertex_manager.lemma_extends_monotone(&start.vertex_manager);
        }
        id
    }

    /// Seeds or extends the method registry.
    pub fn register_builtin_method(&mut self, recv_ty: Type, method_name: &str, ret_ty: Type)
        requires
            old(self).wf(),
        ensures
            final(self).wf(),
            final(self).method_registry@ == old(self).method_registry@.insert((recv_ty@, method_name@), ret_ty@),
            old(self).unfired() ==> final(self).unfired(),
            old(self).settled() && (!old(self).method_registry@.contains_key((recv_ty@, method_name@))
                || old(self).method_registry@[(recv_ty@, method_name@)] == ret_ty@) ==> final(self).settled(),
            final(self).vertex_manager.nodes == old(self).vertex_manager.nodes,
            final(self).vertex_manager.edges == old(self).vertex_manager.edges,
            final(self).box_manager == old(self).box_manager,
            final(self).scope_manager == old(self).scope_manager,
            final(self).type_errors == old(self).type_errors,
            final(self).vertex_manager.monotone_from(&old(self).vertex_manager),
    {
        let ghost start = *self;
        self.vertex_manager.note_type(&ret_ty);
        self.method_registry.register(recv_ty, method_name, ret_ty);
        proof {
            let vm = self.vertex_manager;
            let svm = start.vertex_manager;
            assert forall|id: VertexId| #[trigger] vm.node_types(id) == svm.node_types(id) by {}
            vm.lemma_same_types_monotone(&svm);
            assert forall|k: (TypeModel, Seq<char>)| #[trigger] self.method_registry@.contains_key(k)
                implies vm.universe@.contains(self.method_registry@[k]) by {
                if k != (recv_ty@, method_name@) {
                    assert(start.method_registry@.contains_key(k));
                }
            }
            assert forall|i: int| #[trigger] self.occupied(i) implies self.box_ok(self.slot(i)) && self.slot(i).id == BoxId(
                i as usize,
            ) by {
                assert(start.occupied(i));
                let b = self.slot(i);
                assert(start.box_ok(b));
                assert forall|t: TypeModel| #[trigger] b.seen().contains(t) implies vm.holds(b.receiver, t) by {
                    assert(svm.holds(b.receiver, t));
                }
            }
            assert forall|i: int| #[trigger] self.occupied(i) implies self.box_manager.run_queue@.contains(BoxId(i as usize))
                || self.caught_up(self.slot(i)) by {
                assert(start.occupied(i));
                let b = self.slot(i);
                if !self.box_manager.run_queue@.contains(BoxId(i as usize)) {
                    assert(start.caught_up(b));
                    assert forall|t: TypeModel| #[trigger] vm.holds(b.receiver, t) implies b.seen().contains(t) by {
                        assert(svm.holds(b.receiver, t));
                    }
                }
            }
            if start.settled() && (!start.method_registry@.contains_key((recv_ty@, method_name@))
                || start.method_registry@[(recv_ty@, method_name@)] == ret_ty@) {
                assert forall|i: int, t: TypeModel|
                    #[trigger] self.occupied(i) && #[trigger] self.slot(i).seen().contains(t) && t != TypeModel::Bot
                        implies self.answered(self.slot(i), t) by {
                    assert(start.occupied(i));
                    assert(start.answered(start.slot(i), t));
                    let b = self.slot(i);
                    let k = (t, b.method_name@);
                    if !start.error_recorded(t, b.method_name@, b.location) {
                        assert(start.method_registry@.contains_key(k));
                        assert(self.method_registry@.contains_key(k));
                        assert(self.method_registry@[k] == start.method_registry@[k]);
                        assert(vm.node_types(b.return_vertex) == svm.node_types(b.return_vertex));
                        assert(vm.holds(b.return_vertex, self.method_registry@[k]));
                    } else {
                        let w = choose|w: int|
                            0 <= w < start.type_errors@.len() && #[trigger] start.type_errors@[w].receiver_type@ == t
                                && start.type_errors@[w].method_name@ == b.method_name@ && start.type_errors@[w].location
                                == b.location;
                        assert(self.type_errors@[w] == start.type_errors@[w]);
                        assert(self.error_recorded(t, b.method_name@, b.location));
                    }
                }
            }
            if start.unfired() {
                assert forall|i: int| #[trigger] self.occupied(i) implies self.slot(i).seen_types@.len() == 0 by {
                    assert(start.occupied(i));
                }
            }
        }
    }

    pub fn resolve_method(&self, recv_ty: &Type, method_name: &str) -> (r: Option<&MethodInfo>)
        requires
            self.wf(),
        ensures
            match r {
                Some(info) => recv_ty@ != TypeModel::Bot && self.method_registry@.contains_key((recv_ty@, method_name@))
                    && info.return_type@ == self.method_registry@[(recv_ty@, method_name@)],
                None => recv_ty@ == TypeModel::Bot || !self.method_registry@.contains_key((recv_ty@, method_name@)),
            },
    {
        self.method_registry.resolve(recv_ty, method_name)
    }

    pub fn get_vertex(&self, id: VertexId) -> (r: Option<&Vertex>)
        ensures
            match r {
                Some(v) => self.vertex_manager.is_vertex(id) && *v == self.vertex_manager.vertex(id),
                None => !self.vertex_manager.is_vertex(id),
            },
    {
        self.vertex_manager.get_vertex(id)
    }

    pub fn get_source(&self, id: VertexId) -> (r: Option<&Source>)
        ensures
            match r {
                Some(s) => self.vertex_manager.is_source(id) && s.ty@ == self.vertex_manager.source_type(id),
                None => !self.vertex_manager.is_source(id),
            },
    {
        self.vertex_manager.get_source(id)
    }

    /// Creates the box of a call site, subscribes it to its receiver and
    /// queues it.
    pub fn new_call_box(
        &mut self,
        receiver: VertexId,
        method_name: String,
        return_vertex: VertexId,
        location: Option<SourceLocation>,
    ) -> (id: BoxId)
        requires
            old(self).wf(),
            old(self).vertex_manager.is_vertex(receiver) || old(self).vertex_manager.is_source(receiver),
            old(self).vertex_manager.is_vertex(return_vertex),
            old(self).box_manager.boxes@.len() < usize::MAX,
        ensures
            final(self).wf(),
            old(self).settled() ==> final(self).settled(),
            old(self).unfired() ==> final(self).unfired(),
            id.0 == old(self).box_manager.boxes@.len(),
            final(self).occupied(id.0 as int),
            final(self).slot(id.0 as int).receiver == receiver,
            final(self).slot(id.0 as int).method_name == method_name,
            final(self).slot(id.0 as int).return_vertex == return_vertex,
            final(self).slot(id.0 as int).location == location,
            final(self).slot(id.0 as int).seen_types@.len() == 0,
            final(self).box_manager.run_queue@.contains(id),
            final(self).box_manager.boxes@ == old(self).box_manager.boxes@.push(Some(final(self).slot(id.0 as int))),
            final(self).box_manager.run_queue@ == if old(self).box_manager.run_queue@.contains(id) {
                old(self).box_manager.run_queue@
            } else {
                old(self).box_manager.run_queue@.push(id)
            },
            old(self).vertex_manager.is_vertex(receiver) ==> final(self).vertex_manager.vertex(receiver).boxes@
                == old(self).vertex_manager.vertex(receiver).boxes@.push(id),
            forall|v: VertexId|
                v != receiver && v.0 < old(self).vertex_manager.nodes@.len() ==> #[trigger] final(self).vertex_manager.nodes@[v.0 as int]
                    == old(self).vertex_manager.nodes@[v.0 as int],
            old(self).vertex_manager.is_source(receiver) ==> final(self).vertex_manager.nodes
                == old(self).vertex_manager.nodes,
            final(self).vertex_manager.woken == old(self).vertex_manager.woken,
            final(self).vertex_manager.nodes@.len() == old(self).vertex_manager.nodes@.len(),
            forall|v: VertexId| #[trigger] final(self).vertex_manager.node_types(v) == old(self).vertex_manager.node_types(v),
            forall|v: VertexId| #[trigger] final(self).vertex_manager.is_vertex(v) == old(self).vertex_manager.is_vertex(v),
            final(self).vertex_manager.edges == old(self).vertex_manager.edges,
            final(self).vertex_manager.universe == old(self).vertex_manager.universe,
            final(self).method_registry == old(self).method_registry,
            final(self).scope_manager == old(self).scope_manager,
            final(self).type_errors == old(self).type_errors,
            final(self).vertex_manager.monotone_from(&old(self).vertex_manager),
    {
        let ghost start = *self;
        let id = BoxId(self.box_manager.boxes.len());
        let b = MethodCallBox::new(id, receiver, method_name, return_vertex, location);
        self.box_manager.register(b);
        let is_v = self.vertex_manager.get_vertex(receiver).is_some();
        if is_v {
            self.vertex_manager.add_box(receiver, id);
        }
        let ghost mid = *self;
        self.box_manager.add_run(id);
        proof {
            let vm = self.vertex_manager;
            let svm = start.vertex_manager;
            assert forall|v: VertexId| #[trigger] vm.is_source(v) == svm.is_source(v) by {
                if is_v {
                    if v == receiver {
                        assert(vm.is_vertex(receiver) && svm.is_vertex(receiver));
                    } else if v.0 < vm.nodes@.len() {
                        assert(vm.nodes@[v.0 as int] == svm.nodes@[v.0 as int]);
                    }
                } else {
                    assert(vm.nodes == svm.nodes);
                }
            }
            if !mid.box_manager.run_queue@.contains(id) {
                assert(self.box_manager.run_queue@[mid.box_manager.run_queue@.len() as int] == id);
            }
            assert(self.box_manager.run_queue@.contains(id));
            assert forall|x: BoxId| #[trigger] start.box_manager.run_queue@.contains(x) implies self.box_manager.run_queue@.contains(x) by {
                if !mid.box_manager.run_queue@.contains(id) {
                    let j = choose|j: int| 0 <= j < start.box_manager.run_queue@.len() && start.box_manager.run_queue@[j] == x;
                    assert(self.box_manager.run_queue@[j] == x);
                }
            }
            assert(vm.wf());
            assert forall|i: int| #[trigger] self.occupied(i) implies self.box_ok(self.slot(i)) && self.slot(i).id == BoxId(
                i as usize,
            ) by {
                let b = self.slot(i);
                if i != id.0 {
                    assert(start.occupied(i));
                    assert(start.box_ok(b));
                    if svm.is_vertex(b.receiver) {
                        if b.receiver == receiver {
                            assert(vm.vertex(receiver).boxes@ == svm.vertex(receiver).boxes@.push(id));
                            let k = choose|k: int| 0 <= k < svm.vertex(receiver).boxes@.len() && svm.vertex(receiver).boxes@[k] == b.id;
                            assert(vm.vertex(receiver).boxes@[k] == b.id);
                        } else {
                            assert(vm.nodes@[b.receiver.0 as int] == svm.nodes@[b.receiver.0 as int]);
                        }
                    }
                    assert forall|t: TypeModel| #[trigger] b.seen().contains(t) implies vm.holds(b.receiver, t) by {
                        assert(svm.holds(b.receiver, t));
                    }
                } else {
                    assert(b.seen() =~= Seq::<TypeModel>::empty());
                    if is_v {
                        assert(vm.vertex(receiver).boxes@.last() == id);
                    }
                }
            }
            assert forall|i: int| #[trigger] self.occupied(i) implies self.box_manager.run_queue@.contains(BoxId(i as usize))
                || self.caught_up(self.slot(i)) by {
                if i == id.0 {
                    assert(BoxId(i as usize) == id);
                } else {
                    assert(start.occupied(i));
                    let b = self.slot(i);
                    assert(vm.node_types(b.receiver) == svm.node_types(b.receiver));
                    if !self.box_manager.run_queue@.contains(BoxId(i as usize)) {
                        assert(!start.box_manager.run_queue@.contains(BoxId(i as usize)));
                        assert(start.caught_up(b));
                        assert forall|t: TypeModel| #[trigger] vm.holds(b.receiver, t) implies b.seen().contains(t) by {
                            assert(svm.holds(b.receiver, t));
                        }
                    }
                }
            }
            assert forall|v: VertexId, t: TypeModel| #[trigger] svm.holds(v, t) implies vm.holds(v, t) by {
                assert(vm.node_types(v) == svm.node_types(v));
            }
            vm.lemma_same_types_monotone(&svm);
            if start.settled() {
                assert forall|i: int, t: TypeModel|
                    #[trigger] self.occupied(i) && #[trigger] self.slot(i).seen().contains(t) && t != TypeModel::Bot
                        implies self.answered(self.slot(i), t) by {
                    if i != id.0 {
                        assert(start.occupied(i));
                        assert(start.answered(start.slot(i), t));
                        self.lemma_answered_from(&start);
                    } else {
                        assert(self.slot(i).seen() =~= Seq::<TypeModel>::empty());
                    }
                }
            }
            if start.unfired() {
                assert forall|i: int| #[trigger] self.occupied(i) implies self.slot(i).seen_types@.len() == 0 by {
                    if i != id.0 {
                        assert(start.occupied(i));
                    } else {
                        assert(BoxId(i as usize) == id);
                    }
                }
            }
        }
        id
    }

    pub fn enter_class(&mut self, name: String)
        requires
            old(self).wf(),
        ensures
            final(self).wf(),
            old(self).settled() ==> final(self).settled(),
            old(self).unfired() ==> final(self).unfired(),
            final(self).scope_manager.class_name() == Some(name@),
            final(self).scope_manager.ivars() == Some(Map::<Seq<char>, VertexId>::empty()),
            final(self).scope_manager.scopes@.last() is Class,
            final(self).scope_manager.scopes@.drop_last() == old(self).scope_manager.scopes@,
            final(self).scope_manager.scopes@.len() == old(self).scope_manager.scopes@.len() + 1,
            final(self).vertex_manager == old(self).vertex_manager,
            final(self).box_manager == old(self).box_manager,
            final(self).method_registry == old(self).method_registry,
            final(self).type_errors == old(self).type_errors,
            final(self).vertex_manager.monotone_from(&old(self).vertex_manager),
    {
        let ghost start = *self;
        self.scope_manager.enter_class(name);
        proof {
            self.lemma_scope_only(&start);
            self.vertex_manager.lemma_refl();
            self.vertex_manager.lemma_frame_extends(&self.vertex_manager);
            self.vertex_manager.lemma_extends_monotone(&self.vertex_manager);
        }
    }

    pub fn enter_method(&mut self, name: String)
        requires
            old(self).wf(),
        ensures
            final(self).wf(),
            old(self).settled() ==> final(self).settled(),
            old(self).unfired() ==> final(self).unfired(),
            final(self).scope_manager.class_name() == old(self).scope_manager.class_name(),
            final(self).scope_manager.ivars() == old(self).scope_manager.ivars(),
            !(final(self).scope_manager.scopes@.last() is Class),
            final(self).scope_manager.scopes@.drop_last() == old(self).scope_manager.scopes@,
            final(self).scope_manager.scopes@.len() == old(self).scope_manager.scopes@.len() + 1,
            final(self).vertex_manager == old(self).vertex_manager,
            final(self).box_manager == old(self).box_manager,
            final(self).method_registry == old(self).method_registry,
            final(self).type_errors == old(self).type_errors,
            final(self).vertex_manager.monotone_from(&old(self).vertex_manager),
    {
        let ghost start = *self;
        self.scope_manager.enter_method(name);
        proof {
            self.lemma_scope_only(&start);
            self.vertex_manager.lemma_refl();
            self.vertex_manager.lemma_frame_extends(&self.vertex_manager);
            self.vertex_manager.lemma_extends_monotone(&self.vertex_manager);
        }
    }

    pub fn exit_scope(&mut self)
        requires
            old(self).wf(),
        ensures
            final(self).wf(),
            old(self).settled() ==> final(self).settled(),
            old(self).unfired() ==> final(self).unfired(),
            old(self).scope_manager.scopes@.len() > 0 ==> final(self).scope_manager.scopes@
                == old(self).scope_manager.scopes@.drop_last(),
            final(self).vertex_manager == old(self).vertex_manager,
            final(self).box_manager == old(self).box_manager,
            final(self).method_registry == old(self).method_registry,
            final(self).type_errors == old(self).type_errors,
            final(self).vertex_manager.monotone_from(&old(self).vertex_manager),
    {
        let ghost start = *self;
        self.scope_manager.exit_scope();
        proof {
            self.lemma_scope_only(&start);
            self.vertex_manager.lemma_refl();
            self.vertex_manager.lemma_frame_extends(&self.vertex_manager);
            self.vertex_manager.lemma_extends_monotone(&self.vertex_manager);
        }
    }

    /// A change of scopes alone keeps the driver's invariants.
    proof fn lemma_scope_only(&self, start: &GlobalEnv)
        requires
            start.wf(),
            self.scope_manager.wf(),
            self.vertex_manager == start.vertex_manager,
            self.box_manager == start.box_manager,
            self.method_registry == start.method_registry,
            self.type_errors == start.type_errors,
        ensures
            self.wf(),
            start.settled() ==> self.settled(),
            start.unfired() ==> self.unfired(),
    {
        assert forall|i: int| #[trigger] self.occupied(i) implies self.box_ok(self.slot(i)) && self.slot(i).id == BoxId(
            i as usize,
        ) by {
            assert(start.occupied(i));
        }
        assert forall|i: int| #[trigger] self.occupied(i) implies self.box_manager.run_queue@.contains(BoxId(i as usize))
            || self.caught_up(self.slot(i)) by {
            assert(start.occupied(i));
        }
        if start.settled() {
            assert forall|i: int, t: TypeModel|
                #[trigger] self.occupied(i) && #[trigger] self.slot(i).seen().contains(t) && t != TypeModel::Bot
                    implies self.answered(self.slot(i), t) by {
                assert(start.occupied(i));
                assert(start.answered(start.slot(i), t));
            }
        }
        if start.unfired() {
            assert forall|i: int| #[trigger] self.occupied(i) implies self.slot(i).seen_types@.len() == 0 by {
                assert(start.occupied(i));
            }
        }
    }

    /// The errors only gained entries at the end.
    pub open spec fn errors_kept(&self, start: &GlobalEnv) -> bool {
        &&& start.type_errors@.len() <= self.type_errors@.len()
        &&& forall|k: int| 0 <= k < start.type_errors@.len() ==> self.type_errors@[k] == #[trigger] start.type_errors@[k]
    }

    /// A step of the analysis: the graph extended, the queue and errors
    /// grew, everything else stayed.
    pub open spec fn steps_from(&self, start: &GlobalEnv) -> bool {
        &&& self.vertex_manager.extends(&start.vertex_manager)
        &&& self.vertex_manager.universe@ == start.vertex_manager.universe@
        &&& self.woke_into_queue(start)
        &&& self.queue_kept(start)
        &&& self.errors_kept(start)
        &&& self.method_registry == start.method_registry
        &&& self.scope_manager == start.scope_manager
        &&& self.box_manager.boxes == start.box_manager.boxes
    }

    proof fn lemma_answered_mono(&self, start: &GlobalEnv)
        requires
            self.vertex_manager.extends(&start.vertex_manager),
            self.errors_kept(start),
            self.method_registry == start.method_registry,
        ensures
            forall|b: MethodCallBox, t: TypeModel| #[trigger] start.answered(b, t) ==> self.answered(b, t),
    {
        self.vertex_manager.lemma_extends_holds(&start.vertex_manager);
        assert forall|b: MethodCallBox, t: TypeModel| #[trigger] start.answered(b, t) implies self.answered(b, t) by {
            if start.error_recorded(t, b.method_name@, b.location) {
                let k = choose|k: int|
                    0 <= k < start.type_errors@.len() && #[trigger] start.type_errors@[k].receiver_type@ == t
                        && start.type_errors@[k].method_name@ == b.method_name@ && start.type_errors@[k].location == b.location;
                assert(self.type_errors@[k] == start.type_errors@[k]);
            }
        }
    }

    proof fn lemma_steps_chain(&self, mid: &GlobalEnv, start: &GlobalEnv)
        requires
            self.steps_from(mid),
            mid.steps_from(start),
        ensures
            self.steps_from(start),
    {
        self.vertex_manager.lemma_extends_chain(&mid.vertex_manager, &start.vertex_manager);
        assert forall|id: VertexId, k: int|
            start.vertex_manager.is_vertex(id) && 0 <= k < start.vertex_manager.vertex(id).boxes@.len()
                && self.vertex_manager.vertex(id).types@.len() != start.vertex_manager.vertex(id).types@.len()
                implies self.box_manager.run_queue@.contains(#[trigger] start.vertex_manager.vertex(id).boxes@[k]) by {
            assert(mid.vertex_manager.is_vertex(id));
            assert(mid.vertex_manager.vertex(id).boxes == start.vertex_manager.vertex(id).boxes);
            if mid.vertex_manager.vertex(id).types@.len() != start.vertex_manager.vertex(id).types@.len() {
                assert(mid.box_manager.run_queue@.contains(start.vertex_manager.vertex(id).boxes@[k]));
            } else {
                assert(self.box_manager.run_queue@.contains(mid.vertex_manager.vertex(id).boxes@[k]));
            }
        }
        assert forall|k: int| 0 <= k < start.type_errors@.len() implies self.type_errors@[k]
            == #[trigger] start.type_errors@[k] by {
            assert(mid.type_errors@[k] == start.type_errors@[k]);
        }
    }

    /// A step keeps the driver's invariants for every box in the table.
    proof fn lemma_step_preserves(&self, start: &GlobalEnv)
        requires
            start.wf(),
            self.vertex_manager.wf(),
            self.vertex_manager.woken@.len() == 0,
            self.box_manager.wf(),
            self.steps_from(start),
            forall|k: int| 0 <= k < self.type_errors@.len() ==> (#[trigger] self.type_errors@[k]).receiver_type@ != TypeModel::Bot,
        ensures
            self.wf(),
            start.settled() ==> self.settled(),
            start.unfired() ==> self.unfired(),
    {
        self.vertex_manager.lemma_extends_holds(&start.vertex_manager);
        self.lemma_answered_mono(start);
        assert forall|i: int| #[trigger] self.occupied(i) implies self.box_ok(self.slot(i)) && self.slot(i).id == BoxId(
            i as usize,
        ) by {
            assert(start.occupied(i));
            let b = self.slot(i);
            assert(start.box_ok(b));
            assert forall|t: TypeModel| #[trigger] b.seen().contains(t) implies self.vertex_manager.holds(b.receiver, t) by {
                assert(start.vertex_manager.holds(b.receiver, t));
            }
        }
        assert forall|i: int| #[trigger] self.occupied(i) implies self.box_manager.run_queue@.contains(BoxId(i as usize))
            || self.caught_up(self.slot(i)) by {
            assert(start.occupied(i));
            let b = self.slot(i);
            assert(start.box_ok(b));
            if !self.box_manager.run_queue@.contains(BoxId(i as usize)) {
                assert(!start.box_manager.run_queue@.contains(BoxId(i as usize)));
                assert(start.caught_up(b));
                if start.vertex_manager.is_vertex(b.receiver) {
                    let v = start.vertex_manager.vertex(b.receiver);
                    let k = choose|k: int| 0 <= k < v.boxes@.len() && v.boxes@[k] == b.id;
                    if self.vertex_manager.vertex(b.receiver).types@.len() != v.types@.len() {
                        assert(self.box_manager.run_queue@.contains(v.boxes@[k]));
                    }
                }
                assert(self.vertex_manager.node_types(b.receiver) == start.vertex_manager.node_types(b.receiver));
                assert forall|t: TypeModel| #[trigger] self.vertex_manager.holds(b.receiver, t) implies b.seen().contains(t) by {
                    assert(start.vertex_manager.holds(b.receiver, t));
                }
            }
        }
        if start.settled() {
            assert forall|i: int, t: TypeModel|
                #[trigger] self.occupied(i) && #[trigger] self.slot(i).seen().contains(t) && t != TypeModel::Bot
                    implies self.answered(self.slot(i), t) by {
                assert(start.occupied(i));
                assert(start.answered(start.slot(i), t));
            }
        }
        if start.unfired() {
            assert forall|i: int| #[trigger] self.occupied(i) implies self.slot(i).seen_types@.len() == 0 by {
                assert(start.occupied(i));
            }
        }
    }

    /// Every type the box has seen, but `Bot`, has been answered.
    pub open spec fn box_settled(&self, b: MethodCallBox) -> bool {
        forall|t: TypeModel| #[trigger] b.seen().contains(t) && t != TypeModel::Bot ==> self.answered(b, t)
    }

    /// Edge `e` is one that firing `b` added: from a fresh source holding the
    /// return type registered for one of the receiver's types, into the
    /// return vertex.
    pub open spec fn fired_edge_from(start: GlobalEnv, g: GlobalEnv, b: MethodCallBox, e: (VertexId, VertexId), t: TypeModel) -> bool {
        &&& e.1 == b.return_vertex
        &&& g.vertex_manager.is_source(e.0)
        &&& e.0.0 >= start.vertex_manager.nodes@.len()
        &&& t != TypeModel::Bot
        &&& start.vertex_manager.holds(b.receiver, t)
        &&& g.method_registry@.contains_key((t, b.method_name@))
        &&& g.vertex_manager.source_type(e.0) == g.method_registry@[(t, b.method_name@)]
    }

    pub open spec fn fired_edge(start: GlobalEnv, g: GlobalEnv, b: MethodCallBox, e: (VertexId, VertexId)) -> bool {
        exists|t: TypeModel| Self::fired_edge_from(start, g, b, e, t)
    }

    proof fn lemma_fired_edges_transfer(start: GlobalEnv, g0: GlobalEnv, g1: GlobalEnv, b: MethodCallBox)
        requires
            g1.vertex_manager.extends(&g0.vertex_manager),
            g1.method_registry == g0.method_registry,
        ensures
            forall|e: (VertexId, VertexId)| #[trigger] Self::fired_edge(start, g0, b, e) ==> Self::fired_edge(start, g1, b, e),
    {
        g1.vertex_manager.lemma_extends_holds(&g0.vertex_manager);
        assert forall|e: (VertexId, VertexId)| #[trigger] Self::fired_edge(start, g0, b, e) implies Self::fired_edge(
            start,
            g1,
            b,
            e,
        ) by {
            let t = choose|t: TypeModel| Self::fired_edge_from(start, g0, b, e, t);
            assert(g1.vertex_manager.node_types(e.0) == g0.vertex_manager.node_types(e.0));
            assert(g1.vertex_manager.node_types(e.0)[0] == g1.vertex_manager.source_type(e.0));
            assert(Self::fired_edge_from(start, g1, b, e, t));
        }
    }

    /// Records that `b` found no method for receiver type `t`.
    fn record_error(&mut self, t: &Type, b: &MethodCallBox)
        requires
            old(self).wf(),
            t@ != TypeModel::Bot,
        ensures
            final(self).wf(),
            final(self).steps_from(old(self)),
            old(self).settled() ==> final(self).settled(),
            old(self).unfired() ==> final(self).unfired(),
            final(self).error_recorded(t@, b.method_name@, b.location),
            final(self).type_errors@.len() == old(self).type_errors@.len() + 1,
            forall|k: int| 0 <= k < old(self).type_errors@.len() ==> final(self).type_errors@[k] == old(self).type_errors@[k],
            final(self).type_errors@.last().receiver_type@ == t@,
            final(self).type_errors@.last().method_name@ == b.method_name@,
            final(self).type_errors@.last().location == b.location,
            final(self).vertex_manager == old(self).vertex_manager,
            final(self).box_manager == old(self).box_manager,
            final(self).method_registry == old(self).method_registry,
    {
        let ghost start = *self;
        let e = TypeError::new(copy_type(t), b.method_name.clone(), b.receiver, copy_location(&b.location));
        self.type_errors.push(e);
        proof {
            let n = start.type_errors@.len() as int;
            assert(self.type_errors@[n].receiver_type@ == t@);
            self.vertex_manager.lemma_refl();
            self.vertex_manager.lemma_frame_extends(&start.vertex_manager);
            assert forall|k: int| 0 <= k < self.type_errors@.len() implies (#[trigger] self.type_errors@[k]).receiver_type@
                != TypeModel::Bot by {
                if k < n {
                    assert(self.type_errors@[k] == start.type_errors@[k]);
                }
            }
            assert(self.steps_from(&start));
            self.lemma_step_preserves(&start);
        }
    }

    /// Fires a detached box: each receiver type it has not seen is looked
    /// up; a hit sends the return type to the return vertex through a new
    /// source, a miss is recorded; then all receiver types count as seen.
    /// A hit is dropped only when no node id is left to allocate.
    fn fire(&mut self, b: MethodCallBox) -> (r: MethodCallBox)
        requires
            old(self).wf(),
            old(self).box_ok(b),
            !old(self).occupied(b.id.0 as int),
        ensures
            final(self).wf(),
            final(self).steps_from(old(self)),
            old(self).settled() ==> final(self).settled(),
            old(self).unfired() ==> final(self).unfired(),
            final(self).box_ok(r),
            r.id == b.id,
            r.receiver == b.receiver,
            r.method_name == b.method_name,
            r.return_vertex == b.return_vertex,
            r.location == b.location,
            r.seen().len() >= b.seen().len(),
            forall|t: TypeModel| #[trigger] b.seen().contains(t) ==> r.seen().contains(t),
            r.seen().len() == b.seen().len() ==> *final(self) == *old(self),
            final(self).box_manager.run_queue@.contains(r.id) || final(self).caught_up(r),
            final(self).vertex_manager.measure() <= old(self).vertex_manager.measure(),
            final(self).vertex_manager.nodes@.len() < usize::MAX && old(self).box_settled(b) ==> final(self).box_settled(r),
            forall|k: int|
                old(self).type_errors@.len() <= k < final(self).type_errors@.len() ==> {
                    let e = #[trigger] final(self).type_errors@[k];
                    &&& e.method_name@ == b.method_name@
                    &&& e.location == b.location
                    &&& e.receiver_type@ != TypeModel::Bot
                    &&& !final(self).method_registry@.contains_key((e.receiver_type@, b.method_name@))
                    &&& old(self).vertex_manager.holds(b.receiver, e.receiver_type@)
                    &&& !b.seen().contains(e.receiver_type@)
                    &&& r.seen().contains(e.receiver_type@)
                },
            forall|k1: int, k2: int|
                old(self).type_errors@.len() <= k1 < k2 < final(self).type_errors@.len()
                    ==> (#[trigger] final(self).type_errors@[k1]).receiver_type@
                    != (#[trigger] final(self).type_errors@[k2]).receiver_type@,
            forall|e: (VertexId, VertexId)| #[trigger] final(self).vertex_manager.edges@.contains(e)
                ==> old(self).vertex_manager.edges@.contains(e) || Self::fired_edge(*old(self), *final(self), b, e),
            forall|e: (VertexId, VertexId)| #[trigger] old(self).vertex_manager.edges@.contains(e)
                ==> final(self).vertex_manager.edges@.contains(e),
    {
        let ghost start = *self;
        let types = self.vertex_manager.get_types(b.receiver);
        let ghost tm = models(types@);
        let ghost seen0 = b.seen();
        let mut additions: Vec<Type> = Vec::new();
        proof {
            self.vertex_manager.lemma_refl();
            self.vertex_manager.lemma_frame_extends(&start.vertex_manager);
            assert(self.steps_from(&start));
        }
        let mut i: usize = 0;
        while i < types.len()
            invariant
                0 <= i <= types@.len(),
                tm == models(types@),
                tm == start.vertex_manager.node_types(b.receiver),
                seen0 == b.seen(),
                start.wf(),
                start.box_ok(b),
                self.wf(),
                self.steps_from(&start),
                start.settled() ==> self.settled(),
                start.unfired() ==> self.unfired(),
                !self.occupied(b.id.0 as int),
                self.vertex_manager.measure() <= start.vertex_manager.measure(),
                models(additions@) == added_types(seen0, tm.subrange(0, i as int)),
                additions@.len() == 0 ==> *self == start,
                forall|j: int|
                    0 <= j < i && !seen0.contains(#[trigger] tm[j]) && tm[j] != TypeModel::Bot
                        && self.vertex_manager.nodes@.len() < usize::MAX ==> self.answered(b, tm[j]),
                self.type_errors@.len() >= start.type_errors@.len(),
                forall|k: int|
                    start.type_errors@.len() <= k < self.type_errors@.len() ==> {
                        let e = #[trigger] self.type_errors@[k];
                        &&& e.method_name@ == b.method_name@
                        &&& e.location == b.location
                        &&& e.receiver_type@ != TypeModel::Bot
                        &&& !self.method_registry@.contains_key((e.receiver_type@, b.method_name@))
                        &&& !seen0.contains(e.receiver_type@)
                        &&& exists|j: int| 0 <= j < i && tm[j] == e.receiver_type@
                    },
                forall|k1: int, k2: int|
                    start.type_errors@.len() <= k1 < k2 < self.type_errors@.len() ==> (#[trigger] self.type_errors@[k1]).receiver_type@
                        != (#[trigger] self.type_errors@[k2]).receiver_type@,
                forall|e: (VertexId, VertexId)| #[trigger] self.vertex_manager.edges@.contains(e) ==> start.vertex_manager.edges@.contains(e)
                    || Self::fired_edge(start, *self, b, e),
                forall|e: (VertexId, VertexId)| #[trigger] start.vertex_manager.edges@.contains(e)
                    ==> self.vertex_manager.edges@.contains(e),
                tm.no_duplicates(),
            decreases types.len() - i,
        {
            let ghost before = *self;
            proof {
                assert(tm.subrange(0, i + 1).drop_last() =~= tm.subrange(0, i as int));
                assert(tm.subrange(0, i + 1).last() == tm[i as int]);
                assert(types@[i as int]@ == tm[i as int]);
            }
            let t = &types[i];
            if !contains_type(&b.seen_types, t) {
                proof {
                    lemma_added_covers(seen0, tm.subrange(0, i as int));
                    let prev = added_types(seen0, tm.subrange(0, i as int));
                    if (seen0 + prev).contains(tm[i as int]) {
                        let k = choose|k: int| 0 <= k < (seen0 + prev).len() && (seen0 + prev)[k] == tm[i as int];
                        if k >= seen0.len() {
                            assert(prev[k - seen0.len()] == tm[i as int]);
                            assert(tm.subrange(0, i as int).contains(tm[i as int]));
                            let q = choose|q: int| 0 <= q < i && tm.subrange(0, i as int)[q] == tm[i as int];
                            assert(start.vertex_manager.node_types(b.receiver).no_duplicates()) by {
                                if start.vertex_manager.is_vertex(b.receiver) {
                                    assert(start.vertex_manager.vertex(b.receiver).wf());
                                }
                            }
                            assert(tm[q] == tm[i as int]);
                        } else {
                            assert(seen0[k] == tm[i as int]);
                        }
                    }
                }
                additions.push(copy_type(t));
                proof {
                    assert(models(additions@) =~= added_types(seen0, tm.subrange(0, i as int)).push(tm[i as int]));
                }
                let is_bot = match t {
                    Type::Bot => true,
                    _ => false,
                };
                if !is_bot {
                    let hit = match self.method_registry.resolve(t, b.method_name.as_str()) {
                        Some(info) => Some(copy_type(&info.return_type)),
                        None => None,
                    };
                    match hit {
                        Some(ret) => {
                            if self.vertex_manager.nodes.len() < usize::MAX {
                                let ghost pre = *self;
                                let ghost rt = ret@;
                                let src = self.new_source(ret);
                                proof {
                                    assert(pre.method_registry@.contains_key((t@, b.method_name@)));
                                    assert(pre.vertex_manager.universe@.contains(rt));
                                    assert(self.vertex_manager.universe@ =~= pre.vertex_manager.universe@);
                                    self.vertex_manager.lemma_push_extends(&pre.vertex_manager);
                                    assert(self.vertex_manager.nodes@.last() is Source);
                                    assert(self.steps_from(&pre));
                                    self.lemma_steps_chain(&pre, &start);
                                }
                                let ghost mid = *self;
                                self.add_edge(src, b.return_vertex);
                                proof {
                                    self.lemma_steps_chain(&mid, &start);
                                    self.lemma_steps_chain(&mid, &before);
                                    assert(self.vertex_manager.edges@.contains((src, b.return_vertex)));
                                    assert(self.vertex_manager.node_types(src)[0] == rt);
                                    assert(self.vertex_manager.holds(src, rt));
                                    self.vertex_manager.lemma_extends_holds(&start.vertex_manager);
                                    assert(self.vertex_manager.is_vertex(b.return_vertex));
                                    assert(self.vertex_manager.holds(b.return_vertex, rt));
                                    assert(self.answered(b, tm[i as int]));
                                    self.vertex_manager.lemma_extends_chain(&mid.vertex_manager, &before.vertex_manager);
                                    Self::lemma_fired_edges_transfer(start, before, *self, b);
                                    assert(Self::fired_edge_from(start, *self, b, (src, b.return_vertex), tm[i as int]));
                                    assert forall|e: (VertexId, VertexId)| #[trigger] start.vertex_manager.edges@.contains(e)
                                        implies self.vertex_manager.edges@.contains(e) by {
                                        assert(before.vertex_manager.edges@.contains(e));
                                    }
                                    assert forall|e: (VertexId, VertexId)| #[trigger] self.vertex_manager.edges@.contains(e)
                                        implies start.vertex_manager.edges@.contains(e) || Self::fired_edge(start, *self, b, e) by {
                                        if e != (src, b.return_vertex) {
                                            assert(before.vertex_manager.edges@.contains(e));
                                        }
                                    }
                                }
                            }
                        },
                        None => {
                            self.record_error(t, &b);
                            proof {
                                self.lemma_steps_chain(&before, &start);
                            }
                        },
                    }
                }
            }
            proof {
                if *self == before {
                    self.lemma_steps_refl();
                }
                assert(self.steps_from(&before));
                self.lemma_answered_mono(&before);
                if self.vertex_manager == before.vertex_manager {
                    self.vertex_manager.lemma_refl();
                    self.vertex_manager.lemma_frame_extends(&before.vertex_manager);
                    Self::lemma_fired_edges_transfer(start, before, *self, b);
                }
                assert forall|j: int|
                    0 <= j <= i && !seen0.contains(#[trigger] tm[j]) && tm[j] != TypeModel::Bot
                        && self.vertex_manager.nodes@.len() < usize::MAX implies self.answered(b, tm[j]) by {
                    if j < i {
                        assert(before.answered(b, tm[j]));
                    }
                }
                if !models(additions@).contains(tm[i as int]) || seen0.contains(tm[i as int]) {
                    assert(tm.subrange(0, i + 1).drop_last() =~= tm.subrange(0, i as int));
                }
            }
            i = i + 1;
        }
        let ghost adds = models(additions@);
        let mut r = b;
        let ghost seen_before = r.seen_types@;
        r.seen_types.append(&mut additions);
        proof {
            assert(tm.subrange(0, i as int) =~= tm);
            assert(r.seen() =~= seen0 + adds);
            lemma_added_covers(seen0, tm);
            self.vertex_manager.lemma_extends_holds(&start.vertex_manager);
            self.lemma_answered_mono(&start);
            assert(start.vertex_manager.node_types(b.receiver).no_duplicates()) by {
                if start.vertex_manager.is_vertex(b.receiver) {
                    assert(start.vertex_manager.vertex(b.receiver).wf());
                }
            }
            assert forall|t: TypeModel| #[trigger] r.seen().contains(t) implies self.vertex_manager.holds(r.receiver, t) by {
                let k = choose|k: int| 0 <= k < r.seen().len() && r.seen()[k] == t;
                if k < seen0.len() {
                    assert(seen0.contains(t));
                    assert(start.vertex_manager.holds(b.receiver, t));
                } else {
                    assert(adds.contains(t));
                    assert(tm.contains(t));
                    assert(start.vertex_manager.holds(b.receiver, t));
                }
            }
            assert(self.box_ok(r)) by {
                if start.vertex_manager.is_vertex(b.receiver) {
                    assert(self.vertex_manager.vertex(b.receiver).boxes == start.vertex_manager.vertex(b.receiver).boxes);
                }
            }
            if !self.box_manager.run_queue@.contains(r.id) {
                assert forall|t: TypeModel| #[trigger] self.vertex_manager.holds(r.receiver, t) implies r.seen().contains(t) by {
                    if start.vertex_manager.is_vertex(b.receiver) {
                        let v = start.vertex_manager.vertex(b.receiver);
                        let k = choose|k: int| 0 <= k < v.boxes@.len() && v.boxes@[k] == b.id;
                        if self.vertex_manager.vertex(b.receiver).types@.len() != v.types@.len() {
                            assert(self.box_manager.run_queue@.contains(v.boxes@[k]));
                        }
                    }
                    assert(self.vertex_manager.node_types(b.receiver) == start.vertex_manager.node_types(b.receiver));
                    assert(tm.contains(t));
                    assert((seen0 + adds).contains(t));
                }
            }
            assert forall|t: TypeModel| #[trigger] b.seen().contains(t) implies r.seen().contains(t) by {
                let q = choose|q: int| 0 <= q < seen0.len() && seen0[q] == t;
                assert(r.seen()[q] == t);
            }
            assert forall|k: int| start.type_errors@.len() <= k < self.type_errors@.len() implies {
                let e = #[trigger] self.type_errors@[k];
                &&& start.vertex_manager.holds(b.receiver, e.receiver_type@)
                &&& r.seen().contains(e.receiver_type@)
            } by {
                let e = self.type_errors@[k];
                let j = choose|j: int| 0 <= j < i && tm[j] == e.receiver_type@;
                assert(tm.contains(e.receiver_type@));
                assert((seen0 + adds).contains(e.receiver_type@));
            }
            if self.vertex_manager.nodes@.len() < usize::MAX && start.box_settled(b) {
                assert forall|t: TypeModel| #[trigger] r.seen().contains(t) && t != TypeModel::Bot implies self.answered(r, t) by {
                    let k = choose|k: int| 0 <= k < r.seen().len() && r.seen()[k] == t;
                    if k < seen0.len() {
                        assert(seen0.contains(t));
                        assert(start.answered(b, t));
                    } else {
                        assert(adds.contains(t));
                        assert(tm.contains(t));
                        let j = choose|j: int| 0 <= j < tm.len() && tm[j] == t;
                        if seen0.contains(t) {
                            assert(start.answered(b, t));
                        } else {
                            assert(self.answered(b, tm[j]));
                        }
                    }
                }
            }
        }
        r
    }

    proof fn lemma_steps_refl(&self)
        ensures
            self.steps_from(self),
    {
        self.vertex_manager.lemma_refl();
        self.vertex_manager.lemma_frame_extends(&self.vertex_manager);
    }

    /// The firing measure: what the graph and the boxes have yet to learn.
    pub open spec fn measure(&self) -> nat {
        self.vertex_manager.measure() + box_slack(self.box_manager.boxes@, self.vertex_manager.universe@.len())
    }

    proof fn lemma_seen_bounded(&self, b: MethodCallBox)
        requires
            self.vertex_manager.wf_nodes(),
            self.box_ok(b),
        ensures
            b.seen_types@.len() <= self.vertex_manager.universe@.len(),
    {
        let s = b.seen();
        s.unique_seq_to_set();
        assert forall|t: TypeModel| s.to_set().contains(t) implies self.vertex_manager.universe@.contains(t) by {
            assert(self.vertex_manager.holds(b.receiver, t));
        }
        lemma_len_subset(s.to_set(), self.vertex_manager.universe@);
    }

    /// The state after the front of the queue was popped and its box detached.
    proof fn lemma_detach(&self, start: &GlobalEnv, id: BoxId)
        requires
            start.wf(),
            start.box_manager.run_queue@.len() > 0,
            start.box_manager.run_queue@[0] == id,
            self.box_manager.run_queue@ == start.box_manager.run_queue@.subrange(1, start.box_manager.run_queue@.len() as int),
            self.box_manager.wf(),
            self.box_manager.boxes@ == start.box_manager.boxes@ || self.box_manager.boxes@
                == start.box_manager.boxes@.update(id.0 as int, None),
            id.0 < start.box_manager.boxes@.len() || self.box_manager.boxes@ == start.box_manager.boxes@,
            !self.occupied(id.0 as int),
            self.vertex_manager == start.vertex_manager,
            self.method_registry == start.method_registry,
            self.scope_manager == start.scope_manager,
            self.type_errors == start.type_errors,
        ensures
            self.wf(),
            start.settled() ==> self.settled(),
    {
        let q = start.box_manager.run_queue@;
        assert forall|i: int| #[trigger] self.occupied(i) implies self.slot(i) == start.slot(i) && start.occupied(i) by {
            assert(i != id.0);
        }
        assert forall|i: int| #[trigger] self.occupied(i) implies self.box_ok(self.slot(i)) && self.slot(i).id == BoxId(
            i as usize,
        ) by {
            assert(start.occupied(i));
        }
        assert forall|i: int| #[trigger] self.occupied(i) implies self.box_manager.run_queue@.contains(BoxId(i as usize))
            || self.caught_up(self.slot(i)) by {
            assert(start.occupied(i));
            if q.contains(BoxId(i as usize)) {
                let k = choose|k: int| 0 <= k < q.len() && q[k] == BoxId(i as usize);
                assert(i != id.0);
                assert(start.box_manager.boxes.len() == start.box_manager.boxes@.len());
                assert((i as usize) as int == i);
                assert(BoxId(i as usize) != id);
                assert(k != 0);
                assert(self.box_manager.run_queue@[k - 1] == BoxId(i as usize));
            }
        }
        if start.settled() {
            assert forall|i: int, t: TypeModel|
                #[trigger] self.occupied(i) && #[trigger] self.slot(i).seen().contains(t) && t != TypeModel::Bot
                    implies self.answered(self.slot(i), t) by {
                assert(start.occupied(i));
                assert(start.answered(start.slot(i), t));
            }
        }
    }

    /// Fires waiting boxes, front first, until the run queue is empty.
    /// The call of box `a` is the call of box `b`.
    pub open spec fn same_call(a: MethodCallBox, b: MethodCallBox) -> bool {
        &&& a.id == b.id
        &&& a.receiver == b.receiver
        &&& a.method_name == b.method_name
        &&& a.return_vertex == b.return_vertex
        &&& a.location == b.location
    }

    /// The same boxes, for the same calls, having seen at least as much.
    pub open spec fn boxes_stable(&self, start: &GlobalEnv) -> bool {
        &&& self.box_manager.boxes@.len() == start.box_manager.boxes@.len()
        &&& forall|i: int| #[trigger] self.occupied(i) == start.occupied(i)
        &&& forall|i: int| #[trigger] start.occupied(i) ==> Self::same_call(self.slot(i), start.slot(i))
        &&& forall|i: int, t: TypeModel|
            start.occupied(i) && #[trigger] start.slot(i).seen().contains(t) ==> self.slot(i).seen().contains(t)
    }

    /// Error `k` was recorded by box `bid` since `start`: a type its
    /// receiver holds, not `Bot`, with no method registered, and not seen by
    /// the box before `start`.
    pub open spec fn error_by(&self, start: &GlobalEnv, k: int, bid: BoxId) -> bool {
        let e = self.type_errors@[k];
        let i = bid.0 as int;
        &&& self.occupied(i)
        &&& self.slot(i).method_name@ == e.method_name@
        &&& self.slot(i).location == e.location
        &&& e.receiver_type@ != TypeModel::Bot
        &&& !self.method_registry@.contains_key((e.receiver_type@, e.method_name@))
        &&& self.vertex_manager.holds(self.slot(i).receiver, e.receiver_type@)
        &&& self.slot(i).seen().contains(e.receiver_type@)
        &&& !(start.occupied(i) && start.slot(i).seen().contains(e.receiver_type@))
    }

    /// The errors added since `start` are attributed by `origin` to boxes,
    /// each (box, receiver type) pair at most once.
    pub open spec fn errors_attributed(&self, start: &GlobalEnv, origin: Seq<BoxId>) -> bool {
        let n = start.type_errors@.len();
        &&& origin.len() + n == self.type_errors@.len()
        &&& forall|k: int| 0 <= k < origin.len() ==> self.error_by(start, n + k, #[trigger] origin[k])
        &&& forall|k1: int, k2: int|
            0 <= k1 < k2 < origin.len() ==> (#[trigger] origin[k1], self.type_errors@[n + k1].receiver_type@) != (
            #[trigger] origin[k2],
            self.type_errors@[n + k2].receiver_type@,
        )
    }

    /// Edge `e` was added by a box firing: from a source allocated since
    /// `start` holding the return type registered for a receiver type of the
    /// box, into its return vertex.
    pub open spec fn run_edge(start: GlobalEnv, g: GlobalEnv, e: (VertexId, VertexId)) -> bool {
        exists|i: int, t: TypeModel|
            #![trigger g.slot(i), g.vertex_manager.holds(g.slot(i).receiver, t)]
            t != TypeModel::Bot && g.occupied(i) && e.1 == g.slot(i).return_vertex && g.vertex_manager.is_source(e.0) && e.0.0
                >= start.vertex_manager.nodes@.len() && g.vertex_manager.holds(g.slot(i).receiver, t)
                && g.method_registry@.contains_key((t, g.slot(i).method_name@)) && g.vertex_manager.source_type(e.0)
                == g.method_registry@[(t, g.slot(i).method_name@)]
    }

    /// Every edge added since `start` was added by a box firing.
    pub open spec fn edges_explained(&self, start: &GlobalEnv) -> bool {
        forall|e: (VertexId, VertexId)| #[trigger] self.vertex_manager.edges@.contains(e)
            ==> start.vertex_manager.edges@.contains(e) || Self::run_edge(*start, *self, e)
    }

    proof fn lemma_same_accounting(&self, before: &GlobalEnv, start: &GlobalEnv, origin: Seq<BoxId>)
        requires
            before.boxes_stable(start),
            before.errors_attributed(start, origin),
            before.edges_explained(start),
            self.box_manager.boxes@ == before.box_manager.boxes@,
            self.vertex_manager == before.vertex_manager,
            self.method_registry == before.method_registry,
            self.type_errors == before.type_errors,
        ensures
            self.boxes_stable(start),
            self.errors_attributed(start, origin),
            self.edges_explained(start),
    {
        let n = start.type_errors@.len();
        assert forall|i: int| #[trigger] self.occupied(i) == start.occupied(i) by {
            assert(self.occupied(i) == before.occupied(i));
        }
        assert forall|i: int| #[trigger] start.occupied(i) implies Self::same_call(self.slot(i), start.slot(i)) by {
            assert(self.slot(i) == before.slot(i));
        }
        assert forall|i: int, t: TypeModel|
            start.occupied(i) && #[trigger] start.slot(i).seen().contains(t) implies self.slot(i).seen().contains(t) by {
            assert(self.slot(i) == before.slot(i));
        }
        assert forall|k: int| 0 <= k < origin.len() implies self.error_by(start, n + k, #[trigger] origin[k]) by {
            assert(before.error_by(start, n + k, origin[k]));
            assert(self.slot(origin[k].0 as int) == before.slot(origin[k].0 as int));
        }
        assert forall|e: (VertexId, VertexId)| #[trigger] self.vertex_manager.edges@.contains(e) implies start.vertex_manager.edges@.contains(
            e,
        ) || Self::run_edge(*start, *self, e) by {
            if !start.vertex_manager.edges@.contains(e) {
                assert(before.vertex_manager.edges@.contains(e));
                let (i, t) = choose|i: int, t: TypeModel|
                    t != TypeModel::Bot && before.occupied(i) && e.1 == before.slot(i).return_vertex && before.vertex_manager.is_source(e.0)
                        && e.0.0 >= start.vertex_manager.nodes@.len() && before.vertex_manager.holds(
                        before.slot(i).receiver,
                        t,
                    ) && before.method_registry@.contains_key((t, before.slot(i).method_name@))
                        && before.vertex_manager.source_type(e.0) == before.method_registry@[(
                        t,
                        before.slot(i).method_name@,
                    )];
                assert(self.slot(i) == before.slot(i));
                assert(self.vertex_manager.holds(self.slot(i).receiver, t));
            }
        }
    }

    /// The accounting since `g1` is the accounting since `g0` when the two
    /// differ in nothing it reads.
    pub proof fn lemma_start_swap(&self, g0: &GlobalEnv, g1: &GlobalEnv, origin: Seq<BoxId>)
        requires
            g1.box_manager.boxes@ == g0.box_manager.boxes@,
            g1.type_errors == g0.type_errors,
            g1.vertex_manager.nodes@.len() == g0.vertex_manager.nodes@.len(),
            self.boxes_stable(g1),
            self.errors_attributed(g1, origin),
        ensures
            self.boxes_stable(g0),
            self.errors_attributed(g0, origin),
            forall|e: (VertexId, VertexId)| #[trigger] Self::run_edge(*g1, *self, e) ==> Self::run_edge(*g0, *self, e),
    {
        let n = g0.type_errors@.len();
        assert forall|i: int| #[trigger] self.occupied(i) == g0.occupied(i) by {
            assert(g1.occupied(i) == g0.occupied(i));
        }
        assert forall|i: int| #[trigger] g0.occupied(i) implies Self::same_call(self.slot(i), g0.slot(i)) by {
            assert(g1.occupied(i));
        }
        assert forall|i: int, t: TypeModel|
            g0.occupied(i) && #[trigger] g0.slot(i).seen().contains(t) implies self.slot(i).seen().contains(t) by {
            assert(g1.occupied(i) && g1.slot(i) == g0.slot(i));
        }
        assert forall|k: int| 0 <= k < origin.len() implies self.error_by(g0, n + k, #[trigger] origin[k]) by {
            assert(self.error_by(g1, n + k, origin[k]));
            assert(g1.slot(origin[k].0 as int) == g0.slot(origin[k].0 as int));
        }
        assert forall|e: (VertexId, VertexId)| #[trigger] Self::run_edge(*g1, *self, e) implies Self::run_edge(*g0, *self, e) by {
            let (i, t) = choose|i: int, t: TypeModel|
                #![trigger self.slot(i), self.vertex_manager.holds(self.slot(i).receiver, t)]
                t != TypeModel::Bot && self.occupied(i) && e.1 == self.slot(i).return_vertex && self.vertex_manager.is_source(e.0) && e.0.0
                    >= g1.vertex_manager.nodes@.len() && self.vertex_manager.holds(self.slot(i).receiver, t)
                    && self.method_registry@.contains_key((t, self.slot(i).method_name@))
                    && self.vertex_manager.source_type(e.0) == self.method_registry@[(t, self.slot(i).method_name@)];
            assert(self.vertex_manager.holds(self.slot(i).receiver, t));
        }
    }

    /// One firing step of `run_all` keeps the accounting of boxes, errors and edges.
    proof fn lemma_run_step(
        &self,
        start: &GlobalEnv,
        before: &GlobalEnv,
        detached: &GlobalEnv,
        fired: &GlobalEnv,
        id: BoxId,
        b: MethodCallBox,
        r: MethodCallBox,
        origin: Seq<BoxId>,
    ) -> (origin2: Seq<BoxId>)
        requires
            before.wf(),
            before.boxes_stable(start),
            before.errors_attributed(start, origin),
            before.edges_explained(start),
            before.vertex_manager.extends(&start.vertex_manager),
            before.method_registry == start.method_registry,
            before.errors_kept(start),
            before.occupied(id.0 as int),
            before.slot(id.0 as int) == b,
            b.id == id,
            detached.box_manager.boxes@ == before.box_manager.boxes@.update(id.0 as int, None),
            detached.vertex_manager == before.vertex_manager,
            detached.method_registry == before.method_registry,
            detached.type_errors == before.type_errors,
            fired.steps_from(detached),
            Self::same_call(r, b),
            forall|t: TypeModel| #[trigger] b.seen().contains(t) ==> r.seen().contains(t),
            forall|k: int|
                detached.type_errors@.len() <= k < fired.type_errors@.len() ==> {
                    let e = #[trigger] fired.type_errors@[k];
                    &&& e.method_name@ == b.method_name@
                    &&& e.location == b.location
                    &&& e.receiver_type@ != TypeModel::Bot
                    &&& !fired.method_registry@.contains_key((e.receiver_type@, b.method_name@))
                    &&& detached.vertex_manager.holds(b.receiver, e.receiver_type@)
                    &&& !b.seen().contains(e.receiver_type@)
                    &&& r.seen().contains(e.receiver_type@)
                },
            forall|k1: int, k2: int|
                detached.type_errors@.len() <= k1 < k2 < fired.type_errors@.len()
                    ==> (#[trigger] fired.type_errors@[k1]).receiver_type@
                    != (#[trigger] fired.type_errors@[k2]).receiver_type@,
            forall|e: (VertexId, VertexId)| #[trigger] fired.vertex_manager.edges@.contains(e)
                ==> detached.vertex_manager.edges@.contains(e) || Self::fired_edge(*detached, *fired, b, e),
            self.box_manager.boxes@ == fired.box_manager.boxes@.update(id.0 as int, Some(r)),
            self.vertex_manager == fired.vertex_manager,
            self.method_registry == fired.method_registry,
            self.type_errors == fired.type_errors,
        ensures
            self.boxes_stable(start),
            self.errors_attributed(start, origin2),
            self.edges_explained(start),
    {
        let i0 = id.0 as int;
        let n = start.type_errors@.len();
        let m = before.type_errors@.len();
        let added = fired.type_errors@.len() - m;
        let origin2 = origin + Seq::new(added as nat, |q: int| id);
        self.vertex_manager.lemma_extends_holds(&before.vertex_manager);
        assert(self.slot(i0) == r);
        assert forall|i: int| #[trigger] self.occupied(i) == start.occupied(i) by {
            assert(self.occupied(i) == before.occupied(i));
        }
        assert forall|i: int| #[trigger] start.occupied(i) implies Self::same_call(self.slot(i), start.slot(i)) by {
            assert(before.occupied(i));
        }
        assert forall|i: int, t: TypeModel|
            start.occupied(i) && #[trigger] start.slot(i).seen().contains(t) implies self.slot(i).seen().contains(t) by {
            assert(before.occupied(i));
            assert(before.slot(i).seen().contains(t));
        }
        assert forall|k: int| 0 <= k < origin2.len() implies self.error_by(start, n + k, #[trigger] origin2[k]) by {
            if k < origin.len() {
                assert(before.error_by(start, n + k, origin[k]));
                assert(self.type_errors@[n + k] == before.type_errors@[n + k]);
                let j = origin[k].0 as int;
                assert(before.occupied(j));
                let t = before.type_errors@[n + k].receiver_type@;
                assert(before.slot(j).seen().contains(t));
                if j == i0 {
                    assert(b.seen().contains(t));
                }
            } else {
                let kk = n + k;
                assert(origin2[k] == id);
                assert(m <= kk);
                let e = fired.type_errors@[kk];
                assert(detached.vertex_manager.holds(b.receiver, e.receiver_type@));
                assert(before.vertex_manager.holds(b.receiver, e.receiver_type@));
                if start.occupied(i0) && start.slot(i0).seen().contains(e.receiver_type@) {
                    assert(before.slot(i0).seen().contains(e.receiver_type@));
                }
            }
        }
        assert forall|k1: int, k2: int|
            0 <= k1 < k2 < origin2.len() implies (#[trigger] origin2[k1], self.type_errors@[n + k1].receiver_type@)
            != (#[trigger] origin2[k2], self.type_errors@[n + k2].receiver_type@) by {
            if k2 < origin.len() {
                assert(self.type_errors@[n + k1] == before.type_errors@[n + k1]);
                assert(self.type_errors@[n + k2] == before.type_errors@[n + k2]);
            } else if k1 < origin.len() {
                if origin[k1] == id {
                    assert(before.error_by(start, n + k1, origin[k1]));
                    assert(self.type_errors@[n + k1] == before.type_errors@[n + k1]);
                    assert(before.slot(i0).seen().contains(before.type_errors@[n + k1].receiver_type@));
                    assert(!b.seen().contains(fired.type_errors@[n + k2].receiver_type@));
                }
            } else {
                assert(fired.type_errors@[n + k1].receiver_type@ != fired.type_errors@[n + k2].receiver_type@);
            }
        }
        assert forall|e: (VertexId, VertexId)| #[trigger] self.vertex_manager.edges@.contains(e) implies start.vertex_manager.edges@.contains(
            e,
        ) || Self::run_edge(*start, *self, e) by {
            if before.vertex_manager.edges@.contains(e) {
                if !start.vertex_manager.edges@.contains(e) {
                    let (i, t) = choose|i: int, t: TypeModel|
                        t != TypeModel::Bot && before.occupied(i) && e.1 == before.slot(i).return_vertex && before.vertex_manager.is_source(e.0)
                            && e.0.0 >= start.vertex_manager.nodes@.len() && before.vertex_manager.holds(
                            before.slot(i).receiver,
                            t,
                        ) && before.method_registry@.contains_key((t, before.slot(i).method_name@))
                            && before.vertex_manager.source_type(e.0) == before.method_registry@[(
                            t,
                            before.slot(i).method_name@,
                        )];
                    assert(self.vertex_manager.node_types(e.0) == before.vertex_manager.node_types(e.0));
                    assert(self.vertex_manager.node_types(e.0)[0] == self.vertex_manager.source_type(e.0));
                    assert(self.occupied(i));
                    assert(self.vertex_manager.holds(self.slot(i).receiver, t));
                }
            } else {
                let t = choose|t: TypeModel| Self::fired_edge_from(*detached, *fired, b, e, t);
                assert(self.occupied(i0));
                assert(self.vertex_manager.holds(self.slot(i0).receiver, t));
            }
        }
        origin2
    }

    pub fn run_all(&mut self)
        requires
            old(self).wf(),
        ensures
            final(self).wf(),
            final(self).box_manager.run_queue@.len() == 0,
            old(self).box_manager.run_queue@.len() == 0 ==> *final(self) == *old(self),
            old(self).settled() && final(self).vertex_manager.nodes@.len() < usize::MAX ==> final(self).settled(),
            final(self).vertex_manager.extends(&old(self).vertex_manager),
            final(self).vertex_manager.universe@ == old(self).vertex_manager.universe@,
            final(self).errors_kept(old(self)),
            final(self).method_registry == old(self).method_registry,
            final(self).scope_manager == old(self).scope_manager,
            final(self).vertex_manager.monotone_from(&old(self).vertex_manager),
            final(self).boxes_stable(old(self)),
            exists|origin: Seq<BoxId>| final(self).errors_attributed(old(self), origin),
            final(self).edges_explained(old(self)),
            forall|e: (VertexId, VertexId)| #[trigger] old(self).vertex_manager.edges@.contains(e)
                ==> final(self).vertex_manager.edges@.contains(e),
    {
        let ghost start = *self;
        let ghost mut origin: Seq<BoxId> = Seq::empty();
        proof {
            self.lemma_steps_refl();
            assert(self.errors_attributed(&start, origin));
        }
        loop
            invariant
                self.wf(),
                self.vertex_manager.extends(&start.vertex_manager),
                self.vertex_manager.universe@ == start.vertex_manager.universe@,
                self.errors_kept(&start),
                self.method_registry == start.method_registry,
                self.scope_manager == start.scope_manager,
                start.settled() && self.vertex_manager.nodes@.len() < usize::MAX ==> self.settled(),
                start.box_manager.run_queue@.len() == 0 ==> *self == start,
                self.boxes_stable(&start),
                self.errors_attributed(&start, origin),
                self.edges_explained(&start),
                forall|e: (VertexId, VertexId)| #[trigger] start.vertex_manager.edges@.contains(e)
                    ==> self.vertex_manager.edges@.contains(e),
            ensures
                self.wf(),
                self.box_manager.run_queue@.len() == 0,
                self.vertex_manager.extends(&start.vertex_manager),
                self.vertex_manager.universe@ == start.vertex_manager.universe@,
                self.errors_kept(&start),
                self.method_registry == start.method_registry,
                self.scope_manager == start.scope_manager,
                start.settled() && self.vertex_manager.nodes@.len() < usize::MAX ==> self.settled(),
                start.box_manager.run_queue@.len() == 0 ==> *self == start,
                self.boxes_stable(&start),
                self.errors_attributed(&start, origin),
                self.edges_explained(&start),
                forall|e: (VertexId, VertexId)| #[trigger] start.vertex_manager.edges@.contains(e)
                    ==> self.vertex_manager.edges@.contains(e),
            decreases self.measure(), self.box_manager.run_queue@.len(),
        {
            let ghost before = *self;
            let cap = Ghost(self.vertex_manager.universe@.len());
            match self.box_manager.pop_run() {
                None => {
                    break;
                },
                Some(id) => {
                    let ghost popped = *self;
                    match self.box_manager.remove(id) {
                        None => {
                            proof {
                                self.lemma_detach(&before, id);
                                assert(self.measure() == before.measure());
                                assert(self.box_manager.boxes@ == before.box_manager.boxes@);
                                self.lemma_same_accounting(&before, &start, origin);
                            }
                        },
                        Some(b) => {
                            let ghost detached = *self;
                            proof {
                                self.lemma_detach(&before, id);
                                lemma_box_slack_update(before.box_manager.boxes@, id.0 as int, None, cap@);
                                assert(before.occupied(id.0 as int));
                                assert(before.slot(id.0 as int) == b);
                                before.lemma_seen_bounded(b);
                            }
                            let r = self.fire(b);
                            let ghost fired = *self;
                            self.box_manager.insert(id, r);
                            proof {
                                assert(self.box_manager.boxes@ =~= fired.box_manager.boxes@.update(id.0 as int, Some(r)));
                                lemma_box_slack_update(fired.box_manager.boxes@, id.0 as int, Some(r), cap@);
                                assert(fired.box_manager.boxes@ == detached.box_manager.boxes@);
                                assert(fired.box_manager.boxes@[id.0 as int] is None);
                                fired.lemma_seen_bounded(r);
                                self.lemma_reattach(&fired, &detached, &before, r);
                                self.vertex_manager.lemma_extends_chain(&before.vertex_manager, &start.vertex_manager);
                                assert forall|k: int| 0 <= k < start.type_errors@.len() implies self.type_errors@[k]
                                    == #[trigger] start.type_errors@[k] by {
                                    assert(before.type_errors@[k] == start.type_errors@[k]);
                                }
                                origin = self.lemma_run_step(&start, &before, &detached, &fired, id, b, r, origin);
                                assert forall|e: (VertexId, VertexId)| #[trigger] start.vertex_manager.edges@.contains(e)
                                    implies self.vertex_manager.edges@.contains(e) by {
                                    assert(before.vertex_manager.edges@.contains(e));
                                }
                                if r.seen().len() == b.seen().len() {
                                    assert(fired == detached);
                                    assert(self.box_manager.run_queue@.len() < before.box_manager.run_queue@.len());
                                }
                            }
                        },
                    }
                },
            }
        }
        proof {
            self.vertex_manager.lemma_extends_monotone(&start.vertex_manager);
        }
    }

    proof fn lemma_reattach(&self, fired: &GlobalEnv, detached: &GlobalEnv, before: &GlobalEnv, r: MethodCallBox)
        requires
            before.wf(),
            detached.wf(),
            fired.wf(),
            fired.steps_from(detached),
            fired.box_ok(r),
            fired.box_manager.run_queue@.contains(r.id) || fired.caught_up(r),
            r.id.0 < fired.box_manager.boxes@.len(),
            self.box_manager.boxes@ == fired.box_manager.boxes@.update(r.id.0 as int, Some(r)),
            self.box_manager.run_queue == fired.box_manager.run_queue,
            self.box_manager.run_queue_set == fired.box_manager.run_queue_set,
            self.vertex_manager == fired.vertex_manager,
            self.method_registry == fired.method_registry,
            self.scope_manager == fired.scope_manager,
            self.type_errors == fired.type_errors,
            detached.settled() ==> fired.settled(),
        ensures
            self.wf(),
            fired.settled() && fired.box_settled(r) ==> self.settled(),
    {
        assert forall|i: int| #[trigger] self.occupied(i) && i != r.id.0 implies self.slot(i) == fired.slot(i)
            && fired.occupied(i) by {}
        assert forall|i: int| #[trigger] self.occupied(i) implies self.box_ok(self.slot(i)) && self.slot(i).id == BoxId(
            i as usize,
        ) by {
            if i != r.id.0 {
                assert(fired.occupied(i));
            }
        }
        assert forall|i: int| #[trigger] self.occupied(i) implies self.box_manager.run_queue@.contains(BoxId(i as usize))
            || self.caught_up(self.slot(i)) by {
            if i != r.id.0 {
                assert(fired.occupied(i));
            } else {
                assert(BoxId(i as usize) == r.id);
            }
        }
        if fired.settled() && fired.box_settled(r) {
            assert forall|i: int, t: TypeModel|
                #[trigger] self.occupied(i) && #[trigger] self.slot(i).seen().contains(t) && t != TypeModel::Bot
                    implies self.answered(self.slot(i), t) by {
                if i != r.id.0 {
                    assert(fired.occupied(i));
                    assert(fired.answered(fired.slot(i), t));
                } else {
                    assert(fired.answered(r, t));
                }
            }
        }
    }

    proof fn lemma_answered_from(&self, start: &GlobalEnv)
        requires
            self.method_registry == start.method_registry,
            self.errors_kept(start),
            forall|id: VertexId, t: TypeModel| #[trigger] start.vertex_manager.holds(id, t) ==> self.vertex_manager.holds(id, t),
        ensures
            forall|b: MethodCallBox, t: TypeModel| #[trigger] start.answered(b, t) ==> self.answered(b, t),
    {
        assert forall|b: MethodCallBox, t: TypeModel| #[trigger] start.answered(b, t) implies self.answered(b, t) by {
            if start.error_recorded(t, b.method_name@, b.location) {
                let k = choose|k: int|
                    0 <= k < start.type_errors@.len() && #[trigger] start.type_errors@[k].receiver_type@ == t
                        && start.type_errors@[k].method_name@ == b.method_name@ && start.type_errors@[k].location == b.location;
                assert(self.type_errors@[k] == start.type_errors@[k]);
            }
        }
    }

    /// Binds an instance variable in the innermost class scope.
    pub fn set_instance_var(&mut self, name: String, vtx: VertexId)
        requires
            old(self).wf(),
        ensures
            final(self).wf(),
            old(self).settled() ==> final(self).settled(),
            old(self).unfired() ==> final(self).unfired(),
            final(self).vertex_manager.monotone_from(&old(self).vertex_manager),
            final(self).scope_manager.class_name() == old(self).scope_manager.class_name(),
            match old(self).scope_manager.ivars() {
                Some(m) => final(self).scope_manager.ivars() == Some(m.insert(name@, vtx)),
                None => final(self).scope_manager.ivars() is None,
            },
            final(self).scope_manager.scopes@.len() == old(self).scope_manager.scopes@.len(),
            crate::scope::frames_kept(old(self).scope_manager.scopes@, final(self).scope_manager.scopes@),
            final(self).vertex_manager == old(self).vertex_manager,
            final(self).box_manager == old(self).box_manager,
            final(self).method_registry == old(self).method_registry,
            final(self).type_errors == old(self).type_errors,
    {
        let ghost start = *self;
        self.scope_manager.set_instance_var_in_class(name, vtx);
        proof {
            self.lemma_scope_only(&start);
            self.vertex_manager.lemma_refl();
            self.vertex_manager.lemma_frame_extends(&self.vertex_manager);
            self.vertex_manager.lemma_extends_monotone(&self.vertex_manager);
        }
    }

    /// The driver's invariants hold and nothing of the graph was lost.
    pub open spec fn progressed(&self, old: &GlobalEnv) -> bool {
        &&& self.wf()
        &&& old.unfired() ==> self.unfired()
        &&& self.vertex_manager.monotone_from(&old.vertex_manager)
    }

    pub proof fn lemma_progress_chain(&self, mid: &GlobalEnv, start: &GlobalEnv)
        requires
            self.progressed(mid),
            mid.progressed(start),
        ensures
            self.progressed(start),
    {
        self.vertex_manager.lemma_monotone_chain(&mid.vertex_manager, &start.vertex_manager);
    }

    pub proof fn lemma_progress_refl(&self)
        requires
            self.wf(),
        ensures
            self.progressed(self),
    {
        self.vertex_manager.lemma_refl();
        self.vertex_manager.lemma_frame_extends(&self.vertex_manager);
        self.vertex_manager.lemma_extends_monotone(&self.vertex_manager);
    }

    /// Before any box fired there is nothing to answer.
    pub proof fn lemma_unfired_settled(&self)
        requires
            self.unfired(),
        ensures
            self.settled(),
    {
        assert forall|i: int, t: TypeModel|
            #[trigger] self.occupied(i) && #[trigger] self.slot(i).seen().contains(t) && t != TypeModel::Bot
                implies self.answered(self.slot(i), t) by {
            assert(self.slot(i).seen().len() == 0);
        }
    }
}

} // verus!
