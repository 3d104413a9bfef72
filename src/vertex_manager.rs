//! Allocation of vertices and sources, edges, and forward propagation of types.
use vstd::prelude::*;
use vstd::set_lib::lemma_len_subset;
use crate::graph::{BoxId, Source, Vertex, VertexId, added_types, records_origin, shows_type_set};
use crate::display::{decimal, push_decimal};
use crate::types::{Type, TypeModel, copy_type, copy_types, models, show_model};

verus! {

broadcast use vstd::std_specs::vec::group_vec_axioms, vstd::seq_lib::group_seq_properties;

/// A slot of the graph: a mutable vertex or a fixed-type source.
pub enum GraphNode {
    Vertex(Vertex),
    Source(Source),
}

/// What a slot contributes to the propagation measure: the number of types of
/// the universe that a vertex does not hold yet.
pub open spec fn node_slack(n: GraphNode, cap: nat) -> nat {
    match n {
        GraphNode::Vertex(v) => if v.types@.len() <= cap {
            (cap - v.types@.len()) as nat
        } else {
            0
        },
        GraphNode::Source(_) => 0,
    }
}

pub open spec fn slack(nodes: Seq<GraphNode>, cap: nat) -> nat
    decreases nodes.len(),
{
    if nodes.len() == 0 {
        0
    } else {
        slack(nodes.drop_last(), cap) + node_slack(nodes.last(), cap)
    }
}

proof fn lemma_slack_update(nodes: Seq<GraphNode>, i: int, x: GraphNode, cap: nat)
    requires
        0 <= i < nodes.len(),
    ensures
        slack(nodes.update(i, x), cap) + node_slack(nodes[i], cap) == slack(nodes, cap) + node_slack(x, cap),
    decreases nodes.len(),
{
    let u = nodes.update(i, x);
    if i == nodes.len() - 1 {
        assert(u.drop_last() =~= nodes.drop_last());
    } else {
        assert(u.drop_last() =~= nodes.drop_last().update(i, x));
        lemma_slack_update(nodes.drop_last(), i, x, cap);
    }
}

/// Obligations still owed along edge `u -> v`: the types in `ms`.
pub open spec fn owed_on(u: VertexId, v: VertexId, ms: Seq<TypeModel>) -> Set<(VertexId, VertexId, TypeModel)> {
    Set::new(|x: (VertexId, VertexId, TypeModel)| x.0 == u && x.1 == v && ms.contains(x.2))
}

pub proof fn lemma_added_covers(existing: Seq<TypeModel>, incoming: Seq<TypeModel>)
    ensures
        forall|t: TypeModel| #[trigger] incoming.contains(t) ==> (existing + added_types(existing, incoming)).contains(t),
        forall|t: TypeModel| #[trigger] added_types(existing, incoming).contains(t) ==> incoming.contains(t),
        (existing + added_types(existing, incoming)).no_duplicates() <== existing.no_duplicates(),
    decreases incoming.len(),
{
    if incoming.len() > 0 {
        let init = incoming.drop_last();
        lemma_added_covers(existing, init);
        let prev = added_types(existing, init);
        assert forall|t: TypeModel| #[trigger] incoming.contains(t) implies (existing + added_types(existing, incoming)).contains(t) by {
            if init.contains(t) {
                let k = choose|k: int| 0 <= k < (existing + prev).len() && (existing + prev)[k] == t;
                assert((existing + added_types(existing, incoming))[k] == t);
            } else {
                assert(t == incoming.last());
                if !(existing + prev).contains(t) {
                    assert((existing + added_types(existing, incoming)) =~= (existing + prev).push(t));
                    assert((existing + prev).push(t)[(existing + prev).len() as int] == t);
                }
            }
        }
        assert forall|t: TypeModel| #[trigger] added_types(existing, incoming).contains(t) implies incoming.contains(t) by {
            if prev.contains(t) {
                assert(init.contains(t));
                let k = choose|k: int| 0 <= k < init.len() && init[k] == t;
                assert(incoming[k] == t);
            } else {
                assert(t == incoming.last());
                assert(incoming[incoming.len() - 1] == t);
            }
        }
        if existing.no_duplicates() && !(existing + prev).contains(incoming.last()) {
            assert((existing + added_types(existing, incoming)) =~= (existing + prev).push(incoming.last()));
        }
    }
}

/// Lines joined by newlines.
pub open spec fn join_lines(ls: Seq<Seq<char>>) -> Seq<char>
    decreases ls.len(),
{
    if ls.len() == 0 {
        Seq::empty()
    } else if ls.len() == 1 {
        ls[0]
    } else {
        join_lines(ls.drop_last()) + "\n"@ + ls.last()
    }
}

/// The ids of the vertices (`vertices`) or of the sources, in order.
pub open spec fn ids_of_kind(nodes: Seq<GraphNode>, vertices: bool) -> Seq<nat>
    decreases nodes.len(),
{
    if nodes.len() == 0 {
        Seq::empty()
    } else {
        let prev = ids_of_kind(nodes.drop_last(), vertices);
        if (nodes.last() is Vertex) == vertices {
            prev.push((nodes.len() - 1) as nat)
        } else {
            prev
        }
    }
}

/// `line` describes slot `k`: `Vertex k: <display>` or `Source k: <type>`.
pub open spec fn describes(n: GraphNode, k: nat, line: Seq<char>) -> bool {
    match n {
        GraphNode::Vertex(v) => exists|d: Seq<char>|
            shows_type_set(v.type_seq(), d) && line == "Vertex "@ + decimal(k) + ": "@ + d,
        GraphNode::Source(s) => line == "Source "@ + decimal(k) + ": "@ + show_model(s.ty@),
    }
}

/// Owns every vertex and source of one analysis.
pub struct VertexManager {
    pub nodes: Vec<GraphNode>,
    /// Boxes subscribed to vertices that gained types since the last hand-off.
    pub woken: Vec<BoxId>,
    /// Every type that any node holds or may come to hold.
    pub universe: Ghost<Set<TypeModel>>,
    /// Every committed edge.
    pub edges: Ghost<Set<(VertexId, VertexId)>>,
}

impl VertexManager {
    pub open spec fn is_vertex(&self, id: VertexId) -> bool {
        id.0 < self.nodes@.len() && self.nodes@[id.0 as int] is Vertex
    }

    pub open spec fn is_source(&self, id: VertexId) -> bool {
        id.0 < self.nodes@.len() && self.nodes@[id.0 as int] is Source
    }

    pub open spec fn vertex(&self, id: VertexId) -> Vertex {
        self.nodes@[id.0 as int]->Vertex_0
    }

    pub open spec fn source_type(&self, id: VertexId) -> TypeModel {
        self.nodes@[id.0 as int]->Source_0.ty@
    }

    /// The types of a node: a vertex's in insertion order, a source's one type.
    pub open spec fn node_types(&self, id: VertexId) -> Seq<TypeModel> {
        if self.is_vertex(id) {
            self.vertex(id).type_seq()
        } else if self.is_source(id) {
            seq![self.source_type(id)]
        } else {
            Seq::empty()
        }
    }

    pub open spec fn holds(&self, id: VertexId, t: TypeModel) -> bool {
        self.node_types(id).contains(t)
    }

    /// Along every edge into a vertex, the vertex holds what the tail holds,
    /// but for the obligations in `owed`.
    pub open spec fn closed_except(&self, owed: Set<(VertexId, VertexId, TypeModel)>) -> bool {
        forall|u: VertexId, v: VertexId, t: TypeModel|
            #![trigger self.edges@.contains((u, v)), self.holds(u, t)]
            self.edges@.contains((u, v)) && self.is_vertex(v) && self.holds(u, t) ==> self.holds(v, t)
                || owed.contains((u, v, t))
    }

    pub open spec fn wf_nodes(&self) -> bool {
        &&& self.universe@.finite()
        &&& forall|id: VertexId| #[trigger] self.is_vertex(id) ==> self.vertex(id).wf()
        &&& forall|id: VertexId, t: TypeModel| #[trigger] self.holds(id, t) ==> self.universe@.contains(t)
        &&& forall|u: VertexId, v: VertexId|
            #[trigger] self.edges@.contains((u, v)) ==> u.0 < self.nodes@.len() && v.0 < self.nodes@.len()
                && (self.is_vertex(u) ==> self.vertex(u).next@.contains(v))
        &&& forall|u: VertexId, k: int|
            self.is_vertex(u) && 0 <= k < self.vertex(u).next@.len() ==> self.edges@.contains(
                (u, #[trigger] self.vertex(u).next@[k]),
            )
    }

    /// Every type a vertex holds came along an edge whose tail holds it.
    pub open spec fn supported(&self) -> bool {
        forall|v: VertexId, t: TypeModel|
            #[trigger] self.holds(v, t) && self.is_vertex(v) ==> exists|u: VertexId|
                #[trigger] self.edges@.contains((u, v)) && self.holds(u, t)
    }

    /// Well-formed and closed: every committed edge has carried its types,
    /// and every type held came along an edge.
    pub open spec fn wf(&self) -> bool {
        self.wf_nodes() && self.closed_except(Set::empty()) && self.supported()
    }

    pub open spec fn measure(&self) -> nat {
        slack(self.nodes@, self.universe@.len())
    }

    /// What stays fixed while types propagate.
    pub open spec fn same_shape(&self, old: &VertexManager) -> bool {
        &&& self.universe == old.universe
        &&& self.edges == old.edges
        &&& self.nodes@.len() == old.nodes@.len()
        &&& forall|id: VertexId| #[trigger] self.is_vertex(id) == old.is_vertex(id)
        &&& forall|id: VertexId| #[trigger] old.is_source(id) ==> self.nodes@[id.0 as int] == old.nodes@[id.0 as int]
        &&& forall|id: VertexId|
            #[trigger] old.is_vertex(id) ==> self.vertex(id).next == old.vertex(id).next
                && self.vertex(id).boxes == old.vertex(id).boxes
    }

    /// Types only grow: each vertex's old type sequence is a prefix of its new one.
    pub open spec fn grows_from(&self, old: &VertexManager) -> bool {
        forall|id: VertexId|
            #[trigger] old.is_vertex(id) ==> old.vertex(id).type_seq().len() <= self.vertex(id).type_seq().len()
                && self.vertex(id).type_seq().subrange(0, old.vertex(id).type_seq().len() as int)
                == old.vertex(id).type_seq()
    }

    /// `path` runs from vertex to vertex along `next` links.
    pub open spec fn is_path(&self, path: Seq<VertexId>) -> bool {
        forall|k: int|
            0 <= k < path.len() - 1 ==> self.is_vertex(#[trigger] path[k]) && self.vertex(path[k]).next@.contains(path[k + 1])
    }

    /// `w` is `v`, or is reached from `v` along `next` links.
    pub open spec fn reaches(&self, v: VertexId, w: VertexId) -> bool {
        exists|path: Seq<VertexId>| path.len() >= 1 && path[0] == v && path.last() == w && #[trigger] self.is_path(path)
    }

    pub proof fn lemma_reach_refl(&self, v: VertexId)
        ensures
            self.reaches(v, v),
    {
        assert(self.is_path(seq![v]));
    }

    pub proof fn lemma_reach_prepend(&self, a: VertexId, w: VertexId, v: VertexId)
        requires
            self.is_vertex(a),
            self.vertex(a).next@.contains(w),
            self.reaches(w, v),
        ensures
            self.reaches(a, v),
    {
        let path = choose|path: Seq<VertexId>| path.len() >= 1 && path[0] == w && path.last() == v && #[trigger] self.is_path(path);
        let p2 = seq![a] + path;
        assert forall|k: int| 0 <= k < p2.len() - 1 implies self.is_vertex(#[trigger] p2[k]) && self.vertex(p2[k]).next@.contains(
            p2[k + 1],
        ) by {
            if k > 0 {
                assert(p2[k] == path[k - 1]);
                assert(p2[k + 1] == path[k]);
            }
        }
        assert(self.is_path(p2));
        assert(p2.last() == v);
    }

    /// Reachability depends only on the vertices and their `next` lists.
    pub proof fn lemma_reach_same_shape(&self, other: &VertexManager, a: VertexId, v: VertexId)
        requires
            other.same_shape(self),
            other.reaches(a, v),
        ensures
            self.reaches(a, v),
    {
        let path = choose|path: Seq<VertexId>| path.len() >= 1 && path[0] == a && path.last() == v && #[trigger] other.is_path(path);
        assert forall|k: int| 0 <= k < path.len() - 1 implies self.is_vertex(#[trigger] path[k]) && self.vertex(path[k]).next@.contains(
            path[k + 1],
        ) by {
            assert(other.is_vertex(path[k]));
            assert(self.is_vertex(path[k]));
        }
        assert(self.is_path(path));
    }

    pub proof fn lemma_reach_kept(&self, other: &VertexManager, a: VertexId, v: VertexId)
        requires
            self.same_shape(other),
            other.reaches(a, v),
        ensures
            self.reaches(a, v),
    {
        let path = choose|path: Seq<VertexId>| path.len() >= 1 && path[0] == a && path.last() == v && #[trigger] other.is_path(path);
        assert forall|k: int| 0 <= k < path.len() - 1 implies self.is_vertex(#[trigger] path[k]) && self.vertex(path[k]).next@.contains(
            path[k + 1],
        ) by {
            assert(other.is_vertex(path[k]));
        }
        assert(self.is_path(path));
    }

    /// Every (type, origin) pair recorded on a vertex is still recorded.
    pub open spec fn origins_kept(&self, old: &VertexManager) -> bool {
        forall|id: VertexId, t: TypeModel, o: VertexId|
            old.is_vertex(id) && #[trigger] records_origin(old.vertex(id), t, o) ==> records_origin(self.vertex(id), t, o)
    }

    /// Every box subscribed to a vertex that gained a type has been woken.
    pub open spec fn wakes_from(&self, old: &VertexManager) -> bool {
        &&& old.woken@.len() <= self.woken@.len()
        &&& forall|k: int| 0 <= k < old.woken@.len() ==> self.woken@[k] == #[trigger] old.woken@[k]
        &&& forall|id: VertexId, k: int|
            old.is_vertex(id) && 0 <= k < old.vertex(id).boxes@.len() && self.vertex(id).types@.len()
                != old.vertex(id).types@.len() ==> self.woken@.contains(#[trigger] old.vertex(id).boxes@[k])
    }

    proof fn lemma_types_bounded(&self, id: VertexId)
        requires
            self.wf_nodes(),
            self.is_vertex(id),
        ensures
            self.vertex(id).types@.len() <= self.universe@.len(),
    {
        let s = self.vertex(id).type_seq();
        s.unique_seq_to_set();
        assert forall|t: TypeModel| s.to_set().contains(t) implies self.universe@.contains(t) by {
            assert(self.holds(id, t));
        }
        lemma_len_subset(s.to_set(), self.universe@);
    }

    pub fn new() -> (r: VertexManager)
        ensures
            r.wf(),
            r.nodes@.len() == 0,
            r.woken@.len() == 0,
            r.edges@ == Set::<(VertexId, VertexId)>::empty(),
            r.universe@ == Set::<TypeModel>::empty(),
    {
        VertexManager {
            nodes: Vec::new(),
            woken: Vec::new(),
            universe: Ghost(Set::empty()),
            edges: Ghost(Set::empty()),
        }
    }

    /// Allocates an empty vertex.
    pub fn new_vertex(&mut self) -> (id: VertexId)
        requires
            old(self).wf(),
            old(self).nodes@.len() < usize::MAX,
        ensures
            final(self).wf(),
            id.0 == old(self).nodes@.len(),
            final(self).nodes@ == old(self).nodes@.push(final(self).nodes@.last()),
            final(self).is_vertex(id),
            final(self).vertex(id).types@.len() == 0,
            final(self).vertex(id).next@.len() == 0,
            final(self).vertex(id).boxes@.len() == 0,
            final(self).woken == old(self).woken,
            final(self).edges == old(self).edges,
            final(self).universe == old(self).universe,
    {
        let id = VertexId(self.nodes.len());
        self.nodes.push(GraphNode::Vertex(Vertex::new()));
        proof {
            self.lemma_extend_preserves(old(self));
        }
        id
    }

    /// Allocates a source with the fixed type `t`.
    pub fn new_source(&mut self, t: Type) -> (id: VertexId)
        requires
            old(self).wf(),
            old(self).nodes@.len() < usize::MAX,
        ensures
            final(self).wf(),
            id.0 == old(self).nodes@.len(),
            final(self).nodes@ == old(self).nodes@.push(final(self).nodes@.last()),
            final(self).is_source(id),
            final(self).source_type(id) == t@,
            final(self).woken == old(self).woken,
            final(self).edges == old(self).edges,
            final(self).universe@ == old(self).universe@.insert(t@),
    {
        let id = VertexId(self.nodes.len());
        self.universe = Ghost(self.universe@.insert(t@));
        self.nodes.push(GraphNode::Source(Source { ty: t }));
        proof {
            self.lemma_extend_preserves(old(self));
        }
        id
    }

    proof fn lemma_extend_preserves(&self, old: &VertexManager)
        requires
            old.wf(),
            self.nodes@.len() == old.nodes@.len() + 1,
            forall|i: int| 0 <= i < old.nodes@.len() ==> self.nodes@[i] == old.nodes@[i],
            self.edges == old.edges,
            old.universe@.subset_of(self.universe@),
            self.universe@.finite(),
            self.nodes@.last() is Vertex ==> self.nodes@.last()->Vertex_0.types@.len() == 0
                && self.nodes@.last()->Vertex_0.next@.len() == 0,
            self.nodes@.last() is Source ==> self.universe@.contains(self.nodes@.last()->Source_0.ty@),
        ensures
            self.wf(),
    {
        let n = old.nodes@.len();
        assert forall|id: VertexId| #[trigger] self.is_vertex(id) implies self.vertex(id).wf() by {
            if id.0 < n {
                assert(old.is_vertex(id));
            } else {
                assert(self.vertex(id).type_seq() =~= Seq::<TypeModel>::empty());
            }
        }
        assert forall|id: VertexId, t: TypeModel| #[trigger] self.holds(id, t) implies self.universe@.contains(t) by {
            if id.0 < n {
                assert(self.node_types(id) == old.node_types(id));
                assert(old.holds(id, t));
            } else if self.is_vertex(id) {
                assert(self.vertex(id).type_seq() =~= Seq::<TypeModel>::empty());
            } else {
                assert(self.node_types(id)[0] == t);
            }
        }
        assert forall|u: VertexId, v: VertexId| #[trigger] self.edges@.contains((u, v)) implies u.0 < self.nodes@.len()
            && v.0 < self.nodes@.len() && (self.is_vertex(u) ==> self.vertex(u).next@.contains(v)) by {
            assert(old.edges@.contains((u, v)));
            if self.is_vertex(u) {
                assert(old.is_vertex(u));
            }
        }
        assert forall|u: VertexId, k: int|
            self.is_vertex(u) && 0 <= k < self.vertex(u).next@.len() implies self.edges@.contains(
            (u, #[trigger] self.vertex(u).next@[k]),
        ) by {
            assert(u.0 < n);
            assert(old.is_vertex(u));
        }
        assert forall|u: VertexId, v: VertexId, t: TypeModel|
            #![trigger self.edges@.contains((u, v)), self.holds(u, t)]
            self.edges@.contains((u, v)) && self.is_vertex(v) && self.holds(u, t) implies self.holds(v, t)
                || Set::<(VertexId, VertexId, TypeModel)>::empty().contains((u, v, t)) by {
            assert(old.edges@.contains((u, v)));
            assert(self.node_types(u) == old.node_types(u));
            assert(self.node_types(v) == old.node_types(v));
            assert(old.holds(u, t));
        }
        assert forall|v: VertexId, t: TypeModel| #[trigger] self.holds(v, t) && self.is_vertex(v) implies exists|u: VertexId|
            #[trigger] self.edges@.contains((u, v)) && self.holds(u, t) by {
            if v.0 < n {
                assert(self.node_types(v) == old.node_types(v));
                assert(old.holds(v, t) && old.is_vertex(v));
                let u = choose|u: VertexId| #[trigger] old.edges@.contains((u, v)) && old.holds(u, t);
                assert(self.node_types(u) == old.node_types(u));
                assert(self.edges@.contains((u, v)) && self.holds(u, t));
            } else {
                assert(self.vertex(v).type_seq() =~= Seq::<TypeModel>::empty());
            }
        }
    }

    /// The current types of a node, as values.
    pub fn get_types(&self, id: VertexId) -> (r: Vec<Type>)
        ensures
            models(r@) == self.node_types(id),
    {
        if id.0 >= self.nodes.len() {
            return Vec::new();
        }
        match &self.nodes[id.0] {
            GraphNode::Vertex(v) => {
                let mut out: Vec<Type> = Vec::new();
                let mut i: usize = 0;
                while i < v.types.len()
                    invariant
                        0 <= i <= v.types@.len(),
                        models(out@) =~= v.type_seq().subrange(0, i as int),
                    decreases v.types.len() - i,
                {
                    let c = copy_type(&v.types[i].ty);
                    let ghost prev = out@;
                    out.push(c);
                    proof {
                        assert(c@ == v.type_seq()[i as int]);
                        assert(out@ == prev.push(c));
                        assert(models(out@) =~= models(prev).push(c@));
                        assert(models(out@) =~= v.type_seq().subrange(0, i as int + 1));
                    }
                    i = i + 1;
                }
                proof {
                    assert(v.type_seq().subrange(0, i as int) =~= v.type_seq());
                }
                out
            },
            GraphNode::Source(src) => {
                let mut out: Vec<Type> = Vec::new();
                out.push(copy_type(&src.ty));
                proof {
                    assert(models(out@) =~= seq![src.ty@]);
                }
                out
            },
        }
    }

    /// Adds `types` to `target` along the edge from `origin`, then forwards
    /// what was new, depth first, in the order of each vertex's `next`.
    fn propagate_types(
        &mut self,
        origin: VertexId,
        target: VertexId,
        types: Vec<Type>,
        Ghost(owed): Ghost<Set<(VertexId, VertexId, TypeModel)>>,
        Ghost(allowed): Ghost<Set<TypeModel>>,
    )
        requires
            forall|j: int| 0 <= j < types@.len() ==> allowed.contains(#[trigger] types@[j]@),
            old(self).wf_nodes(),
            forall|j: int| 0 <= j < types@.len() ==> old(self).universe@.contains(#[trigger] types@[j]@),
            old(self).edges@.contains((origin, target)),
            old(self).closed_except(owed.union(owed_on(origin, target, models(types@)))),
            old(self).supported(),
            forall|j: int| 0 <= j < types@.len() ==> old(self).holds(origin, #[trigger] types@[j]@),
        ensures
            final(self).wf_nodes(),
            final(self).closed_except(owed),
            final(self).supported(),
            forall|v: VertexId, t: TypeModel|
                #[trigger] final(self).holds(v, t) && !old(self).holds(v, t) ==> allowed.contains(t),
            final(self).origins_kept(old(self)),
            final(self).same_shape(old(self)),
            final(self).grows_from(old(self)),
            final(self).wakes_from(old(self)),
            final(self).measure() <= old(self).measure(),
            !old(self).is_vertex(target) ==> *final(self) == *old(self),
            forall|v: VertexId, t: TypeModel|
                #[trigger] final(self).holds(v, t) && !old(self).holds(v, t) ==> old(self).reaches(target, v),
        decreases old(self).measure(),
    {
        let ghost start = *self;
        let tid = target.0;
        if tid >= self.nodes.len() {
            proof { self.lemma_unchanged_closes(owed, origin, target, models(types@)); }
            return;
        }
        let is_src = match &self.nodes[tid] {
            GraphNode::Source(_) => true,
            GraphNode::Vertex(_) => false,
        };
        if is_src {
            proof { self.lemma_unchanged_closes(owed, origin, target, models(types@)); }
            return;
        }
        let ghost ms = models(types@);
        let ghost old_seq = start.vertex(target).type_seq();
        proof {
            assert(self.is_vertex(target));
            assert(self.vertex(target).wf());
            assert(self.nodes@[tid as int] == GraphNode::Vertex(self.vertex(target)));
        }
        let old_len = match &self.nodes[tid] {
            GraphNode::Vertex(v) => v.types.len(),
            GraphNode::Source(_) => 0,
        };
        let pairs = match &mut self.nodes[tid] {
            GraphNode::Vertex(v) => v.on_type_added(origin, types),
            GraphNode::Source(_) => Vec::new(),
        };
        let ghost delta = added_types(old_seq, ms);
        let ghost mid = *self;
        proof {
            assert forall|id: VertexId, t: TypeModel, o: VertexId|
                start.is_vertex(id) && #[trigger] records_origin(start.vertex(id), t, o) implies records_origin(self.vertex(id), t, o) by {
                if id != target {
                    assert(self.nodes@[id.0 as int] == start.nodes@[id.0 as int]);
                }
            }
            assert(self.nodes@[tid as int] is Vertex);
            assert(self.is_vertex(target));
            assert(forall|t: TypeModel| #[trigger] ms.contains(t) ==> start.universe@.contains(t)) by {
                assert forall|t: TypeModel| #[trigger] ms.contains(t) implies start.universe@.contains(t) by {
                    let j = choose|j: int| 0 <= j < ms.len() && ms[j] == t;
                    assert(types@[j]@ == t);
                }
            }
            assert(forall|t: TypeModel| #[trigger] ms.contains(t) ==> start.holds(origin, t)) by {
                assert forall|t: TypeModel| #[trigger] ms.contains(t) implies start.holds(origin, t) by {
                    let j = choose|j: int| 0 <= j < ms.len() && ms[j] == t;
                    assert(types@[j]@ == t);
                }
            }
            lemma_added_covers(old_seq, ms);
            assert(self.nodes@ == start.nodes@.update(tid as int, self.nodes@[tid as int]));
            self.lemma_after_add(&start, target, origin, ms, owed);
            lemma_slack_update(start.nodes@, tid as int, self.nodes@[tid as int], self.universe@.len());
            self.lemma_types_bounded(target);
            assert(self.nodes@.update(tid as int, start.nodes@[tid as int]) =~= start.nodes@);
        }
        // wake the boxes of a vertex that gained types
        let new_len = match &self.nodes[tid] {
            GraphNode::Vertex(v) => v.types.len(),
            GraphNode::Source(_) => 0,
        };
        let grew = new_len != old_len;
        let ghost pre_wake = *self;
        if grew {
            let nb = match &self.nodes[tid] {
                GraphNode::Vertex(v) => v.boxes.len(),
                GraphNode::Source(_) => 0,
            };
            let mut q: usize = 0;
            while q < nb
                invariant
                    0 <= q <= nb,
                    self.nodes == pre_wake.nodes,
                    tid == target.0,
                    tid < self.nodes@.len(),
                    self.universe == pre_wake.universe,
                    self.edges == pre_wake.edges,
                    nb == pre_wake.vertex(target).boxes@.len(),
                    self.is_vertex(target),
                    self.woken@.len() >= pre_wake.woken@.len(),
                    forall|k: int| 0 <= k < pre_wake.woken@.len() ==> self.woken@[k] == #[trigger] pre_wake.woken@[k],
                    forall|k: int| 0 <= k < q ==> self.woken@.contains(#[trigger] pre_wake.vertex(target).boxes@[k]),
                decreases nb - q,
            {
                let b = match &self.nodes[tid] {
                    GraphNode::Vertex(v) => v.boxes[q],
                    GraphNode::Source(_) => BoxId(0),
                };
                let ghost prev = self.woken@;
                self.woken.push(b);
                proof {
                    assert(self.woken@ == prev.push(b));
                    assert(self.woken@[self.woken@.len() - 1] == b);
                    assert forall|k: int| 0 <= k <= q implies self.woken@.contains(#[trigger] pre_wake.vertex(target).boxes@[k]) by {
                        if k < q {
                            assert(prev.contains(pre_wake.vertex(target).boxes@[k]));
                            let w = choose|w: int| 0 <= w < prev.len() && prev[w] == pre_wake.vertex(target).boxes@[k];
                            assert(self.woken@[w] == pre_wake.vertex(target).boxes@[k]);
                        }
                    }
                }
                q = q + 1;
            }
        }
        proof {
            mid.lemma_same_graph(self);
            assert(self.wf_nodes());
            assert(self.supported());
            assert forall|t: TypeModel| #[trigger] delta.contains(t) implies allowed.contains(t) by {
                assert(ms.contains(t));
                let j = choose|j: int| 0 <= j < ms.len() && ms[j] == t;
                assert(types@[j]@ == t);
            }
            start.lemma_reach_refl(target);
            assert forall|v: VertexId, t: TypeModel| #[trigger] self.holds(v, t) && !start.holds(v, t) implies start.reaches(target, v) by {
                assert(mid.holds(v, t));
                if v != target {
                    assert(mid.node_types(v) == start.node_types(v)) by {
                        if v.0 < mid.nodes@.len() {
                            assert(mid.nodes@[v.0 as int] == start.nodes@[v.0 as int]);
                        }
                    }
                }
            }
            assert forall|v: VertexId, t: TypeModel| #[trigger] self.holds(v, t) && !start.holds(v, t) implies allowed.contains(t) by {
                assert(mid.holds(v, t));
                assert(ms.contains(t));
                let j = choose|j: int| 0 <= j < ms.len() && ms[j] == t;
                assert(types@[j]@ == t);
            }
            assert(self.same_shape(&start));
            assert(self.grows_from(&start));
            assert(pairs@.len() > 0 ==> self.measure() < start.measure());
            assert(self.closed_except(owed.union(Set::new(|x: (VertexId, VertexId, TypeModel)|
                x.0 == target && exists|j: int| 0 <= j < pairs@.len() && pairs@[j].0 == x.1 && #[trigger] delta.contains(x.2))))) by {
                assert forall|u: VertexId, v: VertexId, t: TypeModel|
                    #![trigger self.edges@.contains((u, v)), self.holds(u, t)]
                    self.edges@.contains((u, v)) && self.is_vertex(v) && self.holds(u, t) implies self.holds(v, t)
                        || owed.union(Set::new(|x: (VertexId, VertexId, TypeModel)|
                x.0 == target && exists|j: int| 0 <= j < pairs@.len() && pairs@[j].0 == x.1 && #[trigger] delta.contains(x.2))).contains((u, v, t)) by {
                    assert(mid.edges@.contains((u, v)) && mid.holds(u, t));
                    if !self.holds(v, t) && !owed.contains((u, v, t)) {
                        assert(u == target && delta.contains(t) && start.vertex(target).next@.contains(v));
                        let j = choose|j: int| 0 <= j < start.vertex(target).next@.len() && start.vertex(target).next@[j] == v;
                        assert(pairs@[j].0 == v);
                    }
                }
            }
            assert(self.wakes_from(&start)) by {
                assert forall|id: VertexId, k: int|
                    start.is_vertex(id) && 0 <= k < start.vertex(id).boxes@.len() && self.vertex(id).types@.len()
                        != start.vertex(id).types@.len() implies self.woken@.contains(#[trigger] start.vertex(id).boxes@[k]) by {
                    assert(id == target);
                }
            }
        }
        let mut k: usize = 0;
        while k < pairs.len()
            invariant
                0 <= k <= pairs@.len(),
                self.wf_nodes(),
                self.same_shape(&start),
                self.grows_from(&start),
                self.wakes_from(&start),
                self.is_vertex(target),
                pairs@.len() > 0 ==> self.measure() < start.measure(),
                start.measure() == old(self).measure(),
                self.supported(),
                forall|t: TypeModel| #[trigger] delta.contains(t) ==> self.holds(target, t),
                forall|t: TypeModel| #[trigger] delta.contains(t) ==> allowed.contains(t),
                self.origins_kept(&start),
                forall|v: VertexId, t: TypeModel| #[trigger] self.holds(v, t) && !start.holds(v, t) ==> start.reaches(target, v),
                forall|v: VertexId, t: TypeModel| #[trigger] self.holds(v, t) && !start.holds(v, t) ==> allowed.contains(t),
                self.measure() <= start.measure(),
                pairs@.len() > 0 ==> delta.len() > 0,
                forall|q: int| 0 <= q < pairs@.len() ==> models((#[trigger] pairs@[q]).1@) == delta,
                forall|q: int| 0 <= q < pairs@.len() ==> (#[trigger] pairs@[q]).0 == start.vertex(target).next@[q],
                pairs@.len() == 0 || pairs@.len() == start.vertex(target).next@.len(),
                forall|t: TypeModel| #[trigger] delta.contains(t) ==> start.universe@.contains(t),
                self.closed_except(owed.union(Set::new(|x: (VertexId, VertexId, TypeModel)|
                    x.0 == target && exists|j: int| k <= j < pairs@.len() && pairs@[j].0 == x.1 && #[trigger] delta.contains(x.2)))),
            decreases pairs.len() - k,
        {
            let w = pairs[k].0;
            let ts = copy_types(&pairs[k].1);
            let ghost rest = owed.union(Set::new(|x: (VertexId, VertexId, TypeModel)|
                x.0 == target && exists|j: int| k + 1 <= j < pairs@.len() && pairs@[j].0 == x.1 && #[trigger] delta.contains(x.2)));
            let ghost before = *self;
            proof {
                assert(start.vertex(target).next@[k as int] == w);
                assert(self.vertex(target).next@[k as int] == w);
                assert(self.edges@.contains((target, self.vertex(target).next@[k as int])));
                assert forall|j: int| 0 <= j < ts@.len() implies self.universe@.contains(#[trigger] ts@[j]@) by {
                    assert(models(ts@)[j] == ts@[j]@);
                    assert(delta.contains(models(ts@)[j]));
                }
                assert forall|j: int| 0 <= j < ts@.len() implies self.holds(target, #[trigger] ts@[j]@) by {
                    assert(models(ts@)[j] == ts@[j]@);
                    assert(delta.contains(models(ts@)[j]));
                }
                assert(self.closed_except(rest.union(owed_on(target, w, models(ts@))))) by {
                    assert forall|u: VertexId, v: VertexId, t: TypeModel|
                        #![trigger self.edges@.contains((u, v)), self.holds(u, t)]
                        self.edges@.contains((u, v)) && self.is_vertex(v) && self.holds(u, t) implies self.holds(v, t)
                            || rest.union(owed_on(target, w, models(ts@))).contains((u, v, t)) by {
                        if !self.holds(v, t) && !owed.contains((u, v, t)) {
                            let j = choose|j: int| k <= j < pairs@.len() && pairs@[j].0 == v && #[trigger] delta.contains(t) && u == target;
                            if j == k {
                                assert(owed_on(target, w, models(ts@)).contains((u, v, t)));
                            } else {
                                assert(rest.contains((u, v, t)));
                            }
                        }
                    }
                }
            }
            proof {
                assert forall|j: int| 0 <= j < ts@.len() implies allowed.contains(#[trigger] ts@[j]@) by {
                    assert(models(ts@)[j] == ts@[j]@);
                    assert(delta.contains(models(ts@)[j]));
                }
            }
            self.propagate_types(target, w, ts, Ghost(rest), Ghost(allowed));
            proof {
                assert(self.keeps_frame(&before));
                self.lemma_holds_mono(&before);
                self.lemma_chain(&before, &start);
                assert forall|v: VertexId, t: TypeModel| #[trigger] self.holds(v, t) && !start.holds(v, t) implies allowed.contains(t) by {
                    if !before.holds(v, t) {
                    } else {
                        assert(before.holds(v, t) && !start.holds(v, t));
                    }
                }
                assert forall|id: VertexId, t: TypeModel, o: VertexId|
                    start.is_vertex(id) && #[trigger] records_origin(start.vertex(id), t, o) implies records_origin(self.vertex(id), t, o) by {
                    assert(before.is_vertex(id));
                    assert(records_origin(before.vertex(id), t, o));
                }
                assert forall|v: VertexId, t: TypeModel| #[trigger] self.holds(v, t) && !start.holds(v, t) implies start.reaches(target, v) by {
                    if !before.holds(v, t) {
                        assert(before.reaches(w, v));
                        start.lemma_reach_same_shape(&before, w, v);
                        assert(start.vertex(target).next@[k as int] == w);
                        start.lemma_reach_prepend(target, w, v);
                    } else {
                        assert(before.holds(v, t) && !start.holds(v, t));
                    }
                }
            }
            k = k + 1;
        }
        proof {
            assert(self.closed_except(owed)) by {
                assert forall|u: VertexId, v: VertexId, t: TypeModel|
                    #![trigger self.edges@.contains((u, v)), self.holds(u, t)]
                    self.edges@.contains((u, v)) && self.is_vertex(v) && self.holds(u, t) implies self.holds(v, t)
                        || owed.contains((u, v, t)) by {
                    if !self.holds(v, t) && !owed.contains((u, v, t)) {
                        let ghost_set = Set::new(|x: (VertexId, VertexId, TypeModel)|
                            x.0 == target && exists|j: int| k <= j < pairs@.len() && pairs@[j].0 == x.1 && #[trigger] delta.contains(x.2));
                        assert(ghost_set.contains((u, v, t)));
                    }
                }
            }
        }
    }

    pub proof fn lemma_refl(&self)
        ensures
            self.same_shape(self),
            self.grows_from(self),
            self.wakes_from(self),
            self.keeps_frame(self),
    {
        assert forall|id: VertexId| #[trigger] self.is_vertex(id) implies self.vertex(id).type_seq().subrange(
            0,
            self.vertex(id).type_seq().len() as int,
        ) == self.vertex(id).type_seq() by {
            assert(self.vertex(id).type_seq().subrange(0, self.vertex(id).type_seq().len() as int)
                =~= self.vertex(id).type_seq());
        }
    }

    proof fn lemma_unchanged_closes(
        &self,
        owed: Set<(VertexId, VertexId, TypeModel)>,
        origin: VertexId,
        target: VertexId,
        ms: Seq<TypeModel>,
    )
        requires
            !self.is_vertex(target),
            self.closed_except(owed.union(owed_on(origin, target, ms))),
        ensures
            self.closed_except(owed),
            self.same_shape(self),
            self.grows_from(self),
            self.wakes_from(self),
    {
        assert forall|id: VertexId| #[trigger] self.is_vertex(id) implies self.vertex(id).type_seq().subrange(
            0,
            self.vertex(id).type_seq().len() as int,
        ) == self.vertex(id).type_seq() by {
            assert(self.vertex(id).type_seq().subrange(0, self.vertex(id).type_seq().len() as int)
                =~= self.vertex(id).type_seq());
        }
    }

    /// The state right after `target` took its new types.
    proof fn lemma_after_add(
        &self,
        start: &VertexManager,
        target: VertexId,
        origin: VertexId,
        ms: Seq<TypeModel>,
        owed: Set<(VertexId, VertexId, TypeModel)>,
    )
        requires
            start.wf_nodes(),
            start.is_vertex(target),
            start.edges@.contains((origin, target)),
            forall|t: TypeModel| #[trigger] ms.contains(t) ==> start.universe@.contains(t),
            start.closed_except(owed.union(owed_on(origin, target, ms))),
            self.nodes@ == start.nodes@.update(target.0 as int, self.nodes@[target.0 as int]),
            self.nodes@[target.0 as int] is Vertex,
            self.vertex(target).wf(),
            self.vertex(target).type_seq() == start.vertex(target).type_seq() + added_types(
                start.vertex(target).type_seq(),
                ms,
            ),
            self.vertex(target).next == start.vertex(target).next,
            self.vertex(target).boxes == start.vertex(target).boxes,
            self.universe == start.universe,
            self.edges == start.edges,
            self.woken == start.woken,
            start.supported(),
            forall|t: TypeModel| #[trigger] ms.contains(t) ==> start.holds(origin, t),
        ensures
            self.wf_nodes(),
            self.supported(),
            forall|t: TypeModel| #[trigger] added_types(start.vertex(target).type_seq(), ms).contains(t) ==> self.holds(target, t),
            forall|v: VertexId, t: TypeModel| #[trigger] self.holds(v, t) && !start.holds(v, t) ==> ms.contains(t),
            self.same_shape(start),
            self.grows_from(start),
            self.closed_except(owed.union(Set::new(|x: (VertexId, VertexId, TypeModel)|
                x.0 == target && start.vertex(target).next@.contains(x.1) && added_types(
                    start.vertex(target).type_seq(),
                    ms,
                ).contains(x.2)))),
    {
        let old_seq = start.vertex(target).type_seq();
        let delta = added_types(old_seq, ms);
        lemma_added_covers(old_seq, ms);
        assert forall|id: VertexId| id != target implies #[trigger] self.node_types(id) == start.node_types(id) by {
            if id.0 < self.nodes@.len() {
                assert(self.nodes@[id.0 as int] == start.nodes@[id.0 as int]);
            }
        }
        assert forall|id: VertexId, t: TypeModel| #[trigger] start.holds(id, t) implies self.holds(id, t) by {
            if id == target {
                let k = choose|k: int| 0 <= k < old_seq.len() && old_seq[k] == t;
                assert(self.node_types(id)[k] == t);
            }
        }
        assert forall|id: VertexId| #[trigger] self.is_vertex(id) implies self.vertex(id).wf() by {
            if id != target {
                assert(start.is_vertex(id));
            }
        }
        assert forall|id: VertexId, t: TypeModel| #[trigger] self.holds(id, t) implies self.universe@.contains(t) by {
            if id == target {
                let k = choose|k: int| 0 <= k < self.node_types(id).len() && self.node_types(id)[k] == t;
                if k < old_seq.len() {
                    assert(start.holds(id, old_seq[k]));
                } else {
                    assert(delta[k - old_seq.len()] == t);
                    assert(delta.contains(t));
                }
            } else {
                assert(start.holds(id, t));
            }
        }
        assert forall|u: VertexId, v: VertexId| #[trigger] self.edges@.contains((u, v)) implies u.0 < self.nodes@.len()
            && v.0 < self.nodes@.len() && (self.is_vertex(u) ==> self.vertex(u).next@.contains(v)) by {
            if self.is_vertex(u) {
                assert(start.is_vertex(u));
            }
        }
        assert forall|u: VertexId, k: int|
            self.is_vertex(u) && 0 <= k < self.vertex(u).next@.len() implies self.edges@.contains(
            (u, #[trigger] self.vertex(u).next@[k]),
        ) by {
            assert(start.is_vertex(u));
            assert(start.vertex(u).next@[k] == self.vertex(u).next@[k]);
        }
        assert forall|id: VertexId| #[trigger] start.is_vertex(id) implies start.vertex(id).type_seq().len()
            <= self.vertex(id).type_seq().len() && self.vertex(id).type_seq().subrange(
            0,
            start.vertex(id).type_seq().len() as int,
        ) == start.vertex(id).type_seq() by {
            if id == target {
                assert(self.vertex(id).type_seq().subrange(0, old_seq.len() as int) =~= old_seq);
            } else {
                assert(self.vertex(id).type_seq().subrange(0, start.vertex(id).type_seq().len() as int)
                    =~= start.vertex(id).type_seq());
            }
        }
        let ob = Set::new(|x: (VertexId, VertexId, TypeModel)|
            x.0 == target && start.vertex(target).next@.contains(x.1) && delta.contains(x.2));
        assert forall|u: VertexId, v: VertexId, t: TypeModel|
            #![trigger self.edges@.contains((u, v)), self.holds(u, t)]
            self.edges@.contains((u, v)) && self.is_vertex(v) && self.holds(u, t) implies self.holds(v, t)
                || owed.union(ob).contains((u, v, t)) by {
            if start.holds(u, t) {
                assert(start.edges@.contains((u, v)));
                if start.holds(v, t) {
                } else if owed.contains((u, v, t)) {
                } else {
                    assert(owed_on(origin, target, ms).contains((u, v, t)));
                    assert(ms.contains(t));
                    assert((old_seq + delta).contains(t));
                }
            } else {
                assert(u == target);
                let k = choose|k: int| 0 <= k < self.node_types(u).len() && self.node_types(u)[k] == t;
                if k < old_seq.len() {
                    assert(start.holds(u, t));
                }
                assert(delta[k - old_seq.len()] == t);
                assert(delta.contains(t));
                assert(ob.contains((u, v, t)));
            }
        }
        assert forall|t: TypeModel| #[trigger] delta.contains(t) implies self.holds(target, t) by {
            let k = choose|k: int| 0 <= k < delta.len() && delta[k] == t;
            assert(self.node_types(target)[old_seq.len() + k] == t);
        }
        assert forall|v: VertexId, t: TypeModel| #[trigger] self.holds(v, t) && self.is_vertex(v) implies exists|u: VertexId|
            #[trigger] self.edges@.contains((u, v)) && self.holds(u, t) by {
            if start.holds(v, t) {
                let u = choose|u: VertexId| #[trigger] start.edges@.contains((u, v)) && start.holds(u, t);
                assert(self.edges@.contains((u, v)) && self.holds(u, t));
            } else {
                assert(v == target);
                let k = choose|k: int| 0 <= k < self.node_types(v).len() && self.node_types(v)[k] == t;
                if k < old_seq.len() {
                    assert(start.holds(v, t));
                }
                assert(delta[k - old_seq.len()] == t);
                assert(delta.contains(t));
                assert(ms.contains(t));
                assert(start.holds(origin, t));
                assert(self.edges@.contains((origin, v)) && self.holds(origin, t));
            }
        }
        assert forall|v: VertexId, t: TypeModel| #[trigger] self.holds(v, t) && !start.holds(v, t) implies ms.contains(t) by {
            if v != target {
                assert(self.node_types(v) == start.node_types(v));
            } else {
                let k = choose|k: int| 0 <= k < self.node_types(v).len() && self.node_types(v)[k] == t;
                if k < old_seq.len() {
                    assert(start.holds(v, t));
                }
                assert(delta[k - old_seq.len()] == t);
                assert(delta.contains(t));
            }
        }
    }
    proof fn lemma_chain(&self, mid: &VertexManager, start: &VertexManager)
        requires
            self.same_shape(mid),
            self.grows_from(mid),
            self.wakes_from(mid),
            mid.same_shape(start),
            mid.grows_from(start),
            mid.wakes_from(start),
        ensures
            self.same_shape(start),
            self.grows_from(start),
            self.wakes_from(start),
    {
        assert forall|id: VertexId| #[trigger] start.is_source(id) implies self.nodes@[id.0 as int]
            == start.nodes@[id.0 as int] by {
            assert(mid.is_source(id));
        }
        assert forall|id: VertexId| #[trigger] start.is_vertex(id) implies self.vertex(id).next == start.vertex(
            id,
        ).next && self.vertex(id).boxes == start.vertex(id).boxes by {
            assert(mid.is_vertex(id));
        }
        assert forall|id: VertexId| #[trigger] start.is_vertex(id) implies start.vertex(id).type_seq().len()
            <= self.vertex(id).type_seq().len() && self.vertex(id).type_seq().subrange(
            0,
            start.vertex(id).type_seq().len() as int,
        ) == start.vertex(id).type_seq() by {
            assert(mid.is_vertex(id));
            let a = start.vertex(id).type_seq();
            let b = mid.vertex(id).type_seq();
            let c = self.vertex(id).type_seq();
            assert(c.subrange(0, a.len() as int) =~= c.subrange(0, b.len() as int).subrange(0, a.len() as int));
        }
        assert forall|id: VertexId, k: int|
            start.is_vertex(id) && 0 <= k < start.vertex(id).boxes@.len() && self.vertex(id).types@.len()
                != start.vertex(id).types@.len() implies self.woken@.contains(#[trigger] start.vertex(id).boxes@[k]) by {
            assert(mid.is_vertex(id));
            assert(mid.vertex(id).boxes == start.vertex(id).boxes);
            if mid.vertex(id).types@.len() != start.vertex(id).types@.len() {
                let w = choose|w: int| 0 <= w < mid.woken@.len() && mid.woken@[w] == start.vertex(id).boxes@[k];
                assert(self.woken@[w] == mid.woken@[w]);
            } else {
                assert(self.woken@.contains(mid.vertex(id).boxes@[k]));
            }
        }
    }

    /// Two managers with the same nodes, universe and edges agree on every
    /// graph predicate.
    pub proof fn lemma_same_graph(&self, other: &VertexManager)
        requires
            self.nodes@ == other.nodes@,
            self.universe == other.universe,
            self.edges == other.edges,
        ensures
            forall|id: VertexId| #[trigger] other.is_vertex(id) == self.is_vertex(id),
            forall|id: VertexId| #[trigger] other.node_types(id) == self.node_types(id),
            forall|id: VertexId, t: TypeModel| #[trigger] other.holds(id, t) == self.holds(id, t),
            self.wf_nodes() ==> other.wf_nodes(),
            forall|owed: Set<(VertexId, VertexId, TypeModel)>| #[trigger] self.closed_except(owed) ==> other.closed_except(owed),
            other.measure() == self.measure(),
            self.wf() ==> other.wf(),
            forall|id: VertexId| #[trigger] other.is_source(id) == self.is_source(id),
            forall|id: VertexId| #[trigger] other.vertex(id) == self.vertex(id),
            forall|c: VertexManager| #[trigger] self.keeps_frame(&c) ==> other.keeps_frame(&c),
            forall|c: VertexManager| #[trigger] self.grows_from(&c) ==> other.grows_from(&c),
            self.supported() ==> other.supported(),
    {
        if self.supported() {
            assert forall|v: VertexId, t: TypeModel| #[trigger] other.holds(v, t) && other.is_vertex(v) implies exists|
                u: VertexId,
            | #[trigger] other.edges@.contains((u, v)) && other.holds(u, t) by {
                assert(other.node_types(v) == self.node_types(v));
                assert(self.holds(v, t) && self.is_vertex(v));
                let u = choose|u: VertexId| #[trigger] self.edges@.contains((u, v)) && self.holds(u, t);
                assert(other.node_types(u) == self.node_types(u));
                assert(other.edges@.contains((u, v)) && other.holds(u, t));
            }
        }
        assert forall|c: VertexManager| #[trigger] self.keeps_frame(&c) implies other.keeps_frame(&c) by {
            assert forall|id: VertexId| #[trigger] other.is_vertex(id) == c.is_vertex(id) by {
                assert(self.is_vertex(id) == c.is_vertex(id));
            }
            assert forall|id: VertexId| #[trigger] c.is_source(id) implies other.nodes@[id.0 as int] == c.nodes@[id.0 as int] by {}
            assert forall|id: VertexId| #[trigger] c.is_vertex(id) implies other.vertex(id).boxes == c.vertex(id).boxes by {}
        }
        assert forall|c: VertexManager| #[trigger] self.grows_from(&c) implies other.grows_from(&c) by {
            assert forall|id: VertexId| #[trigger] c.is_vertex(id) implies c.vertex(id).type_seq().len()
                <= other.vertex(id).type_seq().len() && other.vertex(id).type_seq().subrange(
                0,
                c.vertex(id).type_seq().len() as int,
            ) == c.vertex(id).type_seq() by {
                assert(other.vertex(id) == self.vertex(id));
            }
        }
        assert forall|id: VertexId, t: TypeModel| #[trigger] other.holds(id, t) == self.holds(id, t) by {
            assert(other.node_types(id) == self.node_types(id));
        }
        if self.wf_nodes() {
            assert forall|id: VertexId| #[trigger] other.is_vertex(id) implies other.vertex(id).wf() by {
                assert(self.is_vertex(id));
            }
            assert forall|id: VertexId, t: TypeModel| #[trigger] other.holds(id, t) implies other.universe@.contains(t) by {
                assert(self.holds(id, t));
            }
            assert forall|u: VertexId, v: VertexId| #[trigger] other.edges@.contains((u, v)) implies u.0 < other.nodes@.len()
                && v.0 < other.nodes@.len() && (other.is_vertex(u) ==> other.vertex(u).next@.contains(v)) by {
                assert(self.edges@.contains((u, v)));
            }
            assert forall|u: VertexId, k: int|
                other.is_vertex(u) && 0 <= k < other.vertex(u).next@.len() implies other.edges@.contains(
                (u, #[trigger] other.vertex(u).next@[k]),
            ) by {
                assert(self.is_vertex(u));
                assert(self.vertex(u).next@[k] == other.vertex(u).next@[k]);
            }
        }
        assert forall|owed: Set<(VertexId, VertexId, TypeModel)>| #[trigger] self.closed_except(owed) implies other.closed_except(owed) by {
            assert forall|u: VertexId, v: VertexId, t: TypeModel|
                #![trigger other.edges@.contains((u, v)), other.holds(u, t)]
                other.edges@.contains((u, v)) && other.is_vertex(v) && other.holds(u, t) implies other.holds(v, t)
                    || owed.contains((u, v, t)) by {
                assert(self.edges@.contains((u, v)) && self.holds(u, t));
            }
        }
    }

    /// What every graph edit keeps: the universe, the slots and their kinds,
    /// the sources, and each vertex's subscribed boxes.
    pub open spec fn keeps_frame(&self, old: &VertexManager) -> bool {
        &&& self.universe == old.universe
        &&& self.nodes@.len() == old.nodes@.len()
        &&& forall|id: VertexId| #[trigger] self.is_vertex(id) == old.is_vertex(id)
        &&& forall|id: VertexId| #[trigger] old.is_source(id) ==> self.nodes@[id.0 as int] == old.nodes@[id.0 as int]
        &&& forall|id: VertexId| #[trigger] old.is_vertex(id) ==> self.vertex(id).boxes == old.vertex(id).boxes
    }

    /// Commits the edge `src -> dst` and propagates the types of `src` along it.
    /// An edge between ids that were never allocated is not recorded.
    pub fn add_edge(&mut self, src: VertexId, dst: VertexId)
        requires
            old(self).wf(),
            dst.0 < old(self).nodes@.len(),
        ensures
            final(self).wf(),
            final(self).keeps_frame(old(self)),
            final(self).grows_from(old(self)),
            final(self).wakes_from(old(self)),
            final(self).measure() <= old(self).measure(),
            src.0 < old(self).nodes@.len() ==> final(self).edges@ == old(self).edges@.insert((src, dst)),
            src.0 >= old(self).nodes@.len() ==> *final(self) == *old(self),
            !old(self).is_vertex(dst) ==> forall|v: VertexId| #[trigger] final(self).node_types(v) == old(self).node_types(v),
            forall|v: VertexId, t: TypeModel|
                #[trigger] final(self).holds(v, t) && !old(self).holds(v, t) ==> old(self).holds(src, t),
            final(self).origins_kept(old(self)),
            forall|id: VertexId|
                #[trigger] old(self).is_vertex(id) && id != src ==> final(self).vertex(id).next == old(self).vertex(id).next,
            old(self).is_vertex(src) ==> final(self).vertex(src).next@ == old(self).vertex(src).next@.push(dst),
            forall|v: VertexId, t: TypeModel|
                #[trigger] final(self).holds(v, t) && !old(self).holds(v, t) ==> final(self).reaches(dst, v),
    {
        if src.0 >= self.nodes.len() {
            proof {
                self.lemma_refl();
            }
            return;
        }
        let ghost start = *self;
        let is_v = match &self.nodes[src.0] {
            GraphNode::Vertex(_) => true,
            GraphNode::Source(_) => false,
        };
        if is_v {
            match &mut self.nodes[src.0] {
                GraphNode::Vertex(v) => v.add_next(dst),
                GraphNode::Source(_) => {},
            }
        }
        self.edges = Ghost(self.edges@.insert((src, dst)));
        proof {
            self.lemma_after_link(&start, src, dst);
        }
        let ghost linked = *self;
        self.propagate_from(src, dst);
        proof {
            assert forall|v: VertexId, t: TypeModel| #[trigger] self.holds(v, t) && !start.holds(v, t) implies start.holds(src, t) by {
                assert(linked.node_types(v) == start.node_types(v));
                assert(linked.node_types(src) == start.node_types(src));
            }
            assert forall|id: VertexId, t: TypeModel, o: VertexId|
                start.is_vertex(id) && #[trigger] records_origin(start.vertex(id), t, o) implies records_origin(self.vertex(id), t, o) by {
                assert(linked.is_vertex(id));
                assert(linked.vertex(id).types == start.vertex(id).types);
                assert(records_origin(linked.vertex(id), t, o));
            }
            assert forall|v: VertexId, t: TypeModel| #[trigger] self.holds(v, t) && !start.holds(v, t) implies self.reaches(dst, v) by {
                assert(linked.node_types(v) == start.node_types(v));
                assert(linked.reaches(dst, v));
                self.lemma_reach_kept(&linked, dst, v);
            }
            if !start.is_vertex(dst) {
                assert(!linked.is_vertex(dst));
                assert forall|v: VertexId| #[trigger] self.node_types(v) == start.node_types(v) by {
                    assert(linked.node_types(v) == start.node_types(v));
                }
            }
            assert forall|id: VertexId| #[trigger] start.is_vertex(id) && id != src implies self.vertex(id).next == start.vertex(id).next by {
                assert(linked.is_vertex(id));
                assert(linked.nodes@[id.0 as int] == start.nodes@[id.0 as int]);
            }
            if start.is_vertex(src) {
                assert(linked.is_vertex(src));
            }
        }
        proof {
            assert(self.keeps_frame(&start)) by {
                assert forall|id: VertexId| #[trigger] start.is_vertex(id) implies self.vertex(id).boxes
                    == start.vertex(id).boxes by {
                    assert(linked.is_vertex(id));
                }
                assert forall|id: VertexId| #[trigger] start.is_source(id) implies self.nodes@[id.0 as int]
                    == start.nodes@[id.0 as int] by {
                    assert(linked.is_source(id));
                }
            }
            assert(self.grows_from(&start)) by {
                assert forall|id: VertexId| #[trigger] start.is_vertex(id) implies start.vertex(id).type_seq().len()
                    <= self.vertex(id).type_seq().len() && self.vertex(id).type_seq().subrange(
                    0,
                    start.vertex(id).type_seq().len() as int,
                ) == start.vertex(id).type_seq() by {
                    assert(linked.is_vertex(id));
                    assert(linked.vertex(id).type_seq() == start.vertex(id).type_seq());
                }
            }
            assert(self.wakes_from(&start)) by {
                assert forall|id: VertexId, k: int|
                    start.is_vertex(id) && 0 <= k < start.vertex(id).boxes@.len() && self.vertex(id).types@.len()
                        != start.vertex(id).types@.len() implies self.woken@.contains(#[trigger] start.vertex(id).boxes@[k]) by {
                    assert(linked.is_vertex(id));
                    assert(linked.vertex(id).boxes@[k] == start.vertex(id).boxes@[k]);
                }
            }
            assert(linked.measure() == start.measure()) by {
                if is_v {
                    lemma_slack_update(start.nodes@, src.0 as int, linked.nodes@[src.0 as int], start.universe@.len());
                } else {
                    assert(linked.nodes@ =~= start.nodes@);
                }
            }
        }
    }

    /// Propagates the current types of `src` along the committed edge `src -> dst`.
    fn propagate_from(&mut self, src: VertexId, dst: VertexId)
        requires
            old(self).wf_nodes(),
            old(self).edges@.contains((src, dst)),
            old(self).closed_except(owed_on(src, dst, old(self).node_types(src))),
            old(self).supported(),
        ensures
            final(self).wf_nodes(),
            final(self).closed_except(Set::empty()),
            final(self).supported(),
            forall|v: VertexId, t: TypeModel|
                #[trigger] final(self).holds(v, t) && !old(self).holds(v, t) ==> old(self).holds(src, t),
            final(self).origins_kept(old(self)),
            forall|v: VertexId, t: TypeModel|
                #[trigger] final(self).holds(v, t) && !old(self).holds(v, t) ==> old(self).reaches(dst, v),
            !old(self).is_vertex(dst) ==> forall|v: VertexId| #[trigger] final(self).node_types(v) == old(self).node_types(v),
            final(self).same_shape(old(self)),
            final(self).grows_from(old(self)),
            final(self).wakes_from(old(self)),
            final(self).measure() <= old(self).measure(),
    {
        let types = self.get_types(src);
        if types.len() > 0 {
            proof {
                assert(Set::<(VertexId, VertexId, TypeModel)>::empty().union(owed_on(src, dst, models(types@)))
                    =~= owed_on(src, dst, models(types@)));
                assert forall|j: int| 0 <= j < types@.len() implies self.universe@.contains(#[trigger] types@[j]@) by {
                    assert(models(types@)[j] == types@[j]@);
                    assert(self.holds(src, types@[j]@));
                }
                assert forall|j: int| 0 <= j < types@.len() implies self.holds(src, #[trigger] types@[j]@) by {
                    assert(models(types@)[j] == types@[j]@);
                }
            }
            let ghost allowed = Set::new(|t: TypeModel| self.holds(src, t));
            proof {
                assert forall|j: int| 0 <= j < types@.len() implies allowed.contains(#[trigger] types@[j]@) by {
                    assert(models(types@)[j] == types@[j]@);
                    assert(self.holds(src, types@[j]@));
                }
            }
            self.propagate_types(src, dst, types, Ghost(Set::empty()), Ghost(allowed));
        } else {
            proof {
                assert(self.closed_except(Set::empty())) by {
                    assert forall|u: VertexId, v: VertexId, t: TypeModel|
                        #![trigger self.edges@.contains((u, v)), self.holds(u, t)]
                        self.edges@.contains((u, v)) && self.is_vertex(v) && self.holds(u, t) implies self.holds(v, t)
                            || Set::<(VertexId, VertexId, TypeModel)>::empty().contains((u, v, t)) by {
                        if u == src && v == dst {
                            assert(models(types@).len() == 0);
                        }
                        assert(owed_on(src, dst, models(types@)).contains((u, v, t)) ==> u == src && v == dst);
                    }
                }
                self.lemma_refl();
            }
        }
    }

    proof fn lemma_after_link(&self, start: &VertexManager, src: VertexId, dst: VertexId)
        requires
            start.wf(),
            src.0 < start.nodes@.len(),
            dst.0 < start.nodes@.len(),
            self.edges@ == start.edges@.insert((src, dst)),
            self.universe == start.universe,
            self.woken == start.woken,
            start.is_vertex(src) ==> self.nodes@ == start.nodes@.update(src.0 as int, self.nodes@[src.0 as int])
                && self.nodes@[src.0 as int] is Vertex
                && self.vertex(src).next@ == start.vertex(src).next@.push(dst)
                && self.vertex(src).types == start.vertex(src).types
                && self.vertex(src).boxes == start.vertex(src).boxes,
            !start.is_vertex(src) ==> self.nodes == start.nodes,
        ensures
            self.wf_nodes(),
            self.supported(),
            self.closed_except(owed_on(src, dst, self.node_types(src))),
            forall|id: VertexId| #[trigger] self.node_types(id) == start.node_types(id),
            forall|id: VertexId| #[trigger] self.is_vertex(id) == start.is_vertex(id),
            forall|id: VertexId| #[trigger] start.is_source(id) ==> self.nodes@[id.0 as int] == start.nodes@[id.0 as int],
            forall|id: VertexId|
                #[trigger] start.is_vertex(id) ==> self.vertex(id).types == start.vertex(id).types && self.vertex(id).boxes
                    == start.vertex(id).boxes,
    {
        assert forall|id: VertexId| #[trigger] self.node_types(id) == start.node_types(id) by {
            if id.0 < self.nodes@.len() && start.is_vertex(src) && id != src {
                assert(self.nodes@[id.0 as int] == start.nodes@[id.0 as int]);
            }
        }
        assert forall|id: VertexId| #[trigger] self.is_vertex(id) == start.is_vertex(id) by {
            if id.0 < self.nodes@.len() && start.is_vertex(src) && id != src {
                assert(self.nodes@[id.0 as int] == start.nodes@[id.0 as int]);
            }
        }
        assert forall|id: VertexId| #[trigger] start.is_source(id) implies self.nodes@[id.0 as int] == start.nodes@[id.0 as int] by {
            if start.is_vertex(src) {
                assert(id != src);
            }
        }
        assert forall|id: VertexId| #[trigger] start.is_vertex(id) implies self.vertex(id).types == start.vertex(id).types
            && self.vertex(id).boxes == start.vertex(id).boxes by {
            if id != src {
                assert(self.nodes@[id.0 as int] == start.nodes@[id.0 as int]);
            }
        }
        assert forall|id: VertexId, t: TypeModel| #[trigger] self.holds(id, t) == start.holds(id, t) by {
            assert(self.node_types(id) == start.node_types(id));
        }
        assert forall|id: VertexId| #[trigger] self.is_vertex(id) implies self.vertex(id).wf() by {
            assert(start.is_vertex(id));
            assert(self.vertex(id).type_seq() == start.vertex(id).type_seq());
        }
        assert forall|id: VertexId, t: TypeModel| #[trigger] self.holds(id, t) implies self.universe@.contains(t) by {
            assert(start.holds(id, t));
        }
        assert forall|u: VertexId, v: VertexId| #[trigger] self.edges@.contains((u, v)) implies u.0 < self.nodes@.len()
            && v.0 < self.nodes@.len() && (self.is_vertex(u) ==> self.vertex(u).next@.contains(v)) by {
            if self.is_vertex(u) {
                if u == src {
                    if v == dst {
                        assert(self.vertex(u).next@.last() == dst);
                    } else {
                        assert(start.edges@.contains((u, v)));
                        let k = choose|k: int| 0 <= k < start.vertex(u).next@.len() && start.vertex(u).next@[k] == v;
                        assert(self.vertex(u).next@[k] == v);
                    }
                } else if u == src && v == dst {
                } else {
                    assert(start.edges@.contains((u, v)));
                    assert(self.nodes@[u.0 as int] == start.nodes@[u.0 as int]);
                }
            }
        }
        assert forall|u: VertexId, k: int|
            self.is_vertex(u) && 0 <= k < self.vertex(u).next@.len() implies self.edges@.contains(
            (u, #[trigger] self.vertex(u).next@[k]),
        ) by {
            if u == src {
                if k < start.vertex(u).next@.len() {
                    assert(start.vertex(u).next@[k] == self.vertex(u).next@[k]);
                    assert(start.edges@.contains((u, start.vertex(u).next@[k])));
                }
            } else {
                assert(self.nodes@[u.0 as int] == start.nodes@[u.0 as int]);
                assert(start.edges@.contains((u, start.vertex(u).next@[k])));
            }
        }
        assert forall|u: VertexId, v: VertexId, t: TypeModel|
            #![trigger self.edges@.contains((u, v)), self.holds(u, t)]
            self.edges@.contains((u, v)) && self.is_vertex(v) && self.holds(u, t) implies self.holds(v, t)
                || owed_on(src, dst, self.node_types(src)).contains((u, v, t)) by {
            if u == src && v == dst {
            } else {
                assert(start.edges@.contains((u, v)) && start.holds(u, t));
            }
        }
        assert forall|v: VertexId, t: TypeModel| #[trigger] self.holds(v, t) && self.is_vertex(v) implies exists|u: VertexId|
            #[trigger] self.edges@.contains((u, v)) && self.holds(u, t) by {
            assert(start.holds(v, t) && start.is_vertex(v));
            let u = choose|u: VertexId| #[trigger] start.edges@.contains((u, v)) && start.holds(u, t);
            assert(self.edges@.contains((u, v)) && self.holds(u, t));
        }
    }
    /// Subscribes box `b` to vertex `id`.
    pub fn add_box(&mut self, id: VertexId, b: BoxId)
        requires
            old(self).wf(),
            old(self).is_vertex(id),
        ensures
            final(self).wf(),
            final(self).vertex(id).boxes@ == old(self).vertex(id).boxes@.push(b),
            forall|i: VertexId|
                i != id && i.0 < old(self).nodes@.len() ==> #[trigger] final(self).nodes@[i.0 as int] == old(self).nodes@[i.0 as int],
            forall|i: VertexId| #[trigger] final(self).node_types(i) == old(self).node_types(i),
            forall|i: VertexId| #[trigger] final(self).is_vertex(i) == old(self).is_vertex(i),
            final(self).vertex(id).next == old(self).vertex(id).next,
            final(self).nodes@.len() == old(self).nodes@.len(),
            final(self).universe == old(self).universe,
            final(self).edges == old(self).edges,
            final(self).woken == old(self).woken,
            final(self).measure() == old(self).measure(),
    {
        let ghost start = *self;
        match &mut self.nodes[id.0] {
            GraphNode::Vertex(v) => v.add_box(b),
            GraphNode::Source(_) => {},
        }
        proof {
            assert(self.nodes@ == start.nodes@.update(id.0 as int, self.nodes@[id.0 as int]));
            assert forall|i: VertexId| #[trigger] self.node_types(i) == start.node_types(i) by {
                if i.0 < self.nodes@.len() && i != id {
                    assert(self.nodes@[i.0 as int] == start.nodes@[i.0 as int]);
                }
            }
            assert forall|i: VertexId| #[trigger] self.is_vertex(i) == start.is_vertex(i) by {
                if i.0 < self.nodes@.len() && i != id {
                    assert(self.nodes@[i.0 as int] == start.nodes@[i.0 as int]);
                }
            }
            assert forall|i: VertexId, t: TypeModel| #[trigger] self.holds(i, t) == start.holds(i, t) by {
                assert(self.node_types(i) == start.node_types(i));
            }
            assert forall|i: VertexId| #[trigger] self.is_vertex(i) implies self.vertex(i).wf() by {
                assert(start.is_vertex(i));
                assert(self.vertex(i).type_seq() == start.vertex(i).type_seq());
            }
            assert forall|i: VertexId, t: TypeModel| #[trigger] self.holds(i, t) implies self.universe@.contains(t) by {
                assert(start.holds(i, t));
            }
            assert forall|u: VertexId, v: VertexId| #[trigger] self.edges@.contains((u, v)) implies u.0 < self.nodes@.len()
                && v.0 < self.nodes@.len() && (self.is_vertex(u) ==> self.vertex(u).next@.contains(v)) by {
                assert(start.edges@.contains((u, v)));
                if self.is_vertex(u) && u != id {
                    assert(self.nodes@[u.0 as int] == start.nodes@[u.0 as int]);
                }
            }
            assert forall|u: VertexId, k: int|
                self.is_vertex(u) && 0 <= k < self.vertex(u).next@.len() implies self.edges@.contains(
                (u, #[trigger] self.vertex(u).next@[k]),
            ) by {
                if u != id {
                    assert(self.nodes@[u.0 as int] == start.nodes@[u.0 as int]);
                }
                assert(start.vertex(u).next@[k] == self.vertex(u).next@[k]);
            }
            assert forall|u: VertexId, v: VertexId, t: TypeModel|
                #![trigger self.edges@.contains((u, v)), self.holds(u, t)]
                self.edges@.contains((u, v)) && self.is_vertex(v) && self.holds(u, t) implies self.holds(v, t)
                    || Set::<(VertexId, VertexId, TypeModel)>::empty().contains((u, v, t)) by {
                assert(start.edges@.contains((u, v)) && start.holds(u, t));
            }
            lemma_slack_update(start.nodes@, id.0 as int, self.nodes@[id.0 as int], start.universe@.len());
            assert forall|v: VertexId, t: TypeModel| #[trigger] self.holds(v, t) && self.is_vertex(v) implies exists|
                u: VertexId,
            | #[trigger] self.edges@.contains((u, v)) && self.holds(u, t) by {
                assert(start.holds(v, t) && start.is_vertex(v));
                let u = choose|u: VertexId| #[trigger] start.edges@.contains((u, v)) && start.holds(u, t);
                assert(self.edges@.contains((u, v)) && self.holds(u, t));
            }
        }
    }

    /// Widens the universe by one type, ahead of nodes that will hold it.
    pub fn note_type(&mut self, t: &Type)
        requires
            old(self).wf(),
        ensures
            final(self).wf(),
            final(self).universe@ == old(self).universe@.insert(t@),
            final(self).nodes == old(self).nodes,
            final(self).edges == old(self).edges,
            final(self).woken == old(self).woken,
    {
        let ghost start = *self;
        self.universe = Ghost(self.universe@.insert(t@));
        proof {
            assert forall|id: VertexId, t2: TypeModel| #[trigger] self.holds(id, t2) == start.holds(id, t2) by {
                assert(self.node_types(id) == start.node_types(id));
            }
            assert forall|id: VertexId, t2: TypeModel| #[trigger] self.holds(id, t2) implies self.universe@.contains(t2) by {
                assert(start.holds(id, t2));
            }
            assert forall|u: VertexId, v: VertexId, t2: TypeModel|
                #![trigger self.edges@.contains((u, v)), self.holds(u, t2)]
                self.edges@.contains((u, v)) && self.is_vertex(v) && self.holds(u, t2) implies self.holds(v, t2)
                    || Set::<(VertexId, VertexId, TypeModel)>::empty().contains((u, v, t2)) by {
                assert(start.edges@.contains((u, v)) && start.holds(u, t2));
            }
            assert forall|id: VertexId| #[trigger] self.is_vertex(id) implies self.vertex(id).wf() by {
                assert(start.is_vertex(id));
            }
            assert forall|u: VertexId, v: VertexId| #[trigger] self.edges@.contains((u, v)) implies u.0 < self.nodes@.len()
                && v.0 < self.nodes@.len() && (self.is_vertex(u) ==> self.vertex(u).next@.contains(v)) by {
                assert(start.edges@.contains((u, v)));
            }
            assert forall|u: VertexId, k: int|
                self.is_vertex(u) && 0 <= k < self.vertex(u).next@.len() implies self.edges@.contains(
                (u, #[trigger] self.vertex(u).next@[k]),
            ) by {
                assert(start.is_vertex(u));
            }
            assert forall|v: VertexId, t2: TypeModel| #[trigger] self.holds(v, t2) && self.is_vertex(v) implies exists|
                u: VertexId,
            | #[trigger] self.edges@.contains((u, v)) && self.holds(u, t2) by {
                assert(start.holds(v, t2) && start.is_vertex(v));
                let u = choose|u: VertexId| #[trigger] start.edges@.contains((u, v)) && start.holds(u, t2);
                assert(self.edges@.contains((u, v)) && self.holds(u, t2));
            }
        }
    }

    /// Hands over the boxes woken since the last call.
    pub fn take_woken(&mut self) -> (r: Vec<BoxId>)
        ensures
            r@ == old(self).woken@,
            final(self).woken@.len() == 0,
            final(self).nodes == old(self).nodes,
            final(self).universe == old(self).universe,
            final(self).edges == old(self).edges,
    {
        let mut r: Vec<BoxId> = Vec::new();
        std::mem::swap(&mut r, &mut self.woken);
        r
    }

    pub fn get_vertex(&self, id: VertexId) -> (r: Option<&Vertex>)
        ensures
            match r {
                Some(v) => self.is_vertex(id) && *v == self.vertex(id),
                None => !self.is_vertex(id),
            },
    {
        if id.0 >= self.nodes.len() {
            return None;
        }
        match &self.nodes[id.0] {
            GraphNode::Vertex(v) => Some(v),
            GraphNode::Source(_) => None,
        }
    }

    pub fn get_source(&self, id: VertexId) -> (r: Option<&Source>)
        ensures
            match r {
                Some(s) => self.is_source(id) && s.ty@ == self.source_type(id),
                None => !self.is_source(id),
            },
    {
        if id.0 >= self.nodes.len() {
            return None;
        }
        match &self.nodes[id.0] {
            GraphNode::Vertex(_) => None,
            GraphNode::Source(s) => Some(s),
        }
    }

    /// Whatever a node held, it still holds.
    pub proof fn lemma_holds_mono(&self, old: &VertexManager)
        requires
            self.keeps_frame(old),
            self.grows_from(old),
        ensures
            forall|id: VertexId| #[trigger] self.is_source(id) == old.is_source(id),
            forall|id: VertexId, t: TypeModel| #[trigger] old.holds(id, t) ==> self.holds(id, t),
            forall|id: VertexId| #[trigger] old.is_source(id) ==> self.node_types(id) == old.node_types(id),
    {
        assert forall|id: VertexId, t: TypeModel| #[trigger] old.holds(id, t) implies self.holds(id, t) by {
            if old.is_vertex(id) {
                let s = old.vertex(id).type_seq();
                let k = choose|k: int| 0 <= k < s.len() && s[k] == t;
                assert(self.vertex(id).type_seq().subrange(0, s.len() as int)[k] == t);
                assert(self.node_types(id)[k] == t);
            } else {
                assert(old.is_source(id));
                assert(self.nodes@[id.0 as int] == old.nodes@[id.0 as int]);
                assert(self.node_types(id) == old.node_types(id));
            }
        }
        assert forall|id: VertexId| #[trigger] old.is_source(id) implies self.node_types(id) == old.node_types(id) by {
            assert(self.nodes@[id.0 as int] == old.nodes@[id.0 as int]);
        }
        assert forall|id: VertexId| #[trigger] self.is_source(id) == old.is_source(id) by {
            if old.is_source(id) {
                assert(self.nodes@[id.0 as int] == old.nodes@[id.0 as int]);
            } else if id.0 < old.nodes@.len() {
                assert(old.is_vertex(id));
                assert(self.is_vertex(id));
            }
        }
    }

    pub proof fn lemma_frame_chain(&self, mid: &VertexManager, start: &VertexManager)
        requires
            self.keeps_frame(mid),
            self.grows_from(mid),
            mid.keeps_frame(start),
            mid.grows_from(start),
        ensures
            self.keeps_frame(start),
            self.grows_from(start),
    {
        assert forall|id: VertexId| #[trigger] start.is_source(id) implies self.nodes@[id.0 as int]
            == start.nodes@[id.0 as int] by {
            assert(mid.is_source(id));
        }
        assert forall|id: VertexId| #[trigger] start.is_vertex(id) implies self.vertex(id).boxes == start.vertex(
            id,
        ).boxes by {
            assert(mid.is_vertex(id));
        }
        assert forall|id: VertexId| #[trigger] start.is_vertex(id) implies start.vertex(id).type_seq().len()
            <= self.vertex(id).type_seq().len() && self.vertex(id).type_seq().subrange(
            0,
            start.vertex(id).type_seq().len() as int,
        ) == start.vertex(id).type_seq() by {
            assert(mid.is_vertex(id));
            let a = start.vertex(id).type_seq();
            let b = mid.vertex(id).type_seq();
            let c = self.vertex(id).type_seq();
            assert(c.subrange(0, a.len() as int) =~= c.subrange(0, b.len() as int).subrange(0, a.len() as int));
        }
    }

    /// `self` came from `old` by allocations and graph edits: old slots keep
    /// their kind, sources stay fixed, subscriptions stay, types only grow.
    pub open spec fn extends(&self, old: &VertexManager) -> bool {
        &&& old.nodes@.len() <= self.nodes@.len()
        &&& forall|id: VertexId| #[trigger] old.is_vertex(id) ==> self.is_vertex(id) && self.vertex(id).boxes == old.vertex(id).boxes
        &&& forall|id: VertexId| #[trigger] old.is_source(id) ==> self.nodes@[id.0 as int] == old.nodes@[id.0 as int]
        &&& self.grows_from(old)
    }

    pub proof fn lemma_extends_holds(&self, old: &VertexManager)
        requires
            self.extends(old),
        ensures
            forall|id: VertexId, t: TypeModel| #[trigger] old.holds(id, t) ==> self.holds(id, t),
            forall|id: VertexId| #[trigger] old.is_source(id) ==> self.node_types(id) == old.node_types(id) && self.is_source(id),
            forall|id: VertexId|
                #[trigger] old.is_vertex(id) && self.vertex(id).types@.len() == old.vertex(id).types@.len()
                    ==> self.node_types(id) == old.node_types(id),
    {
        assert forall|id: VertexId, t: TypeModel| #[trigger] old.holds(id, t) implies self.holds(id, t) by {
            if old.is_vertex(id) {
                let s = old.vertex(id).type_seq();
                let k = choose|k: int| 0 <= k < s.len() && s[k] == t;
                assert(self.vertex(id).type_seq().subrange(0, s.len() as int)[k] == t);
                assert(self.node_types(id)[k] == t);
            } else {
                assert(old.is_source(id));
                assert(self.nodes@[id.0 as int] == old.nodes@[id.0 as int]);
                assert(self.node_types(id) == old.node_types(id));
            }
        }
        assert forall|id: VertexId| #[trigger] old.is_source(id) implies self.node_types(id) == old.node_types(id)
            && self.is_source(id) by {
            assert(self.nodes@[id.0 as int] == old.nodes@[id.0 as int]);
        }
        assert forall|id: VertexId|
            #[trigger] old.is_vertex(id) && self.vertex(id).types@.len() == old.vertex(id).types@.len() implies self.node_types(id)
                == old.node_types(id) by {
            assert(self.vertex(id).type_seq().subrange(0, old.vertex(id).type_seq().len() as int)
                == old.vertex(id).type_seq());
            assert(self.vertex(id).type_seq() =~= old.vertex(id).type_seq());
        }
    }

    pub proof fn lemma_extends_chain(&self, mid: &VertexManager, start: &VertexManager)
        requires
            self.extends(mid),
            mid.extends(start),
        ensures
            self.extends(start),
    {
        assert forall|id: VertexId| #[trigger] start.is_vertex(id) implies self.is_vertex(id) && self.vertex(id).boxes
            == start.vertex(id).boxes by {
            assert(mid.is_vertex(id));
        }
        assert forall|id: VertexId| #[trigger] start.is_source(id) implies self.nodes@[id.0 as int]
            == start.nodes@[id.0 as int] by {
            assert(mid.is_source(id));
            assert(mid.nodes@[id.0 as int] == start.nodes@[id.0 as int]);
        }
        assert forall|id: VertexId| #[trigger] start.is_vertex(id) implies start.vertex(id).type_seq().len()
            <= self.vertex(id).type_seq().len() && self.vertex(id).type_seq().subrange(
            0,
            start.vertex(id).type_seq().len() as int,
        ) == start.vertex(id).type_seq() by {
            assert(mid.is_vertex(id));
            let a = start.vertex(id).type_seq();
            let b = mid.vertex(id).type_seq();
            let c = self.vertex(id).type_seq();
            assert(c.subrange(0, a.len() as int) =~= c.subrange(0, b.len() as int).subrange(0, a.len() as int));
        }
    }

    pub proof fn lemma_frame_extends(&self, old: &VertexManager)
        requires
            self.keeps_frame(old),
            self.grows_from(old),
        ensures
            self.extends(old),
    {
    }

    /// Appending a slot extends the graph and, for a source, keeps the measure.
    pub proof fn lemma_push_extends(&self, old: &VertexManager)
        requires
            self.nodes@.len() == old.nodes@.len() + 1,
            forall|i: int| 0 <= i < old.nodes@.len() ==> self.nodes@[i] == old.nodes@[i],
        ensures
            self.extends(old),
            self.nodes@.last() is Source ==> slack(self.nodes@, self.universe@.len()) == slack(
                old.nodes@,
                self.universe@.len(),
            ),
    {
        assert forall|id: VertexId| #[trigger] old.is_vertex(id) implies self.is_vertex(id) && self.vertex(id).boxes
            == old.vertex(id).boxes by {
            assert(self.nodes@[id.0 as int] == old.nodes@[id.0 as int]);
        }
        assert forall|id: VertexId| #[trigger] old.is_vertex(id) implies old.vertex(id).type_seq().len()
            <= self.vertex(id).type_seq().len() && self.vertex(id).type_seq().subrange(
            0,
            old.vertex(id).type_seq().len() as int,
        ) == old.vertex(id).type_seq() by {
            assert(self.nodes@[id.0 as int] == old.nodes@[id.0 as int]);
            assert(self.vertex(id).type_seq().subrange(0, old.vertex(id).type_seq().len() as int)
                =~= old.vertex(id).type_seq());
        }
        assert(self.nodes@.drop_last() =~= old.nodes@);
    }

    /// Nodes stay what they were: vertices keep their types as a prefix,
    /// sources keep their one type.
    pub open spec fn monotone_from(&self, old: &VertexManager) -> bool {
        &&& old.nodes@.len() <= self.nodes@.len()
        &&& forall|id: VertexId| #[trigger] old.is_vertex(id) ==> self.is_vertex(id)
        &&& forall|id: VertexId|
            #[trigger] old.is_source(id) ==> self.is_source(id) && self.source_type(id) == old.source_type(id)
        &&& self.grows_from(old)
    }

    pub proof fn lemma_extends_monotone(&self, old: &VertexManager)
        requires
            self.extends(old),
        ensures
            self.monotone_from(old),
    {
        assert forall|id: VertexId| #[trigger] old.is_source(id) implies self.is_source(id) && self.source_type(id)
            == old.source_type(id) by {
            assert(self.nodes@[id.0 as int] == old.nodes@[id.0 as int]);
        }
    }

    pub proof fn lemma_monotone_chain(&self, mid: &VertexManager, start: &VertexManager)
        requires
            self.monotone_from(mid),
            mid.monotone_from(start),
        ensures
            self.monotone_from(start),
    {
        assert forall|id: VertexId| #[trigger] start.is_vertex(id) implies start.vertex(id).type_seq().len()
            <= self.vertex(id).type_seq().len() && self.vertex(id).type_seq().subrange(
            0,
            start.vertex(id).type_seq().len() as int,
        ) == start.vertex(id).type_seq() by {
            assert(mid.is_vertex(id));
            let a = start.vertex(id).type_seq();
            let b = mid.vertex(id).type_seq();
            let c = self.vertex(id).type_seq();
            assert(c.subrange(0, a.len() as int) =~= c.subrange(0, b.len() as int).subrange(0, a.len() as int));
        }
        assert forall|id: VertexId| #[trigger] start.is_source(id) implies self.is_source(id) && self.source_type(id)
            == start.source_type(id) by {
            assert(mid.is_source(id));
        }
        assert forall|id: VertexId| #[trigger] start.is_vertex(id) implies self.is_vertex(id) by {
            assert(mid.is_vertex(id));
        }
    }

    /// A manager whose nodes hold the same types is monotone from the other.
    pub proof fn lemma_same_types_monotone(&self, old: &VertexManager)
        requires
            self.nodes@.len() == old.nodes@.len(),
            forall|id: VertexId| #[trigger] self.is_vertex(id) == old.is_vertex(id),
            forall|id: VertexId| #[trigger] self.node_types(id) == old.node_types(id),
        ensures
            self.monotone_from(old),
    {
        assert forall|id: VertexId| #[trigger] old.is_source(id) implies self.is_source(id) && self.source_type(id)
            == old.source_type(id) by {
            assert(!old.is_vertex(id));
            assert(!self.is_vertex(id));
            assert(self.node_types(id)[0] == old.node_types(id)[0]);
        }
        assert forall|id: VertexId| #[trigger] old.is_vertex(id) implies old.vertex(id).type_seq().len()
            <= self.vertex(id).type_seq().len() && self.vertex(id).type_seq().subrange(
            0,
            old.vertex(id).type_seq().len() as int,
        ) == old.vertex(id).type_seq() by {
            assert(self.node_types(id) == old.node_types(id));
            assert(self.vertex(id).type_seq().subrange(0, old.vertex(id).type_seq().len() as int)
                =~= old.vertex(id).type_seq());
        }
    }

    /// The line describing slot `k`.
    fn describe_node(&self, k: usize) -> (line: String)
        requires
            k < self.nodes@.len(),
        ensures
            describes(self.nodes@[k as int], k as nat, line@),
    {
        let mut line = String::new();
        match &self.nodes[k] {
            GraphNode::Vertex(v) => {
                line.append("Vertex ");
                push_decimal(&mut line, k);
                line.append(": ");
                let d = v.show();
                line.append(d.as_str());
                proof {
                    assert(line@ == "Vertex "@ + decimal(k as nat) + ": "@ + d@);
                }
            },
            GraphNode::Source(src) => {
                line.append("Source ");
                push_decimal(&mut line, k);
                line.append(": ");
                let d = src.ty.show();
                line.append(d.as_str());
                proof {
                    assert(line@ =~= "Source "@ + decimal(k as nat) + ": "@ + show_model(src.ty@));
                }
            },
        }
        line
    }

    /// One line per node: all vertices, then all sources, each in id order.
    pub fn show_all(&self) -> (r: String)
        ensures
            exists|ls: Seq<Seq<char>>| {
                let vs = ids_of_kind(self.nodes@, true);
                let ss = ids_of_kind(self.nodes@, false);
                &&& ls.len() == vs.len() + ss.len()
                &&& r@ == #[trigger] join_lines(ls)
                &&& forall|j: int| 0 <= j < vs.len() ==> describes(self.nodes@[vs[j] as int], vs[j], #[trigger] ls[j])
                &&& forall|j: int|
                    0 <= j < ss.len() ==> describes(self.nodes@[ss[j] as int], ss[j], #[trigger] ls[vs.len() + j])
            },
    {
        let mut r = String::new();
        let ghost mut ls: Seq<Seq<char>> = Seq::empty();
        let mut any = false;
        let mut pass: usize = 0;
        while pass < 2
            invariant
                0 <= pass <= 2,
                any == (ls.len() > 0),
                r@ == join_lines(ls),
                pass == 0 ==> ls.len() == 0,
                pass >= 1 ==> ls.len() == ids_of_kind(self.nodes@, true).len() + if pass == 2 {
                    ids_of_kind(self.nodes@, false).len()
                } else {
                    0
                },
                pass >= 1 ==> forall|j: int|
                    0 <= j < ids_of_kind(self.nodes@, true).len() ==> describes(
                        self.nodes@[ids_of_kind(self.nodes@, true)[j] as int],
                        ids_of_kind(self.nodes@, true)[j],
                        #[trigger] ls[j],
                    ),
                pass == 2 ==> forall|j: int|
                    0 <= j < ids_of_kind(self.nodes@, false).len() ==> describes(
                        self.nodes@[ids_of_kind(self.nodes@, false)[j] as int],
                        ids_of_kind(self.nodes@, false)[j],
                        #[trigger] ls[ids_of_kind(self.nodes@, true).len() + j],
                    ),
            decreases 2 - pass,
        {
            let want_vertex = pass == 0;
            let ghost base = ls;
            let mut k: usize = 0;
            while k < self.nodes.len()
                invariant
                    0 <= k <= self.nodes@.len(),
                    want_vertex == (pass == 0),
                    pass < 2,
                    any == (ls.len() > 0),
                    r@ == join_lines(ls),
                    ls.len() == base.len() + ids_of_kind(self.nodes@.subrange(0, k as int), want_vertex).len(),
                    forall|j: int| 0 <= j < base.len() ==> ls[j] == #[trigger] base[j],
                    forall|j: int|
                        0 <= j < ids_of_kind(self.nodes@.subrange(0, k as int), want_vertex).len() ==> describes(
                            self.nodes@[ids_of_kind(self.nodes@.subrange(0, k as int), want_vertex)[j] as int],
                            ids_of_kind(self.nodes@.subrange(0, k as int), want_vertex)[j],
                            #[trigger] ls[base.len() + j],
                        ),
                    forall|j: int|
                        0 <= j < ids_of_kind(self.nodes@.subrange(0, k as int), want_vertex).len() ==> (#[trigger] ids_of_kind(
                            self.nodes@.subrange(0, k as int),
                            want_vertex,
                        )[j]) < k,
                decreases self.nodes.len() - k,
            {
                let is_v = match &self.nodes[k] {
                    GraphNode::Vertex(_) => true,
                    GraphNode::Source(_) => false,
                };
                let ghost prev_ids = ids_of_kind(self.nodes@.subrange(0, k as int), want_vertex);
                proof {
                    assert(self.nodes@.subrange(0, k + 1).drop_last() =~= self.nodes@.subrange(0, k as int));
                    assert(self.nodes@.subrange(0, k + 1).last() == self.nodes@[k as int]);
                }
                if is_v == want_vertex {
                    let line = self.describe_node(k);
                    if any {
                        r.append("\n");
                    }
                    r.append(line.as_str());
                    proof {
                        let old_ls = ls;
                        ls = ls.push(line@);
                        assert(ls.drop_last() =~= old_ls);
                        if old_ls.len() == 0 {
                            assert(r@ =~= join_lines(ls));
                        }
                        let ids = ids_of_kind(self.nodes@.subrange(0, k + 1), want_vertex);
                        assert(ids == prev_ids.push(k as nat));
                        assert forall|j: int| 0 <= j < ids.len() implies describes(
                            self.nodes@[ids[j] as int],
                            ids[j],
                            #[trigger] ls[base.len() + j],
                        ) by {
                            if j < prev_ids.len() {
                                assert(ids[j] == prev_ids[j]);
                            }
                        }
                    }
                    any = true;
                } else {
                    proof {
                        assert(ids_of_kind(self.nodes@.subrange(0, k + 1), want_vertex) == prev_ids);
                    }
                }
                k = k + 1;
            }
            proof {
                assert(self.nodes@.subrange(0, k as int) =~= self.nodes@);
                let vs = ids_of_kind(self.nodes@, true);
                if pass == 0 {
                    assert forall|j: int| 0 <= j < vs.len() implies describes(
                        self.nodes@[vs[j] as int],
                        vs[j],
                        #[trigger] ls[j],
                    ) by {
                        assert(ls[base.len() + j] == ls[j]);
                    }
                } else {
                    assert forall|j: int| 0 <= j < vs.len() implies describes(
                        self.nodes@[vs[j] as int],
                        vs[j],
                        #[trigger] ls[j],
                    ) by {
                        assert(ls[j] == base[j]);
                    }
                }
            }
            pass = pass + 1;
        }
        r
    }

    /// Mutable access to a vertex; the caller is responsible for keeping the
    /// graph well formed.
    pub fn get_vertex_mut(&mut self, id: VertexId) -> (r: Option<&mut Vertex>)
        ensures
            r is Some <==> old(self).is_vertex(id),
            match r {
                Some(v) => *v == old(self).vertex(id) && final(self).nodes@ == old(self).nodes@.update(
                    id.0 as int,
                    GraphNode::Vertex(*final(v)),
                ) && final(self).woken == old(self).woken && final(self).universe == old(self).universe
                    && final(self).edges == old(self).edges,
                None => *final(self) == *old(self),
            },
    {
        if id.0 >= self.nodes.len() {
            return None;
        }
        let is_v = match &self.nodes[id.0] {
            GraphNode::Vertex(_) => true,
            GraphNode::Source(_) => false,
        };
        if !is_v {
            return None;
        }
        match &mut self.nodes[id.0] {
            GraphNode::Vertex(v) => Some(v),
            GraphNode::Source(_) => None,
        }
    }
}

} // verus!
