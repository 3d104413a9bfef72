//! Laws of the analysis, proved from the contracts of the library.
use vstd::prelude::*;
use crate::box_manager::BoxManager;
use crate::global_env::GlobalEnv;
use crate::graph::{BoxId, VertexId};
use crate::local_env::LocalEnv;
use crate::name_map::lookup;
use crate::types::TypeModel;
use crate::vertex_manager::VertexManager;

verus! {

/// Monotonicity: a type that a vertex holds stays with it for the rest of the
/// analysis (every operation leaves the graph `monotone_from` its old state).
pub proof fn law_types_stay(before: &VertexManager, after: &VertexManager, v: VertexId, t: TypeModel)
    requires
        after.monotone_from(before),
        before.is_vertex(v),
        before.holds(v, t),
    ensures
        after.is_vertex(v),
        after.holds(v, t),
{
    let s = before.vertex(v).type_seq();
    let k = choose|k: int| 0 <= k < s.len() && s[k] == t;
    assert(after.vertex(v).type_seq().subrange(0, s.len() as int)[k] == t);
    assert(after.node_types(v)[k] == t);
}

/// A source holds exactly its fixed type, for all time.
pub proof fn law_source_fixed(before: &VertexManager, after: &VertexManager, s: VertexId)
    requires
        after.monotone_from(before),
        before.is_source(s),
    ensures
        after.is_source(s),
        after.node_types(s) == seq![before.source_type(s)],
        forall|t: TypeModel| after.holds(s, t) <==> t == before.source_type(s),
{
    assert forall|t: TypeModel| after.holds(s, t) <==> t == before.source_type(s) by {
        if t == before.source_type(s) {
            assert(after.node_types(s)[0] == t);
        }
    }
}

/// Along every committed edge into a vertex, the vertex holds every type of
/// the edge's tail; this holds between any two operations, so at quiescence.
pub proof fn law_edge_carries_types(g: &VertexManager, u: VertexId, v: VertexId, t: TypeModel)
    requires
        g.wf(),
        g.edges@.contains((u, v)),
        g.is_vertex(v),
        g.holds(u, t),
    ensures
        g.holds(v, t),
{
    assert(g.edges@.contains((u, v)) && g.holds(u, t));
}

/// Every type a vertex holds arrived along an edge whose tail holds it: the
/// graph never invents types.
pub proof fn law_types_have_sources(g: &VertexManager, v: VertexId, t: TypeModel)
    requires
        g.wf(),
        g.is_vertex(v),
        g.holds(v, t),
    ensures
        exists|u: VertexId| g.edges@.contains((u, v)) && g.holds(u, t),
{
}

/// At quiescence every call box has dealt with every non-`Bot` type of its
/// receiver: the method resolved and its return type reached the return
/// vertex, or an error (type, method, location) was recorded. A union
/// receiver is dealt with member by member.
pub proof fn law_quiescent_calls_answered(env: &GlobalEnv, i: int, t: TypeModel)
    requires
        env.wf(),
        env.settled(),
        env.box_manager.run_queue@.len() == 0,
        env.occupied(i),
        env.vertex_manager.holds(env.slot(i).receiver, t),
        t != TypeModel::Bot,
    ensures
        env.answered(env.slot(i), t),
{
    assert(!env.box_manager.run_queue@.contains(crate::graph::BoxId(i as usize)));
    assert(env.caught_up(env.slot(i)));
    assert(env.slot(i).seen().contains(t));
}

/// Before any box fired there is nothing left to answer, so `finish` on such
/// an analysis reaches a settled quiescence.
pub proof fn law_unfired_is_settled(env: &GlobalEnv)
    requires
        env.unfired(),
    ensures
        env.settled(),
{
    env.lemma_unfired_settled();
}

/// When every non-`Bot` type held by a box's receiver resolves for the box's
/// method, a drain of the queue records no error.
pub proof fn law_no_error_when_all_resolve(start: &GlobalEnv, env: &GlobalEnv, origin: Seq<BoxId>)
    requires
        env.errors_attributed(start, origin),
        forall|i: int, t: TypeModel|
            #[trigger] env.occupied(i) && #[trigger] env.vertex_manager.holds(env.slot(i).receiver, t) && t
                != TypeModel::Bot ==> env.method_registry@.contains_key((t, env.slot(i).method_name@)),
    ensures
        env.type_errors@.len() == start.type_errors@.len(),
{
    if origin.len() > 0 {
        let n = start.type_errors@.len() as int;
        assert(env.error_by(start, n + 0, origin[0]));
        let i = origin[0].0 as int;
        assert(env.occupied(i));
        assert(env.vertex_manager.holds(env.slot(i).receiver, env.type_errors@[n].receiver_type@));
    }
}

/// A drain of the queue records, for each box and receiver type, at most one error.
pub proof fn law_error_once_per_box_and_type(
    start: &GlobalEnv,
    env: &GlobalEnv,
    origin: Seq<BoxId>,
    k1: int,
    k2: int,
)
    requires
        env.errors_attributed(start, origin),
        0 <= k1 < k2 < origin.len(),
        origin[k1] == origin[k2],
    ensures
        env.type_errors@[start.type_errors@.len() + k1].receiver_type@ != env.type_errors@[start.type_errors@.len()
            + k2].receiver_type@,
{
}

/// No box id waits twice in the run queue.
pub proof fn law_queue_unique(m: &BoxManager)
    requires
        m.wf(),
    ensures
        m.run_queue@.no_duplicates(),
{
}

/// Registering the same (receiver, name, return type) twice is registering it once.
pub proof fn law_register_twice(m: Map<(TypeModel, Seq<char>), TypeModel>, k: (TypeModel, Seq<char>), ret: TypeModel)
    ensures
        m.insert(k, ret).insert(k, ret) == m.insert(k, ret),
{
    assert(m.insert(k, ret).insert(k, ret) =~= m.insert(k, ret));
}

/// A `Bot` receiver type is never reported as an error.
pub proof fn law_bot_never_reported(env: &GlobalEnv, k: int)
    requires
        env.wf(),
        0 <= k < env.type_errors@.len(),
    ensures
        env.type_errors@[k].receiver_type@ != TypeModel::Bot,
{
}

/// Reading a local variable twice, with no write between, gives the same node.
pub proof fn law_local_reread(env: &LocalEnv, name: Seq<char>, first: Option<VertexId>, second: Option<VertexId>)
    requires
        first == lookup(env@, name),
        second == lookup(env@, name),
    ensures
        first == second,
{
}

} // verus!
