//! Walks the syntax tree and installs graph fragments: nodes, deferred edges
//! and call boxes; scopes follow classes and method definitions.
use vstd::prelude::*;
use crate::ast::{Node, literal_type};
use crate::attr_methods::{attr_effect, try_process_attr_method};
use crate::global_env::GlobalEnv;
use crate::graph::{BoxId, ChangeSet, SourceLocation, VertexId, copy_location};
use crate::local_env::LocalEnv;
use crate::name_map::lookup;
use crate::scope::{frames_kept, lemma_frames_refl, lemma_frames_trans, lemma_nearest_class, nearest_class};
use crate::types::{Type, TypeModel, instance_of};

verus! {

broadcast use vstd::std_specs::vec::group_vec_axioms, vstd::string::group_string_axioms;

/// Builds the graph of one unit; its edges wait in `changes` until `finish`.
pub struct AstInstaller {
    pub changes: ChangeSet,
}

/// The type of `self`: an instance of the innermost class, or `Object`.
pub open spec fn self_type(genv: GlobalEnv) -> TypeModel {
    match genv.scope_manager.class_name() {
        Some(c) => instance_of(c),
        None => instance_of("Object"@),
    }
}

/// Every deferred edge points at an allocated node.
pub open spec fn targets_allocated(c: Seq<(VertexId, VertexId)>, g: GlobalEnv) -> bool {
    forall|k: int| 0 <= k < c.len() ==> (#[trigger] c[k]).1.0 < g.vertex_manager.nodes@.len()
}

/// There is room for one more node.
pub open spec fn has_room(genv: GlobalEnv) -> bool {
    genv.vertex_manager.nodes@.len() < usize::MAX
}

/// An installer state: the driver, the local variables, the deferred edges.
/// What follows describes, step by step, how installing changes it.

/// Everything but the scope stack is unchanged.
pub open spec fn same_but_scopes(g0: GlobalEnv, g1: GlobalEnv) -> bool {
    &&& g1.vertex_manager == g0.vertex_manager
    &&& g1.box_manager == g0.box_manager
    &&& g1.method_registry == g0.method_registry
    &&& g1.type_errors == g0.type_errors
}

/// A class scope named `name`, with no instance variable, was pushed.
pub open spec fn class_entered(g0: GlobalEnv, g1: GlobalEnv, name: Seq<char>) -> bool {
    &&& same_but_scopes(g0, g1)
    &&& g1.scope_manager.scopes@.len() == g0.scope_manager.scopes@.len() + 1
    &&& g1.scope_manager.scopes@.drop_last() == g0.scope_manager.scopes@
    &&& g1.scope_manager.class_name() == Some(name)
    &&& g1.scope_manager.ivars() == Some(Map::<Seq<char>, VertexId>::empty())
    &&& g1.scope_manager.scopes@.last() is Class
}

/// A method scope was pushed.
pub open spec fn method_entered(g0: GlobalEnv, g1: GlobalEnv) -> bool {
    &&& same_but_scopes(g0, g1)
    &&& g1.scope_manager.scopes@.len() == g0.scope_manager.scopes@.len() + 1
    &&& g1.scope_manager.scopes@.drop_last() == g0.scope_manager.scopes@
    &&& g1.scope_manager.class_name() == g0.scope_manager.class_name()
    &&& g1.scope_manager.ivars() == g0.scope_manager.ivars()
    &&& !(g1.scope_manager.scopes@.last() is Class)
}

/// The innermost scope was popped.
pub open spec fn scope_exited(g0: GlobalEnv, g1: GlobalEnv) -> bool {
    &&& same_but_scopes(g0, g1)
    &&& g0.scope_manager.scopes@.len() > 0 ==> g1.scope_manager.scopes@ == g0.scope_manager.scopes@.drop_last()
}

/// `@name` was bound to `v` in the innermost class scope, if there is one.
pub open spec fn ivar_bound(g0: GlobalEnv, g1: GlobalEnv, name: Seq<char>, v: VertexId) -> bool {
    &&& same_but_scopes(g0, g1)
    &&& g1.scope_manager.class_name() == g0.scope_manager.class_name()
    &&& g1.scope_manager.scopes@.len() == g0.scope_manager.scopes@.len()
    &&& frames_kept(g0.scope_manager.scopes@, g1.scope_manager.scopes@)
    &&& match g0.scope_manager.ivars() {
        Some(m) => g1.scope_manager.ivars() == Some(m.insert(name, v)),
        None => g1.scope_manager.ivars() is None,
    }
}

/// A fresh empty vertex `id` was appended to the graph.
pub open spec fn vertex_added(g0: GlobalEnv, g1: GlobalEnv, id: VertexId) -> bool {
    &&& id.0 == g0.vertex_manager.nodes@.len()
    &&& g1.vertex_manager.nodes@.len() == g0.vertex_manager.nodes@.len() + 1
    &&& forall|i: int| 0 <= i < g0.vertex_manager.nodes@.len() ==> g1.vertex_manager.nodes@[i] == g0.vertex_manager.nodes@[i]
    &&& g1.vertex_manager.is_vertex(id)
    &&& g1.vertex_manager.vertex(id).types@.len() == 0
    &&& g1.vertex_manager.edges == g0.vertex_manager.edges
    &&& g1.vertex_manager.universe == g0.vertex_manager.universe
    &&& g1.box_manager == g0.box_manager
    &&& g1.method_registry == g0.method_registry
    &&& g1.scope_manager == g0.scope_manager
    &&& g1.type_errors == g0.type_errors
}

/// A fresh source `id` of type `t` was appended to the graph.
pub open spec fn source_added(g0: GlobalEnv, g1: GlobalEnv, t: TypeModel, id: VertexId) -> bool {
    &&& id.0 == g0.vertex_manager.nodes@.len()
    &&& g1.vertex_manager.nodes@.len() == g0.vertex_manager.nodes@.len() + 1
    &&& forall|i: int| 0 <= i < g0.vertex_manager.nodes@.len() ==> g1.vertex_manager.nodes@[i] == g0.vertex_manager.nodes@[i]
    &&& g1.vertex_manager.is_source(id)
    &&& g1.vertex_manager.source_type(id) == t
    &&& g1.vertex_manager.edges == g0.vertex_manager.edges
    &&& g1.vertex_manager.universe@ == g0.vertex_manager.universe@.insert(t)
    &&& g1.box_manager == g0.box_manager
    &&& g1.method_registry == g0.method_registry
    &&& g1.scope_manager == g0.scope_manager
    &&& g1.type_errors == g0.type_errors
}

/// Box `id`, the next free one, was created for the call `recv.name` returning
/// into `ret`, subscribed to a vertex receiver and queued.
pub open spec fn call_box_added(
    g0: GlobalEnv,
    g1: GlobalEnv,
    recv: VertexId,
    name: Seq<char>,
    ret: VertexId,
    loc: Option<SourceLocation>,
    id: BoxId,
) -> bool {
    &&& id.0 == g0.box_manager.boxes@.len()
    &&& g1.box_manager.boxes@ == g0.box_manager.boxes@.push(Some(g1.slot(id.0 as int)))
    &&& g1.slot(id.0 as int).id == id
    &&& g1.slot(id.0 as int).receiver == recv
    &&& g1.slot(id.0 as int).method_name@ == name
    &&& g1.slot(id.0 as int).return_vertex == ret
    &&& g1.slot(id.0 as int).location == loc
    &&& g1.slot(id.0 as int).seen_types@.len() == 0
    &&& g1.box_manager.run_queue@ == if g0.box_manager.run_queue@.contains(id) {
        g0.box_manager.run_queue@
    } else {
        g0.box_manager.run_queue@.push(id)
    }
    &&& g0.vertex_manager.is_vertex(recv) ==> g1.vertex_manager.vertex(recv).boxes@
        == g0.vertex_manager.vertex(recv).boxes@.push(id)
    &&& forall|v: VertexId| #[trigger] g1.vertex_manager.node_types(v) == g0.vertex_manager.node_types(v)
    &&& forall|v: VertexId| #[trigger] g1.vertex_manager.is_vertex(v) == g0.vertex_manager.is_vertex(v)
    &&& forall|v: VertexId|
        v != recv && v.0 < g0.vertex_manager.nodes@.len() ==> #[trigger] g1.vertex_manager.nodes@[v.0 as int]
            == g0.vertex_manager.nodes@[v.0 as int]
    &&& g1.vertex_manager.nodes@.len() == g0.vertex_manager.nodes@.len()
    &&& g1.vertex_manager.edges == g0.vertex_manager.edges
    &&& g1.vertex_manager.universe == g0.vertex_manager.universe
    &&& g1.method_registry == g0.method_registry
    &&& g1.scope_manager == g0.scope_manager
    &&& g1.type_errors == g0.type_errors
}

/// Node `v` exists in the graph.
pub open spec fn allocated(g: GlobalEnv, v: VertexId) -> bool {
    g.vertex_manager.is_vertex(v) || g.vertex_manager.is_source(v)
}

/// Names an intermediate installer state; it holds of every state.
pub open spec fn midway(g: GlobalEnv, l: LocalEnv, c: Seq<(VertexId, VertexId)>, r: Option<VertexId>) -> bool {
    true
}

/// Installing `node` takes state `(g0, l0, c0)` to `(g1, l1, c1)` and gives `r`.
pub open spec fn installed(
    g0: GlobalEnv,
    l0: LocalEnv,
    c0: Seq<(VertexId, VertexId)>,
    node: Node,
    g1: GlobalEnv,
    l1: LocalEnv,
    c1: Seq<(VertexId, VertexId)>,
    r: Option<VertexId>,
) -> bool
    decreases node, 1nat,
{
    match node {
        Node::ClassDef { .. } => r is None && class_installed(g0, l0, c0, node, g1, l1, c1),
        Node::MethodDef { .. } => r is None && def_installed(g0, l0, c0, node, g1, l1, c1),
        Node::IvarWrite { .. } => ivar_write_installed(g0, l0, c0, node, g1, l1, c1, r),
        Node::IvarRead { name } => g1 == g0 && l1 == l0 && c1 == c0 && r == match g0.scope_manager.ivars() {
            Some(m) => lookup(m, name@),
            None => None,
        },
        Node::SelfRef => l1 == l0 && c1 == c0 && if has_room(g0) {
            r == Some(VertexId(g0.vertex_manager.nodes@.len() as usize)) && source_added(g0, g1, self_type(g0), r->0)
        } else {
            g1 == g0 && r is None
        },
        Node::LocalWrite { .. } => local_write_installed(g0, l0, c0, node, g1, l1, c1, r),
        Node::LocalRead { name } => g1 == g0 && l1 == l0 && c1 == c0 && r == lookup(l0@, name@),
        Node::Call { receiver: Some(_), .. } => call_installed(g0, l0, c0, node, g1, l1, c1, r),
        Node::Call { receiver: None, .. } => r is None && l1 == l0 && c1 == c0 && attr_effect(g0, node, g1),
        Node::Unsupported => g1 == g0 && l1 == l0 && c1 == c0 && r is None,
        _ => l1 == l0 && c1 == c0 && if has_room(g0) {
            r == Some(VertexId(g0.vertex_manager.nodes@.len() as usize)) && source_added(
                g0,
                g1,
                literal_type(node)->0,
                r->0,
            )
        } else {
            g1 == g0 && r is None
        },
    }
}

/// A class definition: enter its class scope, install the body, leave.
pub open spec fn class_installed(
    g0: GlobalEnv,
    l0: LocalEnv,
    c0: Seq<(VertexId, VertexId)>,
    node: Node,
    g1: GlobalEnv,
    l1: LocalEnv,
    c1: Seq<(VertexId, VertexId)>,
) -> bool
    decreases node, 0nat,
{
    match node {
        Node::ClassDef { name, body } => exists|ga: GlobalEnv, gb: GlobalEnv|
            #![trigger midway(ga, l0, c0, None), midway(gb, l1, c1, None)]
            class_entered(g0, ga, class_name_of(name)) && installed_seq(ga, l0, c0, body@, gb, l1, c1) && scope_exited(
                gb,
                g1,
            ),
        _ => false,
    }
}

/// A method definition: enter a method scope, install the body, leave.
pub open spec fn def_installed(
    g0: GlobalEnv,
    l0: LocalEnv,
    c0: Seq<(VertexId, VertexId)>,
    node: Node,
    g1: GlobalEnv,
    l1: LocalEnv,
    c1: Seq<(VertexId, VertexId)>,
) -> bool
    decreases node, 0nat,
{
    match node {
        Node::MethodDef { body, .. } => exists|ga: GlobalEnv, gb: GlobalEnv|
            #![trigger midway(ga, l0, c0, None), midway(gb, l1, c1, None)]
            method_entered(g0, ga) && installed_seq(ga, l0, c0, body@, gb, l1, c1) && scope_exited(gb, g1),
        _ => false,
    }
}

/// `@a = e`: install `e`; when it has a node, bind `@a` to it.
pub open spec fn ivar_write_installed(
    g0: GlobalEnv,
    l0: LocalEnv,
    c0: Seq<(VertexId, VertexId)>,
    node: Node,
    g1: GlobalEnv,
    l1: LocalEnv,
    c1: Seq<(VertexId, VertexId)>,
    r: Option<VertexId>,
) -> bool
    decreases node, 0nat,
{
    match node {
        Node::IvarWrite { name, value } => exists|gm: GlobalEnv, rv: Option<VertexId>|
            #![trigger midway(gm, l1, c1, rv)]
            installed(g0, l0, c0, *value, gm, l1, c1, rv) && match rv {
                Some(v) => ivar_bound(gm, g1, name@, v) && r == Some(v),
                None => g1 == gm && r is None,
            },
        _ => false,
    }
}

/// `x = e`: install `e`; when it has a node and there is room, a fresh vertex
/// becomes `x`, fed by a deferred edge from the node of `e`.
pub open spec fn local_write_installed(
    g0: GlobalEnv,
    l0: LocalEnv,
    c0: Seq<(VertexId, VertexId)>,
    node: Node,
    g1: GlobalEnv,
    l1: LocalEnv,
    c1: Seq<(VertexId, VertexId)>,
    r: Option<VertexId>,
) -> bool
    decreases node, 0nat,
{
    match node {
        Node::LocalWrite { name, value } => exists|
            gm: GlobalEnv,
            lm: LocalEnv,
            cm: Seq<(VertexId, VertexId)>,
            rv: Option<VertexId>,
        |
            #![trigger midway(gm, lm, cm, rv)]
            installed(g0, l0, c0, *value, gm, lm, cm, rv) && match rv {
                Some(ve) => if has_room(gm) {
                    let var = VertexId(gm.vertex_manager.nodes@.len() as usize);
                    &&& vertex_added(gm, g1, var)
                    &&& l1@ == lm@.insert(name@, var)
                    &&& c1 == cm.push((ve, var))
                    &&& r == Some(var)
                } else {
                    g1 == gm && l1 == lm && c1 == cm && r is None
                },
                None => g1 == gm && l1 == lm && c1 == cm && r is None,
            },
        _ => false,
    }
}

/// `recv.m(...)`: install the receiver; when it has an allocated node and
/// there is room, a fresh return vertex and a fresh queued box for the call.
pub open spec fn call_installed(
    g0: GlobalEnv,
    l0: LocalEnv,
    c0: Seq<(VertexId, VertexId)>,
    node: Node,
    g1: GlobalEnv,
    l1: LocalEnv,
    c1: Seq<(VertexId, VertexId)>,
    r: Option<VertexId>,
) -> bool
    decreases node, 0nat,
{
    match node {
        Node::Call { receiver: Some(recv), name, location, .. } => exists|gm: GlobalEnv, rv: Option<VertexId>|
            #![trigger midway(gm, l1, c1, rv)]
            installed(g0, l0, c0, *recv, gm, l1, c1, rv) && match rv {
                Some(v) => if allocated(gm, v) && has_room(gm) && gm.box_manager.boxes@.len() < usize::MAX {
                    let ret = VertexId(gm.vertex_manager.nodes@.len() as usize);
                    &&& r == Some(ret)
                    &&& exists|g2: GlobalEnv|
                        #![trigger midway(g2, l1, c1, r)]
                        vertex_added(gm, g2, ret) && call_box_added(
                            g2,
                            g1,
                            v,
                            name@,
                            ret,
                            location,
                            BoxId(gm.box_manager.boxes@.len() as usize),
                        )
                } else {
                    g1 == gm && r is None
                },
                None => g1 == gm && r is None,
            },
        _ => false,
    }
}

/// Installing `stmts` in order takes `(g0, l0, c0)` to `(g1, l1, c1)`.
pub open spec fn installed_seq(
    g0: GlobalEnv,
    l0: LocalEnv,
    c0: Seq<(VertexId, VertexId)>,
    stmts: Seq<Node>,
    g1: GlobalEnv,
    l1: LocalEnv,
    c1: Seq<(VertexId, VertexId)>,
) -> bool
    decreases stmts, 0nat,
{
    if stmts.len() == 0 {
        g1 == g0 && l1 == l0 && c1 == c0
    } else {
        exists|gm: GlobalEnv, lm: LocalEnv, cm: Seq<(VertexId, VertexId)>, r: Option<VertexId>|
            #![trigger midway(gm, lm, cm, r)]
            installed_seq(g0, l0, c0, stmts.drop_last(), gm, lm, cm) && installed(
                gm,
                lm,
                cm,
                stmts.last(),
                g1,
                l1,
                c1,
                r,
            )
    }
}

proof fn lemma_class_intro(
    g0: GlobalEnv,
    l0: LocalEnv,
    c0: Seq<(VertexId, VertexId)>,
    name: Option<String>,
    body: Vec<Node>,
    ga: GlobalEnv,
    gb: GlobalEnv,
    g1: GlobalEnv,
    l1: LocalEnv,
    c1: Seq<(VertexId, VertexId)>,
)
    requires
        class_entered(g0, ga, class_name_of(name)),
        installed_seq(ga, l0, c0, body@, gb, l1, c1),
        scope_exited(gb, g1),
    ensures
        installed(g0, l0, c0, Node::ClassDef { name, body }, g1, l1, c1, None),
{
    let node = Node::ClassDef { name, body };
    assert(midway(ga, l0, c0, None) && midway(gb, l1, c1, None));
    assert(class_installed(g0, l0, c0, node, g1, l1, c1));
}

proof fn lemma_def_intro(
    g0: GlobalEnv,
    l0: LocalEnv,
    c0: Seq<(VertexId, VertexId)>,
    name: String,
    body: Vec<Node>,
    ga: GlobalEnv,
    gb: GlobalEnv,
    g1: GlobalEnv,
    l1: LocalEnv,
    c1: Seq<(VertexId, VertexId)>,
)
    requires
        method_entered(g0, ga),
        installed_seq(ga, l0, c0, body@, gb, l1, c1),
        scope_exited(gb, g1),
    ensures
        installed(g0, l0, c0, Node::MethodDef { name, body }, g1, l1, c1, None),
{
    let node = Node::MethodDef { name, body };
    assert(midway(ga, l0, c0, None) && midway(gb, l1, c1, None));
    assert(def_installed(g0, l0, c0, node, g1, l1, c1));
}

proof fn lemma_ivar_write_intro(
    g0: GlobalEnv,
    l0: LocalEnv,
    c0: Seq<(VertexId, VertexId)>,
    name: String,
    value: Box<Node>,
    gm: GlobalEnv,
    rv: Option<VertexId>,
    g1: GlobalEnv,
    l1: LocalEnv,
    c1: Seq<(VertexId, VertexId)>,
    r: Option<VertexId>,
)
    requires
        installed(g0, l0, c0, *value, gm, l1, c1, rv),
        match rv {
            Some(v) => ivar_bound(gm, g1, name@, v) && r == Some(v),
            None => g1 == gm && r is None,
        },
    ensures
        installed(g0, l0, c0, Node::IvarWrite { name, value }, g1, l1, c1, r),
{
    let node = Node::IvarWrite { name, value };
    assert(midway(gm, l1, c1, rv));
    assert(ivar_write_installed(g0, l0, c0, node, g1, l1, c1, r));
}

proof fn lemma_local_write_intro(
    g0: GlobalEnv,
    l0: LocalEnv,
    c0: Seq<(VertexId, VertexId)>,
    name: String,
    value: Box<Node>,
    gm: GlobalEnv,
    lm: LocalEnv,
    cm: Seq<(VertexId, VertexId)>,
    rv: Option<VertexId>,
    g1: GlobalEnv,
    l1: LocalEnv,
    c1: Seq<(VertexId, VertexId)>,
    r: Option<VertexId>,
)
    requires
        installed(g0, l0, c0, *value, gm, lm, cm, rv),
        match rv {
            Some(ve) => if has_room(gm) {
                let var = VertexId(gm.vertex_manager.nodes@.len() as usize);
                &&& vertex_added(gm, g1, var)
                &&& l1@ == lm@.insert(name@, var)
                &&& c1 == cm.push((ve, var))
                &&& r == Some(var)
            } else {
                g1 == gm && l1 == lm && c1 == cm && r is None
            },
            None => g1 == gm && l1 == lm && c1 == cm && r is None,
        },
    ensures
        installed(g0, l0, c0, Node::LocalWrite { name, value }, g1, l1, c1, r),
{
    let node = Node::LocalWrite { name, value };
    assert(midway(gm, lm, cm, rv));
    assert(local_write_installed(g0, l0, c0, node, g1, l1, c1, r));
}

proof fn lemma_call_intro(
    g0: GlobalEnv,
    l0: LocalEnv,
    c0: Seq<(VertexId, VertexId)>,
    node: Node,
    gm: GlobalEnv,
    rv: Option<VertexId>,
    g2: GlobalEnv,
    g1: GlobalEnv,
    l1: LocalEnv,
    c1: Seq<(VertexId, VertexId)>,
    r: Option<VertexId>,
)
    requires
        node matches Node::Call { receiver: Some(_), .. },
        match node {
            Node::Call { receiver: Some(recv), name, location, .. } => {
                &&& installed(g0, l0, c0, *recv, gm, l1, c1, rv)
                &&& match rv {
                    Some(v) => if allocated(gm, v) && has_room(gm) && gm.box_manager.boxes@.len() < usize::MAX {
                        let ret = VertexId(gm.vertex_manager.nodes@.len() as usize);
                        &&& r == Some(ret)
                        &&& vertex_added(gm, g2, ret)
                        &&& call_box_added(
                            g2,
                            g1,
                            v,
                            name@,
                            ret,
                            location,
                            BoxId(gm.box_manager.boxes@.len() as usize),
                        )
                    } else {
                        g1 == gm && r is None
                    },
                    None => g1 == gm && r is None,
                }
            },
            _ => false,
        },
    ensures
        installed(g0, l0, c0, node, g1, l1, c1, r),
{
    assert(midway(gm, l1, c1, rv) && midway(g2, l1, c1, r));
    assert(call_installed(g0, l0, c0, node, g1, l1, c1, r));
}

proof fn lemma_seq_intro(
    g0: GlobalEnv,
    l0: LocalEnv,
    c0: Seq<(VertexId, VertexId)>,
    stmts: Seq<Node>,
    gm: GlobalEnv,
    lm: LocalEnv,
    cm: Seq<(VertexId, VertexId)>,
    r: Option<VertexId>,
    g1: GlobalEnv,
    l1: LocalEnv,
    c1: Seq<(VertexId, VertexId)>,
)
    requires
        stmts.len() > 0,
        installed_seq(g0, l0, c0, stmts.drop_last(), gm, lm, cm),
        installed(gm, lm, cm, stmts.last(), g1, l1, c1, r),
    ensures
        installed_seq(g0, l0, c0, stmts, g1, l1, c1),
{
    assert(midway(gm, lm, cm, r));
}

/// The class name used for a class definition.
pub open spec fn class_name_of(name: Option<String>) -> Seq<char> {
    match name {
        Some(n) => n@,
        None => "UnknownClass"@,
    }
}

/// The name of a class: its constant, or `UnknownClass`.
fn extract_class_name(name: &Option<String>) -> (r: String)
    ensures
        r@ == match name {
            Some(n) => n@,
            None => "UnknownClass"@,
        },
{
    match name {
        Some(n) => n.clone(),
        None => "UnknownClass".to_string(),
    }
}

/// `self`: a source of an instance of the innermost class, or of `Object`.
fn install_self(genv: &mut GlobalEnv) -> (r: Option<VertexId>)
    requires
        old(genv).wf(),
    ensures
        final(genv).progressed(old(genv)),
        if has_room(*old(genv)) {
            r == Some(VertexId(old(genv).vertex_manager.nodes@.len() as usize)) && source_added(
                *old(genv),
                *final(genv),
                self_type(*old(genv)),
                r->0,
            )
        } else {
            *final(genv) == *old(genv) && r is None
        },
{
    if genv.vertex_manager.nodes.len() == usize::MAX {
        proof {
            genv.lemma_progress_refl();
        }
        return None;
    }
    let t = match genv.scope_manager.current_class_name() {
        Some(class_name) => Type::Instance { class_name },
        None => Type::Instance { class_name: "Object".to_string() },
    };
    Some(genv.new_source(t))
}

/// `@a`: the node bound to `@a` in the innermost class, if any.
fn install_ivar_read(genv: &GlobalEnv, name: &String) -> (r: Option<VertexId>)
    requires
        genv.wf(),
    ensures
        r == match genv.scope_manager.ivars() {
            Some(m) => lookup(m, name@),
            None => None,
        },
{
    genv.scope_manager.lookup_instance_var(name.as_str())
}

/// A literal: a fresh source of its type.
fn install_literal(genv: &mut GlobalEnv, t: Type) -> (r: Option<VertexId>)
    requires
        old(genv).wf(),
    ensures
        final(genv).progressed(old(genv)),
        if has_room(*old(genv)) {
            r == Some(VertexId(old(genv).vertex_manager.nodes@.len() as usize)) && source_added(
                *old(genv),
                *final(genv),
                t@,
                r->0,
            )
        } else {
            *final(genv) == *old(genv) && r is None
        },
{
    if genv.vertex_manager.nodes.len() == usize::MAX {
        proof {
            genv.lemma_progress_refl();
        }
        return None;
    }
    Some(genv.new_source(t))
}

impl AstInstaller {
    pub fn new() -> (r: AstInstaller)
        ensures
            r.changes.edges@.len() == 0,
    {
        AstInstaller { changes: ChangeSet::new() }
    }

    /// Installs one node and returns the node that holds its value, if it
    /// has one. The effect is exactly `installed`; the deferred edges wait in
    /// `changes`.
    pub fn install_node(&mut self, genv: &mut GlobalEnv, lenv: &mut LocalEnv, node: &Node) -> (r: Option<VertexId>)
        requires
            targets_allocated(old(self).changes.edges@, *old(genv)),
            old(genv).wf(),
            old(lenv).wf(),
        ensures
            frames_kept(old(genv).scope_manager.scopes@, final(genv).scope_manager.scopes@),
            targets_allocated(final(self).changes.edges@, *final(genv)),
            final(genv).progressed(old(genv)),
            final(lenv).wf(),
            installed(
                *old(genv),
                *old(lenv),
                old(self).changes.edges@,
                *node,
                *final(genv),
                *final(lenv),
                final(self).changes.edges@,
                r,
            ),
            final(genv).scope_manager.scopes@.len() == old(genv).scope_manager.scopes@.len(),
        decreases node, 2nat,
    {
        let ghost g0 = *genv;
        let ghost l0 = *lenv;
        let ghost c0 = self.changes.edges@;
        proof {
            genv.lemma_progress_refl();
            lemma_frames_refl(g0.scope_manager.scopes@);
        }
        match node {
            Node::ClassDef { .. } => {
                let r = self.install_class_node(genv, lenv, node);
                proof {
                    lemma_frames_refl(g0.scope_manager.scopes@);
                }
                r
            },
            Node::MethodDef { .. } => self.install_def_node(genv, lenv, node),
            Node::IvarWrite { .. } => self.install_ivar_write(genv, lenv, node),
            Node::IvarRead { name } => install_ivar_read(genv, name),
            Node::SelfRef => install_self(genv),
            Node::LocalWrite { name, value } => {
                let val = self.install_node(genv, lenv, value);
                let ghost gm = *genv;
                let ghost lm = *lenv;
                let ghost cm = self.changes.edges@;
                let val = match val {
                    Some(v) => v,
                    None => {
                        proof {
                            lemma_local_write_intro(g0, l0, c0, *name, *value, gm, lm, cm, None, *genv, *lenv, self.changes.edges@, None);
                        }
                        return None;
                    },
                };
                if genv.vertex_manager.nodes.len() == usize::MAX {
                    proof {
                        lemma_local_write_intro(g0, l0, c0, *name, *value, gm, lm, cm, Some(val), *genv, *lenv, self.changes.edges@, None);
                    }
                    return None;
                }
                let var = genv.new_vertex();
                lenv.new_var(name.clone(), var);
                self.changes.add_edge(val, var);
                proof {
                    genv.vertex_manager.lemma_monotone_chain(&gm.vertex_manager, &g0.vertex_manager);
                    assert(vertex_added(gm, *genv, var));
                    lemma_local_write_intro(g0, l0, c0, *name, *value, gm, lm, cm, Some(val), *genv, *lenv, self.changes.edges@, Some(var));
                }
                Some(var)
            },
            Node::LocalRead { name } => lenv.get_var(name.as_str()),
            Node::Call { receiver, name, location, .. } => {
                match receiver {
                    Some(recv) => {
                        let rv = self.install_node(genv, lenv, recv);
                        let ghost gm = *genv;
                        let ghost lm = *lenv;
                        let ghost cm = self.changes.edges@;
                        proof {
                            assert(installed(g0, l0, c0, **recv, gm, lm, cm, rv));
                        }
                        let recv_vtx = match rv {
                            Some(v) => v,
                            None => {
                                proof {
                                    lemma_call_intro(g0, l0, c0, *node, gm, rv, gm, *genv, *lenv, self.changes.edges@, None);
                                }
                                return None;
                            },
                        };
                        let known = genv.get_vertex(recv_vtx).is_some() || genv.get_source(recv_vtx).is_some();
                        if !known || genv.vertex_manager.nodes.len() == usize::MAX || genv.box_manager.boxes.len()
                            == usize::MAX {
                            proof {
                                lemma_call_intro(g0, l0, c0, *node, gm, rv, gm, *genv, *lenv, self.changes.edges@, None);
                            }
                            return None;
                        }
                        let ret = genv.new_vertex();
                        let ghost g2 = *genv;
                        let id = genv.new_call_box(recv_vtx, name.clone(), ret, copy_location(location));
                        proof {
                            genv.vertex_manager.lemma_monotone_chain(&g2.vertex_manager, &gm.vertex_manager);
                            genv.vertex_manager.lemma_monotone_chain(&gm.vertex_manager, &g0.vertex_manager);
                            assert(genv.occupied(id.0 as int));
                            assert(genv.slot(id.0 as int).id == id);
                            assert(vertex_added(gm, g2, ret));
                            assert(call_box_added(g2, *genv, recv_vtx, name@, ret, *location, id));
                            lemma_call_intro(g0, l0, c0, *node, gm, rv, g2, *genv, *lenv, self.changes.edges@, Some(ret));
                        }
                        Some(ret)
                    },
                    None => {
                        try_process_attr_method(genv, node);
                        None
                    },
                }
            },
            Node::StringLit => install_literal(genv, Type::string()),
            Node::IntegerLit => install_literal(genv, Type::integer()),
            Node::ArrayLit => install_literal(genv, Type::array()),
            Node::HashLit => install_literal(genv, Type::hash()),
            Node::NilLit => install_literal(genv, Type::Nil),
            Node::TrueLit => install_literal(genv, Type::Instance { class_name: "TrueClass".to_string() }),
            Node::FalseLit => install_literal(genv, Type::Instance { class_name: "FalseClass".to_string() }),
            Node::SymbolLit { .. } => install_literal(genv, Type::Instance { class_name: "Symbol".to_string() }),
            Node::Unsupported => None,
        }
    }

    /// `class C ... end`: installs the body inside a new class scope.
    fn install_class_node(&mut self, genv: &mut GlobalEnv, lenv: &mut LocalEnv, owner: &Node) -> (r: Option<VertexId>)
        requires
            targets_allocated(old(self).changes.edges@, *old(genv)),
            old(genv).wf(),
            old(lenv).wf(),
            *owner is ClassDef,
        ensures
            final(genv).scope_manager.scopes@ == old(genv).scope_manager.scopes@,
            targets_allocated(final(self).changes.edges@, *final(genv)),
            final(genv).progressed(old(genv)),
            final(lenv).wf(),
            final(genv).scope_manager.scopes@.len() == old(genv).scope_manager.scopes@.len(),
            installed(
                *old(genv),
                *old(lenv),
                old(self).changes.edges@,
                *owner,
                *final(genv),
                *final(lenv),
                final(self).changes.edges@,
                r,
            ),
        decreases owner, 1nat,
    {
        let ghost g0 = *genv;
        match owner {
            Node::ClassDef { name, body } => {
                let class_name = extract_class_name(name);
                genv.enter_class(class_name);
                let ghost ga = *genv;
                self.install_statements(genv, lenv, owner, body);
                let ghost gb = *genv;
                genv.exit_scope();
                proof {
                    genv.vertex_manager.lemma_monotone_chain(&gb.vertex_manager, &g0.vertex_manager);
                    assert(class_entered(g0, ga, class_name_of(*name)));
                    assert(scope_exited(gb, *genv));
                    assert(installed_seq(ga, *old(lenv), old(self).changes.edges@, body@, gb, *lenv, self.changes.edges@));
                    lemma_class_intro(g0, *old(lenv), old(self).changes.edges@, *name, *body, ga, gb, *genv, *lenv, self.changes.edges@);
                }
                None
            },
            _ => {
                proof {
                    genv.lemma_progress_refl();
                }
                None
            },
        }
    }

    /// `def m ... end`: installs the body inside a new method scope.
    fn install_def_node(&mut self, genv: &mut GlobalEnv, lenv: &mut LocalEnv, owner: &Node) -> (r: Option<VertexId>)
        requires
            targets_allocated(old(self).changes.edges@, *old(genv)),
            old(genv).wf(),
            old(lenv).wf(),
            *owner is MethodDef,
        ensures
            frames_kept(old(genv).scope_manager.scopes@, final(genv).scope_manager.scopes@),
            targets_allocated(final(self).changes.edges@, *final(genv)),
            final(genv).progressed(old(genv)),
            final(lenv).wf(),
            final(genv).scope_manager.scopes@.len() == old(genv).scope_manager.scopes@.len(),
            installed(
                *old(genv),
                *old(lenv),
                old(self).changes.edges@,
                *owner,
                *final(genv),
                *final(lenv),
                final(self).changes.edges@,
                r,
            ),
        decreases owner, 1nat,
    {
        let ghost g0 = *genv;
        match owner {
            Node::MethodDef { name, body } => {
                genv.enter_method(name.clone());
                let ghost ga = *genv;
                self.install_statements(genv, lenv, owner, body);
                let ghost gb = *genv;
                genv.exit_scope();
                proof {
                    genv.vertex_manager.lemma_monotone_chain(&gb.vertex_manager, &g0.vertex_manager);
                    assert(method_entered(g0, ga));
                    assert(scope_exited(gb, *genv));
                    let p = ga.scope_manager.scopes@;
                    let q = gb.scope_manager.scopes@;
                    let o = g0.scope_manager.scopes@;
                    assert(p.drop_last() == o);
                    assert(nearest_class(p) == nearest_class(o));
                    lemma_nearest_class(o);
                    match nearest_class(o) {
                        Some(i) => {
                            assert(genv.scope_manager.scopes@ =~= o.update(i, q[i]));
                        },
                        None => {
                            assert(genv.scope_manager.scopes@ =~= o);
                        },
                    }
                    assert(installed_seq(ga, *old(lenv), old(self).changes.edges@, body@, gb, *lenv, self.changes.edges@));
                    lemma_def_intro(g0, *old(lenv), old(self).changes.edges@, *name, *body, ga, gb, *genv, *lenv, self.changes.edges@);
                }
                None
            },
            _ => {
                proof {
                    genv.lemma_progress_refl();
                }
                None
            },
        }
    }

    /// `@a = e`: binds `@a` in the innermost class to the node of `e`.
    fn install_ivar_write(&mut self, genv: &mut GlobalEnv, lenv: &mut LocalEnv, owner: &Node) -> (r: Option<VertexId>)
        requires
            targets_allocated(old(self).changes.edges@, *old(genv)),
            old(genv).wf(),
            old(lenv).wf(),
            *owner is IvarWrite,
        ensures
            frames_kept(old(genv).scope_manager.scopes@, final(genv).scope_manager.scopes@),
            targets_allocated(final(self).changes.edges@, *final(genv)),
            final(genv).progressed(old(genv)),
            final(lenv).wf(),
            final(genv).scope_manager.scopes@.len() == old(genv).scope_manager.scopes@.len(),
            installed(
                *old(genv),
                *old(lenv),
                old(self).changes.edges@,
                *owner,
                *final(genv),
                *final(lenv),
                final(self).changes.edges@,
                r,
            ),
        decreases owner, 1nat,
    {
        let ghost g0 = *genv;
        let ghost l0 = *lenv;
        let ghost c0 = self.changes.edges@;
        match owner {
            Node::IvarWrite { name, value } => {
                let rv = self.install_node(genv, lenv, value);
                let ghost gm = *genv;
                proof {
                    assert(installed(g0, l0, c0, **value, gm, *lenv, self.changes.edges@, rv));
                }
                let v = match rv {
                    Some(v) => v,
                    None => {
                        proof {
                            lemma_ivar_write_intro(g0, l0, c0, *name, *value, gm, rv, *genv, *lenv, self.changes.edges@, None);
                        }
                        return None;
                    },
                };
                genv.set_instance_var(name.clone(), v);
                proof {
                    genv.vertex_manager.lemma_monotone_chain(&gm.vertex_manager, &g0.vertex_manager);
                    assert(ivar_bound(gm, *genv, name@, v));
                    lemma_frames_trans(g0.scope_manager.scopes@, gm.scope_manager.scopes@, genv.scope_manager.scopes@);
                    lemma_ivar_write_intro(g0, l0, c0, *name, *value, gm, rv, *genv, *lenv, self.changes.edges@, Some(v));
                }
                Some(v)
            },
            _ => {
                proof {
                    genv.lemma_progress_refl();
                }
                None
            },
        }
    }

    /// Installs the statements of a class or method body, in order.
    fn install_statements(&mut self, genv: &mut GlobalEnv, lenv: &mut LocalEnv, owner: &Node, body: &Vec<Node>)
        requires
            targets_allocated(old(self).changes.edges@, *old(genv)),
            old(genv).wf(),
            old(lenv).wf(),
            match *owner {
                Node::ClassDef { body: b, .. } => b == *body,
                Node::MethodDef { body: b, .. } => b == *body,
                _ => false,
            },
        ensures
            frames_kept(old(genv).scope_manager.scopes@, final(genv).scope_manager.scopes@),
            targets_allocated(final(self).changes.edges@, *final(genv)),
            final(genv).progressed(old(genv)),
            final(lenv).wf(),
            final(genv).scope_manager.scopes@.len() == old(genv).scope_manager.scopes@.len(),
            installed_seq(
                *old(genv),
                *old(lenv),
                old(self).changes.edges@,
                body@,
                *final(genv),
                *final(lenv),
                final(self).changes.edges@,
            ),
        decreases owner, 0nat,
    {
        let ghost g0 = *genv;
        let ghost l0 = *lenv;
        let ghost c0 = self.changes.edges@;
        proof {
            genv.lemma_progress_refl();
            assert(body@.subrange(0, 0).len() == 0);
            lemma_frames_refl(g0.scope_manager.scopes@);
        }
        let mut i: usize = 0;
        while i < body.len()
            invariant
                0 <= i <= body@.len(),
                genv.progressed(&g0),
                lenv.wf(),
                genv.scope_manager.scopes@.len() == g0.scope_manager.scopes@.len(),
                match *owner {
                    Node::ClassDef { body: b, .. } => b == *body,
                    Node::MethodDef { body: b, .. } => b == *body,
                    _ => false,
                },
                installed_seq(g0, l0, c0, body@.subrange(0, i as int), *genv, *lenv, self.changes.edges@),
                targets_allocated(self.changes.edges@, *genv),
                frames_kept(g0.scope_manager.scopes@, genv.scope_manager.scopes@),
            decreases body.len() - i,
        {
            let ghost g1 = *genv;
            let ghost l1 = *lenv;
            let ghost c1 = self.changes.edges@;
            proof {
                assert(decreases_to!(*body => body[i as int]));
            }
            let r = self.install_node(genv, lenv, &body[i]);
            proof {
                lemma_frames_trans(g0.scope_manager.scopes@, g1.scope_manager.scopes@, genv.scope_manager.scopes@);
                genv.lemma_progress_chain(&g1, &g0);
                let sub = body@.subrange(0, i + 1);
                assert(sub.drop_last() =~= body@.subrange(0, i as int));
                assert(sub.last() == body@[i as int]);
                lemma_seq_intro(g0, l0, c0, sub, g1, l1, c1, r, *genv, *lenv, self.changes.edges@);
            }
            i = i + 1;
        }
        proof {
            assert(body@.subrange(0, i as int) =~= body@);
        }
    }

    /// Commits the deferred edges and drains the run queue.
    pub fn finish(self, genv: &mut GlobalEnv)
        requires
            old(genv).wf(),
            targets_allocated(self.changes.edges@, *old(genv)),
        ensures
            final(genv).wf(),
            final(genv).box_manager.run_queue@.len() == 0,
            final(genv).vertex_manager.monotone_from(&old(genv).vertex_manager),
            (old(genv).settled() || old(genv).unfired()) && has_room(*final(genv)) ==> final(genv).settled(),
            self.changes.edges@.len() == 0 && old(genv).box_manager.run_queue@.len() == 0 ==> *final(genv)
                == *old(genv),
            forall|k: int|
                0 <= k < self.changes.edges@.len() && (#[trigger] self.changes.edges@[k]).0.0 < old(
                    genv,
                ).vertex_manager.nodes@.len() ==> final(genv).vertex_manager.edges@.contains(self.changes.edges@[k]),
            forall|e: (VertexId, VertexId)| #[trigger] final(genv).vertex_manager.edges@.contains(e)
                ==> old(genv).vertex_manager.edges@.contains(e) || self.changes.edges@.contains(e)
                || GlobalEnv::run_edge(*old(genv), *final(genv), e),
            final(genv).boxes_stable(old(genv)),
            exists|origin: Seq<BoxId>| final(genv).errors_attributed(old(genv), origin),
            final(genv).method_registry == old(genv).method_registry,
    {
        let ghost g0 = *genv;
        let ghost ch = self.changes.edges@;
        genv.apply_changes(self.changes);
        let ghost g1 = *genv;
        genv.run_all();
        proof {
            let origin = choose|origin: Seq<BoxId>| genv.errors_attributed(&g1, origin);
            genv.lemma_start_swap(&g0, &g1, origin);
            assert forall|e: (VertexId, VertexId)| #[trigger] genv.vertex_manager.edges@.contains(e)
                implies g0.vertex_manager.edges@.contains(e) || ch.contains(e) || GlobalEnv::run_edge(g0, *genv, e) by {
                if !g1.vertex_manager.edges@.contains(e) {
                    assert(GlobalEnv::run_edge(g1, *genv, e));
                }
            }
            assert forall|k: int|
                0 <= k < ch.len() && (#[trigger] ch[k]).0.0 < g0.vertex_manager.nodes@.len()
                    implies genv.vertex_manager.edges@.contains(ch[k]) by {
                assert(g1.vertex_manager.edges@.contains(ch[k]));
            }
            genv.vertex_manager.lemma_monotone_chain(&g1.vertex_manager, &g0.vertex_manager);
            if g0.unfired() {
                g1.lemma_unfired_settled();
            }
        }
    }
}

} // verus!
