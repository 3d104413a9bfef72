//! Local variables of the unit under analysis.
use vstd::prelude::*;
use crate::graph::VertexId;
use crate::name_map::{NameMap, lookup};

verus! {

/// Maps each local variable name to the vertex of its latest write.
pub struct LocalEnv {
    pub vars: NameMap<VertexId>,
}

impl View for LocalEnv {
    type V = Map<Seq<char>, VertexId>;

    open spec fn view(&self) -> Map<Seq<char>, VertexId> {
        self.vars@
    }
}

impl LocalEnv {
    pub open spec fn wf(&self) -> bool {
        self.vars.wf()
    }

    pub fn new() -> (r: LocalEnv)
        ensures
            r.wf(),
            r@ == Map::<Seq<char>, VertexId>::empty(),
    {
        LocalEnv { vars: NameMap::new() }
    }

    /// Binds `name` to `vtx`, replacing the earlier binding.
    pub fn new_var(&mut self, name: String, vtx: VertexId)
        requires
            old(self).wf(),
        ensures
            final(self).wf(),
            final(self)@ == old(self)@.insert(name@, vtx),
    {
        self.vars.insert(name, vtx);
    }

    /// The current binding of `name`, if any.
    pub fn get_var(&self, name: &str) -> (r: Option<VertexId>)
        requires
            self.wf(),
        ensures
            r == lookup(self@, name@),
    {
        match self.vars.get(name) {
            Some(v) => Some(*v),
            None => None,
        }
    }
}

} // verus!
