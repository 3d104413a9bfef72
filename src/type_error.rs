//! Calls whose receiver type does not declare the method.
use vstd::prelude::*;
use crate::graph::{SourceLocation, VertexId};
use crate::types::Type;

verus! {

/// A method call that the registry could not resolve for one receiver type.
pub struct TypeError {
    pub receiver_type: Type,
    pub method_name: String,
    pub vertex_id: VertexId,
    pub location: Option<SourceLocation>,
}

impl TypeError {
    pub fn new(
        receiver_type: Type,
        method_name: String,
        vertex_id: VertexId,
        location: Option<SourceLocation>,
    ) -> (r: TypeError)
        ensures
            r.receiver_type == receiver_type,
            r.method_name == method_name,
            r.vertex_id == vertex_id,
            r.location == location,
    {
        TypeError { receiver_type, method_name, vertex_id, location }
    }
}

} // verus!
