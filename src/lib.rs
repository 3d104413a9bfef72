//! Flow-based type inference for a dynamically typed object-oriented language.
//!
//! Program expressions become vertices of a dataflow graph whose type sets grow
//! monotonically; method calls become reactive boxes that fire when their
//! receiver gains types, and report calls that the method registry cannot resolve.
use vstd::prelude::*;

pub mod types;
pub mod display;
pub mod graph;
pub mod vertex_manager;
pub mod method_registry;
pub mod type_error;
pub mod box_manager;
pub mod name_map;
pub mod scope;
pub mod local_env;
pub mod global_env;
pub mod ast;
pub mod attr_methods;
pub mod install;
pub mod laws;
pub mod parse_report;
pub mod watch;

verus! {

broadcast use vstd::string::group_string_axioms;

/// The object that the language binding hands out: it remembers the path it
/// was created for.
pub struct Analyzer {
    pub path: String,
}

impl Analyzer {
    pub fn new(path: String) -> (r: Analyzer)
        ensures
            r.path == path,
    {
        Analyzer { path }
    }

    pub fn version(&self) -> (r: String)
        ensures
            r@ == "0.1.0"@,
    {
        "0.1.0".to_string()
    }
}

} // verus!
