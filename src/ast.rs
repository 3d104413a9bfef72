//! The syntax tree that the installer walks: the shapes the analysis models,
//! with everything else folded into `Unsupported`.
use vstd::prelude::*;
use crate::graph::SourceLocation;
use crate::types::{TypeModel, instance_of};

verus! {

pub enum Node {
    /// `class C ... end`; the name is the leftmost constant of the path, if any.
    ClassDef { name: Option<String>, body: Vec<Node> },
    /// `def m ... end`.
    MethodDef { name: String, body: Vec<Node> },
    /// `@a = e`.
    IvarWrite { name: String, value: Box<Node> },
    /// `@a`.
    IvarRead { name: String },
    /// `self`.
    SelfRef,
    /// `x = e`.
    LocalWrite { name: String, value: Box<Node> },
    /// `x`.
    LocalRead { name: String },
    StringLit,
    IntegerLit,
    ArrayLit,
    HashLit,
    NilLit,
    TrueLit,
    FalseLit,
    /// `:name`.
    SymbolLit { name: String },
    /// `r.m(args)`, or `m(args)` without a receiver.
    Call { receiver: Option<Box<Node>>, name: String, arguments: Vec<Node>, location: Option<SourceLocation> },
    /// A shape the analysis does not model.
    Unsupported,
}

/// The fixed type of a literal node.
pub open spec fn literal_type(n: Node) -> Option<TypeModel> {
    match n {
        Node::StringLit => Some(instance_of("String"@)),
        Node::IntegerLit => Some(instance_of("Integer"@)),
        Node::ArrayLit => Some(instance_of("Array"@)),
        Node::HashLit => Some(instance_of("Hash"@)),
        Node::NilLit => Some(TypeModel::Nil),
        Node::TrueLit => Some(instance_of("TrueClass"@)),
        Node::FalseLit => Some(instance_of("FalseClass"@)),
        Node::SymbolLit { .. } => Some(instance_of("Symbol"@)),
        _ => None,
    }
}

/// The names of the symbol arguments, in order.
pub open spec fn symbol_names(args: Seq<Node>) -> Seq<Seq<char>>
    decreases args.len(),
{
    if args.len() == 0 {
        Seq::empty()
    } else {
        let init = symbol_names(args.drop_last());
        match args.last() {
            Node::SymbolLit { name } => init.push(name@),
            _ => init,
        }
    }
}

} // verus!
