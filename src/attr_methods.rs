//! `attr_reader`, `attr_writer` and `attr_accessor`: synthesised accessor
//! methods registered on the enclosing class.
use vstd::prelude::*;
use crate::ast::{Node, symbol_names};
use crate::global_env::GlobalEnv;
use crate::name_map::lookup;
use crate::types::{Type, TypeModel, copy_type, instance_of};

verus! {

broadcast use vstd::std_specs::vec::group_vec_axioms, vstd::string::group_string_axioms;

pub open spec fn names_of(v: Seq<String>) -> Seq<Seq<char>> {
    v.map_values(|s: String| s@)
}

/// What a reader of attribute `name` returns: the first type currently held
/// by the node bound to `@name` in the innermost class, else `Bot`.
pub open spec fn reader_return(genv: GlobalEnv, name: Seq<char>) -> TypeModel {
    match genv.scope_manager.ivars() {
        Some(m) => match lookup(m, "@"@ + name) {
            Some(v) => if genv.vertex_manager.node_types(v).len() > 0 {
                genv.vertex_manager.node_types(v)[0]
            } else {
                TypeModel::Bot
            },
            None => TypeModel::Bot,
        },
        None => TypeModel::Bot,
    }
}

/// The registry after readers for `names` were registered on class `c`.
pub open spec fn with_readers(
    m: Map<(TypeModel, Seq<char>), TypeModel>,
    c: Seq<char>,
    names: Seq<Seq<char>>,
    genv: GlobalEnv,
) -> Map<(TypeModel, Seq<char>), TypeModel>
    decreases names.len(),
{
    if names.len() == 0 {
        m
    } else {
        with_readers(m, c, names.drop_last(), genv).insert(
            (instance_of(c), names.last()),
            reader_return(genv, names.last()),
        )
    }
}

/// The registry after writers `name=` for `names` were registered on class `c`.
pub open spec fn with_writers(
    m: Map<(TypeModel, Seq<char>), TypeModel>,
    c: Seq<char>,
    names: Seq<Seq<char>>,
) -> Map<(TypeModel, Seq<char>), TypeModel>
    decreases names.len(),
{
    if names.len() == 0 {
        m
    } else {
        with_writers(m, c, names.drop_last()).insert((instance_of(c), names.last() + "="@), TypeModel::Bot)
    }
}

/// What an attribute declaration keeps of the environment besides the registry.
pub open spec fn registers_only(genv: GlobalEnv, old: GlobalEnv) -> bool {
    &&& genv.wf()
    &&& old.unfired() ==> genv.unfired()
    &&& genv.vertex_manager.monotone_from(&old.vertex_manager)
    &&& genv.vertex_manager.nodes == old.vertex_manager.nodes
    &&& genv.vertex_manager.edges == old.vertex_manager.edges
    &&& genv.box_manager == old.box_manager
    &&& genv.scope_manager == old.scope_manager
    &&& genv.type_errors == old.type_errors
}

/// Registers a reader for each name on the innermost class; outside a class
/// nothing happens.
pub fn process_attr_reader(genv: &mut GlobalEnv, names: &Vec<String>)
    requires
        old(genv).wf(),
    ensures
        registers_only(*final(genv), *old(genv)),
        match old(genv).scope_manager.class_name() {
            Some(c) => final(genv).method_registry@ == with_readers(
                old(genv).method_registry@,
                c,
                names_of(names@),
                *old(genv),
            ),
            None => *final(genv) == *old(genv),
        },
{
    proof {
        genv.vertex_manager.lemma_refl();
        genv.vertex_manager.lemma_frame_extends(&genv.vertex_manager);
        genv.vertex_manager.lemma_extends_monotone(&genv.vertex_manager);
    }
    let class_name = match genv.scope_manager.current_class_name() {
        Some(c) => c,
        None => {
            return ;
        },
    };
    let ghost start = *genv;
    proof {
        assert(names_of(names@.subrange(0, 0)) =~= Seq::<Seq<char>>::empty());
    }
    let mut i: usize = 0;
    while i < names.len()
        invariant
            0 <= i <= names@.len(),
            start.scope_manager.class_name() == Some(class_name@),
            registers_only(*genv, start),
            genv.method_registry@ == with_readers(
                start.method_registry@,
                class_name@,
                names_of(names@.subrange(0, i as int)),
                start,
            ),
        decreases names.len() - i,
    {
        let mut ivar = "@".to_string();
        ivar.append(names[i].as_str());
        let ret = match genv.scope_manager.lookup_instance_var(ivar.as_str()) {
            Some(v) => {
                let ts = genv.vertex_manager.get_types(v);
                if ts.len() > 0 {
                    copy_type(&ts[0])
                } else {
                    Type::Bot
                }
            },
            None => Type::Bot,
        };
        proof {
            assert(ret@ == reader_return(start, names@[i as int]@)) by {
                reveal_strlit("@");
                assert(genv.vertex_manager.nodes == start.vertex_manager.nodes);
            }
            assert(names_of(names@.subrange(0, i + 1)).drop_last() =~= names_of(names@.subrange(0, i as int)));
        }
        let ghost before = *genv;
        genv.register_builtin_method(Type::Instance { class_name: class_name.clone() }, names[i].as_str(), ret);
        proof {
            genv.vertex_manager.lemma_monotone_chain(&before.vertex_manager, &start.vertex_manager);
        }
        i = i + 1;
    }
    proof {
        assert(names@.subrange(0, i as int) =~= names@);
    }
}

/// Registers a writer `name=` returning `Bot` for each name on the innermost
/// class; outside a class nothing happens.
pub fn process_attr_writer(genv: &mut GlobalEnv, names: &Vec<String>)
    requires
        old(genv).wf(),
    ensures
        registers_only(*final(genv), *old(genv)),
        match old(genv).scope_manager.class_name() {
            Some(c) => final(genv).method_registry@ == with_writers(old(genv).method_registry@, c, names_of(names@)),
            None => *final(genv) == *old(genv),
        },
{
    proof {
        genv.vertex_manager.lemma_refl();
        genv.vertex_manager.lemma_frame_extends(&genv.vertex_manager);
        genv.vertex_manager.lemma_extends_monotone(&genv.vertex_manager);
    }
    let class_name = match genv.scope_manager.current_class_name() {
        Some(c) => c,
        None => {
            return ;
        },
    };
    let ghost start = *genv;
    proof {
        assert(names_of(names@.subrange(0, 0)) =~= Seq::<Seq<char>>::empty());
    }
    let mut i: usize = 0;
    while i < names.len()
        invariant
            0 <= i <= names@.len(),
            start.scope_manager.class_name() == Some(class_name@),
            registers_only(*genv, start),
            genv.method_registry@ == with_writers(start.method_registry@, class_name@, names_of(names@.subrange(0, i as int))),
        decreases names.len() - i,
    {
        let mut method_name = names[i].clone();
        method_name.append("=");
        proof {
            assert(names_of(names@.subrange(0, i + 1)).drop_last() =~= names_of(names@.subrange(0, i as int)));
        }
        let ghost before = *genv;
        genv.register_builtin_method(Type::Instance { class_name: class_name.clone() }, method_name.as_str(), Type::Bot);
        proof {
            genv.vertex_manager.lemma_monotone_chain(&before.vertex_manager, &start.vertex_manager);
        }
        i = i + 1;
    }
    proof {
        assert(names@.subrange(0, i as int) =~= names@);
    }
}

/// A reader followed by a writer for each name.
pub fn process_attr_accessor(genv: &mut GlobalEnv, names: &Vec<String>)
    requires
        old(genv).wf(),
    ensures
        registers_only(*final(genv), *old(genv)),
        match old(genv).scope_manager.class_name() {
            Some(c) => final(genv).method_registry@ == with_writers(
                with_readers(old(genv).method_registry@, c, names_of(names@), *old(genv)),
                c,
                names_of(names@),
            ),
            None => *final(genv) == *old(genv),
        },
{
    let ghost start = *genv;
    process_attr_reader(genv, names);
    let ghost mid = *genv;
    process_attr_writer(genv, names);
    proof {
        genv.vertex_manager.lemma_monotone_chain(&mid.vertex_manager, &start.vertex_manager);
    }
}

/// The names of the symbol arguments, in order; other arguments are skipped.
pub fn extract_symbol_arguments(arguments: &Vec<Node>) -> (r: Vec<String>)
    ensures
        names_of(r@) == symbol_names(arguments@),
{
    let mut names: Vec<String> = Vec::new();
    let mut i: usize = 0;
    while i < arguments.len()
        invariant
            0 <= i <= arguments@.len(),
            names_of(names@) == symbol_names(arguments@.subrange(0, i as int)),
        decreases arguments.len() - i,
    {
        proof {
            assert(arguments@.subrange(0, i + 1).drop_last() =~= arguments@.subrange(0, i as int));
        }
        match &arguments[i] {
            Node::SymbolLit { name } => {
                names.push(name.clone());
                proof {
                    assert(names_of(names@) =~= symbol_names(arguments@.subrange(0, i as int)).push(name@));
                }
            },
            _ => {},
        }
        i = i + 1;
    }
    proof {
        assert(arguments@.subrange(0, i as int) =~= arguments@);
    }
    names
}

/// Which attribute declaration a receiver-less call is, if any.
pub enum AttrKind {
    Reader,
    Writer,
    Accessor,
}

pub open spec fn attr_kind_of(name: Seq<char>) -> Option<AttrKind> {
    if name == "attr_reader"@ {
        Some(AttrKind::Reader)
    } else if name == "attr_writer"@ {
        Some(AttrKind::Writer)
    } else if name == "attr_accessor"@ {
        Some(AttrKind::Accessor)
    } else {
        None
    }
}

fn attr_kind(name: &String) -> (r: Option<AttrKind>)
    ensures
        r == attr_kind_of(name@),
{
    if *name == "attr_reader".to_string() {
        Some(AttrKind::Reader)
    } else if *name == "attr_writer".to_string() {
        Some(AttrKind::Writer)
    } else if *name == "attr_accessor".to_string() {
        Some(AttrKind::Accessor)
    } else {
        None
    }
}

/// The effect of a receiver-less call on the driver: an attribute declaration
/// registers its accessors on the innermost class; anything else changes nothing.
pub open spec fn attr_effect(g0: GlobalEnv, call: Node, g1: GlobalEnv) -> bool {
    &&& registers_only(g1, g0)
    &&& match call {
        Node::Call { receiver: None, name, arguments, .. } => match (attr_kind_of(name@), g0.scope_manager.class_name()) {
            (Some(AttrKind::Reader), Some(c)) => g1.method_registry@ == with_readers(
                g0.method_registry@,
                c,
                symbol_names(arguments@),
                g0,
            ),
            (Some(AttrKind::Writer), Some(c)) => g1.method_registry@ == with_writers(
                g0.method_registry@,
                c,
                symbol_names(arguments@),
            ),
            (Some(AttrKind::Accessor), Some(c)) => g1.method_registry@ == with_writers(
                with_readers(g0.method_registry@, c, symbol_names(arguments@), g0),
                c,
                symbol_names(arguments@),
            ),
            _ => g1 == g0,
        },
        _ => g1 == g0,
    }
}

/// Processes a receiver-less `attr_reader`, `attr_writer` or `attr_accessor`
/// call; returns whether the call was one.
pub fn try_process_attr_method(genv: &mut GlobalEnv, call: &Node) -> (r: bool)
    requires
        old(genv).wf(),
    ensures
        registers_only(*final(genv), *old(genv)),
        attr_effect(*old(genv), *call, *final(genv)),
        r == match call {
            Node::Call { receiver: None, name, .. } => attr_kind_of(name@) is Some,
            _ => false,
        },
        !r ==> *final(genv) == *old(genv),
        match call {
            Node::Call { receiver: None, name, arguments, .. } => match (
                attr_kind_of(name@),
                old(genv).scope_manager.class_name(),
            ) {
                (Some(AttrKind::Reader), Some(c)) => final(genv).method_registry@ == with_readers(
                    old(genv).method_registry@,
                    c,
                    symbol_names(arguments@),
                    *old(genv),
                ),
                (Some(AttrKind::Writer), Some(c)) => final(genv).method_registry@ == with_writers(
                    old(genv).method_registry@,
                    c,
                    symbol_names(arguments@),
                ),
                (Some(AttrKind::Accessor), Some(c)) => final(genv).method_registry@ == with_writers(
                    with_readers(old(genv).method_registry@, c, symbol_names(arguments@), *old(genv)),
                    c,
                    symbol_names(arguments@),
                ),
                _ => *final(genv) == *old(genv),
            },
            _ => true,
        },
{
    proof {
        genv.vertex_manager.lemma_refl();
        genv.vertex_manager.lemma_frame_extends(&genv.vertex_manager);
        genv.vertex_manager.lemma_extends_monotone(&genv.vertex_manager);
    }
    match call {
        Node::Call { receiver: None, name, arguments, .. } => {
            match attr_kind(name) {
                Some(AttrKind::Reader) => {
                    let names = extract_symbol_arguments(arguments);
                    process_attr_reader(genv, &names);
                    true
                },
                Some(AttrKind::Writer) => {
                    let names = extract_symbol_arguments(arguments);
                    process_attr_writer(genv, &names);
                    true
                },
                Some(AttrKind::Accessor) => {
                    let names = extract_symbol_arguments(arguments);
                    process_attr_accessor(genv, &names);
                    true
                },
                None => false,
            }
        },
        _ => false,
    }
}

} // verus!
