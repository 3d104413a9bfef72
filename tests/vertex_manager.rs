use methodray::types::Type;
use methodray::vertex_manager::VertexManager;

#[test]
fn test_new_vertex() {
    let mut manager = VertexManager::new();

    let v1 = manager.new_vertex();
    let v2 = manager.new_vertex();

    assert_eq!(v1.0, 0);
    assert_eq!(v2.0, 1);
    assert!(manager.get_vertex(v1).is_some());
    assert!(manager.get_vertex(v2).is_some());
}

#[test]
fn test_new_source() {
    let mut manager = VertexManager::new();

    let s1 = manager.new_source(Type::string());
    let s2 = manager.new_source(Type::integer());

    assert_eq!(manager.get_source(s1).unwrap().ty.show(), "String");
    assert_eq!(manager.get_source(s2).unwrap().ty.show(), "Integer");
}

#[test]
fn test_edge_propagation() {
    let mut manager = VertexManager::new();

    let src = manager.new_source(Type::string());
    let vtx = manager.new_vertex();

    manager.add_edge(src, vtx);

    assert_eq!(manager.get_vertex(vtx).unwrap().show(), "String");
}

#[test]
fn test_chain_propagation() {
    let mut manager = VertexManager::new();

    let src = manager.new_source(Type::string());
    let v1 = manager.new_vertex();
    let v2 = manager.new_vertex();

    manager.add_edge(src, v1);
    manager.add_edge(v1, v2);

    assert_eq!(manager.get_vertex(v1).unwrap().show(), "String");
    assert_eq!(manager.get_vertex(v2).unwrap().show(), "String");
}

#[test]
fn test_union_propagation() {
    let mut manager = VertexManager::new();

    let src1 = manager.new_source(Type::string());
    let src2 = manager.new_source(Type::integer());
    let vtx = manager.new_vertex();

    manager.add_edge(src1, vtx);
    manager.add_edge(src2, vtx);

    assert_eq!(
        manager.get_vertex(vtx).unwrap().show(),
        "(Integer | String)"
    );
}

#[test]
fn empty_vertex_is_untyped() {
    let mut manager = VertexManager::new();
    let v = manager.new_vertex();
    assert_eq!(manager.get_vertex(v).unwrap().show(), "untyped");
    assert!(manager.get_source(v).is_none());
}

#[test]
fn edge_added_before_types_still_carries_them() {
    let mut manager = VertexManager::new();
    let a = manager.new_vertex();
    let b = manager.new_vertex();
    let c = manager.new_vertex();
    manager.add_edge(a, b);
    manager.add_edge(b, c);
    let s = manager.new_source(Type::integer());
    manager.add_edge(s, a);
    assert_eq!(manager.get_vertex(c).unwrap().show(), "Integer");
}

#[test]
fn cycle_terminates_and_shares_types() {
    let mut manager = VertexManager::new();
    let a = manager.new_vertex();
    let b = manager.new_vertex();
    manager.add_edge(a, b);
    manager.add_edge(b, a);
    let s1 = manager.new_source(Type::string());
    let s2 = manager.new_source(Type::Nil);
    manager.add_edge(s1, a);
    manager.add_edge(s2, b);
    assert_eq!(manager.get_vertex(a).unwrap().show(), "(String | nil)");
    assert_eq!(manager.get_vertex(b).unwrap().show(), "(String | nil)");
}

#[test]
fn repeated_type_is_held_once_with_each_origin() {
    let mut manager = VertexManager::new();
    let s1 = manager.new_source(Type::string());
    let s2 = manager.new_source(Type::string());
    let v = manager.new_vertex();
    manager.add_edge(s1, v);
    manager.add_edge(s2, v);
    manager.add_edge(s1, v);
    let vertex = manager.get_vertex(v).unwrap();
    assert_eq!(vertex.types.len(), 1);
    assert_eq!(vertex.types[0].origins, vec![s1, s2]);
    assert_eq!(vertex.show(), "String");
}

#[test]
fn edge_into_a_source_leaves_it_fixed() {
    let mut manager = VertexManager::new();
    let s1 = manager.new_source(Type::string());
    let s2 = manager.new_source(Type::integer());
    manager.add_edge(s1, s2);
    assert_eq!(manager.get_source(s2).unwrap().ty, Type::integer());
}

#[test]
fn edge_from_unallocated_id_is_ignored() {
    let mut manager = VertexManager::new();
    let v = manager.new_vertex();
    manager.add_edge(methodray::graph::VertexId(7), v);
    assert_eq!(manager.get_vertex(v).unwrap().show(), "untyped");
    assert!(manager.get_vertex(v).unwrap().next.is_empty());
}

#[test]
fn edge_into_a_vertex_is_recorded_in_next() {
    let mut manager = VertexManager::new();
    let a = manager.new_vertex();
    let b = manager.new_vertex();
    manager.add_edge(a, b);
    assert_eq!(manager.get_vertex(a).unwrap().next, vec![b]);
}

#[test]
fn show_all_lists_vertices_then_sources() {
    let mut manager = VertexManager::new();
    let s = manager.new_source(Type::string());
    let v = manager.new_vertex();
    let w = manager.new_vertex();
    manager.add_edge(s, v);
    assert_eq!(w.0, 2);
    assert_eq!(manager.show_all(), "Vertex 1: String\nVertex 2: untyped\nSource 0: String");
}

#[test]
fn three_member_union_is_sorted() {
    let mut manager = VertexManager::new();
    let v = manager.new_vertex();
    for t in [Type::string(), Type::Nil, Type::array()] {
        let s = manager.new_source(t);
        manager.add_edge(s, v);
    }
    assert_eq!(manager.get_vertex(v).unwrap().show(), "(Array | String | nil)");
}
