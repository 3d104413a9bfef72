use methodray::box_manager::BoxManager;
use methodray::graph::{BoxId, ChangeSet, MethodCallBox, VertexId};
use methodray::types::Type;

#[test]
fn test_add_run_prevents_duplicates() {
    let mut manager = BoxManager::new();

    let id = BoxId(0);
    manager.add_run(id);
    manager.add_run(id); // Should be ignored

    assert_eq!(manager.run_queue.len(), 1);
}

#[test]
fn test_pop_run() {
    let mut manager = BoxManager::new();

    let id1 = BoxId(0);
    let id2 = BoxId(1);
    manager.add_run(id1);
    manager.add_run(id2);

    assert_eq!(manager.pop_run(), Some(id1));
    assert_eq!(manager.pop_run(), Some(id2));
    assert_eq!(manager.pop_run(), None);
}

fn sample_box(id: usize) -> MethodCallBox {
    MethodCallBox::new(BoxId(id), VertexId(0), "upcase".to_string(), VertexId(1), None)
}

#[test]
fn queue_keeps_first_arrival_order() {
    let mut manager = BoxManager::new();
    manager.add_run(BoxId(2));
    manager.add_run(BoxId(1));
    manager.add_run(BoxId(2));
    assert_eq!(manager.pop_run(), Some(BoxId(2)));
    manager.add_run(BoxId(2));
    assert_eq!(manager.pop_run(), Some(BoxId(1)));
    assert_eq!(manager.pop_run(), Some(BoxId(2)));
    assert!(manager.queue_is_empty());
}

#[test]
fn register_remove_insert_boxes() {
    let mut manager = BoxManager::new();
    assert!(manager.is_empty());
    let a = manager.register(sample_box(0));
    let b = manager.register(sample_box(1));
    assert_eq!(a, BoxId(0));
    assert_eq!(b, BoxId(1));
    assert_eq!(manager.len(), 2);
    let taken = manager.remove(a).unwrap();
    assert!(!manager.contains(a));
    assert_eq!(manager.len(), 1);
    assert!(manager.remove(a).is_none());
    manager.insert(a, taken);
    assert!(manager.contains(a));
    assert_eq!(manager.get(a).unwrap().method_name, "upcase");
    manager.insert(BoxId(5), sample_box(5));
    assert!(manager.contains(BoxId(5)));
    assert!(!manager.contains(BoxId(4)));
    assert_eq!(manager.len(), 3);
}

#[test]
fn execute_box_detaches_and_returns_changes() {
    let mut manager = BoxManager::new();
    let id = manager.register(sample_box(0));
    let out = manager.execute_box(id, |mut b: MethodCallBox, mut c: ChangeSet| {
        b.seen_types.push(Type::string());
        c.add_edge(VertexId(3), VertexId(4));
        (b, c)
    });
    let changes = out.unwrap();
    assert_eq!(changes.edges, vec![(VertexId(3), VertexId(4))]);
    assert_eq!(manager.get(id).unwrap().seen_types.len(), 1);
    assert!(manager.execute_box(BoxId(9), |b: MethodCallBox, c: ChangeSet| (b, c)).is_none());
}
