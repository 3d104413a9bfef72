use methodray::method_registry::MethodRegistry;
use methodray::types::Type;

#[test]
fn test_register_and_resolve() {
    let mut registry = MethodRegistry::new();
    registry.register(Type::string(), "length", Type::integer());

    let info = registry.resolve(&Type::string(), "length").unwrap();
    assert!(
        matches!(info.return_type, Type::Instance { ref class_name, .. } if class_name == "Integer")
    );
}

#[test]
fn test_resolve_not_found() {
    let registry = MethodRegistry::new();
    assert!(registry.resolve(&Type::string(), "unknown").is_none());
}

#[test]
fn register_overwrites_and_twice_is_once() {
    let mut registry = MethodRegistry::new();
    registry.register(Type::string(), "size", Type::integer());
    registry.register(Type::string(), "size", Type::string());
    assert_eq!(registry.resolve(&Type::string(), "size").unwrap().return_type, Type::string());
    assert_eq!(registry.methods.len(), 1);
    registry.register(Type::string(), "size", Type::string());
    assert_eq!(registry.methods.len(), 1);
    assert_eq!(registry.resolve(&Type::string(), "size").unwrap().return_type, Type::string());
}

#[test]
fn bot_never_resolves() {
    let mut registry = MethodRegistry::new();
    registry.register(Type::Bot, "anything", Type::string());
    assert!(registry.resolve(&Type::Bot, "anything").is_none());
}

#[test]
fn resolve_is_exact_on_receiver_and_name() {
    let mut registry = MethodRegistry::new();
    registry.register(Type::string(), "upcase", Type::string());
    assert!(registry.resolve(&Type::integer(), "upcase").is_none());
    assert!(registry.resolve(&Type::string(), "upcas").is_none());
    let singleton = Type::Singleton { class_name: "String".to_string() };
    assert!(registry.resolve(&singleton, "upcase").is_none());
}
