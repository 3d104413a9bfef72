use methodray::types::{Location, LocalContext, RubyType, Type};

#[test]
fn test_type_show() {
    assert_eq!(Type::string().show(), "String");
    assert_eq!(Type::integer().show(), "Integer");
    assert_eq!(Type::Nil.show(), "nil");
    assert_eq!(Type::Bot.show(), "untyped");
}

#[test]
fn test_type_union() {
    let union = Type::Union(vec![Type::string(), Type::integer()]);
    assert_eq!(union.show(), "String | Integer");
}

#[test]
fn test_ruby_type_to_type() {
    assert_eq!(RubyType::String.to_type(), Type::string());
    assert_eq!(RubyType::Integer.to_type(), Type::integer());
    assert_eq!(RubyType::NilClass.to_type(), Type::Nil);
}

#[test]
fn test_ruby_type_to_class_name() {
    assert_eq!(RubyType::String.to_class_name(), "String");
    assert_eq!(RubyType::Integer.to_class_name(), "Integer");
    assert_eq!(RubyType::Array.to_class_name(), "Array");
    assert_eq!(RubyType::Custom("User".to_string()).to_class_name(), "User");
}

#[test]
fn test_local_context() {
    let mut context = LocalContext::new();
    let location = Location {
        file: "test.rb".to_string(),
        line: 1,
        column: 0,
    };

    context.set_variable("x".to_string(), RubyType::String, location.clone());

    let var = context.get_variable("x").unwrap();
    assert_eq!(var.name, "x");
    assert_eq!(var.ruby_type, RubyType::String);
}

#[test]
fn singleton_and_array_and_hash_display() {
    let s = Type::Singleton { class_name: "User".to_string() };
    assert_eq!(s.show(), "singleton(User)");
    assert_eq!(Type::array().show(), "Array");
    assert_eq!(Type::hash().show(), "Hash");
}

#[test]
fn nested_union_display() {
    let inner = Type::Union(vec![Type::Nil, Type::Bot]);
    let outer = Type::Union(vec![Type::string(), inner]);
    assert_eq!(outer.show(), "String | nil | untyped");
    assert_eq!(Type::Union(vec![]).show(), "");
}

#[test]
fn structural_type_equality() {
    assert_eq!(Type::Instance { class_name: "A".to_string() }, Type::Instance { class_name: "A".to_string() });
    assert_ne!(Type::Instance { class_name: "A".to_string() }, Type::Singleton { class_name: "A".to_string() });
    assert_ne!(Type::Union(vec![Type::Nil]), Type::Union(vec![Type::Nil, Type::Nil]));
    assert_eq!(Type::Union(vec![Type::integer()]).clone(), Type::Union(vec![Type::integer()]));
}

#[test]
fn ruby_type_to_type_other_kinds() {
    assert_eq!(RubyType::Unknown.to_type(), Type::Bot);
    assert_eq!(RubyType::Float.to_type(), Type::Instance { class_name: "Float".to_string() });
    assert_eq!(RubyType::Custom("Post".to_string()).to_type(), Type::Instance { class_name: "Post".to_string() });
    assert_eq!(RubyType::NilClass.to_class_name(), "NilClass");
    assert_eq!(RubyType::Unknown.to_class_name(), "Unknown");
}

#[test]
fn local_context_overwrite_and_clear() {
    let mut context = LocalContext::new();
    let loc = Location { file: "a.rb".to_string(), line: 2, column: 4 };
    context.set_variable("x".to_string(), RubyType::String, loc.clone());
    context.set_variable("x".to_string(), RubyType::Integer, loc.clone());
    assert_eq!(context.get_variable("x").unwrap().ruby_type, RubyType::Integer);
    assert!(context.get_variable("y").is_none());
    context.clear();
    assert!(context.get_variable("x").is_none());
}
