use methodray::ast::Node;
use methodray::global_env::GlobalEnv;
use methodray::graph::SourceLocation;
use methodray::install::AstInstaller;
use methodray::local_env::LocalEnv;
use methodray::types::Type;

fn write(name: &str, value: Node) -> Node {
    Node::LocalWrite { name: name.to_string(), value: Box::new(value) }
}

fn read(name: &str) -> Node {
    Node::LocalRead { name: name.to_string() }
}

fn call(receiver: Node, name: &str) -> Node {
    Node::Call { receiver: Some(Box::new(receiver)), name: name.to_string(), arguments: vec![], location: None }
}

fn bare_call(name: &str, arguments: Vec<Node>) -> Node {
    Node::Call { receiver: None, name: name.to_string(), arguments, location: None }
}

fn sym(name: &str) -> Node {
    Node::SymbolLit { name: name.to_string() }
}

fn class(name: &str, body: Vec<Node>) -> Node {
    Node::ClassDef { name: Some(name.to_string()), body }
}

fn def(name: &str, body: Vec<Node>) -> Node {
    Node::MethodDef { name: name.to_string(), body }
}

fn ivar_write(name: &str, value: Node) -> Node {
    Node::IvarWrite { name: name.to_string(), value: Box::new(value) }
}

fn ivar_read(name: &str) -> Node {
    Node::IvarRead { name: name.to_string() }
}

/// Runs the analysis with `String#upcase` and `String#downcase` registered.
fn analyze(statements: Vec<Node>) -> (GlobalEnv, LocalEnv) {
    let mut genv = GlobalEnv::new();
    genv.register_builtin_method(Type::string(), "upcase", Type::string());
    genv.register_builtin_method(Type::string(), "downcase", Type::string());
    let mut lenv = LocalEnv::new();
    let mut installer = AstInstaller::new();
    for stmt in &statements {
        installer.install_node(&mut genv, &mut lenv, stmt);
    }
    installer.finish(&mut genv);
    (genv, lenv)
}

fn user() -> Type {
    Type::Instance { class_name: "User".to_string() }
}

#[test]
fn integration_test_test_class_method_error_detection() {
    let (genv, _lenv) = analyze(vec![class(
        "User",
        vec![def("test", vec![write("x", Node::IntegerLit), write("y", call(read("x"), "upcase"))])],
    )]);
    assert_eq!(genv.type_errors.len(), 1);
    assert_eq!(genv.type_errors[0].method_name, "upcase");
}

#[test]
fn integration_test_test_class_with_instance_variable() {
    let (genv, _lenv) = analyze(vec![class(
        "User",
        vec![
            def("initialize", vec![ivar_write("@name", Node::StringLit)]),
            def("greet", vec![call(ivar_read("@name"), "upcase")]),
        ],
    )]);
    assert_eq!(genv.type_errors.len(), 0);
}

#[test]
fn integration_test_test_instance_variable_type_error() {
    let (genv, _lenv) = analyze(vec![class(
        "User",
        vec![
            def("initialize", vec![ivar_write("@name", Node::IntegerLit)]),
            def("greet", vec![call(ivar_read("@name"), "upcase")]),
        ],
    )]);
    assert_eq!(genv.type_errors.len(), 1);
    assert_eq!(genv.type_errors[0].method_name, "upcase");
}

#[test]
fn integration_test_test_multiple_classes() {
    let (genv, _lenv) = analyze(vec![
        class("User", vec![def("name", vec![write("x", Node::IntegerLit), call(read("x"), "upcase")])]),
        class("Post", vec![def("title", vec![write("y", Node::StringLit), call(read("y"), "upcase")])]),
    ]);
    assert_eq!(genv.type_errors.len(), 1);
    assert_eq!(genv.type_errors[0].method_name, "upcase");
}

#[test]
fn test_method_chain() {
    let (genv, lenv) = analyze(vec![
        write("x", Node::StringLit),
        write("y", call(call(read("x"), "upcase"), "downcase")),
    ]);
    let y_vtx = lenv.get_var("y").unwrap();
    assert_eq!(genv.get_vertex(y_vtx).unwrap().show(), "String");
}

// x = "hello"; y = x.upcase.downcase
#[test]
fn chain_of_string_methods_is_clean() {
    let (genv, lenv) = analyze(vec![
        write("x", Node::StringLit),
        write("y", call(call(read("x"), "upcase"), "downcase")),
    ]);
    assert!(genv.type_errors.is_empty());
    assert_eq!(genv.get_vertex(lenv.get_var("y").unwrap()).unwrap().show(), "String");
    assert!(genv.box_manager.run_queue.is_empty());
}

#[test]
fn test_attr_reader_registers_method() {
    let (genv, _lenv) = analyze(vec![class("User", vec![bare_call("attr_reader", vec![sym("name")])])]);
    let result = genv.resolve_method(&user(), "name");
    assert!(result.is_some(), "attr_reader should register a 'name' method");
}

#[test]
fn test_attr_reader_with_ivar_type() {
    let (genv, _lenv) = analyze(vec![class(
        "User",
        vec![def("initialize", vec![ivar_write("@name", Node::StringLit)]), bare_call("attr_reader", vec![sym("name")])],
    )]);
    let result = genv.resolve_method(&user(), "name");
    assert!(result.is_some(), "attr_reader should register 'name' method");
}

#[test]
fn test_attr_reader_error_detection() {
    let (genv, _lenv) = analyze(vec![class(
        "User",
        vec![
            def("initialize", vec![ivar_write("@age", Node::IntegerLit)]),
            bare_call("attr_reader", vec![sym("age")]),
            def("test", vec![write("x", call(ivar_read("@age"), "upcase"))]),
        ],
    )]);
    assert_eq!(genv.type_errors.len(), 1);
    assert_eq!(genv.type_errors[0].method_name, "upcase");
}

#[test]
fn test_attr_accessor() {
    let (genv, _lenv) = analyze(vec![class("User", vec![bare_call("attr_accessor", vec![sym("email")])])]);
    let getter = genv.resolve_method(&user(), "email");
    assert!(getter.is_some(), "attr_accessor should register getter");
    let setter = genv.resolve_method(&user(), "email=");
    assert!(setter.is_some(), "attr_accessor should register setter");
}

// x = "hello"; y = x.upcase
#[test]
fn upcase_on_string_is_clean() {
    let (genv, lenv) = analyze(vec![write("x", Node::StringLit), write("y", call(read("x"), "upcase"))]);
    assert!(genv.type_errors.is_empty());
    assert_eq!(genv.get_vertex(lenv.get_var("y").unwrap()).unwrap().show(), "String");
}

// class A; def m; @x = "s"; @x.upcase; end; end, with only String#upcase
#[test]
fn ivar_in_same_method_has_no_error() {
    let mut genv = GlobalEnv::new();
    genv.register_builtin_method(Type::string(), "upcase", Type::string());
    let mut lenv = LocalEnv::new();
    let mut installer = AstInstaller::new();
    let program = class("A", vec![def("m", vec![ivar_write("@x", Node::StringLit), call(ivar_read("@x"), "upcase")])]);
    installer.install_node(&mut genv, &mut lenv, &program);
    installer.finish(&mut genv);
    assert!(genv.type_errors.is_empty());
}

#[test]
fn attr_reader_return_type_comes_from_ivar() {
    let (genv, _lenv) = analyze(vec![class(
        "User",
        vec![ivar_write("@name", Node::StringLit), bare_call("attr_reader", vec![sym("name"), Node::IntegerLit])],
    )]);
    assert_eq!(genv.resolve_method(&user(), "name").unwrap().return_type, Type::string());
    let (genv2, _lenv2) = analyze(vec![class("User", vec![bare_call("attr_writer", vec![sym("name")])])]);
    assert_eq!(genv2.resolve_method(&user(), "name=").unwrap().return_type, Type::Bot);
    assert!(genv2.resolve_method(&user(), "name").is_none());
}

#[test]
fn attr_outside_class_is_ignored() {
    let (genv, _lenv) = analyze(vec![bare_call("attr_accessor", vec![sym("email")])]);
    let object = Type::Instance { class_name: "Object".to_string() };
    assert!(genv.resolve_method(&object, "email").is_none());
    assert_eq!(genv.method_registry.methods.len(), 2);
}

#[test]
fn receiverless_call_and_unsupported_install_nothing() {
    let mut genv = GlobalEnv::new();
    let mut lenv = LocalEnv::new();
    let mut installer = AstInstaller::new();
    assert!(installer.install_node(&mut genv, &mut lenv, &bare_call("puts", vec![Node::StringLit])).is_none());
    assert!(installer.install_node(&mut genv, &mut lenv, &Node::Unsupported).is_none());
    assert!(installer.install_node(&mut genv, &mut lenv, &read("missing")).is_none());
    assert_eq!(genv.vertex_manager.nodes.len(), 0);
}

#[test]
fn bot_receiver_gives_no_error_and_no_type() {
    let mut genv = GlobalEnv::new();
    genv.register_builtin_method(Type::string(), "upcase", Type::string());
    let r = genv.new_vertex();
    let bot = genv.new_source(Type::Bot);
    let ret = genv.new_vertex();
    genv.add_edge(bot, r);
    genv.new_call_box(r, "upcase".to_string(), ret, None);
    genv.run_all();
    assert!(genv.type_errors.is_empty());
    assert_eq!(genv.get_vertex(ret).unwrap().show(), "untyped");
}

#[test]
fn union_receiver_is_checked_member_by_member() {
    let mut genv = GlobalEnv::new();
    genv.register_builtin_method(Type::string(), "upcase", Type::string());
    let r = genv.new_vertex();
    let s = genv.new_source(Type::string());
    let i = genv.new_source(Type::integer());
    let n = genv.new_source(Type::Nil);
    genv.add_edge(s, r);
    genv.add_edge(i, r);
    genv.add_edge(n, r);
    let ret = genv.new_vertex();
    let loc = SourceLocation::from_offsets("t.rb".to_string(), b"x.upcase", 0, 8);
    genv.new_call_box(r, "upcase".to_string(), ret, Some(loc.clone()));
    genv.run_all();
    assert_eq!(genv.type_errors.len(), 2);
    assert_eq!(genv.type_errors[0].receiver_type, Type::integer());
    assert_eq!(genv.type_errors[1].receiver_type, Type::Nil);
    assert_eq!(genv.type_errors[0].location.as_ref().unwrap().end_column, 8);
    assert_eq!(genv.get_vertex(ret).unwrap().show(), "String");
}

#[test]
fn late_receiver_types_refire_the_box() {
    let mut genv = GlobalEnv::new();
    genv.register_builtin_method(Type::string(), "upcase", Type::string());
    let r = genv.new_vertex();
    let ret = genv.new_vertex();
    genv.new_call_box(r, "upcase".to_string(), ret, None);
    genv.run_all();
    assert!(genv.type_errors.is_empty());
    let i = genv.new_source(Type::integer());
    genv.add_edge(i, r);
    assert_eq!(genv.box_manager.run_queue.len(), 1);
    genv.run_all();
    assert_eq!(genv.type_errors.len(), 1);
    genv.run_all();
    assert_eq!(genv.type_errors.len(), 1);
}

#[test]
fn finishing_twice_changes_nothing() {
    let (mut genv, lenv) = analyze(vec![write("x", Node::IntegerLit), write("y", call(read("x"), "upcase"))]);
    let errors = genv.type_errors.len();
    let shown = genv.vertex_manager.show_all();
    AstInstaller::new().finish(&mut genv);
    assert_eq!(genv.type_errors.len(), errors);
    assert_eq!(genv.vertex_manager.show_all(), shown);
    assert!(genv.vertex_manager.show_all().starts_with("Vertex"));
    assert_eq!(errors, 1);
    assert_eq!(genv.get_vertex(lenv.get_var("y").unwrap()).unwrap().show(), "untyped");
}

#[test]
fn rereading_a_local_gives_the_same_vertex() {
    let mut genv = GlobalEnv::new();
    let mut lenv = LocalEnv::new();
    let mut installer = AstInstaller::new();
    installer.install_node(&mut genv, &mut lenv, &write("x", Node::StringLit));
    let a = installer.install_node(&mut genv, &mut lenv, &read("x"));
    let b = installer.install_node(&mut genv, &mut lenv, &read("x"));
    assert!(a.is_some());
    assert_eq!(a, b);
    installer.install_node(&mut genv, &mut lenv, &write("x", Node::IntegerLit));
    let c = installer.install_node(&mut genv, &mut lenv, &read("x"));
    assert_ne!(a, c);
}

#[test]
fn self_and_literals_get_their_types() {
    let (genv, lenv) = analyze(vec![
        write("a", Node::SelfRef),
        write("b", Node::NilLit),
        write("c", Node::TrueLit),
        write("d", Node::FalseLit),
        write("e", sym("k")),
        write("f", Node::ArrayLit),
        write("g", Node::HashLit),
        class("User", vec![write("h", Node::SelfRef)]),
        Node::ClassDef { name: None, body: vec![write("i", Node::SelfRef)] },
    ]);
    let show = |n: &str| genv.get_vertex(lenv.get_var(n).unwrap()).unwrap().show();
    assert_eq!(show("a"), "Object");
    assert_eq!(show("b"), "nil");
    assert_eq!(show("c"), "TrueClass");
    assert_eq!(show("d"), "FalseClass");
    assert_eq!(show("e"), "Symbol");
    assert_eq!(show("f"), "Array");
    assert_eq!(show("g"), "Hash");
    assert_eq!(show("h"), "User");
    assert_eq!(show("i"), "UnknownClass");
}

#[test]
fn ivar_outside_class_is_not_bound() {
    let (genv, _lenv) = analyze(vec![ivar_write("@a", Node::StringLit), write("x", ivar_read("@a"))]);
    assert!(genv.type_errors.is_empty());
    assert!(genv.scope_manager.scopes.is_empty());
}
