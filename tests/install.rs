use methodray::ast::Node;
use methodray::global_env::GlobalEnv;
use methodray::install::AstInstaller;
use methodray::local_env::LocalEnv;
use methodray::types::Type;

fn string_lit() -> Node {
    Node::StringLit
}

fn int_lit() -> Node {
    Node::IntegerLit
}

fn write(name: &str, value: Node) -> Node {
    Node::LocalWrite { name: name.to_string(), value: Box::new(value) }
}

fn read(name: &str) -> Node {
    Node::LocalRead { name: name.to_string() }
}

fn call(receiver: Node, name: &str) -> Node {
    Node::Call { receiver: Some(Box::new(receiver)), name: name.to_string(), arguments: vec![], location: None }
}

fn class(name: &str, body: Vec<Node>) -> Node {
    Node::ClassDef { name: Some(name.to_string()), body }
}

fn def(name: &str, body: Vec<Node>) -> Node {
    Node::MethodDef { name: name.to_string(), body }
}

fn ivar_write(name: &str, value: Node) -> Node {
    Node::IvarWrite { name: name.to_string(), value: Box::new(value) }
}

fn ivar_read(name: &str) -> Node {
    Node::IvarRead { name: name.to_string() }
}

fn install_all(genv: &mut GlobalEnv, lenv: &mut LocalEnv, statements: &[Node]) {
    let mut installer = AstInstaller::new();
    for stmt in statements {
        installer.install_node(genv, lenv, stmt);
    }
    installer.finish(genv);
}

// x = "hello"
#[test]
fn test_install_literal() {
    let mut genv = GlobalEnv::new();
    let mut lenv = LocalEnv::new();
    install_all(&mut genv, &mut lenv, &[write("x", string_lit())]);

    let x_vtx = lenv.get_var("x").unwrap();
    assert_eq!(genv.get_vertex(x_vtx).unwrap().show(), "String");
}

// x = "hello"; y = 42
#[test]
fn test_install_multiple_vars() {
    let mut genv = GlobalEnv::new();
    let mut lenv = LocalEnv::new();
    install_all(&mut genv, &mut lenv, &[write("x", string_lit()), write("y", int_lit())]);

    let x_vtx = lenv.get_var("x").unwrap();
    let y_vtx = lenv.get_var("y").unwrap();

    assert_eq!(genv.get_vertex(x_vtx).unwrap().show(), "String");
    assert_eq!(genv.get_vertex(y_vtx).unwrap().show(), "Integer");
}

// x = "hello"; y = x.upcase
#[test]
fn test_install_method_call() {
    let mut genv = GlobalEnv::new();
    genv.register_builtin_method(Type::string(), "upcase", Type::string());
    let mut lenv = LocalEnv::new();
    install_all(&mut genv, &mut lenv, &[write("x", string_lit()), write("y", call(read("x"), "upcase"))]);

    let x_vtx = lenv.get_var("x").unwrap();
    let y_vtx = lenv.get_var("y").unwrap();

    assert_eq!(genv.get_vertex(x_vtx).unwrap().show(), "String");
    assert_eq!(genv.get_vertex(y_vtx).unwrap().show(), "String");
}

// x = "hello"; y = x.upcase.downcase
#[test]
fn test_install_method_chain() {
    let mut genv = GlobalEnv::new();
    genv.register_builtin_method(Type::string(), "upcase", Type::string());
    genv.register_builtin_method(Type::string(), "downcase", Type::string());
    let mut lenv = LocalEnv::new();
    install_all(
        &mut genv,
        &mut lenv,
        &[write("x", string_lit()), write("y", call(call(read("x"), "upcase"), "downcase"))],
    );

    let y_vtx = lenv.get_var("y").unwrap();
    assert_eq!(genv.get_vertex(y_vtx).unwrap().show(), "String");
}

// class User; def test; x = 123; y = x.upcase; end; end
#[test]
fn install_test_class_method_error_detection() {
    let mut genv = GlobalEnv::new();
    genv.register_builtin_method(Type::string(), "upcase", Type::string());
    let mut lenv = LocalEnv::new();
    let program = class("User", vec![def("test", vec![write("x", int_lit()), write("y", call(read("x"), "upcase"))])]);
    install_all(&mut genv, &mut lenv, &[program]);

    assert_eq!(genv.type_errors.len(), 1);
    assert_eq!(genv.type_errors[0].method_name, "upcase");
}

// class User; def initialize; @name = "John"; end; def greet; @name.upcase; end; end
#[test]
fn install_test_class_with_instance_variable() {
    let mut genv = GlobalEnv::new();
    genv.register_builtin_method(Type::string(), "upcase", Type::string());
    let mut lenv = LocalEnv::new();
    let program = class(
        "User",
        vec![
            def("initialize", vec![ivar_write("@name", string_lit())]),
            def("greet", vec![call(ivar_read("@name"), "upcase")]),
        ],
    );
    install_all(&mut genv, &mut lenv, &[program]);

    assert_eq!(genv.type_errors.len(), 0);
}

// class User; def initialize; @name = 123; end; def greet; @name.upcase; end; end
#[test]
fn install_test_instance_variable_type_error() {
    let mut genv = GlobalEnv::new();
    genv.register_builtin_method(Type::string(), "upcase", Type::string());
    let mut lenv = LocalEnv::new();
    let program = class(
        "User",
        vec![
            def("initialize", vec![ivar_write("@name", int_lit())]),
            def("greet", vec![call(ivar_read("@name"), "upcase")]),
        ],
    );
    install_all(&mut genv, &mut lenv, &[program]);

    assert_eq!(genv.type_errors.len(), 1);
    assert_eq!(genv.type_errors[0].method_name, "upcase");
}

// class User; def name; x = 123; x.upcase; end; end
// class Post; def title; y = "hello"; y.upcase; end; end
#[test]
fn install_test_multiple_classes() {
    let mut genv = GlobalEnv::new();
    genv.register_builtin_method(Type::string(), "upcase", Type::string());
    let mut lenv = LocalEnv::new();
    let user = class("User", vec![def("name", vec![write("x", int_lit()), call(read("x"), "upcase")])]);
    let post = class("Post", vec![def("title", vec![write("y", string_lit()), call(read("y"), "upcase")])]);
    install_all(&mut genv, &mut lenv, &[user, post]);

    assert_eq!(genv.type_errors.len(), 1);
    assert_eq!(genv.type_errors[0].method_name, "upcase");
}
