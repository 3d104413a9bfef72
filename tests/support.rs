use methodray::display::{lex_less, push_decimal, sort_strings};
use methodray::graph::{line_column, SourceLocation, VertexId};
use methodray::local_env::LocalEnv;
use methodray::name_map::NameMap;
use methodray::parse_report::{parse_report, ParseError};
use methodray::scope::ScopeManager;
use methodray::watch::{watch_start, watch_transition, CheckOutcome, WatchStep};
use methodray::Analyzer;

#[test]
fn analyzer_reports_its_version() {
    let a = Analyzer::new("lib/app.rb".to_string());
    assert_eq!(a.path, "lib/app.rb");
    assert_eq!(a.version(), "0.1.0");
}

#[test]
fn line_and_column_of_offsets() {
    let src = b"x = 1\ny = x.upcase\n";
    assert_eq!(line_column(src, 0), (1, 0));
    assert_eq!(line_column(src, 5), (1, 5));
    assert_eq!(line_column(src, 6), (2, 0));
    assert_eq!(line_column(src, 10), (2, 4));
    assert_eq!(line_column(src, 19), (3, 0));
    let loc = SourceLocation::from_offsets("t.rb".to_string(), src, 10, 18);
    assert_eq!((loc.start_line, loc.start_column, loc.end_line, loc.end_column), (2, 4, 2, 12));
    assert_eq!((loc.start_offset, loc.end_offset), (10, 18));
    assert_eq!(loc.file, "t.rb");
}

#[test]
fn parse_report_lists_every_error() {
    assert_eq!(parse_report("a.rb", &vec![]), Ok(()));
    let errors = vec![
        ParseError { offset: 3, message: "unexpected end".to_string() },
        ParseError { offset: 120, message: "missing end".to_string() },
    ];
    assert_eq!(
        parse_report("a.rb", &errors),
        Err("Failed to parse Ruby source in a.rb:\nParse error at offset 3: unexpected end\nParse error at offset 120: missing end"
            .to_string())
    );
}

#[test]
fn decimal_digits() {
    let mut s = "n=".to_string();
    push_decimal(&mut s, 0);
    assert_eq!(s, "n=0");
    let mut t = String::new();
    push_decimal(&mut t, 1907);
    assert_eq!(t, "1907");
    let mut u = String::new();
    push_decimal(&mut u, usize::MAX);
    assert_eq!(u, usize::MAX.to_string());
}

#[test]
fn lexicographic_order_and_sort() {
    assert!(lex_less("Integer", "String"));
    assert!(!lex_less("String", "Integer"));
    assert!(lex_less("Str", "String"));
    assert!(!lex_less("nil", "nil"));
    assert!(lex_less("String", "nil"));
    let sorted = sort_strings(vec!["nil".to_string(), "b".to_string(), "Array".to_string(), "b".to_string()]);
    assert_eq!(sorted, vec!["Array".to_string(), "b".to_string(), "b".to_string(), "nil".to_string()]);
    assert!(sort_strings(vec![]).is_empty());
}

#[test]
fn scopes_bind_instance_variables_on_the_class() {
    let mut scopes = ScopeManager::new();
    assert_eq!(scopes.current_class_name(), None);
    scopes.set_instance_var_in_class("@a".to_string(), VertexId(1));
    assert_eq!(scopes.lookup_instance_var("@a"), None);
    scopes.enter_class("User".to_string());
    scopes.enter_method("initialize".to_string());
    scopes.set_instance_var_in_class("@a".to_string(), VertexId(3));
    scopes.exit_scope();
    scopes.enter_method("greet".to_string());
    assert_eq!(scopes.current_class_name(), Some("User".to_string()));
    assert_eq!(scopes.lookup_instance_var("@a"), Some(VertexId(3)));
    scopes.set_instance_var_in_class("@a".to_string(), VertexId(4));
    assert_eq!(scopes.lookup_instance_var("@a"), Some(VertexId(4)));
    scopes.exit_scope();
    scopes.exit_scope();
    assert_eq!(scopes.current_class_name(), None);
    scopes.exit_scope();
    assert!(scopes.scopes.is_empty());
}

#[test]
fn local_env_rebinds_on_write() {
    let mut env = LocalEnv::new();
    assert_eq!(env.get_var("x"), None);
    env.new_var("x".to_string(), VertexId(2));
    assert_eq!(env.get_var("x"), Some(VertexId(2)));
    assert_eq!(env.get_var("x"), Some(VertexId(2)));
    env.new_var("x".to_string(), VertexId(5));
    assert_eq!(env.get_var("x"), Some(VertexId(5)));
}

#[test]
fn name_map_insert_get_clear() {
    let mut m: NameMap<u32> = NameMap::new();
    m.insert("a".to_string(), 1);
    m.insert("b".to_string(), 2);
    m.insert("a".to_string(), 3);
    assert_eq!(m.get("a"), Some(&3));
    assert_eq!(m.get("b"), Some(&2));
    assert_eq!(m.entries.len(), 2);
    m.clear();
    assert_eq!(m.get("a"), None);
}

#[test]
fn watch_session_transitions() {
    assert!(!watch_start(CheckOutcome::Clean));
    assert!(watch_start(CheckOutcome::Errors));
    assert!(watch_start(CheckOutcome::Failed));
    assert_eq!(watch_transition(true, CheckOutcome::Clean), WatchStep { had_errors: false, announce_fixed: true });
    assert_eq!(watch_transition(false, CheckOutcome::Clean), WatchStep { had_errors: false, announce_fixed: false });
    assert_eq!(watch_transition(false, CheckOutcome::Errors), WatchStep { had_errors: true, announce_fixed: false });
    assert_eq!(watch_transition(true, CheckOutcome::Failed), WatchStep { had_errors: true, announce_fixed: false });
}
