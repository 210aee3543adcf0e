use nu_plugin_logic::native::NativeEngine;
use nu_plugin_logic::search::SearchIterator;
use nu_plugin_logic::store::FactStore;
use nu_plugin_logic::substitution::Substitution;
use nu_plugin_logic::term::{StringPatternPart, Term};
use nu_plugin_logic::convert::value_to_pattern;
use nu_plugin_logic::unify::{unify, unify_string_pattern, UnifyError};
use nu_plugin_logic::value::Value;

fn s(text: &str) -> Value {
    Value::Str(text.to_string())
}

fn record(cols: Vec<(&str, Value)>) -> Value {
    Value::Record(cols.into_iter().map(|(k, v)| (k.to_string(), v)).collect())
}

/// The value of the last column named `name`, as a record lookup finds it.
fn get<'a>(v: &'a Value, name: &str) -> Option<&'a Value> {
    match v {
        Value::Record(cols) => cols.iter().rev().find(|(k, _)| k == name).map(|(_, v)| v),
        _ => None,
    }
}

fn columns(v: &Value) -> Vec<&str> {
    match v {
        Value::Record(cols) => cols.iter().map(|(k, _)| k.as_str()).collect(),
        _ => Vec::new(),
    }
}

fn filter_all(pattern: Term, rows: Vec<Value>) -> Result<Vec<Value>, UnifyError> {
    let engine = NativeEngine;
    let mut it = engine.filter(pattern);
    let mut out = Vec::new();
    for row in rows {
        if it.is_done() {
            break;
        }
        match it.step(row) {
            Some(Ok(v)) => out.push(v),
            Some(Err(e)) => return Err(e),
            None => {}
        }
    }
    Ok(out)
}

fn search_all(sources: Vec<(Term, Vec<Value>)>) -> Vec<Result<Value, UnifyError>> {
    let mut it = SearchIterator::new(sources);
    let mut out = Vec::new();
    while let Some(r) = it.next() {
        out.push(r);
    }
    out
}

fn file_rows() -> Vec<Value> {
    vec![
        record(vec![("type", s("file")), ("name", s("main.rs"))]),
        record(vec![("type", s("dir")), ("name", s("src"))]),
    ]
}

#[test]
fn filter_literal() {
    let pattern = value_to_pattern(&record(vec![("type", s("file"))])).unwrap();
    let results = filter_all(pattern, file_rows()).unwrap();
    assert_eq!(results.len(), 1);
    assert_eq!(get(&results[0], "name"), Some(&s("main.rs")));
}

#[test]
fn filter_with_variable() {
    let pattern = value_to_pattern(&record(vec![("type", s("file")), ("name", s("&f"))])).unwrap();
    let results = filter_all(pattern, file_rows()).unwrap();
    assert_eq!(results.len(), 1);
    assert_eq!(get(&results[0], "f"), Some(&s("main.rs")));
}

#[test]
fn filter_string_pattern() {
    let rows = vec![
        record(vec![("type", s("file")), ("name", s("main.rs"))]),
        record(vec![("type", s("file")), ("name", s("lib.py"))]),
    ];
    let pattern = value_to_pattern(&record(vec![("name", s("&stem.rs"))])).unwrap();
    let results = filter_all(pattern, rows).unwrap();
    assert_eq!(results.len(), 1);
    assert_eq!(get(&results[0], "stem"), Some(&s("main")));
}

fn make_store() -> FactStore {
    let mut store = FactStore::new();
    let procs = vec![
        record(vec![("pid", Value::Int(1)), ("name", s("nginx"))]),
        record(vec![("pid", Value::Int(2)), ("name", s("postgres"))]),
    ];
    store.store_facts("proc".to_string(), procs);
    let ports = vec![
        record(vec![("pid", Value::Int(1)), ("port", Value::Int(80))]),
        record(vec![("pid", Value::Int(1)), ("port", Value::Int(443))]),
        record(vec![("pid", Value::Int(2)), ("port", Value::Int(5432))]),
    ];
    store.store_facts("ports".to_string(), ports);
    store
}

fn proc_pattern() -> Term {
    value_to_pattern(&record(vec![("pid", s("&pid")), ("name", s("&name"))])).unwrap()
}

fn ports_pattern() -> Term {
    value_to_pattern(&record(vec![("pid", s("&pid")), ("port", s("&port"))])).unwrap()
}

#[test]
fn two_source_join() {
    let store = make_store();
    let sources = vec![
        (proc_pattern(), store.get("proc").unwrap().clone()),
        (ports_pattern(), store.get("ports").unwrap().clone()),
    ];
    let results: Vec<Value> = search_all(sources).into_iter().collect::<Result<Vec<_>, _>>().unwrap();
    assert_eq!(results.len(), 3);
    match &results[0] {
        Value::Record(_) => {
            assert_eq!(get(&results[0], "pid"), Some(&Value::Int(1)));
            assert_eq!(get(&results[0], "name"), Some(&s("nginx")));
            assert_eq!(get(&results[0], "port"), Some(&Value::Int(80)));
        }
        _ => panic!("expected record"),
    }
}

#[test]
fn two_source_join_column_order() {
    let store = make_store();
    let sources = vec![
        (ports_pattern(), store.get("ports").unwrap().clone()),
        (proc_pattern(), store.get("proc").unwrap().clone()),
    ];
    let results: Vec<Value> = search_all(sources).into_iter().collect::<Result<Vec<_>, _>>().unwrap();
    assert_eq!(results.len(), 3);
    for result in &results {
        match result {
            Value::Record(_) => {
                assert_eq!(
                    columns(result),
                    vec!["pid", "port", "name"],
                    "column order must match declaration order"
                );
            }
            _ => panic!("expected record"),
        }
    }
}

#[test]
fn lazy_short_circuit() {
    let store = make_store();
    let sources = vec![
        (proc_pattern(), store.get("proc").unwrap().clone()),
        (ports_pattern(), store.get("ports").unwrap().clone()),
    ];
    let mut it = SearchIterator::new(sources);
    let results: Vec<Result<Value, UnifyError>> = it.next().into_iter().collect();
    assert_eq!(results.len(), 1);
    assert!(results[0].is_ok());
}

#[test]
fn missing_source_returns_empty() {
    let results = search_all(vec![]);
    assert_eq!(results.len(), 1);
    assert!(results[0].is_ok());
}

#[test]
fn literal_match() {
    let pattern = Term::Literal(s("file"));
    let value = s("file");
    let mut sub = Substitution::new();
    assert!(unify(&pattern, &value, &mut sub).unwrap());
}

#[test]
fn literal_mismatch() {
    let pattern = Term::Literal(s("file"));
    let value = s("dir");
    let mut sub = Substitution::new();
    assert!(!unify(&pattern, &value, &mut sub).unwrap());
}

#[test]
fn variable_binds() {
    let pattern = Term::Variable("x".to_string());
    let value = s("hello");
    let mut sub = Substitution::new();
    assert!(unify(&pattern, &value, &mut sub).unwrap());
    assert_eq!(sub.get("x"), Some(&s("hello")));
}

#[test]
fn variable_consistency() {
    let pattern = Term::Variable("x".to_string());
    let mut sub = Substitution::new();
    sub.bind("x".to_string(), Value::Int(42));
    assert!(unify(&pattern, &Value::Int(42), &mut sub).unwrap());
    assert!(!unify(&pattern, &Value::Int(99), &mut sub).unwrap());
}

#[test]
fn record_pattern() {
    let value = record(vec![("type", s("file")), ("name", s("main.rs")), ("size", Value::Int(1024))]);
    let pattern = value_to_pattern(&record(vec![("type", s("file")), ("name", s("&f"))])).unwrap();
    let mut sub = Substitution::new();
    assert!(unify(&pattern, &value, &mut sub).unwrap());
    assert_eq!(sub.get("f"), Some(&s("main.rs")));
}

#[test]
fn string_pattern_suffix() {
    let parts = vec![
        StringPatternPart::Variable("stem".to_string()),
        StringPatternPart::Literal(".rs".to_string()),
    ];
    let mut sub = Substitution::new();
    assert!(unify_string_pattern(&parts, "main.rs", &mut sub).unwrap());
    assert_eq!(sub.get("stem"), Some(&s("main")));
}

#[test]
fn string_pattern_prefix() {
    let parts = vec![
        StringPatternPart::Literal("test_".to_string()),
        StringPatternPart::Variable("name".to_string()),
    ];
    let mut sub = Substitution::new();
    assert!(unify_string_pattern(&parts, "test_foo", &mut sub).unwrap());
    assert_eq!(sub.get("name"), Some(&s("foo")));
}

#[test]
fn string_pattern_no_match() {
    let parts = vec![
        StringPatternPart::Variable("stem".to_string()),
        StringPatternPart::Literal(".rs".to_string()),
    ];
    let mut sub = Substitution::new();
    assert!(!unify_string_pattern(&parts, "main.py", &mut sub).unwrap());
}

#[test]
fn string_pattern_two_vars() {
    let parts = vec![
        StringPatternPart::Variable("name".to_string()),
        StringPatternPart::Literal(".".to_string()),
        StringPatternPart::Variable("ext".to_string()),
    ];
    let mut sub = Substitution::new();
    assert!(unify_string_pattern(&parts, "main.rs", &mut sub).unwrap());
    assert_eq!(sub.get("name"), Some(&s("main")));
    assert_eq!(sub.get("ext"), Some(&s("rs")));
}

#[test]
fn string_pattern_three_vars() {
    let parts = vec![
        StringPatternPart::Variable("a".to_string()),
        StringPatternPart::Literal(".".to_string()),
        StringPatternPart::Variable("b".to_string()),
        StringPatternPart::Literal(".".to_string()),
        StringPatternPart::Variable("c".to_string()),
    ];
    let mut sub = Substitution::new();
    assert!(unify_string_pattern(&parts, "x.y.z", &mut sub).unwrap());
    assert_eq!(sub.get("a"), Some(&s("x")));
    assert_eq!(sub.get("b"), Some(&s("y")));
    assert_eq!(sub.get("c"), Some(&s("z")));
}

#[test]
fn string_pattern_last_var_greedy() {
    let parts = vec![
        StringPatternPart::Variable("a".to_string()),
        StringPatternPart::Literal(".".to_string()),
        StringPatternPart::Variable("b".to_string()),
    ];
    let mut sub = Substitution::new();
    assert!(unify_string_pattern(&parts, "x.y.z", &mut sub).unwrap());
    assert_eq!(sub.get("a"), Some(&s("x")));
    assert_eq!(sub.get("b"), Some(&s("y.z")));
}

#[test]
fn nested_record_pattern() {
    let inner = record(vec![("port", Value::Int(8080)), ("host", s("localhost"))]);
    let value = record(vec![("name", s("web")), ("config", inner)]);
    let pattern_val = record(vec![("config", record(vec![("port", s("&port"))]))]);
    let pattern = value_to_pattern(&pattern_val).unwrap();
    let mut sub = Substitution::new();
    assert!(unify(&pattern, &value, &mut sub).unwrap());
    assert_eq!(sub.get("port"), Some(&Value::Int(8080)));
}
