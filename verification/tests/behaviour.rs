use nu_plugin_logic::commands::{Facts, FactsError, FactsOutput, Solve, SolveError, SolvePlan};
use nu_plugin_logic::convert::{is_kv_list, parse_string_pattern, value_to_pattern};
use nu_plugin_logic::native::NativeEngine;
use nu_plugin_logic::search::SearchIterator;
use nu_plugin_logic::store::FactStore;
use nu_plugin_logic::substitution::Substitution;
use nu_plugin_logic::term::{vars_in_term, StringPatternPart, Term};
use nu_plugin_logic::unify::{unify, unify_string_pattern, UnifyError};
use nu_plugin_logic::value::Value;

fn s(text: &str) -> Value {
    Value::Str(text.to_string())
}

fn list(items: Vec<Value>) -> Value {
    Value::List(items)
}

fn record(cols: Vec<(&str, Value)>) -> Value {
    Value::Record(cols.into_iter().map(|(k, v)| (k.to_string(), v)).collect())
}

fn get<'a>(v: &'a Value, name: &str) -> Option<&'a Value> {
    match v {
        Value::Record(cols) => cols.iter().rev().find(|(k, _)| k == name).map(|(_, v)| v),
        _ => None,
    }
}

fn columns(v: &Value) -> Vec<String> {
    match v {
        Value::Record(cols) => cols.iter().map(|(k, _)| k.clone()).collect(),
        _ => Vec::new(),
    }
}

fn shape(t: &Term) -> String {
    format!("{:?}", t)
}

fn var(n: &str) -> StringPatternPart {
    StringPatternPart::Variable(n.to_string())
}

fn lit(t: &str) -> StringPatternPart {
    StringPatternPart::Literal(t.to_string())
}

fn filter_all(pattern: Term, rows: Vec<Value>) -> Vec<Result<Value, UnifyError>> {
    let mut it = NativeEngine.filter(pattern);
    let mut out = Vec::new();
    for row in rows {
        if it.is_done() {
            break;
        }
        if let Some(r) = it.step(row) {
            out.push(r);
        }
    }
    out
}

fn search_all(sources: Vec<(Term, Vec<Value>)>) -> Vec<Result<Value, UnifyError>> {
    let mut it = NativeEngine.search(sources);
    let mut out = Vec::new();
    while let Some(r) = it.next() {
        out.push(r);
    }
    out
}

fn procs() -> Vec<Value> {
    vec![
        record(vec![("pid", Value::Int(1)), ("name", s("nginx"))]),
        record(vec![("pid", Value::Int(2)), ("name", s("postgres"))]),
    ]
}

fn ports() -> Vec<Value> {
    vec![
        record(vec![("pid", Value::Int(1)), ("port", Value::Int(80))]),
        record(vec![("pid", Value::Int(1)), ("port", Value::Int(443))]),
        record(vec![("pid", Value::Int(2)), ("port", Value::Int(5432))]),
    ]
}

// ---- string patterns ----

#[test]
fn parse_variable_then_literal() {
    assert_eq!(parse_string_pattern("&stem.rs").unwrap(), vec![var("stem"), lit(".rs")]);
}

#[test]
fn parse_two_variables_and_separator() {
    assert_eq!(parse_string_pattern("&a-&b").unwrap(), vec![var("a"), lit("-"), var("b")]);
}

#[test]
fn parse_lone_ampersand_is_literal() {
    assert_eq!(parse_string_pattern("a & b").unwrap(), vec![lit("a & b")]);
    assert_eq!(parse_string_pattern("x&").unwrap(), vec![lit("x&")]);
}

#[test]
fn parse_plain_and_empty() {
    assert_eq!(parse_string_pattern("plain").unwrap(), vec![lit("plain")]);
    assert_eq!(parse_string_pattern("").unwrap(), Vec::<StringPatternPart>::new());
}

#[test]
fn parse_underscore_and_unicode_names() {
    assert_eq!(parse_string_pattern("&my_var!").unwrap(), vec![var("my_var"), lit("!")]);
    assert_eq!(parse_string_pattern("&é1.x").unwrap(), vec![var("é1"), lit(".x")]);
}

#[test]
fn parse_double_ampersand_is_refused() {
    assert_eq!(
        parse_string_pattern("&&x"),
        Err("unexpected '&&' in pattern — use a single '&' for variables".to_string())
    );
    assert!(parse_string_pattern("a&&").is_err());
}

#[test]
fn decomposition_greedy_to_first() {
    let parts = parse_string_pattern("&a-&b").unwrap();
    let mut sub = Substitution::new();
    assert!(unify_string_pattern(&parts, "web-prod-abc", &mut sub).unwrap());
    assert_eq!(sub.get("a"), Some(&s("web")));
    assert_eq!(sub.get("b"), Some(&s("prod-abc")));
}

#[test]
fn decomposition_reassembles_the_string() {
    let parts = parse_string_pattern("&major.&minor.&patch").unwrap();
    let mut sub = Substitution::new();
    assert!(unify_string_pattern(&parts, "2.1.3", &mut sub).unwrap());
    let mut text = String::new();
    for p in &parts {
        match p {
            StringPatternPart::Literal(l) => text.push_str(l),
            StringPatternPart::Variable(n) => match sub.get(n) {
                Some(Value::Str(t)) => text.push_str(t),
                _ => panic!("unbound"),
            },
        }
    }
    assert_eq!(text, "2.1.3");
}

#[test]
fn decomposition_adjacent_variables() {
    let parts = vec![var("a"), var("b")];
    let mut sub = Substitution::new();
    assert!(unify_string_pattern(&parts, "xyz", &mut sub).unwrap());
    assert_eq!(sub.get("a"), Some(&s("")));
    assert_eq!(sub.get("b"), Some(&s("xyz")));
}

#[test]
fn decomposition_repeated_variable_must_agree() {
    let parts = parse_string_pattern("&x-&x").unwrap();
    let mut sub = Substitution::new();
    assert!(unify_string_pattern(&parts, "ab-ab", &mut sub).unwrap());
    let mut sub = Substitution::new();
    assert!(!unify_string_pattern(&parts, "ab-cd", &mut sub).unwrap());
}

#[test]
fn decomposition_literal_only_must_be_exact() {
    let parts = vec![lit("abc")];
    let mut sub = Substitution::new();
    assert!(unify_string_pattern(&parts, "abc", &mut sub).unwrap());
    assert!(!unify_string_pattern(&parts, "abcd", &mut sub).unwrap());
}

// ---- value_to_pattern ----

#[test]
fn pattern_of_strings() {
    assert!(matches!(value_to_pattern(&s("&name")).unwrap(), Term::Variable(n) if n == "name"));
    assert!(matches!(value_to_pattern(&s("&stem.rs")).unwrap(), Term::StringPattern(_)));
    assert!(matches!(value_to_pattern(&s("file")).unwrap(), Term::Literal(Value::Str(t)) if t == "file"));
    assert!(matches!(value_to_pattern(&Value::Int(3)).unwrap(), Term::Literal(Value::Int(3))));
    assert_eq!(
        value_to_pattern(&s("&&a")).unwrap_err(),
        "unexpected '&&' in pattern — use a single '&' for variables"
    );
}

#[test]
fn list_pattern_forms_are_equivalent() {
    let reference = shape(
        &value_to_pattern(&record(vec![("type", s("file")), ("name", s("&name")), ("size", s("&size"))])).unwrap(),
    );
    let forms = vec![
        list(vec![s("type:file"), s("&name"), s("&size")]),
        list(vec![s("type"), s("file"), s("&name"), s("&size")]),
        list(vec![s("type:"), s("file"), s("name:"), s("&name"), s("size"), s("&size")]),
        list(vec![record(vec![("type", s("file"))]), s("name:&name"), s("&size")]),
    ];
    for f in forms {
        assert_eq!(shape(&value_to_pattern(&f).unwrap()), reference);
    }
}

#[test]
fn list_pattern_nesting() {
    let from_list =
        value_to_pattern(&list(vec![s("name"), s("&host"), s("spec"), list(vec![s("cores"), s("&cores")])])).unwrap();
    let from_record = value_to_pattern(&record(vec![
        ("name", s("&host")),
        ("spec", record(vec![("cores", s("&cores"))])),
    ]))
    .unwrap();
    assert_eq!(shape(&from_list), shape(&from_record));
}

#[test]
fn lists_that_are_not_patterns_are_literals() {
    for v in vec![
        list(vec![Value::Int(1), Value::Int(2)]),
        list(vec![s("a"), s("b"), s("c")]),
        list(vec![s("@facts"), s("x")]),
        list(vec![]),
    ] {
        assert!(matches!(value_to_pattern(&v).unwrap(), Term::Literal(Value::List(_))));
    }
}

#[test]
fn list_pattern_value_with_double_ampersand_fails() {
    assert!(value_to_pattern(&list(vec![s("k"), s("a&&b")])).is_err());
    assert!(value_to_pattern(&list(vec![s("k:a&&b")])).is_err());
}

#[test]
fn kv_list_check() {
    assert!(is_kv_list(&[s("a"), Value::Int(1)]));
    assert!(!is_kv_list(&[s("a")]));
    assert!(!is_kv_list(&[s("@a"), Value::Int(1)]));
    assert!(!is_kv_list(&[Value::Int(1), Value::Int(2)]));
}

// ---- unification ----

#[test]
fn type_strict_comparison() {
    let mut sub = Substitution::new();
    assert!(!unify(&Term::Literal(Value::Int(593)), &s("593"), &mut sub).unwrap());
}

#[test]
fn string_and_glob_compare_by_text() {
    let mut sub = Substitution::new();
    assert!(unify(&Term::Literal(s("x")), &Value::Glob("x".to_string()), &mut sub).unwrap());
}

#[test]
fn records_equal_regardless_of_column_order() {
    let a = record(vec![("x", Value::Int(1)), ("y", Value::Int(2))]);
    let b = record(vec![("y", Value::Int(2)), ("x", Value::Int(1))]);
    assert!(a.equals(&b));
    assert_eq!(a, b);
    let c = record(vec![("y", Value::Int(3)), ("x", Value::Int(1))]);
    assert_ne!(a, c);
}

#[test]
fn missing_field_is_a_structural_error() {
    let pattern = value_to_pattern(&record(vec![("nope", s("&x"))])).unwrap();
    let value = record(vec![("a", Value::Int(1)), ("b", Value::Int(2))]);
    let mut sub = Substitution::new();
    match unify(&pattern, &value, &mut sub) {
        Err(UnifyError::MissingField { field, available }) => {
            assert_eq!(field, "nope");
            assert_eq!(available, vec!["a".to_string(), "b".to_string()]);
        }
        other => panic!("unexpected {:?}", other),
    }
}

#[test]
fn string_pattern_on_non_string_is_an_error() {
    let pattern = value_to_pattern(&s("&a.&b")).unwrap();
    let mut sub = Substitution::new();
    match unify(&pattern, &Value::Int(7), &mut sub) {
        Err(UnifyError::NotAString { found }) => assert_eq!(found, Value::Int(7)),
        other => panic!("unexpected {:?}", other),
    }
}

#[test]
fn record_pattern_needs_a_record() {
    let pattern = value_to_pattern(&record(vec![("a", s("&x"))])).unwrap();
    let mut sub = Substitution::new();
    assert!(!unify(&pattern, &Value::Int(1), &mut sub).unwrap());
}

#[test]
fn duplicate_columns_read_the_last() {
    let pattern = value_to_pattern(&record(vec![("a", s("&x"))])).unwrap();
    let value = record(vec![("a", Value::Int(1)), ("a", Value::Int(2))]);
    let mut sub = Substitution::new();
    assert!(unify(&pattern, &value, &mut sub).unwrap());
    assert_eq!(sub.get("x"), Some(&Value::Int(2)));
}

#[test]
fn unification_keeps_earlier_bindings() {
    let mut sub = Substitution::new();
    sub.bind("z".to_string(), Value::Int(0));
    let pattern = value_to_pattern(&record(vec![("a", s("&x")), ("b", s("&y"))])).unwrap();
    let value = record(vec![("a", Value::Int(1)), ("b", Value::Int(2))]);
    assert!(unify(&pattern, &value, &mut sub).unwrap());
    let names: Vec<String> = sub.bindings().iter().map(|(k, _)| k.clone()).collect();
    assert_eq!(names, vec!["z", "x", "y"]);
    let b = sub.into_bindings();
    assert_eq!(b[0].1, Value::Int(0));
}

#[test]
fn variables_in_declaration_order() {
    let pattern = value_to_pattern(&record(vec![
        ("a", s("&x")),
        ("b", s("&y.&x")),
        ("c", record(vec![("d", s("&z"))])),
    ]))
    .unwrap();
    assert_eq!(vars_in_term(&pattern), vec!["x", "y", "z"]);
}

// ---- filter ----

#[test]
fn filter_adds_only_new_columns() {
    let rows = vec![record(vec![("name", s("main.rs")), ("size", Value::Int(3))])];
    let pattern = value_to_pattern(&record(vec![("name", s("&name")), ("size", s("&bytes"))])).unwrap();
    let out = filter_all(pattern, rows);
    assert_eq!(out.len(), 1);
    let row = out[0].as_ref().unwrap();
    assert_eq!(columns(row), vec!["name", "size", "bytes"]);
    assert_eq!(get(row, "bytes"), Some(&Value::Int(3)));
}

#[test]
fn filter_passes_non_records_through() {
    let pattern = Term::Variable("x".to_string());
    let out = filter_all(pattern, vec![Value::Int(5)]);
    assert_eq!(out.len(), 1);
    assert_eq!(out[0].as_ref().unwrap(), &Value::Int(5));
}

#[test]
fn filter_stops_after_an_error() {
    let rows = vec![
        record(vec![("a", Value::Int(1))]),
        record(vec![("b", Value::Int(2))]),
    ];
    let pattern = value_to_pattern(&record(vec![("b", s("&x"))])).unwrap();
    let mut it = NativeEngine.filter(pattern);
    let mut rows = rows.into_iter();
    assert!(matches!(it.step(rows.next().unwrap()), Some(Err(_))));
    assert!(it.is_done());
    assert!(it.step(rows.next().unwrap()).is_none());
}

// ---- search ----

#[test]
fn search_results_in_search_order() {
    let pattern_ports = value_to_pattern(&list(vec![s("&pid"), s("&port")])).unwrap();
    let pattern_procs = value_to_pattern(&list(vec![s("&pid"), s("&name")])).unwrap();
    let results = search_all(vec![(pattern_ports, ports()), (pattern_procs, procs())]);
    let got: Vec<(i64, i64)> = results
        .iter()
        .map(|r| {
            let r = r.as_ref().unwrap();
            match (get(r, "pid"), get(r, "port")) {
                (Some(Value::Int(a)), Some(Value::Int(b))) => (*a, *b),
                _ => panic!("missing columns"),
            }
        })
        .collect();
    assert_eq!(got, vec![(1, 80), (1, 443), (2, 5432)]);
}

#[test]
fn every_solution_satisfies_every_pattern() {
    let p1 = value_to_pattern(&list(vec![s("&pid"), s("&name")])).unwrap();
    let p2 = value_to_pattern(&list(vec![s("&pid"), s("&port")])).unwrap();
    let results = search_all(vec![(p1, procs()), (p2, ports())]);
    for r in &results {
        let r = r.as_ref().unwrap();
        let pid = get(r, "pid").unwrap();
        let name = get(r, "name").unwrap();
        let port = get(r, "port").unwrap();
        assert!(procs().iter().any(|row| get(row, "pid") == Some(pid) && get(row, "name") == Some(name)));
        assert!(ports().iter().any(|row| get(row, "pid") == Some(pid) && get(row, "port") == Some(port)));
    }
}

#[test]
fn self_join_finds_parent() {
    let p = vec![
        record(vec![("pid", Value::Int(1)), ("ppid", Value::Int(0)), ("name", s("init"))]),
        record(vec![("pid", Value::Int(2)), ("ppid", Value::Int(1)), ("name", s("sh"))]),
    ];
    let child = value_to_pattern(&list(vec![s("&ppid"), s("&name")])).unwrap();
    let parent = value_to_pattern(&list(vec![s("pid:&ppid"), s("name:&parent")])).unwrap();
    let results = search_all(vec![(child, p.clone()), (parent, p)]);
    assert_eq!(results.len(), 1);
    let r = results[0].as_ref().unwrap();
    assert_eq!(get(r, "name"), Some(&s("sh")));
    assert_eq!(get(r, "parent"), Some(&s("init")));
    assert_eq!(columns(r), vec!["ppid", "name", "parent"]);
}

#[test]
fn search_error_ends_the_search() {
    let bad = value_to_pattern(&record(vec![("missing", s("&x"))])).unwrap();
    let results = search_all(vec![(bad, procs())]);
    assert_eq!(results.len(), 1);
    assert!(matches!(results[0], Err(UnifyError::MissingField { .. })));
}

#[test]
fn search_with_an_empty_source_has_no_solution() {
    let p1 = value_to_pattern(&list(vec![s("&pid")])).unwrap();
    let results = search_all(vec![(p1, vec![])]);
    assert!(results.is_empty());
    let mut it = SearchIterator::new(vec![]);
    assert_eq!(it.next().unwrap().unwrap(), record(vec![]));
    assert!(it.next().is_none());
}

// ---- store ----

#[test]
fn store_lists_by_name_and_replaces() {
    let mut store = FactStore::new();
    store.store_facts("b".to_string(), vec![Value::Int(1)]);
    store.assert_facts("a".to_string(), vec![Value::Int(1), Value::Int(2)]);
    store.store_facts("b".to_string(), vec![Value::Int(1), Value::Int(2), Value::Int(3)]);
    assert_eq!(store.list(), vec![("a".to_string(), 2), ("b".to_string(), 3)]);
    assert_eq!(store.get("a").unwrap(), &vec![Value::Int(1), Value::Int(2)]);
    assert!(store.get("c").is_none());
    assert!(store.clear("a"));
    assert!(!store.clear("a"));
    assert_eq!(store.list(), vec![("b".to_string(), 3)]);
    store.clear_all();
    assert!(store.list().is_empty());
}

// ---- facts command ----

#[test]
fn facts_store_retrieve_drop() {
    let mut store = FactStore::new();
    let out = Facts.run(&mut store, Some("procs".to_string()), false, false, Some(procs())).unwrap();
    assert!(matches!(out, FactsOutput::Rows(ref r) if *r == procs()));
    let out = Facts.run(&mut store, Some("procs".to_string()), false, false, None).unwrap();
    assert!(matches!(out, FactsOutput::Rows(ref r) if *r == procs()));
    let out = Facts.run(&mut store, None, false, false, None).unwrap();
    assert!(matches!(out, FactsOutput::Sets(ref l) if *l == vec![("procs".to_string(), 2)]));
    let out = Facts.run(&mut store, Some("procs".to_string()), true, false, None).unwrap();
    assert!(matches!(out, FactsOutput::Dropped(ref n, 2) if n == "procs"));
    match Facts.run(&mut store, Some("procs".to_string()), false, false, None) {
        Err(FactsError::UnknownFactSet(n)) => assert_eq!(n, "procs"),
        _ => panic!("expected unknown fact set"),
    }
}

#[test]
fn facts_errors_and_clear() {
    let mut store = FactStore::new();
    assert!(matches!(Facts.run(&mut store, None, true, false, None), Err(FactsError::DropNeedsName)));
    assert!(matches!(
        Facts.run(&mut store, Some("x".to_string()), true, false, None),
        Err(FactsError::UnknownFactSet(_))
    ));
    Facts.run(&mut store, Some("b".to_string()), false, false, Some(ports())).unwrap();
    Facts.run(&mut store, Some("a".to_string()), false, false, Some(procs())).unwrap();
    let out = Facts.run(&mut store, None, false, true, None).unwrap();
    assert!(matches!(out, FactsOutput::Sets(ref l)
        if *l == vec![("a".to_string(), 2), ("b".to_string(), 3)]));
    assert!(store.list().is_empty());
}

// ---- solve command ----

fn solve_store() -> FactStore {
    let mut store = FactStore::new();
    store.store_facts("proc".to_string(), procs());
    store.store_facts("ports".to_string(), ports());
    store
}

#[test]
fn solve_inline_pairs_search() {
    let store = solve_store();
    let arg = list(vec![
        list(procs()),
        list(vec![s("&pid"), s("&name")]),
        s("@ports"),
        list(vec![s("&pid"), s("&port")]),
    ]);
    match Solve.plan(&arg, None, &store).unwrap() {
        SolvePlan::Search(sources) => {
            assert_eq!(sources.len(), 2);
            assert_eq!(sources[1].1, ports());
            assert_eq!(search_all(sources).len(), 3);
        }
        _ => panic!("expected a search"),
    }
}

#[test]
fn solve_unknown_fact_set() {
    let store = solve_store();
    let arg = list(vec![s("@nope"), list(vec![s("&pid")])]);
    match Solve.plan(&arg, None, &store) {
        Err(SolveError::UnknownFactSet(n)) => assert_eq!(n, "nope"),
        _ => panic!("expected unknown fact set"),
    }
}

#[test]
fn solve_invalid_pattern() {
    let store = solve_store();
    let arg = list(vec![list(procs()), list(vec![s("pid"), s("&&p")])]);
    match Solve.plan(&arg, None, &store) {
        Err(SolveError::InvalidPattern(m)) => {
            assert_eq!(m, "unexpected '&&' in pattern — use a single '&' for variables")
        }
        _ => panic!("expected an invalid pattern"),
    }
}

#[test]
fn solve_list_filter() {
    let store = solve_store();
    let arg = list(vec![s("type:file"), s("&name")]);
    assert!(matches!(Solve.plan(&arg, None, &store).unwrap(), SolvePlan::Filter(Term::Record(_))));
}

#[test]
fn solve_record_of_records_from_pipeline() {
    let store = FactStore::new();
    let arg = record(vec![
        ("proc", record(vec![("pid", s("&pid"))])),
        ("ports", record(vec![("pid", s("&pid")), ("port", s("&port"))])),
    ]);
    let input = record(vec![("proc", list(procs())), ("ports", list(ports()))]);
    match Solve.plan(&arg, Some(&input), &store).unwrap() {
        SolvePlan::Search(sources) => assert_eq!(search_all(sources).len(), 3),
        _ => panic!("expected a search"),
    }
}

#[test]
fn solve_record_of_records_from_store() {
    let store = solve_store();
    let arg = record(vec![
        ("proc", record(vec![("pid", s("&pid"))])),
        ("ports", record(vec![("pid", s("&pid")), ("port", s("&port"))])),
    ]);
    match Solve.plan(&arg, None, &store).unwrap() {
        SolvePlan::Search(sources) => {
            assert_eq!(sources[0].1, procs());
            assert_eq!(search_all(sources).len(), 3);
        }
        _ => panic!("expected a search"),
    }
}

#[test]
fn solve_record_falls_back_to_filter() {
    let store = solve_store();
    let arg = record(vec![("unknown", record(vec![("pid", s("&pid"))]))]);
    assert!(matches!(Solve.plan(&arg, None, &store).unwrap(), SolvePlan::Filter(_)));
    let arg = record(vec![("type", s("file"))]);
    assert!(matches!(Solve.plan(&arg, None, &store).unwrap(), SolvePlan::Filter(_)));
}

// ---- numbers across kinds ----

#[test]
fn integer_matches_equal_float() {
    let one_float = Value::Real(0, Some((1, 1)));
    let mut sub = Substitution::new();
    assert!(unify(&Term::Literal(Value::Int(1)), &one_float, &mut sub).unwrap());
    assert!(!unify(&Term::Literal(Value::Int(2)), &one_float, &mut sub).unwrap());
    assert!(!unify(&Term::Literal(Value::Int(1)), &Value::Real(1, None), &mut sub).unwrap());
    assert_eq!(Value::Real(4, None), Value::Real(4, Some((7, 7))));
    assert_ne!(Value::Real(4, None), Value::Real(5, None));
    let pattern = value_to_pattern(&record(vec![("x", Value::Int(1))])).unwrap();
    let out = filter_all(pattern, vec![record(vec![("x", one_float.clone())])]);
    assert_eq!(out.len(), 1);
}

#[test]
fn solutions_do_not_depend_on_source_order() {
    let p1 = || value_to_pattern(&list(vec![s("&pid"), s("&name")])).unwrap();
    let p2 = || value_to_pattern(&list(vec![s("&pid"), s("&port")])).unwrap();
    let a = search_all(vec![(p1(), procs()), (p2(), ports())]);
    let b = search_all(vec![(p2(), ports()), (p1(), procs())]);
    assert_eq!(a.len(), b.len());
    for r in &a {
        let r = r.as_ref().unwrap();
        assert!(b.iter().any(|x| x.as_ref().unwrap() == r));
    }
}
