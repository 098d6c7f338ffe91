use shadowenv::model::{Mutation, Op, Value};
use shadowenv::shadow::{
    activate, changes, deactivate, resolve_exec, EnvVar, Feature, ShadowError, ShadowState,
};

fn s(x: &str) -> String {
    x.to_string()
}

fn list(xs: &[&str]) -> Value {
    Value::List(xs.iter().map(|x| x.to_string()).collect())
}

fn feature(path: &str, muts: Vec<(&str, Op)>) -> Feature {
    Feature {
        path: s(path),
        hash: s("h"),
        mutations: muts.into_iter().map(|(n, op)| Mutation { name: s(n), op }).collect(),
    }
}

fn empty() -> ShadowState {
    ShadowState { features: Vec::new(), entries: Vec::new() }
}

fn get(st: &ShadowState, env: &Vec<EnvVar>, name: &str) -> Option<Value> {
    resolve_exec(st, env, &s(name))
}

#[test]
fn set_then_leave_restores_absent_variable() {
    let env: Vec<EnvVar> = Vec::new();
    let mut st = empty();
    let a = feature("/a", vec![("FOO", Op::Assign(Value::Scalar(s("bar"))))]);
    assert_eq!(activate(&mut st, &env, &a), Ok(()));
    assert_eq!(get(&st, &env, "FOO"), Some(Value::Scalar(s("bar"))));
    assert_eq!(deactivate(&mut st, &s("/a")), Ok(()));
    assert_eq!(get(&st, &env, "FOO"), None);
    assert_eq!(st, empty());
}

#[test]
fn leave_restores_empty_string_not_absence() {
    let env = vec![EnvVar { name: s("FOO"), value: Value::Scalar(s("")) }];
    let mut st = empty();
    let a = feature("/a", vec![("FOO", Op::Unset)]);
    activate(&mut st, &env, &a).unwrap();
    assert_eq!(get(&st, &env, "FOO"), None);
    deactivate(&mut st, &s("/a")).unwrap();
    assert_eq!(get(&st, &env, "FOO"), Some(Value::Scalar(s(""))));
}

#[test]
fn nested_prepends_compose_and_unwind() {
    let env = vec![EnvVar { name: s("PATH"), value: list(&["/usr/bin"]) }];
    let mut st = empty();
    let a = feature("/a", vec![("PATH", Op::PrependToList(s("/a/bin")))]);
    let b = feature("/a/b", vec![("PATH", Op::PrependToList(s("/a/b/bin")))]);
    activate(&mut st, &env, &a).unwrap();
    activate(&mut st, &env, &b).unwrap();
    assert_eq!(get(&st, &env, "PATH"), Some(list(&["/a/b/bin", "/a/bin", "/usr/bin"])));
    deactivate(&mut st, &s("/a/b")).unwrap();
    assert_eq!(get(&st, &env, "PATH"), Some(list(&["/a/bin", "/usr/bin"])));
    deactivate(&mut st, &s("/a")).unwrap();
    assert_eq!(get(&st, &env, "PATH"), Some(list(&["/usr/bin"])));
    assert_eq!(st, empty());
}

#[test]
fn out_of_order_deactivation_removes_own_layer() {
    let env = vec![EnvVar { name: s("PATH"), value: list(&["/usr/bin"]) }];
    let mut st = empty();
    let a = feature("/a", vec![("PATH", Op::PrependToList(s("/a/bin")))]);
    let b = feature("/a/b", vec![("PATH", Op::PrependToList(s("/a/b/bin")))]);
    activate(&mut st, &env, &a).unwrap();
    activate(&mut st, &env, &b).unwrap();
    deactivate(&mut st, &s("/a")).unwrap();
    assert_eq!(get(&st, &env, "PATH"), Some(list(&["/a/b/bin", "/usr/bin"])));
    deactivate(&mut st, &s("/a/b")).unwrap();
    assert_eq!(st, empty());
}

#[test]
fn append_and_remove_from_list() {
    let env = vec![EnvVar { name: s("P"), value: list(&["x", "y", "x"]) }];
    let mut st = empty();
    let a = feature(
        "/a",
        vec![("P", Op::RemoveFromList(s("x"))), ("P", Op::AppendToList(s("z"))), ("P", Op::RemoveFromList(s("nope")))],
    );
    activate(&mut st, &env, &a).unwrap();
    assert_eq!(get(&st, &env, "P"), Some(list(&["y", "z"])));
    assert_eq!(st.entries.len(), 1);
    assert_eq!(st.entries[0].layers.len(), 1);
    assert_eq!(st.entries[0].layers[0].ops.len(), 3);
    deactivate(&mut st, &s("/a")).unwrap();
    assert_eq!(get(&st, &env, "P"), Some(list(&["x", "y", "x"])));
}

#[test]
fn prepend_to_scalar_and_absent() {
    let env = vec![EnvVar { name: s("S"), value: Value::Scalar(s("old")) }];
    let mut st = empty();
    let a = feature(
        "/a",
        vec![("S", Op::PrependToList(s("new"))), ("N", Op::AppendToList(s("only")))],
    );
    activate(&mut st, &env, &a).unwrap();
    assert_eq!(get(&st, &env, "S"), Some(list(&["new", "old"])));
    assert_eq!(get(&st, &env, "N"), Some(list(&["only"])));
}

#[test]
fn remove_from_scalar_changes_nothing() {
    let env = vec![EnvVar { name: s("S"), value: Value::Scalar(s("x")) }];
    let mut st = empty();
    activate(&mut st, &env, &feature("/a", vec![("S", Op::RemoveFromList(s("x")))])).unwrap();
    assert_eq!(get(&st, &env, "S"), Some(Value::Scalar(s("x"))));
}

#[test]
fn activation_errors() {
    let env: Vec<EnvVar> = Vec::new();
    let mut st = empty();
    let a = feature("/a", vec![("FOO", Op::Assign(Value::Scalar(s("1"))))]);
    activate(&mut st, &env, &a).unwrap();
    let before = st.clone();
    assert_eq!(activate(&mut st, &env, &a), Err(ShadowError::AlreadyActive));
    assert_eq!(st, before);
    assert_eq!(deactivate(&mut st, &s("/b")), Err(ShadowError::NotActive));
    assert_eq!(st, before);
}

#[test]
fn inner_feature_sees_outer_value() {
    let env: Vec<EnvVar> = Vec::new();
    let mut st = empty();
    activate(&mut st, &env, &feature("/a", vec![("FOO", Op::Assign(Value::Scalar(s("a"))))])).unwrap();
    activate(&mut st, &env, &feature("/a/b", vec![("FOO", Op::AppendToList(s("b")))])).unwrap();
    assert_eq!(get(&st, &env, "FOO"), Some(list(&["a", "b"])));
    deactivate(&mut st, &s("/a/b")).unwrap();
    assert_eq!(get(&st, &env, "FOO"), Some(Value::Scalar(s("a"))));
}

#[test]
fn changes_lists_only_changed_variables() {
    let env = vec![EnvVar { name: s("KEEP"), value: Value::Scalar(s("k")) }];
    let before = empty();
    let mut after = empty();
    activate(
        &mut after,
        &env,
        &feature(
            "/a",
            vec![("KEEP", Op::Assign(Value::Scalar(s("k")))), ("NEW", Op::Assign(Value::Scalar(s("n"))))],
        ),
    )
    .unwrap();
    let cs = changes(&before, &after, &env);
    assert_eq!(cs.len(), 1);
    assert_eq!(cs[0].name, s("NEW"));
    assert_eq!(cs[0].value, Some(Value::Scalar(s("n"))));
    let back = changes(&after, &before, &env);
    assert_eq!(back.len(), 1);
    assert_eq!(back[0].value, None);
}
