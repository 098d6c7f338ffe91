use shadowenv::codec::{decode, encode};
use shadowenv::hash::hash_text;
use shadowenv::hook::{activate_all, deactivate_all, plan, run, ConfigDir, HookError};
use shadowenv::model::{Mutation, Op, Value};
use shadowenv::shadow::{check_wf, resolve_exec, ActiveFeature, EnvVar, Feature, ShadowEntry, ShadowState};
use shadowenv::trust::TrustStore;

fn s(x: &str) -> String {
    x.to_string()
}

fn dir(path: &str, hash: &str) -> ActiveFeature {
    ActiveFeature { path: s(path), hash: s(hash) }
}

fn set_foo(path: &str, hash: &str) -> Feature {
    Feature {
        path: s(path),
        hash: s(hash),
        mutations: vec![Mutation { name: s("FOO"), op: Op::Assign(Value::Scalar(s("bar"))) }],
    }
}

/// One invocation: decode, plan, evaluate what the plan allows, apply, encode.
fn invoke(blob: &str, dirs: &Vec<ActiveFeature>, store: &TrustStore, env: &Vec<EnvVar>) -> (String, ShadowState, Vec<usize>, Option<usize>) {
    let mut st = decode(blob).unwrap_or(ShadowState { features: Vec::new(), entries: Vec::new() });
    let p = plan(&st, dirs, store);
    deactivate_all(&mut st, &p.deactivate);
    let features: Vec<Feature> = p.activate.iter().map(|&i| set_foo(&dirs[i].path, &dirs[i].hash)).collect();
    activate_all(&mut st, env, &features);
    (encode(&st), st, p.activate, p.blocked)
}

#[test]
fn entering_and_leaving_a_trusted_directory() {
    let env: Vec<EnvVar> = Vec::new();
    let mut store = TrustStore::new();
    store.record_trust(&s("/a"), &s("h1"));
    let empty = encode(&ShadowState { features: Vec::new(), entries: Vec::new() });
    let (blob_a, st_a, _, _) = invoke(&empty, &vec![dir("/a", "h1")], &store, &env);
    assert_eq!(resolve_exec(&st_a, &env, &s("FOO")), Some(Value::Scalar(s("bar"))));
    // /a/b has no configuration: the active directories are the same
    let (blob_ab, st_ab, act, _) = invoke(&blob_a, &vec![dir("/a", "h1")], &store, &env);
    assert!(act.is_empty());
    assert_eq!(blob_ab, blob_a);
    assert_eq!(resolve_exec(&st_ab, &env, &s("FOO")), Some(Value::Scalar(s("bar"))));
    let (_, st_root, _, _) = invoke(&blob_ab, &vec![], &store, &env);
    assert_eq!(resolve_exec(&st_root, &env, &s("FOO")), None);
    assert!(st_root.entries.is_empty());
}

#[test]
fn running_twice_gives_the_same_result() {
    let env: Vec<EnvVar> = Vec::new();
    let mut store = TrustStore::new();
    store.record_trust(&s("/a"), &s("h1"));
    let dirs = vec![dir("/a", "h1")];
    let first = invoke("", &dirs, &store, &env);
    let second = invoke("", &dirs, &store, &env);
    assert_eq!(first, second);
    let again = invoke(&first.0, &dirs, &store, &env);
    assert_eq!(again.0, first.0);
    assert!(again.2.is_empty());
}

#[test]
fn untrusted_directory_is_never_evaluated() {
    let mut store = TrustStore::new();
    store.record_trust(&s("/a"), &s("h1"));
    let dirs = vec![dir("/a", "h1"), dir("/a/b", "h2"), dir("/a/b/c", "h3")];
    let st = ShadowState { features: Vec::new(), entries: Vec::new() };
    let p = plan(&st, &dirs, &store);
    assert_eq!(p.activate, vec![0]);
    assert_eq!(p.blocked, Some(1));
    assert!(p.deactivate.is_empty());
}

#[test]
fn changed_scripts_need_new_trust() {
    let env: Vec<EnvVar> = Vec::new();
    let mut store = TrustStore::new();
    store.record_trust(&s("/a"), &s("h1"));
    let (blob, _, _, _) = invoke("", &vec![dir("/a", "h1")], &store, &env);
    let st = decode(&blob).unwrap();
    let p = plan(&st, &vec![dir("/a", "h2")], &store);
    assert_eq!(p.deactivate, vec![s("/a")]);
    assert!(p.activate.is_empty());
    assert_eq!(p.blocked, Some(0));
}

#[test]
fn deactivation_is_most_recent_first() {
    let env: Vec<EnvVar> = Vec::new();
    let mut store = TrustStore::new();
    store.record_trust(&s("/a"), &s("1"));
    store.record_trust(&s("/a/b"), &s("2"));
    let (blob, _, act, _) = invoke("", &vec![dir("/a", "1"), dir("/a/b", "2")], &store, &env);
    assert_eq!(act, vec![0, 1]);
    let st = decode(&blob).unwrap();
    let p = plan(&st, &vec![], &store);
    assert_eq!(p.deactivate, vec![s("/a/b"), s("/a")]);
}


fn cfg(path: &str, script: &str) -> ConfigDir {
    ConfigDir { path: s(path), files: vec![(s("main.lisp"), s(script))] }
}

fn trusting(dirs: &[&ConfigDir]) -> TrustStore {
    let mut store = TrustStore::new();
    for d in dirs {
        store.record_trust(&d.path, &hash_text(&d.files));
    }
    store
}

#[test]
fn run_scenario_enter_subdir_and_leave() {
    let env: Vec<EnvVar> = Vec::new();
    let a = cfg("/a", "(env/set \"FOO\" \"bar\")");
    let store = trusting(&[&a]);
    let at_a = run("", &vec![a.clone()], &store, &env);
    assert_eq!(at_a.error, None);
    assert_eq!(at_a.changes.len(), 1);
    assert_eq!(at_a.changes[0].name, s("FOO"));
    assert_eq!(at_a.changes[0].value, Some(Value::Scalar(s("bar"))));
    let at_ab = run(&at_a.blob, &vec![a.clone()], &store, &env);
    assert!(at_ab.changes.is_empty());
    assert_eq!(at_ab.blob, at_a.blob);
    let at_root = run(&at_ab.blob, &vec![], &store, &env);
    assert_eq!(at_root.changes.len(), 1);
    assert_eq!(at_root.changes[0].value, None);
    assert_eq!(resolve_exec(&at_root.state, &env, &s("FOO")), None);
}

#[test]
fn run_nested_path_prepends() {
    let env = vec![EnvVar { name: s("PATH"), value: Value::List(vec![s("/usr/bin")]) }];
    let a = cfg("/a", "(env/prepend-to-pathlist \"PATH\" \"/a/bin\")");
    let b = cfg("/a/b", "(env/prepend-to-pathlist \"PATH\" \"/a/b/bin\")");
    let store = trusting(&[&a, &b]);
    let at_ab = run("", &vec![a.clone(), b.clone()], &store, &env);
    assert_eq!(
        resolve_exec(&at_ab.state, &env, &s("PATH")),
        Some(Value::List(vec![s("/a/b/bin"), s("/a/bin"), s("/usr/bin")]))
    );
    let at_a = run(&at_ab.blob, &vec![a.clone()], &store, &env);
    assert_eq!(
        resolve_exec(&at_a.state, &env, &s("PATH")),
        Some(Value::List(vec![s("/a/bin"), s("/usr/bin")]))
    );
}

#[test]
fn run_twice_is_identical() {
    let env: Vec<EnvVar> = Vec::new();
    let a = cfg("/a", "(env/set \"FOO\" \"bar\")");
    let store = trusting(&[&a]);
    let first = run("", &vec![a.clone()], &store, &env);
    let second = run("", &vec![a.clone()], &store, &env);
    assert_eq!(first.blob, second.blob);
    assert_eq!(first.changes, second.changes);
    assert_eq!(first.state, second.state);
}

#[test]
fn run_never_evaluates_untrusted_scripts() {
    let env: Vec<EnvVar> = Vec::new();
    // the script would fail if it were evaluated
    let evil = cfg("/evil", "(fail-the-process)");
    let out = run("", &vec![evil.clone()], &TrustStore::new(), &env);
    assert_eq!(out.error, Some(HookError::Untrusted(0)));
    assert!(out.state.features.is_empty());
    assert!(out.changes.is_empty());
    let trusted = run("", &vec![evil.clone()], &trusting(&[&evil]), &env);
    assert_eq!(trusted.error, Some(HookError::Script(0, shadowenv::lang::ScriptError::UnknownOperator)));
}

#[test]
fn run_keeps_outer_directory_when_inner_is_untrusted() {
    let env: Vec<EnvVar> = Vec::new();
    let a = cfg("/a", "(env/set \"A\" \"1\")");
    let b = cfg("/a/b", "(env/set \"B\" \"2\")");
    let out = run("", &vec![a.clone(), b.clone()], &trusting(&[&a]), &env);
    assert_eq!(out.error, Some(HookError::Untrusted(1)));
    assert_eq!(resolve_exec(&out.state, &env, &s("A")), Some(Value::Scalar(s("1"))));
    assert_eq!(resolve_exec(&out.state, &env, &s("B")), None);
}

#[test]
fn run_treats_corrupt_blob_as_empty() {
    let env: Vec<EnvVar> = Vec::new();
    let out = run("not a blob", &vec![], &TrustStore::new(), &env);
    assert_eq!(out.error, None);
    assert!(out.state.entries.is_empty());
    assert_eq!(out.blob, s("shadow1;/;/;"));
}

#[test]
fn edited_script_is_untrusted_until_approved_again() {
    let env: Vec<EnvVar> = Vec::new();
    let a = cfg("/a", "(env/set \"FOO\" \"bar\")");
    let store = trusting(&[&a]);
    let first = run("", &vec![a.clone()], &store, &env);
    let edited = cfg("/a", "(env/set \"FOO\" \"baz\")");
    let second = run(&first.blob, &vec![edited], &store, &env);
    assert_eq!(second.error, Some(HookError::Untrusted(0)));
    assert_eq!(resolve_exec(&second.state, &env, &s("FOO")), None);
}

#[test]
fn run_treats_ill_formed_state_as_empty() {
    let env: Vec<EnvVar> = Vec::new();
    // an entry with no layer: decodable, but not a state any activation leaves
    let bad = ShadowState {
        features: vec![],
        entries: vec![ShadowEntry {
            name: s("X"),
            original: None,
            current: Some(Value::Scalar(s("1"))),
            layers: vec![],
        }],
    };
    assert!(!check_wf(&bad));
    assert!(check_wf(&ShadowState::new()));
    let blob = encode(&bad);
    assert_eq!(decode(&blob), Ok(bad.clone()));
    let out = run(&blob, &vec![], &TrustStore::new(), &env);
    assert!(out.state.entries.is_empty());
    assert!(out.changes.is_empty());
}
