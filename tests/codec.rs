use shadowenv::codec::{decode, encode, CorruptStateError};
use shadowenv::model::{Mutation, Op, Value};
use shadowenv::shadow::{activate, EnvVar, Feature, ShadowState};

fn s(x: &str) -> String {
    x.to_string()
}

fn empty() -> ShadowState {
    ShadowState { features: Vec::new(), entries: Vec::new() }
}

fn rich_state() -> ShadowState {
    let env = vec![
        EnvVar { name: s("PATH"), value: Value::List(vec![s("/usr/bin"), s("a:b;c\\d")]) },
        EnvVar { name: s("EMPTY"), value: Value::Scalar(s("")) },
    ];
    let mut st = empty();
    let a = Feature {
        path: s("/a;x"),
        hash: s("h\n1"),
        mutations: vec![
            Mutation { name: s("PATH"), op: Op::PrependToList(s("/a/bin")) },
            Mutation { name: s("EMPTY"), op: Op::Unset },
            Mutation { name: s("ÜNÏ"), op: Op::Assign(Value::Scalar(s("ß;\\n"))) },
        ],
    };
    let b = Feature {
        path: s("/a;x/b"),
        hash: s(""),
        mutations: vec![
            Mutation { name: s("PATH"), op: Op::RemoveFromList(s("/usr/bin")) },
            Mutation { name: s("PATH"), op: Op::AppendToList(s("")) },
            Mutation { name: s("L"), op: Op::Assign(Value::List(vec![])) },
        ],
    };
    activate(&mut st, &env, &a).unwrap();
    activate(&mut st, &env, &b).unwrap();
    st
}

#[test]
fn round_trip_empty_state() {
    let st = empty();
    assert_eq!(decode(&encode(&st)), Ok(st));
}

#[test]
fn round_trip_layered_state_with_separators() {
    let st = rich_state();
    let blob = encode(&st);
    assert!(!blob.contains('\n'));
    assert_eq!(decode(&blob), Ok(st));
}

#[test]
fn round_trip_single_entry() {
    let env: Vec<EnvVar> = Vec::new();
    let mut st = empty();
    let f = Feature {
        path: s("/a"),
        hash: s("1"),
        mutations: vec![Mutation { name: s("FOO"), op: Op::Assign(Value::Scalar(s("bar"))) }],
    };
    activate(&mut st, &env, &f).unwrap();
    assert_eq!(decode(&encode(&st)), Ok(st));
}

#[test]
fn encoding_is_deterministic() {
    assert_eq!(encode(&rich_state()), encode(&rich_state()));
}

#[test]
fn empty_state_blob() {
    assert_eq!(encode(&empty()), s("shadow1;/;/;"));
}

#[test]
fn malformed_blobs_are_rejected() {
    assert_eq!(decode(""), Err(CorruptStateError::Malformed));
    assert_eq!(decode("garbage"), Err(CorruptStateError::Malformed));
    assert_eq!(decode("shadow2;/;/;"), Err(CorruptStateError::Malformed));
    assert_eq!(decode("shadow1;/;/;x;"), Err(CorruptStateError::Malformed));
    assert_eq!(decode("shadow1;/;/"), Err(CorruptStateError::Malformed));
    assert_eq!(decode("shadow1;\\q;/;"), Err(CorruptStateError::Malformed));
}
