use shadowenv::hash::{content_hash, hash_text};
use shadowenv::lang::{evaluate, ScriptError};
use shadowenv::model::{Mutation, Op, Value};

fn s(x: &str) -> String {
    x.to_string()
}

fn m(name: &str, op: Op) -> Mutation {
    Mutation { name: s(name), op }
}

#[test]
fn builtins_in_order() {
    let src = r#"
        ; a comment (with parens)
        (env/set "FOO" "bar")
        (env/prepend-to-pathlist "PATH" "/a/bin")
        (env/append-to-pathlist "PATH" "/z")
        (env/remove-from-pathlist "PATH" "/old")
        (env/unset "GONE")
    "#;
    assert_eq!(
        evaluate(src),
        Ok(vec![
            m("FOO", Op::Assign(Value::Scalar(s("bar")))),
            m("PATH", Op::PrependToList(s("/a/bin"))),
            m("PATH", Op::AppendToList(s("/z"))),
            m("PATH", Op::RemoveFromList(s("/old"))),
            m("GONE", Op::Unset),
        ])
    );
}

#[test]
fn empty_script_has_no_mutations() {
    assert_eq!(evaluate(""), Ok(vec![]));
    assert_eq!(evaluate("  ; only a comment\n"), Ok(vec![]));
}

#[test]
fn define_binds_for_later_forms() {
    let src = "(define root \"/opt/x\")(env/set \"ROOT\" root)(define root \"/y\")(env/set \"R2\" root)";
    assert_eq!(
        evaluate(src),
        Ok(vec![
            m("ROOT", Op::Assign(Value::Scalar(s("/opt/x")))),
            m("R2", Op::Assign(Value::Scalar(s("/y")))),
        ])
    );
}

#[test]
fn string_escapes() {
    assert_eq!(
        evaluate(r#"(env/set "Q" "a\"b\\c\nd;e")"#),
        Ok(vec![m("Q", Op::Assign(Value::Scalar(s("a\"b\\c\nd;e"))))])
    );
}

#[test]
fn parse_errors() {
    assert_eq!(evaluate("(env/set \"A\" \"b\""), Err(ScriptError::Parse));
    assert_eq!(evaluate("(env/set \"A\" \"b"), Err(ScriptError::Parse));
    assert_eq!(evaluate(")"), Err(ScriptError::Parse));
    assert_eq!(evaluate("(env/set \"A\" \"\\q\")"), Err(ScriptError::Parse));
    assert_eq!(evaluate("(env/set a\"b\")"), Err(ScriptError::Parse));
}

#[test]
fn syntax_is_checked_before_evaluation() {
    assert_eq!(evaluate("(env/set \"A\" \"b\") (env/set"), Err(ScriptError::Parse));
}

#[test]
fn evaluation_errors() {
    assert_eq!(evaluate("(env/frobnicate \"A\")"), Err(ScriptError::UnknownOperator));
    assert_eq!(evaluate("(env/set \"A\")"), Err(ScriptError::Arity));
    assert_eq!(evaluate("(env/unset \"A\" \"B\")"), Err(ScriptError::Arity));
    assert_eq!(evaluate("(env/set \"A\" nothing)"), Err(ScriptError::Unbound));
    assert_eq!(evaluate("(env/set \"A\" (x))"), Err(ScriptError::WrongKind));
    assert_eq!(evaluate("\"loose\""), Err(ScriptError::WrongKind));
    assert_eq!(evaluate("((env/set) \"A\" \"b\")"), Err(ScriptError::WrongKind));
    assert_eq!(evaluate("(define \"x\" \"y\")"), Err(ScriptError::WrongKind));
    assert_eq!(evaluate("(define x)"), Err(ScriptError::Arity));
}

#[test]
fn first_error_wins() {
    assert_eq!(evaluate("(env/set \"A\" \"b\") (nope) (env/set \"A\")"), Err(ScriptError::UnknownOperator));
}

#[test]
fn content_hash_known_values() {
    assert_eq!(content_hash(&vec![]), 14695981039346656037);
    // FNV-1a of "a\0" + "\0"
    let h = content_hash(&vec![(s("a"), s(""))]);
    let mut e: u64 = 14695981039346656037;
    for b in [b'a', 0u8, 0u8] {
        e = (e ^ b as u64).wrapping_mul(1099511628211);
    }
    assert_eq!(h, e);
}

#[test]
fn content_hash_sees_names_order_and_contents() {
    let a = vec![(s("1.lisp"), s("(env/set \"A\" \"1\")")), (s("2.lisp"), s("x"))];
    let renamed = vec![(s("1.lisp"), s("(env/set \"A\" \"1\")")), (s("3.lisp"), s("x"))];
    let reordered = vec![(s("2.lisp"), s("x")), (s("1.lisp"), s("(env/set \"A\" \"1\")"))];
    let edited = vec![(s("1.lisp"), s("(env/set \"A\" \"2\")")), (s("2.lisp"), s("x"))];
    assert_eq!(content_hash(&a), content_hash(&a.clone()));
    assert_ne!(content_hash(&a), content_hash(&renamed));
    assert_ne!(content_hash(&a), content_hash(&reordered));
    assert_ne!(content_hash(&a), content_hash(&edited));
}

#[test]
fn hash_text_is_sixteen_hex_digits() {
    let files = vec![(s("a"), s(""))];
    assert_eq!(hash_text(&files), format!("{:016x}", content_hash(&files)));
    assert_eq!(hash_text(&vec![]), s("cbf29ce484222325"));
}
