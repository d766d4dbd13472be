use lib::env::Env;

#[test]
fn define_then_get() {
    let mut env: Env<i64> = Env::new();
    assert_eq!(env.get("x"), None);
    env.define("x", 3, true);
    assert_eq!(env.get("x"), Some(3));
    env.define("x", 4, true);
    assert_eq!(env.get("x"), Some(4));
}

#[test]
fn shadowing_and_scopes() {
    let mut env: Env<i64> = Env::new();
    env.define("x", 1, true);
    env.push_scope();
    assert_eq!(env.get("x"), Some(1));
    env.define("x", 2, true);
    assert_eq!(env.get("x"), Some(2));
    env.pop_scope();
    assert_eq!(env.get("x"), Some(1));
}

#[test]
fn assignment_rules() {
    let mut env: Env<i64> = Env::new();
    assert_eq!(env.assign("x", 5), Err(()));
    env.define("x", 1, true);
    env.define("k", 7, false);
    env.push_scope();
    assert_eq!(env.assign("x", 9), Ok(()));
    assert_eq!(env.assign("k", 8), Err(()));
    env.pop_scope();
    assert_eq!(env.get("x"), Some(9));
    assert_eq!(env.get("k"), Some(7));
}

#[test]
fn popping_every_scope() {
    let mut env: Env<i64> = Env::new();
    env.define("x", 1, true);
    env.pop_scope();
    env.pop_scope();
    env.define("y", 2, true);
    assert_eq!(env.get("x"), None);
    assert_eq!(env.get("y"), None);
    env.push_scope();
    env.define("y", 2, true);
    assert_eq!(env.get("y"), Some(2));
}

#[test]
fn defining_leaves_other_names() {
    let mut env: Env<i64> = Env::new();
    env.define("a", 1, true);
    env.push_scope();
    env.define("b", 2, false);
    assert_eq!(env.get("a"), Some(1));
    assert_eq!(env.get("b"), Some(2));
    env.define("a", 5, true);
    assert_eq!(env.get("b"), Some(2));
    assert_eq!(env.get("a"), Some(5));
    env.pop_scope();
    assert_eq!(env.get("a"), Some(1));
    assert_eq!(env.get("b"), None);
}

#[test]
fn a_clone_has_the_same_bindings_and_lives_apart() {
    let mut env: Env<i64> = Env::new();
    env.define("x", 1, true);
    env.define("k", 2, false);
    env.push_scope();
    env.define("x", 10, true);
    let mut copy = env.clone();
    assert_eq!(copy.get("x"), Some(10));
    assert_eq!(copy.get("k"), Some(2));
    assert_eq!(copy.assign("k", 5), Err(()));
    assert_eq!(copy.assign("x", 11), Ok(()));
    copy.pop_scope();
    assert_eq!(copy.get("x"), Some(1));
    // the original is untouched
    assert_eq!(env.get("x"), Some(10));
    env.pop_scope();
    assert_eq!(env.get("x"), Some(1));
}
