use ownership_store::store::{Mutation, Store, StoreError, Value};

fn buf(s: &str) -> Value {
    Value::Buffer(s.to_string())
}

#[test]
fn move_then_use_source_fails_and_destination_holds_hello() {
    let mut st = Store::new(true);
    assert_eq!(st.declare(1, buf("hello"), false), Ok(()));
    assert_eq!(st.move_binding(1, 2, false), Ok(()));
    assert_eq!(st.read(1), Err(StoreError::UseAfterMove));
    assert_eq!(st.read(2), Ok(&buf("hello")));
}

#[test]
fn every_use_of_a_moved_binding_fails() {
    let mut st = Store::new(true);
    st.declare(1, buf("data"), true).unwrap();
    st.move_binding(1, 2, false).unwrap();
    assert_eq!(st.move_binding(1, 3, false), Err(StoreError::UseAfterMove));
    assert_eq!(st.clone_binding(1, 3, false), Err(StoreError::UseAfterMove));
    assert_eq!(st.copy_binding(1, 3, false), Err(StoreError::UseAfterMove));
    assert_eq!(st.borrow_immutable(1), Err(StoreError::UseAfterMove));
    assert_eq!(st.borrow_mutable(1), Err(StoreError::UseAfterMove));
    assert_eq!(
        st.mutate(1, Mutation::Append("!".to_string())),
        Err(StoreError::UseAfterMove)
    );
}

#[test]
fn copy_scalar_then_mutate_copy_keeps_original() {
    let mut st = Store::new(true);
    st.declare(10, Value::Scalar(5), false).unwrap();
    assert_eq!(st.copy_binding(10, 11, true), Ok(()));
    assert_eq!(st.mutate(11, Mutation::Assign(Value::Scalar(6))), Ok(()));
    assert_eq!(st.read(10), Ok(&Value::Scalar(5)));
    assert_eq!(st.read(11), Ok(&Value::Scalar(6)));
}

#[test]
fn copy_of_scalar_leaves_both_usable() {
    let mut st = Store::new(true);
    st.declare(1, Value::Scalar(-3), true).unwrap();
    st.copy_binding(1, 2, true).unwrap();
    st.mutate(1, Mutation::Assign(Value::Scalar(40))).unwrap();
    assert_eq!(st.read(1), Ok(&Value::Scalar(40)));
    assert_eq!(st.read(2), Ok(&Value::Scalar(-3)));
}

#[test]
fn copy_of_buffer_is_wrong_kind_and_move_of_scalar_too() {
    let mut st = Store::new(true);
    st.declare(1, buf("abc"), false).unwrap();
    st.declare(2, Value::Scalar(1), false).unwrap();
    assert_eq!(st.copy_binding(1, 3, false), Err(StoreError::WrongKind));
    assert_eq!(st.move_binding(2, 3, false), Err(StoreError::WrongKind));
    assert_eq!(st.read(3), Err(StoreError::UnknownBinding));
}

#[test]
fn clone_then_mutate_each_independently() {
    let mut st = Store::new(true);
    st.declare(1, buf("hello"), true).unwrap();
    assert_eq!(st.clone_binding(1, 2, true), Ok(()));
    st.mutate(1, Mutation::Append(", world".to_string())).unwrap();
    st.mutate(2, Mutation::Assign(buf("bye"))).unwrap();
    assert_eq!(st.read(1), Ok(&buf("hello, world")));
    assert_eq!(st.read(2), Ok(&buf("bye")));
}

#[test]
fn second_mutable_borrow_conflicts() {
    let mut st = Store::new(true);
    st.declare(1, buf("x"), true).unwrap();
    assert_eq!(st.borrow_mutable(1), Ok(0));
    assert_eq!(st.borrow_mutable(1), Err(StoreError::AliasConflict));
}

#[test]
fn many_immutable_borrows_then_mutable_conflicts() {
    let mut st = Store::new(true);
    st.declare(1, buf("shared"), true).unwrap();
    for k in 0..5usize {
        assert_eq!(st.borrow_immutable(1), Ok(k));
    }
    assert_eq!(st.read(1), Ok(&buf("shared")));
    assert_eq!(st.borrow_mutable(1), Err(StoreError::AliasConflict));
    assert_eq!(
        st.mutate(1, Mutation::Append("!".to_string())),
        Err(StoreError::AliasConflict)
    );
    assert_eq!(st.move_binding(1, 2, false), Err(StoreError::AliasConflict));
}

#[test]
fn mutable_borrow_blocks_reading() {
    let mut st = Store::new(true);
    st.declare(1, Value::Scalar(1), true).unwrap();
    st.borrow_mutable(1).unwrap();
    assert_eq!(st.read(1), Err(StoreError::AliasConflict));
    assert_eq!(st.borrow_immutable(1), Err(StoreError::AliasConflict));
    assert_eq!(st.copy_binding(1, 2, false), Err(StoreError::AliasConflict));
}

#[test]
fn mutable_borrow_in_nested_scope_is_released() {
    let mut st = Store::new(true);
    st.declare(1, buf("hello"), true).unwrap();
    st.begin_scope();
    assert_eq!(st.depth(), 1);
    assert_eq!(st.borrow_mutable(1), Ok(0));
    assert_eq!(st.end_scope(), Ok(vec![]));
    assert_eq!(st.depth(), 0);
    assert_eq!(st.borrow_mutable(1), Ok(0));
}

#[test]
fn not_mutable_binding_rejects_mutation_and_mutable_borrow() {
    let mut st = Store::new(true);
    st.declare(1, Value::Scalar(5), false).unwrap();
    assert_eq!(st.mutate(1, Mutation::Assign(Value::Scalar(6))), Err(StoreError::NotMutable));
    assert_eq!(st.borrow_mutable(1), Err(StoreError::NotMutable));
    assert_eq!(st.read(1), Ok(&Value::Scalar(5)));
}

#[test]
fn mutation_of_the_wrong_kind_is_rejected() {
    let mut st = Store::new(true);
    st.declare(1, Value::Scalar(5), true).unwrap();
    st.declare(2, buf("b"), true).unwrap();
    assert_eq!(st.mutate(1, Mutation::Append("x".to_string())), Err(StoreError::WrongKind));
    assert_eq!(st.mutate(1, Mutation::Assign(buf("x"))), Err(StoreError::WrongKind));
    assert_eq!(st.mutate(2, Mutation::Assign(Value::Scalar(0))), Err(StoreError::WrongKind));
    assert_eq!(st.read(2), Ok(&buf("b")));
}

#[test]
fn unknown_names_are_rejected() {
    let mut st = Store::new(true);
    assert_eq!(st.read(9), Err(StoreError::UnknownBinding));
    assert_eq!(st.borrow_mutable(9), Err(StoreError::UnknownBinding));
    assert_eq!(st.clone_binding(9, 1, false), Err(StoreError::UnknownBinding));
}

#[test]
fn shadowing_allowed_by_default_keeps_old_value_alive() {
    let mut st = Store::new(true);
    st.declare(1, Value::Scalar(5), false).unwrap();
    st.begin_scope();
    assert_eq!(st.declare(1, Value::Scalar(12), false), Ok(()));
    assert_eq!(st.read(1), Ok(&Value::Scalar(12)));
    st.end_scope().unwrap();
    assert_eq!(st.read(1), Ok(&Value::Scalar(5)));
    assert_eq!(st.declare(1, Value::Scalar(6), false), Ok(()));
    assert_eq!(st.read(1), Ok(&Value::Scalar(6)));
}

#[test]
fn shadowing_disabled_rejects_redeclaration() {
    let mut st = Store::new(false);
    st.declare(1, Value::Scalar(5), false).unwrap();
    assert_eq!(st.declare(1, Value::Scalar(6), false), Err(StoreError::RedeclarationShadow));
    st.declare(2, buf("s"), false).unwrap();
    assert_eq!(st.move_binding(2, 1, false), Err(StoreError::RedeclarationShadow));
    assert_eq!(st.read(2), Ok(&buf("s")));
    assert_eq!(st.read(1), Ok(&Value::Scalar(5)));
}

#[test]
fn end_scope_releases_owned_buffers_once_latest_first() {
    let mut st = Store::new(true);
    st.declare(1, buf("outer"), false).unwrap();
    st.begin_scope();
    st.declare(2, buf("a"), false).unwrap();
    st.declare(3, Value::Scalar(4), false).unwrap();
    st.declare(4, buf("b"), false).unwrap();
    st.move_binding(2, 5, false).unwrap();
    st.borrow_immutable(1).unwrap();
    assert_eq!(st.end_scope(), Ok(vec!["a".to_string(), "b".to_string()]));
    assert_eq!(st.read(2), Err(StoreError::UnknownBinding));
    assert_eq!(st.read(5), Err(StoreError::UnknownBinding));
    assert_eq!(st.borrow_mutable(1), Err(StoreError::NotMutable));
    assert_eq!(st.read(1), Ok(&buf("outer")));
}

#[test]
fn moving_an_outer_buffer_into_an_inner_scope_drops_it_there() {
    let mut st = Store::new(true);
    st.declare(1, buf("hello"), false).unwrap();
    st.begin_scope();
    st.move_binding(1, 2, false).unwrap();
    assert_eq!(st.end_scope(), Ok(vec!["hello".to_string()]));
    assert_eq!(st.read(1), Err(StoreError::UseAfterMove));
}

#[test]
fn end_scope_at_outermost_scope_fails() {
    let mut st = Store::new(true);
    st.declare(1, buf("kept"), false).unwrap();
    assert_eq!(st.end_scope(), Err(StoreError::NoOpenScope));
    assert_eq!(st.read(1), Ok(&buf("kept")));
}

#[test]
fn duplicate_is_a_deep_copy() {
    let v = buf("deep");
    let w = v.duplicate();
    assert_eq!(v, w);
    assert_eq!(Value::Scalar(3).duplicate(), Value::Scalar(3));
}
