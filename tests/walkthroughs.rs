use ownership_store::control_flow::{another_function, countdown, for_loop, looped_function, LoopEvent};
use ownership_store::ownership::{
    calculate_length, gives_ownership, owner_code, return_tuple, secondary, takes_and_gives_back,
};
use ownership_store::references;

#[test]
fn gives_ownership_returns_yours() {
    assert_eq!(gives_ownership(), "yours");
}

#[test]
fn takes_and_gives_back_is_identity() {
    assert_eq!(takes_and_gives_back("hello".to_string()), "hello");
}

#[test]
fn calculate_length_by_value_counts_bytes() {
    assert_eq!(calculate_length("hello".to_string()), ("hello".to_string(), 5));
    assert_eq!(calculate_length("héllo".to_string()), ("héllo".to_string(), 6));
    assert_eq!(calculate_length(String::new()), (String::new(), 0));
}

#[test]
fn calculate_length_by_reference_counts_bytes() {
    let s = "hello, world".to_string();
    assert_eq!(references::calculate_length(&s), 12);
    assert_eq!(references::calculate_length(&"ü".to_string()), 2);
    assert_eq!(s, "hello, world");
}

#[test]
fn owner_code_hands_on_hello_and_five() {
    assert_eq!(owner_code(), ("hello".to_string(), 5));
}

#[test]
fn secondary_returns_both_strings() {
    assert_eq!(secondary(), ("yours".to_string(), "hello".to_string()));
}

#[test]
fn return_tuple_and_use_reference_measure_hello() {
    assert_eq!(return_tuple(), ("hello".to_string(), 5));
    assert_eq!(references::use_reference(), ("hello".to_string(), 5));
}

#[test]
fn change_appends_world() {
    let mut s = "hello".to_string();
    references::change(&mut s);
    assert_eq!(s, "hello, world");
    assert_eq!(references::mutable_reference(), "hello, world");
}

#[test]
fn multiple_mutable_references_leave_hello() {
    assert_eq!(references::multiple_mutable_references(), "hello");
}

#[test]
fn another_function_adds_one() {
    assert_eq!(another_function(5), 6);
    assert_eq!(another_function(-1), 0);
}

#[test]
fn looped_function_trace() {
    let (events, end) = looped_function();
    assert_eq!(
        events,
        vec![
            LoopEvent::Count(0),
            LoopEvent::Remaining(10),
            LoopEvent::Remaining(9),
            LoopEvent::Count(1),
            LoopEvent::Remaining(10),
            LoopEvent::Remaining(9),
            LoopEvent::Count(2),
            LoopEvent::Remaining(10)
        ]
    );
    assert_eq!(end, 2);
}

#[test]
fn countdown_and_for_loop_values() {
    assert_eq!(countdown(), vec![3, 2, 1]);
    assert_eq!(for_loop(), (vec![10, 20, 30, 40, 50], vec![3, 2, 1]));
}
