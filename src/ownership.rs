//! Strings passed by value: ownership goes into a function and comes back
//! out of it.
use vstd::prelude::*;
use vstd::string::StringExecFns;
use vstd::utf8::{encode_utf8, is_ascii_chars, is_ascii_chars_encode_utf8};

verus! {

/// Makes a string and gives it to the caller, which becomes its owner.
pub fn gives_ownership() -> (r: String)
    ensures
        r@ == "yours"@,
{
    let some_string = String::from_str("yours");
    some_string
}

/// Takes ownership of a string and gives it back unchanged.
pub fn takes_and_gives_back(a_string: String) -> (r: String)
    ensures
        r == a_string,
{
    a_string
}

/// Takes ownership of `s` and hands it back together with its length in
/// bytes (its UTF-8 encoding's length).
pub fn calculate_length(s: String) -> (r: (String, usize))
    ensures
        r.0 == s,
        r.1 == encode_utf8(s@).len() as usize,
{
    let length = s.as_str().len();
    (s, length)
}

/// The values this walk-through hands on: the string "hello", whose
/// ownership moves to the receiver, and the integer 5, which is copied.
pub fn owner_code() -> (r: (String, i32))
    ensures
        r.0@ == "hello"@,
        r.1 == 5,
{
    let s = String::from_str("hello");
    let x: i32 = 5;
    (s, x)
}

/// Gets one string from [`gives_ownership`] and passes another through
/// [`takes_and_gives_back`]; returns both, now owned by the caller.
pub fn secondary() -> (r: (String, String))
    ensures
        r.0@ == "yours"@,
        r.1@ == "hello"@,
{
    let s1 = gives_ownership();
    let s2 = String::from_str("hello");
    let s3 = takes_and_gives_back(s2);
    (s1, s3)
}

/// Moves "hello" into [`calculate_length`] and gets it back with its
/// length.
pub fn return_tuple() -> (r: (String, usize))
    ensures
        r.0@ == "hello"@,
        r.1 == 5,
{
    let s1 = String::from_str("hello");
    proof {
        reveal_strlit("hello");
        assert(is_ascii_chars(s1@));
        is_ascii_chars_encode_utf8(s1@);
    }
    let (s2, len) = calculate_length(s1);
    (s2, len)
}

} // verus!
