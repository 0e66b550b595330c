//! Strings passed by reference: borrowed for reading, or borrowed mutably
//! to be changed in place, without giving up ownership.
use vstd::prelude::*;
use vstd::string::StringExecFns;
use vstd::utf8::{encode_utf8, is_ascii_chars, is_ascii_chars_encode_utf8};

verus! {

/// The length in bytes of a borrowed string; the caller keeps ownership.
pub fn calculate_length(s: &String) -> (r: usize)
    ensures
        r == encode_utf8(s@).len() as usize,
{
    s.as_str().len()
}

/// Measures "hello" through a shared borrow, then returns the string,
/// still owned here, with its length.
pub fn use_reference() -> (r: (String, usize))
    ensures
        r.0@ == "hello"@,
        r.1 == 5,
{
    let s1 = String::from_str("hello");
    proof {
        reveal_strlit("hello");
        assert(is_ascii_chars(s1@));
        is_ascii_chars_encode_utf8(s1@);
    }
    let len = calculate_length(&s1);
    (s1, len)
}

/// Appends ", world" to a mutably borrowed string.
pub fn change(some_string: &mut String)
    ensures
        final(some_string)@ == old(some_string)@ + ", world"@,
{
    some_string.append(", world");
}

/// Lends "hello" mutably to [`change`] and returns the changed string.
pub fn mutable_reference() -> (r: String)
    ensures
        r@ == "hello, world"@,
{
    let mut s = String::from_str("hello");
    change(&mut s);
    proof {
        reveal_strlit("hello");
        reveal_strlit(", world");
        reveal_strlit("hello, world");
        assert(s@ =~= "hello, world"@);
    }
    s
}

/// Takes one mutable borrow of a string in an inner block and, once that
/// block has ended, a second one; neither changes the string.
pub fn multiple_mutable_references() -> (r: String)
    ensures
        r@ == "hello"@,
{
    let mut s = String::from_str("hello");
    {
        let _r1 = &mut s;
    }
    let _r2 = &mut s;
    s
}

} // verus!
