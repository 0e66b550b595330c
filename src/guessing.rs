//! The decisions of a number-guessing game: drawing the secret, reading a
//! guess from a line of input, and comparing it with the secret. Reading
//! the line and printing the replies are left to the caller.
use vstd::prelude::*;
use vstd::string::StrSliceExecFns;

verus! {

/// The smallest secret the game draws.
pub const SECRET_MIN: u32 = 1;

/// The largest secret the game draws.
pub const SECRET_MAX: u32 = 100;

/// How a guess compares with the secret.
#[derive(Debug, Clone, Copy, PartialEq, Eq)]
pub enum Verdict {
    TooSmall,
    TooBig,
    Win,
}

pub open spec fn verdict_of(guess: u32, secret: u32) -> Verdict {
    if guess < secret {
        Verdict::TooSmall
    } else if guess > secret {
        Verdict::TooBig
    } else {
        Verdict::Win
    }
}

pub open spec fn is_digit(c: char) -> bool {
    '0' <= c && c <= '9'
}

/// The number that a sequence of decimal digits denotes.
pub open spec fn digits_value(s: Seq<char>) -> int
    decreases s.len(),
{
    if s.len() == 0 {
        0
    } else {
        digits_value(s.drop_last()) * 10 + (s.last() as u32 - '0' as u32)
    }
}

/// `s` without a leading `+`, if it has one.
pub open spec fn unsigned_part(s: Seq<char>) -> Seq<char> {
    if s.len() > 0 && s[0] == '+' {
        s.drop_first()
    } else {
        s
    }
}

/// One or more decimal digits.
pub open spec fn all_digits(d: Seq<char>) -> bool {
    d.len() > 0 && forall|i: int| 0 <= i < d.len() ==> is_digit(#[trigger] d[i])
}

/// What `u32::from_str` makes of `s`: an optional `+` followed by one or
/// more decimal digits whose value fits in a `u32`.
pub open spec fn parse_u32_spec(s: Seq<char>) -> Option<u32> {
    let d = unsigned_part(s);
    if all_digits(d) && digits_value(d) <= u32::MAX {
        Some(digits_value(d) as u32)
    } else {
        None
    }
}

/// A prefix of a digit sequence denotes no more than the whole.
proof fn lemma_digits_prefix(d: Seq<char>, k: int)
    requires
        0 <= k <= d.len(),
        forall|i: int| 0 <= i < d.len() ==> is_digit(#[trigger] d[i]),
    ensures
        0 <= digits_value(d.take(k)) <= digits_value(d),
    decreases d.len(),
{
    if d.len() > 0 {
        let p = d.drop_last();
        assert forall|i: int| 0 <= i < p.len() implies is_digit(#[trigger] p[i]) by {
            assert(p[i] == d[i]);
        }
        if k < d.len() {
            lemma_digits_prefix(p, k);
            assert(d.take(k) =~= p.take(k));
        } else {
            lemma_digits_prefix(p, p.len() as int);
            assert(d.take(k) =~= d);
            assert(p.take(p.len() as int) =~= p);
            assert(is_digit(d[d.len() - 1]));
        }
    } else {
        assert(d.take(k) =~= d);
    }
}

/// Reads a `u32` in decimal, as `u32::from_str` does: `None` where `s` is
/// not an optional `+` and one or more digits, or where the number does
/// not fit.
pub fn parse_u32(s: &str) -> (r: Option<u32>)
    ensures
        r == parse_u32_spec(s@),
{
    let n = s.unicode_len();
    let mut start: usize = 0;
    if n > 0 && s.get_char(0) == '+' {
        start = 1;
    }
    let ghost d = if start == 1 {
        s@.drop_first()
    } else {
        s@
    };
    assert(d =~= s@.subrange(start as int, n as int));
    assert(d == unsigned_part(s@));
    if start >= n {
        return None;
    }
    let mut v: u64 = 0;
    let mut i: usize = start;
    while i < n
        invariant
            start <= i <= n,
            n == s@.len(),
            d == s@.subrange(start as int, n as int),
            d == unsigned_part(s@),
            v == digits_value(d.take(i - start)),
            v <= u32::MAX,
            forall|j: int| 0 <= j < i - start ==> is_digit(#[trigger] d[j]),
        decreases n - i,
    {
        let c = s.get_char(i);
        assert(c == d[i - start]);
        if !('0' <= c && c <= '9') {
            assert(!is_digit(d[i - start]));
            return None;
        }
        let ghost k = i - start;
        assert(d.take(k + 1).drop_last() =~= d.take(k));
        assert(d.take(k + 1).last() == c);
        assert(digits_value(d.take(k + 1)) == v * 10 + (c as u32 - '0' as u32));
        v = v * 10 + (c as u64 - '0' as u64);
        i = i + 1;
        if v > u32::MAX as u64 {
            assert(v == digits_value(d.take(i - start)));
            proof {
                if forall|j: int| 0 <= j < d.len() ==> is_digit(#[trigger] d[j]) {
                    lemma_digits_prefix(d, i - start);
                }
            }
            return None;
        }
    }
    assert(d.take(n - start) =~= d);
    Some(v as u32)
}

/// The name of what `str::trim` returns for a string.
pub uninterp spec fn trimmed(s: Seq<char>) -> Seq<char>;

/// Relies on `str::trim`: the string without its leading and trailing
/// whitespace, which depends on the characters alone.
#[verifier::external_body]
fn trim(s: &str) -> (r: &str)
    ensures
        r@ == trimmed(s@),
{
    s.trim()
}

/// Relies on rand's `rng()` and `Rng::random_range`: a value drawn from the
/// inclusive range `low..=high`, which must not be empty.
#[verifier::external_body]
fn random_in(low: u32, high: u32) -> (r: u32)
    requires
        low <= high,
    ensures
        low <= r <= high,
{
    rand::Rng::random_range(&mut rand::rng(), low..=high)
}

/// Draws the secret number, between `SECRET_MIN` and `SECRET_MAX`.
pub fn secret_number() -> (r: u32)
    ensures
        SECRET_MIN <= r <= SECRET_MAX,
{
    random_in(SECRET_MIN, SECRET_MAX)
}

/// How `guess` compares with `secret`.
pub fn judge(guess: u32, secret: u32) -> (r: Verdict)
    ensures
        r == verdict_of(guess, secret),
{
    if guess < secret {
        Verdict::TooSmall
    } else if guess > secret {
        Verdict::TooBig
    } else {
        Verdict::Win
    }
}

/// The guess in a line of input, surrounding whitespace ignored; `None`
/// where the line holds no number, and the game asks again.
pub fn read_guess(line: &str) -> (r: Option<u32>)
    ensures
        r == parse_u32_spec(trimmed(line@)),
{
    parse_u32(trim(line))
}

/// One round of the game: the guess read from `line` and how it compares
/// with `secret`, or `None` where the line holds no number.
pub fn evaluate_guess(line: &str, secret: u32) -> (r: Option<(u32, Verdict)>)
    ensures
        r == match parse_u32_spec(trimmed(line@)) {
            Some(g) => Some((g, verdict_of(g, secret))),
            None => None,
        },
{
    match read_guess(line) {
        Some(g) => Some((g, judge(g, secret))),
        None => None,
    }
}

} // verus!
