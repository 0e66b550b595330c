use ownership_store::guessing::{
    evaluate_guess, judge, parse_u32, read_guess, secret_number, Verdict, SECRET_MAX, SECRET_MIN,
};

#[test]
fn judge_compares() {
    assert_eq!(judge(3, 50), Verdict::TooSmall);
    assert_eq!(judge(70, 50), Verdict::TooBig);
    assert_eq!(judge(50, 50), Verdict::Win);
}

#[test]
fn parse_u32_accepts_digits_and_plus() {
    assert_eq!(parse_u32("42"), Some(42));
    assert_eq!(parse_u32("+7"), Some(7));
    assert_eq!(parse_u32("007"), Some(7));
    assert_eq!(parse_u32("4294967295"), Some(u32::MAX));
}

#[test]
fn parse_u32_rejects_what_from_str_rejects() {
    for s in ["", "+", "-1", "4294967296", "12a", " 5", "5 ", "99999999999999"] {
        assert_eq!(parse_u32(s), s.parse::<u32>().ok(), "{s:?}");
        assert_eq!(parse_u32(s), None, "{s:?}");
    }
}

#[test]
fn read_guess_ignores_surrounding_whitespace() {
    assert_eq!(read_guess("  42\n"), Some(42));
    assert_eq!(read_guess("\t17 \r\n"), Some(17));
    assert_eq!(read_guess("forty\n"), None);
    assert_eq!(read_guess("\n"), None);
}

#[test]
fn evaluate_guess_reads_and_judges() {
    assert_eq!(evaluate_guess("10\n", 20), Some((10, Verdict::TooSmall)));
    assert_eq!(evaluate_guess(" 30 ", 20), Some((30, Verdict::TooBig)));
    assert_eq!(evaluate_guess("20\n", 20), Some((20, Verdict::Win)));
    assert_eq!(evaluate_guess("x\n", 20), None);
}

#[test]
fn secret_number_is_in_range() {
    for _ in 0..200 {
        let s = secret_number();
        assert!(SECRET_MIN <= s && s <= SECRET_MAX);
    }
}
