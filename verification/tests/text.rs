use onsm::decimal::{push_digits, push_fixed_width, push_padded, push_rounded};
use onsm::fixed::{clamp01, ratio_of};
use onsm::text::{
    blank, chars_of, parse_i32, parse_unsigned_max, same_chars, split_fields, split_lines,
    split_words, string_of, trimmed,
};

fn strings(v: Vec<Vec<char>>) -> Vec<String> {
    v.iter().map(string_of).collect()
}

#[test]
fn characters_round_trip() {
    let v = chars_of("a\u{e9}\t\u{1F600}");
    assert_eq!(v, vec!['a', '\u{e9}', '\t', '\u{1F600}']);
    assert_eq!(string_of(&v), "a\u{e9}\t\u{1F600}");
    assert!(same_chars(&v, &chars_of("a\u{e9}\t\u{1F600}")));
    assert!(!same_chars(&v, &chars_of("a\u{e9}\t")));
    assert!(!same_chars(&v, &chars_of("a\u{e9}\tb")));
}

#[test]
fn lines_end_at_line_feeds() {
    let l = |s: &str| strings(split_lines(&chars_of(s)));
    assert_eq!(l(""), Vec::<String>::new());
    assert_eq!(l("a"), vec!["a"]);
    assert_eq!(l("a\n"), vec!["a"]);
    assert_eq!(l("a\n\nb\r\nc\r"), vec!["a", "", "b", "c\r"]);
    assert_eq!(l("\n"), vec![""]);
    assert_eq!(l("\r\n\r\r\n"), vec!["", "\r"]);
    for s in ["", "a", "a\n", "a\n\nb\r\nc\r", "\n", "\r\n\r\r\n", "x\ny"] {
        assert_eq!(l(s), s.lines().collect::<Vec<_>>());
    }
}

#[test]
fn fields_lie_between_separators() {
    let f = |s: &str| strings(split_fields(&chars_of(s), '\t'));
    assert_eq!(f(""), vec![""]);
    assert_eq!(f("a"), vec!["a"]);
    assert_eq!(f("a\tb\t\tc\t"), vec!["a", "b", "", "c", ""]);
    assert_eq!(f("\t"), vec!["", ""]);
}

#[test]
fn words_are_runs_without_white_space() {
    let w = |s: &str| strings(split_words(&chars_of(s)));
    assert_eq!(w(""), Vec::<String>::new());
    assert_eq!(w(" \t "), Vec::<String>::new());
    assert_eq!(w("chr1\t12  30"), vec!["chr1", "12", "30"]);
    assert_eq!(w("  a\u{a0}b\u{3000}c\n"), vec!["a", "b", "c"]);
    for s in ["", " \t ", "chr1\t12  30", "  a\u{a0}b\u{3000}c\n", "\u{85}x\u{2028}y\u{200b}z"] {
        assert_eq!(w(s), s.split_whitespace().collect::<Vec<_>>());
    }
}

#[test]
fn trimming_takes_white_space_off_both_ends() {
    let t = |s: &str| string_of(&trimmed(&chars_of(s)));
    for s in ["", "  ", "a", " a b \r\n", "\ta\t\t", "\u{2003}x y\u{1680}"] {
        assert_eq!(t(s), s.trim());
        assert_eq!(blank(&chars_of(s)), s.trim().is_empty());
    }
}

#[test]
fn unsigned_numbers_are_read_like_the_standard_library_reads_them() {
    let p = |s: &str, max: u64| parse_unsigned_max(&chars_of(s), max);
    assert_eq!(p("0", 255), Some(0));
    assert_eq!(p("255", 255), Some(255));
    assert_eq!(p("256", 255), None);
    assert_eq!(p("+7", 255), Some(7));
    assert_eq!(p("007", 255), Some(7));
    assert_eq!(p("", 255), None);
    assert_eq!(p("+", 255), None);
    assert_eq!(p("-0", 255), None);
    assert_eq!(p("++1", 255), None);
    assert_eq!(p("1 ", 255), None);
    assert_eq!(p("\u{663}", 255), None);
    assert_eq!(p("18446744073709551615", u64::MAX), Some(u64::MAX));
    assert_eq!(p("18446744073709551616", u64::MAX), None);
    for s in ["0", "255", "256", "+7", "007", "", "+", "-0", "++1", "1 ", "65535", "65536", "4294967296"] {
        assert_eq!(p(s, 255), s.parse::<u8>().ok().map(u64::from));
        assert_eq!(p(s, 65535), s.parse::<u16>().ok().map(u64::from));
        assert_eq!(p(s, 4294967295), s.parse::<u32>().ok().map(u64::from));
    }
}

#[test]
fn signed_numbers_are_read_like_the_standard_library_reads_them() {
    for s in [
        "0", "-0", "+0", "12", "-12", "+12", "2147483647", "2147483648", "-2147483648",
        "-2147483649", "", "-", "+", "--1", "+-1", "1-", "0x10", " 1",
    ] {
        assert_eq!(parse_i32(&chars_of(s)), s.parse::<i32>().ok(), "{s:?}");
    }
}

#[test]
fn whole_numbers_are_written_in_decimal() {
    let d = |n: u128| {
        let mut s = String::from("x");
        push_digits(&mut s, n);
        s
    };
    assert_eq!(d(0), "x0");
    assert_eq!(d(7), "x7");
    assert_eq!(d(10), "x10");
    assert_eq!(d(1234567890), "x1234567890");
    assert_eq!(d(u128::MAX), format!("x{}", u128::MAX));
    let f = |n: u128, w: u32| {
        let mut s = String::new();
        push_fixed_width(&mut s, n, w);
        s
    };
    assert_eq!(f(5, 3), "005");
    assert_eq!(f(12345, 3), "345");
    assert_eq!(f(5, 0), "");
    let p = |n: u128, w: u32| {
        let mut s = String::new();
        push_padded(&mut s, n, w);
        s
    };
    assert_eq!(p(1, 6), "000001");
    assert_eq!(p(999999, 6), "999999");
    assert_eq!(p(1000000, 6), "1000000");
    assert_eq!(p(0, 0), "0");
    assert_eq!(p(42, 38), format!("{:038}", 42));
}

#[test]
fn fractions_are_rounded_half_up() {
    let r = |neg: bool, m: u128, drop: u32, keep: u32| {
        let mut s = String::new();
        push_rounded(&mut s, neg, m, drop, keep);
        s
    };
    assert_eq!(r(false, 980_000, 2, 4), "0.9800");
    assert_eq!(r(false, 123_449, 2, 4), "0.1234");
    assert_eq!(r(false, 123_450, 2, 4), "0.1235");
    assert_eq!(r(false, 999_950, 2, 4), "1.0000");
    assert_eq!(r(true, 437_416_750_000, 8, 4), "-0.4374");
    assert_eq!(r(true, 1, 8, 4), "-0.0000");
    assert_eq!(r(false, 20_700, 0, 6), "0.020700");
    assert_eq!(r(false, 1_500_000, 6, 0), "2");
    assert_eq!(r(false, 1_499_999, 6, 0), "1");
    assert_eq!(r(false, 0, 0, 0), "0");
    assert_eq!(r(false, u128::MAX, 0, 0), format!("{}", u128::MAX));
    assert_eq!(r(false, u128::MAX, 38, 0), "3");
    assert_eq!(r(false, u128::MAX, 0, 38), "3.40282366920938463463374607431768211455");
}

#[test]
fn ratios_are_in_millionths() {
    assert_eq!(ratio_of(1, 3), 333_333);
    assert_eq!(ratio_of(2, 3), 666_666);
    assert_eq!(ratio_of(3, 3), 1_000_000);
    assert_eq!(ratio_of(0, 3), 0);
    assert_eq!(ratio_of(3, 0), 0);
    assert_eq!(ratio_of(u64::MAX, 1), 18_446_744_073_709_551_615_000_000);
    assert_eq!(clamp01(-1), 0);
    assert_eq!(clamp01(0), 0);
    assert_eq!(clamp01(999_999), 999_999);
    assert_eq!(clamp01(1_000_001), 1_000_000);
    assert_eq!(clamp01(i128::MAX), 1_000_000);
}
