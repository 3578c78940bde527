use derivre::{check_remainder, Error, JsonQuoteOptions, Regex, RegexAst, RegexBuilder};

/// Whether some number of `n` digits leaves the remainder.
fn reaches(divisor: u32, remainder: u32, n: u32) -> bool {
    (0..10u32.pow(n)).any(|m| m % divisor == remainder % divisor)
}

#[test]
fn check_remainder_agrees_with_counting() {
    for divisor in 1..130 {
        for remainder in 0..divisor + 3 {
            for n in 0..4 {
                assert_eq!(
                    check_remainder(divisor, remainder, n),
                    reaches(divisor, remainder, n),
                    "{} {} {}",
                    divisor,
                    remainder,
                    n
                );
            }
        }
    }
}

#[test]
fn check_remainder_of_large_divisors() {
    assert!(check_remainder(1_000_000, 999_999, 6));
    assert!(!check_remainder(1_000_000, 999_999, 5));
    assert!(check_remainder(1_000, 7, 1));
    assert!(!check_remainder(1_000, 17, 1));
    assert!(check_remainder(7, 3, 9));
    // nothing is left to reach
    assert!(check_remainder(u32::MAX, 0, u32::MAX));
    assert!(check_remainder(7, 14, 0));
    assert!(!check_remainder(7, 15, 0));
}

#[test]
fn ten_digits_reach_every_remainder() {
    assert!(check_remainder(4_000_000_000, 500_000_000, 9));
    assert!(!check_remainder(4_000_000_000, 1_000_000_000, 9));
    assert!(check_remainder(4_000_000_000, 1_000_000_000, 10));
    assert!(check_remainder(u32::MAX, u32::MAX - 1, 10));
    assert!(check_remainder(u32::MAX, 17, 1_000_000));
}

fn multiples(d: u32, s: u32) -> Regex {
    let mut b = RegexBuilder::new();
    let e = b.mk(&RegexAst::MultipleOf(d, s)).unwrap();
    b.into_regex(e)
}

fn check(d: u32, s: u32, yes: &[&str], no: &[&str]) {
    let mut rx = multiples(d, s);
    for t in yes {
        assert!(rx.is_match(t), "{} x10^-{} {}", d, s, t);
    }
    for t in no {
        assert!(!rx.is_match(t), "{} x10^-{} {}", d, s, t);
    }
}

#[test]
fn multiples_of_whole_numbers() {
    check(
        3,
        0,
        &["0", "3", "12", "0012", "3.0", "3.000", "999999999999999999999"],
        &["", ".", "1", "3.1", "3.3", "-3", "3e1", " 3", "3.0.0", "a"],
    );
    check(1, 0, &["0", "1", "17", "17.0"], &["", "0.5"]);
    check(7, 0, &["7", "49", "7000000000000"], &["8", "48"]);
}

#[test]
fn multiples_agree_with_counting() {
    for d in 1..30 {
        let mut rx = multiples(d, 0);
        for n in 0..200 {
            assert_eq!(rx.is_match(&format!("{}", n)), n % d == 0, "{} {}", d, n);
        }
    }
}

#[test]
fn multiples_of_decimal_fractions() {
    // multiples of 0.25
    check(
        25,
        2,
        &["0", "1", "0.25", "0.5", "0.50", "1.75", "1.750", "12"],
        &["", "0.1", "0.26", "1.755", "0.255"],
    );
    // multiples of 0.1
    check(1, 1, &["0.1", "7", "7.3", "7.30"], &["7.31", "0.01"]);
    // multiples of 1.5
    check(15, 1, &["1.5", "3", "4.5", "0"], &["1", "2", "1.25"]);
    // multiples of 0.003
    check(3, 3, &["0.003", "3", "0.3"], &["1", "0.001", "0.0003"]);
}

#[test]
fn multiple_of_zero_is_refused() {
    let mut b = RegexBuilder::new();
    let err = b.mk(&RegexAst::MultipleOf(0, 3)).unwrap_err();
    assert!(matches!(err, Error::InvalidMultipleOf));
    assert_eq!(err.message(), "invalid multiple of");
}

#[test]
fn numerals_are_quoted_plainly() {
    let mut b = RegexBuilder::new();
    let e = b
        .mk(&RegexAst::JsonQuote(
            Box::new(RegexAst::MultipleOf(5, 1)),
            JsonQuoteOptions::regular(),
        ))
        .unwrap();
    let mut rx = b.to_regex(e);
    assert!(rx.is_match("\"0.5\""));
    assert!(rx.is_match("\"10\""));
    assert!(!rx.is_match("\"0.3\""));
    assert!(!rx.is_match("0.5"));
    assert!(!rx.is_match("\"\\u0035\""));
}
