use zresmon::binary64::Binary64;
use zresmon::decimal::{parse_float_of, push_fixed};
use zresmon::number::{parse_radix_of, parse_u64_of, push_decimal};
use zresmon::text::{
    chars, is_space_char, lines_of, string_of, text_le_of, trim_of, words_of,
};

fn num(x: f64) -> Binary64 {
    Binary64 { bits: x.to_bits() }
}

struct Draw(u64);

impl Draw {
    fn bits(&mut self) -> u64 {
        self.0 ^= self.0 << 13;
        self.0 ^= self.0 >> 7;
        self.0 ^= self.0 << 17;
        self.0
    }
}

fn samples() -> Vec<f64> {
    let mut v = vec![
        0.0,
        -0.0,
        1.0,
        -1.0,
        0.1,
        0.3,
        1e300,
        -1e300,
        5e-324,
        2.2250738585072014e-308,
        2.225073858507201e-308,
        f64::MAX,
        f64::MIN_POSITIVE,
        f64::INFINITY,
        f64::NEG_INFINITY,
        9007199254740993.0,
        0.05,
        0.15,
        0.25,
        0.35,
        2.5,
        1e22,
        123456.75,
    ];
    let mut d = Draw(0x9E3779B97F4A7C15);
    for _ in 0..300 {
        let x = f64::from_bits(d.bits());
        if !x.is_nan() {
            v.push(x);
        }
        v.push((d.bits() >> 40) as f64 / 1000.0);
    }
    v
}

fn same(a: Binary64, b: f64) -> bool {
    a.bits == b.to_bits() || (f64::from_bits(a.bits).is_nan() && b.is_nan())
}

#[test]
fn products_match_the_hardware() {
    let v = samples();
    for (i, x) in v.iter().enumerate() {
        for y in v.iter().skip(i % 7).step_by(7) {
            assert!(same(num(*x).times(num(*y)), x * y), "{x} * {y}");
        }
    }
}

#[test]
fn quotients_match_the_hardware() {
    let v = samples();
    for (i, x) in v.iter().enumerate() {
        for y in v.iter().skip(i % 7).step_by(7) {
            if y.is_finite() && *y != 0.0 {
                assert!(same(num(*x).over(num(*y)), x / y), "{x} / {y}");
            }
        }
    }
}

#[test]
fn integers_convert_as_casts_do() {
    let mut d = Draw(42);
    for k in 0..2000u64 {
        let n = d.bits() >> (k % 64);
        assert_eq!(Binary64::from_u64(n).bits, (n as f64).to_bits());
    }
    assert_eq!(Binary64::from_u64(u64::MAX).bits, (u64::MAX as f64).to_bits());
    for x in samples() {
        assert_eq!(num(x).truncate(), x as u64, "{x}");
        assert_eq!(num(x).round_off(), x.round() as u64, "{x}");
    }
    assert_eq!(num(f64::NAN).truncate(), 0);
    assert_eq!(num(f64::NAN).round_off(), 0);
}

#[test]
fn comparisons_match_the_hardware() {
    let mut v = samples();
    v.push(f64::NAN);
    for x in &v {
        for y in v.iter().step_by(3) {
            assert_eq!(num(*x).less(num(*y)), x < y);
        }
        assert!(same(num(*x).clamped(), x.clamp(0.0, 1.0)));
    }
}

#[test]
fn one_digit_is_printed_like_formatting() {
    for x in samples() {
        let mut s = String::from(">");
        push_fixed(&mut s, num(x));
        assert_eq!(s, format!(">{x:.1}"));
    }
    let mut s = String::new();
    push_fixed(&mut s, num(f64::NAN));
    assert_eq!(s, format!("{:.1}", f64::NAN));
}

#[test]
fn numbers_are_read_like_parsing() {
    let mut texts: Vec<String> = [
        "", ".", "-", "+", "e5", "1e", "1e+", ".5", "5.", "-.5e-3", "+1.25", "1e400", "-1e400",
        "1e-400", "inf", "-Infinity", "NaN", "nano", "0x10", "1_000", " 1", "1 ", "00012.500",
        "1e0000000000000000000005", "1e-99999999999999999999", "0e99999999999999999999",
        "179769313486231580793728971405303415079934132710037826936173778980444968292764750946649017977587207096330286416692887910946555547851940402630657488671505820681908902000708383676273854845817711531764475730270069855571366959622842914819860834936475292719074168444365510704342711559699508093042880",
        "2.4703282292062327208e-324", "2.4703282292062328e-324", "9007199254740993", "9007199254740992.5",
        "8.18", "1.2", "37.5", "45", "0.1", "123456789012345678901234567890",
    ]
    .iter()
    .map(|s| s.to_string())
    .collect();
    for x in samples() {
        texts.push(format!("{x}"));
        texts.push(format!("{x:e}"));
        texts.push(format!("{x:.3}"));
    }
    for t in &texts {
        let c: Vec<char> = t.chars().collect();
        match (parse_float_of(&c), t.parse::<f64>().ok()) {
            (Some(a), Some(b)) => assert!(same(a, b), "{t}"),
            (None, None) => {}
            other => panic!("{t}: {other:?}"),
        }
    }
}

#[test]
fn whole_numbers_are_read_like_parsing() {
    for t in [
        "", "+", "-", "0", "+7", "-7", "007", "18446744073709551615", "18446744073709551616",
        "12a", "１", "99999999999999999999999999",
    ] {
        let c: Vec<char> = t.chars().collect();
        assert_eq!(parse_u64_of(&c), t.parse::<u64>().ok(), "{t}");
        assert_eq!(parse_radix_of(&c, 16), u64::from_str_radix(t, 16).ok(), "{t}");
    }
    for t in ["ff", "FFFFFFFFFFFFFFFF", "10000000000000000", "fg", "+a0"] {
        let c: Vec<char> = t.chars().collect();
        assert_eq!(parse_radix_of(&c, 16), u64::from_str_radix(t, 16).ok(), "{t}");
    }
}

#[test]
fn numbers_are_equal_as_in_hardware() {
    let all = [0.0, -0.0, 1.0, -1.0, f64::NAN, -f64::NAN, f64::INFINITY, f64::NEG_INFINITY, 5e-324];
    for x in all {
        for y in all {
            assert_eq!(num(x) == num(y), x == y, "{x} {y}");
        }
    }
}

#[test]
fn written_numbers_read_back() {
    let mut d = Draw(7);
    for k in 0..500u64 {
        let n = d.bits() >> (k % 64);
        let mut s = String::new();
        push_decimal(&mut s, n as u128);
        assert_eq!(s, n.to_string());
        assert_eq!(parse_u64_of(&chars(&s)), Some(n));
    }
}

#[test]
fn white_space_is_what_unicode_says() {
    for c in '\0'..=char::MAX {
        assert_eq!(is_space_char(c), c.is_whitespace());
    }
}

const TEXTS: [&str; 10] = [
    "",
    "a",
    "  two  words\t",
    "line\r\nline\n\nlast",
    "line\n",
    "\r\n",
    "cr\r",
    "\u{3000}wide\u{a0}space ",
    "one\rtwo\n",
    "x\n\r\n y",
];

#[test]
fn splitting_matches_strings() {
    for t in TEXTS {
        let c = chars(t);
        let lines: Vec<String> = lines_of(&c).iter().map(|l| string_of(l)).collect();
        assert_eq!(lines, t.lines().map(String::from).collect::<Vec<_>>());
        let words: Vec<String> = words_of(&c).iter().map(|l| string_of(l)).collect();
        assert_eq!(words, t.split_whitespace().map(String::from).collect::<Vec<_>>());
        assert_eq!(string_of(trim_of(&c)), t.trim());
        for u in TEXTS {
            assert_eq!(text_le_of(t, u), t <= u);
        }
    }
}
