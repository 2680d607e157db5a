use space_usage::double::Double;
use space_usage::number::parse_number;
use space_usage::text::{
    begins, contains, finishes, int_text, joined, parse_whole, same, sorted_texts, split_on,
    split_words, to_lower, trimmed,
};

/// A double as the library holds it.
fn dbl(x: f64) -> Double {
    let bits = x.to_bits();
    let negative = x.is_sign_negative();
    let digits = bits & 0xf_ffff_ffff_ffff;
    match (bits >> 52) & 0x7ff {
        0x7ff if digits == 0 => Double::Infinite { negative },
        0x7ff => Double::NotANumber,
        0 => Double::Finite {
            negative,
            digits,
            power: 0,
        },
        exponent => Double::Finite {
            negative,
            digits: digits | 0x10_0000_0000_0000,
            power: (exponent - 1) as u16,
        },
    }
}

#[test]
fn a_number_is_read_as_the_nearest_double() {
    let mut texts: Vec<String> = [
        "12", "-2.5", "+.5", "7.", "1.2345678", "125e-2", "0.0012E3", "000", "-0.0e9", "1e-7",
        "0.1", "0.3", "1.001", "2e308", "1.7976931348623157e308", "1.7976931348623158e308",
        "1.797693134862315807e308", "1.7976931348623159e308", "1e309", "-1e400", "4.9e-324",
        "2.4703282292062327e-324", "2.4703282292062328e-324", "2.2250738585072011e-308",
        "2.2250738585072014e-308", "1e-400", "9007199254740993", "9007199254740991",
        "9007199254740992.5", "9007199254740993.00000000000000000000000000000001",
        "0.500000000000000166533453693773481063544750213623046875", "1e23", "8.5e22",
        "123456789012345678901234567890", "0.000000000000000000000000000000000123",
        "1e-99999999999999999999999999999999999", "0e99999",
        "-1e99999999999999999999999999999999999", "179769313486231580793e289",
    ]
    .map(String::from)
    .to_vec();
    for n in 0..60u64 {
        let x = n.wrapping_mul(0x9e37_79b9_7f4a_7c15);
        texts.push(format!("{}.{}e{}", x % 1000, x / 7, (x % 640) as i64 - 320));
        texts.push(format!("{}", f64::from_bits(x & 0x7fef_ffff_ffff_ffff)));
    }
    for text in texts {
        let want: f64 = text.parse().expect("a number");
        assert_eq!(parse_number(&text), Some(dbl(want)), "{text}");
    }
}

#[test]
fn the_words_for_what_is_no_finite_number() {
    assert_eq!(parse_number("inf"), Some(Double::Infinite { negative: false }));
    assert_eq!(parse_number("-Infinity"), Some(Double::Infinite { negative: true }));
    assert_eq!(parse_number("NaN"), Some(Double::NotANumber));
    assert_eq!(parse_number("-nan"), Some(Double::NotANumber));
    for text in ["", "+", "-", ".", "e5", "1e", "1e+", "1.2.3", " 1", "1 ", "0x1", "1_0", "--1", "infinit"] {
        assert_eq!(parse_number(text), None, "{text:?}");
        assert!(text.parse::<f64>().is_err(), "{text:?}");
    }
}

/// Doubles of every shape.
fn samples() -> Vec<f64> {
    let mut out = vec![
        0.0, -0.0, 1.0, -1.0, 0.1, 0.3, 0.05, 0.15, 0.25, 0.35, 0.45, 2.5, 3.5, -0.5, 99.95,
        1e15, 4503599627370496.5, 9007199254740993.0, 1e22, 1e300, -1e300, f64::MAX, f64::MIN,
        f64::MIN_POSITIVE, 5e-324, 1.5e-310, f64::INFINITY, f64::NEG_INFINITY, f64::NAN,
        i64::MAX as f64, u64::MAX as f64, 0.49999999999999994,
    ];
    for n in 1..25u64 {
        out.push(f64::from_bits(n.wrapping_mul(0x9e37_79b9_7f4a_7c15)));
        out.push((n.wrapping_mul(0x9e37_79b9_7f4a_7c15) % 1_000_000) as f64 / 997.0);
    }
    out
}

/// The same double, all that is no number being one.
fn same_double(a: Double, b: f64) -> bool {
    a == dbl(b)
}

#[test]
fn arithmetic_is_that_of_doubles() {
    let samples = samples();
    for (i, &a) in samples.iter().enumerate() {
        for &b in samples.iter().skip(i % 5).step_by(5) {
            assert!(same_double(dbl(a).plus(dbl(b)), a + b), "{a:e} + {b:e}");
            assert!(same_double(dbl(a).over(dbl(b)), a / b), "{a:e} / {b:e}");
            assert!(same_double(dbl(a).multiply(dbl(b)), a * b), "{a:e} * {b:e}");
            assert_eq!(dbl(a).below(dbl(b)), a < b, "{a:e} < {b:e}");
        }
        assert!(same_double(dbl(a).times(100), a * 100.0), "{a:e} * 100");
        assert!(same_double(dbl(a).nearest_whole(), a.round()), "{a:e}");
    }
}

#[test]
fn doubles_are_cast_and_spelt_as_doubles_are() {
    for x in samples() {
        assert_eq!(dbl(x).to_u64(), x as u64, "{x:e}");
        assert_eq!(dbl(x).to_i64(), x.round() as i64, "{x:e}");
        assert_eq!(dbl(x).text_1dp(), format!("{x:.1}"), "{x:e}");
        assert_eq!(dbl(x).text_2dp(), format!("{x:.2}"), "{x:e}");
        assert_eq!(dbl(x).is_integral(), x.is_finite() && x.fract() == 0.0, "{x:e}");
        assert_eq!(dbl(x).is_finite(), x.is_finite());
    }
    for n in [0, 1, 9007199254740991, 9007199254740993, u64::MAX, u64::MAX - 1024] {
        assert!(same_double(Double::from_whole(n), n as f64), "{n}");
    }
}

#[test]
fn the_text_helpers_agree_with_their_names() {
    assert_eq!(trimmed("\u{2003} a b\t\n"), "a b");
    assert_eq!(to_lower("ÄBC-d"), "Äbc-d");
    assert_eq!(split_on("a,,b,", ','), ["a", "", "b", ""]);
    assert_eq!(joined(&split_on("a,,b,", ','), ","), "a,,b,");
    assert_eq!(split_words("  a\u{3000}b\n c "), ["a", "b", "c"]);
    assert_eq!(
        sorted_texts(&vec!["b".to_string(), "".to_string(), "ab".to_string(), "a".to_string()]),
        ["", "a", "ab", "b"]
    );
    assert!(contains("abcabd", "abd") && contains("", "") && !contains("ab", "abc"));
    assert!(begins("abc", "ab") && finishes("abc", "bc") && !begins("b", "ab"));
    assert!(same("é", "é") && !same("e", "é"));
    assert_eq!(int_text(i128::MIN), "-170141183460469231731687303715884105728");
    assert_eq!(int_text(0), "0");
    assert_eq!(parse_whole("18446744073709551615"), Some(u64::MAX));
    assert_eq!(parse_whole("18446744073709551616"), None);
    assert_eq!(parse_whole("+007"), Some(7));
    assert_eq!(parse_whole("-7"), None);
}
