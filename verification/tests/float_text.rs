use dfhash::float_text::{bytes_equal, parse_float, parse_scientific, write_scientific};
use dfhash::order::compare_floats;
use dfhash::relation::Relation;
use dfhash::serializer::write_float;
use dfhash::table::FloatValue;

fn finite(negative: bool, digits: u64, exponent: i32) -> FloatValue {
    FloatValue::Finite { negative, digits, exponent }
}

fn taken_over(x: f64) -> FloatValue {
    parse_scientific(format!("{:e}", x).as_bytes()).unwrap()
}

fn written(f: &FloatValue) -> String {
    let mut out = Vec::new();
    write_float(&mut out, f);
    String::from_utf8(out).unwrap()
}

fn scientific(f: &FloatValue) -> String {
    let mut out = Vec::new();
    write_scientific(&mut out, f);
    String::from_utf8(out).unwrap()
}

#[test]
fn reads_numbers() {
    assert_eq!(parse_scientific(b"1e0"), Some(finite(false, 1, 0)));
    assert_eq!(parse_scientific(b"1.5e-7"), Some(finite(false, 15, -8)));
    assert_eq!(parse_scientific(b"-2.5e3"), Some(finite(true, 25, 2)));
    assert_eq!(parse_scientific(b"1.2345e-5"), Some(finite(false, 12345, -9)));
    assert_eq!(parse_scientific(b"1e2"), Some(finite(false, 1, 2)));
    assert_eq!(parse_scientific(b"9e-1"), Some(finite(false, 9, -1)));
    assert_eq!(parse_scientific(b"1.05e1"), Some(finite(false, 105, -1)));
    assert_eq!(parse_scientific(b"5e-324"), Some(finite(false, 5, -324)));
    assert_eq!(parse_scientific(b"1.7976931348623157e308"), Some(finite(false, 17976931348623157, 292)));
    assert_eq!(parse_scientific(b"-1.7976931348623157e308"), Some(finite(true, 17976931348623157, 292)));
    assert_eq!(parse_scientific(b"1e2147483647"), Some(finite(false, 1, 2147483647)));
    assert_eq!(parse_scientific(b"1e-2147483648"), Some(finite(false, 1, -2147483648)));
    assert_eq!(parse_scientific(b"1.5e-2147483647"), Some(finite(false, 15, -2147483648)));
}

#[test]
fn reads_what_is_no_number() {
    assert_eq!(parse_scientific(b"NaN"), Some(FloatValue::NaN));
    assert_eq!(parse_scientific(b"inf"), Some(FloatValue::Infinity));
    assert_eq!(parse_scientific(b"-inf"), Some(FloatValue::NegInfinity));
}

#[test]
fn reads_both_zeros_as_zero() {
    assert_eq!(parse_scientific(b"0e0"), Some(finite(false, 0, 0)));
    assert_eq!(parse_scientific(b"-0e0"), Some(finite(false, 0, 0)));
    assert_eq!(taken_over(0.0), finite(false, 0, 0));
    assert_eq!(taken_over(-0.0), finite(false, 0, 0));
}

#[test]
fn refuses_other_spellings() {
    let refused: [&[u8]; 30] = [
        b"", b"-", b"1", b"1.0", b"1e", b"e5", b"1e-", b"01e0", b"1.50e0", b"1.0e0", b"1e+5", b"1e05",
        b"1.e5", b" 1e0", b"1e0 ", b"+1e0", b"nan", b"NAN", b"Inf", b"+inf", b"1E0", b"12e0", b"--1e0",
        b"1.2.3e0", b"1e1e1", b"0e1", b"0.0e0", b"1.23456789012345678e0", b"1e2147483648", b"1e-2147483649",
    ];
    for text in refused {
        assert_eq!(parse_scientific(text), None, "{:?}", String::from_utf8_lossy(text));
    }
    assert_eq!(parse_scientific(b"1e99999999999999999999"), None);
    assert_eq!(parse_scientific(b"1.5e-2147483648"), None);
}

#[test]
fn writes_scientific_notation() {
    assert_eq!(scientific(&finite(false, 1, 0)), "1e0");
    assert_eq!(scientific(&finite(false, 15, -8)), "1.5e-7");
    assert_eq!(scientific(&finite(true, 25, 2)), "-2.5e3");
    assert_eq!(scientific(&finite(false, 0, 0)), "0e0");
    assert_eq!(scientific(&FloatValue::NaN), "NaN");
    assert_eq!(scientific(&FloatValue::Infinity), "inf");
    assert_eq!(scientific(&FloatValue::NegInfinity), "-inf");
}

#[test]
fn reading_undoes_writing() {
    let values = [
        0.0, 1.0, -1.0, 0.1, 0.3, 0.1 + 0.2, 2.5, 100.0, 1e15, 1e16, 1e17, 1e21, 1e22, 1e23, 123456789.0,
        1234567890123456.0, 12345678901234567.0, 1.5e-7, 0.0001, 0.00001, 1e-6, 3.141592653589793,
        f64::MAX, f64::MIN, f64::MIN_POSITIVE, 5e-324, f64::EPSILON, f64::INFINITY, f64::NEG_INFINITY,
        f64::NAN,
    ];
    for x in values {
        let text = format!("{:e}", x);
        let f = taken_over(x);
        assert_eq!(scientific(&f), text);
        let back: f64 = text.parse().unwrap();
        assert!(back == x || (back.is_nan() && x.is_nan()));
    }
}

#[test]
fn floats_taken_over_are_written_in_full_or_with_an_exponent() {
    assert_eq!(written(&taken_over(1.0)), "1.0");
    assert_eq!(written(&taken_over(-1.0)), "-1.0");
    assert_eq!(written(&taken_over(0.0)), "0.0");
    assert_eq!(written(&taken_over(-0.0)), "0.0");
    assert_eq!(written(&taken_over(0.1)), "0.1");
    assert_eq!(written(&taken_over(0.1 + 0.2)), "0.30000000000000004");
    assert_eq!(written(&taken_over(2.5)), "2.5");
    assert_eq!(written(&taken_over(123456789.0)), "123456789.0");
    assert_eq!(written(&taken_over(1e15)), "1000000000000000.0");
    assert_eq!(written(&taken_over(1e16)), "1e16");
    assert_eq!(written(&taken_over(1e21)), "1e21");
    assert_eq!(written(&taken_over(0.0001)), "0.0001");
    assert_eq!(written(&taken_over(0.00001)), "0.00001");
    assert_eq!(written(&taken_over(0.000001)), "1e-6");
    assert_eq!(written(&taken_over(1.5e-7)), "1.5e-7");
    assert_eq!(written(&taken_over(3.141592653589793)), "3.141592653589793");
    assert_eq!(written(&taken_over(f64::MAX)), "1.7976931348623157e308");
    assert_eq!(written(&taken_over(f64::MIN_POSITIVE)), "2.2250738585072014e-308");
    assert_eq!(written(&taken_over(5e-324)), "5e-324");
    assert_eq!(written(&taken_over(f64::NAN)), "NaN");
    assert_eq!(written(&taken_over(f64::INFINITY)), "inf");
    assert_eq!(written(&taken_over(f64::NEG_INFINITY)), "-inf");
    assert_eq!(written(&taken_over(1.5f32 as f64)), "1.5");
}

#[test]
fn floats_taken_over_compare_as_the_floats_do() {
    let values = [
        f64::NEG_INFINITY, f64::MIN, -1e300, -123.456, -1.0, -0.5, -1e-300, -5e-324, 0.0, 5e-324, 1e-300,
        0.1, 0.125, 0.3, 0.30000000000000004, 0.5, 0.999, 1.0, 1.0000000000000002, 1.5, 2.0, 9.99, 10.0,
        10.5, 99.0, 100.0, 1e15, 1e16, 12345678901234567.0, 1e17, 1e300, f64::MAX, f64::INFINITY,
    ];
    for a in values {
        for b in values {
            let expected = if a < b {
                Relation::Before
            } else if a == b {
                Relation::Same
            } else {
                Relation::After
            };
            assert_eq!(compare_floats(&taken_over(a), &taken_over(b)), expected, "{} against {}", a, b);
        }
    }
    for a in values {
        assert_eq!(compare_floats(&taken_over(a), &taken_over(f64::NAN)), Relation::Before);
    }
    assert_eq!(compare_floats(&taken_over(-0.0), &taken_over(0.0)), Relation::Same);
}

#[test]
fn bytes_are_equal_or_not() {
    assert!(bytes_equal(b"", b""));
    assert!(bytes_equal(b"abc", b"abc"));
    assert!(!bytes_equal(b"abc", b"abd"));
    assert!(!bytes_equal(b"abc", b"ab"));
    assert!(!bytes_equal(b"", b"a"));
}

#[test]
fn reads_floats_as_they_are_written() {
    assert_eq!(parse_float(b"1.0"), Some(finite(false, 1, 0)));
    assert_eq!(parse_float(b"-1.0"), Some(finite(true, 1, 0)));
    assert_eq!(parse_float(b"10.0"), Some(finite(false, 1, 1)));
    assert_eq!(parse_float(b"12340000000.0"), Some(finite(false, 1234, 7)));
    assert_eq!(parse_float(b"1000000000000000.0"), Some(finite(false, 1, 15)));
    assert_eq!(parse_float(b"1234567890123456.0"), Some(finite(false, 1234567890123456, 0)));
    assert_eq!(parse_float(b"2.5"), Some(finite(false, 25, -1)));
    assert_eq!(parse_float(b"12.34"), Some(finite(false, 1234, -2)));
    assert_eq!(parse_float(b"-12.34"), Some(finite(true, 1234, -2)));
    assert_eq!(parse_float(b"1.05"), Some(finite(false, 105, -2)));
    assert_eq!(parse_float(b"100.001"), Some(finite(false, 100001, -3)));
    assert_eq!(parse_float(b"1.2345678901234567"), Some(finite(false, 12345678901234567, -16)));
    assert_eq!(parse_float(b"1392743826175195.2"), Some(finite(false, 13927438261751952, -1)));
    assert_eq!(parse_float(b"0.1"), Some(finite(false, 1, -1)));
    assert_eq!(parse_float(b"0.001234"), Some(finite(false, 1234, -6)));
    assert_eq!(parse_float(b"0.00001"), Some(finite(false, 1, -5)));
    assert_eq!(parse_float(b"0.30000000000000004"), Some(finite(false, 30000000000000004, -17)));
    assert_eq!(parse_float(b"0.00012345678901234567"), Some(finite(false, 12345678901234567, -20)));
    assert_eq!(parse_float(b"1e16"), Some(finite(false, 1, 16)));
    assert_eq!(parse_float(b"1.234e33"), Some(finite(false, 1234, 30)));
    assert_eq!(parse_float(b"1.2345678901234567e16"), Some(finite(false, 12345678901234567, 0)));
    assert_eq!(parse_float(b"1e-6"), Some(finite(false, 1, -6)));
    assert_eq!(parse_float(b"-1.5e-7"), Some(finite(true, 15, -8)));
    assert_eq!(parse_float(b"5e-324"), Some(finite(false, 5, -324)));
    assert_eq!(parse_float(b"1.7976931348623157e308"), Some(finite(false, 17976931348623157, 292)));
    assert_eq!(parse_float(b"NaN"), Some(FloatValue::NaN));
    assert_eq!(parse_float(b"inf"), Some(FloatValue::Infinity));
    assert_eq!(parse_float(b"-inf"), Some(FloatValue::NegInfinity));
    assert_eq!(parse_float(b"0.0"), Some(finite(false, 0, 0)));
    assert_eq!(parse_float(b"-0.0"), Some(finite(false, 0, 0)));
}

#[test]
fn refuses_floats_that_are_written_otherwise() {
    let refused: [&[u8]; 36] = [
        b"", b"-", b".", b"1", b"1.", b".5", b"1.00", b"01.0", b"1.50", b"0.10", b"00.1", b"1e0", b"1.5e0",
        b"1e15", b"1.0e16", b"10e16", b"1e016", b"1e+16", b"1E16", b"0.000001", b"1e-5", b"1e-4",
        b"10000000000000000.0", b"12345678901234567.0", b"1.23456789012345678", b"0.0e0", b"0", b"-0", b"0.00",
        b"+1.0", b" 1.0", b"1.0 ", b"1,0", b"nan", b"Infinity", b"1.0.0",
    ];
    for text in refused {
        assert_eq!(parse_float(text), None, "{:?}", String::from_utf8_lossy(text));
    }
}

#[test]
fn reading_undoes_writing_in_full() {
    let floats = [
        finite(false, 0, 0), finite(false, 1, 0), finite(true, 1, 15), finite(false, 1, 16), finite(false, 1, -5),
        finite(false, 1, -6), finite(true, 99999999999999999, -1), finite(false, 99999999999999999, -17),
        finite(false, 99999999999999999, -21), finite(false, 99999999999999999, -22), finite(false, 7, 2147483647),
        finite(true, 7, -2147483648), FloatValue::NaN, FloatValue::Infinity, FloatValue::NegInfinity,
    ];
    for f in floats {
        assert_eq!(parse_float(written(&f).as_bytes()), Some(f), "{}", written(&f));
    }
}
