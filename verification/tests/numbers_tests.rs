use graphio_extractor::approx::ratio_from_decimal;
use graphio_extractor::numbers::{Int, Ratio};
use graphio_extractor::Error;

fn ratio(s: &str) -> Ratio {
    ratio_from_decimal(&s.as_bytes().to_vec()).unwrap()
}

#[test]
fn int_parses_plain_digits() {
    let v = Int::from_decimal(&b"12345".to_vec()).unwrap();
    assert!(!v.negative);
    assert_eq!(v.magnitude, vec![1, 2, 3, 4, 5]);
}

#[test]
fn int_parses_negative() {
    let v = Int::from_decimal(&b"-42".to_vec()).unwrap();
    assert!(v.negative);
    assert_eq!(v.magnitude, vec![4, 2]);
}

#[test]
fn int_normalizes_leading_zeros_and_negative_zero() {
    let v = Int::from_decimal(&b"0007".to_vec()).unwrap();
    assert_eq!(v.magnitude, vec![7]);
    let z = Int::from_decimal(&b"-0".to_vec()).unwrap();
    assert!(!z.negative);
    assert_eq!(z.magnitude, vec![0]);
}

#[test]
fn int_rejects_bad_shapes() {
    assert_eq!(Int::from_decimal(&b"".to_vec()), Err(Error::NumericParseError));
    assert_eq!(Int::from_decimal(&b"-".to_vec()), Err(Error::NumericParseError));
    assert_eq!(Int::from_decimal(&b"12a".to_vec()), Err(Error::NumericParseError));
    assert_eq!(Int::from_decimal(&b"1.5".to_vec()), Err(Error::NumericParseError));
}

#[test]
fn int_decimal_roundtrip() {
    for text in ["0", "7", "-42", "123456789012345678901234567890"] {
        let v = Int::from_decimal(&text.as_bytes().to_vec()).unwrap();
        let out = v.to_decimal();
        assert_eq!(out, text.as_bytes().to_vec());
    }
}

#[test]
fn ratio_parses_whole_numbers_exactly() {
    let r = ratio("7");
    assert!(!r.negative);
    assert_eq!(r.numer, vec![7]);
    assert_eq!(r.denom, 1);
}

#[test]
fn ratio_parses_exact_halves() {
    // 0.5 is found at denominator 2 with distance zero.
    let r = ratio("2.5");
    assert!(!r.negative);
    assert_eq!(r.numer, vec![5]);
    assert_eq!(r.denom, 2);
}

#[test]
fn ratio_parses_exact_eighths() {
    let r = ratio("0.125");
    assert_eq!(r.numer, vec![1]);
    assert_eq!(r.denom, 8);
}

#[test]
fn ratio_parses_negative_values() {
    let r = ratio("-1.5");
    assert!(r.negative);
    assert_eq!(r.numer, vec![3]);
    assert_eq!(r.denom, 2);
}

#[test]
fn ratio_fraction_without_small_denominator_keeps_thousandths() {
    // No denominator up to 1000 hits 0.333 exactly before 333/1000.
    let r = ratio("0.333");
    assert_eq!(r.numer, vec![3, 3, 3]);
    assert_eq!(r.denom, 1000);
}

#[test]
fn ratio_zero_forms() {
    for text in ["0", "0.0", "-0.0", "-"] {
        let r = ratio(text);
        assert!(!r.negative, "{}", text);
        assert_eq!(r.numer, vec![0]);
        assert_eq!(r.denom, 1);
    }
}

#[test]
fn ratio_rejects_bad_shapes() {
    for text in ["", "3.", ".", "1e5", "1.2e3", "1.2.3", "abc", "1.2E3"] {
        assert_eq!(
            ratio_from_decimal(&text.as_bytes().to_vec()),
            Err(Error::NumericParseError),
            "{}",
            text
        );
    }
}

#[test]
fn ratio_accepts_bare_fraction() {
    // A leading dot parses with an empty (zero) whole part.
    let r = ratio(".25");
    assert_eq!(r.numer, vec![1]);
    assert_eq!(r.denom, 4);
}

#[test]
fn ratio_canonical_string_forms() {
    assert_eq!(ratio("2.5").to_canonical(), b"5/2".to_vec());
    assert_eq!(ratio("7").to_canonical(), b"7".to_vec());
    assert_eq!(ratio("-1.5").to_canonical(), b"-3/2".to_vec());
    assert_eq!(ratio("0").to_canonical(), b"0".to_vec());
}

#[test]
fn ratio_canonical_roundtrip() {
    for text in ["2.5", "7", "-1.5", "0", "0.333", "-0.125", "100.25"] {
        let r = ratio(text);
        let s = r.to_canonical();
        let back = Ratio::from_canonical(&s).unwrap();
        assert_eq!(back.negative, r.negative);
        assert_eq!(back.numer, r.numer);
        assert_eq!(back.denom, r.denom);
    }
}

#[test]
fn ratio_from_canonical_reduces() {
    let r = Ratio::from_canonical(&b"2/4".to_vec()).unwrap();
    assert_eq!(r.numer, vec![1]);
    assert_eq!(r.denom, 2);
    let n = Ratio::from_canonical(&b"-006/004".to_vec()).unwrap();
    assert!(n.negative);
    assert_eq!(n.numer, vec![3]);
    assert_eq!(n.denom, 2);
}

#[test]
fn ratio_from_canonical_rejects_bad_shapes() {
    for text in ["", "/", "1/", "/2", "1/0", "1/2/3", "x/2", "1/1001"] {
        assert_eq!(
            Ratio::from_canonical(&text.as_bytes().to_vec()),
            Err(Error::NumericParseError),
            "{}",
            text
        );
    }
}

#[test]
fn ratio_is_zero() {
    assert!(ratio("0").is_zero());
    assert!(ratio("0.0").is_zero());
    assert!(!ratio("0.5").is_zero());
    assert!(!ratio("-2").is_zero());
}

#[test]
fn ratio_keeps_integer_part_at_arbitrary_precision() {
    let r = ratio("123456789012345678901234567890.5");
    assert_eq!(r.denom, 2);
    // numerator = value * 2 + 1
    let expected: Vec<u8> = b"246913578024691357802469135781"
        .iter()
        .map(|b| b - b'0')
        .collect();
    assert_eq!(r.numer, expected);
}
