use merchants_guide::roman::{Roman, VecRoman};

fn test_roman_conversion(s: &str, v: i32) {
    let roman = <Vec<Roman>>::from_str(s).unwrap();
    assert_eq!(roman.sum().unwrap(), v);
}

#[test]
fn test_roman_conversions() {
    for (s, v) in [
        ("III", 3),
        ("II", 2),
        ("IV", 4),
        ("LIX", 59),
        ("MMMDCCXXIV", 3724),
    ] {
        test_roman_conversion(s, v);
    }
}

fn test_roman_conversion_fail(s: &str) -> Result<i32, merchants_guide::error::Error> {
    let roman = <Vec<Roman>>::from_str(s)?;
    roman.sum()
}

#[test]
fn test_roman_conversion_fails() {
    for s in ["IIII", "IIV", "LXLX"] {
        if let Ok(sum) = test_roman_conversion_fail(s) {
            panic!("{} should be invalid, resulted in {}", s, sum);
        }
    }
}

#[test]
fn test_more_valid_numerals() {
    for (s, v) in [
        ("I", 1),
        ("IX", 9),
        ("XIX", 19),
        ("XXIX", 29),
        ("XLII", 42),
        ("LXIX", 69),
        ("XC", 90),
        ("CXC", 190),
        ("CD", 400),
        ("MCM", 1900),
        ("MCMXCIX", 1999),
        ("MMXXV", 2025),
        ("MMMDCCCLXXXVIII", 3888),
        ("MMMCMXCIX", 3999),
    ] {
        test_roman_conversion(s, v);
    }
}

#[test]
fn test_repetition_rule_rejected() {
    for s in ["VV", "LL", "DD", "XXXX", "CCCC", "MMMM", "VIV", "LXL", "DCD"] {
        assert!(
            test_roman_conversion_fail(s).is_err(),
            "{} should be invalid",
            s
        );
    }
}

#[test]
fn test_ordering_rule_rejected() {
    for s in ["IXM", "IVX", "VX", "XM", "IL", "IC", "XD", "IIX"] {
        assert!(
            test_roman_conversion_fail(s).is_err(),
            "{} should be invalid",
            s
        );
    }
}

#[test]
fn test_single_symbol_parsing() {
    assert!(matches!(Roman::try_from_str("X"), Ok(Roman::X)));
    assert!(matches!(Roman::try_from_str(" M "), Ok(Roman::M)));
    assert!(Roman::try_from_str("Q").is_err());
    assert!(Roman::try_from_str("XI").is_err());
    assert!(Roman::try_from_str("").is_err());
}

#[test]
fn test_validate_checks_formation_rules() {
    let ok = <Vec<Roman>>::from_str("XXX").unwrap();
    assert!(ok.validate().is_ok());
    let ok = <Vec<Roman>>::from_str("XIX").unwrap();
    assert!(ok.validate().is_ok());
    let bad = <Vec<Roman>>::from_str("XXXX").unwrap();
    assert!(bad.validate().is_err());
    let bad = <Vec<Roman>>::from_str("IIV").unwrap();
    assert!(bad.validate().is_err());
    let bad = <Vec<Roman>>::from_str("IXM").unwrap();
    assert!(bad.validate().is_err());
}

#[test]
fn test_can_subtract() {
    assert!(Roman::I.can_subtract(&Roman::V));
    assert!(Roman::I.can_subtract(&Roman::X));
    assert!(Roman::X.can_subtract(&Roman::L));
    assert!(Roman::C.can_subtract(&Roman::M));
    assert!(!Roman::I.can_subtract(&Roman::L));
    assert!(!Roman::V.can_subtract(&Roman::X));
    assert!(!Roman::X.can_subtract(&Roman::M));
}
