use glacier_stream::size::{size_spec_parts, size_unit_from_str, SizeUnit};

#[test]
fn size_spec_splits_number_and_unit() {
    let (num, unit) = size_spec_parts("  1.5g ");
    assert_eq!(num, "1.5");
    assert_eq!(unit, "g");
    let (num, unit) = size_spec_parts("1 2 t");
    assert_eq!(num, "12");
    assert_eq!(unit, "  t");
}

#[test]
fn size_units_are_case_insensitive() {
    assert_eq!(size_unit_from_str("g"), Some(SizeUnit::GB));
    assert_eq!(size_unit_from_str(" K "), Some(SizeUnit::KB));
    assert_eq!(size_unit_from_str("m"), Some(SizeUnit::MB));
    assert_eq!(size_unit_from_str("t"), Some(SizeUnit::TB));
    assert_eq!(size_unit_from_str("B"), Some(SizeUnit::B));
    assert_eq!(size_unit_from_str("gb"), None);
    assert_eq!(size_unit_from_str(""), None);
}

#[test]
fn invalid_size_has_no_unit() {
    let (num, unit) = size_spec_parts("invalid");
    assert_eq!(num, "");
    assert_eq!(size_unit_from_str(&unit), None);
}

#[test]
fn unit_multipliers() {
    assert_eq!(SizeUnit::B.multiplier(), 1);
    assert_eq!(SizeUnit::KB.multiplier(), 1024);
    assert_eq!(SizeUnit::MB.multiplier(), 1024 * 1024);
    assert_eq!(SizeUnit::GB.multiplier(), 1024 * 1024 * 1024);
    assert_eq!(SizeUnit::TB.multiplier(), 1024u64 * 1024 * 1024 * 1024);
}

/// A size as the command line reads it: the number is parsed as a float outside the library.
fn parse(s: &str) -> Option<(f64, SizeUnit)> {
    let (num, unit) = size_spec_parts(s);
    let size = num.parse::<f64>().ok()?;
    let unit = size_unit_from_str(&unit)?;
    Some((size, unit))
}

#[test]
fn test_size_spec_parse() {
    let (size, unit) = parse("1.5g").unwrap();
    assert_eq!(size, 1.5);
    assert_eq!(unit, SizeUnit::GB);
    assert_eq!((size * unit.multiplier() as f64) as u64, (1.5 * 1024.0 * 1024.0 * 1024.0) as u64);
}

#[test]
fn test_size_spec_parse_error() {
    assert!(parse("invalid").is_none());
}

#[test]
fn unicode_whitespace_is_trimmed() {
    let (num, unit) = size_spec_parts("\u{3000}\t2m\u{85}\n");
    assert_eq!(num, "2");
    assert_eq!(unit, "m");
    assert_eq!(size_unit_from_str("\u{a0}k\u{2009}"), Some(SizeUnit::KB));
    let (_, unit) = size_spec_parts("5\u{200b}g");
    assert_eq!(unit, "\u{200b}g");
}
