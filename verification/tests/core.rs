use bity::si;
use bity::Error;

#[test]
fn si_parse() {
    assert_eq!(si::parse("12.345k").unwrap(), 12_345);
    assert_eq!(si::parse("0.12k").unwrap(), 120);

    assert_eq!(si::parse("12").unwrap(), 12);
    assert_eq!(si::parse("12k").unwrap(), 12_000);
    assert_eq!(si::parse("120k").unwrap(), 120_000);
    assert_eq!(si::parse("12.3M").unwrap(), 12_300_000);
    assert_eq!(si::parse("12.3G").unwrap(), 12_300_000_000);
    assert_eq!(si::parse("12.3T").unwrap(), 12_300_000_000_000);
    assert_eq!(si::parse("12.3P").unwrap(), 12_300_000_000_000_000);

    // "Strange" fractions.
    assert_eq!(si::parse("1.02k").unwrap(), 1_020); // Zero at the beginning of the fraction.
    assert_eq!(si::parse("0.2").unwrap(), 0); // Less than one.
    assert_eq!(si::parse("012.340k").unwrap(), 12_340); // Unused zeroes.
    assert_eq!(si::parse("12.3456k").unwrap(), 12_345); // Overflowing fraction.
    assert_eq!(si::parse(".5k").unwrap(), 500); // Missing integer.
    assert_eq!(si::parse("5.k").unwrap(), 5_000); // Missing fraction.

    // Meaningless spaces.
    assert_eq!(si::parse(" 12k").unwrap(), 12_000);
    assert_eq!(si::parse("12k ").unwrap(), 12_000);
    assert_eq!(si::parse("12 k").unwrap(), 12_000);

    // Invalids.
    assert!(matches!(si::parse("k"), Err(Error::ParseIntError("", None))));
    assert!(matches!(si::parse(".k"), Err(Error::ParseIntError(".", None))));
    assert!(matches!(si::parse("1.1."), Err(Error::ParseIntError("1.", Some(_)))));
    assert!(matches!(si::parse("1.1.k"), Err(Error::ParseIntError("1.", Some(_)))));
    assert!(matches!(si::parse("1.1.1k"), Err(Error::ParseIntError("1.1", Some(_)))));
    assert!(matches!(si::parse(".1.1k"), Err(Error::ParseIntError("1.1", Some(_)))));
    assert!(matches!(si::parse("12kk"), Err(Error::InvalidUnit("kk"))));
    assert!(matches!(si::parse("12kM"), Err(Error::InvalidUnit("kM"))));
    assert!(matches!(si::parse("12k M"), Err(Error::InvalidUnit("k M"))));
}

#[test]
fn parse_with_additional_units() {
    let additional_units = &[("b", 1), ("B", 8)];

    // Basics.
    assert_eq!(si::parse_with_additional_units("12b", additional_units).unwrap(), 12);
    assert_eq!(si::parse_with_additional_units("12B", additional_units).unwrap(), 12 * 8);
    assert_eq!(si::parse_with_additional_units("12.345kb", additional_units).unwrap(), 12_345);
    assert_eq!(
        si::parse_with_additional_units("12.345kB", additional_units).unwrap(),
        12_345 * 8
    );
    assert_eq!(si::parse_with_additional_units("0.12kB", additional_units).unwrap(), 120 * 8);

    // "Strange" fractions.
    assert_eq!(si::parse_with_additional_units("0.2", additional_units).unwrap(), 0); // Less than a bit.
    assert_eq!(si::parse_with_additional_units("0.125B", additional_units).unwrap(), 1); // One bit from a byte.
    assert_eq!(si::parse_with_additional_units("0.3B", additional_units).unwrap(), 2); // Round to previous bit.
    assert_eq!(si::parse_with_additional_units("12.3B", additional_units).unwrap(), 98); // Round to previous bit.
    assert_eq!(si::parse_with_additional_units("12.34B", additional_units).unwrap(), 98); // Round to previous bit.
    assert_eq!(si::parse_with_additional_units("012.340kb", additional_units).unwrap(), 12_340); // Unused zeroes.
    assert_eq!(si::parse_with_additional_units("12.3456kb", additional_units).unwrap(), 12_345); // Overflowing fraction.
    assert_eq!(si::parse_with_additional_units("12.3456kB", additional_units).unwrap(), 98_764); // Byte rounding.
    assert_eq!(si::parse_with_additional_units("12.34567kB", additional_units).unwrap(), 98_765); // Byte rounding.
    assert_eq!(si::parse_with_additional_units(".5kb", additional_units).unwrap(), 500); // Missing integer.
    assert_eq!(si::parse_with_additional_units("5.kb", additional_units).unwrap(), 5_000); // Missing fraction.

    // Missing units.
    assert_eq!(si::parse_with_additional_units("12", additional_units).unwrap(), 12);
    assert_eq!(si::parse_with_additional_units("12k", additional_units).unwrap(), 12_000);

    // Meaningless spaces.
    assert_eq!(si::parse_with_additional_units(" 12kb", additional_units).unwrap(), 12_000);
    assert_eq!(si::parse_with_additional_units("12kb ", additional_units).unwrap(), 12_000);
    assert_eq!(si::parse_with_additional_units("12 kb", additional_units).unwrap(), 12_000);

    // Invalids.
    assert!(matches!(
        si::parse_with_additional_units("12bb", additional_units),
        Err(Error::InvalidUnit("bb"))
    ));
    assert!(matches!(
        si::parse_with_additional_units("12BB", additional_units),
        Err(Error::InvalidUnit("BB"))
    ));
    assert!(matches!(
        si::parse_with_additional_units("12bB", additional_units),
        Err(Error::InvalidUnit("bB"))
    ));
    assert!(matches!(
        si::parse_with_additional_units("12Bb", additional_units),
        Err(Error::InvalidUnit("Bb"))
    ));
    assert!(matches!(
        si::parse_with_additional_units("12Q", additional_units),
        Err(Error::InvalidUnit("Q"))
    ));

    let additional_units = &[("k", 2)]; // Conflicting units, custom take precedence.
    assert_eq!(si::parse_with_additional_units("12k", additional_units).unwrap(), 12 * 2);

    let additional_units = &[("AC", 2)]; // Multi-characters unit.
    assert_eq!(si::parse_with_additional_units("12kAC", additional_units).unwrap(), 12_000 * 2);
    assert!(matches!(
        si::parse_with_additional_units("12ACk", additional_units),
        Err(Error::InvalidUnit("ACk"))
    )); // Custom units should come last.
}

#[test]
fn si_format() {
    assert_eq!(si::format(0), "0");
    assert_eq!(si::format(1), "1");
    assert_eq!(si::format(12), "12");
    assert_eq!(si::format(123), "123");
    assert_eq!(si::format(1_234), "1.23k");
    assert_eq!(si::format(1_023), "1.02k");
    assert_eq!(si::format(12_000), "12k");
    assert_eq!(si::format(12_345), "12.34k");
    assert_eq!(si::format(123_456), "123.45k");
    assert_eq!(si::format(1_234_567), "1.23M");
    assert_eq!(si::format(12_345_678), "12.34M");
    assert_eq!(si::format(123_456_789), "123.45M");
    assert_eq!(si::format(1_234_567_891), "1.23G");
    assert_eq!(si::format(12_345_678_912), "12.34G");
    assert_eq!(si::format(12_300_000_000_000), "12.3T");
    assert_eq!(si::format(12_300_000_000_000_000), "12.3P");
    assert_eq!(si::format(12_300_000_000_000_000_000), "12.3E");

    // Extra.
    assert_eq!(si::format(1_200), "1.2k"); // Zeroes stripped.
}

#[test]
fn strip_per_second() {
    assert_eq!(bity::strip_per_second("whatever/s"), "whatever");
    assert_eq!(bity::strip_per_second("whateverps"), "whatever");
    assert_eq!(bity::strip_per_second("whatever/s/s"), "whatever/s");
    assert_eq!(bity::strip_per_second("whateverpsps"), "whateverps");
    assert_eq!(bity::strip_per_second("whateverps/s"), "whateverps");
    assert_eq!(bity::strip_per_second("whatever/sps"), "whatever/s");
}

#[test]
fn non_ascii_rejected() {
    assert!(matches!(si::parse("12é"), Err(Error::NotAscii)));
    assert!(matches!(si::parse("١٢k"), Err(Error::NotAscii)));
    assert!(matches!(si::parse("12\u{a0}k"), Err(Error::NotAscii)));
    assert!(matches!(
        si::parse_with_additional_units("12é", &[("b", 1)]),
        Err(Error::NotAscii)
    ));
}

#[test]
fn numeric_overflow_rejected() {
    // The digit string itself does not fit.
    assert!(matches!(
        si::parse("99999999999999999999"),
        Err(Error::ParseIntError("99999999999999999999", Some(_)))
    ));
    // The scaled value does not fit.
    assert!(matches!(si::parse("20E"), Err(Error::ParseIntError("20", Some(_)))));
    assert_eq!(si::parse("18.446744073709551615E").unwrap(), u64::MAX);
    assert!(matches!(si::parse("18.446744073709551616E"), Err(Error::ParseIntError(_, Some(_)))));
}

#[test]
fn fraction_precision_is_exact() {
    // One quintillionth of an exa-unit survives without a float in sight.
    assert_eq!(si::parse("0.000000000000000001E").unwrap(), 1);
    assert_eq!(si::parse("0.0000000000000000001E").unwrap(), 0);
    assert_eq!(si::parse("1.000000000000000001E").unwrap(), 1_000_000_000_000_000_001);
}

#[test]
fn error_messages_quote_input() {
    assert_eq!(si::parse("12é").unwrap_err().message(), "input must be ascii");
    assert_eq!(si::parse("12kk").unwrap_err().message(), "invalid unit \"kk\"");
    assert_eq!(si::parse("1.1.k").unwrap_err().message(), "invalid number \"1.\"");
    assert_eq!(si::parse("").unwrap_err().message(), "invalid number \"\"");
}

#[test]
fn format_parse_round_trip_never_overstates() {
    let samples: Vec<u64> = vec![
        0,
        1,
        999,
        1_000,
        1_234,
        999_999,
        123_456,
        1_048_576,
        98_765_432,
        1_000_000_007,
        987_654_321_987,
        18_446_744_073_709_551_615,
    ];
    for &v in &samples {
        let rendered = si::format(v);
        let parsed = si::parse(&rendered).unwrap();
        assert!(parsed <= v);
        // The shortfall stays below one unit of the third fraction digit.
        let mut gap: u64 = 1;
        let mut groups: u32 = 0;
        let mut x = v;
        while x >= 1000 {
            x /= 1000;
            groups += 1;
        }
        if groups > 0 {
            gap = 10u64.pow(3 * groups - 2);
        }
        assert!(v - parsed < gap);
    }
}

#[test]
fn whitespace_placement_is_ignored() {
    let expected = si::parse("12k").unwrap();
    assert_eq!(si::parse(" 12k ").unwrap(), expected);
    assert_eq!(si::parse("12 k").unwrap(), expected);
    assert_eq!(si::parse("\t12k\n").unwrap(), expected);
}
