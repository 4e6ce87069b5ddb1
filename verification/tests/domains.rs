use bity::{bit, bps, byte, byteps, packet, pps};

#[test]
fn bit_parse() {
    assert_eq!(bit::parse("12b").unwrap(), 12);
    assert_eq!(bit::parse("12B").unwrap(), 96);
    assert_eq!(bit::parse("12kb").unwrap(), 12_000);
    assert_eq!(bit::parse("12.345kb").unwrap(), 12_345);
    assert_eq!(bit::parse("0.12kb").unwrap(), 120);
}

#[test]
fn bit_format() {
    assert_eq!(bit::format(0), "0b");
    assert_eq!(bit::format(1), "1b");
    assert_eq!(bit::format(12), "12b");
    assert_eq!(bit::format(1_234), "1.23kb");
    assert_eq!(bit::format(12_000), "12kb");
}

#[test]
fn bps_parse() {
    assert_eq!(bps::parse("12b/s").unwrap(), 12);
    assert_eq!(bps::parse("12bps").unwrap(), 12);
    assert_eq!(bps::parse("12.345kb/s").unwrap(), 12_345);
    assert_eq!(bps::parse("12.345kbps").unwrap(), 12_345);

    assert_eq!(bps::parse("12b").unwrap(), 12);
    assert_eq!(bps::parse("12").unwrap(), 12);
}

#[test]
fn bps_format() {
    assert_eq!(bps::format(123), "123b/s");
    assert_eq!(bps::format(1_234), "1.23kb/s");
    assert_eq!(bps::format(12_000), "12kb/s");
}

#[test]
fn byte_parse() {
    assert_eq!(byte::parse("5b").unwrap(), 0);
    assert_eq!(byte::parse("12b").unwrap(), 1);
    assert_eq!(byte::parse("80b").unwrap(), 10);
    assert_eq!(byte::parse("12.345kb").unwrap(), 12_345 / 8);
    assert_eq!(byte::parse("12.345kB").unwrap(), 12_345);
}

#[test]
fn byte_format() {
    assert_eq!(byte::format(0), "0B");
    assert_eq!(byte::format(1), "1B");
    assert_eq!(byte::format(12), "12B");
    assert_eq!(byte::format(1_234), "1.23kB");
    assert_eq!(byte::format(12_000), "12kB");
}

#[test]
fn byteps_parse() {
    assert_eq!(byteps::parse("12B/s").unwrap(), 12);
    assert_eq!(byteps::parse("12Bps").unwrap(), 12);
    assert_eq!(byteps::parse("12.345kB/s").unwrap(), 12_345);
    assert_eq!(byteps::parse("12.345kBps").unwrap(), 12_345);

    assert_eq!(byteps::parse("12ps").unwrap(), 12);
    assert_eq!(byteps::parse("12B").unwrap(), 12);
    assert_eq!(byteps::parse("12").unwrap(), 12);
}

#[test]
fn byteps_format() {
    assert_eq!(byteps::format(123), "123B/s");
    assert_eq!(byteps::format(1_234), "1.23kB/s");
    assert_eq!(byteps::format(12_000), "12kB/s");
}

#[test]
fn packet_parse() {
    assert_eq!(packet::parse("12p").unwrap(), 12);
    assert_eq!(packet::parse("12.345kp").unwrap(), 12_345);
    assert_eq!(packet::parse("12").unwrap(), 12);
}

#[test]
fn packet_format() {
    assert_eq!(packet::format(123), "123p");
    assert_eq!(packet::format(1_234), "1.23kp");
    assert_eq!(packet::format(12_000), "12kp");
}

#[test]
fn pps_parse() {
    assert_eq!(pps::parse("12p/s").unwrap(), 12);
    assert_eq!(pps::parse("12pps").unwrap(), 12);
    assert_eq!(pps::parse("12.345kp/s").unwrap(), 12_345);
    assert_eq!(pps::parse("12.345kpps").unwrap(), 12_345);

    assert_eq!(pps::parse("12ps").unwrap(), 12);
    assert_eq!(pps::parse("12p").unwrap(), 12);
    assert_eq!(pps::parse("12").unwrap(), 12);
}

#[test]
fn pps_format() {
    assert_eq!(pps::format(123), "123p/s");
    assert_eq!(pps::format(1_234), "1.23kp/s");
    assert_eq!(pps::format(12_000), "12kp/s");
}

#[test]
fn end_to_end() {
    assert_eq!(bit::parse("12.345kB").unwrap(), 98_760);
    assert_eq!(byte::parse("12.345kB").unwrap(), 12_345);
    assert_eq!(bps::parse("12.345kbps").unwrap(), 12_345);
    assert_eq!(packet::parse("12.345kp").unwrap(), 12_345);
    assert_eq!(pps::format(1_234), "1.23kp/s");
}

#[test]
fn domain_errors_carry_substrings() {
    assert!(matches!(bit::parse("12x"), Err(bity::Error::InvalidUnit("x"))));
    assert!(matches!(byte::parse("12kq"), Err(bity::Error::InvalidUnit("kq"))));
    assert!(matches!(pps::parse("k/s"), Err(bity::Error::ParseIntError("", None))));
    assert!(matches!(packet::parse("12P"), Ok(12_000_000_000_000_000)));
    assert!(matches!(packet::parse("12pp"), Err(bity::Error::InvalidUnit("pp"))));
}
