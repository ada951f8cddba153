use scuttlecast::report::parse_bytes;

/// The size in bytes. The library tells the number from its unit; the number may
/// have a fraction.
fn bytes(text: &str) -> Result<u64, String> {
    let size = parse_bytes(text).map_err(|suffix| format!("unknown size suffix {suffix:?}"))?;
    let value: f64 = size
        .number
        .parse()
        .map_err(|_| format!("{:?} is not a number", size.number))?;
    if !value.is_finite() || value < 0.0 {
        return Err(format!("{:?} is not a size", size.number));
    }

    Ok((value * size.scale as f64) as u64)
}

#[test]
fn parses_plain_and_suffixed_sizes() {
    assert_eq!(bytes("512"), Ok(512));
    assert_eq!(bytes("4G"), Ok(4 << 30));
    assert_eq!(bytes("512MiB"), Ok(512 << 20));
    assert_eq!(bytes(" 1.5 gb "), Ok(1024 * 1024 * 1024 * 3 / 2));
}

#[test]
fn refuses_nonsense_sizes() {
    assert!(bytes("12x").is_err());
    assert!(bytes("-1").is_err());
    assert!(bytes("").is_err());
}

#[test]
fn tells_the_number_from_its_unit() {
    let size = parse_bytes("\u{a0}2.25 KiB\n").expect("a size");

    assert_eq!(size.number, "2.25");
    assert_eq!(size.scale, 1 << 10);
    assert_eq!(parse_bytes("7B").expect("a size").scale, 1);
    assert_eq!(parse_bytes("7tb").expect("a size").scale, 1 << 40);
}

#[test]
fn names_the_unit_it_does_not_know() {
    assert_eq!(parse_bytes("12 XiB").err(), Some("xib".to_string()));
}
