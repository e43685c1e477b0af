use portscanner::ports::{parse_port, parse_ports, PortError};

#[test]
fn parse_ports_documented_example() {
    assert_eq!(
        parse_ports("22,80-85,443"),
        Ok(vec![22, 80, 81, 82, 83, 84, 85, 443])
    );
}

#[test]
fn parse_ports_readme_example() {
    let ports = parse_ports("22,80,443,8000-8100").unwrap();
    assert_eq!(ports.len(), 3 + 101);
    assert_eq!(&ports[..4], &[22, 80, 443, 8000]);
    assert_eq!(*ports.last().unwrap(), 8100);
}

#[test]
fn parse_ports_sorts_and_dedups() {
    assert_eq!(parse_ports("443,22,80-82,81,22"), Ok(vec![22, 80, 81, 82, 443]));
}

#[test]
fn parse_ports_trims_and_skips_empty_entries() {
    assert_eq!(parse_ports(" 80 , ,\t443,, "), Ok(vec![80, 443]));
}

#[test]
fn parse_ports_full_range_edges() {
    let all = parse_ports("0-65535").unwrap();
    assert_eq!(all.len(), 65536);
    assert_eq!(all[0], 0);
    assert_eq!(all[65535], 65535);
    assert_eq!(parse_ports("65535"), Ok(vec![65535]));
    assert_eq!(parse_ports("+7"), Ok(vec![7]));
}

#[test]
fn parse_ports_single_element_range() {
    assert_eq!(parse_ports("9-9"), Ok(vec![9]));
}

#[test]
fn parse_ports_invalid_value() {
    let e = parse_ports("22,abc").unwrap_err();
    assert_eq!(e, PortError::InvalidValue("abc".to_string()));
    assert_eq!(e.message(), "invalid port value: abc");
}

#[test]
fn parse_ports_range_ends_are_not_trimmed() {
    assert_eq!(
        parse_ports("80 - 90"),
        Err(PortError::InvalidValue("80 ".to_string()))
    );
}

#[test]
fn parse_ports_out_of_range() {
    let e = parse_ports("70000").unwrap_err();
    assert_eq!(e, PortError::OutOfRange("70000".to_string()));
    assert_eq!(e.message(), "port out of range (0-65535): 70000");
    assert_eq!(
        parse_ports("5--3"),
        Err(PortError::OutOfRange("-3".to_string()))
    );
}

#[test]
fn parse_ports_overflowing_integer_is_invalid() {
    assert_eq!(
        parse_ports("99999999999999999999"),
        Err(PortError::InvalidValue("99999999999999999999".to_string()))
    );
}

#[test]
fn parse_ports_leading_dash_is_invalid_value() {
    assert_eq!(parse_ports("-5"), Err(PortError::InvalidValue("".to_string())));
}

#[test]
fn parse_ports_invalid_range() {
    let e = parse_ports("10,90-80").unwrap_err();
    assert_eq!(e, PortError::InvalidRange("90-80".to_string()));
    assert_eq!(e.message(), "invalid range: 90-80");
}

#[test]
fn parse_ports_first_error_wins() {
    assert_eq!(
        parse_ports("x,70000"),
        Err(PortError::InvalidValue("x".to_string()))
    );
}

#[test]
fn parse_ports_no_ports() {
    let e = parse_ports(" , ,").unwrap_err();
    assert_eq!(e, PortError::NoPorts);
    assert_eq!(e.message(), "no valid ports found");
    assert_eq!(parse_ports(""), Err(PortError::NoPorts));
}

#[test]
fn parse_port_values() {
    assert_eq!(parse_port("0"), Ok(0));
    assert_eq!(parse_port("8080"), Ok(8080));
    assert_eq!(parse_port("-1"), Err(PortError::OutOfRange("-1".to_string())));
    assert_eq!(parse_port(" 1"), Err(PortError::InvalidValue(" 1".to_string())));
    assert_eq!(parse_port("1_000"), Err(PortError::InvalidValue("1_000".to_string())));
}

#[test]
fn port_text_roundtrip_on_values() {
    for p in [0u16, 7, 80, 443, 65535] {
        assert_eq!(parse_ports(&p.to_string()), Ok(vec![p]));
        assert_eq!(parse_port(&p.to_string()), Ok(p));
    }
}

#[test]
fn parse_ports_output_reads_back_the_same() {
    for input in ["22,80-85,443", "9-9,1,  3-5", "65535,0", "100-110,105-120"] {
        let first = parse_ports(input).unwrap();
        let written = first
            .iter()
            .map(|p| p.to_string())
            .collect::<Vec<_>>()
            .join(",");
        assert_eq!(parse_ports(&written), Ok(first));
    }
}

#[test]
fn ascending_list_is_fixed_by_its_ports() {
    assert_eq!(parse_ports("3,1,2"), parse_ports("2-3,1,1"));
}

#[test]
fn joined_lists_name_the_union() {
    let a = "443,20-22";
    let b = "21,80";
    let union = vec![20, 21, 22, 80, 443];
    assert_eq!(parse_ports(&format!("{},{}", a, b)), Ok(union.clone()));
    assert_eq!(parse_ports(&format!("{},{}", b, a)), Ok(union));
}

#[test]
fn white_space_matches_std() {
    for u in 0..=0x10FFFFu32 {
        if let Some(c) = char::from_u32(u) {
            assert_eq!(portscanner::text::is_white_space(c), c.is_whitespace(), "{:x}", u);
        }
    }
}
