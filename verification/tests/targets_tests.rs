use portscanner::cli::{expand_targets, Format, Opts, TargetError, MAX_TARGET_HOSTS};

#[test]
fn expand_plain_targets() {
    assert_eq!(
        expand_targets("192.0.2.1, example.com ,,", 1024),
        Ok(vec!["192.0.2.1".to_string(), "example.com".to_string()])
    );
}

#[test]
fn expand_cidr_v4() {
    assert_eq!(
        expand_targets("10.0.0.0/30", MAX_TARGET_HOSTS),
        Ok(vec!["10.0.0.1".to_string(), "10.0.0.2".to_string()])
    );
    assert_eq!(
        expand_targets("10.0.0.0/31,host", 8),
        Ok(vec!["10.0.0.0".to_string(), "10.0.0.1".to_string(), "host".to_string()])
    );
}

#[test]
fn expand_cidr_v6() {
    assert_eq!(
        expand_targets("fd00::/126", 16),
        Ok(vec![
            "fd00::".to_string(),
            "fd00::1".to_string(),
            "fd00::2".to_string(),
            "fd00::3".to_string()
        ])
    );
}

#[test]
fn expand_cidr_too_large() {
    let e = expand_targets("192.0.2.0/28", 4).unwrap_err();
    assert_eq!(e, TargetError::TooManyHosts(4));
    assert_eq!(e.message(), "CIDR expansion too large (> 4)");
}

#[test]
fn expand_limit_counts_earlier_targets() {
    assert_eq!(
        expand_targets("a,b,10.0.0.0/30", 3),
        Err(TargetError::TooManyHosts(3))
    );
    // every target counts against the limit, names too
    assert_eq!(expand_targets("a,b,c", 1), Err(TargetError::TooManyHosts(1)));
    assert_eq!(expand_targets("a", 0), Err(TargetError::TooManyHosts(0)));
    assert_eq!(
        expand_targets("a,b,c", 3),
        Ok(vec!["a".to_string(), "b".to_string(), "c".to_string()])
    );
    // the limit is inclusive
    assert_eq!(expand_targets("10.0.0.0/30", 2).unwrap().len(), 2);
}

#[test]
fn expand_huge_network_stops_early() {
    assert_eq!(
        expand_targets("::/0", 1024),
        Err(TargetError::TooManyHosts(1024))
    );
}

#[test]
fn expand_no_targets() {
    let e = expand_targets(" , ", 10).unwrap_err();
    assert_eq!(e, TargetError::NoTargets);
    assert_eq!(e.message(), "no targets provided");
}

#[test]
fn format_parse_is_case_insensitive() {
    assert_eq!("txt".parse::<Format>(), Ok(Format::Txt));
    assert_eq!("HTML".parse::<Format>(), Ok(Format::Html));
    assert_eq!(Format::parse("Zip"), Ok(Format::Zip));
}

#[test]
fn format_parse_unknown() {
    assert_eq!(Format::parse("PDF"), Err("unknown format: PDF".to_string()));
    assert_eq!(
        Format::from_lowered("pdf", "PDF"),
        Err("unknown format: PDF".to_string())
    );
    assert_eq!(Format::from_lowered("zip", "ZIP"), Ok(Format::Zip));
}

#[test]
fn format_from_form_choice() {
    assert_eq!(Format::from_form_choice("html"), Format::Html);
    assert_eq!(Format::from_form_choice("zip"), Format::Zip);
    assert_eq!(Format::from_form_choice("txt"), Format::Txt);
    assert_eq!(Format::from_form_choice("other"), Format::Txt);
}

#[test]
fn option_defaults() {
    let o = Opts::default();
    assert_eq!(o.targets, "127.0.0.1");
    assert_eq!(o.ports, "80,443");
    assert_eq!(o.timeout, 300);
    assert_eq!(o.concurrency, 200);
    assert_eq!(o.format, Format::Txt);
    assert!(!o.tui);
}

#[test]
fn no_targets_only_for_empty_lists() {
    assert_eq!(expand_targets("", 5), Err(TargetError::NoTargets));
    assert_eq!(expand_targets(" ,\t, ", 0), Err(TargetError::NoTargets));
    // a list with entries fails on the limit, not for want of targets
    assert_eq!(expand_targets("x", 0), Err(TargetError::TooManyHosts(0)));
    assert_eq!(expand_targets("10.0.0.0/32", 0), Err(TargetError::TooManyHosts(0)));
    assert_eq!(expand_targets("10.0.0.0/32", 1), Ok(vec!["10.0.0.0".to_string()]));
}

#[test]
fn results_stay_within_limit() {
    for max in 0..6usize {
        if let Ok(v) = expand_targets("a, 10.0.0.0/30, b", max) {
            assert!(v.len() <= max);
            assert_eq!(v, vec!["a", "10.0.0.1", "10.0.0.2", "b"]);
        } else {
            assert!(max < 4);
        }
    }
}

#[test]
fn format_parse_ascii_case() {
    assert_eq!(Format::parse("TxT"), Ok(Format::Txt));
    assert_eq!(Format::parse("ZIP"), Ok(Format::Zip));
    assert_eq!(Format::parse("txt "), Err("unknown format: txt ".to_string()));
}
