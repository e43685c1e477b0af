use portscanner::scan::{effective_concurrency, port_status_message, scan_start_message, sort_by_port};
use portscanner::text::decimal;

#[test]
fn concurrency_at_least_one() {
    assert_eq!(effective_concurrency(0), 1);
    assert_eq!(effective_concurrency(1), 1);
    assert_eq!(effective_concurrency(200), 200);
}

#[test]
fn progress_messages() {
    assert_eq!(scan_start_message(3, "example.com"), "🔍 Scanning 3 ports on example.com");
    assert_eq!(port_status_message(22, true), "Port 22 open");
    assert_eq!(port_status_message(0, false), "Port 0 closed");
}

#[test]
fn sort_is_stable_by_port() {
    let v = vec![(443, true), (22, false), (80, true), (22, true), (443, false)];
    assert_eq!(
        sort_by_port(v),
        vec![(22, false), (22, true), (80, true), (443, true), (443, false)]
    );
    assert_eq!(sort_by_port(vec![]), vec![]);
}

#[test]
fn decimal_text() {
    assert_eq!(decimal(0), "0");
    assert_eq!(decimal(65535), "65535");
    assert_eq!(decimal(u64::MAX), u64::MAX.to_string());
}

#[test]
fn completion_order_does_not_show() {
    let a = vec![(80, true), (22, false), (443, true), (8080, false)];
    let b = vec![(443, true), (8080, false), (80, true), (22, false)];
    assert_eq!(sort_by_port(a), sort_by_port(b));
}
