use portscanner::cli::Format;
use portscanner::report::{export_plan, make_html, make_html_at, make_txt, Export, ScanResults};

fn sample() -> ScanResults {
    let mut r = ScanResults::new();
    r.record("192.0.2.1".to_string(), vec![(22, true), (80, false)]);
    r.record("example.com".to_string(), vec![(443, true)]);
    r
}

#[test]
fn txt_report_exact() {
    assert_eq!(
        make_txt(&sample()),
        "Scan for: 192.0.2.1\n\nPort 22: open\nPort 80: closed\n\nScan for: example.com\n\nPort 443: open\n\n"
    );
}

#[test]
fn txt_report_empty() {
    assert_eq!(make_txt(&ScanResults::new()), "");
}

const HEAD: &str = "<!DOCTYPE html><html lang=\"en\"><head><meta charset=\"utf-8\"><meta name=\"viewport\" content=\"width=device-width,initial-scale=1\"><title>Portscan</title><style>body{font-family:Segoe UI,Arial,sans-serif;margin:20px}table{border-collapse:collapse;width:100%}th,td{padding:8px;border-bottom:1px solid #ddd}th{background:#0078d4;color:#fff}</style></head><body>";

#[test]
fn html_report_exact() {
    let mut r = ScanResults::new();
    r.record("h".to_string(), vec![(22, true), (23, false)]);
    let expected = format!(
        "{}<h2>Scan results for h</h2><table><thead><tr><th>Port</th><th>Status</th></tr></thead><tbody>\
<tr><td>22</td><td><span style=\"color:#008000;font-weight:bold\">Open</span></td></tr>\
<tr><td>23</td><td><span style=\"color:#c00;font-weight:bold\">Closed</span></td></tr>\
</tbody></table><footer>Generated at 2024-01-02 03:04:05</footer></body></html>",
        HEAD
    );
    assert_eq!(make_html_at(&r, "2024-01-02 03:04:05"), expected);
}

#[test]
fn html_report_has_time_stamp() {
    let html = make_html(&sample());
    assert!(html.starts_with(HEAD));
    let tail = "</footer></body></html>";
    assert!(html.ends_with(tail));
    let start = html.find("<footer>Generated at ").unwrap() + "<footer>Generated at ".len();
    let stamp = &html[start..html.len() - tail.len()];
    assert_eq!(stamp.len(), 19);
    assert_eq!(make_html_at(&sample(), stamp), html);
}

#[test]
fn record_replaces_and_keeps_order() {
    let mut r = sample();
    r.record("192.0.2.1".to_string(), vec![(8080, true)]);
    assert_eq!(r.len(), 2);
    assert_eq!(r.target(0), "192.0.2.1");
    assert_eq!(r.ports(0), &vec![(8080, true)]);
    assert_eq!(r.get("192.0.2.1"), Some(&vec![(8080, true)]));
    assert_eq!(r.get("example.com"), Some(&vec![(443, true)]));
    assert_eq!(r.get("nowhere"), None);
}

#[test]
fn export_plans() {
    let r = sample();
    match export_plan(&r, Format::Txt) {
        Export::File { path, contents } => {
            assert_eq!(path, "scan.txt");
            assert_eq!(contents, make_txt(&r));
        }
        other => panic!("unexpected plan {:?}", other),
    }
    match export_plan(&r, Format::Html) {
        Export::File { path, contents } => {
            assert_eq!(path, "scan.html");
            assert!(contents.starts_with(HEAD));
        }
        other => panic!("unexpected plan {:?}", other),
    }
    match export_plan(&r, Format::Zip) {
        Export::Archive { path, members } => {
            assert_eq!(path, "scan_export.zip");
            assert_eq!(members.len(), 2);
            assert_eq!(members[0].0, "scan.txt");
            assert_eq!(members[0].1, make_txt(&r));
            assert_eq!(members[1].0, "scan.html");
            assert!(members[1].1.contains("<h2>Scan results for example.com</h2>"));
        }
        other => panic!("unexpected plan {:?}", other),
    }
}

#[test]
fn record_then_lookup() {
    let mut r = ScanResults::new();
    r.record("a".to_string(), vec![(1, true)]);
    r.record("b".to_string(), vec![(2, false)]);
    r.record("a".to_string(), vec![(3, false)]);
    assert_eq!(r.get("a"), Some(&vec![(3, false)]));
    assert_eq!(r.get("b"), Some(&vec![(2, false)]));
    assert_eq!(r.len(), 2);
}

#[test]
fn reports_list_targets_in_the_same_order() {
    let mut r = ScanResults::new();
    for t in ["zeta", "alpha", "mid"] {
        r.record(t.to_string(), vec![(1, true)]);
    }
    let txt = make_txt(&r);
    let html = make_html_at(&r, "2000-01-01 00:00:00");
    let txt_order: Vec<usize> = ["zeta", "alpha", "mid"]
        .iter()
        .map(|t| txt.find(&format!("Scan for: {}\n", t)).unwrap())
        .collect();
    let html_order: Vec<usize> = ["zeta", "alpha", "mid"]
        .iter()
        .map(|t| html.find(&format!("<h2>Scan results for {}</h2>", t)).unwrap())
        .collect();
    assert!(txt_order.windows(2).all(|w| w[0] < w[1]));
    assert!(html_order.windows(2).all(|w| w[0] < w[1]));
}

#[test]
fn html_stamp_layout() {
    let html = make_html(&ScanResults::new());
    let start = html.find("<footer>Generated at ").unwrap() + "<footer>Generated at ".len();
    let stamp = &html[start..html.len() - "</footer></body></html>".len()];
    let b = stamp.as_bytes();
    assert_eq!(b[4], b'-');
    assert_eq!(b[7], b'-');
    assert_eq!(b[10], b' ');
    assert_eq!(b[13], b':');
    assert_eq!(b[16], b':');
}
