//! Scan results and the reports made of them: plain text and HTML.

use vstd::prelude::*;
use vstd::string::*;
use crate::cli::Format;
use crate::ports::{all_ascii_digits, digits_value, is_ascii_digit};
use crate::text::{decimal, decimal_text, text_eq};

verus! {

broadcast use vstd::string::group_string_axioms;

/// The results of a scan: for each target, the ports probed and whether
/// each was open. No target appears twice; targets keep the order in which
/// they were first recorded.
#[derive(Debug, PartialEq, Eq)]
pub struct ScanResults {
    entries: Vec<(String, Vec<(u16, bool)>)>,
}

/// A target's text with its port outcomes.
pub open spec fn entry_view(e: (String, Vec<(u16, bool)>)) -> (Seq<char>, Seq<(u16, bool)>) {
    (e.0@, e.1@)
}

/// Whether no target occurs twice.
pub open spec fn distinct_targets(es: Seq<(Seq<char>, Seq<(u16, bool)>)>) -> bool {
    forall|i: int, j: int| 0 <= i < j < es.len() ==> es[i].0 != es[j].0
}

/// The results after recording `ports` for `target`: the entry of that
/// target is replaced where there is one, else a new entry is appended.
pub open spec fn spec_record(
    es: Seq<(Seq<char>, Seq<(u16, bool)>)>,
    target: Seq<char>,
    ports: Seq<(u16, bool)>,
) -> Seq<(Seq<char>, Seq<(u16, bool)>)> {
    if exists|i: int| 0 <= i < es.len() && es[i].0 == target {
        let i = choose|i: int| 0 <= i < es.len() && es[i].0 == target;
        es.update(i, (target, ports))
    } else {
        es.push((target, ports))
    }
}

impl View for ScanResults {
    type V = Seq<(Seq<char>, Seq<(u16, bool)>)>;

    closed spec fn view(&self) -> Self::V {
        self.entries@.map_values(|e: (String, Vec<(u16, bool)>)| entry_view(e))
    }
}

impl ScanResults {
    #[verifier::type_invariant]
    closed spec fn targets_distinct(&self) -> bool {
        distinct_targets(self@)
    }

    /// Results with no target.
    pub fn new() -> (r: ScanResults)
        ensures
            r@ == Seq::<(Seq<char>, Seq<(u16, bool)>)>::empty(),
    {
        let r = ScanResults { entries: Vec::new() };
        assert(r@ =~= Seq::<(Seq<char>, Seq<(u16, bool)>)>::empty());
        r
    }

    /// How many targets have results.
    pub fn len(&self) -> (n: usize)
        ensures
            n == self@.len(),
    {
        self.entries.len()
    }

    /// The target of the `i`-th entry.
    pub fn target(&self, i: usize) -> (t: &String)
        requires
            i < self@.len(),
        ensures
            t@ == self@[i as int].0,
    {
        &self.entries[i].0
    }

    /// The port outcomes of the `i`-th entry.
    pub fn ports(&self, i: usize) -> (p: &Vec<(u16, bool)>)
        requires
            i < self@.len(),
        ensures
            p@ == self@[i as int].1,
    {
        &self.entries[i].1
    }

    /// Records the outcomes of scanning `target`, replacing those recorded
    /// before for the same target.
    pub fn record(&mut self, target: String, ports: Vec<(u16, bool)>)
        ensures
            final(self)@ == spec_record(old(self)@, target@, ports@),
            distinct_targets(final(self)@),
    {
        proof {
            use_type_invariant(&*self);
        }
        let ghost es = self@;
        let n = self.entries.len();
        let mut i: usize = 0;
        while i < n
            invariant
                n == self.entries@.len(),
                es == self@,
                es == old(self)@,
                distinct_targets(es),
                i <= n,
                forall|k: int| 0 <= k < i ==> es[k].0 != target@,
            decreases n - i,
        {
            if self.entries[i].0 == target {
                proof {
                    assert(es[i as int].0 == target@);
                    assert(exists|k: int| 0 <= k < es.len() && es[k].0 == target@);
                    let c = choose|k: int| 0 <= k < es.len() && es[k].0 == target@;
                    assert(c == i) by {
                        if c != i {
                            if c > i {
                                assert(es[i as int].0 == es[c].0);
                            }
                        }
                    }
                }
                let mut entries: Vec<(String, Vec<(u16, bool)>)> = Vec::new();
                std::mem::swap(&mut entries, &mut self.entries);
                entries.set(i, (target, ports));
                proof {
                    let v = entries@.map_values(|e: (String, Vec<(u16, bool)>)| entry_view(e));
                    assert(v =~= es.update(i as int, (target@, ports@)));
                    assert(distinct_targets(v));
                }
                let r = ScanResults { entries };
                assert(r@ =~= es.update(i as int, (target@, ports@)));
                *self = r;
                return;
            }
            i = i + 1;
        }
        let mut entries: Vec<(String, Vec<(u16, bool)>)> = Vec::new();
        std::mem::swap(&mut entries, &mut self.entries);
        entries.push((target, ports));
        proof {
            let v = entries@.map_values(|e: (String, Vec<(u16, bool)>)| entry_view(e));
            assert(v =~= es.push((target@, ports@)));
            assert(distinct_targets(v));
        }
        let r = ScanResults { entries };
        *self = r;
    }
}


/// The outcomes recorded for `target`, if any.
pub open spec fn lookup(es: Seq<(Seq<char>, Seq<(u16, bool)>)>, target: Seq<char>) -> Option<
    Seq<(u16, bool)>,
> {
    if exists|i: int| 0 <= i < es.len() && es[i].0 == target {
        let i = choose|i: int| 0 <= i < es.len() && es[i].0 == target;
        Some(es[i].1)
    } else {
        None
    }
}

/// Recording outcomes for a target makes them the ones found for it, leaves
/// those of every other target as they were, and keeps targets distinct.
pub proof fn lemma_record_then_lookup(
    es: Seq<(Seq<char>, Seq<(u16, bool)>)>,
    target: Seq<char>,
    ports: Seq<(u16, bool)>,
    other: Seq<char>,
)
    requires
        distinct_targets(es),
    ensures
        distinct_targets(spec_record(es, target, ports)),
        lookup(spec_record(es, target, ports), target) == Some(ports),
        other != target ==> lookup(spec_record(es, target, ports), other) == lookup(es, other),
{
    let r = spec_record(es, target, ports);
    if exists|i: int| 0 <= i < es.len() && es[i].0 == target {
        let i = choose|i: int| 0 <= i < es.len() && es[i].0 == target;
        assert(r == es.update(i, (target, ports)));
        assert(r[i].0 == target);
        let c = choose|k: int| 0 <= k < r.len() && r[k].0 == target;
        assert(c == i) by {
            if c != i {
                assert(es[c].0 == target);
                assert(es[c].0 == es[i].0);
            }
        }
        if other != target {
            if exists|k: int| 0 <= k < es.len() && es[k].0 == other {
                let k = choose|k: int| 0 <= k < es.len() && es[k].0 == other;
                assert(k != i);
                assert(r[k].0 == other);
                let d = choose|k2: int| 0 <= k2 < r.len() && r[k2].0 == other;
                assert(d == k) by {
                    if d != k {
                        assert(d != i);
                        assert(es[d].0 == other);
                        assert(es[d].0 == es[k].0);
                    }
                }
            } else {
                assert(!exists|k: int| 0 <= k < r.len() && r[k].0 == other) by {
                    if exists|k: int| 0 <= k < r.len() && r[k].0 == other {
                        let k = choose|k: int| 0 <= k < r.len() && r[k].0 == other;
                        assert(k != i);
                        assert(es[k].0 == other);
                    }
                }
            }
        }
    } else {
        assert(r == es.push((target, ports)));
        let n = es.len() as int;
        assert(r[n].0 == target);
        let c = choose|k: int| 0 <= k < r.len() && r[k].0 == target;
        assert(c == n) by {
            if c != n {
                assert(es[c].0 == target);
            }
        }
        if other != target {
            if exists|k: int| 0 <= k < es.len() && es[k].0 == other {
                let k = choose|k: int| 0 <= k < es.len() && es[k].0 == other;
                assert(r[k].0 == other);
                let d = choose|k2: int| 0 <= k2 < r.len() && r[k2].0 == other;
                assert(d == k) by {
                    if d != k {
                        assert(d != n);
                        assert(es[d].0 == es[k].0);
                    }
                }
            } else {
                assert(!exists|k: int| 0 <= k < r.len() && r[k].0 == other) by {
                    if exists|k: int| 0 <= k < r.len() && r[k].0 == other {
                        let k = choose|k: int| 0 <= k < r.len() && r[k].0 == other;
                        assert(k != n);
                        assert(es[k].0 == other);
                    }
                }
            }
        }
    }
}

impl ScanResults {
    /// The outcomes recorded for `target`, if any.
    pub fn get(&self, target: &str) -> (r: Option<&Vec<(u16, bool)>>)
        ensures
            match r {
                Some(p) => lookup(self@, target@) == Some(p@),
                None => lookup(self@, target@) is None,
            },
    {
        proof {
            use_type_invariant(self);
        }
        let n = self.entries.len();
        let mut i: usize = 0;
        while i < n
            invariant
                n == self@.len(),
                distinct_targets(self@),
                i <= n,
                forall|k: int| 0 <= k < i ==> self@[k].0 != target@,
            decreases n - i,
        {
            if text_eq(self.entries[i].0.as_str(), target) {
                proof {
                    assert(self@[i as int].0 == target@);
                    let c = choose|k: int| 0 <= k < self@.len() && self@[k].0 == target@;
                    assert(c == i) by {
                        if c != i {
                            assert(self@[c].0 == self@[i as int].0);
                        }
                    }
                }
                return Some(&self.entries[i].1);
            }
            i = i + 1;
        }
        None
    }
}

/// The text line of one port: `Port 22: open`.
pub open spec fn txt_port_line(port: u16, open: bool) -> Seq<char> {
    "Port "@ + decimal_text(port as nat) + ": "@ + (if open {
        "open"@
    } else {
        "closed"@
    }) + "\n"@
}

/// The text lines of a target's ports, in their order.
pub open spec fn txt_port_lines(ports: Seq<(u16, bool)>) -> Seq<char>
    decreases ports.len(),
{
    if ports.len() == 0 {
        seq![]
    } else {
        txt_port_lines(ports.drop_last()) + txt_port_line(ports.last().0, ports.last().1)
    }
}

/// The text section of one target: a heading, a blank line, its port lines
/// and a closing blank line.
pub open spec fn txt_section(target: Seq<char>, ports: Seq<(u16, bool)>) -> Seq<char> {
    "Scan for: "@ + target + "\n\n"@ + txt_port_lines(ports) + "\n"@
}

/// The text report: the sections of the targets in order.
pub open spec fn txt_report(es: Seq<(Seq<char>, Seq<(u16, bool)>)>) -> Seq<char>
    decreases es.len(),
{
    if es.len() == 0 {
        seq![]
    } else {
        txt_report(es.drop_last()) + txt_section(es.last().0, es.last().1)
    }
}

/// Appends the text line of one port.
fn append_txt_port_line(out: &mut String, port: u16, open: bool)
    ensures
        final(out)@ == old(out)@ + txt_port_line(port, open),
{
    out.append("Port ");
    let d = decimal(port as u64);
    out.append(d.as_str());
    out.append(": ");
    if open {
        out.append("open");
    } else {
        out.append("closed");
    }
    out.append("\n");
    assert(final(out)@ =~= old(out)@ + txt_port_line(port, open));
}

/// Formats scan results as plain text: for each target a `Scan for:`
/// heading followed by one `Port <n>: open|closed` line per port.
pub fn make_txt(results: &ScanResults) -> (out: String)
    ensures
        out@ == txt_report(results@),
{
    let mut out = String::new();
    let n = results.len();
    let mut i: usize = 0;
    assert(results@.take(0) =~= Seq::<(Seq<char>, Seq<(u16, bool)>)>::empty());
    while i < n
        invariant
            n == results@.len(),
            i <= n,
            out@ == txt_report(results@.take(i as int)),
        decreases n - i,
    {
        let target = results.target(i);
        let ports = results.ports(i);
        let ghost start = out@;
        out.append("Scan for: ");
        out.append(target.as_str());
        out.append("\n\n");
        let m = ports.len();
        let mut k: usize = 0;
        assert(ports@.take(0) =~= Seq::<(u16, bool)>::empty());
        while k < m
            invariant
                m == ports@.len(),
                k <= m,
                out@ == start + "Scan for: "@ + target@ + "\n\n"@ + txt_port_lines(ports@.take(k as int)),
            decreases m - k,
        {
            let (port, open) = ports[k];
            append_txt_port_line(&mut out, port, open);
            assert(ports@.take(k + 1).drop_last() =~= ports@.take(k as int));
            k = k + 1;
        }
        out.append("\n");
        proof {
            assert(ports@.take(m as int) =~= ports@);
            assert(results@.take(i + 1).drop_last() =~= results@.take(i as int));
            assert(out@ =~= txt_report(results@.take(i + 1)));
        }
        i = i + 1;
    }
    assert(results@.take(n as int) =~= results@);
    out
}


/// The texts joined in order.
pub open spec fn concat_texts(ts: Seq<Seq<char>>) -> Seq<char>
    decreases ts.len(),
{
    if ts.len() == 0 {
        seq![]
    } else {
        concat_texts(ts.drop_last()) + ts.last()
    }
}

/// The text sections of the targets, one per target, in order.
pub open spec fn txt_section_list(es: Seq<(Seq<char>, Seq<(u16, bool)>)>) -> Seq<Seq<char>> {
    es.map_values(|e: (Seq<char>, Seq<(u16, bool)>)| txt_section(e.0, e.1))
}

/// The HTML sections of the targets, one per target, in order.
pub open spec fn html_section_list(es: Seq<(Seq<char>, Seq<(u16, bool)>)>) -> Seq<Seq<char>> {
    es.map_values(|e: (Seq<char>, Seq<(u16, bool)>)| html_section(e.0, e.1))
}

/// The text report and the HTML report are made of one section per target,
/// the `i`-th section of each being about the `i`-th target: both list the
/// targets in the same order, the order of the results.
pub proof fn lemma_reports_same_order(es: Seq<(Seq<char>, Seq<(u16, bool)>)>)
    ensures
        txt_report(es) == concat_texts(txt_section_list(es)),
        html_sections(es) == concat_texts(html_section_list(es)),
        txt_section_list(es).len() == es.len(),
        html_section_list(es).len() == es.len(),
        forall|i: int|
            0 <= i < es.len() ==> #[trigger] txt_section_list(es)[i] == txt_section(es[i].0, es[i].1)
                && html_section_list(es)[i] == html_section(es[i].0, es[i].1),
    decreases es.len(),
{
    if es.len() > 0 {
        lemma_reports_same_order(es.drop_last());
        assert(txt_section_list(es).drop_last() =~= txt_section_list(es.drop_last()));
        assert(html_section_list(es).drop_last() =~= html_section_list(es.drop_last()));
    } else {
        assert(txt_section_list(es) =~= Seq::<Seq<char>>::empty());
        assert(html_section_list(es) =~= Seq::<Seq<char>>::empty());
    }
}

proof fn lemma_concat_new_step(n: nat, f: spec_fn(int) -> Seq<char>)
    requires
        n > 0,
    ensures
        concat_texts(Seq::new(n, f)) == concat_texts(Seq::new((n - 1) as nat, f)) + f(n - 1),
{
    assert(Seq::new(n, f).drop_last() =~= Seq::new((n - 1) as nat, f));
}

proof fn lemma_txt_lines_explicit(ps: Seq<(u16, bool)>)
    ensures
        txt_port_lines(ps) == concat_texts(
            Seq::new(
                ps.len(),
                |k: int|
                    "Port "@ + decimal_text(ps[k].0 as nat) + ": "@ + (if ps[k].1 {
                        "open"@
                    } else {
                        "closed"@
                    }) + "\n"@,
            ),
        ),
    decreases ps.len(),
{
    let f = |k: int|
        "Port "@ + decimal_text(ps[k].0 as nat) + ": "@ + (if ps[k].1 {
            "open"@
        } else {
            "closed"@
        }) + "\n"@;
    if ps.len() == 0 {
        assert(Seq::new(0, f) =~= Seq::<Seq<char>>::empty());
    } else {
        let d = ps.drop_last();
        lemma_txt_lines_explicit(d);
        let g = |k: int|
            "Port "@ + decimal_text(d[k].0 as nat) + ": "@ + (if d[k].1 {
                "open"@
            } else {
                "closed"@
            }) + "\n"@;
        assert(Seq::new(d.len(), g) =~= Seq::new(d.len(), f));
        lemma_concat_new_step(ps.len(), f);
        assert(ps.last() == ps[ps.len() - 1]);
    }
}

/// The text report holds, for each target in order, its heading and then,
/// for each recorded outcome `(p, o)` in order, the line `Port p: open` when
/// `o` holds and `Port p: closed` when it does not.
pub proof fn lemma_txt_report_lines(es: Seq<(Seq<char>, Seq<(u16, bool)>)>)
    ensures
        txt_report(es) == concat_texts(
            Seq::new(
                es.len(),
                |i: int|
                    "Scan for: "@ + es[i].0 + "\n\n"@ + concat_texts(
                        Seq::new(
                            es[i].1.len(),
                            |k: int|
                                "Port "@ + decimal_text(es[i].1[k].0 as nat) + ": "@ + (if es[i].1[k].1 {
                                    "open"@
                                } else {
                                    "closed"@
                                }) + "\n"@,
                        ),
                    ) + "\n"@,
            ),
        ),
    decreases es.len(),
{
    let f = |i: int|
        "Scan for: "@ + es[i].0 + "\n\n"@ + concat_texts(
            Seq::new(
                es[i].1.len(),
                |k: int|
                    "Port "@ + decimal_text(es[i].1[k].0 as nat) + ": "@ + (if es[i].1[k].1 {
                        "open"@
                    } else {
                        "closed"@
                    }) + "\n"@,
            ),
        ) + "\n"@;
    if es.len() == 0 {
        assert(Seq::new(0, f) =~= Seq::<Seq<char>>::empty());
    } else {
        let d = es.drop_last();
        lemma_txt_report_lines(d);
        let g = |i: int|
            "Scan for: "@ + d[i].0 + "\n\n"@ + concat_texts(
                Seq::new(
                    d[i].1.len(),
                    |k: int|
                        "Port "@ + decimal_text(d[i].1[k].0 as nat) + ": "@ + (if d[i].1[k].1 {
                            "open"@
                        } else {
                            "closed"@
                        }) + "\n"@,
                ),
            ) + "\n"@;
        assert(Seq::new(d.len(), g) =~= Seq::new(d.len(), f)) by {
            assert forall|i: int| 0 <= i < d.len() implies #[trigger] g(i) == f(i) by {
                assert(d[i] == es[i]);
            }
        }
        lemma_concat_new_step(es.len(), f);
        let n = es.len() - 1;
        lemma_txt_lines_explicit(es[n].1);
        assert(es.last() == es[n]);
    }
}

proof fn lemma_html_rows_explicit(ps: Seq<(u16, bool)>)
    ensures
        html_port_rows(ps) == concat_texts(
            Seq::new(
                ps.len(),
                |k: int|
                    "<tr><td>"@ + decimal_text(ps[k].0 as nat) + "</td><td>"@ + (if ps[k].1 {
                        "<span style=\"color:#008000;font-weight:bold\">Open</span>"@
                    } else {
                        "<span style=\"color:#c00;font-weight:bold\">Closed</span>"@
                    }) + "</td></tr>"@,
            ),
        ),
    decreases ps.len(),
{
    let f = |k: int|
        "<tr><td>"@ + decimal_text(ps[k].0 as nat) + "</td><td>"@ + (if ps[k].1 {
            "<span style=\"color:#008000;font-weight:bold\">Open</span>"@
        } else {
            "<span style=\"color:#c00;font-weight:bold\">Closed</span>"@
        }) + "</td></tr>"@;
    if ps.len() == 0 {
        assert(Seq::new(0, f) =~= Seq::<Seq<char>>::empty());
    } else {
        let d = ps.drop_last();
        lemma_html_rows_explicit(d);
        let g = |k: int|
            "<tr><td>"@ + decimal_text(d[k].0 as nat) + "</td><td>"@ + (if d[k].1 {
                "<span style=\"color:#008000;font-weight:bold\">Open</span>"@
            } else {
                "<span style=\"color:#c00;font-weight:bold\">Closed</span>"@
            }) + "</td></tr>"@;
        assert(Seq::new(d.len(), g) =~= Seq::new(d.len(), f));
        lemma_concat_new_step(ps.len(), f);
        assert(ps.last() == ps[ps.len() - 1]);
    }
}

/// The HTML report is the page head, then for each target in order its
/// heading and a table with one row per recorded outcome `(p, o)`, in order,
/// whose status cell is the green `Open` span when `o` holds and the red
/// `Closed` span when it does not, then the footer with the time stamp.
pub proof fn lemma_html_report_rows(es: Seq<(Seq<char>, Seq<(u16, bool)>)>, stamp: Seq<char>)
    ensures
        html_report(es, stamp) == "<!DOCTYPE html><html lang=\"en\"><head><meta charset=\"utf-8\"><meta name=\"viewport\" content=\"width=device-width,initial-scale=1\"><title>Portscan</title><style>body{font-family:Segoe UI,Arial,sans-serif;margin:20px}table{border-collapse:collapse;width:100%}th,td{padding:8px;border-bottom:1px solid #ddd}th{background:#0078d4;color:#fff}</style></head><body>"@ + concat_texts(
            Seq::new(
                es.len(),
                |i: int|
                    "<h2>Scan results for "@ + es[i].0 + "</h2>"@ + "<table><thead><tr><th>Port</th><th>Status</th></tr></thead><tbody>"@ + concat_texts(
                        Seq::new(
                            es[i].1.len(),
                            |k: int|
                                "<tr><td>"@ + decimal_text(es[i].1[k].0 as nat) + "</td><td>"@ + (if es[i].1[k].1 {
                                    "<span style=\"color:#008000;font-weight:bold\">Open</span>"@
                                } else {
                                    "<span style=\"color:#c00;font-weight:bold\">Closed</span>"@
                                }) + "</td></tr>"@,
                        ),
                    ) + "</tbody></table>"@,
            ),
        ) + "<footer>Generated at "@ + stamp + "</footer></body></html>"@,
{
    lemma_html_sections_explicit(es);
}

proof fn lemma_html_sections_explicit(es: Seq<(Seq<char>, Seq<(u16, bool)>)>)
    ensures
        html_sections(es) == concat_texts(
            Seq::new(
                es.len(),
                |i: int|
                    "<h2>Scan results for "@ + es[i].0 + "</h2>"@ + "<table><thead><tr><th>Port</th><th>Status</th></tr></thead><tbody>"@ + concat_texts(
                        Seq::new(
                            es[i].1.len(),
                            |k: int|
                                "<tr><td>"@ + decimal_text(es[i].1[k].0 as nat) + "</td><td>"@ + (if es[i].1[k].1 {
                                    "<span style=\"color:#008000;font-weight:bold\">Open</span>"@
                                } else {
                                    "<span style=\"color:#c00;font-weight:bold\">Closed</span>"@
                                }) + "</td></tr>"@,
                        ),
                    ) + "</tbody></table>"@,
            ),
        ),
    decreases es.len(),
{
    let f = |i: int|
        "<h2>Scan results for "@ + es[i].0 + "</h2>"@ + "<table><thead><tr><th>Port</th><th>Status</th></tr></thead><tbody>"@ + concat_texts(
            Seq::new(
                es[i].1.len(),
                |k: int|
                    "<tr><td>"@ + decimal_text(es[i].1[k].0 as nat) + "</td><td>"@ + (if es[i].1[k].1 {
                        "<span style=\"color:#008000;font-weight:bold\">Open</span>"@
                    } else {
                        "<span style=\"color:#c00;font-weight:bold\">Closed</span>"@
                    }) + "</td></tr>"@,
            ),
        ) + "</tbody></table>"@;
    if es.len() == 0 {
        assert(Seq::new(0, f) =~= Seq::<Seq<char>>::empty());
    } else {
        let d = es.drop_last();
        lemma_html_sections_explicit(d);
        let g = |i: int|
            "<h2>Scan results for "@ + d[i].0 + "</h2>"@ + "<table><thead><tr><th>Port</th><th>Status</th></tr></thead><tbody>"@ + concat_texts(
                Seq::new(
                    d[i].1.len(),
                    |k: int|
                        "<tr><td>"@ + decimal_text(d[i].1[k].0 as nat) + "</td><td>"@ + (if d[i].1[k].1 {
                            "<span style=\"color:#008000;font-weight:bold\">Open</span>"@
                        } else {
                            "<span style=\"color:#c00;font-weight:bold\">Closed</span>"@
                        }) + "</td></tr>"@,
                ),
            ) + "</tbody></table>"@;
        assert(Seq::new(d.len(), g) =~= Seq::new(d.len(), f)) by {
            assert forall|i: int| 0 <= i < d.len() implies #[trigger] g(i) == f(i) by {
                assert(d[i] == es[i]);
            }
        }
        lemma_concat_new_step(es.len(), f);
        let n = es.len() - 1;
        lemma_html_rows_explicit(es[n].1);
        assert(es.last() == es[n]);
    }
}

/// The start of the HTML report: the document head with its style sheet.
pub open spec fn html_head() -> Seq<char> {
    "<!DOCTYPE html><html lang=\"en\"><head><meta charset=\"utf-8\"><meta name=\"viewport\" content=\"width=device-width,initial-scale=1\"><title>Portscan</title><style>body{font-family:Segoe UI,Arial,sans-serif;margin:20px}table{border-collapse:collapse;width:100%}th,td{padding:8px;border-bottom:1px solid #ddd}th{background:#0078d4;color:#fff}</style></head><body>"@
}

/// The status cell of a port.
pub open spec fn html_status(open: bool) -> Seq<char> {
    if open {
        "<span style=\"color:#008000;font-weight:bold\">Open</span>"@
    } else {
        "<span style=\"color:#c00;font-weight:bold\">Closed</span>"@
    }
}

/// The table row of one port.
pub open spec fn html_port_row(port: u16, open: bool) -> Seq<char> {
    "<tr><td>"@ + decimal_text(port as nat) + "</td><td>"@ + html_status(open) + "</td></tr>"@
}

/// The table rows of a target's ports, in their order.
pub open spec fn html_port_rows(ports: Seq<(u16, bool)>) -> Seq<char>
    decreases ports.len(),
{
    if ports.len() == 0 {
        seq![]
    } else {
        html_port_rows(ports.drop_last()) + html_port_row(ports.last().0, ports.last().1)
    }
}

/// The HTML section of one target: a heading and a table of its ports.
pub open spec fn html_section(target: Seq<char>, ports: Seq<(u16, bool)>) -> Seq<char> {
    "<h2>Scan results for "@ + target + "</h2>"@ + "<table><thead><tr><th>Port</th><th>Status</th></tr></thead><tbody>"@ + html_port_rows(ports)
        + "</tbody></table>"@
}

/// The sections of the targets in order.
pub open spec fn html_sections(es: Seq<(Seq<char>, Seq<(u16, bool)>)>) -> Seq<char>
    decreases es.len(),
{
    if es.len() == 0 {
        seq![]
    } else {
        html_sections(es.drop_last()) + html_section(es.last().0, es.last().1)
    }
}

/// The HTML report, with a footer that gives the time `generated_at`.
pub open spec fn html_report(es: Seq<(Seq<char>, Seq<(u16, bool)>)>, generated_at: Seq<char>) -> Seq<
    char,
> {
    html_head() + html_sections(es) + "<footer>Generated at "@ + generated_at
        + "</footer></body></html>"@
}

/// Appends the table row of one port.
fn append_html_port_row(out: &mut String, port: u16, open: bool)
    ensures
        final(out)@ == old(out)@ + html_port_row(port, open),
{
    out.append("<tr><td>");
    let d = decimal(port as u64);
    out.append(d.as_str());
    out.append("</td><td>");
    if open {
        out.append("<span style=\"color:#008000;font-weight:bold\">Open</span>");
    } else {
        out.append("<span style=\"color:#c00;font-weight:bold\">Closed</span>");
    }
    out.append("</td></tr>");
    assert(final(out)@ =~= old(out)@ + html_port_row(port, open));
}

/// Formats scan results as an HTML page whose footer gives the time
/// `generated_at`: for each target a heading and a table of its ports.
pub fn make_html_at(results: &ScanResults, generated_at: &str) -> (out: String)
    ensures
        out@ == html_report(results@, generated_at@),
{
    let mut out = String::new();
    out.append("<!DOCTYPE html><html lang=\"en\"><head><meta charset=\"utf-8\"><meta name=\"viewport\" content=\"width=device-width,initial-scale=1\"><title>Portscan</title><style>body{font-family:Segoe UI,Arial,sans-serif;margin:20px}table{border-collapse:collapse;width:100%}th,td{padding:8px;border-bottom:1px solid #ddd}th{background:#0078d4;color:#fff}</style></head><body>");
    let n = results.len();
    let mut i: usize = 0;
    assert(results@.take(0) =~= Seq::<(Seq<char>, Seq<(u16, bool)>)>::empty());
    assert(out@ =~= html_head() + html_sections(results@.take(0)));
    while i < n
        invariant
            n == results@.len(),
            i <= n,
            out@ == html_head() + html_sections(results@.take(i as int)),
        decreases n - i,
    {
        let target = results.target(i);
        let ports = results.ports(i);
        let ghost start = out@;
        out.append("<h2>Scan results for ");
        out.append(target.as_str());
        out.append("</h2>");
        out.append("<table><thead><tr><th>Port</th><th>Status</th></tr></thead><tbody>");
        let m = ports.len();
        let mut k: usize = 0;
        assert(ports@.take(0) =~= Seq::<(u16, bool)>::empty());
        while k < m
            invariant
                m == ports@.len(),
                k <= m,
                out@ == start + "<h2>Scan results for "@ + target@ + "</h2>"@ + "<table><thead><tr><th>Port</th><th>Status</th></tr></thead><tbody>"@
                    + html_port_rows(ports@.take(k as int)),
            decreases m - k,
        {
            let (port, open) = ports[k];
            append_html_port_row(&mut out, port, open);
            assert(ports@.take(k + 1).drop_last() =~= ports@.take(k as int));
            k = k + 1;
        }
        out.append("</tbody></table>");
        proof {
            assert(ports@.take(m as int) =~= ports@);
            assert(results@.take(i + 1).drop_last() =~= results@.take(i as int));
            assert(out@ =~= html_head() + html_sections(results@.take(i + 1)));
        }
        i = i + 1;
    }
    assert(results@.take(n as int) =~= results@);
    out.append("<footer>Generated at ");
    out.append(generated_at);
    out.append("</footer></body></html>");
    assert(out@ =~= html_report(results@, generated_at@));
    out
}

#[verifier::external_type_specification]
#[verifier::external_body]
pub struct ExNaiveDateTime(chrono::NaiveDateTime);

/// Calls `chrono::Local::now`, the current time in the local time zone, and
/// keeps its date and time of day (`naive_local`). Nothing is stated of it:
/// it depends on the clock and the machine's time zone.
#[verifier::external_body]
fn local_now() -> chrono::NaiveDateTime {
    chrono::Local::now().naive_local()
}

/// Whether `s` is two ASCII digits whose value lies between `lo` and `hi`.
pub open spec fn two_digits_within(s: Seq<char>, lo: int, hi: int) -> bool {
    &&& s.len() == 2
    &&& is_ascii_digit(s[0])
    &&& is_ascii_digit(s[1])
    &&& lo <= digits_value(s) <= hi
}

/// Whether `y` is a year as `%Y` writes it: four digits for the years 0 to
/// 9999, else a sign followed by at least four digits.
pub open spec fn year_text(y: Seq<char>) -> bool {
    ||| y.len() == 4 && all_ascii_digits(y)
    ||| y.len() >= 5 && (y[0] == '+' || y[0] == '-') && all_ascii_digits(y.drop_first())
}

/// Whether `s` is a time stamp laid out as `%Y-%m-%d %H:%M:%S`: the year,
/// then month (01 to 12), day (01 to 31), hour (00 to 23), minute (00 to 59)
/// and second (00 to 60, for a leap second), each of two digits.
pub open spec fn timestamp_text(s: Seq<char>) -> bool {
    let n = s.len() as int;
    &&& n >= 19
    &&& year_text(s.take(n - 15))
    &&& s[n - 15] == '-'
    &&& two_digits_within(s.subrange(n - 14, n - 12), 1, 12)
    &&& s[n - 12] == '-'
    &&& two_digits_within(s.subrange(n - 11, n - 9), 1, 31)
    &&& s[n - 9] == ' '
    &&& two_digits_within(s.subrange(n - 8, n - 6), 0, 23)
    &&& s[n - 6] == ':'
    &&& two_digits_within(s.subrange(n - 5, n - 3), 0, 59)
    &&& s[n - 3] == ':'
    &&& two_digits_within(s.subrange(n - 2, n), 0, 60)
}

/// Calls `NaiveDateTime::format` with the pattern `%Y-%m-%d %H:%M:%S` and
/// renders the result with `to_string`. The contract states the layout that
/// chrono documents for these specifiers; which date and time the text
/// gives is not stated, since the time is opaque here. Only this pattern is
/// admitted: an unknown specifier, or one that needs an offset, would make
/// `to_string` panic.
#[verifier::external_body]
fn format_time(time: &chrono::NaiveDateTime, pattern: &str) -> (s: String)
    requires
        pattern@ == "%Y-%m-%d %H:%M:%S"@,
    ensures
        timestamp_text(s@),
{
    time.format(pattern).to_string()
}

/// The layout of the report's time stamp: date and time of day to the second.
pub const TIMESTAMP_PATTERN: &'static str = "%Y-%m-%d %H:%M:%S";

/// Formats scan results as an HTML page whose footer gives the local time
/// at which it was made, laid out as `%Y-%m-%d %H:%M:%S`.
pub fn make_html(results: &ScanResults) -> (out: String)
    ensures
        exists|generated_at: Seq<char>| timestamp_text(generated_at) && out@ == html_report(
            results@,
            generated_at,
        ),
{
    let now = local_now();
    let stamp = format_time(&now, TIMESTAMP_PATTERN);
    make_html_at(results, stamp.as_str())
}


/// What exporting the results writes: one file, or an archive of files.
#[derive(Debug, PartialEq, Eq)]
pub enum Export {
    /// A file at `path` that holds `contents`.
    File { path: String, contents: String },
    /// A compressed archive at `path` whose members are named files with their contents.
    Archive { path: String, members: Vec<(String, String)> },
}

/// Whether `e` is the export of `results` in `format`, with the HTML report
/// stamped with the time `stamp`, a time stamp as `timestamp_text` lays it out.
pub open spec fn is_export(
    e: Export,
    results: Seq<(Seq<char>, Seq<(u16, bool)>)>,
    format: Format,
    stamp: Seq<char>,
) -> bool {
    match format {
        Format::Txt => e matches Export::File { path, contents } && path@ == "scan.txt"@
            && contents@ == txt_report(results),
        Format::Html => {
            &&& timestamp_text(stamp)
            &&& e matches Export::File { path, contents } && path@ == "scan.html"@ && contents@
                == html_report(results, stamp)
        },
        Format::Zip => {
            &&& timestamp_text(stamp)
            &&& e matches Export::Archive { path, members } && path@ == "scan_export.zip"@
                && members@.len() == 2 && members@[0].0@ == "scan.txt"@ && members@[0].1@
                == txt_report(results) && members@[1].0@ == "scan.html"@ && members@[1].1@
                == html_report(results, stamp)
        },
    }
}

/// What to write to export `results` in `format`: `scan.txt` or
/// `scan.html`, or for `Zip` the archive `scan_export.zip` holding both.
pub fn export_plan(results: &ScanResults, format: Format) -> (e: Export)
    ensures
        exists|stamp: Seq<char>| is_export(e, results@, format, stamp),
{
    match format {
        Format::Txt => {
            let e = Export::File { path: "scan.txt".to_owned(), contents: make_txt(results) };
            assert(is_export(e, results@, format, Seq::<char>::empty()));
            e
        },
        Format::Html => {
            let now = local_now();
            let stamp = format_time(&now, TIMESTAMP_PATTERN);
            let e = Export::File {
                path: "scan.html".to_owned(),
                contents: make_html_at(results, stamp.as_str()),
            };
            assert(is_export(e, results@, format, stamp@));
            e
        },
        Format::Zip => {
            let txt = make_txt(results);
            let now = local_now();
            let stamp = format_time(&now, TIMESTAMP_PATTERN);
            let html = make_html_at(results, stamp.as_str());
            let mut members: Vec<(String, String)> = Vec::new();
            members.push(("scan.txt".to_owned(), txt));
            members.push(("scan.html".to_owned(), html));
            let e = Export::Archive { path: "scan_export.zip".to_owned(), members };
            assert(is_export(e, results@, format, stamp@));
            e
        },
    }
}


/// The path and text of an export that writes one file.
pub open spec fn file_of(e: Export) -> Option<(Seq<char>, Seq<char>)> {
    match e {
        Export::File { path, contents } => Some((path@, contents@)),
        Export::Archive { .. } => None,
    }
}

/// The names and texts of the members of an export that writes an archive.
pub open spec fn archive_of(e: Export) -> Option<Seq<(Seq<char>, Seq<char>)>> {
    match e {
        Export::File { .. } => None,
        Export::Archive { members, .. } => Some(
            members@.map_values(|m: (String, String)| (m.0@, m.1@)),
        ),
    }
}

/// An export carries the reports of the results it was made from: the text
/// file holds the text report, the HTML file the HTML report (under a time
/// stamp laid out as `%Y-%m-%d %H:%M:%S`), and the archive holds both, the
/// text report as `scan.txt` and the HTML report as `scan.html`.
pub proof fn lemma_export_contents(
    e: Export,
    results: Seq<(Seq<char>, Seq<(u16, bool)>)>,
    format: Format,
    stamp: Seq<char>,
)
    requires
        is_export(e, results, format, stamp),
    ensures
        format == Format::Txt ==> file_of(e) == Some(("scan.txt"@, txt_report(results))),
        format == Format::Html ==> timestamp_text(stamp) && file_of(e) == Some(
            ("scan.html"@, html_report(results, stamp)),
        ),
        format == Format::Zip ==> timestamp_text(stamp) && archive_of(e) == Some(
            seq![("scan.txt"@, txt_report(results)), ("scan.html"@, html_report(results, stamp))],
        ),
{
    if format == Format::Zip {
        let ms = archive_of(e).unwrap();
        assert(ms =~= seq![("scan.txt"@, txt_report(results)), ("scan.html"@, html_report(results, stamp))]);
    }
}

/// Exports of the same results agree: the text file is the archive's text
/// member, and under the same time stamp the HTML file is its HTML member.
pub proof fn lemma_exports_agree(
    et: Export,
    eh: Export,
    ez: Export,
    results: Seq<(Seq<char>, Seq<(u16, bool)>)>,
    stamp: Seq<char>,
    stamp_txt: Seq<char>,
)
    requires
        is_export(et, results, Format::Txt, stamp_txt),
        is_export(eh, results, Format::Html, stamp),
        is_export(ez, results, Format::Zip, stamp),
    ensures
        archive_of(ez).unwrap()[0] == file_of(et).unwrap(),
        archive_of(ez).unwrap()[1] == file_of(eh).unwrap(),
{
    lemma_export_contents(et, results, Format::Txt, stamp_txt);
    lemma_export_contents(eh, results, Format::Html, stamp);
    lemma_export_contents(ez, results, Format::Zip, stamp);
}

} // verus!
