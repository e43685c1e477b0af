//! Port lists: entries such as `22`, `80-85` or `443`, separated by commas.

use vstd::prelude::*;
use vstd::string::*;
use crate::text::{
    decimal_text, digit_char, split_on, trim_end, trim_start, white_space, nonempty_trimmed, chars_of, find_char, lemma_entries_step, list_entries, next_separator, piece_entry, trim,
    trim_bounds,
};

verus! {

broadcast use vstd::string::group_string_axioms;

/// Why a port list was refused, over the text that was at fault.
pub enum PortFault {
    InvalidValue(Seq<char>),
    OutOfRange(Seq<char>),
    InvalidRange(Seq<char>),
    NoPorts,
}

/// Why a port list was refused.
#[derive(Debug, PartialEq, Eq)]
pub enum PortError {
    /// The text is not a decimal integer.
    InvalidValue(String),
    /// The integer lies outside `0..=65535`.
    OutOfRange(String),
    /// A range whose start lies above its end.
    InvalidRange(String),
    /// The list holds no entry.
    NoPorts,
}

impl View for PortError {
    type V = PortFault;

    open spec fn view(&self) -> PortFault {
        match self {
            PortError::InvalidValue(s) => PortFault::InvalidValue(s@),
            PortError::OutOfRange(s) => PortFault::OutOfRange(s@),
            PortError::InvalidRange(s) => PortFault::InvalidRange(s@),
            PortError::NoPorts => PortFault::NoPorts,
        }
    }
}

/// The message that tells a user of the fault.
pub open spec fn fault_message(f: PortFault) -> Seq<char> {
    match f {
        PortFault::InvalidValue(s) => "invalid port value: "@ + s,
        PortFault::OutOfRange(s) => "port out of range (0-65535): "@ + s,
        PortFault::InvalidRange(s) => "invalid range: "@ + s,
        PortFault::NoPorts => "no valid ports found"@,
    }
}

impl PortError {
    /// The message that tells a user of the error.
    pub fn message(&self) -> (m: String)
        ensures
            m@ == fault_message(self@),
    {
        match self {
            PortError::InvalidValue(s) => {
                let mut m = "invalid port value: ".to_owned();
                m.append(s.as_str());
                m
            },
            PortError::OutOfRange(s) => {
                let mut m = "port out of range (0-65535): ".to_owned();
                m.append(s.as_str());
                m
            },
            PortError::InvalidRange(s) => {
                let mut m = "invalid range: ".to_owned();
                m.append(s.as_str());
                m
            },
            PortError::NoPorts => "no valid ports found".to_owned(),
        }
    }
}

pub open spec fn is_ascii_digit(c: char) -> bool {
    '0' <= c <= '9'
}

/// The value of a string of decimal digits.
pub open spec fn digits_value(d: Seq<char>) -> int
    decreases d.len(),
{
    if d.len() == 0 {
        0
    } else {
        digits_value(d.drop_last()) * 10 + (d.last() as int - '0' as int)
    }
}

/// Whether every character of `s` is an ASCII digit.
pub open spec fn all_ascii_digits(s: Seq<char>) -> bool {
    forall|i: int| 0 <= i < s.len() ==> is_ascii_digit(#[trigger] s[i])
}

/// `s` without its leading `+` or `-` sign, if it has one.
pub open spec fn unsigned_part(s: Seq<char>) -> Seq<char> {
    if s.len() > 0 && (s[0] == '-' || s[0] == '+') {
        s.drop_first()
    } else {
        s
    }
}

/// What `str::parse::<i64>` gives: an optional `+` or `-` sign followed by
/// one or more ASCII digits whose value fits in an `i64`; anything else fails.
pub open spec fn spec_parse_i64(s: Seq<char>) -> Option<i64> {
    let body = unsigned_part(s);
    let value = if s.len() > 0 && s[0] == '-' {
        -digits_value(body)
    } else {
        digits_value(body)
    };
    if body.len() > 0 && all_ascii_digits(body) && i64::MIN <= value <= i64::MAX {
        Some(value as i64)
    } else {
        None
    }
}

/// Calls `str::parse::<i64>`, whose documented grammar is an optional sign
/// and decimal digits, with an error where the value overflows `i64`.
#[verifier::external_body]
fn parse_i64(s: &str) -> (r: Option<i64>)
    ensures
        r == spec_parse_i64(s@),
{
    s.parse::<i64>().ok()
}

/// One port number: a decimal integer in `0..=65535`.
pub open spec fn spec_parse_port(s: Seq<char>) -> Result<u16, PortFault> {
    match spec_parse_i64(s) {
        None => Err(PortFault::InvalidValue(s)),
        Some(p) => if 0 <= p <= 65535 {
            Ok(p as u16)
        } else {
            Err(PortFault::OutOfRange(s))
        },
    }
}

/// The ports from `lo` to `hi`, both included.
pub open spec fn port_range(lo: u16, hi: u16) -> Set<u16> {
    Set::new(|p: u16| lo <= p <= hi)
}

/// The ports that one entry of the list names: `a-b` (split at its first
/// `-`) is the range from `a` to `b`, anything else a single port.
pub open spec fn spec_entry_ports(t: Seq<char>) -> Result<Set<u16>, PortFault> {
    let m = find_char(t, '-');
    if m < t.len() {
        match spec_parse_port(t.take(m as int)) {
            Err(e) => Err(e),
            Ok(lo) => match spec_parse_port(t.skip(m as int + 1)) {
                Err(e) => Err(e),
                Ok(hi) => if lo > hi {
                    Err(PortFault::InvalidRange(t))
                } else {
                    Ok(port_range(lo, hi))
                },
            },
        }
    } else {
        match spec_parse_port(t) {
            Err(e) => Err(e),
            Ok(p) => Ok(set![p]),
        }
    }
}

/// The ports of a sequence of entries; the first entry at fault decides the error.
pub open spec fn spec_entries_ports(entries: Seq<Seq<char>>) -> Result<Set<u16>, PortFault>
    decreases entries.len(),
{
    if entries.len() == 0 {
        Ok(Set::empty())
    } else {
        match spec_entry_ports(entries[0]) {
            Err(e) => Err(e),
            Ok(first) => match spec_entries_ports(entries.drop_first()) {
                Err(e) => Err(e),
                Ok(rest) => Ok(first.union(rest)),
            },
        }
    }
}

/// The set of ports a port list names, or why it is refused.
pub open spec fn spec_parse_ports(s: Seq<char>) -> Result<Set<u16>, PortFault> {
    match spec_entries_ports(list_entries(s)) {
        Err(e) => Err(e),
        Ok(ports) => if ports == Set::<u16>::empty() {
            Err(PortFault::NoPorts)
        } else {
            Ok(ports)
        },
    }
}

/// Whether each element is smaller than the next: sorted, nothing twice.
pub open spec fn strictly_ascending(v: Seq<u16>) -> bool {
    forall|i: int, j: int| 0 <= i < j < v.len() ==> v[i] < v[j]
}

pub open spec fn port_result_view(r: Result<u16, PortError>) -> Result<u16, PortFault> {
    match r {
        Ok(p) => Ok(p),
        Err(e) => Err(e@),
    }
}

/// Parses one port number.
pub fn parse_port(s: &str) -> (r: Result<u16, PortError>)
    ensures
        port_result_view(r) == spec_parse_port(s@),
{
    match parse_i64(s) {
        None => Err(PortError::InvalidValue(s.to_owned())),
        Some(p) => if 0 <= p && p <= 65535 {
            Ok(p as u16)
        } else {
            Err(PortError::OutOfRange(s.to_owned()))
        },
    }
}

/// The range of ports one entry names, as its first and last port.
fn entry_range(t: &str) -> (r: Result<(u16, u16), PortError>)
    ensures
        match r {
            Ok((lo, hi)) => lo <= hi && spec_entry_ports(t@) == Ok::<Set<u16>, PortFault>(
                port_range(lo, hi),
            ),
            Err(e) => spec_entry_ports(t@) == Err::<Set<u16>, PortFault>(e@),
        },
{
    let chars = chars_of(t);
    let n = chars.len();
    proof {
        assert(chars@.skip(0) =~= chars@);
    }
    let m = next_separator(&chars, 0, '-');
    if m < n {
        let start_s = t.substring_char(0, m);
        let end_s = t.substring_char(m + 1, n);
        proof {
            assert(start_s@ =~= t@.take(m as int));
            assert(end_s@ =~= t@.skip(m + 1));
        }
        let lo = match parse_port(start_s) {
            Ok(p) => p,
            Err(e) => return Err(e),
        };
        let hi = match parse_port(end_s) {
            Ok(p) => p,
            Err(e) => return Err(e),
        };
        if lo > hi {
            return Err(PortError::InvalidRange(t.to_owned()));
        }
        Ok((lo, hi))
    } else {
        match parse_port(t) {
            Ok(p) => {
                assert(port_range(p, p) =~= set![p]);
                Ok((p, p))
            },
            Err(e) => Err(e),
        }
    }
}


/// Combines the ports gathered so far with what the rest of a list gives.
pub open spec fn after(acc: Set<u16>, rest: Result<Set<u16>, PortFault>) -> Result<Set<u16>, PortFault> {
    match rest {
        Err(e) => Err(e),
        Ok(r) => Ok(acc.union(r)),
    }
}

proof fn lemma_entries_concat(a: Seq<Seq<char>>, b: Seq<Seq<char>>)
    ensures
        spec_entries_ports(a + b) == match spec_entries_ports(a) {
            Err(e) => Err(e),
            Ok(x) => after(x, spec_entries_ports(b)),
        },
    decreases a.len(),
{
    if a.len() == 0 {
        assert(a + b =~= b);
        match spec_entries_ports(b) {
            Err(_) => {},
            Ok(y) => { assert(Set::<u16>::empty().union(y) =~= y); },
        }
    } else {
        assert((a + b).drop_first() =~= a.drop_first() + b);
        assert((a + b)[0] == a[0]);
        lemma_entries_concat(a.drop_first(), b);
        match spec_entry_ports(a[0]) {
            Err(_) => {},
            Ok(f) => {
                match spec_entries_ports(a.drop_first()) {
                    Err(_) => {},
                    Ok(r) => {
                        match spec_entries_ports(b) {
                            Err(_) => {},
                            Ok(y) => { assert(f.union(r.union(y)) =~= f.union(r).union(y)); },
                        }
                    },
                }
            },
        }
    }
}

/// Parses a comma-separated list of ports and ranges, such as `22,80-85,443`:
/// the ports it names in ascending order, each once.
pub fn parse_ports(input: &str) -> (r: Result<Vec<u16>, PortError>)
    ensures
        match r {
            Ok(v) => v@.len() > 0 && strictly_ascending(v@) && spec_parse_ports(input@) == Ok::<Set<u16>, PortFault>(
                v@.to_set(),
            ),
            Err(e) => spec_parse_ports(input@) == Err::<Set<u16>, PortFault>(e@),
        },
{
    let chars = chars_of(input);
    let n = chars.len();
    let mut seen: Vec<bool> = Vec::new();
    while seen.len() < 65536
        invariant
            seen@.len() <= 65536,
            forall|k: int| 0 <= k < seen@.len() ==> !seen@[k],
        decreases 65536 - seen@.len(),
    {
        seen.push(false);
    }
    let ghost mut acc: Set<u16> = Set::empty();
    let ghost whole = spec_entries_ports(list_entries(chars@));
    let mut pos: usize = 0;
    proof {
        assert(chars@.skip(0) =~= chars@);
        assert(Set::<u16>::empty().union(Set::<u16>::empty()) =~= Set::<u16>::empty());
        match spec_entries_ports(list_entries(chars@)) {
            Err(_) => {},
            Ok(x) => { assert(Set::<u16>::empty().union(x) =~= x); },
        }
    }
    loop
        invariant_except_break
            whole == after(acc, spec_entries_ports(list_entries(chars@.skip(pos as int)))),
        invariant
            n == chars@.len(),
            chars@ == input@,
            pos <= n,
            seen@.len() == 65536,
            forall|p: u16| #[trigger] seen@[p as int] <==> acc.contains(p),
            whole == spec_entries_ports(list_entries(chars@)),
        ensures
            whole == Ok::<Set<u16>, PortFault>(acc),
        decreases n - pos,
    {
        let j = next_separator(&chars, pos, ',');
        proof {
            lemma_entries_step(chars@, pos as int, j as int);
        }
        let ghost piece = chars@.subrange(pos as int, j as int);
        let ghost rest = if j < n { list_entries(chars@.skip(j + 1)) } else { Seq::<Seq<char>>::empty() };
        proof {
            if j == n {
                assert(piece_entry(piece) + rest =~= piece_entry(piece));
            }
            lemma_entries_concat(piece_entry(piece), rest);
        }
        let (a, b) = trim_bounds(&chars, pos, j);
        if a < b {
            let t = input.substring_char(a, b);
            proof {
                assert(t@ == trim(piece));
                assert(piece_entry(piece) == seq![t@]);
                assert(seq![t@].drop_first() =~= Seq::<Seq<char>>::empty());
                assert(seq![t@][0] == t@);
            }
            match entry_range(t) {
                Err(e) => {
                    return Err(e);
                },
                Ok((lo, hi)) => {
                    let mut p: u32 = lo as u32;
                    let ghost acc0 = acc;
                    while p <= hi as u32
                        invariant
                            lo <= hi,
                            lo <= p <= hi as u32 + 1,
                            seen@.len() == 65536,
                            forall|q: u16| #[trigger] seen@[q as int] <==> (acc0.contains(q) || (lo <= q && (q as u32) < p)),
                        decreases hi as u32 + 1 - p,
                    {
                        seen.set(p as usize, true);
                        p = p + 1;
                    }
                    proof {
                        acc = acc0.union(port_range(lo, hi));
                        assert forall|q: u16| #[trigger] seen@[q as int] <==> acc.contains(q) by {}
                        assert(spec_entries_ports(Seq::<Seq<char>>::empty()) == Ok::<Set<u16>, PortFault>(Set::empty()));
                        assert(spec_entries_ports(seq![t@]) == Ok::<Set<u16>, PortFault>(port_range(lo, hi).union(Set::<u16>::empty())));
                        assert(port_range(lo, hi).union(Set::<u16>::empty()) =~= port_range(lo, hi));
                        match spec_entries_ports(rest) {
                            Err(_) => {},
                            Ok(y) => { assert(acc0.union(port_range(lo, hi).union(y)) =~= acc.union(y)); },
                        }
                    }
                },
            }
        } else {
            proof {
                assert(piece_entry(piece) == Seq::<Seq<char>>::empty());
                assert(spec_entries_ports(piece_entry(piece)) == Ok::<Set<u16>, PortFault>(Set::empty()));
                match spec_entries_ports(rest) {
                    Err(_) => {},
                    Ok(y) => { assert(Set::<u16>::empty().union(y) =~= y); },
                }
            }
        }
        if j == n {
            proof {
                assert(spec_entries_ports(rest) == Ok::<Set<u16>, PortFault>(Set::empty()));
                assert(acc.union(Set::<u16>::empty()) =~= acc);
            }
            break;
        }
        pos = j + 1;
    }
    // `whole == Ok(acc)` here
    let mut out: Vec<u16> = Vec::new();
    let mut q: usize = 0;
    while q < 65536
        invariant
            q <= 65536,
            seen@.len() == 65536,
            forall|p: u16| #[trigger] seen@[p as int] <==> acc.contains(p),
            strictly_ascending(out@),
            forall|i: int| 0 <= i < out@.len() ==> (out@[i] as int) < q,
            forall|p: u16| out@.contains(p) <==> (acc.contains(p) && (p as int) < q),
        decreases 65536 - q,
    {
        if seen[q] {
            let ghost old_out = out@;
            out.push(q as u16);
            proof {
                assert forall|p: u16| out@.contains(p) <==> (acc.contains(p) && (p as int) < q + 1) by {
                    if out@.contains(p) {
                        let i = choose|i: int| 0 <= i < out@.len() && out@[i] == p;
                        if i < old_out.len() {
                            assert(old_out[i] == p);
                        }
                    }
                    if acc.contains(p) && (p as int) < q + 1 {
                        if (p as int) < q {
                            assert(old_out.contains(p));
                            let i = choose|i: int| 0 <= i < old_out.len() && old_out[i] == p;
                            assert(out@[i] == p);
                        } else {
                            assert(p as int == q);
                            assert(seen@[p as int]);
                            assert(out@[old_out.len() as int] == p);
                        }
                    }
                }
            }
        } else {
            proof {
                assert forall|p: u16| out@.contains(p) <==> (acc.contains(p) && (p as int) < q + 1) by {
                    if (p as int) == q {
                        assert(!seen@[p as int]);
                    }
                }
            }
        }
        q = q + 1;
    }
    proof {
        assert(out@.to_set() =~= acc);
    }
    if out.len() == 0 {
        proof {
            assert(acc =~= Set::<u16>::empty());
        }
        return Err(PortError::NoPorts);
    }
    proof {
        assert(out@.contains(out@[0]));
        assert(acc.contains(out@[0]));
        assert(acc != Set::<u16>::empty());
    }
    Ok(out)
}


proof fn lemma_decimal_digits(n: nat)
    ensures
        decimal_text(n).len() > 0,
        forall|i: int| 0 <= i < decimal_text(n).len() ==> is_ascii_digit(#[trigger] decimal_text(n)[i]),
        digits_value(decimal_text(n)) == n,
    decreases n,
{
    let d = (n % 10) as nat;
    assert(digit_char(d) as int == 48 + d);
    assert('0' as int == 48);
    if n < 10 {
        assert(decimal_text(n) == seq![digit_char(n)]);
        assert(seq![digit_char(n)].drop_last() =~= Seq::<char>::empty());
        assert(seq![digit_char(n)].last() == digit_char(n));
        assert(digits_value(Seq::<char>::empty()) == 0);
    } else {
        lemma_decimal_digits(n / 10);
        let t = decimal_text(n);
        assert(t == decimal_text(n / 10).push(digit_char(d)));
        assert(t.drop_last() =~= decimal_text(n / 10));
        assert(t.last() == digit_char(d));
        assert((n / 10) * 10 + d == n);
        assert forall|i: int| 0 <= i < t.len() implies is_ascii_digit(#[trigger] t[i]) by {
            if i < t.len() - 1 {
                assert(t[i] == decimal_text(n / 10)[i]);
            }
        }
    }
}

/// Facts about the decimal text of a port that the readers of port lists rely on.
proof fn lemma_port_text_shape(port: u16)
    ensures
        decimal_text(port as nat).len() > 0,
        forall|i: int| 0 <= i < decimal_text(port as nat).len() ==> #[trigger] decimal_text(port as nat)[i] != ','
            && decimal_text(port as nat)[i] != '-' && !white_space(decimal_text(port as nat)[i]),
        find_char(decimal_text(port as nat), ',') == decimal_text(port as nat).len(),
        crate::text::trim(decimal_text(port as nat)) == decimal_text(port as nat),
        spec_parse_port(decimal_text(port as nat)) == Ok::<u16, PortFault>(port),
        spec_entry_ports(decimal_text(port as nat)) == Ok::<Set<u16>, PortFault>(set![port]),
{
    let t = decimal_text(port as nat);
    lemma_decimal_digits(port as nat);
    assert(is_ascii_digit(t[0]));
    assert(spec_parse_i64(t) == Some(port as i64));
    assert forall|i: int| 0 <= i < t.len() implies #[trigger] t[i] != ',' && t[i] != '-' && !white_space(t[i]) by {
        assert(is_ascii_digit(t[i]));
    }
    lemma_find_absent(t, ',');
    lemma_find_absent(t, '-');
    assert(!white_space(t[0]));
    assert(trim_start(t) == t);
    assert(!white_space(t.last()));
    assert(trim_end(t) == t);
}

/// A port written in decimal, as the reports print it, reads back as that
/// port, both as a port number and as a whole port list.
pub proof fn lemma_port_text_roundtrip(port: u16)
    ensures
        spec_parse_port(decimal_text(port as nat)) == Ok::<u16, PortFault>(port),
        spec_parse_ports(decimal_text(port as nat)) == Ok::<Set<u16>, PortFault>(set![port]),
{
    lemma_port_text_shape(port);
    lemma_port_list_roundtrip(seq![port]);
    assert(port_list_text(seq![port]) == decimal_text(port as nat));
    assert(seq![port].to_set() =~= set![port]) by {
        assert(seq![port][0] == port);
        assert(seq![port].contains(port));
    }
}

/// A list of ports written in decimal and separated by commas.
pub open spec fn port_list_text(v: Seq<u16>) -> Seq<char>
    decreases v.len(),
{
    if v.len() == 0 {
        seq![]
    } else if v.len() == 1 {
        decimal_text(v[0] as nat)
    } else {
        decimal_text(v[0] as nat) + seq![','] + port_list_text(v.drop_first())
    }
}

/// The decimal texts of the ports, in order.
pub open spec fn port_texts(v: Seq<u16>) -> Seq<Seq<char>> {
    v.map_values(|p: u16| decimal_text(p as nat))
}

proof fn lemma_port_list_entries(v: Seq<u16>)
    requires
        v.len() > 0,
    ensures
        list_entries(port_list_text(v)) == port_texts(v),
    decreases v.len(),
{
    let t = decimal_text(v[0] as nat);
    lemma_port_text_shape(v[0]);
    if v.len() == 1 {
        assert(port_list_text(v) == t);
        assert(split_on(t, ',') == seq![t]);
        assert(seq![t][0] == t);
        assert(seq![t].drop_first() =~= Seq::<Seq<char>>::empty());
        assert(nonempty_trimmed(Seq::<Seq<char>>::empty()) == Seq::<Seq<char>>::empty());
        assert(nonempty_trimmed(seq![t]) == seq![t] + Seq::<Seq<char>>::empty());
        assert(port_texts(v) =~= seq![t]);
    } else {
        let rest = port_list_text(v.drop_first());
        let s = t + seq![','] + rest;
        assert(port_list_text(v) == s);
        lemma_port_list_entries(v.drop_first());
        lemma_find_after(t, rest);
        assert(s.take(t.len() as int) =~= t);
        assert(s.skip(t.len() as int + 1) =~= rest);
        let pieces = split_on(rest, ',');
        assert(split_on(s, ',') == seq![t] + pieces);
        assert((seq![t] + pieces)[0] == t);
        assert((seq![t] + pieces).drop_first() =~= pieces);
        assert(nonempty_trimmed(seq![t] + pieces) == seq![t] + nonempty_trimmed(pieces));
        assert(port_texts(v) =~= seq![t] + port_texts(v.drop_first()));
    }
}

proof fn lemma_find_after(t: Seq<char>, rest: Seq<char>)
    requires
        forall|i: int| 0 <= i < t.len() ==> t[i] != ',',
    ensures
        find_char(t + seq![','] + rest, ',') == t.len(),
    decreases t.len(),
{
    let s = t + seq![','] + rest;
    if t.len() == 0 {
        assert(s[0] == ',');
    } else {
        assert(s[0] == t[0]);
        assert(s.drop_first() =~= t.drop_first() + seq![','] + rest);
        assert forall|i: int| 0 <= i < t.drop_first().len() implies t.drop_first()[i] != ',' by {
            assert(t.drop_first()[i] == t[i + 1]);
        }
        lemma_find_after(t.drop_first(), rest);
    }
}

proof fn lemma_port_texts_ports(v: Seq<u16>)
    ensures
        spec_entries_ports(port_texts(v)) == Ok::<Set<u16>, PortFault>(v.to_set()),
    decreases v.len(),
{
    if v.len() == 0 {
        assert(port_texts(v) =~= Seq::<Seq<char>>::empty());
        assert(v.to_set() =~= Set::<u16>::empty());
    } else {
        lemma_port_text_shape(v[0]);
        lemma_port_texts_ports(v.drop_first());
        assert(port_texts(v)[0] == decimal_text(v[0] as nat));
        assert(port_texts(v).drop_first() =~= port_texts(v.drop_first()));
        assert(v.to_set() =~= set![v[0]].union(v.drop_first().to_set())) by {
            assert forall|p: u16| v.to_set().contains(p) <==> set![v[0]].union(v.drop_first().to_set()).contains(p) by {
                if v.contains(p) {
                    let i = choose|i: int| 0 <= i < v.len() && v[i] == p;
                    if i > 0 {
                        assert(v.drop_first()[i - 1] == p);
                    }
                }
                if v.drop_first().contains(p) {
                    let i = choose|i: int| 0 <= i < v.drop_first().len() && v.drop_first()[i] == p;
                    assert(v[i + 1] == p);
                }
                if p == v[0] {
                    assert(v.contains(p));
                }
            }
        }
    }
}

/// Any list of ports, written in decimal and separated by commas, reads
/// back as the set of those ports.
pub proof fn lemma_port_list_roundtrip(v: Seq<u16>)
    requires
        v.len() > 0,
    ensures
        spec_parse_ports(port_list_text(v)) == Ok::<Set<u16>, PortFault>(v.to_set()),
{
    lemma_port_list_entries(v);
    lemma_port_texts_ports(v);
    assert(v.to_set().contains(v[0]));
}

/// Two lists in strictly ascending order that hold the same ports are the
/// same list: what `parse_ports` returns is fixed by the set of ports.
pub proof fn lemma_ascending_unique(a: Seq<u16>, b: Seq<u16>)
    requires
        strictly_ascending(a),
        strictly_ascending(b),
        a.to_set() == b.to_set(),
    ensures
        a == b,
    decreases a.len(),
{
    if a.len() == 0 {
        if b.len() > 0 {
            assert(b.to_set().contains(b[0]));
        }
        assert(a =~= b);
    } else {
        assert(a.to_set().contains(a[0]));
        assert(b.len() > 0);
        assert(b.to_set().contains(b[0]));
        let j = choose|j: int| 0 <= j < b.len() && b[j] == a[0];
        let i = choose|i: int| 0 <= i < a.len() && a[i] == b[0];
        assert(a[0] <= a[i]);
        assert(b[0] <= b[j]);
        assert(a[0] == b[0]);
        let a1 = a.drop_first();
        let b1 = b.drop_first();
        assert(a1.to_set() =~= b1.to_set()) by {
            assert forall|p: u16| a1.to_set().contains(p) <==> b1.to_set().contains(p) by {
                if a1.contains(p) {
                    let k = choose|k: int| 0 <= k < a1.len() && a1[k] == p;
                    assert(a[k + 1] == p);
                    assert(a.contains(p));
                    assert(b.to_set().contains(p));
                    let m = choose|m: int| 0 <= m < b.len() && b[m] == p;
                    assert(p != a[0]);
                    assert(m > 0);
                    assert(b1[m - 1] == p);
                }
                if b1.contains(p) {
                    let k = choose|k: int| 0 <= k < b1.len() && b1[k] == p;
                    assert(b[k + 1] == p);
                    assert(b.contains(p));
                    assert(a.to_set().contains(p));
                    let m = choose|m: int| 0 <= m < a.len() && a[m] == p;
                    assert(p != b[0]);
                    assert(m > 0);
                    assert(a1[m - 1] == p);
                }
            }
        }
        lemma_ascending_unique(a1, b1);
        assert(a =~= b) by {
            assert forall|k: int| 0 <= k < a.len() implies a[k] == b[k] by {
                if k > 0 {
                    assert(a[k] == a1[k - 1]);
                    assert(b[k] == b1[k - 1]);
                }
            }
        }
    }
}

/// Reading a port list that `parse_ports` gave, written back out in
/// decimal with commas, gives the same list again.
pub proof fn lemma_parse_ports_fixed_point(v: Seq<u16>, w: Seq<u16>)
    requires
        v.len() > 0,
        strictly_ascending(v),
        strictly_ascending(w),
        spec_parse_ports(port_list_text(v)) == Ok::<Set<u16>, PortFault>(w.to_set()),
    ensures
        w == v,
{
    lemma_port_list_roundtrip(v);
    lemma_ascending_unique(w, v);
}

proof fn lemma_find_absent(s: Seq<char>, c: char)
    requires
        forall|i: int| 0 <= i < s.len() ==> s[i] != c,
    ensures
        find_char(s, c) == s.len(),
    decreases s.len(),
{
    if s.len() > 0 {
        assert forall|i: int| 0 <= i < s.drop_first().len() implies s.drop_first()[i] != c by {
            assert(s.drop_first()[i] == s[i + 1]);
        }
        lemma_find_absent(s.drop_first(), c);
    }
}


proof fn lemma_find_in_prefix(a: Seq<char>, x: Seq<char>, c: char)
    requires
        find_char(a, c) < a.len(),
    ensures
        find_char(a + x, c) == find_char(a, c),
    decreases a.len(),
{
    assert((a + x)[0] == a[0]);
    if a[0] != c {
        assert((a + x).drop_first() =~= a.drop_first() + x);
        lemma_find_in_prefix(a.drop_first(), x, c);
    }
}

proof fn lemma_find_past(a: Seq<char>, x: Seq<char>, c: char)
    requires
        find_char(a, c) >= a.len(),
    ensures
        find_char(a + x, c) == a.len() + find_char(x, c),
    decreases a.len(),
{
    if a.len() == 0 {
        assert(a + x =~= x);
    } else {
        assert((a + x)[0] == a[0]);
        assert((a + x).drop_first() =~= a.drop_first() + x);
        lemma_find_past(a.drop_first(), x, c);
    }
}

proof fn lemma_split_join(a: Seq<char>, b: Seq<char>)
    ensures
        split_on(a + seq![','] + b, ',') == split_on(a, ',') + split_on(b, ','),
    decreases a.len(),
{
    let s = a + seq![','] + b;
    let i = find_char(a, ',') as int;
    if i >= a.len() {
        lemma_find_past(a, seq![','] + b, ',');
        assert(a + (seq![','] + b) =~= s);
        assert((seq![','] + b)[0] == ',');
        assert(find_char(seq![','] + b, ',') == 0);
        assert(s.take(a.len() as int) =~= a);
        assert(s.skip(a.len() as int + 1) =~= b);
        assert(split_on(a, ',') == seq![a]);
    } else {
        lemma_find_in_prefix(a, seq![','] + b, ',');
        assert(a + (seq![','] + b) =~= s);
        let t = a.skip(i + 1);
        assert(s.take(i) =~= a.take(i));
        assert(s.skip(i + 1) =~= t + seq![','] + b);
        lemma_split_join(t, b);
        assert(seq![a.take(i)] + (split_on(t, ',') + split_on(b, ',')) =~= (seq![a.take(i)]
            + split_on(t, ',')) + split_on(b, ','));
    }
}

proof fn lemma_trimmed_concat(p: Seq<Seq<char>>, q: Seq<Seq<char>>)
    ensures
        nonempty_trimmed(p + q) == nonempty_trimmed(p) + nonempty_trimmed(q),
    decreases p.len(),
{
    if p.len() == 0 {
        assert(p + q =~= q);
        assert(nonempty_trimmed(p) + nonempty_trimmed(q) =~= nonempty_trimmed(q));
    } else {
        assert((p + q)[0] == p[0]);
        assert((p + q).drop_first() =~= p.drop_first() + q);
        lemma_trimmed_concat(p.drop_first(), q);
        let t = crate::text::trim(p[0]);
        if t.len() != 0 {
            assert(seq![t] + (nonempty_trimmed(p.drop_first()) + nonempty_trimmed(q)) =~= (seq![t]
                + nonempty_trimmed(p.drop_first())) + nonempty_trimmed(q));
        }
    }
}

/// Two port lists joined with a comma name the ports of both: the set of
/// the joined list is the union of the two sets, whichever list comes first.
pub proof fn lemma_parse_ports_join(a: Seq<char>, b: Seq<char>, pa: Set<u16>, pb: Set<u16>)
    requires
        spec_parse_ports(a) == Ok::<Set<u16>, PortFault>(pa),
        spec_parse_ports(b) == Ok::<Set<u16>, PortFault>(pb),
    ensures
        spec_parse_ports(a + seq![','] + b) == Ok::<Set<u16>, PortFault>(pa.union(pb)),
        spec_parse_ports(b + seq![','] + a) == Ok::<Set<u16>, PortFault>(pa.union(pb)),
{
    lemma_join_one_way(a, b, pa, pb);
    lemma_join_one_way(b, a, pb, pa);
    assert(pb.union(pa) =~= pa.union(pb));
}

proof fn lemma_join_one_way(a: Seq<char>, b: Seq<char>, pa: Set<u16>, pb: Set<u16>)
    requires
        spec_parse_ports(a) == Ok::<Set<u16>, PortFault>(pa),
        spec_parse_ports(b) == Ok::<Set<u16>, PortFault>(pb),
    ensures
        spec_parse_ports(a + seq![','] + b) == Ok::<Set<u16>, PortFault>(pa.union(pb)),
{
    lemma_split_join(a, b);
    lemma_trimmed_concat(split_on(a, ','), split_on(b, ','));
    assert(list_entries(a + seq![','] + b) == list_entries(a) + list_entries(b));
    lemma_entries_concat(list_entries(a), list_entries(b));
    assert(pa != Set::<u16>::empty());
    assert(exists|x: u16| pa.contains(x)) by {
        if forall|x: u16| !pa.contains(x) {
            assert(pa =~= Set::<u16>::empty());
        }
    }
    let x = choose|x: u16| pa.contains(x);
    assert(pa.union(pb).contains(x));
    assert(pa.union(pb) != Set::<u16>::empty());
}


/// A text of one entry: no comma in it, no white space at either end.
proof fn lemma_single_entry(t: Seq<char>)
    requires
        t.len() > 0,
        forall|i: int| 0 <= i < t.len() ==> t[i] != ',',
        !white_space(t[0]),
        !white_space(t.last()),
    ensures
        list_entries(t) == seq![t],
{
    lemma_find_absent(t, ',');
    assert(split_on(t, ',') == seq![t]);
    assert(trim_start(t) == t);
    assert(trim_end(t) == t);
    assert(seq![t][0] == t);
    assert(seq![t].drop_first() =~= Seq::<Seq<char>>::empty());
    assert(nonempty_trimmed(Seq::<Seq<char>>::empty()) == Seq::<Seq<char>>::empty());
    assert(nonempty_trimmed(seq![t]) == seq![t] + Seq::<Seq<char>>::empty());
    assert(seq![t] + Seq::<Seq<char>>::empty() =~= seq![t]);
}

/// A range `lo-hi` of two ports written in decimal names exactly the ports
/// from `lo` to `hi`, both ends included, when `lo <= hi`, and is refused
/// as an invalid range when `lo > hi`.
pub proof fn lemma_range_entry(lo: u16, hi: u16)
    ensures
        lo <= hi ==> spec_parse_ports(decimal_text(lo as nat) + seq!['-'] + decimal_text(hi as nat))
            == Ok::<Set<u16>, PortFault>(Set::new(|p: u16| lo <= p && p <= hi)),
        lo > hi ==> spec_parse_ports(decimal_text(lo as nat) + seq!['-'] + decimal_text(hi as nat))
            == Err::<Set<u16>, PortFault>(
            PortFault::InvalidRange(decimal_text(lo as nat) + seq!['-'] + decimal_text(hi as nat)),
        ),
{
    let a = decimal_text(lo as nat);
    let b = decimal_text(hi as nat);
    let t = a + seq!['-'] + b;
    lemma_port_text_shape(lo);
    lemma_port_text_shape(hi);
    assert forall|i: int| 0 <= i < t.len() implies t[i] != ',' by {
        if i < a.len() {
            assert(t[i] == a[i]);
        } else if i > a.len() {
            assert(t[i] == b[i - a.len() - 1]);
        }
    }
    assert(t[0] == a[0]);
    assert(t.last() == b.last());
    assert(!white_space(b[b.len() - 1]));
    lemma_single_entry(t);
    lemma_find_absent(a, '-');
    lemma_find_past(a, seq!['-'] + b, '-');
    assert(a + (seq!['-'] + b) =~= t);
    assert((seq!['-'] + b)[0] == '-');
    assert(find_char(seq!['-'] + b, '-') == 0);
    assert(find_char(t, '-') == a.len());
    assert(t.take(a.len() as int) =~= a);
    assert(t.skip(a.len() as int + 1) =~= b);
    assert(spec_entries_ports(Seq::<Seq<char>>::empty()) == Ok::<Set<u16>, PortFault>(Set::empty()));
    assert(seq![t][0] == t);
    assert(seq![t].drop_first() =~= Seq::<Seq<char>>::empty());
    if lo <= hi {
        assert(spec_entry_ports(t) == Ok::<Set<u16>, PortFault>(port_range(lo, hi)));
        assert(port_range(lo, hi).union(Set::<u16>::empty()) =~= Set::new(|p: u16| lo <= p && p <= hi));
        assert(Set::new(|p: u16| lo <= p && p <= hi).contains(lo));
    }
}

} // verus!
