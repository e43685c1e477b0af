//! Command-line options: the export format, the option defaults, and the
//! expansion of the target list (host names, addresses and CIDR networks).

use vstd::prelude::*;
use vstd::string::*;
use crate::text::{
    chars_of, decimal, decimal_text, lemma_entries_step, list_entries, next_separator, piece_entry,
    text_eq, trim, trim_bounds,
};

verus! {

broadcast use vstd::string::group_string_axioms;

/// The format in which scan results are exported.
#[derive(Debug, Clone, Copy, PartialEq, Eq, Structural)]
pub enum Format {
    Txt,
    Html,
    Zip,
}

/// What `str::to_lowercase` gives for `s`: its Unicode lowercase mapping.
pub uninterp spec fn lowercase(s: Seq<char>) -> Seq<char>;

/// Whether every character of `s` is ASCII.
pub open spec fn ascii_text(s: Seq<char>) -> bool {
    forall|i: int| 0 <= i < s.len() ==> (#[trigger] s[i] as u32) < 128
}

/// The lowercase form of an ASCII character: `A` to `Z` become `a` to `z`,
/// the others stay.
pub open spec fn ascii_lower(c: char) -> char {
    if 'A' <= c <= 'Z' {
        ((c as u32) + 32) as char
    } else {
        c
    }
}

/// Each character of `s` in its ASCII lowercase form.
pub open spec fn ascii_lowercase(s: Seq<char>) -> Seq<char> {
    s.map_values(|c: char| ascii_lower(c))
}

/// Calls `str::to_lowercase`. Its result is named, not written out: the
/// Unicode lowercase mapping of each character, with the context rule for
/// a final sigma. For ASCII text that mapping is stated: `A` to `Z` become
/// `a` to `z`, every other character stays.
#[verifier::external_body]
fn to_lowercase(s: &str) -> (r: String)
    ensures
        r@ == lowercase(s@),
        ascii_text(s@) ==> r@ == ascii_lowercase(s@),
{
    s.to_lowercase()
}

/// The format whose name is `name`, if any.
pub open spec fn format_named(name: Seq<char>) -> Option<Format> {
    if name == "txt"@ {
        Some(Format::Txt)
    } else if name == "html"@ {
        Some(Format::Html)
    } else if name == "zip"@ {
        Some(Format::Zip)
    } else {
        None
    }
}

/// The outcome of reading the format `input`, whose lowercase form is `lowered`.
pub open spec fn spec_format_from_lowered(lowered: Seq<char>, input: Seq<char>) -> Result<
    Format,
    Seq<char>,
> {
    match format_named(lowered) {
        Some(f) => Ok(f),
        None => Err("unknown format: "@ + input),
    }
}

pub open spec fn format_result_view(r: Result<Format, String>) -> Result<Format, Seq<char>> {
    match r {
        Ok(f) => Ok(f),
        Err(m) => Err(m@),
    }
}

impl Format {
    /// Chooses the format by its name `lowered`, already in lowercase; the
    /// error message names the text `input` as the user wrote it.
    pub fn from_lowered(lowered: &str, input: &str) -> (r: Result<Format, String>)
        ensures
            format_result_view(r) == spec_format_from_lowered(lowered@, input@),
    {
        if text_eq(lowered, "txt") {
            Ok(Format::Txt)
        } else if text_eq(lowered, "html") {
            Ok(Format::Html)
        } else if text_eq(lowered, "zip") {
            Ok(Format::Zip)
        } else {
            let mut m = "unknown format: ".to_owned();
            m.append(input);
            Err(m)
        }
    }

    /// Reads a format name, whatever its case: `txt`, `html` or `zip`.
    pub fn parse(s: &str) -> (r: Result<Format, String>)
        ensures
            format_result_view(r) == spec_format_from_lowered(lowercase(s@), s@),
            ascii_text(s@) ==> format_result_view(r) == spec_format_from_lowered(
                ascii_lowercase(s@),
                s@,
            ),
    {
        let lowered = to_lowercase(s);
        Format::from_lowered(lowered.as_str(), s)
    }

    /// The format that the interactive form names `name`: `html` and `zip`
    /// name theirs, anything else stands for plain text.
    pub fn from_form_choice(name: &str) -> (f: Format)
        ensures
            f == (if name@ == "html"@ {
                Format::Html
            } else if name@ == "zip"@ {
                Format::Zip
            } else {
                Format::Txt
            }),
    {
        if text_eq(name, "html") {
            Format::Html
        } else if text_eq(name, "zip") {
            Format::Zip
        } else {
            Format::Txt
        }
    }
}

impl std::str::FromStr for Format {
    type Err = String;

    fn from_str(s: &str) -> (r: Result<Format, String>)
        ensures
            format_result_view(r) == spec_format_from_lowered(lowercase(s@), s@),
            ascii_text(s@) ==> format_result_view(r) == spec_format_from_lowered(
                ascii_lowercase(s@),
                s@,
            ),
    {
        Format::parse(s)
    }
}

/// The most hosts that the networks of a target list may expand to.
pub const MAX_TARGET_HOSTS: usize = 1024;

/// The options of a scan.
#[derive(Debug, PartialEq, Eq)]
pub struct Opts {
    /// Comma-separated targets: host names, addresses or CIDR networks.
    pub targets: String,
    /// Ports, such as `22,80,8000-8100`.
    pub ports: String,
    /// Timeout of each connection attempt, in milliseconds.
    pub timeout: u64,
    /// How many connection attempts run at once.
    pub concurrency: usize,
    /// The export format.
    pub format: Format,
    /// Whether to start the interactive form.
    pub tui: bool,
}

impl Default for Opts {
    /// The options of a run that names none: targets `127.0.0.1`, ports
    /// `80,443`, a timeout of 300 ms, 200 connections at once, text export,
    /// no interactive form.
    fn default() -> (o: Opts)
        ensures
            o.targets@ == "127.0.0.1"@,
            o.ports@ == "80,443"@,
            o.timeout == 300,
            o.concurrency == 200,
            o.format == Format::Txt,
            !o.tui,
    {
        Opts {
            targets: "127.0.0.1".to_owned(),
            ports: "80,443".to_owned(),
            timeout: 300,
            concurrency: 200,
            format: Format::Txt,
            tui: false,
        }
    }
}


#[verifier::external_type_specification]
#[verifier::external_body]
pub struct ExIpNet(ipnet::IpNet);

#[verifier::external_type_specification]
#[verifier::external_body]
pub struct ExIpAddrRange(ipnet::IpAddrRange);

/// The addresses that `IpNet::hosts` yields for the network `net`, in order,
/// each as the text that `IpAddr`'s `Display` gives.
pub uninterp spec fn net_hosts(net: ipnet::IpNet) -> Seq<Seq<char>>;

/// What `str::parse::<IpNet>` gives for `text`: `None` where it fails, else
/// the network taken by its hosts (`net_hosts`).
pub uninterp spec fn parsed_net_hosts(text: Seq<char>) -> Option<Seq<Seq<char>>>;

/// The addresses, as text, that an `IpAddrRange` has yet to yield.
pub uninterp spec fn range_rest(range: ipnet::IpAddrRange) -> Seq<Seq<char>>;

/// Calls `str::parse::<IpNet>` (ipnet's `FromStr`): a network in CIDR
/// notation, IPv4 or IPv6, or nothing. Which texts parse, and to which
/// networks, is named, not written out. A network has at least one host:
/// `hosts` runs from its network to its broadcast address, less both ends
/// only for IPv4 prefixes shorter than 31, which span at least four addresses.
#[verifier::external_body]
fn parse_ip_net(text: &str) -> (r: Option<ipnet::IpNet>)
    ensures
        r is Some <==> parsed_net_hosts(text@) is Some,
        r matches Some(net) ==> parsed_net_hosts(text@) == Some(net_hosts(net)),
        r matches Some(net) ==> net_hosts(net).len() > 0,
{
    text.parse::<ipnet::IpNet>().ok()
}

/// Calls `IpNet::hosts`: a range that yields the hosts of the network.
#[verifier::external_body]
fn net_host_range(net: &ipnet::IpNet) -> (r: ipnet::IpAddrRange)
    ensures
        range_rest(r) == net_hosts(*net),
{
    net.hosts()
}

/// Calls `Iterator::next` of `IpAddrRange`, rendering the address with
/// `to_string`: the first address left, which the range then drops, or
/// `None` once the range is spent (ipnet's ranges stay spent).
#[verifier::external_body]
fn next_host(range: &mut ipnet::IpAddrRange) -> (r: Option<String>)
    ensures
        range_rest(*old(range)).len() == 0 ==> r is None && range_rest(*final(range)).len() == 0,
        range_rest(*old(range)).len() > 0 ==> r is Some && r->0@ == range_rest(*old(range))[0]
            && range_rest(*final(range)) == range_rest(*old(range)).drop_first(),
{
    range.next().map(|ip| ip.to_string())
}

/// Why a target list was refused.
#[derive(Debug, PartialEq, Eq)]
pub enum TargetError {
    /// The list expands to more targets than the limit allows.
    TooManyHosts(usize),
    /// The list names no target.
    NoTargets,
}

/// The message that tells a user of the error.
pub open spec fn target_error_message(e: TargetError) -> Seq<char> {
    match e {
        TargetError::TooManyHosts(max) => "CIDR expansion too large (> "@ + decimal_text(max as nat)
            + ")"@,
        TargetError::NoTargets => "no targets provided"@,
    }
}

impl TargetError {
    /// The message that tells a user of the error.
    pub fn message(&self) -> (m: String)
        ensures
            m@ == target_error_message(*self),
    {
        match self {
            TargetError::TooManyHosts(max) => {
                let mut m = "CIDR expansion too large (> ".to_owned();
                let d = decimal(*max as u64);
                m.append(d.as_str());
                m.append(")");
                m
            },
            TargetError::NoTargets => "no targets provided".to_owned(),
        }
    }
}

/// What one entry of a target list stands for: the hosts of a network, or
/// the entry itself.
pub open spec fn entry_targets(entry: Seq<char>) -> Seq<Seq<char>> {
    match parsed_net_hosts(entry) {
        Some(hosts) => hosts,
        None => seq![entry],
    }
}

/// Expands the entries `entries` after the targets `out` already gathered:
/// a network contributes its hosts, any other entry itself. Every target
/// counts: once an entry would take the count above `max`, the expansion is
/// refused.
pub open spec fn spec_expand(entries: Seq<Seq<char>>, out: Seq<Seq<char>>, max: nat) -> Result<
    Seq<Seq<char>>,
    TargetError,
>
    decreases entries.len(),
{
    if entries.len() == 0 {
        Ok(out)
    } else if out.len() + entry_targets(entries[0]).len() > max {
        Err(TargetError::TooManyHosts(max as usize))
    } else {
        spec_expand(entries.drop_first(), out + entry_targets(entries[0]), max)
    }
}

/// The targets that the list `input` names, or why it is refused.
pub open spec fn spec_expand_targets(input: Seq<char>, max_hosts: usize) -> Result<
    Seq<Seq<char>>,
    TargetError,
> {
    match spec_expand(list_entries(input), seq![], max_hosts as nat) {
        Err(e) => Err(e),
        Ok(out) => if out.len() == 0 {
            Err(TargetError::NoTargets)
        } else {
            Ok(out)
        },
    }
}

/// The texts of a list of strings.
pub open spec fn texts(v: Seq<String>) -> Seq<Seq<char>> {
    v.map_values(|s: String| s@)
}

proof fn lemma_expand_concat(a: Seq<Seq<char>>, b: Seq<Seq<char>>, out: Seq<Seq<char>>, max: nat)
    ensures
        spec_expand(a + b, out, max) == match spec_expand(a, out, max) {
            Err(e) => Err(e),
            Ok(mid) => spec_expand(b, mid, max),
        },
    decreases a.len(),
{
    if a.len() == 0 {
        assert(a + b =~= b);
    } else {
        assert((a + b).drop_first() =~= a.drop_first() + b);
        assert((a + b)[0] == a[0]);
        lemma_expand_concat(a.drop_first(), b, out + entry_targets(a[0]), max);
    }
}

/// An expansion that succeeds stays within the limit.
proof fn lemma_expand_within(entries: Seq<Seq<char>>, out: Seq<Seq<char>>, max: nat)
    requires
        out.len() <= max,
    ensures
        spec_expand(entries, out, max) matches Ok(o) ==> o.len() <= max,
    decreases entries.len(),
{
    if entries.len() > 0 && out.len() + entry_targets(entries[0]).len() <= max {
        lemma_expand_within(entries.drop_first(), out + entry_targets(entries[0]), max);
    }
}

/// Expands a comma-separated list of targets: host names and addresses are
/// kept as written (trimmed), CIDR networks become their hosts. The result
/// holds at most `max_hosts` targets: the expansion fails once they would
/// be more, and fails when the list names nothing.
pub fn expand_targets(input: &str, max_hosts: usize) -> (r: Result<Vec<String>, TargetError>)
    ensures
        match r {
            Ok(v) => spec_expand_targets(input@, max_hosts) == Ok::<Seq<Seq<char>>, TargetError>(
                texts(v@),
            ),
            Err(e) => spec_expand_targets(input@, max_hosts) == Err::<Seq<Seq<char>>, TargetError>(e),
        },
        r matches Ok(v) ==> 0 < v@.len() <= max_hosts,
        r matches Err(TargetError::NoTargets) <==> list_entries(input@).len() == 0,
{
    let chars = chars_of(input);
    let n = chars.len();
    let mut out: Vec<String> = Vec::new();
    let ghost whole = spec_expand(list_entries(chars@), seq![], max_hosts as nat);
    let ghost mut seen = false;
    let mut pos: usize = 0;
    proof {
        assert(chars@.skip(0) =~= chars@);
        assert(texts(out@) =~= seq![]);
        lemma_expand_within(list_entries(chars@), seq![], max_hosts as nat);
    }
    loop
        invariant_except_break
            whole == spec_expand(list_entries(chars@.skip(pos as int)), texts(out@), max_hosts as nat),
            list_entries(chars@).len() > 0 <==> (seen || list_entries(chars@.skip(pos as int)).len() > 0),
        invariant
            n == chars@.len(),
            chars@ == input@,
            pos <= n,
            whole == spec_expand(list_entries(chars@), seq![], max_hosts as nat),
            whole matches Ok(o) ==> o.len() <= max_hosts,
            out@.len() <= max_hosts,
            seen ==> out@.len() > 0,
        ensures
            whole == Ok::<Seq<Seq<char>>, TargetError>(texts(out@)),
            list_entries(chars@).len() > 0 <==> seen,
        decreases n - pos,
    {
        let j = next_separator(&chars, pos, ',');
        proof {
            lemma_entries_step(chars@, pos as int, j as int);
        }
        let ghost piece = chars@.subrange(pos as int, j as int);
        let ghost rest = if j < n {
            list_entries(chars@.skip(j + 1))
        } else {
            Seq::<Seq<char>>::empty()
        };
        let ghost out0 = texts(out@);
        assert(out0.len() == out@.len());
        proof {
            if j == n {
                assert(piece_entry(piece) + rest =~= piece_entry(piece));
            }
            lemma_expand_concat(piece_entry(piece), rest, out0, max_hosts as nat);
        }
        let (a, b) = trim_bounds(&chars, pos, j);
        if a < b {
            let part = input.substring_char(a, b);
            proof {
                assert(part@ == trim(piece));
                assert(piece_entry(piece) == seq![part@]);
                assert(seq![part@].drop_first() =~= Seq::<Seq<char>>::empty());
                assert(seq![part@][0] == part@);
                seen = true;
            }
            match parse_ip_net(part) {
                Some(net) => {
                    let mut range = net_host_range(&net);
                    let ghost hosts = net_hosts(net);
                    assert(entry_targets(part@) == hosts);
                    let mut k: usize = 0;
                    loop
                        invariant
                            hosts == net_hosts(net),
                            hosts.len() > 0,
                            entry_targets(part@) == hosts,
                            piece_entry(piece) == seq![part@],
                            chars@ == input@,
                            whole == spec_expand(list_entries(chars@), seq![], max_hosts as nat),
                            k <= hosts.len(),
                            range_rest(range) == hosts.skip(k as int),
                            texts(out@) == out0 + hosts.take(k as int),
                            out0.len() == out@.len() - k,
                            out@.len() <= max_hosts,
                            whole == match spec_expand(piece_entry(piece), out0, max_hosts as nat) {
                                Err(e) => Err(e),
                                Ok(mid) => spec_expand(rest, mid, max_hosts as nat),
                            },
                        ensures
                            k == hosts.len(),
                            texts(out@) == out0 + hosts,
                            out@.len() <= max_hosts,
                        decreases hosts.len() - k,
                    {
                        let next = next_host(&mut range);
                        match next {
                            None => {
                                proof {
                                    assert(hosts.take(k as int) =~= hosts);
                                }
                                break;
                            },
                            Some(h) => {
                                let ghost before = out@;
                                out.push(h);
                                proof {
                                    assert(hosts.skip(k as int)[0] == hosts[k as int]);
                                    assert(texts(out@) =~= texts(before).push(h@));
                                    assert(hosts.take(k + 1) =~= hosts.take(k as int).push(hosts[k as int]));
                                    assert(hosts.skip(k as int).drop_first() =~= hosts.skip(k + 1));
                                    assert(texts(out@) =~= out0 + hosts.take(k + 1));
                                }
                                assert(k < out.len());
                                k = k + 1;
                                if out.len() > max_hosts {
                                    proof {
                                        assert(out0.len() + hosts.len() > max_hosts);
                                        assert(spec_expand(seq![part@], out0, max_hosts as nat) == Err::<Seq<Seq<char>>, TargetError>(TargetError::TooManyHosts(max_hosts)));
                                    }
                                    return Err(TargetError::TooManyHosts(max_hosts));
                                }
                            },
                        }
                    }
                    proof {
                        assert(spec_expand(seq![part@].drop_first(), out0 + hosts, max_hosts as nat) == Ok::<Seq<Seq<char>>, TargetError>(out0 + hosts));
                    }
                },
                None => {
                    assert(entry_targets(part@) == seq![part@]);
                    if out.len() >= max_hosts {
                        proof {
                            assert(spec_expand(seq![part@], out0, max_hosts as nat) == Err::<Seq<Seq<char>>, TargetError>(TargetError::TooManyHosts(max_hosts)));
                        }
                        return Err(TargetError::TooManyHosts(max_hosts));
                    }
                    out.push(part.to_owned());
                    proof {
                        assert(texts(out@) =~= out0.push(part@));
                        assert(out0 + seq![part@] =~= out0.push(part@));
                        assert(spec_expand(seq![part@].drop_first(), out0.push(part@), max_hosts as nat) == Ok::<Seq<Seq<char>>, TargetError>(out0.push(part@)));
                    }
                },
            }
        } else {
            proof {
                assert(piece_entry(piece) == Seq::<Seq<char>>::empty());
                assert(piece_entry(piece) + rest =~= rest);
            }
        }
        if j == n {
            break;
        }
        pos = j + 1;
    }
    if out.len() == 0 {
        return Err(TargetError::NoTargets);
    }
    Ok(out)
}

} // verus!
