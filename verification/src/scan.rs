//! The decisions of a scan run: how many probes run at once, the progress
//! messages, and the order in which a target's port outcomes are kept.

use vstd::prelude::*;
use vstd::string::*;
use vstd::multiset::Multiset;
use crate::text::{decimal, decimal_text};

verus! {

broadcast use vstd::string::group_string_axioms;

/// How many connection attempts run at once: as many as requested, but at least one.
pub fn effective_concurrency(requested: usize) -> (n: usize)
    ensures
        n == if requested == 0 {
            1
        } else {
            requested
        },
{
    if requested == 0 {
        1
    } else {
        requested
    }
}

/// The message that announces the scan of a target.
pub open spec fn scan_start_text(port_count: usize, target: Seq<char>) -> Seq<char> {
    "🔍 Scanning "@ + decimal_text(port_count as nat) + " ports on "@ + target
}

/// The message that announces the scan of `target` over `port_count` ports.
pub fn scan_start_message(port_count: usize, target: &str) -> (m: String)
    ensures
        m@ == scan_start_text(port_count, target@),
{
    let mut m = "🔍 Scanning ".to_owned();
    let d = decimal(port_count as u64);
    m.append(d.as_str());
    m.append(" ports on ");
    m.append(target);
    m
}

/// The message that reports the outcome of one probe.
pub open spec fn port_status_text(port: u16, open: bool) -> Seq<char> {
    "Port "@ + decimal_text(port as nat) + " "@ + if open {
        "open"@
    } else {
        "closed"@
    }
}

/// The message that reports whether `port` was found open.
pub fn port_status_message(port: u16, open: bool) -> (m: String)
    ensures
        m@ == port_status_text(port, open),
{
    let mut m = "Port ".to_owned();
    let d = decimal(port as u64);
    m.append(d.as_str());
    m.append(" ");
    if open {
        m.append("open");
    } else {
        m.append("closed");
    }
    m
}

/// The outcomes in `s` that concern `port`, in their order.
pub open spec fn outcomes_of(s: Seq<(u16, bool)>, port: u16) -> Seq<(u16, bool)>
    decreases s.len(),
{
    if s.len() == 0 {
        seq![]
    } else if s.last().0 == port {
        outcomes_of(s.drop_last(), port).push(s.last())
    } else {
        outcomes_of(s.drop_last(), port)
    }
}

/// Whether the outcomes are in ascending order of port.
pub open spec fn sorted_by_port(s: Seq<(u16, bool)>) -> bool {
    forall|i: int, j: int| 0 <= i < j < s.len() ==> s[i].0 <= s[j].0
}

proof fn lemma_outcomes_concat(a: Seq<(u16, bool)>, b: Seq<(u16, bool)>, port: u16)
    ensures
        outcomes_of(a + b, port) == outcomes_of(a, port) + outcomes_of(b, port),
    decreases b.len(),
{
    if b.len() == 0 {
        assert(a + b =~= a);
        assert(outcomes_of(a, port) + outcomes_of(b, port) =~= outcomes_of(a, port));
    } else {
        assert((a + b).drop_last() =~= a + b.drop_last());
        assert((a + b).last() == b.last());
        lemma_outcomes_concat(a, b.drop_last(), port);
        if b.last().0 == port {
            assert(outcomes_of(a, port) + outcomes_of(b.drop_last(), port).push(b.last())
                =~= (outcomes_of(a, port) + outcomes_of(b.drop_last(), port)).push(b.last()));
        }
    }
}

proof fn lemma_outcomes_none(s: Seq<(u16, bool)>, port: u16)
    requires
        forall|i: int| 0 <= i < s.len() ==> s[i].0 != port,
    ensures
        outcomes_of(s, port) == Seq::<(u16, bool)>::empty(),
    decreases s.len(),
{
    if s.len() > 0 {
        lemma_outcomes_none(s.drop_last(), port);
    }
}

/// Orders the outcomes of a target by port. The sort is stable: outcomes of
/// the same port keep their order.
pub fn sort_by_port(v: Vec<(u16, bool)>) -> (r: Vec<(u16, bool)>)
    ensures
        r@.len() == v@.len(),
        sorted_by_port(r@),
        forall|port: u16| #[trigger] outcomes_of(r@, port) == outcomes_of(v@, port),
{
    let mut r: Vec<(u16, bool)> = Vec::new();
    let n = v.len();
    let mut i: usize = 0;
    assert(v@.take(0) =~= Seq::<(u16, bool)>::empty());
    while i < n
        invariant
            n == v@.len(),
            i <= n,
            r@.len() == i,
            sorted_by_port(r@),
            forall|port: u16| #[trigger] outcomes_of(r@, port) == outcomes_of(v@.take(i as int), port),
        decreases n - i,
    {
        let x = v[i];
        let mut k = r.len();
        while k > 0 && r[k - 1].0 > x.0
            invariant
                k <= r@.len(),
                forall|j: int| k <= j < r@.len() ==> r@[j].0 > x.0,
            decreases k,
        {
            k = k - 1;
        }
        let ghost before = r@;
        r.insert(k, x);
        proof {
            assert(forall|j: int| 0 <= j < k ==> before[j].0 <= x.0) by {
                assert forall|j: int| 0 <= j < k implies before[j].0 <= x.0 by {
                    if k > 0 {
                        assert(before[k - 1].0 <= x.0);
                    }
                }
            }
            assert(v@.take(i + 1).drop_last() =~= v@.take(i as int));
            assert(v@.take(i + 1).last() == x);
            let head = before.take(k as int);
            let tail = before.skip(k as int);
            assert(before =~= head + tail);
            assert(r@ =~= head + seq![x] + tail);
            assert forall|port: u16| #[trigger] outcomes_of(r@, port) == outcomes_of(v@.take(i + 1), port) by {
                lemma_outcomes_concat(head, tail, port);
                lemma_outcomes_concat(head + seq![x], tail, port);
                lemma_outcomes_concat(head, seq![x], port);
                assert(seq![x].drop_last() =~= Seq::<(u16, bool)>::empty());
                assert(seq![x].last() == x);
                assert(outcomes_of(Seq::<(u16, bool)>::empty(), port) == Seq::<(u16, bool)>::empty());
                assert(Seq::<(u16, bool)>::empty().push(x) =~= seq![x]);
                if port == x.0 {
                    lemma_outcomes_none(tail, port);
                    assert(outcomes_of(seq![x], port) =~= seq![x]);
                    assert(outcomes_of(head, port) + seq![x] + Seq::<(u16, bool)>::empty() =~= outcomes_of(head, port).push(x));
                    assert(outcomes_of(head, port) + Seq::<(u16, bool)>::empty() =~= outcomes_of(head, port));
                } else {
                    assert(outcomes_of(seq![x], port) =~= Seq::<(u16, bool)>::empty());
                    assert(outcomes_of(head, port) + Seq::<(u16, bool)>::empty() =~= outcomes_of(head, port));
                }
            }
        }
        i = i + 1;
    }
    assert(v@.take(n as int) =~= v@);
    r
}


proof fn lemma_outcomes_member(s: Seq<(u16, bool)>, port: u16)
    requires
        outcomes_of(s, port).len() > 0,
    ensures
        exists|i: int| 0 <= i < s.len() && s[i].0 == port,
    decreases s.len(),
{
    if s.last().0 == port {
        assert(s[s.len() - 1].0 == port);
    } else {
        lemma_outcomes_member(s.drop_last(), port);
        let i = choose|i: int| 0 <= i < s.drop_last().len() && s.drop_last()[i].0 == port;
        assert(s[i].0 == port);
    }
}

/// Outcomes sorted by port are fixed by the outcomes of each port: two
/// sorted lists that agree port by port are the same list.
pub proof fn lemma_sorted_determined(r1: Seq<(u16, bool)>, r2: Seq<(u16, bool)>)
    requires
        sorted_by_port(r1),
        sorted_by_port(r2),
        forall|port: u16| #[trigger] outcomes_of(r1, port) == outcomes_of(r2, port),
    ensures
        r1 == r2,
    decreases r1.len() + r2.len(),
{
    if r1.len() == 0 && r2.len() == 0 {
        assert(r1 =~= r2);
    } else if r1.len() == 0 {
        assert(outcomes_of(r2, r2.last().0).len() > 0);
        assert(outcomes_of(r1, r2.last().0).len() == 0);
    } else if r2.len() == 0 {
        assert(outcomes_of(r1, r1.last().0).len() > 0);
        assert(outcomes_of(r2, r1.last().0).len() == 0);
    } else {
        let m1 = r1.last().0;
        let m2 = r2.last().0;
        assert(outcomes_of(r1, m1).len() > 0);
        assert(outcomes_of(r2, m2).len() > 0);
        lemma_outcomes_member(r2, m1);
        lemma_outcomes_member(r1, m2);
        let j = choose|j: int| 0 <= j < r2.len() && r2[j].0 == m1;
        let i = choose|i: int| 0 <= i < r1.len() && r1[i].0 == m2;
        assert(r2[j].0 <= r2[r2.len() - 1].0);
        assert(r1[i].0 <= r1[r1.len() - 1].0);
        assert(m1 == m2);
        let d1 = r1.drop_last();
        let d2 = r2.drop_last();
        assert(outcomes_of(r1, m1) == outcomes_of(d1, m1).push(r1.last()));
        assert(outcomes_of(r2, m1) == outcomes_of(d2, m1).push(r2.last()));
        assert(outcomes_of(d1, m1).push(r1.last()).last() == r1.last());
        assert(r1.last() == r2.last());
        assert(outcomes_of(d1, m1) =~= outcomes_of(d1, m1).push(r1.last()).drop_last());
        assert(outcomes_of(d2, m1) =~= outcomes_of(d2, m1).push(r2.last()).drop_last());
        assert forall|port: u16| #[trigger] outcomes_of(d1, port) == outcomes_of(d2, port) by {
            if port != m1 {
                assert(outcomes_of(r1, port) == outcomes_of(d1, port));
                assert(outcomes_of(r2, port) == outcomes_of(d2, port));
            }
        }
        lemma_sorted_determined(d1, d2);
        assert(r1 =~= d1.push(r1.last()));
        assert(r2 =~= d2.push(r2.last()));
    }
}

proof fn lemma_outcomes_copies(s: Seq<(u16, bool)>, x: (u16, bool))
    requires
        forall|i: int| 0 <= i < s.len() && s[i].0 == x.0 ==> s[i] == x,
    ensures
        outcomes_of(s, x.0) == Seq::new(s.to_multiset().count(x), |i: int| x),
    decreases s.len(),
{
    broadcast use vstd::seq_lib::group_to_multiset_ensures;

    if s.len() == 0 {
        assert(s.to_multiset() =~= Multiset::<(u16, bool)>::empty()) by {
            assert(s.to_multiset().len() == 0);
        }
        assert(Seq::new(s.to_multiset().count(x), |i: int| x) =~= Seq::<(u16, bool)>::empty());
    } else {
        let d = s.drop_last();
        let l = s.last();
        assert(d.push(l) =~= s);
        assert forall|i: int| 0 <= i < d.len() && d[i].0 == x.0 implies d[i] == x by {
            assert(d[i] == s[i]);
        }
        lemma_outcomes_copies(d, x);
        assert(s.to_multiset() =~= d.to_multiset().insert(l));
        if l.0 == x.0 {
            assert(s[s.len() - 1] == x);
            assert(Seq::new(d.to_multiset().count(x), |i: int| x).push(x) =~= Seq::new(
                s.to_multiset().count(x),
                |i: int| x,
            ));
        } else {
            assert(l != x);
        }
    }
}

/// Whether no port has two different outcomes.
pub open spec fn one_outcome_per_port(s: Seq<(u16, bool)>) -> bool {
    forall|i: int, j: int| 0 <= i < s.len() && 0 <= j < s.len() && s[i].0 == s[j].0 ==> s[i] == s[j]
}

/// The order in which probes finish does not show in what is kept: when
/// two runs give the same outcomes (as a multiset), one outcome per port,
/// ordering each by port gives the same list.
pub proof fn lemma_completion_order(
    a: Seq<(u16, bool)>,
    b: Seq<(u16, bool)>,
    ra: Seq<(u16, bool)>,
    rb: Seq<(u16, bool)>,
)
    requires
        a.to_multiset() == b.to_multiset(),
        one_outcome_per_port(a),
        sorted_by_port(ra),
        sorted_by_port(rb),
        forall|port: u16| #[trigger] outcomes_of(ra, port) == outcomes_of(a, port),
        forall|port: u16| #[trigger] outcomes_of(rb, port) == outcomes_of(b, port),
    ensures
        ra == rb,
{
    broadcast use vstd::seq_lib::group_to_multiset_ensures;

    assert forall|port: u16| #[trigger] outcomes_of(ra, port) == outcomes_of(rb, port) by {
        if exists|i: int| 0 <= i < a.len() && a[i].0 == port {
            let i = choose|i: int| 0 <= i < a.len() && a[i].0 == port;
            let x = a[i];
            assert forall|j: int| 0 <= j < b.len() && b[j].0 == port implies b[j] == x by {
                assert(b.contains(b[j]));
                assert(b.to_multiset().count(b[j]) > 0);
                assert(a.contains(b[j]));
                let k = choose|k: int| 0 <= k < a.len() && a[k] == b[j];
                assert(a[k].0 == a[i].0);
            }
            lemma_outcomes_copies(a, x);
            lemma_outcomes_copies(b, x);
        } else {
            assert forall|j: int| 0 <= j < b.len() implies b[j].0 != port by {
                assert(b.contains(b[j]));
                assert(b.to_multiset().count(b[j]) > 0);
                assert(a.contains(b[j]));
                let k = choose|k: int| 0 <= k < a.len() && a[k] == b[j];
                assert(a[k].0 != port);
            }
            lemma_outcomes_none(a, port);
            lemma_outcomes_none(b, port);
        }
    }
    lemma_sorted_determined(ra, rb);
}

} // verus!
