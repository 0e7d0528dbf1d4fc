//! What is known of the bugs that were triggered.
use vstd::prelude::*;
use std::str::FromStr;

use crate::bgp::{Event, EventView, Prefix, RouterId, Time};
use crate::recording::{Recording, RouterSequences, TimestampedEvent};
use crate::strings::{contains_part, get_last_word, has_part, last_word};

verus! {

/// The address of the network with number 0. The networks that follow have 256 addresses each.
pub const FIRST_NETWORK: u32 = 0x6400_0000;

/// The address and the length of an IPv4 network, as `ipnet::Ipv4Net::from_str` parses it.
pub uninterp spec fn network_of(s: Seq<char>) -> Option<(u32, u8)>;

/// `ipnet::Ipv4Net::from_str`: the address and the prefix length of a network in CIDR notation, or
/// `None` if it is none. What the parser accepts is left to it.
#[verifier::external_body]
fn parse_network(s: &str) -> (r: Option<(u32, u8)>)
    ensures
        r == network_of(s@),
{
    match ipnet::Ipv4Net::from_str(s) {
        Ok(net) => Some((u32::from(net.addr()), net.prefix_len())),
        Err(_) => None,
    }
}

/// The number of the prefix with an address, which must not be below the first network.
pub open spec fn prefix_number(address: u32) -> Prefix {
    ((address - FIRST_NETWORK) / 256) as Prefix
}

/// The number of the prefix with an address.
pub fn prefix_at(address: u32) -> (r: Prefix)
    requires
        address >= FIRST_NETWORK,
    ensures
        r == prefix_number(address),
{
    (address - FIRST_NETWORK) / 256
}

/// The prefix that a network in CIDR notation stands for. `None` if it is none, or one below the first
/// network.
pub open spec fn prefix_in(s: Seq<char>) -> Option<Prefix> {
    match network_of(s) {
        Some((address, _)) => if address >= FIRST_NETWORK {
            Some(prefix_number(address))
        } else {
            None
        },
        None => None,
    }
}

/// Parse a prefix.
pub fn parse_prefix(s: &str) -> (r: Option<Prefix>)
    ensures
        r == prefix_in(s@),
{
    match parse_network(s) {
        Some((address, _)) => if address >= FIRST_NETWORK {
            Some(prefix_at(address))
        } else {
            None
        },
        None => None,
    }
}

/// A line of the log of a router.
#[derive(Debug)]
pub struct LogMessage {
    pub timestamp: Time,
    pub content: String,
}

/// A bug that was triggered.
#[derive(Debug, Clone, Copy, PartialEq, Eq)]
pub struct BugReport {
    pub timestamp: Time,
    pub router: RouterId,
    pub prefix: Prefix,
}

/// The report in a line of the log: its last word is the prefix.
pub open spec fn report_in(msg: LogMessage, router: RouterId) -> Option<BugReport> {
    match prefix_in(last_word(msg.content@)) {
        Some(prefix) => Some(BugReport { timestamp: msg.timestamp, router, prefix }),
        None => None,
    }
}

impl BugReport {
    /// Try to read a report from a line of the log.
    pub fn maybe_from(msg: &LogMessage, router: RouterId) -> (r: Option<Self>)
        ensures
            r == report_in(*msg, router),
    {
        match parse_prefix(get_last_word(msg.content.as_str())) {
            Some(prefix) => Some(BugReport { timestamp: msg.timestamp, router, prefix }),
            None => None,
        }
    }
}

/// Every line holds a report.
pub open spec fn all_reports(log: Seq<LogMessage>, router: RouterId) -> bool {
    forall|i: int| 0 <= i < log.len() ==> report_in(#[trigger] log[i], router) is Some
}

/// A line tells of a bug: it holds the mark that a router with logging sets.
pub open spec fn is_marked(msg: LogMessage) -> bool {
    has_part(msg.content@, "<<<:::BUG:::>>>"@)
}

/// The lines that tell of bugs between two times, both of which count.
pub open spec fn marked_between(
    log: Seq<LogMessage>,
    start: Time,
    finish: Time,
) -> Seq<LogMessage>
    decreases log.len(),
{
    if log.len() == 0 {
        Seq::empty()
    } else {
        let init = marked_between(log.drop_last(), start, finish);
        if is_marked(log.last()) && start <= log.last().timestamp <= finish {
            init.push(log.last())
        } else {
            init
        }
    }
}

/// The reports in the log of a router on what happened in an interval: `None` if the router has never
/// logged a bug, or if some line on a bug in the interval holds no report.
pub fn lp_ground_truth(log: &Vec<LogMessage>, router: RouterId, interval: (Time, Time)) -> (r: Option<
    Vec<BugReport>,
>)
    ensures
        ({
            let lines = marked_between(log@, interval.0, interval.1);
            let has_logged = exists|i: int| 0 <= i < log@.len() && is_marked(#[trigger] log@[i]);
            match r {
                Some(reports) => has_logged && all_reports(lines, router) && reports@ == Seq::new(
                    lines.len(),
                    |i: int| report_in(lines[i], router)->0,
                ),
                None => !has_logged || !all_reports(lines, router),
            }
        }),
{
    let mut has_logged = false;
    let mut complete = true;
    let mut reports: Vec<BugReport> = Vec::new();
    assert(log@.take(0) =~= Seq::empty());
    for i in 0..log.len()
        invariant
            has_logged == exists|j: int| 0 <= j < i && is_marked(#[trigger] log@[j]),
            complete == all_reports(
                marked_between(log@.take(i as int), interval.0, interval.1),
                router,
            ),
            complete ==> reports@ == Seq::new(
                marked_between(log@.take(i as int), interval.0, interval.1).len(),
                |j: int|
                    report_in(
                        marked_between(log@.take(i as int), interval.0, interval.1)[j],
                        router,
                    )->0,
            ),
    {
        let ghost before = marked_between(log@.take(i as int), interval.0, interval.1);
        let ghost after = marked_between(log@.take(i + 1), interval.0, interval.1);
        assert(log@.take(i + 1).drop_last() =~= log@.take(i as int));
        assert(log@.take(i + 1).last() == log@[i as int]);
        let msg: &LogMessage = &log[i];
        if contains_part(msg.content.as_str(), "<<<:::BUG:::>>>") {
            assert(is_marked(log@[i as int]));
            has_logged = true;
            if interval.0 <= msg.timestamp && msg.timestamp <= interval.1 {
                assert(after == before.push(*msg));
                assert(all_reports(after, router) == (all_reports(before, router) && report_in(
                    *msg,
                    router,
                ) is Some)) by {
                    assert(after.last() == *msg);
                    assert forall|j: int| 0 <= j < before.len() implies #[trigger] before[j]
                        == after[j] by {}
                }
                match BugReport::maybe_from(msg, router) {
                    Some(report) => reports.push(report),
                    None => complete = false,
                }
            }
        }
    }
    assert(log@.take(log@.len() as int) =~= log@);
    if has_logged && complete {
        Some(reports)
    } else {
        None
    }
}

/// The messages of a router that should not have left it: those to anyone but `external`.
pub open spec fn leaked(
    s: Seq<TimestampedEvent>,
    router: RouterId,
    external: RouterId,
    prefix: Prefix,
) -> Seq<BugReport>
    decreases s.len(),
{
    if s.len() == 0 {
        Seq::empty()
    } else {
        let init = leaked(s.drop_last(), router, external, prefix);
        match s.last().0.event@ {
            EventView::Bgp { p, src, dst, .. } => if src == router && dst != external {
                init.push(BugReport { timestamp: p, router, prefix })
            } else {
                init
            },
            EventView::Ospf { .. } => init,
        }
    }
}

/// The messages that should not have left a router, one prefix after the other.
pub open spec fn all_leaked(
    s: Seq<(Prefix, RouterSequences)>,
    router: RouterId,
    external: RouterId,
) -> Seq<BugReport>
    decreases s.len(),
{
    if s.len() == 0 {
        Seq::empty()
    } else {
        let (prefix, routers) = s.last();
        all_leaked(s.drop_last(), router, external) + if routers@.contains_key(router) {
            leaked(routers@[router]@, router, external, prefix)
        } else {
            Seq::empty()
        }
    }
}

fn append_leaked(
    reports: &mut Vec<BugReport>,
    s: &Vec<TimestampedEvent>,
    router: RouterId,
    external: RouterId,
    prefix: Prefix,
)
    ensures
        final(reports)@ == old(reports)@ + leaked(s@, router, external, prefix),
{
    let ghost start = reports@;
    let ghost all = s@;
    assert(all.take(0) =~= Seq::<TimestampedEvent>::empty());
    assert(start + leaked(all.take(0), router, external, prefix) =~= start);
    for i in 0..s.len()
        invariant
            all == s@,
            reports@ == start + leaked(all.take(i as int), router, external, prefix),
    {
        assert(all.take(i + 1).drop_last() =~= all.take(i as int));
        assert(all.take(i + 1).last() == all[i as int]);
        match &s[i].0.event {
            Event::Bgp { p, src, dst, .. } => {
                if *src == router && *dst != external {
                    reports.push(BugReport { timestamp: *p, router, prefix });
                    assert(reports@ =~= start + leaked(
                        all.take(i + 1),
                        router,
                        external,
                        prefix,
                    ));
                }
            },
            Event::Ospf { .. } => {},
        }
    }
    assert(all.take(all.len() as int) =~= all);
}

/// A bug has been triggered whenever a prefix that is not whitelisted leaves the router on an internal
/// session. `None` if there is no such message.
pub fn pl_ground_truth(
    recording: &Recording,
    router: RouterId,
    external: RouterId,
) -> (r: Option<Vec<BugReport>>)
    requires
        recording.wf(),
    ensures
        match r {
            Some(reports) => reports@ == all_leaked(
                recording.sequences.entries@,
                router,
                external,
            ) && reports@.len() > 0,
            None => all_leaked(recording.sequences.entries@, router, external).len() == 0,
        },
{
    let mut reports: Vec<BugReport> = Vec::new();
    let ghost all = recording.sequences.entries@;
    assert(all.take(0) =~= Seq::<(Prefix, RouterSequences)>::empty());
    for i in 0..recording.sequences.entries.len()
        invariant
            all == recording.sequences.entries@,
            recording.wf(),
            reports@ == all_leaked(all.take(i as int), router, external),
    {
        let ghost before = reports@;
        proof {
            assert(all.take(i + 1).drop_last() =~= all.take(i as int));
            assert(all.take(i + 1).last() == all[i as int]);
            crate::keyed::lemma_entry(all, i as int);
            assert(recording.sequences@.contains_key(all[i as int].0));
        }
        let prefix: Prefix = recording.sequences.entries[i].0;
        match recording.sequences.entries[i].1.get(router) {
            Some(s) => append_leaked(&mut reports, s, router, external, prefix),
            None => {
                assert(before + Seq::<BugReport>::empty() =~= before);
            },
        }
    }
    assert(all.take(all.len() as int) =~= all);
    if reports.len() == 0 {
        None
    } else {
        Some(reports)
    }
}

/// The networks are numbered from the first one on, and each of them has 256 addresses.
pub proof fn law_numbers_of_networks(k: nat, j: nat)
    requires
        j < 256,
        0x6400_0000 + 256 * k + j <= u32::MAX,
    ensures
        prefix_number((0x6400_0000 + 256 * k + j) as u32) == k,
{
    assert((256 * k + j) / 256 == k) by (nonlinear_arith)
        requires
            j < 256,
    ;
}

/// A report tells of the router, and of the time and the prefix of its line. A line holds a report exactly
/// if its last word is a network that is not below the first one.
pub proof fn law_report_in_a_line(msg: LogMessage, router: RouterId)
    ensures
        match network_of(last_word(msg.content@)) {
            None => report_in(msg, router) is None,
            Some((address, _)) => if address < 0x6400_0000 {
                report_in(msg, router) is None
            } else {
                report_in(msg, router) matches Some(r) && r.router == router && r.timestamp
                    == msg.timestamp && r.prefix * 256 <= address - 0x6400_0000 < (r.prefix + 1)
                    * 256
            },
        },
{
}

/// Of a log the lines are taken that hold the mark somewhere and lie in the interval, and no others, in
/// their order: what is taken of two parts of a log is what is taken of the whole.
pub proof fn law_marked_lines(
    a: Seq<LogMessage>,
    b: Seq<LogMessage>,
    m: LogMessage,
    start: Time,
    finish: Time,
)
    ensures
        marked_between(a + b, start, finish) == marked_between(a, start, finish) + marked_between(
            b,
            start,
            finish,
        ),
        marked_between(seq![m], start, finish) == if start <= m.timestamp && m.timestamp <= finish
            && exists|i: int|
            0 <= i && i + "<<<:::BUG:::>>>"@.len() <= m.content@.len() && #[trigger] m.content@.subrange(
                i,
                i + "<<<:::BUG:::>>>"@.len(),
            ) == "<<<:::BUG:::>>>"@ {
            seq![m]
        } else {
            Seq::<LogMessage>::empty()
        },
    decreases b.len(),
{
    reveal_with_fuel(marked_between, 2);
    let mark = "<<<:::BUG:::>>>"@;
    assert(seq![m].drop_last() =~= Seq::<LogMessage>::empty());
    assert(marked_between(seq![m].drop_last(), start, finish) =~= Seq::<LogMessage>::empty());
    if is_marked(m) {
        let i = choose|i: int| #[trigger] crate::strings::part_at(m.content@, mark, i);
        assert(m.content@.subrange(i, i + mark.len()) == mark);
    }
    if exists|i: int|
        0 <= i && i + mark.len() <= m.content@.len() && #[trigger] m.content@.subrange(
            i,
            i + mark.len(),
        ) == mark {
        let i = choose|i: int|
            0 <= i && i + mark.len() <= m.content@.len() && #[trigger] m.content@.subrange(
                i,
                i + mark.len(),
            ) == mark;
        assert(crate::strings::part_at(m.content@, mark, i));
    }
    assert(seq![m].last() == m);
    assert(Seq::<LogMessage>::empty().push(m) =~= seq![m]);
    if b.len() == 0 {
        assert(a + b =~= a);
        assert(marked_between(a, start, finish) + marked_between(b, start, finish)
            =~= marked_between(a, start, finish));
    } else {
        law_marked_lines(a, b.drop_last(), m, start, finish);
        assert((a + b).drop_last() =~= a + b.drop_last());
        assert((a + b).last() == b.last());
        assert(marked_between(a + b, start, finish) =~= marked_between(a, start, finish)
            + marked_between(b, start, finish));
    }
}

/// The message is one that the router should not have sent.
spec fn is_leak(m: TimestampedEvent, router: RouterId, external: RouterId, timestamp: Time) -> bool {
    m.0.event@ matches EventView::Bgp { p, src, dst, .. } && p == timestamp && src == router && dst
        != external
}

proof fn lemma_leaked(
    s: Seq<TimestampedEvent>,
    router: RouterId,
    external: RouterId,
    prefix: Prefix,
)
    ensures
        forall|x: BugReport| #[trigger]
            leaked(s, router, external, prefix).contains(x) <==> x.router == router && x.prefix
                == prefix && exists|j: int|
                0 <= j < s.len() && is_leak(#[trigger] s[j], router, external, x.timestamp),
    decreases s.len(),
{
    if s.len() > 0 {
        let init = s.drop_last();
        lemma_leaked(init, router, external, prefix);
        let (a, b) = (
            leaked(init, router, external, prefix),
            leaked(s, router, external, prefix),
        );
        assert forall|x: BugReport| #[trigger] b.contains(x) <==> x.router == router && x.prefix
            == prefix && exists|j: int|
            0 <= j < s.len() && is_leak(#[trigger] s[j], router, external, x.timestamp) by {
            let here = x.router == router && x.prefix == prefix && is_leak(
                s.last(),
                router,
                external,
                x.timestamp,
            );
            assert(b.contains(x) <==> a.contains(x) || here) by {
                broadcast use vstd::seq_lib::group_seq_properties;

            }
            if here {
                assert(is_leak(s[s.len() - 1], router, external, x.timestamp));
            }
            if a.contains(x) {
                let j = choose|j: int|
                    0 <= j < init.len() && is_leak(#[trigger] init[j], router, external, x.timestamp);
                assert(is_leak(s[j], router, external, x.timestamp));
            }
            if exists|j: int|
                0 <= j < s.len() && is_leak(#[trigger] s[j], router, external, x.timestamp) {
                let j = choose|j: int|
                    0 <= j < s.len() && is_leak(#[trigger] s[j], router, external, x.timestamp);
                if j < init.len() {
                    assert(is_leak(init[j], router, external, x.timestamp));
                }
            }
        }
    }
}

/// The reports on a prefix list are those of the messages that the router has sent to a neighbor other
/// than the external one: every report stems from such a message, with its prefix and its time, and every
/// such message has a report. So there is none if the router talks to its external neighbor only.
pub proof fn law_reports_are_leaks(
    s: Seq<(Prefix, RouterSequences)>,
    router: RouterId,
    external: RouterId,
    x: BugReport,
)
    ensures
        all_leaked(s, router, external).contains(x) <==> x.router == router && exists|i: int, j: int|
            0 <= i < s.len() && (#[trigger] s[i]).0 == x.prefix && s[i].1@.contains_key(router) && 0
                <= j < s[i].1@[router]@.len() && ((#[trigger] s[i].1@[router]@[j]).0.event@ matches
                EventView::Bgp { p, src, dst, .. } && p == x.timestamp && src == router && dst
                != external),
        (forall|i: int, j: int|
            0 <= i < s.len() && s[i].1@.contains_key(router) && 0 <= j < s[i].1@[router]@.len()
                ==> (#[trigger] s[i].1@[router]@[j]).0.event@.router() == external) ==> all_leaked(
            s,
            router,
            external,
        ).len() == 0,
    decreases s.len(),
{
    if s.len() > 0 {
        let init = s.drop_last();
        let (prefix, routers) = s.last();
        law_reports_are_leaks(init, router, external, x);
        let (a, b) = (all_leaked(init, router, external), all_leaked(s, router, external));
        let more = if routers@.contains_key(router) {
            leaked(routers@[router]@, router, external, prefix)
        } else {
            Seq::empty()
        };
        if routers@.contains_key(router) {
            lemma_leaked(routers@[router]@, router, external, prefix);
        }
        assert(b == a + more);
        assert(b.contains(x) <==> a.contains(x) || more.contains(x)) by {
            if a.contains(x) {
                let k = a.index_of(x);
                assert(b[k] == x);
            }
            if more.contains(x) {
                let k = more.index_of(x);
                assert(b[a.len() + k] == x);
            }
        }
        assert forall|i: int| 0 <= i < init.len() implies #[trigger] init[i] == s[i] by {}
        if more.contains(x) {
            let list = routers@[router]@;
            let j = choose|j: int|
                0 <= j < list.len() && is_leak(#[trigger] list[j], router, external, x.timestamp);
            let i = s.len() - 1;
            assert(s[i].1@[router]@[j] == list[j]);
        }
        if exists|i: int, j: int|
            0 <= i < s.len() && (#[trigger] s[i]).0 == x.prefix && s[i].1@.contains_key(router) && 0
                <= j < s[i].1@[router]@.len() && is_leak(
                #[trigger] s[i].1@[router]@[j],
                router,
                external,
                x.timestamp,
            ) {
            let (i, j) = choose|i: int, j: int|
                0 <= i < s.len() && (#[trigger] s[i]).0 == x.prefix && s[i].1@.contains_key(router)
                    && 0 <= j < s[i].1@[router]@.len() && is_leak(
                    #[trigger] s[i].1@[router]@[j],
                    router,
                    external,
                    x.timestamp,
                );
            if i < init.len() {
                assert(init[i].1@[router]@[j] == s[i].1@[router]@[j]);
            } else {
                assert(is_leak(routers@[router]@[j], router, external, x.timestamp));
            }
        }
        if forall|i: int, j: int|
            0 <= i < s.len() && s[i].1@.contains_key(router) && 0 <= j < s[i].1@[router]@.len()
                ==> (#[trigger] s[i].1@[router]@[j]).0.event@.router() == external {
            assert forall|i: int, j: int|
                0 <= i < init.len() && init[i].1@.contains_key(router) && 0 <= j
                    < init[i].1@[router]@.len() implies (
            #[trigger] init[i].1@[router]@[j]).0.event@.router() == external by {
                assert(s[i].1@[router]@[j].0.event@.router() == external);
            }
            if more.len() > 0 {
                let y = more[0];
                assert(more.contains(y));
                let list = routers@[router]@;
                let j = choose|j: int|
                    0 <= j < list.len() && is_leak(#[trigger] list[j], router, external, y.timestamp);
                let i = s.len() - 1;
                assert(s[i].1@[router]@[j].0.event@.router() == external);
            }
        }
    }
}

/// The text of a network gives its number, unless it lies below the first one. What is no network gives
/// none.
pub proof fn law_prefixes_in_texts(s: Seq<char>)
    ensures
        match network_of(s) {
            None => prefix_in(s) is None,
            Some((address, _)) => if address < 0x6400_0000 {
                prefix_in(s) is None
            } else {
                prefix_in(s) matches Some(p) && p * 256 <= address - 0x6400_0000 < (p + 1) * 256
            },
        },
{
}

/// A message that the router sends to another neighbor than the external one adds one report, behind the
/// others. Any other message adds none.
pub proof fn law_one_report_per_leak(
    s: Seq<TimestampedEvent>,
    m: TimestampedEvent,
    router: RouterId,
    external: RouterId,
    prefix: Prefix,
)
    ensures
        ({
            let (a, b) = (
                leaked(s, router, external, prefix),
                leaked(s.push(m), router, external, prefix),
            );
            let e = m.0.event@;
            if e is Bgp && e.source() == router && e.router() != external {
                &&& b.len() == a.len() + 1
                &&& b.drop_last() == a
                &&& b.last().timestamp == e.priority()
                &&& b.last().router == router
                &&& b.last().prefix == prefix
            } else {
                b == a
            }
        }),
        leaked(Seq::empty(), router, external, prefix).len() == 0,
{
    assert(s.push(m).drop_last() =~= s);
    let (a, b) = (leaked(s, router, external, prefix), leaked(s.push(m), router, external, prefix));
    let e = m.0.event@;
    if e is Bgp && e.source() == router && e.router() != external {
        assert(b.drop_last() =~= a);
    }
}

} // verus!
