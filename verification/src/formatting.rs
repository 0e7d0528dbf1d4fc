//! Writing down events, recordings and errors. The texts of prefixes, routes and times are given.
use vstd::prelude::*;
use vstd::string::*;

use crate::bgp::RouterId;
use crate::controller::ControllerError;
use crate::ground_truth::BugReport;
use crate::monitoring::MonitoringError;
use crate::simulation::{SimulationEvent, SimulationView};
use crate::strings::{ends_with, has_part, law_parts_of_strings, starts_with};
use crate::text::{append_number, decimal, Names};

verus! {

/// A number of spaces.
pub open spec fn spaces(n: int) -> Seq<char> {
    Seq::new(
        if n > 0 {
            n as nat
        } else {
            0
        },
        |i: int| ' ',
    )
}

/// The text, followed by spaces up to a width.
pub open spec fn padded(text: Seq<char>, width: nat) -> Seq<char> {
    text + spaces(width - text.len())
}

/// Append a text, followed by spaces up to a width.
pub fn append_padded(s: &mut String, text: &str, width: usize)
    ensures
        final(s)@ == old(s)@ + padded(text@, width as nat),
{
    let ghost start = s@;
    s.append(text);
    let n: usize = text.unicode_len();
    let mut i: usize = n;
    proof {
        assert(s@ =~= start + text@ + spaces(0));
        reveal_strlit(" ");
    }
    while i < width
        invariant
            n <= i,
            i <= width || i == n,
            n == text@.len(),
            s@ == start + text@ + spaces(i - n),
        decreases width - i,
    {
        s.append(" ");
        i += 1;
        assert(s@ =~= start + text@ + spaces(i - n)) by {
            reveal_strlit(" ");
            assert(spaces(i - n) =~= spaces(i - n - 1) + " "@);
        }
    }
    assert(s@ =~= start + padded(text@, width as nat));
}

/// Append a number of spaces.
fn append_spaces(s: &mut String, n: usize)
    ensures
        final(s)@ == old(s)@ + spaces(n as int),
{
    let ghost start = s@;
    let empty: &str = "";
    append_padded(s, empty, n);
    proof {
        reveal_strlit("");
        assert(padded(""@, n as nat) =~= spaces(n as int));
    }
}

/// The text of a reported bug.
pub open spec fn bug_text(
    b: BugReport,
    time: Seq<char>,
    prefix: Seq<char>,
    names: &Names,
) -> Seq<char> {
    padded(time, 24) + " : Reported bug on "@ + names.name(b.router) + " for prefix "@ + prefix
}

impl BugReport {
    /// Write down a report.
    pub fn fmt(&self, time: &str, prefix: &str, names: &Names) -> (r: String)
        requires
            names.names.wf(),
        ensures
            r@ == bug_text(*self, time@, prefix@, names),
    {
        let mut s = String::new();
        append_padded(&mut s, time, 24);
        s.append(" : Reported bug on ");
        names.append_name(&mut s, self.router);
        s.append(" for prefix ");
        s.append(prefix);
        assert(s@ =~= bug_text(*self, time@, prefix@, names));
        s
    }
}

/// The text of an event of the simulation.
pub open spec fn event_text(
    e: SimulationView,
    prefix: Seq<char>,
    path: Seq<char>,
    names: &Names,
) -> Seq<char> {
    match e {
        SimulationView::External(e) => if e.route is Some {
            "Advertising "@ + prefix + " from "@ + names.name(e.external_neighbor)
                + " with AS path "@ + path
        } else {
            "Withdrawing "@ + prefix + " from "@ + names.name(e.external_neighbor)
        },
        SimulationView::Reconfiguration => "Reconfiguring"@,
    }
}

impl SimulationEvent {
    /// Write down an event.
    pub fn fmt(&self, prefix: &str, path: &str, names: &Names) -> (r: String)
        requires
            names.names.wf(),
        ensures
            r@ == event_text(self@, prefix@, path@, names),
    {
        match self {
            SimulationEvent::External(e) => {
                let mut s = if e.route.is_some() {
                    String::from_str("Advertising ")
                } else {
                    String::from_str("Withdrawing ")
                };
                s.append(prefix);
                s.append(" from ");
                names.append_name(&mut s, e.external_neighbor);
                if e.route.is_some() {
                    s.append(" with AS path ");
                    s.append(path);
                }
                s
            },
            SimulationEvent::Reconfiguration => String::from_str("Reconfiguring"),
        }
    }
}

/// An event and its time, as texts.
pub type Line = (String, String);

/// The text of the events of an interval.
pub open spec fn interval_text(s: Seq<Line>) -> Seq<char>
    decreases s.len(),
{
    if s.len() == 0 {
        Seq::empty()
    } else {
        interval_text(s.drop_last()) + "  "@ + padded(s.last().0@, 18) + " : "@ + s.last().1@
            + ",\n"@
    }
}

/// The text of several intervals.
pub open spec fn intervals_text(s: Seq<Vec<Line>>) -> Seq<char>
    decreases s.len(),
{
    if s.len() == 0 {
        Seq::empty()
    } else {
        intervals_text(s.drop_last()) + interval_text(s.last()@)
            + "  --- Pausing between intervals ---,\n"@
    }
}

fn append_interval(r: &mut String, lines: &Vec<Line>)
    ensures
        final(r)@ == old(r)@ + interval_text(lines@),
{
    let ghost start = r@;
    let ghost all = lines@;
    assert(all.take(0) =~= Seq::<Line>::empty());
    assert(r@ =~= start + interval_text(all.take(0)));
    for i in 0..lines.len()
        invariant
            all == lines@,
            r@ == start + interval_text(all.take(i as int)),
    {
        assert(all.take(i + 1).drop_last() =~= all.take(i as int));
        r.append("  ");
        append_padded(r, lines[i].0.as_str(), 18);
        r.append(" : ");
        r.append(lines[i].1.as_str());
        r.append(",\n");
        assert(r@ =~= start + interval_text(all.take(i + 1)));
    }
    assert(all.take(all.len() as int) =~= all);
}

/// Write down a sequence.
pub fn fmt_sequence(intervals: &Vec<Vec<Line>>) -> (r: String)
    ensures
        r@ == "Sequence [\n"@ + intervals_text(intervals@) + "]"@,
{
    let ghost all = intervals@;
    let mut r = String::from_str("Sequence [\n");
    let ghost start = r@;
    assert(all.take(0) =~= Seq::<Vec<Line>>::empty());
    assert(r@ =~= start + intervals_text(all.take(0)));
    for i in 0..intervals.len()
        invariant
            all == intervals@,
            r@ == start + intervals_text(all.take(i as int)),
    {
        assert(all.take(i + 1).drop_last() =~= all.take(i as int));
        append_interval(&mut r, &intervals[i]);
        r.append("  --- Pausing between intervals ---,\n");
        assert(r@ =~= start + intervals_text(all.take(i + 1)));
    }
    assert(all.take(all.len() as int) =~= all);
    r.append("]");
    r
}

/// A message of a recording: its time, its ends, and what it says.
#[derive(Debug)]
pub struct MessageText {
    pub time: String,
    pub src: RouterId,
    pub dst: RouterId,
    pub text: String,
}

/// The text of a message.
pub open spec fn message_text(m: MessageText, names: &Names) -> Seq<char> {
    m.time@ + ": ("@ + names.name(m.src) + ")->("@ + names.name(m.dst) + ") "@ + m.text@
}

/// The text of the messages of a router.
pub open spec fn messages_text(s: Seq<MessageText>, names: &Names) -> Seq<char>
    decreases s.len(),
{
    if s.len() == 0 {
        Seq::empty()
    } else if s.len() == 1 {
        message_text(s[0], names)
    } else {
        messages_text(s.drop_last(), names) + ", "@ + message_text(s.last(), names)
    }
}

/// The messages of a router.
pub type RouterText = (RouterId, Vec<MessageText>);

/// The text of the messages of several routers.
pub open spec fn routers_text(s: Seq<RouterText>, names: &Names) -> Seq<char>
    decreases s.len(),
{
    if s.len() == 0 {
        Seq::empty()
    } else {
        routers_text(s.drop_last(), names) + " "@ + names.name(s.last().0) + ": ["@ + messages_text(
            s.last().1@,
            names,
        ) + "],"@
    }
}

/// The messages of a prefix, by router.
pub type PrefixText = (String, Vec<RouterText>);

/// The text of the messages of several prefixes.
pub open spec fn prefixes_text(s: Seq<PrefixText>, names: &Names) -> Seq<char>
    decreases s.len(),
{
    if s.len() == 0 {
        Seq::empty()
    } else {
        prefixes_text(s.drop_last(), names) + " "@ + s.last().0@ + ": {"@ + routers_text(
            s.last().1@,
            names,
        ) + " },"@
    }
}

fn append_messages(r: &mut String, messages: &Vec<MessageText>, names: &Names)
    requires
        names.names.wf(),
    ensures
        final(r)@ == old(r)@ + messages_text(messages@, names),
{
    let ghost start = r@;
    let ghost all = messages@;
    assert(all.take(0) =~= Seq::<MessageText>::empty());
    assert(r@ =~= start + messages_text(all.take(0), names));
    for i in 0..messages.len()
        invariant
            names.names.wf(),
            all == messages@,
            r@ == start + messages_text(all.take(i as int), names),
    {
        let ghost next = all.take(i + 1);
        assert(next.drop_last() =~= all.take(i as int));
        assert(next.last() == all[i as int]);
        if i > 0 {
            r.append(", ");
        }
        let ghost middle = r@;
        let m: &MessageText = &messages[i];
        r.append(m.time.as_str());
        r.append(": (");
        names.append_name(r, m.src);
        r.append(")->(");
        names.append_name(r, m.dst);
        r.append(") ");
        r.append(m.text.as_str());
        proof {
            assert(r@ =~= middle + message_text(*m, names));
            if i == 0 {
                assert(next[0] == *m);
                assert(middle =~= start);
            }
            assert(r@ =~= start + messages_text(next, names));
        }
    }
    assert(all.take(all.len() as int) =~= all);
}

fn append_routers(r: &mut String, routers: &Vec<RouterText>, names: &Names)
    requires
        names.names.wf(),
    ensures
        final(r)@ == old(r)@ + routers_text(routers@, names),
{
    let ghost start = r@;
    let ghost all = routers@;
    assert(all.take(0) =~= Seq::<RouterText>::empty());
    assert(r@ =~= start + routers_text(all.take(0), names));
    for i in 0..routers.len()
        invariant
            names.names.wf(),
            all == routers@,
            r@ == start + routers_text(all.take(i as int), names),
    {
        assert(all.take(i + 1).drop_last() =~= all.take(i as int));
        r.append(" ");
        names.append_name(r, routers[i].0);
        r.append(": [");
        append_messages(r, &routers[i].1, names);
        r.append("],");
        assert(r@ =~= start + routers_text(all.take(i + 1), names));
    }
    assert(all.take(all.len() as int) =~= all);
}

/// Write down a recording.
pub fn fmt_recording(prefixes: &Vec<PrefixText>, names: &Names) -> (r: String)
    requires
        names.names.wf(),
    ensures
        r@ == "Recording {"@ + prefixes_text(prefixes@, names) + " }"@,
{
    let ghost all = prefixes@;
    let mut r = String::from_str("Recording {");
    let ghost start = r@;
    assert(all.take(0) =~= Seq::<PrefixText>::empty());
    assert(r@ =~= start + prefixes_text(all.take(0), names));
    for i in 0..prefixes.len()
        invariant
            names.names.wf(),
            all == prefixes@,
            r@ == start + prefixes_text(all.take(i as int), names),
    {
        assert(all.take(i + 1).drop_last() =~= all.take(i as int));
        r.append(" ");
        r.append(prefixes[i].0.as_str());
        r.append(": {");
        append_routers(&mut r, &prefixes[i].1, names);
        r.append(" },");
        assert(r@ =~= start + prefixes_text(all.take(i + 1), names));
    }
    assert(all.take(all.len() as int) =~= all);
    r.append(" }");
    r
}

/// The ends of a message.
pub open spec fn edge_text(m: MessageText, names: &Names) -> Seq<char> {
    "("@ + names.name(m.src) + ")->("@ + names.name(m.dst) + ")"@
}

/// The number of bytes that a text takes.
pub open spec fn width_of(text: Seq<char>) -> usize {
    vstd::utf8::encode_utf8(text).len() as usize
}

/// The larger of two widths.
pub open spec fn wider(a: usize, b: usize) -> usize {
    if a < b {
        b
    } else {
        a
    }
}

/// The width of the longest time.
pub open spec fn time_width(s: Seq<MessageText>) -> usize
    decreases s.len(),
{
    if s.len() == 0 {
        0
    } else {
        wider(time_width(s.drop_last()), width_of(s.last().time@))
    }
}

/// The width of the longest text of the ends of a message.
pub open spec fn edge_width(s: Seq<MessageText>, names: &Names) -> usize
    decreases s.len(),
{
    if s.len() == 0 {
        0
    } else {
        wider(edge_width(s.drop_last(), names), width_of(edge_text(s.last(), names)))
    }
}

/// The line of a message, with its time and its ends in columns.
pub open spec fn message_line(
    m: MessageText,
    names: &Names,
    indent: nat,
    times: usize,
    edges: usize,
) -> Seq<char> {
    spaces(indent as int) + "      "@ + padded(m.time@, times as nat) + " : "@ + padded(
        edge_text(m, names),
        edges as nat,
    ) + " "@ + m.text@ + ",\n"@
}

/// The lines of the messages of a router.
pub open spec fn message_lines(
    s: Seq<MessageText>,
    names: &Names,
    indent: nat,
    times: usize,
    edges: usize,
) -> Seq<char>
    decreases s.len(),
{
    if s.len() == 0 {
        Seq::empty()
    } else {
        message_lines(s.drop_last(), names, indent, times, edges) + message_line(
            s.last(),
            names,
            indent,
            times,
            edges,
        )
    }
}

/// The lines of a router.
pub open spec fn router_block(r: RouterText, names: &Names, indent: nat) -> Seq<char> {
    spaces(indent as int) + "    "@ + names.name(r.0) + ": [\n"@ + message_lines(
        r.1@,
        names,
        indent,
        time_width(r.1@),
        edge_width(r.1@, names),
    ) + spaces(indent as int) + "    ],\n"@
}

/// The lines of several routers.
pub open spec fn router_lines(s: Seq<RouterText>, names: &Names, indent: nat) -> Seq<char>
    decreases s.len(),
{
    if s.len() == 0 {
        Seq::empty()
    } else {
        router_lines(s.drop_last(), names, indent) + router_block(s.last(), names, indent)
    }
}

/// The lines of a prefix.
pub open spec fn prefix_block(p: PrefixText, names: &Names, indent: nat) -> Seq<char> {
    spaces(indent as int) + "  "@ + p.0@ + ": {\n"@ + router_lines(p.1@, names, indent) + spaces(
        indent as int,
    ) + "  },\n"@
}

/// The lines of several prefixes.
pub open spec fn prefix_lines(s: Seq<PrefixText>, names: &Names, indent: nat) -> Seq<char>
    decreases s.len(),
{
    if s.len() == 0 {
        Seq::empty()
    } else {
        prefix_lines(s.drop_last(), names, indent) + prefix_block(s.last(), names, indent)
    }
}

fn edge(m: &MessageText, names: &Names) -> (r: String)
    requires
        names.names.wf(),
    ensures
        r@ == edge_text(*m, names),
{
    let mut r = String::from_str("(");
    names.append_name(&mut r, m.src);
    r.append(")->(");
    names.append_name(&mut r, m.dst);
    r.append(")");
    r
}

/// The widths of the columns of times and of ends.
fn column_widths(messages: &Vec<MessageText>, names: &Names) -> (r: (usize, usize))
    requires
        names.names.wf(),
    ensures
        r == (time_width(messages@), edge_width(messages@, names)),
{
    let ghost all = messages@;
    let mut times: usize = 0;
    let mut edges: usize = 0;
    assert(all.take(0) =~= Seq::<MessageText>::empty());
    for i in 0..messages.len()
        invariant
            names.names.wf(),
            all == messages@,
            times == time_width(all.take(i as int)),
            edges == edge_width(all.take(i as int), names),
    {
        assert(all.take(i + 1).drop_last() =~= all.take(i as int));
        let t: usize = messages[i].time.as_str().len();
        if times < t {
            times = t;
        }
        let e: String = edge(&messages[i], names);
        let n: usize = e.as_str().len();
        if edges < n {
            edges = n;
        }
    }
    assert(all.take(all.len() as int) =~= all);
    (times, edges)
}

fn indentation(indent: usize) -> (r: String)
    ensures
        r@ == spaces(indent as int),
{
    let mut r = String::new();
    append_spaces(&mut r, indent);
    assert(r@ =~= spaces(indent as int));
    r
}

fn write_message(
    m: &MessageText,
    names: &Names,
    indent: usize,
    times: usize,
    edges: usize,
) -> (r: String)
    requires
        names.names.wf(),
    ensures
        r@ == message_line(*m, names, indent as nat, times, edges),
{
    let mut r = indentation(indent);
    r.append("      ");
    append_padded(&mut r, m.time.as_str(), times);
    r.append(" : ");
    let e: String = edge(m, names);
    append_padded(&mut r, e.as_str(), edges);
    r.append(" ");
    r.append(m.text.as_str());
    r.append(",\n");
    r
}

fn write_messages(messages: &Vec<MessageText>, names: &Names, indent: usize) -> (r: String)
    requires
        names.names.wf(),
    ensures
        r@ == message_lines(
            messages@,
            names,
            indent as nat,
            time_width(messages@),
            edge_width(messages@, names),
        ),
{
    let ghost all = messages@;
    let (times, edges): (usize, usize) = column_widths(messages, names);
    let mut r = String::new();
    assert(all.take(0) =~= Seq::<MessageText>::empty());
    for i in 0..messages.len()
        invariant
            names.names.wf(),
            all == messages@,
            r@ == message_lines(all.take(i as int), names, indent as nat, times, edges),
    {
        assert(all.take(i + 1).drop_last() =~= all.take(i as int));
        assert(all.take(i + 1).last() == all[i as int]);
        let line: String = write_message(&messages[i], names, indent, times, edges);
        r.append(line.as_str());
    }
    assert(all.take(all.len() as int) =~= all);
    r
}

fn write_router(router: &RouterText, names: &Names, indent: usize) -> (r: String)
    requires
        names.names.wf(),
    ensures
        r@ == router_block(*router, names, indent as nat),
{
    let mut r = indentation(indent);
    r.append("    ");
    names.append_name(&mut r, router.0);
    r.append(": [\n");
    let lines: String = write_messages(&router.1, names, indent);
    r.append(lines.as_str());
    append_spaces(&mut r, indent);
    r.append("    ],\n");
    r
}

fn write_routers(routers: &Vec<RouterText>, names: &Names, indent: usize) -> (r: String)
    requires
        names.names.wf(),
    ensures
        r@ == router_lines(routers@, names, indent as nat),
{
    let ghost all = routers@;
    let mut r = String::new();
    assert(all.take(0) =~= Seq::<RouterText>::empty());
    for i in 0..routers.len()
        invariant
            names.names.wf(),
            all == routers@,
            r@ == router_lines(all.take(i as int), names, indent as nat),
    {
        assert(all.take(i + 1).drop_last() =~= all.take(i as int));
        assert(all.take(i + 1).last() == all[i as int]);
        let block: String = write_router(&routers[i], names, indent);
        r.append(block.as_str());
    }
    assert(all.take(all.len() as int) =~= all);
    r
}

fn write_prefix(prefix: &PrefixText, names: &Names, indent: usize) -> (r: String)
    requires
        names.names.wf(),
    ensures
        r@ == prefix_block(*prefix, names, indent as nat),
{
    let mut r = indentation(indent);
    r.append("  ");
    r.append(prefix.0.as_str());
    r.append(": {\n");
    let lines: String = write_routers(&prefix.1, names, indent);
    r.append(lines.as_str());
    append_spaces(&mut r, indent);
    r.append("  },\n");
    r
}

/// Write down a recording with a line for each message, after some spaces.
pub fn fmt_multiline_indent(prefixes: &Vec<PrefixText>, names: &Names, indent: usize) -> (r: String)
    requires
        names.names.wf(),
    ensures
        r@ == "Recording {\n"@ + prefix_lines(prefixes@, names, indent as nat) + spaces(
            indent as int,
        ) + "}"@,
{
    let ghost all = prefixes@;
    let mut lines = String::new();
    assert(all.take(0) =~= Seq::<PrefixText>::empty());
    for i in 0..prefixes.len()
        invariant
            names.names.wf(),
            all == prefixes@,
            lines@ == prefix_lines(all.take(i as int), names, indent as nat),
    {
        assert(all.take(i + 1).drop_last() =~= all.take(i as int));
        assert(all.take(i + 1).last() == all[i as int]);
        let block: String = write_prefix(&prefixes[i], names, indent);
        lines.append(block.as_str());
    }
    assert(all.take(all.len() as int) =~= all);
    let mut r = String::from_str("Recording {\n");
    r.append(lines.as_str());
    append_spaces(&mut r, indent);
    r.append("}");
    r
}

impl ControllerError {
    /// What is said of the error. The text of its prefix, or of its router, is given.
    pub fn message(&self, text: &str) -> (r: String)
        ensures
            r@ == match self {
                ControllerError::NoPrefix(_) =>
                    "Controller is not built to ingest messages with prefix: "@ + text@,
                ControllerError::NoRouter(_) => "Could not find a router with id "@ + text@
                    + " in one of the planes"@,
            },
    {
        match self {
            ControllerError::NoPrefix(_) => {
                let mut s = String::from_str(
                    "Controller is not built to ingest messages with prefix: ",
                );
                s.append(text);
                s
            },
            ControllerError::NoRouter(_) => {
                let mut s = String::from_str("Could not find a router with id ");
                s.append(text);
                s.append(" in one of the planes");
                s
            },
        }
    }
}

/// The text of an error. The texts of its events, or of its prefix, are given.
pub open spec fn error_text(
    e: MonitoringError,
    first: Seq<char>,
    second: Seq<char>,
    names: &Names,
) -> Seq<char> {
    match e {
        MonitoringError::UnexpectedEvent { router, session, .. } => "Router "@ + names.name(router)
            + " has sent out an event "@ + first + " on its session to "@ + names.name(session)
            + " that we cannot reconcile with any of the possible router states"@,
        MonitoringError::UnsentEvents { router, session, .. } => "Router "@ + names.name(router)
            + " has not sent out all the messages it was supposed to on session "@ + names.name(
            session,
        ) + ": "@ + first,
        MonitoringError::MissingOutgoingEvent { router, neighbor, .. } => "Router "@ + names.name(
            router,
        ) + " has not sent a message to "@ + names.name(neighbor) + ":\n      last message: "@
            + first + "\n  expected message: "@ + second,
        MonitoringError::Unserializable(router) => "Per-session monitors for router "@ + names.name(
            router,
        ) + " rely on an order of incoming messages that contradict eachother."@,
        MonitoringError::Killed { router, neighbor, num_forks, .. } =>
            "Per-session monitor from "@ + names.name(router) + " to "@ + names.name(neighbor)
            + " for "@ + first + " was killed, as it maintained "@ + decimal(num_forks as nat)
            + " forks."@,
    }
}

impl MonitoringError {
    /// Write down an error. The text of its event, of its events, of its last message or of its prefix
    /// comes first, and that of the message that was expected comes second.
    pub fn fmt(&self, first: &str, second: &str, names: &Names) -> (r: String)
        requires
            names.names.wf(),
        ensures
            r@ == error_text(*self, first@, second@, names),
    {
        match self {
            MonitoringError::UnexpectedEvent { router, session, .. } => {
                let mut s = String::from_str("Router ");
                names.append_name(&mut s, *router);
                s.append(" has sent out an event ");
                s.append(first);
                s.append(" on its session to ");
                names.append_name(&mut s, *session);
                s.append(" that we cannot reconcile with any of the possible router states");
                s
            },
            MonitoringError::UnsentEvents { router, session, .. } => {
                let mut s = String::from_str("Router ");
                names.append_name(&mut s, *router);
                s.append(" has not sent out all the messages it was supposed to on session ");
                names.append_name(&mut s, *session);
                s.append(": ");
                s.append(first);
                s
            },
            MonitoringError::MissingOutgoingEvent { router, neighbor, .. } => {
                let mut s = String::from_str("Router ");
                names.append_name(&mut s, *router);
                s.append(" has not sent a message to ");
                names.append_name(&mut s, *neighbor);
                s.append(":\n      last message: ");
                s.append(first);
                s.append("\n  expected message: ");
                s.append(second);
                s
            },
            MonitoringError::Unserializable(router) => {
                let mut s = String::from_str("Per-session monitors for router ");
                names.append_name(&mut s, *router);
                s.append(" rely on an order of incoming messages that contradict eachother.");
                s
            },
            MonitoringError::Killed { router, neighbor, num_forks, .. } => {
                let mut s = String::from_str("Per-session monitor from ");
                names.append_name(&mut s, *router);
                s.append(" to ");
                names.append_name(&mut s, *neighbor);
                s.append(" for ");
                s.append(first);
                s.append(" was killed, as it maintained ");
                append_number(&mut s, *num_forks as u64);
                s.append(" forks.");
                s
            },
        }
    }
}

/// A padded text starts with the text, and only spaces follow. It is as wide as asked for, unless the text
/// is wider.
pub proof fn law_padded_texts(text: Seq<char>, width: nat, i: int)
    ensures
        padded(text, width).len() == if text.len() > width {
            text.len()
        } else {
            width
        },
        padded(text, width).take(text.len() as int) == text,
        text.len() <= i < padded(text, width).len() ==> padded(text, width)[i] == ' ',
{
    assert(padded(text, width).take(text.len() as int) =~= text);
}

/// A column is as wide as its widest text.
pub proof fn law_widths_of_columns(s: Seq<MessageText>, names: &Names, i: int)
    requires
        0 <= i < s.len(),
    ensures
        width_of(s[i].time@) <= time_width(s),
        width_of(edge_text(s[i], names)) <= edge_width(s, names),
        exists|j: int| 0 <= j < s.len() && width_of((#[trigger] s[j]).time@) == time_width(s),
        exists|j: int|
            0 <= j < s.len() && width_of(edge_text(#[trigger] s[j], names)) == edge_width(s, names),
    decreases s.len(),
{
    reveal_with_fuel(time_width, 2);
    reveal_with_fuel(edge_width, 2);
    let init = s.drop_last();
    let last = s.len() - 1;
    assert(width_of(s[last].time@) == width_of(s.last().time@));
    if init.len() > 0 {
        let k = if i < last {
            i
        } else {
            0
        };
        law_widths_of_columns(init, names, k);
        let j = choose|j: int|
            0 <= j < init.len() && width_of((#[trigger] init[j]).time@) == time_width(init);
        assert(init[j] == s[j]);
        let j2 = choose|j: int|
            0 <= j < init.len() && width_of(edge_text(#[trigger] init[j], names)) == edge_width(
                init,
                names,
            );
        assert(init[j2] == s[j2]);
        assert(init[k] == s[k]);
    }
    assert(s[last] == s.last());
}

/// The text of an error names its router first, and then the neighbor.
pub proof fn law_errors_name_their_router(
    e: MonitoringError,
    first: Seq<char>,
    second: Seq<char>,
    names: &Names,
)
    ensures
        e matches MonitoringError::UnexpectedEvent { router, session, .. } ==> starts_with(
            error_text(e, first, second, names),
            "Router "@ + names.name(router),
        ) && has_part(error_text(e, first, second, names), " on its session to "@ + names.name(session)),
        e matches MonitoringError::MissingOutgoingEvent { router, neighbor, .. } ==> starts_with(
            error_text(e, first, second, names),
            "Router "@ + names.name(router) + " has not sent a message to "@ + names.name(neighbor),
        ) && ends_with(error_text(e, first, second, names), second),
        e matches MonitoringError::Killed { router, neighbor, num_forks, .. } ==> starts_with(
            error_text(e, first, second, names),
            "Per-session monitor from "@ + names.name(router) + " to "@ + names.name(neighbor),
        ) && has_part(error_text(e, first, second, names), decimal(num_forks as nat)),
{
    let t = error_text(e, first, second, names);
    match e {
        MonitoringError::UnexpectedEvent { router, session, .. } => {
            let a = "Router "@ + names.name(router);
            assert(t.take(a.len() as int) =~= a);
            let b = a + " has sent out an event "@ + first;
            let c = " on its session to "@ + names.name(session);
            let d = " that we cannot reconcile with any of the possible router states"@;
            assert(t =~= b + c + d);
            law_parts_of_strings(b, c, d);
        },
        MonitoringError::MissingOutgoingEvent { router, neighbor, .. } => {
            let a = "Router "@ + names.name(router) + " has not sent a message to "@ + names.name(
                neighbor,
            );
            assert(t.take(a.len() as int) =~= a);
            assert(t.skip(t.len() - second.len()) =~= second);
        },
        MonitoringError::Killed { router, neighbor, num_forks, .. } => {
            let a = "Per-session monitor from "@ + names.name(router) + " to "@ + names.name(neighbor);
            assert(t.take(a.len() as int) =~= a);
            let b = a + " for "@ + first + " was killed, as it maintained "@;
            assert(t =~= b + decimal(num_forks as nat) + " forks."@);
            law_parts_of_strings(b, decimal(num_forks as nat), " forks."@);
        },
        _ => {},
    }
}

/// The text of an event says whether a route is advertised or withdrawn, and from where. Only an
/// advertisement tells the path, at its end. The text of a report ends with its prefix.
pub proof fn law_texts_of_events(
    e: SimulationView,
    b: BugReport,
    time: Seq<char>,
    prefix: Seq<char>,
    path: Seq<char>,
    names: &Names,
)
    ensures
        ({
            let t = event_text(e, prefix, path, names);
            &&& e is Reconfiguration ==> t == "Reconfiguring"@
            &&& e matches SimulationView::External(x) ==> (x.route is Some ==> starts_with(
                t,
                "Advertising "@ + prefix + " from "@ + names.name(x.external_neighbor),
            ) && ends_with(t, path))
            &&& e matches SimulationView::External(x) ==> (x.route is None ==> t == "Withdrawing "@
                + prefix + " from "@ + names.name(x.external_neighbor))
        }),
        starts_with(bug_text(b, time, prefix, names), time),
        ends_with(bug_text(b, time, prefix, names), prefix),
        has_part(bug_text(b, time, prefix, names), names.name(b.router)),
{
    let t = event_text(e, prefix, path, names);
    if let SimulationView::External(x) = e {
        if x.route is Some {
            let a = "Advertising "@ + prefix + " from "@ + names.name(x.external_neighbor);
            assert(t.take(a.len() as int) =~= a);
            assert(t.skip(t.len() - path.len()) =~= path);
        }
    }
    let u = bug_text(b, time, prefix, names);
    assert(u.take(time.len() as int) =~= time);
    assert(u.skip(u.len() - prefix.len()) =~= prefix);
    let a = padded(time, 24) + " : Reported bug on "@;
    let c = " for prefix "@ + prefix;
    assert(u =~= a + names.name(b.router) + c);
    law_parts_of_strings(a, names.name(b.router), c);
}

/// A line of a message has its time, its ends and what it says, in this order. Further messages, lines
/// and blocks follow the others.
pub proof fn law_messages_are_written_in_turn(
    s: Seq<MessageText>,
    t: Seq<MessageText>,
    names: &Names,
    indent: nat,
    times: usize,
    edges: usize,
)
    requires
        t.len() == s.len() + 1,
        t.drop_last() == s,
    ensures
        message_text(t.last(), names) == t.last().time@ + ": "@ + edge_text(t.last(), names) + " "@
            + t.last().text@,
        s.len() == 0 ==> messages_text(t, names) == message_text(t.last(), names),
        s.len() > 0 ==> messages_text(t, names) == messages_text(s, names) + ", "@ + message_text(
            t.last(),
            names,
        ),
        message_lines(t, names, indent, times, edges) == message_lines(
            s,
            names,
            indent,
            times,
            edges,
        ) + message_line(t.last(), names, indent, times, edges),
        ends_with(message_line(t.last(), names, indent, times, edges), t.last().text@ + ",\n"@),
{
    let m = t.last();
    reveal_strlit(": (");
    reveal_strlit(": ");
    reveal_strlit("(");
    reveal_strlit(") ");
    reveal_strlit(")");
    reveal_strlit(" ");
    assert(message_text(m, names) =~= m.time@ + ": "@ + edge_text(m, names) + " "@ + m.text@);
    let l = message_line(m, names, indent, times, edges);
    let end = m.text@ + ",\n"@;
    assert(l.skip(l.len() - end.len()) =~= end);
}

} // verus!
