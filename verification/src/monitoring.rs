//! What the monitors report.
use vstd::prelude::*;

use crate::bgp::{BgpEvent, BgpEventView, Prefix, RouterId, Time};
use crate::keyed::Keyed;
use crate::number_set::NumberSet;

verus! {

/// Why a monitor rejects what it has seen.
#[derive(Debug)]
pub enum MonitoringError {
    /// The router has sent a message that no possible state of it explains.
    UnexpectedEvent { router: RouterId, session: RouterId, event: BgpEvent },
    /// The router has not sent all messages that it was supposed to.
    UnsentEvents { router: RouterId, session: RouterId, events: Vec<BgpEvent> },
    /// The router should have replaced the last message that it has sent.
    MissingOutgoingEvent {
        router: RouterId,
        neighbor: RouterId,
        current_event: BgpEvent,
        expected_event: BgpEvent,
    },
    /// The sessions of the router rely on contradicting orders of the incoming messages.
    Unserializable(RouterId),
    /// The monitor had to keep track of too many possible states.
    Killed { router: RouterId, neighbor: RouterId, prefix: Prefix, num_forks: usize },
}

pub type MonitoringResult = Result<(), MonitoringError>;

/// What an error says.
#[verifier::ext_equal]
pub enum ErrorView {
    UnexpectedEvent { router: RouterId, session: RouterId, event: BgpEventView },
    UnsentEvents { router: RouterId, session: RouterId, events: Seq<BgpEventView> },
    MissingOutgoingEvent {
        router: RouterId,
        neighbor: RouterId,
        current_event: BgpEventView,
        expected_event: BgpEventView,
    },
    Unserializable(RouterId),
    Killed { router: RouterId, neighbor: RouterId, prefix: Prefix, num_forks: usize },
}

/// The views of BGP messages.
pub open spec fn bgp_views(s: Seq<BgpEvent>) -> Seq<BgpEventView> {
    Seq::new(s.len(), |i: int| s[i]@)
}

impl View for MonitoringError {
    type V = ErrorView;

    open spec fn view(&self) -> ErrorView {
        match self {
            MonitoringError::UnexpectedEvent { router, session, event } => {
                ErrorView::UnexpectedEvent { router: *router, session: *session, event: event@ }
            },
            MonitoringError::UnsentEvents { router, session, events } => ErrorView::UnsentEvents {
                router: *router,
                session: *session,
                events: bgp_views(events@),
            },
            MonitoringError::MissingOutgoingEvent {
                router,
                neighbor,
                current_event,
                expected_event,
            } => ErrorView::MissingOutgoingEvent {
                router: *router,
                neighbor: *neighbor,
                current_event: current_event@,
                expected_event: expected_event@,
            },
            MonitoringError::Unserializable(r) => ErrorView::Unserializable(*r),
            MonitoringError::Killed { router, neighbor, prefix, num_forks } => ErrorView::Killed {
                router: *router,
                neighbor: *neighbor,
                prefix: *prefix,
                num_forks: *num_forks,
            },
        }
    }
}

impl ErrorView {
    /// The router that the error is about.
    pub open spec fn router(self) -> RouterId {
        match self {
            ErrorView::UnexpectedEvent { router, .. } => router,
            ErrorView::UnsentEvents { router, .. } => router,
            ErrorView::MissingOutgoingEvent { router, .. } => router,
            ErrorView::Unserializable(router) => router,
            ErrorView::Killed { router, .. } => router,
        }
    }

    /// The error is related to prefix `p`.
    pub open spec fn concerns(self, p: Prefix) -> bool {
        match self {
            ErrorView::UnexpectedEvent { event, .. } => event.prefix() == p,
            ErrorView::UnsentEvents { events, .. } => exists|i: int|
                0 <= i < events.len() && (#[trigger] events[i]).prefix() == p,
            ErrorView::MissingOutgoingEvent { current_event, .. } => current_event.prefix() == p,
            ErrorView::Unserializable(_) => false,
            ErrorView::Killed { prefix, .. } => prefix == p,
        }
    }

    /// The same error, on another prefix.
    pub open spec fn with_prefix(self, p: Prefix) -> ErrorView {
        match self {
            ErrorView::UnexpectedEvent { router, session, event } => ErrorView::UnexpectedEvent {
                router,
                session,
                event: event.with_prefix(p),
            },
            ErrorView::UnsentEvents { router, session, events } => ErrorView::UnsentEvents {
                router,
                session,
                events: Seq::new(events.len(), |i: int| events[i].with_prefix(p)),
            },
            ErrorView::MissingOutgoingEvent {
                router,
                neighbor,
                current_event,
                expected_event,
            } => ErrorView::MissingOutgoingEvent {
                router,
                neighbor,
                current_event: current_event.with_prefix(p),
                expected_event: expected_event.with_prefix(p),
            },
            ErrorView::Unserializable(router) => ErrorView::Unserializable(router),
            ErrorView::Killed { router, neighbor, num_forks, .. } => ErrorView::Killed {
                router,
                neighbor,
                prefix: p,
                num_forks,
            },
        }
    }
}

impl Clone for MonitoringError {
    fn clone(&self) -> (r: Self)
        ensures
            r@ == self@,
    {
        match self {
            MonitoringError::UnexpectedEvent { router, session, event } => {
                MonitoringError::UnexpectedEvent {
                    router: *router,
                    session: *session,
                    event: event.clone(),
                }
            },
            MonitoringError::UnsentEvents { router, session, events } => {
                let mut copies: Vec<BgpEvent> = Vec::new();
                for i in 0..events.len()
                    invariant
                        bgp_views(copies@) == bgp_views(events@).take(i as int),
                {
                    let ghost before = copies@;
                    let copy = events[i].clone();
                    copies.push(copy);
                    assert(bgp_views(copies@) =~= bgp_views(before).push(copy@));
                    assert(bgp_views(events@).take(i + 1) =~= bgp_views(events@).take(
                        i as int,
                    ).push(copy@));
                }
                assert(bgp_views(events@).take(events@.len() as int) =~= bgp_views(events@));
                MonitoringError::UnsentEvents { router: *router, session: *session, events: copies }
            },
            MonitoringError::MissingOutgoingEvent {
                router,
                neighbor,
                current_event,
                expected_event,
            } => MonitoringError::MissingOutgoingEvent {
                router: *router,
                neighbor: *neighbor,
                current_event: current_event.clone(),
                expected_event: expected_event.clone(),
            },
            MonitoringError::Unserializable(r) => MonitoringError::Unserializable(*r),
            MonitoringError::Killed { router, neighbor, prefix, num_forks } => {
                MonitoringError::Killed {
                    router: *router,
                    neighbor: *neighbor,
                    prefix: *prefix,
                    num_forks: *num_forks,
                }
            },
        }
    }
}

impl MonitoringError {
    /// The router that the error is about.
    pub fn router(&self) -> (r: RouterId)
        ensures
            r == self@.router(),
    {
        match self {
            MonitoringError::UnexpectedEvent { router, .. } => *router,
            MonitoringError::UnsentEvents { router, .. } => *router,
            MonitoringError::MissingOutgoingEvent { router, .. } => *router,
            MonitoringError::Unserializable(router) => *router,
            MonitoringError::Killed { router, .. } => *router,
        }
    }

    /// The prefixes that the error is related to.
    pub fn prefixes(&self) -> (r: NumberSet)
        ensures
            r.wf(),
            forall|p: Prefix| #[trigger] r@.contains(p) <==> self@.concerns(p),
    {
        let mut r = NumberSet::new();
        match self {
            MonitoringError::UnexpectedEvent { event, .. } => {
                r.insert(event.prefix());
            },
            MonitoringError::MissingOutgoingEvent { current_event, .. } => {
                r.insert(current_event.prefix());
            },
            MonitoringError::UnsentEvents { events, .. } => {
                let ghost v = bgp_views(events@);
                for i in 0..events.len()
                    invariant
                        v == bgp_views(events@),
                        r.wf(),
                        forall|p: Prefix| #[trigger]
                            r@.contains(p) <==> exists|j: int|
                                0 <= j < i && (#[trigger] v[j]).prefix() == p,
                {
                    let ghost before = r@;
                    r.insert(events[i].prefix());
                    proof {
                        assert(v[i as int] == events@[i as int]@);
                        assert forall|p: Prefix| #[trigger] r@.contains(p) <==> exists|j: int|
                            0 <= j < i + 1 && (#[trigger] v[j]).prefix() == p by {
                            assert(before.contains(p) || !before.contains(p));
                            if before.contains(p) {
                                let j = choose|j: int|
                                    0 <= j < i && (#[trigger] v[j]).prefix() == p;
                                assert(v[j].prefix() == p);
                            }
                        }
                    }
                }
                assert forall|p: Prefix| #[trigger] r@.contains(p) <==> self@.concerns(p) by {
                    assert(self@->events == v);
                    if self@.concerns(p) {
                        let j = choose|j: int| 0 <= j < v.len() && (#[trigger] v[j]).prefix() == p;
                        assert(v[j].prefix() == p);
                    }
                }
            },
            MonitoringError::Unserializable(_) => {},
            MonitoringError::Killed { prefix, .. } => {
                r.insert(*prefix);
            },
        }
        r
    }

    /// The same error, on another prefix.
    pub fn with_prefix(self, prefix: Prefix) -> (r: Self)
        ensures
            r@ == self@.with_prefix(prefix),
    {
        match self {
            MonitoringError::UnexpectedEvent { router, session, event } => {
                MonitoringError::UnexpectedEvent { router, session, event: event.with_prefix(prefix) }
            },
            MonitoringError::UnsentEvents { router, session, events } => {
                let ghost all = events@;
                let mut moved: Vec<BgpEvent> = Vec::new();
                for e in it: events
                    invariant
                        it.seq() == all,
                        moved@.len() == it.index(),
                        forall|j: int|
                            0 <= j < moved@.len() ==> (#[trigger] moved@[j])@ == all[j]@.with_prefix(
                                prefix,
                            ),
                {
                    moved.push(e.with_prefix(prefix));
                }
                assert(bgp_views(moved@) =~= Seq::new(
                    bgp_views(all).len(),
                    |i: int| bgp_views(all)[i].with_prefix(prefix),
                ));
                MonitoringError::UnsentEvents { router, session, events: moved }
            },
            MonitoringError::MissingOutgoingEvent {
                router,
                neighbor,
                current_event,
                expected_event,
            } => MonitoringError::MissingOutgoingEvent {
                router,
                neighbor,
                current_event: current_event.with_prefix(prefix),
                expected_event: expected_event.with_prefix(prefix),
            },
            MonitoringError::Unserializable(r) => MonitoringError::Unserializable(r),
            MonitoringError::Killed { router, neighbor, num_forks, .. } => MonitoringError::Killed {
                router,
                neighbor,
                prefix,
                num_forks,
            },
        }
    }
}

/// An error that is moved to another prefix is about that prefix, and no other one, unless it is about
/// none.
pub proof fn law_moved_errors_concern_the_prefix(e: ErrorView, p: Prefix, q: Prefix)
    ensures
        e.with_prefix(p).concerns(q) ==> q == p,
        e.with_prefix(p).router() == e.router(),
{
}

/// What comes of a message, and at which time.
pub type Outcome = (MonitoringResult, Time);

/// What the outcome of a message says: the error, if there is one.
pub struct OutcomeView {
    pub error: Option<ErrorView>,
    pub time: Time,
}

/// The view of a result.
pub open spec fn error_view(r: MonitoringResult) -> Option<ErrorView> {
    match r {
        Ok(_) => None,
        Err(e) => Some(e@),
    }
}

/// The view of an outcome.
pub open spec fn outcome_view(o: Outcome) -> OutcomeView {
    OutcomeView { error: error_view(o.0), time: o.1 }
}

/// The views of outcomes.
pub open spec fn outcome_views(s: Seq<Outcome>) -> Seq<OutcomeView> {
    Seq::new(s.len(), |i: int| outcome_view(s[i]))
}

/// The outcomes of the messages at each router.
pub type RouterResults = Keyed<Vec<Outcome>>;

/// The outcomes of the monitoring, by prefix and router.
#[derive(Debug)]
pub struct MonitoringResults {
    pub results: Keyed<RouterResults>,
}

/// The errors among outcomes, in order.
pub open spec fn errors_in(s: Seq<Outcome>) -> Seq<ErrorView>
    decreases s.len(),
{
    if s.len() == 0 {
        Seq::empty()
    } else {
        match s.last().0 {
            Ok(_) => errors_in(s.drop_last()),
            Err(e) => errors_in(s.drop_last()).push(e@),
        }
    }
}

/// The errors of all routers, one after the other.
pub open spec fn errors_at(s: Seq<(RouterId, Vec<Outcome>)>) -> Seq<ErrorView>
    decreases s.len(),
{
    if s.len() == 0 {
        Seq::empty()
    } else {
        errors_at(s.drop_last()) + errors_in(s.last().1@)
    }
}

/// The errors of all prefixes, one after the other.
pub open spec fn all_errors(s: Seq<(Prefix, RouterResults)>) -> Seq<ErrorView>
    decreases s.len(),
{
    if s.len() == 0 {
        Seq::empty()
    } else {
        all_errors(s.drop_last()) + errors_at(s.last().1.entries@)
    }
}

/// The views of errors.
pub open spec fn error_views(s: Seq<MonitoringError>) -> Seq<ErrorView> {
    Seq::new(s.len(), |i: int| s[i]@)
}

/// There is an error among the outcomes.
pub open spec fn has_error(s: Seq<Outcome>) -> bool {
    exists|i: int| 0 <= i < s.len() && (#[trigger] s[i]).0 is Err
}

proof fn lemma_errors_in(s: Seq<Outcome>)
    ensures
        errors_in(s).len() > 0 <==> has_error(s),
        errors_in(s).len() <= s.len(),
    decreases s.len(),
{
    if s.len() > 0 {
        let init = s.drop_last();
        lemma_errors_in(init);
        if has_error(init) {
            let i = choose|i: int| 0 <= i < init.len() && (#[trigger] init[i]).0 is Err;
            assert(s[i].0 is Err);
        }
        if has_error(s) {
            let i = choose|i: int| 0 <= i < s.len() && (#[trigger] s[i]).0 is Err;
            if i < init.len() {
                assert(init[i].0 is Err);
            }
        }
        if s.last().0 is Err {
            assert(s[s.len() - 1].0 is Err);
        }
    }
}

proof fn lemma_errors_at(s: Seq<(RouterId, Vec<Outcome>)>)
    ensures
        errors_at(s).len() > 0 <==> exists|i: int|
            0 <= i < s.len() && has_error((#[trigger] s[i]).1@),
    decreases s.len(),
{
    if s.len() > 0 {
        let init = s.drop_last();
        lemma_errors_at(init);
        lemma_errors_in(s.last().1@);
        if errors_at(init).len() > 0 {
            let i = choose|i: int| 0 <= i < init.len() && has_error((#[trigger] init[i]).1@);
            assert(has_error(s[i].1@));
        }
        if errors_in(s.last().1@).len() > 0 {
            assert(has_error(s[s.len() - 1].1@));
        }
        if exists|i: int| 0 <= i < s.len() && has_error((#[trigger] s[i]).1@) {
            let i = choose|i: int| 0 <= i < s.len() && has_error((#[trigger] s[i]).1@);
            if i < init.len() {
                assert(has_error(init[i].1@));
            }
        }
    }
}

/// There are errors exactly if some outcome of some router on some prefix is one.
pub proof fn lemma_all_errors(s: Seq<(Prefix, RouterResults)>)
    ensures
        all_errors(s).len() > 0 <==> exists|i: int, j: int|
            0 <= i < s.len() && 0 <= j < s[i].1.entries@.len() && has_error(
                (#[trigger] s[i].1.entries@[j]).1@,
            ),
    decreases s.len(),
{
    if s.len() > 0 {
        let init = s.drop_last();
        let last = s.last().1.entries@;
        lemma_all_errors(init);
        lemma_errors_at(last);
        if all_errors(init).len() > 0 {
            let (i, j) = choose|i: int, j: int|
                0 <= i < init.len() && 0 <= j < init[i].1.entries@.len() && has_error(
                    (#[trigger] init[i].1.entries@[j]).1@,
                );
            assert(has_error(s[i].1.entries@[j].1@));
        }
        if errors_at(last).len() > 0 {
            let j = choose|j: int| 0 <= j < last.len() && has_error((#[trigger] last[j]).1@);
            assert(has_error(s[s.len() - 1].1.entries@[j].1@));
        }
        if exists|i: int, j: int|
            0 <= i < s.len() && 0 <= j < s[i].1.entries@.len() && has_error(
                (#[trigger] s[i].1.entries@[j]).1@,
            ) {
            let (i, j) = choose|i: int, j: int|
                0 <= i < s.len() && 0 <= j < s[i].1.entries@.len() && has_error(
                    (#[trigger] s[i].1.entries@[j]).1@,
                );
            if i < init.len() {
                assert(has_error(init[i].1.entries@[j].1@));
            } else {
                assert(has_error(last[j].1@));
            }
        }
    }
}

/// Append the errors among outcomes.
fn append_errors(errors: &mut Vec<MonitoringError>, outcomes: &Vec<Outcome>)
    ensures
        error_views(final(errors)@) == error_views(old(errors)@) + errors_in(outcomes@),
{
    let ghost start = error_views(errors@);
    let ghost s = outcomes@;
    assert(s.take(0) =~= Seq::<Outcome>::empty());
    assert(start + errors_in(s.take(0)) =~= start);
    for i in 0..outcomes.len()
        invariant
            s == outcomes@,
            error_views(errors@) == start + errors_in(s.take(i as int)),
    {
        let ghost before = errors@;
        assert(s.take(i + 1).drop_last() =~= s.take(i as int));
        match &outcomes[i].0 {
            Ok(_) => {},
            Err(e) => {
                let copy = e.clone();
                errors.push(copy);
                assert(error_views(errors@) =~= error_views(before).push(copy@));
                assert(error_views(errors@) =~= start + errors_in(s.take(i + 1)));
            },
        }
    }
    assert(s.take(s.len() as int) =~= s);
}

/// Append the errors of all routers.
fn append_router_errors(errors: &mut Vec<MonitoringError>, routers: &RouterResults)
    ensures
        error_views(final(errors)@) == error_views(old(errors)@) + errors_at(routers.entries@),
{
    let ghost start = error_views(errors@);
    let ghost s = routers.entries@;
    assert(s.take(0) =~= Seq::<(RouterId, Vec<Outcome>)>::empty());
    assert(start + errors_at(s.take(0)) =~= start);
    for i in 0..routers.entries.len()
        invariant
            s == routers.entries@,
            error_views(errors@) == start + errors_at(s.take(i as int)),
    {
        assert(s.take(i + 1).drop_last() =~= s.take(i as int));
        append_errors(errors, &routers.entries[i].1);
        assert(error_views(errors@) =~= start + errors_at(s.take(i + 1)));
    }
    assert(s.take(s.len() as int) =~= s);
}

impl MonitoringResults {
    pub open spec fn wf(&self) -> bool {
        &&& self.results.wf()
        &&& forall|p: Prefix| #[trigger] self.results@.contains_key(p) ==> self.results@[p].wf()
    }

    /// The outcomes of a prefix at a router.
    pub open spec fn at(&self, p: Prefix, r: RouterId) -> Seq<Outcome> {
        if self.results@.contains_key(p) && self.results@[p]@.contains_key(r) {
            self.results@[p]@[r]@
        } else {
            Seq::empty()
        }
    }

    pub fn new() -> (r: Self)
        ensures
            r.wf(),
            r.results@ == Map::<Prefix, RouterResults>::empty(),
            r.results.entries@.len() == 0,
    {
        MonitoringResults { results: Keyed::new() }
    }

    /// The number of errors of a prefix.
    pub fn get_errors_per_prefix(&self, prefix: Prefix) -> (r: usize)
        requires
            self.wf(),
        ensures
            r == if self.results@.contains_key(prefix) {
                errors_at(self.results@[prefix].entries@).len()
            } else {
                0
            },
    {
        match self.results.get(prefix) {
            Some(routers) => {
                let mut errors: Vec<MonitoringError> = Vec::new();
                append_router_errors(&mut errors, routers);
                assert(error_views(errors@) =~= errors_at(routers.entries@));
                assert(error_views(errors@).len() == errors@.len());
                errors.len()
            },
            None => 0,
        }
    }

    /// All errors.
    pub fn get_errors(&self) -> (r: Vec<MonitoringError>)
        ensures
            error_views(r@) == all_errors(self.results.entries@),
    {
        let mut errors: Vec<MonitoringError> = Vec::new();
        let ghost s = self.results.entries@;
        assert(s.take(0) =~= Seq::<(Prefix, RouterResults)>::empty());
        assert(error_views(errors@) =~= all_errors(s.take(0)));
        for i in 0..self.results.entries.len()
            invariant
                s == self.results.entries@,
                error_views(errors@) == all_errors(s.take(i as int)),
        {
            assert(s.take(i + 1).drop_last() =~= s.take(i as int));
            append_router_errors(&mut errors, &self.results.entries[i].1);
        }
        assert(s.take(s.len() as int) =~= s);
        errors
    }

    /// Whether there are no errors.
    pub fn is_empty(&self) -> (r: bool)
        ensures
            r == (all_errors(self.results.entries@).len() == 0),
            r == forall|i: int, j: int|
                0 <= i < self.results.entries@.len() && 0 <= j
                    < self.results.entries@[i].1.entries@.len() ==> !has_error(
                    (#[trigger] self.results.entries@[i].1.entries@[j]).1@,
                ),
    {
        let errors = self.get_errors();
        proof {
            assert(error_views(errors@).len() == errors@.len());
            lemma_all_errors(self.results.entries@);
        }
        errors.len() == 0
    }
}

/// An error that is moved to a prefix stays an error of its kind, about the same router and the same
/// neighbor. If it speaks of a message, then it is about that prefix afterwards.
pub proof fn law_moved_errors_stay_what_they_are(e: ErrorView, p: Prefix)
    ensures
        match (e, e.with_prefix(p)) {
            (
                ErrorView::UnexpectedEvent { router, session, event },
                ErrorView::UnexpectedEvent { router: x, session: s, event: m },
            ) => router == x && session == s && (m is Update <==> event is Update),
            (
                ErrorView::UnsentEvents { router, session, events },
                ErrorView::UnsentEvents { router: x, session: s, events: m },
            ) => router == x && session == s && m.len() == events.len(),
            (
                ErrorView::MissingOutgoingEvent { router, neighbor, expected_event, .. },
                ErrorView::MissingOutgoingEvent { router: x, neighbor: s, expected_event: m, .. },
            ) => router == x && neighbor == s && m.prefix() == p && (m is Update <==> expected_event
                is Update),
            (ErrorView::Unserializable(router), ErrorView::Unserializable(x)) => router == x,
            (
                ErrorView::Killed { router, neighbor, num_forks, .. },
                ErrorView::Killed { router: x, neighbor: s, num_forks: n, prefix },
            ) => router == x && neighbor == s && num_forks == n && prefix == p,
            _ => false,
        },
        e is UnexpectedEvent || e is MissingOutgoingEvent || e is Killed ==> e.with_prefix(
            p,
        ).concerns(p),
        e matches ErrorView::UnsentEvents { events, .. } ==> (e.with_prefix(p).concerns(p)
            <==> events.len() > 0),
        e is Unserializable ==> !e.concerns(p),
{
    if let ErrorView::UnsentEvents { events, .. } = e {
        if let ErrorView::UnsentEvents { events: moved, .. } = e.with_prefix(p) {
            if events.len() > 0 {
                assert(moved[0] == events[0].with_prefix(p));
                assert(moved[0].prefix() == p);
            }
        }
    }
}

/// What an error names is the router that it is about, whatever else it names.
pub proof fn law_router_of_an_error(
    router: RouterId,
    other: RouterId,
    event: BgpEventView,
    events: Seq<BgpEventView>,
    expected_event: BgpEventView,
    prefix: Prefix,
    num_forks: usize,
)
    ensures
        (ErrorView::UnexpectedEvent { router, session: other, event }).router() == router,
        (ErrorView::UnsentEvents { router, session: other, events }).router() == router,
        (ErrorView::MissingOutgoingEvent {
            router,
            neighbor: other,
            current_event: event,
            expected_event,
        }).router() == router,
        ErrorView::Unserializable(router).router() == router,
        (ErrorView::Killed { router, neighbor: other, prefix, num_forks }).router() == router,
        (ErrorView::UnexpectedEvent { router, session: other, event }).concerns(event.prefix()),
        (ErrorView::MissingOutgoingEvent {
            router,
            neighbor: other,
            current_event: event,
            expected_event,
        }).concerns(event.prefix()),
        (ErrorView::Killed { router, neighbor: other, prefix, num_forks }).concerns(prefix),
{
}

/// The errors of a router are those that its outcomes hold, in their order: a further outcome adds its
/// error behind them, or nothing.
pub proof fn law_errors_are_collected(s: Seq<Outcome>, o: Outcome)
    ensures
        o.0 is Ok ==> errors_in(s.push(o)) == errors_in(s),
        o.0 matches Err(e) ==> errors_in(s.push(o)) == errors_in(s).push(e@),
        errors_in(s).len() == 0 <==> !has_error(s),
        errors_in(s).len() <= s.len(),
{
    assert(s.push(o).drop_last() =~= s);
    lemma_errors_in(s);
}

/// The errors of further routers stand behind the others, and so do those of further prefixes.
pub proof fn law_errors_of_all_routers(
    s: Seq<(RouterId, Vec<Outcome>)>,
    x: (RouterId, Vec<Outcome>),
    t: Seq<(Prefix, RouterResults)>,
    y: (Prefix, RouterResults),
)
    ensures
        errors_at(s.push(x)) == errors_at(s) + errors_in(x.1@),
        all_errors(t.push(y)) == all_errors(t) + errors_at(y.1.entries@),
        errors_at(Seq::empty()).len() == 0,
        all_errors(Seq::empty()).len() == 0,
{
    assert(s.push(x).drop_last() =~= s);
    assert(t.push(y).drop_last() =~= t);
}

} // verus!
