//! Terminal-independent operator sessions: twin deterministic runs and bounded dossiers.
use std::collections::{BTreeMap, VecDeque};
use vstd::prelude::*;
use vstd::std_specs::iter::IteratorSpec;
use crate::demo::{demo_network, demo_view};
use crate::network::{InstitutionView, Network, NetworkView, Payment, Rail, RailView};
use crate::scalable::copy_rail;
use crate::observation::{DecisionEvidence, PaymentEvidence};
use crate::routing::{Route, copy_route};
use crate::scalable::SearchLimits;
use crate::scheduling::walks::copy_u128s;
use crate::simulation::{
    ActivePayment, Event, EventKind, PreparedTick, SimulationError, Simulator, TickReport, committed,
    prepared, demand_drawn, lemma_same_demand,
};
use crate::simulation::rng::{Random, same_arrivals};
use crate::simulation::config::{
    ArrivalProcess, PaymentFlow, RailService, RoutingStrategy, Scenario, scenario_valid,
};
use crate::text::{copy_string, same_text, text};

verus! {

/// Terminal dossiers beyond this many, oldest identifiers first, are dropped.
pub const RECENT_PAYMENTS: usize = 128;

/// Each dossier keeps at most this many events; older ones are only counted.
pub const PAYMENT_EVENTS: usize = 32;

/// The samples a run keeps, one per minute, newest last.
pub const SAMPLE_WINDOW: usize = 120;

#[derive(Debug, Clone, Copy, PartialEq, Eq, Structural)]
pub enum Preset {
    Balanced,
    Pressure,
    Outage,
    Limited,
}

pub open spec fn preset_name(p: Preset) -> Seq<char> {
    match p {
        Preset::Balanced => "balanced"@,
        Preset::Pressure => "pressure"@,
        Preset::Outage => "outage"@,
        Preset::Limited => "limited"@,
    }
}

/// A rail's settlement time in the execution fixture.
pub open spec fn fixture_settlement(id: Seq<char>) -> u32 {
    if id == "ACH"@ {
        5
    } else if id == "FEDWIRE"@ {
        2
    } else {
        0
    }
}

/// A demo rail as the preset runs it: its fixture settlement time, and ACH closed
/// during the outage.
pub open spec fn preset_rail(p: Preset, r: RailView) -> RailView {
    RailView {
        settlement_minutes: fixture_settlement(r.id),
        available: r.available && !(p == Preset::Outage && r.id == "ACH"@),
        ..r
    }
}

/// The demo network without its payments, its rails as the preset runs them.
pub open spec fn preset_network(p: Preset) -> NetworkView {
    NetworkView {
        payments: Seq::empty(),
        rails: demo_view().rails.map_values(|r: RailView| preset_rail(p, r)),
        ..demo_view()
    }
}

pub open spec fn other_than(sender: Seq<char>) -> spec_fn(Seq<char>) -> bool {
    |r: Seq<char>| r != sender
}

pub open spec fn paired_with(sender: Seq<char>) -> spec_fn(Seq<char>) -> (Seq<char>, Seq<char>) {
    |r: Seq<char>| (sender, r)
}

pub open spec fn flow_views(flows: Seq<PaymentFlow>) -> Seq<(Seq<char>, Seq<char>)> {
    flows.map_values(|f: PaymentFlow| (f.sender@, f.receiver@))
}

/// Every ordered pair of distinct identifiers among the first `n` senders, senders
/// in order and each sender's receivers in order.
pub open spec fn flow_pairs(ids: Seq<Seq<char>>, n: int) -> Seq<(Seq<char>, Seq<char>)>
    decreases n,
{
    if n <= 0 {
        Seq::empty()
    } else {
        flow_pairs(ids, n - 1) + ids.filter(other_than(ids[n - 1])).map_values(paired_with(ids[n - 1]))
    }
}

/// The recurring service of a rail: (period, open minutes, capacity per minute).
pub open spec fn fixture_service(id: Seq<char>) -> (u64, u64, u64) {
    if id == "ACH"@ {
        (8, 3, 200_000)
    } else if id == "FEDWIRE"@ {
        (4, 3, 200_000)
    } else {
        (1, 1, 100_000)
    }
}

/// The scenario of a preset run with the given routing strategy.
pub open spec fn preset_scenario(p: Preset, strategy: RoutingStrategy, s: Scenario) -> bool {
    &&& preset_setup(p, strategy, s)
    &&& s.disruptions@.len() == 0
}

/// Everything of a preset run's scenario but its scheduled changes.
pub open spec fn preset_setup(p: Preset, strategy: RoutingStrategy, s: Scenario) -> bool {
    let net = preset_network(p);
    let ids = net.institutions.map_values(|i: InstitutionView| i.id);
    let pairs = flow_pairs(ids, ids.len() as int);
    &&& s.network@ == net
    &&& s.services@.len() == net.rails.len()
    &&& forall|k: int| 0 <= k < s.services@.len() ==> {
        let service = #[trigger] s.services@[k];
        let (period, open, capacity) = fixture_service(net.rails[k].id);
        &&& service.rail_id@ == net.rails[k].id
        &&& service.period_minutes == period
        &&& service.offset_minutes == 0
        &&& service.open_minutes == open
        &&& service.capacity_per_minute_cents == Some(capacity)
    }
    &&& flow_views(s.arrivals.flows@) == pairs
    &&& s.arrivals.attempts_per_minute == if p == Preset::Pressure { 12u32 } else { 3u32 }
    &&& s.arrivals.probability_per_million == 650_000
    &&& s.arrivals.min_amount_cents == 10_000
    &&& s.arrivals.max_amount_cents == 150_000
    &&& s.arrivals.min_sla_minutes == 0
    &&& s.arrivals.max_sla_minutes == 12
    &&& s.strategy == strategy
    &&& s.max_active_payments == if p == Preset::Pressure { 16usize } else { 64usize }
    &&& s.retained_events == 128
}

impl Preset {
    pub const ALL: [Preset; 4] = [Preset::Balanced, Preset::Pressure, Preset::Outage, Preset::Limited];

    pub fn name(self) -> (r: &'static str)
        ensures
            r@ == preset_name(self),
    {
        match self {
            Preset::Balanced => "balanced",
            Preset::Pressure => "pressure",
            Preset::Outage => "outage",
            Preset::Limited => "limited",
        }
    }

    /// The execution fixture of this preset, routed by `strategy`.
    pub fn scenario(self, strategy: RoutingStrategy) -> (s: Scenario)
        ensures
            preset_scenario(self, strategy, s),
    {
        let Network { name, institutions, rails: demo_rails, payments: _ } = demo_network();
        let ghost demo = demo_view();
        let ach = text("ACH");
        let fedwire = text("FEDWIRE");
        let mut rails: Vec<Rail> = Vec::new();
        let mut k: usize = 0;
        while k < demo_rails.len()
            invariant
                demo_rails@.map_values(|r: Rail| r@) == demo.rails,
                ach@ == "ACH"@,
                fedwire@ == "FEDWIRE"@,
                k <= demo_rails@.len(),
                rails@.len() == k,
                forall|q: int| 0 <= q < k ==> (#[trigger] rails@[q])@ == preset_rail(self, demo.rails[q]),
            decreases demo_rails@.len() - k,
        {
            let r = &demo_rails[k];
            assert(r@ == demo.rails[k as int]);
            let mut c = copy_rail(r);
            if same_text(&r.id, &ach) {
                c.settlement_minutes = 5;
            } else if same_text(&r.id, &fedwire) {
                c.settlement_minutes = 2;
            } else {
                c.settlement_minutes = 0;
            }
            if self == Preset::Outage && same_text(&r.id, &ach) {
                c.available = false;
            }
            rails.push(c);
            k += 1;
        }
        let ghost ids = demo.institutions.map_values(|i: InstitutionView| i.id);
        assert(institutions@.map_values(|i: crate::network::Institution| i@) == demo.institutions);
        let n = institutions.len();
        let mut flows: Vec<PaymentFlow> = Vec::new();
        let mut s: usize = 0;
        while s < n
            invariant
                n == institutions@.len(),
                institutions@.map_values(|i: crate::network::Institution| i@) == demo.institutions,
                ids == demo.institutions.map_values(|i: InstitutionView| i.id),
                s <= n,
                flow_views(flows@) == flow_pairs(ids, s as int),
            decreases n - s,
        {
            let ghost base = flows@;
            let ghost sender = ids[s as int];
            assert(institutions@[s as int].id@ == sender);
            let mut r: usize = 0;
            while r < n
                invariant
                    n == institutions@.len(),
                    institutions@.map_values(|i: crate::network::Institution| i@) == demo.institutions,
                    ids == demo.institutions.map_values(|i: InstitutionView| i.id),
                    s < n,
                    sender == ids[s as int],
                    r <= n,
                    flow_views(flows@) == flow_views(base) + ids.take(r as int).filter(other_than(sender)).map_values(
                        paired_with(sender),
                    ),
                decreases n - r,
            {
                assert(institutions@[r as int].id@ == ids[r as int]);
                assert(institutions@[s as int].id@ == sender);
                proof {
                    ids.take(r as int).lemma_filter_push(ids[r as int], other_than(sender));
                    assert(ids.take(r + 1) =~= ids.take(r as int).push(ids[r as int]));
                }
                if !same_text(&institutions[s].id, &institutions[r].id) {
                    let ghost before = flows@;
                    flows.push(
                        PaymentFlow { sender: copy_string(&institutions[s].id), receiver: copy_string(&institutions[r].id) },
                    );
                    proof {
                        assert(flow_views(flows@) =~= flow_views(before).push((sender, ids[r as int])));
                        assert(ids.take(r as int).filter(other_than(sender)).push(ids[r as int]).map_values(paired_with(sender))
                            =~= ids.take(r as int).filter(other_than(sender)).map_values(paired_with(sender)).push(
                            (sender, ids[r as int]),
                        ));
                    }
                }
                r += 1;
            }
            proof {
                assert(ids.take(n as int) =~= ids);
                assert(flow_pairs(ids, s + 1) =~= flow_pairs(ids, s as int) + ids.filter(other_than(sender)).map_values(
                    paired_with(sender),
                ));
            }
            s += 1;
        }
        let mut services: Vec<RailService> = Vec::new();
        let mut k: usize = 0;
        while k < rails.len()
            invariant
                k <= rails@.len(),
                rails@.len() == demo.rails.len(),
                forall|q: int| 0 <= q < rails@.len() ==> (#[trigger] rails@[q])@ == preset_rail(self, demo.rails[q]),
                ach@ == "ACH"@,
                fedwire@ == "FEDWIRE"@,
                services@.len() == k,
                forall|q: int| 0 <= q < k ==> {
                    let service = #[trigger] services@[q];
                    let (period, open, capacity) = fixture_service(demo.rails[q].id);
                    &&& service.rail_id@ == demo.rails[q].id
                    &&& service.period_minutes == period
                    &&& service.offset_minutes == 0
                    &&& service.open_minutes == open
                    &&& service.capacity_per_minute_cents == Some(capacity)
                },
            decreases rails@.len() - k,
        {
            let id = &rails[k].id;
            assert(rails@[k as int]@.id == demo.rails[k as int].id);
            let (period, open, capacity): (u64, u64, u64) = if same_text(id, &ach) {
                (8, 3, 200_000)
            } else if same_text(id, &fedwire) {
                (4, 3, 200_000)
            } else {
                (1, 1, 100_000)
            };
            services.push(
                RailService {
                    rail_id: copy_string(id),
                    period_minutes: period,
                    offset_minutes: 0,
                    open_minutes: open,
                    capacity_per_minute_cents: Some(capacity),
                },
            );
            k += 1;
        }
        let network = Network { name, institutions, rails, payments: Vec::new() };
        proof {
            assert(network@.rails =~= preset_network(self).rails);
            assert(network@.payments =~= preset_network(self).payments);
            assert(network@ == preset_network(self));
        }
        Scenario {
            network,
            services,
            arrivals: ArrivalProcess {
                attempts_per_minute: if self == Preset::Pressure { 12 } else { 3 },
                probability_per_million: 650_000,
                flows,
                min_amount_cents: 10_000,
                max_amount_cents: 150_000,
                min_sla_minutes: 0,
                max_sla_minutes: 12,
            },
            strategy,
            max_active_payments: if self == Preset::Pressure { 16 } else { 64 },
            retained_events: 128,
            disruptions: Vec::new(),
        }
    }
}


#[derive(Debug, Clone, Copy, PartialEq, Eq, Structural)]
pub enum PaymentStatus {
    Queued,
    Waiting,
    InFlight,
    Draining,
    Completed,
    Late,
    Expired,
    Rejected,
}

pub open spec fn status_label(s: PaymentStatus) -> Seq<char> {
    match s {
        PaymentStatus::Queued => "UNROUTED"@,
        PaymentStatus::Waiting => "WAIT SLOT"@,
        PaymentStatus::InFlight => "IN FLIGHT"@,
        PaymentStatus::Draining => "DRAIN SLA"@,
        PaymentStatus::Completed => "DONE"@,
        PaymentStatus::Late => "LATE"@,
        PaymentStatus::Expired => "EXPIRED"@,
        PaymentStatus::Rejected => "OVERLOAD"@,
    }
}

/// The statuses after which a payment does no more work.
pub open spec fn is_terminal(s: PaymentStatus) -> bool {
    ||| s == PaymentStatus::Completed
    ||| s == PaymentStatus::Late
    ||| s == PaymentStatus::Expired
    ||| s == PaymentStatus::Rejected
}

impl PaymentStatus {
    pub fn label(self) -> (r: &'static str)
        ensures
            r@ == status_label(self),
    {
        match self {
            PaymentStatus::Queued => "UNROUTED",
            PaymentStatus::Waiting => "WAIT SLOT",
            PaymentStatus::InFlight => "IN FLIGHT",
            PaymentStatus::Draining => "DRAIN SLA",
            PaymentStatus::Completed => "DONE",
            PaymentStatus::Late => "LATE",
            PaymentStatus::Expired => "EXPIRED",
            PaymentStatus::Rejected => "OVERLOAD",
        }
    }

    pub fn terminal(self) -> (r: bool)
        ensures
            r == is_terminal(self),
    {
        match self {
            PaymentStatus::Completed | PaymentStatus::Late | PaymentStatus::Expired | PaymentStatus::Rejected => true,
            _ => false,
        }
    }
}

/// What an operator sees of one payment.
#[derive(Debug, Clone, PartialEq, Eq)]
pub struct Dossier {
    pub sequence: u128,
    pub payment: Payment,
    pub arrived_at: u128,
    pub deadline: u128,
    pub status: PaymentStatus,
    pub route: Option<Route>,
    pub actual_fee_cents: u128,
    pub departed_hops: usize,
    pub completed_elapsed_minutes: Option<u128>,
    pub decision_minute: Option<u128>,
    pub evidence: PaymentEvidence,
    pub planned_departures: Option<Vec<u128>>,
    pub events: VecDeque<Event>,
    pub omitted_events: u128,
}

/// One minute of a run, as the console charts it.
#[derive(Debug, Clone, PartialEq, Eq)]
pub struct Sample {
    pub minute: u128,
    pub queued: usize,
    pub in_flight: usize,
    pub completed: u128,
    pub sla_failures: u128,
}

#[derive(Debug, Clone, PartialEq, Eq)]
pub struct ObservedRun {
    pub simulator: Simulator,
    pub payments: BTreeMap<u128, Dossier>,
    pub samples: VecDeque<Sample>,
}

/// The identifiers of the dossiers whose payments do no more work.
pub open spec fn terminal_keys(m: Map<u128, Dossier>) -> Set<u128> {
    m.dom().filter(|k: u128| is_terminal(m[k].status))
}

/// The retention bounds of an observed run: a window of samples, a bounded event
/// trail per dossier, and a bounded number of finished dossiers.
pub open spec fn retention_ok(run: ObservedRun) -> bool {
    &&& run.samples@.len() <= SAMPLE_WINDOW
    &&& forall|k: u128| #[trigger] run.payments@.dom().contains(k) ==> run.payments@[k].events@.len() <= PAYMENT_EVENTS
    &&& terminal_keys(run.payments@).len() <= RECENT_PAYMENTS
}

/// How many of the payments wait at a node rather than travel a hop.
pub open spec fn count_waiting(s: Seq<ActivePayment>) -> nat
    decreases s.len(),
{
    if s.len() == 0 {
        0
    } else {
        count_waiting(s.drop_last()) + if s.last().in_flight_until is None { 1nat } else { 0 }
    }
}

/// The sample taken after a tick.
pub open spec fn sample_of(sim: Simulator, minute: u128, s: Sample) -> bool {
    &&& s.minute == minute
    &&& s.queued == count_waiting(sim.state.active@)
    &&& s.in_flight + s.queued == sim.state.active@.len()
    &&& s.completed == sim.state.metrics.completed
    &&& s.sla_failures == sim.state.metrics.sla_failures
}

/// The sample window after adding one sample: the oldest leaves a full window.
pub open spec fn window_after(before: Seq<Sample>, s: Sample) -> Seq<Sample> {
    if before.len() >= SAMPLE_WINDOW {
        before.drop_first().push(s)
    } else {
        before.push(s)
    }
}


/// Whether every dossier keeps a bounded event trail.
pub open spec fn trails_bounded(m: Map<u128, Dossier>) -> bool {
    forall|k: u128| #[trigger] m.dom().contains(k) ==> m[k].events@.len() <= PAYMENT_EVENTS
}

/// Appends `event` to a dossier's trail, dropping the oldest event of a full trail.
fn note_event(p: &mut Dossier, event: &Event)
    requires
        old(p).events@.len() <= PAYMENT_EVENTS,
    ensures
        final(p).events@.len() <= PAYMENT_EVENTS,
        final(p).events@.len() > 0,
        final(p).status == old(p).status,
{
    if p.events.len() >= PAYMENT_EVENTS {
        p.events.pop_front();
        p.omitted_events = p.omitted_events.wrapping_add(1);
    }
    p.events.push_back(event.clone());
}

/// The payment that an event is about, if any.
fn event_payment(kind: &EventKind) -> (r: Option<u128>)
    ensures
        match *kind {
            EventKind::Generated { sequence, .. } => r == Some(sequence),
            EventKind::Rejected { sequence } => r == Some(sequence),
            EventKind::RouteAccepted { sequence, .. } => r == Some(sequence),
            EventKind::HopDeparted { sequence, .. } => r == Some(sequence),
            EventKind::HopSettled { sequence, .. } => r == Some(sequence),
            EventKind::DeadlineMissed { sequence } => r == Some(sequence),
            EventKind::Expired { sequence } => r == Some(sequence),
            EventKind::Completed { sequence, .. } => r == Some(sequence),
            EventKind::PlanRevised { sequence, .. } => r == Some(sequence),
            _ => r is None,
        },
{
    match kind {
        EventKind::Generated { sequence, .. } => Some(*sequence),
        EventKind::Rejected { sequence } => Some(*sequence),
        EventKind::RouteAccepted { sequence, .. } => Some(*sequence),
        EventKind::HopDeparted { sequence, .. } => Some(*sequence),
        EventKind::HopSettled { sequence, .. } => Some(*sequence),
        EventKind::DeadlineMissed { sequence } => Some(*sequence),
        EventKind::Expired { sequence } => Some(*sequence),
        EventKind::Completed { sequence, .. } => Some(*sequence),
        EventKind::PlanRevised { sequence, .. } => Some(*sequence),
        _ => None,
    }
}

/// The events announce instruction `s`.
pub open spec fn announced(events: Seq<Event>, s: u128) -> bool
    decreases events.len(),
{
    if events.len() == 0 {
        false
    } else {
        announced(events.drop_last(), s) || match events.last().kind {
            EventKind::Generated { sequence, .. } => sequence == s,
            _ => false,
        }
    }
}

/// The events finish payment `s`: it is rejected, expires or completes.
pub open spec fn finished_by(events: Seq<Event>, s: u128) -> bool
    decreases events.len(),
{
    if events.len() == 0 {
        false
    } else {
        finished_by(events.drop_last(), s) || match events.last().kind {
            EventKind::Rejected { sequence } => sequence == s,
            EventKind::Expired { sequence } => sequence == s,
            EventKind::Completed { sequence, .. } => sequence == s,
            _ => false,
        }
    }
}

/// Every instruction the events announce has a dossier, finished only if the
/// events finish it.
pub open spec fn recorded(events: Seq<Event>, m: Map<u128, Dossier>) -> bool {
    forall|s: u128|
        #[trigger] announced(events, s) ==> m.dom().contains(s) && (is_terminal(m[s].status) ==> finished_by(events, s))
}

/// The status a payment still under way shows.
pub open spec fn active_status(a: ActivePayment) -> PaymentStatus {
    if a.sla_failed {
        PaymentStatus::Draining
    } else if a.in_flight_until is Some {
        PaymentStatus::InFlight
    } else if a.route is Some {
        PaymentStatus::Waiting
    } else {
        PaymentStatus::Queued
    }
}

fn copy_departures(d: &Option<Vec<u128>>) -> (r: Option<Vec<u128>>)
    ensures
        match (*d, r) {
            (Some(a), Some(b)) => a@ == b@,
            (None, None) => true,
            _ => false,
        },
{
    match d {
        Some(v) => Some(copy_u128s(v)),
        None => None,
    }
}

impl ObservedRun {
    fn new(scenario: Scenario, seed: u64) -> (r: Result<ObservedRun, SimulationError>)
        ensures
            r is Ok <==> scenario_valid(scenario),
            r matches Ok(run) ==> {
                &&& run.simulator.wf()
                &&& run.simulator.scenario.arrivals == scenario.arrivals
                &&& run.simulator.scenario.strategy == scenario.strategy
                &&& run.simulator.scenario.network.rails@.len() == scenario.network.rails@.len()
                &&& run.simulator.seed == seed
                &&& run.simulator.state.next_minute == 0
                &&& run.simulator.state.random == Random(seed)
                &&& run.simulator.state.metrics.generated == 0
                &&& same_arrivals(run.simulator.effective.arrivals, scenario.arrivals)
                &&& run.payments@ == Map::<u128, Dossier>::empty()
                &&& run.samples@.len() == 0
                &&& retention_ok(run)
            },
    {
        let simulator = Simulator::new(scenario, seed)?;
        let run = ObservedRun { simulator, payments: BTreeMap::new(), samples: VecDeque::new() };
        proof {
            assert(terminal_keys(run.payments@) =~= Set::<u128>::empty());
        }
        Ok(run)
    }

    /// Records a committed tick: each event in its payment's dossier, the search
    /// evidence of the tick, the status of every payment still under way, then
    /// drops the oldest finished dossiers beyond the retained number and samples
    /// the minute.
    #[verifier::rlimit(60)]
    fn observe(&mut self, report: &TickReport, evidence: DecisionEvidence)
        requires
            retention_ok(*old(self)),
        ensures
            retention_ok(*final(self)),
            final(self).simulator == old(self).simulator,
            forall|s: u128|
                #[trigger] announced(report.events@, s) && !finished_by(report.events@, s)
                    ==> final(self).payments@.dom().contains(s),
            exists|s: Sample|
                sample_of(final(self).simulator, report.minute, s) && final(self).samples@ == window_after(
                    old(self).samples@,
                    s,
                ),
    {
        broadcast use vstd::std_specs::btree::group_btree_axioms;

        proof {
            crate::order::lemma_u128_keys_ordered();
        }
        let mut evidence = evidence;
        let mut e: usize = 0;
        while e < report.events.len()
            invariant
                crate::order::u128_keys_ordered(),
                e <= report.events@.len(),
                trails_bounded(self.payments@),
                recorded(report.events@.take(e as int), self.payments@),
                self.simulator == old(self).simulator,
                self.samples == old(self).samples,
            decreases report.events@.len() - e,
        {
            let event = &report.events[e];
            let ghost seen = report.events@.take(e as int);
            let ghost next = report.events@.take(e + 1);
            proof {
                assert(next.drop_last() =~= seen);
                assert(next.last() == *event);
            }
            match &event.kind {
                EventKind::Generated { sequence, payment, deadline } => {
                    let fresh = Dossier {
                        sequence: *sequence,
                        payment: payment.clone(),
                        arrived_at: event.minute,
                        deadline: *deadline,
                        status: PaymentStatus::Queued,
                        route: None,
                        actual_fee_cents: 0,
                        departed_hops: 0,
                        completed_elapsed_minutes: None,
                        decision_minute: None,
                        evidence: PaymentEvidence { payment_id: copy_string(&payment.id), entries: Vec::new(), omitted: 0 },
                        planned_departures: None,
                        events: VecDeque::new(),
                        omitted_events: 0,
                    };
                    self.payments.insert(*sequence, fresh);
                },
                _ => {},
            }
            match event_payment(&event.kind) {
                Some(sequence) => {
                    match self.payments.remove(&sequence) {
                        Some(mut p) => {
                            match &event.kind {
                                EventKind::RouteAccepted { route, .. } => {
                                    p.route = Some(copy_route(route));
                                    p.decision_minute = Some(event.minute);
                                },
                                EventKind::Rejected { .. } => {
                                    p.status = PaymentStatus::Rejected;
                                },
                                EventKind::Expired { .. } => {
                                    p.status = PaymentStatus::Expired;
                                },
                                EventKind::HopDeparted { fee_cents, .. } => {
                                    p.actual_fee_cents = p.actual_fee_cents.wrapping_add(*fee_cents as u128);
                                    p.departed_hops = p.departed_hops.wrapping_add(1);
                                },
                                EventKind::Completed { late, elapsed_minutes, .. } => {
                                    p.completed_elapsed_minutes = Some(*elapsed_minutes);
                                    p.status = if *late {
                                        PaymentStatus::Late
                                    } else {
                                        PaymentStatus::Completed
                                    };
                                },
                                _ => {},
                            }
                            note_event(&mut p, event);
                            self.payments.insert(sequence, p);
                        },
                        None => {},
                    }
                },
                None => {},
            }
            proof {
                assert forall|x: u128| #[trigger] announced(next, x) implies self.payments@.dom().contains(x) && (
                is_terminal(self.payments@[x].status) ==> finished_by(next, x)) by {
                    if announced(seen, x) {
                        assert(finished_by(seen, x) ==> finished_by(next, x));
                    }
                }
            }
            e += 1;
        }
        proof {
            assert(report.events@.take(report.events@.len() as int) =~= report.events@);
        }
        let ghost m1 = self.payments@;
        let keys = self.dossier_keys();
        let mut k: usize = 0;
        while k < keys.len()
            invariant
                crate::order::u128_keys_ordered(),
                k <= keys@.len(),
                trails_bounded(self.payments@),
                self.payments@.dom() == m1.dom(),
                forall|x: u128| #[trigger] self.payments@.dom().contains(x) ==> self.payments@[x].status == m1[x].status,
                self.simulator == old(self).simulator,
                self.samples == old(self).samples,
            decreases keys@.len() - k,
        {
            let ghost before = self.payments@;
            match self.payments.remove(&keys[k]) {
                Some(mut p) => {
                    let ghost st = p.status;
                    let mut q: usize = 0;
                    let mut found = false;
                    while q < evidence.payments.len() && !found
                        invariant
                            p.status == st,
                            q <= evidence.payments@.len(),
                            p.events@.len() <= PAYMENT_EVENTS,
                        decreases evidence.payments@.len() - q + if found { 0int } else { 1int },
                    {
                        if same_text(&evidence.payments[q].payment_id, &p.payment.id) {
                            let trace = evidence.payments.remove(q);
                            p.evidence = trace;
                            p.decision_minute = Some(report.minute);
                            found = true;
                        } else {
                            q += 1;
                        }
                    }
                    self.payments.insert(keys[k], p);
                },
                None => {},
            }
            k += 1;
        }
        let mut a: usize = 0;
        while a < self.simulator.state.active.len()
            invariant
                crate::order::u128_keys_ordered(),
                a <= self.simulator.state.active@.len(),
                trails_bounded(self.payments@),
                self.payments@.dom() == m1.dom(),
                forall|x: u128| #[trigger] self.payments@.dom().contains(x) && is_terminal(self.payments@[x].status)
                    ==> is_terminal(m1[x].status),
                self.simulator == old(self).simulator,
                self.samples == old(self).samples,
            decreases self.simulator.state.active@.len() - a,
        {
            let active = &self.simulator.state.active[a];
            match self.payments.remove(&active.sequence) {
                Some(mut p) => {
                    p.planned_departures = copy_departures(&active.planned_departures);
                    p.status = if active.sla_failed {
                        PaymentStatus::Draining
                    } else if active.in_flight_until.is_some() {
                        PaymentStatus::InFlight
                    } else if active.route.is_some() {
                        PaymentStatus::Waiting
                    } else {
                        PaymentStatus::Queued
                    };
                    self.payments.insert(active.sequence, p);
                },
                None => {},
            }
            a += 1;
        }
        self.prune_finished();
        self.take_sample(report.minute);
    }
}


impl ObservedRun {
    /// The dossier identifiers, in increasing order.
    fn dossier_keys(&self) -> (keys: Vec<u128>)
        ensures
            keys@.to_set() == self.payments@.dom(),
            keys@.no_duplicates(),
    {
        broadcast use vstd::std_specs::btree::group_btree_axioms;

        proof {
            crate::order::lemma_u128_keys_ordered();
        }
        let walk = self.payments.keys();
        let ghost whole = walk.remaining();
        let ghost ks = whole.unref();
        proof {
            assert(ks.to_set() == self.payments@.dom());
        }
        let mut keys: Vec<u128> = Vec::new();
        for k in it: walk
            invariant
                it.seq() == whole,
                ks == whole.unref(),
                keys@ == ks.take(it.index() as int),
        {
            let ghost i = it.index();
            proof {
                assert(ks[i as int] == *k);
            }
            keys.push(*k);
            proof {
                assert(keys@ =~= ks.take(i + 1));
            }
        }
        proof {
            assert(ks.take(ks.len() as int) =~= ks);
            assert(ks.no_duplicates());
        }
        keys
    }

    /// Drops the finished dossiers with the smallest identifiers until at most
    /// the retained number of finished dossiers is left.
    fn prune_finished(&mut self)
        requires
            trails_bounded(old(self).payments@),
        ensures
            trails_bounded(final(self).payments@),
            terminal_keys(final(self).payments@).len() <= RECENT_PAYMENTS,
            final(self).simulator == old(self).simulator,
            final(self).samples == old(self).samples,
            forall|x: u128|
                #[trigger] old(self).payments@.dom().contains(x) && !is_terminal(old(self).payments@[x].status)
                    ==> final(self).payments@.dom().contains(x),
    {
        broadcast use vstd::std_specs::btree::group_btree_axioms;

        proof {
            crate::order::lemma_u128_keys_ordered();
        }
        let keys = self.dossier_keys();
        let ghost m = self.payments@;
        let mut finished: Vec<u128> = Vec::new();
        let mut i: usize = 0;
        while i < keys.len()
            invariant
                crate::order::u128_keys_ordered(),
                self.payments@ == m,
                keys@.to_set() == m.dom(),
                keys@.no_duplicates(),
                i <= keys@.len(),
                finished@.no_duplicates(),
                forall|x: u128|
                    finished@.contains(x) <==> (keys@.take(i as int).contains(x) && is_terminal(m[x].status)),
            decreases keys@.len() - i,
        {
            let key = keys[i];
            proof {
                assert(keys@.take(i + 1) =~= keys@.take(i as int).push(key));
                assert(!keys@.take(i as int).contains(key)) by {
                    if keys@.take(i as int).contains(key) {
                        let j = choose|j: int| 0 <= j < i && keys@.take(i as int)[j] == key;
                        assert(keys@[j] == keys@[i as int]);
                    }
                }
                assert(m.dom().contains(key)) by {
                    assert(keys@.to_set().contains(key));
                }
            }
            let ghost old_finished = finished@;
            let ghost not_before = !keys@.take(i as int).contains(key);
            match self.payments.get(&key) {
                Some(p) => {
                    assert(*p == m[key]);
                    if p.status.terminal() {
                        finished.push(key);
                        proof {
                            assert forall|a: int, b: int| 0 <= a < b < finished@.len() implies finished@[a] != finished@[b] by {
                                if b == finished@.len() - 1 {
                                    assert(old_finished.contains(old_finished[a]));
                                }
                            }
                        }
                    }
                },
                None => {
                    assert(false);
                },
            }
            proof {
                let now = keys@.take(i + 1);
                assert(now =~= keys@.take(i as int).push(key));
                if is_terminal(m[key].status) {
                    assert(finished@ =~= old_finished.push(key));
                } else {
                    assert(finished@ =~= old_finished);
                }
                assert forall|x: u128|
                    #[trigger] finished@.contains(x) <==> (keys@.take(i + 1).contains(x) && is_terminal(m[x].status)) by {
                    vstd::seq_lib::lemma_seq_contains_after_push(keys@.take(i as int), key, x);
                    vstd::seq_lib::lemma_seq_contains_after_push(old_finished, key, x);
                    assert(old_finished.contains(x) <==> (keys@.take(i as int).contains(x) && is_terminal(m[x].status)));
                    assert(old_finished.contains(key) <==> (keys@.take(i as int).contains(key) && is_terminal(m[key].status)));
                }
            }
            i += 1;
        }
        proof {
            assert(keys@.take(keys@.len() as int) =~= keys@);
            assert(finished@.to_set() =~= terminal_keys(m)) by {
                assert forall|x: u128| finished@.to_set().contains(x) <==> terminal_keys(m).contains(x) by {
                    if keys@.contains(x) {
                        assert(keys@.to_set().contains(x));
                    }
                    if m.dom().contains(x) {
                        assert(keys@.to_set().contains(x));
                    }
                }
            }
            finished@.unique_seq_to_set();
        }
        let count = finished.len();
        let remove = if count > RECENT_PAYMENTS {
            count - RECENT_PAYMENTS
        } else {
            0
        };
        let mut j: usize = 0;
        while j < remove
            invariant
                crate::order::u128_keys_ordered(),
                remove <= count,
                count == finished@.len(),
                finished@.no_duplicates(),
                j <= remove,
                trails_bounded(self.payments@),
                terminal_keys(self.payments@).finite(),
                terminal_keys(self.payments@).len() == count - j,
                forall|q: int| j <= q < count ==> terminal_keys(self.payments@).contains(#[trigger] finished@[q]),
                forall|x: u128| #[trigger] self.payments@.dom().contains(x) ==> m.dom().contains(x) && self.payments@[x] == m[x],
                forall|x: u128| #[trigger] m.dom().contains(x) && !is_terminal(m[x].status) ==> self.payments@.dom().contains(x),
                self.simulator == old(self).simulator,
                self.samples == old(self).samples,
            decreases remove - j,
        {
            let key = finished[j];
            let ghost before = self.payments@;
            self.payments.remove(&key);
            proof {
                assert(terminal_keys(self.payments@) =~= terminal_keys(before).remove(key));
                assert forall|q: int| j + 1 <= q < count implies terminal_keys(self.payments@).contains(#[trigger] finished@[q]) by {
                    assert(finished@[q] != finished@[j as int]);
                    assert(terminal_keys(before).contains(finished@[q]));
                }
            }
            j += 1;
        }
    }

    /// Adds the sample of the minute just processed to the window.
    fn take_sample(&mut self, minute: u128)
        requires
            old(self).samples@.len() <= SAMPLE_WINDOW,
        ensures
            final(self).simulator == old(self).simulator,
            final(self).payments == old(self).payments,
            exists|s: Sample|
                sample_of(final(self).simulator, minute, s) && final(self).samples@ == window_after(
                    old(self).samples@,
                    s,
                ),
            final(self).samples@.len() <= SAMPLE_WINDOW,
    {
        let active = self.simulator.active_payments();
        let mut queued: usize = 0;
        let mut flying: usize = 0;
        let mut i: usize = 0;
        while i < active.len()
            invariant
                active@ == self.simulator.state.active@,
                i <= active@.len(),
                queued + flying == i,
                queued == count_waiting(active@.take(i as int)),
            decreases active@.len() - i,
        {
            proof {
                assert(active@.take(i + 1).drop_last() =~= active@.take(i as int));
            }
            if active[i].in_flight_until.is_none() {
                queued += 1;
            } else {
                flying += 1;
            }
            i += 1;
        }
        proof {
            assert(active@.take(active@.len() as int) =~= active@);
        }
        let sample = Sample {
            minute,
            queued,
            in_flight: flying,
            completed: self.simulator.state.metrics.completed,
            sla_failures: self.simulator.state.metrics.sla_failures,
        };
        let ghost before = self.samples@;
        if self.samples.len() >= SAMPLE_WINDOW {
            self.samples.pop_front();
            proof {
                assert(self.samples@ =~= before.drop_first());
            }
        }
        self.samples.push_back(sample);
        proof {
            assert(sample_of(self.simulator, minute, sample));
            assert(self.samples@ =~= window_after(before, sample));
        }
    }
}


/// Both strategies consume identical demand at the same simulated minute.
/// A failure commits neither run nor its observations; pacing lives in the caller.
#[derive(Debug, Clone, PartialEq, Eq)]
pub struct Operations {
    pub preset: Preset,
    pub runs: [ObservedRun; 2],
}

/// `after` is `before` advanced by one committed tick and its observations:
/// every instruction the tick announced and did not finish has a dossier.
pub open spec fn observed_step(before: ObservedRun, after: ObservedRun) -> bool {
    exists|report: TickReport, s: Sample|
        #![trigger committed(before.simulator, after.simulator, report), sample_of(after.simulator, report.minute, s)]
        {
            &&& committed(before.simulator, after.simulator, report)
            &&& sample_of(after.simulator, report.minute, s)
            &&& after.samples@ == window_after(before.samples@, s)
            &&& forall|x: u128|
                #[trigger] announced(report.events@, x) && !finished_by(report.events@, x)
                    ==> after.payments@.dom().contains(x)
        }
}

/// Both runs stand at the same minute, have counted the same number of
/// instructions, and see the same demand: the same generator state and arrival
/// processes that draw alike.
pub open spec fn same_demand(a: Simulator, b: Simulator) -> bool {
    &&& a.state.random == b.state.random
    &&& a.state.next_minute == b.state.next_minute
    &&& a.state.metrics.generated == b.state.metrics.generated
    &&& same_arrivals(a.effective.arrivals, b.effective.arrivals)
}

/// The two runs of a session move in lockstep: every operation that keeps a
/// session well formed leaves both at the same minute, with the same number of
/// instructions counted and the same generator state.
pub proof fn lemma_lockstep(ops: Operations)
    requires
        ops.wf(),
    ensures
        ops.runs[0].simulator.state.next_minute == ops.runs[1].simulator.state.next_minute,
        ops.runs[0].simulator.state.metrics.generated == ops.runs[1].simulator.state.metrics.generated,
        ops.runs[0].simulator.state.random == ops.runs[1].simulator.state.random,
{
}

/// The bounds every observed run keeps.
pub open spec fn run_ok(run: ObservedRun) -> bool {
    &&& run.simulator.wf()
    &&& retention_ok(run)
}

/// A fresh run of `scenario` from `seed`.
pub open spec fn fresh_run(run: ObservedRun, scenario: Scenario, seed: u64) -> bool {
    &&& run_ok(run)
    &&& run.simulator.scenario.arrivals == scenario.arrivals
    &&& run.simulator.scenario.strategy == scenario.strategy
    &&& run.simulator.scenario.network.rails@.len() == scenario.network.rails@.len()
    &&& run.simulator.seed == seed
    &&& run.simulator.state.next_minute == 0
    &&& run.payments@ == Map::<u128, Dossier>::empty()
    &&& run.samples@.len() == 0
}

/// The search budget of the reserved run: tight for the limited preset.
pub open spec fn preset_limits(p: Preset) -> SearchLimits {
    if p == Preset::Limited {
        SearchLimits { max_candidates: 2, max_expansions: 1, ..crate::evaluation::default_limits() }
    } else {
        crate::evaluation::default_limits()
    }
}

impl Operations {
    pub open spec fn wf(self) -> bool {
        &&& run_ok(self.runs[0]) && run_ok(self.runs[1])
        &&& same_demand(self.runs[0].simulator, self.runs[1].simulator)
    }

    /// The preset's static run and reserved run, both from `seed`.
    pub fn new(preset: Preset, seed: u64) -> (r: Result<Operations, SimulationError>)
        ensures
            exists|first: Scenario, second: Scenario|
                #![trigger preset_scenario(preset, RoutingStrategy::CheapestStatic, first), preset_scenario(preset, RoutingStrategy::Reserved { limits: preset_limits(preset) }, second)]
                {
                    &&& preset_scenario(preset, RoutingStrategy::CheapestStatic, first)
                    &&& preset_scenario(preset, RoutingStrategy::Reserved { limits: preset_limits(preset) }, second)
                    &&& (r is Ok <==> scenario_valid(first) && scenario_valid(second))
                    &&& (r matches Ok(ops) ==> {
                        &&& ops.wf()
                        &&& ops.preset == preset
                        &&& fresh_run(ops.runs[0], first, seed)
                        &&& fresh_run(ops.runs[1], second, seed)
                    })
                },
    {
        let defaults = SearchLimits::default();
        let limits = if preset == Preset::Limited {
            SearchLimits {
                labels_per_node: defaults.labels_per_node,
                max_labels: defaults.max_labels,
                max_expansions: 1,
                max_candidates: 2,
                max_repairs: defaults.max_repairs,
            }
        } else {
            defaults
        };
        let first = preset.scenario(RoutingStrategy::CheapestStatic);
        let second = preset.scenario(RoutingStrategy::Reserved { limits });
        let ghost (g1, g2) = (first, second);
        proof {
            assert(limits == preset_limits(preset));
            assert(preset_scenario(preset, RoutingStrategy::CheapestStatic, g1));
            assert(preset_scenario(preset, RoutingStrategy::Reserved { limits: preset_limits(preset) }, g2));
        }
        let a = match ObservedRun::new(first, seed) {
            Ok(run) => run,
            Err(e) => {
                return Err(e);
            },
        };
        let b = match ObservedRun::new(second, seed) {
            Ok(run) => run,
            Err(e) => {
                return Err(e);
            },
        };
        proof {
            assert(flow_views(g1.arrivals.flows@).len() == g1.arrivals.flows@.len());
            assert(flow_views(g2.arrivals.flows@).len() == g2.arrivals.flows@.len());
            assert(same_arrivals(g1.arrivals, g2.arrivals));
            assert(same_demand(a.simulator, b.simulator));
        }
        Ok(Operations { preset, runs: [a, b] })
    }

    /// One minute for both runs, or, where either cannot advance, for neither.
    pub fn step(&mut self) -> (r: Result<(), SimulationError>)
        requires
            old(self).wf(),
        ensures
            final(self).wf(),
            r is Err ==> *final(self) == *old(self),
            r is Ok ==> {
                &&& final(self).preset == old(self).preset
                &&& observed_step(old(self).runs[0], final(self).runs[0])
                &&& observed_step(old(self).runs[1], final(self).runs[1])
            },
    {
        let first = match self.runs[0].simulator.prepare_tick() {
            Ok(tick) => tick,
            Err(e) => {
                return Err(e);
            },
        };
        let second = match self.runs[1].simulator.prepare_tick() {
            Ok(tick) => tick,
            Err(e) => {
                return Err(e);
            },
        };
        let ghost (r0, a0) = (self.runs[0].simulator.state.random, self.runs[0].simulator.effective.arrivals);
        let ghost (r1, a1) = (self.runs[1].simulator.state.random, self.runs[1].simulator.effective.arrivals);
        proof {
            lemma_same_demand(r0, a0, first.state.random, r1, a1, second.state.random);
            crate::simulation::rng::lemma_same_arrivals(r0.0, a0, a1, a0.attempts_per_minute as nat);
        }
        let report = self.runs[0].simulator.commit_tick(first);
        self.runs[0].observe(&report, DecisionEvidence::empty());
        let report = self.runs[1].simulator.commit_tick(second);
        self.runs[1].observe(&report, DecisionEvidence::empty());
        Ok(())
    }

    /// A fresh session of the same preset from `seed`; unchanged where it cannot start.
    pub fn restart(&mut self, seed: u64) -> (r: Result<(), SimulationError>)
        ensures
            r is Err ==> *final(self) == *old(self),
            exists|first: Scenario, second: Scenario|
                #![trigger preset_scenario(old(self).preset, RoutingStrategy::CheapestStatic, first), preset_scenario(old(self).preset, RoutingStrategy::Reserved { limits: preset_limits(old(self).preset) }, second)]
                {
                    &&& preset_scenario(old(self).preset, RoutingStrategy::CheapestStatic, first)
                    &&& preset_scenario(
                        old(self).preset,
                        RoutingStrategy::Reserved { limits: preset_limits(old(self).preset) },
                        second,
                    )
                    &&& (r is Ok <==> scenario_valid(first) && scenario_valid(second))
                    &&& (r is Ok ==> {
                        &&& final(self).wf()
                        &&& final(self).preset == old(self).preset
                        &&& fresh_run(final(self).runs[0], first, seed)
                        &&& fresh_run(final(self).runs[1], second, seed)
                    })
                },
    {
        match Operations::new(self.preset, seed) {
            Ok(fresh) => {
                *self = fresh;
                Ok(())
            },
            Err(e) => Err(e),
        }
    }
}

} // verus!
