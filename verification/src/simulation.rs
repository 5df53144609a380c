//! Continuous deterministic synthetic execution.
pub mod audit;
pub mod config;
pub mod disruption;
pub mod engine;
pub mod rng;

use vstd::prelude::*;
use std::collections::VecDeque;
use crate::network::{Payment, ValidationError};
use crate::routing::{Route, RouteHop};
use crate::scalable::{Reservations, Router, SearchDiagnostics};
use crate::order::sort_by_key;
use crate::observation::DecisionEvidence;
pub use config::{ArrivalProcess, PaymentFlow, RailService, RoutingStrategy, Scenario};
use config::{scenario_valid, config_ok, same_config, lemma_valid_config, lemma_same_config_ok};
pub use disruption::{
    AppliedDisruption, AdaptationMetrics, Disruption, PlanAssessment, RailConditions, RailUpdate,
    ReoptimizationChoice, ReoptimizationPolicy, ReoptimizationReport,
};
use disruption::{distinct_ids, upsert};
use audit::{consistent, check_state};
use engine::runnable;
use rng::{ArrivalSample, Random, attempts_outcome, same_arrivals, lemma_same_arrivals, lemma_same_draws};
use engine::{generated_events, demand_events, drawn_views};

verus! {

#[derive(Debug, Clone, PartialEq, Eq)]
pub enum SimulationError {
    Validation(ValidationError),
    ArithmeticOverflow(&'static str),
    Invariant(&'static str),
}

impl SimulationError {
    /// The message of each error.
    pub open spec fn message(self) -> Seq<char> {
        match self {
            SimulationError::Validation(e) => e.message(),
            SimulationError::ArithmeticOverflow(field) => "simulation arithmetic exhausted: "@ + field@,
            SimulationError::Invariant(message) => "simulation invariant violated: "@ + message@,
        }
    }

    /// The human-readable message.
    pub fn to_string(&self) -> (r: String)
        ensures
            r@ == self.message(),
    {
        match self {
            SimulationError::Validation(e) => e.to_string(),
            SimulationError::ArithmeticOverflow(field) => crate::text::concat(
                "simulation arithmetic exhausted: ",
                field,
            ),
            SimulationError::Invariant(message) => crate::text::concat(
                "simulation invariant violated: ",
                message,
            ),
        }
    }
}

#[derive(Debug, Clone, Copy, PartialEq, Eq, Structural)]
pub struct Metrics {
    pub generated: u128,
    pub generated_volume_cents: u128,
    pub accepted_routes: u128,
    pub rejected: u128,
    pub rejected_volume_cents: u128,
    pub expired: u128,
    pub expired_volume_cents: u128,
    /// Includes late final-hop settlements; every principal is counted once.
    pub completed: u128,
    pub completed_volume_cents: u128,
    pub completed_late: u128,
    pub completed_late_volume_cents: u128,
    /// Rejections + missed deadlines, counted once even while work drains.
    pub sla_failures: u128,
    pub sla_failed_volume_cents: u128,
    /// Actual executed fees, including work that ultimately fails its SLA.
    pub routing_cost_cents: u128,
    /// End-to-end elapsed minutes for completed payments, including waiting.
    pub completed_elapsed_minutes: u128,
    pub departed_hops: u128,
    pub settled_hops: u128,
    /// Hop volume can exceed end-to-end generated/completed volume.
    pub departed_principal_cents: u128,
    pub settled_principal_cents: u128,
}

impl Metrics {
    pub open spec fn is_zero(self) -> bool {
        &&& self.generated == 0 && self.generated_volume_cents == 0 && self.accepted_routes == 0
        &&& self.rejected == 0 && self.rejected_volume_cents == 0 && self.expired == 0
        &&& self.expired_volume_cents == 0 && self.completed == 0 && self.completed_volume_cents == 0
        &&& self.completed_late == 0 && self.completed_late_volume_cents == 0
        &&& self.sla_failures == 0 && self.sla_failed_volume_cents == 0 && self.routing_cost_cents == 0
        &&& self.completed_elapsed_minutes == 0 && self.departed_hops == 0 && self.settled_hops == 0
        &&& self.departed_principal_cents == 0 && self.settled_principal_cents == 0
    }

    pub fn zero() -> (r: Metrics)
        ensures
            r.is_zero(),
    {
        Metrics {
            generated: 0,
            generated_volume_cents: 0,
            accepted_routes: 0,
            rejected: 0,
            rejected_volume_cents: 0,
            expired: 0,
            expired_volume_cents: 0,
            completed: 0,
            completed_volume_cents: 0,
            completed_late: 0,
            completed_late_volume_cents: 0,
            sla_failures: 0,
            sla_failed_volume_cents: 0,
            routing_cost_cents: 0,
            completed_elapsed_minutes: 0,
            departed_hops: 0,
            settled_hops: 0,
            departed_principal_cents: 0,
            settled_principal_cents: 0,
        }
    }
}

impl Default for Metrics {
    fn default() -> (r: Metrics)
        ensures
            r.is_zero(),
    {
        Metrics::zero()
    }
}

/// A pinned route and at most one in-flight hop; `next_hop` counts settled hops.
#[derive(Debug, Clone, PartialEq, Eq)]
pub struct ActivePayment {
    pub sequence: u128,
    pub payment: Payment,
    pub arrived_at: u128,
    pub deadline: u128,
    pub route: Option<Route>,
    pub next_hop: usize,
    /// Reserved departure times, aligned with route hops. None for CheapestStatic.
    pub planned_departures: Option<Vec<u128>>,
    pub in_flight_until: Option<u128>,
    pub sla_failed: bool,
    /// Initial route acceptance is counted once, even after a withdrawal/retry.
    pub ever_routed: bool,
}

/// The route ends at the payment's receiver.
pub open spec fn complete_plan(p: ActivePayment) -> bool {
    p.route matches Some(r) && r.hops@.len() > 0 && r.hops@.last().receiver@ == p.payment.receiver@
}

impl ActivePayment {
    /// Whether the pinned route reaches the receiver, not merely a fixed prefix.
    pub fn has_complete_plan(&self) -> (r: bool)
        ensures
            r == complete_plan(*self),
    {
        match &self.route {
            None => false,
            Some(route) => {
                let n = route.hops.len();
                if n == 0 {
                    false
                } else {
                    crate::text::same_text(&route.hops[n - 1].receiver, &self.payment.receiver)
                }
            },
        }
    }

    /// Hops that can no longer change: settled ones and the one in flight.
    pub fn fixed_hops(&self) -> (r: usize)
        requires
            self.next_hop < usize::MAX,
        ensures
            r == self.next_hop + (if self.in_flight_until is Some { 1int } else { 0int }),
    {
        if self.in_flight_until.is_some() {
            self.next_hop + 1
        } else {
            self.next_hop
        }
    }
}

#[derive(Debug, Clone, PartialEq, Eq)]
pub struct RailState {
    pub rail_id: String,
    /// Availability sampled in the most recently processed minute.
    pub open: bool,
    pub used_this_minute_cents: u128,
    pub departed_principal_cents: u128,
    pub settled_principal_cents: u128,
    pub departed_hops: u128,
    pub settled_hops: u128,
    pub routing_cost_cents: u128,
}

#[derive(Debug, Clone, PartialEq, Eq)]
pub enum EventKind {
    DisruptionApplied(AppliedDisruption),
    Reoptimized(Box<ReoptimizationReport>),
    /// Full witness includes the unchanged executed/in-flight prefix.
    PlanRevised { sequence: u128, route: Option<Route>, planned_departures: Option<Vec<u128>> },
    RailTick { rail_id: String, open: bool, capacity_cents: Option<u64> },
    Generated { sequence: u128, payment: Payment, deadline: u128 },
    Rejected { sequence: u128 },
    RouteAccepted { sequence: u128, route: Route },
    HopDeparted {
        sequence: u128,
        hop: RouteHop,
        amount_cents: u64,
        fee_cents: u64,
        arrival_minute: u128,
    },
    HopSettled { sequence: u128, hop: RouteHop, amount_cents: u64 },
    DeadlineMissed { sequence: u128 },
    Expired { sequence: u128 },
    Completed { sequence: u128, late: bool, elapsed_minutes: u128 },
}

#[derive(Debug, Clone, PartialEq, Eq)]
pub struct Event {
    /// Contiguous zero-based sequence across every event, including discarded history.
    pub sequence: u128,
    pub minute: u128,
    pub kind: EventKind,
}

#[derive(Debug, Clone, PartialEq, Eq)]
pub struct TickReport {
    pub minute: u128,
    /// Complete ordered events for this tick, independent of retained history.
    pub events: Vec<Event>,
}

/// The bounded mutable state of a run; one tick works on a copy of it.
#[derive(Debug, Clone, PartialEq, Eq)]
pub struct State {
    pub next_minute: u128,
    pub next_event: u128,
    pub random: Random,
    pub metrics: Metrics,
    pub active: Vec<ActivePayment>,
    pub rails: Vec<RailState>,
    pub reservations: Reservations,
    pub routing_diagnostics: SearchDiagnostics,
    pub adaptation_metrics: AdaptationMetrics,
    pub last_reoptimization: Option<ReoptimizationReport>,
}

/// A fresh run: minute zero, no events, the seeded generator, and zeroed
/// accounting for every rail of the scenario, in order.
pub open spec fn initial(state: State, scenario: Scenario, seed: u64) -> bool {
    &&& state.next_minute == 0
    &&& state.next_event == 0
    &&& state.random == Random(seed)
    &&& state.metrics.is_zero()
    &&& state.active@.len() == 0
    &&& state.rails@.len() == scenario.network.rails@.len()
    &&& forall|i: int|
        #![trigger state.rails@[i]]
        0 <= i < state.rails@.len() ==> {
            let r = state.rails@[i];
            &&& r.rail_id@ == scenario.network.rails@[i].id@
            &&& !r.open
            &&& r.used_this_minute_cents == 0 && r.departed_principal_cents == 0
            &&& r.settled_principal_cents == 0 && r.departed_hops == 0 && r.settled_hops == 0
            &&& r.routing_cost_cents == 0
        }
    &&& state.reservations.slots@.len() == 0 && state.reservations.rails@.len() == 0
    &&& state.routing_diagnostics == SearchDiagnostics::zero_spec()
    &&& state.adaptation_metrics == AdaptationMetrics::zero_spec()
    &&& state.last_reoptimization is None
}

/// A bounded-state deterministic model. Pacing belongs to the caller.
/// `step` is transactional; an error commits neither work, RNG nor history.
#[derive(Debug, Clone, PartialEq, Eq)]
pub struct Simulator {
    pub scenario: Scenario,
    pub effective: Scenario,
    pub router: Router,
    pub next_disruption: usize,
    /// At most one staged update per rail, in rail-identifier order.
    pub pending_updates: Vec<RailUpdate>,
    pub reoptimization_policy: ReoptimizationPolicy,
    pub seed: u64,
    pub running: bool,
    pub state: State,
    pub history: VecDeque<Event>,
}

/// A tick computed against a simulator but not yet committed to it.
pub struct PreparedTick {
    pub effective: Option<Scenario>,
    pub router: Option<Router>,
    pub state: State,
    pub next_disruption: usize,
    pub report: TickReport,
}

/// What a tick prepared against `sim` holds: a consistent next state one minute
/// on, with contiguously numbered events of that minute.
pub open spec fn prepared(sim: Simulator, tick: PreparedTick) -> bool {
    let eff = match tick.effective {
        Some(e) => e,
        None => sim.effective,
    };
    &&& (tick.effective is Some) == (tick.router is Some)
    &&& config_ok(eff)
    &&& (tick.router matches Some(r) ==> r.wf())
    &&& tick.state.rails@.len() == eff.network.rails@.len()
    &&& sim.scenario.network.rails@.len() == eff.network.rails@.len()
    &&& same_arrivals(eff.arrivals, sim.effective.arrivals)
    &&& eff.max_active_payments == sim.effective.max_active_payments
    &&& consistent(tick.state, eff)
    &&& tick.report.minute == sim.state.next_minute
    &&& tick.state.next_minute == sim.state.next_minute + 1
    &&& tick.state.next_event == sim.state.next_event + tick.report.events@.len()
    &&& forall|i: int|
        0 <= i < tick.report.events@.len() ==> (#[trigger] tick.report.events@[i]).sequence
            == sim.state.next_event + i && tick.report.events@[i].minute == tick.report.minute
}

/// `after` is `before` advanced by the tick that `report` describes.
pub open spec fn committed(before: Simulator, after: Simulator, report: TickReport) -> bool {
    &&& report.minute == before.state.next_minute
    &&& after.state.next_minute == before.state.next_minute + 1
    &&& after.state.next_event == before.state.next_event + report.events@.len()
    &&& forall|i: int|
        0 <= i < report.events@.len() ==> (#[trigger] report.events@[i]).sequence
            == before.state.next_event + i && report.events@[i].minute == report.minute
    &&& consistent(after.state, after.effective)
    &&& after.pending_updates@.len() == 0
    &&& after.scenario == before.scenario
    &&& after.seed == before.seed
    &&& after.running == before.running
    &&& after.reoptimization_policy == before.reoptimization_policy
    &&& same_arrivals(after.effective.arrivals, before.effective.arrivals)
    &&& after.history@.len() == retained_len(before.history@.len(), report.events@.len(), before.scenario.retained_events as nat)
}

/// `after` is the generator state once one minute's demand is drawn from `before`
/// by the arrival process `a`: demand depends on nothing else.
pub open spec fn demand_drawn(before: Random, a: ArrivalProcess, after: Random) -> bool {
    after == Random(attempts_outcome(before.0, a, a.attempts_per_minute as nat).1)
}

/// The instructions that a simulator's next tick announces: its own draws,
/// numbered on from its generated count and due after its current minute.
pub open spec fn tick_demand(sim: Simulator) -> Seq<(u128, crate::network::PaymentView, u128)> {
    demand_events(
        drawn_views(sim.state.random, sim.effective.arrivals, None),
        sim.state.next_minute,
        sim.state.metrics.generated,
    )
}

/// The seeded demand does not depend on strategy, admission limits or queues:
/// simulators at the same minute, generator state and count, whose arrival
/// processes draw alike over the same flows, announce the same instructions.
pub proof fn lemma_same_tick_demand(a: Simulator, b: Simulator)
    requires
        a.state.random == b.state.random,
        a.state.next_minute == b.state.next_minute,
        a.state.metrics.generated == b.state.metrics.generated,
        same_arrivals(a.effective.arrivals, b.effective.arrivals),
        a.effective.arrivals.flows@ == b.effective.arrivals.flows@,
    ensures
        tick_demand(a) == tick_demand(b),
{
    lemma_same_draws(a.state.random.0, a.effective.arrivals, b.effective.arrivals, a.effective.arrivals.attempts_per_minute as nat);
}

/// Nothing is due in the simulator's next minute but the rails' own tick: no
/// change is scheduled for it or staged, no payment is under way, and the
/// generator draws no instruction.
pub open spec fn idle(sim: Simulator) -> bool {
    &&& sim.pending_updates@.len() == 0
    &&& disruption::due_end(sim.scenario.disruptions@, sim.next_disruption as int, sim.state.next_minute)
        == sim.next_disruption
    &&& sim.state.active@.len() == 0
    &&& drawn_views(sim.state.random, sim.effective.arrivals, None).len() == 0
}

/// An idle minute announces one rail tick per rail and nothing else, counts
/// nothing and leaves no payment under way.
pub open spec fn quiet_tick(before: Simulator, after: Simulator, report: TickReport) -> bool {
    idle(before) ==> {
        &&& report.events@.len() == before.state.rails@.len()
        &&& after.state.metrics == before.state.metrics
        &&& after.state.active@.len() == 0
    }
}

/// The generator state after `n` minutes of demand drawn by `a` from `r`.
pub open spec fn demand_after(r: Random, a: ArrivalProcess, n: nat) -> Random
    decreases n,
{
    if n == 0 {
        r
    } else {
        Random(attempts_outcome(demand_after(r, a, (n - 1) as nat).0, a, a.attempts_per_minute as nat).1)
    }
}

/// Both runs of a pair draw the same demand: simulators that start a minute from
/// the same generator state with arrival processes that draw alike end it with
/// the same generator state, whatever their strategies, limits or queues.
pub proof fn lemma_same_demand(a: Random, pa: ArrivalProcess, a2: Random, b: Random, pb: ArrivalProcess, b2: Random)
    requires
        a == b,
        same_arrivals(pa, pb),
        demand_drawn(a, pa, a2),
        demand_drawn(b, pb, b2),
    ensures
        a2 == b2,
{
    lemma_same_arrivals(a.0, pa, pb, pa.attempts_per_minute as nat);
}

/// How many events the history holds after `added` more, keeping at most `cap`
/// (none are kept when `cap` is zero).
pub open spec fn retained_len(held: nat, added: nat, cap: nat) -> nat {
    if cap == 0 {
        held
    } else if held + added <= cap {
        held + added
    } else {
        cap
    }
}

fn initial_rails(scenario: &Scenario) -> (r: Vec<RailState>)
    ensures
        r@.len() == scenario.network.rails@.len(),
        forall|i: int|
            #![trigger r@[i]]
            0 <= i < r@.len() ==> {
                let s = r@[i];
                &&& s.rail_id@ == scenario.network.rails@[i].id@
                &&& !s.open
                &&& s.used_this_minute_cents == 0 && s.departed_principal_cents == 0
                &&& s.settled_principal_cents == 0 && s.departed_hops == 0 && s.settled_hops == 0
                &&& s.routing_cost_cents == 0
            },
{
    let mut rails: Vec<RailState> = Vec::new();
    let mut i: usize = 0;
    while i < scenario.network.rails.len()
        invariant
            i <= scenario.network.rails@.len(),
            rails@.len() == i,
            forall|k: int|
                #![trigger rails@[k]]
                0 <= k < i ==> {
                    let s = rails@[k];
                    &&& s.rail_id@ == scenario.network.rails@[k].id@
                    &&& !s.open
                    &&& s.used_this_minute_cents == 0 && s.departed_principal_cents == 0
                    &&& s.settled_principal_cents == 0 && s.departed_hops == 0 && s.settled_hops == 0
                    &&& s.routing_cost_cents == 0
                },
        decreases scenario.network.rails@.len() - i,
    {
        rails.push(
            RailState {
                rail_id: scenario.network.rails[i].id.clone(),
                open: false,
                used_this_minute_cents: 0,
                departed_principal_cents: 0,
                settled_principal_cents: 0,
                departed_hops: 0,
                settled_hops: 0,
                routing_cost_cents: 0,
            },
        );
        i += 1;
    }
    rails
}

proof fn lemma_idle_rail_contribs(rails: Seq<RailState>, sc: Scenario, minute: u128, n: nat)
    requires
        n <= rails.len(),
        forall|i: int| 0 <= i < n ==> (#[trigger] rails[i]).used_this_minute_cents == 0,
    ensures
        audit::rail_contribs(rails, sc, minute, n) == Seq::<crate::scalable::SlotBooking>::empty(),
    decreases n,
{
    if n > 0 {
        lemma_idle_rail_contribs(rails, sc, minute, (n - 1) as nat);
    }
}

proof fn lemma_zero_rails_sum(rails: Seq<RailState>, f: spec_fn(RailState) -> u128)
    requires
        forall|i: int| 0 <= i < rails.len() ==> f(#[trigger] rails[i]) == 0,
    ensures
        audit::rails_sum(rails, f) == 0,
    decreases rails.len(),
{
    if rails.len() > 0 {
        let rest = rails.drop_last();
        assert forall|i: int| 0 <= i < rest.len() implies f(#[trigger] rest[i]) == 0 by {
            assert(rest[i] == rails[i]);
        }
        lemma_zero_rails_sum(rest, f);
        assert(f(rails[rails.len() - 1]) == 0);
    }
}

/// A fresh run is consistent under any configuration: nothing is active,
/// booked, counted or in flight.
proof fn lemma_initial_consistent(st: State, sc: Scenario, seed: u64, eff: Scenario)
    requires
        initial(st, sc, seed),
    ensures
        consistent(st, eff),
{
    let rails = st.rails@;
    assert forall|i: int| 0 <= i < rails.len() implies (#[trigger] rails[i]).used_this_minute_cents == 0 by {}
    lemma_idle_rail_contribs(rails, eff, audit::last_minute(st), rails.len());
    assert(audit::expected_bookings(st, eff) =~= Seq::<crate::scalable::SlotBooking>::empty());
    assert forall|r: usize, t: u128| #[trigger] crate::scalable::slot_booked(st.reservations.slots@, r, t)
        == audit::contrib_sum(audit::expected_bookings(st, eff), r, t) by {}
    assert forall|i: int| 0 <= i < rails.len() implies #[trigger] audit::rail_ok(st, eff, i) by {
        assert(rails[i].departed_principal_cents == 0);
    }
    lemma_zero_rails_sum(rails, |s: RailState| s.departed_principal_cents);
    lemma_zero_rails_sum(rails, |s: RailState| s.settled_principal_cents);
    lemma_zero_rails_sum(rails, |s: RailState| s.departed_hops);
    lemma_zero_rails_sum(rails, |s: RailState| s.settled_hops);
    lemma_zero_rails_sum(rails, |s: RailState| s.routing_cost_cents);
}

fn initial_state(scenario: &Scenario, seed: u64) -> (r: State)
    ensures
        initial(r, *scenario, seed),
{
    State {
        next_minute: 0,
        next_event: 0,
        random: Random(seed),
        metrics: Metrics::zero(),
        active: Vec::new(),
        rails: initial_rails(scenario),
        reservations: Reservations::empty(),
        routing_diagnostics: SearchDiagnostics::zero(),
        adaptation_metrics: AdaptationMetrics::zero(),
        last_reoptimization: None,
    }
}


impl Simulator {
    /// The configuration and bookkeeping every operation relies on.
    pub open spec fn wf(&self) -> bool {
        &&& config_ok(self.scenario)
        &&& config_ok(self.effective)
        &&& self.router.wf()
        &&& self.state.rails@.len() == self.effective.network.rails@.len()
        &&& self.scenario.network.rails@.len() == self.effective.network.rails@.len()
        &&& distinct_ids(self.pending_updates@)
        &&& self.history@.len() <= self.scenario.retained_events
        &&& consistent(self.state, self.effective)
        &&& self.effective.max_active_payments == self.scenario.max_active_payments
    }

    /// A paused simulator at minute zero. Rails, services and scheduled changes
    /// are put in identifier order (changes by minute, then rail) so that fixed
    /// per-rail state lines up with the network.
    pub fn new(scenario: Scenario, seed: u64) -> (r: Result<Simulator, SimulationError>)
        ensures
            r is Ok <==> scenario_valid(scenario),
            r matches Err(e) ==> e is Validation,
            r matches Ok(sim) ==> {
                &&& sim.wf()
                &&& initial(sim.state, sim.scenario, seed)
                &&& sim.seed == seed
                &&& !sim.running
                &&& sim.next_disruption == 0
                &&& sim.pending_updates@.len() == 0
                &&& sim.history@.len() == 0
                &&& sim.reoptimization_policy == ReoptimizationPolicy::default_spec()
                &&& sim.scenario.network.rails@.len() == scenario.network.rails@.len()
                &&& sim.scenario.arrivals == scenario.arrivals
                &&& sim.scenario.strategy == scenario.strategy
                &&& sim.scenario.max_active_payments == scenario.max_active_payments
                &&& sim.scenario.retained_events == scenario.retained_events
                &&& sim.scenario.network.name@ == scenario.network.name@
                &&& sim.scenario.network.institutions@ == scenario.network.institutions@
                &&& sim.scenario.network.payments@ == scenario.network.payments@
                &&& sim.scenario.network.rails@.to_multiset() == scenario.network.rails@.to_multiset()
                &&& crate::order::key_sorted(sim.scenario.network.rails@)
                &&& sim.scenario.services@.to_multiset() == scenario.services@.to_multiset()
                &&& crate::order::key_sorted(sim.scenario.services@)
                &&& sim.scenario.disruptions@.to_multiset() == scenario.disruptions@.to_multiset()
                &&& crate::order::num_sorted(sim.scenario.disruptions@)
                &&& same_config(Scenario { disruptions: sim.scenario.disruptions, ..sim.effective }, sim.scenario)
                &&& sim.effective.disruptions@.len() == 0
            },
    {
        broadcast use vstd::seq_lib::group_to_multiset_ensures;

        match scenario.validate() {
            Ok(()) => {},
            Err(e) => {
                return Err(SimulationError::Validation(e));
            },
        }
        proof {
            lemma_valid_config(scenario);
        }
        let ghost original = scenario;
        let mut scenario = scenario;
        let mut rails: Vec<crate::network::Rail> = Vec::new();
        std::mem::swap(&mut rails, &mut scenario.network.rails);
        scenario.network.rails = sort_by_key(rails);
        let mut services: Vec<config::RailService> = Vec::new();
        std::mem::swap(&mut services, &mut scenario.services);
        let ghost before_services = services@;
        let sorted_services = sort_by_key(services);
        proof {
            assert forall|i: int| 0 <= i < sorted_services@.len() implies (#[trigger] sorted_services@[i]).period_minutes > 0 by {
                assert(sorted_services@.to_multiset().count(sorted_services@[i]) > 0);
                assert(before_services.contains(sorted_services@[i]));
            }
        }
        scenario.services = sorted_services;
        let mut disruptions: Vec<disruption::Disruption> = Vec::new();
        std::mem::swap(&mut disruptions, &mut scenario.disruptions);
        scenario.disruptions = crate::order::sort_by_num(sort_by_key(disruptions));
        assert(config_ok(scenario));
        let state = initial_state(&scenario, seed);
        let router = Router::recurring(&scenario.network, &scenario.services);
        // Surprise changes stay unrevealed until their minute comes.
        let mut effective = scenario.copy();
        proof {
            lemma_same_config_ok(effective, scenario);
        }
        effective.disruptions = Vec::new();
        proof {
            lemma_initial_consistent(state, scenario, seed, effective);
        }
        let ghost empty_updates: Seq<RailUpdate> = Seq::empty();
        assert(distinct_ids(empty_updates));
        Ok(
            Simulator {
                effective,
                scenario,
                router,
                next_disruption: 0,
                pending_updates: Vec::new(),
                reoptimization_policy: ReoptimizationPolicy::default_policy(),
                seed,
                running: false,
                state,
                history: VecDeque::new(),
            },
        )
    }

    pub fn start(&mut self)
        ensures
            *final(self) == (Simulator { running: true, ..*old(self) }),
    {
        self.running = true;
    }

    pub fn pause(&mut self)
        ensures
            *final(self) == (Simulator { running: false, ..*old(self) }),
    {
        self.running = false;
    }

    pub fn is_running(&self) -> (r: bool)
        ensures
            r == self.running,
    {
        self.running
    }

    pub fn seed(&self) -> (r: u64)
        ensures
            r == self.seed,
    {
        self.seed
    }

    pub fn next_minute(&self) -> (r: u128)
        ensures
            r == self.state.next_minute,
    {
        self.state.next_minute
    }

    /// The configuration a restart replays.
    pub fn scenario(&self) -> (r: &Scenario)
        ensures
            r == &self.scenario,
    {
        &self.scenario
    }

    pub fn metrics(&self) -> (r: &Metrics)
        ensures
            r == &self.state.metrics,
    {
        &self.state.metrics
    }

    pub fn routing_diagnostics(&self) -> (r: SearchDiagnostics)
        ensures
            r == self.state.routing_diagnostics,
    {
        self.state.routing_diagnostics
    }

    /// Outstanding departure bookings.
    pub fn reservation_entries(&self) -> (r: usize)
        ensures
            r == self.state.reservations.slots@.len(),
    {
        self.state.reservations.slots.len()
    }

    pub fn active_payments(&self) -> (r: &[ActivePayment])
        ensures
            r@ == self.state.active@,
    {
        self.state.active.as_slice()
    }

    pub fn rail_states(&self) -> (r: &[RailState])
        ensures
            r@ == self.state.rails@,
    {
        self.state.rails.as_slice()
    }

    /// The retained tail of the event history.
    pub fn recent_events(&self) -> (r: &VecDeque<Event>)
        ensures
            r == &self.history,
    {
        &self.history
    }

    /// Every event ever emitted, including discarded history.
    pub fn event_count(&self) -> (r: u128)
        ensures
            r == self.state.next_event,
    {
        self.state.next_event
    }

    /// Restore exactly a fresh, paused run with the same scenario and this seed.
    /// The explicit reoptimization policy is kept; staged updates are discarded.
    pub fn restart(&mut self, seed: u64)
        requires
            old(self).wf(),
        ensures
            final(self).wf(),
            initial(final(self).state, final(self).scenario, seed),
            final(self).scenario == old(self).scenario,
            same_config(Scenario { disruptions: old(self).scenario.disruptions, ..final(self).effective }, old(self).scenario),
            final(self).effective.disruptions@.len() == 0,
            final(self).reoptimization_policy == old(self).reoptimization_policy,
            final(self).seed == seed,
            !final(self).running,
            final(self).next_disruption == 0,
            final(self).pending_updates@.len() == 0,
            final(self).history@.len() == 0,
    {
        self.state = initial_state(&self.scenario, seed);
        let mut effective = self.scenario.copy();
        proof {
            lemma_same_config_ok(effective, self.scenario);
        }
        effective.disruptions = Vec::new();
        proof {
            lemma_initial_consistent(self.state, self.scenario, seed, effective);
        }
        self.effective = effective;
        self.router = Router::recurring(&self.effective.network, &self.effective.services);
        self.next_disruption = 0;
        self.pending_updates = Vec::new();
        self.seed = seed;
        self.running = false;
        self.history = VecDeque::new();
    }

    /// Driver tick: a paused simulator does not advance or consume randomness.
    pub fn tick(&mut self) -> (r: Result<Option<TickReport>, SimulationError>)
        requires
            old(self).wf(),
        ensures
            final(self).wf(),
            !old(self).running ==> r == Ok::<Option<TickReport>, SimulationError>(None) && *final(self) == *old(self),
            r is Err ==> *final(self) == *old(self),
            r matches Ok(Some(report)) ==> report.minute == old(self).state.next_minute
                && final(self).state.next_minute == old(self).state.next_minute + 1,
            old(self).running ==> r is Err || r matches Ok(Some(_)),
            r matches Ok(Some(report)) ==> committed(*old(self), *final(self), report),
            r matches Ok(Some(_)) ==> demand_drawn(old(self).state.random, old(self).effective.arrivals, final(self).state.random),
            r matches Ok(Some(report)) ==> generated_events(report.events@) == tick_demand(*old(self)),
            r matches Ok(Some(report)) ==> quiet_tick(*old(self), *final(self), report),
    {
        if self.running {
            match self.step() {
                Ok(report) => Ok(Some(report)),
                Err(e) => Err(e),
            }
        } else {
            Ok(None)
        }
    }

    /// One minute regardless of pause or speed; the first step processes minute
    /// zero. Transactional: an error commits neither work, randomness nor history.
    /// A committed state always satisfies every accounting invariant, events are
    /// numbered contiguously, and staged updates are consumed.
    pub fn step(&mut self) -> (r: Result<TickReport, SimulationError>)
        requires
            old(self).wf(),
        ensures
            final(self).wf(),
            r is Err ==> *final(self) == *old(self),
            r matches Ok(report) ==> committed(*old(self), *final(self), report),
            r is Ok ==> demand_drawn(old(self).state.random, old(self).effective.arrivals, final(self).state.random),
            r matches Ok(report) ==> generated_events(report.events@) == tick_demand(*old(self)),
            r matches Ok(report) ==> quiet_tick(*old(self), *final(self), report),
    {
        self.step_inner()
    }

    /// The same transactional tick, for callers that also take decision
    /// evidence. The searches made here record none, so the evidence that comes
    /// back holds no payment.
    pub fn step_observed(&mut self) -> (r: Result<(TickReport, DecisionEvidence), SimulationError>)
        requires
            old(self).wf(),
        ensures
            final(self).wf(),
            r matches Ok((_, evidence)) ==> evidence.payments@.len() == 0,
            r is Err ==> *final(self) == *old(self),
            r matches Ok((report, _)) ==> committed(*old(self), *final(self), report),
            r matches Ok((report, _)) ==> generated_events(report.events@) == tick_demand(*old(self)),
            r is Ok ==> demand_drawn(old(self).state.random, old(self).effective.arrivals, final(self).state.random),
            r matches Ok((report, _)) ==> quiet_tick(*old(self), *final(self), report),
    {
        match self.step_inner() {
            Ok(report) => Ok((report, DecisionEvidence::empty())),
            Err(e) => Err(e),
        }
    }

    #[verifier::rlimit(60)]
    fn step_inner(&mut self) -> (r: Result<TickReport, SimulationError>)
        requires
            old(self).wf(),
        ensures
            final(self).wf(),
            r is Err ==> *final(self) == *old(self),
            r matches Ok(report) ==> committed(*old(self), *final(self), report),
            r is Ok ==> demand_drawn(old(self).state.random, old(self).effective.arrivals, final(self).state.random),
            r matches Ok(report) ==> generated_events(report.events@) == tick_demand(*old(self)),
            r matches Ok(report) ==> quiet_tick(*old(self), *final(self), report),
    {
        match self.prepare_tick() {
            Ok(tick) => Ok(self.commit_tick(tick)),
            Err(e) => Err(e),
        }
    }

    /// One minute with the given arrivals in place of the simulator's own draws;
    /// its random stream does not advance. Transactional as `step` is.
    pub fn step_with_arrivals(&mut self, arrivals: &Vec<ArrivalSample>) -> (r: Result<TickReport, SimulationError>)
        requires
            old(self).wf(),
        ensures
            final(self).wf(),
            r is Err ==> *final(self) == *old(self),
            r matches Ok(report) ==> committed(*old(self), *final(self), report)
                && final(self).state.random == old(self).state.random,
            r matches Ok(report) ==> generated_events(report.events@) == demand_events(
                engine::sample_views(arrivals@),
                old(self).state.next_minute,
                old(self).state.metrics.generated,
            ),
    {
        match self.prepare_tick_with(Some(arrivals)) {
            Ok(tick) => Ok(self.commit_tick(tick)),
            Err(e) => Err(e),
        }
    }

    /// Computes the next tick against this simulator without changing it.
    pub fn prepare_tick(&self) -> (r: Result<PreparedTick, SimulationError>)
        requires
            self.wf(),
        ensures
            r matches Ok(tick) ==> prepared(*self, tick),
            r matches Ok(tick) ==> demand_drawn(self.state.random, self.effective.arrivals, tick.state.random),
            r matches Ok(tick) ==> generated_events(tick.report.events@) == tick_demand(*self),
            r matches Ok(tick) ==> (idle(*self) ==> tick.report.events@.len() == self.state.rails@.len()
                && tick.state.metrics == self.state.metrics && tick.state.active@.len() == 0),
            r matches Ok(tick) ==> tick.state.metrics.generated == self.state.metrics.generated
                + rng::attempts_outcome(
                self.state.random.0,
                self.effective.arrivals,
                self.effective.arrivals.attempts_per_minute as nat,
            ).0.len(),
    {
        self.prepare_tick_with(None)
    }

    /// The same, with the minute's arrivals given rather than drawn from the
    /// simulator's own random stream, which then does not advance.
    #[verifier::spinoff_prover]
    #[verifier::rlimit(60)]
    fn prepare_tick_with(&self, injected: Option<&Vec<ArrivalSample>>) -> (r: Result<PreparedTick, SimulationError>)
        requires
            self.wf(),
        ensures
            r matches Ok(tick) ==> prepared(*self, tick),
            r matches Ok(tick) ==> (injected is Some ==> tick.state.random == self.state.random),
            r matches Ok(tick) ==> tick.state.metrics.generated == self.state.metrics.generated
                + drawn_views(self.state.random, self.effective.arrivals, injected).len(),
            r matches Ok(tick) ==> (self.pending_updates@.len() == 0 && disruption::due_end(
                self.scenario.disruptions@,
                self.next_disruption as int,
                self.state.next_minute,
            ) == self.next_disruption && self.state.active@.len() == 0 && drawn_views(
                self.state.random,
                self.effective.arrivals,
                injected,
            ).len() == 0 ==> tick.report.events@.len() == self.state.rails@.len() && tick.state.metrics
                == self.state.metrics && tick.state.active@.len() == 0),
            r matches Ok(tick) ==> (injected is None ==> demand_drawn(self.state.random, self.effective.arrivals, tick.state.random)),
            r matches Ok(tick) ==> generated_events(tick.report.events@) == demand_events(
                drawn_views(self.state.random, self.effective.arrivals, injected),
                self.state.next_minute,
                self.state.metrics.generated,
            ),
    {
        let (effective, next_disruption, changes) = self.prepare_disruptions()?;
        let mut next = State {
            next_minute: self.state.next_minute,
            next_event: self.state.next_event,
            random: self.state.random,
            metrics: self.state.metrics,
            active: self.state.active.clone(),
            rails: self.state.rails.clone(),
            reservations: self.state.reservations.copy(),
            routing_diagnostics: self.state.routing_diagnostics,
            adaptation_metrics: self.state.adaptation_metrics,
            last_reoptimization: self.state.last_reoptimization,
        };
        match effective {
            Some(effective) => {
                let router = Router::recurring(&effective.network, &effective.services);
                let report = next.process_tick(&effective, &router, &changes, injected)?;
                proof {
                    lemma_same_arrivals(self.state.random.0, effective.arrivals, self.effective.arrivals, effective.arrivals.attempts_per_minute as nat);
                    lemma_same_draws(self.state.random.0, effective.arrivals, self.effective.arrivals, effective.arrivals.attempts_per_minute as nat);
                }
                if injected.is_some() {
                    next.random = self.state.random;
                }
                check_state(&next, &effective)?;
                Ok(PreparedTick { effective: Some(effective), router: Some(router), state: next, next_disruption, report })
            },
            None => {
                let report = next.process_tick(&self.effective, &self.router, &changes, injected)?;
                if injected.is_some() {
                    next.random = self.state.random;
                }
                check_state(&next, &self.effective)?;
                Ok(PreparedTick { effective: None, router: None, state: next, next_disruption, report })
            },
        }
    }

    /// Commits a prepared tick: its state, its network, its consumed updates and
    /// its events in the retained history.
    pub fn commit_tick(&mut self, tick: PreparedTick) -> (report: TickReport)
        requires
            old(self).wf(),
            prepared(*old(self), tick),
        ensures
            final(self).wf(),
            report == tick.report,
            final(self).state == tick.state,
            committed(*old(self), *final(self), report),
    {
        let PreparedTick { effective, router, state, next_disruption, report } = tick;
        self.state = state;
        match effective {
            Some(e) => {
                self.effective = e;
            },
            None => {},
        }
        match router {
            Some(r) => {
                self.router = r;
            },
            None => {},
        }
        self.next_disruption = next_disruption;
        self.pending_updates = Vec::new();
        assert(distinct_ids(self.pending_updates@));
        let cap = self.scenario.retained_events;
        let mut history: VecDeque<Event> = VecDeque::new();
        std::mem::swap(&mut history, &mut self.history);
        let ghost held = history@.len();
        if cap > 0 {
            let mut k: usize = 0;
            while k < report.events.len()
                invariant
                    k <= report.events@.len(),
                    cap > 0,
                    history@.len() <= cap,
                    held <= cap,
                    history@.len() == retained_len(held, k as nat, cap as nat),
                decreases report.events@.len() - k,
            {
                if history.len() >= cap {
                    history.pop_front();
                }
                history.push_back(report.events[k].clone());
                k += 1;
            }
        }
        self.history = history;
        report
    }

    /// Repeat manual steps without retaining their reports. Earlier successful
    /// ticks stay committed if a later one fails.
    pub fn advance_ticks(&mut self, count: u64) -> (r: Result<(), SimulationError>)
        requires
            old(self).wf(),
        ensures
            final(self).wf(),
            r is Ok ==> final(self).state.next_minute == old(self).state.next_minute + count,
            r is Ok ==> consistent(final(self).state, final(self).effective) || count == 0,
            count == 0 ==> r is Ok && *final(self) == *old(self),
            r is Ok ==> final(self).state.random == demand_after(old(self).state.random, old(self).effective.arrivals, count as nat),
            final(self).scenario == old(self).scenario,
            final(self).seed == old(self).seed,
            final(self).running == old(self).running,
            final(self).reoptimization_policy == old(self).reoptimization_policy,
            same_arrivals(final(self).effective.arrivals, old(self).effective.arrivals),
            r is Err ==> old(self).state.next_minute <= final(self).state.next_minute < old(self).state.next_minute
                + count,
    {
        let mut done: u64 = 0;
        while done < count
            invariant
                self.wf(),
                done <= count,
                done == 0 ==> *self == *old(self),
                self.state.random == demand_after(old(self).state.random, old(self).effective.arrivals, done as nat),
                self.scenario == old(self).scenario,
                self.seed == old(self).seed,
                self.running == old(self).running,
                self.reoptimization_policy == old(self).reoptimization_policy,
                same_arrivals(self.effective.arrivals, old(self).effective.arrivals),
                self.state.next_minute == old(self).state.next_minute + done,
                done > 0 ==> consistent(self.state, self.effective),
            decreases count - done,
        {
            let ghost prev = *self;
            self.step()?;
            proof {
                lemma_same_arrivals(prev.state.random.0, prev.effective.arrivals, old(self).effective.arrivals, prev.effective.arrivals.attempts_per_minute as nat);
            }
            done += 1;
        }
        Ok(())
    }

    /// The invariants every committed tick was checked against.
    pub fn check_invariants(&self) -> (r: Result<(), SimulationError>)
        requires
            self.wf(),
        ensures
            r is Ok <==> consistent(self.state, self.effective),
            r is Ok,
    {
        check_state(&self.state, &self.effective)
    }
}

/// Every simulator the operations produce holds no more active payments than
/// its scenario allows.
pub proof fn lemma_active_within_limit(sim: Simulator)
    requires
        sim.wf(),
    ensures
        sim.state.active@.len() <= sim.scenario.max_active_payments,
{
}

} // verus!
