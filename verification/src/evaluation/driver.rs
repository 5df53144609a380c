//! The paired driver: validates a benchmark, then runs every strategy of every
//! case on the same revealed demand and records each payment's lifecycle.
use std::collections::BTreeMap;
use vstd::prelude::*;
use vstd::std_specs::iter::IteratorSpec;
use crate::evaluation::{
    CaseResult, Config, Evaluation, Outcome, PaymentResult, RunResult, Status, Strategy, World, derefs,
    in_order, key_order, sorted_keys,
};
use crate::network::ValidationError;
use crate::order::{sort_by_key, sort_by_num};
use crate::simulation::{ActivePayment, EventKind, Metrics, SimulationError, Simulator, TickReport};
use crate::simulation::config::{RoutingStrategy, Scenario, same_config, scenario_valid};
use crate::simulation::disruption::{AdaptationMetrics, Disruption};
use crate::simulation::rng::{ArrivalSample, Random};
use crate::text::{blank, copy_string, is_blank, same_text, text};

verus! {

/// A world's scenario routed by `routing`.
pub open spec fn routed(s: Scenario, routing: RoutingStrategy) -> Scenario {
    Scenario { strategy: routing, ..s }
}

/// Scenarios that agree on everything validation reads, surprise changes aside.
pub open spec fn same_setup(a: Scenario, b: Scenario) -> bool {
    &&& a.network@ == b.network@
    &&& a.services@.len() == b.services@.len()
    &&& forall|i: int|
        0 <= i < a.services@.len() ==> (#[trigger] a.services@[i]).rail_id@ == b.services@[i].rail_id@
            && a.services@[i].period_minutes == b.services@[i].period_minutes
            && a.services@[i].offset_minutes == b.services@[i].offset_minutes
            && a.services@[i].open_minutes == b.services@[i].open_minutes
            && a.services@[i].capacity_per_minute_cents == b.services@[i].capacity_per_minute_cents
    &&& a.arrivals.attempts_per_minute == b.arrivals.attempts_per_minute
    &&& a.arrivals.probability_per_million == b.arrivals.probability_per_million
    &&& a.arrivals.flows@ == b.arrivals.flows@
    &&& a.arrivals.min_amount_cents == b.arrivals.min_amount_cents
    &&& a.arrivals.max_amount_cents == b.arrivals.max_amount_cents
    &&& a.arrivals.min_sla_minutes == b.arrivals.min_sla_minutes
    &&& a.arrivals.max_sla_minutes == b.arrivals.max_sla_minutes
    &&& a.strategy == b.strategy
    &&& a.max_active_payments == b.max_active_payments
}

/// Scenarios with the same setup are valid together.
proof fn lemma_same_setup_valid(a: Scenario, b: Scenario)
    requires
        same_setup(a, b),
    ensures
        scenario_valid(a) == scenario_valid(b),
{
    assert(a.services@.map_values(|x: crate::simulation::config::RailService| x.rail_id@)
        =~= b.services@.map_values(|x: crate::simulation::config::RailService| x.rail_id@));
    assert(a.network.rails@.len() == a.network@.rails.len());
    assert(b.network.rails@.len() == b.network@.rails.len());
    assert forall|i: int| 0 <= i < a.network.rails@.len() implies (#[trigger] a.network.rails@[i]).batch_capacity_cents
        == b.network.rails@[i].batch_capacity_cents by {
        assert(a.network@.rails[i] == a.network.rails@[i]@);
        assert(b.network@.rails[i] == b.network.rails@[i]@);
    }
    assert forall|i: int| 0 <= i < a.services@.len() implies crate::simulation::config::window_ok(#[trigger] a.services@[i])
        == crate::simulation::config::window_ok(b.services@[i]) && crate::simulation::config::service_rail_known(
        a.network@,
        a.services@[i],
    ) == crate::simulation::config::service_rail_known(b.network@, b.services@[i]) by {}
    assert(crate::simulation::config::arrivals_ok(a.arrivals) == crate::simulation::config::arrivals_ok(b.arrivals));
    assert(crate::network::network_problem(a.network@) == crate::network::network_problem(b.network@));
    assert((a.strategy matches RoutingStrategy::Reserved { limits } ==> limits.positive()) == (b.strategy matches RoutingStrategy::Reserved { limits } ==> limits.positive()));
    assert((forall|i: int|
        0 <= i < a.arrivals.flows@.len() ==> crate::network::payment_problem(
            a.network@,
            crate::simulation::config::flow_payment(#[trigger] a.arrivals.flows@[i], a.arrivals.min_amount_cents),
        ) is None) == (forall|i: int|
        0 <= i < b.arrivals.flows@.len() ==> crate::network::payment_problem(
            b.network@,
            crate::simulation::config::flow_payment(#[trigger] b.arrivals.flows@[i], b.arrivals.min_amount_cents),
        ) is None));
    let batch_a = forall|i: int| 0 <= i < a.network.rails@.len() ==> (#[trigger] a.network.rails@[i]).batch_capacity_cents is None;
    let batch_b = forall|i: int| 0 <= i < b.network.rails@.len() ==> (#[trigger] b.network.rails@[i]).batch_capacity_cents is None;
    if batch_a {
        assert forall|i: int| 0 <= i < b.network.rails@.len() implies (#[trigger] b.network.rails@[i]).batch_capacity_cents is None by {
            assert(a.network.rails@[i].batch_capacity_cents == b.network.rails@[i].batch_capacity_cents);
        }
    }
    if batch_b {
        assert forall|i: int| 0 <= i < a.network.rails@.len() implies (#[trigger] a.network.rails@[i]).batch_capacity_cents is None by {
            assert(a.network.rails@[i].batch_capacity_cents == b.network.rails@[i].batch_capacity_cents);
        }
    }
    let svc_a = forall|i: int|
        0 <= i < a.services@.len() ==> crate::simulation::config::service_rail_known(a.network@, #[trigger] a.services@[i])
            && crate::simulation::config::window_ok(a.services@[i]);
    let svc_b = forall|i: int|
        0 <= i < b.services@.len() ==> crate::simulation::config::service_rail_known(b.network@, #[trigger] b.services@[i])
            && crate::simulation::config::window_ok(b.services@[i]);
    if svc_a {
        assert forall|i: int| 0 <= i < b.services@.len() implies crate::simulation::config::service_rail_known(
            b.network@,
            #[trigger] b.services@[i],
        ) && crate::simulation::config::window_ok(b.services@[i]) by {
            assert(crate::simulation::config::window_ok(a.services@[i]));
        }
    }
    if svc_b {
        assert forall|i: int| 0 <= i < a.services@.len() implies crate::simulation::config::service_rail_known(
            a.network@,
            #[trigger] a.services@[i],
        ) && crate::simulation::config::window_ok(a.services@[i]) by {
            assert(crate::simulation::config::window_ok(b.services@[i]));
        }
    }
}

/// The message of an evaluation input error.
pub open spec fn invalid_input(e: SimulationError, message: Seq<char>) -> bool {
    e matches SimulationError::Validation(ValidationError::Evaluation { message: m }) && m@ == message
}

pub open spec fn world_names(worlds: Seq<World>) -> Seq<Seq<char>> {
    worlds.map_values(|w: World| w.name@)
}

pub open spec fn strategy_names(strategies: Seq<Strategy>) -> Seq<Seq<char>> {
    strategies.map_values(|s: Strategy| s.name@)
}

/// Every name is nonblank and no two are equal.
pub open spec fn names_ok(names: Seq<Seq<char>>) -> bool {
    &&& forall|k: int| 0 <= k < names.len() ==> !blank(#[trigger] names[k])
    &&& names.no_duplicates()
}

/// Every world is a valid scenario under every strategy's routing.
pub open spec fn all_valid(worlds: Seq<World>, strategies: Seq<Strategy>) -> bool {
    forall|w: int, s: int|
        0 <= w < worlds.len() && 0 <= s < strategies.len() ==> scenario_valid(
            routed((#[trigger] worlds[w]).scenario, (#[trigger] strategies[s]).routing),
        )
}

/// The first (world, strategy) pair, in world-major order, whose scenario is invalid.
pub open spec fn first_invalid(worlds: Seq<World>, strategies: Seq<Strategy>, w: int, s: int) -> bool {
    &&& 0 <= w < worlds.len()
    &&& 0 <= s < strategies.len()
    &&& !scenario_valid(routed(worlds[w].scenario, strategies[s].routing))
    &&& forall|v: int, t: int|
        (0 <= v < w && 0 <= t < strategies.len()) || (v == w && 0 <= t < s) ==> scenario_valid(
            routed((#[trigger] worlds[v]).scenario, (#[trigger] strategies[t]).routing),
        )
}

/// The cases of an evaluation: one per world and seed, world-major, each with one
/// run per strategy in strategy order.
pub open spec fn case_shape(cases: Seq<CaseResult>, worlds: Seq<World>, seeds: Seq<u64>, strategies: Seq<Strategy>) -> bool {
    &&& cases.len() == worlds.len() * seeds.len()
    &&& forall|c: int|
        0 <= c < cases.len() ==> {
            let case = #[trigger] cases[c];
            &&& case.world@ == worlds[c / seeds.len() as int].name@
            &&& case.seed == seeds[c % seeds.len() as int]
            &&& case.runs@.len() == strategies.len()
            &&& forall|j: int| 0 <= j < strategies.len() ==> (#[trigger] case.runs@[j]).strategy@ == strategies[j].name@
        }
}

/// Whether the benchmark names anything to run.
pub open spec fn inputs_present(worlds: Seq<World>, seeds: Seq<u64>, strategies: Seq<Strategy>, config: Config) -> bool {
    worlds.len() > 0 && seeds.len() > 0 && strategies.len() > 0 && config.arrival_minutes > 0
}

fn invalid(message: &str) -> (e: SimulationError)
    ensures
        invalid_input(e, message@),
{
    SimulationError::Validation(ValidationError::Evaluation { message: text(message) })
}

fn accumulate(target: &mut u128, value: u128) -> (r: Result<(), SimulationError>)
    ensures
        r is Ok <==> old(target) + value <= u128::MAX,
        r is Ok ==> *final(target) == old(target) + value,
        r is Err ==> *final(target) == *old(target) && r == Err::<(), SimulationError>(
            SimulationError::ArithmeticOverflow("evaluation total"),
        ),
{
    match target.checked_add(value) {
        Some(total) => {
            *target = total;
            Ok(())
        },
        None => Err(SimulationError::ArithmeticOverflow("evaluation total")),
    }
}

fn ensure(condition: bool, message: &'static str) -> (r: Result<(), SimulationError>)
    ensures
        r is Ok <==> condition,
        r is Err ==> r == Err::<(), SimulationError>(SimulationError::Invariant(message)),
{
    if condition {
        Ok(())
    } else {
        Err(SimulationError::Invariant(message))
    }
}

/// The sum of `f` over the results.
pub open spec fn tally_of(s: Seq<PaymentResult>, f: spec_fn(PaymentResult) -> int) -> int
    decreases s.len(),
{
    if s.len() == 0 {
        0
    } else {
        tally_of(s.drop_last(), f) + f(s.last())
    }
}

proof fn lemma_tally_prefix(s: Seq<PaymentResult>, f: spec_fn(PaymentResult) -> int, j: int)
    requires
        0 <= j <= s.len(),
        forall|p: PaymentResult| #[trigger] f(p) >= 0,
    ensures
        tally_of(s.take(j), f) <= tally_of(s, f),
    decreases s.len(),
{
    if j == s.len() {
        assert(s.take(j) =~= s);
    } else {
        assert(s.take(j) =~= s.drop_last().take(j));
        lemma_tally_prefix(s.drop_last(), f, j);
    }
}

pub open spec fn generated_of() -> spec_fn(PaymentResult) -> int {
    |p: PaymentResult| 1int
}

pub open spec fn generated_volume_cents_of() -> spec_fn(PaymentResult) -> int {
    |p: PaymentResult| p.payment.amount_cents as int
}

pub open spec fn routing_cost_cents_of() -> spec_fn(PaymentResult) -> int {
    |p: PaymentResult| p.actual_fee_cents as int
}

pub open spec fn departed_hops_of() -> spec_fn(PaymentResult) -> int {
    |p: PaymentResult| p.departed_hops as int
}

pub open spec fn accepted_routes_of() -> spec_fn(PaymentResult) -> int {
    |p: PaymentResult| if p.ever_routed { 1int } else { 0int }
}

pub open spec fn sla_failures_of() -> spec_fn(PaymentResult) -> int {
    |p: PaymentResult| if p.sla_failed { 1int } else { 0int }
}

pub open spec fn sla_failed_volume_cents_of() -> spec_fn(PaymentResult) -> int {
    |p: PaymentResult| if p.sla_failed { p.payment.amount_cents as int } else { 0int }
}

pub open spec fn rejected_of() -> spec_fn(PaymentResult) -> int {
    |p: PaymentResult| if p.outcome is Rejected { 1int } else { 0int }
}

pub open spec fn rejected_volume_cents_of() -> spec_fn(PaymentResult) -> int {
    |p: PaymentResult| if p.outcome is Rejected { p.payment.amount_cents as int } else { 0int }
}

pub open spec fn expired_of() -> spec_fn(PaymentResult) -> int {
    |p: PaymentResult| if p.outcome is Expired { 1int } else { 0int }
}

pub open spec fn expired_volume_cents_of() -> spec_fn(PaymentResult) -> int {
    |p: PaymentResult| if p.outcome is Expired { p.payment.amount_cents as int } else { 0int }
}

pub open spec fn completed_of() -> spec_fn(PaymentResult) -> int {
    |p: PaymentResult| if p.outcome is Completed { 1int } else { 0int }
}

pub open spec fn completed_volume_cents_of() -> spec_fn(PaymentResult) -> int {
    |p: PaymentResult| if p.outcome is Completed { p.payment.amount_cents as int } else { 0int }
}

pub open spec fn completed_elapsed_minutes_of() -> spec_fn(PaymentResult) -> int {
    |p: PaymentResult| match p.outcome { Outcome::Completed { elapsed_minutes, .. } => elapsed_minutes as int, _ => 0int }
}

pub open spec fn completed_late_of() -> spec_fn(PaymentResult) -> int {
    |p: PaymentResult| match p.outcome { Outcome::Completed { late, .. } => if late { 1int } else { 0int }, _ => 0int }
}

pub open spec fn completed_late_volume_cents_of() -> spec_fn(PaymentResult) -> int {
    |p: PaymentResult| match p.outcome { Outcome::Completed { late, .. } => if late { p.payment.amount_cents as int } else { 0int }, _ => 0int }
}

/// Every counter that the recorded lifecycles determine equals the simulator's.
pub open spec fn audit_agrees(payments: Map<u128, PaymentResult>, m: Metrics) -> bool {
    let s = in_order(payments, sorted_keys(payments));
    &&& tally_of(s, generated_of()) == m.generated
    &&& tally_of(s, generated_volume_cents_of()) == m.generated_volume_cents
    &&& tally_of(s, routing_cost_cents_of()) == m.routing_cost_cents
    &&& tally_of(s, departed_hops_of()) == m.departed_hops
    &&& tally_of(s, accepted_routes_of()) == m.accepted_routes
    &&& tally_of(s, sla_failures_of()) == m.sla_failures
    &&& tally_of(s, sla_failed_volume_cents_of()) == m.sla_failed_volume_cents
    &&& tally_of(s, rejected_of()) == m.rejected
    &&& tally_of(s, rejected_volume_cents_of()) == m.rejected_volume_cents
    &&& tally_of(s, expired_of()) == m.expired
    &&& tally_of(s, expired_volume_cents_of()) == m.expired_volume_cents
    &&& tally_of(s, completed_of()) == m.completed
    &&& tally_of(s, completed_volume_cents_of()) == m.completed_volume_cents
    &&& tally_of(s, completed_elapsed_minutes_of()) == m.completed_elapsed_minutes
    &&& tally_of(s, completed_late_of()) == m.completed_late
    &&& tally_of(s, completed_late_volume_cents_of()) == m.completed_late_volume_cents
}

/// Whether some generated payment is neither completed, expired nor rejected.
fn has_pending(m: &Metrics) -> (r: bool)
    ensures
        r == (m.generated > m.completed + m.expired + m.rejected),
{
    if m.completed > m.generated {
        return false;
    }
    let left = m.generated - m.completed;
    if m.expired > left {
        return false;
    }
    let left = left - m.expired;
    m.rejected < left
}

fn fresh_result(strategy: &Strategy, verify_replay: bool) -> (r: RunResult)
    ensures
        r.strategy@ == strategy.name@,
        r.status == Status::Complete,
        r.replay_verified == verify_replay,
        r.payments@ == Map::<u128, PaymentResult>::empty(),
{
    RunResult {
        strategy: copy_string(&strategy.name),
        status: Status::Complete,
        processed_minutes: 0,
        replay_verified: verify_replay,
        metrics: Metrics::zero(),
        at_arrival_cutoff: Metrics::zero(),
        adaptation: AdaptationMetrics::zero(),
        diagnostics: crate::scalable::SearchDiagnostics::default(),
        payments: BTreeMap::new(),
        peak_active: 0,
        peak_queue: 0,
        queue_payment_minutes: 0,
    }
}

fn copy_world(w: &World) -> (r: World)
    ensures
        r.name@ == w.name@,
        same_config(r.scenario, w.scenario),
{
    World { name: copy_string(&w.name), scenario: w.scenario.copy() }
}

fn copy_strategy(s: &Strategy) -> (r: Strategy)
    ensures
        r.name@ == s.name@,
        r.routing == s.routing,
        r.reoptimization == s.reoptimization,
{
    Strategy { name: copy_string(&s.name), routing: s.routing, reoptimization: s.reoptimization }
}

/// The world's scenario under `routing`, without its surprise changes.
fn run_scenario(world: &World, routing: RoutingStrategy) -> (s: Scenario)
    ensures
        scenario_valid(s) == scenario_valid(routed(world.scenario, routing)),
        s.disruptions@.len() == 0,
{
    let mut scenario = world.scenario.copy();
    scenario.strategy = routing;
    scenario.disruptions = Vec::new();
    proof {
        lemma_same_setup_valid(routed(world.scenario, routing), scenario);
    }
    scenario
}

/// One strategy's run of a case, with an optional twin that repeats every tick.
pub struct Running {
    pub simulator: Simulator,
    pub twin: Option<Simulator>,
    pub result: RunResult,
}

/// The active payments waiting for their next departure: none in flight.
pub open spec fn waiting(active: Seq<ActivePayment>) -> int
    decreases active.len(),
{
    if active.len() == 0 {
        0
    } else {
        waiting(active.drop_last()) + if active.last().in_flight_until is None { 1int } else { 0int }
    }
}

impl Running {
    pub open spec fn wf(&self) -> bool {
        self.result.status is Error || {
            &&& self.simulator.wf()
            &&& (self.twin matches Some(t) ==> t.wf())
        }
    }

    pub fn new(world: &World, strategy: &Strategy, config: Config) -> (r: Result<Running, SimulationError>)
        ensures
            r is Ok <==> scenario_valid(routed(world.scenario, strategy.routing)),
            r matches Ok(run) ==> run.wf() && run.result.strategy@ == strategy.name@ && run.result.status
                == Status::Complete,
    {
        let scenario = run_scenario(world, strategy.routing);
        // Injected arrivals never consult this simulator's random stream.
        let mut simulator = Simulator::new(scenario, 0)?;
        simulator.set_reoptimization_policy(strategy.reoptimization);
        let twin = if config.verify_replay {
            let mut twin = Simulator::new(run_scenario(world, strategy.routing), 0)?;
            twin.set_reoptimization_policy(strategy.reoptimization);
            Some(twin)
        } else {
            None
        };
        Ok(Running { simulator, twin, result: fresh_result(strategy, config.verify_replay) })
    }

    /// One minute: the due changes, the revealed arrivals, and the replay check.
    pub fn step(
        &mut self,
        arrivals: &Vec<ArrivalSample>,
        changes: &Vec<Disruption>,
        start: usize,
        end: usize,
        minute: u128,
    ) -> (r: Result<(), SimulationError>)
        requires
            old(self).wf(),
            start <= end <= changes@.len(),
        ensures
            r is Ok ==> final(self).wf(),
            final(self).result.strategy == old(self).result.strategy,
            old(self).result.status is Error ==> r is Ok && *final(self) == *old(self),
            r is Ok && !(old(self).result.status is Error) ==> final(self).result.status is Error
                || final(self).simulator.state.next_minute == old(self).simulator.state.next_minute + 1,
    {
        match self.result.status {
            Status::Error { .. } => {
                return Ok(());
            },
            _ => {},
        }
        let mut c: usize = start;
        while c < end
            invariant
                self.simulator.wf(),
                self.twin matches Some(t) ==> t.wf(),
                start <= c <= end,
                end <= changes@.len(),
                self.result == old(self).result,
                !(old(self).result.status is Error),
                self.simulator.state == old(self).simulator.state,
            decreases end - c,
        {
            self.simulator.queue_rail_update(changes[c].update.copy())?;
            match &mut self.twin {
                Some(twin) => {
                    twin.queue_rail_update(changes[c].update.copy())?;
                },
                None => {},
            }
            c += 1;
        }
        let before = match &self.twin {
            Some(_) => Some(self.simulator.clone()),
            None => None,
        };
        let report = self.simulator.step_with_arrivals(arrivals);
        let mut mismatch = false;
        match &mut self.twin {
            Some(twin) => {
                let repeated = twin.step_with_arrivals(arrivals);
                if report != repeated || self.simulator != *twin {
                    mismatch = true;
                }
            },
            None => {},
        }
        if mismatch {
            match before {
                Some(b) => {
                    self.simulator = b;
                },
                None => {},
            }
            self.result.status = Status::Error { minute, message: text("replay mismatch in events or state") };
            self.result.replay_verified = false;
            return Ok(());
        }
        match report {
            Ok(report) => self.observe(&report)?,
            Err(error) => {
                self.result.status = Status::Error { minute, message: error.to_string() };
            },
        }
        Ok(())
    }

    /// Records the tick's events in the payments' lifecycles, then the queue samples.
    pub fn observe(&mut self, report: &TickReport) -> (r: Result<(), SimulationError>)
        requires
            old(self).wf(),
        ensures
            final(self).simulator == old(self).simulator,
            final(self).twin == old(self).twin,
            final(self).result.strategy == old(self).result.strategy,
            final(self).result.status == old(self).result.status,
            r is Ok ==> final(self).result.processed_minutes == old(self).simulator.state.next_minute,
            r is Ok ==> final(self).result.peak_active == (if old(self).simulator.state.active@.len()
                > old(self).result.peak_active {
                old(self).simulator.state.active@.len() as usize
            } else {
                old(self).result.peak_active
            }),
            r is Ok ==> final(self).result.peak_queue == (if waiting(old(self).simulator.state.active@)
                > old(self).result.peak_queue {
                waiting(old(self).simulator.state.active@) as usize
            } else {
                old(self).result.peak_queue
            }),
            r is Ok ==> final(self).result.queue_payment_minutes == old(self).result.queue_payment_minutes
                + waiting(old(self).simulator.state.active@),
    {
        broadcast use vstd::std_specs::btree::group_btree_axioms;

        proof {
            crate::order::lemma_u128_keys_ordered();
        }
        let mut e: usize = 0;
        while e < report.events.len()
            invariant
                crate::order::u128_keys_ordered(),
                e <= report.events@.len(),
                self.simulator == old(self).simulator,
                self.twin == old(self).twin,
                self.result.strategy == old(self).result.strategy,
                self.result.status == old(self).result.status,
                self.result.peak_active == old(self).result.peak_active,
                self.result.peak_queue == old(self).result.peak_queue,
                self.result.queue_payment_minutes == old(self).result.queue_payment_minutes,
            decreases report.events@.len() - e,
        {
            let event = &report.events[e];
            let sequence = match &event.kind {
                EventKind::Generated { sequence, payment, deadline } => {
                    let previous = self.result.payments.insert(
                        *sequence,
                        PaymentResult {
                            sequence: *sequence,
                            payment: payment.clone(),
                            arrived_at: event.minute,
                            deadline: *deadline,
                            terminal_at: None,
                            outcome: Outcome::Pending,
                            ever_routed: false,
                            sla_failed: false,
                            actual_fee_cents: 0,
                            departed_hops: 0,
                        },
                    );
                    ensure(previous.is_none(), "duplicate evaluation payment")?;
                    e += 1;
                    continue;
                },
                EventKind::RouteAccepted { sequence, .. } => *sequence,
                EventKind::HopDeparted { sequence, .. } => *sequence,
                EventKind::Rejected { sequence } => *sequence,
                EventKind::Expired { sequence } => *sequence,
                EventKind::Completed { sequence, .. } => *sequence,
                EventKind::DeadlineMissed { sequence } => *sequence,
                _ => {
                    e += 1;
                    continue;
                },
            };
            let mut p = match self.result.payments.remove(&sequence) {
                Some(p) => p,
                None => {
                    return Err(invalid("event for unknown evaluation payment"));
                },
            };
            match &event.kind {
                EventKind::RouteAccepted { .. } => {
                    p.ever_routed = true;
                },
                EventKind::HopDeparted { fee_cents, .. } => {
                    accumulate(&mut p.actual_fee_cents, *fee_cents as u128)?;
                    accumulate(&mut p.departed_hops, 1)?;
                },
                EventKind::DeadlineMissed { .. } => {
                    p.sla_failed = true;
                },
                EventKind::Rejected { .. } => {
                    p.outcome = Outcome::Rejected;
                    p.sla_failed = true;
                },
                EventKind::Expired { .. } => {
                    p.outcome = Outcome::Expired;
                },
                EventKind::Completed { late, elapsed_minutes, .. } => {
                    p.outcome = Outcome::Completed { late: *late, elapsed_minutes: *elapsed_minutes };
                },
                _ => {},
            }
            if p.outcome != Outcome::Pending {
                p.terminal_at = Some(event.minute);
            }
            self.result.payments.insert(sequence, p);
            e += 1;
        }
        self.result.processed_minutes = self.simulator.next_minute();
        let active = self.simulator.active_payments();
        let mut queue: usize = 0;
        let mut k: usize = 0;
        assert(active@.take(0) =~= Seq::<ActivePayment>::empty());
        while k < active.len()
            invariant
                k <= active@.len(),
                queue <= k,
                queue == waiting(active@.take(k as int)),
            decreases active@.len() - k,
        {
            assert(active@.take(k + 1).drop_last() =~= active@.take(k as int));
            assert(active@.take(k + 1).last() == active@[k as int]);
            if active[k].in_flight_until.is_none() {
                queue += 1;
            }
            k += 1;
        }
        assert(active@.take(k as int) =~= active@);
        if active.len() > self.result.peak_active {
            self.result.peak_active = active.len();
        }
        if queue > self.result.peak_queue {
            self.result.peak_queue = queue;
        }
        accumulate(&mut self.result.queue_payment_minutes, queue as u128)?;
        Ok(())
    }

    /// The run's result: final counters, censoring of unfinished work, and an
    /// audit of the counters against the recorded lifecycles.
    pub fn finish(self) -> (r: Result<RunResult, SimulationError>)
        ensures
            r matches Ok(result) ==> result.strategy == self.result.strategy && result.metrics
                == self.simulator.state.metrics,
            r is Ok <==> audit_agrees(self.result.payments@, self.simulator.state.metrics),
            r matches Ok(result) ==> result.payments@ == self.result.payments@ && result.status == (if self.result.status
                == Status::Complete && self.simulator.state.metrics.generated > self.simulator.state.metrics.completed
                + self.simulator.state.metrics.expired + self.simulator.state.metrics.rejected {
                Status::Censored
            } else {
                self.result.status
            }),
    {
        broadcast use vstd::std_specs::btree::group_btree_axioms;

        let ghost entry_payments = self.result.payments@;
        let ghost entry_metrics = self.simulator.state.metrics;
        let Running { simulator, twin: _, result } = self;
        let mut result = result;
        result.metrics = *simulator.metrics();
        result.adaptation = *simulator.adaptation_metrics();
        result.diagnostics = simulator.routing_diagnostics();
        let complete = match result.status {
            Status::Complete => true,
            _ => false,
        };
        if complete && has_pending(&result.metrics) {
            result.status = Status::Censored;
        }
        // Reconstruct objectives from payment events rather than trusting display arithmetic.
        let mut audited = Metrics::zero();
        proof {
            crate::order::lemma_u128_keys_ordered();
        }
        let vals = result.payments.values();
        let ghost whole = vals.remaining();
        let ghost pays = result.payments@;
        let ghost metrics = result.metrics;
        let ghost ks = choose|ks: Seq<u128>|
            vstd::std_specs::btree::increasing_seq(ks) && ks.to_set() == pays.dom() && ks.no_duplicates()
                && vals.remaining() == ks.map(|i: int, k: u128| &pays[k]);
        proof {
            crate::order::lemma_u128_increasing(ks);
            ks.unique_seq_to_set();
            assert(key_order(pays, ks));
            let chosen = sorted_keys(pays);
            crate::evaluation::lemma_increasing_unique(ks, chosen);
            assert(derefs(whole) =~= in_order(pays, ks));
        }
        for p in it: vals
            invariant
                it.seq() == whole,
                derefs(whole) == in_order(pays, sorted_keys(pays)),
                result.payments@ == pays,
                result.metrics == metrics,
                pays == entry_payments,
                metrics == entry_metrics,
                entry_payments == self.result.payments@,
                entry_metrics == self.simulator.state.metrics,
                audited.generated == tally_of(derefs(it.seq().take(it.index() as int)), generated_of()),
                audited.generated_volume_cents == tally_of(derefs(it.seq().take(it.index() as int)), generated_volume_cents_of()),
                audited.routing_cost_cents == tally_of(derefs(it.seq().take(it.index() as int)), routing_cost_cents_of()),
                audited.departed_hops == tally_of(derefs(it.seq().take(it.index() as int)), departed_hops_of()),
                audited.accepted_routes == tally_of(derefs(it.seq().take(it.index() as int)), accepted_routes_of()),
                audited.sla_failures == tally_of(derefs(it.seq().take(it.index() as int)), sla_failures_of()),
                audited.sla_failed_volume_cents == tally_of(derefs(it.seq().take(it.index() as int)), sla_failed_volume_cents_of()),
                audited.rejected == tally_of(derefs(it.seq().take(it.index() as int)), rejected_of()),
                audited.rejected_volume_cents == tally_of(derefs(it.seq().take(it.index() as int)), rejected_volume_cents_of()),
                audited.expired == tally_of(derefs(it.seq().take(it.index() as int)), expired_of()),
                audited.expired_volume_cents == tally_of(derefs(it.seq().take(it.index() as int)), expired_volume_cents_of()),
                audited.completed == tally_of(derefs(it.seq().take(it.index() as int)), completed_of()),
                audited.completed_volume_cents == tally_of(derefs(it.seq().take(it.index() as int)), completed_volume_cents_of()),
                audited.completed_elapsed_minutes == tally_of(derefs(it.seq().take(it.index() as int)), completed_elapsed_minutes_of()),
                audited.completed_late == tally_of(derefs(it.seq().take(it.index() as int)), completed_late_of()),
                audited.completed_late_volume_cents == tally_of(derefs(it.seq().take(it.index() as int)), completed_late_volume_cents_of()),
        {
            proof {
                let i = it.index() as int;
                assert(derefs(it.seq().take(i + 1)).drop_last() =~= derefs(it.seq().take(i)));
                assert(derefs(it.seq().take(i + 1)).last() == *p);
                assert(derefs(it.seq().take(i + 1)) =~= derefs(whole).take(i + 1));
                lemma_tally_prefix(derefs(whole), generated_of(), i + 1);
                lemma_tally_prefix(derefs(whole), generated_volume_cents_of(), i + 1);
                lemma_tally_prefix(derefs(whole), routing_cost_cents_of(), i + 1);
                lemma_tally_prefix(derefs(whole), departed_hops_of(), i + 1);
                lemma_tally_prefix(derefs(whole), accepted_routes_of(), i + 1);
                lemma_tally_prefix(derefs(whole), sla_failures_of(), i + 1);
                lemma_tally_prefix(derefs(whole), sla_failed_volume_cents_of(), i + 1);
                lemma_tally_prefix(derefs(whole), rejected_of(), i + 1);
                lemma_tally_prefix(derefs(whole), rejected_volume_cents_of(), i + 1);
                lemma_tally_prefix(derefs(whole), expired_of(), i + 1);
                lemma_tally_prefix(derefs(whole), expired_volume_cents_of(), i + 1);
                lemma_tally_prefix(derefs(whole), completed_of(), i + 1);
                lemma_tally_prefix(derefs(whole), completed_volume_cents_of(), i + 1);
                lemma_tally_prefix(derefs(whole), completed_elapsed_minutes_of(), i + 1);
                lemma_tally_prefix(derefs(whole), completed_late_of(), i + 1);
                lemma_tally_prefix(derefs(whole), completed_late_volume_cents_of(), i + 1);
            }
            let volume = p.payment.amount_cents as u128;
            match accumulate(&mut audited.generated, 1) {
                Ok(()) => {},
                Err(e) => {
                    return Err(e);
                },
            }
            match accumulate(&mut audited.generated_volume_cents, volume) {
                Ok(()) => {},
                Err(e) => {
                    return Err(e);
                },
            }
            match accumulate(&mut audited.routing_cost_cents, p.actual_fee_cents) {
                Ok(()) => {},
                Err(e) => {
                    return Err(e);
                },
            }
            match accumulate(&mut audited.departed_hops, p.departed_hops) {
                Ok(()) => {},
                Err(e) => {
                    return Err(e);
                },
            }
            if p.ever_routed {
                match accumulate(&mut audited.accepted_routes, 1) {
                Ok(()) => {},
                Err(e) => {
                    return Err(e);
                },
            }
            }
            if p.sla_failed {
                match accumulate(&mut audited.sla_failures, 1) {
                Ok(()) => {},
                Err(e) => {
                    return Err(e);
                },
            }
                match accumulate(&mut audited.sla_failed_volume_cents, volume) {
                Ok(()) => {},
                Err(e) => {
                    return Err(e);
                },
            }
            }
            match p.outcome {
                Outcome::Rejected => {
                    match accumulate(&mut audited.rejected, 1) {
                Ok(()) => {},
                Err(e) => {
                    return Err(e);
                },
            }
                    match accumulate(&mut audited.rejected_volume_cents, volume) {
                Ok(()) => {},
                Err(e) => {
                    return Err(e);
                },
            }
                },
                Outcome::Expired => {
                    match accumulate(&mut audited.expired, 1) {
                Ok(()) => {},
                Err(e) => {
                    return Err(e);
                },
            }
                    match accumulate(&mut audited.expired_volume_cents, volume) {
                Ok(()) => {},
                Err(e) => {
                    return Err(e);
                },
            }
                },
                Outcome::Completed { late, elapsed_minutes } => {
                    match accumulate(&mut audited.completed, 1) {
                Ok(()) => {},
                Err(e) => {
                    return Err(e);
                },
            }
                    match accumulate(&mut audited.completed_volume_cents, volume) {
                Ok(()) => {},
                Err(e) => {
                    return Err(e);
                },
            }
                    match accumulate(&mut audited.completed_elapsed_minutes, elapsed_minutes) {
                Ok(()) => {},
                Err(e) => {
                    return Err(e);
                },
            }
                    if late {
                        match accumulate(&mut audited.completed_late, 1) {
                Ok(()) => {},
                Err(e) => {
                    return Err(e);
                },
            }
                        match accumulate(&mut audited.completed_late_volume_cents, volume) {
                Ok(()) => {},
                Err(e) => {
                    return Err(e);
                },
            }
                    }
                },
                Outcome::Pending => {},
            }
        }
        proof {
            assert(whole.take(whole.len() as int) =~= whole);
        }
        // Hop settlement and volume have the simulator's own conservation audit.
        audited.departed_principal_cents = result.metrics.departed_principal_cents;
        audited.settled_principal_cents = result.metrics.settled_principal_cents;
        audited.settled_hops = result.metrics.settled_hops;
        ensure(audited == result.metrics, "evaluation event accounting differs from simulator metrics")?;
        Ok(result)
    }
}


fn same_payment(a: &crate::network::Payment, b: &crate::network::Payment) -> (r: bool)
    ensures
        r == (a@ == b@),
{
    same_text(&a.id, &b.id) && same_text(&a.sender, &b.sender) && same_text(&a.receiver, &b.receiver)
        && a.amount_cents == b.amount_cents && a.max_delivery_minutes == b.max_delivery_minutes
}

/// The world's surprise changes in (minute, rail) order.
fn due_order(world: &World) -> (r: Vec<Disruption>)
    ensures
        r@.len() == world.scenario.disruptions@.len(),
{
    let mut copies: Vec<Disruption> = Vec::new();
    let mut k: usize = 0;
    while k < world.scenario.disruptions.len()
        invariant
            k <= world.scenario.disruptions@.len(),
            copies@.len() == k,
        decreases world.scenario.disruptions@.len() - k,
    {
        let d = &world.scenario.disruptions[k];
        copies.push(Disruption { minute: d.minute, update: d.update.copy() });
        k += 1;
    }
    sort_by_num(sort_by_key(copies))
}

/// Every strategy's run of one world and seed on the same revealed demand.
#[verifier::spinoff_prover]
#[verifier::rlimit(60)]
fn run_case(world: &World, seed: u64, strategies: &[Strategy], config: Config) -> (r: Result<
    CaseResult,
    SimulationError,
>)
    requires
        forall|s: int| 0 <= s < strategies@.len() ==> scenario_valid(routed(world.scenario, (#[trigger] strategies@[s]).routing)),
        scenario_valid(world.scenario) || strategies@.len() > 0,
    ensures
        r matches Ok(case) ==> {
            &&& case.world@ == world.name@
            &&& case.seed == seed
            &&& case.runs@.len() == strategies@.len()
            &&& forall|j: int| 0 <= j < strategies@.len() ==> (#[trigger] case.runs@[j]).strategy@ == strategies@[j].name@
        },
{
    let mut running: Vec<Running> = Vec::new();
    let mut s: usize = 0;
    while s < strategies.len()
        invariant
            s <= strategies@.len(),
            running@.len() == s,
            forall|q: int| 0 <= q < s ==> (#[trigger] running@[q]).wf() && running@[q].result.strategy@ == strategies@[q].name@,
        decreases strategies@.len() - s,
    {
        let run = Running::new(world, &strategies[s], config)?;
        running.push(run);
        s += 1;
    }
    let mut random = Random(seed);
    let disruptions = due_order(world);
    let mut cursor: usize = 0;
    let mut offered: u128 = 0;
    let mut offered_volume_cents: u128 = 0;
    let arrival_minutes = config.arrival_minutes as u128;
    let horizon = arrival_minutes + config.drain_minutes as u128;
    let arrivals_ready = strategies.len() > 0;
    proof {
        if arrivals_ready {
            assert(scenario_valid(routed(world.scenario, strategies@[0].routing)));
        }
    }
    let mut minute: u128 = 0;
    while minute < horizon
        invariant
            running@.len() == strategies@.len(),
            forall|q: int| 0 <= q < running@.len() ==> (#[trigger] running@[q]).wf() && running@[q].result.strategy@ == strategies@[q].name@,
            cursor <= disruptions@.len(),
            arrivals_ready == (strategies@.len() > 0),
            arrivals_ready ==> crate::simulation::config::arrivals_ok(world.scenario.arrivals),
            arrival_minutes == config.arrival_minutes,
            horizon == arrival_minutes + config.drain_minutes,
        decreases horizon - minute,
    {
        let at_cutoff = minute + 1 == arrival_minutes;
        let arrivals = if minute < arrival_minutes && arrivals_ready {
            random.arrivals(&world.scenario.arrivals)
        } else {
            Vec::new()
        };
        accumulate(&mut offered, arrivals.len() as u128)?;
        let mut a: usize = 0;
        while a < arrivals.len()
            invariant
                a <= arrivals@.len(),
            decreases arrivals@.len() - a,
        {
            accumulate(&mut offered_volume_cents, arrivals[a].amount as u128)?;
            a += 1;
        }
        let start = cursor;
        while cursor < disruptions.len() && disruptions[cursor].minute == minute
            invariant
                start <= cursor <= disruptions@.len(),
            decreases disruptions@.len() - cursor,
        {
            cursor += 1;
        }
        let mut r: usize = 0;
        while r < running.len()
            invariant
                running@.len() == strategies@.len(),
                r <= running@.len(),
                forall|q: int| 0 <= q < running@.len() ==> (#[trigger] running@[q]).wf() && running@[q].result.strategy@ == strategies@[q].name@,
                start <= cursor <= disruptions@.len(),
            decreases running@.len() - r,
        {
            let mut run = running.remove(r);
            run.step(&arrivals, &disruptions, start, cursor, minute)?;
            if at_cutoff {
                run.result.at_arrival_cutoff = *run.simulator.metrics();
            }
            let errored = match run.result.status {
                Status::Error { .. } => true,
                _ => false,
            };
            if !errored {
                ensure(
                    run.simulator.state.metrics.generated == offered
                        && run.simulator.state.metrics.generated_volume_cents == offered_volume_cents,
                    "strategies did not receive identical demand",
                )?;
            }
            running.insert(r, run);
            r += 1;
        }
        minute += 1;
    }
    let mut runs: Vec<RunResult> = Vec::new();
    let total = running.len();
    let mut k: usize = 0;
    while k < total
        invariant
            k <= total,
            total == strategies@.len(),
            running@.len() == total - k,
            runs@.len() == k,
            forall|q: int| 0 <= q < running@.len() ==> (#[trigger] running@[q]).result.strategy@ == strategies@[q + k].name@,
            forall|q: int| 0 <= q < k ==> (#[trigger] runs@[q]).strategy@ == strategies@[q].name@,
        decreases total - k,
    {
        let run = running.remove(0);
        let result = run.finish()?;
        runs.push(result);
        k += 1;
    }
    // Compare complete instructions, not just counts, including admission rejects.
    if runs.len() > 1 {
        let first = &runs[0];
        let mut o: usize = 1;
        while o < runs.len()
            invariant
                1 <= o <= runs@.len(),
                first == &runs@[0],
            decreases runs@.len() - o,
        {
            let other = &runs[o];
            for id in first.payments.keys()
                invariant
                    true,
            {
                match (first.payments.get(id), other.payments.get(id)) {
                    (Some(p), Some(q)) => {
                        ensure(
                            same_payment(&p.payment, &q.payment) && p.arrived_at == q.arrived_at && p.deadline
                                == q.deadline,
                            "paired instruction mismatch",
                        )?;
                    },
                    _ => {},
                }
            }
            o += 1;
        }
    }
    Ok(CaseResult { world: copy_string(&world.name), seed, offered, offered_volume_cents, runs })
}


/// Whether the texts are all nonblank and pairwise distinct.
fn names_fine(names: &Vec<String>) -> (r: bool)
    ensures
        r == names_ok(names@.map_values(|s: String| s@)),
{
    let ghost views = names@.map_values(|s: String| s@);
    let n = names.len();
    let mut i: usize = 0;
    while i < n
        invariant
            n == names@.len(),
            views == names@.map_values(|s: String| s@),
            i <= n,
            forall|k: int| 0 <= k < i ==> !blank(#[trigger] views[k]),
            forall|a: int, b: int| 0 <= a < b < n && a < i ==> views[a] != views[b],
        decreases n - i,
    {
        assert(views[i as int] == names@[i as int]@);
        if is_blank(&names[i]) {
            return false;
        }
        let mut j: usize = i + 1;
        while j < n
            invariant
                n == names@.len(),
                views == names@.map_values(|s: String| s@),
                i < n,
                i < j <= n,
                forall|b: int| i < b < j ==> views[i as int] != views[b],
            decreases n - j,
        {
            assert(views[j as int] == names@[j as int]@);
            assert(views[i as int] == names@[i as int]@);
            if same_text(&names[i], &names[j]) {
                assert(!views.no_duplicates());
                return false;
            }
            j += 1;
        }
        i += 1;
    }
    true
}

proof fn lemma_case_index(w: int, n: int, k: int)
    requires
        0 <= w,
        0 <= k < n,
    ensures
        (w * n + k) / n == w,
        (w * n + k) % n == k,
        w * n + n == (w + 1) * n,
{
    assert((w * n + k) / n == w && (w * n + k) % n == k) by (nonlinear_arith)
        requires
            0 <= w,
            0 <= k < n,
    ;
    assert(w * n + n == (w + 1) * n) by (nonlinear_arith);
}

/// Validates the entire benchmark before running anything, then runs every case:
/// each world with each seed, every strategy on the same revealed demand.
/// Runtime failures remain explicit run statuses; invalid inputs and
/// evaluation-accounting errors fail the call.
pub fn evaluate(worlds: &[World], seeds: &[u64], strategies: &[Strategy], config: Config) -> (r: Result<
    Evaluation,
    SimulationError,
>)
    ensures
        !inputs_present(worlds@, seeds@, strategies@, config) ==> (r matches Err(e) && invalid_input(
            e,
            "evaluation needs worlds, seeds, strategies and positive arrival minutes"@,
        )),
        inputs_present(worlds@, seeds@, strategies@, config) && !seeds@.no_duplicates() ==> (r matches Err(e)
            && invalid_input(e, "duplicate evaluation seed"@)),
        inputs_present(worlds@, seeds@, strategies@, config) && seeds@.no_duplicates() && !(names_ok(
            world_names(worlds@),
        ) && names_ok(strategy_names(strategies@))) ==> (r matches Err(e) && invalid_input(
            e,
            "evaluation names must be nonempty and unique"@,
        )),
        inputs_present(worlds@, seeds@, strategies@, config) && seeds@.no_duplicates() && names_ok(
            world_names(worlds@),
        ) && names_ok(strategy_names(strategies@)) && !all_valid(worlds@, strategies@) ==> (r matches Err(e)
            && e is Validation && exists|w: int, s: int| first_invalid(worlds@, strategies@, w, s)),
        r matches Ok(ev) ==> {
            &&& inputs_present(worlds@, seeds@, strategies@, config)
            &&& seeds@.no_duplicates()
            &&& names_ok(world_names(worlds@)) && names_ok(strategy_names(strategies@))
            &&& all_valid(worlds@, strategies@)
            &&& ev.config == config
            &&& ev.seeds@ == seeds@
            &&& world_names(ev.worlds@) == world_names(worlds@)
            &&& forall|w: int| 0 <= w < worlds@.len() ==> same_config((#[trigger] ev.worlds@[w]).scenario, worlds@[w].scenario)
            &&& strategy_names(ev.strategies@) == strategy_names(strategies@)
            &&& forall|s: int| 0 <= s < strategies@.len() ==> (#[trigger] ev.strategies@[s]).routing == strategies@[s].routing
                && ev.strategies@[s].reoptimization == strategies@[s].reoptimization
            &&& case_shape(ev.cases@, worlds@, seeds@, strategies@)
            &&& crate::evaluation::summary::summary_ready(ev)
            &&& forall|c: int| 0 <= c < ev.cases@.len() ==> crate::evaluation::report::same_cohorts(
                (#[trigger] ev.cases@[c]).runs@,
            )
        },
{
    if worlds.len() == 0 || seeds.len() == 0 || strategies.len() == 0 || config.arrival_minutes == 0 {
        return Err(invalid("evaluation needs worlds, seeds, strategies and positive arrival minutes"));
    }
    let mut i: usize = 0;
    while i < seeds.len()
        invariant
            inputs_present(worlds@, seeds@, strategies@, config),
            i <= seeds@.len(),
            forall|a: int, b: int| 0 <= a < b < seeds@.len() && a < i ==> seeds@[a] != seeds@[b],
        decreases seeds@.len() - i,
    {
        let mut j: usize = i + 1;
        while j < seeds.len()
            invariant
                inputs_present(worlds@, seeds@, strategies@, config),
                i < seeds@.len(),
                i < j <= seeds@.len(),
                forall|b: int| i < b < j ==> seeds@[i as int] != seeds@[b],
            decreases seeds@.len() - j,
        {
            if seeds[i] == seeds[j] {
                return Err(invalid("duplicate evaluation seed"));
            }
            j += 1;
        }
        i += 1;
    }
    proof {
        assert(seeds@.no_duplicates());
    }
    let mut world_list: Vec<String> = Vec::new();
    let mut w: usize = 0;
    while w < worlds.len()
        invariant
            w <= worlds@.len(),
            world_list@.len() == w,
            forall|v: int| 0 <= v < w ==> (#[trigger] world_list@[v])@ == worlds@[v].name@,
        decreases worlds@.len() - w,
    {
        world_list.push(copy_string(&worlds[w].name));
        w += 1;
    }
    let mut strategy_list: Vec<String> = Vec::new();
    let mut s: usize = 0;
    while s < strategies.len()
        invariant
            s <= strategies@.len(),
            strategy_list@.len() == s,
            forall|t: int| 0 <= t < s ==> (#[trigger] strategy_list@[t])@ == strategies@[t].name@,
        decreases strategies@.len() - s,
    {
        strategy_list.push(copy_string(&strategies[s].name));
        s += 1;
    }
    proof {
        assert(world_list@.map_values(|t: String| t@) =~= world_names(worlds@));
        assert(strategy_list@.map_values(|t: String| t@) =~= strategy_names(strategies@));
    }
    if !names_fine(&world_list) || !names_fine(&strategy_list) {
        return Err(invalid("evaluation names must be nonempty and unique"));
    }
    let mut w: usize = 0;
    while w < worlds.len()
        invariant
            inputs_present(worlds@, seeds@, strategies@, config),
            seeds@.no_duplicates(),
            names_ok(world_names(worlds@)) && names_ok(strategy_names(strategies@)),
            w <= worlds@.len(),
            forall|v: int, t: int|
                0 <= v < w && 0 <= t < strategies@.len() ==> scenario_valid(
                    routed((#[trigger] worlds@[v]).scenario, (#[trigger] strategies@[t]).routing),
                ),
        decreases worlds@.len() - w,
    {
        let mut s: usize = 0;
        while s < strategies.len()
            invariant
                inputs_present(worlds@, seeds@, strategies@, config),
                seeds@.no_duplicates(),
                names_ok(world_names(worlds@)) && names_ok(strategy_names(strategies@)),
                w < worlds@.len(),
                s <= strategies@.len(),
                forall|v: int, t: int|
                    (0 <= v < w && 0 <= t < strategies@.len()) || (v == w && 0 <= t < s) ==> scenario_valid(
                        routed((#[trigger] worlds@[v]).scenario, (#[trigger] strategies@[t]).routing),
                    ),
            decreases strategies@.len() - s,
        {
            let scenario = run_scenario(&worlds[w], strategies[s].routing);
            match scenario.validate() {
                Ok(()) => {},
                Err(e) => {
                    proof {
                        assert(first_invalid(worlds@, strategies@, w as int, s as int));
                    }
                    return Err(SimulationError::Validation(e));
                },
            }
            s += 1;
        }
        w += 1;
    }
    let n = seeds.len();
    let mut cases: Vec<CaseResult> = Vec::new();
    let mut w: usize = 0;
    while w < worlds.len()
        invariant
            inputs_present(worlds@, seeds@, strategies@, config),
            seeds@.no_duplicates(),
            names_ok(world_names(worlds@)) && names_ok(strategy_names(strategies@)),
            n == seeds@.len(),
            n > 0,
            w <= worlds@.len(),
            all_valid(worlds@, strategies@),
            strategies@.len() > 0,
            cases@.len() == w * n,
            forall|c: int|
                0 <= c < cases@.len() ==> {
                    let case = #[trigger] cases@[c];
                    &&& case.world@ == worlds@[c / n as int].name@
                    &&& case.seed == seeds@[c % n as int]
                    &&& case.runs@.len() == strategies@.len()
                    &&& forall|j: int| 0 <= j < strategies@.len() ==> (#[trigger] case.runs@[j]).strategy@ == strategies@[j].name@
                },
        decreases worlds@.len() - w,
    {
        let mut k: usize = 0;
        while k < n
            invariant
                inputs_present(worlds@, seeds@, strategies@, config),
                seeds@.no_duplicates(),
                names_ok(world_names(worlds@)) && names_ok(strategy_names(strategies@)),
                n == seeds@.len(),
                n > 0,
                w < worlds@.len(),
                all_valid(worlds@, strategies@),
                strategies@.len() > 0,
                k <= n,
                cases@.len() == w * n + k,
                forall|c: int|
                    0 <= c < cases@.len() ==> {
                        let case = #[trigger] cases@[c];
                        &&& case.world@ == worlds@[c / n as int].name@
                        &&& case.seed == seeds@[c % n as int]
                        &&& case.runs@.len() == strategies@.len()
                        &&& forall|j: int| 0 <= j < strategies@.len() ==> (#[trigger] case.runs@[j]).strategy@ == strategies@[j].name@
                    },
            decreases n - k,
        {
            proof {
                assert forall|t: int| 0 <= t < strategies@.len() implies scenario_valid(
                    routed(worlds@[w as int].scenario, (#[trigger] strategies@[t]).routing),
                ) by {}
            }
            let case = run_case(&worlds[w], seeds[k], strategies, config)?;
            proof {
                lemma_case_index(w as int, n as int, k as int);
            }
            cases.push(case);
            k += 1;
        }
        proof {
            lemma_case_index(w as int, n as int, 0);
        }
        w += 1;
    }
    let mut world_copies: Vec<World> = Vec::new();
    let mut w: usize = 0;
    while w < worlds.len()
        invariant
            w <= worlds@.len(),
            world_copies@.len() == w,
            forall|v: int| 0 <= v < w ==> (#[trigger] world_copies@[v]).name@ == worlds@[v].name@ && same_config(
                world_copies@[v].scenario,
                worlds@[v].scenario,
            ),
        decreases worlds@.len() - w,
    {
        world_copies.push(copy_world(&worlds[w]));
        w += 1;
    }
    let mut strategy_copies: Vec<Strategy> = Vec::new();
    let mut s: usize = 0;
    while s < strategies.len()
        invariant
            s <= strategies@.len(),
            strategy_copies@.len() == s,
            forall|t: int| 0 <= t < s ==> (#[trigger] strategy_copies@[t]).name@ == strategies@[t].name@
                && strategy_copies@[t].routing == strategies@[t].routing && strategy_copies@[t].reoptimization
                == strategies@[t].reoptimization,
        decreases strategies@.len() - s,
    {
        strategy_copies.push(copy_strategy(&strategies[s]));
        s += 1;
    }
    let mut seed_copies: Vec<u64> = Vec::new();
    let mut k: usize = 0;
    while k < seeds.len()
        invariant
            k <= seeds@.len(),
            seed_copies@ == seeds@.take(k as int),
        decreases seeds@.len() - k,
    {
        seed_copies.push(seeds[k]);
        proof {
            assert(seed_copies@ =~= seeds@.take(k + 1));
        }
        k += 1;
    }
    proof {
        assert(seed_copies@ =~= seeds@);
        assert(world_names(world_copies@) =~= world_names(worlds@));
        assert(strategy_names(strategy_copies@) =~= strategy_names(strategies@));
    }
    let ev = Evaluation { config, worlds: world_copies, seeds: seed_copies, strategies: strategy_copies, cases };
    if !crate::evaluation::summary::report_ready(&ev) {
        return Err(SimulationError::Invariant("evaluation report is inconsistent"));
    }
    Ok(ev)
}

} // verus!
