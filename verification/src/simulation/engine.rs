//! One simulated minute: rail windows, settlements, arrivals, routing, departures
//! and deadlines, in that order. Every counter is checked; exhaustion is an error.
use vstd::prelude::*;
use crate::network::{Network, Payment, PaymentView, Rail};
use crate::routing::{Route, RouteHop, route_payment};
use crate::scalable::{Journey, Router, Step, SearchDiagnostics, sat_add};
use crate::text::{copy_string, labelled, same_text};
use super::{ActivePayment, Event, EventKind, Metrics, RailState, SimulationError, State, TickReport};
use super::config::{ArrivalProcess, PaymentFlow, RoutingStrategy, Scenario};
use super::disruption::AppliedDisruption;
use super::rng::{ArrivalSample, Random, attempts_outcome};

verus! {

/// Events numbered contiguously up to `next_event`, all in `minute`.
pub open spec fn log_ok(events: Seq<Event>, next_event: u128, minute: u128) -> bool {
    &&& events.len() <= next_event
    &&& forall|i: int|
        0 <= i < events.len() ==> (#[trigger] events[i]).sequence == next_event - events.len() + i
            && events[i].minute == minute
}

/// The configuration a tick relies on: one service per rail, each with a period,
/// sampleable demand, a well-formed router and positive search limits.
pub open spec fn runnable(scenario: Scenario, router: Router, rails: nat) -> bool {
    &&& scenario.services@.len() == scenario.network.rails@.len()
    &&& rails == scenario.network.rails@.len()
    &&& forall|i: int| 0 <= i < scenario.services@.len() ==> (#[trigger] scenario.services@[i]).period_minutes > 0
    &&& scenario.arrivals.flows@.len() > 0
    &&& scenario.arrivals.min_amount_cents <= scenario.arrivals.max_amount_cents
    &&& scenario.arrivals.min_sla_minutes <= scenario.arrivals.max_sla_minutes
    &&& router.wf()
    &&& scenario.strategy matches RoutingStrategy::Reserved { limits } ==> limits.positive()
}

/// Add to a counter; exhaustion names the counter and changes nothing.
pub fn bump(target: &mut u128, value: u128, field: &'static str) -> (r: Result<(), SimulationError>)
    ensures
        r is Ok <==> old(target) + value <= u128::MAX,
        r is Ok ==> *final(target) == old(target) + value,
        r is Err ==> *final(target) == *old(target) && r == Err::<(), SimulationError>(
            SimulationError::ArithmeticOverflow(field),
        ),
{
    match target.checked_add(value) {
        Some(v) => {
            *target = v;
            Ok(())
        },
        None => Err(SimulationError::ArithmeticOverflow(field)),
    }
}

/// An invariant check: `Ok` exactly when `condition` holds.
pub fn require(condition: bool, message: &'static str) -> (r: Result<(), SimulationError>)
    ensures
        r is Ok <==> condition,
        r is Err ==> r == Err::<(), SimulationError>(SimulationError::Invariant(message)),
{
    if condition {
        Ok(())
    } else {
        Err(SimulationError::Invariant(message))
    }
}

/// The first rail state with identifier `id`.
pub open spec fn rail_pos(rails: Seq<RailState>, id: Seq<char>) -> Option<int>
    decreases rails.len(),
{
    if rails.len() == 0 {
        None
    } else {
        match rail_pos(rails.drop_last(), id) {
            Some(i) => Some(i),
            None => if rails.last().rail_id@ == id {
                Some(rails.len() - 1)
            } else {
                None
            },
        }
    }
}

proof fn lemma_rail_pos_prefix(rails: Seq<RailState>, id: Seq<char>, i: int)
    requires
        0 <= i <= rails.len(),
        forall|k: int| 0 <= k < i ==> (#[trigger] rails[k]).rail_id@ != id,
    ensures
        rail_pos(rails.take(i), id) is None,
    decreases i,
{
    if i > 0 {
        assert(rails.take(i).drop_last() =~= rails.take(i - 1));
        lemma_rail_pos_prefix(rails, id, i - 1);
    }
}

proof fn lemma_rail_pos_extend(rails: Seq<RailState>, id: Seq<char>, i: int)
    requires
        0 <= i < rails.len(),
        rail_pos(rails.take(i + 1), id) matches Some(k) && k == i,
    ensures
        rail_pos(rails, id) == Some(i),
    decreases rails.len(),
{
    if rails.len() > i + 1 {
        assert(rails.drop_last().take(i + 1) =~= rails.take(i + 1));
        lemma_rail_pos_extend(rails.drop_last(), id, i);
    } else {
        assert(rails.take(i + 1) =~= rails);
    }
}

proof fn lemma_rail_pos_none(rails: Seq<RailState>, id: Seq<char>)
    requires
        forall|k: int| 0 <= k < rails.len() ==> (#[trigger] rails[k]).rail_id@ != id,
    ensures
        rail_pos(rails, id) is None,
{
    lemma_rail_pos_prefix(rails, id, rails.len() as int);
    assert(rails.take(rails.len() as int) =~= rails);
}

/// Index of the rail state named `id`.
pub fn rail_index(rails: &Vec<RailState>, id: &String) -> (r: Option<usize>)
    ensures
        r matches Some(i) ==> rail_pos(rails@, id@) == Some(i as int) && i < rails@.len(),
        r is None ==> rail_pos(rails@, id@) is None,
{
    let mut i: usize = 0;
    while i < rails.len()
        invariant
            i <= rails@.len(),
            forall|k: int| 0 <= k < i ==> (#[trigger] rails@[k]).rail_id@ != id@,
        decreases rails@.len() - i,
    {
        if same_text(&rails[i].rail_id, id) {
            proof {
                lemma_rail_pos_prefix(rails@, id@, i as int);
                assert(rails@.take(i + 1).drop_last() =~= rails@.take(i as int));
                lemma_rail_pos_extend(rails@, id@, i as int);
            }
            return Some(i);
        }
        i += 1;
    }
    proof {
        lemma_rail_pos_none(rails@, id@);
    }
    None
}

/// The rail state with one counter replaced; the identifier and the rest stay.
fn rail_with(
    s: &RailState,
    open: bool,
    used: u128,
    departed_principal: u128,
    settled_principal: u128,
    departed_hops: u128,
    settled_hops: u128,
    cost: u128,
) -> (r: RailState)
    ensures
        r.rail_id@ == s.rail_id@,
        r.open == open,
        r.used_this_minute_cents == used,
        r.departed_principal_cents == departed_principal,
        r.settled_principal_cents == settled_principal,
        r.departed_hops == departed_hops,
        r.settled_hops == settled_hops,
        r.routing_cost_cents == cost,
{
    RailState {
        rail_id: s.rail_id.clone(),
        open,
        used_this_minute_cents: used,
        departed_principal_cents: departed_principal,
        settled_principal_cents: settled_principal,
        departed_hops,
        settled_hops,
        routing_cost_cents: cost,
    }
}

/// The network with each rail's availability replaced by `usable`.
fn usable_view(network: &Network, usable: &Vec<bool>) -> (r: Network)
    requires
        usable@.len() == network.rails@.len(),
    ensures
        r.rails@.len() == network.rails@.len(),
{
    let mut rails: Vec<Rail> = Vec::new();
    let mut i: usize = 0;
    while i < network.rails.len()
        invariant
            i <= network.rails@.len(),
            usable@.len() == network.rails@.len(),
            rails@.len() == i,
        decreases network.rails@.len() - i,
    {
        let mut rail = crate::scalable::copy_rail(&network.rails[i]);
        rail.available = usable[i];
        rails.push(rail);
        i += 1;
    }
    Network {
        name: network.name.clone(),
        institutions: network.institutions.clone(),
        rails,
        payments: network.payments.clone(),
    }
}

proof fn lemma_journey_steps(router: Router, j: Journey, src: usize, tgt: usize, release: u128, deadline: u128, amount: u64)
    requires
        router.wf(),
        router.journey_ok(j, src, tgt, release, deadline, amount),
    ensures
        forall|i: int| 0 <= i < j.steps@.len() ==> {
            let s = #[trigger] j.steps@[i];
            s.rail < router.rails@.len() && s.from < router.nodes@.len() && s.to < router.nodes@.len()
                && s.departure <= s.arrival
        },
        forall|i: int| 0 < i < j.steps@.len() ==> (#[trigger] j.steps@[i]).departure >= j.steps@[i - 1].arrival,
{
    assert forall|i: int| 0 <= i < j.steps@.len() implies {
        let s = #[trigger] j.steps@[i];
        s.rail < router.rails@.len() && s.from < router.nodes@.len() && s.to < router.nodes@.len()
            && s.departure <= s.arrival
    } by {
        let s = j.steps@[i];
        assert(router.hop_ok(s, amount));
        let g = router.members@[s.rail as int]@;
        let a = choose|k: int| 0 <= k < g.len() && g[k] == s.from;
        let b = choose|k: int| 0 <= k < g.len() && g[k] == s.to;
        assert(router.members@[s.rail as int]@[a] < router.nodes@.len());
        assert(router.members@[s.rail as int]@[b] < router.nodes@.len());
    }
    assert forall|i: int| 0 < i < j.steps@.len() implies (#[trigger] j.steps@[i]).departure >= j.steps@[i - 1].arrival by {
        assert(router.hop_ok(j.steps@[i], amount));
    }
}

proof fn lemma_found_steps(router: Router, payment: Payment, release: u128, deadline: u128, j: Journey)
    requires
        router.wf(),
        exists|src: usize, tgt: usize|
            src < router.nodes@.len() && tgt < router.nodes@.len() && router.nodes@[src as int]@
                == payment.sender@ && router.nodes@[tgt as int]@ == payment.receiver@ && router.journey_ok(
                j,
                src,
                tgt,
                release,
                deadline,
                payment.amount_cents,
            ),
    ensures
        forall|i: int| 0 <= i < j.steps@.len() ==> {
            let s = #[trigger] j.steps@[i];
            s.rail < router.rails@.len() && s.from < router.nodes@.len() && s.to < router.nodes@.len()
                && s.departure <= s.arrival
        },
        forall|i: int| 0 < i < j.steps@.len() ==> (#[trigger] j.steps@[i]).departure >= j.steps@[i - 1].arrival,
{
    let (src, tgt) = choose|src: usize, tgt: usize|
        src < router.nodes@.len() && tgt < router.nodes@.len() && router.nodes@[src as int]@
            == payment.sender@ && router.nodes@[tgt as int]@ == payment.receiver@ && router.journey_ok(
            j,
            src,
            tgt,
            release,
            deadline,
            payment.amount_cents,
        );
    lemma_journey_steps(router, j, src, tgt, release, deadline, payment.amount_cents);
}

fn departures_of(j: &Journey) -> (r: Vec<u128>)
    ensures
        r@.len() == j.steps@.len(),
        forall|i: int| 0 <= i < r@.len() ==> r@[i] == (#[trigger] j.steps@[i]).departure,
{
    let mut r: Vec<u128> = Vec::new();
    let mut i: usize = 0;
    while i < j.steps.len()
        invariant
            i <= j.steps@.len(),
            r@.len() == i,
            forall|k: int| 0 <= k < i ==> r@[k] == (#[trigger] j.steps@[k]).departure,
        decreases j.steps@.len() - i,
    {
        r.push(j.steps[i].departure);
        i += 1;
    }
    r
}

/// The instructions that the events announce, in order: sequence, payment and deadline.
pub open spec fn generated_events(events: Seq<Event>) -> Seq<(u128, PaymentView, u128)>
    decreases events.len(),
{
    if events.len() == 0 {
        Seq::empty()
    } else {
        let rest = generated_events(events.drop_last());
        match events.last().kind {
            EventKind::Generated { sequence, payment, deadline } => rest.push((sequence, payment@, deadline)),
            _ => rest,
        }
    }
}

/// A sample as plain values: sender, receiver, amount and relative deadline.
pub open spec fn sample_view(s: ArrivalSample) -> (Seq<char>, Seq<char>, u64, u64) {
    (s.flow.sender@, s.flow.receiver@, s.amount, s.sla)
}

pub open spec fn sample_views(s: Seq<ArrivalSample>) -> Seq<(Seq<char>, Seq<char>, u64, u64)> {
    s.map_values(|x: ArrivalSample| sample_view(x))
}

/// The instructions a minute's samples become: numbered on from `first`, named
/// `SIM-` and the number, and due their relative deadline after `minute`.
pub open spec fn demand_events(samples: Seq<(Seq<char>, Seq<char>, u64, u64)>, minute: u128, first: u128) -> Seq<(u128, PaymentView, u128)>
    decreases samples.len(),
{
    if samples.len() == 0 {
        Seq::empty()
    } else {
        let s = samples.last();
        let sequence = (first + samples.len()) as u128;
        demand_events(samples.drop_last(), minute, first).push(
            (
                sequence,
                PaymentView {
                    id: "SIM-"@ + crate::text::decimal(sequence as nat),
                    sender: s.0,
                    receiver: s.1,
                    amount_cents: s.2,
                    max_delivery_minutes: Some(s.3),
                },
                (minute + s.3) as u128,
            ),
        )
    }
}

/// The samples a minute's demand comes from: those given, or those drawn from `random`.
pub open spec fn drawn_views(random: Random, a: ArrivalProcess, injected: Option<&Vec<ArrivalSample>>) -> Seq<(Seq<char>, Seq<char>, u64, u64)> {
    match injected {
        Some(given) => sample_views(given@),
        None => sample_views(attempts_outcome(random.0, a, a.attempts_per_minute as nat).0),
    }
}

/// A copy of the samples, field by field.
fn copy_samples(given: &Vec<ArrivalSample>) -> (r: Vec<ArrivalSample>)
    ensures
        r@.len() == given@.len(),
        sample_views(r@) == sample_views(given@),
{
    let mut r: Vec<ArrivalSample> = Vec::new();
    let mut k: usize = 0;
    while k < given.len()
        invariant
            k <= given@.len(),
            r@.len() == k,
            forall|q: int| 0 <= q < k ==> sample_view(#[trigger] r@[q]) == sample_view(given@[q]),
        decreases given@.len() - k,
    {
        let g = &given[k];
        r.push(ArrivalSample {
            flow: PaymentFlow { sender: copy_string(&g.flow.sender), receiver: copy_string(&g.flow.receiver) },
            amount: g.amount,
            sla: g.sla,
        });
        k += 1;
    }
    assert(sample_views(r@) =~= sample_views(given@));
    r
}

/// The payments that still need a route: unrouted and not failed.
pub open spec fn to_route(active: Seq<ActivePayment>) -> int
    decreases active.len(),
{
    if active.len() == 0 {
        0
    } else {
        to_route(active.drop_last()) + if active.last().route is None && !active.last().sla_failed {
            1int
        } else {
            0int
        }
    }
}

/// `a` plus `n`, saturating at `u128::MAX`.
pub open spec fn sat_plus(a: u128, n: int) -> u128 {
    if a + n > u128::MAX {
        u128::MAX
    } else {
        (a + n) as u128
    }
}

proof fn lemma_sat_plus_step(a: u128, n: int)
    requires
        n >= 0,
    ensures
        sat_add(sat_plus(a, n), 1) == sat_plus(a, n + 1),
{
}

/// Settling the in-flight hop of `p` succeeds: the hop exists on a known rail,
/// and no counter that settling, completion or expiry adds to overflows.
pub open spec fn settle_ok(st: State, p: ActivePayment) -> bool {
    let amount = p.payment.amount_cents as int;
    let m = st.metrics;
    match p.route {
        None => false,
        Some(route) => p.next_hop < route.hops@.len() && match rail_pos(st.rails@, route.hops@[p.next_hop as int].rail_id@) {
            None => false,
            Some(i) => {
                &&& st.rails@[i].settled_principal_cents + amount <= u128::MAX
                &&& st.rails@[i].settled_hops + 1 <= u128::MAX
                &&& m.settled_principal_cents + amount <= u128::MAX
                &&& m.settled_hops + 1 <= u128::MAX
                &&& st.next_event < u128::MAX
                &&& if p.next_hop + 1 == route.hops@.len() {
                    &&& p.arrived_at <= st.next_minute
                    &&& m.completed + 1 <= u128::MAX
                    &&& m.completed_volume_cents + amount <= u128::MAX
                    &&& m.completed_elapsed_minutes + (st.next_minute - p.arrived_at) <= u128::MAX
                    &&& p.sla_failed ==> m.completed_late + 1 <= u128::MAX && m.completed_late_volume_cents + amount
                        <= u128::MAX
                    &&& st.next_event + 1 < u128::MAX
                } else if p.sla_failed {
                    &&& m.expired + 1 <= u128::MAX
                    &&& m.expired_volume_cents + amount <= u128::MAX
                    &&& st.next_event + 1 < u128::MAX
                } else {
                    true
                }
            },
        },
    }
}

/// A routed, waiting payment whose next hop has no reserved time and whose rail
/// is open with room for its principal this minute.
pub open spec fn hop_due(st: State, scenario: Scenario, p: ActivePayment) -> bool {
    &&& p.in_flight_until is None
    &&& !p.sla_failed
    &&& p.planned_departures is None
    &&& match p.route {
        Some(route) => p.next_hop < route.hops@.len() && match rail_pos(st.rails@, route.hops@[p.next_hop as int].rail_id@) {
            Some(i) => st.rails@[i].open && match scenario.services@[i].capacity_per_minute_cents {
                Some(limit) => st.rails@[i].used_this_minute_cents <= limit && p.payment.amount_cents <= limit
                    - st.rails@[i].used_this_minute_cents,
                None => true,
            },
            None => false,
        },
        None => false,
    }
}

impl State {
    /// Record one event at the current minute with the next sequence number.
    pub fn emit(&mut self, events: &mut Vec<Event>, kind: EventKind) -> (r: Result<(), SimulationError>)
        requires
            log_ok(old(events)@, old(self).next_event, old(self).next_minute),
        ensures
            final(self).next_minute == old(self).next_minute,
            final(self).rails@ == old(self).rails@,
            final(self).active@ == old(self).active@,
            final(self).metrics == old(self).metrics,
            final(self).reservations == old(self).reservations,
            final(self).adaptation_metrics == old(self).adaptation_metrics,
            final(self).routing_diagnostics == old(self).routing_diagnostics,
            final(self).random == old(self).random,
            r is Ok <==> old(self).next_event < u128::MAX,
            r is Ok ==> final(self).next_event == old(self).next_event + 1 && final(events)@ == old(
                events,
            )@.push(Event { sequence: old(self).next_event, minute: old(self).next_minute, kind }),
            r is Ok ==> log_ok(final(events)@, final(self).next_event, final(self).next_minute),
            r is Ok ==> final(self).next_event - final(events)@.len() == old(self).next_event - old(events)@.len(),
            r is Ok && !(kind is Generated) ==> generated_events(final(events)@) == generated_events(old(events)@),
            r is Ok ==> (kind matches EventKind::Generated { sequence, payment, deadline } ==> generated_events(
                final(events)@,
            ) == generated_events(old(events)@).push((sequence, payment@, deadline))),
    {
        let ghost before = events@;
        let sequence = self.next_event;
        bump(&mut self.next_event, 1, "event sequence")?;
        events.push(Event { sequence, minute: self.next_minute, kind });
        assert(events@.drop_last() =~= before);
        Ok(())
    }

    /// Count and report a payment that can no longer complete.
    fn expire(&mut self, payment: &ActivePayment, events: &mut Vec<Event>) -> (r: Result<(), SimulationError>)
        requires
            log_ok(old(events)@, old(self).next_event, old(self).next_minute),
        ensures
            final(self).metrics.generated == old(self).metrics.generated,
            r is Ok ==> generated_events(final(events)@) == generated_events(old(events)@),
            final(self).random == old(self).random,
            final(self).next_minute == old(self).next_minute,
            final(self).rails@ == old(self).rails@,
            final(self).active@ == old(self).active@,
            r is Ok ==> log_ok(final(events)@, final(self).next_event, final(self).next_minute),
            r is Ok ==> final(self).next_event - final(events)@.len() == old(self).next_event - old(events)@.len(),
            r is Ok <==> old(self).metrics.expired + 1 <= u128::MAX && old(self).metrics.expired_volume_cents
                + payment.payment.amount_cents <= u128::MAX && old(self).next_event < u128::MAX,
            r is Ok ==> final(self).metrics == (Metrics {
                expired: (old(self).metrics.expired + 1) as u128,
                expired_volume_cents: (old(self).metrics.expired_volume_cents + payment.payment.amount_cents) as u128,
                ..old(self).metrics
            }),
            r is Ok ==> final(self).next_event == old(self).next_event + 1 && final(events)@ == old(events)@.push(
                Event {
                    sequence: old(self).next_event,
                    minute: old(self).next_minute,
                    kind: EventKind::Expired { sequence: payment.sequence },
                },
            ),
    {
        bump(&mut self.metrics.expired, 1, "expired count")?;
        bump(&mut self.metrics.expired_volume_cents, payment.payment.amount_cents as u128, "expired volume")?;
        self.emit(events, EventKind::Expired { sequence: payment.sequence })
    }

    /// Settle the in-flight hop. Returns true only when the payment reaches a
    /// terminal outcome: completion, or expiry after a missed deadline.
    fn settle(&mut self, payment: &mut ActivePayment, events: &mut Vec<Event>) -> (r: Result<bool, SimulationError>)
        requires
            log_ok(old(events)@, old(self).next_event, old(self).next_minute),
        ensures
            final(self).metrics.generated == old(self).metrics.generated,
            r is Ok ==> generated_events(final(events)@) == generated_events(old(events)@),
            final(self).random == old(self).random,
            final(self).next_minute == old(self).next_minute,
            final(self).rails@.len() == old(self).rails@.len(),
            final(self).active@ == old(self).active@,
            r is Ok ==> log_ok(final(events)@, final(self).next_event, final(self).next_minute),
            r is Ok ==> final(self).next_event - final(events)@.len() == old(self).next_event - old(events)@.len(),
            r is Ok <==> settle_ok(*old(self), *old(payment)),
            r matches Ok(false) ==> ({
                &&& final(payment).next_hop == old(payment).next_hop + 1
                &&& final(payment).route == old(payment).route
                &&& final(payment).route matches Some(route) && final(payment).next_hop < route.hops@.len()
                &&& final(payment).in_flight_until is None
                &&& final(payment).planned_departures == old(payment).planned_departures
                &&& final(payment).sla_failed == old(payment).sla_failed
            }),
    {
        let (hop, hops, found) = match &payment.route {
            None => {
                return Err(SimulationError::Invariant("settled hop without a route"));
            },
            Some(route) => {
                if payment.next_hop >= route.hops.len() {
                    return Err(SimulationError::Invariant("settled hop beyond the route"));
                }
                (
                    route.hops[payment.next_hop].clone(),
                    route.hops.len(),
                    rail_index(&self.rails, &route.hops[payment.next_hop].rail_id),
                )
            },
        };
        let i = match found {
            Some(i) => i,
            None => {
                return Err(SimulationError::Invariant("validated route rail"));
            },
        };
        let amount = payment.payment.amount_cents as u128;
        let mut settled_principal = self.rails[i].settled_principal_cents;
        bump(&mut settled_principal, amount, "rail settled principal")?;
        let mut settled_hops = self.rails[i].settled_hops;
        bump(&mut settled_hops, 1, "rail settled hops")?;
        let s = &self.rails[i];
        let updated = rail_with(
            s,
            s.open,
            s.used_this_minute_cents,
            s.departed_principal_cents,
            settled_principal,
            s.departed_hops,
            settled_hops,
            s.routing_cost_cents,
        );
        self.rails.set(i, updated);
        bump(&mut self.metrics.settled_principal_cents, amount, "settled principal")?;
        bump(&mut self.metrics.settled_hops, 1, "settled hops")?;
        self.emit(
            events,
            EventKind::HopSettled {
                sequence: payment.sequence,
                hop,
                amount_cents: payment.payment.amount_cents,
            },
        )?;
        payment.next_hop = payment.next_hop + 1;
        payment.in_flight_until = None;
        if payment.next_hop == hops {
            if payment.arrived_at > self.next_minute {
                return Err(SimulationError::Invariant("payment completed before it arrived"));
            }
            let elapsed = self.next_minute - payment.arrived_at;
            bump(&mut self.metrics.completed, 1, "completed count")?;
            bump(&mut self.metrics.completed_volume_cents, amount, "completed volume")?;
            bump(&mut self.metrics.completed_elapsed_minutes, elapsed, "completed elapsed time")?;
            if payment.sla_failed {
                bump(&mut self.metrics.completed_late, 1, "late completed count")?;
                bump(&mut self.metrics.completed_late_volume_cents, amount, "late completed volume")?;
            }
            self.emit(
                events,
                EventKind::Completed {
                    sequence: payment.sequence,
                    late: payment.sla_failed,
                    elapsed_minutes: elapsed,
                },
            )?;
            return Ok(true);
        }
        if payment.sla_failed {
            self.expire(payment, events)?;
            return Ok(true);
        }
        Ok(false)
    }

    /// A hop of `amount` may leave rail `rail` now: it is open and its
    /// per-minute budget still admits the principal.
    fn can_depart(&self, scenario: &Scenario, rail: usize, amount: u64) -> (r: bool)
        requires
            rail < self.rails@.len(),
            self.rails@.len() == scenario.services@.len(),
        ensures
            r == (self.rails@[rail as int].open && (scenario.services@[rail as int].capacity_per_minute_cents matches Some(limit)
                ==> self.rails@[rail as int].used_this_minute_cents <= limit && amount
                <= limit - self.rails@[rail as int].used_this_minute_cents)),
    {
        if !self.rails[rail].open {
            return false;
        }
        match scenario.services[rail].capacity_per_minute_cents {
            None => true,
            Some(limit) => {
                let used = self.rails[rail].used_this_minute_cents;
                used <= limit as u128 && amount as u128 <= limit as u128 - used
            },
        }
    }

    /// Route an unrouted payment if the static strategy can, then depart every
    /// hop whose time has come. Returns true when the payment became terminal.
    #[verifier::rlimit(40)]
    fn drive(&mut self, scenario: &Scenario, payment: &mut ActivePayment, events: &mut Vec<Event>) -> (r: Result<bool, SimulationError>)
        requires
            log_ok(old(events)@, old(self).next_event, old(self).next_minute),
            old(self).rails@.len() == scenario.services@.len(),
            scenario.services@.len() == scenario.network.rails@.len(),
        ensures
            final(self).metrics.generated == old(self).metrics.generated,
            r is Ok ==> generated_events(final(events)@) == generated_events(old(events)@),
            final(self).random == old(self).random,
            final(self).next_minute == old(self).next_minute,
            final(self).rails@.len() == old(self).rails@.len(),
            final(self).active@ == old(self).active@,
            r is Ok ==> log_ok(final(events)@, final(self).next_event, final(self).next_minute),
            r is Ok ==> final(self).next_event - final(events)@.len() == old(self).next_event - old(events)@.len(),
            old(payment).in_flight_until is Some || old(payment).sla_failed ==> r == Ok::<bool, SimulationError>(false)
                && *final(self) == *old(self) && *final(payment) == *old(payment) && final(events)@ == old(events)@,
            r == Ok::<bool, SimulationError>(false) && hop_due(*old(self), *scenario, *old(payment))
                ==> final(payment).next_hop > old(payment).next_hop || final(payment).in_flight_until is Some,
    {
        if payment.in_flight_until.is_some() || payment.sla_failed {
            return Ok(false);
        }
        if payment.route.is_none() {
            match scenario.strategy {
                RoutingStrategy::Reserved { .. } => {
                    return Ok(false);
                },
                RoutingStrategy::CheapestStatic => {},
            }
            let mut usable: Vec<bool> = Vec::new();
            let mut i: usize = 0;
            while i < self.rails.len()
                invariant
                    generated_events(events@) == generated_events(old(events)@),
                    self.random == old(self).random,
                    self.metrics == old(self).metrics,
                    i <= self.rails@.len(),
                    usable@.len() == i,
                    self.rails@.len() == scenario.services@.len(),
                decreases self.rails@.len() - i,
            {
                usable.push(self.can_depart(scenario, i, payment.payment.amount_cents));
                i += 1;
            }
            let view = usable_view(&scenario.network, &usable);
            if payment.deadline < self.next_minute {
                return Err(SimulationError::Invariant("unexpired payment past its deadline"));
            }
            let instruction = Payment {
                id: payment.payment.id.clone(),
                sender: payment.payment.sender.clone(),
                receiver: payment.payment.receiver.clone(),
                amount_cents: payment.payment.amount_cents,
                max_delivery_minutes: Some((payment.deadline - self.next_minute) as u64),
            };
            let found = match route_payment(&view, &instruction) {
                Ok(found) => found,
                Err(e) => {
                    return Err(SimulationError::Validation(e));
                },
            };
            let route = match found {
                None => {
                    return Ok(false);
                },
                Some(route) => route,
            };
            self.emit(events, EventKind::RouteAccepted { sequence: payment.sequence, route: route.clone() })?;
            bump(&mut self.metrics.accepted_routes, 1, "accepted routes")?;
            payment.route = Some(route);
            payment.ever_routed = true;
        }
        let hops = match &payment.route {
            Some(route) => route.hops.len(),
            None => 0,
        };
        if payment.next_hop > hops {
            return Err(SimulationError::Invariant("terminal route still active"));
        }
        loop
            invariant
                generated_events(events@) == generated_events(old(events)@),
                self.metrics.generated == old(self).metrics.generated,
                self.random == old(self).random,
                log_ok(events@, self.next_event, self.next_minute),
                self.next_event - events@.len() == old(self).next_event - old(events)@.len(),
                self.next_minute == old(self).next_minute,
                self.rails@.len() == old(self).rails@.len(),
                self.active@ == old(self).active@,
                self.rails@.len() == scenario.services@.len(),
                scenario.services@.len() == scenario.network.rails@.len(),
                payment.route matches Some(route) && route.hops@.len() == hops,
                payment.next_hop <= hops,
                payment.in_flight_until is None,
                old(payment).in_flight_until is None && !old(payment).sla_failed,
                payment.next_hop > old(payment).next_hop || (hop_due(*old(self), *scenario, *old(payment)) ==> (
                self.rails@ == old(self).rails@ && payment.next_hop == old(payment).next_hop && payment.route
                    == old(payment).route && payment.planned_departures == old(payment).planned_departures
                    && payment.payment == old(payment).payment)),
            decreases hops - payment.next_hop,
        {
            if payment.next_hop >= hops {
                return Err(SimulationError::Invariant("terminal route still active"));
            }
            match &payment.planned_departures {
                Some(times) => {
                    if payment.next_hop >= times.len() {
                        return Err(SimulationError::Invariant("reserved timestamp count"));
                    }
                    let departure = times[payment.next_hop];
                    require(departure >= self.next_minute, "reserved departure was skipped")?;
                    if departure > self.next_minute {
                        return Ok(false);
                    }
                },
                None => {},
            }
            let (hop, found) = match &payment.route {
                Some(route) => (route.hops[payment.next_hop].clone(), rail_index(&self.rails, &route.hops[payment.next_hop].rail_id)),
                None => {
                    return Err(SimulationError::Invariant("unrouted departure"));
                },
            };
            let i = match found {
                Some(i) => i,
                None => {
                    return Err(SimulationError::Invariant("validated route rail"));
                },
            };
            if !self.can_depart(scenario, i, payment.payment.amount_cents) {
                require(payment.planned_departures.is_none(), "reserved capacity unavailable")?;
                return Ok(false);
            }
            let fee = scenario.network.rails[i].fee_cents;
            let amount = payment.payment.amount_cents as u128;
            let mut arrival = self.next_minute;
            bump(&mut arrival, scenario.network.rails[i].settlement_minutes as u128, "hop arrival")?;
            require(
                payment.planned_departures.is_none() || arrival <= payment.deadline,
                "reserved arrival exceeds deadline",
            )?;
            let s = &self.rails[i];
            let mut used = s.used_this_minute_cents;
            bump(&mut used, amount, "minute capacity usage")?;
            let mut departed = s.departed_principal_cents;
            bump(&mut departed, amount, "rail departed principal")?;
            let mut departed_hops = s.departed_hops;
            bump(&mut departed_hops, 1, "rail departed hops")?;
            let mut cost = s.routing_cost_cents;
            bump(&mut cost, fee as u128, "rail fees")?;
            let updated = rail_with(
                s,
                s.open,
                used,
                departed,
                s.settled_principal_cents,
                departed_hops,
                s.settled_hops,
                cost,
            );
            self.rails.set(i, updated);
            bump(&mut self.metrics.departed_principal_cents, amount, "departed principal")?;
            bump(&mut self.metrics.departed_hops, 1, "departed hops")?;
            bump(&mut self.metrics.routing_cost_cents, fee as u128, "routing fees")?;
            payment.in_flight_until = Some(arrival);
            self.emit(
                events,
                EventKind::HopDeparted {
                    sequence: payment.sequence,
                    hop,
                    amount_cents: payment.payment.amount_cents,
                    fee_cents: fee,
                    arrival_minute: arrival,
                },
            )?;
            if arrival != self.next_minute {
                return Ok(false);
            }
            if self.settle(payment, events)? {
                return Ok(true);
            }
        }
    }

    /// This minute's demand: every sampled instruction is counted and reported,
    /// then admitted if storage allows or rejected as an SLA failure.
    fn generate(
        &mut self,
        scenario: &Scenario,
        events: &mut Vec<Event>,
        injected: Option<&Vec<ArrivalSample>>,
    ) -> (r: Result<(), SimulationError>)
        requires
            log_ok(old(events)@, old(self).next_event, old(self).next_minute),
            scenario.arrivals.flows@.len() > 0,
            scenario.arrivals.min_amount_cents <= scenario.arrivals.max_amount_cents,
            scenario.arrivals.min_sla_minutes <= scenario.arrivals.max_sla_minutes,
        ensures
            final(self).next_minute == old(self).next_minute,
            final(self).rails@ == old(self).rails@,
            r is Ok ==> log_ok(final(events)@, final(self).next_event, final(self).next_minute),
            r is Ok ==> final(self).next_event - final(events)@.len() == old(self).next_event - old(events)@.len(),
            r is Ok ==> final(self).metrics.generated == old(self).metrics.generated + match injected {
                Some(given) => given@.len() as int,
                None => attempts_outcome(
                    old(self).random.0,
                    scenario.arrivals,
                    scenario.arrivals.attempts_per_minute as nat,
                ).0.len() as int,
            },
            final(self).random == match injected {
                Some(_) => old(self).random,
                None => Random(
                    attempts_outcome(old(self).random.0, scenario.arrivals, scenario.arrivals.attempts_per_minute as nat).1,
                ),
            },
            r is Ok ==> generated_events(final(events)@) == generated_events(old(events)@) + demand_events(
                drawn_views(old(self).random, scenario.arrivals, injected),
                old(self).next_minute,
                old(self).metrics.generated,
            ),
            r is Ok && drawn_views(old(self).random, scenario.arrivals, injected).len() == 0 ==> final(events)@
                == old(events)@ && final(self).metrics == old(self).metrics && final(self).active@ == old(self).active@,
    {
        let samples = match injected {
            Some(given) => copy_samples(given),
            None => self.random.arrivals(&scenario.arrivals),
        };
        let ghost drawn = self.random;
        let ghost views = sample_views(samples@);
        assert(views.take(0) =~= Seq::<(Seq<char>, Seq<char>, u64, u64)>::empty());
        let mut k: usize = 0;
        while k < samples.len()
            invariant
                k <= samples@.len(),
                views == sample_views(samples@),
                views == drawn_views(old(self).random, scenario.arrivals, injected),
                generated_events(events@) == generated_events(old(events)@) + demand_events(
                    views.take(k as int),
                    old(self).next_minute,
                    old(self).metrics.generated,
                ),
                self.metrics.generated == old(self).metrics.generated + k,
                self.random == drawn,
                drawn == match injected {
                    Some(_) => old(self).random,
                    None => Random(
                        attempts_outcome(old(self).random.0, scenario.arrivals, scenario.arrivals.attempts_per_minute as nat).1,
                    ),
                },
                log_ok(events@, self.next_event, self.next_minute),
                self.next_event - events@.len() == old(self).next_event - old(events)@.len(),
                self.next_minute == old(self).next_minute,
                self.rails@ == old(self).rails@,
                samples@.len() == 0 ==> events@ == old(events)@ && self.metrics == old(self).metrics
                    && self.active@ == old(self).active@,
            decreases samples@.len() - k,
        {
            let sample = &samples[k];
            let mut deadline = self.next_minute;
            bump(&mut deadline, sample.sla as u128, "payment deadline")?;
            bump(&mut self.metrics.generated, 1, "generated count")?;
            bump(&mut self.metrics.generated_volume_cents, sample.amount as u128, "generated volume")?;
            let sequence = self.metrics.generated;
            let payment = Payment {
                id: labelled("SIM-", sequence),
                sender: copy_string(&sample.flow.sender),
                receiver: copy_string(&sample.flow.receiver),
                amount_cents: sample.amount,
                max_delivery_minutes: Some(sample.sla),
            };
            proof {
                let v = views.take(k + 1);
                assert(v.drop_last() =~= views.take(k as int));
                assert(v.last() == sample_view(*sample));
            }
            self.emit(events, EventKind::Generated { sequence, payment: payment.copy(), deadline })?;
            if self.active.len() >= scenario.max_active_payments {
                bump(&mut self.metrics.rejected, 1, "rejected count")?;
                bump(&mut self.metrics.rejected_volume_cents, sample.amount as u128, "rejected volume")?;
                bump(&mut self.metrics.sla_failures, 1, "SLA failures")?;
                bump(&mut self.metrics.sla_failed_volume_cents, sample.amount as u128, "SLA volume")?;
                self.emit(events, EventKind::Rejected { sequence })?;
            } else {
                self.active.push(
                    ActivePayment {
                        sequence,
                        payment,
                        arrived_at: self.next_minute,
                        deadline,
                        route: None,
                        next_hop: 0,
                        planned_departures: None,
                        in_flight_until: None,
                        sla_failed: false,
                        ever_routed: false,
                    },
                );
            }
            k += 1;
        }
        assert(views.take(k as int) =~= views);
        Ok(())
    }

    /// Try to book a reserved journey for one unrouted, unexpired payment.
    #[verifier::rlimit(80)]
    fn reserve_one(
        &mut self,
        router: &Router,
        limits: crate::scalable::SearchLimits,
        payment: &mut ActivePayment,
        events: &mut Vec<Event>,
    ) -> (r: Result<(), SimulationError>)
        requires
            log_ok(old(events)@, old(self).next_event, old(self).next_minute),
            router.wf(),
            limits.positive(),
        ensures
            final(self).metrics.generated == old(self).metrics.generated,
            r is Ok ==> generated_events(final(events)@) == generated_events(old(events)@),
            final(self).random == old(self).random,
            final(self).next_minute == old(self).next_minute,
            final(self).rails@ == old(self).rails@,
            final(self).active@ == old(self).active@,
            r is Ok ==> log_ok(final(events)@, final(self).next_event, final(self).next_minute),
            r is Ok ==> final(self).next_event - final(events)@.len() == old(self).next_event - old(events)@.len(),
            final(payment).sequence == old(payment).sequence,
            final(payment).sla_failed == old(payment).sla_failed,
            final(payment).next_hop == old(payment).next_hop,
            final(payment).in_flight_until == old(payment).in_flight_until,
            old(payment).route is Some || old(payment).sla_failed ==> r is Ok && *final(self) == *old(self)
                && *final(payment) == *old(payment) && final(events)@ == old(events)@,
            old(payment).route is None && !old(payment).sla_failed ==> final(self).routing_diagnostics.searches
                == sat_add(old(self).routing_diagnostics.searches, 1),
    {
        let minute = self.next_minute;
        if payment.route.is_none() && !payment.sla_failed {
            let (journey, diagnostics) = router.find(
                &payment.payment,
                minute,
                payment.deadline,
                &self.reservations,
                limits,
            );
            self.routing_diagnostics.plus(diagnostics);
            match journey {
                None => {},
                Some(journey) => {
                    proof {
                        lemma_found_steps(*router, payment.payment, minute, payment.deadline, journey);
                    }
                    if !router.reserve(&mut self.reservations, &journey, payment.payment.amount_cents) {
                        return Err(SimulationError::ArithmeticOverflow("reservation total"));
                    }
                    let route = router.route(&journey);
                    payment.planned_departures = Some(departures_of(&journey));
                    self.emit(events, EventKind::RouteAccepted { sequence: payment.sequence, route: route.clone() })?;
                    bump(&mut self.metrics.accepted_routes, 1, "accepted routes")?;
                    payment.route = Some(route);
                    payment.ever_routed = true;
                },
            }
        }
        Ok(())
    }

    /// Book a reserved journey for every unrouted, unexpired payment that the
    /// bounded search can place in the residual calendar.
    fn reserve_routes(
        &mut self,
        router: &Router,
        limits: crate::scalable::SearchLimits,
        events: &mut Vec<Event>,
    ) -> (r: Result<(), SimulationError>)
        requires
            log_ok(old(events)@, old(self).next_event, old(self).next_minute),
            router.wf(),
            limits.positive(),
        ensures
            final(self).metrics.generated == old(self).metrics.generated,
            r is Ok ==> generated_events(final(events)@) == generated_events(old(events)@),
            final(self).random == old(self).random,
            final(self).next_minute == old(self).next_minute,
            final(self).rails@ == old(self).rails@,
            r is Ok ==> log_ok(final(events)@, final(self).next_event, final(self).next_minute),
            r is Ok ==> final(self).next_event - final(events)@.len() == old(self).next_event - old(events)@.len(),
            r is Ok ==> final(self).active@.len() == old(self).active@.len() && forall|q: int|
                0 <= q < old(self).active@.len() ==> (#[trigger] final(self).active@[q]).sequence
                    == old(self).active@[q].sequence,
            r is Ok ==> final(self).routing_diagnostics.searches == sat_plus(
                old(self).routing_diagnostics.searches,
                to_route(old(self).active@),
            ),
            old(self).active@.len() == 0 ==> final(events)@ == old(events)@ && final(self).metrics == old(self).metrics,
    {
        let minute = self.next_minute;
        let mut pending: Vec<ActivePayment> = Vec::new();
        std::mem::swap(&mut pending, &mut self.active);
        let ghost all = pending@;
        let ghost mut k: int = 0;
        assert(all.skip(0) =~= all);
        assert(all.take(0) =~= Seq::<ActivePayment>::empty());
        while pending.len() > 0
            invariant
                generated_events(events@) == generated_events(old(events)@),
                self.metrics.generated == old(self).metrics.generated,
                all.len() == 0 ==> events@ == old(events)@ && self.metrics == old(self).metrics,
                self.random == old(self).random,
                0 <= k <= all.len(),
                all == old(self).active@,
                pending@ == all.skip(k),
                self.active@.len() == k,
                forall|q: int| 0 <= q < k ==> (#[trigger] self.active@[q]).sequence == all[q].sequence,
                to_route(all.take(k)) >= 0,
                self.routing_diagnostics.searches == sat_plus(
                    old(self).routing_diagnostics.searches,
                    to_route(all.take(k)),
                ),
                log_ok(events@, self.next_event, self.next_minute),
                self.next_event - events@.len() == old(self).next_event - old(events)@.len(),
                self.next_minute == minute,
                minute == old(self).next_minute,
                self.rails@ == old(self).rails@,
                router.wf(),
                limits.positive(),
            decreases pending@.len(),
        {
            let mut payment = pending.remove(0);
            proof {
                assert(payment == all[k]);
                assert(all.skip(k).remove(0) =~= all.skip(k + 1));
                assert(all.take(k + 1).drop_last() =~= all.take(k));
                assert(all.take(k + 1).last() == all[k]);
                lemma_sat_plus_step(old(self).routing_diagnostics.searches, to_route(all.take(k)));
            }
            self.reserve_one(router, limits, &mut payment, events)?;
            self.active.push(payment);
            proof {
                k = k + 1;
            }
        }
        assert(all.take(k) =~= all);
        Ok(())
    }

    /// Process the current minute and advance to the next one.
    #[verifier::rlimit(40)]
    pub fn process_tick(
        &mut self,
        scenario: &Scenario,
        router: &Router,
        changes: &Vec<AppliedDisruption>,
        injected: Option<&Vec<ArrivalSample>>,
    ) -> (r: Result<TickReport, SimulationError>)
        requires
            runnable(*scenario, *router, old(self).rails@.len()),
        ensures
            r matches Ok(report) ==> report.minute == old(self).next_minute && final(self).next_minute
                == old(self).next_minute + 1 && final(self).next_event == old(self).next_event
                + report.events@.len() && forall|i: int|
                0 <= i < report.events@.len() ==> (#[trigger] report.events@[i]).sequence
                    == old(self).next_event + i && report.events@[i].minute == report.minute,
            final(self).rails@.len() == old(self).rails@.len(),
            r matches Ok(report) ==> generated_events(report.events@) == demand_events(
                drawn_views(old(self).random, scenario.arrivals, injected),
                old(self).next_minute,
                old(self).metrics.generated,
            ),
            r matches Ok(report) ==> (changes@.len() == 0 && old(self).active@.len() == 0 && drawn_views(
                old(self).random,
                scenario.arrivals,
                injected,
            ).len() == 0 ==> report.events@.len() == old(self).rails@.len() && final(self).metrics == old(
                self,
            ).metrics && final(self).active@.len() == 0),
            r is Ok ==> final(self).metrics.generated == old(self).metrics.generated + drawn_views(
                old(self).random,
                scenario.arrivals,
                injected,
            ).len(),
            r is Ok ==> final(self).random == match injected {
                Some(_) => old(self).random,
                None => Random(
                    attempts_outcome(old(self).random.0, scenario.arrivals, scenario.arrivals.attempts_per_minute as nat).1,
                ),
            },
    {
        let minute = self.next_minute;
        let mut events: Vec<Event> = Vec::new();
        assert(generated_events(events@) == Seq::<(u128, PaymentView, u128)>::empty());
        let ghost first = self.next_event;
        let ghost idle = changes@.len() == 0 && self.active@.len() == 0 && drawn_views(
            self.random,
            scenario.arrivals,
            injected,
        ).len() == 0;
        let ghost quiet = changes@.len() + self.rails@.len();
        self.reservations.retain_from(minute);
        let mut c: usize = 0;
        while c < changes.len()
            invariant
                generated_events(events@) == Seq::<(u128, PaymentView, u128)>::empty(),
                self.metrics == old(self).metrics,
                self.active@ == old(self).active@,
                events@.len() == c,
                self.random == old(self).random,
                c <= changes@.len(),
                log_ok(events@, self.next_event, self.next_minute),
                self.next_minute == minute,
                self.next_event == first + events@.len(),
                self.rails@.len() == old(self).rails@.len(),
            decreases changes@.len() - c,
        {
            self.emit(&mut events, EventKind::DisruptionApplied(changes[c].clone()))?;
            bump(&mut self.adaptation_metrics.rail_changes, 1, "rail changes")?;
            c += 1;
        }
        let mut i: usize = 0;
        while i < self.rails.len()
            invariant
                generated_events(events@) == Seq::<(u128, PaymentView, u128)>::empty(),
                self.metrics == old(self).metrics,
                self.active@ == old(self).active@,
                events@.len() == changes@.len() + i,
                self.random == old(self).random,
                i <= self.rails@.len(),
                runnable(*scenario, *router, self.rails@.len()),
                self.rails@.len() == old(self).rails@.len(),
                log_ok(events@, self.next_event, self.next_minute),
                self.next_minute == minute,
                self.next_event == first + events@.len(),
            decreases self.rails@.len() - i,
        {
            let open = scenario.network.rails[i].available && scenario.services[i].is_open(minute);
            let s = &self.rails[i];
            let updated = rail_with(
                s,
                open,
                0,
                s.departed_principal_cents,
                s.settled_principal_cents,
                s.departed_hops,
                s.settled_hops,
                s.routing_cost_cents,
            );
            let id = s.rail_id.clone();
            self.rails.set(i, updated);
            self.emit(
                &mut events,
                EventKind::RailTick {
                    rail_id: id,
                    open,
                    capacity_cents: scenario.services[i].capacity_per_minute_cents,
                },
            )?;
            i += 1;
        }
        // Settle all existing departures before admitting this minute's arrivals.
        let mut current: Vec<ActivePayment> = Vec::new();
        std::mem::swap(&mut current, &mut self.active);
        let mut k: usize = 0;
        while k < current.len()
            invariant
                generated_events(events@) == Seq::<(u128, PaymentView, u128)>::empty(),
                self.metrics.generated == old(self).metrics.generated,
                idle ==> current@.len() == 0 && events@.len() == quiet && self.metrics == old(self).metrics
                    && self.active@.len() == 0,
                quiet == changes@.len() + self.rails@.len(),
                self.random == old(self).random,
                k <= current@.len(),
                runnable(*scenario, *router, self.rails@.len()),
                self.rails@.len() == old(self).rails@.len(),
                log_ok(events@, self.next_event, self.next_minute),
                self.next_minute == minute,
                self.next_event == first + events@.len(),
            decreases current@.len() - k,
        {
            let mut payment = current[k].clone();
            let terminal = if payment.in_flight_until == Some(minute) {
                self.settle(&mut payment, &mut events)?
            } else {
                false
            };
            if !terminal {
                self.active.push(payment);
            }
            k += 1;
        }
        self.generate(scenario, &mut events, injected)?;
        let ghost drawn = self.random;
        let ghost generated = self.metrics.generated;
        let ghost demand = generated_events(events@);
        match scenario.strategy {
            RoutingStrategy::Reserved { limits } => {
                self.reserve_routes(router, limits, &mut events)?;
            },
            RoutingStrategy::CheapestStatic => {},
        }
        let mut ready: Vec<ActivePayment> = Vec::new();
        std::mem::swap(&mut ready, &mut self.active);
        let mut k: usize = 0;
        while k < ready.len()
            invariant
                generated_events(events@) == demand,
                self.random == drawn,
                self.metrics.generated == generated,
                idle ==> ready@.len() == 0 && events@.len() == quiet && self.metrics == old(self).metrics
                    && self.active@.len() == 0,
                quiet == changes@.len() + self.rails@.len(),
                k <= ready@.len(),
                runnable(*scenario, *router, self.rails@.len()),
                self.rails@.len() == old(self).rails@.len(),
                log_ok(events@, self.next_event, self.next_minute),
                self.next_minute == minute,
                self.next_event == first + events@.len(),
            decreases ready@.len() - k,
        {
            let mut payment = ready[k].clone();
            if !self.drive(scenario, &mut payment, &mut events)? {
                self.active.push(payment);
            }
            k += 1;
        }
        // Inclusive deadlines: every same-minute departure and settlement has had
        // its opportunity. An outstanding hop is allowed to drain.
        let mut due: Vec<ActivePayment> = Vec::new();
        std::mem::swap(&mut due, &mut self.active);
        let mut k: usize = 0;
        while k < due.len()
            invariant
                generated_events(events@) == demand,
                self.random == drawn,
                self.metrics.generated == generated,
                idle ==> due@.len() == 0 && events@.len() == quiet && self.metrics == old(self).metrics
                    && self.active@.len() == 0,
                quiet == changes@.len() + self.rails@.len(),
                k <= due@.len(),
                self.rails@.len() == old(self).rails@.len(),
                log_ok(events@, self.next_event, self.next_minute),
                self.next_minute == minute,
                self.next_event == first + events@.len(),
            decreases due@.len() - k,
        {
            let mut payment = due[k].clone();
            if !payment.sla_failed && payment.deadline == minute {
                payment.sla_failed = true;
                bump(&mut self.metrics.sla_failures, 1, "SLA failures")?;
                bump(&mut self.metrics.sla_failed_volume_cents, payment.payment.amount_cents as u128, "SLA volume")?;
                self.emit(&mut events, EventKind::DeadlineMissed { sequence: payment.sequence })?;
                if payment.in_flight_until.is_none() {
                    self.expire(&payment, &mut events)?;
                } else {
                    self.active.push(payment);
                }
            } else {
                self.active.push(payment);
            }
            k += 1;
        }
        bump(&mut self.next_minute, 1, "simulated minute")?;
        Ok(TickReport { minute, events })
    }
}

} // verus!
