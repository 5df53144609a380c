//! The accounting a committed tick must satisfy, and its executable check.
use vstd::prelude::*;
use crate::scalable::{Reservations, SlotBooking, slot_booked, lemma_slot_booked_bounds, lemma_slot_booked_absent};
use super::{ActivePayment, RailState, SimulationError, State};
use super::config::{RoutingStrategy, Scenario, service_open};
use super::engine::{bump, rail_index, rail_pos, require};

verus! {

// ---------------------------------------------------------------------------
// Sums over the active payments.

pub open spec fn amounts(s: Seq<ActivePayment>) -> int
    decreases s.len(),
{
    if s.len() == 0 {
        0
    } else {
        amounts(s.drop_last()) + s.last().payment.amount_cents
    }
}

pub open spec fn overdue(s: Seq<ActivePayment>) -> int
    decreases s.len(),
{
    if s.len() == 0 {
        0
    } else {
        overdue(s.drop_last()) + if s.last().sla_failed { 1int } else { 0int }
    }
}

pub open spec fn overdue_amounts(s: Seq<ActivePayment>) -> int
    decreases s.len(),
{
    if s.len() == 0 {
        0
    } else {
        overdue_amounts(s.drop_last()) + if s.last().sla_failed {
            s.last().payment.amount_cents as int
        } else {
            0int
        }
    }
}

/// The rail (by position in `rails`) carrying the payment's in-flight hop.
pub open spec fn flight_rail(p: ActivePayment, rails: Seq<RailState>) -> Option<int> {
    match p.route {
        Some(route) => if p.in_flight_until is Some && p.next_hop < route.hops@.len() {
            rail_pos(rails, route.hops@[p.next_hop as int].rail_id@)
        } else {
            None
        },
        None => None,
    }
}

pub open spec fn flight_amounts(s: Seq<ActivePayment>, rails: Seq<RailState>, i: int) -> int
    decreases s.len(),
{
    if s.len() == 0 {
        0
    } else {
        flight_amounts(s.drop_last(), rails, i) + if flight_rail(s.last(), rails) == Some(i) {
            s.last().payment.amount_cents as int
        } else {
            0int
        }
    }
}

pub open spec fn flight_count(s: Seq<ActivePayment>, rails: Seq<RailState>, i: int) -> int
    decreases s.len(),
{
    if s.len() == 0 {
        0
    } else {
        flight_count(s.drop_last(), rails, i) + if flight_rail(s.last(), rails) == Some(i) {
            1int
        } else {
            0int
        }
    }
}

/// One active payment: ordered after `prev`, arrived in the past, its deadline
/// failure recorded exactly when the deadline has passed, overdue work only
/// draining, a route not yet finished, and an in-flight hop on a known rail.
pub open spec fn payment_ok(p: ActivePayment, prev: int, st: State) -> bool {
    &&& p.sequence > prev && p.sequence <= st.metrics.generated
    &&& p.arrived_at < st.next_minute && p.deadline >= p.arrived_at
    &&& p.sla_failed == (p.deadline < st.next_minute)
    &&& p.sla_failed ==> p.in_flight_until is Some
    &&& match p.route {
        Some(route) => p.next_hop < route.hops@.len(),
        None => p.next_hop == 0 && p.in_flight_until is None,
    }
    &&& p.in_flight_until matches Some(arrival) ==> arrival >= st.next_minute && flight_rail(p, st.rails@) is Some
}

pub open spec fn prev_sequence(s: Seq<ActivePayment>, k: int) -> int {
    if k == 0 {
        0
    } else {
        s[k - 1].sequence as int
    }
}

pub open spec fn active_ok(st: State, sc: Scenario) -> bool {
    &&& st.active@.len() <= sc.max_active_payments
    &&& forall|k: int|
        0 <= k < st.active@.len() ==> payment_ok(#[trigger] st.active@[k], prev_sequence(st.active@, k), st)
}

// ---------------------------------------------------------------------------
// Reserved routes: a feasible timed walk and exact departure bookings.

pub open spec fn settle_minutes(sc: Scenario, r: int) -> int {
    sc.network.rails@[r].settlement_minutes as int
}

/// The ready time after the first `h` reserved hops, if each departs no earlier
/// than the previous arrival, inside its rail's window, on a known rail.
pub open spec fn reserved_ready(p: ActivePayment, rails: Seq<RailState>, sc: Scenario, h: nat) -> Option<int>
    decreases h,
{
    if h == 0 {
        Some(p.arrived_at as int)
    } else {
        match reserved_ready(p, rails, sc, (h - 1) as nat) {
            None => None,
            Some(ready) => {
                let hop = p.route->0.hops@[h - 1];
                let t = p.planned_departures->0@[h - 1];
                match rail_pos(rails, hop.rail_id@) {
                    None => None,
                    Some(r) => if t >= ready && service_open(sc.services@[r], t as int) && t
                        + settle_minutes(sc, r) <= u128::MAX {
                        Some(t + settle_minutes(sc, r))
                    } else {
                        None
                    },
                }
            },
        }
    }
}

pub open spec fn reserved_payment_ok(p: ActivePayment, rails: Seq<RailState>, sc: Scenario) -> bool {
    match p.route {
        Some(route) => {
            &&& p.planned_departures matches Some(times) && times@.len() == route.hops@.len()
            &&& !p.sla_failed
            &&& reserved_ready(p, rails, sc, route.hops@.len()) matches Some(ready) && ready <= p.deadline
        },
        None => p.planned_departures is None,
    }
}

/// Future departures of one reserved route that use a rail with a per-minute budget.
pub open spec fn hop_contribs(p: ActivePayment, rails: Seq<RailState>, sc: Scenario, minute: u128, h: nat) -> Seq<SlotBooking>
    decreases h,
{
    if h == 0 {
        Seq::empty()
    } else {
        let before = hop_contribs(p, rails, sc, minute, (h - 1) as nat);
        let t = p.planned_departures->0@[h - 1];
        match rail_pos(rails, p.route->0.hops@[h - 1].rail_id@) {
            Some(r) => if t > minute && sc.services@[r].capacity_per_minute_cents is Some {
                before.push(SlotBooking { rail: r as usize, minute: t, amount: p.payment.amount_cents as u128 })
            } else {
                before
            },
            None => before,
        }
    }
}

pub open spec fn payment_contribs(s: Seq<ActivePayment>, rails: Seq<RailState>, sc: Scenario, minute: u128) -> Seq<SlotBooking>
    decreases s.len(),
{
    if s.len() == 0 {
        Seq::empty()
    } else {
        let p = s.last();
        payment_contribs(s.drop_last(), rails, sc, minute) + match p.route {
            Some(route) => hop_contribs(p, rails, sc, minute, route.hops@.len()),
            None => Seq::empty(),
        }
    }
}

/// This minute's usage of every budgeted rail that was used.
pub open spec fn rail_contribs(rails: Seq<RailState>, sc: Scenario, minute: u128, n: nat) -> Seq<SlotBooking>
    decreases n,
{
    if n == 0 {
        Seq::empty()
    } else {
        let before = rail_contribs(rails, sc, minute, (n - 1) as nat);
        let used = rails[n - 1].used_this_minute_cents;
        if sc.services@[n - 1].capacity_per_minute_cents is Some && used > 0 {
            before.push(SlotBooking { rail: (n - 1) as usize, minute, amount: used })
        } else {
            before
        }
    }
}

pub open spec fn contrib_sum(s: Seq<SlotBooking>, rail: usize, minute: u128) -> int
    decreases s.len(),
{
    if s.len() == 0 {
        0
    } else {
        contrib_sum(s.drop_last(), rail, minute) + if s.last().rail == rail && s.last().minute == minute {
            s.last().amount as int
        } else {
            0int
        }
    }
}

pub open spec fn last_minute(st: State) -> u128 {
    if st.next_minute == 0 {
        0
    } else {
        (st.next_minute - 1) as u128
    }
}

/// What the departure bookings must be: this minute's usage plus every future
/// reserved departure on a budgeted rail.
pub open spec fn expected_bookings(st: State, sc: Scenario) -> Seq<SlotBooking> {
    rail_contribs(st.rails@, sc, last_minute(st), st.rails@.len())
        + payment_contribs(st.active@, st.rails@, sc, last_minute(st))
}

pub open spec fn reserved_ok(st: State, sc: Scenario) -> bool {
    let expected = expected_bookings(st, sc);
    &&& forall|k: int| 0 <= k < st.active@.len() ==> reserved_payment_ok(#[trigger] st.active@[k], st.rails@, sc)
    &&& forall|r: usize, t: u128| #[trigger] contrib_sum(expected, r, t) <= u128::MAX
    &&& forall|r: usize, t: u128|
        #[trigger] slot_booked(st.reservations.slots@, r, t) == contrib_sum(expected, r, t)
    &&& forall|r: usize, t: u128|
        r < sc.services@.len() && sc.services@[r as int].capacity_per_minute_cents is Some
            ==> #[trigger] contrib_sum(expected, r, t) <= sc.services@[r as int].capacity_per_minute_cents->0
}

// ---------------------------------------------------------------------------
// Conservation.

pub open spec fn rails_sum(rails: Seq<RailState>, f: spec_fn(RailState) -> u128) -> int
    decreases rails.len(),
{
    if rails.len() == 0 {
        0
    } else {
        rails_sum(rails.drop_last(), f) + f(rails.last())
    }
}

pub open spec fn rail_ok(st: State, sc: Scenario, i: int) -> bool {
    let rail = st.rails@[i];
    &&& rail.departed_principal_cents == rail.settled_principal_cents + flight_amounts(st.active@, st.rails@, i)
    &&& rail.departed_hops == rail.settled_hops + flight_count(st.active@, st.rails@, i)
    &&& rail.open || rail.used_this_minute_cents == 0
    &&& sc.services@[i].capacity_per_minute_cents matches Some(limit) ==> rail.used_this_minute_cents <= limit
}

pub open spec fn conserved(st: State) -> bool {
    let m = st.metrics;
    let a = st.active@;
    &&& m.generated == m.completed + m.expired + m.rejected + a.len()
    &&& m.generated_volume_cents == m.completed_volume_cents + m.expired_volume_cents
        + m.rejected_volume_cents + amounts(a)
    &&& m.sla_failures == m.rejected + m.expired + m.completed_late + overdue(a)
    &&& m.sla_failed_volume_cents == m.rejected_volume_cents + m.expired_volume_cents
        + m.completed_late_volume_cents + overdue_amounts(a)
    &&& m.completed_late <= m.completed && m.completed_late_volume_cents <= m.completed_volume_cents
    &&& m.accepted_routes <= m.generated - m.rejected && m.completed <= m.accepted_routes
}

pub open spec fn aggregated(st: State) -> bool {
    let m = st.metrics;
    let r = st.rails@;
    &&& rails_sum(r, |s: RailState| s.departed_principal_cents) == m.departed_principal_cents
    &&& rails_sum(r, |s: RailState| s.settled_principal_cents) == m.settled_principal_cents
    &&& rails_sum(r, |s: RailState| s.departed_hops) == m.departed_hops
    &&& rails_sum(r, |s: RailState| s.settled_hops) == m.settled_hops
    &&& rails_sum(r, |s: RailState| s.routing_cost_cents) == m.routing_cost_cents
}

/// Every committed state: bounded, ordered active work; exact reservations under
/// the reserved strategy; count and principal conservation for payments, SLA
/// failures and every rail; and rail totals equal to the global ones.
pub open spec fn consistent(st: State, sc: Scenario) -> bool {
    &&& active_ok(st, sc)
    &&& sc.strategy is Reserved ==> reserved_ok(st, sc)
    &&& conserved(st)
    &&& forall|i: int| 0 <= i < st.rails@.len() ==> #[trigger] rail_ok(st, sc, i)
    &&& aggregated(st)
}


// ---------------------------------------------------------------------------
// Prefix lemmas.

proof fn lemma_amounts_prefix(s: Seq<ActivePayment>, k: int)
    requires
        0 <= k <= s.len(),
    ensures
        amounts(s.take(k)) <= amounts(s),
        overdue(s.take(k)) <= overdue(s),
        overdue_amounts(s.take(k)) <= overdue_amounts(s),
        0 <= amounts(s.take(k)),
        0 <= overdue(s.take(k)),
        0 <= overdue_amounts(s.take(k)),
    decreases s.len(),
{
    if k < s.len() {
        assert(s.drop_last().take(k) =~= s.take(k));
        lemma_amounts_prefix(s.drop_last(), k);
    } else {
        assert(s.take(k) =~= s);
        if s.len() > 0 {
            lemma_amounts_prefix(s.drop_last(), k - 1);
            assert(s.drop_last().take(k - 1) =~= s.drop_last());
        }
    }
}

proof fn lemma_flight_prefix(s: Seq<ActivePayment>, rails: Seq<RailState>, i: int, k: int)
    requires
        0 <= k <= s.len(),
    ensures
        0 <= flight_amounts(s.take(k), rails, i) <= flight_amounts(s, rails, i),
        0 <= flight_count(s.take(k), rails, i) <= flight_count(s, rails, i),
    decreases s.len(),
{
    if k < s.len() {
        assert(s.drop_last().take(k) =~= s.take(k));
        lemma_flight_prefix(s.drop_last(), rails, i, k);
    } else {
        assert(s.take(k) =~= s);
        if s.len() > 0 {
            lemma_flight_prefix(s.drop_last(), rails, i, k - 1);
            assert(s.drop_last().take(k - 1) =~= s.drop_last());
        }
    }
}

proof fn lemma_take_step(s: Seq<ActivePayment>, k: int)
    requires
        0 <= k < s.len(),
    ensures
        s.take(k + 1).drop_last() == s.take(k),
        s.take(k + 1).last() == s[k],
{
    assert(s.take(k + 1).drop_last() =~= s.take(k));
}

proof fn lemma_rails_sum_prefix(r: Seq<RailState>, f: spec_fn(RailState) -> u128, k: int)
    requires
        0 <= k <= r.len(),
    ensures
        0 <= rails_sum(r.take(k), f) <= rails_sum(r, f),
    decreases r.len(),
{
    if k < r.len() {
        assert(r.drop_last().take(k) =~= r.take(k));
        lemma_rails_sum_prefix(r.drop_last(), f, k);
    } else {
        assert(r.take(k) =~= r);
        if r.len() > 0 {
            lemma_rails_sum_prefix(r.drop_last(), f, k - 1);
            assert(r.drop_last().take(k - 1) =~= r.drop_last());
        }
    }
}

proof fn lemma_contrib_sum_append(a: Seq<SlotBooking>, b: Seq<SlotBooking>, rail: usize, minute: u128)
    ensures
        contrib_sum(a + b, rail, minute) == contrib_sum(a, rail, minute) + contrib_sum(b, rail, minute),
        contrib_sum(b, rail, minute) >= 0,
    decreases b.len(),
{
    if b.len() == 0 {
        assert(a + b =~= a);
    } else {
        assert((a + b).drop_last() =~= a + b.drop_last());
        lemma_contrib_sum_append(a, b.drop_last(), rail, minute);
    }
}

proof fn lemma_ready_stays_none(p: ActivePayment, rails: Seq<RailState>, sc: Scenario, h: nat, n: nat)
    requires
        h <= n,
        reserved_ready(p, rails, sc, h) is None,
    ensures
        reserved_ready(p, rails, sc, n) is None,
    decreases n - h,
{
    if h < n {
        lemma_ready_stays_none(p, rails, sc, h, (n - 1) as nat);
    }
}

proof fn lemma_hop_contribs_prefix(p: ActivePayment, rails: Seq<RailState>, sc: Scenario, minute: u128, h: nat, n: nat)
    requires
        h <= n,
    ensures
        hop_contribs(p, rails, sc, minute, n) == hop_contribs(p, rails, sc, minute, h) + hop_contribs(p, rails, sc, minute, n).subrange(
            hop_contribs(p, rails, sc, minute, h).len() as int,
            hop_contribs(p, rails, sc, minute, n).len() as int,
        ),
        hop_contribs(p, rails, sc, minute, h).len() <= hop_contribs(p, rails, sc, minute, n).len(),
    decreases n - h,
{
    if h < n {
        lemma_hop_contribs_prefix(p, rails, sc, minute, h, (n - 1) as nat);
        let a = hop_contribs(p, rails, sc, minute, h);
        let m = hop_contribs(p, rails, sc, minute, (n - 1) as nat);
        let z = hop_contribs(p, rails, sc, minute, n);
        assert(z == m || z == m.push(z.last()));
        assert(z =~= a + z.subrange(a.len() as int, z.len() as int));
    } else {
        let a = hop_contribs(p, rails, sc, minute, h);
        assert(a =~= a + a.subrange(a.len() as int, a.len() as int));
    }
}

// ---------------------------------------------------------------------------
// The executable check.

/// Sums over the active payments that the rail and SLA checks need.
pub struct ActiveTotals {
    pub volume: u128,
    pub overdue: u128,
    pub overdue_volume: u128,
    pub flight_volume: Vec<u128>,
    pub flight_hops: Vec<u128>,
}

pub open spec fn active_sums_fit(st: State) -> bool {
    &&& amounts(st.active@) <= u128::MAX
    &&& overdue(st.active@) <= u128::MAX
    &&& overdue_amounts(st.active@) <= u128::MAX
    &&& forall|i: int|
        0 <= i < st.rails@.len() ==> #[trigger] flight_amounts(st.active@, st.rails@, i) <= u128::MAX
            && flight_count(st.active@, st.rails@, i) <= u128::MAX
}

fn zeros(n: usize) -> (r: Vec<u128>)
    ensures
        r@.len() == n,
        forall|i: int| 0 <= i < n ==> r@[i] == 0,
{
    let mut r: Vec<u128> = Vec::new();
    let mut i: usize = 0;
    while i < n
        invariant
            i <= n,
            r@.len() == i,
            forall|k: int| 0 <= k < i ==> r@[k] == 0,
        decreases n - i,
    {
        r.push(0);
        i += 1;
    }
    r
}

#[verifier::rlimit(60)]
fn check_active(st: &State, sc: &Scenario) -> (r: Result<ActiveTotals, SimulationError>)
    ensures
        r is Ok <==> active_ok(*st, *sc) && active_sums_fit(*st),
        r matches Ok(t) ==> {
            &&& t.volume == amounts(st.active@)
            &&& t.overdue == overdue(st.active@)
            &&& t.overdue_volume == overdue_amounts(st.active@)
            &&& t.flight_volume@.len() == st.rails@.len()
            &&& t.flight_hops@.len() == st.rails@.len()
            &&& forall|i: int|
                0 <= i < st.rails@.len() ==> t.flight_volume@[i] == flight_amounts(st.active@, st.rails@, i)
                    && t.flight_hops@[i] == flight_count(st.active@, st.rails@, i)
        },
{
    let ghost a = st.active@;
    let ghost rs = st.rails@;
    if st.active.len() > sc.max_active_payments {
        return Err(SimulationError::Invariant("active storage bound"));
    }
    let mut volume: u128 = 0;
    let mut overdue_n: u128 = 0;
    let mut overdue_volume: u128 = 0;
    let mut flight_volume = zeros(st.rails.len());
    let mut flight_hops = zeros(st.rails.len());
    let mut last: u128 = 0;
    let mut k: usize = 0;
    while k < st.active.len()
        invariant
            a == st.active@,
            rs == st.rails@,
            st.active@.len() <= sc.max_active_payments,
            k <= a.len(),
            last == prev_sequence(a, k as int),
            forall|j: int| 0 <= j < k ==> payment_ok(#[trigger] a[j], prev_sequence(a, j), *st),
            volume == amounts(a.take(k as int)),
            overdue_n == overdue(a.take(k as int)),
            overdue_volume == overdue_amounts(a.take(k as int)),
            flight_volume@.len() == rs.len(),
            flight_hops@.len() == rs.len(),
            forall|i: int|
                0 <= i < rs.len() ==> flight_volume@[i] == flight_amounts(a.take(k as int), rs, i)
                    && flight_hops@[i] == flight_count(a.take(k as int), rs, i),
        decreases a.len() - k,
    {
        proof {
            lemma_take_step(a, k as int);
            lemma_amounts_prefix(a, k as int + 1);
        }
        let p = &st.active[k];
        let in_order = p.sequence > last && p.sequence <= st.metrics.generated;
        if !in_order {
            return Err(SimulationError::Invariant("active sequence order"));
        }
        last = p.sequence;
        if !(p.arrived_at < st.next_minute && p.deadline >= p.arrived_at) {
            return Err(SimulationError::Invariant("active time order"));
        }
        if p.sla_failed != (p.deadline < st.next_minute) {
            return Err(SimulationError::Invariant("deadline failure recorded exactly once"));
        }
        let amount = p.payment.amount_cents as u128;
        if bump(&mut volume, amount, "active volume invariant").is_err() {
            return Err(SimulationError::ArithmeticOverflow("active volume invariant"));
        }
        if p.sla_failed {
            if p.in_flight_until.is_none() {
                return Err(SimulationError::Invariant("overdue active work must be draining"));
            }
            if bump(&mut overdue_n, 1, "overdue count invariant").is_err() {
                return Err(SimulationError::ArithmeticOverflow("overdue count invariant"));
            }
            if bump(&mut overdue_volume, amount, "overdue volume invariant").is_err() {
                return Err(SimulationError::ArithmeticOverflow("overdue volume invariant"));
            }
        }
        match &p.route {
            Some(route) => {
                if p.next_hop >= route.hops.len() {
                    return Err(SimulationError::Invariant("terminal route removed"));
                }
            },
            None => {
                if !(p.next_hop == 0 && p.in_flight_until.is_none()) {
                    return Err(SimulationError::Invariant("unrouted work cannot execute"));
                }
            },
        }
        let ghost fr = flight_rail(*p, rs);
        match p.in_flight_until {
            Some(arrival) => {
                if arrival < st.next_minute {
                    return Err(SimulationError::Invariant("due settlement not skipped"));
                }
                let id = match &p.route {
                    Some(route) => &route.hops[p.next_hop].rail_id,
                    None => {
                        return Err(SimulationError::Invariant("unrouted work cannot execute"));
                    },
                };
                let i = match rail_index(&st.rails, id) {
                    Some(i) => i,
                    None => {
                        return Err(SimulationError::Invariant("validated route rail"));
                    },
                };
                assert(fr == Some(i as int));
                proof {
                    lemma_flight_prefix(a, rs, i as int, k as int + 1);
                }
                let mut v = flight_volume[i];
                if bump(&mut v, amount, "in-flight volume invariant").is_err() {
                    return Err(SimulationError::ArithmeticOverflow("in-flight volume invariant"));
                }
                flight_volume.set(i, v);
                let mut h = flight_hops[i];
                if bump(&mut h, 1, "in-flight count invariant").is_err() {
                    return Err(SimulationError::ArithmeticOverflow("in-flight count invariant"));
                }
                flight_hops.set(i, h);
            },
            None => {
                assert(fr is None);
            },
        }
        assert(payment_ok(a[k as int], prev_sequence(a, k as int), *st));
        k += 1;
    }
    proof {
        assert(a.take(k as int) =~= a);
        assert forall|i: int| 0 <= i < st.rails@.len() implies #[trigger] flight_amounts(st.active@, st.rails@, i)
            <= u128::MAX && flight_count(st.active@, st.rails@, i) <= u128::MAX by {
            assert(flight_volume@[i] == flight_amounts(a, rs, i));
            assert(flight_hops@[i] == flight_count(a, rs, i));
        }
        assert(active_sums_fit(*st));
        assert(active_ok(*st, *sc));
    }
    Ok(ActiveTotals { volume, overdue: overdue_n, overdue_volume, flight_volume, flight_hops })
}


/// The reserved-strategy checks on one payment, adding its future budgeted
/// departures to `expected`.
#[verifier::rlimit(60)]
fn check_reserved_payment(
    st: &State,
    sc: &Scenario,
    k: usize,
    minute: u128,
    expected: &mut Reservations,
) -> (r: Result<(), SimulationError>)
    requires
        k < st.active@.len(),
        st.rails@.len() == sc.services@.len(),
        sc.services@.len() == sc.network.rails@.len(),
        forall|i: int| 0 <= i < sc.services@.len() ==> (#[trigger] sc.services@[i]).period_minutes > 0,
    ensures
        ({
            let p = st.active@[k as int];
            let add = match p.route {
                Some(route) => hop_contribs(p, st.rails@, *sc, minute, route.hops@.len()),
                None => Seq::empty(),
            };
            &&& r is Ok <==> reserved_payment_ok(p, st.rails@, *sc) && forall|rl: usize, t: u128|
                #[trigger] slot_booked(old(expected).slots@, rl, t) + contrib_sum(add, rl, t) <= u128::MAX
            &&& r is Ok ==> forall|rl: usize, t: u128|
                #[trigger] slot_booked(final(expected).slots@, rl, t) == slot_booked(old(expected).slots@, rl, t)
                    + contrib_sum(add, rl, t)
            &&& r is Err && reserved_payment_ok(p, st.rails@, *sc) ==> exists|rl: usize, t: u128|
                #[trigger] slot_booked(old(expected).slots@, rl, t) + contrib_sum(add, rl, t) > u128::MAX
        }),
{
    let p = &st.active[k];
    let ghost rs = st.rails@;
    let route = match &p.route {
        None => {
            if p.planned_departures.is_some() {
                return Err(SimulationError::Invariant("times without route"));
            }
            assert forall|rl: usize, t: u128|
                #[trigger] slot_booked(expected.slots@, rl, t) + contrib_sum(Seq::<SlotBooking>::empty(), rl, t)
                    <= u128::MAX by {
                lemma_slot_booked_bounds(expected.slots@, rl, t);
            }
            return Ok(());
        },
        Some(route) => route,
    };
    let times = match &p.planned_departures {
        None => {
            return Err(SimulationError::Invariant("reserved route without times"));
        },
        Some(times) => times,
    };
    if times.len() != route.hops.len() {
        return Err(SimulationError::Invariant("reserved timestamp count"));
    }
    if p.sla_failed {
        return Err(SimulationError::Invariant("accepted reservation missed deadline"));
    }
    let amount = p.payment.amount_cents as u128;
    let ghost start = expected.slots@;
    let mut ready: u128 = p.arrived_at;
    let mut h: usize = 0;
    while h < route.hops.len()
        invariant
            p == &st.active@[k as int],
            p.route == Some(*route),
            p.planned_departures == Some(*times),
            times@.len() == route.hops@.len(),
            rs == st.rails@,
            st.rails@.len() == sc.services@.len(),
            sc.services@.len() == sc.network.rails@.len(),
            forall|i: int| 0 <= i < sc.services@.len() ==> (#[trigger] sc.services@[i]).period_minutes > 0,
            amount == p.payment.amount_cents,
            start == old(expected).slots@,
            h <= route.hops@.len(),
            reserved_ready(*p, rs, *sc, h as nat) == Some(ready as int),
            forall|rl: usize, t: u128|
                #[trigger] slot_booked(expected.slots@, rl, t) == slot_booked(start, rl, t) + contrib_sum(
                    hop_contribs(*p, rs, *sc, minute, h as nat),
                    rl,
                    t,
                ),
        decreases route.hops@.len() - h,
    {
        let r = match rail_index(&st.rails, &route.hops[h].rail_id) {
            Some(r) => r,
            None => {
                proof {
                    lemma_ready_stays_none(*p, rs, *sc, (h + 1) as nat, route.hops@.len());
                }
                return Err(SimulationError::Invariant("validated route rail"));
            },
        };
        let departure = times[h];
        if !(departure >= ready && sc.services[r].is_open(departure)) {
            proof {
                lemma_ready_stays_none(*p, rs, *sc, (h + 1) as nat, route.hops@.len());
            }
            return Err(SimulationError::Invariant("reserved temporal feasibility"));
        }
        ready = match departure.checked_add(sc.network.rails[r].settlement_minutes as u128) {
            Some(v) => v,
            None => {
                proof {
                    lemma_ready_stays_none(*p, rs, *sc, (h + 1) as nat, route.hops@.len());
                }
                return Err(SimulationError::ArithmeticOverflow("reservation arrival"));
            },
        };
        let ghost before = expected.slots@;
        let ghost prior = hop_contribs(*p, rs, *sc, minute, h as nat);
        if departure > minute && sc.services[r].capacity_per_minute_cents.is_some() {
            let b = SlotBooking { rail: r, minute: departure, amount };
            assert(hop_contribs(*p, rs, *sc, minute, (h + 1) as nat) == prior.push(b));
            if !expected.add_slot(r, departure, amount) {
                proof {
                    assert(prior.push(b).drop_last() =~= prior);
                    assert(contrib_sum(prior.push(b), r, departure) == contrib_sum(prior, r, departure) + amount);
                    let all = hop_contribs(*p, rs, *sc, minute, route.hops@.len());
                    lemma_hop_contribs_prefix(*p, rs, *sc, minute, (h + 1) as nat, route.hops@.len());
                    let hc = hop_contribs(*p, rs, *sc, minute, (h + 1) as nat);
                    lemma_contrib_sum_append(hc, all.subrange(hc.len() as int, all.len() as int), r, departure);
                    assert(slot_booked(before, r, departure) == slot_booked(start, r, departure) + contrib_sum(prior, r, departure));
                    assert(slot_booked(start, r, departure) + contrib_sum(all, r, departure) > u128::MAX);
                }
                return Err(SimulationError::ArithmeticOverflow("reservation accounting"));
            }
            proof {
                assert forall|rl: usize, t: u128|
                    #[trigger] slot_booked(expected.slots@, rl, t) == slot_booked(start, rl, t) + contrib_sum(
                        hop_contribs(*p, rs, *sc, minute, (h + 1) as nat),
                        rl,
                        t,
                    ) by {
                    assert(slot_booked(before, rl, t) == slot_booked(start, rl, t) + contrib_sum(prior, rl, t));
                    assert(prior.push(b).drop_last() =~= prior);
                }
            }
        } else {
            assert(hop_contribs(*p, rs, *sc, minute, (h + 1) as nat) == prior);
        }
        h += 1;
    }
    if ready > p.deadline {
        return Err(SimulationError::Invariant("reserved final deadline"));
    }
    proof {
        let all = hop_contribs(*p, rs, *sc, minute, route.hops@.len());
        assert forall|rl: usize, t: u128|
            #[trigger] slot_booked(start, rl, t) + contrib_sum(all, rl, t) <= u128::MAX by {
            assert(slot_booked(expected.slots@, rl, t) == slot_booked(start, rl, t) + contrib_sum(all, rl, t));
            lemma_slot_booked_bounds(expected.slots@, rl, t);
        }
    }
    Ok(())
}


proof fn lemma_rail_contribs_beyond(rails: Seq<RailState>, sc: Scenario, minute: u128, n: nat, rl: usize, t: u128)
    requires
        rl >= n,
    ensures
        contrib_sum(rail_contribs(rails, sc, minute, n), rl, t) == 0,
    decreases n,
{
    if n > 0 {
        lemma_rail_contribs_beyond(rails, sc, minute, (n - 1) as nat, rl, t);
        let before = rail_contribs(rails, sc, minute, (n - 1) as nat);
        let used = rails[n - 1].used_this_minute_cents;
        if sc.services@[n - 1].capacity_per_minute_cents is Some && used > 0 {
            assert(before.push(SlotBooking { rail: (n - 1) as usize, minute, amount: used }).drop_last() =~= before);
        }
    }
}

proof fn lemma_payment_contribs_prefix(a: Seq<ActivePayment>, rails: Seq<RailState>, sc: Scenario, minute: u128, k: int, rl: usize, t: u128)
    requires
        0 <= k <= a.len(),
    ensures
        0 <= contrib_sum(payment_contribs(a.take(k), rails, sc, minute), rl, t) <= contrib_sum(payment_contribs(a, rails, sc, minute), rl, t),
    decreases a.len(),
{
    if k < a.len() {
        assert(a.drop_last().take(k) =~= a.take(k));
        lemma_payment_contribs_prefix(a.drop_last(), rails, sc, minute, k, rl, t);
        let p = a.last();
        let add = match p.route {
            Some(route) => hop_contribs(p, rails, sc, minute, route.hops@.len()),
            None => Seq::empty(),
        };
        assert(payment_contribs(a, rails, sc, minute) == payment_contribs(a.drop_last(), rails, sc, minute) + add);
        lemma_contrib_sum_append(payment_contribs(a.drop_last(), rails, sc, minute), add, rl, t);
    } else {
        assert(a.take(k) =~= a);
        lemma_contrib_sum_append(Seq::empty(), payment_contribs(a, rails, sc, minute), rl, t);
        assert(Seq::<SlotBooking>::empty() + payment_contribs(a, rails, sc, minute) =~= payment_contribs(a, rails, sc, minute));
    }
}

proof fn lemma_booked_present(s: Seq<SlotBooking>, rl: usize, t: u128)
    requires
        slot_booked(s, rl, t) != 0,
    ensures
        exists|j: int| 0 <= j < s.len() && (#[trigger] s[j]).rail == rl && s[j].minute == t,
{
    if forall|j: int| 0 <= j < s.len() ==> !((#[trigger] s[j]).rail == rl && s[j].minute == t) {
        lemma_slot_booked_absent(s, rl, t);
    }
}

/// The reserved-strategy accounting: feasible timed routes, bookings equal to
/// the expected ones, and no budget exceeded.
#[verifier::rlimit(80)]
fn check_reserved(st: &State, sc: &Scenario) -> (r: Result<(), SimulationError>)
    requires
        st.rails@.len() == sc.services@.len(),
        sc.services@.len() == sc.network.rails@.len(),
        forall|i: int| 0 <= i < sc.services@.len() ==> (#[trigger] sc.services@[i]).period_minutes > 0,
    ensures
        r is Ok <==> reserved_ok(*st, *sc),
{
    let ghost a = st.active@;
    let ghost rs = st.rails@;
    let minute: u128 = if st.next_minute == 0 { 0 } else { st.next_minute - 1 };
    assert(minute == last_minute(*st));
    let ghost rail_part = rail_contribs(rs, *sc, minute, rs.len());
    let mut expected = Reservations::empty();
    let mut i: usize = 0;
    while i < st.rails.len()
        invariant
            rs == st.rails@,
            st.rails@.len() == sc.services@.len(),
            i <= rs.len(),
            forall|rl: usize, t: u128|
                #[trigger] slot_booked(expected.slots@, rl, t) == contrib_sum(rail_contribs(rs, *sc, minute, i as nat), rl, t),
        decreases rs.len() - i,
    {
        let used = st.rails[i].used_this_minute_cents;
        let ghost before = expected.slots@;
        let ghost prior = rail_contribs(rs, *sc, minute, i as nat);
        if sc.services[i].capacity_per_minute_cents.is_some() && used > 0 {
            proof {
                lemma_rail_contribs_beyond(rs, *sc, minute, i as nat, i, minute);
            }
            let ok = expected.add_slot(i, minute, used);
            if !ok {
                return Err(SimulationError::ArithmeticOverflow("reservation accounting"));
            }
            proof {
                let b = SlotBooking { rail: i, minute, amount: used };
                assert(rail_contribs(rs, *sc, minute, (i + 1) as nat) == prior.push(b));
                assert(prior.push(b).drop_last() =~= prior);
                assert forall|rl: usize, t: u128|
                    #[trigger] slot_booked(expected.slots@, rl, t) == contrib_sum(rail_contribs(rs, *sc, minute, (i + 1) as nat), rl, t) by {
                    assert(slot_booked(before, rl, t) == contrib_sum(prior, rl, t));
                }
            }
        } else {
            assert(rail_contribs(rs, *sc, minute, (i + 1) as nat) == prior);
        }
        i += 1;
    }
    let mut k: usize = 0;
    while k < st.active.len()
        invariant
            a == st.active@,
            rs == st.rails@,
            st.rails@.len() == sc.services@.len(),
            sc.services@.len() == sc.network.rails@.len(),
            forall|i: int| 0 <= i < sc.services@.len() ==> (#[trigger] sc.services@[i]).period_minutes > 0,
            minute == last_minute(*st),
            rail_part == rail_contribs(rs, *sc, minute, rs.len()),
            k <= a.len(),
            forall|j: int| 0 <= j < k ==> reserved_payment_ok(#[trigger] a[j], rs, *sc),
            forall|rl: usize, t: u128|
                #[trigger] slot_booked(expected.slots@, rl, t) == contrib_sum(rail_part, rl, t) + contrib_sum(
                    payment_contribs(a.take(k as int), rs, *sc, minute),
                    rl,
                    t,
                ),
        decreases a.len() - k,
    {
        let ghost before = expected.slots@;
        let ghost p = a[k as int];
        let ghost add = match p.route {
            Some(route) => hop_contribs(p, rs, *sc, minute, route.hops@.len()),
            None => Seq::empty(),
        };
        proof {
            assert(a.take(k + 1).drop_last() =~= a.take(k as int));
            assert(a.take(k + 1).last() == p);
            assert(payment_contribs(a.take(k + 1), rs, *sc, minute) == payment_contribs(a.take(k as int), rs, *sc, minute) + add);
        }
        match check_reserved_payment(st, sc, k, minute, &mut expected) {
            Ok(()) => {},
            Err(e) => {
                proof {
                    if reserved_payment_ok(p, rs, *sc) {
                        let (rl, t) = choose|rl: usize, t: u128|
                            #[trigger] slot_booked(before, rl, t) + contrib_sum(add, rl, t) > u128::MAX;
                        lemma_contrib_sum_append(payment_contribs(a.take(k as int), rs, *sc, minute), add, rl, t);
                        lemma_payment_contribs_prefix(a, rs, *sc, minute, k + 1, rl, t);
                        lemma_contrib_sum_append(rail_part, payment_contribs(a, rs, *sc, minute), rl, t);
                        assert(contrib_sum(expected_bookings(*st, *sc), rl, t) > u128::MAX);
                    }
                }
                return Err(e);
            },
        }
        proof {
            assert forall|rl: usize, t: u128|
                #[trigger] slot_booked(expected.slots@, rl, t) == contrib_sum(rail_part, rl, t) + contrib_sum(
                    payment_contribs(a.take(k + 1), rs, *sc, minute),
                    rl,
                    t,
                ) by {
                lemma_contrib_sum_append(payment_contribs(a.take(k as int), rs, *sc, minute), add, rl, t);
            }
        }
        k += 1;
    }
    let ghost exp = expected_bookings(*st, *sc);
    proof {
        assert(a.take(k as int) =~= a);
        assert forall|rl: usize, t: u128| #[trigger] slot_booked(expected.slots@, rl, t) == contrib_sum(exp, rl, t) by {
            lemma_contrib_sum_append(rail_part, payment_contribs(a, rs, *sc, minute), rl, t);
        }
        assert forall|rl: usize, t: u128| #[trigger] contrib_sum(exp, rl, t) <= u128::MAX by {
            lemma_slot_booked_bounds(expected.slots@, rl, t);
        }
    }
    let mut j: usize = 0;
    while j < expected.slots.len()
        invariant
            exp == expected_bookings(*st, *sc),
            forall|rl: usize, t: u128| #[trigger] slot_booked(expected.slots@, rl, t) == contrib_sum(exp, rl, t),
            j <= expected.slots@.len(),
            forall|q: int| 0 <= q < j ==> slot_booked(st.reservations.slots@, (#[trigger] expected.slots@[q]).rail, expected.slots@[q].minute)
                == slot_booked(expected.slots@, expected.slots@[q].rail, expected.slots@[q].minute),
        decreases expected.slots@.len() - j,
    {
        let e = expected.slots[j];
        if st.reservations.slot_used(e.rail, e.minute) != expected.slot_used(e.rail, e.minute) {
            return Err(SimulationError::Invariant("reservation accounting"));
        }
        j += 1;
    }
    let mut j: usize = 0;
    while j < st.reservations.slots.len()
        invariant
            exp == expected_bookings(*st, *sc),
            forall|rl: usize, t: u128| #[trigger] slot_booked(expected.slots@, rl, t) == contrib_sum(exp, rl, t),
            forall|q: int| 0 <= q < expected.slots@.len() ==> slot_booked(st.reservations.slots@, (#[trigger] expected.slots@[q]).rail, expected.slots@[q].minute)
                == slot_booked(expected.slots@, expected.slots@[q].rail, expected.slots@[q].minute),
            j <= st.reservations.slots@.len(),
            forall|q: int| 0 <= q < j ==> slot_booked(st.reservations.slots@, (#[trigger] st.reservations.slots@[q]).rail, st.reservations.slots@[q].minute)
                == slot_booked(expected.slots@, st.reservations.slots@[q].rail, st.reservations.slots@[q].minute),
        decreases st.reservations.slots@.len() - j,
    {
        let e = st.reservations.slots[j];
        if st.reservations.slot_used(e.rail, e.minute) != expected.slot_used(e.rail, e.minute) {
            return Err(SimulationError::Invariant("reservation accounting"));
        }
        j += 1;
    }
    proof {
        assert forall|rl: usize, t: u128| #[trigger] slot_booked(st.reservations.slots@, rl, t) == contrib_sum(exp, rl, t) by {
            let x = slot_booked(st.reservations.slots@, rl, t);
            let y = slot_booked(expected.slots@, rl, t);
            if x != y {
                if x != 0 {
                    lemma_booked_present(st.reservations.slots@, rl, t);
                    let q = choose|q: int| 0 <= q < st.reservations.slots@.len() && (#[trigger] st.reservations.slots@[q]).rail == rl && st.reservations.slots@[q].minute == t;
                } else {
                    lemma_booked_present(expected.slots@, rl, t);
                    let q = choose|q: int| 0 <= q < expected.slots@.len() && (#[trigger] expected.slots@[q]).rail == rl && expected.slots@[q].minute == t;
                }
            }
        }
    }
    let mut j: usize = 0;
    while j < expected.slots.len()
        invariant
            exp == expected_bookings(*st, *sc),
            forall|rl: usize, t: u128| #[trigger] slot_booked(expected.slots@, rl, t) == contrib_sum(exp, rl, t),
            forall|rl: usize, t: u128| #[trigger] slot_booked(st.reservations.slots@, rl, t) == contrib_sum(exp, rl, t),
            forall|i: int| 0 <= i < st.active@.len() ==> reserved_payment_ok(#[trigger] st.active@[i], st.rails@, *sc),
            forall|rl: usize, t: u128| #[trigger] contrib_sum(exp, rl, t) <= u128::MAX,
            j <= expected.slots@.len(),
            forall|q: int|
                0 <= q < j && (#[trigger] expected.slots@[q]).rail < sc.services@.len() && sc.services@[expected.slots@[q].rail as int].capacity_per_minute_cents is Some
                    ==> slot_booked(expected.slots@, expected.slots@[q].rail, expected.slots@[q].minute)
                    <= sc.services@[expected.slots@[q].rail as int].capacity_per_minute_cents->0,
        decreases expected.slots@.len() - j,
    {
        let e = expected.slots[j];
        if e.rail < sc.services.len() {
            match sc.services[e.rail].capacity_per_minute_cents {
                Some(c) => {
                    if expected.slot_used(e.rail, e.minute) > c as u128 {
                        return Err(SimulationError::Invariant("future capacity exceeded"));
                    }
                },
                None => {},
            }
        }
        j += 1;
    }
    proof {
        assert forall|rl: usize, t: u128|
            rl < sc.services@.len() && sc.services@[rl as int].capacity_per_minute_cents is Some
                implies #[trigger] contrib_sum(exp, rl, t) <= sc.services@[rl as int].capacity_per_minute_cents->0 by {
            if slot_booked(expected.slots@, rl, t) != 0 {
                lemma_booked_present(expected.slots@, rl, t);
                let q = choose|q: int| 0 <= q < expected.slots@.len() && (#[trigger] expected.slots@[q]).rail == rl && expected.slots@[q].minute == t;
            }
        }
    }
    Ok(())
}


fn sum4(a: u128, b: u128, c: u128, d: u128) -> (r: Option<u128>)
    ensures
        r matches Some(v) ==> v == a + b + c + d,
        r is None <==> a + b + c + d > u128::MAX,
{
    match a.checked_add(b) {
        None => None,
        Some(x) => match x.checked_add(c) {
            None => None,
            Some(y) => y.checked_add(d),
        },
    }
}

proof fn lemma_consistent_sums_fit(st: State, sc: Scenario)
    requires
        consistent(st, sc),
    ensures
        active_sums_fit(st),
{
    let a = st.active@;
    lemma_amounts_prefix(a, a.len() as int);
    assert(a.take(a.len() as int) =~= a);
    assert forall|i: int| 0 <= i < st.rails@.len() implies #[trigger] flight_amounts(st.active@, st.rails@, i)
        <= u128::MAX && flight_count(st.active@, st.rails@, i) <= u128::MAX by {
        lemma_flight_prefix(a, st.rails@, i, a.len() as int);
        assert(rail_ok(st, sc, i));
    }
}

/// Check every accounting invariant of a state; `Ok` exactly when it is consistent.
#[verifier::rlimit(80)]
pub fn check_state(st: &State, sc: &Scenario) -> (r: Result<(), SimulationError>)
    requires
        st.rails@.len() == sc.services@.len(),
        sc.services@.len() == sc.network.rails@.len(),
        forall|i: int| 0 <= i < sc.services@.len() ==> (#[trigger] sc.services@[i]).period_minutes > 0,
    ensures
        r is Ok <==> consistent(*st, *sc),
{
    let totals = match check_active(st, sc) {
        Ok(t) => t,
        Err(e) => {
            proof {
                if consistent(*st, *sc) {
                    lemma_consistent_sums_fit(*st, *sc);
                }
            }
            return Err(e);
        },
    };
    match sc.strategy {
        RoutingStrategy::Reserved { .. } => {
            check_reserved(st, sc)?;
        },
        RoutingStrategy::CheapestStatic => {},
    }
    let m = st.metrics;
    let count = st.active.len() as u128;
    match sum4(m.completed, m.expired, m.rejected, count) {
        Some(v) => require(m.generated == v, "payment count conservation")?,
        None => {
            return Err(SimulationError::ArithmeticOverflow("invariant total"));
        },
    }
    match sum4(m.completed_volume_cents, m.expired_volume_cents, m.rejected_volume_cents, totals.volume) {
        Some(v) => require(m.generated_volume_cents == v, "payment principal conservation")?,
        None => {
            return Err(SimulationError::ArithmeticOverflow("invariant total"));
        },
    }
    match sum4(m.rejected, m.expired, m.completed_late, totals.overdue) {
        Some(v) => require(m.sla_failures == v, "SLA count conservation")?,
        None => {
            return Err(SimulationError::ArithmeticOverflow("invariant total"));
        },
    }
    match sum4(m.rejected_volume_cents, m.expired_volume_cents, m.completed_late_volume_cents, totals.overdue_volume) {
        Some(v) => require(m.sla_failed_volume_cents == v, "SLA principal conservation")?,
        None => {
            return Err(SimulationError::ArithmeticOverflow("invariant total"));
        },
    }
    require(
        m.completed_late <= m.completed && m.completed_late_volume_cents <= m.completed_volume_cents,
        "late completion subset",
    )?;
    require(
        m.accepted_routes <= m.generated - m.rejected && m.completed <= m.accepted_routes,
        "accepted route count",
    )?;
    assert(conserved(*st));
    let ghost rs = st.rails@;
    let mut departed: u128 = 0;
    let mut settled: u128 = 0;
    let mut departed_hops: u128 = 0;
    let mut settled_hops: u128 = 0;
    let mut cost: u128 = 0;
    let mut i: usize = 0;
    while i < st.rails.len()
        invariant
            rs == st.rails@,
            st.rails@.len() == sc.services@.len(),
            totals.flight_volume@.len() == rs.len(),
            totals.flight_hops@.len() == rs.len(),
            forall|q: int|
                0 <= q < rs.len() ==> totals.flight_volume@[q] == flight_amounts(st.active@, rs, q)
                    && totals.flight_hops@[q] == flight_count(st.active@, rs, q),
            i <= rs.len(),
            forall|q: int| 0 <= q < i ==> #[trigger] rail_ok(*st, *sc, q),
            departed == rails_sum(rs.take(i as int), |s: RailState| s.departed_principal_cents),
            settled == rails_sum(rs.take(i as int), |s: RailState| s.settled_principal_cents),
            departed_hops == rails_sum(rs.take(i as int), |s: RailState| s.departed_hops),
            settled_hops == rails_sum(rs.take(i as int), |s: RailState| s.settled_hops),
            cost == rails_sum(rs.take(i as int), |s: RailState| s.routing_cost_cents),
        decreases rs.len() - i,
    {
        let rail = &st.rails[i];
        proof {
            assert(rs.take(i + 1).drop_last() =~= rs.take(i as int));
            assert(rs.take(i + 1).last() == rs[i as int]);
        }
        match rail.settled_principal_cents.checked_add(totals.flight_volume[i]) {
            Some(v) => {
                if rail.departed_principal_cents != v {
                    assert(!rail_ok(*st, *sc, i as int));
                    return Err(SimulationError::Invariant("rail principal conservation"));
                }
            },
            None => {
                assert(!rail_ok(*st, *sc, i as int));
                return Err(SimulationError::ArithmeticOverflow("invariant total"));
            },
        }
        match rail.settled_hops.checked_add(totals.flight_hops[i]) {
            Some(v) => {
                if rail.departed_hops != v {
                    assert(!rail_ok(*st, *sc, i as int));
                    return Err(SimulationError::Invariant("rail hop conservation"));
                }
            },
            None => {
                assert(!rail_ok(*st, *sc, i as int));
                return Err(SimulationError::ArithmeticOverflow("invariant total"));
            },
        }
        if !(rail.open || rail.used_this_minute_cents == 0) {
            assert(!rail_ok(*st, *sc, i as int));
            return Err(SimulationError::Invariant("closed rail usage"));
        }
        match sc.services[i].capacity_per_minute_cents {
            Some(limit) => {
                if rail.used_this_minute_cents > limit as u128 {
                    assert(!rail_ok(*st, *sc, i as int));
                    return Err(SimulationError::Invariant("minute capacity exceeded"));
                }
            },
            None => {},
        }
        assert(rail_ok(*st, *sc, i as int));
        proof {
            lemma_rails_sum_prefix(rs, |s: RailState| s.departed_principal_cents, i + 1);
            lemma_rails_sum_prefix(rs, |s: RailState| s.settled_principal_cents, i + 1);
            lemma_rails_sum_prefix(rs, |s: RailState| s.departed_hops, i + 1);
            lemma_rails_sum_prefix(rs, |s: RailState| s.settled_hops, i + 1);
            lemma_rails_sum_prefix(rs, |s: RailState| s.routing_cost_cents, i + 1);
        }
        bump(&mut departed, rail.departed_principal_cents, "rail aggregate invariant")?;
        bump(&mut settled, rail.settled_principal_cents, "rail aggregate invariant")?;
        bump(&mut departed_hops, rail.departed_hops, "rail aggregate invariant")?;
        bump(&mut settled_hops, rail.settled_hops, "rail aggregate invariant")?;
        bump(&mut cost, rail.routing_cost_cents, "rail aggregate invariant")?;
        i += 1;
    }
    proof {
        assert(rs.take(i as int) =~= rs);
    }
    require(
        departed == m.departed_principal_cents && settled == m.settled_principal_cents
            && departed_hops == m.departed_hops && settled_hops == m.settled_hops
            && cost == m.routing_cost_cents,
        "rail/global aggregate equality",
    )
}

} // verus!
