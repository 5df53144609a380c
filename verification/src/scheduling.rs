//! Exact routing and execution planning over a finite synthetic timetable.
pub mod walks;
pub mod assign;
pub mod plan;

use vstd::prelude::*;
use crate::batch::RailUsage;
use crate::network::{
    Network, NetworkView, Payment, PaymentView, ValidationError, ErrorView, either, first_problem,
    network_problem, all_ids_problem, payment_ids, payments_problem, lemma_first_problem_stable,
};
use crate::routing::RouteHop;
use crate::text::{copy_string, same_text};
use crate::batch::id_sorted;
use crate::order::is_perm;
use crate::joint::JointCand;
use crate::scheduling::walks::{TStep, TimedCand, table, timetable_ok, timed_walk, timed_feasible, count_res, sound, listed};
use crate::scheduling::assign::{slots_distinct, linked, schedule_ok, sched_optimal, ws_of};
use crate::scheduling::plan::{timetable_of, schedule_reports, resolve, payment_schedules, joint_of, build_schedule_plan};

verus! {

/// Arrival/release time is the first minute the payment can execute.
#[derive(Debug, Clone, PartialEq, Eq)]
pub struct TimedPayment {
    pub payment: Payment,
    pub earliest_execution_minute: u64,
    /// Inclusive absolute completion deadline; None adds no absolute deadline.
    /// The payment's max_delivery_minutes also limits elapsed time from release,
    /// including waiting at the sender and intermediaries.
    pub deadline_minute: Option<u64>,
}

/// One rail-wide departure opportunity. Missing minutes are closed: there is no
/// implicit timetable or horizon expansion. All member pairs share this slot.
#[derive(Debug, Clone, PartialEq, Eq)]
pub struct RailDeparture {
    pub rail_id: String,
    pub departure_minute: u64,
    /// None inherits the rail's fee. The effective fee is charged per hop.
    pub fee_cents: Option<u64>,
    /// None inherits the rail's latency. Later departures may arrive earlier.
    pub settlement_minutes: Option<u32>,
    /// Principal budget for this departure, shared across all pairs/directions.
    /// None is unlimited; Some(0) closes the slot.
    pub capacity_cents: Option<u64>,
}

/// Effective inputs and exact timestamps make the returned plan replayable.
#[derive(Debug, Clone, PartialEq, Eq, PartialOrd, Ord)]
pub struct ScheduledHop {
    pub transfer: RouteHop,
    pub departure_minute: u64,
    pub arrival_minute: u64,
    pub fee_cents: u64,
}

#[derive(Debug, Clone, PartialEq, Eq)]
pub struct ScheduledRoute {
    pub hops: Vec<ScheduledHop>,
    pub total_fee_cents: u128,
    /// Final arrival minus release, including every wait. Not summed hop latency.
    pub elapsed_minutes: u64,
}

#[derive(Debug, Clone, PartialEq, Eq)]
pub struct ScheduledPaymentRoute {
    pub payment_id: String,
    pub route: ScheduledRoute,
}

#[derive(Debug, Clone, PartialEq, Eq)]
pub struct DepartureUsage {
    pub rail_id: String,
    pub departure_minute: u64,
    pub principal_cents: u128,
}

#[derive(Debug, Clone, PartialEq, Eq)]
pub struct ScheduledBatchPlan {
    /// Exactly the supplied payments, sorted by payment ID.
    pub assignments: Vec<ScheduledPaymentRoute>,
    /// Every network rail, including unused rails, sorted by rail ID.
    pub rail_usage: Vec<RailUsage>,
    /// Every supplied slot, including unused slots, sorted by rail ID then time.
    pub departure_usage: Vec<DepartureUsage>,
    pub total_fee_cents: u128,
    pub total_elapsed_minutes: u128,
}

// ---------------------------------------------------------------------------
// Views.

pub struct TimedPaymentView {
    pub payment: PaymentView,
    pub release: u64,
    pub deadline: Option<u64>,
}

impl View for TimedPayment {
    type V = TimedPaymentView;

    open spec fn view(&self) -> TimedPaymentView {
        TimedPaymentView {
            payment: self.payment@,
            release: self.earliest_execution_minute,
            deadline: self.deadline_minute,
        }
    }
}

pub struct DepartureView {
    pub rail: Seq<char>,
    pub minute: u64,
    pub fee: Option<u64>,
    pub settle: Option<u32>,
    pub cap: Option<u64>,
}

impl View for RailDeparture {
    type V = DepartureView;

    open spec fn view(&self) -> DepartureView {
        DepartureView {
            rail: self.rail_id@,
            minute: self.departure_minute,
            fee: self.fee_cents,
            settle: self.settlement_minutes,
            cap: self.capacity_cents,
        }
    }
}

pub open spec fn timed_views(v: Seq<TimedPayment>) -> Seq<TimedPaymentView> {
    v.map_values(|t: TimedPayment| t@)
}

pub open spec fn departure_views(v: Seq<RailDeparture>) -> Seq<DepartureView> {
    v.map_values(|d: RailDeparture| d@)
}

/// The underlying instructions of timed payments.
pub open spec fn instructions(ts: Seq<TimedPaymentView>) -> Seq<PaymentView> {
    Seq::new(ts.len(), |i: int| ts[i].payment)
}

// ---------------------------------------------------------------------------
// Which rail a departure names.

pub open spec fn has_rail(n: NetworkView, id: Seq<char>) -> bool {
    exists|r: int| 0 <= r < n.rails.len() && n.rails[r].id == id
}

/// `r` is the first rail named `id`.
pub open spec fn first_rail_with(n: NetworkView, id: Seq<char>, r: int) -> bool {
    &&& 0 <= r < n.rails.len()
    &&& n.rails[r].id == id
    &&& forall|j: int| 0 <= j < r ==> n.rails[j].id != id
}

pub open spec fn rail_at(n: NetworkView, id: Seq<char>) -> int {
    choose|r: int| first_rail_with(n, id, r)
}

pub proof fn lemma_rail_at(n: NetworkView, id: Seq<char>, r: int)
    requires
        first_rail_with(n, id, r),
    ensures
        rail_at(n, id) == r,
{
    let q = rail_at(n, id);
    assert(first_rail_with(n, id, q));
    if q < r {
        assert(n.rails[q].id != id);
    } else if r < q {
        assert(n.rails[r].id != id);
    }
}

/// The position of the first rail named `id`.
pub fn rail_position(network: &Network, id: &String) -> (r: Option<usize>)
    ensures
        r matches Some(k) ==> first_rail_with(network@, id@, k as int) && rail_at(network@, id@) == k,
        r is None ==> !has_rail(network@, id@),
{
    let mut i: usize = 0;
    while i < network.rails.len()
        invariant
            i <= network.rails@.len(),
            forall|j: int| 0 <= j < i ==> network@.rails[j].id != id@,
        decreases network.rails@.len() - i,
    {
        if same_text(&network.rails[i].id, id) {
            proof {
                lemma_rail_at(network@, id@, i as int);
            }
            return Some(i);
        }
        i += 1;
    }
    None
}

/// The settlement latency a departure applies: its own, else its rail's.
pub open spec fn effective_settle(n: NetworkView, d: DepartureView) -> int {
    match d.settle {
        Some(s) => s as int,
        None => n.rails[rail_at(n, d.rail)].settlement_minutes as int,
    }
}

/// What the scan of departures refuses at position `i`, all earlier ones accepted.
pub open spec fn departure_problem_at(n: NetworkView, ds: Seq<DepartureView>, i: int) -> Option<ErrorView> {
    let d = ds[i];
    if !has_rail(n, d.rail) {
        Some(ErrorView::UnknownDepartureRail { rail: d.rail })
    } else if exists|j: int| 0 <= j < i && (#[trigger] ds[j]).rail == d.rail && ds[j].minute == d.minute {
        Some(ErrorView::DuplicateDeparture { rail: d.rail, minute: d.minute })
    } else if d.minute + effective_settle(n, d) > u64::MAX {
        Some(ErrorView::ArrivalOverflow { rail: d.rail, minute: d.minute })
    } else {
        None
    }
}

pub open spec fn departure_problems(n: NetworkView, ds: Seq<DepartureView>) -> spec_fn(int) -> Option<ErrorView> {
    |i: int| departure_problem_at(n, ds, i)
}

/// What `validate_schedule` refuses, in the order it checks: the network, the
/// timed payments' identifiers, each instruction, then each departure.
pub open spec fn schedule_problem(n: NetworkView, ts: Seq<TimedPaymentView>, ds: Seq<DepartureView>) -> Option<ErrorView> {
    either(
        network_problem(n),
        either(
            all_ids_problem("timed payment"@, payment_ids(instructions(ts))),
            either(
                payments_problem(n, instructions(ts), ts.len() as int),
                first_problem(departure_problems(n, ds), ds.len() as int),
            ),
        ),
    )
}

fn timed_ids(payments: &Vec<TimedPayment>) -> (r: Vec<String>)
    ensures
        crate::network::texts(r@) == payment_ids(instructions(timed_views(payments@))),
{
    let ghost ids = payment_ids(instructions(timed_views(payments@)));
    let mut r: Vec<String> = Vec::new();
    let mut i: usize = 0;
    while i < payments.len()
        invariant
            ids == payment_ids(instructions(timed_views(payments@))),
            i <= payments@.len(),
            r@.len() == i,
            crate::network::texts(r@) == ids.take(i as int),
        decreases payments@.len() - i,
    {
        let ghost before = r@;
        r.push(copy_string(&payments[i].payment.id));
        assert forall|j: int| 0 <= j <= i implies #[trigger] crate::network::texts(r@)[j] == ids.take(i + 1)[j] by {
            if j < i {
                assert(r@[j] == before[j]);
                assert(crate::network::texts(before)[j] == ids.take(i as int)[j]);
            }
        }
        assert(crate::network::texts(r@) =~= ids.take(i + 1));
        i += 1;
    }
    assert(ids.take(i as int) =~= ids);
    r
}

/// Validate all inputs, even for an empty or infeasible batch. A deadline before
/// release is valid but infeasible. Unknown rails, a repeated (rail, minute) slot
/// and an arrival past `u64::MAX` are malformed.
pub fn validate_schedule(
    network: &Network,
    payments: &Vec<TimedPayment>,
    departures: &Vec<RailDeparture>,
) -> (r: Result<(), ValidationError>)
    ensures
        r is Ok <==> schedule_problem(network@, timed_views(payments@), departure_views(departures@)) is None,
        r matches Err(e) ==> Some(e@) == schedule_problem(
            network@,
            timed_views(payments@),
            departure_views(departures@),
        ),
{
    let ghost n = network@;
    let ghost ts = timed_views(payments@);
    let ghost ds = departure_views(departures@);
    let ghost qs = instructions(ts);
    match network.validate() {
        Ok(()) => {},
        Err(e) => {
            return Err(e);
        },
    }
    let ids = timed_ids(payments);
    match crate::network::unique_ids(&crate::text::text("timed payment"), &ids) {
        Ok(()) => {},
        Err(e) => {
            return Err(e);
        },
    }
    let mut i: usize = 0;
    while i < payments.len()
        invariant
            n == network@,
            ts == timed_views(payments@),
            qs == instructions(ts),
            crate::network::valid_network(n),
            all_ids_problem("timed payment"@, payment_ids(qs)) is None,
            i <= payments@.len(),
            payments_problem(n, qs, i as int) is None,
        decreases payments@.len() - i,
    {
        match payments[i].payment.validate(network) {
            Ok(()) => {},
            Err(e) => {
                proof {
                    assert(qs[i as int] == payments@[i as int].payment@);
                    assert(crate::network::payment_problems(n, qs)(i as int) == crate::network::payment_problem(n, qs[i as int]));
                    assert(payments_problem(n, qs, i + 1) == Some(e@));
                    lemma_first_problem_stable(
                        crate::network::payment_problems(n, qs),
                        i + 1,
                        payments@.len() as int,
                    );
                }
                return Err(e);
            },
        }
        assert(qs[i as int] == payments@[i as int].payment@);
        i += 1;
    }
    assert(payments_problem(n, qs, ts.len() as int) is None);
    assert(forall|m: int| #[trigger] first_problem(departure_problems(n, ds), m) == first_problem(departure_problems(n, ds), m) ==>
        schedule_problem(n, ts, ds) == first_problem(departure_problems(n, ds), ds.len() as int));
    let mut k: usize = 0;
    while k < departures.len()
        invariant
            n == network@,
            crate::network::valid_network(n),
            all_ids_problem("timed payment"@, payment_ids(qs)) is None,
            payments_problem(n, qs, ts.len() as int) is None,
            ds == departure_views(departures@),
            k <= departures@.len(),
            first_problem(departure_problems(n, ds), k as int) is None,
            ts == timed_views(payments@),
            schedule_problem(n, ts, ds) == first_problem(departure_problems(n, ds), ds.len() as int),
        decreases departures@.len() - k,
    {
        let slot = &departures[k];
        let ghost d = ds[k as int];
        assert(d == slot@);
        let ghost f = departure_problems(n, ds);
        assert(f(k as int) == departure_problem_at(n, ds, k as int));
        let rail = match rail_position(network, &slot.rail_id) {
            Some(r) => r,
            None => {
                proof {
                    assert(first_problem(f, k + 1) == f(k as int));
                    lemma_first_problem_stable(f, k + 1, departures@.len() as int);
                }
                return Err(ValidationError::UnknownDepartureRail { rail: copy_string(&slot.rail_id) });
            },
        };
        assert(n.rails[rail as int].id == d.rail);
        assert(has_rail(n, d.rail));
        let mut j: usize = 0;
        while j < k
            invariant
                ds == departure_views(departures@),
                n == network@,
                f == departure_problems(n, ds),
                first_problem(f, k as int) is None,
                has_rail(n, d.rail),
                k < departures@.len(),
                d == ds[k as int],
                d == departures@[k as int]@,
                slot@ == d,
                ts == timed_views(payments@),
                schedule_problem(n, ts, ds) == first_problem(f, ds.len() as int),
                j <= k,
                forall|q: int| 0 <= q < j ==> !((#[trigger] ds[q]).rail == d.rail && ds[q].minute == d.minute),
            decreases k - j,
        {
            assert(ds[j as int] == departures@[j as int]@);
            if same_text(&departures[j].rail_id, &slot.rail_id) && departures[j].departure_minute == slot.departure_minute {
                proof {
                    assert(ds[j as int].rail == d.rail && ds[j as int].minute == d.minute);
                    assert(departure_problem_at(n, ds, k as int) is Some);
                    assert(first_problem(f, k + 1) == f(k as int));
                    lemma_first_problem_stable(f, k + 1, departures@.len() as int);
                }
                return Err(
                    ValidationError::DuplicateDeparture {
                        rail: copy_string(&slot.rail_id),
                        minute: slot.departure_minute,
                    },
                );
            }
            j += 1;
        }
        let settle: u32 = match slot.settlement_minutes {
            Some(s) => s,
            None => network.rails[rail].settlement_minutes,
        };
        assert(settle == effective_settle(n, d));
        if slot.departure_minute.checked_add(settle as u64).is_none() {
            proof {
                assert(first_problem(f, k + 1) == f(k as int));
                lemma_first_problem_stable(f, k + 1, departures@.len() as int);
            }
            return Err(
                ValidationError::ArrivalOverflow { rail: copy_string(&slot.rail_id), minute: slot.departure_minute },
            );
        }
        assert(departure_problem_at(n, ds, k as int) is None);
        k += 1;
    }
    Ok(())
}

// ---------------------------------------------------------------------------
// Exact joint timed planning.

/// The outcome `optimize_schedule` reports for the payments taken in order `order`.
pub open spec fn schedule_outcome(
    n: NetworkView,
    ts: Seq<TimedPaymentView>,
    ds: Seq<DepartureView>,
    order: Seq<usize>,
    res: Option<ScheduledBatchPlan>,
) -> bool {
    let tt = timetable_of(n, ds);
    let qs = Seq::new(order.len(), |k: int| ts[order[k] as int]);
    &&& id_sorted(instructions(ts), order)
    &&& match res {
        None => forall|ws: Seq<Seq<TStep>>| !#[trigger] schedule_ok(tt, qs, ws),
        Some(plan) => exists|ws: Seq<Seq<TStep>>|
            #[trigger] sched_optimal(tt, qs, ws) && schedule_reports(tt, ds, qs, ws, plan),
    }
}

/// Find a globally minimum-fee full execution plan within the supplied timetable.
/// `Ok(None)` means infeasible; malformed input returns a validation error. An
/// empty valid batch returns a zero plan. Nothing is changed and no payment executes.
///
/// Ties minimize summed elapsed minutes from release, total hops, then the timed
/// hop sequences in payment-identifier order. Every feasible simple path and
/// departure choice is retained before exact joint selection; there is no cutoff
/// or approximation.
pub fn optimize_schedule(
    network: &Network,
    payments: &Vec<TimedPayment>,
    departures: &Vec<RailDeparture>,
) -> (r: Result<Option<ScheduledBatchPlan>, ValidationError>)
    requires
        payments@.len() * network@.institutions.len() <= usize::MAX,
        network@.rails.len() + departures@.len() <= usize::MAX,
    ensures
        r is Err <==> schedule_problem(network@, timed_views(payments@), departure_views(departures@)) is Some,
        r matches Err(e) ==> Some(e@) == schedule_problem(
            network@,
            timed_views(payments@),
            departure_views(departures@),
        ),
        r matches Ok(res) ==> exists|order: Seq<usize>|
            #[trigger] schedule_outcome(network@, timed_views(payments@), departure_views(departures@), order, res),
{
    let ghost n = network@;
    let ghost ts = timed_views(payments@);
    let ghost ds = departure_views(departures@);
    match validate_schedule(network, payments, departures) {
        Ok(()) => {},
        Err(e) => {
            return Err(e);
        },
    }
    let ghost ps = instructions(ts);
    assert(crate::network::valid_network(n));
    assert(payments_problem(n, ps, ts.len() as int) is None);
    let ids = timed_ids(payments);
    let order = crate::order::id_order(&ids);
    let ghost qs = Seq::new(order@.len(), |k: int| ts[order@[k] as int]);
    proof {
        assert forall|k: int| 0 <= k < qs.len() implies #[trigger] crate::network::payment_problem(n, qs[k].payment) is None by {
            assert(order@[k] < ps.len());
            crate::batch::lemma_first_problem_none(crate::network::payment_problems(n, ps), ps.len() as int, order@[k] as int);
            assert(ps[order@[k] as int] == qs[k].payment);
        }
        assert forall|a: int, b: int| 0 <= a < b < order@.len() implies !crate::text::text_lt(ps[(#[trigger] order@[b]) as int].id, ps[(#[trigger] order@[a]) as int].id) by {
            assert(crate::network::texts(ids@)[order@[b] as int] == ps[order@[b] as int].id);
            assert(crate::network::texts(ids@)[order@[a] as int] == ps[order@[a] as int].id);
        }
        assert(id_sorted(ps, order@));
    }
    let (slots, caps) = resolve(network, departures);
    let ghost tt = table(network, &slots, &caps);
    assert(tt == timetable_of(n, ds));
    let count = payments.len();
    let mut cands: Vec<Vec<TimedCand>> = Vec::new();
    let mut jcs: Vec<Vec<JointCand>> = Vec::new();
    let mut k: usize = 0;
    while k < count
        invariant
            n == network@,
            ts == timed_views(payments@),
            ps == instructions(ts),
            schedule_problem(n, ts, ds) is None,
            ds == departure_views(departures@),
            count == payments@.len(),
            tt == table(network, &slots, &caps),
            tt == timetable_of(n, ds),
            timetable_ok(tt),
            slots_distinct(tt),
            order@.len() == count,
            is_perm(order@, count as int),
            id_sorted(ps, order@),
            qs == Seq::new(order@.len(), |k: int| ts[order@[k] as int]),
            forall|q: int| 0 <= q < qs.len() ==> #[trigger] crate::network::payment_problem(n, qs[q].payment) is None,
            k <= count,
            cands@.len() == k,
            jcs@.len() == k,
            forall|i: int| 0 <= i < k ==> sound(tt, qs[i], #[trigger] cands@[i]@),
            forall|i: int| 0 <= i < k ==> crate::order::ordered(#[trigger] cands@[i]@),
            forall|i: int, w: Seq<TStep>|
                0 <= i < k && #[trigger] timed_walk(tt, qs[i], w) ==> listed(tt, qs[i], cands@[i]@, w),
            forall|i: int| 0 <= i < k ==> (#[trigger] cands@[i])@.len() == jcs@[i]@.len() && cands@[i]@.len() <= usize::MAX,
            forall|i: int, j: int|
                0 <= i < k && 0 <= j < cands@[i]@.len() ==> {
                    let c = #[trigger] cands@[i]@[j];
                    let d = jcs@[i]@[j];
                    &&& d.fee == c.route.total_fee_cents
                    &&& d.elapsed == c.route.elapsed_minutes
                    &&& d.hops == c.route.hops@.len()
                    &&& d.usage@ == c.usage@
                },
        decreases count - k,
    {
        let payment = &payments[order[k]];
        proof {
            assert(payment@ == qs[k as int]);
        }
        let list = payment_schedules(network, &slots, &caps, payment);
        let list_len = list.len();
        assert(list@.len() <= usize::MAX);
        if list.len() == 0 {
            proof {
                assert forall|ws: Seq<Seq<TStep>>| !#[trigger] schedule_ok(tt, qs, ws) by {
                    if schedule_ok(tt, qs, ws) {
                        let w = ws[k as int];
                        assert(timed_feasible(tt, qs[k as int], w));
                        assert forall|q: int| 0 <= q < tt.caps.len() && tt.caps[q] is Some implies qs[k as int].payment.amount_cents
                            * #[trigger] count_res(tt, w, q) <= tt.caps[q]->0 by {
                            crate::scheduling::assign::lemma_own_fits(tt, qs, ws, k as int);
                        }
                        assert(timed_walk(tt, qs[k as int], w));
                    }
                }
                assert(schedule_outcome(n, ts, ds, order@, None));
            }
            return Ok(None);
        }
        let mut jl: Vec<JointCand> = Vec::new();
        let mut j: usize = 0;
        while j < list.len()
            invariant
                j <= list@.len(),
                jl@.len() == j,
                forall|q: int| 0 <= q < j ==> {
                    let c = #[trigger] list@[q];
                    let d = jl@[q];
                    &&& d.fee == c.route.total_fee_cents
                    &&& d.elapsed == c.route.elapsed_minutes
                    &&& d.hops == c.route.hops@.len()
                    &&& d.usage@ == c.usage@
                },
            decreases list@.len() - j,
        {
            jl.push(joint_of(&list[j]));
            j += 1;
        }
        cands.push(list);
        jcs.push(jl);
        k += 1;
    }
    let ghost cs = cands@.map_values(|v: Vec<TimedCand>| v@);
    let ghost jc = crate::joint::cands_view(jcs);
    let ghost inst = n.institutions.len() as int;
    proof {
        assert forall|i: int| 0 <= i < cs.len() implies (#[trigger] cs[i]).len() == jc[i].len() && cs[i].len() <= usize::MAX by {
            assert(cs[i] == cands@[i]@);
            assert(jc[i] == jcs@[i]@);
        }
        assert forall|i: int| 0 <= i < cs.len() implies sound(tt, qs[i], #[trigger] cs[i]) by {
            assert(cs[i] == cands@[i]@);
        }
        assert forall|i: int| 0 <= i < cs.len() implies crate::order::ordered(#[trigger] cs[i]) by {
            assert(cs[i] == cands@[i]@);
        }
        assert forall|i: int, w: Seq<TStep>| 0 <= i < cs.len() && #[trigger] timed_walk(tt, qs[i], w) implies listed(tt, qs[i], cs[i], w) by {
            assert(cs[i] == cands@[i]@);
        }
        assert forall|i: int, j: int| 0 <= i < cs.len() && 0 <= j < cs[i].len() implies {
            let c = #[trigger] cs[i][j];
            let d = jc[i][j];
            &&& d.fee == c.route.total_fee_cents
            &&& d.elapsed == c.route.elapsed_minutes
            &&& d.hops == c.route.hops@.len()
            &&& d.usage@ == c.usage@
        } by {
            assert(cs[i] == cands@[i]@);
            assert(jc[i] == jcs@[i]@);
            assert(cs[i][j] == cands@[i]@[j]);
        }
        assert(linked(tt, qs, cs, jc));
        assert(n.institutions.len() == network.institutions@.len());
        crate::scheduling::assign::lemma_bounded(tt, qs, cs, jc);
    }
    match crate::joint::select(&jcs, &caps, Ghost((inst * 0xffff_ffff_ffff_ffff) as int), Ghost(inst)) {
        None => {
            proof {
                assert forall|ws: Seq<Seq<TStep>>| !#[trigger] schedule_ok(tt, qs, ws) by {
                    crate::scheduling::assign::lemma_none_transfer(tt, qs, cs, jc, ws);
                }
                assert(schedule_outcome(n, ts, ds, order@, None));
            }
            Ok(None)
        },
        Some(best) => {
            let ghost x = best.choice@;
            proof {
                crate::scheduling::assign::lemma_optimal_transfer(tt, qs, cs, jc, x);
            }
            let ghost ws = ws_of(tt, qs, cs, x);
            assert(qs =~= Seq::new(order@.len(), |k: int| payments@[order@[k] as int]@));
            assert(cs == cands@.map_values(|v: Vec<TimedCand>| v@));
            assert(crate::joint::best_ok(jc, tt.caps, Some(best)));
            assert(caps@.len() == n.rails.len() + ds.len());
            let plan = build_schedule_plan(
                network,
                payments,
                departures,
                &order,
                &cands,
                &jcs,
                &best,
                Ghost(tt),
                Ghost(qs),
                Ghost(cs),
            );
            proof {
                assert(sched_optimal(tt, qs, ws));
                assert(schedule_reports(tt, ds, qs, ws, plan));
                assert(schedule_outcome(n, ts, ds, order@, Some(plan)));
            }
            Ok(Some(plan))
        },
    }
}

} // verus!
