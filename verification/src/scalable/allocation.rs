//! Several deterministic orders of bounded allocation in a shared residual
//! calendar, and the schedule plan a complete allocation describes.
use vstd::prelude::*;
use crate::batch::RailUsage;
use crate::network::{Network, Payment, ValidationError};
use crate::order::{Ordered, position_order, is_perm};
use crate::scheduling::{
    TimedPayment, RailDeparture, ScheduledHop, ScheduledRoute, ScheduledPaymentRoute, DepartureUsage,
    ScheduledBatchPlan, validate_schedule, schedule_problem, timed_views, departure_views,
};
use crate::scheduling::plan::DepKey;
use crate::scalable::{
    Router, Journey, Step, Reservations, Request, SearchLimits, SearchDiagnostics, PlanningResult, path_nodes,
    steps_fee, copy_journey, lemma_distinct_below, lemma_steps_fee_bound, compare_steps, step_less, slot_booked, rail_booked, count_slot, count_rail,
};
use crate::text::{copy_string, text_lt, compare_text, lemma_text_lt_irreflexive, lemma_text_lt_transitive};

verus! {

impl Router {
    /// `j` is a complete, simple, timely journey for payment `p` released at
    /// `release` and due by `deadline`.
    pub open spec fn serves(&self, p: Payment, release: u128, deadline: u128, j: Journey) -> bool {
        exists|src: usize, tgt: usize|
            src < self.nodes@.len() && tgt < self.nodes@.len() && self.nodes@[src as int]@ == p.sender@
                && self.nodes@[tgt as int]@ == p.receiver@ && #[trigger] self.journey_ok(
                j,
                src,
                tgt,
                release,
                deadline,
                p.amount_cents,
            )
    }
}

/// A served journey is shorter than there are institutions, charges at most one
/// `u64` fee per hop, and delivers between release and deadline.
#[verifier::spinoff_prover]
#[verifier::rlimit(40)]
pub proof fn lemma_served_bounds(router: Router, p: Payment, release: u128, deadline: u128, j: Journey)
    requires
        router.wf(),
        router.serves(p, release, deadline, j),
    ensures
        0 < j.steps@.len() < router.nodes@.len(),
        j.fee <= j.steps@.len() * 0xffff_ffff_ffff_ffff,
        release <= j.steps@.last().arrival <= deadline,
{
    let (src, tgt) = choose|src: usize, tgt: usize|
        src < router.nodes@.len() && tgt < router.nodes@.len() && router.nodes@[src as int]@ == p.sender@
            && router.nodes@[tgt as int]@ == p.receiver@ && #[trigger] router.journey_ok(
            j,
            src,
            tgt,
            release,
            deadline,
            p.amount_cents,
        );
    let steps = j.steps@;
    let nodes = path_nodes(steps, src);
    assert forall|k: int| 0 <= k < nodes.len() implies #[trigger] nodes[k] < router.nodes@.len() by {
        if k > 0 {
            let s = steps[k - 1];
            assert(router.hop_ok(s, p.amount_cents));
            let m = choose|m: int| 0 <= m < router.members@[s.rail as int]@.len() && router.members@[s.rail as int]@[m] == s.to;
            assert(router.members@[s.rail as int]@[m] < router.nodes@.len());
        }
    }
    lemma_distinct_below(nodes, router.nodes@.len() as int);
    lemma_steps_fee_bound(steps);
    lemma_arrival_after_release(router, steps, src, release, p.amount_cents, steps.len() - 1);
}

proof fn lemma_arrival_after_release(router: Router, steps: Seq<Step>, src: usize, release: u128, amount: u64, k: int)
    requires
        router.chain(steps, src, release, amount),
        0 <= k < steps.len(),
    ensures
        release <= steps[k].arrival,
    decreases k,
{
    assert(router.hop_ok(steps[k], amount));
    if k > 0 {
        lemma_arrival_after_release(router, steps, src, release, amount, k - 1);
    }
}

/// A sort key for allocation orders: two numbers, then an identifier.
pub struct RequestKey {
    pub first: u128,
    pub second: u128,
    pub id: String,
}

impl Ordered for RequestKey {
    open spec fn precedes(&self, other: &Self) -> bool {
        ||| self.first < other.first
        ||| self.first == other.first && self.second < other.second
        ||| self.first == other.first && self.second == other.second && text_lt(self.id@, other.id@)
    }

    fn before(&self, other: &Self) -> (r: bool) {
        if self.first != other.first {
            return self.first < other.first;
        }
        if self.second != other.second {
            return self.second < other.second;
        }
        compare_text(&self.id, &other.id) < 0
    }

    proof fn precedes_irreflexive(a: Self) {
        lemma_text_lt_irreflexive(a.id@);
    }

    proof fn precedes_transitive(a: Self, b: Self, c: Self) {
        if text_lt(a.id@, b.id@) && text_lt(b.id@, c.id@) {
            lemma_text_lt_transitive(a.id@, b.id@, c.id@);
        }
    }
}

fn same_order(a: &Vec<usize>, b: &Vec<usize>) -> (r: bool)
    ensures
        r == (a@ == b@),
{
    if a.len() != b.len() {
        return false;
    }
    let mut i: usize = 0;
    while i < a.len()
        invariant
            a@.len() == b@.len(),
            i <= a@.len(),
            forall|k: int| 0 <= k < i ==> a@[k] == b@[k],
        decreases a@.len() - i,
    {
        if a[i] != b[i] {
            return false;
        }
        i += 1;
    }
    assert(a@ =~= b@);
    true
}

fn has_order(orders: &Vec<Vec<usize>>, order: &Vec<usize>) -> (r: bool)
    ensures
        r == exists|k: int| 0 <= k < orders@.len() && (#[trigger] orders@[k])@ == order@,
{
    let mut i: usize = 0;
    while i < orders.len()
        invariant
            i <= orders@.len(),
            forall|k: int| 0 <= k < i ==> (#[trigger] orders@[k])@ != order@,
        decreases orders@.len() - i,
    {
        if same_order(&orders[i], order) {
            return true;
        }
        i += 1;
    }
    false
}

fn reorder_by(requests: &Vec<Request>, by_deadline: bool) -> (r: Vec<usize>)
    ensures
        is_perm(r@, requests@.len() as int),
{
    let mut keys: Vec<RequestKey> = Vec::new();
    let mut i: usize = 0;
    while i < requests.len()
        invariant
            i <= requests@.len(),
            keys@.len() == i,
        decreases requests@.len() - i,
    {
        let r = &requests[i];
        let amount = r.payment.amount_cents as u128;
        let (first, second) = if by_deadline { (r.deadline, amount) } else { (amount, r.deadline) };
        keys.push(RequestKey { first, second, id: copy_string(&r.payment.id) });
        i += 1;
    }
    position_order(&keys)
}

/// What one entry books on a departure: its amount for each of its hops there.
pub open spec fn slot_term(amount: u64, plan: Option<Journey>, rail: usize, minute: u128) -> int {
    match plan {
        Some(j) => amount * count_slot(j.steps@, rail, minute),
        None => 0,
    }
}

/// What one entry books on a rail's batch budget.
pub open spec fn rail_term(amount: u64, plan: Option<Journey>, rail: usize) -> int {
    match plan {
        Some(j) => amount * count_rail(j.steps@, rail),
        None => 0,
    }
}

/// What the served entries together book on a departure.
pub open spec fn joint_slot(requests: Seq<Request>, plans: Seq<Option<Journey>>, rail: usize, minute: u128) -> int
    decreases plans.len(),
{
    if plans.len() == 0 {
        0
    } else {
        joint_slot(requests, plans.drop_last(), rail, minute) + slot_term(
            requests[plans.len() - 1].payment.amount_cents,
            plans.last(),
            rail,
            minute,
        )
    }
}

/// What the served entries together book on a rail's batch budget.
pub open spec fn joint_rail(requests: Seq<Request>, plans: Seq<Option<Journey>>, rail: usize) -> int
    decreases plans.len(),
{
    if plans.len() == 0 {
        0
    } else {
        joint_rail(requests, plans.drop_last(), rail) + rail_term(requests[plans.len() - 1].payment.amount_cents, plans.last(), rail)
    }
}

/// Together with the initial bookings, the served entries stay within every
/// limited departure and batch budget that they use.
pub open spec fn fits_jointly(router: Router, initial: Reservations, requests: Seq<Request>, plans: Seq<Option<Journey>>) -> bool {
    &&& forall|r: usize, m: u128|
        #![trigger joint_slot(requests, plans, r, m)]
        joint_slot(requests, plans, r, m) > 0 ==> match router.slot_cap(r, m) {
            Some(c) => slot_booked(initial.slots@, r, m) + joint_slot(requests, plans, r, m) <= c,
            None => true,
        }
    &&& forall|r: usize|
        #![trigger joint_rail(requests, plans, r)]
        r < router.rails@.len() && joint_rail(requests, plans, r) > 0 ==> match router.rails@[r as int].batch_capacity_cents {
            Some(c) => rail_booked(initial.rails@, r) + joint_rail(requests, plans, r) <= c,
            None => true,
        }
}

proof fn lemma_terms_nonneg(amount: u64, plan: Option<Journey>, rail: usize, minute: u128)
    ensures
        slot_term(amount, plan, rail, minute) >= 0,
        rail_term(amount, plan, rail) >= 0,
{
    if let Some(j) = plan {
        lemma_count_nonneg(j.steps@, rail, minute);
        assert(amount * count_slot(j.steps@, rail, minute) >= 0) by (nonlinear_arith)
            requires count_slot(j.steps@, rail, minute) >= 0;
        assert(amount * count_rail(j.steps@, rail) >= 0) by (nonlinear_arith)
            requires count_rail(j.steps@, rail) >= 0;
    }
}

/// Replacing one entry changes the joint bookings by the difference of its terms.
proof fn lemma_joint_update(requests: Seq<Request>, plans: Seq<Option<Journey>>, i: int, v: Option<Journey>, rail: usize, minute: u128)
    requires
        0 <= i < plans.len(),
    ensures
        joint_slot(requests, plans.update(i, v), rail, minute) == joint_slot(requests, plans, rail, minute)
            - slot_term(requests[i].payment.amount_cents, plans[i], rail, minute) + slot_term(
            requests[i].payment.amount_cents,
            v,
            rail,
            minute,
        ),
        joint_rail(requests, plans.update(i, v), rail) == joint_rail(requests, plans, rail) - rail_term(
            requests[i].payment.amount_cents,
            plans[i],
            rail,
        ) + rail_term(requests[i].payment.amount_cents, v, rail),
        joint_slot(requests, plans, rail, minute) >= 0,
        joint_rail(requests, plans, rail) >= 0,
    decreases plans.len(),
{
    let u = plans.update(i, v);
    lemma_terms_nonneg(requests[plans.len() - 1].payment.amount_cents, plans.last(), rail, minute);
    if i == plans.len() - 1 {
        assert(u.drop_last() =~= plans.drop_last());
        if plans.len() > 1 {
            lemma_joint_update(requests, plans.drop_last(), 0, plans[0], rail, minute);
            assert(plans.drop_last().update(0, plans[0]) =~= plans.drop_last());
        }
    } else {
        assert(u.drop_last() =~= plans.drop_last().update(i, v));
        lemma_joint_update(requests, plans.drop_last(), i, v, rail, minute);
    }
}

proof fn lemma_joint_none(requests: Seq<Request>, plans: Seq<Option<Journey>>, rail: usize, minute: u128)
    requires
        forall|q: int| 0 <= q < plans.len() ==> plans[q] is None,
    ensures
        joint_slot(requests, plans, rail, minute) == 0,
        joint_rail(requests, plans, rail) == 0,
    decreases plans.len(),
{
    if plans.len() > 0 {
        lemma_joint_none(requests, plans.drop_last(), rail, minute);
    }
}

/// A step sequence that uses a departure (or rail) has a step there.
proof fn lemma_count_witness(steps: Seq<Step>, rail: usize, minute: u128)
    ensures
        count_slot(steps, rail, minute) > 0 ==> exists|k: int|
            0 <= k < steps.len() && (#[trigger] steps[k]).rail == rail && steps[k].departure == minute,
        count_rail(steps, rail) > 0 ==> exists|k: int| 0 <= k < steps.len() && (#[trigger] steps[k]).rail == rail,
    decreases steps.len(),
{
    if steps.len() > 0 {
        lemma_count_witness(steps.drop_last(), rail, minute);
        if count_slot(steps.drop_last(), rail, minute) > 0 {
            let k = choose|k: int| 0 <= k < steps.drop_last().len() && (#[trigger] steps.drop_last()[k]).rail == rail
                && steps.drop_last()[k].departure == minute;
            assert(steps[k] == steps.drop_last()[k]);
        }
        if count_rail(steps.drop_last(), rail) > 0 {
            let k = choose|k: int| 0 <= k < steps.drop_last().len() && (#[trigger] steps.drop_last()[k]).rail == rail;
            assert(steps[k] == steps.drop_last()[k]);
        }
        assert(steps[steps.len() - 1] == steps.last());
    }
}

/// Booking a journey that fits keeps every budget that grew within its limit.
proof fn lemma_reserve_keeps_budgets(router: Router, initial: Reservations, book: Reservations, trial: Reservations, j: Journey, amount: u64)
    requires
        router.books_fit(book, j.steps@, amount),
        forall|i: int| 0 <= i < j.steps@.len() ==> (#[trigger] j.steps@[i]).rail < router.rails@.len(),
        forall|r: usize, m: u128| #[trigger] slot_booked(trial.slots@, r, m) == router.slot_after(book, j.steps@, amount, r, m),
        forall|r: usize| #[trigger] rail_booked(trial.rails@, r) == router.rail_after(book, j.steps@, amount, r),
        forall|r: usize, m: u128| #[trigger] slot_booked(book.slots@, r, m) > slot_booked(initial.slots@, r, m) ==> match router.slot_cap(r, m) {
            Some(c) => slot_booked(book.slots@, r, m) <= c,
            None => true,
        },
        forall|r: usize| #[trigger] rail_booked(book.rails@, r) > rail_booked(initial.rails@, r) ==> r < router.rails@.len() && match router.rails@[r as int].batch_capacity_cents {
            Some(c) => rail_booked(book.rails@, r) <= c,
            None => true,
        },
        forall|r: usize, m: u128| #[trigger] slot_booked(book.slots@, r, m) >= slot_booked(initial.slots@, r, m),
    ensures
        forall|r: usize, m: u128| #[trigger] slot_booked(trial.slots@, r, m) > slot_booked(initial.slots@, r, m) ==> match router.slot_cap(r, m) {
            Some(c) => slot_booked(trial.slots@, r, m) <= c,
            None => true,
        },
        forall|r: usize| #[trigger] rail_booked(trial.rails@, r) > rail_booked(initial.rails@, r) ==> r < router.rails@.len() && match router.rails@[r as int].batch_capacity_cents {
            Some(c) => rail_booked(trial.rails@, r) <= c,
            None => true,
        },
{
    assert forall|r: usize, m: u128| #[trigger] slot_booked(trial.slots@, r, m) > slot_booked(initial.slots@, r, m) implies match router.slot_cap(r, m) {
        Some(c) => slot_booked(trial.slots@, r, m) <= c,
        None => true,
    } by {
        lemma_count_witness(j.steps@, r, m);
        lemma_count_nonneg(j.steps@, r, m);
        if router.slot_cap(r, m) is Some && count_slot(j.steps@, r, m) > 0 {
            let k = choose|k: int| 0 <= k < j.steps@.len() && (#[trigger] j.steps@[k]).rail == r && j.steps@[k].departure == m;
            assert(router.books_fit(book, j.steps@, amount));
            let s = j.steps@[k];
        } else if router.slot_cap(r, m) is Some {
            assert(amount * count_slot(j.steps@, r, m) == 0) by (nonlinear_arith)
                requires count_slot(j.steps@, r, m) == 0;
        }
    }
    assert forall|r: usize| #[trigger] rail_booked(trial.rails@, r) > rail_booked(initial.rails@, r) implies r < router.rails@.len() && match router.rails@[r as int].batch_capacity_cents {
        Some(c) => rail_booked(trial.rails@, r) <= c,
        None => true,
    } by {
        lemma_count_witness(j.steps@, r, 0);
        lemma_count_nonneg(j.steps@, r, 0);
        if r < router.rails@.len() && router.rails@[r as int].batch_capacity_cents is Some && count_rail(j.steps@, r) > 0 {
            let k = choose|k: int| 0 <= k < j.steps@.len() && (#[trigger] j.steps@[k]).rail == r;
            let s = j.steps@[k];
        } else if r < router.rails@.len() && router.rails@[r as int].batch_capacity_cents is Some {
            assert(amount * count_rail(j.steps@, r) == 0) by (nonlinear_arith)
                requires count_rail(j.steps@, r) == 0;
        }
    }
}

/// Every served entry of `plans` fits on top of the initial bookings.
pub open spec fn fit_initially(router: Router, initial: Reservations, requests: Seq<Request>, plans: Seq<Option<Journey>>) -> bool {
    forall|i: int|
        0 <= i < plans.len() ==> (#[trigger] plans[i] matches Some(j) ==> router.books_fit(
            initial,
            j.steps@,
            requests[i].payment.amount_cents,
        ))
}

/// A journey that fits a larger booking fits a smaller one.
proof fn lemma_books_fit_mono(router: Router, small: Reservations, large: Reservations, steps: Seq<Step>, amount: u64)
    requires
        router.books_fit(large, steps, amount),
        forall|r: usize, m: u128| #[trigger] slot_booked(large.slots@, r, m) >= slot_booked(small.slots@, r, m),
        forall|r: usize| #[trigger] rail_booked(large.rails@, r) >= rail_booked(small.rails@, r),
    ensures
        router.books_fit(small, steps, amount),
{
    assert forall|k: int| 0 <= k < steps.len() implies {
        let s = #[trigger] steps[k];
        &&& (router.rails@[s.rail as int].batch_capacity_cents matches Some(c) ==> rail_booked(small.rails@, s.rail)
            + amount * count_rail(steps, s.rail) <= c)
        &&& (router.slot_cap(s.rail, s.departure) matches Some(c) ==> slot_booked(small.slots@, s.rail, s.departure)
            + amount * count_slot(steps, s.rail, s.departure) <= c)
    } by {
        let s = steps[k];
        assert(slot_booked(large.slots@, s.rail, s.departure) >= slot_booked(small.slots@, s.rail, s.departure));
        assert(rail_booked(large.rails@, s.rail) >= rail_booked(small.rails@, s.rail));
    }
}

proof fn lemma_count_nonneg(steps: Seq<Step>, rail: usize, minute: u128)
    ensures
        count_slot(steps, rail, minute) >= 0,
        count_rail(steps, rail) >= 0,
    decreases steps.len(),
{
    if steps.len() > 0 {
        lemma_count_nonneg(steps.drop_last(), rail, minute);
    }
}

/// Every payment of a plan arrives by its deadline: the plan assigns each payment
/// once, and its release plus the elapsed minutes is at most its due minute.
pub open spec fn on_time_plan(plan: ScheduledBatchPlan, payments: Seq<TimedPayment>) -> bool {
    exists|order: Seq<usize>|
        #[trigger] is_perm(order, payments.len() as int) && forall|k: int|
            0 <= k < order.len() ==> {
                let a = #[trigger] plan.assignments@[k];
                let i = order[k] as int;
                &&& a.payment_id@ == payments[i].payment.id@
                &&& payments[i].earliest_execution_minute + a.route.elapsed_minutes <= due(payments[i])
            }
}

/// Journey order over the steps from the first that differs, then length, then fee.
pub open spec fn journey_order(a: Seq<Step>, b: Seq<Step>, fa: u128, fb: u128) -> bool
    decreases a.len(),
{
    if a.len() == 0 || b.len() == 0 {
        if a.len() != b.len() {
            a.len() < b.len()
        } else {
            fa < fb
        }
    } else if a[0] != b[0] {
        step_less(a[0], b[0])
    } else {
        journey_order(a.skip(1), b.skip(1), fa, fb)
    }
}

/// Two journeys with the same steps and fee.
pub open spec fn journey_eq(a: Journey, b: Journey) -> bool {
    a.fee == b.fee && a.steps@ == b.steps@
}

/// Lexicographic order on allocations; an unserved entry comes first.
pub open spec fn plans_order(a: Seq<Option<Journey>>, b: Seq<Option<Journey>>) -> bool
    decreases a.len(),
{
    if a.len() == 0 || b.len() == 0 {
        a.len() < b.len()
    } else {
        match (a[0], b[0]) {
            (None, Some(_)) => true,
            (Some(_), None) => false,
            (Some(x), Some(y)) => if !journey_eq(x, y) {
                journey_order(x.steps@, y.steps@, x.fee, y.fee)
            } else {
                plans_order(a.skip(1), b.skip(1))
            },
            (None, None) => plans_order(a.skip(1), b.skip(1)),
        }
    }
}

/// Journey order: steps lexicographically (fields in declaration order), then fee.
fn journey_before(a: &Journey, b: &Journey) -> (r: bool)
    ensures
        r == journey_order(a.steps@, b.steps@, a.fee, b.fee),
{
    let mut i: usize = 0;
    assert(a.steps@.skip(0) =~= a.steps@);
    assert(b.steps@.skip(0) =~= b.steps@);
    while i < a.steps.len() && i < b.steps.len()
        invariant
            i <= a.steps@.len(),
            i <= b.steps@.len(),
            journey_order(a.steps@, b.steps@, a.fee, b.fee) == journey_order(
                a.steps@.skip(i as int),
                b.steps@.skip(i as int),
                a.fee,
                b.fee,
            ),
        decreases a.steps@.len() - i,
    {
        assert(a.steps@.skip(i as int)[0] == a.steps@[i as int]);
        assert(b.steps@.skip(i as int)[0] == b.steps@[i as int]);
        let c = compare_steps(&a.steps[i], &b.steps[i]);
        if c != 0 {
            return c < 0;
        }
        assert(a.steps@.skip(i as int).skip(1) =~= a.steps@.skip(i + 1));
        assert(b.steps@.skip(i as int).skip(1) =~= b.steps@.skip(i + 1));
        i += 1;
    }
    if a.steps.len() != b.steps.len() {
        return a.steps.len() < b.steps.len();
    }
    a.fee < b.fee
}

fn journey_same(a: &Journey, b: &Journey) -> (r: bool)
    ensures
        r == journey_eq(*a, *b),
{
    if a.fee != b.fee || a.steps.len() != b.steps.len() {
        return false;
    }
    let mut i: usize = 0;
    while i < a.steps.len()
        invariant
            a.steps@.len() == b.steps@.len(),
            i <= a.steps@.len(),
            forall|q: int| 0 <= q < i ==> a.steps@[q] == b.steps@[q],
        decreases a.steps@.len() - i,
    {
        if compare_steps(&a.steps[i], &b.steps[i]) != 0 {
            return false;
        }
        i += 1;
    }
    assert(a.steps@ =~= b.steps@);
    true
}

/// Lexicographic order on allocations; an unserved entry comes first.
fn plans_before(a: &Vec<Option<Journey>>, b: &Vec<Option<Journey>>) -> (r: bool)
    ensures
        r == plans_order(a@, b@),
{
    let mut i: usize = 0;
    assert(a@.skip(0) =~= a@);
    assert(b@.skip(0) =~= b@);
    while i < a.len() && i < b.len()
        invariant
            i <= a@.len(),
            i <= b@.len(),
            plans_order(a@, b@) == plans_order(a@.skip(i as int), b@.skip(i as int)),
        decreases a@.len() - i,
    {
        assert(a@.skip(i as int)[0] == a@[i as int]);
        assert(b@.skip(i as int)[0] == b@[i as int]);
        assert(a@.skip(i as int).skip(1) =~= a@.skip(i + 1));
        assert(b@.skip(i as int).skip(1) =~= b@.skip(i + 1));
        match (&a[i], &b[i]) {
            (None, Some(_)) => {
                return true;
            },
            (Some(_), None) => {
                return false;
            },
            (Some(x), Some(y)) => {
                if !journey_same(x, y) {
                    return journey_before(x, y);
                }
            },
            (None, None) => {},
        }
        i += 1;
    }
    a.len() < b.len()
}

/// An allocation's score: payments served, total fee, total elapsed minutes
/// from release, total hops.
pub struct AllocationScore {
    pub served: usize,
    pub fee: u128,
    pub elapsed: u128,
    pub hops: usize,
}

/// Every served entry of `plans` serves its request, and the requests' deadlines
/// fit `u64`.
pub open spec fn allocation_ok(router: Router, requests: Seq<Request>, plans: Seq<Option<Journey>>) -> bool {
    &&& plans.len() == requests.len()
    &&& forall|i: int|
        0 <= i < plans.len() ==> (#[trigger] plans[i] matches Some(j) ==> router.serves(
            *requests[i].payment,
            requests[i].release,
            requests[i].deadline,
            j,
        ))
}

/// Number of served entries.
pub open spec fn served_count(plans: Seq<Option<Journey>>) -> int
    decreases plans.len(),
{
    if plans.len() == 0 {
        0
    } else {
        served_count(plans.drop_last()) + if plans.last() is Some { 1int } else { 0int }
    }
}

/// Total fee of the served entries.
pub open spec fn fee_total(plans: Seq<Option<Journey>>) -> int
    decreases plans.len(),
{
    if plans.len() == 0 {
        0
    } else {
        fee_total(plans.drop_last()) + match plans.last() {
            Some(j) => j.fee as int,
            None => 0int,
        }
    }
}

/// Total hops of the served entries.
pub open spec fn hops_total(plans: Seq<Option<Journey>>) -> int
    decreases plans.len(),
{
    if plans.len() == 0 {
        0
    } else {
        hops_total(plans.drop_last()) + match plans.last() {
            Some(j) => j.steps@.len() as int,
            None => 0int,
        }
    }
}

/// The planned fees of the assignments added up.
pub open spec fn assigned_fees(s: Seq<ScheduledPaymentRoute>) -> int
    decreases s.len(),
{
    if s.len() == 0 {
        0
    } else {
        assigned_fees(s.drop_last()) + s.last().route.total_fee_cents
    }
}

/// The elapsed minutes of the assignments added up.
pub open spec fn assigned_elapsed(s: Seq<ScheduledPaymentRoute>) -> int
    decreases s.len(),
{
    if s.len() == 0 {
        0
    } else {
        assigned_elapsed(s.drop_last()) + s.last().route.elapsed_minutes
    }
}

/// The requests' deadlines added up: a bound on the minutes an allocation's
/// journeys can take in all.
pub open spec fn deadline_sum(requests: Seq<Request>) -> int
    decreases requests.len(),
{
    if requests.len() == 0 {
        0
    } else {
        deadline_sum(requests.drop_last()) + requests.last().deadline
    }
}

proof fn lemma_deadline_sum_prefix(requests: Seq<Request>, i: int)
    requires
        0 <= i <= requests.len(),
    ensures
        deadline_sum(requests.take(i)) <= deadline_sum(requests),
        0 <= deadline_sum(requests.take(i)),
    decreases requests.len() - i,
{
    lemma_deadline_sum_nonneg(requests.take(i));
    if i < requests.len() {
        lemma_deadline_sum_prefix(requests, i + 1);
        assert(requests.take(i + 1).drop_last() =~= requests.take(i));
    } else {
        assert(requests.take(i) =~= requests);
        lemma_deadline_sum_nonneg(requests);
    }
}

proof fn lemma_deadline_sum_bound(requests: Seq<Request>, b: int)
    requires
        b >= 0,
        forall|i: int| 0 <= i < requests.len() ==> (#[trigger] requests[i]).deadline <= b,
    ensures
        deadline_sum(requests) <= requests.len() * b,
    decreases requests.len(),
{
    if requests.len() > 0 {
        let rest = requests.drop_last();
        assert forall|i: int| 0 <= i < rest.len() implies (#[trigger] rest[i]).deadline <= b by {
            assert(rest[i] == requests[i]);
        }
        lemma_deadline_sum_bound(rest, b);
        assert(requests.last().deadline <= b);
        assert(requests.len() * b == rest.len() * b + b) by (nonlinear_arith)
            requires
                requests.len() == rest.len() + 1,
        ;
    }
}

proof fn lemma_deadline_sum_nonneg(requests: Seq<Request>)
    ensures
        0 <= deadline_sum(requests),
    decreases requests.len(),
{
    if requests.len() > 0 {
        lemma_deadline_sum_nonneg(requests.drop_last());
    }
}

/// Total minutes from release to final arrival of the served entries.
pub open spec fn elapsed_total(requests: Seq<Request>, plans: Seq<Option<Journey>>) -> int
    decreases plans.len(),
{
    if plans.len() == 0 {
        0
    } else {
        elapsed_total(requests, plans.drop_last()) + match plans.last() {
            Some(j) => j.steps@.last().arrival - requests[plans.len() - 1].release,
            None => 0int,
        }
    }
}

/// Allocation `p` is strictly better than `q` for the same requests: it serves
/// more of them, or as many for a lower total fee, or also the same fee in fewer
/// elapsed minutes, or also those in fewer hops.
pub open spec fn outranks(requests: Seq<Request>, p: Seq<Option<Journey>>, q: Seq<Option<Journey>>) -> bool {
    ||| served_count(p) > served_count(q)
    ||| served_count(p) == served_count(q) && fee_total(p) < fee_total(q)
    ||| served_count(p) == served_count(q) && fee_total(p) == fee_total(q) && elapsed_total(requests, p)
        < elapsed_total(requests, q)
    ||| served_count(p) == served_count(q) && fee_total(p) == fee_total(q) && elapsed_total(requests, p)
        == elapsed_total(requests, q) && hops_total(p) < hops_total(q)
}

/// The score an allocation of `requests` has.
pub open spec fn scores(x: AllocationScore, requests: Seq<Request>, p: Seq<Option<Journey>>) -> bool {
    &&& x.served == served_count(p)
    &&& x.fee == fee_total(p)
    &&& x.elapsed == elapsed_total(requests, p)
    &&& x.hops == hops_total(p)
}

/// Being strictly better is a strict order: no allocation is better than
/// itself, and one better than an allocation that is no worse than a third is
/// better than the third.
pub proof fn lemma_outranks_order(requests: Seq<Request>, a: Seq<Option<Journey>>, b: Seq<Option<Journey>>, c: Seq<Option<Journey>>)
    ensures
        !outranks(requests, a, a),
        outranks(requests, a, b) && !outranks(requests, c, b) ==> outranks(requests, a, c),
        outranks(requests, a, b) ==> !outranks(requests, b, a),
{
}

/// The ranking by which an allocation is kept puts a strictly better allocation
/// first, and never puts a strictly worse one first.
pub proof fn lemma_rank_follows_outranks(
    requests: Seq<Request>,
    x: AllocationScore,
    a: Seq<Option<Journey>>,
    y: AllocationScore,
    b: Seq<Option<Journey>>,
)
    requires
        scores(x, requests, a),
        scores(y, requests, b),
    ensures
        outranks(requests, a, b) ==> allocation_rank(x, a, y, b),
        allocation_rank(x, a, y, b) ==> !outranks(requests, b, a),
{
}

/// Allocation ranking: more served, then lower fee, elapsed and hops, then the
/// allocations themselves.
pub open spec fn allocation_rank(x: AllocationScore, a: Seq<Option<Journey>>, y: AllocationScore, b: Seq<Option<Journey>>) -> bool {
    if x.served != y.served {
        x.served > y.served
    } else if x.fee != y.fee {
        x.fee < y.fee
    } else if x.elapsed != y.elapsed {
        x.elapsed < y.elapsed
    } else if x.hops != y.hops {
        x.hops < y.hops
    } else {
        plans_order(a, b)
    }
}

fn score_of(router: &Router, requests: &Vec<Request>, plans: &Vec<Option<Journey>>) -> (r: AllocationScore)
    requires
        router.wf(),
        allocation_ok(*router, requests@, plans@),
        requests@.len() * router.nodes@.len() <= usize::MAX,
        deadline_sum(requests@) <= u128::MAX,
    ensures
        r.served == served_count(plans@),
        r.fee == fee_total(plans@),
        r.elapsed == elapsed_total(requests@, plans@),
        r.hops == hops_total(plans@),
{
    let ghost n = router.nodes@.len() as int;
    let mut s = AllocationScore { served: 0, fee: 0, elapsed: 0, hops: 0 };
    let mut i: usize = 0;
    while i < plans.len()
        invariant
            router.wf(),
            n == router.nodes@.len(),
            allocation_ok(*router, requests@, plans@),
            requests@.len() * n <= usize::MAX,
            deadline_sum(requests@) <= u128::MAX,
            i <= plans@.len(),
            s.served <= i,
            s.fee <= i * (n * 0xffff_ffff_ffff_ffff),
            s.elapsed <= deadline_sum(requests@.take(i as int)),
            s.hops <= i * n,
            s.served == served_count(plans@.take(i as int)),
            s.fee == fee_total(plans@.take(i as int)),
            s.elapsed == elapsed_total(requests@, plans@.take(i as int)),
            s.hops == hops_total(plans@.take(i as int)),
        decreases plans@.len() - i,
    {
        proof {
            assert(plans@.take(i + 1).drop_last() =~= plans@.take(i as int));
            assert(plans@.take(i + 1).last() == plans@[i as int]);
            assert(requests@.take(i + 1).drop_last() =~= requests@.take(i as int));
            assert(requests@.take(i + 1).last() == requests@[i as int]);
            lemma_deadline_sum_prefix(requests@, i + 1);
        }
        match &plans[i] {
            None => {},
            Some(j) => {
                proof {
                    assert(plans@[i as int] matches Some(jj) && jj == *j);
                    lemma_served_bounds(*router, *requests@[i as int].payment, requests@[i as int].release, requests@[i as int].deadline, *j);
                    assert(j.steps@.len() * 0xffff_ffff_ffff_ffff <= n * 0xffff_ffff_ffff_ffff) by (nonlinear_arith)
                        requires
                            j.steps@.len() <= n,
                    ;
                    assert((i + 1) * (n * 0xffff_ffff_ffff_ffff) == i * (n * 0xffff_ffff_ffff_ffff) + n * 0xffff_ffff_ffff_ffff) by (nonlinear_arith);
                    assert((i + 1) * n == i * n + n) by (nonlinear_arith);
                    assert((i + 1) * n <= requests@.len() * n) by (nonlinear_arith)
                        requires
                            i + 1 <= requests@.len(),
                            n >= 0,
                    ;
                    assert((i + 1) * (n * 0xffff_ffff_ffff_ffff) <= u128::MAX) by (nonlinear_arith)
                        requires
                            (i + 1) * n <= usize::MAX,
                            usize::MAX <= 0xffff_ffff_ffff_ffff,
                            n >= 0,
                            i >= 0,
                    ;
                }
                let last = j.steps[j.steps.len() - 1].arrival;
                s.served = s.served + 1;
                s.fee = s.fee + j.fee;
                s.elapsed = s.elapsed + (last - requests[i].release);
                s.hops = s.hops + j.steps.len();
            },
        }
        proof {
            assert(i * (n * 0xffff_ffff_ffff_ffff) <= (i + 1) * (n * 0xffff_ffff_ffff_ffff)) by (nonlinear_arith)
                requires
                    n >= 0,
                    i >= 0,
            ;
            assert(i * n <= (i + 1) * n) by (nonlinear_arith)
                requires
                    n >= 0,
                    i >= 0,
            ;
        }
        i += 1;
    }
    assert(plans@.take(i as int) =~= plans@);
    s
}

/// Whether allocation `a` with score `x` ranks before `b` with score `y`: more
/// served, then lower fee, elapsed and hops, then the allocations themselves.
fn allocation_before(x: &AllocationScore, a: &Vec<Option<Journey>>, y: &AllocationScore, b: &Vec<Option<Journey>>) -> (r: bool)
    ensures
        r == allocation_rank(*x, a@, *y, b@),
{
    if x.served != y.served {
        return x.served > y.served;
    }
    if x.fee != y.fee {
        return x.fee < y.fee;
    }
    if x.elapsed != y.elapsed {
        return x.elapsed < y.elapsed;
    }
    if x.hops != y.hops {
        return x.hops < y.hops;
    }
    plans_before(a, b)
}

impl Router {
    /// Allocate the requests one at a time in several deterministic orders
    /// (input, by deadline, by amount, reversed), each in a fresh copy of
    /// `initial` that every found journey is booked into, and keep the best
    /// allocation by the number served, then total fee, elapsed minutes and
    /// hops, then the allocation itself. Every served entry serves its request.
    /// A journey whose booking would push a total past `u128::MAX` is left
    /// unserved.
    pub fn allocate(
        &self,
        requests: &Vec<Request>,
        initial: &Reservations,
        limits: SearchLimits,
    ) -> (r: (Vec<Option<Journey>>, SearchDiagnostics))
        requires
            self.wf(),
            limits.positive(),
            requests@.len() * self.nodes@.len() <= usize::MAX,
            deadline_sum(requests@) <= u128::MAX,
        ensures
            allocation_ok(*self, requests@, r.0@),
            exists|tried: Seq<Seq<Option<Journey>>>|
                #![trigger tried.contains(r.0@)]
                {
                    &&& 1 <= tried.len() <= 4
                    &&& tried.contains(r.0@)
                    &&& forall|k: int|
                        0 <= k < tried.len() ==> allocation_ok(*self, requests@, #[trigger] tried[k]) && fits_jointly(
                            *self,
                            *initial,
                            requests@,
                            tried[k],
                        )
                    &&& forall|k: int| 0 <= k < tried.len() ==> !outranks(requests@, #[trigger] tried[k], r.0@)
                },
            fits_jointly(*self, *initial, requests@, r.0@),
            forall|i: int|
                0 <= i < r.0@.len() ==> (#[trigger] r.0@[i] matches Some(j) ==> self.books_fit(
                    *initial,
                    j.steps@,
                    requests@[i].payment.amount_cents,
                )),
    {
        let n = requests.len();
        let mut base: Vec<usize> = Vec::new();
        let mut i: usize = 0;
        while i < n
            invariant
                i <= n,
                base@.len() == i,
                forall|k: int| 0 <= k < i ==> base@[k] == k,
            decreases n - i,
        {
            base.push(i);
            i += 1;
        }
        let mut reverse: Vec<usize> = Vec::new();
        let mut k: usize = n;
        while k > 0
            invariant
                k <= n,
                reverse@.len() == n - k,
                forall|q: int| 0 <= q < n - k ==> reverse@[q] == n - 1 - q,
            decreases k,
        {
            k -= 1;
            reverse.push(k);
        }
        let mut orders: Vec<Vec<usize>> = Vec::new();
        orders.push(base);
        let by_deadline = reorder_by(requests, true);
        let by_amount = reorder_by(requests, false);
        if !has_order(&orders, &by_deadline) {
            orders.push(by_deadline);
        }
        if !has_order(&orders, &by_amount) {
            orders.push(by_amount);
        }
        if !has_order(&orders, &reverse) {
            orders.push(reverse);
        }
        let mut diagnostics = SearchDiagnostics::zero();
        let mut best: Option<(AllocationScore, Vec<Option<Journey>>)> = None;
        let ghost mut tried: Seq<Seq<Option<Journey>>> = Seq::empty();
        let mut o: usize = 0;
        while o < orders.len()
            invariant
                orders@.len() <= 4,
                tried.len() == o,
                forall|k: int|
                    0 <= k < tried.len() ==> allocation_ok(*self, requests@, #[trigger] tried[k]) && fits_jointly(
                        *self,
                        *initial,
                        requests@,
                        tried[k],
                    ),
                best matches Some(b) ==> scores(b.0, requests@, b.1@) && tried.contains(b.1@),
                best matches Some(b) ==> forall|k: int| 0 <= k < tried.len() ==> !outranks(requests@, #[trigger] tried[k], b.1@),
                self.wf(),
                limits.positive(),
                requests@.len() == n,
                requests@.len() * self.nodes@.len() <= usize::MAX,
                deadline_sum(requests@) <= u128::MAX,
                o <= orders@.len(),
                orders@.len() >= 1,
                o > 0 ==> best is Some,
                best matches Some(b) ==> allocation_ok(*self, requests@, b.1@),
                best matches Some(b) ==> fit_initially(*self, *initial, requests@, b.1@),
                best matches Some(b) ==> fits_jointly(*self, *initial, requests@, b.1@),
            decreases orders@.len() - o,
        {
            let order = &orders[o];
            let mut book = initial.copy();
            let mut plans: Vec<Option<Journey>> = Vec::new();
            let mut z: usize = 0;
            while z < n
                invariant
                    z <= n,
                    plans@.len() == z,
                    forall|q: int| 0 <= q < z ==> plans@[q] is None,
                decreases n - z,
            {
                plans.push(None);
                z += 1;
            }
            proof {
                assert forall|r: usize, m: u128| joint_slot(requests@, plans@, r, m) == 0 by {
                    lemma_joint_none(requests@, plans@, r, m);
                }
                assert forall|r: usize| joint_rail(requests@, plans@, r) == 0 by {
                    lemma_joint_none(requests@, plans@, r, 0);
                }
            }
            let mut t: usize = 0;
            while t < order.len()
                invariant
                    self.wf(),
                    limits.positive(),
                    requests@.len() == n,
                    t <= order@.len(),
                    allocation_ok(*self, requests@, plans@),
                    fit_initially(*self, *initial, requests@, plans@),
                    forall|r: usize, m: u128| #[trigger] slot_booked(book.slots@, r, m) >= slot_booked(initial.slots@, r, m),
                    forall|r: usize| #[trigger] rail_booked(book.rails@, r) >= rail_booked(initial.rails@, r),
                    plans@.len() == n,
                    forall|r: usize, m: u128| #[trigger] slot_booked(book.slots@, r, m) >= slot_booked(initial.slots@, r, m) + (
                    if self.slot_cap(r, m) is Some { joint_slot(requests@, plans@, r, m) } else { 0 }),
                    forall|r: usize, m: u128| #[trigger] slot_booked(book.slots@, r, m) > slot_booked(initial.slots@, r, m) ==> match self.slot_cap(r, m) {
                        Some(c) => slot_booked(book.slots@, r, m) <= c,
                        None => true,
                    },
                    forall|r: usize| #[trigger] rail_booked(book.rails@, r) >= rail_booked(initial.rails@, r) + (
                    if r < self.rails@.len() && self.rails@[r as int].batch_capacity_cents is Some { joint_rail(requests@, plans@, r) } else { 0 }),
                    forall|r: usize| #[trigger] rail_booked(book.rails@, r) > rail_booked(initial.rails@, r) ==> r < self.rails@.len() && match self.rails@[r as int].batch_capacity_cents {
                        Some(c) => rail_booked(book.rails@, r) <= c,
                        None => true,
                    },
                decreases order@.len() - t,
            {
                let idx = order[t];
                if idx < n {
                    let r = &requests[idx];
                    let ghost book0 = book;
                    let (journey, stats) = self.find(r.payment, r.release, r.deadline, &book, limits);
                    diagnostics.plus(stats);
                    let served = match journey {
                        None => None,
                        Some(j) => {
                            proof {
                                assert(self.serves(*r.payment, r.release, r.deadline, j));
                                lemma_served_rails(*self, *r.payment, r.release, r.deadline, j);
                                lemma_books_fit_mono(*self, *initial, book, j.steps@, r.payment.amount_cents);
                            }
                            let mut trial = book.copy();
                            if self.reserve(&mut trial, &j, r.payment.amount_cents) {
                                proof {
                                    lemma_reserve_keeps_budgets(*self, *initial, book, trial, j, r.payment.amount_cents);
                                    assert forall|x: usize, m: u128| #[trigger] slot_booked(trial.slots@, x, m) >= slot_booked(initial.slots@, x, m) by {
                                        assert(slot_booked(trial.slots@, x, m) == self.slot_after(book, j.steps@, r.payment.amount_cents, x, m));
                                        lemma_count_nonneg(j.steps@, x, m);
                                        assert(0 <= r.payment.amount_cents * count_slot(j.steps@, x, m)) by (nonlinear_arith)
                                            requires 0 <= count_slot(j.steps@, x, m);
                                    }
                                    assert forall|x: usize| #[trigger] rail_booked(trial.rails@, x) >= rail_booked(initial.rails@, x) by {
                                        assert(rail_booked(trial.rails@, x) == self.rail_after(book, j.steps@, r.payment.amount_cents, x));
                                        lemma_count_nonneg(j.steps@, x, 0);
                                        assert(0 <= r.payment.amount_cents * count_rail(j.steps@, x)) by (nonlinear_arith)
                                            requires 0 <= count_rail(j.steps@, x);
                                    }
                                }
                                book = trial;
                                Some(j)
                            } else {
                                None
                            }
                        },
                    };
                    proof {
                        let a = r.payment.amount_cents;
                        assert forall|x: usize, m: u128| #[trigger] slot_booked(book.slots@, x, m) == slot_booked(book0.slots@, x, m) + (
                        if self.slot_cap(x, m) is Some { slot_term(a, served, x, m) } else { 0 }) by {}
                        assert forall|x: usize| #[trigger] rail_booked(book.rails@, x) == rail_booked(book0.rails@, x) + (
                        if x < self.rails@.len() && self.rails@[x as int].batch_capacity_cents is Some { rail_term(a, served, x) } else { 0 }) by {}
                    }
                    let ghost before = plans@;
                    plans.set(idx, served);
                    proof {
                        assert forall|x: usize, m: u128| joint_slot(requests@, plans@, x, m) == joint_slot(requests@, before, x, m)
                            - slot_term(requests@[idx as int].payment.amount_cents, before[idx as int], x, m) + slot_term(
                            requests@[idx as int].payment.amount_cents,
                            served,
                            x,
                            m,
                        ) && joint_rail(requests@, plans@, x) == joint_rail(requests@, before, x) - rail_term(
                            requests@[idx as int].payment.amount_cents,
                            before[idx as int],
                            x,
                        ) + rail_term(requests@[idx as int].payment.amount_cents, served, x) by {
                            lemma_joint_update(requests@, before, idx as int, served, x, m);
                            lemma_terms_nonneg(requests@[idx as int].payment.amount_cents, before[idx as int], x, m);
                            assert(plans@ == before.update(idx as int, served));
                        }
                        assert forall|x: usize, m: u128| #[trigger] slot_booked(book.slots@, x, m) >= slot_booked(initial.slots@, x, m) + (
                        if self.slot_cap(x, m) is Some { joint_slot(requests@, plans@, x, m) } else { 0 }) by {
                            lemma_joint_update(requests@, before, idx as int, served, x, m);
                            lemma_terms_nonneg(requests@[idx as int].payment.amount_cents, before[idx as int], x, m);
                            assert(plans@ == before.update(idx as int, served));
                            assert(slot_booked(book0.slots@, x, m) >= slot_booked(initial.slots@, x, m) + (
                            if self.slot_cap(x, m) is Some { joint_slot(requests@, before, x, m) } else { 0 }));
                        }
                        assert forall|x: usize| #[trigger] rail_booked(book.rails@, x) >= rail_booked(initial.rails@, x) + (
                        if x < self.rails@.len() && self.rails@[x as int].batch_capacity_cents is Some { joint_rail(requests@, plans@, x) } else { 0 }) by {
                            lemma_joint_update(requests@, before, idx as int, served, x, 0);
                            lemma_terms_nonneg(requests@[idx as int].payment.amount_cents, before[idx as int], x, 0);
                            assert(plans@ == before.update(idx as int, served));
                            assert(rail_booked(book0.rails@, x) >= rail_booked(initial.rails@, x) + (
                            if x < self.rails@.len() && self.rails@[x as int].batch_capacity_cents is Some { joint_rail(requests@, before, x) } else { 0 }));
                        }
                        assert forall|q: int| 0 <= q < plans@.len() implies (#[trigger] plans@[q] matches Some(j) ==> self.books_fit(
                            *initial,
                            j.steps@,
                            requests@[q].payment.amount_cents,
                        )) by {
                            if q != idx {
                                assert(plans@[q] == before[q]);
                            }
                        }
                        assert forall|q: int| 0 <= q < plans@.len() implies (#[trigger] plans@[q] matches Some(j) ==> self.serves(
                            *requests@[q].payment,
                            requests@[q].release,
                            requests@[q].deadline,
                            j,
                        )) by {
                            if q != idx {
                                assert(plans@[q] == before[q]);
                            }
                        }
                    }
                }
                t += 1;
            }
            proof {
                assert forall|x: usize, m: u128|
                    #![trigger joint_slot(requests@, plans@, x, m)]
                    joint_slot(requests@, plans@, x, m) > 0 implies match self.slot_cap(x, m) {
                        Some(c) => slot_booked(initial.slots@, x, m) + joint_slot(requests@, plans@, x, m) <= c,
                        None => true,
                    } by {
                    assert(slot_booked(book.slots@, x, m) >= slot_booked(initial.slots@, x, m));
                }
                assert forall|x: usize|
                    #![trigger joint_rail(requests@, plans@, x)]
                    x < self.rails@.len() && joint_rail(requests@, plans@, x) > 0 implies match self.rails@[x as int].batch_capacity_cents {
                        Some(c) => rail_booked(initial.rails@, x) + joint_rail(requests@, plans@, x) <= c,
                        None => true,
                    } by {
                    assert(rail_booked(book.rails@, x) >= rail_booked(initial.rails@, x));
                }
                assert(fits_jointly(*self, *initial, requests@, plans@));
            }
            let score = score_of(self, requests, &plans);
            let ghost previous = tried;
            let ghost current = plans@;
            let replace = match &best {
                None => true,
                Some((bs, bp)) => allocation_before(&score, &plans, bs, bp),
            };
            proof {
                tried = tried.push(current);
                assert(tried[tried.len() - 1] == current);
                assert forall|k: int| 0 <= k < previous.len() implies #[trigger] tried[k] == previous[k] by {}
                if best is Some {
                    let b = best->0;
                    {
                        lemma_rank_follows_outranks(requests@, score, current, b.0, b.1@);
                        if replace {
                            assert forall|k: int| 0 <= k < tried.len() implies !outranks(requests@, #[trigger] tried[k], current) by {
                                lemma_outranks_order(requests@, tried[k], current, b.1@);
                                lemma_outranks_order(requests@, current, current, current);
                            }
                        } else {
                            assert(tried.contains(b.1@)) by {
                                let w = choose|w: int| 0 <= w < previous.len() && previous[w] == b.1@;
                                assert(tried[w] == b.1@);
                            }
                        }
                    }
                } else {
                    assert forall|k: int| 0 <= k < tried.len() implies !outranks(requests@, #[trigger] tried[k], current) by {
                        lemma_outranks_order(requests@, current, current, current);
                    }
                }
                assert(tried.contains(current)) by {
                    assert(tried[tried.len() - 1] == current);
                }
            }
            if replace {
                best = Some((score, plans));
            }
            o += 1;
        }
        match best {
            Some((_, plans)) => {
                proof {
                    assert(1 <= tried.len() <= 4);
                }
                (plans, diagnostics)
            },
            None => {
                proof {
                    assert(false);
                }
                (Vec::new(), diagnostics)
            },
        }
    }
}

/// Whether a journey is served depends only on its steps and fee.
pub proof fn lemma_serves_copy(router: Router, p: Payment, release: u128, deadline: u128, j: Journey, c: Journey)
    requires
        router.serves(p, release, deadline, j),
        c.steps@ == j.steps@,
        c.fee == j.fee,
    ensures
        router.serves(p, release, deadline, c),
{
    let (src, tgt) = choose|src: usize, tgt: usize|
        src < router.nodes@.len() && tgt < router.nodes@.len() && router.nodes@[src as int]@ == p.sender@
            && router.nodes@[tgt as int]@ == p.receiver@ && #[trigger] router.journey_ok(
            j,
            src,
            tgt,
            release,
            deadline,
            p.amount_cents,
        );
    assert(router.journey_ok(c, src, tgt, release, deadline, p.amount_cents));
}

/// The rails a served journey uses are the router's.
pub proof fn lemma_served_rails(router: Router, p: Payment, release: u128, deadline: u128, j: Journey)
    requires
        router.serves(p, release, deadline, j),
    ensures
        forall|i: int| 0 <= i < j.steps@.len() ==> (#[trigger] j.steps@[i]).rail < router.rails@.len(),
{
    let (src, tgt) = choose|src: usize, tgt: usize|
        src < router.nodes@.len() && tgt < router.nodes@.len() && router.nodes@[src as int]@ == p.sender@
            && router.nodes@[tgt as int]@ == p.receiver@ && #[trigger] router.journey_ok(
            j,
            src,
            tgt,
            release,
            deadline,
            p.amount_cents,
        );
    assert forall|i: int| 0 <= i < j.steps@.len() implies (#[trigger] j.steps@[i]).rail < router.rails@.len() by {
        assert(router.hop_ok(j.steps@[i], p.amount_cents));
    }
}

/// Steps are ordered in time: each arrives no earlier than any before it.
proof fn lemma_arrivals_ordered(router: Router, steps: Seq<Step>, src: usize, release: u128, amount: u64, k: int, m: int)
    requires
        router.chain(steps, src, release, amount),
        0 <= k <= m < steps.len(),
    ensures
        steps[k].departure <= steps[k].arrival <= steps[m].arrival,
    decreases m - k,
{
    assert(router.hop_ok(steps[k], amount));
    if k < m {
        assert(router.hop_ok(steps[k + 1], amount));
        lemma_arrivals_ordered(router, steps, src, release, amount, k + 1, m);
    }
}

/// What a served journey's steps satisfy: indices in range and times within
/// release and deadline.
#[verifier::spinoff_prover]
#[verifier::rlimit(40)]
proof fn lemma_served_steps(router: Router, p: Payment, release: u128, deadline: u128, j: Journey)
    requires
        router.wf(),
        router.serves(p, release, deadline, j),
    ensures
        forall|k: int| 0 <= k < j.steps@.len() ==> {
            let s = #[trigger] j.steps@[k];
            &&& s.rail < router.rails@.len()
            &&& s.from < router.nodes@.len()
            &&& s.to < router.nodes@.len()
            &&& release <= s.departure <= s.arrival <= deadline
        },
{
    let (src, tgt) = choose|src: usize, tgt: usize|
        src < router.nodes@.len() && tgt < router.nodes@.len() && router.nodes@[src as int]@ == p.sender@
            && router.nodes@[tgt as int]@ == p.receiver@ && #[trigger] router.journey_ok(
            j,
            src,
            tgt,
            release,
            deadline,
            p.amount_cents,
        );
    let steps = j.steps@;
    assert forall|k: int| 0 <= k < steps.len() implies {
        let s = #[trigger] steps[k];
        &&& s.rail < router.rails@.len()
        &&& s.from < router.nodes@.len()
        &&& s.to < router.nodes@.len()
        &&& release <= s.departure <= s.arrival <= deadline
    } by {
        let s = steps[k];
        assert(router.hop_ok(s, p.amount_cents));
        let m1 = choose|m: int| 0 <= m < router.members@[s.rail as int]@.len() && router.members@[s.rail as int]@[m] == s.from;
        assert(router.members@[s.rail as int]@[m1] < router.nodes@.len());
        let m2 = choose|m: int| 0 <= m < router.members@[s.rail as int]@.len() && router.members@[s.rail as int]@[m] == s.to;
        assert(router.members@[s.rail as int]@[m2] < router.nodes@.len());
        lemma_arrivals_ordered(router, steps, src, release, p.amount_cents, k, steps.len() - 1);
        if k == 0 {
        } else {
            lemma_arrival_after_release(router, steps, src, release, p.amount_cents, k - 1);
            assert(router.hop_ok(steps[k], p.amount_cents));
        }
    }
}

/// The request a timed payment makes: released at its earliest minute and due by
/// the earlier of its absolute deadline and its delivery bound from release.
pub open spec fn due(t: TimedPayment) -> u128 {
    let by_deadline = match t.deadline_minute {
        Some(d) => d as int,
        None => u64::MAX as int,
    };
    let by_bound = t.earliest_execution_minute + match t.payment.max_delivery_minutes {
        Some(m) => m as int,
        None => u64::MAX as int,
    };
    let d = if by_deadline <= by_bound { by_deadline } else { by_bound };
    (if d <= u64::MAX { d } else { u64::MAX as int }) as u128
}

fn due_minute(t: &TimedPayment) -> (r: u128)
    ensures
        r == due(*t),
        r <= u64::MAX,
{
    let by_deadline: u128 = match t.deadline_minute {
        Some(d) => d as u128,
        None => u64::MAX as u128,
    };
    let by_bound: u128 = t.earliest_execution_minute as u128 + match t.payment.max_delivery_minutes {
        Some(m) => m as u128,
        None => u64::MAX as u128,
    };
    let d = if by_deadline <= by_bound { by_deadline } else { by_bound };
    if d <= u64::MAX as u128 { d } else { u64::MAX as u128 }
}

/// Every journey serves its timed payment's request.
pub open spec fn journeys_serve(router: Router, payments: Seq<TimedPayment>, journeys: Seq<Journey>) -> bool {
    &&& journeys.len() == payments.len()
    &&& forall|i: int|
        0 <= i < journeys.len() ==> router.serves(
            payments[i].payment,
            payments[i].earliest_execution_minute as u128,
            due(payments[i]),
            #[trigger] journeys[i],
        )
}

/// A hop on the rail named `rail_id`, departing at `minute` where one is given.
pub open spec fn hop_on(router: Router, s: Step, rail_id: Seq<char>, minute: Option<u64>) -> bool {
    router.rails@[s.rail as int].id@ == rail_id && (minute matches Some(m) ==> s.departure == m as u128)
}

/// Principal `amount` for each hop of `steps` on that rail (and minute).
pub open spec fn steps_principal(router: Router, steps: Seq<Step>, amount: int, rail_id: Seq<char>, minute: Option<u64>) -> int
    decreases steps.len(),
{
    if steps.len() == 0 {
        0
    } else {
        steps_principal(router, steps.drop_last(), amount, rail_id, minute) + if hop_on(
            router,
            steps.last(),
            rail_id,
            minute,
        ) {
            amount
        } else {
            0
        }
    }
}

/// Principal that the journeys, each carrying its payment, put on that rail (and minute).
pub open spec fn principal_on(
    router: Router,
    payments: Seq<TimedPayment>,
    journeys: Seq<Journey>,
    rail_id: Seq<char>,
    minute: Option<u64>,
) -> int
    decreases journeys.len(),
{
    if journeys.len() == 0 {
        0
    } else {
        principal_on(router, payments, journeys.drop_last(), rail_id, minute) + steps_principal(
            router,
            journeys.last().steps@,
            payments[journeys.len() - 1].payment.amount_cents as int,
            rail_id,
            minute,
        )
    }
}

impl Router {
    /// Principal that the journeys put on departures of rail `rail_id`, at
    /// `minute` if given, else at any minute.
    #[verifier::spinoff_prover]
    #[verifier::rlimit(100)]
    fn booked_on(
        &self,
        payments: &Vec<TimedPayment>,
        journeys: &Vec<Journey>,
        rail_id: &String,
        minute: Option<u64>,
    ) -> (total: u128)
        requires
            self.wf(),
            journeys_serve(*self, payments@, journeys@),
            payments@.len() * self.nodes@.len() <= usize::MAX,
        ensures
            total == principal_on(*self, payments@, journeys@, rail_id@, minute),
    {
        let ghost n = self.nodes@.len() as int;
        let mut total: u128 = 0;
        let mut i: usize = 0;
        while i < journeys.len()
            invariant
                self.wf(),
                n == self.nodes@.len(),
                journeys_serve(*self, payments@, journeys@),
                payments@.len() * n <= usize::MAX,
                i <= journeys@.len(),
                total <= (i * n) * 0xffff_ffff_ffff_ffff,
                total == principal_on(*self, payments@, journeys@.take(i as int), rail_id@, minute),
            decreases journeys@.len() - i,
        {
            let j = &journeys[i];
            let ghost base = total as int;
            proof {
                assert(journeys@.take(i + 1).drop_last() =~= journeys@.take(i as int));
                assert(journeys@.take(i + 1).last() == journeys@[i as int]);
                assert(j.steps@.take(0) =~= Seq::<Step>::empty());
            }
            proof {
                lemma_served_bounds(*self, payments@[i as int].payment, payments@[i as int].earliest_execution_minute as u128, due(payments@[i as int]), *j);
                lemma_served_steps(*self, payments@[i as int].payment, payments@[i as int].earliest_execution_minute as u128, due(payments@[i as int]), *j);
                assert((i + 1) * n <= payments@.len() * n) by (nonlinear_arith)
                    requires
                        i + 1 <= payments@.len(),
                        n >= 0,
                ;
                assert((i + 1) * n == i * n + n) by (nonlinear_arith);
            }
            let amount = payments[i].payment.amount_cents as u128;
            let mut k: usize = 0;
            while k < j.steps.len()
                invariant
                    self.wf(),
                    n == self.nodes@.len(),
                    (i + 1) * n <= usize::MAX,
                    (i + 1) * n == i * n + n,
                    j.steps@.len() < n,
                    forall|q: int| 0 <= q < j.steps@.len() ==> (#[trigger] j.steps@[q]).rail < self.rails@.len(),
                    amount <= 0xffff_ffff_ffff_ffff,
                    k <= j.steps@.len(),
                    total <= (i * n + k) * 0xffff_ffff_ffff_ffff,
                    amount == payments@[i as int].payment.amount_cents,
                    total == base + steps_principal(*self, j.steps@.take(k as int), amount as int, rail_id@, minute),
                decreases j.steps@.len() - k,
            {
                let s = j.steps[k];
                proof {
                    assert(j.steps@.take(k + 1).drop_last() =~= j.steps@.take(k as int));
                    assert(j.steps@.take(k + 1).last() == s);
                }
                proof {
                    assert((i * n + k + 1) * 0xffff_ffff_ffff_ffff == (i * n + k) * 0xffff_ffff_ffff_ffff + 0xffff_ffff_ffff_ffff) by (nonlinear_arith);
                    assert((i * n + k + 1) * 0xffff_ffff_ffff_ffff <= u128::MAX) by (nonlinear_arith)
                        requires
                            i * n + k + 1 <= usize::MAX,
                            usize::MAX <= 0xffff_ffff_ffff_ffff,
                    ;
                }
                let on_rail = crate::text::same_text(&self.rails[s.rail].id, rail_id);
                let at_minute = match minute {
                    Some(m) => s.departure == m as u128,
                    None => true,
                };
                if on_rail && at_minute {
                    total = total + amount;
                }
                k += 1;
            }
            proof {
                assert(j.steps@.take(k as int) =~= j.steps@);
                assert((i * n + j.steps@.len()) * 0xffff_ffff_ffff_ffff <= ((i + 1) * n) * 0xffff_ffff_ffff_ffff) by (nonlinear_arith)
                    requires
                        i * n + j.steps@.len() <= (i + 1) * n,
                ;
            }
            i += 1;
        }
        assert(journeys@.take(i as int) =~= journeys@);
        total
    }

    /// The schedule plan of a complete allocation: assignments in payment
    /// identifier order with exact timestamps, every rail's principal in rail
    /// identifier order, and every supplied departure's principal in (rail,
    /// minute) order, with the totals: the planned fees and elapsed minutes of
    /// the assignments added up.
    #[verifier::spinoff_prover]
    #[verifier::rlimit(40)]
    pub fn plan(&self, payments: &Vec<TimedPayment>, journeys: &Vec<Journey>, departures: &Vec<RailDeparture>) -> (r: ScheduledBatchPlan)
        requires
            self.wf(),
            journeys_serve(*self, payments@, journeys@),
            payments@.len() * self.nodes@.len() <= usize::MAX,
        ensures
            r.assignments@.len() == payments@.len(),
            r.rail_usage@.len() == self.rails@.len(),
            r.departure_usage@.len() == departures@.len(),
            r.total_fee_cents == assigned_fees(r.assignments@),
            r.total_elapsed_minutes == assigned_elapsed(r.assignments@),
            exists|order: Seq<usize>|
                #[trigger] is_perm(order, payments@.len() as int) && forall|k: int|
                    0 <= k < order.len() ==> {
                        let a = #[trigger] r.assignments@[k];
                        let i = order[k] as int;
                        &&& a.payment_id@ == payments@[i].payment.id@
                        &&& a.route.hops@.len() == journeys@[i].steps@.len()
                        &&& a.route.total_fee_cents == journeys@[i].fee
                        &&& a.route.elapsed_minutes == journeys@[i].steps@.last().arrival
                            - payments@[i].earliest_execution_minute
                        &&& (k > 0 ==> !text_lt(payments@[i].payment.id@, payments@[order[k - 1] as int].payment.id@))
                    },
    {
        let ghost nn = self.nodes@.len() as int;
        let ids = ids_of(payments);
        assert(ids@.len() == crate::network::texts(ids@).len());
        let order = crate::order::id_order(&ids);
        let mut assignments: Vec<ScheduledPaymentRoute> = Vec::new();
        let mut total_fee: u128 = 0;
        let mut total_elapsed: u128 = 0;
        let mut k: usize = 0;
        while k < order.len()
            invariant
                self.wf(),
                nn == self.nodes@.len(),
                journeys_serve(*self, payments@, journeys@),
                payments@.len() * nn <= usize::MAX,
                is_perm(order@, payments@.len() as int),
                crate::network::texts(ids@) == Seq::new(payments@.len(), |q: int| payments@[q].payment.id@),
                forall|a: int, b: int|
                    0 <= a < b < order@.len() ==> !text_lt(ids@[(#[trigger] order@[b]) as int]@, ids@[(#[trigger] order@[a]) as int]@),
                k <= order@.len(),
                assignments@.len() == k,
                total_fee == assigned_fees(assignments@),
                total_elapsed == assigned_elapsed(assignments@),
                total_fee <= (k * nn) * 0xffff_ffff_ffff_ffff,
                total_elapsed <= k * 0xffff_ffff_ffff_ffff,
                forall|q: int|
                    0 <= q < k ==> {
                        let a = #[trigger] assignments@[q];
                        let i = order@[q] as int;
                        &&& a.payment_id@ == payments@[i].payment.id@
                        &&& a.route.hops@.len() == journeys@[i].steps@.len()
                        &&& a.route.total_fee_cents == journeys@[i].fee
                        &&& a.route.elapsed_minutes == journeys@[i].steps@.last().arrival
                            - payments@[i].earliest_execution_minute
                    },
            decreases order@.len() - k,
        {
            let i = order[k];
            let p = &payments[i];
            let j = &journeys[i];
            let release = p.earliest_execution_minute as u128;
            proof {
                assert(self.serves(p.payment, release, due(*p), *j));
                lemma_served_bounds(*self, p.payment, release, due(*p), *j);
                lemma_served_steps(*self, p.payment, release, due(*p), *j);
                assert(due(*p) <= u64::MAX);
                assert((k + 1) * nn <= payments@.len() * nn) by (nonlinear_arith)
                    requires
                        k + 1 <= payments@.len(),
                        nn >= 0,
                ;
                assert(((k + 1) * nn) * 0xffff_ffff_ffff_ffff == (k * nn) * 0xffff_ffff_ffff_ffff + nn * 0xffff_ffff_ffff_ffff) by (nonlinear_arith);
                assert(j.steps@.len() * 0xffff_ffff_ffff_ffff <= nn * 0xffff_ffff_ffff_ffff) by (nonlinear_arith)
                    requires
                        j.steps@.len() <= nn,
                ;
                assert(((k + 1) * nn) * 0xffff_ffff_ffff_ffff <= u128::MAX) by (nonlinear_arith)
                    requires
                        (k + 1) * nn <= usize::MAX,
                        usize::MAX <= 0xffff_ffff_ffff_ffff,
                ;
                assert((k + 1) * 0xffff_ffff_ffff_ffff == k * 0xffff_ffff_ffff_ffff + 0xffff_ffff_ffff_ffff) by (nonlinear_arith);
                assert((k + 1) * 0xffff_ffff_ffff_ffff <= u128::MAX) by (nonlinear_arith)
                    requires
                        k + 1 <= usize::MAX,
                        usize::MAX <= 0xffff_ffff_ffff_ffff,
                ;
            }
            let mut hops: Vec<ScheduledHop> = Vec::new();
            let mut t: usize = 0;
            while t < j.steps.len()
                invariant
                    self.wf(),
                    t <= j.steps@.len(),
                    hops@.len() == t,
                    forall|q: int| 0 <= q < j.steps@.len() ==> {
                        let s = #[trigger] j.steps@[q];
                        &&& s.rail < self.rails@.len()
                        &&& s.from < self.nodes@.len()
                        &&& s.to < self.nodes@.len()
                        &&& release <= s.departure <= s.arrival <= due(*p)
                    },
                    due(*p) <= u64::MAX,
                decreases j.steps@.len() - t,
            {
                let s = j.steps[t];
                hops.push(
                    ScheduledHop {
                        transfer: self.hop(&s),
                        departure_minute: s.departure as u64,
                        arrival_minute: s.arrival as u64,
                        fee_cents: s.fee,
                    },
                );
                t += 1;
            }
            let last = j.steps[j.steps.len() - 1].arrival;
            let elapsed = (last - release) as u64;
            total_fee = total_fee + j.fee;
            total_elapsed = total_elapsed + elapsed as u128;
            let ghost before = assignments@;
            assignments.push(
                ScheduledPaymentRoute {
                    payment_id: copy_string(&p.payment.id),
                    route: ScheduledRoute { hops, total_fee_cents: j.fee, elapsed_minutes: elapsed },
                },
            );
            proof {
                assert(assignments@.drop_last() =~= before);
            }
            k += 1;
        }
        let mut rail_usage: Vec<RailUsage> = Vec::new();
        let mut r: usize = 0;
        while r < self.rails.len()
            invariant
                self.wf(),
                journeys_serve(*self, payments@, journeys@),
                payments@.len() * self.nodes@.len() <= usize::MAX,
                r <= self.rails@.len(),
                rail_usage@.len() == r,
            decreases self.rails@.len() - r,
        {
            let total = self.booked_on(payments, journeys, &self.rails[r].id, None);
            rail_usage.push(RailUsage { rail_id: copy_string(&self.rails[r].id), principal_cents: total });
            r += 1;
        }
        let mut keys: Vec<DepKey> = Vec::new();
        let mut d: usize = 0;
        while d < departures.len()
            invariant
                d <= departures@.len(),
                keys@.len() == d,
            decreases departures@.len() - d,
        {
            keys.push(DepKey { rail: copy_string(&departures[d].rail_id), minute: departures[d].departure_minute });
            d += 1;
        }
        let dep_order = position_order(&keys);
        let mut departure_usage: Vec<DepartureUsage> = Vec::new();
        let mut e: usize = 0;
        while e < dep_order.len()
            invariant
                self.wf(),
                journeys_serve(*self, payments@, journeys@),
                payments@.len() * self.nodes@.len() <= usize::MAX,
                is_perm(dep_order@, departures@.len() as int),
                e <= dep_order@.len(),
                departure_usage@.len() == e,
            decreases dep_order@.len() - e,
        {
            let slot = &departures[dep_order[e]];
            let total = self.booked_on(payments, journeys, &slot.rail_id, Some(slot.departure_minute));
            departure_usage.push(
                DepartureUsage {
                    rail_id: copy_string(&slot.rail_id),
                    departure_minute: slot.departure_minute,
                    principal_cents: total,
                },
            );
            e += 1;
        }
        proof {
            assert forall|q: int| 0 <= q < order@.len() implies ({
                let a = #[trigger] assignments@[q];
                let i = order@[q] as int;
                &&& a.payment_id@ == payments@[i].payment.id@
                &&& a.route.hops@.len() == journeys@[i].steps@.len()
                &&& a.route.total_fee_cents == journeys@[i].fee
                &&& a.route.elapsed_minutes == journeys@[i].steps@.last().arrival
                    - payments@[i].earliest_execution_minute
                &&& (q > 0 ==> !text_lt(payments@[i].payment.id@, payments@[order@[q - 1] as int].payment.id@))
            }) by {
                if q > 0 {
                    assert(crate::network::texts(ids@)[order@[q] as int] == payments@[order@[q] as int].payment.id@);
                    assert(crate::network::texts(ids@)[order@[q - 1] as int] == payments@[order@[q - 1] as int].payment.id@);
                }
            }
        }
        ScheduledBatchPlan {
            assignments,
            rail_usage,
            departure_usage,
            total_fee_cents: total_fee,
            total_elapsed_minutes: total_elapsed,
        }
    }
}

fn ids_of(payments: &Vec<TimedPayment>) -> (r: Vec<String>)
    ensures
        crate::network::texts(r@) == Seq::new(payments@.len(), |q: int| payments@[q].payment.id@),
{
    let ghost ids = Seq::new(payments@.len(), |q: int| payments@[q].payment.id@);
    let mut r: Vec<String> = Vec::new();
    let mut i: usize = 0;
    while i < payments.len()
        invariant
            ids == Seq::new(payments@.len(), |q: int| payments@[q].payment.id@),
            i <= payments@.len(),
            r@.len() == i,
            forall|q: int| 0 <= q < i ==> (#[trigger] r@[q])@ == ids[q],
        decreases payments@.len() - i,
    {
        r.push(copy_string(&payments[i].payment.id));
        i += 1;
    }
    assert(crate::network::texts(r@) =~= ids);
    r
}

/// Plan a batch with the bounded router over the supplied timetable, trying
/// several deterministic allocation orders. A plan is returned only when every
/// payment found a journey; `None` means unresolved, which includes a greedy
/// allocation blocking a feasible batch. Inputs are validated first, then the
/// limits.
pub fn plan_schedule(
    network: &Network,
    payments: &Vec<TimedPayment>,
    departures: &Vec<RailDeparture>,
    limits: SearchLimits,
) -> (r: Result<PlanningResult, ValidationError>)
    requires
        payments@.len() * network@.institutions.len() <= usize::MAX,
    ensures
        r is Err <==> (schedule_problem(network@, timed_views(payments@), departure_views(departures@)) is Some
            || !limits.positive()),
        r matches Err(e) ==> (if schedule_problem(network@, timed_views(payments@), departure_views(departures@)) is Some {
            Some(e@) == schedule_problem(network@, timed_views(payments@), departure_views(departures@))
        } else {
            e == ValidationError::NonPositiveLimits
        }),
        r matches Ok(res) ==> (res.plan matches Some(plan) ==> plan.assignments@.len() == payments@.len()
            && plan.rail_usage@.len() == network@.rails.len() && plan.departure_usage@.len() == departures@.len()),
        r matches Ok(res) ==> (res.plan matches Some(plan) ==> on_time_plan(plan, payments@)),
        r matches Ok(res) ==> (res.plan matches Some(plan) ==> plan.total_fee_cents == assigned_fees(plan.assignments@)
            && plan.total_elapsed_minutes == assigned_elapsed(plan.assignments@)),
{
    match validate_schedule(network, payments, departures) {
        Ok(()) => {},
        Err(e) => {
            return Err(e);
        },
    }
    match limits.validate() {
        Ok(()) => {},
        Err(e) => {
            return Err(e);
        },
    }
    let router = Router::finite(network, departures);
    let mut requests: Vec<Request> = Vec::new();
    let mut i: usize = 0;
    while i < payments.len()
        invariant
            i <= payments@.len(),
            requests@.len() == i,
            forall|q: int| 0 <= q < i ==> {
                let r = #[trigger] requests@[q];
                &&& *r.payment == payments@[q].payment
                &&& r.release == payments@[q].earliest_execution_minute
                &&& r.deadline == due(payments@[q])
            },
        decreases payments@.len() - i,
    {
        let p = &payments[i];
        requests.push(Request { payment: &p.payment, release: p.earliest_execution_minute as u128, deadline: due_minute(p) });
        i += 1;
    }
    proof {
        assert forall|q: int| 0 <= q < requests@.len() implies (#[trigger] requests@[q]).deadline <= u64::MAX by {
            assert(requests@[q].deadline == due(payments@[q]));
        }
        lemma_deadline_sum_bound(requests@, u64::MAX as int);
        assert(requests@.len() * (u64::MAX as int) <= u128::MAX) by (nonlinear_arith)
            requires
                requests@.len() <= usize::MAX,
                usize::MAX <= u64::MAX,
        ;
    }
    let (found, diagnostics) = router.allocate(&requests, &Reservations::empty(), limits);
    let mut journeys: Vec<Journey> = Vec::new();
    let mut complete = true;
    let mut k: usize = 0;
    while k < found.len()
        invariant
            router.wf(),
            allocation_ok(router, requests@, found@),
            requests@.len() == payments@.len(),
            forall|q: int| 0 <= q < payments@.len() ==> {
                let r = #[trigger] requests@[q];
                &&& *r.payment == payments@[q].payment
                &&& r.release == payments@[q].earliest_execution_minute
                &&& r.deadline == due(payments@[q])
            },
            k <= found@.len(),
            complete ==> journeys@.len() == k,
            complete ==> forall|q: int|
                0 <= q < k ==> router.serves(
                    payments@[q].payment,
                    payments@[q].earliest_execution_minute as u128,
                    due(payments@[q]),
                    #[trigger] journeys@[q],
                ),
        decreases found@.len() - k,
    {
        match &found[k] {
            Some(j) => {
                if complete {
                    let c = copy_journey(j);
                    proof {
                        assert(found@[k as int] matches Some(jj) && jj == *j);
                        lemma_serves_copy(router, payments@[k as int].payment, payments@[k as int].earliest_execution_minute as u128, due(payments@[k as int]), *j, c);
                    }
                    journeys.push(c);
                }
            },
            None => {
                complete = false;
            },
        }
        k += 1;
    }
    let plan = if complete {
        let p = router.plan(payments, &journeys, departures);
        proof {
            let order = choose|order: Seq<usize>|
                #[trigger] is_perm(order, payments@.len() as int) && forall|k: int|
                    0 <= k < order.len() ==> {
                        let a = #[trigger] p.assignments@[k];
                        let i = order[k] as int;
                        &&& a.payment_id@ == payments@[i].payment.id@
                        &&& a.route.hops@.len() == journeys@[i].steps@.len()
                        &&& a.route.total_fee_cents == journeys@[i].fee
                        &&& a.route.elapsed_minutes == journeys@[i].steps@.last().arrival
                            - payments@[i].earliest_execution_minute
                        &&& (k > 0 ==> !text_lt(payments@[i].payment.id@, payments@[order[k - 1] as int].payment.id@))
                    };
            assert forall|k: int| 0 <= k < order.len() implies {
                let a = #[trigger] p.assignments@[k];
                let i = order[k] as int;
                &&& a.payment_id@ == payments@[i].payment.id@
                &&& payments@[i].earliest_execution_minute + a.route.elapsed_minutes <= due(payments@[i])
            } by {
                let i = order[k] as int;
                assert(0 <= i < payments@.len());
                let j = journeys@[i];
                assert(router.serves(payments@[i].payment, payments@[i].earliest_execution_minute as u128, due(payments@[i]), j));
                let (src, tgt) = choose|src: usize, tgt: usize|
                    src < router.nodes@.len() && tgt < router.nodes@.len() && router.nodes@[src as int]@
                        == payments@[i].payment.sender@ && router.nodes@[tgt as int]@ == payments@[i].payment.receiver@
                        && #[trigger] router.journey_ok(j, src, tgt, payments@[i].earliest_execution_minute as u128, due(payments@[i]), payments@[i].payment.amount_cents);
            }
            assert(on_time_plan(p, payments@));
        }
        Some(p)
    } else {
        None
    };
    Ok(PlanningResult { plan, diagnostics })
}

} // verus!
