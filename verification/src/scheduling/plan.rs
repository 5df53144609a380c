//! Resolving a timetable, enumerating each payment's candidates, and reporting
//! the chosen joint assignment.
use vstd::prelude::*;
use crate::network::{Network, NetworkView, valid_network, first_problem, payment_problem, rail_ids, texts};
use crate::batch::{RailUsage, lemma_first_problem_none};
use crate::order::{Ordered, ordered, is_perm};
use crate::text::{text_lt, compare_text, copy_string, lemma_text_lt_irreflexive, lemma_text_lt_transitive};
use crate::joint::{JointCand, Best};
use crate::scheduling::{
    TimedPayment, TimedPaymentView, DepartureView, RailDeparture, ScheduledRoute, ScheduledPaymentRoute,
    DepartureUsage, ScheduledBatchPlan, rail_at, first_rail_with, effective_settle, departure_problem_at,
    departure_problems, departure_views, rail_position,
};
use crate::scheduling::walks::{
    Slot, SlotView, Timetable, TStep, TimedCand, table, slot_views, timetable_ok, timed_walk, tnodes,
    thop_views, walk_thops, usage_of, sound, has_walk, listed, troute, textends, visit_timed, copy_u128s,
    copy_scheduled_route,
};
use crate::scheduling::assign::{slots_distinct, linked, joint_use, ws_of, walk_at, lemma_walk_at, sched_score};

verus! {

/// A departure resolved against the network.
pub open spec fn slot_of(n: NetworkView, d: DepartureView) -> SlotView {
    let r = rail_at(n, d.rail);
    SlotView {
        rail: r,
        departure: d.minute as int,
        arrival: d.minute + effective_settle(n, d),
        fee: match d.fee {
            Some(f) => f as int,
            None => n.rails[r].fee_cents as int,
        },
    }
}

pub open spec fn resolved(n: NetworkView, ds: Seq<DepartureView>) -> Seq<SlotView> {
    Seq::new(ds.len(), |i: int| slot_of(n, ds[i]))
}

/// Budgets: each rail's whole-batch budget, then each departure's own.
pub open spec fn caps_of(n: NetworkView, ds: Seq<DepartureView>) -> Seq<Option<u64>> {
    Seq::new(
        n.rails.len() + ds.len(),
        |q: int|
            if q < n.rails.len() {
                n.rails[q].batch_capacity_cents
            } else {
                ds[q - n.rails.len()].cap
            },
    )
}

pub open spec fn timetable_of(n: NetworkView, ds: Seq<DepartureView>) -> Timetable {
    Timetable { n, slots: resolved(n, ds), caps: caps_of(n, ds) }
}

/// Departure keys in order: rail identifier, then minute.
pub open spec fn dep_lt(a: DepartureView, b: DepartureView) -> bool {
    text_lt(a.rail, b.rail) || (a.rail == b.rail && a.minute < b.minute)
}

/// The plan reports the assignment `ws` of `qs`: their routes in order, the
/// totals, every rail's principal in rail-identifier order, and every departure's
/// principal in (rail, minute) order.
pub open spec fn schedule_reports(
    tt: Timetable,
    ds: Seq<DepartureView>,
    qs: Seq<TimedPaymentView>,
    ws: Seq<Seq<TStep>>,
    plan: ScheduledBatchPlan,
) -> bool {
    let n = tt.n;
    &&& plan.assignments@.len() == qs.len()
    &&& forall|i: int|
        0 <= i < qs.len() ==> (#[trigger] plan.assignments@[i]).payment_id@ == qs[i].payment.id
            && plan.assignments@[i].route@ == troute(tt, qs[i], ws[i])
    &&& plan.total_fee_cents == sched_score(tt, qs, ws).fee
    &&& plan.total_elapsed_minutes == sched_score(tt, qs, ws).elapsed
    &&& plan.rail_usage@.len() == n.rails.len()
    &&& exists|rails: Seq<usize>|
        #[trigger] is_perm(rails, n.rails.len() as int) && forall|k: int|
            0 <= k < rails.len() ==> (#[trigger] plan.rail_usage@[k]).rail_id@ == n.rails[rails[k] as int].id
                && plan.rail_usage@[k].principal_cents == joint_use(tt, qs, ws, rails[k] as int, qs.len() as int)
                && (k > 0 ==> !text_lt(n.rails[rails[k] as int].id, n.rails[rails[k - 1] as int].id))
    &&& plan.departure_usage@.len() == ds.len()
    &&& exists|deps: Seq<usize>|
        #[trigger] is_perm(deps, ds.len() as int) && forall|k: int|
            0 <= k < deps.len() ==> (#[trigger] plan.departure_usage@[k]).rail_id@ == ds[deps[k] as int].rail
                && plan.departure_usage@[k].departure_minute == ds[deps[k] as int].minute
                && plan.departure_usage@[k].principal_cents == joint_use(
                tt,
                qs,
                ws,
                n.rails.len() + deps[k],
                qs.len() as int,
            ) && (k > 0 ==> !dep_lt(ds[deps[k] as int], ds[deps[k - 1] as int]))
}

/// Resolve every departure against its rail and collect the budgets.
pub fn resolve(network: &Network, departures: &Vec<RailDeparture>) -> (r: (Vec<Slot>, Vec<Option<u64>>))
    requires
        valid_network(network@),
        first_problem(departure_problems(network@, departure_views(departures@)), departures@.len() as int) is None,
    ensures
        slot_views(r.0@) == resolved(network@, departure_views(departures@)),
        r.1@ == caps_of(network@, departure_views(departures@)),
        timetable_ok(table(network, &r.0, &r.1)),
        slots_distinct(table(network, &r.0, &r.1)),
{
    let ghost n = network@;
    let ghost ds = departure_views(departures@);
    let mut slots: Vec<Slot> = Vec::new();
    let mut caps: Vec<Option<u64>> = Vec::new();
    let mut r: usize = 0;
    while r < network.rails.len()
        invariant
            n == network@,
            r <= n.rails.len(),
            caps@.len() == r,
            forall|q: int| 0 <= q < r ==> #[trigger] caps@[q] == n.rails[q].batch_capacity_cents,
        decreases n.rails.len() - r,
    {
        caps.push(network.rails[r].batch_capacity_cents);
        r += 1;
    }
    let mut i: usize = 0;
    while i < departures.len()
        invariant
            n == network@,
            ds == departure_views(departures@),
            valid_network(n),
            first_problem(departure_problems(n, ds), ds.len() as int) is None,
            i <= ds.len(),
            slots@.len() == i,
            caps@.len() == n.rails.len() + i,
            forall|k: int| 0 <= k < i ==> (#[trigger] slots@[k])@ == slot_of(n, ds[k]),
            forall|k: int| 0 <= k < i ==> first_rail_with(n, ds[k].rail, (#[trigger] slots@[k]).rail as int),
            forall|q: int| 0 <= q < n.rails.len() ==> #[trigger] caps@[q] == n.rails[q].batch_capacity_cents,
            forall|k: int| 0 <= k < i ==> #[trigger] caps@[n.rails.len() + k] == ds[k].cap,
        decreases ds.len() - i,
    {
        let d = &departures[i];
        assert(ds[i as int] == d@);
        proof {
            lemma_first_problem_none(departure_problems(n, ds), ds.len() as int, i as int);
            assert(departure_problem_at(n, ds, i as int) is None);
        }
        let rail = match rail_position(network, &d.rail_id) {
            Some(k) => k,
            None => {
                proof {
                    assert(false);
                }
                0
            },
        };
        let settle: u32 = match d.settlement_minutes {
            Some(s) => s,
            None => network.rails[rail].settlement_minutes,
        };
        assert(settle == effective_settle(n, ds[i as int]));
        let fee: u64 = match d.fee_cents {
            Some(f) => f,
            None => network.rails[rail].fee_cents,
        };
        let slot = Slot { rail, departure: d.departure_minute, arrival: d.departure_minute + settle as u64, fee };
        slots.push(slot);
        caps.push(d.capacity_cents);
        i += 1;
    }
    let ghost tt = table(network, &slots, &caps);
    proof {
        assert(slot_views(slots@) =~= resolved(n, ds));
        assert forall|q: int| 0 <= q < caps@.len() implies #[trigger] caps@[q] == caps_of(n, ds)[q] by {
            if q >= n.rails.len() {
                let k = q - n.rails.len();
                assert(caps@[n.rails.len() + k] == ds[k].cap);
            }
        }
        assert(caps@ =~= caps_of(n, ds));
        assert forall|a: int, b: int|
            0 <= a < tt.slots.len() && 0 <= b < tt.slots.len() && a != b implies !(tt.n.rails[(#[trigger] tt.slots[a]).rail].id
            == tt.n.rails[(#[trigger] tt.slots[b]).rail].id && tt.slots[a].departure == tt.slots[b].departure) by {
            assert(tt.slots[a] == slots@[a]@);
            assert(tt.slots[b] == slots@[b]@);
            assert(first_rail_with(n, ds[a].rail, slots@[a].rail as int));
            assert(first_rail_with(n, ds[b].rail, slots@[b].rail as int));
            let (lo, hi) = if a < b { (a, b) } else { (b, a) };
            if tt.n.rails[tt.slots[lo].rail].id == tt.n.rails[tt.slots[hi].rail].id && tt.slots[lo].departure
                == tt.slots[hi].departure {
                lemma_first_problem_none(departure_problems(n, ds), ds.len() as int, hi);
                assert(departure_problem_at(n, ds, hi) is None);
                assert(ds[lo].rail == ds[hi].rail && ds[lo].minute == ds[hi].minute);
            }
        }
        assert forall|k: int| 0 <= k < tt.slots.len() implies {
            let s = #[trigger] tt.slots[k];
            &&& 0 <= s.rail < tt.n.rails.len()
            &&& 0 <= s.departure <= s.arrival <= u64::MAX
            &&& 0 <= s.fee <= u64::MAX
        } by {
            assert(tt.slots[k] == slots@[k]@);
        }
    }
    let ni = network.institutions.len();
    assert(n.institutions.len() == ni);
    (slots, caps)
}

/// Every admissible timed walk of one payment, in timed hop order.
pub fn payment_schedules(network: &Network, slots: &Vec<Slot>, caps: &Vec<Option<u64>>, payment: &TimedPayment) -> (r: Vec<TimedCand>)
    requires
        timetable_ok(table(network, slots, caps)),
        payment_problem(network@, payment@.payment) is None,
    ensures
        sound(table(network, slots, caps), payment@, r@),
        forall|w: Seq<TStep>| #[trigger] timed_walk(table(network, slots, caps), payment@, w) ==> listed(table(network, slots, caps), payment@, r@, w),
        ordered(r@),
{
    let ghost tt = table(network, slots, caps);
    let ghost t = payment@;
    let ghost w0 = Seq::<TStep>::empty();
    let mut visited: Vec<String> = Vec::new();
    visited.push(copy_string(&payment.payment.sender));
    let mut hops: Vec<crate::scheduling::ScheduledHop> = Vec::new();
    let mut used: Vec<u128> = Vec::new();
    let mut q: usize = 0;
    while q < caps.len()
        invariant
            q <= caps@.len(),
            used@.len() == q,
            forall|z: int| 0 <= z < q ==> used@[z] == 0,
        decreases caps@.len() - q,
    {
        used.push(0);
        q += 1;
    }
    let mut answers: Vec<TimedCand> = Vec::new();
    proof {
        assert(texts(visited@) =~= tnodes(t.payment.sender, w0));
        assert(thop_views(hops@) =~= walk_thops(tt, t.payment.sender, w0));
        assert(tnodes(t.payment.sender, w0) =~= seq![t.payment.sender]);
        assert(used@ =~= usage_of(tt, t, w0));
        assert(crate::network::is_institution(tt.n, t.payment.sender));
    }
    visit_timed(
        network,
        slots,
        caps,
        payment,
        &payment.payment.sender,
        payment.earliest_execution_minute,
        0,
        &mut visited,
        &mut hops,
        &mut used,
        &mut answers,
        Ghost(w0),
    );
    proof {
        assert forall|w: Seq<TStep>| #[trigger] timed_walk(tt, t, w) implies listed(tt, t, answers@, w) by {
            assert(w.take(0) =~= w0);
            assert(textends(w, w0));
        }
    }
    let ghost before = answers@;
    let sorted = crate::order::sort_ordered(answers);
    proof {
        broadcast use vstd::seq_lib::group_to_multiset_ensures;

        assert forall|j: int| 0 <= j < sorted@.len() implies #[trigger] has_walk(tt, t, sorted@[j]) by {
            assert(sorted@.to_multiset().count(sorted@[j]) > 0);
            assert(before.contains(sorted@[j]));
            let k = choose|k: int| 0 <= k < before.len() && before[k] == sorted@[j];
            assert(has_walk(tt, t, before[k]));
        }
        assert forall|w: Seq<TStep>| #[trigger] timed_walk(tt, t, w) implies listed(tt, t, sorted@, w) by {
            assert(listed(tt, t, before, w));
            let k = choose|k: int| 0 <= k < before.len() && (#[trigger] before[k]).route@ == troute(tt, t, w);
            assert(before.to_multiset().count(before[k]) > 0);
            assert(sorted@.contains(before[k]));
            let j = choose|j: int| 0 <= j < sorted@.len() && sorted@[j] == before[k];
            assert(sorted@[j].route@ == troute(tt, t, w));
        }
    }
    sorted
}

pub fn joint_of(c: &TimedCand) -> (d: JointCand)
    ensures
        d.fee == c.route.total_fee_cents,
        d.elapsed == c.route.elapsed_minutes,
        d.hops == c.route.hops@.len(),
        d.usage@ == c.usage@,
{
    JointCand {
        fee: c.route.total_fee_cents,
        elapsed: c.route.elapsed_minutes as u128,
        hops: c.route.hops.len(),
        usage: copy_u128s(&c.usage),
    }
}

/// A departure's sort key.
pub struct DepKey {
    pub rail: String,
    pub minute: u64,
}

impl Ordered for DepKey {
    open spec fn precedes(&self, other: &Self) -> bool {
        text_lt(self.rail@, other.rail@) || (self.rail@ == other.rail@ && self.minute < other.minute)
    }

    fn before(&self, other: &Self) -> (r: bool) {
        let c = compare_text(&self.rail, &other.rail);
        if c != 0 {
            c < 0
        } else {
            self.minute < other.minute
        }
    }

    proof fn precedes_irreflexive(a: Self) {
        lemma_text_lt_irreflexive(a.rail@);
    }

    proof fn precedes_transitive(a: Self, b: Self, c: Self) {
        lemma_text_lt_irreflexive(a.rail@);
        lemma_text_lt_irreflexive(b.rail@);
        if text_lt(a.rail@, b.rail@) && text_lt(b.rail@, c.rail@) {
            lemma_text_lt_transitive(a.rail@, b.rail@, c.rail@);
        }
    }
}

/// Principal the chosen candidates place on resource `q`.
fn resource_total(
    jcs: &Vec<Vec<JointCand>>,
    best: &Best,
    q: usize,
    Ghost(m): Ghost<int>,
    Ghost(bnd): Ghost<int>,
    Ghost(hb): Ghost<int>,
) -> (total: u128)
    requires
        crate::joint::valid_choice(crate::joint::cands_view(*jcs), best.choice@),
        crate::joint::bounded(crate::joint::cands_view(*jcs), m, bnd, hb),
        q < m,
    ensures
        total == crate::joint::use_sum(crate::joint::cands_view(*jcs), best.choice@, q as int, jcs@.len() as int),
{
    let ghost jc = crate::joint::cands_view(*jcs);
    let ghost x = best.choice@;
    let mut total: u128 = 0;
    let mut i: usize = 0;
    while i < jcs.len()
        invariant
            jc == crate::joint::cands_view(*jcs),
            crate::joint::valid_choice(jc, x),
            crate::joint::bounded(jc, m, bnd, hb),
            x == best.choice@,
            q < m,
            i <= jcs@.len(),
            total == crate::joint::use_sum(jc, x, q as int, i as int),
        decreases jcs@.len() - i,
    {
        proof {
            crate::joint::lemma_sum_bounds(jc, x, i + 1, m, bnd, hb);
            crate::scheduling::assign::lemma_mul_le(i + 1, jc.len() as int, bnd);
            assert(jc[i as int] == jcs@[i as int]@);
            assert(x[i as int] < jc[i as int].len());
            assert(crate::joint::pick(jc, x, i as int) == jcs@[i as int]@[x[i as int] as int]);
            assert(jcs@[i as int]@[x[i as int] as int].usage@.len() == m);
            assert(crate::joint::use_sum(jc, x, q as int, i + 1) == total + jcs@[i as int]@[x[i as int] as int].usage@[q as int]);
        }
        total = total + jcs[i][best.choice[i]].usage[q];
        i += 1;
    }
    total
}

#[verifier::rlimit(60)]
pub fn build_schedule_plan(
    network: &Network,
    payments: &Vec<TimedPayment>,
    departures: &Vec<RailDeparture>,
    order: &Vec<usize>,
    cands: &Vec<Vec<TimedCand>>,
    jcs: &Vec<Vec<JointCand>>,
    best: &Best,
    Ghost(tt): Ghost<Timetable>,
    Ghost(qs): Ghost<Seq<TimedPaymentView>>,
    Ghost(cs): Ghost<Seq<Seq<TimedCand>>>,
) -> (plan: ScheduledBatchPlan)
    requires
        tt == timetable_of(network@, departure_views(departures@)),
        linked(tt, qs, cs, crate::joint::cands_view(*jcs)),
        qs == Seq::new(order@.len(), |k: int| payments@[order@[k] as int]@),
        is_perm(order@, payments@.len() as int),
        cs == cands@.map_values(|v: Vec<TimedCand>| v@),
        crate::joint::best_ok(crate::joint::cands_view(*jcs), tt.caps, Some(*best)),
        crate::joint::bounded(
            crate::joint::cands_view(*jcs),
            tt.caps.len() as int,
            (network@.institutions.len() * 0xffff_ffff_ffff_ffff) as int,
            network@.institutions.len() as int,
        ),
        network@.rails.len() + departures@.len() <= usize::MAX,
    ensures
        schedule_reports(tt, departure_views(departures@), qs, ws_of(tt, qs, cs, best.choice@), plan),
{
    let ghost n = network@;
    let ghost ds = departure_views(departures@);
    let ghost jc = crate::joint::cands_view(*jcs);
    let ghost x = best.choice@;
    let ghost ws = ws_of(tt, qs, cs, x);
    let ghost bnd = (n.institutions.len() * 0xffff_ffff_ffff_ffff) as int;
    let ghost hb = n.institutions.len() as int;
    let ghost m = tt.caps.len() as int;
    proof {
        crate::scheduling::assign::lemma_sums_match(tt, qs, cs, jc, x, x.len() as int);
    }
    let mut assignments: Vec<ScheduledPaymentRoute> = Vec::new();
    let mut k: usize = 0;
    while k < order.len()
        invariant
            linked(tt, qs, cs, jc),
            qs == Seq::new(order@.len(), |k: int| payments@[order@[k] as int]@),
            is_perm(order@, payments@.len() as int),
            cs == cands@.map_values(|v: Vec<TimedCand>| v@),
            jc == crate::joint::cands_view(*jcs),
            crate::joint::best_ok(jc, tt.caps, Some(*best)),
            x == best.choice@,
            ws == ws_of(tt, qs, cs, x),
            k <= order@.len(),
            assignments@.len() == k,
            forall|i: int|
                0 <= i < k ==> (#[trigger] assignments@[i]).payment_id@ == qs[i].payment.id && assignments@[i].route@
                    == troute(tt, qs[i], ws[i]),
        decreases order@.len() - k,
    {
        let c = best.choice[k];
        proof {
            assert(cs[k as int].len() == jc[k as int].len());
            lemma_walk_at(tt, qs, cs, jc, k as int, c as int);
            assert(cands@[k as int]@ == cs[k as int]);
        }
        let route = copy_scheduled_route(&cands[k][c].route);
        let id = copy_string(&payments[order[k]].payment.id);
        assignments.push(ScheduledPaymentRoute { payment_id: id, route });
        k += 1;
    }
    let rail_ids_vec = crate::network::id_list_of_rails(network);
    let rail_order = crate::order::id_order(&rail_ids_vec);
    assert(n.rails.len() == network.rails@.len());
    let mut rail_usage: Vec<RailUsage> = Vec::new();
    let mut q: usize = 0;
    while q < rail_order.len()
        invariant
            linked(tt, qs, cs, jc),
            tt.n == n,
            jc == crate::joint::cands_view(*jcs),
            crate::joint::best_ok(jc, tt.caps, Some(*best)),
            crate::joint::bounded(jc, m, bnd, hb),
            m == tt.caps.len(),
            x == best.choice@,
            ws == ws_of(tt, qs, cs, x),
            texts(rail_ids_vec@) == rail_ids(n),
            n == network@,
            n.rails.len() == network.rails@.len(),
            is_perm(rail_order@, n.rails.len() as int),
            forall|q: int| 0 <= q < m ==> #[trigger] crate::joint::use_sum(jc, x, q, x.len() as int) == joint_use(tt, qs, ws, q, x.len() as int),
            q <= rail_order@.len(),
            rail_usage@.len() == q,
            forall|t: int|
                0 <= t < q ==> (#[trigger] rail_usage@[t]).rail_id@ == n.rails[rail_order@[t] as int].id
                    && rail_usage@[t].principal_cents == joint_use(tt, qs, ws, rail_order@[t] as int, qs.len() as int),
        decreases rail_order@.len() - q,
    {
        let r = rail_order[q];
        assert(r < network.rails@.len());
        let total = resource_total(jcs, best, r, Ghost(m), Ghost(bnd), Ghost(hb));
        proof {
            assert(x.len() == jc.len());
            assert(n.rails[r as int] == network.rails@[r as int]@);
        }
        rail_usage.push(RailUsage { rail_id: copy_string(&network.rails[r].id), principal_cents: total });
        q += 1;
    }
    proof {
        assert forall|t: int| 0 <= t < rail_order@.len() implies (#[trigger] rail_usage@[t]).rail_id@ == n.rails[rail_order@[t] as int].id
            && rail_usage@[t].principal_cents == joint_use(tt, qs, ws, rail_order@[t] as int, qs.len() as int)
            && (t > 0 ==> !text_lt(n.rails[rail_order@[t] as int].id, n.rails[rail_order@[t - 1] as int].id)) by {
            if t > 0 {
                assert(texts(rail_ids_vec@)[rail_order@[t] as int] == n.rails[rail_order@[t] as int].id);
                assert(texts(rail_ids_vec@)[rail_order@[t - 1] as int] == n.rails[rail_order@[t - 1] as int].id);
            }
        }
        assert(is_perm(rail_order@, n.rails.len() as int));
    }
    let mut keys: Vec<DepKey> = Vec::new();
    let mut d: usize = 0;
    while d < departures.len()
        invariant
            ds == departure_views(departures@),
            d <= ds.len(),
            keys@.len() == d,
            forall|z: int| 0 <= z < d ==> (#[trigger] keys@[z]).rail@ == ds[z].rail && keys@[z].minute == ds[z].minute,
        decreases ds.len() - d,
    {
        keys.push(DepKey { rail: copy_string(&departures[d].rail_id), minute: departures[d].departure_minute });
        d += 1;
    }
    let dep_order = crate::order::position_order(&keys);
    let nr = network.rails.len();
    let mut departure_usage: Vec<DepartureUsage> = Vec::new();
    let mut e: usize = 0;
    while e < dep_order.len()
        invariant
            linked(tt, qs, cs, jc),
            tt.n == n,
            tt.caps.len() == n.rails.len() + ds.len(),
            ds == departure_views(departures@),
            jc == crate::joint::cands_view(*jcs),
            crate::joint::best_ok(jc, tt.caps, Some(*best)),
            crate::joint::bounded(jc, m, bnd, hb),
            m == tt.caps.len(),
            x == best.choice@,
            ws == ws_of(tt, qs, cs, x),
            nr == n.rails.len(),
            nr + ds.len() <= usize::MAX,
            keys@.len() == ds.len(),
            forall|z: int| 0 <= z < ds.len() ==> (#[trigger] keys@[z]).rail@ == ds[z].rail && keys@[z].minute == ds[z].minute,
            is_perm(dep_order@, ds.len() as int),
            forall|q: int| 0 <= q < m ==> #[trigger] crate::joint::use_sum(jc, x, q, x.len() as int) == joint_use(tt, qs, ws, q, x.len() as int),
            e <= dep_order@.len(),
            departure_usage@.len() == e,
            forall|t: int|
                0 <= t < e ==> (#[trigger] departure_usage@[t]).rail_id@ == ds[dep_order@[t] as int].rail
                    && departure_usage@[t].departure_minute == ds[dep_order@[t] as int].minute
                    && departure_usage@[t].principal_cents == joint_use(tt, qs, ws, nr + dep_order@[t], qs.len() as int),
        decreases dep_order@.len() - e,
    {
        let i = dep_order[e];
        assert(i < departures@.len());
        let total = resource_total(jcs, best, nr + i, Ghost(m), Ghost(bnd), Ghost(hb));
        proof {
            assert(x.len() == jc.len());
            assert(ds[i as int] == departures@[i as int]@);
        }
        departure_usage.push(
            DepartureUsage {
                rail_id: copy_string(&departures[i].rail_id),
                departure_minute: departures[i].departure_minute,
                principal_cents: total,
            },
        );
        e += 1;
    }
    proof {
        assert forall|t: int| 0 <= t < dep_order@.len() implies (#[trigger] departure_usage@[t]).rail_id@ == ds[dep_order@[t] as int].rail
            && departure_usage@[t].departure_minute == ds[dep_order@[t] as int].minute
            && departure_usage@[t].principal_cents == joint_use(tt, qs, ws, n.rails.len() + dep_order@[t], qs.len() as int)
            && (t > 0 ==> !dep_lt(ds[dep_order@[t] as int], ds[dep_order@[t - 1] as int])) by {
            if t > 0 {
                assert(!keys@[dep_order@[t] as int].precedes(&keys@[dep_order@[t - 1] as int]));
            }
        }
        assert(is_perm(dep_order@, ds.len() as int));
    }
    ScheduledBatchPlan {
        assignments,
        rail_usage,
        departure_usage,
        total_fee_cents: best.fee,
        total_elapsed_minutes: best.elapsed,
    }
}

} // verus!
