//! Timed walks: simple paths that wait for and ride the supplied departures, and
//! the complete enumeration of one payment's admissible timed walks.
use vstd::prelude::*;
use crate::network::{Network, NetworkView, valid_network, is_institution, institution_ids, texts};
use crate::routing::{
    HopView, RouteHop, rail_admits, contains_text, lemma_members_are_institutions,
    lemma_distinct_institutions_bound, lemma_u128_sum_bounds,
};
use crate::text::{copy_string, same_text};
use crate::scheduling::{TimedPayment, TimedPaymentView, ScheduledHop, ScheduledRoute};

verus! {

/// A departure resolved against the network: its rail's position, its minutes of
/// departure and arrival, and the fee it charges per hop.
pub struct SlotView {
    pub rail: int,
    pub departure: int,
    pub arrival: int,
    pub fee: int,
}

/// The executable form of a resolved departure.
pub struct Slot {
    pub rail: usize,
    pub departure: u64,
    pub arrival: u64,
    pub fee: u64,
}

impl View for Slot {
    type V = SlotView;

    open spec fn view(&self) -> SlotView {
        SlotView {
            rail: self.rail as int,
            departure: self.departure as int,
            arrival: self.arrival as int,
            fee: self.fee as int,
        }
    }
}

pub open spec fn slot_views(v: Seq<Slot>) -> Seq<SlotView> {
    v.map_values(|s: Slot| s@)
}

/// The network, its resolved departures, and one optional budget per resource:
/// first each rail's whole-batch budget, then each departure's own budget.
pub struct Timetable {
    pub n: NetworkView,
    pub slots: Seq<SlotView>,
    pub caps: Seq<Option<u64>>,
}

pub open spec fn table(network: &Network, slots: &Vec<Slot>, caps: &Vec<Option<u64>>) -> Timetable {
    Timetable { n: network@, slots: slot_views(slots@), caps: caps@ }
}

pub open spec fn timetable_ok(tt: Timetable) -> bool {
    &&& valid_network(tt.n)
    &&& tt.n.institutions.len() < 0x1_0000_0000_0000_0000
    &&& tt.caps.len() == tt.n.rails.len() + tt.slots.len()
    &&& forall|i: int|
        0 <= i < tt.slots.len() ==> {
            let s = #[trigger] tt.slots[i];
            &&& 0 <= s.rail < tt.n.rails.len()
            &&& 0 <= s.departure <= s.arrival <= u64::MAX
            &&& 0 <= s.fee <= u64::MAX
        }
}

/// One hop of a timed walk: the departure it rides and the institution it reaches.
pub struct TStep {
    pub slot: int,
    pub to: Seq<char>,
}

pub open spec fn tnodes(from: Seq<char>, w: Seq<TStep>) -> Seq<Seq<char>> {
    seq![from] + w.map_values(|s: TStep| s.to)
}

/// When the principal is ready to move on after the first `k` hops.
pub open spec fn ready_after(tt: Timetable, release: int, w: Seq<TStep>, k: int) -> int {
    if k <= 0 {
        release
    } else {
        tt.slots[w[k - 1].slot].arrival
    }
}

/// From `at`, ready at `ready`, ride departure `s.slot` to `s.to`: the departure is
/// no earlier, its rail admits the amount and has both ends as members.
pub open spec fn tstep_ok(tt: Timetable, amount: u64, at: Seq<char>, ready: int, s: TStep) -> bool {
    &&& 0 <= s.slot < tt.slots.len()
    &&& tt.slots[s.slot].departure >= ready
    &&& rail_admits(tt.n.rails[tt.slots[s.slot].rail], amount)
    &&& tt.n.rails[tt.slots[s.slot].rail].participants.contains(at)
    &&& tt.n.rails[tt.slots[s.slot].rail].participants.contains(s.to)
}

pub open spec fn twalk_ok(tt: Timetable, t: TimedPaymentView, w: Seq<TStep>) -> bool {
    &&& forall|k: int|
        0 <= k < w.len() ==> tstep_ok(
            tt,
            t.payment.amount_cents,
            tnodes(t.payment.sender, w)[k],
            ready_after(tt, t.release as int, w, k),
            #[trigger] w[k],
        )
    &&& tnodes(t.payment.sender, w).no_duplicates()
}

/// When the walk delivers.
pub open spec fn finish(tt: Timetable, t: TimedPaymentView, w: Seq<TStep>) -> int {
    ready_after(tt, t.release as int, w, w.len() as int)
}

/// Delivery at `at` meets the absolute deadline and the delivery bound from release.
pub open spec fn on_time(t: TimedPaymentView, at: int) -> bool {
    &&& t.deadline matches Some(d) ==> at <= d
    &&& t.payment.max_delivery_minutes matches Some(m) ==> at - t.release <= m
}

/// Whether a hop on departure `slot` draws on resource `q`: its rail's batch
/// budget or the departure's own budget.
pub open spec fn takes(tt: Timetable, slot: int, q: int) -> bool {
    q == tt.slots[slot].rail || q == tt.n.rails.len() + slot
}

/// How many hops of `w` draw on resource `q`.
pub open spec fn count_res(tt: Timetable, w: Seq<TStep>, q: int) -> int
    decreases w.len(),
{
    if w.len() == 0 {
        0
    } else {
        count_res(tt, w.drop_last(), q) + if takes(tt, w.last().slot, q) { 1int } else { 0int }
    }
}

/// Principal the walk places on each resource.
pub open spec fn usage_of(tt: Timetable, t: TimedPaymentView, w: Seq<TStep>) -> Seq<u128> {
    Seq::new(tt.caps.len(), |q: int| (t.payment.amount_cents * count_res(tt, w, q)) as u128)
}

/// The walk alone stays within every budget.
pub open spec fn own_fits(tt: Timetable, t: TimedPaymentView, w: Seq<TStep>) -> bool {
    forall|q: int|
        0 <= q < tt.caps.len() && tt.caps[q] is Some ==> t.payment.amount_cents * #[trigger] count_res(tt, w, q)
            <= tt.caps[q]->0
}

/// A simple timed path from the sender to the receiver, delivered on time.
pub open spec fn timed_feasible(tt: Timetable, t: TimedPaymentView, w: Seq<TStep>) -> bool {
    &&& twalk_ok(tt, t, w)
    &&& tnodes(t.payment.sender, w).last() == t.payment.receiver
    &&& on_time(t, finish(tt, t, w))
}

/// An admissible candidate for the payment on its own: feasible and within budgets.
pub open spec fn timed_walk(tt: Timetable, t: TimedPaymentView, w: Seq<TStep>) -> bool {
    timed_feasible(tt, t, w) && own_fits(tt, t, w)
}

pub open spec fn textends(w: Seq<TStep>, prefix: Seq<TStep>) -> bool {
    w.len() >= prefix.len() && w.take(prefix.len() as int) == prefix
}

// ---------------------------------------------------------------------------
// Timed routes.

pub struct TimedHopView {
    pub hop: HopView,
    pub departure: int,
    pub arrival: int,
    pub fee: int,
}

impl View for ScheduledHop {
    type V = TimedHopView;

    open spec fn view(&self) -> TimedHopView {
        TimedHopView {
            hop: self.transfer@,
            departure: self.departure_minute as int,
            arrival: self.arrival_minute as int,
            fee: self.fee_cents as int,
        }
    }
}

pub open spec fn thop_views(v: Seq<ScheduledHop>) -> Seq<TimedHopView> {
    v.map_values(|h: ScheduledHop| h@)
}

pub struct TimedRouteView {
    pub hops: Seq<TimedHopView>,
    pub fee: int,
    pub elapsed: int,
}

impl View for ScheduledRoute {
    type V = TimedRouteView;

    open spec fn view(&self) -> TimedRouteView {
        TimedRouteView {
            hops: thop_views(self.hops@),
            fee: self.total_fee_cents as int,
            elapsed: self.elapsed_minutes as int,
        }
    }
}

pub open spec fn walk_thops(tt: Timetable, from: Seq<char>, w: Seq<TStep>) -> Seq<TimedHopView> {
    Seq::new(
        w.len(),
        |k: int|
            {
                let s = tt.slots[w[k].slot];
                TimedHopView {
                    hop: HopView { rail: tt.n.rails[s.rail].id, sender: tnodes(from, w)[k], receiver: w[k].to },
                    departure: s.departure,
                    arrival: s.arrival,
                    fee: s.fee,
                }
            },
    )
}

pub open spec fn tfee(tt: Timetable, w: Seq<TStep>) -> int
    decreases w.len(),
{
    if w.len() == 0 {
        0
    } else {
        tfee(tt, w.drop_last()) + tt.slots[w.last().slot].fee
    }
}

/// The scheduled route a timed walk describes.
pub open spec fn troute(tt: Timetable, t: TimedPaymentView, w: Seq<TStep>) -> TimedRouteView {
    TimedRouteView {
        hops: walk_thops(tt, t.payment.sender, w),
        fee: tfee(tt, w),
        elapsed: finish(tt, t, w) - t.release,
    }
}

// ---------------------------------------------------------------------------
// Lemmas about timed walks.

pub proof fn lemma_tnodes_push(from: Seq<char>, w: Seq<TStep>, s: TStep)
    ensures
        tnodes(from, w.push(s)) == tnodes(from, w).push(s.to),
        tnodes(from, w).len() == w.len() + 1,
        tnodes(from, w)[0] == from,
        forall|k: int| 0 <= k < w.len() ==> tnodes(from, w)[k + 1] == (#[trigger] w[k]).to,
{
    assert(tnodes(from, w.push(s)) =~= tnodes(from, w).push(s.to));
}

/// Readiness never goes back along an allowed walk.
pub proof fn lemma_ready_monotone(tt: Timetable, t: TimedPaymentView, w: Seq<TStep>, j: int, k: int)
    requires
        timetable_ok(tt),
        twalk_ok(tt, t, w),
        0 <= j <= k <= w.len(),
    ensures
        ready_after(tt, t.release as int, w, j) <= ready_after(tt, t.release as int, w, k),
    decreases k - j,
{
    if j < k {
        lemma_ready_monotone(tt, t, w, j + 1, k);
        let s = w[j];
        assert(tstep_ok(tt, t.payment.amount_cents, tnodes(t.payment.sender, w)[j], ready_after(tt, t.release as int, w, j), s));
        assert(tt.slots[s.slot].departure <= tt.slots[s.slot].arrival);
    }
}

/// An extension is ready where its prefix finishes, and finishes no earlier.
pub proof fn lemma_prefix_finish(tt: Timetable, t: TimedPaymentView, w0: Seq<TStep>, w: Seq<TStep>)
    requires
        timetable_ok(tt),
        textends(w, w0),
        twalk_ok(tt, t, w),
    ensures
        ready_after(tt, t.release as int, w, w0.len() as int) == finish(tt, t, w0),
        finish(tt, t, w0) <= finish(tt, t, w),
        finish(tt, t, w0) >= t.release,
{
    if w0.len() > 0 {
        assert(w.take(w0.len() as int)[w0.len() - 1] == w[w0.len() - 1]);
    }
    lemma_ready_monotone(tt, t, w, w0.len() as int, w.len() as int);
    lemma_ready_monotone(tt, t, w, 0, w0.len() as int);
}

/// The first hop a timed walk adds to its prefix is allowed from where and when
/// the prefix ends, and reaches an institution the prefix has not visited.
pub proof fn lemma_first_extra_tstep(tt: Timetable, t: TimedPaymentView, w0: Seq<TStep>, w: Seq<TStep>)
    requires
        timetable_ok(tt),
        textends(w, w0),
        w.len() > w0.len(),
        twalk_ok(tt, t, w),
    ensures
        tstep_ok(
            tt,
            t.payment.amount_cents,
            tnodes(t.payment.sender, w0).last(),
            finish(tt, t, w0),
            w[w0.len() as int],
        ),
        !tnodes(t.payment.sender, w0).contains(w[w0.len() as int].to),
        forall|k: int| 0 <= k < w0.len() ==> w[k] == w0[k],
        textends(w, w0.push(w[w0.len() as int])),
{
    let from = t.payment.sender;
    let nodes = tnodes(from, w);
    let nodes0 = tnodes(from, w0);
    assert forall|k: int| 0 <= k < w0.len() implies w[k] == w0[k] by {
        assert(w.take(w0.len() as int)[k] == w[k]);
    }
    assert forall|k: int| 0 <= k < nodes0.len() implies nodes[k] == nodes0[k] by {
        if k > 0 {
            assert(w[k - 1] == w0[k - 1]);
        }
    }
    lemma_prefix_finish(tt, t, w0, w);
    assert(tstep_ok(tt, t.payment.amount_cents, nodes[w0.len() as int], ready_after(tt, t.release as int, w, w0.len() as int), w[w0.len() as int]));
    if nodes0.contains(w[w0.len() as int].to) {
        let m = choose|m: int| 0 <= m < nodes0.len() && #[trigger] nodes0[m] == w[w0.len() as int].to;
        assert(nodes[m] == nodes0[m]);
        assert(nodes[w0.len() as int + 1] == w[w0.len() as int].to);
    }
    let w1 = w0.push(w[w0.len() as int]);
    assert(w.take(w1.len() as int) =~= w1);
}

/// A completion of a walk that already reached the receiver is the walk itself.
pub proof fn lemma_no_textension_past_receiver(tt: Timetable, t: TimedPaymentView, w0: Seq<TStep>, w: Seq<TStep>)
    requires
        textends(w, w0),
        timed_feasible(tt, t, w),
        tnodes(t.payment.sender, w0).last() == t.payment.receiver,
    ensures
        w == w0,
{
    if w.len() > w0.len() {
        let nodes = tnodes(t.payment.sender, w);
        assert(nodes[w0.len() as int] == tnodes(t.payment.sender, w0).last()) by {
            if w0.len() > 0 {
                assert(w.take(w0.len() as int)[w0.len() - 1] == w[w0.len() - 1]);
            }
        }
        assert(nodes[w0.len() as int] == nodes[w.len() as int]);
    } else {
        assert(w =~= w0);
    }
}

/// Every node of an allowed timed walk from an institution is an institution, and
/// the walk is shorter than there are institutions.
pub proof fn lemma_tnodes_institutions(tt: Timetable, t: TimedPaymentView, w: Seq<TStep>)
    requires
        timetable_ok(tt),
        is_institution(tt.n, t.payment.sender),
        twalk_ok(tt, t, w),
    ensures
        forall|k: int|
            0 <= k < tnodes(t.payment.sender, w).len() ==> is_institution(tt.n, #[trigger] tnodes(t.payment.sender, w)[k]),
        w.len() < tt.n.institutions.len(),
{
    let nodes = tnodes(t.payment.sender, w);
    assert forall|k: int| 0 <= k < nodes.len() implies is_institution(tt.n, #[trigger] nodes[k]) by {
        if k > 0 {
            let s = w[k - 1];
            assert(tstep_ok(tt, t.payment.amount_cents, nodes[k - 1], ready_after(tt, t.release as int, w, k - 1), s));
            lemma_members_are_institutions(tt.n, tt.slots[s.slot].rail, s.to);
        }
    }
    lemma_distinct_institutions_bound(tt.n, nodes);
}

pub proof fn lemma_count_push(tt: Timetable, w: Seq<TStep>, s: TStep, q: int)
    ensures
        count_res(tt, w.push(s), q) == count_res(tt, w, q) + if takes(tt, s.slot, q) { 1int } else { 0int },
{
    assert(w.push(s).drop_last() =~= w);
}

pub proof fn lemma_count_bounds(tt: Timetable, w: Seq<TStep>, q: int)
    ensures
        0 <= count_res(tt, w, q) <= w.len(),
    decreases w.len(),
{
    if w.len() > 0 {
        lemma_count_bounds(tt, w.drop_last(), q);
    }
}

pub proof fn lemma_count_prefix(tt: Timetable, w: Seq<TStep>, prefix: Seq<TStep>, q: int)
    requires
        textends(w, prefix),
    ensures
        count_res(tt, prefix, q) <= count_res(tt, w, q),
    decreases w.len(),
{
    if w.len() > prefix.len() {
        assert(w.drop_last().take(prefix.len() as int) =~= w.take(prefix.len() as int));
        lemma_count_prefix(tt, w.drop_last(), prefix, q);
    } else {
        assert(w =~= prefix);
    }
}

pub proof fn lemma_tfee_bound(tt: Timetable, w: Seq<TStep>)
    requires
        timetable_ok(tt),
        forall|k: int| 0 <= k < w.len() ==> 0 <= (#[trigger] w[k]).slot < tt.slots.len(),
    ensures
        0 <= tfee(tt, w) <= w.len() * 0xffff_ffff_ffff_ffff,
    decreases w.len(),
{
    if w.len() > 0 {
        lemma_tfee_bound(tt, w.drop_last());
        assert(tt.slots[w.last().slot].fee <= 0xffff_ffff_ffff_ffff);
    }
}

/// Adding an allowed hop to a new institution keeps the walk allowed, and says
/// how its nodes, hops, fee and finish change.
pub proof fn lemma_extend_twalk(tt: Timetable, t: TimedPaymentView, w0: Seq<TStep>, s: TStep)
    requires
        timetable_ok(tt),
        is_institution(tt.n, t.payment.sender),
        twalk_ok(tt, t, w0),
        tstep_ok(tt, t.payment.amount_cents, tnodes(t.payment.sender, w0).last(), finish(tt, t, w0), s),
        !tnodes(t.payment.sender, w0).contains(s.to),
    ensures
        twalk_ok(tt, t, w0.push(s)),
        tnodes(t.payment.sender, w0.push(s)) == tnodes(t.payment.sender, w0).push(s.to),
        w0.len() + 1 < tt.n.institutions.len(),
        walk_thops(tt, t.payment.sender, w0.push(s)) == walk_thops(tt, t.payment.sender, w0).push(
            TimedHopView {
                hop: HopView {
                    rail: tt.n.rails[tt.slots[s.slot].rail].id,
                    sender: tnodes(t.payment.sender, w0).last(),
                    receiver: s.to,
                },
                departure: tt.slots[s.slot].departure,
                arrival: tt.slots[s.slot].arrival,
                fee: tt.slots[s.slot].fee,
            },
        ),
        tfee(tt, w0.push(s)) == tfee(tt, w0) + tt.slots[s.slot].fee,
        finish(tt, t, w0.push(s)) == tt.slots[s.slot].arrival,
{
    let from = t.payment.sender;
    let w1 = w0.push(s);
    let nodes0 = tnodes(from, w0);
    lemma_tnodes_push(from, w0, s);
    let nodes1 = tnodes(from, w1);
    assert forall|i: int, j: int|
        0 <= i < nodes1.len() && 0 <= j < nodes1.len() && i != j implies nodes1[i] != nodes1[j] by {
        if i < nodes0.len() && j < nodes0.len() {
            assert(nodes1[i] == nodes0[i]);
            assert(nodes1[j] == nodes0[j]);
        } else if i < nodes0.len() {
            assert(nodes1[i] == nodes0[i]);
        } else if j < nodes0.len() {
            assert(nodes1[j] == nodes0[j]);
        }
    }
    assert forall|j: int| 0 <= j < w1.len() implies tstep_ok(
        tt,
        t.payment.amount_cents,
        tnodes(from, w1)[j],
        ready_after(tt, t.release as int, w1, j),
        #[trigger] w1[j],
    ) by {
        if j < w0.len() {
            assert(w1[j] == w0[j]);
            assert(nodes1[j] == nodes0[j]);
            if j > 0 {
                assert(w1[j - 1] == w0[j - 1]);
            }
        } else if j > 0 {
            assert(w1[j - 1] == w0[j - 1]);
        }
    }
    assert(twalk_ok(tt, t, w1));
    lemma_tnodes_institutions(tt, t, w1);
    assert(w1.drop_last() =~= w0);
    let h = TimedHopView {
        hop: HopView { rail: tt.n.rails[tt.slots[s.slot].rail].id, sender: nodes0.last(), receiver: s.to },
        departure: tt.slots[s.slot].departure,
        arrival: tt.slots[s.slot].arrival,
        fee: tt.slots[s.slot].fee,
    };
    assert forall|j: int| 0 <= j < w1.len() implies walk_thops(tt, from, w1)[j] == walk_thops(tt, from, w0).push(h)[j] by {
        if j < w0.len() {
            assert(w1[j] == w0[j]);
            assert(nodes1[j] == nodes0[j]);
        }
    }
    assert(walk_thops(tt, from, w1) =~= walk_thops(tt, from, w0).push(h));
}

// ---------------------------------------------------------------------------
// Enumerating one payment's admissible timed walks.

/// A candidate route with the principal it places on each resource.
pub struct TimedCand {
    pub route: ScheduledRoute,
    pub usage: Vec<u128>,
}

pub open spec fn represents(tt: Timetable, t: TimedPaymentView, c: TimedCand, w: Seq<TStep>) -> bool {
    &&& timed_walk(tt, t, w)
    &&& c.route@ == troute(tt, t, w)
    &&& c.usage@ == usage_of(tt, t, w)
}

pub open spec fn has_walk(tt: Timetable, t: TimedPaymentView, c: TimedCand) -> bool {
    exists|w: Seq<TStep>| #[trigger] represents(tt, t, c, w)
}

pub open spec fn sound(tt: Timetable, t: TimedPaymentView, answers: Seq<TimedCand>) -> bool {
    forall|j: int| 0 <= j < answers.len() ==> #[trigger] has_walk(tt, t, answers[j])
}

pub open spec fn listed(tt: Timetable, t: TimedPaymentView, answers: Seq<TimedCand>, w: Seq<TStep>) -> bool {
    exists|j: int| 0 <= j < answers.len() && (#[trigger] answers[j]).route@ == troute(tt, t, w)
}

pub open spec fn enumerates(tt: Timetable, t: TimedPaymentView, w0: Seq<TStep>, answers: Seq<TimedCand>) -> bool {
    forall|w: Seq<TStep>| #![trigger textends(w, w0)] textends(w, w0) && timed_walk(tt, t, w) ==> listed(tt, t, answers, w)
}

/// Every admissible completion of `w0` whose first extra hop rides a departure
/// before `si`, or departure `si` towards a member in `done`, is listed.
#[verifier::opaque]
pub open spec fn enumerated_below(
    tt: Timetable,
    t: TimedPaymentView,
    w0: Seq<TStep>,
    answers: Seq<TimedCand>,
    si: int,
    done: Seq<Seq<char>>,
) -> bool {
    forall|w: Seq<TStep>|
        #![trigger textends(w, w0)]
        textends(w, w0) && timed_walk(tt, t, w) && w.len() > w0.len() && (w[w0.len() as int].slot < si || (
        w[w0.len() as int].slot == si && done.contains(w[w0.len() as int].to))) ==> listed(tt, t, answers, w)
}

pub open spec fn grows(old: Seq<TimedCand>, new: Seq<TimedCand>) -> bool {
    old.len() <= new.len() && forall|j: int| 0 <= j < old.len() ==> #[trigger] new[j] == old[j]
}

proof fn lemma_sound_push(tt: Timetable, t: TimedPaymentView, a: Seq<TimedCand>, c: TimedCand, w: Seq<TStep>)
    requires
        sound(tt, t, a),
        represents(tt, t, c, w),
    ensures
        sound(tt, t, a.push(c)),
{
    let b = a.push(c);
    assert forall|j: int| 0 <= j < b.len() implies #[trigger] has_walk(tt, t, b[j]) by {
        if j < a.len() {
            assert(b[j] == a[j]);
            assert(has_walk(tt, t, a[j]));
        } else {
            assert(represents(tt, t, b[j], w));
        }
    }
}

proof fn lemma_listed_grows(tt: Timetable, t: TimedPaymentView, a: Seq<TimedCand>, b: Seq<TimedCand>, w: Seq<TStep>)
    requires
        listed(tt, t, a, w),
        grows(a, b),
    ensures
        listed(tt, t, b, w),
{
    let j = choose|j: int| 0 <= j < a.len() && (#[trigger] a[j]).route@ == troute(tt, t, w);
    assert(b[j] == a[j]);
}

proof fn lemma_grows_transitive(a: Seq<TimedCand>, b: Seq<TimedCand>, c: Seq<TimedCand>)
    requires
        grows(a, b),
        grows(b, c),
    ensures
        grows(a, c),
{
    assert forall|j: int| 0 <= j < a.len() implies #[trigger] c[j] == a[j] by {
        assert(b[j] == a[j]);
        assert(c[j] == b[j]);
    }
}

#[verifier::spinoff_prover]
proof fn lemma_below_start(tt: Timetable, t: TimedPaymentView, w0: Seq<TStep>, a: Seq<TimedCand>)
    requires
        timetable_ok(tt),
    ensures
        enumerated_below(tt, t, w0, a, 0, Seq::empty()),
{
    reveal(enumerated_below);
    assert forall|w: Seq<TStep>|
        textends(w, w0) && timed_walk(tt, t, w) && w.len() > w0.len() && (w[w0.len() as int].slot < 0 || (
        w[w0.len() as int].slot == 0 && Seq::<Seq<char>>::empty().contains(w[w0.len() as int].to)))
        implies #[trigger] listed(tt, t, a, w) by {
        lemma_first_extra_tstep(tt, t, w0, w);
    }
}

#[verifier::spinoff_prover]
proof fn lemma_below_grows(
    tt: Timetable,
    t: TimedPaymentView,
    w0: Seq<TStep>,
    a: Seq<TimedCand>,
    b: Seq<TimedCand>,
    si: int,
    done: Seq<Seq<char>>,
)
    requires
        enumerated_below(tt, t, w0, a, si, done),
        grows(a, b),
    ensures
        enumerated_below(tt, t, w0, b, si, done),
{
    reveal(enumerated_below);
    assert forall|w: Seq<TStep>|
        textends(w, w0) && timed_walk(tt, t, w) && w.len() > w0.len() && (w[w0.len() as int].slot < si || (
        w[w0.len() as int].slot == si && done.contains(w[w0.len() as int].to))) implies #[trigger] listed(tt, t, b, w) by {
        assert(textends(w, w0));
        lemma_listed_grows(tt, t, a, b, w);
    }
}

/// No admissible completion of `w0` rides departure `si` next.
#[verifier::spinoff_prover]
proof fn lemma_below_skip_slot(tt: Timetable, t: TimedPaymentView, w0: Seq<TStep>, a: Seq<TimedCand>, si: int)
    requires
        enumerated_below(tt, t, w0, a, si, Seq::empty()),
        forall|w: Seq<TStep>|
            #![trigger textends(w, w0)]
            textends(w, w0) && timed_walk(tt, t, w) && w.len() > w0.len() ==> w[w0.len() as int].slot != si,
    ensures
        enumerated_below(tt, t, w0, a, si + 1, Seq::empty()),
{
    reveal(enumerated_below);
    assert forall|w: Seq<TStep>|
        textends(w, w0) && timed_walk(tt, t, w) && w.len() > w0.len() && (w[w0.len() as int].slot < si + 1 || (
        w[w0.len() as int].slot == si + 1 && Seq::<Seq<char>>::empty().contains(w[w0.len() as int].to)))
        implies #[trigger] listed(tt, t, a, w) by {
        assert(textends(w, w0));
    }
}

#[verifier::spinoff_prover]
proof fn lemma_below_next_slot(tt: Timetable, t: TimedPaymentView, w0: Seq<TStep>, a: Seq<TimedCand>, si: int)
    requires
        timetable_ok(tt),
        0 <= si < tt.slots.len(),
        enumerated_below(tt, t, w0, a, si, tt.n.rails[tt.slots[si].rail].participants),
    ensures
        enumerated_below(tt, t, w0, a, si + 1, Seq::empty()),
{
    reveal(enumerated_below);
    assert forall|w: Seq<TStep>|
        textends(w, w0) && timed_walk(tt, t, w) && w.len() > w0.len() && (w[w0.len() as int].slot < si + 1 || (
        w[w0.len() as int].slot == si + 1 && Seq::<Seq<char>>::empty().contains(w[w0.len() as int].to)))
        implies #[trigger] listed(tt, t, a, w) by {
        lemma_first_extra_tstep(tt, t, w0, w);
    }
}

#[verifier::spinoff_prover]
proof fn lemma_below_skip_member(
    tt: Timetable,
    t: TimedPaymentView,
    w0: Seq<TStep>,
    a: Seq<TimedCand>,
    si: int,
    members: Seq<Seq<char>>,
    k: int,
)
    requires
        timetable_ok(tt),
        enumerated_below(tt, t, w0, a, si, members.take(k)),
        0 <= k < members.len(),
        tnodes(t.payment.sender, w0).contains(members[k]),
    ensures
        enumerated_below(tt, t, w0, a, si, members.take(k + 1)),
{
    reveal(enumerated_below);
    assert forall|w: Seq<TStep>|
        textends(w, w0) && timed_walk(tt, t, w) && w.len() > w0.len() && (w[w0.len() as int].slot < si || (
        w[w0.len() as int].slot == si && members.take(k + 1).contains(w[w0.len() as int].to))) implies #[trigger] listed(
        tt,
        t,
        a,
        w,
    ) by {
        lemma_first_extra_tstep(tt, t, w0, w);
        let to = w[w0.len() as int].to;
        if w[w0.len() as int].slot == si {
            let kk = choose|kk: int| 0 <= kk < k + 1 && #[trigger] members.take(k + 1)[kk] == to;
            if kk < k {
                assert(members.take(k)[kk] == to);
            }
        }
    }
}

#[verifier::spinoff_prover]
proof fn lemma_below_after_call(
    tt: Timetable,
    t: TimedPaymentView,
    w0: Seq<TStep>,
    a0: Seq<TimedCand>,
    a: Seq<TimedCand>,
    si: int,
    members: Seq<Seq<char>>,
    k: int,
)
    requires
        timetable_ok(tt),
        enumerated_below(tt, t, w0, a0, si, members.take(k)),
        0 <= k < members.len(),
        grows(a0, a),
        enumerates(tt, t, w0.push(TStep { slot: si, to: members[k] }), a),
    ensures
        enumerated_below(tt, t, w0, a, si, members.take(k + 1)),
{
    reveal(enumerated_below);
    let s = TStep { slot: si, to: members[k] };
    let w1 = w0.push(s);
    assert forall|w: Seq<TStep>|
        textends(w, w0) && timed_walk(tt, t, w) && w.len() > w0.len() && (w[w0.len() as int].slot < si || (
        w[w0.len() as int].slot == si && members.take(k + 1).contains(w[w0.len() as int].to))) implies #[trigger] listed(
        tt,
        t,
        a,
        w,
    ) by {
        let to = w[w0.len() as int].to;
        lemma_first_extra_tstep(tt, t, w0, w);
        if w[w0.len() as int].slot == si && to == members[k] {
            assert(w[w0.len() as int] == s);
            assert(textends(w, w1));
        } else {
            if w[w0.len() as int].slot == si {
                let kk = choose|kk: int| 0 <= kk < k + 1 && #[trigger] members.take(k + 1)[kk] == to;
                if kk < k {
                    assert(members.take(k)[kk] == to);
                }
            }
            assert(listed(tt, t, a0, w));
            lemma_listed_grows(tt, t, a0, a, w);
        }
    }
}

#[verifier::spinoff_prover]
proof fn lemma_below_all(tt: Timetable, t: TimedPaymentView, w0: Seq<TStep>, a: Seq<TimedCand>)
    requires
        timetable_ok(tt),
        enumerated_below(tt, t, w0, a, tt.slots.len() as int, Seq::empty()),
        tnodes(t.payment.sender, w0).last() != t.payment.receiver,
    ensures
        enumerates(tt, t, w0, a),
{
    reveal(enumerated_below);
    assert forall|w: Seq<TStep>| textends(w, w0) && timed_walk(tt, t, w) implies #[trigger] listed(tt, t, a, w) by {
        if w.len() == w0.len() {
            assert(w =~= w0);
        } else {
            lemma_first_extra_tstep(tt, t, w0, w);
        }
    }
}

proof fn lemma_usage_push(tt: Timetable, t: TimedPaymentView, w0: Seq<TStep>, s: TStep)
    ensures
        forall|q: int|
            0 <= q < tt.caps.len() ==> #[trigger] usage_of(tt, t, w0.push(s))[q] == (t.payment.amount_cents * (count_res(tt, w0, q)
                + if takes(tt, s.slot, q) { 1int } else { 0int })) as u128,
{
    assert forall|q: int| 0 <= q < tt.caps.len() implies #[trigger] usage_of(tt, t, w0.push(s))[q] == (t.payment.amount_cents * (count_res(
        tt,
        w0,
        q,
    ) + if takes(tt, s.slot, q) { 1int } else { 0int })) as u128 by {
        lemma_count_push(tt, w0, s, q);
    }
}

proof fn lemma_principal_bound(amount: u64, count: int, len: int)
    requires
        0 <= count <= len,
        len < 0x1_0000_0000_0000_0000,
    ensures
        0 <= amount * count <= u128::MAX,
        amount * count + amount == amount * (count + 1),
        amount * count <= amount * len,
{
    assert(amount * count <= 0xffff_ffff_ffff_ffff * 0xffff_ffff_ffff_ffff) by (nonlinear_arith)
        requires
            0 <= count < 0x1_0000_0000_0000_0000,
            amount <= 0xffff_ffff_ffff_ffff,
    ;
    assert(amount * count + amount == amount * (count + 1)) by (nonlinear_arith);
    assert(0 <= amount * count) by (nonlinear_arith)
        requires
            0 <= count,
    ;
    assert(amount * count <= amount * len) by (nonlinear_arith)
        requires
            0 <= count <= len,
    ;
}

pub fn copy_u128s(v: &Vec<u128>) -> (r: Vec<u128>)
    ensures
        r@ == v@,
{
    let mut r: Vec<u128> = Vec::new();
    let mut i: usize = 0;
    while i < v.len()
        invariant
            i <= v@.len(),
            r@ == v@.take(i as int),
        decreases v@.len() - i,
    {
        r.push(v[i]);
        assert(v@.take(i + 1) =~= v@.take(i as int).push(v@[i as int]));
        i += 1;
    }
    assert(v@.take(i as int) =~= v@);
    r
}

pub fn copy_thop(h: &ScheduledHop) -> (r: ScheduledHop)
    ensures
        r@ == h@,
{
    ScheduledHop {
        transfer: crate::routing::copy_hop(&h.transfer),
        departure_minute: h.departure_minute,
        arrival_minute: h.arrival_minute,
        fee_cents: h.fee_cents,
    }
}

pub fn copy_thops(v: &Vec<ScheduledHop>) -> (r: Vec<ScheduledHop>)
    ensures
        thop_views(r@) == thop_views(v@),
{
    let mut r: Vec<ScheduledHop> = Vec::new();
    let mut i: usize = 0;
    while i < v.len()
        invariant
            i <= v@.len(),
            r@.len() == i,
            forall|j: int| 0 <= j < i ==> (#[trigger] r@[j])@ == v@[j]@,
        decreases v@.len() - i,
    {
        r.push(copy_thop(&v[i]));
        i += 1;
    }
    assert(thop_views(r@) =~= thop_views(v@));
    r
}

pub fn copy_scheduled_route(route: &ScheduledRoute) -> (r: ScheduledRoute)
    ensures
        r@ == route@,
{
    ScheduledRoute {
        hops: copy_thops(&route.hops),
        total_fee_cents: route.total_fee_cents,
        elapsed_minutes: route.elapsed_minutes,
    }
}

/// Depth-first enumeration of one payment's admissible simple timed walks. On
/// return `visited`, `hops` and `used` are as on entry, earlier answers are kept,
/// every answer represents an admissible walk, and every admissible completion of
/// the walk so far is listed.
#[verifier::spinoff_prover]
#[verifier::rlimit(80)]
pub fn visit_timed(
    network: &Network,
    slots: &Vec<Slot>,
    caps: &Vec<Option<u64>>,
    payment: &TimedPayment,
    current: &String,
    ready: u64,
    fee: u128,
    visited: &mut Vec<String>,
    hops: &mut Vec<ScheduledHop>,
    used: &mut Vec<u128>,
    answers: &mut Vec<TimedCand>,
    Ghost(w0): Ghost<Seq<TStep>>,
)
    requires
        timetable_ok(table(network, slots, caps)),
        is_institution(network@, payment@.payment.sender),
        twalk_ok(table(network, slots, caps), payment@, w0),
        own_fits(table(network, slots, caps), payment@, w0),
        texts(old(visited)@) == tnodes(payment@.payment.sender, w0),
        current@ == tnodes(payment@.payment.sender, w0).last(),
        ready == finish(table(network, slots, caps), payment@, w0),
        fee == tfee(table(network, slots, caps), w0),
        thop_views(old(hops)@) == walk_thops(table(network, slots, caps), payment@.payment.sender, w0),
        old(used)@ == usage_of(table(network, slots, caps), payment@, w0),
        sound(table(network, slots, caps), payment@, old(answers)@),
    ensures
        final(visited)@ == old(visited)@,
        final(hops)@ == old(hops)@,
        final(used)@ == old(used)@,
        grows(old(answers)@, final(answers)@),
        sound(table(network, slots, caps), payment@, final(answers)@),
        enumerates(table(network, slots, caps), payment@, w0, final(answers)@),
    decreases network.institutions.len() - old(visited)@.len(),
{
    let ghost tt = table(network, slots, caps);
    let ghost t = payment@;
    let ghost from = t.payment.sender;
    let ghost nodes0 = tnodes(from, w0);
    let ghost a0 = answers@;
    proof {
        lemma_tnodes_institutions(tt, t, w0);
        assert(w0.take(w0.len() as int) =~= w0);
        lemma_prefix_finish(tt, t, w0, w0);
        assert forall|k: int| 0 <= k < w0.len() implies 0 <= (#[trigger] w0[k]).slot < tt.slots.len() by {
            assert(tstep_ok(tt, t.payment.amount_cents, nodes0[k], ready_after(tt, t.release as int, w0, k), w0[k]));
        }
        lemma_tfee_bound(tt, w0);
    }
    let elapsed = ready - payment.earliest_execution_minute;
    let late = match payment.deadline_minute {
        Some(d) => ready > d,
        None => false,
    } || match payment.payment.max_delivery_minutes {
        Some(m) => elapsed > m,
        None => false,
    };
    if late {
        proof {
            assert forall|w: Seq<TStep>| textends(w, w0) && timed_walk(tt, t, w) implies #[trigger] listed(tt, t, answers@, w) by {
                lemma_prefix_finish(tt, t, w0, w);
            }
        }
        return;
    }
    if same_text(current, &payment.payment.receiver) {
        let cand = TimedCand {
            route: ScheduledRoute { hops: copy_thops(hops), total_fee_cents: fee, elapsed_minutes: elapsed },
            usage: copy_u128s(used),
        };
        proof {
            assert(timed_feasible(tt, t, w0));
            assert(cand.route@.hops == walk_thops(tt, from, w0));
            assert(represents(tt, t, cand, w0));
        }
        answers.push(cand);
        proof {
            assert(answers@ == a0.push(cand));
            lemma_sound_push(tt, t, a0, cand, w0);
            assert forall|w: Seq<TStep>| textends(w, w0) && timed_walk(tt, t, w) implies #[trigger] listed(tt, t, answers@, w) by {
                lemma_no_textension_past_receiver(tt, t, w0, w);
                assert(answers@[a0.len() as int].route@ == troute(tt, t, w));
            }
        }
        return;
    }
    proof {
        lemma_below_start(tt, t, w0, answers@);
    }
    let nr = network.rails.len();
    let amount = payment.payment.amount_cents as u128;
    let mut si: usize = 0;
    while si < slots.len()
        invariant
            tt == table(network, slots, caps),
            t == payment@,
            from == t.payment.sender,
            timetable_ok(tt),
            is_institution(tt.n, from),
            twalk_ok(tt, t, w0),
            own_fits(tt, t, w0),
            nodes0 == tnodes(from, w0),
            nodes0.last() != t.payment.receiver,
            texts(visited@) == nodes0,
            visited@ == old(visited)@,
            current@ == nodes0.last(),
            ready == finish(tt, t, w0),
            fee == tfee(tt, w0),
            thop_views(hops@) == walk_thops(tt, from, w0),
            hops@ == old(hops)@,
            used@ == old(used)@,
            used@ == usage_of(tt, t, w0),
            w0.len() < tt.n.institutions.len(),
            fee <= w0.len() * 0xffff_ffff_ffff_ffff,
            nr == tt.n.rails.len(),
            amount == t.payment.amount_cents,
            si <= slots@.len(),
            a0 == old(answers)@,
            grows(a0, answers@),
            sound(tt, t, answers@),
            enumerated_below(tt, t, w0, answers@, si as int, Seq::empty()),
        decreases slots@.len() - si,
    {
        let slot = &slots[si];
        let ghost sv = tt.slots[si as int];
        assert(sv == slot@);
        let rail = &network.rails[slot.rail];
        let ghost r = tt.n.rails[sv.rail];
        assert(r == rail@);
        let rq = slot.rail;
        let ncaps = caps.len();
        assert(ncaps == nr + slots@.len());
        let sq = nr + si;
        proof {
            lemma_count_bounds(tt, w0, rq as int);
            lemma_count_bounds(tt, w0, sq as int);
            lemma_principal_bound(t.payment.amount_cents, count_res(tt, w0, rq as int), tt.n.institutions.len() as int);
            lemma_principal_bound(t.payment.amount_cents, count_res(tt, w0, sq as int), tt.n.institutions.len() as int);
        }
        let on_time_slot = slot.departure >= ready;
        let admits = rail.available && match rail.max_amount_cents {
            Some(limit) => payment.payment.amount_cents <= limit,
            None => true,
        };
        let on_rail = contains_text(&rail.participants, current);
        let rail_fits = match caps[rq] {
            Some(c) => used[rq] + amount <= c as u128,
            None => true,
        };
        let slot_fits = match caps[sq] {
            Some(c) => used[sq] + amount <= c as u128,
            None => true,
        };
        if on_time_slot && admits && on_rail && rail_fits && slot_fits {
            proof {
                assert(r.participants.take(0) =~= Seq::<Seq<char>>::empty());
            }
            let mut k: usize = 0;
            while k < rail.participants.len()
                invariant
                    tt == table(network, slots, caps),
                    t == payment@,
                    from == t.payment.sender,
                    timetable_ok(tt),
                    is_institution(tt.n, from),
                    twalk_ok(tt, t, w0),
                    own_fits(tt, t, w0),
                    nodes0 == tnodes(from, w0),
                    nodes0.last() != t.payment.receiver,
                    texts(visited@) == nodes0,
                    visited@ == old(visited)@,
                    current@ == nodes0.last(),
                    ready == finish(tt, t, w0),
                    fee == tfee(tt, w0),
                    thop_views(hops@) == walk_thops(tt, from, w0),
                    hops@ == old(hops)@,
                    used@ == old(used)@,
                    used@ == usage_of(tt, t, w0),
                    w0.len() < tt.n.institutions.len(),
                    fee <= w0.len() * 0xffff_ffff_ffff_ffff,
                    nr == tt.n.rails.len(),
                    amount == t.payment.amount_cents,
                    si < slots@.len(),
                    slot == &slots@[si as int],
                    sv == slot@,
                    sv == tt.slots[si as int],
                    rail == &network.rails@[sv.rail],
                    r == rail@,
                    r == tt.n.rails[sv.rail],
                    rq == sv.rail,
                    sq == nr + si,
                    sv.departure >= ready,
                    rail_admits(r, t.payment.amount_cents),
                    r.participants.contains(current@),
                    tt.caps[rq as int] matches Some(c) ==> used@[rq as int] + amount <= c,
                    tt.caps[sq as int] matches Some(c) ==> used@[sq as int] + amount <= c,
                    k <= rail.participants.len(),
                    a0 == old(answers)@,
                    grows(a0, answers@),
                    sound(tt, t, answers@),
                    enumerated_below(tt, t, w0, answers@, si as int, r.participants.take(k as int)),
                decreases rail.participants.len() - k,
            {
                let next = &rail.participants[k];
                let ghost s = TStep { slot: si as int, to: next@ };
                let ghost w1 = w0.push(s);
                assert(r.participants[k as int] == next@);
                if !contains_text(visited, next) {
                    proof {
                        assert(tstep_ok(tt, t.payment.amount_cents, nodes0.last(), finish(tt, t, w0), s));
                        lemma_extend_twalk(tt, t, w0, s);
                        lemma_u128_sum_bounds(w0.len() as int);
                        lemma_usage_push(tt, t, w0, s);
                        assert forall|q: int| 0 <= q < tt.caps.len() && tt.caps[q] is Some implies t.payment.amount_cents * #[trigger] count_res(tt, w1, q)
                            <= tt.caps[q]->0 by {
                            lemma_count_push(tt, w0, s, q);
                            lemma_count_bounds(tt, w0, q);
                            lemma_principal_bound(t.payment.amount_cents, count_res(tt, w0, q), tt.n.institutions.len() as int);
                            if takes(tt, si as int, q) {
                                assert(used@[q] == (t.payment.amount_cents * count_res(tt, w0, q)) as u128);
                            }
                        }
                        assert forall|q: int| 0 <= q < tt.caps.len() implies #[trigger] usage_of(tt, t, w1)[q] == (if q == rq || q == sq {
                            used@[q] + amount
                        } else {
                            used@[q] as int
                        }) by {
                            lemma_count_push(tt, w0, s, q);
                            lemma_count_bounds(tt, w0, q);
                            lemma_principal_bound(t.payment.amount_cents, count_res(tt, w0, q), tt.n.institutions.len() as int);
                            lemma_principal_bound(t.payment.amount_cents, count_res(tt, w0, q) + 1, tt.n.institutions.len() as int);
                        }
                        lemma_count_bounds(tt, w0, rq as int);
                        lemma_count_bounds(tt, w0, sq as int);
                        lemma_principal_bound(t.payment.amount_cents, count_res(tt, w0, rq as int) + 1, tt.n.institutions.len() as int);
                        lemma_principal_bound(t.payment.amount_cents, count_res(tt, w0, sq as int) + 1, tt.n.institutions.len() as int);
                        assert(0 <= sv.rail < tt.n.rails.len());
                        lemma_principal_bound(t.payment.amount_cents, count_res(tt, w0, rq as int), tt.n.institutions.len() as int);
                        lemma_principal_bound(t.payment.amount_cents, count_res(tt, w0, sq as int), tt.n.institutions.len() as int);
                        assert(usage_of(tt, t, w0)[rq as int] == (t.payment.amount_cents * count_res(tt, w0, rq as int)) as u128);
                        assert(usage_of(tt, t, w0)[sq as int] == (t.payment.amount_cents * count_res(tt, w0, sq as int)) as u128);
                        assert(used@[rq as int] == t.payment.amount_cents * count_res(tt, w0, rq as int));
                        assert(used@[sq as int] == t.payment.amount_cents * count_res(tt, w0, sq as int));
                    }
                    visited.push(copy_string(next));
                    hops.push(
                        ScheduledHop {
                            transfer: RouteHop {
                                rail_id: copy_string(&rail.id),
                                sender: copy_string(current),
                                receiver: copy_string(next),
                            },
                            departure_minute: slot.departure,
                            arrival_minute: slot.arrival,
                            fee_cents: slot.fee,
                        },
                    );
                    let before_rail = used[rq];
                    used.set(rq, before_rail + amount);
                    let before_slot = used[sq];
                    used.set(sq, before_slot + amount);
                    proof {
                        assert(texts(visited@) =~= tnodes(from, w1));
                        assert(thop_views(hops@) =~= walk_thops(tt, from, w1));
                        assert(used@ =~= usage_of(tt, t, w1));
                    }
                    let ghost before_answers = answers@;
                    let ghost pushed_hops = hops@;
                    visit_timed(
                        network,
                        slots,
                        caps,
                        payment,
                        next,
                        slot.arrival,
                        fee + slot.fee as u128,
                        visited,
                        hops,
                        used,
                        answers,
                        Ghost(w1),
                    );
                    let ghost returned_hops = hops@;
                    proof {
                        lemma_below_after_call(tt, t, w0, before_answers, answers@, si as int, r.participants, k as int);
                        lemma_grows_transitive(a0, before_answers, answers@);
                    }
                    used.set(sq, before_slot);
                    used.set(rq, before_rail);
                    hops.pop();
                    visited.pop();
                    proof {
                        assert(visited@ =~= old(visited)@);
                        assert(used@ =~= old(used)@);
                        assert(hops@ =~= returned_hops.drop_last());
                        assert(hops@ =~= old(hops)@);
                    }
                } else {
                    proof {
                        lemma_below_skip_member(tt, t, w0, answers@, si as int, r.participants, k as int);
                    }
                }
                k += 1;
            }
            proof {
                assert(r.participants.take(rail.participants@.len() as int) =~= r.participants);
                lemma_below_next_slot(tt, t, w0, answers@, si as int);
            }
        } else {
            proof {
                assert forall|w: Seq<TStep>|
                    #![trigger textends(w, w0)]
                    textends(w, w0) && timed_walk(tt, t, w) && w.len() > w0.len() implies w[w0.len() as int].slot != si by {
                    if w[w0.len() as int].slot == si {
                        lemma_first_extra_tstep(tt, t, w0, w);
                        let s = w[w0.len() as int];
                        let w1 = w0.push(s);
                        assert(textends(w, w1));
                        lemma_tnodes_institutions(tt, t, w);
                        lemma_count_push(tt, w0, s, rq as int);
                        lemma_count_push(tt, w0, s, sq as int);
                        lemma_count_prefix(tt, w, w1, rq as int);
                        lemma_count_prefix(tt, w, w1, sq as int);
                        lemma_count_bounds(tt, w, rq as int);
                        lemma_count_bounds(tt, w, sq as int);
                        if tt.caps[rq as int] is Some {
                            assert(t.payment.amount_cents * count_res(tt, w, rq as int) >= t.payment.amount_cents * count_res(tt, w1, rq as int)) by (nonlinear_arith)
                                requires
                                    count_res(tt, w, rq as int) >= count_res(tt, w1, rq as int),
                            ;
                        }
                        if tt.caps[sq as int] is Some {
                            assert(t.payment.amount_cents * count_res(tt, w, sq as int) >= t.payment.amount_cents * count_res(tt, w1, sq as int)) by (nonlinear_arith)
                                requires
                                    count_res(tt, w, sq as int) >= count_res(tt, w1, sq as int),
                            ;
                        }
                    }
                }
                lemma_below_skip_slot(tt, t, w0, answers@, si as int);
            }
        }
        si += 1;
    }
    proof {
        lemma_below_all(tt, t, w0, answers@);
    }
}

} // verus!
