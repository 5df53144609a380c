//! Joint timed assignments: one admissible timed walk per payment within every
//! shared budget, their ranking, and how exact joint selection over the enumerated
//! candidates yields an optimal assignment.
use vstd::prelude::*;
use crate::network::{NetworkView, is_institution, payment_problem};
use crate::routing::{HopView, hop_lt, lemma_hop_lt_irreflexive, lemma_hop_lt_transitive, hop_less, hop_same};
use crate::order::{Ordered, ordered};
use crate::joint::{JointCand, Score3, score_lt};
use crate::scheduling::TimedPaymentView;
use crate::scheduling::walks::{
    Timetable, TStep, TimedCand, TimedHopView, timetable_ok, timed_feasible, timed_walk, own_fits, count_res,
    usage_of, finish, tfee, troute, walk_thops, thop_views, tnodes, ready_after, tstep_ok, represents, has_walk,
    sound, listed, lemma_count_bounds, lemma_tnodes_institutions, lemma_tfee_bound, lemma_prefix_finish,
    textends,
};
use crate::scheduling::ScheduledHop;

verus! {

// ---------------------------------------------------------------------------
// Order on timed hops: the transfer, then departure, arrival and fee.

pub open spec fn thop_lt(a: TimedHopView, b: TimedHopView) -> bool {
    ||| hop_lt(a.hop, b.hop)
    ||| a.hop == b.hop && a.departure < b.departure
    ||| a.hop == b.hop && a.departure == b.departure && a.arrival < b.arrival
    ||| a.hop == b.hop && a.departure == b.departure && a.arrival == b.arrival && a.fee < b.fee
}

/// Lexicographic order on timed hop sequences; a proper prefix comes first.
pub open spec fn thops_lt(a: Seq<TimedHopView>, b: Seq<TimedHopView>) -> bool
    decreases a.len(),
{
    if a.len() == 0 {
        b.len() > 0
    } else if b.len() == 0 {
        false
    } else if a[0] != b[0] {
        thop_lt(a[0], b[0])
    } else {
        thops_lt(a.drop_first(), b.drop_first())
    }
}

pub proof fn lemma_thop_lt_irreflexive(a: TimedHopView)
    ensures
        !thop_lt(a, a),
{
    lemma_hop_lt_irreflexive(a.hop);
}

pub proof fn lemma_thop_lt_transitive(a: TimedHopView, b: TimedHopView, c: TimedHopView)
    requires
        thop_lt(a, b),
        thop_lt(b, c),
    ensures
        thop_lt(a, c),
{
    lemma_hop_lt_irreflexive(a.hop);
    lemma_hop_lt_irreflexive(b.hop);
    if hop_lt(a.hop, b.hop) && hop_lt(b.hop, c.hop) {
        lemma_hop_lt_transitive(a.hop, b.hop, c.hop);
    }
}

pub proof fn lemma_thops_lt_irreflexive(a: Seq<TimedHopView>)
    ensures
        !thops_lt(a, a),
    decreases a.len(),
{
    if a.len() > 0 {
        lemma_thops_lt_irreflexive(a.drop_first());
    }
}

pub proof fn lemma_thops_lt_transitive(a: Seq<TimedHopView>, b: Seq<TimedHopView>, c: Seq<TimedHopView>)
    requires
        thops_lt(a, b),
        thops_lt(b, c),
    ensures
        thops_lt(a, c),
    decreases a.len(),
{
    if a.len() > 0 && b.len() > 0 && c.len() > 0 {
        if a[0] != b[0] && b[0] != c[0] {
            if a[0] == c[0] {
                lemma_thop_lt_transitive(a[0], b[0], a[0]);
                lemma_thop_lt_irreflexive(a[0]);
            } else {
                lemma_thop_lt_transitive(a[0], b[0], c[0]);
            }
        } else if a[0] == b[0] && b[0] == c[0] {
            lemma_thops_lt_transitive(a.drop_first(), b.drop_first(), c.drop_first());
        }
    }
}

fn thop_less(a: &ScheduledHop, b: &ScheduledHop) -> (r: bool)
    ensures
        r == thop_lt(a@, b@),
{
    if !hop_same(&a.transfer, &b.transfer) {
        return hop_less(&a.transfer, &b.transfer);
    }
    proof {
        lemma_hop_lt_irreflexive(a.transfer@);
    }
    if a.departure_minute != b.departure_minute {
        return a.departure_minute < b.departure_minute;
    }
    if a.arrival_minute != b.arrival_minute {
        return a.arrival_minute < b.arrival_minute;
    }
    a.fee_cents < b.fee_cents
}

fn thop_same(a: &ScheduledHop, b: &ScheduledHop) -> (r: bool)
    ensures
        r == (a@ == b@),
{
    hop_same(&a.transfer, &b.transfer) && a.departure_minute == b.departure_minute && a.arrival_minute
        == b.arrival_minute && a.fee_cents == b.fee_cents
}

/// Lexicographic comparison of timed hop sequences.
pub fn thops_less(a: &Vec<ScheduledHop>, b: &Vec<ScheduledHop>) -> (r: bool)
    ensures
        r == thops_lt(thop_views(a@), thop_views(b@)),
{
    let ghost x = thop_views(a@);
    let ghost y = thop_views(b@);
    assert(x.skip(0) =~= x);
    assert(y.skip(0) =~= y);
    let mut i: usize = 0;
    while i < a.len() && i < b.len()
        invariant
            x == thop_views(a@),
            y == thop_views(b@),
            i <= a.len(),
            i <= b.len(),
            thops_lt(x, y) == thops_lt(x.skip(i as int), y.skip(i as int)),
        decreases a.len() - i,
    {
        let ghost xs = x.skip(i as int);
        let ghost ys = y.skip(i as int);
        assert(xs[0] == a@[i as int]@);
        assert(ys[0] == b@[i as int]@);
        if !thop_same(&a[i], &b[i]) {
            return thop_less(&a[i], &b[i]);
        }
        assert(xs.drop_first() =~= x.skip(i + 1));
        assert(ys.drop_first() =~= y.skip(i + 1));
        i += 1;
    }
    i < b.len()
}

impl Ordered for TimedCand {
    open spec fn precedes(&self, other: &Self) -> bool {
        thops_lt(self.route@.hops, other.route@.hops)
    }

    fn before(&self, other: &Self) -> (r: bool) {
        thops_less(&self.route.hops, &other.route.hops)
    }

    proof fn precedes_irreflexive(a: Self) {
        lemma_thops_lt_irreflexive(a.route@.hops);
    }

    proof fn precedes_transitive(a: Self, b: Self, c: Self) {
        lemma_thops_lt_transitive(a.route@.hops, b.route@.hops, c.route@.hops);
    }
}

// ---------------------------------------------------------------------------
// Joint assignments and their ranking.

/// Principal that the first `k` payments place on resource `q`.
pub open spec fn joint_use(tt: Timetable, qs: Seq<TimedPaymentView>, ws: Seq<Seq<TStep>>, q: int, k: int) -> int
    decreases k,
{
    if k <= 0 {
        0
    } else {
        joint_use(tt, qs, ws, q, k - 1) + qs[k - 1].payment.amount_cents * count_res(tt, ws[k - 1], q)
    }
}

/// One feasible timed route per payment, together within every budget.
pub open spec fn schedule_ok(tt: Timetable, qs: Seq<TimedPaymentView>, ws: Seq<Seq<TStep>>) -> bool {
    &&& ws.len() == qs.len()
    &&& forall|i: int| 0 <= i < ws.len() ==> #[trigger] timed_feasible(tt, qs[i], ws[i])
    &&& forall|q: int|
        0 <= q < tt.caps.len() && tt.caps[q] is Some ==> #[trigger] joint_use(tt, qs, ws, q, ws.len() as int)
            <= tt.caps[q]->0
}

pub open spec fn sum_fee(tt: Timetable, ws: Seq<Seq<TStep>>, k: int) -> int
    decreases k,
{
    if k <= 0 {
        0
    } else {
        sum_fee(tt, ws, k - 1) + tfee(tt, ws[k - 1])
    }
}

/// Summed elapsed minutes from release, waiting included.
pub open spec fn sum_elapsed(tt: Timetable, qs: Seq<TimedPaymentView>, ws: Seq<Seq<TStep>>, k: int) -> int
    decreases k,
{
    if k <= 0 {
        0
    } else {
        sum_elapsed(tt, qs, ws, k - 1) + (finish(tt, qs[k - 1], ws[k - 1]) - qs[k - 1].release)
    }
}

pub open spec fn sum_hops(ws: Seq<Seq<TStep>>, k: int) -> int
    decreases k,
{
    if k <= 0 {
        0
    } else {
        sum_hops(ws, k - 1) + ws[k - 1].len()
    }
}

pub open spec fn sched_score(tt: Timetable, qs: Seq<TimedPaymentView>, ws: Seq<Seq<TStep>>) -> Score3 {
    Score3 {
        fee: sum_fee(tt, ws, ws.len() as int),
        elapsed: sum_elapsed(tt, qs, ws, ws.len() as int),
        hops: sum_hops(ws, ws.len() as int),
    }
}

/// The timed hop sequences, compared payment by payment in order.
pub open spec fn thops_tuple_lt(tt: Timetable, qs: Seq<TimedPaymentView>, a: Seq<Seq<TStep>>, b: Seq<Seq<TStep>>) -> bool {
    exists|k: int|
        #![trigger a[k], b[k]]
        0 <= k < a.len() && k < b.len() && (forall|j: int|
            0 <= j < k ==> walk_thops(tt, qs[j].payment.sender, a[j]) == walk_thops(tt, qs[j].payment.sender, b[j]))
            && thops_lt(walk_thops(tt, qs[k].payment.sender, a[k]), walk_thops(tt, qs[k].payment.sender, b[k]))
}

/// Lower total fee, then total elapsed time, then total hops, then the timed hop
/// sequences in payment order.
pub open spec fn sched_better(tt: Timetable, qs: Seq<TimedPaymentView>, a: Seq<Seq<TStep>>, b: Seq<Seq<TStep>>) -> bool {
    score_lt(sched_score(tt, qs, a), sched_score(tt, qs, b)) || (sched_score(tt, qs, a) == sched_score(tt, qs, b)
        && thops_tuple_lt(tt, qs, a, b))
}

/// A feasible joint timed assignment that no feasible one beats.
pub open spec fn sched_optimal(tt: Timetable, qs: Seq<TimedPaymentView>, ws: Seq<Seq<TStep>>) -> bool {
    &&& schedule_ok(tt, qs, ws)
    &&& forall|ws2: Seq<Seq<TStep>>| #[trigger] schedule_ok(tt, qs, ws2) ==> !sched_better(tt, qs, ws2, ws)
}

/// No two departures ride the same rail at the same minute.
pub open spec fn slots_distinct(tt: Timetable) -> bool {
    forall|i: int, j: int|
        0 <= i < tt.slots.len() && 0 <= j < tt.slots.len() && i != j ==> !(tt.n.rails[(#[trigger] tt.slots[i]).rail].id
            == tt.n.rails[(#[trigger] tt.slots[j]).rail].id && tt.slots[i].departure == tt.slots[j].departure)
}

/// In a timetable whose departures are distinct, a timed route determines its walk.
pub proof fn lemma_thops_injective(tt: Timetable, from: Seq<char>, a: Seq<TStep>, b: Seq<TStep>)
    requires
        slots_distinct(tt),
        walk_thops(tt, from, a) == walk_thops(tt, from, b),
        forall|k: int| 0 <= k < a.len() ==> 0 <= (#[trigger] a[k]).slot < tt.slots.len(),
        forall|k: int| 0 <= k < b.len() ==> 0 <= (#[trigger] b[k]).slot < tt.slots.len(),
    ensures
        a == b,
{
    let ha = walk_thops(tt, from, a);
    let hb = walk_thops(tt, from, b);
    assert(ha.len() == hb.len());
    assert forall|k: int| 0 <= k < a.len() implies a[k] == b[k] by {
        assert(ha[k] == hb[k]);
        if a[k].slot != b[k].slot {
            assert(!(tt.n.rails[tt.slots[a[k].slot].rail].id == tt.n.rails[tt.slots[b[k].slot].rail].id
                && tt.slots[a[k].slot].departure == tt.slots[b[k].slot].departure));
        }
    }
    assert(a =~= b);
}

// ---------------------------------------------------------------------------
// From candidate lists to joint assignments.

/// Candidate lists for `qs`: each entry an admissible timed walk, every admissible
/// timed walk listed, each list in timed hop order, and the joint view carrying
/// the same costs.
pub open spec fn linked(
    tt: Timetable,
    qs: Seq<TimedPaymentView>,
    cs: Seq<Seq<TimedCand>>,
    jc: Seq<Seq<JointCand>>,
) -> bool {
    &&& timetable_ok(tt)
    &&& slots_distinct(tt)
    &&& forall|i: int| 0 <= i < qs.len() ==> #[trigger] payment_problem(tt.n, qs[i].payment) is None
    &&& cs.len() == qs.len()
    &&& jc.len() == qs.len()
    &&& forall|i: int| 0 <= i < cs.len() ==> (#[trigger] cs[i]).len() == jc[i].len() && cs[i].len() <= usize::MAX
    &&& forall|i: int| 0 <= i < cs.len() ==> sound(tt, qs[i], #[trigger] cs[i])
    &&& forall|i: int| 0 <= i < cs.len() ==> ordered(#[trigger] cs[i])
    &&& forall|i: int, w: Seq<TStep>|
        0 <= i < cs.len() && #[trigger] timed_walk(tt, qs[i], w) ==> listed(tt, qs[i], cs[i], w)
    &&& forall|i: int, j: int|
        0 <= i < cs.len() && 0 <= j < cs[i].len() ==> {
            let c = #[trigger] cs[i][j];
            let d = jc[i][j];
            &&& d.fee == c.route.total_fee_cents
            &&& d.elapsed == c.route.elapsed_minutes
            &&& d.hops == c.route.hops@.len()
            &&& d.usage@ == c.usage@
        }
}

pub open spec fn walk_at(tt: Timetable, qs: Seq<TimedPaymentView>, cs: Seq<Seq<TimedCand>>, i: int, j: int) -> Seq<TStep> {
    choose|w: Seq<TStep>| #[trigger] represents(tt, qs[i], cs[i][j], w)
}

pub open spec fn ws_of(tt: Timetable, qs: Seq<TimedPaymentView>, cs: Seq<Seq<TimedCand>>, x: Seq<usize>) -> Seq<Seq<TStep>> {
    Seq::new(x.len(), |i: int| walk_at(tt, qs, cs, i, x[i] as int))
}

pub proof fn lemma_walk_at(tt: Timetable, qs: Seq<TimedPaymentView>, cs: Seq<Seq<TimedCand>>, jc: Seq<Seq<JointCand>>, i: int, j: int)
    requires
        linked(tt, qs, cs, jc),
        0 <= i < cs.len(),
        0 <= j < cs[i].len(),
    ensures
        represents(tt, qs[i], cs[i][j], walk_at(tt, qs, cs, i, j)),
{
    assert(sound(tt, qs[i], cs[i]));
    assert(has_walk(tt, qs[i], cs[i][j]));
}

/// The walk's departures are real, and the walk is shorter than there are
/// institutions.
pub proof fn lemma_walk_facts(tt: Timetable, t: TimedPaymentView, w: Seq<TStep>)
    requires
        timetable_ok(tt),
        payment_problem(tt.n, t.payment) is None,
        timed_feasible(tt, t, w),
    ensures
        forall|k: int| 0 <= k < w.len() ==> 0 <= (#[trigger] w[k]).slot < tt.slots.len(),
        w.len() < tt.n.institutions.len(),
        w.len() < 0x1_0000_0000_0000_0000,
        0 <= tfee(tt, w) <= w.len() * 0xffff_ffff_ffff_ffff,
        t.release <= finish(tt, t, w) <= u64::MAX,
{
    let nodes = tnodes(t.payment.sender, w);
    assert forall|k: int| 0 <= k < w.len() implies 0 <= (#[trigger] w[k]).slot < tt.slots.len() by {
        assert(tstep_ok(tt, t.payment.amount_cents, nodes[k], ready_after(tt, t.release as int, w, k), w[k]));
    }
    assert(is_institution(tt.n, t.payment.sender));
    lemma_tnodes_institutions(tt, t, w);
    lemma_tfee_bound(tt, w);
    assert(w.take(0) =~= Seq::<TStep>::empty());
    assert(textends(w, Seq::<TStep>::empty()));
    lemma_prefix_finish(tt, t, Seq::<TStep>::empty(), w);
    if w.len() > 0 {
        assert(0 <= w[w.len() - 1].slot < tt.slots.len());
    }
}

proof fn lemma_joint_use_nonneg(tt: Timetable, qs: Seq<TimedPaymentView>, ws: Seq<Seq<TStep>>, q: int, k: int)
    requires
        k <= ws.len(),
        k <= qs.len(),
    ensures
        joint_use(tt, qs, ws, q, k) >= 0,
    decreases k,
{
    if k > 0 {
        lemma_joint_use_nonneg(tt, qs, ws, q, k - 1);
        lemma_count_bounds(tt, ws[k - 1], q);
        assert(qs[k - 1].payment.amount_cents * count_res(tt, ws[k - 1], q) >= 0) by (nonlinear_arith)
            requires
                count_res(tt, ws[k - 1], q) >= 0,
        ;
    }
}

proof fn lemma_joint_use_term(tt: Timetable, qs: Seq<TimedPaymentView>, ws: Seq<Seq<TStep>>, q: int, i: int, k: int)
    requires
        0 <= i < k <= ws.len(),
        k <= qs.len(),
    ensures
        qs[i].payment.amount_cents * count_res(tt, ws[i], q) <= joint_use(tt, qs, ws, q, k),
    decreases k,
{
    lemma_count_bounds(tt, ws[k - 1], q);
    assert(qs[k - 1].payment.amount_cents * count_res(tt, ws[k - 1], q) >= 0) by (nonlinear_arith)
        requires
            count_res(tt, ws[k - 1], q) >= 0,
    ;
    if i < k - 1 {
        lemma_joint_use_term(tt, qs, ws, q, i, k - 1);
    } else {
        lemma_joint_use_nonneg(tt, qs, ws, q, k - 1);
    }
}

proof fn lemma_usage_exact(tt: Timetable, t: TimedPaymentView, w: Seq<TStep>, q: int)
    requires
        0 <= q < tt.caps.len(),
        w.len() < 0x1_0000_0000_0000_0000,
    ensures
        usage_of(tt, t, w)[q] == t.payment.amount_cents * count_res(tt, w, q),
        0 <= t.payment.amount_cents * count_res(tt, w, q) <= t.payment.amount_cents * w.len(),
{
    lemma_count_bounds(tt, w, q);
    let c = count_res(tt, w, q);
    let a = t.payment.amount_cents;
    assert(0 <= a * c <= 0xffff_ffff_ffff_ffff * 0xffff_ffff_ffff_ffff) by (nonlinear_arith)
        requires
            0 <= c < 0x1_0000_0000_0000_0000,
            a <= 0xffff_ffff_ffff_ffff,
    ;
    assert(a * c <= a * w.len()) by (nonlinear_arith)
        requires
            0 <= c <= w.len(),
    ;
}

#[verifier::rlimit(30)]
pub proof fn lemma_sums_match(
    tt: Timetable,
    qs: Seq<TimedPaymentView>,
    cs: Seq<Seq<TimedCand>>,
    jc: Seq<Seq<JointCand>>,
    x: Seq<usize>,
    k: int,
)
    requires
        linked(tt, qs, cs, jc),
        crate::joint::valid_choice(jc, x),
        0 <= k <= x.len(),
    ensures
        crate::joint::fee_sum(jc, x, k) == sum_fee(tt, ws_of(tt, qs, cs, x), k),
        crate::joint::elapsed_sum(jc, x, k) == sum_elapsed(tt, qs, ws_of(tt, qs, cs, x), k),
        crate::joint::hops_sum(jc, x, k) == sum_hops(ws_of(tt, qs, cs, x), k),
        forall|q: int| 0 <= q < tt.caps.len() ==> #[trigger] crate::joint::use_sum(jc, x, q, k) == joint_use(tt, qs, ws_of(tt, qs, cs, x), q, k),
    decreases k,
{
    if k > 0 {
        lemma_sums_match(tt, qs, cs, jc, x, k - 1);
        let i = k - 1;
        let j = x[i] as int;
        assert(cs[i].len() == jc[i].len());
        lemma_walk_at(tt, qs, cs, jc, i, j);
        let w = walk_at(tt, qs, cs, i, j);
        let ws = ws_of(tt, qs, cs, x);
        assert(ws[i] == w);
        let c = cs[i][j];
        assert(jc[i][j].usage@ == c.usage@);
        assert(c.route@.hops.len() == c.route.hops@.len());
        assert(walk_thops(tt, qs[i].payment.sender, w).len() == w.len());
        assert(payment_problem(tt.n, qs[i].payment) is None);
        lemma_walk_facts(tt, qs[i], w);
        assert forall|q: int| 0 <= q < tt.caps.len() implies #[trigger] crate::joint::use_sum(jc, x, q, k) == joint_use(tt, qs, ws, q, k) by {
            assert(crate::joint::use_sum(jc, x, q, k - 1) == joint_use(tt, qs, ws, q, k - 1));
            lemma_usage_exact(tt, qs[i], w, q);
        }
    }
}

pub proof fn lemma_feasible_iff(
    tt: Timetable,
    qs: Seq<TimedPaymentView>,
    cs: Seq<Seq<TimedCand>>,
    jc: Seq<Seq<JointCand>>,
    x: Seq<usize>,
)
    requires
        linked(tt, qs, cs, jc),
        crate::joint::valid_choice(jc, x),
    ensures
        crate::joint::feasible(jc, tt.caps, x) == schedule_ok(tt, qs, ws_of(tt, qs, cs, x)),
        crate::joint::total(jc, x) == sched_score(tt, qs, ws_of(tt, qs, cs, x)),
{
    let ws = ws_of(tt, qs, cs, x);
    lemma_sums_match(tt, qs, cs, jc, x, x.len() as int);
    assert forall|i: int| 0 <= i < ws.len() implies #[trigger] timed_feasible(tt, qs[i], ws[i]) by {
        assert(cs[i].len() == jc[i].len());
        lemma_walk_at(tt, qs, cs, jc, i, x[i] as int);
    }
    if crate::joint::feasible(jc, tt.caps, x) {
        assert forall|q: int| 0 <= q < tt.caps.len() && tt.caps[q] is Some implies #[trigger] joint_use(
            tt,
            qs,
            ws,
            q,
            ws.len() as int,
        ) <= tt.caps[q]->0 by {
            assert(crate::joint::use_sum(jc, x, q, jc.len() as int) <= tt.caps[q]->0);
        }
    }
    if schedule_ok(tt, qs, ws) {
        assert forall|q: int| 0 <= q < tt.caps.len() && tt.caps[q] is Some implies #[trigger] crate::joint::use_sum(
            jc,
            x,
            q,
            jc.len() as int,
        ) <= tt.caps[q]->0 by {
            assert(joint_use(tt, qs, ws, q, ws.len() as int) <= tt.caps[q]->0);
        }
    }
}

pub open spec fn index_of(tt: Timetable, qs: Seq<TimedPaymentView>, cs: Seq<Seq<TimedCand>>, i: int, w: Seq<TStep>) -> int {
    choose|j: int| 0 <= j < cs[i].len() && (#[trigger] cs[i][j]).route@ == troute(tt, qs[i], w)
}

pub open spec fn choice_for(
    tt: Timetable,
    qs: Seq<TimedPaymentView>,
    cs: Seq<Seq<TimedCand>>,
    x: Seq<usize>,
    ws2: Seq<Seq<TStep>>,
) -> Seq<usize> {
    Seq::new(
        ws2.len(),
        |i: int|
            if ws2[i] == ws_of(tt, qs, cs, x)[i] {
                x[i]
            } else {
                index_of(tt, qs, cs, i, ws2[i]) as usize
            },
    )
}

/// Within a feasible joint assignment each walk alone fits every budget.
pub proof fn lemma_own_fits(tt: Timetable, qs: Seq<TimedPaymentView>, ws2: Seq<Seq<TStep>>, i: int)
    requires
        schedule_ok(tt, qs, ws2),
        0 <= i < ws2.len(),
    ensures
        timed_walk(tt, qs[i], ws2[i]),
{
    let w = ws2[i];
    assert(timed_feasible(tt, qs[i], w));
    assert forall|q: int| 0 <= q < tt.caps.len() && tt.caps[q] is Some implies qs[i].payment.amount_cents
        * #[trigger] count_res(tt, w, q) <= tt.caps[q]->0 by {
        lemma_joint_use_term(tt, qs, ws2, q, i, ws2.len() as int);
        assert(joint_use(tt, qs, ws2, q, ws2.len() as int) <= tt.caps[q]->0);
    }
}

#[verifier::rlimit(30)]
proof fn lemma_choice_for(
    tt: Timetable,
    qs: Seq<TimedPaymentView>,
    cs: Seq<Seq<TimedCand>>,
    jc: Seq<Seq<JointCand>>,
    x: Seq<usize>,
    ws2: Seq<Seq<TStep>>,
)
    requires
        linked(tt, qs, cs, jc),
        crate::joint::valid_choice(jc, x),
        schedule_ok(tt, qs, ws2),
    ensures
        crate::joint::valid_choice(jc, choice_for(tt, qs, cs, x, ws2)),
        ws_of(tt, qs, cs, choice_for(tt, qs, cs, x, ws2)) == ws2,
{
    let y = choice_for(tt, qs, cs, x, ws2);
    let wx = ws_of(tt, qs, cs, x);
    assert forall|i: int| 0 <= i < ws2.len() implies #[trigger] y[i] < jc[i].len() && walk_at(tt, qs, cs, i, y[i] as int) == ws2[i] by {
        assert(cs[i].len() == jc[i].len());
        if ws2[i] == wx[i] {
            assert(y[i] == x[i]);
            assert(wx[i] == walk_at(tt, qs, cs, i, x[i] as int));
        } else {
            let w = ws2[i];
            lemma_own_fits(tt, qs, ws2, i);
            assert(listed(tt, qs[i], cs[i], w));
            let j = index_of(tt, qs, cs, i, w);
            assert(0 <= j < cs[i].len());
            lemma_walk_at(tt, qs, cs, jc, i, j);
            let v = walk_at(tt, qs, cs, i, j);
            assert(troute(tt, qs[i], v) == troute(tt, qs[i], w));
            assert(payment_problem(tt.n, qs[i].payment) is None);
            lemma_walk_facts(tt, qs[i], v);
            lemma_walk_facts(tt, qs[i], w);
            lemma_thops_injective(tt, qs[i].payment.sender, v, w);
            assert(y[i] == j as usize);
            assert(y[i] as int == j);
        }
    }
    assert(ws_of(tt, qs, cs, y) =~= ws2);
}

#[verifier::rlimit(40)]
pub proof fn lemma_optimal_transfer(
    tt: Timetable,
    qs: Seq<TimedPaymentView>,
    cs: Seq<Seq<TimedCand>>,
    jc: Seq<Seq<JointCand>>,
    x: Seq<usize>,
)
    requires
        linked(tt, qs, cs, jc),
        crate::joint::optimal(jc, tt.caps, x),
    ensures
        sched_optimal(tt, qs, ws_of(tt, qs, cs, x)),
{
    let wx = ws_of(tt, qs, cs, x);
    lemma_feasible_iff(tt, qs, cs, jc, x);
    assert forall|ws2: Seq<Seq<TStep>>| #[trigger] schedule_ok(tt, qs, ws2) implies !sched_better(tt, qs, ws2, wx) by {
        lemma_choice_for(tt, qs, cs, jc, x, ws2);
        let y = choice_for(tt, qs, cs, x, ws2);
        lemma_feasible_iff(tt, qs, cs, jc, y);
        assert(crate::joint::feasible(jc, tt.caps, y));
        assert(!crate::joint::better(jc, y, x));
        if sched_better(tt, qs, ws2, wx) {
            if sched_score(tt, qs, ws2) == sched_score(tt, qs, wx) {
                let k = choose|k: int|
                    #![trigger ws2[k], wx[k]]
                    0 <= k < ws2.len() && k < wx.len() && (forall|j: int|
                        0 <= j < k ==> walk_thops(tt, qs[j].payment.sender, ws2[j]) == walk_thops(tt, qs[j].payment.sender, wx[j]))
                        && thops_lt(walk_thops(tt, qs[k].payment.sender, ws2[k]), walk_thops(tt, qs[k].payment.sender, wx[k]));
                assert forall|j: int| 0 <= j < k implies y[j] == x[j] by {
                    assert(walk_thops(tt, qs[j].payment.sender, ws2[j]) == walk_thops(tt, qs[j].payment.sender, wx[j]));
                    assert(cs[j].len() == jc[j].len());
                    lemma_walk_at(tt, qs, cs, jc, j, x[j] as int);
                    assert(payment_problem(tt.n, qs[j].payment) is None);
                    lemma_walk_facts(tt, qs[j], wx[j]);
                    assert(timed_feasible(tt, qs[j], ws2[j]));
                    lemma_walk_facts(tt, qs[j], ws2[j]);
                    lemma_thops_injective(tt, qs[j].payment.sender, ws2[j], wx[j]);
                }
                assert(cs[k].len() == jc[k].len());
                lemma_walk_at(tt, qs, cs, jc, k, y[k] as int);
                lemma_walk_at(tt, qs, cs, jc, k, x[k] as int);
                assert(cs[k][y[k] as int].route@.hops == walk_thops(tt, qs[k].payment.sender, ws2[k]));
                assert(cs[k][x[k] as int].route@.hops == walk_thops(tt, qs[k].payment.sender, wx[k]));
                assert(ordered(cs[k]));
                if y[k] > x[k] {
                    assert(!cs[k][y[k] as int].precedes(&cs[k][x[k] as int]));
                } else if y[k] == x[k] {
                    lemma_thops_lt_irreflexive(walk_thops(tt, qs[k].payment.sender, wx[k]));
                }
                assert(y[k] < x[k]);
                assert(crate::joint::idx_lt(y, x));
            }
        }
    }
}

pub proof fn lemma_none_transfer(
    tt: Timetable,
    qs: Seq<TimedPaymentView>,
    cs: Seq<Seq<TimedCand>>,
    jc: Seq<Seq<JointCand>>,
    ws2: Seq<Seq<TStep>>,
)
    requires
        linked(tt, qs, cs, jc),
        !exists|x: Seq<usize>| #[trigger] crate::joint::feasible(jc, tt.caps, x),
    ensures
        !schedule_ok(tt, qs, ws2),
{
    if schedule_ok(tt, qs, ws2) {
        let x0 = Seq::new(qs.len(), |i: int| 0usize);
        assert forall|i: int| 0 <= i < qs.len() implies jc[i].len() > 0 by {
            lemma_own_fits(tt, qs, ws2, i);
            assert(listed(tt, qs[i], cs[i], ws2[i]));
            assert(cs[i].len() == jc[i].len());
        }
        assert(crate::joint::valid_choice(jc, x0));
        lemma_choice_for(tt, qs, cs, jc, x0, ws2);
        let y = choice_for(tt, qs, cs, x0, ws2);
        lemma_feasible_iff(tt, qs, cs, jc, y);
        assert(crate::joint::feasible(jc, tt.caps, y));
    }
}

pub proof fn lemma_mul_le(a: int, b: int, c: int)
    requires
        0 <= a <= b,
        0 <= c,
    ensures
        a * c <= b * c,
{
    assert(a * c <= b * c) by (nonlinear_arith)
        requires
            0 <= a <= b,
            0 <= c,
    ;
}

#[verifier::rlimit(40)]
pub proof fn lemma_bounded(
    tt: Timetable,
    qs: Seq<TimedPaymentView>,
    cs: Seq<Seq<TimedCand>>,
    jc: Seq<Seq<JointCand>>,
)
    requires
        linked(tt, qs, cs, jc),
        qs.len() * tt.n.institutions.len() <= usize::MAX,
    ensures
        crate::joint::bounded(jc, tt.caps.len() as int, (tt.n.institutions.len() * 0xffff_ffff_ffff_ffff) as int, tt.n.institutions.len() as int),
{
    let inst = tt.n.institutions.len() as int;
    let b = inst * 0xffff_ffff_ffff_ffff;
    assert forall|i: int, j: int| 0 <= i < jc.len() && 0 <= j < jc[i].len() implies {
        let d = #[trigger] jc[i][j];
        &&& d.usage@.len() == tt.caps.len()
        &&& d.fee <= b
        &&& d.elapsed <= b
        &&& d.hops <= inst
        &&& forall|q: int| 0 <= q < tt.caps.len() ==> #[trigger] d.usage@[q] <= b
    } by {
        assert(cs[i].len() == jc[i].len());
        lemma_walk_at(tt, qs, cs, jc, i, j);
        let w = walk_at(tt, qs, cs, i, j);
        let c = cs[i][j];
        assert(payment_problem(tt.n, qs[i].payment) is None);
        lemma_walk_facts(tt, qs[i], w);
        lemma_mul_le(w.len() as int, inst, 0xffff_ffff_ffff_ffff);
        assert(inst >= 1);
        lemma_mul_le(1, inst, 0xffff_ffff_ffff_ffff);
        assert(c.route@.hops.len() == c.route.hops@.len());
        assert forall|q: int| 0 <= q < tt.caps.len() implies #[trigger] jc[i][j].usage@[q] <= b by {
            lemma_usage_exact(tt, qs[i], w, q);
            assert(qs[i].payment.amount_cents * w.len() <= 0xffff_ffff_ffff_ffff * w.len()) by (nonlinear_arith)
                requires
                    qs[i].payment.amount_cents <= 0xffff_ffff_ffff_ffff,
                    w.len() >= 0,
            ;
            assert(0xffff_ffff_ffff_ffff * w.len() == w.len() * 0xffff_ffff_ffff_ffff) by (nonlinear_arith);
        }
    }
    assert(jc.len() * b <= u128::MAX) by (nonlinear_arith)
        requires
            jc.len() * inst <= usize::MAX,
            b == inst * 0xffff_ffff_ffff_ffff,
            usize::MAX <= 0xffff_ffff_ffff_ffff,
            inst >= 0,
    ;
    assert(jc.len() * inst <= usize::MAX);
}

} // verus!
