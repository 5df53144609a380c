//! Per-strategy aggregates over the complete cases of an evaluation.
use vstd::prelude::*;
use crate::evaluation::{
    CaseResult, Evaluation, RunResult, Status, score_of, score_lt, nearest_rank,
    never_routed_expired_keys, Score,
};
use crate::evaluation::report::{Ratio, CaseKey, ratio_greater};
use crate::network::ValidationError;
use crate::order::{Ordered, is_perm, position_order};
use crate::scalable::SearchDiagnostics;
use crate::simulation::{Metrics, SimulationError};
use crate::simulation::disruption::AdaptationMetrics;
use crate::text::{copy_string, same_text, text};

verus! {

#[derive(Debug, Clone, PartialEq, Eq)]
pub struct Aggregate {
    pub strategy: String,
    pub total_cases: usize,
    /// Only cases complete for EVERY requested strategy contribute totals/ranks.
    pub matched_cases: usize,
    pub censored_cases: usize,
    pub error_cases: usize,
    pub wins: usize,
    pub tied_best: usize,
    pub metrics: Metrics,
    pub adaptation: AdaptationMetrics,
    pub diagnostics: SearchDiagnostics,
    pub never_routed_expired: u128,
    pub queue_payment_minutes: u128,
    pub peak_queue: usize,
    pub peak_active: usize,
    /// Nearest-rank p95 across nonempty matched cases, not across payments.
    pub p95_not_on_time: Option<Ratio>,
    pub worst_case: Option<CaseKey>,
    pub worst_not_on_time: Option<Ratio>,
    /// Largest on-time count shortfall / offered count versus a tested strategy.
    /// This compares observed policies, never a clairvoyant optimum.
    pub worst_service_shortfall: Option<Ratio>,
    pub worst_shortfall_case: Option<CaseKey>,
    pub replay_verified: bool,
}

/// How many figures a run contributes to its strategy's totals.
pub open spec fn summed_figures() -> int {
    34
}

/// The figures of a run that an aggregate sums: the metrics, the adaptation
/// counters, the search diagnostics, the results that expired unrouted and the
/// queued payment-minutes.
pub open spec fn run_figures(r: RunResult) -> Seq<int> {
    let m = r.metrics;
    let a = r.adaptation;
    let d = r.diagnostics;
    seq![
        m.generated as int, m.generated_volume_cents as int, m.accepted_routes as int,
        m.rejected as int, m.rejected_volume_cents as int, m.expired as int,
        m.expired_volume_cents as int, m.completed as int, m.completed_volume_cents as int,
        m.completed_late as int, m.completed_late_volume_cents as int, m.sla_failures as int,
        m.sla_failed_volume_cents as int, m.routing_cost_cents as int,
        m.completed_elapsed_minutes as int, m.departed_hops as int, m.settled_hops as int,
        m.departed_principal_cents as int, m.settled_principal_cents as int,
        a.rail_changes as int, a.reoptimizations as int, a.assignment_comparisons as int,
        a.changed_assignments as int, a.changed_routes as int, a.retimed_only as int,
        a.withdrawn as int,
        d.searches as int, d.expansions as int, d.candidates as int,
        d.truncated_searches as int, d.unresolved as int, d.repair_trials as int,
        never_routed_expired_keys(r.payments@).len() as int, r.queue_payment_minutes as int,
    ]
}

/// The same figures of an aggregate.
pub open spec fn aggregate_figures(g: Aggregate) -> Seq<int> {
    let m = g.metrics;
    let a = g.adaptation;
    let d = g.diagnostics;
    seq![
        m.generated as int, m.generated_volume_cents as int, m.accepted_routes as int,
        m.rejected as int, m.rejected_volume_cents as int, m.expired as int,
        m.expired_volume_cents as int, m.completed as int, m.completed_volume_cents as int,
        m.completed_late as int, m.completed_late_volume_cents as int, m.sla_failures as int,
        m.sla_failed_volume_cents as int, m.routing_cost_cents as int,
        m.completed_elapsed_minutes as int, m.departed_hops as int, m.settled_hops as int,
        m.departed_principal_cents as int, m.settled_principal_cents as int,
        a.rail_changes as int, a.reoptimizations as int, a.assignment_comparisons as int,
        a.changed_assignments as int, a.changed_routes as int, a.retimed_only as int,
        a.withdrawn as int,
        d.searches as int, d.expansions as int, d.candidates as int,
        d.truncated_searches as int, d.unresolved as int, d.repair_trials as int,
        g.never_routed_expired as int, g.queue_payment_minutes as int,
    ]
}

/// Whether a case belongs to the requested world (every case when none is named).
pub open spec fn selected(c: CaseResult, world: Option<Seq<char>>) -> bool {
    match world {
        Some(name) => c.world@ == name,
        None => true,
    }
}

pub open spec fn all_complete(runs: Seq<RunResult>) -> bool {
    forall|j: int| 0 <= j < runs.len() ==> (#[trigger] runs[j]).status == Status::Complete
}

/// No run of the case scores strictly better than run `i`.
pub open spec fn best(runs: Seq<RunResult>, i: int) -> bool {
    forall|j: int| 0 <= j < runs.len() ==> !score_lt(score_of(#[trigger] runs[j]), score_of(runs[i]))
}

/// No other run of the case has run `i`'s score.
pub open spec fn alone(runs: Seq<RunResult>, i: int) -> bool {
    forall|j: int| 0 <= j < runs.len() && j != i ==> score_of(#[trigger] runs[j]) != score_of(runs[i])
}

pub open spec fn on_time_of(r: RunResult) -> int {
    r.metrics.completed - r.metrics.completed_late
}

/// The most on-time payments of any run of the case.
pub open spec fn best_on_time(runs: Seq<RunResult>) -> int
    decreases runs.len(),
{
    if runs.len() == 0 {
        0
    } else {
        let rest = best_on_time(runs.drop_last());
        if on_time_of(runs.last()) > rest {
            on_time_of(runs.last())
        } else {
            rest
        }
    }
}

pub open spec fn add_figures(a: Seq<int>, b: Seq<int>) -> Seq<int> {
    Seq::new(a.len(), |f: int| a[f] + b[f])
}

/// What the selected cases contribute to strategy `i`, case by case.
pub struct Tally {
    pub total: int,
    pub matched: int,
    pub censored: int,
    pub errors: int,
    pub wins: int,
    pub tied: int,
    pub replayed: bool,
    pub sums: Seq<int>,
    pub peak_queue: int,
    pub peak_active: int,
    /// Not-on-time rates of the matched cases with demand, in case order.
    pub rates: Seq<Ratio>,
    /// Shortfalls against the best run, for the same cases.
    pub shortfalls: Seq<Ratio>,
    /// The positions of those cases.
    pub rated: Seq<int>,
}

pub open spec fn empty_tally() -> Tally {
    Tally {
        total: 0,
        matched: 0,
        censored: 0,
        errors: 0,
        wins: 0,
        tied: 0,
        replayed: true,
        sums: Seq::new(34, |f: int| 0int),
        peak_queue: 0,
        peak_active: 0,
        rates: Seq::empty(),
        shortfalls: Seq::empty(),
        rated: Seq::empty(),
    }
}

pub open spec fn tally(cs: Seq<CaseResult>, world: Option<Seq<char>>, i: int) -> Tally
    decreases cs.len(),
{
    if cs.len() == 0 {
        empty_tally()
    } else {
        let t = tally(cs.drop_last(), world, i);
        let c = cs.last();
        let runs = c.runs@;
        let run = runs[i];
        if !selected(c, world) {
            t
        } else if !all_complete(runs) {
            Tally {
                total: t.total + 1,
                censored: t.censored + if run.status == Status::Censored { 1int } else { 0 },
                errors: t.errors + if run.status is Error { 1int } else { 0 },
                replayed: t.replayed && run.replay_verified,
                ..t
            }
        } else {
            let top = best(runs, i);
            let rated = c.offered > 0;
            Tally {
                total: t.total + 1,
                matched: t.matched + 1,
                wins: t.wins + if top && alone(runs, i) { 1int } else { 0 },
                tied: t.tied + if top && !alone(runs, i) { 1int } else { 0 },
                replayed: t.replayed && run.replay_verified,
                sums: add_figures(t.sums, run_figures(run)),
                peak_queue: if run.peak_queue > t.peak_queue { run.peak_queue as int } else { t.peak_queue },
                peak_active: if run.peak_active > t.peak_active { run.peak_active as int } else { t.peak_active },
                rates: if rated {
                    t.rates.push(Ratio { numerator: (c.offered - on_time_of(run)) as u128, denominator: c.offered })
                } else {
                    t.rates
                },
                shortfalls: if rated {
                    t.shortfalls.push(
                        Ratio { numerator: (best_on_time(runs) - on_time_of(run)) as u128, denominator: c.offered },
                    )
                } else {
                    t.shortfalls
                },
                rated: if rated { t.rated.push(cs.len() - 1) } else { t.rated },
                ..t
            }
        }
    }
}

/// `a` is a smaller fraction than `b`.
pub open spec fn ratio_lt(a: Ratio, b: Ratio) -> bool {
    a.numerator * b.denominator < b.numerator * a.denominator
}

/// Position `k` holds the first of the largest fractions.
pub open spec fn first_largest(s: Seq<Ratio>, k: int) -> bool {
    &&& 0 <= k < s.len()
    &&& forall|q: int| 0 <= q < s.len() ==> !ratio_lt(#[trigger] s[k], s[q])
    &&& forall|q: int| 0 <= q < k ==> ratio_lt(#[trigger] s[q], s[k])
}

/// The first largest fraction, if any.
pub open spec fn largest(s: Seq<Ratio>, found: Option<Ratio>) -> bool {
    if s.len() == 0 {
        found is None
    } else {
        exists|k: int| first_largest(s, k) && found == Some(s[k])
    }
}

/// Position `p` comes before `q` when its fraction is smaller, or equal and earlier.
pub open spec fn ranked_before(s: Seq<Ratio>, p: int, q: int) -> bool {
    ||| ratio_lt(s[p], s[q])
    ||| s[p].numerator * s[q].denominator == s[q].numerator * s[p].denominator && p < q
}

/// `order` lists the positions of `s` by fraction, equal fractions in input order.
pub open spec fn stably_sorted(s: Seq<Ratio>, order: Seq<usize>) -> bool {
    &&& is_perm(order, s.len() as int)
    &&& forall|a: int, b: int|
        0 <= a < b < order.len() ==> !ranked_before(s, #[trigger] order[b] as int, #[trigger] order[a] as int)
}

/// The nearest-rank 95th percentile of the fractions in stable sorted order.
pub open spec fn percentile95(s: Seq<Ratio>, found: Option<Ratio>) -> bool {
    if s.len() == 0 {
        found is None
    } else {
        exists|order: Seq<usize>|
            stably_sorted(s, order) && found == Some(s[order[nearest_rank(s.len() as int, 95) - 1] as int])
    }
}

pub open spec fn case_key(c: CaseResult, key: CaseKey) -> bool {
    key.world@ == c.world@ && key.seed == c.seed
}

/// Aggregate `g` holds what the selected cases contribute to strategy `i`.
pub open spec fn aggregates_strategy(g: Aggregate, ev: Evaluation, world: Option<Seq<char>>, i: int) -> bool {
    let cs = ev.cases@;
    let t = tally(cs, world, i);
    &&& g.strategy@ == ev.strategies@[i].name@
    &&& g.total_cases == t.total
    &&& g.matched_cases == t.matched
    &&& g.censored_cases == t.censored
    &&& g.error_cases == t.errors
    &&& g.wins == t.wins
    &&& g.tied_best == t.tied
    &&& g.replay_verified == (ev.config.verify_replay && t.replayed)
    &&& aggregate_figures(g) == t.sums
    &&& g.peak_queue == t.peak_queue
    &&& g.peak_active == t.peak_active
    &&& largest(t.rates, g.worst_not_on_time)
    &&& (g.worst_case is Some <==> g.worst_not_on_time is Some)
    &&& (t.rates.len() > 0 ==> exists|k: int|
        first_largest(t.rates, k) && g.worst_not_on_time == Some(t.rates[k])
            && case_key(cs[t.rated[k]], g.worst_case->0))
    &&& largest(t.shortfalls, g.worst_service_shortfall)
    &&& (g.worst_shortfall_case is Some <==> g.worst_service_shortfall is Some)
    &&& (t.shortfalls.len() > 0 ==> exists|k: int|
        first_largest(t.shortfalls, k) && g.worst_service_shortfall == Some(t.shortfalls[k])
            && case_key(cs[t.rated[k]], g.worst_shortfall_case->0))
    &&& percentile95(t.rates, g.p95_not_on_time)
}

/// Every sum of strategy `i` fits in its integer.
pub open spec fn sums_fit(t: Tally) -> bool {
    forall|f: int| 0 <= f < t.sums.len() ==> #[trigger] t.sums[f] <= u128::MAX
}

/// The aggregates exist: each case has a run for every strategy, and each run of a
/// complete case has counts from which its score and on-time rate follow.
pub open spec fn aggregate_ready(ev: Evaluation) -> bool {
    forall|c: int| 0 <= c < ev.cases@.len() ==> {
        let case = #[trigger] ev.cases@[c];
        &&& case.runs@.len() >= ev.strategies@.len()
        &&& all_complete(case.runs@) ==> forall|j: int| 0 <= j < case.runs@.len() ==> {
            let m = (#[trigger] case.runs@[j]).metrics;
            &&& m.completed_late <= m.completed
            &&& m.completed_late_volume_cents <= m.completed_volume_cents
            &&& m.completed <= m.generated
            &&& m.completed_volume_cents <= m.generated_volume_cents
            &&& m.completed - m.completed_late <= case.offered
        }
    }
}

/// Fractions with positive denominators: at most, then smaller, is smaller.
proof fn lemma_ratio_le_lt(a: Ratio, b: Ratio, c: Ratio)
    requires
        a.denominator > 0,
        b.denominator > 0,
        c.denominator > 0,
        !ratio_lt(b, a),
        ratio_lt(b, c),
    ensures
        ratio_lt(a, c),
{
    let an = a.numerator as int;
    let ad = a.denominator as int;
    let bn = b.numerator as int;
    let bd = b.denominator as int;
    let cn = c.numerator as int;
    let cd = c.denominator as int;
    assert(an * bd * cd <= bn * ad * cd) by (nonlinear_arith)
        requires
            an * bd <= bn * ad,
            cd > 0,
    ;
    assert(bn * cd * ad < cn * bd * ad) by (nonlinear_arith)
        requires
            bn * cd < cn * bd,
            ad > 0,
    ;
    assert(an * cd * bd < cn * ad * bd) by (nonlinear_arith)
        requires
            an * bd * cd <= bn * ad * cd,
            bn * cd * ad < cn * bd * ad,
    ;
    assert(an * cd < cn * ad) by (nonlinear_arith)
        requires
            an * cd * bd < cn * ad * bd,
            bd > 0,
    ;
}

/// Fractions with positive denominators: smaller, then at most, is smaller.
proof fn lemma_ratio_lt_le(a: Ratio, b: Ratio, c: Ratio)
    requires
        a.denominator > 0,
        b.denominator > 0,
        c.denominator > 0,
        ratio_lt(a, b),
        !ratio_lt(c, b),
    ensures
        ratio_lt(a, c),
{
    let an = a.numerator as int;
    let ad = a.denominator as int;
    let bn = b.numerator as int;
    let bd = b.denominator as int;
    let cn = c.numerator as int;
    let cd = c.denominator as int;
    assert(an * bd * cd < bn * ad * cd) by (nonlinear_arith)
        requires
            an * bd < bn * ad,
            cd > 0,
    ;
    assert(bn * cd * ad <= cn * bd * ad) by (nonlinear_arith)
        requires
            bn * cd <= cn * bd,
            ad > 0,
    ;
    assert(an * cd * bd < cn * ad * bd) by (nonlinear_arith)
        requires
            an * bd * cd < bn * ad * cd,
            bn * cd * ad <= cn * bd * ad,
    ;
    assert(an * cd < cn * ad) by (nonlinear_arith)
        requires
            an * cd * bd < cn * ad * bd,
            bd > 0,
    ;
}

/// Fractions with positive denominators: equal to equal is equal.
proof fn lemma_ratio_eq_eq(a: Ratio, b: Ratio, c: Ratio)
    requires
        a.denominator > 0,
        b.denominator > 0,
        c.denominator > 0,
        a.numerator * b.denominator == b.numerator * a.denominator,
        b.numerator * c.denominator == c.numerator * b.denominator,
    ensures
        a.numerator * c.denominator == c.numerator * a.denominator,
{
    let an = a.numerator as int;
    let ad = a.denominator as int;
    let bn = b.numerator as int;
    let bd = b.denominator as int;
    let cn = c.numerator as int;
    let cd = c.denominator as int;
    assert(an * cd * bd == cn * ad * bd) by (nonlinear_arith)
        requires
            an * bd == bn * ad,
            bn * cd == cn * bd,
    ;
    assert(an * cd == cn * ad) by (nonlinear_arith)
        requires
            an * cd * bd == cn * ad * bd,
            bd > 0,
    ;
}

/// The position of the first largest fraction.
fn first_largest_index(s: &Vec<Ratio>) -> (k: usize)
    requires
        s@.len() > 0,
        forall|q: int| 0 <= q < s@.len() ==> (#[trigger] s@[q]).denominator > 0,
    ensures
        first_largest(s@, k as int),
{
    let n = s.len();
    let mut k: usize = 0;
    let mut p: usize = 1;
    while p < n
        invariant
            n == s@.len(),
            forall|q: int| 0 <= q < s@.len() ==> (#[trigger] s@[q]).denominator > 0,
            1 <= p <= n,
            k < p,
            forall|q: int| 0 <= q < p ==> !ratio_lt(s@[k as int], #[trigger] s@[q]),
            forall|q: int| 0 <= q < k ==> ratio_lt(#[trigger] s@[q], s@[k as int]),
        decreases n - p,
    {
        if ratio_greater(s[p], s[k]) {
            proof {
                assert forall|q: int| 0 <= q < p implies ratio_lt(#[trigger] s@[q], s@[p as int]) by {
                    lemma_ratio_le_lt(s@[q], s@[k as int], s@[p as int]);
                }
            }
            k = p;
        }
        p += 1;
    }
    k
}

/// A fraction with its position, ranked by value and then by position.
struct RankedRatio {
    ratio: Ratio,
    position: usize,
}

impl Ordered for RankedRatio {
    closed spec fn precedes(&self, other: &Self) -> bool {
        &&& self.ratio.denominator > 0
        &&& other.ratio.denominator > 0
        &&& {
            ||| ratio_lt(self.ratio, other.ratio)
            ||| self.ratio.numerator * other.ratio.denominator == other.ratio.numerator * self.ratio.denominator
                && self.position < other.position
        }
    }

    fn before(&self, other: &Self) -> (r: bool) {
        if self.ratio.denominator == 0 || other.ratio.denominator == 0 {
            return false;
        }
        if ratio_greater(other.ratio, self.ratio) {
            return true;
        }
        if ratio_greater(self.ratio, other.ratio) {
            return false;
        }
        self.position < other.position
    }

    proof fn precedes_irreflexive(a: Self) {
    }

    proof fn precedes_transitive(a: Self, b: Self, c: Self) {
        let (x, y, z) = (a.ratio, b.ratio, c.ratio);
        if ratio_lt(x, y) {
            if ratio_lt(y, z) {
                lemma_ratio_le_lt(x, y, z);
            } else {
                lemma_ratio_lt_le(x, y, z);
            }
        } else {
            if ratio_lt(y, z) {
                lemma_ratio_le_lt(x, y, z);
            } else {
                lemma_ratio_eq_eq(x, y, z);
            }
        }
    }
}

/// ceil(95 n / 100), computed without a product that could overflow.
proof fn lemma_rank_split(n: int)
    requires
        n >= 1,
    ensures
        (n / 100) * 95 + ((n % 100) * 95 + 99) / 100 == nearest_rank(n, 95),
        1 <= nearest_rank(n, 95) <= n,
{
    let q = n / 100;
    let r = n % 100;
    assert(n == 100 * q + r && 0 <= r < 100) by (nonlinear_arith)
        requires
            q == n / 100,
            r == n % 100,
    ;
    assert((n * 95 + 99) / 100 == q * 95 + (r * 95 + 99) / 100) by (nonlinear_arith)
        requires
            n == 100 * q + r,
            0 <= r < 100,
    ;
    assert(1 <= (n * 95 + 99) / 100 <= n) by (nonlinear_arith)
        requires
            n >= 1,
    ;
}

/// The nearest-rank 95th percentile of the fractions, equal fractions in input order.
fn percentile95_of(s: &Vec<Ratio>) -> (r: Option<Ratio>)
    requires
        forall|q: int| 0 <= q < s@.len() ==> (#[trigger] s@[q]).denominator > 0,
    ensures
        percentile95(s@, r),
{
    let n = s.len();
    if n == 0 {
        return None;
    }
    let mut items: Vec<RankedRatio> = Vec::new();
    let mut p: usize = 0;
    while p < n
        invariant
            n == s@.len(),
            p <= n,
            items@.len() == p,
            forall|q: int| 0 <= q < p ==> (#[trigger] items@[q]).ratio == s@[q] && items@[q].position == q,
        decreases n - p,
    {
        items.push(RankedRatio { ratio: s[p], position: p });
        p += 1;
    }
    let order = position_order(&items);
    proof {
        lemma_rank_split(n as int);
        assert forall|a: int, b: int| 0 <= a < b < order@.len() implies !ranked_before(
            s@,
            #[trigger] order@[b] as int,
            #[trigger] order@[a] as int,
        ) by {
            assert(!items@[order@[b] as int].precedes(&items@[order@[a] as int]));
            assert(order@[a] < n && order@[b] < n);
        }
        assert(stably_sorted(s@, order@));
    }
    let k = (n / 100) * 95 + ((n % 100) * 95 + 99) / 100 - 1;
    Some(s[order[k]])
}

/// Whether every run of the case is complete.
fn runs_complete(runs: &Vec<RunResult>) -> (r: bool)
    ensures
        r == all_complete(runs@),
{
    let mut j: usize = 0;
    while j < runs.len()
        invariant
            j <= runs@.len(),
            forall|q: int| 0 <= q < j ==> (#[trigger] runs@[q]).status == Status::Complete,
        decreases runs@.len() - j,
    {
        match runs[j].status {
            Status::Complete => {},
            _ => {
                return false;
            },
        }
        j += 1;
    }
    true
}

/// Whether two scores are equal, field by field.
fn same_score(a: &Score, b: &Score) -> (r: bool)
    ensures
        r == (*a == *b),
{
    a.not_on_time == b.not_on_time && a.not_on_time_volume_cents == b.not_on_time_volume_cents
        && a.not_completed == b.not_completed && a.not_completed_volume_cents == b.not_completed_volume_cents
        && a.actual_fee_cents == b.actual_fee_cents && a.completed_elapsed_minutes == b.completed_elapsed_minutes
        && a.departed_hops == b.departed_hops && a.changed_assignments == b.changed_assignments
}

/// Whether run `i` has the best score of its case, and whether it has it alone.
fn rank_of(runs: &Vec<RunResult>, i: usize) -> (r: (bool, bool))
    requires
        i < runs@.len(),
        all_complete(runs@),
        forall|j: int| 0 <= j < runs@.len() ==> crate::evaluation::score_ready((#[trigger] runs@[j]).metrics),
    ensures
        r.0 == best(runs@, i as int),
        r.1 == alone(runs@, i as int),
{
    let mine = match runs[i].score() {
        Some(s) => s,
        None => {
            return (false, false);
        },
    };
    let mut top = true;
    let mut lone = true;
    let mut j: usize = 0;
    while j < runs.len()
        invariant
            i < runs@.len(),
            j <= runs@.len(),
            all_complete(runs@),
            forall|q: int| 0 <= q < runs@.len() ==> crate::evaluation::score_ready((#[trigger] runs@[q]).metrics),
            mine == score_of(runs@[i as int]),
            top == forall|q: int| 0 <= q < j ==> !score_lt(score_of(#[trigger] runs@[q]), mine),
            lone == forall|q: int| 0 <= q < j && q != i ==> score_of(#[trigger] runs@[q]) != mine,
        decreases runs@.len() - j,
    {
        assert(runs@[j as int].status == Status::Complete);
        let other = match runs[j].score() {
            Some(s) => s,
            None => {
                return (false, false);
            },
        };
        if crate::evaluation::score_less(&other, &mine) {
            top = false;
        }
        if j != i && same_score(&other, &mine) {
            lone = false;
        }
        j += 1;
    }
    (top, lone)
}

/// The most on-time payments of any run of the case.
fn best_on_time_of(runs: &Vec<RunResult>) -> (r: u128)
    requires
        forall|j: int| 0 <= j < runs@.len() ==> (#[trigger] runs@[j]).metrics.completed_late
            <= runs@[j].metrics.completed,
    ensures
        r == best_on_time(runs@),
        forall|j: int| 0 <= j < runs@.len() ==> on_time_of(#[trigger] runs@[j]) <= r,
{
    let mut top: u128 = 0;
    let mut j: usize = 0;
    while j < runs.len()
        invariant
            j <= runs@.len(),
            forall|q: int| 0 <= q < runs@.len() ==> (#[trigger] runs@[q]).metrics.completed_late
                <= runs@[q].metrics.completed,
            top == best_on_time(runs@.take(j as int)),
            forall|q: int| 0 <= q < j ==> on_time_of(#[trigger] runs@[q]) <= top,
        decreases runs@.len() - j,
    {
        assert(runs@.take(j + 1).drop_last() =~= runs@.take(j as int));
        let here = runs[j].on_time();
        if here > top {
            top = here;
        }
        j += 1;
    }
    assert(runs@.take(j as int) =~= runs@);
    top
}

/// The figures of a run that its strategy's aggregate sums.
fn figures_of(run: &RunResult) -> (v: Vec<u128>)
    ensures
        v@.len() == summed_figures(),
        forall|f: int| 0 <= f < summed_figures() ==> v@[f] as int == #[trigger] run_figures(*run)[f],
{
    let mut v: Vec<u128> = Vec::new();
    v.push(run.metrics.generated);
    v.push(run.metrics.generated_volume_cents);
    v.push(run.metrics.accepted_routes);
    v.push(run.metrics.rejected);
    v.push(run.metrics.rejected_volume_cents);
    v.push(run.metrics.expired);
    v.push(run.metrics.expired_volume_cents);
    v.push(run.metrics.completed);
    v.push(run.metrics.completed_volume_cents);
    v.push(run.metrics.completed_late);
    v.push(run.metrics.completed_late_volume_cents);
    v.push(run.metrics.sla_failures);
    v.push(run.metrics.sla_failed_volume_cents);
    v.push(run.metrics.routing_cost_cents);
    v.push(run.metrics.completed_elapsed_minutes);
    v.push(run.metrics.departed_hops);
    v.push(run.metrics.settled_hops);
    v.push(run.metrics.departed_principal_cents);
    v.push(run.metrics.settled_principal_cents);
    v.push(run.adaptation.rail_changes);
    v.push(run.adaptation.reoptimizations);
    v.push(run.adaptation.assignment_comparisons);
    v.push(run.adaptation.changed_assignments);
    v.push(run.adaptation.changed_routes);
    v.push(run.adaptation.retimed_only);
    v.push(run.adaptation.withdrawn);
    v.push(run.diagnostics.searches);
    v.push(run.diagnostics.expansions);
    v.push(run.diagnostics.candidates);
    v.push(run.diagnostics.truncated_searches);
    v.push(run.diagnostics.unresolved);
    v.push(run.diagnostics.repair_trials);
    v.push(run.never_routed_expired());
    v.push(run.queue_payment_minutes);
    proof {
        assert(v@.map_values(|x: u128| x as int) =~= run_figures(*run));
        assert forall|f: int| 0 <= f < summed_figures() implies v@[f] as int == #[trigger] run_figures(*run)[f] by {
            assert(v@.map_values(|x: u128| x as int)[f] == v@[f] as int);
        }
    }
    v
}

/// Adds `v` into `acc` figure by figure; false, with `acc` unspecified, where a sum
/// would not fit.
fn add_into(acc: &mut Vec<u128>, v: &Vec<u128>) -> (ok: bool)
    requires
        old(acc)@.len() == v@.len(),
    ensures
        final(acc)@.len() == old(acc)@.len(),
        ok == forall|f: int| 0 <= f < v@.len() ==> old(acc)@[f] + v@[f] <= u128::MAX,
        ok ==> forall|f: int| 0 <= f < v@.len() ==> final(acc)@[f] == old(acc)@[f] + v@[f],
{
    let ghost start = acc@;
    let n = v.len();
    let mut f: usize = 0;
    while f < n
        invariant
            n == v@.len(),
            acc@.len() == n,
            start == old(acc)@,
            start.len() == n,
            f <= n,
            forall|g: int| 0 <= g < f ==> #[trigger] start[g] + v@[g] <= u128::MAX,
            forall|g: int| 0 <= g < f ==> #[trigger] acc@[g] == start[g] + v@[g],
            forall|g: int| f <= g < n ==> #[trigger] acc@[g] == start[g],
        decreases n - f,
    {
        let a = acc[f];
        let b = v[f];
        match a.checked_add(b) {
            Some(total) => {
                assert(start[f as int] + v@[f as int] <= u128::MAX);
                acc.set(f, total);
                assert(acc@[f as int] == start[f as int] + v@[f as int]);
            },
            None => {
                return false;
            },
        }
        f += 1;
    }
    true
}

/// Every step adds non-negative figures, so an earlier sum never exceeds a later one.
proof fn lemma_tally_grows(cs: Seq<CaseResult>, world: Option<Seq<char>>, i: int, m: int)
    requires
        0 <= m <= cs.len(),
    ensures
        tally(cs, world, i).sums.len() == summed_figures(),
        tally(cs.take(m), world, i).sums.len() == summed_figures(),
        forall|f: int| 0 <= f < summed_figures() ==> tally(cs.take(m), world, i).sums[f] <= #[trigger] tally(cs, world, i).sums[f],
    decreases cs.len(),
{
    if cs.len() == 0 {
        assert(cs.take(m) =~= cs);
    } else if m == cs.len() {
        assert(cs.take(m) =~= cs);
        lemma_tally_grows(cs.drop_last(), world, i, m - 1);
    } else {
        lemma_tally_grows(cs.drop_last(), world, i, m);
        assert(cs.drop_last().take(m) =~= cs.take(m));
    }
}

fn world_matches(case: &CaseResult, world: Option<&String>) -> (r: bool)
    ensures
        r == selected(*case, world_view(world)),
{
    match world {
        Some(w) => same_text(&case.world, w),
        None => true,
    }
}

pub open spec fn world_view(world: Option<&String>) -> Option<Seq<char>> {
    match world {
        Some(w) => Some(w@),
        None => None,
    }
}

impl Evaluation {
    /// The aggregate of strategy `index` over the selected cases; `None` where a
    /// sum would not fit.
    #[verifier::rlimit(60)]
    fn aggregate_strategy(&self, index: usize, world: Option<&String>) -> (r: Option<Aggregate>)
        requires
            aggregate_ready(*self),
            index < self.strategies@.len(),
        ensures
            r is Some <==> sums_fit(tally(self.cases@, world_view(world), index as int)),
            r matches Some(g) ==> aggregates_strategy(g, *self, world_view(world), index as int),
    {
        let ghost w = world_view(world);
        let ghost i = index as int;
        let ghost cs = self.cases@;
        let n = self.cases.len();
        let mut total: usize = 0;
        let mut matched: usize = 0;
        let mut censored: usize = 0;
        let mut errors: usize = 0;
        let mut wins: usize = 0;
        let mut tied: usize = 0;
        let mut replayed = true;
        let mut sums: Vec<u128> = Vec::new();
        let mut z: usize = 0;
        while z < 34
            invariant
                z <= 34,
                sums@.len() == z,
                forall|f: int| 0 <= f < z ==> sums@[f] == 0,
            decreases 34 - z,
        {
            sums.push(0);
            z += 1;
        }
        let mut peak_queue: usize = 0;
        let mut peak_active: usize = 0;
        let mut rates: Vec<Ratio> = Vec::new();
        let mut shortfalls: Vec<Ratio> = Vec::new();
        let mut rated: Vec<usize> = Vec::new();
        proof {
            assert(cs.take(0) =~= Seq::<CaseResult>::empty());
        }
        let mut c: usize = 0;
        while c < n
            invariant
                n == cs.len(),
                cs == self.cases@,
                w == world_view(world),
                i == index,
                aggregate_ready(*self),
                index < self.strategies@.len(),
                c <= n,
                ({
                    let t = tally(cs.take(c as int), w, i);
                    &&& total == t.total && matched == t.matched && censored == t.censored
                    &&& errors == t.errors && wins == t.wins && tied == t.tied
                    &&& replayed == t.replayed
                    &&& sums@.len() == summed_figures() && t.sums.len() == summed_figures()
                    &&& forall|f: int| 0 <= f < summed_figures() ==> sums@[f] as int == #[trigger] t.sums[f]
                    &&& peak_queue == t.peak_queue && peak_active == t.peak_active
                    &&& rates@ == t.rates && shortfalls@ == t.shortfalls
                    &&& rated@.len() == t.rated.len()
                    &&& forall|q: int| 0 <= q < rated@.len() ==> rated@[q] as int == #[trigger] t.rated[q]
                }),
                total <= c,
                matched <= c,
                censored <= c,
                errors <= c,
                wins <= c,
                tied <= c,
                rates@.len() == rated@.len(),
                shortfalls@.len() == rated@.len(),
                forall|q: int| 0 <= q < rates@.len() ==> (#[trigger] rates@[q]).denominator > 0,
                forall|q: int| 0 <= q < shortfalls@.len() ==> (#[trigger] shortfalls@[q]).denominator > 0,
                forall|q: int| 0 <= q < rated@.len() ==> (#[trigger] rated@[q]) < c,
            decreases n - c,
        {
            proof {
                assert(cs.take(c + 1).drop_last() =~= cs.take(c as int));
                assert(cs.take(c + 1).last() == cs[c as int]);
                lemma_tally_grows(cs.take(c as int), w, i, c as int);
                assert(cs.take(c as int).take(c as int) =~= cs.take(c as int));
            }
            let case = &self.cases[c];
            if world_matches(case, world) {
                let run = &case.runs[index];
                total += 1;
                replayed = replayed && run.replay_verified;
                if !runs_complete(&case.runs) {
                    match run.status {
                        Status::Censored => {
                            censored += 1;
                        },
                        Status::Error { .. } => {
                            errors += 1;
                        },
                        Status::Complete => {},
                    }
                } else {
                    matched += 1;
                    let (top, lone) = rank_of(&case.runs, index);
                    if top {
                        if lone {
                            wins += 1;
                        } else {
                            tied += 1;
                        }
                    }
                    let figures = figures_of(run);
                    let ghost before = sums@;
                    if !add_into(&mut sums, &figures) {
                        proof {
                            let f = choose|f: int| 0 <= f < figures@.len() && !(before[f] + figures@[f] <= u128::MAX);
                            lemma_tally_grows(cs, w, i, c + 1);
                            assert(tally(cs.take(c + 1), w, i).sums[f] > u128::MAX);
                            assert(tally(cs, w, i).sums[f] > u128::MAX);
                        }
                        return None;
                    }
                    if run.peak_queue > peak_queue {
                        peak_queue = run.peak_queue;
                    }
                    if run.peak_active > peak_active {
                        peak_active = run.peak_active;
                    }
                    if case.offered > 0 {
                        let on_time = run.on_time();
                        let best = best_on_time_of(&case.runs);
                        rates.push(Ratio { numerator: case.offered - on_time, denominator: case.offered });
                        shortfalls.push(Ratio { numerator: best - on_time, denominator: case.offered });
                        rated.push(c);
                    }
                    proof {
                        assert forall|f: int| 0 <= f < summed_figures() implies sums@[f] as int
                            == #[trigger] tally(cs.take(c + 1), w, i).sums[f] by {
                            assert(figures@[f] as int == run_figures(*run)[f]);
                        }
                    }
                }
            }
            c += 1;
        }
        proof {
            assert(cs.take(n as int) =~= cs);
        }
        let (worst_not_on_time, worst_case) = if rates.len() > 0 {
            let k = first_largest_index(&rates);
            let at = &self.cases[rated[k]];
            (Some(rates[k]), Some(CaseKey { world: copy_string(&at.world), seed: at.seed }))
        } else {
            (None, None)
        };
        let (worst_service_shortfall, worst_shortfall_case) = if shortfalls.len() > 0 {
            let k = first_largest_index(&shortfalls);
            let at = &self.cases[rated[k]];
            (Some(shortfalls[k]), Some(CaseKey { world: copy_string(&at.world), seed: at.seed }))
        } else {
            (None, None)
        };
        let p95_not_on_time = percentile95_of(&rates);
        let g = Aggregate {
            strategy: copy_string(&self.strategies[index].name),
            total_cases: total,
            matched_cases: matched,
            censored_cases: censored,
            error_cases: errors,
            wins,
            tied_best: tied,
            metrics: Metrics {
            generated: sums[0],
            generated_volume_cents: sums[1],
            accepted_routes: sums[2],
            rejected: sums[3],
            rejected_volume_cents: sums[4],
            expired: sums[5],
            expired_volume_cents: sums[6],
            completed: sums[7],
            completed_volume_cents: sums[8],
            completed_late: sums[9],
            completed_late_volume_cents: sums[10],
            sla_failures: sums[11],
            sla_failed_volume_cents: sums[12],
            routing_cost_cents: sums[13],
            completed_elapsed_minutes: sums[14],
            departed_hops: sums[15],
            settled_hops: sums[16],
            departed_principal_cents: sums[17],
            settled_principal_cents: sums[18],
            },
            adaptation: AdaptationMetrics {
            rail_changes: sums[19],
            reoptimizations: sums[20],
            assignment_comparisons: sums[21],
            changed_assignments: sums[22],
            changed_routes: sums[23],
            retimed_only: sums[24],
            withdrawn: sums[25],
            },
            diagnostics: SearchDiagnostics {
            searches: sums[26],
            expansions: sums[27],
            candidates: sums[28],
            truncated_searches: sums[29],
            unresolved: sums[30],
            repair_trials: sums[31],
            },
            never_routed_expired: sums[32],
            queue_payment_minutes: sums[33],
            peak_queue,
            peak_active,
            p95_not_on_time,
            worst_case,
            worst_not_on_time,
            worst_service_shortfall,
            worst_shortfall_case,
            replay_verified: self.config.verify_replay && replayed,
        };
        proof {
            assert(aggregate_figures(g) =~= tally(cs, w, i).sums);
        }
        Some(g)
    }
}


/// Every sum of every strategy over the selected cases fits in its integer.
pub open spec fn all_fit(ev: Evaluation, world: Option<Seq<char>>) -> bool {
    forall|i: int| 0 <= i < ev.strategies@.len() ==> #[trigger] sums_fit(tally(ev.cases@, world, i))
}

/// `v` holds one aggregate per strategy, in strategy order, over the selected cases.
pub open spec fn aggregated(v: Seq<Aggregate>, ev: Evaluation, world: Option<Seq<char>>) -> bool {
    &&& v.len() == ev.strategies@.len()
    &&& forall|i: int| 0 <= i < v.len() ==> #[trigger] aggregates_strategy(v[i], ev, world, i)
}

pub open spec fn total_overflow() -> SimulationError {
    SimulationError::ArithmeticOverflow("evaluation total")
}

impl Evaluation {
    fn aggregate_selected(&self, world: Option<&String>) -> (r: Result<Vec<Aggregate>, SimulationError>)
        requires
            aggregate_ready(*self),
        ensures
            r is Ok <==> all_fit(*self, world_view(world)),
            r matches Err(e) ==> e == total_overflow(),
            r matches Ok(v) ==> aggregated(v@, *self, world_view(world)),
    {
        let mut result: Vec<Aggregate> = Vec::new();
        let mut index: usize = 0;
        while index < self.strategies.len()
            invariant
                aggregate_ready(*self),
                index <= self.strategies@.len(),
                result@.len() == index,
                forall|i: int| 0 <= i < index ==> #[trigger] sums_fit(tally(self.cases@, world_view(world), i)),
                forall|i: int| 0 <= i < index ==> #[trigger] aggregates_strategy(result@[i], *self, world_view(world), i),
            decreases self.strategies@.len() - index,
        {
            match self.aggregate_strategy(index, world) {
                Some(g) => {
                    result.push(g);
                },
                None => {
                    return Err(SimulationError::ArithmeticOverflow("evaluation total"));
                },
            }
            index += 1;
        }
        Ok(result)
    }

    /// One aggregate per strategy over every case.
    pub fn aggregates(&self) -> (r: Result<Vec<Aggregate>, SimulationError>)
        requires
            aggregate_ready(*self),
        ensures
            r is Ok <==> all_fit(*self, None),
            r matches Err(e) ==> e == total_overflow(),
            r matches Ok(v) ==> aggregated(v@, *self, None),
    {
        self.aggregate_selected(None)
    }

    /// One aggregate per strategy over the cases of one world, which must be one
    /// of the evaluation's worlds.
    pub fn aggregates_for_world(&self, world: &str) -> (r: Result<Vec<Aggregate>, SimulationError>)
        requires
            aggregate_ready(*self),
        ensures
            (!exists|w: int| 0 <= w < self.worlds@.len() && (#[trigger] self.worlds@[w]).name@ == world@)
                ==> (r matches Err(e) && unknown_world(e)),
            (exists|w: int| 0 <= w < self.worlds@.len() && (#[trigger] self.worlds@[w]).name@ == world@) ==> {
                &&& (r is Ok <==> all_fit(*self, Some(world@)))
                &&& (r matches Err(e) ==> e == total_overflow())
                &&& (r matches Ok(v) ==> aggregated(v@, *self, Some(world@)))
            },
    {
        let name = text(world);
        let mut w: usize = 0;
        while w < self.worlds.len()
            invariant
                aggregate_ready(*self),
                name@ == world@,
                w <= self.worlds@.len(),
                forall|q: int| 0 <= q < w ==> (#[trigger] self.worlds@[q]).name@ != world@,
            decreases self.worlds@.len() - w,
        {
            if same_text(&self.worlds[w].name, &name) {
                return self.aggregate_selected(Some(&name));
            }
            w += 1;
        }
        Err(SimulationError::Validation(ValidationError::Evaluation { message: text("unknown aggregate world") }))
    }

    /// The overall aggregates, named by the empty world, then each world's own.
    pub fn aggregate_groups(&self) -> (r: Result<Vec<(String, Vec<Aggregate>)>, SimulationError>)
        requires
            aggregate_ready(*self),
        ensures
            r is Ok <==> all_fit(*self, None) && forall|w: int|
                0 <= w < self.worlds@.len() ==> all_fit(*self, Some((#[trigger] self.worlds@[w]).name@)),
            r matches Err(e) ==> e == total_overflow(),
            r matches Ok(groups) ==> {
                &&& groups@.len() == self.worlds@.len() + 1
                &&& groups@[0].0@ == Seq::<char>::empty()
                &&& aggregated(groups@[0].1@, *self, None)
                &&& forall|w: int| 0 <= w < self.worlds@.len() ==> {
                    &&& (#[trigger] groups@[w + 1]).0@ == self.worlds@[w].name@
                    &&& aggregated(groups@[w + 1].1@, *self, Some(self.worlds@[w].name@))
                }
            },
    {
        let overall = match self.aggregate_selected(None) {
            Ok(v) => v,
            Err(e) => {
                return Err(e);
            },
        };
        let mut groups: Vec<(String, Vec<Aggregate>)> = Vec::new();
        groups.push((String::new(), overall));
        let mut w: usize = 0;
        while w < self.worlds.len()
            invariant
                aggregate_ready(*self),
                w <= self.worlds@.len(),
                all_fit(*self, None),
                groups@.len() == w + 1,
                groups@[0].0@ == Seq::<char>::empty(),
                aggregated(groups@[0].1@, *self, None),
                forall|q: int| 0 <= q < w ==> all_fit(*self, Some((#[trigger] self.worlds@[q]).name@)),
                forall|q: int| 0 <= q < w ==> {
                    &&& (#[trigger] groups@[q + 1]).0@ == self.worlds@[q].name@
                    &&& aggregated(groups@[q + 1].1@, *self, Some(self.worlds@[q].name@))
                },
            decreases self.worlds@.len() - w,
        {
            let name = &self.worlds[w].name;
            match self.aggregate_selected(Some(name)) {
                Ok(v) => {
                    groups.push((copy_string(name), v));
                },
                Err(e) => {
                    return Err(e);
                },
            }
            w += 1;
        }
        Ok(groups)
    }
}

/// The error for a world that the evaluation does not have.
pub open spec fn unknown_world(e: SimulationError) -> bool {
    e matches SimulationError::Validation(ValidationError::Evaluation { message })
        && message@ == "unknown aggregate world"@
}


/// Late completions never outnumber completions in a tally whose complete runs
/// count consistently.
proof fn lemma_tally_late_within(cs: Seq<CaseResult>, world: Option<Seq<char>>, i: int)
    requires
        0 <= i,
        forall|c: int| 0 <= c < cs.len() ==> {
            let case = #[trigger] cs[c];
            &&& case.runs@.len() > i
            &&& all_complete(case.runs@) ==> forall|j: int| 0 <= j < case.runs@.len() ==> {
                let m = (#[trigger] case.runs@[j]).metrics;
                &&& m.completed_late <= m.completed
                &&& m.completed_late_volume_cents <= m.completed_volume_cents
            }
        },
    ensures
        tally(cs, world, i).sums.len() == summed_figures(),
        tally(cs, world, i).sums[9] <= tally(cs, world, i).sums[7],
        tally(cs, world, i).sums[10] <= tally(cs, world, i).sums[8],
    decreases cs.len(),
{
    if cs.len() > 0 {
        let rest = cs.drop_last();
        assert forall|c: int| 0 <= c < rest.len() implies {
            let case = #[trigger] rest[c];
            &&& case.runs@.len() > i
            &&& all_complete(case.runs@) ==> forall|j: int| 0 <= j < case.runs@.len() ==> {
                let m = (#[trigger] case.runs@[j]).metrics;
                &&& m.completed_late <= m.completed
                &&& m.completed_late_volume_cents <= m.completed_volume_cents
            }
        } by {
            assert(rest[c] == cs[c]);
        }
        lemma_tally_late_within(rest, world, i);
        let last = cs[cs.len() - 1];
        assert(last == cs.last());
        if all_complete(last.runs@) {
            let run = last.runs@[i];
            assert(run.metrics.completed_late <= run.metrics.completed);
        }
    }
}

/// The cases whose run `i` a tally takes its peaks from: selected and complete.
pub open spec fn peak_case(c: CaseResult, world: Option<Seq<char>>) -> bool {
    selected(c, world) && all_complete(c.runs@)
}

proof fn lemma_tally_peaks(cs: Seq<CaseResult>, world: Option<Seq<char>>, i: int)
    ensures
        forall|c: int| 0 <= c < cs.len() && peak_case(#[trigger] cs[c], world) ==> cs[c].runs@[i].peak_queue
            <= tally(cs, world, i).peak_queue && cs[c].runs@[i].peak_active <= tally(cs, world, i).peak_active,
        tally(cs, world, i).peak_queue == 0 || exists|c: int|
            0 <= c < cs.len() && peak_case(#[trigger] cs[c], world) && cs[c].runs@[i].peak_queue == tally(cs, world, i).peak_queue,
        tally(cs, world, i).peak_active == 0 || exists|c: int|
            0 <= c < cs.len() && peak_case(#[trigger] cs[c], world) && cs[c].runs@[i].peak_active == tally(cs, world, i).peak_active,
    decreases cs.len(),
{
    if cs.len() > 0 {
        let rest = cs.drop_last();
        lemma_tally_peaks(rest, world, i);
        let t = tally(rest, world, i);
        let last = cs.last();
        assert(cs[cs.len() - 1] == last);
        assert forall|c: int| 0 <= c < rest.len() implies #[trigger] rest[c] == cs[c] by {}
        if tally(cs, world, i).peak_queue != 0 && tally(cs, world, i).peak_queue != t.peak_queue {
            assert(peak_case(cs[cs.len() - 1], world));
        }
        if tally(cs, world, i).peak_queue != 0 && tally(cs, world, i).peak_queue == t.peak_queue {
            let c = choose|c: int| 0 <= c < rest.len() && peak_case(#[trigger] rest[c], world) && rest[c].runs@[i].peak_queue == t.peak_queue;
            assert(cs[c] == rest[c]);
        }
        if tally(cs, world, i).peak_active != 0 && tally(cs, world, i).peak_active != t.peak_active {
            assert(peak_case(cs[cs.len() - 1], world));
        }
        if tally(cs, world, i).peak_active != 0 && tally(cs, world, i).peak_active == t.peak_active {
            let c = choose|c: int| 0 <= c < rest.len() && peak_case(#[trigger] rest[c], world) && rest[c].runs@[i].peak_active == t.peak_active;
            assert(cs[c] == rest[c]);
        }
        assert forall|c: int| 0 <= c < cs.len() && peak_case(#[trigger] cs[c], world) implies cs[c].runs@[i].peak_queue
            <= tally(cs, world, i).peak_queue && cs[c].runs@[i].peak_active <= tally(cs, world, i).peak_active by {
            if c < rest.len() {
                assert(rest[c] == cs[c]);
            }
        }
    }
}

/// An aggregate's peak queue and peak of active payments are the largest that
/// its strategy's run reached in any complete case it counts: at least each of
/// them, and equal to one of them (zero when it counts none).
pub proof fn lemma_aggregate_peaks(g: Aggregate, ev: Evaluation, world: Option<Seq<char>>, i: int)
    requires
        aggregates_strategy(g, ev, world, i),
    ensures
        forall|c: int|
            0 <= c < ev.cases@.len() && peak_case(#[trigger] ev.cases@[c], world) ==> ev.cases@[c].runs@[i].peak_queue
                <= g.peak_queue && ev.cases@[c].runs@[i].peak_active <= g.peak_active,
        g.peak_queue == 0 || exists|c: int|
            0 <= c < ev.cases@.len() && peak_case(#[trigger] ev.cases@[c], world) && ev.cases@[c].runs@[i].peak_queue
                == g.peak_queue,
        g.peak_active == 0 || exists|c: int|
            0 <= c < ev.cases@.len() && peak_case(#[trigger] ev.cases@[c], world) && ev.cases@[c].runs@[i].peak_active
                == g.peak_active,
{
    lemma_tally_peaks(ev.cases@, world, i);
}

/// How many of the cases are selected.
pub open spec fn count_selected(cs: Seq<CaseResult>, world: Option<Seq<char>>) -> int
    decreases cs.len(),
{
    if cs.len() == 0 {
        0
    } else {
        count_selected(cs.drop_last(), world) + if selected(cs.last(), world) { 1int } else { 0int }
    }
}

/// How many of the cases are selected and complete for every strategy.
pub open spec fn count_complete(cs: Seq<CaseResult>, world: Option<Seq<char>>) -> int
    decreases cs.len(),
{
    if cs.len() == 0 {
        0
    } else {
        count_complete(cs.drop_last(), world) + if peak_case(cs.last(), world) { 1int } else { 0int }
    }
}

proof fn lemma_tally_counts(cs: Seq<CaseResult>, world: Option<Seq<char>>, i: int)
    ensures
        tally(cs, world, i).total == count_selected(cs, world),
        tally(cs, world, i).matched == count_complete(cs, world),
        0 <= tally(cs, world, i).wins && 0 <= tally(cs, world, i).tied,
        tally(cs, world, i).wins + tally(cs, world, i).tied <= tally(cs, world, i).matched,
        0 <= tally(cs, world, i).censored && 0 <= tally(cs, world, i).errors,
        tally(cs, world, i).censored + tally(cs, world, i).errors <= tally(cs, world, i).total - tally(cs, world, i).matched,
        tally(cs, world, i).replayed <==> forall|c: int|
            0 <= c < cs.len() && selected(#[trigger] cs[c], world) ==> cs[c].runs@[i].replay_verified,
    decreases cs.len(),
{
    if cs.len() > 0 {
        let rest = cs.drop_last();
        lemma_tally_counts(rest, world, i);
        assert(cs[cs.len() - 1] == cs.last());
        assert forall|c: int| 0 <= c < rest.len() implies #[trigger] rest[c] == cs[c] by {}
        if tally(cs, world, i).replayed {
            assert forall|c: int| 0 <= c < cs.len() && selected(#[trigger] cs[c], world) implies cs[c].runs@[i].replay_verified by {
                if c < rest.len() {
                    assert(rest[c] == cs[c]);
                }
            }
        }
        if forall|c: int| 0 <= c < cs.len() && selected(#[trigger] cs[c], world) ==> cs[c].runs@[i].replay_verified {
            assert forall|c: int| 0 <= c < rest.len() && selected(#[trigger] rest[c], world) implies rest[c].runs@[i].replay_verified by {
                assert(rest[c] == cs[c]);
            }
        }
    }
}

/// An aggregate counts every selected case, matches exactly those complete for
/// every strategy, ranks its strategy best (alone or tied) in at most those,
/// counts censored and failed runs only among the others, and is replay
/// verified only when replay was asked for and every selected run verified.
pub proof fn lemma_aggregate_counts(g: Aggregate, ev: Evaluation, world: Option<Seq<char>>, i: int)
    requires
        aggregates_strategy(g, ev, world, i),
    ensures
        g.total_cases == count_selected(ev.cases@, world),
        g.matched_cases == count_complete(ev.cases@, world),
        g.wins + g.tied_best <= g.matched_cases,
        g.censored_cases + g.error_cases <= g.total_cases - g.matched_cases,
        g.replay_verified <==> ev.config.verify_replay && forall|c: int|
            0 <= c < ev.cases@.len() && selected(#[trigger] ev.cases@[c], world) ==> ev.cases@[c].runs@[i].replay_verified,
{
    lemma_tally_counts(ev.cases@, world, i);
}

/// Run `i` of the case scores strictly better than every other run, in the
/// lexicographic order of the score fields.
pub open spec fn strict_winner(runs: Seq<RunResult>, i: int) -> bool {
    forall|j: int|
        0 <= j < runs.len() && j != i ==> crate::evaluation::lex_lt(
            crate::evaluation::score_fields(score_of(runs[i])),
            crate::evaluation::score_fields(score_of(#[trigger] runs[j])),
        )
}

/// No run of the case scores strictly better than run `i`, in the same order.
pub open spec fn among_best(runs: Seq<RunResult>, i: int) -> bool {
    forall|j: int|
        0 <= j < runs.len() ==> !crate::evaluation::lex_lt(
            crate::evaluation::score_fields(score_of(#[trigger] runs[j])),
            crate::evaluation::score_fields(score_of(runs[i])),
        )
}

/// How many selected complete cases run `i` wins outright.
pub open spec fn count_wins(cs: Seq<CaseResult>, world: Option<Seq<char>>, i: int) -> int
    decreases cs.len(),
{
    if cs.len() == 0 {
        0
    } else {
        count_wins(cs.drop_last(), world, i) + if peak_case(cs.last(), world) && strict_winner(cs.last().runs@, i) {
            1int
        } else {
            0int
        }
    }
}

/// How many selected complete cases run `i` shares the best score of.
pub open spec fn count_ties(cs: Seq<CaseResult>, world: Option<Seq<char>>, i: int) -> int
    decreases cs.len(),
{
    if cs.len() == 0 {
        0
    } else {
        count_ties(cs.drop_last(), world, i) + if peak_case(cs.last(), world) && among_best(cs.last().runs@, i)
            && !strict_winner(cs.last().runs@, i) {
            1int
        } else {
            0int
        }
    }
}

proof fn lemma_case_rank(runs: Seq<RunResult>, i: int)
    ensures
        best(runs, i) <==> among_best(runs, i),
        best(runs, i) && alone(runs, i) <==> strict_winner(runs, i),
{
    let si = score_of(runs[i]);
    assert forall|j: int| 0 <= j < runs.len() implies (score_lt(score_of(#[trigger] runs[j]), si)
        <==> crate::evaluation::lex_lt(crate::evaluation::score_fields(score_of(runs[j])), crate::evaluation::score_fields(si))) by {
        crate::evaluation::lemma_score_order_is_lexicographic(score_of(runs[j]), si);
    }
    assert forall|j: int| 0 <= j < runs.len() implies (score_lt(si, score_of(#[trigger] runs[j]))
        <==> crate::evaluation::lex_lt(crate::evaluation::score_fields(si), crate::evaluation::score_fields(score_of(runs[j])))) by {
        crate::evaluation::lemma_score_order_is_lexicographic(si, score_of(runs[j]));
    }
    if best(runs, i) && alone(runs, i) {
        assert forall|j: int| 0 <= j < runs.len() && j != i implies score_lt(si, score_of(#[trigger] runs[j])) by {
            let sj = score_of(runs[j]);
            assert(!score_lt(sj, si));
            assert(sj != si);
        }
    }
    if strict_winner(runs, i) {
        assert forall|j: int| 0 <= j < runs.len() implies !score_lt(score_of(#[trigger] runs[j]), si) by {
            if j != i {
                assert(score_lt(si, score_of(runs[j])));
            }
        }
        assert forall|j: int| 0 <= j < runs.len() && j != i implies score_of(#[trigger] runs[j]) != si by {
            assert(score_lt(si, score_of(runs[j])));
        }
    }
}

proof fn lemma_tally_ranks(cs: Seq<CaseResult>, world: Option<Seq<char>>, i: int)
    ensures
        tally(cs, world, i).wins == count_wins(cs, world, i),
        tally(cs, world, i).tied == count_ties(cs, world, i),
    decreases cs.len(),
{
    if cs.len() > 0 {
        lemma_tally_ranks(cs.drop_last(), world, i);
        lemma_case_rank(cs.last().runs@, i);
    }
}

/// An aggregate's wins are the selected complete cases in which its strategy's
/// run scores strictly better than every other run, and its ties those in which
/// no run scores better but another scores the same, scores ordered field by
/// field, smaller first.
pub proof fn lemma_aggregate_ranks(g: Aggregate, ev: Evaluation, world: Option<Seq<char>>, i: int)
    requires
        aggregates_strategy(g, ev, world, i),
    ensures
        g.wins == count_wins(ev.cases@, world, i),
        g.tied_best == count_ties(ev.cases@, world, i),
{
    lemma_tally_ranks(ev.cases@, world, i);
}

/// An aggregate's late completions never outnumber its completions.
pub proof fn lemma_aggregate_late_within(g: Aggregate, ev: Evaluation, world: Option<Seq<char>>, i: int)
    requires
        aggregate_ready(ev),
        0 <= i < ev.strategies@.len(),
        aggregates_strategy(g, ev, world, i),
    ensures
        g.metrics.completed_late <= g.metrics.completed,
        g.metrics.completed_late_volume_cents <= g.metrics.completed_volume_cents,
{
    let cs = ev.cases@;
    assert forall|c: int| 0 <= c < cs.len() implies {
        let case = #[trigger] cs[c];
        &&& case.runs@.len() > i
        &&& all_complete(case.runs@) ==> forall|j: int| 0 <= j < case.runs@.len() ==> {
            let m = (#[trigger] case.runs@[j]).metrics;
            &&& m.completed_late <= m.completed
            &&& m.completed_late_volume_cents <= m.completed_volume_cents
        }
    } by {
        assert(ev.cases@[c] == cs[c]);
    }
    lemma_tally_late_within(cs, world, i);
    assert(aggregate_figures(g)[7] == g.metrics.completed);
    assert(aggregate_figures(g)[9] == g.metrics.completed_late);
    assert(aggregate_figures(g)[8] == g.metrics.completed_volume_cents);
    assert(aggregate_figures(g)[10] == g.metrics.completed_late_volume_cents);
}

} // verus!
