//! Paired finite-cohort evaluation: the strategies compared, the per-run and
//! per-case results, and how the results are scored and reported.
pub mod report;
pub mod csv;
pub mod aggregate;
pub mod summary;
pub mod configs;
pub mod scenarios;
pub mod driver;

pub use report::{Ratio, CaseKey, PairComparison};
pub use aggregate::Aggregate;
pub use driver::evaluate;

use std::collections::BTreeMap;
use vstd::prelude::*;
use vstd::std_specs::iter::IteratorSpec;
use crate::network::Payment;
use crate::scalable::{SearchDiagnostics, SearchLimits};
use crate::simulation::{Metrics, SimulationError};
use crate::simulation::config::{RoutingStrategy, Scenario};
use crate::simulation::disruption::{AdaptationMetrics, ReoptimizationPolicy};
use crate::text::{copy_string, same_text, text};
use crate::order::Ordered;

verus! {

pub const FORMAT_VERSION: u32 = 1;

#[derive(Debug, Clone, PartialEq, Eq)]
pub struct Strategy {
    pub name: String,
    pub routing: RoutingStrategy,
    pub reoptimization: ReoptimizationPolicy,
}

pub open spec fn default_limits() -> SearchLimits {
    SearchLimits { labels_per_node: 16, max_labels: 8192, max_expansions: 4096, max_candidates: 100_000, max_repairs: 16 }
}

pub open spec fn tight_limits() -> SearchLimits {
    SearchLimits { labels_per_node: 1, max_labels: 8, max_expansions: 4, max_candidates: 8, max_repairs: 0 }
}

/// The routing a named strategy uses.
pub open spec fn named_routing(name: Seq<char>) -> Option<RoutingStrategy> {
    if name == "static"@ {
        Some(RoutingStrategy::CheapestStatic)
    } else if name == "reserved"@ || name == "preserve"@ || name == "recompute"@ {
        Some(RoutingStrategy::Reserved { limits: default_limits() })
    } else if name == "tight"@ {
        Some(RoutingStrategy::Reserved { limits: tight_limits() })
    } else {
        None
    }
}

/// The reoptimization policy a named strategy uses.
pub open spec fn named_policy(name: Seq<char>) -> ReoptimizationPolicy {
    if name == "preserve"@ {
        ReoptimizationPolicy::Preserve
    } else if name == "recompute"@ {
        ReoptimizationPolicy::Recompute
    } else {
        ReoptimizationPolicy::default_spec()
    }
}

fn is_named(name: &String, literal: &str) -> (r: bool)
    ensures
        r == (name@ == literal@),
{
    same_text(name, &text(literal))
}

impl Strategy {
    /// The strategies the evaluation suite knows: "static", "reserved",
    /// "preserve", "recompute" and "tight".
    pub fn named(name: &str) -> (r: Option<Strategy>)
        ensures
            r is Some <==> named_routing(name@) is Some,
            r matches Some(s) ==> s.name@ == name@ && Some(s.routing) == named_routing(name@)
                && s.reoptimization == named_policy(name@),
    {
        let n = text(name);
        let routing = if is_named(&n, "static") {
            RoutingStrategy::CheapestStatic
        } else if is_named(&n, "reserved") || is_named(&n, "preserve") || is_named(&n, "recompute") {
            RoutingStrategy::Reserved { limits: SearchLimits::default() }
        } else if is_named(&n, "tight") {
            RoutingStrategy::Reserved {
                limits: SearchLimits {
                    labels_per_node: 1,
                    max_labels: 8,
                    max_expansions: 4,
                    max_candidates: 8,
                    max_repairs: 0,
                },
            }
        } else {
            return None;
        };
        let reoptimization = if is_named(&n, "preserve") {
            ReoptimizationPolicy::Preserve
        } else if is_named(&n, "recompute") {
            ReoptimizationPolicy::Recompute
        } else {
            ReoptimizationPolicy::default_policy()
        };
        Some(Strategy { name: n, routing, reoptimization })
    }
}

#[derive(Debug, Clone, PartialEq, Eq)]
pub struct World {
    pub name: String,
    /// The strategy is overridden by each Strategy; every other world field is shared.
    pub scenario: Scenario,
}

#[derive(Debug, Clone, Copy, PartialEq, Eq)]
pub struct Config {
    /// Generate at minutes 0..arrival_minutes, then stop admission for all runs.
    pub arrival_minutes: u64,
    /// Process exactly this many additional minutes, including surprise changes.
    pub drain_minutes: u64,
    /// Repeat each tick in a fresh twin and compare events and entire state.
    pub verify_replay: bool,
}

impl Default for Config {
    fn default() -> (r: Self)
        ensures
            r.arrival_minutes == 60,
            r.drain_minutes == 60,
            r.verify_replay,
    {
        Config { arrival_minutes: 60, drain_minutes: 60, verify_replay: true }
    }
}

#[derive(Debug, Clone, Copy, PartialEq, Eq, Structural)]
pub enum Outcome {
    Pending,
    Rejected,
    Expired,
    Completed { late: bool, elapsed_minutes: u128 },
}

#[derive(Debug, Clone, PartialEq, Eq)]
pub struct PaymentResult {
    pub sequence: u128,
    pub payment: Payment,
    pub arrived_at: u128,
    pub deadline: u128,
    pub terminal_at: Option<u128>,
    pub outcome: Outcome,
    pub ever_routed: bool,
    pub sla_failed: bool,
    pub actual_fee_cents: u128,
    pub departed_hops: u128,
}

pub open spec fn completed_on_time(o: Outcome) -> bool {
    o matches Outcome::Completed { late, .. } && !late
}

impl PaymentResult {
    pub fn on_time(&self) -> (r: bool)
        ensures
            r == completed_on_time(self.outcome),
    {
        match self.outcome {
            Outcome::Completed { late, .. } => !late,
            _ => false,
        }
    }
}

#[derive(Debug, Clone, PartialEq, Eq)]
pub enum Status {
    Complete,
    Censored,
    Error { minute: u128, message: String },
}

/// Smaller is better, in this declared lexicographic order. Complete runs only.
/// This is an evaluation preference, never an online optimum certificate.
#[derive(Debug, Clone, Copy, PartialEq, Eq, PartialOrd, Ord)]
pub struct Score {
    pub not_on_time: u128,
    pub not_on_time_volume_cents: u128,
    pub not_completed: u128,
    pub not_completed_volume_cents: u128,
    pub actual_fee_cents: u128,
    pub completed_elapsed_minutes: u128,
    pub departed_hops: u128,
    pub changed_assignments: u128,
}

/// The declared lexicographic order on scores, field by field.
pub open spec fn score_lt(a: Score, b: Score) -> bool {
    ||| a.not_on_time < b.not_on_time
    ||| a.not_on_time == b.not_on_time && a.not_on_time_volume_cents < b.not_on_time_volume_cents
    ||| a.not_on_time == b.not_on_time && a.not_on_time_volume_cents == b.not_on_time_volume_cents
        && a.not_completed < b.not_completed
    ||| a.not_on_time == b.not_on_time && a.not_on_time_volume_cents == b.not_on_time_volume_cents
        && a.not_completed == b.not_completed && a.not_completed_volume_cents < b.not_completed_volume_cents
    ||| a.not_on_time == b.not_on_time && a.not_on_time_volume_cents == b.not_on_time_volume_cents
        && a.not_completed == b.not_completed && a.not_completed_volume_cents == b.not_completed_volume_cents
        && a.actual_fee_cents < b.actual_fee_cents
    ||| a.not_on_time == b.not_on_time && a.not_on_time_volume_cents == b.not_on_time_volume_cents
        && a.not_completed == b.not_completed && a.not_completed_volume_cents == b.not_completed_volume_cents
        && a.actual_fee_cents == b.actual_fee_cents && a.completed_elapsed_minutes < b.completed_elapsed_minutes
    ||| a.not_on_time == b.not_on_time && a.not_on_time_volume_cents == b.not_on_time_volume_cents
        && a.not_completed == b.not_completed && a.not_completed_volume_cents == b.not_completed_volume_cents
        && a.actual_fee_cents == b.actual_fee_cents && a.completed_elapsed_minutes == b.completed_elapsed_minutes
        && a.departed_hops < b.departed_hops
    ||| a.not_on_time == b.not_on_time && a.not_on_time_volume_cents == b.not_on_time_volume_cents
        && a.not_completed == b.not_completed && a.not_completed_volume_cents == b.not_completed_volume_cents
        && a.actual_fee_cents == b.actual_fee_cents && a.completed_elapsed_minutes == b.completed_elapsed_minutes
        && a.departed_hops == b.departed_hops && a.changed_assignments < b.changed_assignments
}

/// A score's fields, most significant first.
pub open spec fn score_fields(s: Score) -> Seq<u128> {
    seq![
        s.not_on_time,
        s.not_on_time_volume_cents,
        s.not_completed,
        s.not_completed_volume_cents,
        s.actual_fee_cents,
        s.completed_elapsed_minutes,
        s.departed_hops,
        s.changed_assignments,
    ]
}

/// `a` comes before `b` in the lexicographic order: at the first position where
/// they differ, `a` holds the smaller number.
pub open spec fn lex_lt(a: Seq<u128>, b: Seq<u128>) -> bool {
    exists|k: int|
        0 <= k < a.len() && k < b.len() && a[k] < b[k] && forall|j: int| 0 <= j < k ==> #[trigger] a[j] == b[j]
}

/// Scores rank in the lexicographic order of their fields, every field smaller
/// being better: fewer late payments first, then less late volume, fewer and
/// less unfinished work, lower fees, less elapsed time, fewer hops and fewer
/// changed assignments.
pub proof fn lemma_score_order_is_lexicographic(a: Score, b: Score)
    ensures
        score_lt(a, b) <==> lex_lt(score_fields(a), score_fields(b)),
{
    let fa = score_fields(a);
    let fb = score_fields(b);
    assert(fa.len() == 8 && fb.len() == 8);
    assert(fa[0] == a.not_on_time && fb[0] == b.not_on_time);
    assert(fa[1] == a.not_on_time_volume_cents && fb[1] == b.not_on_time_volume_cents);
    assert(fa[2] == a.not_completed && fb[2] == b.not_completed);
    assert(fa[3] == a.not_completed_volume_cents && fb[3] == b.not_completed_volume_cents);
    assert(fa[4] == a.actual_fee_cents && fb[4] == b.actual_fee_cents);
    assert(fa[5] == a.completed_elapsed_minutes && fb[5] == b.completed_elapsed_minutes);
    assert(fa[6] == a.departed_hops && fb[6] == b.departed_hops);
    assert(fa[7] == a.changed_assignments && fb[7] == b.changed_assignments);
    if score_lt(a, b) {
        let k: int = if a.not_on_time != b.not_on_time {
            0
        } else if a.not_on_time_volume_cents != b.not_on_time_volume_cents {
            1
        } else if a.not_completed != b.not_completed {
            2
        } else if a.not_completed_volume_cents != b.not_completed_volume_cents {
            3
        } else if a.actual_fee_cents != b.actual_fee_cents {
            4
        } else if a.completed_elapsed_minutes != b.completed_elapsed_minutes {
            5
        } else if a.departed_hops != b.departed_hops {
            6
        } else {
            7
        };
        assert(forall|j: int| 0 <= j < k ==> #[trigger] fa[j] == fb[j]);
        assert(fa[k] < fb[k]);
    }
    if lex_lt(fa, fb) {
        let k = choose|k: int|
            0 <= k < fa.len() && k < fb.len() && fa[k] < fb[k] && forall|j: int| 0 <= j < k ==> #[trigger] fa[j] == fb[j];
        if k > 0 { assert(fa[0] == fb[0]); }
        if k > 1 { assert(fa[1] == fb[1]); }
        if k > 2 { assert(fa[2] == fb[2]); }
        if k > 3 { assert(fa[3] == fb[3]); }
        if k > 4 { assert(fa[4] == fb[4]); }
        if k > 5 { assert(fa[5] == fb[5]); }
        if k > 6 { assert(fa[6] == fb[6]); }
    }
}

/// The score of a complete run whose counts are consistent.
pub open spec fn score_of(r: RunResult) -> Score {
    let m = r.metrics;
    Score {
        not_on_time: (m.generated - (m.completed - m.completed_late)) as u128,
        not_on_time_volume_cents: (m.generated_volume_cents - (m.completed_volume_cents
            - m.completed_late_volume_cents)) as u128,
        not_completed: (m.generated - m.completed) as u128,
        not_completed_volume_cents: (m.generated_volume_cents - m.completed_volume_cents) as u128,
        actual_fee_cents: m.routing_cost_cents,
        completed_elapsed_minutes: m.completed_elapsed_minutes,
        departed_hops: m.departed_hops,
        changed_assignments: r.adaptation.changed_assignments,
    }
}

/// Whether score `a` ranks strictly before `b`.
pub fn score_less(a: &Score, b: &Score) -> (r: bool)
    ensures
        r == score_lt(*a, *b),
{
    if a.not_on_time != b.not_on_time {
        return a.not_on_time < b.not_on_time;
    }
    if a.not_on_time_volume_cents != b.not_on_time_volume_cents {
        return a.not_on_time_volume_cents < b.not_on_time_volume_cents;
    }
    if a.not_completed != b.not_completed {
        return a.not_completed < b.not_completed;
    }
    if a.not_completed_volume_cents != b.not_completed_volume_cents {
        return a.not_completed_volume_cents < b.not_completed_volume_cents;
    }
    if a.actual_fee_cents != b.actual_fee_cents {
        return a.actual_fee_cents < b.actual_fee_cents;
    }
    if a.completed_elapsed_minutes != b.completed_elapsed_minutes {
        return a.completed_elapsed_minutes < b.completed_elapsed_minutes;
    }
    if a.departed_hops != b.departed_hops {
        return a.departed_hops < b.departed_hops;
    }
    a.changed_assignments < b.changed_assignments
}

#[derive(Debug, Clone, PartialEq, Eq)]
pub struct RunResult {
    pub strategy: String,
    pub status: Status,
    pub processed_minutes: u128,
    pub replay_verified: bool,
    pub metrics: Metrics,
    pub at_arrival_cutoff: Metrics,
    pub adaptation: AdaptationMetrics,
    pub diagnostics: SearchDiagnostics,
    pub payments: BTreeMap<u128, PaymentResult>,
    pub peak_active: usize,
    /// Queue samples are after execution/expiry; in-flight work is separate.
    pub peak_queue: usize,
    pub queue_payment_minutes: u128,
}

/// `ks` lists the map's keys in increasing order.
pub open spec fn key_order<V>(m: Map<u128, V>, ks: Seq<u128>) -> bool {
    &&& forall|a: int, b: int| 0 <= a < b < ks.len() ==> ks[a] < ks[b]
    &&& ks.to_set() == m.dom()
    &&& ks.no_duplicates()
    &&& ks.len() == m.dom().len()
}

/// The map's values, in the order `ks` names their keys.
pub open spec fn in_order<V>(m: Map<u128, V>, ks: Seq<u128>) -> Seq<V> {
    ks.map_values(|k: u128| m[k])
}

pub open spec fn derefs<V>(s: Seq<&V>) -> Seq<V> {
    s.map_values(|x: &V| *x)
}

/// How many results expired without ever having an accepted route.
pub open spec fn count_never_routed_expired(s: Seq<PaymentResult>) -> int
    decreases s.len(),
{
    if s.len() == 0 {
        0
    } else {
        count_never_routed_expired(s.drop_last()) + if s.last().outcome == Outcome::Expired && !s.last().ever_routed {
            1int
        } else {
            0int
        }
    }
}

/// The map's keys in increasing order.
pub open spec fn sorted_keys<V>(m: Map<u128, V>) -> Seq<u128> {
    choose|ks: Seq<u128>| key_order(m, ks)
}

/// The elapsed minutes of a run's completed payments, in nondecreasing order.
pub open spec fn sorted_elapsed(m: Map<u128, PaymentResult>) -> Seq<u128> {
    choose|s: Seq<u128>|
        s.to_multiset() == completed_elapsed(in_order(m, sorted_keys(m))).to_multiset() && nondecreasing(s)
}

/// The nearest-rank `percent`th percentile of the completed payments' elapsed minutes.
pub open spec fn percentile_of(m: Map<u128, PaymentResult>, percent: int) -> Option<u128> {
    let rank = nearest_rank(sorted_elapsed(m).len() as int, percent);
    if rank == 0 {
        None
    } else {
        Some(sorted_elapsed(m)[rank - 1])
    }
}

/// Two increasing key lists of the same keys are the same list.
pub(crate) proof fn lemma_increasing_unique(x: Seq<u128>, y: Seq<u128>)
    requires
        forall|a: int, b: int| 0 <= a < b < x.len() ==> x[a] < x[b],
        forall|a: int, b: int| 0 <= a < b < y.len() ==> y[a] < y[b],
        x.to_set() == y.to_set(),
    ensures
        x == y,
    decreases x.len() + y.len(),
{
    if x.len() == 0 {
        if y.len() > 0 {
            assert(y.to_set().contains(y[0]));
            assert(!x.to_set().contains(y[0]));
        }
        assert(x =~= y);
    } else if y.len() == 0 {
        assert(x.to_set().contains(x[0]));
        assert(!y.to_set().contains(x[0]));
    } else {
        let xl = x.last();
        let yl = y.last();
        assert(x.to_set().contains(xl));
        assert(y.to_set().contains(yl));
        let j = choose|j: int| 0 <= j < y.len() && y[j] == xl;
        let i = choose|i: int| 0 <= i < x.len() && x[i] == yl;
        assert(xl == yl) by {
            if i < x.len() - 1 {
                assert(x[i] < xl);
            }
            if j < y.len() - 1 {
                assert(y[j] < yl);
            }
        }
        let xs = x.drop_last();
        let ys = y.drop_last();
        assert(xs.to_set() =~= ys.to_set()) by {
            assert forall|k: u128| xs.to_set().contains(k) implies ys.to_set().contains(k) by {
                let a = choose|a: int| 0 <= a < xs.len() && xs[a] == k;
                assert(x[a] < xl);
                assert(x.to_set().contains(k));
                let b = choose|b: int| 0 <= b < y.len() && y[b] == k;
                assert(b != y.len() - 1);
                assert(ys[b] == k);
            }
            assert forall|k: u128| ys.to_set().contains(k) implies xs.to_set().contains(k) by {
                let b = choose|b: int| 0 <= b < ys.len() && ys[b] == k;
                assert(y[b] < yl);
                assert(y.to_set().contains(k));
                let a = choose|a: int| 0 <= a < x.len() && x[a] == k;
                assert(a != x.len() - 1);
                assert(xs[a] == k);
            }
        }
        lemma_increasing_unique(xs, ys);
        assert(x =~= xs.push(xl));
        assert(y =~= ys.push(yl));
    }
}

/// Two nondecreasing lists of the same values are the same list.
proof fn lemma_nondecreasing_unique(x: Seq<u128>, y: Seq<u128>)
    requires
        nondecreasing(x),
        nondecreasing(y),
        x.to_multiset() == y.to_multiset(),
    ensures
        x == y,
{
    let leq = |a: u128, b: u128| a <= b;
    assert(vstd::relations::total_ordering(leq));
    assert(vstd::relations::sorted_by(x, leq));
    assert(vstd::relations::sorted_by(y, leq));
    vstd::seq_lib::lemma_sorted_unique(x, y, leq);
}

/// Whether a result expired without ever having an accepted route.
pub open spec fn expired_unrouted(p: PaymentResult) -> bool {
    p.outcome == Outcome::Expired && !p.ever_routed
}

/// The keys whose results expired without ever having an accepted route.
pub open spec fn never_routed_expired_keys(m: Map<u128, PaymentResult>) -> Set<u128> {
    m.dom().filter(|k: u128| expired_unrouted(m[k]))
}

/// Counting along any duplicate-free list of keys counts the matching key set.
proof fn lemma_count_keyed(m: Map<u128, PaymentResult>, ks: Seq<u128>)
    requires
        ks.no_duplicates(),
    ensures
        ks.to_set().filter(|k: u128| expired_unrouted(m[k])).finite(),
        count_never_routed_expired(in_order(m, ks)) == ks.to_set().filter(|k: u128| expired_unrouted(m[k])).len(),
    decreases ks.len(),
{
    let f = |k: u128| expired_unrouted(m[k]);
    if ks.len() == 0 {
        assert(ks.to_set() =~= Set::empty());
        assert(ks.to_set().filter(f) =~= Set::empty());
        assert(in_order(m, ks) =~= Seq::empty());
    } else {
        let rest = ks.drop_last();
        let k = ks.last();
        assert(rest.no_duplicates()) by {
            assert forall|a: int, b: int| 0 <= a < b < rest.len() implies rest[a] != rest[b] by {
                assert(rest[a] == ks[a] && rest[b] == ks[b]);
            }
        }
        lemma_count_keyed(m, rest);
        assert(ks =~= rest.push(k));
        assert(ks.to_set() =~= rest.to_set().insert(k));
        assert(!rest.to_set().contains(k)) by {
            if rest.to_set().contains(k) {
                let j = choose|j: int| 0 <= j < rest.len() && rest[j] == k;
                assert(ks[j] == ks[ks.len() - 1]);
            }
        }
        assert(in_order(m, ks).drop_last() =~= in_order(m, rest));
        let before = rest.to_set().filter(f);
        if f(k) {
            assert(ks.to_set().filter(f) =~= before.insert(k));
        } else {
            assert(ks.to_set().filter(f) =~= before);
        }
    }
}

/// The elapsed minutes of the completed results, in order.
pub open spec fn completed_elapsed(s: Seq<PaymentResult>) -> Seq<u128>
    decreases s.len(),
{
    if s.len() == 0 {
        Seq::empty()
    } else {
        let rest = completed_elapsed(s.drop_last());
        match s.last().outcome {
            Outcome::Completed { elapsed_minutes, .. } => rest.push(elapsed_minutes),
            _ => rest,
        }
    }
}

pub open spec fn nondecreasing(s: Seq<u128>) -> bool {
    forall|a: int, b: int| 0 <= a < b < s.len() ==> s[a] <= s[b]
}

/// The nearest-rank position, counted from one, of the `percent`th percentile
/// among `n` values: ceil(n * percent / 100).
pub open spec fn nearest_rank(n: int, percent: int) -> int {
    (n * percent + 99) / 100
}

/// Counts from which a run's score follows without a negative figure.
pub open spec fn score_ready(m: Metrics) -> bool {
    &&& m.completed_late <= m.completed
    &&& m.completed_late_volume_cents <= m.completed_volume_cents
    &&& m.completed <= m.generated
    &&& m.completed_volume_cents <= m.generated_volume_cents
}

/// Counts that keep every derived figure of a run non-negative.
pub open spec fn counts_consistent(m: Metrics) -> bool {
    &&& m.completed_late <= m.completed
    &&& m.completed_late_volume_cents <= m.completed_volume_cents
    &&& m.completed + m.expired + m.rejected <= m.generated
    &&& m.completed_volume_cents + m.expired_volume_cents + m.rejected_volume_cents <= m.generated_volume_cents
}

impl RunResult {
    pub fn on_time(&self) -> (r: u128)
        requires
            self.metrics.completed_late <= self.metrics.completed,
        ensures
            r == self.metrics.completed - self.metrics.completed_late,
    {
        self.metrics.completed - self.metrics.completed_late
    }

    pub fn on_time_volume(&self) -> (r: u128)
        requires
            self.metrics.completed_late_volume_cents <= self.metrics.completed_volume_cents,
        ensures
            r == self.metrics.completed_volume_cents - self.metrics.completed_late_volume_cents,
    {
        self.metrics.completed_volume_cents - self.metrics.completed_late_volume_cents
    }

    pub fn pending(&self) -> (r: u128)
        requires
            self.metrics.completed + self.metrics.expired + self.metrics.rejected <= self.metrics.generated,
        ensures
            r == self.metrics.generated - self.metrics.completed - self.metrics.expired - self.metrics.rejected,
    {
        self.metrics.generated - self.metrics.completed - self.metrics.expired - self.metrics.rejected
    }

    pub fn pending_volume(&self) -> (r: u128)
        requires
            self.metrics.completed_volume_cents + self.metrics.expired_volume_cents + self.metrics.rejected_volume_cents
                <= self.metrics.generated_volume_cents,
        ensures
            r == self.metrics.generated_volume_cents - self.metrics.completed_volume_cents
                - self.metrics.expired_volume_cents - self.metrics.rejected_volume_cents,
    {
        self.metrics.generated_volume_cents - self.metrics.completed_volume_cents - self.metrics.expired_volume_cents
            - self.metrics.rejected_volume_cents
    }

    /// Observed expiry without any accepted route, not proof of infeasibility.
    pub fn never_routed_expired(&self) -> (r: u128)
        ensures
            r == never_routed_expired_keys(self.payments@).len(),
    {
        broadcast use vstd::std_specs::btree::group_btree_axioms;

        proof {
            crate::order::lemma_u128_keys_ordered();
        }
        let n = self.payments.len();
        let vals = self.payments.values();
        let ghost whole = vals.remaining();
        assert(whole.len() == n);
        let mut c: u128 = 0;
        for p in it: vals
            invariant
                c <= it.index(),
                it.seq() == whole,
                whole.len() == n,
                c == count_never_routed_expired(derefs(it.seq().take(it.index() as int))),
        {
            proof {
                assert(derefs(it.seq().take(it.index() + 1)).drop_last() =~= derefs(it.seq().take(it.index() as int)));
            }
            if p.outcome == Outcome::Expired && !p.ever_routed {
                c = c + 1;
            }
        }
        proof {
            let ks = choose|ks: Seq<u128>|
                vstd::std_specs::btree::increasing_seq(ks) && ks.to_set() == self.payments@.dom() && ks.no_duplicates()
                    && vals.remaining() == ks.map(|i: int, k: u128| &self.payments@[k]);
            assert(whole.take(whole.len() as int) =~= whole);
            assert(derefs(whole) =~= in_order(self.payments@, ks));
            lemma_count_keyed(self.payments@, ks);
            assert(ks.to_set().filter(|k: u128| expired_unrouted(self.payments@[k]))
                =~= never_routed_expired_keys(self.payments@));
        }
        c
    }

    pub fn score(&self) -> (r: Option<Score>)
        requires
            self.status == Status::Complete ==> score_ready(self.metrics),
        ensures
            r is Some <==> self.status == Status::Complete,
            r matches Some(s) ==> s == score_of(*self),
    {
        match self.status {
            Status::Complete => {},
            _ => {
                return None;
            },
        }
        let m = &self.metrics;
        Some(
            Score {
                not_on_time: m.generated - self.on_time(),
                not_on_time_volume_cents: m.generated_volume_cents - self.on_time_volume(),
                not_completed: m.generated - m.completed,
                not_completed_volume_cents: m.generated_volume_cents - m.completed_volume_cents,
                actual_fee_cents: m.routing_cost_cents,
                completed_elapsed_minutes: m.completed_elapsed_minutes,
                departed_hops: m.departed_hops,
                changed_assignments: self.adaptation.changed_assignments,
            },
        )
    }

    /// The nearest-rank `percent`th percentile of completed payments' elapsed
    /// minutes, late completions included; `None` for an empty completed cohort.
    pub fn elapsed_percentile(&self, percent: u8) -> (r: Option<u128>)
        requires
            1 <= percent <= 100,
        ensures
            r == percentile_of(self.payments@, percent as int),
    {
        broadcast use vstd::std_specs::btree::group_btree_axioms;

        proof {
            crate::order::lemma_u128_keys_ordered();
        }
        let n = self.payments.len();
        let vals = self.payments.values();
        let ghost whole = vals.remaining();
        assert(whole.len() == n);
        let mut values: Vec<u128> = Vec::new();
        for p in it: vals
            invariant
                it.seq() == whole,
                whole.len() == n,
                values@.len() <= it.index(),
                values@ == completed_elapsed(derefs(it.seq().take(it.index() as int))),
        {
            proof {
                assert(derefs(it.seq().take(it.index() + 1)).drop_last() =~= derefs(it.seq().take(it.index() as int)));
            }
            match p.outcome {
                Outcome::Completed { elapsed_minutes, .. } => {
                    values.push(elapsed_minutes);
                },
                _ => {},
            }
        }
        let ghost ks = choose|ks: Seq<u128>|
            vstd::std_specs::btree::increasing_seq(ks) && ks.to_set() == self.payments@.dom() && ks.no_duplicates()
                && vals.remaining() == ks.map(|i: int, k: u128| &self.payments@[k]);
        proof {
            assert(whole.take(whole.len() as int) =~= whole);
            assert(derefs(whole) =~= in_order(self.payments@, ks));
        }
        let ghost before = values@;
        let sorted = crate::order::sort_ordered(values);
        let count = sorted.len();
        let p = percent as usize;
        proof {
            lemma_rank_parts(count as int, p as int);
            lemma_rank_bound(count as int, p as int);
            assert forall|a: int, b: int| 0 <= a < b < sorted@.len() implies sorted@[a] <= sorted@[b] by {
                assert(!sorted@[b].precedes(&sorted@[a]));
            }
            assert(nondecreasing(sorted@));
            crate::order::lemma_u128_increasing(ks);
            assert(key_order(self.payments@, ks));
            let chosen = sorted_keys(self.payments@);
            lemma_increasing_unique(ks, chosen);
            let values = completed_elapsed(in_order(self.payments@, ks));
            assert(sorted@.to_multiset() == values.to_multiset() && nondecreasing(sorted@));
            let best = sorted_elapsed(self.payments@);
            lemma_nondecreasing_unique(sorted@, best);
        }
        let whole_hundreds = (count / 100) * p;
        let rest = ((count % 100) * p + 99) / 100;
        let rank = whole_hundreds + rest;
        if rank == 0 {
            None
        } else {
            proof {
                lemma_rank_bound(count as int, p as int);
            }
            Some(sorted[rank - 1])
        }
    }
}

/// The nearest rank computed in two parts agrees with ceil(n * percent / 100).
proof fn lemma_rank_parts(n: int, p: int)
    requires
        0 <= n,
        1 <= p <= 100,
    ensures
        (n / 100) * p + ((n % 100) * p + 99) / 100 == nearest_rank(n, p),
        (n / 100) * p <= n,
        (n % 100) * p + 99 <= 100 * 100 + 99,
{
    let q = n / 100;
    let r = n % 100;
    assert(n == 100 * q + r) by (nonlinear_arith)
        requires
            q == n / 100,
            r == n % 100,
    ;
    assert(n * p + 99 == 100 * (q * p) + (r * p + 99)) by (nonlinear_arith)
        requires
            n == 100 * q + r,
    ;
    assert((100 * (q * p) + (r * p + 99)) / 100 == q * p + (r * p + 99) / 100) by (nonlinear_arith)
        requires
            r * p + 99 >= 0,
    ;
    assert(q * p <= q * 100) by (nonlinear_arith)
        requires
            p <= 100,
            q >= 0,
    ;
    assert(r * p <= 100 * 100) by (nonlinear_arith)
        requires
            0 <= r < 100,
            p <= 100,
    ;
}

proof fn lemma_rank_bound(n: int, p: int)
    requires
        0 <= n,
        1 <= p <= 100,
    ensures
        nearest_rank(n, p) <= n,
{
    assert((n * p + 99) / 100 <= n) by (nonlinear_arith)
        requires
            0 <= n,
            1 <= p <= 100,
    ;
}

#[derive(Debug, Clone, PartialEq, Eq)]
pub struct CaseResult {
    pub world: String,
    pub seed: u64,
    pub offered: u128,
    pub offered_volume_cents: u128,
    pub runs: Vec<RunResult>,
}

#[derive(Debug, Clone, PartialEq, Eq)]
pub struct Evaluation {
    pub config: Config,
    /// Full inputs, including strategy limits, are retained for exact replay.
    pub worlds: Vec<World>,
    pub seeds: Vec<u64>,
    pub strategies: Vec<Strategy>,
    pub cases: Vec<CaseResult>,
}

} // verus!
