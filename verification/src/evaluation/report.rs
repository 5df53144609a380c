//! Exact ratios, paired comparisons, aggregates and the CSV reports.
use std::cmp::Ordering;
use vstd::prelude::*;
use vstd::std_specs::iter::IteratorSpec;
use crate::evaluation::{
    CaseResult, Evaluation, RunResult, Status, Outcome, PaymentResult, key_order, in_order, derefs,
    completed_on_time, sorted_keys, lemma_increasing_unique,
};
use crate::simulation::SimulationError;

verus! {

/// Exact fraction. Undefined ratios (zero demand) are represented by None.
#[derive(Debug, Clone, Copy, PartialEq, Eq)]
pub struct Ratio {
    pub numerator: u128,
    pub denominator: u128,
}

/// The sign of the cross product n1 * d2 - n2 * d1, which orders two fractions
/// with positive denominators.
pub open spec fn cross(n1: u128, d1: u128, n2: u128, d2: u128) -> int {
    n1 * d2 - n2 * d1
}

/// Where one quotient is smaller, so is the fraction.
proof fn lemma_quotients_order(a: u128, b: u128, c: u128, d: u128)
    requires
        a >= 0,
        b > 0,
        c >= 0,
        d > 0,
        a / b < c / d,
    ensures
        cross(a, b, c, d) < 0,
{
    let q1 = (a / b) as int;
    let q2 = (c / d) as int;
    let r = (a % b) as int;
    let s = (c % d) as int;
    assert(a == q1 * b + r && 0 <= r < b) by (nonlinear_arith)
        requires
            b > 0,
            q1 == a / b,
            r == a % b,
    ;
    assert(c == q2 * d + s && 0 <= s < d) by (nonlinear_arith)
        requires
            d > 0,
            q2 == c / d,
            s == c % d,
    ;
    assert(a * d < c * b) by (nonlinear_arith)
        requires
            a == q1 * b + r,
            0 <= r < b,
            c == q2 * d + s,
            0 <= s,
            q1 < q2,
            b > 0,
            d > 0,
            q1 >= 0,
    ;
}

/// With equal quotients, the fractions compare as their remainders do.
proof fn lemma_equal_quotients(a: u128, b: u128, c: u128, d: u128)
    requires
        a >= 0,
        b > 0,
        c >= 0,
        d > 0,
        a / b == c / d,
    ensures
        cross(a, b, c, d) == cross(a % b, b, c % d, d),
        cross(a % b, b, c % d, d) == -cross(b, a % b, d, c % d),
        0 <= a % b < b,
        0 <= c % d < d,
{
    let q = (a / b) as int;
    let r = (a % b) as int;
    let s = (c % d) as int;
    assert(a == q * b + r && 0 <= r < b) by (nonlinear_arith)
        requires
            b > 0,
            q == a / b,
            r == a % b,
    ;
    assert(c == q * d + s && 0 <= s < d) by (nonlinear_arith)
        requires
            d > 0,
            q == c / d,
            s == c % d,
    ;
    assert(a * d - c * b == r * d - s * b) by (nonlinear_arith)
        requires
            a == q * b + r,
            c == q * d + s,
    ;
    assert(r * d - s * b == -(b * s - d * r)) by (nonlinear_arith);
}

/// When one remainder is zero, the remainders alone order the fractions.
proof fn lemma_zero_remainder(r: u128, b: u128, s: u128, d: u128)
    requires
        b > 0,
        d > 0,
        r >= 0,
        s >= 0,
        r == 0 || s == 0,
    ensures
        (cross(r, b, s, d) < 0) == (r < s),
        (cross(r, b, s, d) == 0) == (r == s),
{
    if r == 0 {
        assert(cross(r, b, s, d) == -(s * b)) by (nonlinear_arith)
            requires
                r == 0,
        ;
        assert(s * b >= 0 && (s * b == 0) == (s == 0)) by (nonlinear_arith)
            requires
                s >= 0,
                b > 0,
        ;
    } else {
        assert(cross(r, b, s, d) == r * d) by (nonlinear_arith)
            requires
                s == 0,
        ;
        assert(r * d > 0) by (nonlinear_arith)
            requires
                r > 0,
                d > 0,
        ;
    }
}

impl Ratio {
    pub fn new(numerator: u128, denominator: u128) -> (r: Option<Ratio>)
        ensures
            r is Some <==> denominator > 0,
            r matches Some(x) ==> x.numerator == numerator && x.denominator == denominator,
    {
        if denominator > 0 {
            Some(Ratio { numerator, denominator })
        } else {
            None
        }
    }

    /// Compare two fractions exactly, without cross-products that could overflow
    /// and without floating point: by quotients, then by the reciprocal of the
    /// remainders, until a quotient differs or a remainder vanishes.
    pub fn compare(self, other: Ratio) -> (r: Ordering)
        requires
            self.denominator > 0,
            other.denominator > 0,
        ensures
            (r == Ordering::Less) == (self.numerator * other.denominator < other.numerator * self.denominator),
            (r == Ordering::Equal) == (self.numerator * other.denominator == other.numerator * self.denominator),
            (r == Ordering::Greater) == (self.numerator * other.denominator > other.numerator * self.denominator),
    {
        let ghost sign0 = cross(self.numerator, self.denominator, other.numerator, other.denominator);
        let mut a = self.numerator;
        let mut b = self.denominator;
        let mut c = other.numerator;
        let mut d = other.denominator;
        let mut reverse = false;
        loop
            invariant
                b > 0,
                d > 0,
                sign0 == cross(self.numerator, self.denominator, other.numerator, other.denominator),
                reverse ==> (cross(a, b, c, d) < 0) == (sign0 > 0),
                reverse ==> (cross(a, b, c, d) == 0) == (sign0 == 0),
                !reverse ==> (cross(a, b, c, d) < 0) == (sign0 < 0),
                !reverse ==> (cross(a, b, c, d) == 0) == (sign0 == 0),
            decreases b,
        {
            let q1 = a / b;
            let q2 = c / d;
            if q1 != q2 {
                proof {
                    if q1 < q2 {
                        lemma_quotients_order(a, b, c, d);
                    } else {
                        lemma_quotients_order(c, d, a, b);
                        assert(cross(c, d, a, b) == -cross(a, b, c, d));
                    }
                    assert(q1 < q2 ==> cross(a, b, c, d) < 0);
                    assert(q1 > q2 ==> cross(a, b, c, d) > 0);
                }
                let less = q1 < q2;
                return if less != reverse {
                    Ordering::Less
                } else {
                    Ordering::Greater
                };
            }
            let r = a % b;
            let s = c % d;
            proof {
                lemma_equal_quotients(a, b, c, d);
            }
            if r == 0 || s == 0 {
                proof {
                    lemma_zero_remainder(r, b, s, d);
                }
                if r == s {
                    return Ordering::Equal;
                }
                let less = r < s;
                return if less != reverse {
                    Ordering::Less
                } else {
                    Ordering::Greater
                };
            }
            a = b;
            b = r;
            c = d;
            d = s;
            reverse = !reverse;
        }
    }
}

/// Whether `a` is strictly greater than `b`.
pub fn ratio_greater(a: Ratio, b: Ratio) -> (r: bool)
    requires
        a.denominator > 0,
        b.denominator > 0,
    ensures
        r == (a.numerator * b.denominator > b.numerator * a.denominator),
{
    match a.compare(b) {
        Ordering::Greater => true,
        _ => false,
    }
}

/// Whether `a` is no greater than `b`.
pub fn ratio_at_most(a: Ratio, b: Ratio) -> (r: bool)
    requires
        a.denominator > 0,
        b.denominator > 0,
    ensures
        r == (a.numerator * b.denominator <= b.numerator * a.denominator),
{
    match a.compare(b) {
        Ordering::Greater => false,
        _ => true,
    }
}

#[derive(Debug, Clone, PartialEq, Eq)]
pub struct CaseKey {
    pub world: String,
    pub seed: u64,
}

#[derive(Debug, Clone, PartialEq, Eq)]
pub struct PairComparison {
    pub left: String,
    pub right: String,
    pub only_left_on_time: Vec<u128>,
    pub only_right_on_time: Vec<u128>,
    pub common_on_time: u128,
    pub common_left_fee_cents: u128,
    pub common_right_fee_cents: u128,
}

// ---------------------------------------------------------------------------
// Paired comparisons.

/// The ordered pairs of complete runs among `runs`, left before right, for left
/// runs before `i`.
pub open spec fn complete_pairs_upto(runs: Seq<RunResult>, i: int) -> Seq<(int, int)>
    decreases i,
{
    if i <= 0 {
        Seq::empty()
    } else {
        complete_pairs_upto(runs, i - 1) + pairs_from(runs, i - 1, runs.len() as int)
    }
}

/// The complete runs after `i` and before `j` that pair with run `i`.
pub open spec fn pairs_from(runs: Seq<RunResult>, i: int, j: int) -> Seq<(int, int)>
    decreases j - i,
{
    if j <= i + 1 {
        Seq::empty()
    } else {
        let rest = pairs_from(runs, i, j - 1);
        if runs[i].status == Status::Complete && runs[j - 1].status == Status::Complete {
            rest.push((i, j - 1))
        } else {
            rest
        }
    }
}

/// Keys, in `ks` order, on time in `l` and not in `r` (compared by key).
pub open spec fn only_on_time(l: Map<u128, PaymentResult>, r: Map<u128, PaymentResult>, ks: Seq<u128>) -> Seq<u128>
    decreases ks.len(),
{
    if ks.len() == 0 {
        Seq::empty()
    } else {
        let rest = only_on_time(l, r, ks.drop_last());
        let k = ks.last();
        if completed_on_time(l[k].outcome) && !completed_on_time(r[k].outcome) {
            rest.push(k)
        } else {
            rest
        }
    }
}

/// Over the keys `ks` on time in both: their number and the two fee totals.
pub open spec fn common_totals(l: Map<u128, PaymentResult>, r: Map<u128, PaymentResult>, ks: Seq<u128>) -> (int, int, int)
    decreases ks.len(),
{
    if ks.len() == 0 {
        (0, 0, 0)
    } else {
        let rest = common_totals(l, r, ks.drop_last());
        let k = ks.last();
        if completed_on_time(l[k].outcome) && completed_on_time(r[k].outcome) {
            (rest.0 + 1, rest.1 + l[k].actual_fee_cents, rest.2 + r[k].actual_fee_cents)
        } else {
            rest
        }
    }
}

/// `p` compares run `a` (left) with run `b` (right), payment by payment in the
/// left run's key order.
pub open spec fn compares(a: RunResult, b: RunResult, p: PairComparison) -> bool {
    exists|ks: Seq<u128>|
        #[trigger] key_order(a.payments@, ks) && {
            let t = common_totals(a.payments@, b.payments@, ks);
            &&& p.left@ == a.strategy@
            &&& p.right@ == b.strategy@
            &&& p.only_left_on_time@ == only_on_time(a.payments@, b.payments@, ks)
            &&& p.only_right_on_time@ == only_on_time(b.payments@, a.payments@, ks)
            &&& p.common_on_time == t.0
            &&& p.common_left_fee_cents == t.1
            &&& p.common_right_fee_cents == t.2
        }
}

/// Complete runs record the same payments.
pub open spec fn same_cohorts(runs: Seq<RunResult>) -> bool {
    forall|i: int, j: int|
        0 <= i < runs.len() && 0 <= j < runs.len() && runs[i].status == Status::Complete && runs[j].status
            == Status::Complete ==> (#[trigger] runs[i].payments@).dom() == (#[trigger] runs[j].payments@).dom()
}

/// The fee totals over the payments on time in both runs fit `u128`.
pub open spec fn pair_fees_fit(a: RunResult, b: RunResult) -> bool {
    let t = common_totals(a.payments@, b.payments@, sorted_keys(a.payments@));
    t.1 <= u128::MAX && t.2 <= u128::MAX
}

/// The fee totals of a prefix of the keys are at most those of all of them.
proof fn lemma_common_totals_prefix(l: Map<u128, PaymentResult>, r: Map<u128, PaymentResult>, ks: Seq<u128>, j: int)
    requires
        0 <= j <= ks.len(),
    ensures
        common_totals(l, r, ks.take(j)).1 <= common_totals(l, r, ks).1,
        common_totals(l, r, ks.take(j)).2 <= common_totals(l, r, ks).2,
    decreases ks.len(),
{
    if j == ks.len() {
        assert(ks.take(j) =~= ks);
    } else {
        assert(ks.take(j) =~= ks.drop_last().take(j));
        lemma_common_totals_prefix(l, r, ks.drop_last(), j);
    }
}

/// The pairs found among fewer later runs come first among those of more.
proof fn lemma_pairs_from_prefix(runs: Seq<RunResult>, i: int, j1: int, j2: int)
    requires
        i < j1 <= j2,
    ensures
        pairs_from(runs, i, j1).len() <= pairs_from(runs, i, j2).len(),
        forall|k: int| 0 <= k < pairs_from(runs, i, j1).len() ==> pairs_from(runs, i, j1)[k] == pairs_from(runs, i, j2)[k],
    decreases j2 - j1,
{
    if j1 < j2 {
        lemma_pairs_from_prefix(runs, i, j1, j2 - 1);
    }
}

/// The pairs of fewer left runs come first among those of more.
proof fn lemma_pairs_upto_prefix(runs: Seq<RunResult>, m: int, n: int)
    requires
        0 <= m <= n,
    ensures
        complete_pairs_upto(runs, m).len() <= complete_pairs_upto(runs, n).len(),
        forall|k: int| 0 <= k < complete_pairs_upto(runs, m).len() ==> complete_pairs_upto(runs, m)[k]
            == complete_pairs_upto(runs, n)[k],
    decreases n - m,
{
    if m < n {
        lemma_pairs_upto_prefix(runs, m, n - 1);
    }
}

fn checked_sum(total: &mut u128, value: u128) -> (r: Result<(), SimulationError>)
    ensures
        r is Ok <==> old(total) + value <= u128::MAX,
        r is Ok ==> *final(total) == old(total) + value,
        r is Err ==> *final(total) == *old(total) && r == Err::<(), SimulationError>(
            SimulationError::ArithmeticOverflow("evaluation total"),
        ),
{
    match total.checked_add(value) {
        Some(v) => {
            *total = v;
            Ok(())
        },
        None => Err(SimulationError::ArithmeticOverflow("evaluation total")),
    }
}

fn compare_runs(a: &RunResult, b: &RunResult) -> (r: Result<PairComparison, SimulationError>)
    requires
        a.payments@.dom() == b.payments@.dom(),
    ensures
        r matches Ok(p) ==> compares(*a, *b, p),
        r is Ok <==> pair_fees_fit(*a, *b),
        r matches Err(e) ==> e == SimulationError::ArithmeticOverflow("evaluation total"),
{
    broadcast use vstd::std_specs::btree::group_btree_axioms;

    proof {
        crate::order::lemma_u128_keys_ordered();
    }
    let n = a.payments.len();
    let keys = a.payments.keys();
    let ghost whole = keys.remaining();
    let ghost ks = whole.unref();
    proof {
        assert(ks.to_set() == a.payments@.dom());
        assert(ks.len() == n);
        ks.unique_seq_to_set();
        crate::order::lemma_u128_refs_increasing(whole);
        assert(key_order(a.payments@, ks));
        let chosen = sorted_keys(a.payments@);
        lemma_increasing_unique(ks, chosen);
        assert(ks == sorted_keys(a.payments@));
    }
    let mut p = PairComparison {
        left: a.strategy.clone(),
        right: b.strategy.clone(),
        only_left_on_time: Vec::new(),
        only_right_on_time: Vec::new(),
        common_on_time: 0,
        common_left_fee_cents: 0,
        common_right_fee_cents: 0,
    };
    for k in it: keys
        invariant
            it.seq() == whole,
            ks == whole.unref(),
            ks.to_set() == a.payments@.dom(),
            a.payments@.dom() == b.payments@.dom(),
            p.only_left_on_time@ == only_on_time(a.payments@, b.payments@, ks.take(it.index() as int)),
            p.only_right_on_time@ == only_on_time(b.payments@, a.payments@, ks.take(it.index() as int)),
            p.common_on_time == common_totals(a.payments@, b.payments@, ks.take(it.index() as int)).0,
            p.common_left_fee_cents == common_totals(a.payments@, b.payments@, ks.take(it.index() as int)).1,
            p.common_right_fee_cents == common_totals(a.payments@, b.payments@, ks.take(it.index() as int)).2,
            p.common_on_time <= it.index(),
            ks.len() == n,
            ks == sorted_keys(a.payments@),
            p.left@ == a.strategy@,
            p.right@ == b.strategy@,
    {
        let ghost i = it.index();
        proof {
            assert(ks.take(i + 1).drop_last() =~= ks.take(i as int));
            assert(ks[i as int] == *k);
            assert(a.payments@.dom().contains(*k));
        }
        let x = a.payments.get(k).unwrap();
        let y = b.payments.get(k).unwrap();
        match (x.on_time(), y.on_time()) {
            (true, true) => {
                p.common_on_time = p.common_on_time + 1;
                match checked_sum(&mut p.common_left_fee_cents, x.actual_fee_cents) {
                    Ok(()) => {},
                    Err(e) => {
                        proof {
                            lemma_common_totals_prefix(a.payments@, b.payments@, ks, i + 1);
                        }
                        return Err(e);
                    },
                }
                match checked_sum(&mut p.common_right_fee_cents, y.actual_fee_cents) {
                    Ok(()) => {},
                    Err(e) => {
                        proof {
                            lemma_common_totals_prefix(a.payments@, b.payments@, ks, i + 1);
                        }
                        return Err(e);
                    },
                }
            },
            (true, false) => {
                p.only_left_on_time.push(*k);
            },
            (false, true) => {
                p.only_right_on_time.push(*k);
            },
            _ => {},
        }
    }
    proof {
        assert(ks.take(ks.len() as int) =~= ks);
        assert(ks.no_duplicates());
        crate::order::lemma_u128_refs_increasing(whole);
        assert(key_order(a.payments@, ks));
    }
    Ok(p)
}

impl CaseResult {
    /// Payment-matched evidence for every pair of complete runs, left before
    /// right; partial and error runs are left out.
    pub fn pairs(&self) -> (r: Result<Vec<PairComparison>, SimulationError>)
        requires
            same_cohorts(self.runs@),
        ensures
            r is Ok <==> forall|k: int|
                0 <= k < complete_pairs_upto(self.runs@, self.runs@.len() as int).len() ==> pair_fees_fit(
                    self.runs@[(#[trigger] complete_pairs_upto(self.runs@, self.runs@.len() as int)[k]).0],
                    self.runs@[complete_pairs_upto(self.runs@, self.runs@.len() as int)[k].1],
                ),
            r matches Err(e) ==> e == SimulationError::ArithmeticOverflow("evaluation total"),
            r matches Ok(ps) ==> {
                let idx = complete_pairs_upto(self.runs@, self.runs@.len() as int);
                &&& ps@.len() == idx.len()
                &&& forall|k: int|
                    0 <= k < idx.len() ==> compares(self.runs@[idx[k].0], self.runs@[idx[k].1], #[trigger] ps@[k])
            },
    {
        let ghost runs = self.runs@;
        let mut pairs: Vec<PairComparison> = Vec::new();
        let mut i: usize = 0;
        while i < self.runs.len()
            invariant
                runs == self.runs@,
                same_cohorts(runs),
                i <= runs.len(),
                pairs@.len() == complete_pairs_upto(runs, i as int).len(),
                forall|k: int|
                    0 <= k < pairs@.len() ==> compares(
                        runs[complete_pairs_upto(runs, i as int)[k].0],
                        runs[complete_pairs_upto(runs, i as int)[k].1],
                        #[trigger] pairs@[k],
                    ),
                forall|k: int|
                    0 <= k < complete_pairs_upto(runs, i as int).len() ==> pair_fees_fit(
                        runs[(#[trigger] complete_pairs_upto(runs, i as int)[k]).0],
                        runs[complete_pairs_upto(runs, i as int)[k].1],
                    ),
            decreases runs.len() - i,
        {
            let ghost before = pairs@;
            let ghost base = complete_pairs_upto(runs, i as int);
            let mut j: usize = i + 1;
            while j < self.runs.len()
                invariant
                    runs == self.runs@,
                    same_cohorts(runs),
                    i < runs.len(),
                    i + 1 <= j <= runs.len(),
                    base == complete_pairs_upto(runs, i as int),
                    pairs@.len() == base.len() + pairs_from(runs, i as int, j as int).len(),
                    forall|k: int|
                        0 <= k < pairs@.len() ==> compares(
                            runs[(base + pairs_from(runs, i as int, j as int))[k].0],
                            runs[(base + pairs_from(runs, i as int, j as int))[k].1],
                            #[trigger] pairs@[k],
                        ),
                    forall|k: int|
                        0 <= k < (base + pairs_from(runs, i as int, j as int)).len() ==> pair_fees_fit(
                            runs[(#[trigger] (base + pairs_from(runs, i as int, j as int))[k]).0],
                            runs[(base + pairs_from(runs, i as int, j as int))[k].1],
                        ),
                decreases runs.len() - j,
            {
                let left = &self.runs[i];
                let right = &self.runs[j];
                let ghost prev = pairs@;
                let both = match (&left.status, &right.status) {
                    (Status::Complete, Status::Complete) => true,
                    _ => false,
                };
                if both {
                    proof {
                        assert(runs[i as int].payments@.dom() == runs[j as int].payments@.dom());
                    }
                    let p = match compare_runs(left, right) {
                        Ok(p) => p,
                        Err(e) => {
                            proof {
                                let n = runs.len() as int;
                                let w: int = (base.len() + pairs_from(runs, i as int, j as int).len()) as int;
                                assert(pairs_from(runs, i as int, j + 1) =~= pairs_from(runs, i as int, j as int).push(
                                    (i as int, j as int),
                                ));
                                lemma_pairs_from_prefix(runs, i as int, j + 1, n);
                                assert(complete_pairs_upto(runs, i + 1) =~= base + pairs_from(runs, i as int, n));
                                lemma_pairs_upto_prefix(runs, i + 1, n);
                                assert(complete_pairs_upto(runs, n)[w] == (i as int, j as int));
                                assert(!pair_fees_fit(runs[complete_pairs_upto(runs, n)[w].0], runs[complete_pairs_upto(runs, n)[w].1]));
                            }
                            return Err(e);
                        },
                    };
                    pairs.push(p);
                    proof {
                        let seq1 = base + pairs_from(runs, i as int, j as int);
                        let seq2 = base + pairs_from(runs, i as int, j + 1);
                        assert(seq2 =~= seq1.push((i as int, j as int)));
                        assert forall|k: int| 0 <= k < seq2.len() implies pair_fees_fit(
                            runs[(#[trigger] seq2[k]).0],
                            runs[seq2[k].1],
                        ) by {
                            if k < seq1.len() {
                                assert(seq2[k] == seq1[k]);
                            }
                        }
                        assert forall|k: int| 0 <= k < pairs@.len() implies compares(
                            runs[seq2[k].0],
                            runs[seq2[k].1],
                            #[trigger] pairs@[k],
                        ) by {
                            if k < prev.len() {
                                assert(pairs@[k] == prev[k]);
                            }
                        }
                    }
                } else {
                    proof {
                        let seq1 = base + pairs_from(runs, i as int, j as int);
                        let seq2 = base + pairs_from(runs, i as int, j + 1);
                        assert(seq2 =~= seq1);
                    }
                }
                j += 1;
            }
            proof {
                assert(complete_pairs_upto(runs, i + 1) =~= base + pairs_from(runs, i as int, runs.len() as int));
            }
            i += 1;
        }
        proof {
            assert(i == runs.len());
        }
        Ok(pairs)
    }
}

impl Evaluation {
    pub fn has_incomplete_runs(&self) -> (r: bool)
        ensures
            r == exists|c: int, k: int|
                0 <= c < self.cases@.len() && 0 <= k < self.cases@[c].runs@.len() && !(
                #[trigger] self.cases@[c].runs@[k].status == Status::Complete),
    {
        let mut c: usize = 0;
        while c < self.cases.len()
            invariant
                c <= self.cases@.len(),
                forall|x: int, k: int|
                    0 <= x < c && 0 <= k < self.cases@[x].runs@.len() ==> #[trigger] self.cases@[x].runs@[k].status
                        == Status::Complete,
            decreases self.cases@.len() - c,
        {
            let case = &self.cases[c];
            let mut k: usize = 0;
            while k < case.runs.len()
                invariant
                    c < self.cases@.len(),
                    case == &self.cases@[c as int],
                    k <= case.runs@.len(),
                    forall|x: int, q: int|
                        0 <= x < c && 0 <= q < self.cases@[x].runs@.len() ==> #[trigger] self.cases@[x].runs@[q].status
                            == Status::Complete,
                    forall|q: int| 0 <= q < k ==> #[trigger] case.runs@[q].status == Status::Complete,
                decreases case.runs@.len() - k,
            {
                match case.runs[k].status {
                    Status::Complete => {},
                    _ => {
                        return true;
                    },
                }
                k += 1;
            }
            c += 1;
        }
        false
    }
}

} // verus!
