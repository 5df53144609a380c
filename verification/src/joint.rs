//! Exact joint selection: one candidate per request within shared budgets, least
//! by total fee, then total elapsed time, then total hops, then the sequence of
//! chosen candidate positions (each request's candidates are listed in tie order).
use vstd::prelude::*;

verus! {

/// A candidate for one request: its cost and what it takes from each budget.
pub struct JointCand {
    pub fee: u128,
    pub elapsed: u128,
    pub hops: usize,
    pub usage: Vec<u128>,
}

/// The best complete choice found so far and its totals.
pub struct Best {
    pub fee: u128,
    pub elapsed: u128,
    pub hops: usize,
    pub choice: Vec<usize>,
}

pub struct Score3 {
    pub fee: int,
    pub elapsed: int,
    pub hops: int,
}

pub open spec fn score_lt(a: Score3, b: Score3) -> bool {
    ||| a.fee < b.fee
    ||| a.fee == b.fee && a.elapsed < b.elapsed
    ||| a.fee == b.fee && a.elapsed == b.elapsed && a.hops < b.hops
}

/// Lexicographic order on equal-length position sequences.
pub open spec fn idx_lt(x: Seq<usize>, y: Seq<usize>) -> bool {
    exists|k: int|
        #![trigger x[k], y[k]]
        0 <= k < x.len() && k < y.len() && x[k] < y[k] && forall|j: int| 0 <= j < k ==> x[j] == y[j]
}

pub open spec fn valid_choice(c: Seq<Seq<JointCand>>, x: Seq<usize>) -> bool {
    x.len() == c.len() && forall|i: int| 0 <= i < x.len() ==> #[trigger] x[i] < c[i].len()
}

pub open spec fn pick(c: Seq<Seq<JointCand>>, x: Seq<usize>, i: int) -> JointCand {
    c[i][x[i] as int]
}

pub open spec fn use_sum(c: Seq<Seq<JointCand>>, x: Seq<usize>, r: int, k: int) -> int
    decreases k,
{
    if k <= 0 {
        0
    } else {
        use_sum(c, x, r, k - 1) + pick(c, x, k - 1).usage@[r]
    }
}

pub open spec fn fee_sum(c: Seq<Seq<JointCand>>, x: Seq<usize>, k: int) -> int
    decreases k,
{
    if k <= 0 {
        0
    } else {
        fee_sum(c, x, k - 1) + pick(c, x, k - 1).fee
    }
}

pub open spec fn elapsed_sum(c: Seq<Seq<JointCand>>, x: Seq<usize>, k: int) -> int
    decreases k,
{
    if k <= 0 {
        0
    } else {
        elapsed_sum(c, x, k - 1) + pick(c, x, k - 1).elapsed
    }
}

pub open spec fn hops_sum(c: Seq<Seq<JointCand>>, x: Seq<usize>, k: int) -> int
    decreases k,
{
    if k <= 0 {
        0
    } else {
        hops_sum(c, x, k - 1) + pick(c, x, k - 1).hops
    }
}

pub open spec fn total(c: Seq<Seq<JointCand>>, x: Seq<usize>) -> Score3 {
    Score3 {
        fee: fee_sum(c, x, c.len() as int),
        elapsed: elapsed_sum(c, x, c.len() as int),
        hops: hops_sum(c, x, c.len() as int),
    }
}

/// The first `k` choices keep every limited budget.
pub open spec fn fits_upto(c: Seq<Seq<JointCand>>, caps: Seq<Option<u64>>, x: Seq<usize>, k: int) -> bool {
    forall|r: int| 0 <= r < caps.len() && caps[r] is Some ==> #[trigger] use_sum(c, x, r, k) <= caps[r]->0
}

/// One candidate per request, together within every budget.
pub open spec fn feasible(c: Seq<Seq<JointCand>>, caps: Seq<Option<u64>>, x: Seq<usize>) -> bool {
    valid_choice(c, x) && fits_upto(c, caps, x, c.len() as int)
}

pub open spec fn better(c: Seq<Seq<JointCand>>, x: Seq<usize>, y: Seq<usize>) -> bool {
    score_lt(total(c, x), total(c, y)) || (total(c, x) == total(c, y) && idx_lt(x, y))
}

/// A feasible choice that no feasible choice beats.
pub open spec fn optimal(c: Seq<Seq<JointCand>>, caps: Seq<Option<u64>>, x: Seq<usize>) -> bool {
    feasible(c, caps, x) && forall|y: Seq<usize>| #[trigger] feasible(c, caps, y) ==> !better(c, y, x)
}

/// Every candidate has one usage entry per budget and stays within `bound`.
pub open spec fn bounded(c: Seq<Seq<JointCand>>, m: int, bound: int, hop_bound: int) -> bool {
    &&& forall|i: int, j: int|
        0 <= i < c.len() && 0 <= j < c[i].len() ==> {
            let d = #[trigger] c[i][j];
            &&& d.usage@.len() == m
            &&& d.fee <= bound
            &&& d.elapsed <= bound
            &&& d.hops <= hop_bound
            &&& forall|r: int| 0 <= r < m ==> #[trigger] d.usage@[r] <= bound
        }
    &&& c.len() * bound <= u128::MAX
    &&& c.len() * hop_bound <= usize::MAX
    &&& bound >= 0
    &&& hop_bound >= 0
}

pub open spec fn min_fee(s: Seq<JointCand>) -> int
    decreases s.len(),
{
    if s.len() <= 1 {
        if s.len() == 1 { s[0].fee as int } else { 0 }
    } else {
        let m = min_fee(s.drop_last());
        if s.last().fee < m { s.last().fee as int } else { m }
    }
}

/// The sum of each remaining request's cheapest candidate fee.
pub open spec fn rem(c: Seq<Seq<JointCand>>, k: int) -> int
    decreases c.len() - k,
{
    if k >= c.len() {
        0
    } else {
        min_fee(c[k]) + rem(c, k + 1)
    }
}

pub open spec fn extends(y: Seq<usize>, p: Seq<usize>) -> bool {
    p.len() <= y.len() && y.take(p.len() as int) == p
}

pub open spec fn best_choice(b: Option<Best>) -> Option<Seq<usize>> {
    match b {
        Some(v) => Some(v.choice@),
        None => None,
    }
}

/// `b` improves on or equals `b0`.
pub open spec fn no_worse(c: Seq<Seq<JointCand>>, b: Option<Seq<usize>>, b0: Option<Seq<usize>>) -> bool {
    b0 matches Some(x) ==> (b matches Some(y) && (y == x || better(c, y, x)))
}

/// `y` does not beat the incumbent, which exists.
pub open spec fn beaten(c: Seq<Seq<JointCand>>, y: Seq<usize>, b: Option<Seq<usize>>) -> bool {
    b matches Some(x) && !better(c, y, x)
}

pub open spec fn covers(c: Seq<Seq<JointCand>>, caps: Seq<Option<u64>>, p: Seq<usize>, b: Option<Seq<usize>>) -> bool {
    forall|y: Seq<usize>| #![trigger extends(y, p)] extends(y, p) && feasible(c, caps, y) ==> beaten(c, y, b)
}

#[verifier::opaque]
pub open spec fn covers_below(
    c: Seq<Seq<JointCand>>,
    caps: Seq<Option<u64>>,
    p: Seq<usize>,
    b: Option<Seq<usize>>,
    j: int,
) -> bool {
    forall|y: Seq<usize>|
        #![trigger extends(y, p)]
        extends(y, p) && feasible(c, caps, y) && y[p.len() as int] < j ==> beaten(c, y, b)
}

pub open spec fn best_ok(c: Seq<Seq<JointCand>>, caps: Seq<Option<u64>>, b: Option<Best>) -> bool {
    b matches Some(v) ==> {
        &&& feasible(c, caps, v.choice@)
        &&& v.fee == total(c, v.choice@).fee
        &&& v.elapsed == total(c, v.choice@).elapsed
        &&& v.hops == total(c, v.choice@).hops
    }
}

// ---------------------------------------------------------------------------
// Lemmas.

pub proof fn lemma_score_lt_transitive(a: Score3, b: Score3, d: Score3)
    requires
        score_lt(a, b),
        score_lt(b, d),
    ensures
        score_lt(a, d),
{
}

pub proof fn lemma_idx_lt_transitive(x: Seq<usize>, y: Seq<usize>, z: Seq<usize>)
    requires
        idx_lt(x, y),
        idx_lt(y, z),
        x.len() == y.len(),
        y.len() == z.len(),
    ensures
        idx_lt(x, z),
{
    let k1 = choose|k: int|
        #![trigger x[k], y[k]]
        0 <= k < x.len() && k < y.len() && x[k] < y[k] && forall|j: int| 0 <= j < k ==> x[j] == y[j];
    let k2 = choose|k: int|
        #![trigger y[k], z[k]]
        0 <= k < y.len() && k < z.len() && y[k] < z[k] && forall|j: int| 0 <= j < k ==> y[j] == z[j];
    let k = if k1 < k2 { k1 } else { k2 };
    assert(x[k] < z[k]);
    assert forall|j: int| 0 <= j < k implies x[j] == z[j] by {
        assert(x[j] == y[j]);
        assert(y[j] == z[j]);
    }
}

pub proof fn lemma_idx_lt_irreflexive(x: Seq<usize>)
    ensures
        !idx_lt(x, x),
{
}

pub proof fn lemma_better_transitive(c: Seq<Seq<JointCand>>, x: Seq<usize>, y: Seq<usize>, z: Seq<usize>)
    requires
        better(c, x, y),
        better(c, y, z),
        x.len() == y.len(),
        y.len() == z.len(),
    ensures
        better(c, x, z),
{
    if total(c, x) == total(c, y) && total(c, y) == total(c, z) {
        lemma_idx_lt_transitive(x, y, z);
    }
}

pub proof fn lemma_better_irreflexive(c: Seq<Seq<JointCand>>, x: Seq<usize>)
    ensures
        !better(c, x, x),
{
    lemma_idx_lt_irreflexive(x);
}

proof fn lemma_beaten_monotone(c: Seq<Seq<JointCand>>, y: Seq<usize>, b0: Option<Seq<usize>>, b: Option<Seq<usize>>)
    requires
        beaten(c, y, b0),
        no_worse(c, b, b0),
        b0 matches Some(x) && x.len() == c.len(),
        b matches Some(x) && x.len() == c.len(),
        y.len() == c.len(),
    ensures
        beaten(c, y, b),
{
    let x0 = b0->0;
    let x = b->0;
    if x != x0 && better(c, y, x) {
        lemma_better_transitive(c, y, x, x0);
    }
}

proof fn lemma_no_worse_transitive(c: Seq<Seq<JointCand>>, a: Option<Seq<usize>>, b: Option<Seq<usize>>, d: Option<Seq<usize>>)
    requires
        no_worse(c, a, b),
        no_worse(c, b, d),
        a matches Some(x) ==> x.len() == c.len(),
        b matches Some(x) ==> x.len() == c.len(),
        d matches Some(x) ==> x.len() == c.len(),
    ensures
        no_worse(c, a, d),
{
    if d is Some {
        let x = a->0;
        let y = b->0;
        let z = d->0;
        if x != y && y != z {
            lemma_better_transitive(c, x, y, z);
        }
    }
}

pub proof fn lemma_sums_prefix(c: Seq<Seq<JointCand>>, x: Seq<usize>, y: Seq<usize>, k: int)
    requires
        0 <= k <= x.len(),
        k <= y.len(),
        x.take(k) == y.take(k),
    ensures
        fee_sum(c, x, k) == fee_sum(c, y, k),
        elapsed_sum(c, x, k) == elapsed_sum(c, y, k),
        hops_sum(c, x, k) == hops_sum(c, y, k),
        forall|r: int| #[trigger] use_sum(c, x, r, k) == use_sum(c, y, r, k),
    decreases k,
{
    if k > 0 {
        assert(x.take(k - 1) == x.take(k).take(k - 1));
        assert(y.take(k - 1) == y.take(k).take(k - 1));
        lemma_sums_prefix(c, x, y, k - 1);
        assert(x[k - 1] == x.take(k)[k - 1]);
        assert(y[k - 1] == y.take(k)[k - 1]);
        assert forall|r: int| #[trigger] use_sum(c, x, r, k) == use_sum(c, y, r, k) by {
            assert(use_sum(c, x, r, k - 1) == use_sum(c, y, r, k - 1));
        }
    }
}

proof fn lemma_use_monotone(c: Seq<Seq<JointCand>>, x: Seq<usize>, r: int, k: int, n: int)
    requires
        0 <= k <= n,
    ensures
        use_sum(c, x, r, k) <= use_sum(c, x, r, n),
    decreases n - k,
{
    if k < n {
        lemma_use_monotone(c, x, r, k, n - 1);
    }
}

proof fn lemma_min_fee(s: Seq<JointCand>, j: int)
    requires
        0 <= j < s.len(),
    ensures
        min_fee(s) <= s[j].fee,
        0 <= min_fee(s),
    decreases s.len(),
{
    if s.len() > 1 {
        if j < s.len() - 1 {
            lemma_min_fee(s.drop_last(), j);
        } else {
            lemma_min_fee(s.drop_last(), 0);
        }
    }
}

proof fn lemma_min_fee_bound(s: Seq<JointCand>, bound: int)
    requires
        s.len() > 0,
        forall|j: int| 0 <= j < s.len() ==> (#[trigger] s[j]).fee <= bound,
    ensures
        0 <= min_fee(s) <= bound,
    decreases s.len(),
{
    lemma_min_fee(s, 0);
    if s.len() > 1 {
        lemma_min_fee_bound(s.drop_last(), bound);
    }
}

/// Every completion of the first `k` choices pays at least the cheapest fees.
proof fn lemma_rem_lower(c: Seq<Seq<JointCand>>, x: Seq<usize>, k: int)
    requires
        valid_choice(c, x),
        0 <= k <= c.len(),
    ensures
        fee_sum(c, x, c.len() as int) - fee_sum(c, x, k) >= rem(c, k),
    decreases c.len() - k,
{
    if k < c.len() {
        lemma_rem_lower(c, x, k + 1);
        lemma_min_fee(c[k], x[k] as int);
        lemma_fee_split(c, x, k, c.len() as int);
    }
}

proof fn lemma_fee_split(c: Seq<Seq<JointCand>>, x: Seq<usize>, k: int, n: int)
    requires
        0 <= k < n,
    ensures
        fee_sum(c, x, n) - fee_sum(c, x, k) == pick(c, x, k).fee + (fee_sum(c, x, n) - fee_sum(c, x, k + 1)),
{
}

pub proof fn lemma_sum_bounds(c: Seq<Seq<JointCand>>, x: Seq<usize>, k: int, m: int, bound: int, hop_bound: int)
    requires
        valid_choice(c, x),
        bounded(c, m, bound, hop_bound),
        0 <= k <= c.len(),
    ensures
        0 <= fee_sum(c, x, k) <= k * bound,
        0 <= elapsed_sum(c, x, k) <= k * bound,
        0 <= hops_sum(c, x, k) <= k * hop_bound,
        forall|r: int| 0 <= r < m ==> 0 <= #[trigger] use_sum(c, x, r, k) <= k * bound,
    decreases k,
{
    if k > 0 {
        lemma_sum_bounds(c, x, k - 1, m, bound, hop_bound);
        let d = pick(c, x, k - 1);
        assert(x[k - 1] < c[k - 1].len());
        assert((k - 1) * bound + bound == k * bound) by (nonlinear_arith);
        assert((k - 1) * hop_bound + hop_bound == k * hop_bound) by (nonlinear_arith);
        assert forall|r: int| 0 <= r < m implies 0 <= #[trigger] use_sum(c, x, r, k) <= k * bound by {
            assert(use_sum(c, x, r, k - 1) <= (k - 1) * bound);
            assert(d.usage@[r] <= bound);
        }
    }
}

proof fn lemma_mul_mono(a: int, b: int, bound: int)
    requires
        0 <= a <= b,
        0 <= bound,
    ensures
        a * bound <= b * bound,
{
    assert(a * bound <= b * bound) by (nonlinear_arith)
        requires
            0 <= a <= b,
            0 <= bound,
    ;
}

proof fn lemma_covers_below_start(c: Seq<Seq<JointCand>>, caps: Seq<Option<u64>>, p: Seq<usize>, b: Option<Seq<usize>>)
    ensures
        covers_below(c, caps, p, b, 0),
{
    reveal(covers_below);
}

proof fn lemma_covers_below_monotone(
    c: Seq<Seq<JointCand>>,
    caps: Seq<Option<u64>>,
    p: Seq<usize>,
    b0: Option<Seq<usize>>,
    b: Option<Seq<usize>>,
    j: int,
)
    requires
        covers_below(c, caps, p, b0, j),
        no_worse(c, b, b0),
        b0 matches Some(x) ==> x.len() == c.len(),
        b matches Some(x) ==> x.len() == c.len(),
    ensures
        covers_below(c, caps, p, b, j),
{
    reveal(covers_below);
    assert forall|y: Seq<usize>|
        extends(y, p) && feasible(c, caps, y) && y[p.len() as int] < j implies #[trigger] beaten(c, y, b) by {
        assert(extends(y, p));
        lemma_beaten_monotone(c, y, b0, b);
    }
}

/// A choice whose prefix already exceeds a budget is infeasible.
proof fn lemma_skip(
    c: Seq<Seq<JointCand>>,
    caps: Seq<Option<u64>>,
    p: Seq<usize>,
    b: Option<Seq<usize>>,
    j: int,
    r: int,
)
    requires
        covers_below(c, caps, p, b, j),
        p.len() < c.len(),
        0 <= r < caps.len(),
        caps[r] is Some,
        0 <= j < c[p.len() as int].len(),
        use_sum(c, p.push(j as usize), r, p.len() as int + 1) > caps[r]->0,
    ensures
        covers_below(c, caps, p, b, j + 1),
{
    reveal(covers_below);
    let k = p.len() as int;
    let q = p.push(j as usize);
    assert forall|y: Seq<usize>|
        extends(y, p) && feasible(c, caps, y) && y[k] < j + 1 implies #[trigger] beaten(c, y, b) by {
        assert(extends(y, p));
        if y[k] == j {
            assert(y.take(k + 1) =~= q.take(k + 1));
            lemma_sums_prefix(c, y, q, k + 1);
            lemma_use_monotone(c, y, r, k + 1, c.len() as int);
            assert(use_sum(c, y, r, c.len() as int) <= caps[r]->0);
        }
    }
}

proof fn lemma_after_call(
    c: Seq<Seq<JointCand>>,
    caps: Seq<Option<u64>>,
    p: Seq<usize>,
    b0: Option<Seq<usize>>,
    b: Option<Seq<usize>>,
    j: int,
)
    requires
        covers_below(c, caps, p, b0, j),
        p.len() < c.len(),
        0 <= j,
        no_worse(c, b, b0),
        b0 matches Some(x) ==> x.len() == c.len(),
        b matches Some(x) ==> x.len() == c.len(),
        covers(c, caps, p.push(j as usize), b),
    ensures
        covers_below(c, caps, p, b, j + 1),
{
    reveal(covers_below);
    let k = p.len() as int;
    let q = p.push(j as usize);
    assert forall|y: Seq<usize>|
        extends(y, p) && feasible(c, caps, y) && y[k] < j + 1 implies #[trigger] beaten(c, y, b) by {
        assert(extends(y, p));
        if y[k] == j {
            assert(y.take(k + 1) =~= q);
            assert(extends(y, q));
        } else {
            lemma_beaten_monotone(c, y, b0, b);
        }
    }
}

proof fn lemma_covers_all(c: Seq<Seq<JointCand>>, caps: Seq<Option<u64>>, p: Seq<usize>, b: Option<Seq<usize>>)
    requires
        covers_below(c, caps, p, b, c[p.len() as int].len() as int),
        p.len() < c.len(),
    ensures
        covers(c, caps, p, b),
{
    reveal(covers_below);
    assert forall|y: Seq<usize>| extends(y, p) && feasible(c, caps, y) implies #[trigger] beaten(c, y, b) by {
        assert(y[p.len() as int] < c[p.len() as int].len());
    }
}

fn idx_less(x: &Vec<usize>, y: &Vec<usize>) -> (r: bool)
    requires
        x@.len() == y@.len(),
    ensures
        r == idx_lt(x@, y@),
{
    let mut k: usize = 0;
    while k < x.len()
        invariant
            x@.len() == y@.len(),
            k <= x@.len(),
            forall|j: int| 0 <= j < k ==> x@[j] == y@[j],
        decreases x@.len() - k,
    {
        if x[k] != y[k] {
            if x[k] < y[k] {
                assert(x@[k as int] < y@[k as int]);
                return true;
            }
            assert(!idx_lt(x@, y@)) by {
                if idx_lt(x@, y@) {
                    let q = choose|q: int|
                        #![trigger x@[q], y@[q]]
                        0 <= q < x@.len() && q < y@.len() && x@[q] < y@[q] && forall|j: int| 0 <= j < q ==> x@[j] == y@[j];
                    if q < k {
                    } else if q > k {
                        assert(x@[k as int] == y@[k as int]);
                    }
                }
            }
            return false;
        }
        k += 1;
    }
    assert(!idx_lt(x@, y@)) by {
        if idx_lt(x@, y@) {
            let q = choose|q: int|
                #![trigger x@[q], y@[q]]
                0 <= q < x@.len() && q < y@.len() && x@[q] < y@[q] && forall|j: int| 0 <= j < q ==> x@[j] == y@[j];
            assert(x@[q] == y@[q]);
        }
    }
    false
}

fn copy_usizes(v: &Vec<usize>) -> (r: Vec<usize>)
    ensures
        r@ == v@,
{
    let mut r: Vec<usize> = Vec::new();
    let mut i: usize = 0;
    while i < v.len()
        invariant
            i <= v@.len(),
            r@ == v@.take(i as int),
        decreases v@.len() - i,
    {
        r.push(v[i]);
        assert(v@.take(i + 1) =~= v@.take(i as int).push(v@[i as int]));
        i += 1;
    }
    assert(v@.take(i as int) =~= v@);
    r
}


pub open spec fn cands_view(c: Vec<Vec<JointCand>>) -> Seq<Seq<JointCand>> {
    c@.map_values(|v: Vec<JointCand>| v@)
}

proof fn lemma_rem_bound(c: Seq<Seq<JointCand>>, k: int, m: int, bound: int, hop_bound: int)
    requires
        bounded(c, m, bound, hop_bound),
        forall|i: int| 0 <= i < c.len() ==> (#[trigger] c[i]).len() > 0,
        0 <= k <= c.len(),
    ensures
        0 <= rem(c, k) <= (c.len() - k) * bound,
    decreases c.len() - k,
{
    if k < c.len() {
        lemma_rem_bound(c, k + 1, m, bound, hop_bound);
        assert forall|j: int| 0 <= j < c[k].len() implies (#[trigger] c[k][j]).fee <= bound by {
            assert(c[k][j].fee <= bound);
        }
        lemma_min_fee_bound(c[k], bound);
        assert((c.len() - (k + 1)) * bound + bound == (c.len() - k) * bound) by (nonlinear_arith);
    }
}

/// Whether adding `usage` keeps every limited budget.
fn fits_now(caps: &Vec<Option<u64>>, used: &Vec<u128>, usage: &Vec<u128>) -> (r: bool)
    requires
        used@.len() == caps@.len(),
        usage@.len() == caps@.len(),
    ensures
        r <==> forall|q: int|
            0 <= q < caps@.len() && caps@[q] is Some ==> used@[q] + usage@[q] <= caps@[q]->0,
{
    let mut q: usize = 0;
    while q < caps.len()
        invariant
            used@.len() == caps@.len(),
            usage@.len() == caps@.len(),
            q <= caps@.len(),
            forall|t: int| 0 <= t < q && caps@[t] is Some ==> used@[t] + usage@[t] <= caps@[t]->0,
        decreases caps@.len() - q,
    {
        match caps[q] {
            Some(cap) => {
                match used[q].checked_add(usage[q]) {
                    None => {
                        return false;
                    },
                    Some(t) => {
                        if t > cap as u128 {
                            return false;
                        }
                    },
                }
            },
            None => {},
        }
        q += 1;
    }
    true
}

fn add_usage(used: &mut Vec<u128>, usage: &Vec<u128>, bound: Ghost<int>)
    requires
        old(used)@.len() == usage@.len(),
        forall|q: int| 0 <= q < usage@.len() ==> old(used)@[q] + usage@[q] <= u128::MAX,
    ensures
        final(used)@.len() == old(used)@.len(),
        forall|q: int| 0 <= q < usage@.len() ==> #[trigger] final(used)@[q] == old(used)@[q] + usage@[q],
{
    let mut q: usize = 0;
    while q < used.len()
        invariant
            used@.len() == usage@.len(),
            old(used)@.len() == usage@.len(),
            q <= used@.len(),
            forall|t: int| 0 <= t < usage@.len() ==> old(used)@[t] + usage@[t] <= u128::MAX,
            forall|t: int| 0 <= t < q ==> #[trigger] used@[t] == old(used)@[t] + usage@[t],
            forall|t: int| q <= t < used@.len() ==> #[trigger] used@[t] == old(used)@[t],
        decreases used@.len() - q,
    {
        let v = used[q] + usage[q];
        used.set(q, v);
        q += 1;
    }
}

fn sub_usage(used: &mut Vec<u128>, usage: &Vec<u128>)
    requires
        old(used)@.len() == usage@.len(),
        forall|q: int| 0 <= q < usage@.len() ==> old(used)@[q] >= usage@[q],
    ensures
        final(used)@.len() == old(used)@.len(),
        forall|q: int| 0 <= q < usage@.len() ==> #[trigger] final(used)@[q] == old(used)@[q] - usage@[q],
{
    let mut q: usize = 0;
    while q < used.len()
        invariant
            used@.len() == usage@.len(),
            old(used)@.len() == usage@.len(),
            q <= used@.len(),
            forall|t: int| 0 <= t < usage@.len() ==> old(used)@[t] >= usage@[t],
            forall|t: int| 0 <= t < q ==> #[trigger] used@[t] == old(used)@[t] - usage@[t],
            forall|t: int| q <= t < used@.len() ==> #[trigger] used@[t] == old(used)@[t],
        decreases used@.len() - q,
    {
        let v = used[q] - usage[q];
        used.set(q, v);
        q += 1;
    }
}

/// Depth-first search over choices. On return `prefix` and `used` are as on
/// entry, and `best` is no worse than before and no worse than any feasible
/// completion of `prefix`.
#[verifier::spinoff_prover]
#[verifier::rlimit(80)]
fn visit(
    c: &Vec<Vec<JointCand>>,
    caps: &Vec<Option<u64>>,
    remaining: &Vec<u128>,
    prefix: &mut Vec<usize>,
    used: &mut Vec<u128>,
    fee: u128,
    elapsed: u128,
    hops: usize,
    best: &mut Option<Best>,
    Ghost(bound): Ghost<int>,
    Ghost(hop_bound): Ghost<int>,
)
    requires
        bounded(cands_view(*c), caps@.len() as int, bound, hop_bound),
        forall|i: int| 0 <= i < c@.len() ==> (#[trigger] c@[i])@.len() > 0,
        remaining@.len() == c@.len() + 1,
        forall|k: int| 0 <= k <= c@.len() ==> #[trigger] remaining@[k] == rem(cands_view(*c), k),
        old(prefix)@.len() <= c@.len(),
        forall|i: int| 0 <= i < old(prefix)@.len() ==> #[trigger] old(prefix)@[i] < c@[i]@.len(),
        fits_upto(cands_view(*c), caps@, old(prefix)@, old(prefix)@.len() as int),
        old(used)@.len() == caps@.len(),
        forall|r: int| 0 <= r < caps@.len() ==> #[trigger] old(used)@[r] == use_sum(cands_view(*c), old(prefix)@, r, old(prefix)@.len() as int),
        fee == fee_sum(cands_view(*c), old(prefix)@, old(prefix)@.len() as int),
        elapsed == elapsed_sum(cands_view(*c), old(prefix)@, old(prefix)@.len() as int),
        hops == hops_sum(cands_view(*c), old(prefix)@, old(prefix)@.len() as int),
        best_ok(cands_view(*c), caps@, *old(best)),
    ensures
        final(prefix)@ == old(prefix)@,
        final(used)@ == old(used)@,
        best_ok(cands_view(*c), caps@, *final(best)),
        no_worse(cands_view(*c), best_choice(*final(best)), best_choice(*old(best))),
        covers(cands_view(*c), caps@, old(prefix)@, best_choice(*final(best))),
    decreases c@.len() - old(prefix)@.len(),
{
    let ghost cs = cands_view(*c);
    let ghost p = prefix@;
    let ghost m = caps@.len() as int;
    let k = prefix.len();
    proof {
        assert(valid_choice(cs.take(k as int), p) || true);
        lemma_partial_bounds(cs, p, k as int, m, bound, hop_bound);
        lemma_rem_bound(cs, k as int, m, bound, hop_bound);
        lemma_mul_mono(k as int, cs.len() as int, bound);
        assert(k * bound + (cs.len() - k) * bound == cs.len() * bound) by (nonlinear_arith);
    }
    match &*best {
        Some(b) => {
            if fee + remaining[k] > b.fee {
                proof {
                    assert forall|y: Seq<usize>| extends(y, p) && feasible(cs, caps@, y) implies #[trigger] beaten(
                        cs,
                        y,
                        best_choice(*best),
                    ) by {
                        assert(y.take(k as int) == p);
                        assert(p.take(k as int) =~= p);
                        lemma_sums_prefix(cs, y, p, k as int);
                        lemma_rem_lower(cs, y, k as int);
                    }
                }
                return;
            }
        },
        None => {},
    }
    if k == c.len() {
        let improves = match &*best {
            None => true,
            Some(b) => fee < b.fee || (fee == b.fee && elapsed < b.elapsed) || (fee == b.fee
                && elapsed == b.elapsed && hops < b.hops) || (fee == b.fee && elapsed == b.elapsed
                && hops == b.hops && idx_less(prefix, &b.choice)),
        };
        let ghost b0 = best_choice(*best);
        proof {
            assert(valid_choice(cs, p));
            lemma_better_irreflexive(cs, p);
            assert forall|y: Seq<usize>| extends(y, p) && feasible(cs, caps@, y) implies y == p by {
                assert(y.take(k as int) == p);
                assert(y =~= y.take(k as int));
            }
        }
        if improves {
            *best = Some(Best { fee, elapsed, hops, choice: copy_usizes(prefix) });
        }
        return;
    }
    let ghost b0 = best_choice(*best);
    proof {
        lemma_covers_below_start(cs, caps@, p, best_choice(*best));
        lemma_best_len(cs, caps@, *best);
        lemma_mul_mono(k + 1, cs.len() as int, bound);
        lemma_mul_mono(k + 1, cs.len() as int, hop_bound);
    }
    let count = c[k].len();
    let mut j: usize = 0;
    while j < count
        invariant
            cs == cands_view(*c),
            bounded(cs, m, bound, hop_bound),
            m == caps@.len(),
            forall|i: int| 0 <= i < c@.len() ==> (#[trigger] c@[i])@.len() > 0,
            remaining@.len() == c@.len() + 1,
            forall|q: int| 0 <= q <= c@.len() ==> #[trigger] remaining@[q] == rem(cs, q),
            k < c@.len(),
            count == c@[k as int]@.len(),
            p == old(prefix)@,
            prefix@ == p,
            k == p.len(),
            forall|i: int| 0 <= i < p.len() ==> #[trigger] p[i] < c@[i]@.len(),
            fits_upto(cs, caps@, p, k as int),
            used@ == old(used)@,
            used@.len() == caps@.len(),
            forall|r: int| 0 <= r < caps@.len() ==> #[trigger] used@[r] == use_sum(cs, p, r, k as int),
            fee == fee_sum(cs, p, k as int),
            elapsed == elapsed_sum(cs, p, k as int),
            hops == hops_sum(cs, p, k as int),
            fee <= k * bound,
            elapsed <= k * bound,
            hops <= k * hop_bound,
            forall|r: int| 0 <= r < m ==> #[trigger] use_sum(cs, p, r, k as int) <= k * bound,
            (k + 1) * bound <= u128::MAX,
            (k + 1) * hop_bound <= usize::MAX,
            j <= count,
            best_ok(cs, caps@, *best),
            b0 == best_choice(*old(best)),
            b0 matches Some(x) ==> x.len() == cs.len(),
            no_worse(cs, best_choice(*best), b0),
            covers_below(cs, caps@, p, best_choice(*best), j as int),
        decreases count - j,
    {
        let cand = &c[k][j];
        let ghost q = p.push(j as usize);
        proof {
            assert(cs[k as int][j as int] == *cand);
            assert(cand.usage@.len() == m);
        }
        if fits_now(caps, used, &cand.usage) {
            proof {
                assert forall|r: int| 0 <= r < m implies used@[r] + cand.usage@[r] <= u128::MAX by {
                    assert(cand.usage@[r] <= bound);
                    assert(k * bound + bound == (k + 1) * bound) by (nonlinear_arith);
                }
                assert(cand.fee <= bound && cand.elapsed <= bound && cand.hops <= hop_bound);
                assert(k * bound + bound == (k + 1) * bound) by (nonlinear_arith);
                assert(k * hop_bound + hop_bound == (k + 1) * hop_bound) by (nonlinear_arith);
            }
            add_usage(used, &cand.usage, Ghost(bound));
            prefix.push(j);
            proof {
                assert(prefix@ == q);
                assert(q.take(k as int) =~= p);
                assert(p.take(k as int) =~= p);
                lemma_sums_prefix(cs, q, p, k as int);
                assert(pick(cs, q, k as int) == *cand);
                assert forall|r: int| 0 <= r < caps@.len() implies #[trigger] used@[r] == use_sum(cs, q, r, k + 1) by {
                    assert(use_sum(cs, q, r, k as int) == use_sum(cs, p, r, k as int));
                }
                assert forall|i: int| 0 <= i < q.len() implies #[trigger] q[i] < c@[i]@.len() by {
                    if i < k {
                        assert(q[i] == p[i]);
                    }
                }
                assert(fits_upto(cs, caps@, q, k + 1)) by {
                    assert forall|r: int| 0 <= r < caps@.len() && caps@[r] is Some implies #[trigger] use_sum(cs, q, r, k + 1) <= caps@[r]->0 by {
                        assert(use_sum(cs, q, r, k as int) == use_sum(cs, p, r, k as int));
                    }
                }
            }
            let ghost best_before = best_choice(*best);
            visit(
                c,
                caps,
                remaining,
                prefix,
                used,
                fee + cand.fee,
                elapsed + cand.elapsed,
                hops + cand.hops,
                best,
                Ghost(bound),
                Ghost(hop_bound),
            );
            proof {
                lemma_best_len(cs, caps@, *best);
                lemma_opt_len(cs, best_before);
                lemma_opt_len(cs, b0);
                lemma_after_call(cs, caps@, p, best_before, best_choice(*best), j as int);
                lemma_no_worse_transitive(cs, best_choice(*best), best_before, b0);
            }
            prefix.pop();
            sub_usage(used, &cand.usage);
            proof {
                assert(prefix@ =~= p);
                assert(used@ =~= old(used)@);
            }
        } else {
            proof {
                let r = choose|r: int|
                    0 <= r < caps@.len() && caps@[r] is Some && !(used@[r] + cand.usage@[r] <= caps@[r]->0);
                assert(q.take(k as int) =~= p);
                assert(p.take(k as int) =~= p);
                lemma_sums_prefix(cs, q, p, k as int);
                assert(pick(cs, q, k as int) == *cand);
                assert(use_sum(cs, q, r, k as int) == use_sum(cs, p, r, k as int));
                assert(use_sum(cs, q, r, k + 1) == use_sum(cs, q, r, k as int) + pick(cs, q, k as int).usage@[r]);
                assert(use_sum(cs, q, r, k + 1) == use_sum(cs, p, r, k as int) + cand.usage@[r]);
                lemma_skip(cs, caps@, p, best_choice(*best), j as int, r);
            }
        }
        j += 1;
    }
    proof {
        lemma_covers_all(cs, caps@, p, best_choice(*best));
    }
}

proof fn lemma_best_len(c: Seq<Seq<JointCand>>, caps: Seq<Option<u64>>, b: Option<Best>)
    requires
        best_ok(c, caps, b),
    ensures
        best_choice(b) matches Some(x) ==> x.len() == c.len(),
{
}

proof fn lemma_opt_len(c: Seq<Seq<JointCand>>, b: Option<Seq<usize>>)
    ensures
        true,
{
}

proof fn lemma_partial_bounds(c: Seq<Seq<JointCand>>, p: Seq<usize>, k: int, m: int, bound: int, hop_bound: int)
    requires
        bounded(c, m, bound, hop_bound),
        k == p.len(),
        k <= c.len(),
        forall|i: int| 0 <= i < p.len() ==> #[trigger] p[i] < c[i].len(),
    ensures
        0 <= fee_sum(c, p, k) <= k * bound,
        0 <= elapsed_sum(c, p, k) <= k * bound,
        0 <= hops_sum(c, p, k) <= k * hop_bound,
        forall|r: int| 0 <= r < m ==> 0 <= #[trigger] use_sum(c, p, r, k) <= k * bound,
    decreases k,
{
    if k > 0 {
        lemma_partial_bounds(c, p.drop_last(), k - 1, m, bound, hop_bound);
        assert(p.drop_last().take(k - 1) =~= p.take(k - 1));
        lemma_sums_prefix(c, p.drop_last(), p, k - 1);
        let d = pick(c, p, k - 1);
        assert(p[k - 1] < c[k - 1].len());
        assert((k - 1) * bound + bound == k * bound) by (nonlinear_arith);
        assert((k - 1) * hop_bound + hop_bound == k * hop_bound) by (nonlinear_arith);
        assert forall|r: int| 0 <= r < m implies 0 <= #[trigger] use_sum(c, p, r, k) <= k * bound by {
            assert(use_sum(c, p.drop_last(), r, k - 1) == use_sum(c, p, r, k - 1));
            assert(d.usage@[r] <= bound);
        }
    }
}


fn min_fee_of(s: &Vec<JointCand>) -> (r: u128)
    requires
        s@.len() > 0,
    ensures
        r == min_fee(s@),
{
    let mut m = s[0].fee;
    let mut i: usize = 1;
    proof {
        assert(s@.take(1).drop_last() =~= Seq::<JointCand>::empty());
        assert(min_fee(s@.take(1)) == s@[0].fee);
    }
    while i < s.len()
        invariant
            1 <= i <= s@.len(),
            m == min_fee(s@.take(i as int)),
        decreases s@.len() - i,
    {
        proof {
            assert(s@.take(i + 1).drop_last() =~= s@.take(i as int));
            assert(s@.take(i + 1).last() == s@[i as int]);
        }
        if s[i].fee < m {
            m = s[i].fee;
        }
        i += 1;
    }
    assert(s@.take(i as int) =~= s@);
    m
}

/// The optimal joint choice, or `None` exactly when no choice fits every budget.
pub fn select(c: &Vec<Vec<JointCand>>, caps: &Vec<Option<u64>>, Ghost(bound): Ghost<int>, Ghost(hop_bound): Ghost<int>) -> (r: Option<Best>)
    requires
        bounded(cands_view(*c), caps@.len() as int, bound, hop_bound),
    ensures
        r is None <==> !exists|x: Seq<usize>| #[trigger] feasible(cands_view(*c), caps@, x),
        r matches Some(b) ==> optimal(cands_view(*c), caps@, b.choice@) && best_ok(cands_view(*c), caps@, r),
{
    let ghost cs = cands_view(*c);
    let n = c.len();
    let mut i: usize = 0;
    while i < n
        invariant
            n == c@.len(),
            cs == cands_view(*c),
            i <= n,
            forall|q: int| 0 <= q < i ==> (#[trigger] c@[q])@.len() > 0,
        decreases n - i,
    {
        if c[i].len() == 0 {
            proof {
                assert forall|x: Seq<usize>| !feasible(cs, caps@, x) by {
                    if feasible(cs, caps@, x) {
                        assert(x[i as int] < cs[i as int].len());
                    }
                }
            }
            return None;
        }
        i += 1;
    }
    let mut remaining: Vec<u128> = Vec::new();
    remaining.push(0);
    let mut q: usize = 0;
    while q < n
        invariant
            q <= n,
            remaining@.len() == q + 1,
            forall|t: int| 0 <= t <= q ==> remaining@[t] == 0,
        decreases n - q,
    {
        remaining.push(0);
        q += 1;
    }
    proof {
        lemma_rem_bound(cs, n as int, caps@.len() as int, bound, hop_bound);
    }
    let mut k: usize = n;
    while k > 0
        invariant
            n == c@.len(),
            cs == cands_view(*c),
            bounded(cs, caps@.len() as int, bound, hop_bound),
            forall|t: int| 0 <= t < n ==> (#[trigger] c@[t])@.len() > 0,
            k <= n,
            remaining@.len() == n + 1,
            forall|t: int| k <= t <= n ==> #[trigger] remaining@[t] == rem(cs, t),
        decreases k,
    {
        let mfee = min_fee_of(&c[k - 1]);
        proof {
            lemma_rem_bound(cs, k - 1, caps@.len() as int, bound, hop_bound);
            lemma_rem_bound(cs, k as int, caps@.len() as int, bound, hop_bound);
            lemma_min_fee_bound(cs[k - 1], bound);
            lemma_mul_mono((n - (k - 1)) as int, n as int, bound);
            assert(cs[k - 1] == c@[k - 1]@);
        }
        let v = mfee + remaining[k];
        remaining.set(k - 1, v);
        k -= 1;
    }
    let mut prefix: Vec<usize> = Vec::new();
    let mut used: Vec<u128> = Vec::new();
    let mut t: usize = 0;
    while t < caps.len()
        invariant
            t <= caps@.len(),
            used@.len() == t,
            forall|z: int| 0 <= z < t ==> used@[z] == 0,
        decreases caps@.len() - t,
    {
        used.push(0);
        t += 1;
    }
    let mut best: Option<Best> = None;
    proof {
        assert forall|r: int| 0 <= r < caps@.len() implies #[trigger] used@[r] == use_sum(cs, prefix@, r, 0) by {}
        assert(fits_upto(cs, caps@, prefix@, 0));
    }
    visit(c, caps, &remaining, &mut prefix, &mut used, 0, 0, 0, &mut best, Ghost(bound), Ghost(hop_bound));
    proof {
        let e = Seq::<usize>::empty();
        assert(prefix@ == e);
        if best is None {
            assert forall|x: Seq<usize>| !feasible(cs, caps@, x) by {
                if feasible(cs, caps@, x) {
                    assert(x.take(0) =~= e);
                    assert(extends(x, e));
                }
            }
        } else {
            let bc = best->0.choice@;
            assert forall|y: Seq<usize>| #[trigger] feasible(cs, caps@, y) implies !better(cs, y, bc) by {
                assert(y.take(0) =~= e);
                assert(extends(y, e));
            }
        }
    }
    best
}

} // verus!
