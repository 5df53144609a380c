//! Exact, read-only joint routing for small synthetic USD payment batches.
use vstd::prelude::*;
use crate::network::{
    Network, NetworkView, Payment, PaymentView, ValidationError, ErrorView, texts, valid_network,
    is_institution, either, network_problem, all_ids_problem, payment_ids, payments_problem,
    rail_ids, first_problem, id_problems, id_problem_at, lemma_first_problem_stable, payment_problem,
};
use crate::routing::{
    Route, RouteHop, RouteView, HopView, Step, extends, feasible_walk, walk_ok, walk_nodes,
    walk_route, walk_hops, walk_fee, walk_minutes, within_deadline, step_ok, rail_admits, hop_views,
    hops_lt, hops_less, contains_text, copy_route, lemma_first_extra_step, lemma_extend_walk,
    lemma_no_extension_past_receiver, lemma_walk_sums_monotone, lemma_walk_nodes_institutions,
    lemma_distinct_institutions_bound, lemma_walk_fee_bound, lemma_u128_sum_bounds,
    lemma_hops_lt_irreflexive, lemma_hops_lt_transitive,
};
use crate::text::copy_string;
use crate::order::{Ordered, is_perm};
use crate::text::text_lt;
use crate::joint::{JointCand, Score3, score_lt};

verus! {

#[derive(Debug, Clone, PartialEq, Eq)]
pub struct PaymentRoute {
    pub payment_id: String,
    pub route: Route,
}

#[derive(Debug, Clone, PartialEq, Eq)]
pub struct RailUsage {
    pub rail_id: String,
    /// Sum of full payment principals over every hop using this rail.
    pub principal_cents: u128,
}

#[derive(Debug, Clone, PartialEq, Eq)]
pub struct BatchPlan {
    /// Exactly one unsplit route per supplied payment, sorted by payment ID.
    pub assignments: Vec<PaymentRoute>,
    /// All rails, including unused ones, sorted by rail ID.
    pub rail_usage: Vec<RailUsage>,
    pub total_fee_cents: u128,
    /// Sum of route latencies, not a batch completion time or schedule.
    pub total_settlement_minutes: u128,
}

// ---------------------------------------------------------------------------
// One payment's admissible walks under its own batch budgets.

/// How many steps of `w` use rail `r`.
pub open spec fn count_on(w: Seq<Step>, r: int) -> int
    decreases w.len(),
{
    if w.len() == 0 {
        0
    } else {
        count_on(w.drop_last(), r) + if w.last().rail == r { 1int } else { 0int }
    }
}

/// Principal each rail carries for a walk of payment `p`.
pub open spec fn usage_of(n: NetworkView, p: PaymentView, w: Seq<Step>) -> Seq<u128> {
    Seq::new(n.rails.len(), |r: int| (p.amount_cents * count_on(w, r)) as u128)
}

/// The walk alone stays within every static batch budget.
pub open spec fn own_fits(n: NetworkView, p: PaymentView, w: Seq<Step>) -> bool {
    forall|r: int|
        0 <= r < n.rails.len() && n.rails[r].batch_capacity_cents is Some ==> p.amount_cents * #[trigger] count_on(w, r)
            <= n.rails[r].batch_capacity_cents->0
}

pub open spec fn batch_walk(n: NetworkView, p: PaymentView, w: Seq<Step>) -> bool {
    feasible_walk(n, p, w) && own_fits(n, p, w)
}

/// A candidate route with the principal it places on each rail.
pub struct BatchCand {
    pub route: Route,
    pub usage: Vec<u128>,
}

pub open spec fn represents(n: NetworkView, p: PaymentView, c: BatchCand, w: Seq<Step>) -> bool {
    &&& batch_walk(n, p, w)
    &&& c.route@ == walk_route(n, p.sender, w)
    &&& c.usage@ == usage_of(n, p, w)
}

/// The candidate is some admissible walk.
pub open spec fn has_walk(n: NetworkView, p: PaymentView, c: BatchCand) -> bool {
    exists|w: Seq<Step>| #[trigger] represents(n, p, c, w)
}

pub open spec fn sound(n: NetworkView, p: PaymentView, answers: Seq<BatchCand>) -> bool {
    forall|j: int| 0 <= j < answers.len() ==> #[trigger] has_walk(n, p, answers[j])
}

pub open spec fn listed(n: NetworkView, p: PaymentView, answers: Seq<BatchCand>, w: Seq<Step>) -> bool {
    exists|j: int| 0 <= j < answers.len() && (#[trigger] answers[j]).route@ == walk_route(n, p.sender, w)
}

pub open spec fn enumerates(n: NetworkView, p: PaymentView, w0: Seq<Step>, answers: Seq<BatchCand>) -> bool {
    forall|w: Seq<Step>| #![trigger extends(w, w0)] extends(w, w0) && batch_walk(n, p, w) ==> listed(n, p, answers, w)
}

#[verifier::opaque]
pub open spec fn enumerated_below(
    n: NetworkView,
    p: PaymentView,
    w0: Seq<Step>,
    answers: Seq<BatchCand>,
    ri: int,
    done: Seq<Seq<char>>,
) -> bool {
    forall|w: Seq<Step>|
        #![trigger extends(w, w0)]
        extends(w, w0) && batch_walk(n, p, w) && w.len() > w0.len() && (w[w0.len() as int].rail < ri || (
        w[w0.len() as int].rail == ri && done.contains(w[w0.len() as int].to))) ==> listed(n, p, answers, w)
}

pub open spec fn grows(old: Seq<BatchCand>, new: Seq<BatchCand>) -> bool {
    old.len() <= new.len() && forall|j: int| 0 <= j < old.len() ==> #[trigger] new[j] == old[j]
}

// ---------------------------------------------------------------------------
// Lemmas.

pub proof fn lemma_count_push(w: Seq<Step>, s: Step, r: int)
    ensures
        count_on(w.push(s), r) == count_on(w, r) + if s.rail == r { 1int } else { 0int },
{
    assert(w.push(s).drop_last() =~= w);
}

pub proof fn lemma_count_bounds(w: Seq<Step>, r: int)
    ensures
        0 <= count_on(w, r) <= w.len(),
    decreases w.len(),
{
    if w.len() > 0 {
        lemma_count_bounds(w.drop_last(), r);
    }
}

pub proof fn lemma_count_prefix(w: Seq<Step>, prefix: Seq<Step>, r: int)
    requires
        extends(w, prefix),
    ensures
        count_on(prefix, r) <= count_on(w, r),
    decreases w.len(),
{
    if w.len() > prefix.len() {
        assert(w.drop_last().take(prefix.len() as int) =~= w.take(prefix.len() as int));
        lemma_count_prefix(w.drop_last(), prefix, r);
    } else {
        assert(w =~= prefix);
    }
}

proof fn lemma_sound_push(n: NetworkView, p: PaymentView, a: Seq<BatchCand>, c: BatchCand, w: Seq<Step>)
    requires
        sound(n, p, a),
        represents(n, p, c, w),
    ensures
        sound(n, p, a.push(c)),
{
    let b = a.push(c);
    assert forall|j: int| 0 <= j < b.len() implies #[trigger] has_walk(n, p, b[j]) by {
        if j < a.len() {
            assert(b[j] == a[j]);
            assert(has_walk(n, p, a[j]));
        } else {
            assert(represents(n, p, b[j], w));
        }
    }
}

proof fn lemma_listed_grows(n: NetworkView, p: PaymentView, a: Seq<BatchCand>, b: Seq<BatchCand>, w: Seq<Step>)
    requires
        listed(n, p, a, w),
        grows(a, b),
    ensures
        listed(n, p, b, w),
{
    let j = choose|j: int| 0 <= j < a.len() && (#[trigger] a[j]).route@ == walk_route(n, p.sender, w);
    assert(b[j] == a[j]);
}

proof fn lemma_grows_transitive(a: Seq<BatchCand>, b: Seq<BatchCand>, c: Seq<BatchCand>)
    requires
        grows(a, b),
        grows(b, c),
    ensures
        grows(a, c),
{
    assert forall|j: int| 0 <= j < a.len() implies #[trigger] c[j] == a[j] by {
        assert(b[j] == a[j]);
        assert(c[j] == b[j]);
    }
}

#[verifier::spinoff_prover]
#[verifier::rlimit(40)]
proof fn lemma_below_start(n: NetworkView, p: PaymentView, w0: Seq<Step>, a: Seq<BatchCand>)
    ensures
        enumerated_below(n, p, w0, a, 0, Seq::empty()),
{
    reveal(enumerated_below);
    assert forall|w: Seq<Step>|
        extends(w, w0) && batch_walk(n, p, w) && w.len() > w0.len() && (w[w0.len() as int].rail < 0 || (
        w[w0.len() as int].rail == 0 && Seq::<Seq<char>>::empty().contains(w[w0.len() as int].to)))
        implies #[trigger] listed(n, p, a, w) by {
        assert(step_ok(n, p, walk_nodes(p.sender, w)[w0.len() as int], w[w0.len() as int]));
    }
}

#[verifier::spinoff_prover]
#[verifier::rlimit(40)]
proof fn lemma_below_grows(
    n: NetworkView,
    p: PaymentView,
    w0: Seq<Step>,
    a: Seq<BatchCand>,
    b: Seq<BatchCand>,
    ri: int,
    done: Seq<Seq<char>>,
)
    requires
        enumerated_below(n, p, w0, a, ri, done),
        grows(a, b),
    ensures
        enumerated_below(n, p, w0, b, ri, done),
{
    reveal(enumerated_below);
    assert forall|w: Seq<Step>|
        extends(w, w0) && batch_walk(n, p, w) && w.len() > w0.len() && (w[w0.len() as int].rail < ri || (
        w[w0.len() as int].rail == ri && done.contains(w[w0.len() as int].to))) implies #[trigger] listed(
        n,
        p,
        b,
        w,
    ) by {
        assert(extends(w, w0));
        lemma_listed_grows(n, p, a, b, w);
    }
}

/// No admissible walk leaves `w0` on rail `ri`.
#[verifier::spinoff_prover]
#[verifier::rlimit(40)]
proof fn lemma_below_skip_rail(n: NetworkView, p: PaymentView, w0: Seq<Step>, a: Seq<BatchCand>, ri: int)
    requires
        enumerated_below(n, p, w0, a, ri, Seq::empty()),
        0 <= ri < n.rails.len(),
        forall|w: Seq<Step>|
            #![trigger extends(w, w0)]
            extends(w, w0) && batch_walk(n, p, w) && w.len() > w0.len() ==> w[w0.len() as int].rail != ri,
    ensures
        enumerated_below(n, p, w0, a, ri + 1, Seq::empty()),
{
    reveal(enumerated_below);
    assert forall|w: Seq<Step>|
        extends(w, w0) && batch_walk(n, p, w) && w.len() > w0.len() && (w[w0.len() as int].rail < ri + 1 || (
        w[w0.len() as int].rail == ri + 1 && Seq::<Seq<char>>::empty().contains(w[w0.len() as int].to)))
        implies #[trigger] listed(n, p, a, w) by {
        assert(extends(w, w0));
    }
}

#[verifier::spinoff_prover]
#[verifier::rlimit(40)]
proof fn lemma_below_next_rail(n: NetworkView, p: PaymentView, w0: Seq<Step>, a: Seq<BatchCand>, ri: int)
    requires
        enumerated_below(n, p, w0, a, ri, n.rails[ri].participants),
        0 <= ri < n.rails.len(),
    ensures
        enumerated_below(n, p, w0, a, ri + 1, Seq::empty()),
{
    reveal(enumerated_below);
    assert forall|w: Seq<Step>|
        extends(w, w0) && batch_walk(n, p, w) && w.len() > w0.len() && (w[w0.len() as int].rail < ri + 1 || (
        w[w0.len() as int].rail == ri + 1 && Seq::<Seq<char>>::empty().contains(w[w0.len() as int].to)))
        implies #[trigger] listed(n, p, a, w) by {
        lemma_first_extra_step(n, p, w0, w);
    }
}

#[verifier::spinoff_prover]
#[verifier::rlimit(40)]
proof fn lemma_below_skip_member(
    n: NetworkView,
    p: PaymentView,
    w0: Seq<Step>,
    a: Seq<BatchCand>,
    ri: int,
    members: Seq<Seq<char>>,
    k: int,
)
    requires
        enumerated_below(n, p, w0, a, ri, members.take(k)),
        0 <= k < members.len(),
        walk_nodes(p.sender, w0).contains(members[k]),
    ensures
        enumerated_below(n, p, w0, a, ri, members.take(k + 1)),
{
    reveal(enumerated_below);
    assert forall|w: Seq<Step>|
        extends(w, w0) && batch_walk(n, p, w) && w.len() > w0.len() && (w[w0.len() as int].rail < ri || (
        w[w0.len() as int].rail == ri && members.take(k + 1).contains(w[w0.len() as int].to))) implies #[trigger] listed(
        n,
        p,
        a,
        w,
    ) by {
        lemma_first_extra_step(n, p, w0, w);
        let t = w[w0.len() as int].to;
        if w[w0.len() as int].rail == ri {
            let kk = choose|kk: int| 0 <= kk < k + 1 && #[trigger] members.take(k + 1)[kk] == t;
            if kk < k {
                assert(members.take(k)[kk] == t);
            }
        }
    }
}

#[verifier::spinoff_prover]
#[verifier::rlimit(40)]
proof fn lemma_below_after_call(
    n: NetworkView,
    p: PaymentView,
    w0: Seq<Step>,
    a0: Seq<BatchCand>,
    a: Seq<BatchCand>,
    ri: int,
    members: Seq<Seq<char>>,
    k: int,
)
    requires
        enumerated_below(n, p, w0, a0, ri, members.take(k)),
        0 <= k < members.len(),
        grows(a0, a),
        enumerates(n, p, w0.push(Step { rail: ri, to: members[k] }), a),
    ensures
        enumerated_below(n, p, w0, a, ri, members.take(k + 1)),
{
    reveal(enumerated_below);
    let s = Step { rail: ri, to: members[k] };
    let w1 = w0.push(s);
    assert forall|w: Seq<Step>|
        extends(w, w0) && batch_walk(n, p, w) && w.len() > w0.len() && (w[w0.len() as int].rail < ri || (
        w[w0.len() as int].rail == ri && members.take(k + 1).contains(w[w0.len() as int].to))) implies #[trigger] listed(
        n,
        p,
        a,
        w,
    ) by {
        let t = w[w0.len() as int].to;
        if w[w0.len() as int].rail == ri && t == members[k] {
            lemma_first_extra_step(n, p, w0, w);
            assert(w[w0.len() as int] == s);
            assert(w.take(w1.len() as int) =~= w1);
            assert(extends(w, w1));
        } else {
            if w[w0.len() as int].rail == ri {
                let kk = choose|kk: int| 0 <= kk < k + 1 && #[trigger] members.take(k + 1)[kk] == t;
                if kk < k {
                    assert(members.take(k)[kk] == t);
                }
            }
            assert(listed(n, p, a0, w));
            lemma_listed_grows(n, p, a0, a, w);
        }
    }
}

#[verifier::spinoff_prover]
#[verifier::rlimit(40)]
proof fn lemma_below_all(n: NetworkView, p: PaymentView, w0: Seq<Step>, a: Seq<BatchCand>)
    requires
        enumerated_below(n, p, w0, a, n.rails.len() as int, Seq::empty()),
        walk_nodes(p.sender, w0).last() != p.receiver,
    ensures
        enumerates(n, p, w0, a),
{
    reveal(enumerated_below);
    assert forall|w: Seq<Step>| extends(w, w0) && batch_walk(n, p, w) implies #[trigger] listed(n, p, a, w) by {
        if w.len() == w0.len() {
            assert(w =~= w0);
        } else {
            lemma_first_extra_step(n, p, w0, w);
        }
    }
}

proof fn lemma_usage_push(n: NetworkView, p: PaymentView, w0: Seq<Step>, s: Step)
    requires
        0 <= s.rail < n.rails.len(),
    ensures
        usage_of(n, p, w0.push(s)) == usage_of(n, p, w0).update(
            s.rail,
            (p.amount_cents * (count_on(w0, s.rail) + 1)) as u128,
        ),
{
    let a = usage_of(n, p, w0.push(s));
    let b = usage_of(n, p, w0).update(s.rail, (p.amount_cents * (count_on(w0, s.rail) + 1)) as u128);
    assert forall|r: int| 0 <= r < n.rails.len() implies a[r] == b[r] by {
        lemma_count_push(w0, s, r);
    }
    assert(a =~= b);
}

proof fn lemma_principal_bound(amount: u64, count: int, len: int)
    requires
        0 <= count <= len,
        len < 0x1_0000_0000_0000_0000,
    ensures
        0 <= amount * count <= u128::MAX,
        amount * count + amount == amount * (count + 1),
{
    assert(amount * count <= 0xffff_ffff_ffff_ffff * 0xffff_ffff_ffff_ffff) by (nonlinear_arith)
        requires
            0 <= count < 0x1_0000_0000_0000_0000,
            amount <= 0xffff_ffff_ffff_ffff,
    ;
    assert(amount * count + amount == amount * (count + 1)) by (nonlinear_arith);
    assert(0 <= amount * count) by (nonlinear_arith)
        requires
            0 <= count,
    ;
}


fn copy_u128s(v: &Vec<u128>) -> (r: Vec<u128>)
    ensures
        r@ == v@,
{
    let mut r: Vec<u128> = Vec::new();
    let mut i: usize = 0;
    while i < v.len()
        invariant
            i <= v@.len(),
            r@ == v@.take(i as int),
        decreases v@.len() - i,
    {
        r.push(v[i]);
        assert(v@.take(i + 1) =~= v@.take(i as int).push(v@[i as int]));
        i += 1;
    }
    assert(v@.take(i as int) =~= v@);
    r
}

/// Depth-first enumeration of one payment's admissible simple walks. On return
/// `visited`, `path` and `usage` are as on entry, earlier answers are kept, every
/// answer represents an admissible walk, and every admissible completion of the
/// walk so far is listed.
#[verifier::spinoff_prover]
#[verifier::rlimit(80)]
fn visit_paths(
    network: &Network,
    current: &String,
    payment: &Payment,
    visited: &mut Vec<String>,
    path: &mut Route,
    usage: &mut Vec<u128>,
    answers: &mut Vec<BatchCand>,
    Ghost(w0): Ghost<Seq<Step>>,
)
    requires
        valid_network(network@),
        is_institution(network@, payment@.sender),
        walk_ok(network@, payment@, w0),
        within_deadline(payment@, walk_minutes(network@, w0)),
        own_fits(network@, payment@, w0),
        texts(old(visited)@) == walk_nodes(payment@.sender, w0),
        current@ == walk_nodes(payment@.sender, w0).last(),
        old(path)@ == walk_route(network@, payment@.sender, w0),
        old(usage)@ == usage_of(network@, payment@, w0),
        sound(network@, payment@, old(answers)@),
    ensures
        final(visited)@ == old(visited)@,
        final(path)@ == old(path)@,
        final(usage)@ == old(usage)@,
        grows(old(answers)@, final(answers)@),
        sound(network@, payment@, final(answers)@),
        enumerates(network@, payment@, w0, final(answers)@),
    decreases network.institutions.len() - old(visited)@.len(),
{
    let ghost n = network@;
    let ghost p = payment@;
    let ghost nodes0 = walk_nodes(p.sender, w0);
    let ghost a0 = answers@;
    proof {
        lemma_walk_nodes_institutions(n, p, w0);
        lemma_distinct_institutions_bound(n, nodes0);
        lemma_walk_fee_bound(n, w0);
    }
    if same_text_ref(current, &payment.receiver) {
        let cand = BatchCand { route: copy_route(path), usage: copy_u128s(usage) };
        proof {
            assert(feasible_walk(n, p, w0));
            assert(represents(n, p, cand, w0));
        }
        answers.push(cand);
        proof {
            assert(answers@ == a0.push(cand));
            lemma_sound_push(n, p, a0, cand, w0);
            assert forall|w: Seq<Step>| extends(w, w0) && batch_walk(n, p, w) implies #[trigger] listed(n, p, answers@, w) by {
                lemma_no_extension_past_receiver(n, p, w0, w);
                assert(answers@[a0.len() as int].route@ == walk_route(n, p.sender, w));
            }
        }
        return;
    }
    proof {
        lemma_below_start(n, p, w0, answers@);
    }
    let mut ri: usize = 0;
    while ri < network.rails.len()
        invariant
            n == network@,
            p == payment@,
            valid_network(n),
            is_institution(n, p.sender),
            walk_ok(n, p, w0),
            within_deadline(p, walk_minutes(n, w0)),
            own_fits(n, p, w0),
            nodes0 == walk_nodes(p.sender, w0),
            nodes0.last() != p.receiver,
            texts(visited@) == nodes0,
            visited@ == old(visited)@,
            current@ == nodes0.last(),
            path@ == walk_route(n, p.sender, w0),
            path@ == old(path)@,
            usage@ == old(usage)@,
            usage@ == usage_of(n, p, w0),
            nodes0.len() <= n.institutions.len(),
            walk_fee(n, w0) <= w0.len() * 0xffff_ffff_ffff_ffff,
            walk_minutes(n, w0) <= w0.len() * 0xffff_ffff,
            ri <= network.rails.len(),
            a0 == old(answers)@,
            grows(a0, answers@),
            sound(n, p, answers@),
            enumerated_below(n, p, w0, answers@, ri as int, Seq::empty()),
        decreases network.rails.len() - ri,
    {
        let rail = &network.rails[ri];
        let ghost r = n.rails[ri as int];
        assert(r == rail@);
        let on_rail = contains_text(&rail.participants, current);
        let admits = rail.available && match rail.max_amount_cents {
            Some(limit) => payment.amount_cents <= limit,
            None => true,
        };
        let amount = payment.amount_cents as u128;
        proof {
            lemma_count_bounds(w0, ri as int);
            lemma_principal_bound(payment.amount_cents, count_on(w0, ri as int), n.institutions.len() as int);
            assert(usage@[ri as int] == (p.amount_cents * count_on(w0, ri as int)) as u128);
        }
        let within_budget = match rail.batch_capacity_cents {
            Some(cap) => usage[ri] + amount <= cap as u128,
            None => true,
        };
        let elapsed = path.total_settlement_minutes + rail.settlement_minutes as u128;
        let timely = match payment.max_delivery_minutes {
            Some(d) => elapsed <= d as u128,
            None => true,
        };
        if admits && on_rail && within_budget && timely {
            proof {
                assert(r.participants.take(0) =~= Seq::<Seq<char>>::empty());
            }
            let mut k: usize = 0;
            while k < rail.participants.len()
                invariant
                    n == network@,
                    p == payment@,
                    valid_network(n),
                    is_institution(n, p.sender),
                    walk_ok(n, p, w0),
                    within_deadline(p, walk_minutes(n, w0)),
                    own_fits(n, p, w0),
                    nodes0 == walk_nodes(p.sender, w0),
                    nodes0.last() != p.receiver,
                    texts(visited@) == nodes0,
                    visited@ == old(visited)@,
                    current@ == nodes0.last(),
                    path@ == walk_route(n, p.sender, w0),
                    path@ == old(path)@,
                    usage@ == old(usage)@,
                    usage@ == usage_of(n, p, w0),
                    nodes0.len() <= n.institutions.len(),
                    walk_fee(n, w0) <= w0.len() * 0xffff_ffff_ffff_ffff,
                    walk_minutes(n, w0) <= w0.len() * 0xffff_ffff,
                    ri < network.rails.len(),
                    rail == &network.rails[ri as int],
                    r == rail@,
                    rail_admits(r, p.amount_cents),
                    r.participants.contains(current@),
                    amount == p.amount_cents,
                    r.batch_capacity_cents matches Some(cap) ==> usage@[ri as int] + amount <= cap,
                    elapsed == walk_minutes(n, w0) + r.settlement_minutes,
                    within_deadline(p, elapsed as int),
                    k <= rail.participants.len(),
                    a0 == old(answers)@,
                    grows(a0, answers@),
                    sound(n, p, answers@),
                    enumerated_below(n, p, w0, answers@, ri as int, r.participants.take(k as int)),
                decreases rail.participants.len() - k,
            {
                let next = &rail.participants[k];
                let ghost s = Step { rail: ri as int, to: next@ };
                let ghost w1 = w0.push(s);
                assert(r.participants[k as int] == next@);
                if !contains_text(visited, next) {
                    proof {
                        assert(n.institutions.len() == network.institutions@.len());
                        lemma_extend_walk(n, p, w0, s);
                        lemma_u128_sum_bounds(w0.len() as int);
                        lemma_usage_push(n, p, w0, s);
                        lemma_count_bounds(w0, ri as int);
                        lemma_principal_bound(payment.amount_cents, count_on(w0, ri as int), w1.len() as int);
                        lemma_principal_bound(payment.amount_cents, count_on(w0, ri as int) + 1, w1.len() as int);
                        assert(usage@[ri as int] == p.amount_cents * count_on(w0, ri as int));
                        assert forall|q: int| 0 <= q < n.rails.len() && n.rails[q].batch_capacity_cents is Some implies p.amount_cents * #[trigger] count_on(w1, q)
                            <= n.rails[q].batch_capacity_cents->0 by {
                            lemma_count_push(w0, s, q);
                        }
                    }
                    visited.push(copy_string(next));
                    path.hops.push(
                        RouteHop {
                            rail_id: copy_string(&rail.id),
                            sender: copy_string(current),
                            receiver: copy_string(next),
                        },
                    );
                    path.total_fee_cents = path.total_fee_cents + rail.fee_cents as u128;
                    path.total_settlement_minutes = elapsed;
                    let before = usage[ri];
                    usage.set(ri, before + amount);
                    proof {
                        assert(texts(visited@) =~= walk_nodes(p.sender, w1));
                        assert(path@.hops =~= walk_hops(n, p.sender, w1));
                        assert(usage@ =~= usage_of(n, p, w1));
                    }
                    let ghost before_answers = answers@;
                    let ghost pushed_hops = path.hops@;
                    visit_paths(network, next, payment, visited, path, usage, answers, Ghost(w1));
                    let ghost returned_hops = path.hops@;
                    proof {
                        lemma_below_after_call(n, p, w0, before_answers, answers@, ri as int, r.participants, k as int);
                        lemma_grows_transitive(a0, before_answers, answers@);
                    }
                    usage.set(ri, before);
                    path.total_settlement_minutes = path.total_settlement_minutes - rail.settlement_minutes as u128;
                    path.total_fee_cents = path.total_fee_cents - rail.fee_cents as u128;
                    path.hops.pop();
                    visited.pop();
                    proof {
                        assert(visited@ =~= old(visited)@);
                        assert(usage@ =~= old(usage)@);
                        assert(hop_views(returned_hops) == hop_views(pushed_hops));
                        assert(path.hops@ =~= returned_hops.drop_last());
                        assert(hop_views(pushed_hops).drop_last() =~= old(path)@.hops);
                        assert(hop_views(returned_hops.drop_last()) =~= hop_views(returned_hops).drop_last());
                        assert(path@.hops =~= old(path)@.hops);
                    }
                } else {
                    proof {
                        lemma_below_skip_member(n, p, w0, answers@, ri as int, r.participants, k as int);
                    }
                }
                k += 1;
            }
            proof {
                assert(r.participants.take(rail.participants@.len() as int) =~= r.participants);
                lemma_below_next_rail(n, p, w0, answers@, ri as int);
            }
        } else {
            proof {
                assert forall|w: Seq<Step>|
                    #![trigger extends(w, w0)]
                    extends(w, w0) && batch_walk(n, p, w) && w.len() > w0.len() implies w[w0.len() as int].rail != ri by {
                    if w[w0.len() as int].rail == ri {
                        lemma_first_extra_step(n, p, w0, w);
                        let s = w[w0.len() as int];
                        let w1 = w0.push(s);
                        assert(w.take(w1.len() as int) =~= w1);
                        assert(extends(w, w1));
                        lemma_count_push(w0, s, ri as int);
                        lemma_count_prefix(w, w1, ri as int);
                        lemma_walk_sums_monotone(n, w, w1);
                        assert(w1.drop_last() =~= w0);
                        assert(walk_minutes(n, w1) == walk_minutes(n, w0) + r.settlement_minutes);
                        if r.batch_capacity_cents is Some {
                            assert(p.amount_cents * count_on(w, ri as int) >= p.amount_cents * count_on(w1, ri as int)) by (nonlinear_arith)
                                requires
                                    count_on(w, ri as int) >= count_on(w1, ri as int),
                            ;
                        }
                    }
                }
                lemma_below_skip_rail(n, p, w0, answers@, ri as int);
            }
        }
        ri += 1;
    }
    proof {
        lemma_below_all(n, p, w0, answers@);
    }
}

fn same_text_ref(a: &String, b: &String) -> (r: bool)
    ensures
        r == (a@ == b@),
{
    crate::text::same_text(a, b)
}


// ---------------------------------------------------------------------------
// Joint assignments.

/// Principal that the first `k` payments place on rail `r`.
pub open spec fn joint_use(qs: Seq<PaymentView>, ws: Seq<Seq<Step>>, r: int, k: int) -> int
    decreases k,
{
    if k <= 0 {
        0
    } else {
        joint_use(qs, ws, r, k - 1) + qs[k - 1].amount_cents * count_on(ws[k - 1], r)
    }
}

/// One feasible route per payment, together within every static batch budget.
pub open spec fn assignment_ok(n: NetworkView, qs: Seq<PaymentView>, ws: Seq<Seq<Step>>) -> bool {
    &&& ws.len() == qs.len()
    &&& forall|i: int| 0 <= i < ws.len() ==> #[trigger] feasible_walk(n, qs[i], ws[i])
    &&& forall|r: int|
        0 <= r < n.rails.len() && n.rails[r].batch_capacity_cents is Some ==> #[trigger] joint_use(
            qs,
            ws,
            r,
            ws.len() as int,
        ) <= n.rails[r].batch_capacity_cents->0
}

pub open spec fn sum_fee(n: NetworkView, ws: Seq<Seq<Step>>, k: int) -> int
    decreases k,
{
    if k <= 0 {
        0
    } else {
        sum_fee(n, ws, k - 1) + walk_fee(n, ws[k - 1])
    }
}

pub open spec fn sum_minutes(n: NetworkView, ws: Seq<Seq<Step>>, k: int) -> int
    decreases k,
{
    if k <= 0 {
        0
    } else {
        sum_minutes(n, ws, k - 1) + walk_minutes(n, ws[k - 1])
    }
}

pub open spec fn sum_hops(ws: Seq<Seq<Step>>, k: int) -> int
    decreases k,
{
    if k <= 0 {
        0
    } else {
        sum_hops(ws, k - 1) + ws[k - 1].len()
    }
}

pub open spec fn batch_score(n: NetworkView, ws: Seq<Seq<Step>>) -> Score3 {
    Score3 {
        fee: sum_fee(n, ws, ws.len() as int),
        elapsed: sum_minutes(n, ws, ws.len() as int),
        hops: sum_hops(ws, ws.len() as int),
    }
}

/// The hop sequences, compared payment by payment in order.
pub open spec fn hops_tuple_lt(n: NetworkView, qs: Seq<PaymentView>, a: Seq<Seq<Step>>, b: Seq<Seq<Step>>) -> bool {
    exists|k: int|
        #![trigger a[k], b[k]]
        0 <= k < a.len() && k < b.len() && (forall|j: int|
            0 <= j < k ==> walk_hops(n, qs[j].sender, a[j]) == walk_hops(n, qs[j].sender, b[j])) && hops_lt(
            walk_hops(n, qs[k].sender, a[k]),
            walk_hops(n, qs[k].sender, b[k]),
        )
}

/// Lower total fee, then total latency, then total hops, then the hop sequences.
pub open spec fn batch_better(n: NetworkView, qs: Seq<PaymentView>, a: Seq<Seq<Step>>, b: Seq<Seq<Step>>) -> bool {
    score_lt(batch_score(n, a), batch_score(n, b)) || (batch_score(n, a) == batch_score(n, b) && hops_tuple_lt(
        n,
        qs,
        a,
        b,
    ))
}

/// A feasible joint assignment that no feasible assignment beats.
pub open spec fn batch_optimal(n: NetworkView, qs: Seq<PaymentView>, ws: Seq<Seq<Step>>) -> bool {
    &&& assignment_ok(n, qs, ws)
    &&& forall|ws2: Seq<Seq<Step>>| #[trigger] assignment_ok(n, qs, ws2) ==> !batch_better(n, qs, ws2, ws)
}

/// What `optimize_batch` refuses: the network, the batch's identifiers, then
/// each instruction in order.
pub open spec fn batch_problem(n: NetworkView, ps: Seq<PaymentView>) -> Option<ErrorView> {
    either(
        network_problem(n),
        either(all_ids_problem("batch payment"@, payment_ids(ps)), payments_problem(n, ps, ps.len() as int)),
    )
}

pub open spec fn views(payments: Seq<Payment>) -> Seq<PaymentView> {
    payments.map_values(|p: Payment| p@)
}

/// The payments in the order `order` names them.
pub open spec fn reorder(ps: Seq<PaymentView>, order: Seq<usize>) -> Seq<PaymentView> {
    Seq::new(order.len(), |k: int| ps[order[k] as int])
}

/// `order` puts the payments in identifier order.
pub open spec fn id_sorted(ps: Seq<PaymentView>, order: Seq<usize>) -> bool {
    &&& is_perm(order, ps.len() as int)
    &&& forall|a: int, b: int|
        0 <= a < b < order.len() ==> !text_lt(ps[(#[trigger] order[b]) as int].id, ps[(#[trigger] order[a]) as int].id)
}

/// The plan reports the assignment `ws` of the payments `qs`: their routes in
/// order, the totals, and every rail's principal in rail-identifier order.
pub open spec fn plan_reports(n: NetworkView, qs: Seq<PaymentView>, ws: Seq<Seq<Step>>, plan: BatchPlan) -> bool {
    &&& plan.assignments@.len() == qs.len()
    &&& forall|i: int|
        0 <= i < qs.len() ==> (#[trigger] plan.assignments@[i]).payment_id@ == qs[i].id
            && plan.assignments@[i].route@ == walk_route(n, qs[i].sender, ws[i])
    &&& plan.total_fee_cents == batch_score(n, ws).fee
    &&& plan.total_settlement_minutes == batch_score(n, ws).elapsed
    &&& plan.rail_usage@.len() == n.rails.len()
    &&& exists|rails: Seq<usize>|
        #[trigger] is_perm(rails, n.rails.len() as int) && forall|k: int|
            0 <= k < rails.len() ==> (#[trigger] plan.rail_usage@[k]).rail_id@ == n.rails[rails[k] as int].id
                && plan.rail_usage@[k].principal_cents == joint_use(qs, ws, rails[k] as int, qs.len() as int)
                && (k > 0 ==> !text_lt(n.rails[rails[k] as int].id, n.rails[rails[k - 1] as int].id))
}

impl Ordered for BatchCand {
    open spec fn precedes(&self, other: &Self) -> bool {
        hops_lt(self.route@.hops, other.route@.hops)
    }

    fn before(&self, other: &Self) -> (r: bool) {
        hops_less(&self.route.hops, &other.route.hops)
    }

    proof fn precedes_irreflexive(a: Self) {
        lemma_hops_lt_irreflexive(a.route@.hops);
    }

    proof fn precedes_transitive(a: Self, b: Self, c: Self) {
        lemma_hops_lt_transitive(a.route@.hops, b.route@.hops, c.route@.hops);
    }
}

/// Identifiers that pass validation are distinct.
pub proof fn lemma_ids_distinct(kind: Seq<char>, ids: Seq<Seq<char>>)
    requires
        all_ids_problem(kind, ids) is None,
    ensures
        forall|a: int, b: int| 0 <= a < b < ids.len() ==> (#[trigger] ids[a]) != (#[trigger] ids[b]),
{
    assert forall|a: int, b: int| 0 <= a < b < ids.len() implies (#[trigger] ids[a]) != (#[trigger] ids[b]) by {
        if ids[a] == ids[b] {
            assert(ids.take(b)[a] == ids[b]);
            if first_problem(id_problems(kind, ids), b) is None {
                assert(id_problem_at(kind, ids, b) is Some);
                assert(first_problem(id_problems(kind, ids), b + 1) is Some);
                lemma_first_problem_stable(id_problems(kind, ids), b + 1, ids.len() as int);
            } else {
                lemma_first_problem_stable(id_problems(kind, ids), b, ids.len() as int);
            }
        }
    }
}

/// In a valid network a route determines its walk.
pub proof fn lemma_walk_hops_injective(n: NetworkView, from: Seq<char>, a: Seq<Step>, b: Seq<Step>)
    requires
        valid_network(n),
        walk_hops(n, from, a) == walk_hops(n, from, b),
        forall|k: int| 0 <= k < a.len() ==> 0 <= (#[trigger] a[k]).rail < n.rails.len(),
        forall|k: int| 0 <= k < b.len() ==> 0 <= (#[trigger] b[k]).rail < n.rails.len(),
    ensures
        a == b,
{
    lemma_ids_distinct("rail"@, rail_ids(n));
    let ha = walk_hops(n, from, a);
    let hb = walk_hops(n, from, b);
    assert(ha.len() == hb.len());
    assert forall|k: int| 0 <= k < a.len() implies a[k] == b[k] by {
        assert(ha[k] == hb[k]);
        assert(rail_ids(n)[a[k].rail] == n.rails[a[k].rail].id);
        assert(rail_ids(n)[b[k].rail] == n.rails[b[k].rail].id);
        if a[k].rail < b[k].rail {
            assert(rail_ids(n)[a[k].rail] != rail_ids(n)[b[k].rail]);
        } else if a[k].rail > b[k].rail {
            assert(rail_ids(n)[b[k].rail] != rail_ids(n)[a[k].rail]);
        }
    }
    assert(a =~= b);
}


// ---------------------------------------------------------------------------
// From candidate lists to joint assignments.

/// Candidate lists for `qs`: each entry an admissible walk, every admissible walk
/// listed, each list in hop order, and the joint view carrying the same costs.
pub open spec fn linked(
    n: NetworkView,
    qs: Seq<PaymentView>,
    cs: Seq<Seq<BatchCand>>,
    jc: Seq<Seq<JointCand>>,
    caps: Seq<Option<u64>>,
) -> bool {
    &&& valid_network(n)
    &&& n.institutions.len() <= usize::MAX
    &&& forall|i: int| 0 <= i < qs.len() ==> #[trigger] payment_problem(n, qs[i]) is None
    &&& cs.len() == qs.len()
    &&& jc.len() == qs.len()
    &&& caps.len() == n.rails.len()
    &&& forall|r: int| 0 <= r < caps.len() ==> #[trigger] caps[r] == n.rails[r].batch_capacity_cents
    &&& forall|i: int| 0 <= i < cs.len() ==> (#[trigger] cs[i]).len() == jc[i].len() && cs[i].len() <= usize::MAX
    &&& forall|i: int| 0 <= i < cs.len() ==> sound(n, qs[i], #[trigger] cs[i])
    &&& forall|i: int| 0 <= i < cs.len() ==> crate::order::ordered(#[trigger] cs[i])
    &&& forall|i: int, w: Seq<Step>|
        0 <= i < cs.len() && #[trigger] batch_walk(n, qs[i], w) ==> listed(n, qs[i], cs[i], w)
    &&& forall|i: int, j: int|
        0 <= i < cs.len() && 0 <= j < cs[i].len() ==> {
            let c = #[trigger] cs[i][j];
            let d = jc[i][j];
            &&& d.fee == c.route.total_fee_cents
            &&& d.elapsed == c.route.total_settlement_minutes
            &&& d.hops == c.route.hops@.len()
            &&& d.usage@ == c.usage@
        }
}

pub open spec fn walk_at(n: NetworkView, qs: Seq<PaymentView>, cs: Seq<Seq<BatchCand>>, i: int, j: int) -> Seq<Step> {
    choose|w: Seq<Step>| #[trigger] represents(n, qs[i], cs[i][j], w)
}

pub open spec fn ws_of(n: NetworkView, qs: Seq<PaymentView>, cs: Seq<Seq<BatchCand>>, x: Seq<usize>) -> Seq<Seq<Step>> {
    Seq::new(x.len(), |i: int| walk_at(n, qs, cs, i, x[i] as int))
}

proof fn lemma_walk_at(n: NetworkView, qs: Seq<PaymentView>, cs: Seq<Seq<BatchCand>>, jc: Seq<Seq<JointCand>>, caps: Seq<Option<u64>>, i: int, j: int)
    requires
        linked(n, qs, cs, jc, caps),
        0 <= i < cs.len(),
        0 <= j < cs[i].len(),
    ensures
        represents(n, qs[i], cs[i][j], walk_at(n, qs, cs, i, j)),
{
    assert(sound(n, qs[i], cs[i]));
    assert(has_walk(n, qs[i], cs[i][j]));
}

proof fn lemma_joint_use_nonneg(qs: Seq<PaymentView>, ws: Seq<Seq<Step>>, r: int, k: int)
    requires
        k <= ws.len(),
        k <= qs.len(),
    ensures
        joint_use(qs, ws, r, k) >= 0,
    decreases k,
{
    if k > 0 {
        lemma_joint_use_nonneg(qs, ws, r, k - 1);
        lemma_count_bounds(ws[k - 1], r);
        assert(qs[k - 1].amount_cents * count_on(ws[k - 1], r) >= 0) by (nonlinear_arith)
            requires
                count_on(ws[k - 1], r) >= 0,
        ;
    }
}

proof fn lemma_joint_use_term(qs: Seq<PaymentView>, ws: Seq<Seq<Step>>, r: int, i: int, k: int)
    requires
        0 <= i < k <= ws.len(),
        k <= qs.len(),
    ensures
        qs[i].amount_cents * count_on(ws[i], r) <= joint_use(qs, ws, r, k),
    decreases k,
{
    lemma_count_bounds(ws[k - 1], r);
    assert(qs[k - 1].amount_cents * count_on(ws[k - 1], r) >= 0) by (nonlinear_arith)
        requires
            count_on(ws[k - 1], r) >= 0,
    ;
    if i < k - 1 {
        lemma_joint_use_term(qs, ws, r, i, k - 1);
    } else {
        lemma_joint_use_nonneg(qs, ws, r, k - 1);
    }
}

proof fn lemma_sums_match(
    n: NetworkView,
    qs: Seq<PaymentView>,
    cs: Seq<Seq<BatchCand>>,
    jc: Seq<Seq<JointCand>>,
    caps: Seq<Option<u64>>,
    x: Seq<usize>,
    k: int,
)
    requires
        linked(n, qs, cs, jc, caps),
        crate::joint::valid_choice(jc, x),
        0 <= k <= x.len(),
    ensures
        crate::joint::fee_sum(jc, x, k) == sum_fee(n, ws_of(n, qs, cs, x), k),
        crate::joint::elapsed_sum(jc, x, k) == sum_minutes(n, ws_of(n, qs, cs, x), k),
        crate::joint::hops_sum(jc, x, k) == sum_hops(ws_of(n, qs, cs, x), k),
        forall|r: int| 0 <= r < n.rails.len() ==> #[trigger] crate::joint::use_sum(jc, x, r, k) == joint_use(qs, ws_of(n, qs, cs, x), r, k),
    decreases k,
{
    if k > 0 {
        lemma_sums_match(n, qs, cs, jc, caps, x, k - 1);
        let i = k - 1;
        let j = x[i] as int;
        assert(cs[i].len() == jc[i].len());
        lemma_walk_at(n, qs, cs, jc, caps, i, j);
        let w = walk_at(n, qs, cs, i, j);
        let ws = ws_of(n, qs, cs, x);
        assert(ws[i] == w);
        let c = cs[i][j];
        assert(jc[i][j].usage@ == c.usage@);
        assert(c.route@.hops.len() == c.route.hops@.len());
        assert(walk_route(n, qs[i].sender, w).hops.len() == w.len());
        assert forall|r: int| 0 <= r < n.rails.len() implies #[trigger] crate::joint::use_sum(jc, x, r, k) == joint_use(qs, ws, r, k) by {
            assert(crate::joint::use_sum(jc, x, r, k - 1) == joint_use(qs, ws, r, k - 1));
            assert(c.usage@ == usage_of(n, qs[i], w));
            lemma_count_bounds(w, r);
            assert(qs[i].amount_cents * count_on(w, r) <= u128::MAX) by {
                assert(c.usage@[r] == (qs[i].amount_cents * count_on(w, r)) as u128);
                assert(payment_problem(n, qs[i]) is None);
                lemma_walk_len_bound(n, qs[i], w);
                lemma_principal_bound(qs[i].amount_cents, count_on(w, r), w.len() as int);
            }
        }
    }
}

/// A walk of a valid network visits distinct institutions, so it is shorter than
/// there are institutions.
proof fn lemma_walk_len_bound(n: NetworkView, p: PaymentView, w: Seq<Step>)
    requires
        valid_network(n),
        is_institution(n, p.sender),
        walk_ok(n, p, w),
        n.institutions.len() <= usize::MAX,
    ensures
        w.len() < n.institutions.len(),
        w.len() < 0x1_0000_0000_0000_0000,
{
    lemma_walk_nodes_institutions(n, p, w);
    lemma_distinct_institutions_bound(n, walk_nodes(p.sender, w));
}


proof fn lemma_feasible_iff(
    n: NetworkView,
    qs: Seq<PaymentView>,
    cs: Seq<Seq<BatchCand>>,
    jc: Seq<Seq<JointCand>>,
    caps: Seq<Option<u64>>,
    x: Seq<usize>,
)
    requires
        linked(n, qs, cs, jc, caps),
        crate::joint::valid_choice(jc, x),
    ensures
        crate::joint::feasible(jc, caps, x) == assignment_ok(n, qs, ws_of(n, qs, cs, x)),
        crate::joint::total(jc, x) == batch_score(n, ws_of(n, qs, cs, x)),
{
    let ws = ws_of(n, qs, cs, x);
    lemma_sums_match(n, qs, cs, jc, caps, x, x.len() as int);
    assert forall|i: int| 0 <= i < ws.len() implies #[trigger] feasible_walk(n, qs[i], ws[i]) by {
        assert(cs[i].len() == jc[i].len());
        lemma_walk_at(n, qs, cs, jc, caps, i, x[i] as int);
    }
    if crate::joint::feasible(jc, caps, x) {
        assert forall|r: int|
            0 <= r < n.rails.len() && n.rails[r].batch_capacity_cents is Some implies #[trigger] joint_use(
                qs,
                ws,
                r,
                ws.len() as int,
            ) <= n.rails[r].batch_capacity_cents->0 by {
            assert(caps[r] == n.rails[r].batch_capacity_cents);
            assert(crate::joint::use_sum(jc, x, r, jc.len() as int) <= caps[r]->0);
        }
    }
    if assignment_ok(n, qs, ws) {
        assert forall|r: int| 0 <= r < caps.len() && caps[r] is Some implies #[trigger] crate::joint::use_sum(
            jc,
            x,
            r,
            jc.len() as int,
        ) <= caps[r]->0 by {
            assert(caps[r] == n.rails[r].batch_capacity_cents);
            assert(joint_use(qs, ws, r, ws.len() as int) <= n.rails[r].batch_capacity_cents->0);
        }
    }
}

pub open spec fn index_of(n: NetworkView, qs: Seq<PaymentView>, cs: Seq<Seq<BatchCand>>, i: int, w: Seq<Step>) -> int {
    choose|j: int| 0 <= j < cs[i].len() && (#[trigger] cs[i][j]).route@ == walk_route(n, qs[i].sender, w)
}

pub open spec fn choice_for(
    n: NetworkView,
    qs: Seq<PaymentView>,
    cs: Seq<Seq<BatchCand>>,
    x: Seq<usize>,
    ws2: Seq<Seq<Step>>,
) -> Seq<usize> {
    Seq::new(
        ws2.len(),
        |i: int|
            if ws2[i] == ws_of(n, qs, cs, x)[i] {
                x[i]
            } else {
                index_of(n, qs, cs, i, ws2[i]) as usize
            },
    )
}

proof fn lemma_choice_for(
    n: NetworkView,
    qs: Seq<PaymentView>,
    cs: Seq<Seq<BatchCand>>,
    jc: Seq<Seq<JointCand>>,
    caps: Seq<Option<u64>>,
    x: Seq<usize>,
    ws2: Seq<Seq<Step>>,
)
    requires
        linked(n, qs, cs, jc, caps),
        crate::joint::valid_choice(jc, x),
        assignment_ok(n, qs, ws2),
    ensures
        crate::joint::valid_choice(jc, choice_for(n, qs, cs, x, ws2)),
        ws_of(n, qs, cs, choice_for(n, qs, cs, x, ws2)) == ws2,
{
    let y = choice_for(n, qs, cs, x, ws2);
    let wx = ws_of(n, qs, cs, x);
    assert forall|i: int| 0 <= i < ws2.len() implies #[trigger] y[i] < jc[i].len() && walk_at(n, qs, cs, i, y[i] as int) == ws2[i] by {
        assert(cs[i].len() == jc[i].len());
        if ws2[i] == wx[i] {
            assert(y[i] == x[i]);
            assert(wx[i] == walk_at(n, qs, cs, i, x[i] as int));
        } else {
            let w = ws2[i];
            assert(feasible_walk(n, qs[i], w));
            assert(own_fits(n, qs[i], w)) by {
                assert forall|r: int|
                    0 <= r < n.rails.len() && n.rails[r].batch_capacity_cents is Some implies qs[i].amount_cents
                        * #[trigger] count_on(w, r) <= n.rails[r].batch_capacity_cents->0 by {
                    lemma_joint_use_term(qs, ws2, r, i, ws2.len() as int);
                    assert(joint_use(qs, ws2, r, ws2.len() as int) <= n.rails[r].batch_capacity_cents->0);
                }
            }
            assert(batch_walk(n, qs[i], w));
            assert(listed(n, qs[i], cs[i], w));
            let j = index_of(n, qs, cs, i, w);
            assert(0 <= j < cs[i].len());
            lemma_walk_at(n, qs, cs, jc, caps, i, j);
            let v = walk_at(n, qs, cs, i, j);
            assert(walk_route(n, qs[i].sender, v) == walk_route(n, qs[i].sender, w));
            assert forall|k: int| 0 <= k < v.len() implies 0 <= (#[trigger] v[k]).rail < n.rails.len() by {
                assert(step_ok(n, qs[i], walk_nodes(qs[i].sender, v)[k], v[k]));
            }
            assert forall|k: int| 0 <= k < w.len() implies 0 <= (#[trigger] w[k]).rail < n.rails.len() by {
                assert(step_ok(n, qs[i], walk_nodes(qs[i].sender, w)[k], w[k]));
            }
            lemma_walk_hops_injective(n, qs[i].sender, v, w);
            assert(y[i] == j as usize);
            assert(y[i] as int == j);
        }
    }
    assert(ws_of(n, qs, cs, y) =~= ws2);
}

proof fn lemma_optimal_transfer(
    n: NetworkView,
    qs: Seq<PaymentView>,
    cs: Seq<Seq<BatchCand>>,
    jc: Seq<Seq<JointCand>>,
    caps: Seq<Option<u64>>,
    x: Seq<usize>,
)
    requires
        linked(n, qs, cs, jc, caps),
        crate::joint::optimal(jc, caps, x),
    ensures
        batch_optimal(n, qs, ws_of(n, qs, cs, x)),
{
    let wx = ws_of(n, qs, cs, x);
    lemma_feasible_iff(n, qs, cs, jc, caps, x);
    assert forall|ws2: Seq<Seq<Step>>| #[trigger] assignment_ok(n, qs, ws2) implies !batch_better(n, qs, ws2, wx) by {
        lemma_choice_for(n, qs, cs, jc, caps, x, ws2);
        let y = choice_for(n, qs, cs, x, ws2);
        lemma_feasible_iff(n, qs, cs, jc, caps, y);
        assert(crate::joint::feasible(jc, caps, y));
        assert(!crate::joint::better(jc, y, x));
        if batch_better(n, qs, ws2, wx) {
            if batch_score(n, ws2) == batch_score(n, wx) {
                let k = choose|k: int|
                    #![trigger ws2[k], wx[k]]
                    0 <= k < ws2.len() && k < wx.len() && (forall|j: int|
                        0 <= j < k ==> walk_hops(n, qs[j].sender, ws2[j]) == walk_hops(n, qs[j].sender, wx[j]))
                        && hops_lt(walk_hops(n, qs[k].sender, ws2[k]), walk_hops(n, qs[k].sender, wx[k]));
                assert forall|j: int| 0 <= j < k implies y[j] == x[j] by {
                    assert(walk_hops(n, qs[j].sender, ws2[j]) == walk_hops(n, qs[j].sender, wx[j]));
                    lemma_walk_rails(n, qs, cs, jc, caps, x, j);
                    assert forall|q: int| 0 <= q < ws2[j].len() implies 0 <= (#[trigger] ws2[j][q]).rail < n.rails.len() by {
                        assert(feasible_walk(n, qs[j], ws2[j]));
                        assert(step_ok(n, qs[j], walk_nodes(qs[j].sender, ws2[j])[q], ws2[j][q]));
                    }
                    lemma_walk_hops_injective(n, qs[j].sender, ws2[j], wx[j]);
                }
                assert(cs[k].len() == jc[k].len());
                lemma_walk_at(n, qs, cs, jc, caps, k, y[k] as int);
                lemma_walk_at(n, qs, cs, jc, caps, k, x[k] as int);
                assert(cs[k][y[k] as int].route@.hops == walk_hops(n, qs[k].sender, ws2[k]));
                assert(cs[k][x[k] as int].route@.hops == walk_hops(n, qs[k].sender, wx[k]));
                assert(crate::order::ordered(cs[k]));
                if y[k] > x[k] {
                    assert(!cs[k][y[k] as int].precedes(&cs[k][x[k] as int]));
                } else if y[k] == x[k] {
                    lemma_hops_lt_irreflexive(walk_hops(n, qs[k].sender, wx[k]));
                }
                assert(y[k] < x[k]);
                assert(crate::joint::idx_lt(y, x));
            }
        }
    }
}

proof fn lemma_walk_rails(
    n: NetworkView,
    qs: Seq<PaymentView>,
    cs: Seq<Seq<BatchCand>>,
    jc: Seq<Seq<JointCand>>,
    caps: Seq<Option<u64>>,
    x: Seq<usize>,
    j: int,
)
    requires
        linked(n, qs, cs, jc, caps),
        crate::joint::valid_choice(jc, x),
        0 <= j < x.len(),
    ensures
        forall|q: int|
            0 <= q < ws_of(n, qs, cs, x)[j].len() ==> 0 <= (#[trigger] ws_of(n, qs, cs, x)[j][q]).rail < n.rails.len(),
{
    assert(cs[j].len() == jc[j].len());
    lemma_walk_at(n, qs, cs, jc, caps, j, x[j] as int);
    let w = ws_of(n, qs, cs, x)[j];
    assert forall|q: int| 0 <= q < w.len() implies 0 <= (#[trigger] w[q]).rail < n.rails.len() by {
        assert(step_ok(n, qs[j], walk_nodes(qs[j].sender, w)[q], w[q]));
    }
}

proof fn lemma_none_transfer(
    n: NetworkView,
    qs: Seq<PaymentView>,
    cs: Seq<Seq<BatchCand>>,
    jc: Seq<Seq<JointCand>>,
    caps: Seq<Option<u64>>,
    ws2: Seq<Seq<Step>>,
)
    requires
        linked(n, qs, cs, jc, caps),
        !exists|x: Seq<usize>| #[trigger] crate::joint::feasible(jc, caps, x),
    ensures
        !assignment_ok(n, qs, ws2),
{
    if assignment_ok(n, qs, ws2) {
        let x0 = Seq::new(qs.len(), |i: int| 0usize);
        assert forall|i: int| 0 <= i < qs.len() implies jc[i].len() > 0 by {
            let w = ws2[i];
            assert(feasible_walk(n, qs[i], w));
            assert(own_fits(n, qs[i], w)) by {
                assert forall|r: int|
                    0 <= r < n.rails.len() && n.rails[r].batch_capacity_cents is Some implies qs[i].amount_cents
                        * #[trigger] count_on(w, r) <= n.rails[r].batch_capacity_cents->0 by {
                    lemma_joint_use_term(qs, ws2, r, i, ws2.len() as int);
                }
            }
            assert(batch_walk(n, qs[i], w));
            assert(listed(n, qs[i], cs[i], w));
            assert(cs[i].len() == jc[i].len());
        }
        assert(crate::joint::valid_choice(jc, x0));
        lemma_choice_for(n, qs, cs, jc, caps, x0, ws2);
        let y = choice_for(n, qs, cs, x0, ws2);
        lemma_feasible_iff(n, qs, cs, jc, caps, y);
        assert(crate::joint::feasible(jc, caps, y));
    }
}


proof fn lemma_bounded(
    n: NetworkView,
    qs: Seq<PaymentView>,
    cs: Seq<Seq<BatchCand>>,
    jc: Seq<Seq<JointCand>>,
    caps: Seq<Option<u64>>,
)
    requires
        linked(n, qs, cs, jc, caps),
        qs.len() * n.institutions.len() <= usize::MAX,
    ensures
        crate::joint::bounded(jc, n.rails.len() as int, (n.institutions.len() * 0xffff_ffff_ffff_ffff) as int, n.institutions.len() as int),
{
    let inst = n.institutions.len() as int;
    let b = inst * 0xffff_ffff_ffff_ffff;
    assert forall|i: int, j: int| 0 <= i < jc.len() && 0 <= j < jc[i].len() implies {
        let d = #[trigger] jc[i][j];
        &&& d.usage@.len() == n.rails.len()
        &&& d.fee <= b
        &&& d.elapsed <= b
        &&& d.hops <= inst
        &&& forall|r: int| 0 <= r < n.rails.len() ==> #[trigger] d.usage@[r] <= b
    } by {
        assert(cs[i].len() == jc[i].len());
        lemma_walk_at(n, qs, cs, jc, caps, i, j);
        let w = walk_at(n, qs, cs, i, j);
        let c = cs[i][j];
        assert(payment_problem(n, qs[i]) is None);
        lemma_walk_len_bound(n, qs[i], w);
        assert forall|k: int| 0 <= k < w.len() implies 0 <= (#[trigger] w[k]).rail < n.rails.len() by {
            assert(step_ok(n, qs[i], walk_nodes(qs[i].sender, w)[k], w[k]));
        }
        lemma_walk_fee_bound(n, w);
        lemma_mul_le(w.len() as int, inst, 0xffff_ffff_ffff_ffff);
        lemma_mul_le(w.len() as int, inst, 0xffff_ffff);
        assert(w.len() * 0xffff_ffff <= w.len() * 0xffff_ffff_ffff_ffff) by (nonlinear_arith)
            requires
                w.len() >= 0,
        ;
        assert(c.route@.hops.len() == c.route.hops@.len());
        assert forall|r: int| 0 <= r < n.rails.len() implies #[trigger] jc[i][j].usage@[r] <= b by {
            lemma_count_bounds(w, r);
            lemma_principal_bound(qs[i].amount_cents, count_on(w, r), w.len() as int);
            assert(qs[i].amount_cents * count_on(w, r) <= 0xffff_ffff_ffff_ffff * w.len()) by (nonlinear_arith)
                requires
                    0 <= count_on(w, r) <= w.len(),
                    qs[i].amount_cents <= 0xffff_ffff_ffff_ffff,
            ;
            assert(0xffff_ffff_ffff_ffff * w.len() == w.len() * 0xffff_ffff_ffff_ffff) by (nonlinear_arith);
        }
    }
    assert(jc.len() * b <= u128::MAX) by (nonlinear_arith)
        requires
            jc.len() * inst <= usize::MAX,
            b == inst * 0xffff_ffff_ffff_ffff,
            usize::MAX <= 0xffff_ffff_ffff_ffff,
            inst >= 0,
    {
        assert(jc.len() * b == (jc.len() * inst) * 0xffff_ffff_ffff_ffff);
    }
    assert(b >= 0) by (nonlinear_arith)
        requires
            inst >= 0,
            b == inst * 0xffff_ffff_ffff_ffff,
    ;
}

proof fn lemma_mul_le(a: int, b: int, c: int)
    requires
        0 <= a <= b,
        0 <= c,
    ensures
        a * c <= b * c,
{
    assert(a * c <= b * c) by (nonlinear_arith)
        requires
            0 <= a <= b,
            0 <= c,
    ;
}

/// Every admissible walk of one payment, in hop order.
fn payment_candidates(network: &Network, payment: &Payment) -> (r: Vec<BatchCand>)
    requires
        valid_network(network@),
        payment_problem(network@, payment@) is None,
    ensures
        sound(network@, payment@, r@),
        forall|w: Seq<Step>| #[trigger] batch_walk(network@, payment@, w) ==> listed(network@, payment@, r@, w),
        crate::order::ordered(r@),
{
    let ghost n = network@;
    let ghost p = payment@;
    let ghost w0 = Seq::<Step>::empty();
    let mut visited: Vec<String> = Vec::new();
    visited.push(copy_string(&payment.sender));
    let mut path = Route { hops: Vec::new(), total_fee_cents: 0, total_settlement_minutes: 0 };
    let mut usage: Vec<u128> = Vec::new();
    let mut r: usize = 0;
    while r < network.rails.len()
        invariant
            r <= network.rails@.len(),
            usage@.len() == r,
            forall|q: int| 0 <= q < r ==> usage@[q] == 0,
        decreases network.rails@.len() - r,
    {
        usage.push(0);
        r += 1;
    }
    let mut answers: Vec<BatchCand> = Vec::new();
    proof {
        assert(texts(visited@) =~= walk_nodes(p.sender, w0));
        assert(path@.hops =~= walk_hops(n, p.sender, w0));
        assert(walk_nodes(p.sender, w0) =~= seq![p.sender]);
        assert(usage@ =~= usage_of(n, p, w0));
        assert(is_institution(n, p.sender));
    }
    visit_paths(network, &payment.sender, payment, &mut visited, &mut path, &mut usage, &mut answers, Ghost(w0));
    proof {
        assert forall|w: Seq<Step>| #[trigger] batch_walk(n, p, w) implies listed(n, p, answers@, w) by {
            assert(w.take(0) =~= w0);
            assert(extends(w, w0));
        }
    }
    let ghost before = answers@;
    let sorted = crate::order::sort_ordered(answers);
    proof {
        broadcast use vstd::seq_lib::group_to_multiset_ensures;
        assert forall|j: int| 0 <= j < sorted@.len() implies #[trigger] has_walk(n, p, sorted@[j]) by {
            assert(sorted@.to_multiset().count(sorted@[j]) > 0);
            assert(before.contains(sorted@[j]));
            let k = choose|k: int| 0 <= k < before.len() && before[k] == sorted@[j];
            assert(has_walk(n, p, before[k]));
        }
        assert forall|w: Seq<Step>| #[trigger] batch_walk(n, p, w) implies listed(n, p, sorted@, w) by {
            assert(listed(n, p, before, w));
            let k = choose|k: int| 0 <= k < before.len() && (#[trigger] before[k]).route@ == walk_route(n, p.sender, w);
            assert(before.to_multiset().count(before[k]) > 0);
            assert(sorted@.contains(before[k]));
            let j = choose|j: int| 0 <= j < sorted@.len() && sorted@[j] == before[k];
            assert(sorted@[j].route@ == walk_route(n, p.sender, w));
        }
    }
    sorted
}

fn joint_of(c: &BatchCand) -> (d: JointCand)
    ensures
        d.fee == c.route.total_fee_cents,
        d.elapsed == c.route.total_settlement_minutes,
        d.hops == c.route.hops@.len(),
        d.usage@ == c.usage@,
{
    JointCand {
        fee: c.route.total_fee_cents,
        elapsed: c.route.total_settlement_minutes,
        hops: c.route.hops.len(),
        usage: copy_u128s(&c.usage),
    }
}


pub open spec fn cands_seq(c: Vec<Vec<BatchCand>>) -> Seq<Seq<BatchCand>> {
    c@.map_values(|v: Vec<BatchCand>| v@)
}

pub proof fn lemma_first_problem_none(f: spec_fn(int) -> Option<ErrorView>, m: int, i: int)
    requires
        first_problem(f, m) is None,
        0 <= i < m,
    ensures
        f(i) is None,
    decreases m,
{
    if i < m - 1 {
        lemma_first_problem_none(f, m - 1, i);
    }
}

/// The outcome `optimize_batch` reports for the payments in order `order`.
pub open spec fn batch_outcome(n: NetworkView, ps: Seq<PaymentView>, order: Seq<usize>, res: Option<BatchPlan>) -> bool {
    &&& id_sorted(ps, order)
    &&& match res {
        None => forall|ws: Seq<Seq<Step>>| !#[trigger] assignment_ok(n, reorder(ps, order), ws),
        Some(plan) => exists|ws: Seq<Seq<Step>>|
            #[trigger] batch_optimal(n, reorder(ps, order), ws) && plan_reports(n, reorder(ps, order), ws, plan),
    }
}

/// Route every supplied payment at globally minimum total fee, or return `None`
/// if the entire batch cannot fit. Invalid networks or instructions (including
/// duplicate batch payment identifiers) return an error; an empty valid batch
/// costs zero. Only `payments` consumes capacity; `network.payments` is still
/// validated.
///
/// Every hop consumes the full principal from its rail's static batch budget,
/// shared across all member pairs and both directions; budgets exclude fees and
/// never replenish. None is unlimited; zero permits no batch use. Availability,
/// per-hop ceilings and delivery bounds also apply. Nothing is changed, reserved,
/// debited or settled.
///
/// Ties minimize summed latency, total hop count, then the hop sequences in
/// ascending payment-identifier order, so input order does not matter. Every
/// admissible simple path of each payment is enumerated, then joint assignments
/// are searched with shared budget accounting and an optimistic fee bound.
pub fn optimize_batch(network: &Network, payments: &Vec<Payment>) -> (r: Result<
    Option<BatchPlan>,
    ValidationError,
>)
    requires
        payments@.len() * network.institutions@.len() <= usize::MAX,
    ensures
        r is Err <==> batch_problem(network@, views(payments@)) is Some,
        r matches Err(e) ==> Some(e@) == batch_problem(network@, views(payments@)),
        r matches Ok(res) ==> exists|order: Seq<usize>| #[trigger] batch_outcome(network@, views(payments@), order, res),
{
    let ghost n = network@;
    let ghost ps = views(payments@);
    match network.validate() {
        Ok(()) => {},
        Err(e) => {
            return Err(e);
        },
    }
    let ids = crate::network::id_list_of_payments(payments);
    match crate::network::unique_ids(&crate::text::text("batch payment"), &ids) {
        Ok(()) => {},
        Err(e) => {
            return Err(e);
        },
    }
    match crate::network::validate_payments(network, payments) {
        Ok(()) => {},
        Err(e) => {
            return Err(e);
        },
    }
    assert(valid_network(n));
    assert(batch_problem(n, ps) is None);
    let order = crate::order::id_order(&ids);
    let ghost qs = reorder(ps, order@);
    proof {
        assert forall|k: int| 0 <= k < qs.len() implies #[trigger] payment_problem(n, qs[k]) is None by {
            assert(order@[k] < ps.len());
            lemma_first_problem_none(crate::network::payment_problems(n, ps), ps.len() as int, order@[k] as int);
        }
        assert forall|a: int, b: int| 0 <= a < b < order@.len() implies !text_lt(ps[(#[trigger] order@[b]) as int].id, ps[(#[trigger] order@[a]) as int].id) by {
            assert(texts(ids@)[order@[b] as int] == ps[order@[b] as int].id);
            assert(texts(ids@)[order@[a] as int] == ps[order@[a] as int].id);
        }
        assert(id_sorted(ps, order@));
    }
    let count = payments.len();
    let inst_count = network.institutions.len();
    assert(n.institutions.len() == inst_count);
    let mut cands: Vec<Vec<BatchCand>> = Vec::new();
    let mut jcs: Vec<Vec<JointCand>> = Vec::new();
    let mut k: usize = 0;
    while k < count
        invariant
            n == network@,
            ps == views(payments@),
            count == payments@.len(),
            valid_network(n),
            order@.len() == count,
            is_perm(order@, count as int),
            id_sorted(ps, order@),
            batch_problem(n, ps) is None,
            qs == reorder(ps, order@),
            forall|q: int| 0 <= q < qs.len() ==> #[trigger] payment_problem(n, qs[q]) is None,
            k <= count,
            cands@.len() == k,
            jcs@.len() == k,
            forall|i: int| 0 <= i < k ==> sound(n, qs[i], #[trigger] cands@[i]@),
            forall|i: int| 0 <= i < k ==> crate::order::ordered(#[trigger] cands@[i]@),
            forall|i: int, w: Seq<Step>|
                0 <= i < k && #[trigger] batch_walk(n, qs[i], w) ==> listed(n, qs[i], cands@[i]@, w),
            forall|i: int| 0 <= i < k ==> (#[trigger] cands@[i])@.len() == jcs@[i]@.len() && cands@[i]@.len() <= usize::MAX,
            n.institutions.len() <= usize::MAX,
            forall|i: int, j: int|
                0 <= i < k && 0 <= j < cands@[i]@.len() ==> {
                    let c = #[trigger] cands@[i]@[j];
                    let d = jcs@[i]@[j];
                    &&& d.fee == c.route.total_fee_cents
                    &&& d.elapsed == c.route.total_settlement_minutes
                    &&& d.hops == c.route.hops@.len()
                    &&& d.usage@ == c.usage@
                },
        decreases count - k,
    {
        let payment = &payments[order[k]];
        proof {
            assert(payment@ == qs[k as int]);
        }
        let list = payment_candidates(network, payment);
        let list_len = list.len();
        assert(list@.len() <= usize::MAX);
        if list_len == 0 {
            proof {
                assert forall|ws: Seq<Seq<Step>>| !#[trigger] assignment_ok(n, qs, ws) by {
                    if assignment_ok(n, qs, ws) {
                        let w = ws[k as int];
                        assert(feasible_walk(n, qs[k as int], w));
                        assert forall|r: int|
                            0 <= r < n.rails.len() && n.rails[r].batch_capacity_cents is Some implies qs[k as int].amount_cents
                                * #[trigger] count_on(w, r) <= n.rails[r].batch_capacity_cents->0 by {
                            lemma_joint_use_term(qs, ws, r, k as int, ws.len() as int);
                        }
                        assert(batch_walk(n, qs[k as int], w));
                    }
                }
                assert(batch_outcome(n, ps, order@, None));
            }
            return Ok(None);
        }
        let mut jl: Vec<JointCand> = Vec::new();
        let mut j: usize = 0;
        while j < list.len()
            invariant
                j <= list@.len(),
                jl@.len() == j,
                forall|q: int| 0 <= q < j ==> {
                    let c = #[trigger] list@[q];
                    let d = jl@[q];
                    &&& d.fee == c.route.total_fee_cents
                    &&& d.elapsed == c.route.total_settlement_minutes
                    &&& d.hops == c.route.hops@.len()
                    &&& d.usage@ == c.usage@
                },
            decreases list@.len() - j,
        {
            jl.push(joint_of(&list[j]));
            j += 1;
        }
        cands.push(list);
        jcs.push(jl);
        k += 1;
    }
    let mut caps: Vec<Option<u64>> = Vec::new();
    let mut r: usize = 0;
    while r < network.rails.len()
        invariant
            r <= network.rails@.len(),
            caps@.len() == r,
            forall|q: int| 0 <= q < r ==> #[trigger] caps@[q] == network.rails@[q].batch_capacity_cents,
        decreases network.rails@.len() - r,
    {
        caps.push(network.rails[r].batch_capacity_cents);
        r += 1;
    }
    let ghost cs = cands_seq(cands);
    let ghost jc = crate::joint::cands_view(jcs);
    let ghost inst = n.institutions.len() as int;
    proof {
        assert(n.institutions.len() == network.institutions@.len());
        assert forall|q: int| 0 <= q < caps@.len() implies #[trigger] caps@[q] == n.rails[q].batch_capacity_cents by {
            assert(caps@[q] == network.rails@[q].batch_capacity_cents);
        }
        assert forall|i: int| 0 <= i < cs.len() implies (#[trigger] cs[i]).len() == jc[i].len() && cs[i].len() <= usize::MAX by {
            assert(cs[i] == cands@[i]@);
            assert(jc[i] == jcs@[i]@);
        }
        assert forall|i: int| 0 <= i < cs.len() implies sound(n, qs[i], #[trigger] cs[i]) by {
            assert(cs[i] == cands@[i]@);
        }
        assert forall|i: int| 0 <= i < cs.len() implies crate::order::ordered(#[trigger] cs[i]) by {
            assert(cs[i] == cands@[i]@);
        }
        assert forall|i: int, w: Seq<Step>| 0 <= i < cs.len() && #[trigger] batch_walk(n, qs[i], w) implies listed(n, qs[i], cs[i], w) by {
            assert(cs[i] == cands@[i]@);
        }
        assert forall|i: int, j: int| 0 <= i < cs.len() && 0 <= j < cs[i].len() implies {
            let c = #[trigger] cs[i][j];
            let d = jc[i][j];
            &&& d.fee == c.route.total_fee_cents
            &&& d.elapsed == c.route.total_settlement_minutes
            &&& d.hops == c.route.hops@.len()
            &&& d.usage@ == c.usage@
        } by {
            assert(cs[i] == cands@[i]@);
            assert(jc[i] == jcs@[i]@);
            assert(cs[i][j] == cands@[i]@[j]);
        }
        assert(linked(n, qs, cs, jc, caps@));
        lemma_bounded(n, qs, cs, jc, caps@);
    }
    match crate::joint::select(&jcs, &caps, Ghost((inst * 0xffff_ffff_ffff_ffff) as int), Ghost(inst)) {
        None => {
            proof {
                assert forall|ws: Seq<Seq<Step>>| !#[trigger] assignment_ok(n, qs, ws) by {
                    lemma_none_transfer(n, qs, cs, jc, caps@, ws);
                }
                assert(batch_outcome(n, ps, order@, None));
            }
            Ok(None)
        },
        Some(best) => {
            let ghost x = best.choice@;
            proof {
                lemma_optimal_transfer(n, qs, cs, jc, caps@, x);
                lemma_feasible_iff(n, qs, cs, jc, caps@, x);
                lemma_sums_match(n, qs, cs, jc, caps@, x, x.len() as int);
            }
            let ghost ws = ws_of(n, qs, cs, x);
            let plan = build_plan(network, payments, &order, &cands, &jcs, &best, Ghost(qs), Ghost(cs), Ghost(jc), Ghost(caps@));
            proof {
                assert(batch_optimal(n, qs, ws));
                assert(plan_reports(n, qs, ws, plan));
                assert(batch_outcome(n, ps, order@, Some(plan)));
            }
            Ok(Some(plan))
        },
    }
}

#[verifier::rlimit(60)]
fn build_plan(
    network: &Network,
    payments: &Vec<Payment>,
    order: &Vec<usize>,
    cands: &Vec<Vec<BatchCand>>,
    jcs: &Vec<Vec<JointCand>>,
    best: &crate::joint::Best,
    Ghost(qs): Ghost<Seq<PaymentView>>,
    Ghost(cs): Ghost<Seq<Seq<BatchCand>>>,
    Ghost(jc): Ghost<Seq<Seq<JointCand>>>,
    Ghost(caps): Ghost<Seq<Option<u64>>>,
) -> (plan: BatchPlan)
    requires
        linked(network@, qs, cs, jc, caps),
        qs == reorder(views(payments@), order@),
        is_perm(order@, payments@.len() as int),
        cs == cands_seq(*cands),
        jc == crate::joint::cands_view(*jcs),
        crate::joint::best_ok(jc, caps, Some(*best)),
        crate::joint::bounded(jc, network@.rails.len() as int, (network@.institutions.len() * 0xffff_ffff_ffff_ffff) as int, network@.institutions.len() as int),
    ensures
        plan_reports(network@, qs, ws_of(network@, qs, cs, best.choice@), plan),
{
    let ghost n = network@;
    let ghost x = best.choice@;
    let ghost ws = ws_of(n, qs, cs, x);
    let ghost bnd = (n.institutions.len() * 0xffff_ffff_ffff_ffff) as int;
    let ghost hb = n.institutions.len() as int;
    proof {
        lemma_sums_match(n, qs, cs, jc, caps, x, x.len() as int);
    }
    let mut assignments: Vec<PaymentRoute> = Vec::new();
    let mut k: usize = 0;
    while k < order.len()
        invariant
            linked(n, qs, cs, jc, caps),
            qs == reorder(views(payments@), order@),
            is_perm(order@, payments@.len() as int),
            cs == cands_seq(*cands),
            jc == crate::joint::cands_view(*jcs),
            crate::joint::best_ok(jc, caps, Some(*best)),
            x == best.choice@,
            ws == ws_of(n, qs, cs, x),
            k <= order@.len(),
            assignments@.len() == k,
            forall|i: int|
                0 <= i < k ==> (#[trigger] assignments@[i]).payment_id@ == qs[i].id && assignments@[i].route@
                    == walk_route(n, qs[i].sender, ws[i]),
        decreases order@.len() - k,
    {
        let c = best.choice[k];
        proof {
            assert(cs[k as int].len() == jc[k as int].len());
            lemma_walk_at(n, qs, cs, jc, caps, k as int, c as int);
            assert(cands@[k as int]@ == cs[k as int]);
        }
        let route = copy_route(&cands[k][c].route);
        let id = payments[order[k]].id.clone();
        assignments.push(PaymentRoute { payment_id: id, route });
        k += 1;
    }
    let rail_ids_vec = crate::network::id_list_of_rails(network);
    let rail_order = crate::order::id_order(&rail_ids_vec);
    assert(n.rails.len() == network.rails@.len());
    let mut rail_usage: Vec<RailUsage> = Vec::new();
    let mut q: usize = 0;
    while q < rail_order.len()
        invariant
            linked(n, qs, cs, jc, caps),
            jc == crate::joint::cands_view(*jcs),
            crate::joint::best_ok(jc, caps, Some(*best)),
            crate::joint::bounded(jc, n.rails.len() as int, bnd, hb),
            x == best.choice@,
            ws == ws_of(n, qs, cs, x),
            texts(rail_ids_vec@) == rail_ids(n),
            n == network@,
            n.rails.len() == network.rails@.len(),
            is_perm(rail_order@, n.rails.len() as int),
            forall|a: int, b: int|
                0 <= a < b < rail_order@.len() ==> !text_lt(
                    rail_ids_vec@[(#[trigger] rail_order@[b]) as int]@,
                    rail_ids_vec@[(#[trigger] rail_order@[a]) as int]@,
                ),
            forall|r: int| 0 <= r < n.rails.len() ==> #[trigger] crate::joint::use_sum(jc, x, r, x.len() as int) == joint_use(qs, ws, r, x.len() as int),
            q <= rail_order@.len(),
            rail_usage@.len() == q,
            forall|t: int|
                0 <= t < q ==> (#[trigger] rail_usage@[t]).rail_id@ == n.rails[rail_order@[t] as int].id
                    && rail_usage@[t].principal_cents == joint_use(qs, ws, rail_order@[t] as int, qs.len() as int),
        decreases rail_order@.len() - q,
    {
        let r = rail_order[q];
        assert(r < network.rails@.len());
        let mut total: u128 = 0;
        let mut i: usize = 0;
        while i < jcs.len()
            invariant
                jc == crate::joint::cands_view(*jcs),
                crate::joint::best_ok(jc, caps, Some(*best)),
                crate::joint::bounded(jc, n.rails.len() as int, bnd, hb),
                x == best.choice@,
                r < n.rails.len(),
                i <= jcs@.len(),
                total == crate::joint::use_sum(jc, x, r as int, i as int),
            decreases jcs@.len() - i,
        {
            proof {
                crate::joint::lemma_sum_bounds(jc, x, i + 1, n.rails.len() as int, bnd, hb);
                lemma_mul_le(i + 1, jc.len() as int, bnd);
                assert(jc[i as int] == jcs@[i as int]@);
                assert(x[i as int] < jc[i as int].len());
                assert(crate::joint::pick(jc, x, i as int) == jcs@[i as int]@[x[i as int] as int]);
                assert(crate::joint::use_sum(jc, x, r as int, i + 1) == total + jcs@[i as int]@[x[i as int] as int].usage@[r as int]);
                assert(jcs@[i as int]@[x[i as int] as int].usage@.len() == n.rails.len());
            }
            total = total + jcs[i][best.choice[i]].usage[r];
            i += 1;
        }
        proof {
            assert(texts(rail_ids_vec@)[r as int] == n.rails[r as int].id);
            assert(x.len() == jc.len());
            assert(total == joint_use(qs, ws, r as int, qs.len() as int));
            assert(n.rails[r as int] == network.rails@[r as int]@);
        }
        rail_usage.push(RailUsage { rail_id: network.rails[r].id.clone(), principal_cents: total });
        q += 1;
    }
    proof {
        assert forall|t: int| 0 <= t < rail_order@.len() implies (#[trigger] rail_usage@[t]).rail_id@ == n.rails[rail_order@[t] as int].id
            && rail_usage@[t].principal_cents == joint_use(qs, ws, rail_order@[t] as int, qs.len() as int)
            && (t > 0 ==> !text_lt(n.rails[rail_order@[t] as int].id, n.rails[rail_order@[t - 1] as int].id)) by {
            if t > 0 {
                assert(texts(rail_ids_vec@)[rail_order@[t] as int] == n.rails[rail_order@[t] as int].id);
                assert(texts(rail_ids_vec@)[rail_order@[t - 1] as int] == n.rails[rail_order@[t - 1] as int].id);
            }
        }
        assert(is_perm(rail_order@, n.rails.len() as int));
    }
    BatchPlan { assignments, rail_usage, total_fee_cents: best.fee, total_settlement_minutes: best.elapsed }
}

} // verus!
