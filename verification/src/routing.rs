//! Exact, read-only routing through shared USD payment rails.
use vstd::prelude::*;
use crate::network::{
    Network, NetworkView, Payment, PaymentView, ValidationError, ErrorView, RailView, either,
    has_institution, institution_ids, is_institution, network_problem, payment_problem, texts,
    valid_network, first_problem, rail_problems, rails_problem, rail_problem, member_problems,
    members_problem, lemma_first_problem_stable,
};
use crate::text::{
    compare_text, copy_string, same_text, text_lt, lemma_text_lt_irreflexive,
    lemma_text_lt_transitive,
};

verus! {

/// A transfer of the full payment principal between two members of a rail.
#[derive(Debug, Clone, PartialEq, Eq, PartialOrd, Ord)]
pub struct RouteHop {
    pub rail_id: String,
    pub sender: String,
    pub receiver: String,
}

/// Fees are charged separately from principal; nothing is debited or reserved.
#[derive(Debug, Clone, PartialEq, Eq)]
pub struct Route {
    pub hops: Vec<RouteHop>,
    pub total_fee_cents: u128,
    pub total_settlement_minutes: u128,
}

pub struct HopView {
    pub rail: Seq<char>,
    pub sender: Seq<char>,
    pub receiver: Seq<char>,
}

pub struct RouteView {
    pub hops: Seq<HopView>,
    pub fee: int,
    pub minutes: int,
}

impl View for RouteHop {
    type V = HopView;

    open spec fn view(&self) -> HopView {
        HopView { rail: self.rail_id@, sender: self.sender@, receiver: self.receiver@ }
    }
}

pub open spec fn hop_views(v: Seq<RouteHop>) -> Seq<HopView> {
    v.map_values(|h: RouteHop| h@)
}

impl View for Route {
    type V = RouteView;

    open spec fn view(&self) -> RouteView {
        RouteView {
            hops: hop_views(self.hops@),
            fee: self.total_fee_cents as int,
            minutes: self.total_settlement_minutes as int,
        }
    }
}

// ---------------------------------------------------------------------------
// Ranking: fee, then latency, then hop count, then the hop sequence.

pub open spec fn hop_lt(a: HopView, b: HopView) -> bool {
    ||| text_lt(a.rail, b.rail)
    ||| a.rail == b.rail && text_lt(a.sender, b.sender)
    ||| a.rail == b.rail && a.sender == b.sender && text_lt(a.receiver, b.receiver)
}

/// Lexicographic order on hop sequences; a proper prefix comes first.
pub open spec fn hops_lt(a: Seq<HopView>, b: Seq<HopView>) -> bool
    decreases a.len(),
{
    if a.len() == 0 {
        b.len() > 0
    } else if b.len() == 0 {
        false
    } else if a[0] != b[0] {
        hop_lt(a[0], b[0])
    } else {
        hops_lt(a.drop_first(), b.drop_first())
    }
}

/// `a` ranks strictly before `b`.
pub open spec fn rank_lt(a: RouteView, b: RouteView) -> bool {
    ||| a.fee < b.fee
    ||| a.fee == b.fee && a.minutes < b.minutes
    ||| a.fee == b.fee && a.minutes == b.minutes && a.hops.len() < b.hops.len()
    ||| a.fee == b.fee && a.minutes == b.minutes && a.hops.len() == b.hops.len() && hops_lt(
        a.hops,
        b.hops,
    )
}

pub proof fn lemma_hop_lt_irreflexive(a: HopView)
    ensures
        !hop_lt(a, a),
{
    lemma_text_lt_irreflexive(a.rail);
    lemma_text_lt_irreflexive(a.sender);
    lemma_text_lt_irreflexive(a.receiver);
}

pub proof fn lemma_hop_lt_transitive(a: HopView, b: HopView, c: HopView)
    requires
        hop_lt(a, b),
        hop_lt(b, c),
    ensures
        hop_lt(a, c),
{
    lemma_text_lt_irreflexive(a.rail);
    lemma_text_lt_irreflexive(b.rail);
    lemma_text_lt_irreflexive(a.sender);
    lemma_text_lt_irreflexive(b.sender);
    if text_lt(a.rail, b.rail) && text_lt(b.rail, c.rail) {
        lemma_text_lt_transitive(a.rail, b.rail, c.rail);
    }
    if a.rail == b.rail && b.rail == c.rail {
        if text_lt(a.sender, b.sender) && text_lt(b.sender, c.sender) {
            lemma_text_lt_transitive(a.sender, b.sender, c.sender);
        }
        if a.sender == b.sender && b.sender == c.sender {
            lemma_text_lt_transitive(a.receiver, b.receiver, c.receiver);
        }
    }
}

pub proof fn lemma_hops_lt_irreflexive(a: Seq<HopView>)
    ensures
        !hops_lt(a, a),
    decreases a.len(),
{
    if a.len() > 0 {
        lemma_hops_lt_irreflexive(a.drop_first());
    }
}

pub proof fn lemma_hops_lt_transitive(a: Seq<HopView>, b: Seq<HopView>, c: Seq<HopView>)
    requires
        hops_lt(a, b),
        hops_lt(b, c),
    ensures
        hops_lt(a, c),
    decreases a.len(),
{
    if a.len() > 0 && b.len() > 0 && c.len() > 0 {
        if a[0] != b[0] && b[0] != c[0] {
            if a[0] == c[0] {
                lemma_hop_lt_transitive(a[0], b[0], a[0]);
                lemma_hop_lt_irreflexive(a[0]);
            } else {
                lemma_hop_lt_transitive(a[0], b[0], c[0]);
            }
        } else if a[0] == b[0] && b[0] == c[0] {
            lemma_hops_lt_transitive(a.drop_first(), b.drop_first(), c.drop_first());
        }
    }
}

pub proof fn lemma_rank_lt_irreflexive(a: RouteView)
    ensures
        !rank_lt(a, a),
{
    lemma_hops_lt_irreflexive(a.hops);
}

pub proof fn lemma_rank_lt_transitive(a: RouteView, b: RouteView, c: RouteView)
    requires
        rank_lt(a, b),
        rank_lt(b, c),
    ensures
        rank_lt(a, c),
{
    if a.fee == b.fee && b.fee == c.fee && a.minutes == b.minutes && b.minutes == c.minutes
        && a.hops.len() == b.hops.len() && b.hops.len() == c.hops.len() {
        lemma_hops_lt_transitive(a.hops, b.hops, c.hops);
    }
}

// ---------------------------------------------------------------------------
// Walks: the routes a payment may take.

/// One hop of a walk: a rail (by index) and the institution it reaches.
pub struct Step {
    pub rail: int,
    pub to: Seq<char>,
}

/// The institutions a walk visits, starting at `from`.
pub open spec fn walk_nodes(from: Seq<char>, w: Seq<Step>) -> Seq<Seq<char>> {
    seq![from] + w.map_values(|s: Step| s.to)
}

pub open spec fn walk_hops(n: NetworkView, from: Seq<char>, w: Seq<Step>) -> Seq<HopView> {
    Seq::new(
        w.len(),
        |k: int|
            HopView { rail: n.rails[w[k].rail].id, sender: walk_nodes(from, w)[k], receiver: w[k].to },
    )
}

pub open spec fn walk_fee(n: NetworkView, w: Seq<Step>) -> int
    decreases w.len(),
{
    if w.len() == 0 {
        0
    } else {
        walk_fee(n, w.drop_last()) + n.rails[w.last().rail].fee_cents
    }
}

pub open spec fn walk_minutes(n: NetworkView, w: Seq<Step>) -> int
    decreases w.len(),
{
    if w.len() == 0 {
        0
    } else {
        walk_minutes(n, w.drop_last()) + n.rails[w.last().rail].settlement_minutes
    }
}

/// The route a walk describes: its hops and the summed fee and latency of its rails.
pub open spec fn walk_route(n: NetworkView, from: Seq<char>, w: Seq<Step>) -> RouteView {
    RouteView { hops: walk_hops(n, from, w), fee: walk_fee(n, w), minutes: walk_minutes(n, w) }
}

/// The principal may cross `r`: it is available and its ceiling admits the amount.
pub open spec fn rail_admits(r: RailView, amount: u64) -> bool {
    r.available && (r.max_amount_cents matches Some(c) ==> amount <= c)
}

/// A hop from `at` along `s`: both ends are members of an admitting rail.
pub open spec fn step_ok(n: NetworkView, p: PaymentView, at: Seq<char>, s: Step) -> bool {
    &&& 0 <= s.rail < n.rails.len()
    &&& rail_admits(n.rails[s.rail], p.amount_cents)
    &&& n.rails[s.rail].participants.contains(at)
    &&& n.rails[s.rail].participants.contains(s.to)
}

/// Every hop is allowed and no institution is visited twice.
pub open spec fn walk_ok(n: NetworkView, p: PaymentView, w: Seq<Step>) -> bool {
    &&& forall|k: int| 0 <= k < w.len() ==> step_ok(n, p, walk_nodes(p.sender, w)[k], #[trigger] w[k])
    &&& walk_nodes(p.sender, w).no_duplicates()
}

pub open spec fn within_deadline(p: PaymentView, minutes: int) -> bool {
    p.max_delivery_minutes matches Some(d) ==> minutes <= d
}

/// A simple path from the sender to the receiver within the delivery bound.
pub open spec fn feasible_walk(n: NetworkView, p: PaymentView, w: Seq<Step>) -> bool {
    &&& walk_ok(n, p, w)
    &&& walk_nodes(p.sender, w).last() == p.receiver
    &&& within_deadline(p, walk_minutes(n, w))
}

pub open spec fn is_route(n: NetworkView, p: PaymentView, r: RouteView) -> bool {
    exists|w: Seq<Step>| feasible_walk(n, p, w) && walk_route(n, p.sender, w) == r
}

/// No feasible walk ranks before `r`.
pub open spec fn unbeaten(n: NetworkView, p: PaymentView, r: RouteView) -> bool {
    forall|w: Seq<Step>| feasible_walk(n, p, w) ==> !rank_lt(#[trigger] walk_route(n, p.sender, w), r)
}

/// `r` is a route of `p` and no route ranks before it.
pub open spec fn cheapest_route(n: NetworkView, p: PaymentView, r: RouteView) -> bool {
    is_route(n, p, r) && unbeaten(n, p, r)
}

pub open spec fn routable(n: NetworkView, p: PaymentView) -> bool {
    exists|w: Seq<Step>| feasible_walk(n, p, w)
}

/// What `route_payment` refuses: the network's problem first, then the payment's.
pub open spec fn routing_problem(n: NetworkView, p: PaymentView) -> Option<ErrorView> {
    either(network_problem(n), payment_problem(n, p))
}

pub open spec fn extends(w: Seq<Step>, prefix: Seq<Step>) -> bool {
    w.len() >= prefix.len() && w.take(prefix.len() as int) == prefix
}

// ---------------------------------------------------------------------------
// Lemmas about walks.

pub proof fn lemma_walk_sums_monotone(n: NetworkView, w: Seq<Step>, prefix: Seq<Step>)
    requires
        extends(w, prefix),
        forall|k: int| 0 <= k < w.len() ==> 0 <= (#[trigger] w[k]).rail < n.rails.len(),
    ensures
        walk_fee(n, prefix) <= walk_fee(n, w),
        walk_minutes(n, prefix) <= walk_minutes(n, w),
    decreases w.len(),
{
    if w.len() > prefix.len() {
        assert(w.drop_last().take(prefix.len() as int) =~= w.take(prefix.len() as int));
        lemma_walk_sums_monotone(n, w.drop_last(), prefix);
    } else {
        assert(w =~= prefix);
    }
}

pub proof fn lemma_walk_fee_bound(n: NetworkView, w: Seq<Step>)
    requires
        forall|k: int| 0 <= k < w.len() ==> 0 <= (#[trigger] w[k]).rail < n.rails.len(),
    ensures
        0 <= walk_fee(n, w) <= w.len() * 0xffff_ffff_ffff_ffff,
        0 <= walk_minutes(n, w) <= w.len() * 0xffff_ffff,
    decreases w.len(),
{
    if w.len() > 0 {
        lemma_walk_fee_bound(n, w.drop_last());
    }
}

pub proof fn lemma_nodes_push(from: Seq<char>, w: Seq<Step>, s: Step)
    ensures
        walk_nodes(from, w.push(s)) == walk_nodes(from, w).push(s.to),
        walk_nodes(from, w).len() == w.len() + 1,
        walk_nodes(from, w)[0] == from,
        forall|k: int| 0 <= k < w.len() ==> walk_nodes(from, w)[k + 1] == (#[trigger] w[k]).to,
{
    assert(walk_nodes(from, w.push(s)) =~= walk_nodes(from, w).push(s.to));
}

/// A distinct sequence of institution identifiers is no longer than the institutions.
pub proof fn lemma_distinct_institutions_bound(n: NetworkView, nodes: Seq<Seq<char>>)
    requires
        nodes.no_duplicates(),
        forall|k: int| 0 <= k < nodes.len() ==> is_institution(n, #[trigger] nodes[k]),
    ensures
        nodes.len() <= n.institutions.len(),
{
    let ids = institution_ids(n);
    nodes.unique_seq_to_set();
    ids.lemma_cardinality_of_set();
    assert(nodes.to_set().subset_of(ids.to_set()));
    vstd::set_lib::lemma_len_subset(nodes.to_set(), ids.to_set());
}

pub proof fn lemma_members_are_institutions(n: NetworkView, ri: int, m: Seq<char>)
    requires
        valid_network(n),
        0 <= ri < n.rails.len(),
        n.rails[ri].participants.contains(m),
    ensures
        is_institution(n, m),
{
    let r = n.rails[ri];
    let k = choose|k: int| 0 <= k < r.participants.len() && r.participants[k] == m;
    assert(first_problem(rail_problems(n), ri + 1) is None) by {
        if first_problem(rail_problems(n), ri + 1) is Some {
            lemma_first_problem_stable(rail_problems(n), ri + 1, n.rails.len() as int);
        }
    }
    assert(rail_problem(n, r) is None);
    if !is_institution(n, m) {
        assert(members_problem(n, r, k) is None) by {
            if members_problem(n, r, k) is Some {
                lemma_first_problem_stable(member_problems(n, r), k, r.participants.len() as int);
            }
        }
        lemma_first_problem_stable(member_problems(n, r), k + 1, r.participants.len() as int);
    }
}

/// Every node of an allowed walk of a valid network from an institution is an institution.
pub proof fn lemma_walk_nodes_institutions(n: NetworkView, p: PaymentView, w: Seq<Step>)
    requires
        valid_network(n),
        is_institution(n, p.sender),
        forall|k: int| 0 <= k < w.len() ==> step_ok(n, p, walk_nodes(p.sender, w)[k], #[trigger] w[k]),
    ensures
        forall|k: int|
            0 <= k < walk_nodes(p.sender, w).len() ==> is_institution(
                n,
                #[trigger] walk_nodes(p.sender, w)[k],
            ),
{
    assert forall|k: int| 0 <= k < walk_nodes(p.sender, w).len() implies is_institution(
        n,
        #[trigger] walk_nodes(p.sender, w)[k],
    ) by {
        if k > 0 {
            let s = w[k - 1];
            assert(step_ok(n, p, walk_nodes(p.sender, w)[k - 1], s));
            lemma_members_are_institutions(n, s.rail, s.to);
        }
    }
}

/// A completion of a walk that already reached the receiver is the walk itself.
pub proof fn lemma_no_extension_past_receiver(
    n: NetworkView,
    p: PaymentView,
    prefix: Seq<Step>,
    w: Seq<Step>,
)
    requires
        extends(w, prefix),
        feasible_walk(n, p, w),
        walk_nodes(p.sender, prefix).last() == p.receiver,
    ensures
        w == prefix,
{
    if w.len() > prefix.len() {
        let nodes = walk_nodes(p.sender, w);
        assert(nodes[prefix.len() as int] == walk_nodes(p.sender, prefix).last()) by {
            if prefix.len() > 0 {
                assert(w[prefix.len() - 1] == prefix[prefix.len() - 1]);
            }
        }
        assert(nodes[prefix.len() as int] == nodes[w.len() as int]);
    } else {
        assert(w =~= prefix);
    }
}

// ---------------------------------------------------------------------------
// Executable pieces.

pub fn copy_hop(h: &RouteHop) -> (r: RouteHop)
    ensures
        r@ == h@,
{
    RouteHop {
        rail_id: copy_string(&h.rail_id),
        sender: copy_string(&h.sender),
        receiver: copy_string(&h.receiver),
    }
}

pub fn copy_route(route: &Route) -> (r: Route)
    ensures
        r@ == route@,
{
    let mut hops: Vec<RouteHop> = Vec::new();
    let mut i: usize = 0;
    while i < route.hops.len()
        invariant
            i <= route.hops.len(),
            hops@.len() == i,
            forall|j: int| 0 <= j < i ==> (#[trigger] hops@[j])@ == route.hops@[j]@,
        decreases route.hops.len() - i,
    {
        hops.push(copy_hop(&route.hops[i]));
        i += 1;
    }
    let r = Route {
        hops,
        total_fee_cents: route.total_fee_cents,
        total_settlement_minutes: route.total_settlement_minutes,
    };
    assert(r@.hops =~= route@.hops);
    r
}

pub fn hop_less(a: &RouteHop, b: &RouteHop) -> (r: bool)
    ensures
        r == hop_lt(a@, b@),
{
    let x = compare_text(&a.rail_id, &b.rail_id);
    if x != 0 {
        return x < 0;
    }
    let y = compare_text(&a.sender, &b.sender);
    if y != 0 {
        return y < 0;
    }
    compare_text(&a.receiver, &b.receiver) < 0
}

pub fn hop_same(a: &RouteHop, b: &RouteHop) -> (r: bool)
    ensures
        r == (a@ == b@),
{
    same_text(&a.rail_id, &b.rail_id) && same_text(&a.sender, &b.sender) && same_text(
        &a.receiver,
        &b.receiver,
    )
}

/// Lexicographic comparison of hop sequences.
pub fn hops_less(a: &Vec<RouteHop>, b: &Vec<RouteHop>) -> (r: bool)
    ensures
        r == hops_lt(hop_views(a@), hop_views(b@)),
{
    let ghost x = hop_views(a@);
    let ghost y = hop_views(b@);
    assert(x.skip(0) =~= x);
    assert(y.skip(0) =~= y);
    let mut i: usize = 0;
    while i < a.len() && i < b.len()
        invariant
            x == hop_views(a@),
            y == hop_views(b@),
            i <= a.len(),
            i <= b.len(),
            x.take(i as int) == y.take(i as int),
            hops_lt(x, y) == hops_lt(x.skip(i as int), y.skip(i as int)),
        decreases a.len() - i,
    {
        let ghost xs = x.skip(i as int);
        let ghost ys = y.skip(i as int);
        assert(xs[0] == a@[i as int]@);
        assert(ys[0] == b@[i as int]@);
        if !hop_same(&a[i], &b[i]) {
            return hop_less(&a[i], &b[i]);
        }
        assert(xs.drop_first() =~= x.skip(i + 1));
        assert(ys.drop_first() =~= y.skip(i + 1));
        assert(x.take(i + 1) =~= x.take(i as int).push(x[i as int]));
        assert(y.take(i + 1) =~= y.take(i as int).push(y[i as int]));
        i += 1;
    }
    i < b.len()
}

/// `a` ranks strictly before `b`.
pub fn route_less(a: &Route, b: &Route) -> (r: bool)
    ensures
        r == rank_lt(a@, b@),
{
    if a.total_fee_cents != b.total_fee_cents {
        return a.total_fee_cents < b.total_fee_cents;
    }
    if a.total_settlement_minutes != b.total_settlement_minutes {
        return a.total_settlement_minutes < b.total_settlement_minutes;
    }
    if a.hops.len() != b.hops.len() {
        return a.hops.len() < b.hops.len();
    }
    hops_less(&a.hops, &b.hops)
}

pub fn contains_text(v: &Vec<String>, s: &String) -> (r: bool)
    ensures
        r == texts(v@).contains(s@),
{
    let ghost t = texts(v@);
    let mut i: usize = 0;
    while i < v.len()
        invariant
            t == texts(v@),
            i <= v.len(),
            forall|k: int| 0 <= k < i ==> t[k] != s@,
        decreases v.len() - i,
    {
        if same_text(&v[i], s) {
            assert(t[i as int] == s@);
            return true;
        }
        i += 1;
    }
    false
}

pub open spec fn opt_route(b: Option<Route>) -> Option<RouteView> {
    match b {
        Some(r) => Some(r@),
        None => None,
    }
}

/// `w` ranks no earlier than the incumbent `b`, which exists.
pub open spec fn covered(n: NetworkView, p: PaymentView, w: Seq<Step>, b: Option<RouteView>) -> bool {
    b matches Some(bb) && !rank_lt(walk_route(n, p.sender, w), bb)
}

/// The incumbent `b` is no worse than `b0`.
pub open spec fn no_worse(b: Option<RouteView>, b0: Option<RouteView>) -> bool {
    b0 matches Some(x) ==> (b matches Some(y) && (y == x || rank_lt(y, x)))
}

/// Every feasible completion of `w0` whose first extra hop uses a rail before `ri`,
/// or rail `ri` towards a member in `done`, is covered by `b`.
#[verifier::opaque]
pub open spec fn covered_below(
    n: NetworkView,
    p: PaymentView,
    w0: Seq<Step>,
    b: Option<RouteView>,
    ri: int,
    done: Seq<Seq<char>>,
) -> bool {
    forall|w: Seq<Step>|
        #![trigger extends(w, w0)]
        extends(w, w0) && feasible_walk(n, p, w) && w.len() > w0.len() && (w[w0.len() as int].rail
            < ri || (w[w0.len() as int].rail == ri && done.contains(w[w0.len() as int].to)))
            ==> covered(n, p, w, b)
}

/// Every feasible completion of `w0` is covered by `b`.
pub open spec fn covers_completions(
    n: NetworkView,
    p: PaymentView,
    w0: Seq<Step>,
    b: Option<RouteView>,
) -> bool {
    forall|w: Seq<Step>| #![trigger extends(w, w0)] extends(w, w0) && feasible_walk(n, p, w) ==> covered(n, p, w, b)
}

proof fn lemma_covered_monotone(
    n: NetworkView,
    p: PaymentView,
    w: Seq<Step>,
    b0: Option<RouteView>,
    b: Option<RouteView>,
)
    requires
        covered(n, p, w, b0),
        no_worse(b, b0),
    ensures
        covered(n, p, w, b),
{
    let x = b0->0;
    let y = b->0;
    if y != x && rank_lt(walk_route(n, p.sender, w), y) {
        lemma_rank_lt_transitive(walk_route(n, p.sender, w), y, x);
    }
}

proof fn lemma_no_worse_transitive(a: Option<RouteView>, b: Option<RouteView>, c: Option<RouteView>)
    requires
        no_worse(a, b),
        no_worse(b, c),
    ensures
        no_worse(a, c),
{
    if c is Some {
        let x = a->0;
        let y = b->0;
        let z = c->0;
        if x != y && y != z {
            lemma_rank_lt_transitive(x, y, z);
        }
    }
}

proof fn lemma_no_worse_refl(a: Option<RouteView>)
    ensures
        no_worse(a, a),
{
}

#[verifier::spinoff_prover]
#[verifier::rlimit(40)]
proof fn lemma_covered_below_start(n: NetworkView, p: PaymentView, w0: Seq<Step>, b: Option<RouteView>)
    ensures
        covered_below(n, p, w0, b, 0, Seq::empty()),
{
    reveal(covered_below);
    assert forall|w: Seq<Step>|
        extends(w, w0) && feasible_walk(n, p, w) && w.len() > w0.len() && (w[w0.len() as int].rail
            < 0 || (w[w0.len() as int].rail == 0 && Seq::<Seq<char>>::empty().contains(
            w[w0.len() as int].to,
        ))) implies #[trigger] covered(n, p, w, b) by {
        assert(step_ok(n, p, walk_nodes(p.sender, w)[w0.len() as int], w[w0.len() as int]));
    }
}

#[verifier::spinoff_prover]
#[verifier::rlimit(40)]
proof fn lemma_covered_below_monotone(
    n: NetworkView,
    p: PaymentView,
    w0: Seq<Step>,
    b0: Option<RouteView>,
    b: Option<RouteView>,
    ri: int,
    done: Seq<Seq<char>>,
)
    requires
        covered_below(n, p, w0, b0, ri, done),
        no_worse(b, b0),
    ensures
        covered_below(n, p, w0, b, ri, done),
{
    reveal(covered_below);
    assert forall|w: Seq<Step>|
        extends(w, w0) && feasible_walk(n, p, w) && w.len() > w0.len() && (w[w0.len() as int].rail
            < ri || (w[w0.len() as int].rail == ri && done.contains(w[w0.len() as int].to)))
            implies #[trigger] covered(n, p, w, b) by {
        assert(covered(n, p, w, b0));
        lemma_covered_monotone(n, p, w, b0, b);
    }
}

/// The first extra hop of a completion starts at the last node of `w0`.
#[verifier::spinoff_prover]
#[verifier::rlimit(40)]
pub proof fn lemma_first_extra_step(n: NetworkView, p: PaymentView, w0: Seq<Step>, w: Seq<Step>)
    requires
        extends(w, w0),
        w.len() > w0.len(),
        feasible_walk(n, p, w),
    ensures
        step_ok(n, p, walk_nodes(p.sender, w0).last(), w[w0.len() as int]),
        !walk_nodes(p.sender, w0).contains(w[w0.len() as int].to),
        forall|k: int| 0 <= k < w0.len() ==> w[k] == w0[k],
{
    let nodes = walk_nodes(p.sender, w);
    let nodes0 = walk_nodes(p.sender, w0);
    assert forall|k: int| 0 <= k < w0.len() implies w[k] == w0[k] by {
        assert(w.take(w0.len() as int)[k] == w[k]);
    }
    assert forall|k: int| 0 <= k < nodes0.len() implies nodes[k] == nodes0[k] by {
        if k > 0 {
            assert(w[k - 1] == w0[k - 1]);
        }
    }
    assert(step_ok(n, p, nodes[w0.len() as int], w[w0.len() as int]));
    if nodes0.contains(w[w0.len() as int].to) {
        let m = choose|m: int| 0 <= m < nodes0.len() && #[trigger] nodes0[m] == w[w0.len() as int].to;
        assert(nodes[m] == nodes0[m]);
        assert(nodes[w0.len() as int + 1] == w[w0.len() as int].to);
    }
}

#[verifier::spinoff_prover]
#[verifier::rlimit(40)]
proof fn lemma_covered_below_skip_rail(
    n: NetworkView,
    p: PaymentView,
    w0: Seq<Step>,
    b: Option<RouteView>,
    ri: int,
)
    requires
        covered_below(n, p, w0, b, ri, Seq::empty()),
        0 <= ri < n.rails.len(),
        !(rail_admits(n.rails[ri], p.amount_cents) && n.rails[ri].participants.contains(
            walk_nodes(p.sender, w0).last(),
        )),
    ensures
        covered_below(n, p, w0, b, ri + 1, Seq::empty()),
{
    reveal(covered_below);
    assert forall|w: Seq<Step>|
        extends(w, w0) && feasible_walk(n, p, w) && w.len() > w0.len() && (w[w0.len() as int].rail
            < ri + 1 || (w[w0.len() as int].rail == ri + 1 && Seq::<Seq<char>>::empty().contains(
            w[w0.len() as int].to,
        ))) implies #[trigger] covered(n, p, w, b) by {
        lemma_first_extra_step(n, p, w0, w);
    }
}

#[verifier::spinoff_prover]
#[verifier::rlimit(40)]
proof fn lemma_covered_below_next_rail(
    n: NetworkView,
    p: PaymentView,
    w0: Seq<Step>,
    b: Option<RouteView>,
    ri: int,
)
    requires
        covered_below(n, p, w0, b, ri, n.rails[ri].participants),
        0 <= ri < n.rails.len(),
    ensures
        covered_below(n, p, w0, b, ri + 1, Seq::empty()),
{
    reveal(covered_below);
    assert forall|w: Seq<Step>|
        extends(w, w0) && feasible_walk(n, p, w) && w.len() > w0.len() && (w[w0.len() as int].rail
            < ri + 1 || (w[w0.len() as int].rail == ri + 1 && Seq::<Seq<char>>::empty().contains(
            w[w0.len() as int].to,
        ))) implies #[trigger] covered(n, p, w, b) by {
        lemma_first_extra_step(n, p, w0, w);
    }
}

#[verifier::spinoff_prover]
#[verifier::rlimit(40)]
proof fn lemma_covered_below_skip_member(
    n: NetworkView,
    p: PaymentView,
    w0: Seq<Step>,
    b: Option<RouteView>,
    ri: int,
    members: Seq<Seq<char>>,
    k: int,
)
    requires
        covered_below(n, p, w0, b, ri, members.take(k)),
        0 <= k < members.len(),
        walk_nodes(p.sender, w0).contains(members[k]),
    ensures
        covered_below(n, p, w0, b, ri, members.take(k + 1)),
{
    reveal(covered_below);
    assert forall|w: Seq<Step>|
        extends(w, w0) && feasible_walk(n, p, w) && w.len() > w0.len() && (w[w0.len() as int].rail
            < ri || (w[w0.len() as int].rail == ri && members.take(k + 1).contains(
            w[w0.len() as int].to,
        ))) implies #[trigger] covered(n, p, w, b) by {
        lemma_first_extra_step(n, p, w0, w);
        let t = w[w0.len() as int].to;
        if w[w0.len() as int].rail == ri {
            let kk = choose|kk: int| 0 <= kk < k + 1 && #[trigger] members.take(k + 1)[kk] == t;
            if kk < k {
                assert(members.take(k)[kk] == t);
            }
        }
    }
}

#[verifier::spinoff_prover]
#[verifier::rlimit(40)]
proof fn lemma_covered_below_after_call(
    n: NetworkView,
    p: PaymentView,
    w0: Seq<Step>,
    b0: Option<RouteView>,
    b: Option<RouteView>,
    ri: int,
    members: Seq<Seq<char>>,
    k: int,
)
    requires
        covered_below(n, p, w0, b0, ri, members.take(k)),
        0 <= k < members.len(),
        no_worse(b, b0),
        covers_completions(n, p, w0.push(Step { rail: ri, to: members[k] }), b),
    ensures
        covered_below(n, p, w0, b, ri, members.take(k + 1)),
{
    reveal(covered_below);
    let s = Step { rail: ri, to: members[k] };
    let w1 = w0.push(s);
    assert forall|w: Seq<Step>|
        extends(w, w0) && feasible_walk(n, p, w) && w.len() > w0.len() && (w[w0.len() as int].rail
            < ri || (w[w0.len() as int].rail == ri && members.take(k + 1).contains(
            w[w0.len() as int].to,
        ))) implies #[trigger] covered(n, p, w, b) by {
        let t = w[w0.len() as int].to;
        if w[w0.len() as int].rail == ri && t == members[k] {
            lemma_first_extra_step(n, p, w0, w);
            assert(w[w0.len() as int] == s);
            assert(w.take(w1.len() as int) =~= w1);
            assert(extends(w, w1));
        } else {
            if w[w0.len() as int].rail == ri {
                let kk = choose|kk: int| 0 <= kk < k + 1 && #[trigger] members.take(k + 1)[kk] == t;
                if kk < k {
                    assert(members.take(k)[kk] == t);
                }
            }
            assert(covered(n, p, w, b0));
            lemma_covered_monotone(n, p, w, b0, b);
        }
    }
}

#[verifier::spinoff_prover]
#[verifier::rlimit(40)]
proof fn lemma_covered_all(n: NetworkView, p: PaymentView, w0: Seq<Step>, b: Option<RouteView>)
    requires
        covered_below(n, p, w0, b, n.rails.len() as int, Seq::empty()),
        walk_nodes(p.sender, w0).last() != p.receiver,
    ensures
        covers_completions(n, p, w0, b),
{
    reveal(covered_below);
    assert forall|w: Seq<Step>| extends(w, w0) && feasible_walk(n, p, w) implies #[trigger] covered(
        n,
        p,
        w,
        b,
    ) by {
        if w.len() == w0.len() {
            assert(w =~= w0);
        } else {
            lemma_first_extra_step(n, p, w0, w);
        }
    }
}

/// Extending an allowed walk by an allowed hop to a new institution.
#[verifier::spinoff_prover]
#[verifier::rlimit(40)]
pub proof fn lemma_extend_walk(n: NetworkView, p: PaymentView, w0: Seq<Step>, s: Step)
    requires
        valid_network(n),
        is_institution(n, p.sender),
        walk_ok(n, p, w0),
        step_ok(n, p, walk_nodes(p.sender, w0).last(), s),
        !walk_nodes(p.sender, w0).contains(s.to),
        n.institutions.len() < 0x1_0000_0000_0000_0000,
    ensures
        walk_ok(n, p, w0.push(s)),
        walk_nodes(p.sender, w0.push(s)) == walk_nodes(p.sender, w0).push(s.to),
        walk_nodes(p.sender, w0.push(s)).len() <= n.institutions.len(),
        walk_hops(n, p.sender, w0.push(s)) == walk_hops(n, p.sender, w0).push(
            HopView { rail: n.rails[s.rail].id, sender: walk_nodes(p.sender, w0).last(), receiver: s.to },
        ),
        walk_fee(n, w0.push(s)) == walk_fee(n, w0) + n.rails[s.rail].fee_cents,
        walk_minutes(n, w0.push(s)) == walk_minutes(n, w0) + n.rails[s.rail].settlement_minutes,
        w0.len() + 1 < 0x1_0000_0000_0000_0000,
{
    let w1 = w0.push(s);
    let nodes0 = walk_nodes(p.sender, w0);
    lemma_nodes_push(p.sender, w0, s);
    let nodes1 = walk_nodes(p.sender, w1);
    assert forall|i: int, j: int|
        0 <= i < nodes1.len() && 0 <= j < nodes1.len() && i != j implies nodes1[i] != nodes1[j] by {
        if i < nodes0.len() && j < nodes0.len() {
            assert(nodes1[i] == nodes0[i]);
            assert(nodes1[j] == nodes0[j]);
        } else if i < nodes0.len() {
            assert(nodes1[i] == nodes0[i]);
        } else if j < nodes0.len() {
            assert(nodes1[j] == nodes0[j]);
        }
    }
    assert forall|j: int| 0 <= j < w1.len() implies step_ok(
        n,
        p,
        walk_nodes(p.sender, w1)[j],
        #[trigger] w1[j],
    ) by {
        if j < w0.len() {
            assert(w1[j] == w0[j]);
            assert(nodes1[j] == nodes0[j]);
        }
    }
    lemma_walk_nodes_institutions(n, p, w1);
    lemma_distinct_institutions_bound(n, nodes1);
    assert(w1.drop_last() =~= w0);
    assert forall|j: int| 0 <= j < w1.len() implies walk_hops(n, p.sender, w1)[j]
        == walk_hops(n, p.sender, w0).push(
        HopView { rail: n.rails[s.rail].id, sender: nodes0.last(), receiver: s.to },
    )[j] by {
        if j < w0.len() {
            assert(w1[j] == w0[j]);
            assert(nodes1[j] == nodes0[j]);
        }
    }
    assert(walk_hops(n, p.sender, w1) =~= walk_hops(n, p.sender, w0).push(
        HopView { rail: n.rails[s.rail].id, sender: nodes0.last(), receiver: s.to },
    ));
}

pub proof fn lemma_u128_sum_bounds(len: int)
    requires
        0 <= len,
        len + 1 < 0x1_0000_0000_0000_0000,
    ensures
        len * 0xffff_ffff_ffff_ffff + 0xffff_ffff_ffff_ffff == (len + 1) * 0xffff_ffff_ffff_ffff,
        len * 0xffff_ffff + 0xffff_ffff == (len + 1) * 0xffff_ffff,
        (len + 1) * 0xffff_ffff_ffff_ffff < 0x1_0000_0000_0000_0000_0000_0000_0000_0000,
        (len + 1) * 0xffff_ffff < 0x1_0000_0000_0000_0000_0000_0000_0000_0000,
{
    assert(len * 0xffff_ffff_ffff_ffff + 0xffff_ffff_ffff_ffff == (len + 1) * 0xffff_ffff_ffff_ffff)
        by (nonlinear_arith);
    assert(len * 0xffff_ffff + 0xffff_ffff == (len + 1) * 0xffff_ffff) by (nonlinear_arith);
    assert((len + 1) * 0xffff_ffff_ffff_ffff < 0x1_0000_0000_0000_0000_0000_0000_0000_0000)
        by (nonlinear_arith)
        requires
            0 <= len,
            len + 1 < 0x1_0000_0000_0000_0000,
    ;
    assert((len + 1) * 0xffff_ffff < 0x1_0000_0000_0000_0000_0000_0000_0000_0000) by (nonlinear_arith)
        requires
            0 <= len,
            len + 1 < 0x1_0000_0000_0000_0000,
    ;
}

/// Depth-first search over simple paths. On return, `visited` and `path` are as on
/// entry, and `best` is no worse than before and ranks no later than every feasible
/// completion of the walk so far.
#[verifier::spinoff_prover]
#[verifier::rlimit(60)]
fn visit(
    network: &Network,
    current: &String,
    payment: &Payment,
    visited: &mut Vec<String>,
    path: &mut Route,
    best: &mut Option<Route>,
    Ghost(w0): Ghost<Seq<Step>>,
)
    requires
        valid_network(network@),
        is_institution(network@, payment@.sender),
        walk_ok(network@, payment@, w0),
        texts(old(visited)@) == walk_nodes(payment@.sender, w0),
        current@ == walk_nodes(payment@.sender, w0).last(),
        old(path)@ == walk_route(network@, payment@.sender, w0),
        *old(best) matches Some(b) ==> is_route(network@, payment@, b@),
    ensures
        final(visited)@ == old(visited)@,
        final(path)@ == old(path)@,
        *final(best) matches Some(b) ==> is_route(network@, payment@, b@),
        no_worse(opt_route(*final(best)), opt_route(*old(best))),
        covers_completions(network@, payment@, w0, opt_route(*final(best))),
    decreases network.institutions.len() - old(visited)@.len(),
{
    let ghost n = network@;
    let ghost p = payment@;
    let ghost nodes0 = walk_nodes(p.sender, w0);
    proof {
        lemma_walk_nodes_institutions(n, p, w0);
        lemma_distinct_institutions_bound(n, nodes0);
        lemma_walk_fee_bound(n, w0);
        lemma_no_worse_refl(opt_route(*best));
    }
    if let Some(deadline) = payment.max_delivery_minutes {
        if path.total_settlement_minutes > deadline as u128 {
            proof {
                assert forall|w: Seq<Step>|
                    extends(w, w0) && feasible_walk(n, p, w) implies #[trigger] covered(
                    n,
                    p,
                    w,
                    opt_route(*best),
                ) by {
                    lemma_walk_sums_monotone(n, w, w0);
                }
            }
            return;
        }
    }
    if let Some(route) = &*best {
        if path.total_fee_cents > route.total_fee_cents {
            proof {
                assert forall|w: Seq<Step>|
                    extends(w, w0) && feasible_walk(n, p, w) implies #[trigger] covered(
                    n,
                    p,
                    w,
                    opt_route(*best),
                ) by {
                    lemma_walk_sums_monotone(n, w, w0);
                }
            }
            return;
        }
    }
    if same_text(current, &payment.receiver) {
        let improves = match &*best {
            Some(route) => route_less(path, route),
            None => true,
        };
        proof {
            assert(feasible_walk(n, p, w0));
            assert(is_route(n, p, path@));
            assert forall|w: Seq<Step>|
                extends(w, w0) && feasible_walk(n, p, w) implies w == w0 by {
                lemma_no_extension_past_receiver(n, p, w0, w);
            }
            lemma_rank_lt_irreflexive(path@);
        }
        if improves {
            *best = Some(copy_route(path));
        }
        return;
    }
    let ghost best0 = opt_route(*best);
    proof {
        lemma_covered_below_start(n, p, w0, best0);
    }
    let mut ri: usize = 0;
    while ri < network.rails.len()
        invariant
            n == network@,
            p == payment@,
            valid_network(n),
            is_institution(n, p.sender),
            walk_ok(n, p, w0),
            nodes0 == walk_nodes(p.sender, w0),
            texts(visited@) == nodes0,
            visited@ == old(visited)@,
            current@ == nodes0.last(),
            path@ == walk_route(n, p.sender, w0),
            path@ == old(path)@,
            nodes0.len() <= n.institutions.len(),
            walk_fee(n, w0) <= w0.len() * 0xffff_ffff_ffff_ffff,
            walk_minutes(n, w0) <= w0.len() * 0xffff_ffff,
            ri <= network.rails.len(),
            *best matches Some(b) ==> is_route(n, p, b@),
            best0 == opt_route(*old(best)),
            no_worse(opt_route(*best), best0),
            covered_below(n, p, w0, opt_route(*best), ri as int, Seq::empty()),
        decreases network.rails.len() - ri,
    {
        let rail = &network.rails[ri];
        let ghost r = n.rails[ri as int];
        assert(r == rail@);
        let on_rail = contains_text(&rail.participants, current);
        let admits = rail.available && match rail.max_amount_cents {
            Some(limit) => payment.amount_cents <= limit,
            None => true,
        };
        if admits && on_rail {
            proof {
                assert(r.participants.take(0) =~= Seq::<Seq<char>>::empty());
            }
            let mut k: usize = 0;
            while k < rail.participants.len()
                invariant
                    n == network@,
                    p == payment@,
                    valid_network(n),
                    is_institution(n, p.sender),
                    walk_ok(n, p, w0),
                    nodes0 == walk_nodes(p.sender, w0),
                    texts(visited@) == nodes0,
                    visited@ == old(visited)@,
                    current@ == nodes0.last(),
                    path@ == walk_route(n, p.sender, w0),
                    path@ == old(path)@,
                    nodes0.len() <= n.institutions.len(),
                    walk_fee(n, w0) <= w0.len() * 0xffff_ffff_ffff_ffff,
                    walk_minutes(n, w0) <= w0.len() * 0xffff_ffff,
                    ri < network.rails.len(),
                    rail == &network.rails[ri as int],
                    r == rail@,
                    rail_admits(r, p.amount_cents),
                    r.participants.contains(current@),
                    k <= rail.participants.len(),
                    *best matches Some(b) ==> is_route(n, p, b@),
                    best0 == opt_route(*old(best)),
                    no_worse(opt_route(*best), best0),
                    covered_below(n, p, w0, opt_route(*best), ri as int, r.participants.take(k as int)),
                decreases rail.participants.len() - k,
            {
                let next = &rail.participants[k];
                let ghost s = Step { rail: ri as int, to: next@ };
                let ghost w1 = w0.push(s);
                assert(r.participants[k as int] == next@);
                if !contains_text(visited, next) {
                    proof {
                        assert(n.institutions.len() == network.institutions@.len());
                        lemma_extend_walk(n, p, w0, s);
                        lemma_u128_sum_bounds(w0.len() as int);
                    }
                    visited.push(copy_string(next));
                    path.hops.push(
                        RouteHop {
                            rail_id: copy_string(&rail.id),
                            sender: copy_string(current),
                            receiver: copy_string(next),
                        },
                    );
                    path.total_fee_cents = path.total_fee_cents + rail.fee_cents as u128;
                    path.total_settlement_minutes = path.total_settlement_minutes
                        + rail.settlement_minutes as u128;
                    proof {
                        assert(texts(visited@) =~= walk_nodes(p.sender, w1));
                        assert(path@.hops =~= walk_hops(n, p.sender, w1));
                    }
                    let ghost best_before = opt_route(*best);
                    let ghost pushed_hops = path.hops@;
                    visit(network, next, payment, visited, path, best, Ghost(w1));
                    let ghost returned_hops = path.hops@;
                    proof {
                        lemma_covered_below_after_call(
                            n,
                            p,
                            w0,
                            best_before,
                            opt_route(*best),
                            ri as int,
                            r.participants,
                            k as int,
                        );
                        lemma_no_worse_transitive(opt_route(*best), best_before, best0);
                    }
                    path.total_settlement_minutes = path.total_settlement_minutes
                        - rail.settlement_minutes as u128;
                    path.total_fee_cents = path.total_fee_cents - rail.fee_cents as u128;
                    path.hops.pop();
                    visited.pop();
                    proof {
                        assert(visited@ =~= old(visited)@);
                        assert(hop_views(returned_hops) == hop_views(pushed_hops));
                        assert(path.hops@ =~= returned_hops.drop_last());
                        assert(hop_views(pushed_hops).drop_last() =~= old(path)@.hops);
                        assert(hop_views(returned_hops.drop_last()) =~= hop_views(returned_hops).drop_last());
                        assert(path@.hops =~= old(path)@.hops);
                    }
                } else {
                    proof {
                        lemma_covered_below_skip_member(
                            n,
                            p,
                            w0,
                            opt_route(*best),
                            ri as int,
                            r.participants,
                            k as int,
                        );
                    }
                }
                k += 1;
            }
            proof {
                assert(r.participants.take(rail.participants@.len() as int) =~= r.participants);
                lemma_covered_below_next_rail(n, p, w0, opt_route(*best), ri as int);
            }
        } else {
            proof {
                lemma_covered_below_skip_rail(n, p, w0, opt_route(*best), ri as int);
            }
        }
        ri += 1;
    }
    proof {
        lemma_covered_all(n, p, w0, opt_route(*best));
    }
}

/// Return the cheapest route, or `None` for a valid but unreachable payment.
/// The payment may be supplied independently of `network.payments`.
/// Ties prefer lower latency, then fewer hops, then the lexicographically smaller
/// sequence of `(rail_id, sender, receiver)`. Collection ordering is irrelevant.
///
/// A shared rail connects every distinct pair of participants in both directions.
/// Each hop carries the full USD principal and adds one fixed fee and latency.
/// Unavailable rails and rails below the principal's amount are excluded. Total
/// latency must not exceed the payment's optional deadline. The search enumerates
/// simple institution paths: exact, but exponential in the worst case.
pub fn route_payment(network: &Network, payment: &Payment) -> (r: Result<
    Option<Route>,
    ValidationError,
>)
    ensures
        r is Err <==> routing_problem(network@, payment@) is Some,
        r matches Err(e) ==> Some(e@) == routing_problem(network@, payment@),
        r matches Ok(None) ==> !routable(network@, payment@),
        r matches Ok(Some(route)) ==> cheapest_route(network@, payment@, route@),
{
    match network.validate() {
        Ok(()) => {},
        Err(e) => {
            return Err(e);
        },
    }
    match payment.validate(network) {
        Ok(()) => {},
        Err(e) => {
            return Err(e);
        },
    }
    let mut best: Option<Route> = None;
    let mut visited: Vec<String> = Vec::new();
    visited.push(copy_string(&payment.sender));
    let mut path = Route { hops: Vec::new(), total_fee_cents: 0, total_settlement_minutes: 0 };
    let ghost w0 = Seq::<Step>::empty();
    proof {
        let n = network@;
        let p = payment@;
        assert(texts(visited@) =~= walk_nodes(p.sender, w0));
        assert(path@.hops =~= walk_hops(n, p.sender, w0));
        assert(walk_nodes(p.sender, w0) =~= seq![p.sender]);
        assert(is_institution(n, p.sender));
    }
    visit(network, &payment.sender, payment, &mut visited, &mut path, &mut best, Ghost(w0));
    proof {
        let n = network@;
        let p = payment@;
        assert forall|w: Seq<Step>| #[trigger] feasible_walk(n, p, w) implies extends(w, w0) by {
            assert(w.take(0) =~= w0);
        }
        if best is None {
            if routable(n, p) {
                let w = choose|w: Seq<Step>| feasible_walk(n, p, w);
                assert(extends(w, w0));
                assert(covered(n, p, w, opt_route(best)));
            }
        } else {
            let b = best->0;
            assert forall|w: Seq<Step>| feasible_walk(n, p, w) implies !rank_lt(
                #[trigger] walk_route(n, p.sender, w),
                b@,
            ) by {
                assert(extends(w, w0));
                assert(covered(n, p, w, opt_route(best)));
            }
        }
    }
    Ok(best)
}

} // verus!
