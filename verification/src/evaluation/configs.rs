//! The configuration cells of the summary report: a strategy and a world
//! scenario written out field by field, in the shape of a struct literal, with
//! texts between double quotes as written and numbers in decimal.
use vstd::prelude::*;
use crate::network::{Institution, Network, Payment, Rail};
use crate::scalable::SearchLimits;
use crate::simulation::config::{ArrivalProcess, PaymentFlow, RailService, RoutingStrategy, Scenario};
use crate::simulation::disruption::{Disruption, RailUpdate, ReoptimizationPolicy};
use crate::text::{decimal, push_decimal};
use super::Strategy;

verus! {

// ---------------------------------------------------------------------------
// What each value is written as.

pub open spec fn quoted(s: Seq<char>) -> Seq<char> {
    "\""@ + s + "\""@
}

pub open spec fn num(n: int) -> Seq<char> {
    decimal(n as nat)
}

pub open spec fn flag(b: bool) -> Seq<char> {
    if b {
        "true"@
    } else {
        "false"@
    }
}

pub open spec fn maybe_num(o: Option<u64>) -> Seq<char> {
    match o {
        Some(n) => "Some("@ + num(n as int) + ")"@,
        None => "None"@,
    }
}

pub open spec fn maybe_flag(o: Option<bool>) -> Seq<char> {
    match o {
        Some(b) => "Some("@ + flag(b) + ")"@,
        None => "None"@,
    }
}

pub open spec fn maybe_limit(o: Option<Option<u64>>) -> Seq<char> {
    match o {
        Some(inner) => "Some("@ + maybe_num(inner) + ")"@,
        None => "None"@,
    }
}

/// The items written one after another, separated by a comma and a space.
pub open spec fn joined<T>(items: Seq<T>, f: spec_fn(T) -> Seq<char>) -> Seq<char>
    decreases items.len(),
{
    if items.len() == 0 {
        Seq::empty()
    } else {
        joined(items.drop_last(), f) + separator(items.len() - 1) + f(items.last())
    }
}

pub open spec fn separator(i: int) -> Seq<char> {
    if i == 0 {
        Seq::empty()
    } else {
        ", "@
    }
}

pub open spec fn listed<T>(items: Seq<T>, f: spec_fn(T) -> Seq<char>) -> Seq<char> {
    "["@ + joined(items, f) + "]"@
}

pub open spec fn limits_text(l: SearchLimits) -> Seq<char> {
    "SearchLimits { labels_per_node: "@ + num(l.labels_per_node as int) + ", max_labels: "@ + num(
        l.max_labels as int,
    ) + ", max_expansions: "@ + num(l.max_expansions as int) + ", max_candidates: "@ + num(
        l.max_candidates as int,
    ) + ", max_repairs: "@ + num(l.max_repairs as int) + " }"@
}

pub open spec fn routing_text(r: RoutingStrategy) -> Seq<char> {
    match r {
        RoutingStrategy::CheapestStatic => "CheapestStatic"@,
        RoutingStrategy::Reserved { limits } => "Reserved { limits: "@ + limits_text(limits) + " }"@,
    }
}

pub open spec fn policy_text(p: ReoptimizationPolicy) -> Seq<char> {
    match p {
        ReoptimizationPolicy::Preserve => "Preserve"@,
        ReoptimizationPolicy::Recompute => "Recompute"@,
        ReoptimizationPolicy::Adaptive { max_extra_fee_cents, max_extra_elapsed_minutes } => "Adaptive { max_extra_fee_cents: "@
            + num(max_extra_fee_cents as int) + ", max_extra_elapsed_minutes: "@ + num(
            max_extra_elapsed_minutes as int,
        ) + " }"@,
    }
}

/// A strategy's configuration cell.
pub open spec fn strategy_text(s: Strategy) -> Seq<char> {
    "Strategy { name: "@ + quoted(s.name@) + ", routing: "@ + routing_text(s.routing) + ", reoptimization: "@
        + policy_text(s.reoptimization) + " }"@
}

pub open spec fn institution_text(i: Institution) -> Seq<char> {
    "Institution { id: "@ + quoted(i.id@) + ", name: "@ + quoted(i.name@) + ", opening_balance_cents: "@ + num(
        i.opening_balance_cents as int,
    ) + " }"@
}

pub open spec fn member_text(m: String) -> Seq<char> {
    quoted(m@)
}

pub open spec fn rail_text(r: Rail) -> Seq<char> {
    "Rail { id: "@ + quoted(r.id@) + ", name: "@ + quoted(r.name@) + ", participants: "@ + listed(
        r.participants@,
        |m: String| member_text(m),
    ) + ", fee_cents: "@ + num(r.fee_cents as int) + ", settlement_minutes: "@ + num(r.settlement_minutes as int)
        + ", available: "@ + flag(r.available) + ", max_amount_cents: "@ + maybe_num(r.max_amount_cents)
        + ", batch_capacity_cents: "@ + maybe_num(r.batch_capacity_cents) + " }"@
}

pub open spec fn payment_text(p: Payment) -> Seq<char> {
    "Payment { id: "@ + quoted(p.id@) + ", sender: "@ + quoted(p.sender@) + ", receiver: "@ + quoted(p.receiver@)
        + ", amount_cents: "@ + num(p.amount_cents as int) + ", max_delivery_minutes: "@ + maybe_num(
        p.max_delivery_minutes,
    ) + " }"@
}

pub open spec fn network_text(n: Network) -> Seq<char> {
    "Network { name: "@ + quoted(n.name@) + ", institutions: "@ + listed(
        n.institutions@,
        |i: Institution| institution_text(i),
    ) + ", rails: "@ + listed(n.rails@, |r: Rail| rail_text(r)) + ", payments: "@ + listed(
        n.payments@,
        |p: Payment| payment_text(p),
    ) + " }"@
}

pub open spec fn flow_text(f: PaymentFlow) -> Seq<char> {
    "PaymentFlow { sender: "@ + quoted(f.sender@) + ", receiver: "@ + quoted(f.receiver@) + " }"@
}

pub open spec fn arrivals_text(a: ArrivalProcess) -> Seq<char> {
    "ArrivalProcess { attempts_per_minute: "@ + num(a.attempts_per_minute as int) + ", probability_per_million: "@
        + num(a.probability_per_million as int) + ", flows: "@ + listed(a.flows@, |f: PaymentFlow| flow_text(f))
        + ", min_amount_cents: "@ + num(a.min_amount_cents as int) + ", max_amount_cents: "@ + num(
        a.max_amount_cents as int,
    ) + ", min_sla_minutes: "@ + num(a.min_sla_minutes as int) + ", max_sla_minutes: "@ + num(
        a.max_sla_minutes as int,
    ) + " }"@
}

pub open spec fn service_text(s: RailService) -> Seq<char> {
    "RailService { rail_id: "@ + quoted(s.rail_id@) + ", period_minutes: "@ + num(s.period_minutes as int)
        + ", offset_minutes: "@ + num(s.offset_minutes as int) + ", open_minutes: "@ + num(s.open_minutes as int)
        + ", capacity_per_minute_cents: "@ + maybe_num(s.capacity_per_minute_cents) + " }"@
}

pub open spec fn update_text(u: RailUpdate) -> Seq<char> {
    "RailUpdate { rail_id: "@ + quoted(u.rail_id@) + ", available: "@ + maybe_flag(u.available)
        + ", capacity_per_minute_cents: "@ + maybe_limit(u.capacity_per_minute_cents) + " }"@
}

pub open spec fn disruption_text(d: Disruption) -> Seq<char> {
    "Disruption { minute: "@ + num(d.minute as int) + ", update: "@ + update_text(d.update) + " }"@
}

/// A world scenario's configuration cell.
pub open spec fn scenario_text(s: Scenario) -> Seq<char> {
    "Scenario { network: "@ + network_text(s.network) + ", arrivals: "@ + arrivals_text(s.arrivals) + ", services: "@
        + listed(s.services@, |v: RailService| service_text(v)) + ", strategy: "@ + routing_text(s.strategy)
        + ", max_active_payments: "@ + num(s.max_active_payments as int) + ", retained_events: "@ + num(
        s.retained_events as int,
    ) + ", disruptions: "@ + listed(s.disruptions@, |d: Disruption| disruption_text(d)) + " }"@
}

proof fn lemma_joined_step<T>(items: Seq<T>, i: int, f: spec_fn(T) -> Seq<char>)
    requires
        0 <= i < items.len(),
    ensures
        joined(items.take(i + 1), f) == joined(items.take(i), f) + separator(i) + f(items[i]),
{
    assert(items.take(i + 1).drop_last() =~= items.take(i));
}

// ---------------------------------------------------------------------------
// Writing them.

fn push_quoted(out: &mut String, s: &String)
    ensures
        final(out)@ == old(out)@ + quoted(s@),
{
    out.append("\"");
    out.append(s.as_str());
    out.append("\"");
    assert(out@ =~= old(out)@ + quoted(s@));
}

fn push_num(out: &mut String, n: u128)
    ensures
        final(out)@ == old(out)@ + num(n as int),
{
    push_decimal(out, n);
}

fn push_flag(out: &mut String, b: bool)
    ensures
        final(out)@ == old(out)@ + flag(b),
{
    if b {
        out.append("true");
    } else {
        out.append("false");
    }
}

fn push_maybe_num(out: &mut String, o: Option<u64>)
    ensures
        final(out)@ == old(out)@ + maybe_num(o),
{
    match o {
        Some(n) => {
            out.append("Some(");
            push_num(out, n as u128);
            out.append(")");
        },
        None => {
            out.append("None");
        },
    }
    assert(out@ =~= old(out)@ + maybe_num(o));
}

fn push_maybe_flag(out: &mut String, o: Option<bool>)
    ensures
        final(out)@ == old(out)@ + maybe_flag(o),
{
    match o {
        Some(b) => {
            out.append("Some(");
            push_flag(out, b);
            out.append(")");
        },
        None => {
            out.append("None");
        },
    }
    assert(out@ =~= old(out)@ + maybe_flag(o));
}

fn push_maybe_limit(out: &mut String, o: Option<Option<u64>>)
    ensures
        final(out)@ == old(out)@ + maybe_limit(o),
{
    match o {
        Some(inner) => {
            out.append("Some(");
            push_maybe_num(out, inner);
            out.append(")");
        },
        None => {
            out.append("None");
        },
    }
    assert(out@ =~= old(out)@ + maybe_limit(o));
}

fn push_limits(out: &mut String, l: SearchLimits)
    ensures
        final(out)@ == old(out)@ + limits_text(l),
{
    out.append("SearchLimits { labels_per_node: ");
    push_num(out, l.labels_per_node as u128);
    out.append(", max_labels: ");
    push_num(out, l.max_labels as u128);
    out.append(", max_expansions: ");
    push_num(out, l.max_expansions as u128);
    out.append(", max_candidates: ");
    push_num(out, l.max_candidates as u128);
    out.append(", max_repairs: ");
    push_num(out, l.max_repairs as u128);
    out.append(" }");
    assert(out@ =~= old(out)@ + limits_text(l));
}

fn push_routing(out: &mut String, r: RoutingStrategy)
    ensures
        final(out)@ == old(out)@ + routing_text(r),
{
    match r {
        RoutingStrategy::CheapestStatic => {
            out.append("CheapestStatic");
        },
        RoutingStrategy::Reserved { limits } => {
            out.append("Reserved { limits: ");
            push_limits(out, limits);
            out.append(" }");
        },
    }
    assert(out@ =~= old(out)@ + routing_text(r));
}

fn push_policy(out: &mut String, p: ReoptimizationPolicy)
    ensures
        final(out)@ == old(out)@ + policy_text(p),
{
    match p {
        ReoptimizationPolicy::Preserve => {
            out.append("Preserve");
        },
        ReoptimizationPolicy::Recompute => {
            out.append("Recompute");
        },
        ReoptimizationPolicy::Adaptive { max_extra_fee_cents, max_extra_elapsed_minutes } => {
            out.append("Adaptive { max_extra_fee_cents: ");
            push_num(out, max_extra_fee_cents);
            out.append(", max_extra_elapsed_minutes: ");
            push_num(out, max_extra_elapsed_minutes);
            out.append(" }");
        },
    }
    assert(out@ =~= old(out)@ + policy_text(p));
}

/// A strategy's configuration cell.
pub fn describe_strategy(s: &Strategy) -> (r: String)
    ensures
        r@ == strategy_text(*s),
{
    let mut out = String::new();
    out.append("Strategy { name: ");
    push_quoted(&mut out, &s.name);
    out.append(", routing: ");
    push_routing(&mut out, s.routing);
    out.append(", reoptimization: ");
    push_policy(&mut out, s.reoptimization);
    out.append(" }");
    assert(out@ =~= strategy_text(*s));
    out
}

fn push_institution(out: &mut String, i: &Institution)
    ensures
        final(out)@ == old(out)@ + institution_text(*i),
{
    out.append("Institution { id: ");
    push_quoted(out, &i.id);
    out.append(", name: ");
    push_quoted(out, &i.name);
    out.append(", opening_balance_cents: ");
    push_num(out, i.opening_balance_cents as u128);
    out.append(" }");
    assert(out@ =~= old(out)@ + institution_text(*i));
}

fn push_members(out: &mut String, items: &Vec<String>)
    ensures
        final(out)@ == old(out)@ + listed(items@, |m: String| member_text(m)),
{
    out.append("[");
    let mut i: usize = 0;
    while i < items.len()
        invariant
            i <= items@.len(),
            out@ == old(out)@ + "["@ + joined(items@.take(i as int), |m: String| member_text(m)),
        decreases items@.len() - i,
    {
        proof {
            lemma_joined_step(items@, i as int, |m: String| member_text(m));
        }
        let ghost before = out@;
        if i > 0 {
            out.append(", ");
        }
        push_quoted(out, &items[i]);
        assert(out@ =~= before + separator(i as int) + (|m: String| member_text(m))(items@[i as int]));
        i += 1;
    }
    out.append("]");
    assert(items@.take(items@.len() as int) =~= items@);
    assert(out@ =~= old(out)@ + listed(items@, |m: String| member_text(m)));
}

fn push_institutions(out: &mut String, items: &Vec<Institution>)
    ensures
        final(out)@ == old(out)@ + listed(items@, |x: Institution| institution_text(x)),
{
    out.append("[");
    let mut i: usize = 0;
    while i < items.len()
        invariant
            i <= items@.len(),
            out@ == old(out)@ + "["@ + joined(items@.take(i as int), |x: Institution| institution_text(x)),
        decreases items@.len() - i,
    {
        proof {
            lemma_joined_step(items@, i as int, |x: Institution| institution_text(x));
        }
        let ghost before = out@;
        if i > 0 {
            out.append(", ");
        }
        push_institution(out, &items[i]);
        assert(out@ =~= before + separator(i as int) + (|x: Institution| institution_text(x))(items@[i as int]));
        i += 1;
    }
    out.append("]");
    assert(items@.take(items@.len() as int) =~= items@);
    assert(out@ =~= old(out)@ + listed(items@, |x: Institution| institution_text(x)));
}

fn push_rail(out: &mut String, r: &Rail)
    ensures
        final(out)@ == old(out)@ + rail_text(*r),
{
    out.append("Rail { id: ");
    push_quoted(out, &r.id);
    out.append(", name: ");
    push_quoted(out, &r.name);
    out.append(", participants: ");
    push_members(out, &r.participants);
    out.append(", fee_cents: ");
    push_num(out, r.fee_cents as u128);
    out.append(", settlement_minutes: ");
    push_num(out, r.settlement_minutes as u128);
    out.append(", available: ");
    push_flag(out, r.available);
    out.append(", max_amount_cents: ");
    push_maybe_num(out, r.max_amount_cents);
    out.append(", batch_capacity_cents: ");
    push_maybe_num(out, r.batch_capacity_cents);
    out.append(" }");
    assert(out@ =~= old(out)@ + rail_text(*r));
}

fn push_rails(out: &mut String, items: &Vec<Rail>)
    ensures
        final(out)@ == old(out)@ + listed(items@, |x: Rail| rail_text(x)),
{
    out.append("[");
    let mut i: usize = 0;
    while i < items.len()
        invariant
            i <= items@.len(),
            out@ == old(out)@ + "["@ + joined(items@.take(i as int), |x: Rail| rail_text(x)),
        decreases items@.len() - i,
    {
        proof {
            lemma_joined_step(items@, i as int, |x: Rail| rail_text(x));
        }
        let ghost before = out@;
        if i > 0 {
            out.append(", ");
        }
        push_rail(out, &items[i]);
        assert(out@ =~= before + separator(i as int) + (|x: Rail| rail_text(x))(items@[i as int]));
        i += 1;
    }
    out.append("]");
    assert(items@.take(items@.len() as int) =~= items@);
    assert(out@ =~= old(out)@ + listed(items@, |x: Rail| rail_text(x)));
}

fn push_payment(out: &mut String, p: &Payment)
    ensures
        final(out)@ == old(out)@ + payment_text(*p),
{
    out.append("Payment { id: ");
    push_quoted(out, &p.id);
    out.append(", sender: ");
    push_quoted(out, &p.sender);
    out.append(", receiver: ");
    push_quoted(out, &p.receiver);
    out.append(", amount_cents: ");
    push_num(out, p.amount_cents as u128);
    out.append(", max_delivery_minutes: ");
    push_maybe_num(out, p.max_delivery_minutes);
    out.append(" }");
    assert(out@ =~= old(out)@ + payment_text(*p));
}

fn push_payments(out: &mut String, items: &Vec<Payment>)
    ensures
        final(out)@ == old(out)@ + listed(items@, |x: Payment| payment_text(x)),
{
    out.append("[");
    let mut i: usize = 0;
    while i < items.len()
        invariant
            i <= items@.len(),
            out@ == old(out)@ + "["@ + joined(items@.take(i as int), |x: Payment| payment_text(x)),
        decreases items@.len() - i,
    {
        proof {
            lemma_joined_step(items@, i as int, |x: Payment| payment_text(x));
        }
        let ghost before = out@;
        if i > 0 {
            out.append(", ");
        }
        push_payment(out, &items[i]);
        assert(out@ =~= before + separator(i as int) + (|x: Payment| payment_text(x))(items@[i as int]));
        i += 1;
    }
    out.append("]");
    assert(items@.take(items@.len() as int) =~= items@);
    assert(out@ =~= old(out)@ + listed(items@, |x: Payment| payment_text(x)));
}

fn push_network(out: &mut String, n: &Network)
    ensures
        final(out)@ == old(out)@ + network_text(*n),
{
    out.append("Network { name: ");
    push_quoted(out, &n.name);
    out.append(", institutions: ");
    push_institutions(out, &n.institutions);
    out.append(", rails: ");
    push_rails(out, &n.rails);
    out.append(", payments: ");
    push_payments(out, &n.payments);
    out.append(" }");
    assert(out@ =~= old(out)@ + network_text(*n));
}

fn push_flow(out: &mut String, f: &PaymentFlow)
    ensures
        final(out)@ == old(out)@ + flow_text(*f),
{
    out.append("PaymentFlow { sender: ");
    push_quoted(out, &f.sender);
    out.append(", receiver: ");
    push_quoted(out, &f.receiver);
    out.append(" }");
    assert(out@ =~= old(out)@ + flow_text(*f));
}

fn push_flows(out: &mut String, items: &Vec<PaymentFlow>)
    ensures
        final(out)@ == old(out)@ + listed(items@, |x: PaymentFlow| flow_text(x)),
{
    out.append("[");
    let mut i: usize = 0;
    while i < items.len()
        invariant
            i <= items@.len(),
            out@ == old(out)@ + "["@ + joined(items@.take(i as int), |x: PaymentFlow| flow_text(x)),
        decreases items@.len() - i,
    {
        proof {
            lemma_joined_step(items@, i as int, |x: PaymentFlow| flow_text(x));
        }
        let ghost before = out@;
        if i > 0 {
            out.append(", ");
        }
        push_flow(out, &items[i]);
        assert(out@ =~= before + separator(i as int) + (|x: PaymentFlow| flow_text(x))(items@[i as int]));
        i += 1;
    }
    out.append("]");
    assert(items@.take(items@.len() as int) =~= items@);
    assert(out@ =~= old(out)@ + listed(items@, |x: PaymentFlow| flow_text(x)));
}

fn push_arrivals(out: &mut String, a: &ArrivalProcess)
    ensures
        final(out)@ == old(out)@ + arrivals_text(*a),
{
    out.append("ArrivalProcess { attempts_per_minute: ");
    push_num(out, a.attempts_per_minute as u128);
    out.append(", probability_per_million: ");
    push_num(out, a.probability_per_million as u128);
    out.append(", flows: ");
    push_flows(out, &a.flows);
    out.append(", min_amount_cents: ");
    push_num(out, a.min_amount_cents as u128);
    out.append(", max_amount_cents: ");
    push_num(out, a.max_amount_cents as u128);
    out.append(", min_sla_minutes: ");
    push_num(out, a.min_sla_minutes as u128);
    out.append(", max_sla_minutes: ");
    push_num(out, a.max_sla_minutes as u128);
    out.append(" }");
    assert(out@ =~= old(out)@ + arrivals_text(*a));
}

fn push_service(out: &mut String, s: &RailService)
    ensures
        final(out)@ == old(out)@ + service_text(*s),
{
    out.append("RailService { rail_id: ");
    push_quoted(out, &s.rail_id);
    out.append(", period_minutes: ");
    push_num(out, s.period_minutes as u128);
    out.append(", offset_minutes: ");
    push_num(out, s.offset_minutes as u128);
    out.append(", open_minutes: ");
    push_num(out, s.open_minutes as u128);
    out.append(", capacity_per_minute_cents: ");
    push_maybe_num(out, s.capacity_per_minute_cents);
    out.append(" }");
    assert(out@ =~= old(out)@ + service_text(*s));
}

fn push_services(out: &mut String, items: &Vec<RailService>)
    ensures
        final(out)@ == old(out)@ + listed(items@, |x: RailService| service_text(x)),
{
    out.append("[");
    let mut i: usize = 0;
    while i < items.len()
        invariant
            i <= items@.len(),
            out@ == old(out)@ + "["@ + joined(items@.take(i as int), |x: RailService| service_text(x)),
        decreases items@.len() - i,
    {
        proof {
            lemma_joined_step(items@, i as int, |x: RailService| service_text(x));
        }
        let ghost before = out@;
        if i > 0 {
            out.append(", ");
        }
        push_service(out, &items[i]);
        assert(out@ =~= before + separator(i as int) + (|x: RailService| service_text(x))(items@[i as int]));
        i += 1;
    }
    out.append("]");
    assert(items@.take(items@.len() as int) =~= items@);
    assert(out@ =~= old(out)@ + listed(items@, |x: RailService| service_text(x)));
}

fn push_update(out: &mut String, u: &RailUpdate)
    ensures
        final(out)@ == old(out)@ + update_text(*u),
{
    out.append("RailUpdate { rail_id: ");
    push_quoted(out, &u.rail_id);
    out.append(", available: ");
    push_maybe_flag(out, u.available);
    out.append(", capacity_per_minute_cents: ");
    push_maybe_limit(out, u.capacity_per_minute_cents);
    out.append(" }");
    assert(out@ =~= old(out)@ + update_text(*u));
}

fn push_disruption(out: &mut String, d: &Disruption)
    ensures
        final(out)@ == old(out)@ + disruption_text(*d),
{
    out.append("Disruption { minute: ");
    push_num(out, d.minute);
    out.append(", update: ");
    push_update(out, &d.update);
    out.append(" }");
    assert(out@ =~= old(out)@ + disruption_text(*d));
}

fn push_disruptions(out: &mut String, items: &Vec<Disruption>)
    ensures
        final(out)@ == old(out)@ + listed(items@, |x: Disruption| disruption_text(x)),
{
    out.append("[");
    let mut i: usize = 0;
    while i < items.len()
        invariant
            i <= items@.len(),
            out@ == old(out)@ + "["@ + joined(items@.take(i as int), |x: Disruption| disruption_text(x)),
        decreases items@.len() - i,
    {
        proof {
            lemma_joined_step(items@, i as int, |x: Disruption| disruption_text(x));
        }
        let ghost before = out@;
        if i > 0 {
            out.append(", ");
        }
        push_disruption(out, &items[i]);
        assert(out@ =~= before + separator(i as int) + (|x: Disruption| disruption_text(x))(items@[i as int]));
        i += 1;
    }
    out.append("]");
    assert(items@.take(items@.len() as int) =~= items@);
    assert(out@ =~= old(out)@ + listed(items@, |x: Disruption| disruption_text(x)));
}

/// A world scenario's configuration cell.
pub fn describe_scenario(s: &Scenario) -> (r: String)
    ensures
        r@ == scenario_text(*s),
{
    let mut out = String::new();
    out.append("Scenario { network: ");
    push_network(&mut out, &s.network);
    out.append(", arrivals: ");
    push_arrivals(&mut out, &s.arrivals);
    out.append(", services: ");
    push_services(&mut out, &s.services);
    out.append(", strategy: ");
    push_routing(&mut out, s.strategy);
    out.append(", max_active_payments: ");
    push_num(&mut out, s.max_active_payments as u128);
    out.append(", retained_events: ");
    push_num(&mut out, s.retained_events as u128);
    out.append(", disruptions: ");
    push_disruptions(&mut out, &s.disruptions);
    out.append(" }");
    assert(out@ =~= scenario_text(*s));
    out
}

} // verus!
