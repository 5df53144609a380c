use payment_routing::demo::demo_network;
use payment_routing::network::{Institution, Network, Payment, Rail};
use payment_routing::scalable::{plan_schedule, Request, Reservations, Router, SearchLimits};
use payment_routing::scheduling::{optimize_schedule, RailDeparture, ScheduledBatchPlan, TimedPayment};
use payment_routing::simulation::{
    ArrivalProcess, PaymentFlow, RailService, RoutingStrategy, Scenario,
};
use payment_routing::simulation::{EventKind, Simulator};
use std::collections::{BTreeMap, BTreeSet};

/// Deterministic synthetic inputs.
#[derive(Clone, Debug)]
struct StaticCase {
    network: Network,
    payments: Vec<Payment>,
    timed: Vec<TimedPayment>,
    slots: Vec<RailDeparture>,
    expected_fee: Option<u128>,
    expected_infeasible: bool,
}

fn network(n: usize) -> Network {
    Network {
        name: "Benchmark synthetic USD v1".into(),
        institutions: (0..n)
            .map(|i| Institution {
                id: format!("N{i:03}"),
                name: format!("Institution {i}"),
                opening_balance_cents: 0,
            })
            .collect(),
        rails: vec![],
        payments: vec![],
    }
}

fn rail(id: usize, members: Vec<String>, fee: u64, latency: u32) -> Rail {
    Rail {
        id: format!("R{id:03}"),
        name: format!("Synthetic rail {id}"),
        participants: members,
        fee_cents: fee,
        settlement_minutes: latency,
        available: true,
        max_amount_cents: None,
        batch_capacity_cents: None,
    }
}

fn payment(i: usize, to: usize) -> Payment {
    Payment {
        id: format!("P{i:06}"),
        sender: "N000".into(),
        receiver: format!("N{to:03}"),
        amount_cents: 1,
        max_delivery_minutes: None,
    }
}

fn static_case(family: &str, scale: usize) -> StaticCase {
    assert!(scale >= 2);
    let mut case = StaticCase {
        network: network(2),
        payments: vec![],
        timed: vec![],
        slots: vec![],
        expected_fee: None,
        expected_infeasible: false,
    };
    match family {
        "single-positive"
        | "single-zero"
        | "single-deadline"
        | "single-disconnected"
        | "batch-density" => {
            let disconnected = family == "single-disconnected";
            case.network = network(scale + usize::from(disconnected));
            let members = case.network.institutions[..scale]
                .iter()
                .map(|i| i.id.clone())
                .collect();
            let fee = u64::from(family == "single-positive" || family == "batch-density");
            case.network.rails.push(rail(0, members, fee, 1));
            let mut p = payment(0, case.network.institutions.len() - 1);
            if family == "single-deadline" {
                p.max_delivery_minutes = Some(2);
            }
            case.payments.push(p);
            case.expected_fee = (!disconnected).then_some(u128::from(fee));
            case.expected_infeasible = disconnected;
        }
        "single-chain" => {
            case.network = network(scale);
            for i in 0..scale - 1 {
                case.network.rails.push(rail(
                    i,
                    vec![format!("N{i:03}"), format!("N{:03}", i + 1)],
                    1,
                    1,
                ));
            }
            case.payments.push(payment(0, scale - 1));
            case.expected_fee = Some((scale - 1) as u128);
        }
        "batch-volume"
        | "batch-ties"
        | "batch-scarce"
        | "batch-infeasible"
        | "batch-ceiling"
        | "schedule-ties"
        | "schedule-contention"
        | "schedule-deadline"
        | "schedule-slots" => {
            let members = vec!["N000".into(), "N001".into()];
            let tied = family.ends_with("ties");
            case.network.rails = vec![
                rail(0, members.clone(), 1, 0),
                rail(1, members, if tied { 1 } else { 5 }, 0),
            ];
            case.payments = (0..scale).map(|i| payment(i, 1)).collect();
            case.expected_fee = Some(scale as u128);
            if family == "batch-scarce" {
                case.network.rails[0].batch_capacity_cents = Some((scale / 2) as u64);
                case.expected_fee = Some((scale / 2 + 5 * (scale - scale / 2)) as u128);
            }
            if family == "batch-infeasible" {
                case.network.rails[0].batch_capacity_cents = Some((scale / 2) as u64);
                case.network.rails[1].batch_capacity_cents = Some((scale - 1 - scale / 2) as u64);
                case.expected_fee = None;
                case.expected_infeasible = true;
            }
            if family == "batch-ceiling" {
                case.network.rails[0].max_amount_cents = Some(1);
                for p in &mut case.payments {
                    p.amount_cents = 2;
                }
                case.expected_fee = Some(5 * scale as u128);
            }
            if family == "schedule-contention"
                || family == "schedule-deadline"
                || family == "schedule-slots"
            {
                case.network.rails.pop();
                if family == "schedule-slots" {
                    case.payments.truncate(1);
                    case.expected_fee = Some(1);
                }
                for t in 0..scale {
                    case.slots
                        .push(slot(&case.network.rails[0], t as u64, Some(1)));
                }
            } else if family == "schedule-ties" {
                case.slots = case
                    .network
                    .rails
                    .iter()
                    .map(|r| slot(r, 0, None))
                    .collect();
            }
        }
        "batch-trap" | "batch-trap-infeasible-greedy" => {
            let members = vec!["N000".into(), "N001".into()];
            let mut cheap = rail(0, members.clone(), 1, 0);
            cheap.batch_capacity_cents = Some(1);
            case.network.rails = vec![cheap, rail(1, members.clone(), 3, 2)];
            if family == "batch-trap" {
                case.network.rails.push(rail(2, members, 10, 0));
            }
            case.payments = vec![payment(0, 1), payment(1, 1)];
            case.payments[1].max_delivery_minutes = Some(0);
            case.expected_fee = Some(4);
        }
        "schedule-nonfifo" => {
            case.network = network(3);
            case.network.rails = vec![
                rail(0, vec!["N000".into(), "N001".into()], 1, 5),
                rail(1, vec!["N001".into(), "N002".into()], 1, 1),
            ];
            let mut p = payment(0, 2);
            p.max_delivery_minutes = Some(4);
            case.payments = vec![p];
            case.slots = vec![
                slot(&case.network.rails[0], 0, None),
                slot(&case.network.rails[0], 1, None),
                slot(&case.network.rails[1], 3, None),
            ];
            case.slots[1].fee_cents = Some(3);
            case.slots[1].settlement_minutes = Some(1);
            case.expected_fee = Some(4);
        }
        "batch-demo" | "schedule-demo" => {
            case.network = demo_network();
            case.payments = case.network.payments.clone();
            case.expected_fee = Some(60);
            case.slots = case
                .network
                .rails
                .iter()
                .map(|r| slot(r, 0, None))
                .collect();
        }
        _ => panic!("unknown static family: {family}"),
    }
    case.timed = case
        .payments
        .iter()
        .enumerate()
        .map(|(i, p)| TimedPayment {
            payment: p.clone(),
            earliest_execution_minute: 0,
            deadline_minute: if family == "schedule-deadline" {
                Some(i as u64)
            } else {
                p.max_delivery_minutes
            },
        })
        .collect();
    case
}

fn slot(rail: &Rail, time: u64, capacity: Option<u64>) -> RailDeparture {
    RailDeparture {
        rail_id: rail.id.clone(),
        departure_minute: time,
        fee_cents: None,
        settlement_minutes: None,
        capacity_cents: capacity,
    }
}

fn simulation_case(family: &str, scale: usize) -> Scenario {
    let mut net = network(2);
    net.rails = vec![rail(0, vec!["N000".into(), "N001".into()], 1, 1)];
    let mut attempts = scale as u32;
    let mut sla = 8;
    let mut cap = Some(10);
    let mut period = 1;
    let mut open = 1;
    let mut max_active = 64;
    let mut history = 32;
    match family {
        "sim-load" | "window-static" | "window-batch" | "window-schedule" => {}
        "sim-deadline" => {
            attempts = 16;
            sla = scale as u64;
        }
        "sim-outage" => {
            attempts = 8;
            period = scale as u64;
        }
        "sim-disconnected" => {
            attempts = 8;
            open = 0;
            max_active = scale;
        }
        "sim-history" => {
            attempts = 8;
            history = scale;
        }
        "sim-density" => {
            net = network(scale);
            net.rails = vec![rail(
                0,
                net.institutions.iter().map(|i| i.id.clone()).collect(),
                0,
                0,
            )];
            attempts = 1;
            sla = 0;
            cap = None;
        }
        "sim-pinned" => {
            // The downstream service is open when a path is pinned but closed on arrival.
            net = network(3);
            net.rails = vec![
                rail(0, vec!["N000".into(), "N001".into()], 1, 1),
                rail(1, vec!["N001".into(), "N002".into()], 1, 0),
                rail(2, vec!["N000".into(), "N002".into()], 5, 0),
            ];
            attempts = 1;
            sla = 1;
            cap = None;
            period = scale as u64;
        }
        _ => panic!("unknown simulation family {family}"),
    }
    let services = net
        .rails
        .iter()
        .map(|r| RailService {
            rail_id: r.id.clone(),
            period_minutes: if family == "sim-pinned" && r.id != "R001" {
                1
            } else {
                period
            },
            offset_minutes: 0,
            open_minutes: open,
            capacity_per_minute_cents: cap,
        })
        .collect();
    Scenario {
        arrivals: ArrivalProcess {
            attempts_per_minute: attempts,
            probability_per_million: 750_000,
            flows: vec![PaymentFlow {
                sender: "N000".into(),
                receiver: net.institutions.last().unwrap().id.clone(),
            }],
            min_amount_cents: 1,
            max_amount_cents: 1,
            min_sla_minutes: sla,
            max_sla_minutes: sla,
        },
        network: net,
        services,
        strategy: RoutingStrategy::CheapestStatic,
        max_active_payments: max_active,
        retained_events: history,
        disruptions: vec![],
    }
}


/// Witness checks independent of the search.
fn audit_schedule(
    net: &Network,
    payments: &[TimedPayment],
    slots: &[RailDeparture],
    plan: &ScheduledBatchPlan,
) {
    assert_eq!(plan.assignments.len(), payments.len());
    let mut ids = BTreeSet::new();
    let mut used = BTreeMap::<(&str, u64), u128>::new();
    let mut fee = 0;
    let mut elapsed = 0;
    for a in &plan.assignments {
        assert!(ids.insert(&a.payment_id));
        let p = payments
            .iter()
            .find(|p| p.payment.id == a.payment_id)
            .unwrap();
        let mut at = p.payment.sender.as_str();
        let mut ready = p.earliest_execution_minute;
        let mut seen = BTreeSet::from([at]);
        let mut route_fee = 0;
        for h in &a.route.hops {
            let t = &h.transfer;
            assert_eq!(at, t.sender);
            assert!(seen.insert(&t.receiver));
            let r = net.rails.iter().find(|r| r.id == t.rail_id).unwrap();
            let s = slots
                .iter()
                .find(|s| s.rail_id == r.id && s.departure_minute == h.departure_minute)
                .unwrap();
            assert!(
                r.available
                    && r.participants.contains(&t.sender)
                    && r.participants.contains(&t.receiver)
            );
            assert!(
                r.max_amount_cents
                    .is_none_or(|c| p.payment.amount_cents <= c)
            );
            assert!(h.departure_minute >= ready);
            assert_eq!(
                h.arrival_minute,
                h.departure_minute
                    + u64::from(s.settlement_minutes.unwrap_or(r.settlement_minutes))
            );
            assert_eq!(h.fee_cents, s.fee_cents.unwrap_or(r.fee_cents));
            *used.entry((&r.id, h.departure_minute)).or_default() +=
                u128::from(p.payment.amount_cents);
            route_fee += u128::from(h.fee_cents);
            ready = h.arrival_minute;
            at = &t.receiver;
        }
        assert_eq!(at, p.payment.receiver);
        assert!(p.deadline_minute.is_none_or(|d| ready <= d));
        let duration = ready - p.earliest_execution_minute;
        assert!(p.payment.max_delivery_minutes.is_none_or(|d| duration <= d));
        assert_eq!(
            (route_fee, duration),
            (a.route.total_fee_cents, a.route.elapsed_minutes)
        );
        fee += route_fee;
        elapsed += u128::from(duration);
    }
    assert_eq!(
        (fee, elapsed),
        (plan.total_fee_cents, plan.total_elapsed_minutes)
    );
    assert_eq!(plan.departure_usage.len(), slots.len());
    assert_eq!(plan.rail_usage.len(), net.rails.len());
    for s in slots {
        let u = used
            .get(&(s.rail_id.as_str(), s.departure_minute))
            .copied()
            .unwrap_or(0);
        assert!(s.capacity_cents.is_none_or(|c| u <= u128::from(c)));
        assert_eq!(
            plan.departure_usage
                .iter()
                .find(|v| v.rail_id == s.rail_id && v.departure_minute == s.departure_minute)
                .unwrap()
                .principal_cents,
            u
        );
    }
    for r in &net.rails {
        let u: u128 = used
            .iter()
            .filter(|((id, _), _)| *id == r.id)
            .map(|(_, v)| v)
            .sum();
        assert!(r.batch_capacity_cents.is_none_or(|c| u <= u128::from(c)));
        assert_eq!(
            plan.rail_usage
                .iter()
                .find(|v| v.rail_id == r.id)
                .unwrap()
                .principal_cents,
            u
        );
    }
}


#[test]
fn reservations_avoid_the_pinned_path_trap_and_never_miss_accepted_deadlines() {
    let mut c = simulation_case("sim-pinned", 2);
    c.strategy = RoutingStrategy::Reserved {
        limits: Default::default(),
    };
    let mut sim = Simulator::new(c, 42).unwrap();
    sim.advance_ticks(1000).unwrap();
    assert_eq!(sim.metrics().sla_failures, 0);
    assert_eq!(sim.metrics().completed_late, 0);
    assert_eq!(
        sim.metrics().generated,
        sim.metrics().completed + sim.active_payments().len() as u128
    );
}
#[test]
fn validates_unused_slots_and_empty_inputs_before_returning() {
    let mut c = static_case("schedule-ties", 2);
    c.slots[0].departure_minute = u64::MAX;
    c.slots[0].settlement_minutes = Some(1);
    assert!(plan_schedule(&c.network, &vec![], &c.slots, Default::default()).is_err());
    assert!(
        plan_schedule(
            &c.network,
            &vec![],
            &vec![],
            SearchLimits {
                labels_per_node: 0,
                ..Default::default()
            }
        )
        .is_err()
    );
}
#[test]
fn sparse_recurring_reservations_do_not_expand_a_huge_deadline() {
    let mut c = simulation_case("sim-load", 2);
    c.arrivals.min_sla_minutes = u64::MAX;
    c.arrivals.max_sla_minutes = u64::MAX;
    c.services[0].period_minutes = u64::MAX;
    c.services[0].offset_minutes = u64::MAX - 1;
    c.services[0].open_minutes = 1;
    c.strategy = RoutingStrategy::Reserved {
        limits: Default::default(),
    };
    let mut s = Simulator::new(c, 42).unwrap();
    s.advance_ticks(8).unwrap();
    assert!(s.reservation_entries() <= 1);
    assert!(s.routing_diagnostics().candidates < 1000);
}

#[test]
fn recurring_deadline_bound_matches_exact_single_payment_calendars() {
    for seed in 0..128 {
        let mut c = simulation_case("sim-pinned", 2);
        for (i, r) in c.network.rails.iter_mut().enumerate() {
            r.fee_cents = (seed + i as u64) % 4;
            r.settlement_minutes = 1 + (seed % 2) as u32;
        }
        for (i, s) in c.services.iter_mut().enumerate() {
            s.period_minutes = 1 + (seed + i as u64) % 4;
            s.offset_minutes = (seed / 3) % s.period_minutes;
            s.open_minutes = s.period_minutes - s.offset_minutes;
            s.capacity_per_minute_cents = Some((seed + i as u64) % 3);
        }
        c.arrivals.probability_per_million = 1_000_000;
        c.arrivals.min_sla_minutes = 8;
        c.arrivals.max_sla_minutes = 8;
        c.strategy = RoutingStrategy::Reserved {
            limits: Default::default(),
        };
        let mut sim = Simulator::new(c.clone(), seed).unwrap();
        let report = sim.step().unwrap();
        let payment = report
            .events
            .iter()
            .find_map(|e| {
                if let EventKind::Generated { payment, .. } = &e.kind {
                    Some(payment.clone())
                } else {
                    None
                }
            })
            .unwrap();
        let p = TimedPayment {
            payment,
            earliest_execution_minute: 0,
            deadline_minute: Some(8),
        };
        let mut slots = vec![];
        for service in &c.services {
            for time in 0..=8 {
                let phase = time % service.period_minutes;
                if phase >= service.offset_minutes
                    && phase - service.offset_minutes < service.open_minutes
                {
                    slots.push(RailDeparture {
                        rail_id: service.rail_id.clone(),
                        departure_minute: time,
                        fee_cents: None,
                        settlement_minutes: None,
                        capacity_cents: service.capacity_per_minute_cents,
                    });
                }
            }
        }
        let exact = optimize_schedule(&c.network, &vec![p], &slots).unwrap();
        let actual = report.events.iter().find_map(|e| {
            if let EventKind::RouteAccepted { route, .. } = &e.kind {
                Some(route.total_fee_cents)
            } else {
                None
            }
        });
        assert_eq!(actual, exact.map(|p| p.total_fee_cents), "seed {seed}");
    }
}

#[test]
fn reserved_overload_stays_bounded_over_one_hundred_thousand_ticks() {
    let mut c = simulation_case("sim-load", 4);
    c.strategy = RoutingStrategy::Reserved {
        limits: Default::default(),
    };
    c.services[0].capacity_per_minute_cents = Some(1);
    c.max_active_payments = 16;
    c.retained_events = 17;
    let mut sim = Simulator::new(c, 42).unwrap();
    for _ in 0..100_000 {
        sim.step().unwrap();
        assert!(sim.active_payments().len() <= 16);
        assert!(sim.reservation_entries() <= 9);
        assert!(sim.recent_events().len() <= 17);
    }
    assert_eq!(sim.metrics().completed_late, 0);
    assert!(sim.metrics().rejected + sim.metrics().expired > 0);
}


#[test]
fn allocation_accepts_wide_deadlines_and_serves_the_one_request() {
    let mut net = network(2);
    net.rails.push(rail(0, vec!["N000".into(), "N001".into()], 5, 3));
    let slots = vec![RailDeparture {
        rail_id: "R000".into(),
        departure_minute: 10,
        fee_cents: None,
        settlement_minutes: None,
        capacity_cents: None,
    }];
    let router = Router::finite(&net, &slots);
    let p = payment(0, 1);
    let requests = vec![Request { payment: &p, release: 0, deadline: u128::MAX / 2 }];
    let (found, diagnostics) = router.allocate(&requests, &Reservations::empty(), SearchLimits::default());
    assert_eq!(found.len(), 1);
    let j = found[0].as_ref().unwrap();
    assert_eq!(j.fee, 5);
    assert_eq!(j.steps.len(), 1);
    assert_eq!(j.steps[0].arrival, 13);
    assert_eq!(diagnostics.unresolved, 0);
}
