use payment_routing::batch::optimize_batch;
use payment_routing::demo::demo_network;
use payment_routing::network::{Institution, Network, Payment, Rail};
use payment_routing::scheduling::{
    RailDeparture, ScheduledBatchPlan, TimedPayment, optimize_schedule, validate_schedule,
};

fn network(ids: &[&str], rails: Vec<Rail>) -> Network {
    Network {
        name: "Synthetic batch oracle".into(),
        institutions: ids
            .iter()
            .map(|id| Institution {
                id: (*id).into(),
                name: (*id).into(),
                opening_balance_cents: 0,
            })
            .collect(),
        rails,
        payments: vec![],
    }
}

fn rail(id: &str, ids: &[&str], fee: u64, minutes: u32, capacity: Option<u64>) -> Rail {
    Rail {
        id: id.into(),
        name: id.into(),
        participants: ids.iter().map(|id| (*id).into()).collect(),
        fee_cents: fee,
        settlement_minutes: minutes,
        available: true,
        max_amount_cents: None,
        batch_capacity_cents: capacity,
    }
}

fn payment(id: &str, from: &str, to: &str, amount: u64) -> Payment {
    Payment {
        id: id.into(),
        sender: from.into(),
        receiver: to.into(),
        amount_cents: amount,
        max_delivery_minutes: None,
    }
}

type Hop = (String, String, String, u64, u64, u64);

#[derive(Clone, Debug)]
struct Walk {
    hops: Vec<Hop>,
    fee: u128,
    elapsed: u128,
}

#[derive(Debug, PartialEq, Eq, PartialOrd, Ord)]
struct Answer {
    fee: u128,
    elapsed: u128,
    hops: usize,
    paths: Vec<Vec<Hop>>,
}

fn otimed(payment: Payment, release: u64, deadline: Option<u64>) -> TimedPayment {
    TimedPayment {
        payment,
        earliest_execution_minute: release,
        deadline_minute: deadline,
    }
}

fn oslot(
    rail: &str,
    at: u64,
    fee: Option<u64>,
    latency: Option<u32>,
    capacity: Option<u64>,
) -> RailDeparture {
    RailDeparture {
        rail_id: rail.into(),
        departure_minute: at,
        fee_cents: fee,
        settlement_minutes: latency,
        capacity_cents: capacity,
    }
}

fn walks(net: &Network, p: &TimedPayment, slots: &[RailDeparture]) -> Vec<Walk> {
    let mut frontier = vec![Walk {
        hops: vec![],
        fee: 0,
        elapsed: 0,
    }];
    let mut answers = vec![];
    // Waiting can replace any cycle while retaining downstream slots. n-1
    // contains an optimum, but unlike production these walks can revisit nodes,
    // even leaving and re-entering the receiver. Deadlines are checked only when
    // collecting complete witnesses, and all capacities only on full batches.
    for _ in 1..net.institutions.len() {
        let mut next = vec![];
        for path in frontier {
            let (at, ready) = path
                .hops
                .last()
                .map(|h| (h.2.as_str(), h.4))
                .unwrap_or((&p.payment.sender, p.earliest_execution_minute));
            for slot in slots {
                let r = net.rails.iter().find(|r| r.id == slot.rail_id).unwrap();
                if slot.departure_minute < ready
                    || !r.available
                    || r.max_amount_cents
                        .is_some_and(|c| p.payment.amount_cents > c)
                    || !r.participants.iter().any(|id| id == at)
                {
                    continue;
                }
                let arrive = u64::try_from(
                    u128::from(slot.departure_minute)
                        + u128::from(slot.settlement_minutes.unwrap_or(r.settlement_minutes)),
                )
                .unwrap();
                for to in &r.participants {
                    if to == at {
                        continue;
                    }
                    let mut walk = path.clone();
                    let fee = slot.fee_cents.unwrap_or(r.fee_cents);
                    walk.hops.push((
                        r.id.clone(),
                        at.into(),
                        to.clone(),
                        slot.departure_minute,
                        arrive,
                        fee,
                    ));
                    walk.fee += u128::from(fee);
                    walk.elapsed = u128::from(arrive) - u128::from(p.earliest_execution_minute);
                    if to == &p.payment.receiver
                        && p.deadline_minute.is_none_or(|d| arrive <= d)
                        && p.payment
                            .max_delivery_minutes
                            .is_none_or(|d| walk.elapsed <= u128::from(d))
                    {
                        answers.push(walk.clone());
                    }
                    next.push(walk);
                }
            }
        }
        frontier = next;
    }
    answers
}

fn fits(
    net: &Network,
    payments: &[&TimedPayment],
    slots: &[RailDeparture],
    paths: &[Walk],
) -> bool {
    let principal = |rail: &str, at: Option<u64>| -> u128 {
        payments
            .iter()
            .zip(paths)
            .map(|(p, path)| {
                path.hops
                    .iter()
                    .filter(|h| h.0 == rail && at.is_none_or(|t| h.3 == t))
                    .count() as u128
                    * u128::from(p.payment.amount_cents)
            })
            .sum()
    };
    net.rails.iter().all(|r| {
        r.batch_capacity_cents
            .is_none_or(|c| principal(&r.id, None) <= u128::from(c))
    }) && slots.iter().all(|s| {
        s.capacity_cents
            .is_none_or(|c| principal(&s.rail_id, Some(s.departure_minute)) <= u128::from(c))
    })
}

fn rank(paths: &[Walk]) -> Answer {
    Answer {
        fee: paths.iter().map(|p| p.fee).sum(),
        elapsed: paths.iter().map(|p| p.elapsed).sum(),
        hops: paths.iter().map(|p| p.hops.len()).sum(),
        paths: paths.iter().map(|p| p.hops.clone()).collect(),
    }
}

fn product(
    net: &Network,
    payments: &[&TimedPayment],
    slots: &[RailDeparture],
) -> Vec<Vec<Walk>> {
    let mut product = vec![vec![]];
    for p in payments {
        let mut next = vec![];
        for path in walks(net, p, slots) {
            for prefix in &product {
                let mut assignment = prefix.clone();
                assignment.push(path.clone());
                next.push(assignment);
            }
        }
        product = next;
    }
    product
}

fn exhaustive(
    net: &Network,
    payments: &[TimedPayment],
    slots: &[RailDeparture],
) -> Option<Answer> {
    let mut ordered: Vec<_> = payments.iter().collect();
    ordered.sort_by_key(|p| &p.payment.id);
    product(net, &ordered, slots)
        .iter()
        .filter(|p| fits(net, &ordered, slots, p))
        .map(|p| rank(p))
        .min()
}

fn greedy(net: &Network, payments: &[TimedPayment], slots: &[RailDeparture]) -> Option<Answer> {
    let mut processed = vec![];
    let mut paths = vec![];
    for payment in payments {
        processed.push(payment);
        let mut choices = walks(net, payment, slots);
        choices.sort_by(|a, b| {
            (a.fee, a.elapsed, a.hops.len(), &a.hops).cmp(&(
                b.fee,
                b.elapsed,
                b.hops.len(),
                &b.hops,
            ))
        });
        let chosen = choices.into_iter().find(|c| {
            let mut trial = paths.clone();
            trial.push(c.clone());
            fits(net, &processed, slots, &trial)
        })?;
        paths.push(chosen);
    }
    Some(rank(&paths))
}

fn verify(
    net: &Network,
    payments: &[TimedPayment],
    slots: &[RailDeparture],
) -> Option<ScheduledBatchPlan> {
    let before = (net.clone(), payments.to_vec(), slots.to_vec());
    let plan = optimize_schedule(net, &payments.to_vec(), &slots.to_vec()).unwrap();
    let expected = exhaustive(net, payments, slots);
    let actual = plan.as_ref().map(|plan| {
        let mut ordered: Vec<_> = payments.iter().collect();
        ordered.sort_by_key(|p| &p.payment.id);
        assert_eq!(plan.assignments.len(), payments.len());
        let mut paths = vec![];
        for (p, a) in ordered.iter().zip(&plan.assignments) {
            assert_eq!(a.payment_id, p.payment.id);
            let mut at = p.payment.sender.as_str();
            let mut ready = p.earliest_execution_minute;
            let mut walk = Walk {
                hops: vec![],
                fee: 0,
                elapsed: 0,
            };
            for hop in &a.route.hops {
                let h = &hop.transfer;
                let r = net.rails.iter().find(|r| r.id == h.rail_id).unwrap();
                let slot = slots
                    .iter()
                    .find(|s| s.rail_id == h.rail_id && s.departure_minute == hop.departure_minute)
                    .unwrap();
                assert_eq!(h.sender, at);
                assert_ne!(h.sender, h.receiver);
                assert!(r.participants.contains(&h.sender) && r.participants.contains(&h.receiver));
                assert!(
                    r.available
                        && r.max_amount_cents
                            .is_none_or(|c| p.payment.amount_cents <= c)
                );
                assert!(hop.departure_minute >= ready);
                let arrival = u128::from(hop.departure_minute)
                    + u128::from(slot.settlement_minutes.unwrap_or(r.settlement_minutes));
                assert_eq!(u128::from(hop.arrival_minute), arrival);
                let fee = slot.fee_cents.unwrap_or(r.fee_cents);
                assert_eq!(hop.fee_cents, fee);
                walk.hops.push((
                    h.rail_id.clone(),
                    h.sender.clone(),
                    h.receiver.clone(),
                    hop.departure_minute,
                    hop.arrival_minute,
                    fee,
                ));
                walk.fee += u128::from(fee);
                ready = hop.arrival_minute;
                at = &h.receiver;
            }
            assert_eq!(at, p.payment.receiver);
            assert!(p.deadline_minute.is_none_or(|d| ready <= d));
            walk.elapsed = u128::from(ready) - u128::from(p.earliest_execution_minute);
            assert!(
                p.payment
                    .max_delivery_minutes
                    .is_none_or(|d| walk.elapsed <= u128::from(d))
            );
            assert_eq!(
                (a.route.total_fee_cents, u128::from(a.route.elapsed_minutes)),
                (walk.fee, walk.elapsed)
            );
            paths.push(walk);
        }
        assert!(fits(net, &ordered, slots, &paths));
        let principal = |rail: &str, at: Option<u64>| -> u128 {
            ordered
                .iter()
                .zip(&paths)
                .map(|(p, path)| {
                    path.hops
                        .iter()
                        .filter(|h| h.0 == rail && at.is_none_or(|t| h.3 == t))
                        .count() as u128
                        * u128::from(p.payment.amount_cents)
                })
                .sum()
        };
        let mut usage: Vec<_> = net
            .rails
            .iter()
            .map(|r| (r.id.clone(), principal(&r.id, None)))
            .collect();
        usage.sort();
        assert_eq!(
            plan.rail_usage
                .iter()
                .map(|u| (u.rail_id.clone(), u.principal_cents))
                .collect::<Vec<_>>(),
            usage
        );
        let mut usage: Vec<_> = slots
            .iter()
            .map(|s| {
                (
                    s.rail_id.clone(),
                    s.departure_minute,
                    principal(&s.rail_id, Some(s.departure_minute)),
                )
            })
            .collect();
        usage.sort();
        assert_eq!(
            plan.departure_usage
                .iter()
                .map(|u| (u.rail_id.clone(), u.departure_minute, u.principal_cents))
                .collect::<Vec<_>>(),
            usage
        );
        let answer = rank(&paths);
        assert_eq!(
            (plan.total_fee_cents, plan.total_elapsed_minutes),
            (answer.fee, answer.elapsed)
        );
        answer
    });
    assert_eq!(
        actual, expected,
        "payments={payments:?}; slots={slots:?}; rails={:?}",
        net.rails
    );
    assert_eq!(
        (&before.0, before.1.as_slice(), before.2.as_slice()),
        (net, payments, slots)
    );
    plan
}

fn timed(id: &str, release: u64, deadline: Option<u64>) -> TimedPayment {
    TimedPayment {
        payment: payment(id, "A", "B", 1),
        earliest_execution_minute: release,
        deadline_minute: deadline,
    }
}

fn slot(id: &str, minute: u64) -> RailDeparture {
    RailDeparture {
        rail_id: id.into(),
        departure_minute: minute,
        fee_cents: None,
        settlement_minutes: None,
        capacity_cents: None,
    }
}

#[test]
fn validates_the_whole_input_before_feasibility_or_empty_batch_shortcuts() {
    let mut net = network(&["A", "B"], vec![rail("r", &["A", "B"], 0, 0, None)]);
    assert!(validate_schedule(&net, &vec![timed("P", 3, Some(2))], &vec![]).is_ok());
    assert!(validate_schedule(&net, &vec![], &vec![slot("missing", 0)]).is_err());
    assert!(validate_schedule(&net, &vec![], &vec![slot("r", 0), slot("r", 0)]).is_err());
    assert!(validate_schedule(&net, &vec![], &vec![slot("r", 0), slot("r", 1)]).is_ok());
    assert!(validate_schedule(&net, &vec![timed("P", 0, None), timed("P", 1, None)], &vec![]).is_err());
    let mut bad = timed("P2", 0, None);
    bad.payment.receiver = "missing".into();
    assert!(validate_schedule(&net, &vec![timed("P1", 0, None), bad], &vec![]).is_err());
    net.payments.push(payment("bad", "missing", "B", 1));
    assert!(validate_schedule(&net, &vec![], &vec![]).is_err());
    net.payments.clear();
    net.rails[0].max_amount_cents = Some(0);
    assert!(validate_schedule(&net, &vec![], &vec![]).is_err());
}

#[test]
fn timestamps_are_checked_without_wrapping_even_on_closed_or_unused_slots() {
    let mut net = network(&["A", "B"], vec![rail("r", &["A", "B"], 0, 1, None)]);
    net.rails[0].available = false;
    assert!(validate_schedule(&net, &vec![], &vec![slot("r", u64::MAX)]).is_err());
    let mut last = slot("r", u64::MAX);
    last.settlement_minutes = Some(0);
    last.capacity_cents = Some(0);
    assert!(validate_schedule(&net, &vec![], &vec![last]).is_ok());
    assert!(validate_schedule(&net, &vec![], &vec![slot("r", u64::MAX - 1)]).is_ok());
}

#[test]
fn release_and_both_deadlines_are_inclusive_and_waiting_consumes_delivery_budget() {
    let net = network(&["A", "B"], vec![rail("r", &["A", "B"], 1, 1, None)]);
    let mut p = timed("P", 2, Some(3));
    p.payment.max_delivery_minutes = Some(1);
    let mut slots = vec![slot("r", 0), slot("r", 2)];
    assert_eq!(
        verify(&net, &[p.clone()], &slots)
            .unwrap()
            .assignments[0]
            .route
            .hops[0]
            .arrival_minute,
        3
    );
    p.deadline_minute = Some(2);
    assert_eq!(verify(&net, &[p.clone()], &slots), None);
    p.deadline_minute = None;
    slots[1].departure_minute = 3;
    assert_eq!(verify(&net, &[p.clone()], &slots), None);
    p.payment.max_delivery_minutes = Some(2);
    assert_eq!(
        verify(&net, &[p.clone()], &slots)
            .unwrap()
            .total_elapsed_minutes,
        2
    );
    p.earliest_execution_minute = 4;
    assert_eq!(verify(&net, &[p.clone()], &slots), None);
    p.deadline_minute = Some(3);
    assert_eq!(verify(&net, &[p], &slots), None);
}

#[test]
fn static_gates_and_both_principal_budgets_remain_hard_constraints() {
    let mut net = network(&["A", "B"], vec![rail("r", &["A", "B"], 1000, 1, Some(2))]);
    let mut p = timed("P", 0, None);
    p.payment.amount_cents = 2;
    let mut s = slot("r", 0);
    s.capacity_cents = Some(2);
    net.rails[0].max_amount_cents = Some(2);
    assert_eq!(
        verify(&net, &[p.clone()], &[s.clone()])
            .unwrap()
            .total_fee_cents,
        1000
    );
    net.rails[0].available = false;
    s.fee_cents = Some(0);
    s.settlement_minutes = Some(0);
    assert_eq!(verify(&net, &[p.clone()], &[s.clone()]), None);
    net.rails[0].available = true;
    net.rails[0].max_amount_cents = Some(1);
    assert_eq!(verify(&net, &[p.clone()], &[s.clone()]), None);
    net.rails[0].max_amount_cents = None;
    net.rails[0].batch_capacity_cents = Some(1);
    assert_eq!(verify(&net, &[p.clone()], &[s.clone()]), None);
    net.rails[0].batch_capacity_cents = None;
    s.capacity_cents = Some(1);
    assert_eq!(verify(&net, &[p.clone()], &[s.clone()]), None);
    s.capacity_cents = Some(0);
    assert_eq!(verify(&net, &[p.clone()], &[s.clone()]), None);
    s.capacity_cents = None;
    assert!(verify(&net, &[p], &[s]).is_some());
}

#[test]
fn departure_budgets_share_all_pairs_and_directions_and_do_not_model_occupancy() {
    let net = network(
        &["A", "B", "C", "D"],
        vec![rail("r", &["A", "B", "C", "D"], 2, 2, None)],
    );
    let p = vec![
        otimed(payment("P1", "A", "B", 1), 0, Some(3)),
        otimed(payment("P2", "C", "D", 1), 0, Some(3)),
    ];
    let slots = vec![
        oslot("r", 0, None, None, Some(1)),
        oslot("r", 1, None, None, Some(1)),
    ];
    let plan = verify(&net, &p, &slots).unwrap();
    assert_eq!(plan.total_elapsed_minutes, 5); // Overlapping [0,2] and [1,3] transfers.
    assert_eq!(plan.rail_usage[0].principal_cents, 2);
    assert_eq!(verify(&net, &p, &slots[..1]), None);
    let mut p = p;
    p[1].payment.sender = "B".into();
    p[1].payment.receiver = "A".into();
    assert_eq!(verify(&net, &p, &slots[..1]), None);
    assert_eq!(
        verify(&net, &p, &slots)
            .unwrap()
            .total_elapsed_minutes,
        5
    );
}

#[test]
fn full_rank_ties_and_results_are_independent_of_every_input_order() {
    let mut net = network(
        &["A", "B"],
        vec![
            rail("z-fast", &["A", "B"], 0, 0, None),
            rail("a-slow", &["A", "B"], 0, 0, None),
        ],
    );
    let mut p = vec![timed("P1", 0, None), timed("P2", 0, None)];
    let mut slots = vec![
        oslot("z-fast", 0, None, None, Some(1)),
        oslot("a-slow", 1, None, None, Some(1)),
    ];
    let expected = verify(&net, &p, &slots).unwrap();
    assert_eq!(expected.total_elapsed_minutes, 1);
    assert_eq!(
        expected.assignments[0].route.hops[0].transfer.rail_id,
        "a-slow"
    );
    net.institutions.reverse();
    net.rails.reverse();
    p.reverse();
    slots.reverse();
    for r in &mut net.rails {
        r.participants.reverse();
    }
    assert_eq!(verify(&net, &p, &slots), Some(expected));
    net.rails.truncate(1); // a-slow remains: timestamps decide tied single-rail assignment.
    slots = vec![
        oslot("a-slow", 1, None, None, Some(1)),
        oslot("a-slow", 0, None, None, Some(1)),
    ];
    let plan = verify(&net, &p, &slots).unwrap();
    assert_eq!(plan.assignments[0].route.hops[0].departure_minute, 0);
}

#[test]
fn wide_money_latency_and_sparse_absolute_times_never_wrap_or_expand_ticks() {
    let net = network(
        &["A", "B", "C"],
        vec![
            rail("ab", &["A", "B"], u64::MAX, u32::MAX, None),
            rail("bc", &["B", "C"], u64::MAX, u32::MAX, None),
        ],
    );
    let p = vec![
        otimed(payment("P1", "A", "C", u64::MAX), 0, None),
        otimed(payment("P2", "A", "C", u64::MAX), 0, None),
    ];
    let mut slots = vec![slot("ab", 0), slot("bc", u64::from(u32::MAX))];
    let plan = verify(&net, &p, &slots).unwrap();
    assert_eq!(plan.total_fee_cents, u128::from(u64::MAX) * 4);
    assert_eq!(plan.total_elapsed_minutes, u128::from(u32::MAX) * 4);
    assert!(
        plan.rail_usage
            .iter()
            .all(|u| u.principal_cents == u128::from(u64::MAX) * 2)
    );
    slots[1].capacity_cents = Some(u64::MAX);
    assert_eq!(verify(&net, &p, &slots), None);
    assert!(verify(&net, &p[..1], &slots).is_some());
    let net = network(&["A", "B"], vec![rail("r", &["A", "B"], 0, 0, None)]);
    let p = vec![timed("P1", 0, None), timed("P2", 0, None)];
    let plan = verify(&net, &p, &[slot("r", u64::MAX)]).unwrap();
    assert_eq!(plan.total_elapsed_minutes, u128::from(u64::MAX) * 2);
    let mut p = timed("P", u64::MAX, Some(u64::MAX));
    p.payment.max_delivery_minutes = Some(0);
    assert_eq!(
        verify(&net, &[p], &[slot("r", u64::MAX)])
            .unwrap()
            .total_elapsed_minutes,
        0
    );
}

#[test]
fn free_waiting_replaces_cycles_and_zero_latency_connections_are_allowed() {
    let net = network(
        &["A", "B", "C", "D"],
        vec![
            rail("ab", &["A", "B"], 0, 0, None),
            rail("ad", &["A", "D"], 0, 0, None),
            rail("dc", &["D", "C"], 0, 0, None),
        ],
    );
    let p = vec![otimed(payment("P", "A", "D", 1), 0, Some(2))];
    let slots = vec![slot("ab", 0), slot("ab", 1), slot("ad", 2), slot("dc", 2)];
    let walks = walks(&net, &p[0], &slots);
    assert!(
        walks
            .iter()
            .any(|w| w.hops.len() == 3 && w.hops[1].2 == "A")
    );
    assert_eq!(
        verify(&net, &p, &slots).unwrap().assignments[0]
            .route
            .hops
            .len(),
        1
    );
    let p = vec![otimed(payment("P", "A", "C", 1), 2, Some(2))];
    let plan = verify(&net, &p, &slots).unwrap();
    assert_eq!(plan.assignments[0].route.hops.len(), 2);
    assert_eq!(plan.total_elapsed_minutes, 0);
}

#[test]
fn empty_missing_timetable_external_instructions_and_validation_stay_distinct() {
    let mut net = network(&["A", "B"], vec![rail("r", &["A", "B"], 0, 0, Some(1))]);
    let slots = vec![slot("r", 0)];
    net.payments.push(payment("stored", "A", "B", 1));
    assert_eq!(
        verify(&net, &[], &slots).unwrap().departure_usage[0].principal_cents,
        0
    );
    let p = vec![timed("external", 0, None)];
    assert!(verify(&net, &p, &slots).is_some());
    assert_eq!(verify(&net, &p, &[]), None);
    let mut bad = p.clone();
    bad[0].payment.amount_cents = 0;
    assert!(optimize_schedule(&net, &bad, &vec![]).is_err());
    assert!(optimize_schedule(&net, &vec![], &vec![slot("unknown", 0)]).is_err());
    assert!(optimize_schedule(&net, &vec![], &vec![slot("r", 0), slot("r", 0)]).is_err());
    for i in &mut net.institutions {
        i.opening_balance_cents = u64::MAX;
    }
    assert_eq!(verify(&net, &p, &slots).unwrap().total_fee_cents, 0);
    net.payments[0].receiver = "missing".into();
    assert!(optimize_schedule(&net, &vec![], &slots).is_err());
    let empty = network(&[], vec![]);
    let plan = verify(&empty, &[], &[]).unwrap();
    assert_eq!((plan.total_fee_cents, plan.total_elapsed_minutes), (0, 0));
    assert!(plan.rail_usage.is_empty() && plan.departure_usage.is_empty());
}

#[test]
fn unchanged_twelve_payment_demo_has_an_exact_finite_timetable_plan() {
    let net = demo_network();
    let before = net.clone();
    let payments: Vec<_> = net
        .payments
        .iter()
        .map(|p| otimed(p.clone(), 0, None))
        .collect();
    // Explicit finite timetable: each rail opens at minute zero. ACH connects all
    // members directly. Every payment's cost lower bound is the 5-cent ACH fee.
    let slots: Vec<_> = net.rails.iter().map(|r| slot(&r.id, 0)).collect();
    let plan = optimize_schedule(&net, &payments, &slots).unwrap().unwrap();
    let static_plan = optimize_batch(&net, &net.payments).unwrap().unwrap();
    assert_eq!(plan.total_fee_cents, 60);
    assert_eq!(plan.total_fee_cents, static_plan.total_fee_cents);
    assert_eq!(plan.total_elapsed_minutes, 12 * 1440);
    assert_eq!(plan.rail_usage, static_plan.rail_usage);
    assert_eq!(plan.assignments.len(), 12);
    for (p, a) in payments.iter().zip(&plan.assignments) {
        assert_eq!(p.payment.id, a.payment_id);
        assert_eq!(a.route.hops.len(), 1);
        let h = &a.route.hops[0];
        assert_eq!(h.transfer.rail_id, "ACH");
        assert_eq!(
            (&h.transfer.sender, &h.transfer.receiver),
            (&p.payment.sender, &p.payment.receiver)
        );
        assert_eq!(
            (h.departure_minute, h.arrival_minute, h.fee_cents),
            (0, 1440, 5)
        );
    }
    assert_eq!(net, before);
}

#[test]
fn delaying_flexible_payment_beats_locally_cheapest_scheduling() {
    let mut net = network(
        &["A", "B"],
        vec![
            rail("cheap", &["A", "B"], 1, 0, None),
            rail("fallback", &["A", "B"], 10, 0, None),
        ],
    );
    let p = vec![
        otimed(payment("P1", "A", "B", 1), 0, Some(1)),
        otimed(payment("P2", "B", "A", 1), 0, Some(0)),
    ];
    let mut slots = vec![
        oslot("cheap", 0, None, None, Some(1)),
        oslot("cheap", 1, None, None, Some(1)),
        oslot("fallback", 0, None, None, None),
        oslot("fallback", 1, None, None, None),
    ];
    let ordered: Vec<_> = p.iter().collect();
    assert_eq!(walks(&net, &p[0], &slots).len(), 4);
    assert_eq!(walks(&net, &p[1], &slots).len(), 2);
    assert_eq!(product(&net, &ordered, &slots).len(), 8);
    assert_eq!(greedy(&net, &p, &slots).unwrap().fee, 11);
    let independent: Vec<_> = p
        .iter()
        .map(|p| {
            walks(&net, p, &slots)
                .into_iter()
                .min_by_key(|w| (w.fee, w.elapsed))
                .unwrap()
        })
        .collect();
    assert_eq!(rank(&independent).fee, 2);
    assert!(!fits(&net, &ordered, &slots, &independent));
    let plan = verify(&net, &p, &slots).unwrap();
    assert_eq!((plan.total_fee_cents, plan.total_elapsed_minutes), (2, 1));
    assert_eq!(plan.assignments[0].route.hops[0].departure_minute, 1);
    assert_eq!(plan.assignments[1].route.hops[0].departure_minute, 0);
    let no_wait = product(&net, &ordered, &slots)
        .into_iter()
        .filter(|paths| paths.iter().all(|w| w.hops[0].3 == 0))
        .filter(|paths| fits(&net, &ordered, &slots, paths))
        .map(|p| rank(&p))
        .min()
        .unwrap();
    assert_eq!(no_wait.fee, 11);
    slots.retain(|s| s.rail_id == "cheap");
    net.rails.pop();
    assert_eq!(greedy(&net, &p, &slots), None);
    assert_eq!(verify(&net, &p, &slots).unwrap().total_fee_cents, 2);
    // Slot budgets don't replenish the whole-batch budget.
    net.rails[0].batch_capacity_cents = Some(1);
    assert_eq!(verify(&net, &p, &slots), None);
}

#[test]
fn waiting_for_a_cheaper_prefix_misses_the_only_connection() {
    let net = network(
        &["A", "B", "C"],
        vec![
            rail("ab", &["A", "B"], 4, 1, None),
            rail("bc", &["B", "C"], 1, 1, None),
        ],
    );
    let p = vec![otimed(payment("P", "A", "C", 1), 0, Some(4))];
    let mut slots = vec![
        oslot("ab", 0, None, None, None),
        oslot("ab", 2, Some(1), None, None),
        oslot("bc", 1, None, None, None),
    ];
    assert_eq!(verify(&net, &p, &slots).unwrap().total_fee_cents, 5);
    let mut late = p.clone();
    late[0].earliest_execution_minute = 2;
    assert_eq!(verify(&net, &late, &slots), None);
    // Reopening the downstream connection makes the delayed cheap path valid.
    slots[2].departure_minute = 3;
    let plan = verify(&net, &p, &slots).unwrap();
    assert_eq!(plan.total_fee_cents, 2);
    assert_eq!(plan.assignments[0].route.hops[0].departure_minute, 2);
}

#[test]
fn later_departure_with_shorter_latency_can_be_the_only_feasible_prefix() {
    let net = network(
        &["A", "B", "C"],
        vec![
            rail("ab", &["A", "B"], 1, 5, None),
            rail("bc", &["B", "C"], 1, 1, None),
        ],
    );
    let p = vec![otimed(payment("P", "A", "C", 1), 0, Some(4))];
    let slots = vec![
        oslot("ab", 0, None, None, None),
        oslot("ab", 1, Some(3), Some(1), None),
        oslot("bc", 3, None, None, None),
    ];
    let plan = verify(&net, &p, &slots).unwrap();
    assert_eq!((plan.total_fee_cents, plan.total_elapsed_minutes), (4, 4));
    assert_eq!(plan.assignments[0].route.hops[0].departure_minute, 1);
    assert_eq!(plan.assignments[0].route.hops[0].arrival_minute, 2);
    assert_eq!(plan.assignments[0].route.hops[1].departure_minute, 3);
    let mut p = p;
    p[0].payment.max_delivery_minutes = Some(3);
    assert_eq!(verify(&net, &p, &slots), None); // Transit=2, but elapsed with waits=4.
}

#[test]
fn choosing_the_cheapest_departure_can_steal_a_later_arrivals_only_capacity() {
    let net = network(&["A", "B"], vec![rail("r", &["A", "B"], 0, 0, None)]);
    let p = vec![
        otimed(payment("P1", "A", "B", 1), 0, Some(1)),
        otimed(payment("P2", "A", "B", 1), 1, Some(2)),
    ];
    let slots = vec![
        oslot("r", 0, Some(3), None, Some(1)),
        oslot("r", 1, Some(1), None, Some(1)),
        oslot("r", 2, Some(10), None, Some(1)),
    ];
    assert_eq!(greedy(&net, &p, &slots).unwrap().fee, 11);
    let plan = verify(&net, &p, &slots).unwrap();
    assert_eq!(plan.total_fee_cents, 4);
    assert_eq!(plan.assignments[0].route.hops[0].departure_minute, 0);
    assert_eq!(plan.assignments[1].route.hops[0].departure_minute, 1);
}

#[test]
fn joint_routing_can_require_an_expensive_faster_prefix_to_free_a_later_slot() {
    let net = network(
        &["A", "B", "C"],
        vec![
            rail("ab", &["A", "B"], 0, 1, None),
            rail("bc", &["B", "C"], 1, 0, None),
        ],
    );
    let p = vec![
        otimed(payment("P1", "A", "C", 1), 0, Some(2)),
        otimed(payment("P2", "C", "B", 1), 2, Some(2)),
    ];
    let slots = vec![
        oslot("ab", 0, Some(3), None, None),
        oslot("ab", 1, Some(0), None, None),
        oslot("bc", 1, None, None, Some(1)),
        oslot("bc", 2, None, None, Some(1)),
    ];
    assert_eq!(greedy(&net, &p, &slots), None);
    let plan = verify(&net, &p, &slots).unwrap();
    assert_eq!(plan.total_fee_cents, 5);
    assert_eq!(
        plan.assignments[0]
            .route
            .hops
            .iter()
            .map(|h| h.departure_minute)
            .collect::<Vec<_>>(),
        [0, 1]
    );
}

#[test]
fn all_triangle_slot_states_match_independent_complete_assignments() {
    // 3^6 timetables x 4 arrival/deadline patterns = 2,916 comparisons.
    let mut count = 0;
    for code in 0..3usize.pow(6) {
        let net = network(
            &["A", "B", "C"],
            vec![
                rail("ab", &["A", "B"], 0, 0, Some(3)),
                rail("bc", &["B", "C"], 0, 0, None),
                rail("ac", &["A", "C"], 2, 1, Some(2)),
            ],
        );
        let mut digits = code;
        let mut slots = vec![];
        for r in &net.rails {
            for at in 0..2 {
                let state = digits % 3;
                digits /= 3;
                match state {
                    0 => {}
                    1 => slots.push(oslot(&r.id, at, Some(0), Some(0), Some(1))),
                    _ => slots.push(oslot(&r.id, at, Some(2), Some(1), Some(2))),
                }
            }
        }
        for timing in 0..4 {
            let mut p = vec![
                otimed(payment("P1", "A", "C", 1), 0, None),
                otimed(payment("P2", "C", "A", 1), 0, None),
            ];
            match timing {
                0 => {}
                1 => p[1].deadline_minute = Some(0),
                2 => {
                    p[0].earliest_execution_minute = 1;
                    p[1].payment.amount_cents = 2;
                }
                _ => {
                    p[0].deadline_minute = Some(1);
                    p[1].payment.max_delivery_minutes = Some(1);
                }
            }
            verify(&net, &p, &slots);
            count += 1;
        }
    }
    assert_eq!(count, 2916);
}

#[test]
fn overlapping_rails_parallel_paths_and_cyclic_walks_match_full_rank() {
    // 4^4 service states x 4 constraint patterns = 1,024 comparisons. The fourth
    // institution allows oracle cycles, including repeated same-minute slots.
    let mut count = 0;
    for code in 0..4usize.pow(4) {
        let mut net = network(
            &["A", "B", "C", "D"],
            vec![
                rail("shared-abc", &["A", "B", "C"], 0, 0, None),
                rail("shared-bcd", &["B", "C", "D"], 0, 0, Some(3)),
                rail("parallel-ab", &["A", "B"], 1, 0, Some(2)),
                rail("direct-ad", &["A", "D"], 3, 0, None),
            ],
        );
        let mut digits = code;
        let mut slots = vec![];
        for r in &net.rails {
            let state = digits % 4;
            digits /= 4;
            match state {
                0 => slots.push(oslot(&r.id, 0, None, None, Some(0))),
                1 => slots.push(oslot(&r.id, 0, None, None, Some(2))),
                2 => slots.push(oslot(&r.id, 1, None, None, Some(2))),
                _ => {
                    slots.push(oslot(&r.id, 0, Some(0), Some(2), Some(1)));
                    slots.push(oslot(&r.id, 1, Some(1), Some(0), None));
                }
            }
        }
        for pattern in 0..4 {
            net.rails[0].available = pattern != 3;
            net.rails[1].max_amount_cents = if pattern == 2 { Some(1) } else { None };
            let mut p = vec![
                otimed(payment("P2", "D", "A", 1), 0, Some(2)),
                otimed(payment("P1", "A", "C", 1), 0, Some(2)),
            ];
            match pattern {
                0 => {}
                1 => p[0].deadline_minute = Some(0),
                2 => {
                    p[0].earliest_execution_minute = 1;
                    p[0].payment.amount_cents = 2;
                }
                _ => p[1].payment.max_delivery_minutes = Some(0),
            }
            verify(&net, &p, &slots);
            count += 1;
        }
    }
    assert_eq!(count, 1024);
}
