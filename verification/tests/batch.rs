// An exhaustive oracle: bounded walks by length, the full Cartesian product,
// and capacity checked only on complete assignments.
#![allow(dead_code)]

use payment_routing::batch::optimize_batch;
use payment_routing::network::{Institution, Network, Payment, Rail};

#[derive(Clone, Debug, PartialEq, Eq, PartialOrd, Ord)]
pub struct Walk {
    pub hops: Vec<(String, String, String)>,
    pub fee: u128,
    pub minutes: u128,
}

#[derive(Clone, Debug, PartialEq, Eq, PartialOrd, Ord)]
pub struct Answer {
    pub fee: u128,
    pub minutes: u128,
    pub hops: usize,
    pub paths: Vec<Vec<(String, String, String)>>,
}

pub fn network(ids: &[&str], rails: Vec<Rail>) -> Network {
    Network {
        name: "Synthetic batch oracle".into(),
        institutions: ids
            .iter()
            .map(|id| Institution {
                id: (*id).into(),
                name: (*id).into(),
                opening_balance_cents: 0,
            })
            .collect(),
        rails,
        payments: vec![],
    }
}

pub fn rail(id: &str, ids: &[&str], fee: u64, minutes: u32, capacity: Option<u64>) -> Rail {
    Rail {
        id: id.into(),
        name: id.into(),
        participants: ids.iter().map(|id| (*id).into()).collect(),
        fee_cents: fee,
        settlement_minutes: minutes,
        available: true,
        max_amount_cents: None,
        batch_capacity_cents: capacity,
    }
}

pub fn payment(id: &str, from: &str, to: &str, amount: u64) -> Payment {
    Payment {
        id: id.into(),
        sender: from.into(),
        receiver: to.into(),
        amount_cents: amount,
        max_delivery_minutes: None,
    }
}

pub fn walks(net: &Network, p: &Payment) -> Vec<Walk> {
    let mut frontier = vec![Walk {
        hops: vec![],
        fee: 0,
        minutes: 0,
    }];
    let mut answers = vec![];
    // Walks may revisit institutions and may leave/re-enter the receiver. With
    // nonnegative fees, time and resource consumption, cycle removal ensures an
    // optimal witness exists within n-1 hops. No visited-set rule is shared.
    for _ in 1..net.institutions.len() {
        let mut next = vec![];
        for path in frontier {
            let at = path.hops.last().map(|h| h.2.as_str()).unwrap_or(&p.sender);
            for r in &net.rails {
                if !r.available
                    || r.max_amount_cents.is_some_and(|c| p.amount_cents > c)
                    || !r.participants.iter().any(|id| id == at)
                {
                    continue;
                }
                for to in &r.participants {
                    if to == at {
                        continue;
                    }
                    let mut walk = path.clone();
                    walk.hops.push((r.id.clone(), at.into(), to.clone()));
                    walk.fee += u128::from(r.fee_cents);
                    walk.minutes += u128::from(r.settlement_minutes);
                    if to == &p.receiver
                        && p.max_delivery_minutes
                            .is_none_or(|d| walk.minutes <= u128::from(d))
                    {
                        answers.push(walk.clone());
                    }
                    next.push(walk);
                }
            }
        }
        frontier = next;
    }
    answers
}

pub fn capacity_fits(net: &Network, payments: &[&Payment], paths: &[Walk]) -> bool {
    // Rescan the complete assignment per rail, with wide arithmetic. In
    // particular neither direction nor member pair partitions a rail budget.
    net.rails.iter().all(|r| {
        let used: u128 = payments
            .iter()
            .zip(paths)
            .map(|(p, path)| {
                path.hops.iter().filter(|h| h.0 == r.id).count() as u128
                    * u128::from(p.amount_cents)
            })
            .sum();
        r.batch_capacity_cents.is_none_or(|c| used <= u128::from(c))
    })
}

pub fn answer(paths: &[Walk]) -> Answer {
    Answer {
        fee: paths.iter().map(|w| w.fee).sum(),
        minutes: paths.iter().map(|w| w.minutes).sum(),
        hops: paths.iter().map(|w| w.hops.len()).sum(),
        paths: paths.iter().map(|w| w.hops.clone()).collect(),
    }
}

pub fn exhaustive(net: &Network, payments: &[Payment]) -> Option<Answer> {
    let mut ordered: Vec<_> = payments.iter().collect();
    ordered.sort_by_key(|p| &p.id);
    let mut product = vec![vec![]];
    for p in &ordered {
        let choices = walks(net, p);
        let mut next = vec![];
        for prefix in product {
            for choice in &choices {
                let mut assignment = prefix.clone();
                assignment.push(choice.clone());
                next.push(assignment);
            }
        }
        product = next;
    }
    product
        .iter()
        .filter(|paths| capacity_fits(net, &ordered, paths))
        .map(|paths| answer(paths))
        .min()
}

pub fn greedy(net: &Network, payments: &[Payment]) -> Option<Answer> {
    let mut picked = vec![];
    let mut processed = vec![];
    for p in payments {
        processed.push(p);
        let mut choices = walks(net, p);
        choices.sort_by(|a, b| {
            (a.fee, a.minutes, a.hops.len(), &a.hops).cmp(&(
                b.fee,
                b.minutes,
                b.hops.len(),
                &b.hops,
            ))
        });
        let choice = choices.into_iter().find(|candidate| {
            let mut trial = picked.clone();
            trial.push(candidate.clone());
            capacity_fits(net, &processed, &trial)
        })?;
        picked.push(choice);
    }
    Some(answer(&picked))
}

pub fn greedy_trap() -> (Network, Vec<Payment>) {
    // P1=1 cent, P2=2 cents, same endpoints. Shared cheap rail holds 2 cents.
    // Backup charges 3 cents but carries only 1 cent per hop; fallback costs 10.
    let mut backup = rail("backup", &["A", "B"], 3, 0, None);
    backup.max_amount_cents = Some(1);
    (
        network(
            &["A", "B"],
            vec![
                rail("cheap", &["A", "B"], 1, 0, Some(2)),
                backup,
                rail("fallback", &["A", "B"], 10, 0, None),
            ],
        ),
        vec![payment("P1", "A", "B", 1), payment("P2", "A", "B", 2)],
    )
}

use payment_routing::demo::demo_network;
use payment_routing::routing::route_payment;

#[test]
fn budget_is_shared_across_directions_and_distinct_member_pairs() {
    let mut net = network(
        &["A", "B", "C", "D"],
        vec![rail("shared", &["A", "B", "C", "D"], 0, 0, Some(2))],
    );
    let payments = vec![
        payment("P1", "A", "B", 1),
        payment("P2", "C", "D", 1),
        payment("P3", "B", "A", 1),
    ];
    let plan = optimize_batch(&net, &payments[..2].to_vec()).unwrap().unwrap();
    assert_eq!(plan.rail_usage[0].principal_cents, 2);
    assert_eq!(optimize_batch(&net, &payments), Ok(None));
    net.rails[0].batch_capacity_cents = None;
    assert_eq!(
        optimize_batch(&net, &payments).unwrap().unwrap().rail_usage[0].principal_cents,
        3
    );
    net.rails[0].batch_capacity_cents = Some(0);
    assert_eq!(net.validate(), Ok(()));
    assert_eq!(optimize_batch(&net, &payments[..1].to_vec()), Ok(None));
}

#[test]
fn multihop_usage_counts_each_rail_excludes_fees_and_keeps_ceilings_distinct() {
    let mut net = network(
        &["A", "B", "C"],
        vec![
            rail("ab", &["A", "B"], 500, 1, Some(200)),
            rail("bc", &["B", "C"], 700, 2, Some(100)),
        ],
    );
    net.rails[0].max_amount_cents = Some(100);
    let payments = vec![payment("P1", "A", "C", 100), payment("P2", "B", "A", 100)];
    let plan = optimize_batch(&net, &payments).unwrap().unwrap();
    assert_eq!(plan.total_fee_cents, 1700);
    assert_eq!(plan.total_settlement_minutes, 4);
    assert_eq!(
        plan.rail_usage
            .iter()
            .map(|r| r.principal_cents)
            .collect::<Vec<_>>(),
        [200, 100]
    );
    net.rails[0].batch_capacity_cents = Some(199);
    assert_eq!(optimize_batch(&net, &payments), Ok(None));
    net.rails[0].batch_capacity_cents = Some(200);
    net.rails[1].batch_capacity_cents = Some(99);
    assert_eq!(optimize_batch(&net, &payments), Ok(None));
    net.rails[1].batch_capacity_cents = Some(100);
    net.rails[0].max_amount_cents = Some(99);
    assert_eq!(optimize_batch(&net, &payments), Ok(None));
}

#[test]
fn tied_batch_prefers_global_rank_even_when_individual_latency_order_differs() {
    let mut net = network(
        &["A", "B"],
        vec![
            rail("z-fast", &["A", "B"], 0, 0, Some(1)),
            rail("a-slow", &["A", "B"], 0, 1, None),
        ],
    );
    let mut payments = vec![payment("P1", "A", "B", 1), payment("P2", "A", "B", 1)];
    let expected = optimize_batch(&net, &payments).unwrap().unwrap();
    assert_eq!(expected.total_settlement_minutes, 1);
    assert_eq!(expected.assignments[0].route.hops[0].rail_id, "a-slow");
    assert_eq!(expected.assignments[1].route.hops[0].rail_id, "z-fast");
    assert_eq!(exhaustive(&net, &payments).unwrap().paths[0][0].0, "a-slow");
    net.institutions.reverse();
    net.rails.reverse();
    payments.reverse();
    for r in &mut net.rails {
        r.participants.reverse();
    }
    assert_eq!(optimize_batch(&net, &payments), Ok(Some(expected)));
}

#[test]
fn deadline_can_reserve_fast_capacity_for_the_payment_that_needs_it() {
    let net = network(
        &["A", "B"],
        vec![
            rail("instant", &["A", "B"], 1, 0, Some(1)),
            rail("slow", &["A", "B"], 3, 2, None),
        ],
    );
    let mut payments = vec![payment("P1", "A", "B", 1), payment("P2", "B", "A", 1)];
    payments[0].max_delivery_minutes = Some(2);
    payments[1].max_delivery_minutes = Some(0);
    assert_eq!(greedy(&net, &payments), None);
    let plan = optimize_batch(&net, &payments).unwrap().unwrap();
    assert_eq!(plan.total_fee_cents, 4);
    assert_eq!(plan.assignments[0].route.hops[0].rail_id, "slow");
    assert_eq!(plan.assignments[1].route.hops[0].rail_id, "instant");
    payments[0].max_delivery_minutes = Some(1);
    assert_eq!(optimize_batch(&net, &payments), Ok(None));
}

#[test]
fn more_expensive_faster_prefix_can_be_required_inside_a_batch() {
    let net = network(
        &["A", "B", "C"],
        vec![
            rail("cheap", &["A", "B"], 1, 9, None),
            rail("fast", &["A", "B"], 5, 3, Some(2)),
            rail("bc", &["B", "C"], 1, 2, Some(2)),
        ],
    );
    let mut payments = vec![payment("P1", "A", "C", 1), payment("P2", "C", "A", 1)];
    for p in &mut payments {
        p.max_delivery_minutes = Some(5);
    }
    let plan = optimize_batch(&net, &payments).unwrap().unwrap();
    assert_eq!(plan.total_fee_cents, 12);
    assert_eq!(plan.total_settlement_minutes, 10);
    assert_eq!(exhaustive(&net, &payments).unwrap().fee, 12);
}

#[test]
fn batch_validation_rejects_duplicates_and_all_malformed_instructions_before_search() {
    let (mut net, mut payments) = greedy_trap();
    payments[1].id = payments[0].id.clone();
    assert!(
        optimize_batch(&net, &payments)
            .unwrap_err()
            .to_string()
            .contains("duplicate batch payment")
    );
    payments[1].id = "P2".into();
    net.rails.clear(); // First payment unreachable must not hide invalid second payment.
    for malformed in [
        payment("P2", "missing", "B", 1),
        payment("P2", "A", "missing", 1),
        payment("P2", "A", "A", 1),
        payment("P2", "A", "B", 0),
        payment(" P2", "A", "B", 1),
        payment("", "A", "B", 1),
    ] {
        payments[1] = malformed;
        assert!(optimize_batch(&net, &payments).is_err());
    }
    net.payments = vec![payment("bad", "A", "missing", 1)];
    assert!(optimize_batch(&net, &vec![]).is_err());
}

#[test]
fn malformed_network_is_rejected_even_for_an_empty_batch() {
    let (net, _) = greedy_trap();
    let mut bad = net.clone();
    bad.rails[0].max_amount_cents = Some(0);
    assert!(optimize_batch(&bad, &vec![]).is_err());
    let mut bad = net.clone();
    bad.rails[0].participants.push("missing".into());
    assert!(optimize_batch(&bad, &vec![]).is_err());
    let mut bad = net.clone();
    bad.rails.push(net.rails[0].clone());
    assert!(optimize_batch(&bad, &vec![]).is_err());
}

#[test]
fn empty_batches_and_unreachable_payments_have_distinct_results() {
    let empty = network(&[], vec![]);
    let plan = optimize_batch(&empty, &vec![]).unwrap().unwrap();
    assert!(plan.assignments.is_empty());
    assert!(plan.rail_usage.is_empty());
    assert_eq!(
        (plan.total_fee_cents, plan.total_settlement_minutes),
        (0, 0)
    );
    let net = network(
        &["A", "B", "C"],
        vec![rail("ab", &["A", "B"], 0, 0, Some(0))],
    );
    assert_eq!(
        optimize_batch(&net, &vec![]).unwrap().unwrap().rail_usage[0].principal_cents,
        0
    );
    assert_eq!(optimize_batch(&net, &vec![payment("P", "A", "C", 1)]), Ok(None));
}

#[test]
fn only_explicit_batch_consumes_capacity_and_inputs_remain_unchanged() {
    let mut net = network(&["A", "B"], vec![rail("ab", &["A", "B"], 0, 0, Some(1))]);
    net.payments = vec![payment("stored", "A", "B", 1)];
    let batch = vec![payment("external", "B", "A", 1)];
    let before = net.clone();
    let expected = optimize_batch(&net, &batch).unwrap().unwrap();
    assert_eq!(optimize_batch(&net, &batch), Ok(Some(expected.clone())));
    assert_eq!(net, before);
    for i in &mut net.institutions {
        i.opening_balance_cents = u64::MAX;
    }
    assert_eq!(optimize_batch(&net, &batch), Ok(Some(expected)));
    let mut together = batch;
    together.extend(net.payments.clone());
    assert_eq!(optimize_batch(&net, &together), Ok(None));
}

#[test]
fn wide_principal_fees_and_latency_do_not_wrap_or_saturate() {
    let mut net = network(
        &["A", "B", "C"],
        vec![
            rail("ab", &["A", "B"], u64::MAX, u32::MAX, None),
            rail("bc", &["B", "C"], u64::MAX, u32::MAX, None),
        ],
    );
    let payments = vec![
        payment("P1", "A", "C", u64::MAX),
        payment("P2", "C", "A", u64::MAX),
    ];
    let plan = optimize_batch(&net, &payments).unwrap().unwrap();
    assert_eq!(plan.total_fee_cents, u128::from(u64::MAX) * 4);
    assert_eq!(plan.total_settlement_minutes, u128::from(u32::MAX) * 4);
    assert_eq!(plan.rail_usage[0].principal_cents, u128::from(u64::MAX) * 2);
    assert_eq!(plan.rail_usage[1].principal_cents, u128::from(u64::MAX) * 2);
    net.rails[0].batch_capacity_cents = Some(u64::MAX);
    assert_eq!(optimize_batch(&net, &payments), Ok(None));
    assert!(optimize_batch(&net, &payments[..1].to_vec()).unwrap().is_some());
}

#[test]
fn unlimited_demo_matches_independent_routes_and_preserves_the_viewer_data() {
    let net = demo_network();
    let before = net.clone();
    let plan = optimize_batch(&net, &net.payments).unwrap().unwrap();
    assert_eq!(plan.total_fee_cents, 60);
    assert_eq!(plan.assignments.len(), net.payments.len());
    for (p, a) in net.payments.iter().zip(&plan.assignments) {
        assert_eq!(a.payment_id, p.id);
        assert_eq!(Some(a.route.clone()), route_payment(&net, p).unwrap());
    }
    assert_eq!(net, before);
    assert_eq!(
        plan.rail_usage
            .iter()
            .find(|r| r.rail_id == "ACH")
            .unwrap()
            .principal_cents,
        22_500_150
    );
}


#[test]
fn exhaustive_enumeration_exposes_greedy_and_independent_failures() {
    let (net, payments) = greedy_trap();
    // Three choices for P1 and two for P2: exactly six joint assignments.
    assert_eq!(walks(&net, &payments[0]).len(), 3);
    assert_eq!(walks(&net, &payments[1]).len(), 2);
    let optimal = exhaustive(&net, &payments).unwrap();
    assert_eq!(optimal.fee, 4);
    assert_eq!(
        optimize_batch(&net, &payments)
            .unwrap()
            .unwrap()
            .total_fee_cents,
        optimal.fee
    );
    assert_eq!(greedy(&net, &payments).unwrap().fee, 11);
    let independent: Vec<_> = payments
        .iter()
        .map(|p| walks(&net, p).into_iter().min_by_key(|w| w.fee).unwrap())
        .collect();
    assert_eq!(answer(&independent).fee, 2);
    assert!(!capacity_fits(
        &net,
        &payments.iter().collect::<Vec<_>>(),
        &independent
    ));
}

#[test]
fn greedy_can_report_infeasible_when_the_batch_is_feasible() {
    let (mut net, payments) = greedy_trap();
    net.rails.pop();
    assert_eq!(greedy(&net, &payments), None);
    assert_eq!(exhaustive(&net, &payments).unwrap().fee, 4);
    assert_eq!(
        optimize_batch(&net, &payments)
            .unwrap()
            .unwrap()
            .total_fee_cents,
        4
    );
}



fn verify(net: &Network, payments: &[Payment], label: usize) {
    let before = net.clone();
    let before_payments = payments.to_vec();
    let actual = optimize_batch(net, &payments.to_vec()).unwrap();
    let expected = exhaustive(net, payments);
    let actual_rank = actual.as_ref().map(|plan| Answer {
        fee: plan.total_fee_cents,
        minutes: plan.total_settlement_minutes,
        hops: plan.assignments.iter().map(|a| a.route.hops.len()).sum(),
        paths: plan
            .assignments
            .iter()
            .map(|a| {
                a.route
                    .hops
                    .iter()
                    .map(|h| (h.rail_id.clone(), h.sender.clone(), h.receiver.clone()))
                    .collect()
            })
            .collect(),
    });
    assert_eq!(
        actual_rank, expected,
        "case={label}, payments={payments:?}, rails={:?}",
        net.rails
    );
    assert_eq!(net, &before);
    assert_eq!(payments, before_payments);
    if let Some(plan) = actual {
        let mut ordered: Vec<_> = payments.iter().collect();
        ordered.sort_by_key(|p| &p.id);
        assert_eq!(plan.assignments.len(), payments.len());
        let mut fees = 0;
        let mut minutes = 0;
        let mut usage = vec![0u128; net.rails.len()];
        for (p, assignment) in ordered.iter().zip(&plan.assignments) {
            assert_eq!(assignment.payment_id, p.id);
            let mut at = p.sender.as_str();
            let mut visited = vec![at];
            let (mut fee, mut elapsed) = (0, 0);
            for hop in &assignment.route.hops {
                assert_eq!(hop.sender, at);
                let (index, rail) = net
                    .rails
                    .iter()
                    .enumerate()
                    .find(|(_, r)| r.id == hop.rail_id)
                    .unwrap();
                assert!(rail.available);
                assert!(rail.participants.contains(&hop.sender));
                assert!(rail.participants.contains(&hop.receiver));
                assert!(rail.max_amount_cents.is_none_or(|c| p.amount_cents <= c));
                assert!(!visited.contains(&hop.receiver.as_str()));
                at = &hop.receiver;
                visited.push(at);
                usage[index] += u128::from(p.amount_cents);
                fee += u128::from(rail.fee_cents);
                elapsed += u128::from(rail.settlement_minutes);
            }
            assert_eq!(at, p.receiver);
            assert!(
                p.max_delivery_minutes
                    .is_none_or(|d| elapsed <= u128::from(d))
            );
            assert_eq!(
                (fee, elapsed),
                (
                    assignment.route.total_fee_cents,
                    assignment.route.total_settlement_minutes
                )
            );
            fees += fee;
            minutes += elapsed;
        }
        assert_eq!(
            (fees, minutes),
            (plan.total_fee_cents, plan.total_settlement_minutes)
        );
        let mut reported: Vec<_> = net
            .rails
            .iter()
            .zip(usage)
            .map(|(rail, amount)| {
                assert!(
                    rail.batch_capacity_cents
                        .is_none_or(|c| amount <= u128::from(c))
                );
                (rail.id.as_str(), amount)
            })
            .collect();
        reported.sort();
        assert_eq!(
            plan.rail_usage
                .iter()
                .map(|r| (r.rail_id.as_str(), r.principal_cents))
                .collect::<Vec<_>>(),
            reported
        );
    }
}

#[test]
fn all_triangle_capacity_states_match_complete_assignment_enumeration() {
    // 6^3 rail configurations x 3 batches x 4 deadlines = 2592 comparisons.
    for code in 0..6usize.pow(3) {
        let mut digits = code;
        let mut rails = vec![];
        for (index, (from, to)) in [("A", "B"), ("A", "C"), ("B", "C")].iter().enumerate() {
            let state = digits % 6;
            digits /= 6;
            let mut r = rail(&format!("R{index}"), &[from, to], 0, 0, Some(1));
            match state {
                0 => r.available = false,
                1 => r.batch_capacity_cents = Some(0),
                2 => {}
                3 => {
                    r.batch_capacity_cents = Some(2);
                    r.fee_cents = 1;
                    r.settlement_minutes = 2;
                }
                4 => {
                    r.batch_capacity_cents = None;
                    r.fee_cents = 3;
                }
                _ => {
                    r.batch_capacity_cents = Some(2);
                    r.max_amount_cents = Some(1);
                }
            }
            rails.push(r);
        }
        let net = network(&["A", "B", "C"], rails);
        for mut payments in [
            vec![payment("P1", "A", "C", 1), payment("P2", "C", "A", 1)],
            vec![payment("P1", "A", "C", 1), payment("P2", "A", "C", 2)],
            vec![
                payment("P1", "A", "B", 1),
                payment("P2", "B", "C", 1),
                payment("P3", "C", "A", 1),
            ],
        ] {
            for deadline in [None, Some(0), Some(2), Some(3)] {
                for p in &mut payments {
                    p.max_delivery_minutes = deadline;
                }
                verify(&net, &payments, code);
            }
        }
    }
}

#[test]
fn overlapping_shared_rails_and_bounded_cycles_match_exhaustive_oracle() {
    // 5^4 overlapping service configurations x 2 amounts x 3 deadlines = 3750.
    // Four institutions permit bounded oracle walks with cycles; production
    // excludes those. Parallel rails and distinct member pairs share capacity.
    for code in 0..5usize.pow(4) {
        let mut digits = code;
        let mut rails = vec![];
        for (index, ids) in [
            &["A", "B", "C"][..],
            &["B", "C", "D"],
            &["A", "B"],
            &["A", "D"],
        ]
        .iter()
        .enumerate()
        {
            let state = digits % 5;
            digits /= 5;
            let mut r = rail(&format!("R{index}"), ids, 0, 0, Some(1));
            match state {
                0 => r.batch_capacity_cents = Some(0),
                1 => {}
                2 => {
                    r.batch_capacity_cents = Some(2);
                    r.fee_cents = 1;
                    r.settlement_minutes = 2;
                }
                3 => {
                    r.batch_capacity_cents = None;
                    r.fee_cents = 3;
                }
                _ => {
                    r.batch_capacity_cents = Some(2);
                    r.max_amount_cents = Some(1);
                }
            }
            rails.push(r);
        }
        let net = network(&["A", "B", "C", "D"], rails);
        for amount in [1, 2] {
            for deadline in [None, Some(0), Some(3)] {
                let mut payments =
                    vec![payment("P2", "D", "A", amount), payment("P1", "A", "C", 1)];
                payments[0].max_delivery_minutes = deadline;
                verify(&net, &payments, code);
            }
        }
    }
}
