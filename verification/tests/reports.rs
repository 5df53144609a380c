use payment_routing::console::{Filter, View};
use payment_routing::evaluation::scenarios::{all, named, NAMES};
use payment_routing::evaluation::configs::{describe_scenario, describe_strategy};
use payment_routing::evaluation::{evaluate, Config, Evaluation, Ratio, Status, Strategy, World};
use payment_routing::network::{Institution, Network, Rail, ValidationError};
use payment_routing::operations::{Operations, PaymentStatus, Preset};
use payment_routing::simulation::{
    ArrivalProcess, PaymentFlow, RailService, RoutingStrategy, Scenario,
};
use payment_routing::simulation::rng::{ArrivalSample, Random};
use payment_routing::simulation::{SimulationError, Simulator};
use std::cmp::Ordering;

fn rail(id: &str, members: &[&str], fee: u64, latency: u32) -> Rail {
    Rail {
        id: id.into(),
        name: id.into(),
        participants: members.iter().map(|s| (*s).into()).collect(),
        fee_cents: fee,
        settlement_minutes: latency,
        available: true,
        max_amount_cents: None,
        batch_capacity_cents: None,
    }
}

fn scenario(rails: Vec<Rail>) -> Scenario {
    Scenario {
        services: rails
            .iter()
            .map(|r| RailService {
                rail_id: r.id.clone(),
                period_minutes: 1,
                offset_minutes: 0,
                open_minutes: 1,
                capacity_per_minute_cents: None,
            })
            .collect(),
        network: Network {
            name: "Report test".into(),
            institutions: ["A", "B", "C"]
                .into_iter()
                .map(|id| Institution {
                    id: id.into(),
                    name: id.into(),
                    opening_balance_cents: 0,
                })
                .collect(),
            rails,
            payments: vec![],
        },
        arrivals: ArrivalProcess {
            attempts_per_minute: 1,
            probability_per_million: 1_000_000,
            flows: vec![PaymentFlow {
                sender: "A".into(),
                receiver: "B".into(),
            }],
            min_amount_cents: 100,
            max_amount_cents: 100,
            min_sla_minutes: 10,
            max_sla_minutes: 10,
        },
        strategy: RoutingStrategy::CheapestStatic,
        max_active_payments: 100,
        retained_events: 100,
        disruptions: vec![],
    }
}

fn config(arrivals: u64, drain: u64) -> Config {
    Config {
        arrival_minutes: arrivals,
        drain_minutes: drain,
        verify_replay: true,
    }
}

fn two_strategies() -> Vec<Strategy> {
    vec![
        Strategy::named("static").unwrap(),
        Strategy::named("reserved").unwrap(),
    ]
}

fn small_evaluation() -> Evaluation {
    let worlds = vec![
        World {
            name: "one".into(),
            scenario: scenario(vec![rail("ab", &["A", "B"], 7, 2)]),
        },
        World {
            name: "two".into(),
            scenario: scenario(vec![rail("ab", &["A", "B"], 3, 0)]),
        },
    ];
    evaluate(&worlds, &[42, 7], &two_strategies(), config(3, 4)).unwrap()
}

fn message(r: Result<Evaluation, SimulationError>) -> String {
    match r {
        Err(SimulationError::Validation(ValidationError::Evaluation { message })) => message,
        other => panic!("unexpected {other:?}"),
    }
}

#[test]
fn ratios_compare_by_value_not_by_representation() {
    assert_eq!(Ratio::new(1, 0), None);
    let half = Ratio::new(1, 2).unwrap();
    let also_half = Ratio::new(50, 100).unwrap();
    let third = Ratio::new(1, 3).unwrap();
    let big = Ratio::new(u128::MAX, u128::MAX - 1).unwrap();
    assert_eq!(half.compare(also_half), Ordering::Equal);
    assert_eq!(third.compare(half), Ordering::Less);
    assert_eq!(big.compare(half), Ordering::Greater);
    assert_eq!(big.compare(Ratio::new(u128::MAX - 1, u128::MAX - 2).unwrap()), Ordering::Less);
}

#[test]
fn evaluation_inputs_are_validated_with_their_own_messages() {
    let worlds = vec![World {
        name: "w".into(),
        scenario: scenario(vec![rail("ab", &["A", "B"], 1, 0)]),
    }];
    let s = two_strategies();
    assert_eq!(
        message(evaluate(&worlds, &[], &s, config(1, 0))),
        "evaluation needs worlds, seeds, strategies and positive arrival minutes"
    );
    assert_eq!(
        message(evaluate(&worlds, &[1], &s, config(0, 0))),
        "evaluation needs worlds, seeds, strategies and positive arrival minutes"
    );
    assert_eq!(
        message(evaluate(&worlds, &[1, 2, 1], &s, config(1, 0))),
        "duplicate evaluation seed"
    );
    let mut blank = worlds.clone();
    blank[0].name = " \t".into();
    assert_eq!(
        message(evaluate(&blank, &[1], &s, config(1, 0))),
        "evaluation names must be nonempty and unique"
    );
    let twice = vec![s[0].clone(), s[0].clone()];
    assert_eq!(
        message(evaluate(&worlds, &[1], &twice, config(1, 0))),
        "evaluation names must be nonempty and unique"
    );
    let mut broken = worlds.clone();
    broken[0].scenario.max_active_payments = 0;
    assert!(matches!(
        evaluate(&broken, &[1], &s, config(1, 0)),
        Err(SimulationError::Validation(_))
    ));
}

#[test]
fn cases_are_world_major_with_one_run_per_strategy() {
    let e = small_evaluation();
    assert_eq!(e.cases.len(), 4);
    let order: Vec<_> = e.cases.iter().map(|c| (c.world.as_str(), c.seed)).collect();
    assert_eq!(order, [("one", 42), ("one", 7), ("two", 42), ("two", 7)]);
    for case in &e.cases {
        let names: Vec<_> = case.runs.iter().map(|r| r.strategy.as_str()).collect();
        assert_eq!(names, ["static", "reserved"]);
        assert_eq!(case.offered, 3);
        for run in &case.runs {
            assert_eq!(run.status, Status::Complete);
            assert!(run.replay_verified);
        }
    }
}

#[test]
fn aggregates_sum_the_matched_cases_and_rank_each_case_once() {
    let e = small_evaluation();
    let all = e.aggregates().unwrap();
    assert_eq!(all.len(), 2);
    for (index, a) in all.iter().enumerate() {
        assert_eq!(a.total_cases, 4);
        assert_eq!(a.matched_cases, 4);
        assert_eq!((a.censored_cases, a.error_cases), (0, 0));
        assert!(a.replay_verified);
        let generated: u128 = e.cases.iter().map(|c| c.runs[index].metrics.generated).sum();
        let fees: u128 = e.cases.iter().map(|c| c.runs[index].metrics.routing_cost_cents).sum();
        assert_eq!(a.metrics.generated, generated);
        assert_eq!(a.metrics.routing_cost_cents, fees);
        assert_eq!(a.metrics.generated, 12);
        assert!(a.wins + a.tied_best <= a.matched_cases);
        assert!(a.worst_not_on_time.is_some() && a.p95_not_on_time.is_some());
    }
    let ranked: usize = all.iter().map(|a| a.wins).sum();
    assert!(ranked <= 4);
    let one = e.aggregates_for_world("one").unwrap();
    assert_eq!(one[0].total_cases, 2);
    assert!(matches!(
        e.aggregates_for_world("nowhere"),
        Err(SimulationError::Validation(ValidationError::Evaluation { message }))
            if message == "unknown aggregate world"
    ));
}

#[test]
fn summary_csv_has_a_header_a_row_per_run_and_per_aggregate() {
    let e = small_evaluation();
    let csv = e.to_csv().unwrap();
    let lines: Vec<_> = csv.lines().collect();
    assert_eq!(lines.len(), 1 + 8 + 3 * 2);
    assert!(lines[0].starts_with("\"record\",\"version\",\"world\",\"seed\",\"strategy\""));
    assert_eq!(lines[0].split(',').count(), 74);
    assert!(lines[1].starts_with("\"case\",\"1\",\"one\",\"42\",\"static\",\"complete\",\"3\",\"4\",\"true\""));
    assert!(lines[9].starts_with("\"aggregate\",\"1\",\"\",\"\",\"static\",\"complete\""));
    assert!(lines[11].starts_with("\"world-aggregate\",\"1\",\"one\",\"\",\"static\""));
    let configs = vec!["S1".to_string(), "S2".to_string()];
    let worlds = vec!["W1".to_string(), "W2".to_string()];
    let plain = e.summary_csv(&configs, &worlds).unwrap();
    assert!(plain.lines().nth(3).unwrap().contains("\"S1\",\"W1\""));
    assert!(plain.lines().nth(5).unwrap().contains("\"S1\",\"W2\""));
    let payments = e.payments_csv();
    assert!(payments.starts_with("\"version\",\"world\",\"seed\",\"strategy\",\"run_status\""));
    assert_eq!(payments.lines().count(), 1 + 8 * 3);
}

#[test]
fn suite_worlds_are_named_and_presets_share_the_demo_network() {
    assert_eq!(NAMES.len(), 9);
    let balanced = named("balanced").unwrap();
    assert_eq!(balanced.scenario, Preset::Balanced.scenario(RoutingStrategy::CheapestStatic));
    let trap = named("reservation-trap").unwrap();
    assert_eq!(trap.scenario.disruptions.len(), 4);
    assert_eq!(trap.scenario.services[0].period_minutes, 8);
    assert!(named("nowhere").is_none());
    let worlds = all();
    assert_eq!(worlds.len(), 9);
    let names: Vec<&str> = worlds.iter().map(|w| w.name.as_str()).collect();
    assert_eq!(names, NAMES.to_vec());
    for w in &worlds {
        assert!(Simulator::new(w.scenario.clone(), 1).is_ok(), "{}", w.name);
    }
}

#[test]
fn presets_run_the_execution_fixture() {
    let outage = Preset::Outage.scenario(RoutingStrategy::CheapestStatic);
    assert_eq!(outage.arrivals.flows.len(), 30);
    assert_eq!(outage.services.len(), 4);
    let ach = outage.network.rails.iter().find(|r| r.id == "ACH").unwrap();
    assert!(!ach.available && ach.settlement_minutes == 5);
    assert!(outage.network.payments.is_empty());
    let pressure = Preset::Pressure.scenario(RoutingStrategy::CheapestStatic);
    assert_eq!((pressure.arrivals.attempts_per_minute, pressure.max_active_payments), (12, 16));
    assert_eq!(Preset::Limited.name(), "limited");
}

#[test]
fn statuses_and_filters_label_and_select_payments() {
    assert_eq!(PaymentStatus::Rejected.label(), "OVERLOAD");
    assert!(PaymentStatus::Late.terminal() && !PaymentStatus::Draining.terminal());
    assert_eq!(Filter::Failed.label(), "SLA/overload");
    assert_eq!(View::ALL.len(), 6);
    let mut ops = Operations::new(Preset::Pressure, 3).unwrap();
    for _ in 0..30 {
        ops.step().unwrap();
    }
    let run = &ops.runs[0];
    assert_eq!(run.samples.len(), 30);
    for p in run.payments.values() {
        assert_eq!(Filter::Finished.matches(p), p.status.terminal());
        assert_eq!(Filter::Active.matches(p), !p.status.terminal());
        assert!(Filter::All.matches(p));
    }
    assert!(run.payments.values().any(|p| Filter::Failed.matches(p)));
}

#[test]
fn injected_arrivals_leave_the_random_stream_untouched() {
    let c = scenario(vec![rail("ab", &["A", "B"], 1, 0)]);
    let mut driven = Simulator::new(c.clone(), 5).unwrap();
    let mut own = Simulator::new(c, 5).unwrap();
    let arrivals: Vec<ArrivalSample> = Random(5).arrivals(&own.scenario().arrivals);
    let injected = driven.step_with_arrivals(&arrivals).unwrap();
    let drawn = own.step().unwrap();
    assert_eq!(injected, drawn);
    assert_eq!(driven.metrics(), own.metrics());
    assert_ne!(driven.state.random, own.state.random);
    assert_eq!(driven.state.random, Random(5));
}

#[test]
fn restarted_sessions_replay_exactly() {
    let mut ops = Operations::new(Preset::Balanced, 9).unwrap();
    for _ in 0..10 {
        ops.step().unwrap();
    }
    let first = ops.clone();
    ops.restart(9).unwrap();
    assert!(ops.runs.iter().all(|r| r.payments.is_empty() && r.samples.is_empty()));
    for _ in 0..10 {
        ops.step().unwrap();
    }
    assert_eq!(ops, first);
}

#[test]
fn disruption_world_closes_and_reopens_ach_on_schedule() {
    let world = named("disruptions").unwrap();
    assert_eq!(world.scenario.disruptions.len(), 3);
    let mut sim = Simulator::new(world.scenario.clone(), 42).unwrap();
    let ach = |sim: &Simulator| {
        sim.effective_scenario().network.rails.iter().find(|r| r.id == "ACH").unwrap().available
    };
    for _ in 0..3 {
        sim.step().unwrap();
    }
    assert!(ach(&sim));
    sim.step().unwrap();
    assert!(!ach(&sim));
    for _ in 4..12 {
        sim.step().unwrap();
    }
    assert!(!ach(&sim));
    sim.step().unwrap();
    assert!(ach(&sim));
    let fednow = sim.effective_scenario().services.iter().find(|s| s.rail_id == "FEDNOW").unwrap();
    assert_eq!(fednow.capacity_per_minute_cents, Some(50_000));
}

#[test]
fn configuration_cells_write_every_field_in_declaration_order() {
    let strategy = Strategy::named("static").unwrap();
    let text = describe_strategy(&strategy);
    assert!(text.starts_with("Strategy { name: \"static\", routing: CheapestStatic, reoptimization: "));
    assert_eq!(text, format!("{:?}", strategy));
    let reserved = Strategy::named("reserved").unwrap();
    assert!(describe_strategy(&reserved).contains("routing: Reserved { limits: SearchLimits { labels_per_node: "));
    assert_eq!(describe_strategy(&reserved), format!("{:?}", reserved));
    for world in all() {
        assert_eq!(describe_scenario(&world.scenario), format!("{:?}", world.scenario), "{}", world.name);
    }
    let e = small_evaluation();
    let csv = e.to_csv().unwrap();
    let cell = describe_strategy(&strategy).replace('"', "\"\"");
    assert!(csv.lines().nth(1).unwrap().contains(&cell));
}
