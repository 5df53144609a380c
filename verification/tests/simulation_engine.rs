use payment_routing::demo::demo_network;
use payment_routing::simulation::{
    ArrivalProcess, PaymentFlow, RailService, RoutingStrategy, Scenario,
};
use payment_routing::simulation::rng::Random;
use payment_routing::simulation::{SimulationError, Simulator};

fn simulator() -> Simulator {
    let mut network = demo_network();
    for rail in &mut network.rails {
        rail.settlement_minutes = 0;
    }
    let services = network
        .rails
        .iter()
        .map(|r| RailService {
            rail_id: r.id.clone(),
            period_minutes: 1,
            offset_minutes: 0,
            open_minutes: 1,
            capacity_per_minute_cents: None,
        })
        .collect();
    let scenario = Scenario {
        arrivals: ArrivalProcess {
            attempts_per_minute: 1,
            probability_per_million: 1_000_000,
            flows: vec![PaymentFlow {
                sender: network.institutions[0].id.clone(),
                receiver: network.institutions[1].id.clone(),
            }],
            min_amount_cents: 1,
            max_amount_cents: 1,
            min_sla_minutes: 0,
            max_sla_minutes: 0,
        },
        network,
        services,
        strategy: RoutingStrategy::CheapestStatic,
        max_active_payments: 2,
        retained_events: 8,
        disruptions: vec![],
    };
    Simulator::new(scenario, 0).unwrap()
}

#[test]
fn ticks_cross_u64_time_without_a_horizon_or_wrapping() {
    let mut sim = simulator();
    sim.state.next_minute = u128::from(u64::MAX);
    let report = sim.step().unwrap();
    assert_eq!(report.minute, u128::from(u64::MAX));
    assert_eq!(sim.next_minute(), u128::from(u64::MAX) + 1);
    sim.step().unwrap();
    assert_eq!(sim.metrics().completed, 2);
}

#[test]
fn numeric_exhaustion_rolls_back_rng_payments_metrics_and_events_for_the_whole_tick() {
    for field in 0..4 {
        let mut sim = simulator();
        match field {
            0 => sim.state.next_minute = u128::MAX,
            1 => sim.state.next_event = u128::MAX - 2,
            2 => sim.state.metrics.generated_volume_cents = u128::MAX,
            _ => sim.state.metrics.routing_cost_cents = u128::MAX,
        }
        let before = sim.clone();
        assert!(
            matches!(sim.step(), Err(SimulationError::ArithmeticOverflow(_))),
            "field {field}"
        );
        assert_eq!(sim, before, "field {field}");
    }
}

#[test]
fn invariant_failure_rejects_the_tick_without_committing() {
    let mut sim = simulator();
    sim.state.metrics.generated = 1;
    let before = sim.clone();
    assert!(matches!(sim.step(), Err(SimulationError::Invariant(_))));
    assert_eq!(sim, before);
}

#[test]
fn reservation_errors_roll_back_and_timestamps_cross_u64() {
    let mut sim = simulator();
    sim.scenario.strategy = RoutingStrategy::Reserved {
        limits: Default::default(),
    };
    sim.effective = sim.scenario.clone();
    sim.state.next_minute = u128::from(u64::MAX);
    sim.step().unwrap();
    sim.step().unwrap();
    for field in 0..3 {
        let mut trial = sim.clone();
        match field {
            0 => trial.state.next_event = u128::MAX - 1,
            1 => trial.state.next_minute = u128::MAX,
            _ => trial.state.metrics.routing_cost_cents = u128::MAX,
        }
        let before = trial.clone();
        assert!(trial.step().is_err());
        assert_eq!(trial, before);
    }
}

#[test]
fn splitmix64_seed_zero_matches_fixed_vectors() {
    let mut random = Random(0);
    assert_eq!(random.next(), 0xe220a8397b1dcdaf);
    assert_eq!(random.next(), 0x6e789e6aa1b965f4);
    assert_eq!(random.next(), 0x06c45d188009454f);
    assert_eq!(Random(0).inclusive(0, u64::MAX), 0xe220a8397b1dcdaf);
}
