use payment_routing::network::{Institution, Network, Rail};
use payment_routing::scalable::SearchLimits;
use payment_routing::simulation::{
    ArrivalProcess, Disruption, EventKind, PaymentFlow, RailService, RailUpdate, RoutingStrategy, Scenario,
    Simulator,
};

fn rail(id: &str, members: &[&str], fee: u64, latency: u32) -> Rail {
    Rail {
        id: id.into(),
        name: id.into(),
        participants: members.iter().map(|s| (*s).into()).collect(),
        fee_cents: fee,
        settlement_minutes: latency,
        available: true,
        max_amount_cents: None,
        batch_capacity_cents: None,
    }
}

fn scenario(rails: Vec<Rail>) -> Scenario {
    Scenario {
        services: rails
            .iter()
            .map(|r| RailService {
                rail_id: r.id.clone(),
                period_minutes: 1,
                offset_minutes: 0,
                open_minutes: 1,
                capacity_per_minute_cents: None,
            })
            .collect(),
        network: Network {
            name: "Simulation test".into(),
            institutions: ["A", "B", "C", "D"]
                .into_iter()
                .map(|id| Institution { id: id.into(), name: id.into(), opening_balance_cents: 123 })
                .collect(),
            rails,
            payments: vec![],
        },
        arrivals: ArrivalProcess {
            attempts_per_minute: 1,
            probability_per_million: 1_000_000,
            flows: vec![PaymentFlow { sender: "A".into(), receiver: "B".into() }],
            min_amount_cents: 100,
            max_amount_cents: 100,
            min_sla_minutes: 10,
            max_sla_minutes: 10,
        },
        strategy: RoutingStrategy::CheapestStatic,
        max_active_payments: 100,
        retained_events: 100,
        disruptions: vec![],
    }
}

fn sla(config: &mut Scenario, minutes: u64) {
    config.arrivals.min_sla_minutes = minutes;
    config.arrivals.max_sla_minutes = minutes;
}

fn reserved(c: &mut Scenario) {
    c.strategy = RoutingStrategy::Reserved { limits: SearchLimits::default() };
}

fn update(id: &str, available: Option<bool>, cap: Option<Option<u64>>) -> RailUpdate {
    RailUpdate { rail_id: id.into(), available, capacity_per_minute_cents: cap }
}

fn scheduled(c: &mut Scenario, minute: u128, update: RailUpdate) {
    c.disruptions.push(Disruption { minute, update });
}

fn recovery(count: u32, old_fee: u64, new_fee: u64) -> Scenario {
    let mut c = scenario(vec![rail("A", &["A", "B"], new_fee, 0), rail("B", &["A", "B"], old_fee, 0)]);
    c.network.rails[0].available = false;
    c.arrivals.attempts_per_minute = count;
    sla(&mut c, 3);
    for s in &mut c.services {
        s.period_minutes = 10;
        s.offset_minutes = 3;
        s.open_minutes = 1;
    }
    reserved(&mut c);
    scheduled(&mut c, 1, update("A", Some(true), None));
    c
}

#[test]
fn controls_merge_bound_storage_and_restart_replays_scheduled_changes() {
    let c = recovery(3, 5, 5);
    let mut s = Simulator::new(c.clone(), 42).unwrap();
    let before = s.clone();
    assert!(s.queue_rail_update(update("missing", Some(false), None)).is_err());
    assert_eq!(s, before);
    for _ in 0..100 {
        s.queue_rail_update(update("B", Some(false), None)).unwrap();
    }
    s.queue_rail_update(update("B", None, Some(Some(0)))).unwrap();
    assert_eq!(s.pending_rail_updates(), 1);
    assert_eq!(s.next_minute(), 0);
    assert!(s.tick().unwrap().is_none());
    s.step().unwrap();
    assert!(!s.effective_scenario().network.rails[1].available);
    assert_eq!(s.effective_scenario().services[1].capacity_per_minute_cents, Some(0));
    assert_eq!(s.scenario().services[1].capacity_per_minute_cents, None);
    s.restart(42);
    assert_eq!(s, Simulator::new(c, 42).unwrap());
    s.advance_ticks(5).unwrap();
    let expected = s.clone();
    s.restart(42);
    s.advance_ticks(5).unwrap();
    assert_eq!(s, expected);
}

#[test]
fn control_override_and_noop_are_deterministic_and_do_not_count_churn() {
    let mut s = Simulator::new(recovery(2, 5, 5), 42).unwrap();
    s.step().unwrap();
    s.queue_rail_update(update("A", Some(false), None)).unwrap();
    let r = s.step().unwrap();
    assert!(!r.events.iter().any(|e| matches!(e.kind, EventKind::DisruptionApplied(_))));
    assert_eq!(s.adaptation_metrics().rail_changes, 0);
    s.queue_rail_update(update("A", Some(true), Some(None))).unwrap();
    s.step().unwrap();
    assert_eq!(s.adaptation_metrics().rail_changes, 1);
}
