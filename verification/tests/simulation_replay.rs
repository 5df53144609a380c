use payment_routing::network::{Institution, Network, Payment, Rail};
use payment_routing::simulation::{
    ArrivalProcess, PaymentFlow, RailService, RoutingStrategy, Scenario,
};
use payment_routing::routing::Route;
use payment_routing::simulation::RailConditions;
use payment_routing::simulation::{EventKind, Metrics, RailState, Simulator, TickReport};
use std::collections::{BTreeMap, BTreeSet};

fn rail(id: &str, members: &[&str], fee: u64, latency: u32) -> Rail {
    Rail {
        id: id.into(),
        name: id.into(),
        participants: members.iter().map(|s| (*s).into()).collect(),
        fee_cents: fee,
        settlement_minutes: latency,
        available: true,
        max_amount_cents: None,
        batch_capacity_cents: None,
    }
}

fn scenario(rails: Vec<Rail>) -> Scenario {
    Scenario {
        services: rails
            .iter()
            .map(|r| RailService {
                rail_id: r.id.clone(),
                period_minutes: 1,
                offset_minutes: 0,
                open_minutes: 1,
                capacity_per_minute_cents: None,
            })
            .collect(),
        network: Network {
            name: "Simulation test".into(),
            institutions: ["A", "B", "C", "D"]
                .into_iter()
                .map(|id| Institution {
                    id: id.into(),
                    name: id.into(),
                    opening_balance_cents: 123,
                })
                .collect(),
            rails,
            payments: vec![],
        },
        arrivals: ArrivalProcess {
            attempts_per_minute: 1,
            probability_per_million: 1_000_000,
            flows: vec![PaymentFlow {
                sender: "A".into(),
                receiver: "B".into(),
            }],
            min_amount_cents: 100,
            max_amount_cents: 100,
            min_sla_minutes: 10,
            max_sla_minutes: 10,
        },
        strategy: RoutingStrategy::CheapestStatic,
        max_active_payments: 100,
        retained_events: 100,
        disruptions: vec![],
    }
}

fn sla(config: &mut Scenario, minutes: u64) {
    config.arrivals.min_sla_minutes = minutes;
    config.arrivals.max_sla_minutes = minutes;
}

fn amount(config: &mut Scenario, cents: u64) {
    config.arrivals.min_amount_cents = cents;
    config.arrivals.max_amount_cents = cents;
}

fn generated(report: &TickReport) -> Vec<(u128, Payment, u128)> {
    report
        .events
        .iter()
        .filter_map(|event| match &event.kind {
            EventKind::Generated {
                sequence,
                payment,
                deadline,
            } => Some((*sequence, payment.clone(), *deadline)),
            _ => None,
        })
        .collect()
}

/// Independent event accounting: lifecycle, fees, capacity and metrics are
/// reconstructed from the witnesses alone.

struct Record {
    payment: Payment,
    release: u128,
    deadline: u128,
    at: String,
    route: Option<Route>,
    next_hop: usize,
    in_flight: Option<u128>,
    failed: bool,
}

#[derive(Default)]
struct Audit {
    next_event: u128,
    next_minute: u128,
    live: BTreeMap<u128, Record>,
    metrics: Metrics,
    rails: BTreeMap<String, RailState>,
    conditions: BTreeMap<String, RailConditions>,
}

impl Audit {
    fn check(&mut self, scenario: &Scenario, report: &TickReport, sim: &Simulator) {
        assert_eq!(report.minute, self.next_minute);
        self.next_minute += 1;
        let minute = report.minute;
        let mut reset = BTreeSet::new();
        for event in &report.events {
            if let EventKind::DisruptionApplied(change) = &event.kind {
                let rail = scenario
                    .network
                    .rails
                    .iter()
                    .find(|r| r.id == change.rail_id)
                    .unwrap();
                let service = scenario
                    .services
                    .iter()
                    .find(|s| s.rail_id == change.rail_id)
                    .unwrap();
                let before =
                    self.conditions
                        .get(&change.rail_id)
                        .copied()
                        .unwrap_or(RailConditions {
                            available: rail.available,
                            capacity_per_minute_cents: service.capacity_per_minute_cents,
                        });
                assert_eq!(before, change.before);
                assert_ne!(before, change.after);
                self.conditions.insert(change.rail_id.clone(), change.after);
            }
        }
        let open = |id: &str| {
            let rail = scenario.network.rails.iter().find(|r| r.id == id).unwrap();
            let service = scenario.services.iter().find(|s| s.rail_id == id).unwrap();
            let phase = minute % u128::from(service.period_minutes);
            self.conditions
                .get(id)
                .map_or(rail.available, |c| c.available)
                && (u128::from(service.offset_minutes)
                    ..u128::from(service.offset_minutes) + u128::from(service.open_minutes))
                    .contains(&phase)
        };
        for event in &report.events {
            assert_eq!((event.sequence, event.minute), (self.next_event, minute));
            self.next_event += 1;
            if !matches!(event.kind, EventKind::RailTick { .. }) {
                assert_eq!(reset.len(), scenario.network.rails.len());
            }
            match &event.kind {
                EventKind::RailTick {
                    rail_id,
                    open: available,
                    capacity_cents,
                } => {
                    assert!(reset.insert(rail_id.clone()));
                    assert_eq!(*available, open(rail_id));
                    let service = scenario
                        .services
                        .iter()
                        .find(|s| &s.rail_id == rail_id)
                        .unwrap();
                    assert_eq!(
                        *capacity_cents,
                        self.conditions
                            .get(rail_id)
                            .map_or(service.capacity_per_minute_cents, |c| c
                                .capacity_per_minute_cents)
                    );
                    let state = self.rails.entry(rail_id.clone()).or_insert(RailState {
                        rail_id: rail_id.clone(),
                        open: false,
                        used_this_minute_cents: 0,
                        departed_principal_cents: 0,
                        settled_principal_cents: 0,
                        departed_hops: 0,
                        settled_hops: 0,
                        routing_cost_cents: 0,
                    });
                    state.open = *available;
                    state.used_this_minute_cents = 0;
                }
                EventKind::DisruptionApplied(_) | EventKind::Reoptimized(_) => {}
                EventKind::PlanRevised {
                    sequence,
                    route,
                    planned_departures,
                } => {
                    let p = self.live.get_mut(sequence).unwrap();
                    let fixed = p.next_hop + usize::from(p.in_flight.is_some());
                    let old_prefix = p.route.as_ref().map_or(&[][..], |r| &r.hops[..fixed]);
                    let new_hops = route.as_ref().map_or(&[][..], |r| r.hops.as_slice());
                    assert!(new_hops.len() >= fixed);
                    assert_eq!(&new_hops[..fixed], old_prefix);
                    if let Some(times) = planned_departures {
                        assert_eq!(times.len(), new_hops.len());
                    }
                    let mut at = p.payment.sender.clone();
                    let mut visited = BTreeSet::from([at.clone()]);
                    let (mut fee, mut latency) = (0, 0);
                    for h in new_hops {
                        let r = scenario
                            .network
                            .rails
                            .iter()
                            .find(|r| r.id == h.rail_id)
                            .unwrap();
                        assert_eq!(h.sender, at);
                        assert!(
                            r.participants.contains(&h.sender)
                                && r.participants.contains(&h.receiver)
                        );
                        assert!(visited.insert(h.receiver.clone()));
                        assert!(
                            r.max_amount_cents
                                .is_none_or(|c| p.payment.amount_cents <= c)
                        );
                        at = h.receiver.clone();
                        fee += u128::from(r.fee_cents);
                        latency += u128::from(r.settlement_minutes);
                    }
                    assert!(new_hops.len() == fixed || at == p.payment.receiver);
                    if let Some(r) = route {
                        assert_eq!(
                            (r.total_fee_cents, r.total_settlement_minutes),
                            (fee, latency)
                        );
                    }
                    p.route = route.clone();
                }
                EventKind::Generated {
                    sequence,
                    payment,
                    deadline,
                } => {
                    self.metrics.generated += 1;
                    self.metrics.generated_volume_cents += u128::from(payment.amount_cents);
                    assert_eq!(*sequence, self.metrics.generated);
                    assert_eq!(payment.id, format!("SIM-{sequence}"));
                    let a = &scenario.arrivals;
                    assert!(
                        (a.min_amount_cents..=a.max_amount_cents).contains(&payment.amount_cents)
                    );
                    assert!(
                        (u128::from(a.min_sla_minutes)..=u128::from(a.max_sla_minutes))
                            .contains(&(deadline - minute))
                    );
                    assert!(
                        a.flows
                            .iter()
                            .any(|f| f.sender == payment.sender && f.receiver == payment.receiver)
                    );
                    assert_eq!(
                        payment.max_delivery_minutes.map(u128::from),
                        Some(deadline - minute)
                    );
                    assert!(
                        self.live
                            .insert(
                                *sequence,
                                Record {
                                    payment: payment.clone(),
                                    release: minute,
                                    deadline: *deadline,
                                    at: payment.sender.clone(),
                                    route: None,
                                    next_hop: 0,
                                    in_flight: None,
                                    failed: false,
                                }
                            )
                            .is_none()
                    );
                    assert!(self.live.len() <= scenario.max_active_payments + 1);
                }
                EventKind::Rejected { sequence } => {
                    assert_eq!(self.live.len(), scenario.max_active_payments + 1);
                    let p = self.live.remove(sequence).unwrap();
                    assert_eq!(p.release, minute);
                    assert!(p.route.is_none() && p.in_flight.is_none());
                    self.metrics.rejected += 1;
                    self.metrics.rejected_volume_cents += u128::from(p.payment.amount_cents);
                    self.metrics.sla_failures += 1;
                    self.metrics.sla_failed_volume_cents += u128::from(p.payment.amount_cents);
                }
                EventKind::RouteAccepted { sequence, route } => {
                    let p = self.live.get_mut(sequence).unwrap();
                    assert!(p.route.is_none() && p.in_flight.is_none() && !p.failed);
                    assert!(!route.hops.is_empty());
                    let mut at = p.payment.sender.clone();
                    let mut visited = BTreeSet::from([at.clone()]);
                    let (mut fee, mut latency) = (0, 0);
                    for hop in &route.hops {
                        let r = scenario
                            .network
                            .rails
                            .iter()
                            .find(|r| r.id == hop.rail_id)
                            .unwrap();
                        assert_eq!(hop.sender, at);
                        assert!(
                            r.participants.contains(&hop.sender)
                                && r.participants.contains(&hop.receiver)
                        );
                        assert!(visited.insert(hop.receiver.clone()));
                        assert!(
                            self.conditions
                                .get(&r.id)
                                .map_or(r.available, |c| c.available)
                        );
                        if scenario.strategy == RoutingStrategy::CheapestStatic {
                            assert!(open(&hop.rail_id));
                        }
                        assert!(
                            r.max_amount_cents
                                .is_none_or(|c| p.payment.amount_cents <= c)
                        );
                        at.clone_from(&hop.receiver);
                        fee += u128::from(r.fee_cents);
                        latency += u128::from(r.settlement_minutes);
                    }
                    assert_eq!(at, p.payment.receiver);
                    assert_eq!(
                        (route.total_fee_cents, route.total_settlement_minutes),
                        (fee, latency)
                    );
                    assert!(minute + latency <= p.deadline);
                    p.route = Some(route.clone());
                    self.metrics.accepted_routes += 1;
                }
                EventKind::HopDeparted {
                    sequence,
                    hop,
                    amount_cents,
                    fee_cents,
                    arrival_minute,
                } => {
                    let p = self.live.get_mut(sequence).unwrap();
                    assert!(!p.failed && p.in_flight.is_none() && minute <= p.deadline);
                    assert_eq!(p.route.as_ref().unwrap().hops[p.next_hop], *hop);
                    assert_eq!(hop.sender, p.at);
                    assert_eq!(*amount_cents, p.payment.amount_cents);
                    let r = scenario
                        .network
                        .rails
                        .iter()
                        .find(|r| r.id == hop.rail_id)
                        .unwrap();
                    assert_eq!(*fee_cents, r.fee_cents);
                    assert_eq!(*arrival_minute, minute + u128::from(r.settlement_minutes));
                    if matches!(scenario.strategy, RoutingStrategy::Reserved { .. }) {
                        assert!(*arrival_minute <= p.deadline);
                    }
                    assert!(open(&hop.rail_id));
                    assert!(r.max_amount_cents.is_none_or(|c| *amount_cents <= c));
                    let amount = u128::from(*amount_cents);
                    let state = self.rails.get_mut(&hop.rail_id).unwrap();
                    state.used_this_minute_cents += amount;
                    let s = scenario
                        .services
                        .iter()
                        .find(|s| s.rail_id == hop.rail_id)
                        .unwrap();
                    assert!(
                        self.conditions
                            .get(&hop.rail_id)
                            .map_or(s.capacity_per_minute_cents, |c| c.capacity_per_minute_cents)
                            .is_none_or(|c| state.used_this_minute_cents <= u128::from(c))
                    );
                    state.departed_hops += 1;
                    state.departed_principal_cents += amount;
                    state.routing_cost_cents += u128::from(*fee_cents);
                    self.metrics.departed_hops += 1;
                    self.metrics.departed_principal_cents += amount;
                    self.metrics.routing_cost_cents += u128::from(*fee_cents);
                    p.in_flight = Some(*arrival_minute);
                }
                EventKind::HopSettled {
                    sequence,
                    hop,
                    amount_cents,
                } => {
                    let p = self.live.get_mut(sequence).unwrap();
                    assert_eq!(p.in_flight.take(), Some(minute));
                    assert_eq!(p.route.as_ref().unwrap().hops[p.next_hop], *hop);
                    assert_eq!(*amount_cents, p.payment.amount_cents);
                    assert_eq!(p.at, hop.sender);
                    p.at.clone_from(&hop.receiver);
                    p.next_hop += 1;
                    let state = self.rails.get_mut(&hop.rail_id).unwrap();
                    state.settled_hops += 1;
                    state.settled_principal_cents += u128::from(*amount_cents);
                    self.metrics.settled_hops += 1;
                    self.metrics.settled_principal_cents += u128::from(*amount_cents);
                }
                EventKind::DeadlineMissed { sequence } => {
                    let p = self.live.get_mut(sequence).unwrap();
                    assert!(!p.failed);
                    assert_eq!(minute, p.deadline);
                    assert_ne!(p.at, p.payment.receiver);
                    p.failed = true;
                    self.metrics.sla_failures += 1;
                    self.metrics.sla_failed_volume_cents += u128::from(p.payment.amount_cents);
                }
                EventKind::Expired { sequence } => {
                    let p = self.live.remove(sequence).unwrap();
                    assert!(p.failed && p.in_flight.is_none());
                    assert_ne!(p.at, p.payment.receiver);
                    self.metrics.expired += 1;
                    self.metrics.expired_volume_cents += u128::from(p.payment.amount_cents);
                }
                EventKind::Completed {
                    sequence,
                    late,
                    elapsed_minutes,
                } => {
                    let p = self.live.remove(sequence).unwrap();
                    assert_eq!(p.at, p.payment.receiver);
                    assert!(p.in_flight.is_none());
                    assert_eq!(p.next_hop, p.route.as_ref().unwrap().hops.len());
                    assert_eq!(*late, minute > p.deadline);
                    assert_eq!(p.failed, *late);
                    assert_eq!(*elapsed_minutes, minute - p.release);
                    self.metrics.completed += 1;
                    self.metrics.completed_volume_cents += u128::from(p.payment.amount_cents);
                    self.metrics.completed_elapsed_minutes += elapsed_minutes;
                    if *late {
                        self.metrics.completed_late += 1;
                        self.metrics.completed_late_volume_cents +=
                            u128::from(p.payment.amount_cents);
                    }
                }
            }
        }
        assert_eq!(reset.len(), scenario.network.rails.len());
        if matches!(scenario.strategy, RoutingStrategy::Reserved { .. }) {
            let mut future = BTreeMap::<(String, u128), u128>::new();
            for p in sim.active_payments() {
                if let Some(route) = &p.route {
                    let times = p.planned_departures.as_ref().unwrap();
                    assert_eq!(times.len(), route.hops.len());
                    let fixed = p.next_hop + usize::from(p.in_flight_until.is_some());
                    let mut ready = p.in_flight_until.unwrap_or(sim.next_minute());
                    for (h, &departure) in route.hops.iter().zip(times).skip(fixed) {
                        let r = scenario
                            .network
                            .rails
                            .iter()
                            .find(|r| r.id == h.rail_id)
                            .unwrap();
                        let service = scenario
                            .services
                            .iter()
                            .find(|s| s.rail_id == h.rail_id)
                            .unwrap();
                        let condition =
                            self.conditions
                                .get(&h.rail_id)
                                .copied()
                                .unwrap_or(RailConditions {
                                    available: r.available,
                                    capacity_per_minute_cents: service.capacity_per_minute_cents,
                                });
                        assert!(condition.available);
                        assert!(departure >= ready);
                        let phase = departure % u128::from(service.period_minutes);
                        assert!(
                            phase >= u128::from(service.offset_minutes)
                                && phase - u128::from(service.offset_minutes)
                                    < u128::from(service.open_minutes)
                        );
                        assert!(
                            r.max_amount_cents
                                .is_none_or(|c| p.payment.amount_cents <= c)
                        );
                        ready = departure + u128::from(r.settlement_minutes);
                        if let Some(cap) = condition.capacity_per_minute_cents {
                            let used = future.entry((h.rail_id.clone(), departure)).or_default();
                            *used += u128::from(p.payment.amount_cents);
                            assert!(*used <= u128::from(cap));
                        }
                    }
                    if route.hops.last().unwrap().receiver == p.payment.receiver {
                        assert!(ready <= p.deadline);
                    }
                }
            }
            let current = self
                .rails
                .iter()
                .filter(|(id, state)| {
                    let service = scenario
                        .services
                        .iter()
                        .find(|s| &s.rail_id == *id)
                        .unwrap();
                    state.used_this_minute_cents > 0
                        && self
                            .conditions
                            .get(*id)
                            .map_or(service.capacity_per_minute_cents, |c| {
                                c.capacity_per_minute_cents
                            })
                            .is_some()
                })
                .count();
            assert_eq!(future.len() + current, sim.reservation_entries());
        }
        assert_eq!(&self.metrics, sim.metrics());
        assert_eq!(
            self.rails.values().collect::<Vec<_>>(),
            sim.rail_states().iter().collect::<Vec<_>>()
        );
        assert_eq!(self.live.len(), sim.active_payments().len());
        for ((sequence, p), actual) in self.live.iter().zip(sim.active_payments()) {
            assert_eq!(*sequence, actual.sequence);
            assert_eq!(p.payment, actual.payment);
            assert_eq!(
                (p.release, p.deadline, p.next_hop, p.failed, p.in_flight),
                (
                    actual.arrived_at,
                    actual.deadline,
                    actual.next_hop,
                    actual.sla_failed,
                    actual.in_flight_until
                )
            );
            assert_eq!(p.route, actual.route);
            assert!(
                p.deadline > minute
                    || (p.failed && p.in_flight.is_some_and(|arrival| arrival > minute))
            );
        }
    }
}

#[test]
fn varied_scenarios_replay_exactly_and_every_event_passes_independent_accounting() {
    for case in 0..128u64 {
        let mut config = scenario(vec![
            rail("ab", &["A", "B"], case % 3, (case % 3) as u32),
            rail("bc", &["B", "C"], (case + 1) % 5, ((case / 3) % 3) as u32),
            rail("ac", &["A", "C"], (case + 2) % 4, ((case / 5) % 3) as u32),
            rail("cd", &["C", "D"], case % 7, ((case / 7) % 3) as u32),
            rail("da", &["D", "A", "B"], case % 2, ((case / 11) % 3) as u32),
        ]);
        for (i, service) in config.services.iter_mut().enumerate() {
            let variant = case + i as u64;
            service.period_minutes = 1 + variant % 5;
            service.offset_minutes = variant % service.period_minutes;
            service.open_minutes = if variant.is_multiple_of(7) {
                0
            } else {
                service.period_minutes - service.offset_minutes
            };
            service.capacity_per_minute_cents =
                [None, Some(0), Some(1), Some(3), Some(8)][variant as usize % 5];
            config.network.rails[i].max_amount_cents = if variant.is_multiple_of(4) {
                Some(2)
            } else {
                None
            };
            config.network.rails[i].available = !variant.is_multiple_of(13);
        }
        config.arrivals.flows = [("A", "B"), ("A", "C"), ("D", "B"), ("B", "A"), ("C", "D")]
            .into_iter()
            .map(|(s, r)| PaymentFlow {
                sender: s.into(),
                receiver: r.into(),
            })
            .collect();
        config.arrivals.attempts_per_minute = (1 + case % 3) as u32;
        config.arrivals.probability_per_million = [0, 350_000, 1_000_000][case as usize % 3];
        config.arrivals.min_amount_cents = 1;
        config.arrivals.max_amount_cents = 1 + case % 4;
        config.arrivals.min_sla_minutes = 0;
        config.arrivals.max_sla_minutes = case % 7;
        config.max_active_payments = 1 + case as usize % 9;
        config.retained_events = case as usize % 17;
        let mut left = Simulator::new(config.clone(), case).unwrap();
        let mut right = left.clone();
        let mut check = Audit::default();
        for minute in 0..80 {
            // Driver pacing, pause frequency and rendering reads are irrelevant.
            right.start();
            if minute % 3 == 0 {
                right.pause();
                assert_eq!(right.tick().unwrap(), None);
                right.start();
            }
            let report = left.step().unwrap();
            assert_eq!(
                report,
                right.tick().unwrap().unwrap(),
                "case {case} minute {minute}"
            );
            right.pause();
            assert_eq!(left, right, "case {case} minute {minute}");
            check.check(&config, &report, &left);
        }
        let finished = left.clone();
        left.restart(case);
        left.advance_ticks(13).unwrap();
        left.advance_ticks(0).unwrap();
        left.advance_ticks(67).unwrap();
        assert_eq!(left, finished, "grouped restart case {case}");
    }
}

#[test]
fn different_seeds_change_generated_demand_while_identical_seeds_match() {
    let mut config = scenario(vec![]);
    config.arrivals.attempts_per_minute = 3;
    config.arrivals.probability_per_million = 500_000;
    config.arrivals.min_amount_cents = 1;
    config.arrivals.max_amount_cents = 1_000_000;
    let mut a = Simulator::new(config.clone(), 1).unwrap();
    let mut b = Simulator::new(config, 2).unwrap();
    let (mut first, mut second) = (vec![], vec![]);
    for _ in 0..20 {
        first.extend(generated(&a.step().unwrap()));
        second.extend(generated(&b.step().unwrap()));
    }
    assert_ne!(first, second);
}

#[test]
fn sustained_overload_and_execution_keep_persistent_state_bounded() {
    let mut config = scenario(vec![rail("r", &["A", "B"], 2, 1)]);
    config.arrivals.attempts_per_minute = 3;
    amount(&mut config, 50);
    sla(&mut config, 3);
    config.services[0].capacity_per_minute_cents = Some(50);
    config.max_active_payments = 16;
    config.retained_events = 17;
    let mut executing = Simulator::new(config.clone(), 10).unwrap();
    config.network.rails.clear();
    config.services.clear();
    config.max_active_payments = 8;
    sla(&mut config, u64::MAX);
    let mut congested = Simulator::new(config, 10).unwrap();
    let (mut max_executing, mut max_congested) = (0, 0);
    for _ in 0..100_000 {
        executing.step().unwrap();
        congested.step().unwrap();
        max_executing = max_executing.max(executing.active_payments().len());
        max_congested = max_congested.max(congested.active_payments().len());
        assert!(executing.recent_events().len() <= 17 && congested.recent_events().len() <= 17);
    }
    assert!(max_executing <= 16);
    assert_eq!(max_congested, 8);
    assert_eq!(
        (executing.metrics().generated, executing.metrics().completed),
        (300_000, 99_999)
    );
    assert_eq!(executing.metrics().routing_cost_cents, 200_000);
    assert_eq!(
        (
            congested.metrics().generated,
            congested.metrics().rejected,
            congested.active_payments().len()
        ),
        (300_000, 299_992, 8)
    );
    assert_eq!(congested.metrics().sla_failures, 299_992);
    assert_eq!(
        (
            executing.recent_events().len(),
            congested.recent_events().len()
        ),
        (17, 17)
    );
    println!(
        "100,000 ticks each: executing peak {max_executing} active; disconnected peak {max_congested}; both retain 17 events"
    );
}
