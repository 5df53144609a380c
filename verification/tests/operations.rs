use payment_routing::operations::{Operations, Preset, PAYMENT_EVENTS, RECENT_PAYMENTS};

#[test]
fn sessions_replay_both_strategies_at_one_time_and_bound_retained_dossiers() {
    for preset in Preset::ALL {
        let mut ops = Operations::new(preset, 42).unwrap();
        for _ in 0..300 {
            ops.step().unwrap();
        }
        for run in &ops.runs {
            run.simulator.check_invariants().unwrap();
            assert_eq!(run.simulator.next_minute(), 300);
            assert!(
                run.payments.len()
                    <= RECENT_PAYMENTS + run.simulator.scenario().max_active_payments
            );
            assert_eq!(run.samples.len(), 120);
            for p in run.payments.values() {
                assert!(p.events.len() <= PAYMENT_EVENTS);
            }
            for active in run.simulator.active_payments() {
                assert!(run.payments.contains_key(&active.sequence));
            }
        }
        assert_eq!(
            ops.runs[0].simulator.metrics().generated_volume_cents,
            ops.runs[1].simulator.metrics().generated_volume_cents
        );
        let expected = ops.clone();
        ops.restart(42).unwrap();
        assert!(
            ops.runs
                .iter()
                .all(|r| r.payments.is_empty() && r.samples.is_empty())
        );
        for _ in 0..300 {
            ops.step().unwrap();
        }
        assert_eq!(ops, expected);
        match preset {
            Preset::Pressure => assert!(ops.runs[0].simulator.metrics().rejected > 0),
            Preset::Outage => assert!(ops.runs[0].simulator.metrics().expired > 0),
            Preset::Limited => assert!(
                ops.runs[1]
                    .simulator
                    .routing_diagnostics()
                    .truncated_searches
                    > 0
            ),
            _ => {}
        }
        println!(
            "{}: static {:?}; reserved {:?}",
            preset.name(),
            ops.runs[0].simulator.metrics(),
            ops.runs[1].simulator.metrics()
        );
    }
}


#[test]
fn paired_runs_stay_at_one_minute_with_one_count_of_instructions() {
    let mut ops = Operations::new(Preset::ALL[0], 7).unwrap();
    for minute in 1..=25u128 {
        ops.step().unwrap();
        let (a, b) = (&ops.runs[0].simulator, &ops.runs[1].simulator);
        assert_eq!(a.next_minute(), minute);
        assert_eq!(b.next_minute(), minute);
        assert_eq!(a.metrics().generated, b.metrics().generated);
        assert!(a.active_payments().len() <= a.scenario().max_active_payments);
        assert!(b.active_payments().len() <= b.scenario().max_active_payments);
    }
}
