use payment_routing::demo::demo_network;
use payment_routing::network::{Network, Statistics};

#[test]
fn rejects_duplicate_identifiers_in_each_collection() {
    let mut network = demo_network();
    network.institutions.push(network.institutions[0].clone());
    assert!(
        network
            .validate()
            .unwrap_err()
            .to_string()
            .contains("duplicate institution")
    );
    let mut network = demo_network();
    network.rails.push(network.rails[0].clone());
    assert!(
        network
            .validate()
            .unwrap_err()
            .to_string()
            .contains("duplicate rail")
    );
    let mut network = demo_network();
    network.payments.push(network.payments[0].clone());
    assert!(
        network
            .validate()
            .unwrap_err()
            .to_string()
            .contains("duplicate payment")
    );
}

#[test]
fn rejects_dangling_payment_and_rail_references() {
    let mut network = demo_network();
    network.payments[0].sender = "missing".into();
    assert!(
        network
            .validate()
            .unwrap_err()
            .to_string()
            .contains("unknown institution missing")
    );
    let mut network = demo_network();
    network.payments[0].receiver = "missing".into();
    assert!(network.validate().is_err());
    let mut network = demo_network();
    network.rails[0].participants[0] = "missing".into();
    assert!(network.validate().is_err());
}

#[test]
fn rejects_duplicate_or_insufficient_rail_membership() {
    let mut network = demo_network();
    network.rails[0].participants = vec!["ALP".into(), "ALP".into()];
    assert!(network.validate().is_err());
    network.rails[0].participants.pop();
    assert!(network.validate().is_err());
}

#[test]
fn rejects_zero_and_self_payments() {
    let mut network = demo_network();
    network.payments[0].amount_cents = 0;
    assert!(network.validate().is_err());
    network.payments[0].amount_cents = 1;
    network.payments[0].receiver = network.payments[0].sender.clone();
    assert!(network.validate().is_err());
}

#[test]
fn rejects_empty_names_and_blank_or_padded_ids() {
    let mut network = demo_network();
    network.name = " ".into();
    assert!(network.validate().is_err());
    network.name = "Network".into();
    network.institutions[0].id = " ".into();
    assert!(network.validate().is_err());
    network.institutions[0].id = " ALP".into();
    assert!(network.validate().is_err());
    network.institutions[0].id = "ALP".into();
    network.institutions[0].name.clear();
    assert!(network.validate().is_err());
}

#[test]
fn aggregates_empty_network_and_wide_amounts_exactly() {
    let empty = Network {
        name: "Empty".into(),
        institutions: vec![],
        rails: vec![],
        payments: vec![],
    };
    assert_eq!(empty.validate(), Ok(()));
    assert_eq!(
        empty.statistics(),
        Statistics {
            institution_count: 0,
            rail_count: 0,
            payment_count: 0,
            opening_balance_cents: 0,
            payment_volume_cents: 0,
            largest_payment_cents: 0,
        }
    );
    let mut network = demo_network();
    for payment in &mut network.payments {
        payment.amount_cents = u64::MAX;
    }
    for institution in &mut network.institutions {
        institution.opening_balance_cents = u64::MAX;
    }
    let stats = network.statistics();
    assert_eq!(stats.payment_volume_cents, u128::from(u64::MAX) * 12);
    assert_eq!(stats.opening_balance_cents, u128::from(u64::MAX) * 6);
}

#[test]
fn fixture_is_deterministic_valid_and_has_known_totals() {
    let network = demo_network();
    assert_eq!(network, demo_network());
    assert_eq!(network.validate(), Ok(()));
    assert_eq!(
        network.statistics(),
        Statistics {
            institution_count: 6,
            rail_count: 4,
            payment_count: 12,
            opening_balance_cents: 100_000_000,
            payment_volume_cents: 22_500_150,
            largest_payment_cents: 7_500_000,
        }
    );
}
