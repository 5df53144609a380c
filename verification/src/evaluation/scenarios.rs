//! Version 1 synthetic evaluation suite. These are counterexamples, not forecasts.
use vstd::prelude::*;
use crate::evaluation::World;
use crate::network::{Institution, InstitutionView, Network, Rail, RailView};
use crate::operations::{Preset, preset_name, preset_scenario, preset_setup};
use crate::simulation::config::{ArrivalProcess, PaymentFlow, RailService, RoutingStrategy, Scenario};
use crate::simulation::disruption::{Disruption, RailUpdate};
use crate::text::{same_text, text};

verus! {

pub const NAMES: [&'static str; 9] = [
    "balanced",
    "pressure",
    "outage",
    "limited",
    "disruptions",
    "missed-connection",
    "reservation-trap",
    "disconnected",
    "capacity-cliff",
];

/// The preset named `name`, if any.
pub open spec fn preset_named(name: Seq<char>) -> Option<Preset> {
    if name == preset_name(Preset::Balanced) {
        Some(Preset::Balanced)
    } else if name == preset_name(Preset::Pressure) {
        Some(Preset::Pressure)
    } else if name == preset_name(Preset::Outage) {
        Some(Preset::Outage)
    } else if name == preset_name(Preset::Limited) {
        Some(Preset::Limited)
    } else {
        None
    }
}

/// The adversarial worlds built on the small three-institution network.
pub open spec fn small_world(name: Seq<char>) -> bool {
    ||| name == "missed-connection"@
    ||| name == "reservation-trap"@
    ||| name == "disconnected"@
    ||| name == "capacity-cliff"@
}

pub open spec fn small_rail(id: Seq<char>, members: Seq<Seq<char>>, fee: u64, minutes: u32) -> RailView {
    RailView {
        id,
        name: id,
        participants: members,
        fee_cents: fee,
        settlement_minutes: minutes,
        available: true,
        max_amount_cents: None,
        batch_capacity_cents: None,
    }
}

/// The rails of a small world.
pub open spec fn small_rails(name: Seq<char>) -> Seq<RailView> {
    if name == "missed-connection"@ {
        seq![
            small_rail("ab"@, seq!["A"@, "B"@], 2, 1),
            small_rail("bc"@, seq!["B"@, "C"@], 3, 2),
            small_rail("ac"@, seq!["A"@, "C"@], 20, 0),
        ]
    } else if name == "reservation-trap"@ {
        seq![small_rail("cheap"@, seq!["A"@, "C"@], 0, 0), small_rail("fast"@, seq!["A"@, "C"@], 20, 0)]
    } else if name == "disconnected"@ {
        seq![small_rail("ab"@, seq!["A"@, "B"@], 0, 0)]
    } else {
        seq![small_rail("cheap"@, seq!["A"@, "C"@], 1, 2), small_rail("fast"@, seq!["A"@, "C"@], 30, 0)]
    }
}

/// A surprise change: its minute, rail, availability and capacity.
pub open spec fn change_view(d: Disruption) -> (u128, Seq<char>, Option<bool>, Option<Option<u64>>) {
    (d.minute, d.update.rail_id@, d.update.available, d.update.capacity_per_minute_cents)
}

/// The surprise changes of a small world, in order.
pub open spec fn small_changes(name: Seq<char>) -> Seq<(u128, Seq<char>, Option<bool>, Option<Option<u64>>)> {
    if name == "reservation-trap"@ {
        seq![
            (1u128, "cheap"@, Some(false), None),
            (1u128, "fast"@, Some(false), None),
            (8u128, "cheap"@, Some(true), None),
            (8u128, "fast"@, Some(true), None),
        ]
    } else if name == "capacity-cliff"@ {
        seq![
            (3u128, "cheap"@, None, Some(Some(0u64))),
            (9u128, "cheap"@, None, Some(Some(200u64))),
            (15u128, "cheap"@, None, Some(Some(50u64))),
            (21u128, "cheap"@, None, Some(Some(200u64))),
        ]
    } else {
        Seq::empty()
    }
}

/// The scenario of a small world.
pub open spec fn small_scenario(name: Seq<char>, s: Scenario) -> bool {
    let rails = small_rails(name);
    let cliff = name == "capacity-cliff"@;
    &&& s.network@.name == "Evaluation adversary v1"@
    &&& s.network@.institutions == seq![
        InstitutionView { id: "A"@, name: "A"@, opening_balance_cents: 0 },
        InstitutionView { id: "B"@, name: "B"@, opening_balance_cents: 0 },
        InstitutionView { id: "C"@, name: "C"@, opening_balance_cents: 0 },
    ]
    &&& s.network@.rails == rails
    &&& s.network@.payments.len() == 0
    &&& s.services@.len() == rails.len()
    &&& forall|k: int| 0 <= k < rails.len() ==> {
        let service = #[trigger] s.services@[k];
        &&& service.rail_id@ == rails[k].id
        &&& service.period_minutes == if name == "missed-connection"@ && k == 1 {
            2u64
        } else if name == "reservation-trap"@ && k == 0 {
            8u64
        } else {
            1u64
        }
        &&& service.offset_minutes == if name == "reservation-trap"@ && k == 0 { 4u64 } else { 0u64 }
        &&& service.open_minutes == 1
        &&& service.capacity_per_minute_cents == if cliff { Some(200u64) } else { None }
    }
    &&& s.arrivals.attempts_per_minute == if cliff {
        6u32
    } else if name == "disconnected"@ {
        4u32
    } else {
        2u32
    }
    &&& s.arrivals.probability_per_million == 800_000
    &&& s.arrivals.flows@.len() == 1
    &&& s.arrivals.flows@[0].sender@ == "A"@
    &&& s.arrivals.flows@[0].receiver@ == "C"@
    &&& s.arrivals.min_amount_cents == if cliff { 50u64 } else { 100u64 }
    &&& s.arrivals.max_amount_cents == if cliff { 200u64 } else { 100u64 }
    &&& s.arrivals.min_sla_minutes == if name == "missed-connection"@ {
        3u64
    } else if name == "reservation-trap"@ {
        6u64
    } else if cliff {
        0u64
    } else {
        2u64
    }
    &&& s.arrivals.max_sla_minutes == if name == "missed-connection"@ {
        3u64
    } else if name == "reservation-trap"@ {
        6u64
    } else if cliff {
        5u64
    } else {
        4u64
    }
    &&& s.strategy == RoutingStrategy::CheapestStatic
    &&& s.max_active_payments == if name == "disconnected"@ {
        3usize
    } else if cliff {
        8usize
    } else {
        16usize
    }
    &&& s.retained_events == 0
    &&& s.disruptions@.map_values(|d: Disruption| change_view(d)) == small_changes(name)
}

/// The unannounced changes of the disruption world: ACH closes, FedNow's
/// per-minute budget shrinks, and ACH reopens.
pub open spec fn disruption_changes() -> Seq<(u128, Seq<char>, Option<bool>, Option<Option<u64>>)> {
    seq![
        (3u128, "ACH"@, Some(false), None),
        (6u128, "FEDNOW"@, None, Some(Some(50_000u64))),
        (12u128, "ACH"@, Some(true), None),
    ]
}

/// The disruption world: the balanced preset under scheduled rail changes.
pub open spec fn disruption_scenario(s: Scenario) -> bool {
    &&& preset_setup(Preset::Balanced, RoutingStrategy::CheapestStatic, s)
    &&& s.disruptions@.map_values(|d: Disruption| change_view(d)) == disruption_changes()
}

/// The world named `name`.
pub open spec fn named_world(name: Seq<char>, w: World) -> bool {
    &&& w.name@ == name
    &&& match preset_named(name) {
        Some(p) => preset_scenario(p, RoutingStrategy::CheapestStatic, w.scenario),
        None => if name == "disruptions"@ {
            disruption_scenario(w.scenario)
        } else {
            small_scenario(name, w.scenario)
        },
    }
}


fn institution(id: &str) -> (r: Institution)
    ensures
        r@ == (InstitutionView { id: id@, name: id@, opening_balance_cents: 0 }),
{
    Institution { id: text(id), name: text(id), opening_balance_cents: 0 }
}

fn rail(id: &str, first: &str, second: &str, fee: u64, latency: u32) -> (r: Rail)
    ensures
        r@ == small_rail(id@, seq![first@, second@], fee, latency),
{
    let mut participants: Vec<String> = Vec::new();
    participants.push(text(first));
    participants.push(text(second));
    let r = Rail {
        id: text(id),
        name: text(id),
        participants,
        fee_cents: fee,
        settlement_minutes: latency,
        available: true,
        max_amount_cents: None,
        batch_capacity_cents: None,
    };
    assert(r@.participants =~= seq![first@, second@]);
    r
}

fn change(minute: u128, rail_id: &str, available: Option<bool>, capacity: Option<Option<u64>>) -> (d: Disruption)
    ensures
        change_view(d) == (minute, rail_id@, available, capacity),
{
    Disruption { minute, update: RailUpdate { rail_id: text(rail_id), available, capacity_per_minute_cents: capacity } }
}

/// The scenario of a small world, which `name` must be.
fn small(name: &String) -> (s: Scenario)
    requires
        small_world(name@),
    ensures
        small_scenario(name@, s),
{
    let missed = same_text(name, &text("missed-connection"));
    let trap = same_text(name, &text("reservation-trap"));
    let disconnected = same_text(name, &text("disconnected"));
    let cliff = !missed && !trap && !disconnected;
    proof {
        reveal_strlit("missed-connection");
        reveal_strlit("reservation-trap");
        reveal_strlit("disconnected");
        reveal_strlit("capacity-cliff");
        assert("missed-connection"@.len() != "capacity-cliff"@.len());
        assert("reservation-trap"@.len() != "capacity-cliff"@.len());
        assert("disconnected"@.len() != "capacity-cliff"@.len());
        assert(cliff == (name@ == "capacity-cliff"@));
        if cliff {
            assert(name@ == "capacity-cliff"@);
        }
    }
    let mut rails: Vec<Rail> = Vec::new();
    if missed {
        rails.push(rail("ab", "A", "B", 2, 1));
        rails.push(rail("bc", "B", "C", 3, 2));
        rails.push(rail("ac", "A", "C", 20, 0));
    } else if trap {
        rails.push(rail("cheap", "A", "C", 0, 0));
        rails.push(rail("fast", "A", "C", 20, 0));
    } else if disconnected {
        rails.push(rail("ab", "A", "B", 0, 0));
    } else {
        rails.push(rail("cheap", "A", "C", 1, 2));
        rails.push(rail("fast", "A", "C", 30, 0));
    }
    assert(rails@.map_values(|r: Rail| r@) =~= small_rails(name@));
    let mut services: Vec<RailService> = Vec::new();
    let mut k: usize = 0;
    while k < rails.len()
        invariant
            rails@.map_values(|r: Rail| r@) == small_rails(name@),
            missed == (name@ == "missed-connection"@),
            trap == (name@ == "reservation-trap"@),
            cliff == (name@ == "capacity-cliff"@),
            k <= rails@.len(),
            services@.len() == k,
            forall|q: int| 0 <= q < k ==> {
                let service = #[trigger] services@[q];
                &&& service.rail_id@ == small_rails(name@)[q].id
                &&& service.period_minutes == if name@ == "missed-connection"@ && q == 1 {
                    2u64
                } else if name@ == "reservation-trap"@ && q == 0 {
                    8u64
                } else {
                    1u64
                }
                &&& service.offset_minutes == if name@ == "reservation-trap"@ && q == 0 { 4u64 } else { 0u64 }
                &&& service.open_minutes == 1
                &&& service.capacity_per_minute_cents == if cliff { Some(200u64) } else { None }
            },
        decreases rails@.len() - k,
    {
        assert(rails@[k as int]@ == small_rails(name@)[k as int]);
        let period: u64 = if missed && k == 1 {
            2
        } else if trap && k == 0 {
            8
        } else {
            1
        };
        let offset: u64 = if trap && k == 0 {
            4
        } else {
            0
        };
        services.push(
            RailService {
                rail_id: crate::text::copy_string(&rails[k].id),
                period_minutes: period,
                offset_minutes: offset,
                open_minutes: 1,
                capacity_per_minute_cents: if cliff {
                    Some(200)
                } else {
                    None
                },
            },
        );
        k += 1;
    }
    let mut institutions: Vec<Institution> = Vec::new();
    institutions.push(institution("A"));
    institutions.push(institution("B"));
    institutions.push(institution("C"));
    let mut flows: Vec<PaymentFlow> = Vec::new();
    flows.push(PaymentFlow { sender: text("A"), receiver: text("C") });
    let mut disruptions: Vec<Disruption> = Vec::new();
    if trap {
        disruptions.push(change(1, "cheap", Some(false), None));
        disruptions.push(change(1, "fast", Some(false), None));
        disruptions.push(change(8, "cheap", Some(true), None));
        disruptions.push(change(8, "fast", Some(true), None));
    } else if cliff {
        disruptions.push(change(3, "cheap", None, Some(Some(0))));
        disruptions.push(change(9, "cheap", None, Some(Some(200))));
        disruptions.push(change(15, "cheap", None, Some(Some(50))));
        disruptions.push(change(21, "cheap", None, Some(Some(200))));
    }
    assert(disruptions@.map_values(|d: Disruption| change_view(d)) =~= small_changes(name@));
    let network = Network { name: text("Evaluation adversary v1"), institutions, rails, payments: Vec::new() };
    assert(network@.institutions =~= seq![
        InstitutionView { id: "A"@, name: "A"@, opening_balance_cents: 0 },
        InstitutionView { id: "B"@, name: "B"@, opening_balance_cents: 0 },
        InstitutionView { id: "C"@, name: "C"@, opening_balance_cents: 0 },
    ]);
    Scenario {
        network,
        arrivals: ArrivalProcess {
            attempts_per_minute: if cliff {
                6
            } else if disconnected {
                4
            } else {
                2
            },
            probability_per_million: 800_000,
            flows,
            min_amount_cents: if cliff {
                50
            } else {
                100
            },
            max_amount_cents: if cliff {
                200
            } else {
                100
            },
            min_sla_minutes: if missed {
                3
            } else if trap {
                6
            } else if cliff {
                0
            } else {
                2
            },
            max_sla_minutes: if missed {
                3
            } else if trap {
                6
            } else if cliff {
                5
            } else {
                4
            },
        },
        services,
        strategy: RoutingStrategy::CheapestStatic,
        max_active_payments: if disconnected {
            3
        } else if cliff {
            8
        } else {
            16
        },
        retained_events: 0,
        disruptions,
    }
}

/// The world of the suite named `name`, if there is one.
pub fn named(name: &str) -> (r: Option<World>)
    ensures
        r is Some <==> (preset_named(name@) is Some || name@ == "disruptions"@ || small_world(name@)),
        r matches Some(w) ==> named_world(name@, w),
{
    let key = text(name);
    let preset = if same_text(&key, &text("balanced")) {
        Some(Preset::Balanced)
    } else if same_text(&key, &text("pressure")) {
        Some(Preset::Pressure)
    } else if same_text(&key, &text("outage")) {
        Some(Preset::Outage)
    } else if same_text(&key, &text("limited")) {
        Some(Preset::Limited)
    } else {
        None
    };
    proof {
        reveal_strlit("balanced");
        reveal_strlit("pressure");
        reveal_strlit("outage");
        reveal_strlit("limited");
    }
    assert(preset == preset_named(name@));
    match preset {
        Some(p) => {
            return Some(World { name: key, scenario: p.scenario(RoutingStrategy::CheapestStatic) });
        },
        None => {},
    }
    if same_text(&key, &text("disruptions")) {
        let mut scenario = Preset::Balanced.scenario(RoutingStrategy::CheapestStatic);
        let mut disruptions: Vec<Disruption> = Vec::new();
        disruptions.push(change(3, "ACH", Some(false), None));
        disruptions.push(change(6, "FEDNOW", None, Some(Some(50_000))));
        disruptions.push(change(12, "ACH", Some(true), None));
        assert(disruptions@.map_values(|d: Disruption| change_view(d)) =~= disruption_changes());
        scenario.disruptions = disruptions;
        proof {
            reveal_strlit("disruptions");
        }
        return Some(World { name: key, scenario });
    }
    if same_text(&key, &text("missed-connection")) || same_text(&key, &text("reservation-trap")) || same_text(
        &key,
        &text("disconnected"),
    ) || same_text(&key, &text("capacity-cliff")) {
        let scenario = small(&key);
        Some(World { name: key, scenario })
    } else {
        None
    }
}

/// The names among the first `k` of `NAMES` that `named` knows, in order.
pub open spec fn known_names(k: int) -> Seq<Seq<char>>
    decreases k,
{
    if k <= 0 || k > 9 {
        Seq::empty()
    } else {
        let n = NAMES@[k - 1]@;
        if preset_named(n) is Some || n == "disruptions"@ || small_world(n) {
            known_names(k - 1).push(n)
        } else {
            known_names(k - 1)
        }
    }
}

/// Every world of the suite that `named` knows, in the order of `NAMES`.
pub fn all() -> (worlds: Vec<World>)
    ensures
        worlds@.len() == 9,
        forall|k: int| 0 <= k < 9 ==> (#[trigger] worlds@[k]).name@ == NAMES@[k]@,
        worlds@.len() == known_names(9).len(),
        forall|k: int| 0 <= k < worlds@.len() ==> (#[trigger] worlds@[k]).name@ == known_names(9)[k],
        forall|k: int| 0 <= k < worlds@.len() ==> named_world((#[trigger] worlds@[k]).name@, worlds@[k]),
{
    let mut worlds: Vec<World> = Vec::new();
    proof {
        reveal_strlit("balanced");
        reveal_strlit("pressure");
        reveal_strlit("outage");
        reveal_strlit("limited");
        reveal_strlit("disruptions");
        reveal_strlit("missed-connection");
        reveal_strlit("reservation-trap");
        reveal_strlit("disconnected");
        reveal_strlit("capacity-cliff");
        assert(NAMES@[0]@ == "balanced"@);
        assert(NAMES@[8]@ == "capacity-cliff"@);
        reveal_with_fuel(known_names, 10);
        assert(known_names(9) =~= seq![NAMES@[0]@, NAMES@[1]@, NAMES@[2]@, NAMES@[3]@, NAMES@[4]@, NAMES@[5]@, NAMES@[6]@, NAMES@[7]@, NAMES@[8]@]);
    }
    let mut k: usize = 0;
    while k < 9
        invariant
            k <= 9,
            worlds@.len() == known_names(k as int).len(),
            forall|q: int| 0 <= q < worlds@.len() ==> (#[trigger] worlds@[q]).name@ == known_names(k as int)[q],
            forall|q: int| 0 <= q < worlds@.len() ==> named_world((#[trigger] worlds@[q]).name@, worlds@[q]),
        decreases 9 - k,
    {
        assert(NAMES[k as int]@ == NAMES@[k as int]@);
        match named(NAMES[k]) {
            Some(w) => {
                worlds.push(w);
            },
            None => {},
        }
        k += 1;
    }
    worlds
}

} // verus!
