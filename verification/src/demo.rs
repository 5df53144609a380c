//! The deterministic six-institution USD fixture.
use vstd::prelude::*;
use crate::network::{
    Institution, InstitutionView, Network, NetworkView, Payment, PaymentView, Rail, RailView,
};
use crate::text::text;

verus! {

pub open spec fn institution_view(id: &str, name: &str, opening: u64) -> InstitutionView {
    InstitutionView { id: id@, name: name@, opening_balance_cents: opening }
}

pub open spec fn rail_view(
    id: &str,
    name: &str,
    members: Seq<Seq<char>>,
    fee: u64,
    minutes: u32,
) -> RailView {
    RailView {
        id: id@,
        name: name@,
        participants: members,
        fee_cents: fee,
        settlement_minutes: minutes,
        available: true,
        max_amount_cents: None,
        batch_capacity_cents: None,
    }
}

pub open spec fn payment_view(id: &str, sender: &str, receiver: &str, amount: u64) -> PaymentView {
    PaymentView {
        id: id@,
        sender: sender@,
        receiver: receiver@,
        amount_cents: amount,
        max_delivery_minutes: None,
    }
}

pub open spec fn instant_members() -> Seq<Seq<char>> {
    seq!["ALP"@, "BRK"@, "CDR"@, "DLT"@]
}

pub open spec fn ach_members() -> Seq<Seq<char>> {
    seq!["ALP"@, "BRK"@, "CDR"@, "DLT"@, "ELM"@, "FLD"@]
}

pub open spec fn wire_members() -> Seq<Seq<char>> {
    seq!["ALP"@, "DLT"@, "ELM"@]
}

/// The fixture, as data.
pub open spec fn demo_view() -> NetworkView {
    NetworkView {
        name: "Demo / six institutions"@,
        institutions: seq![
            institution_view("ALP", "Alpine Bank", 25_000_000),
            institution_view("BRK", "Brook Bank", 18_000_000),
            institution_view("CDR", "Cedar Credit", 12_500_000),
            institution_view("DLT", "Delta Bank", 30_000_000),
            institution_view("ELM", "Elm Treasury", 9_500_000),
            institution_view("FLD", "Field Credit", 5_000_000),
        ],
        rails: seq![
            rail_view("RTP", "RTP", instant_members(), 25, 0),
            rail_view("FEDNOW", "FedNow", instant_members(), 25, 0),
            rail_view("ACH", "ACH", ach_members(), 5, 1440),
            rail_view("FEDWIRE", "Fedwire", wire_members(), 1500, 30),
        ],
        payments: seq![
            payment_view("P001", "ALP", "BRK", 1_250_000),
            payment_view("P002", "BRK", "CDR", 875_050),
            payment_view("P003", "CDR", "DLT", 2_000_000),
            payment_view("P004", "DLT", "ELM", 5_000_000),
            payment_view("P005", "ELM", "FLD", 325_000),
            payment_view("P006", "FLD", "ALP", 150_075),
            payment_view("P007", "ALP", "ELM", 7_500_000),
            payment_view("P008", "BRK", "DLT", 1_000_000),
            payment_view("P009", "CDR", "FLD", 420_000),
            payment_view("P010", "DLT", "ALP", 3_250_000),
            payment_view("P011", "ELM", "BRK", 640_000),
            payment_view("P012", "FLD", "CDR", 90_025),
        ],
    }
}

fn institution(id: &str, name: &str, opening: u64) -> (r: Institution)
    ensures
        r@ == institution_view(id, name, opening),
{
    Institution { id: text(id), name: text(name), opening_balance_cents: opening }
}

fn members(ids: &[&str]) -> (r: Vec<String>)
    ensures
        r@.len() == ids@.len(),
        forall|i: int| 0 <= i < ids@.len() ==> (#[trigger] r@[i])@ == ids@[i]@,
{
    let mut r: Vec<String> = Vec::new();
    let mut i: usize = 0;
    while i < ids.len()
        invariant
            i <= ids@.len(),
            r@.len() == i,
            forall|j: int| 0 <= j < i ==> (#[trigger] r@[j])@ == ids@[j]@,
        decreases ids@.len() - i,
    {
        r.push(text(ids[i]));
        i += 1;
    }
    r
}

fn rail(id: &str, name: &str, ids: &[&str], fee: u64, minutes: u32) -> (r: Rail)
    ensures
        r@ == rail_view(id, name, ids@.map_values(|s: &str| s@), fee, minutes),
{
    let participants = members(ids);
    let r = Rail {
        id: text(id),
        name: text(name),
        participants,
        fee_cents: fee,
        settlement_minutes: minutes,
        available: true,
        max_amount_cents: None,
        batch_capacity_cents: None,
    };
    assert(r@.participants =~= ids@.map_values(|s: &str| s@));
    r
}

fn payment(id: &str, sender: &str, receiver: &str, amount: u64) -> (r: Payment)
    ensures
        r@ == payment_view(id, sender, receiver, amount),
{
    Payment {
        id: text(id),
        sender: text(sender),
        receiver: text(receiver),
        amount_cents: amount,
        max_delivery_minutes: None,
    }
}

/// A synthetic USD scenario with stable identifiers, amounts and ordering.
/// RTP, FedNow, ACH and Fedwire are real rail names; all membership, fees and
/// settlement times here are synthetic inputs, not those networks' operating rules.
pub fn demo_network() -> (r: Network)
    ensures
        r@ == demo_view(),
{
    let institutions = vec![
        institution("ALP", "Alpine Bank", 25_000_000),
        institution("BRK", "Brook Bank", 18_000_000),
        institution("CDR", "Cedar Credit", 12_500_000),
        institution("DLT", "Delta Bank", 30_000_000),
        institution("ELM", "Elm Treasury", 9_500_000),
        institution("FLD", "Field Credit", 5_000_000),
    ];
    let instant: [&str; 4] = ["ALP", "BRK", "CDR", "DLT"];
    let ach: [&str; 6] = ["ALP", "BRK", "CDR", "DLT", "ELM", "FLD"];
    let wire: [&str; 3] = ["ALP", "DLT", "ELM"];
    assert(instant@.map_values(|s: &str| s@) =~= instant_members());
    assert(ach@.map_values(|s: &str| s@) =~= ach_members());
    assert(wire@.map_values(|s: &str| s@) =~= wire_members());
    // FedNow reuses the synthetic instant inputs and member set used for RTP.
    let rails = vec![
        rail("RTP", "RTP", &instant, 25, 0),
        rail("FEDNOW", "FedNow", &instant, 25, 0),
        rail("ACH", "ACH", &ach, 5, 1_440),
        rail("FEDWIRE", "Fedwire", &wire, 1_500, 30),
    ];
    let payments = vec![
        payment("P001", "ALP", "BRK", 1_250_000),
        payment("P002", "BRK", "CDR", 875_050),
        payment("P003", "CDR", "DLT", 2_000_000),
        payment("P004", "DLT", "ELM", 5_000_000),
        payment("P005", "ELM", "FLD", 325_000),
        payment("P006", "FLD", "ALP", 150_075),
        payment("P007", "ALP", "ELM", 7_500_000),
        payment("P008", "BRK", "DLT", 1_000_000),
        payment("P009", "CDR", "FLD", 420_000),
        payment("P010", "DLT", "ALP", 3_250_000),
        payment("P011", "ELM", "BRK", 640_000),
        payment("P012", "FLD", "CDR", 90_025),
    ];
    let r = Network { name: text("Demo / six institutions"), institutions, rails, payments };
    assert(r@.institutions =~= demo_view().institutions);
    assert(r@.rails =~= demo_view().rails);
    assert(r@.payments =~= demo_view().payments);
    r
}

} // verus!
