//! Institutions, shared payment rails and payment instructions, with validation.
//! All monetary values are USD cents; there is no floating-point money.
use vstd::prelude::*;
use crate::text::{bad_identifier, blank, concat, concat3, concat4, copy_string, is_bad_identifier, is_blank, same_text, text};

verus! {

/// An institution; its opening balance is descriptive and never modelled as funding.
#[derive(Debug, Clone, PartialEq, Eq)]
pub struct Institution {
    pub id: String,
    pub name: String,
    pub opening_balance_cents: u64,
}

/// A shared payment service and its member institutions, not a computed route.
/// Membership, fees and settlement times are synthetic inputs.
#[derive(Debug, Clone, PartialEq, Eq)]
pub struct Rail {
    pub id: String,
    pub name: String,
    pub participants: Vec<String>,
    pub fee_cents: u64,
    pub settlement_minutes: u32,
    /// An unavailable rail carries no hop.
    pub available: bool,
    /// Inclusive per-hop principal ceiling; None is unlimited, Some(0) is malformed.
    pub max_amount_cents: Option<u64>,
    /// Principal budget shared by a whole optimization batch; None is unlimited.
    pub batch_capacity_cents: Option<u64>,
}

/// An instruction awaiting routing. Loading or viewing it never moves funds.
#[derive(Debug, Clone, PartialEq, Eq)]
pub struct Payment {
    pub id: String,
    pub sender: String,
    pub receiver: String,
    pub amount_cents: u64,
    /// Bound on the total latency of a route; None adds no bound.
    pub max_delivery_minutes: Option<u64>,
}

#[derive(Debug, Clone, PartialEq, Eq)]
pub struct Network {
    pub name: String,
    pub institutions: Vec<Institution>,
    pub rails: Vec<Rail>,
    pub payments: Vec<Payment>,
}

#[derive(Debug, Clone, PartialEq, Eq)]
pub struct Statistics {
    pub institution_count: usize,
    pub rail_count: usize,
    pub payment_count: usize,
    /// Wide totals preserve exact sums of many u64 amounts.
    pub opening_balance_cents: u128,
    pub payment_volume_cents: u128,
    pub largest_payment_cents: u64,
}

/// Why an input was refused. `to_string` renders the message.
#[derive(Debug, Clone, PartialEq, Eq)]
pub enum ValidationError {
    EmptyNetworkName,
    BadIdentifier { kind: String },
    DuplicateIdentifier { kind: String, id: String },
    UnnamedInstitution { id: String },
    MalformedRail { rail: String },
    UnknownMember { rail: String, member: String },
    ZeroCeiling { rail: String },
    UnknownEndpoint { payment: String, institution: String },
    BadPayment { payment: String },
    UnknownDepartureRail { rail: String },
    DuplicateDeparture { rail: String, minute: u64 },
    ArrivalOverflow { rail: String, minute: u64 },
    NonPositiveLimits,
    BadArrivals,
    NoActiveCapacity,
    ServiceCount,
    UnknownServiceRail { rail: String },
    BadWindow { rail: String },
    BatchBudgetInSimulation,
    UnknownDisruptionRail { rail: String },
    EmptyRailUpdate,
    Evaluation { message: String },
}

pub struct InstitutionView {
    pub id: Seq<char>,
    pub name: Seq<char>,
    pub opening_balance_cents: u64,
}

pub struct RailView {
    pub id: Seq<char>,
    pub name: Seq<char>,
    pub participants: Seq<Seq<char>>,
    pub fee_cents: u64,
    pub settlement_minutes: u32,
    pub available: bool,
    pub max_amount_cents: Option<u64>,
    pub batch_capacity_cents: Option<u64>,
}

pub struct PaymentView {
    pub id: Seq<char>,
    pub sender: Seq<char>,
    pub receiver: Seq<char>,
    pub amount_cents: u64,
    pub max_delivery_minutes: Option<u64>,
}

pub struct NetworkView {
    pub name: Seq<char>,
    pub institutions: Seq<InstitutionView>,
    pub rails: Seq<RailView>,
    pub payments: Seq<PaymentView>,
}

pub enum ErrorView {
    EmptyNetworkName,
    BadIdentifier { kind: Seq<char> },
    DuplicateIdentifier { kind: Seq<char>, id: Seq<char> },
    UnnamedInstitution { id: Seq<char> },
    MalformedRail { rail: Seq<char> },
    UnknownMember { rail: Seq<char>, member: Seq<char> },
    ZeroCeiling { rail: Seq<char> },
    UnknownEndpoint { payment: Seq<char>, institution: Seq<char> },
    BadPayment { payment: Seq<char> },
    UnknownDepartureRail { rail: Seq<char> },
    DuplicateDeparture { rail: Seq<char>, minute: u64 },
    ArrivalOverflow { rail: Seq<char>, minute: u64 },
    NonPositiveLimits,
    BadArrivals,
    NoActiveCapacity,
    ServiceCount,
    UnknownServiceRail { rail: Seq<char> },
    BadWindow { rail: Seq<char> },
    BatchBudgetInSimulation,
    UnknownDisruptionRail { rail: Seq<char> },
    EmptyRailUpdate,
    Evaluation { message: Seq<char> },
}

impl View for Institution {
    type V = InstitutionView;

    open spec fn view(&self) -> InstitutionView {
        InstitutionView {
            id: self.id@,
            name: self.name@,
            opening_balance_cents: self.opening_balance_cents,
        }
    }
}

pub open spec fn texts(v: Seq<String>) -> Seq<Seq<char>> {
    v.map_values(|s: String| s@)
}

impl View for Rail {
    type V = RailView;

    open spec fn view(&self) -> RailView {
        RailView {
            id: self.id@,
            name: self.name@,
            participants: texts(self.participants@),
            fee_cents: self.fee_cents,
            settlement_minutes: self.settlement_minutes,
            available: self.available,
            max_amount_cents: self.max_amount_cents,
            batch_capacity_cents: self.batch_capacity_cents,
        }
    }
}

impl View for Payment {
    type V = PaymentView;

    open spec fn view(&self) -> PaymentView {
        PaymentView {
            id: self.id@,
            sender: self.sender@,
            receiver: self.receiver@,
            amount_cents: self.amount_cents,
            max_delivery_minutes: self.max_delivery_minutes,
        }
    }
}

impl View for Network {
    type V = NetworkView;

    open spec fn view(&self) -> NetworkView {
        NetworkView {
            name: self.name@,
            institutions: self.institutions@.map_values(|i: Institution| i@),
            rails: self.rails@.map_values(|r: Rail| r@),
            payments: self.payments@.map_values(|p: Payment| p@),
        }
    }
}

impl View for ValidationError {
    type V = ErrorView;

    open spec fn view(&self) -> ErrorView {
        match self {
            ValidationError::EmptyNetworkName => ErrorView::EmptyNetworkName,
            ValidationError::BadIdentifier { kind } => ErrorView::BadIdentifier { kind: kind@ },
            ValidationError::DuplicateIdentifier { kind, id } => ErrorView::DuplicateIdentifier {
                kind: kind@,
                id: id@,
            },
            ValidationError::UnnamedInstitution { id } => ErrorView::UnnamedInstitution { id: id@ },
            ValidationError::MalformedRail { rail } => ErrorView::MalformedRail { rail: rail@ },
            ValidationError::UnknownMember { rail, member } => ErrorView::UnknownMember {
                rail: rail@,
                member: member@,
            },
            ValidationError::ZeroCeiling { rail } => ErrorView::ZeroCeiling { rail: rail@ },
            ValidationError::UnknownEndpoint { payment, institution } =>
                ErrorView::UnknownEndpoint { payment: payment@, institution: institution@ },
            ValidationError::BadPayment { payment } => ErrorView::BadPayment { payment: payment@ },
            ValidationError::UnknownDepartureRail { rail } => ErrorView::UnknownDepartureRail {
                rail: rail@,
            },
            ValidationError::DuplicateDeparture { rail, minute } => ErrorView::DuplicateDeparture {
                rail: rail@,
                minute: *minute,
            },
            ValidationError::ArrivalOverflow { rail, minute } => ErrorView::ArrivalOverflow {
                rail: rail@,
                minute: *minute,
            },
            ValidationError::NonPositiveLimits => ErrorView::NonPositiveLimits,
            ValidationError::BadArrivals => ErrorView::BadArrivals,
            ValidationError::NoActiveCapacity => ErrorView::NoActiveCapacity,
            ValidationError::ServiceCount => ErrorView::ServiceCount,
            ValidationError::UnknownServiceRail { rail } => ErrorView::UnknownServiceRail {
                rail: rail@,
            },
            ValidationError::BadWindow { rail } => ErrorView::BadWindow { rail: rail@ },
            ValidationError::BatchBudgetInSimulation => ErrorView::BatchBudgetInSimulation,
            ValidationError::UnknownDisruptionRail { rail } => ErrorView::UnknownDisruptionRail {
                rail: rail@,
            },
            ValidationError::EmptyRailUpdate => ErrorView::EmptyRailUpdate,
            ValidationError::Evaluation { message } => ErrorView::Evaluation { message: message@ },
        }
    }
}

/// The first of two optional problems.
pub open spec fn either<E>(a: Option<E>, b: Option<E>) -> Option<E> {
    match a {
        Some(_) => a,
        None => b,
    }
}

/// The problem, if any, of the identifier at index `i` in a scan that stops at the
/// first refused identifier.
pub open spec fn id_problem_at(kind: Seq<char>, ids: Seq<Seq<char>>, i: int) -> Option<ErrorView> {
    if bad_identifier(ids[i]) {
        Some(ErrorView::BadIdentifier { kind })
    } else if ids.take(i).contains(ids[i]) {
        Some(ErrorView::DuplicateIdentifier { kind, id: ids[i] })
    } else {
        None
    }
}

/// The first problem found by a scan that checks items `0..n` in order.
pub open spec fn first_problem(f: spec_fn(int) -> Option<ErrorView>, n: int) -> Option<ErrorView>
    decreases n,
{
    if n <= 0 {
        None
    } else {
        either(first_problem(f, n - 1), f(n - 1))
    }
}

/// Once a scan has found a problem, looking further does not change it.
pub proof fn lemma_first_problem_stable(f: spec_fn(int) -> Option<ErrorView>, k: int, m: int)
    requires
        0 <= k <= m,
        first_problem(f, k) is Some,
    ensures
        first_problem(f, m) == first_problem(f, k),
    decreases m,
{
    if m > k {
        lemma_first_problem_stable(f, k, m - 1);
    }
}

pub open spec fn id_problems(kind: Seq<char>, ids: Seq<Seq<char>>) -> spec_fn(int) -> Option<
    ErrorView,
> {
    |i: int| id_problem_at(kind, ids, i)
}

/// The first problem among the first `n` identifiers.
pub open spec fn ids_problem(kind: Seq<char>, ids: Seq<Seq<char>>, n: int) -> Option<ErrorView> {
    first_problem(id_problems(kind, ids), n)
}

pub open spec fn all_ids_problem(kind: Seq<char>, ids: Seq<Seq<char>>) -> Option<ErrorView> {
    ids_problem(kind, ids, ids.len() as int)
}

pub open spec fn institution_ids(n: NetworkView) -> Seq<Seq<char>> {
    n.institutions.map_values(|i: InstitutionView| i.id)
}

pub open spec fn rail_ids(n: NetworkView) -> Seq<Seq<char>> {
    n.rails.map_values(|r: RailView| r.id)
}

pub open spec fn payment_ids(ps: Seq<PaymentView>) -> Seq<Seq<char>> {
    ps.map_values(|p: PaymentView| p.id)
}

pub open spec fn is_institution(n: NetworkView, id: Seq<char>) -> bool {
    institution_ids(n).contains(id)
}

pub open spec fn name_problem_at(n: NetworkView, i: int) -> Option<ErrorView> {
    if blank(n.institutions[i].name) {
        Some(ErrorView::UnnamedInstitution { id: n.institutions[i].id })
    } else {
        None
    }
}

pub open spec fn name_problems(n: NetworkView) -> spec_fn(int) -> Option<ErrorView> {
    |i: int| name_problem_at(n, i)
}

/// The first unnamed institution among the first `k`.
pub open spec fn names_problem(n: NetworkView, k: int) -> Option<ErrorView> {
    first_problem(name_problems(n), k)
}

pub open spec fn member_problem_at(n: NetworkView, r: RailView, i: int) -> Option<ErrorView> {
    if !is_institution(n, r.participants[i]) {
        Some(ErrorView::UnknownMember { rail: r.id, member: r.participants[i] })
    } else {
        None
    }
}

pub open spec fn member_problems(n: NetworkView, r: RailView) -> spec_fn(int) -> Option<ErrorView> {
    |i: int| member_problem_at(n, r, i)
}

/// The first of the first `k` participants of a rail that is not an institution.
pub open spec fn members_problem(n: NetworkView, r: RailView, k: int) -> Option<ErrorView> {
    first_problem(member_problems(n, r), k)
}

pub open spec fn participant_kind(rail: Seq<char>) -> Seq<char> {
    "participant in rail "@ + rail
}

pub open spec fn rail_problem(n: NetworkView, r: RailView) -> Option<ErrorView> {
    if blank(r.name) || r.participants.len() < 2 {
        Some(ErrorView::MalformedRail { rail: r.id })
    } else {
        either(
            all_ids_problem(participant_kind(r.id), r.participants),
            either(
                members_problem(n, r, r.participants.len() as int),
                if r.max_amount_cents == Some(0u64) {
                    Some(ErrorView::ZeroCeiling { rail: r.id })
                } else {
                    None
                },
            ),
        )
    }
}

pub open spec fn rail_problems(n: NetworkView) -> spec_fn(int) -> Option<ErrorView> {
    |i: int| rail_problem(n, n.rails[i])
}

pub open spec fn rails_problem(n: NetworkView, k: int) -> Option<ErrorView> {
    first_problem(rail_problems(n), k)
}

/// The first endpoint, sender then receiver, that is not an institution.
pub open spec fn endpoint_problem(n: NetworkView, p: PaymentView) -> Option<ErrorView> {
    if !is_institution(n, p.sender) {
        Some(ErrorView::UnknownEndpoint { payment: p.id, institution: p.sender })
    } else if !is_institution(n, p.receiver) {
        Some(ErrorView::UnknownEndpoint { payment: p.id, institution: p.receiver })
    } else {
        None
    }
}

/// What `Payment::validate` refuses: a bad identifier, an unknown endpoint, a zero
/// amount or equal endpoints, in this order.
pub open spec fn payment_problem(n: NetworkView, p: PaymentView) -> Option<ErrorView> {
    if bad_identifier(p.id) {
        Some(ErrorView::BadIdentifier { kind: "payment"@ })
    } else {
        either(
            endpoint_problem(n, p),
            if p.amount_cents == 0 || p.sender == p.receiver {
                Some(ErrorView::BadPayment { payment: p.id })
            } else {
                None
            },
        )
    }
}

pub open spec fn payment_problems(n: NetworkView, ps: Seq<PaymentView>) -> spec_fn(int) -> Option<
    ErrorView,
> {
    |i: int| payment_problem(n, ps[i])
}

pub open spec fn payments_problem(n: NetworkView, ps: Seq<PaymentView>, k: int) -> Option<
    ErrorView,
> {
    first_problem(payment_problems(n, ps), k)
}

/// What `Network::validate` refuses, in the order it checks.
pub open spec fn network_problem(n: NetworkView) -> Option<ErrorView> {
    if blank(n.name) {
        Some(ErrorView::EmptyNetworkName)
    } else {
        either(
            all_ids_problem("institution"@, institution_ids(n)),
            either(
                all_ids_problem("rail"@, rail_ids(n)),
                either(
                    all_ids_problem("payment"@, payment_ids(n.payments)),
                    either(
                        names_problem(n, n.institutions.len() as int),
                        either(
                            rails_problem(n, n.rails.len() as int),
                            payments_problem(n, n.payments, n.payments.len() as int),
                        ),
                    ),
                ),
            ),
        )
    }
}

pub open spec fn valid_network(n: NetworkView) -> bool {
    network_problem(n) is None
}

pub open spec fn sum_opening(s: Seq<InstitutionView>) -> int
    decreases s.len(),
{
    if s.len() == 0 {
        0
    } else {
        sum_opening(s.drop_last()) + s.last().opening_balance_cents
    }
}

pub open spec fn sum_amounts(s: Seq<PaymentView>) -> int
    decreases s.len(),
{
    if s.len() == 0 {
        0
    } else {
        sum_amounts(s.drop_last()) + s.last().amount_cents
    }
}

pub open spec fn max_amount(s: Seq<PaymentView>) -> int
    decreases s.len(),
{
    if s.len() == 0 {
        0
    } else {
        let m = max_amount(s.drop_last());
        if s.last().amount_cents > m {
            s.last().amount_cents as int
        } else {
            m
        }
    }
}

impl ValidationError {
    pub fn copy(&self) -> (r: ValidationError)
        ensures
            r@ == self@,
    {
        match self {
            ValidationError::EmptyNetworkName => ValidationError::EmptyNetworkName,
            ValidationError::BadIdentifier { kind } => ValidationError::BadIdentifier {
                kind: copy_string(kind),
            },
            ValidationError::DuplicateIdentifier { kind, id } =>
                ValidationError::DuplicateIdentifier { kind: copy_string(kind), id: copy_string(id) },
            ValidationError::UnnamedInstitution { id } => ValidationError::UnnamedInstitution {
                id: copy_string(id),
            },
            ValidationError::MalformedRail { rail } => ValidationError::MalformedRail {
                rail: copy_string(rail),
            },
            ValidationError::UnknownMember { rail, member } => ValidationError::UnknownMember {
                rail: copy_string(rail),
                member: copy_string(member),
            },
            ValidationError::ZeroCeiling { rail } => ValidationError::ZeroCeiling {
                rail: copy_string(rail),
            },
            ValidationError::UnknownEndpoint { payment, institution } =>
                ValidationError::UnknownEndpoint {
                payment: copy_string(payment),
                institution: copy_string(institution),
            },
            ValidationError::BadPayment { payment } => ValidationError::BadPayment {
                payment: copy_string(payment),
            },
            ValidationError::UnknownDepartureRail { rail } => ValidationError::UnknownDepartureRail {
                rail: copy_string(rail),
            },
            ValidationError::DuplicateDeparture { rail, minute } =>
                ValidationError::DuplicateDeparture { rail: copy_string(rail), minute: *minute },
            ValidationError::ArrivalOverflow { rail, minute } => ValidationError::ArrivalOverflow {
                rail: copy_string(rail),
                minute: *minute,
            },
            ValidationError::NonPositiveLimits => ValidationError::NonPositiveLimits,
            ValidationError::BadArrivals => ValidationError::BadArrivals,
            ValidationError::NoActiveCapacity => ValidationError::NoActiveCapacity,
            ValidationError::ServiceCount => ValidationError::ServiceCount,
            ValidationError::UnknownServiceRail { rail } => ValidationError::UnknownServiceRail {
                rail: copy_string(rail),
            },
            ValidationError::BadWindow { rail } => ValidationError::BadWindow {
                rail: copy_string(rail),
            },
            ValidationError::BatchBudgetInSimulation => ValidationError::BatchBudgetInSimulation,
            ValidationError::UnknownDisruptionRail { rail } =>
                ValidationError::UnknownDisruptionRail { rail: copy_string(rail) },
            ValidationError::EmptyRailUpdate => ValidationError::EmptyRailUpdate,
            ValidationError::Evaluation { message } => ValidationError::Evaluation {
                message: copy_string(message),
            },
        }
    }

    /// The message of each error.
    pub open spec fn message(self) -> Seq<char> {
        match self {
            ValidationError::EmptyNetworkName => "network name must not be empty"@,
            ValidationError::BadIdentifier { kind } => kind@ + " identifier must be nonempty with no surrounding whitespace"@,
            ValidationError::DuplicateIdentifier { kind, id } => "duplicate "@ + kind@ + " identifier "@ + id@,
            ValidationError::UnnamedInstitution { id } => "institution "@ + id@ + " has no name"@,
            ValidationError::MalformedRail { rail } => "rail "@ + rail@ + " needs a name and at least two participants"@,
            ValidationError::UnknownMember { rail, member } => "rail "@ + rail@ + " references unknown institution "@ + member@,
            ValidationError::ZeroCeiling { rail } => "rail "@ + rail@ + " needs a positive transaction ceiling"@,
            ValidationError::UnknownEndpoint { payment, institution } => "payment "@ + payment@ + " references unknown institution "@ + institution@,
            ValidationError::BadPayment { payment } => "payment "@ + payment@ + " needs a positive amount and different endpoints"@,
            ValidationError::UnknownDepartureRail { rail } => "departure references unknown rail "@ + rail@,
            ValidationError::DuplicateDeparture { rail, minute } => "duplicate departure for rail "@ + rail@ + " at minute "@ + crate::text::decimal(minute as nat),
            ValidationError::ArrivalOverflow { rail, minute } => "arrival overflows u64 for rail "@ + rail@ + " at minute "@ + crate::text::decimal(minute as nat),
            ValidationError::NonPositiveLimits => "search limits must be positive"@,
            ValidationError::BadArrivals => "invalid arrival probability, ranges or flows"@,
            ValidationError::NoActiveCapacity => "active payment limit must be positive"@,
            ValidationError::ServiceCount => "supply exactly one service per rail"@,
            ValidationError::UnknownServiceRail { rail } => "unknown service rail "@ + rail@,
            ValidationError::BadWindow { rail } => "invalid recurring window for "@ + rail@,
            ValidationError::BatchBudgetInSimulation => "simulation requires unlimited static batch budgets; configure per-minute service capacity instead"@,
            ValidationError::UnknownDisruptionRail { rail } => "unknown disruption rail "@ + rail@,
            ValidationError::EmptyRailUpdate => "empty rail update"@,
            ValidationError::Evaluation { message } => message@,
        }
    }

    /// The human-readable message.
    pub fn to_string(&self) -> (r: String)
        ensures
            r@ == self.message(),
    {
        match self {
            ValidationError::EmptyNetworkName => text("network name must not be empty"),
            ValidationError::BadIdentifier { kind } => concat(
                kind.as_str(),
                " identifier must be nonempty with no surrounding whitespace",
            ),
            ValidationError::DuplicateIdentifier { kind, id } => concat4(
                "duplicate ",
                kind.as_str(),
                " identifier ",
                id.as_str(),
            ),
            ValidationError::UnnamedInstitution { id } => concat3(
                "institution ",
                id.as_str(),
                " has no name",
            ),
            ValidationError::MalformedRail { rail } => concat3(
                "rail ",
                rail.as_str(),
                " needs a name and at least two participants",
            ),
            ValidationError::UnknownMember { rail, member } => concat4(
                "rail ",
                rail.as_str(),
                " references unknown institution ",
                member.as_str(),
            ),
            ValidationError::ZeroCeiling { rail } => concat3(
                "rail ",
                rail.as_str(),
                " needs a positive transaction ceiling",
            ),
            ValidationError::UnknownEndpoint { payment, institution } => concat4(
                "payment ",
                payment.as_str(),
                " references unknown institution ",
                institution.as_str(),
            ),
            ValidationError::BadPayment { payment } => concat3(
                "payment ",
                payment.as_str(),
                " needs a positive amount and different endpoints",
            ),
            ValidationError::UnknownDepartureRail { rail } => concat(
                "departure references unknown rail ",
                rail.as_str(),
            ),
            ValidationError::DuplicateDeparture { rail, minute } => {
                let mut s = concat3("duplicate departure for rail ", rail.as_str(), " at minute ");
                crate::text::push_decimal(&mut s, *minute as u128);
                s
            },
            ValidationError::ArrivalOverflow { rail, minute } => {
                let mut s = concat3("arrival overflows u64 for rail ", rail.as_str(), " at minute ");
                crate::text::push_decimal(&mut s, *minute as u128);
                s
            },
            ValidationError::NonPositiveLimits => text("search limits must be positive"),
            ValidationError::BadArrivals => text("invalid arrival probability, ranges or flows"),
            ValidationError::NoActiveCapacity => text("active payment limit must be positive"),
            ValidationError::ServiceCount => text("supply exactly one service per rail"),
            ValidationError::UnknownServiceRail { rail } => concat(
                "unknown service rail ",
                rail.as_str(),
            ),
            ValidationError::BadWindow { rail } => concat(
                "invalid recurring window for ",
                rail.as_str(),
            ),
            ValidationError::BatchBudgetInSimulation => text(
                "simulation requires unlimited static batch budgets; configure per-minute service capacity instead",
            ),
            ValidationError::UnknownDisruptionRail { rail } => concat(
                "unknown disruption rail ",
                rail.as_str(),
            ),
            ValidationError::EmptyRailUpdate => text("empty rail update"),
            ValidationError::Evaluation { message } => copy_string(message),
        }
    }
}

impl Institution {
    pub fn copy(&self) -> (r: Institution)
        ensures
            r@ == self@,
    {
        Institution { id: self.id.clone(), name: self.name.clone(), opening_balance_cents: self.opening_balance_cents }
    }
}

impl Rail {
    pub fn copy(&self) -> (r: Rail)
        ensures
            r@ == self@,
    {
        let mut participants: Vec<String> = Vec::new();
        let mut i: usize = 0;
        while i < self.participants.len()
            invariant
                i <= self.participants@.len(),
                participants@.len() == i,
                forall|k: int| 0 <= k < i ==> (#[trigger] participants@[k])@ == self.participants@[k]@,
            decreases self.participants@.len() - i,
        {
            participants.push(self.participants[i].clone());
            i += 1;
        }
        assert(texts(participants@) =~= texts(self.participants@));
        Rail {
            id: self.id.clone(),
            name: self.name.clone(),
            participants,
            fee_cents: self.fee_cents,
            settlement_minutes: self.settlement_minutes,
            available: self.available,
            max_amount_cents: self.max_amount_cents,
            batch_capacity_cents: self.batch_capacity_cents,
        }
    }
}

impl Payment {
    pub fn copy(&self) -> (r: Payment)
        ensures
            r@ == self@,
    {
        Payment {
            id: self.id.clone(),
            sender: self.sender.clone(),
            receiver: self.receiver.clone(),
            amount_cents: self.amount_cents,
            max_delivery_minutes: self.max_delivery_minutes,
        }
    }
}

impl Network {
    pub fn copy(&self) -> (r: Network)
        ensures
            r@ == self@,
    {
        let mut institutions: Vec<Institution> = Vec::new();
        let mut i: usize = 0;
        while i < self.institutions.len()
            invariant
                i <= self.institutions@.len(),
                institutions@.len() == i,
                forall|k: int| 0 <= k < i ==> (#[trigger] institutions@[k])@ == self.institutions@[k]@,
            decreases self.institutions@.len() - i,
        {
            institutions.push(self.institutions[i].copy());
            i += 1;
        }
        let mut rails: Vec<Rail> = Vec::new();
        let mut j: usize = 0;
        while j < self.rails.len()
            invariant
                j <= self.rails@.len(),
                rails@.len() == j,
                forall|k: int| 0 <= k < j ==> (#[trigger] rails@[k])@ == self.rails@[k]@,
            decreases self.rails@.len() - j,
        {
            rails.push(self.rails[j].copy());
            j += 1;
        }
        let mut payments: Vec<Payment> = Vec::new();
        let mut q: usize = 0;
        while q < self.payments.len()
            invariant
                q <= self.payments@.len(),
                payments@.len() == q,
                forall|k: int| 0 <= k < q ==> (#[trigger] payments@[k])@ == self.payments@[k]@,
            decreases self.payments@.len() - q,
        {
            payments.push(self.payments[q].copy());
            q += 1;
        }
        let r = Network { name: self.name.clone(), institutions, rails, payments };
        assert(r@.institutions =~= self@.institutions);
        assert(r@.rails =~= self@.rails);
        assert(r@.payments =~= self@.payments);
        r
    }
}

/// Refuse the first blank, padded or repeated identifier of `ids`, scanning in order.
pub fn unique_ids(kind: &String, ids: &Vec<String>) -> (r: Result<(), ValidationError>)
    ensures
        r is Ok <==> all_ids_problem(kind@, texts(ids@)) is None,
        r matches Err(e) ==> Some(e@) == all_ids_problem(kind@, texts(ids@)),
{
    let ghost v = texts(ids@);
    let mut i: usize = 0;
    while i < ids.len()
        invariant
            v == texts(ids@),
            v.len() == ids.len(),
            i <= ids.len(),
            ids_problem(kind@, v, i as int) is None,
        decreases ids.len() - i,
    {
        let id = &ids[i];
        if is_bad_identifier(id) {
            proof {
                lemma_first_problem_stable(id_problems(kind@, v), i + 1, v.len() as int);
            }
            return Err(ValidationError::BadIdentifier { kind: copy_string(kind) });
        }
        let mut j: usize = 0;
        while j < i
            invariant
                v == texts(ids@),
                v.len() == ids.len(),
                ids_problem(kind@, v, i as int) is None,
                !bad_identifier(v[i as int]),
                i < ids.len(),
                j <= i,
                id@ == v[i as int],
                forall|k: int| 0 <= k < j ==> v[k] != v[i as int],
            decreases i - j,
        {
            if same_text(&ids[j], id) {
                proof {
                    assert(v.take(i as int)[j as int] == v[i as int]);
                    lemma_first_problem_stable(id_problems(kind@, v), i + 1, v.len() as int);
                }
                return Err(
                    ValidationError::DuplicateIdentifier { kind: copy_string(kind), id: copy_string(id) },
                );
            }
            j += 1;
        }
        proof {
            if v.take(i as int).contains(v[i as int]) {
                let k = choose|k: int| 0 <= k < i && v.take(i as int)[k] == v[i as int];
                assert(v[k] == v[i as int]);
            }
        }
        i += 1;
    }
    Ok(())
}

/// Whether `id` names an institution of the network.
pub fn has_institution(network: &Network, id: &String) -> (r: bool)
    ensures
        r == is_institution(network@, id@),
{
    let ghost ids = institution_ids(network@);
    let mut i: usize = 0;
    while i < network.institutions.len()
        invariant
            ids == institution_ids(network@),
            i <= network.institutions.len(),
            forall|k: int| 0 <= k < i ==> ids[k] != id@,
        decreases network.institutions.len() - i,
    {
        if same_text(&network.institutions[i].id, id) {
            assert(ids[i as int] == id@);
            return true;
        }
        i += 1;
    }
    proof {
        if ids.contains(id@) {
            let k = choose|k: int| 0 <= k < ids.len() && ids[k] == id@;
        }
    }
    false
}

pub fn id_list_of_institutions(network: &Network) -> (r: Vec<String>)
    ensures
        texts(r@) == institution_ids(network@),
{
    let mut r: Vec<String> = Vec::new();
    let mut i: usize = 0;
    while i < network.institutions.len()
        invariant
            i <= network.institutions.len(),
            r@.len() == i,
            texts(r@) == institution_ids(network@).take(i as int),
        decreases network.institutions.len() - i,
    {
        let ghost before = r@;
        r.push(copy_string(&network.institutions[i].id));
        assert forall|j: int| 0 <= j <= i implies #[trigger] texts(r@)[j] == institution_ids(network@).take(
            i + 1,
        )[j] by {
            if j < i {
                assert(r@[j] == before[j]);
                assert(texts(before)[j] == institution_ids(network@).take(i as int)[j]);
            }
        }
        assert(texts(r@) =~= institution_ids(network@).take(i + 1));
        i += 1;
    }
    assert(institution_ids(network@).take(i as int) =~= institution_ids(network@));
    r
}

pub fn id_list_of_rails(network: &Network) -> (r: Vec<String>)
    ensures
        texts(r@) == rail_ids(network@),
{
    let mut r: Vec<String> = Vec::new();
    let mut i: usize = 0;
    while i < network.rails.len()
        invariant
            i <= network.rails.len(),
            r@.len() == i,
            texts(r@) == rail_ids(network@).take(i as int),
        decreases network.rails.len() - i,
    {
        let ghost before = r@;
        r.push(copy_string(&network.rails[i].id));
        assert forall|j: int| 0 <= j <= i implies #[trigger] texts(r@)[j] == rail_ids(network@).take(
            i + 1,
        )[j] by {
            if j < i {
                assert(r@[j] == before[j]);
                assert(texts(before)[j] == rail_ids(network@).take(i as int)[j]);
            }
        }
        assert(texts(r@) =~= rail_ids(network@).take(i + 1));
        i += 1;
    }
    assert(rail_ids(network@).take(i as int) =~= rail_ids(network@));
    r
}

pub fn id_list_of_payments(payments: &Vec<Payment>) -> (r: Vec<String>)
    ensures
        texts(r@) == payment_ids(payments@.map_values(|p: Payment| p@)),
{
    let ghost ps = payments@.map_values(|p: Payment| p@);
    let mut r: Vec<String> = Vec::new();
    let mut i: usize = 0;
    while i < payments.len()
        invariant
            ps == payments@.map_values(|p: Payment| p@),
            i <= payments.len(),
            r@.len() == i,
            texts(r@) == payment_ids(ps).take(i as int),
        decreases payments.len() - i,
    {
        let ghost before = r@;
        r.push(copy_string(&payments[i].id));
        assert forall|j: int| 0 <= j <= i implies #[trigger] texts(r@)[j] == payment_ids(ps).take(
            i + 1,
        )[j] by {
            if j < i {
                assert(r@[j] == before[j]);
                assert(texts(before)[j] == payment_ids(ps).take(i as int)[j]);
            }
        }
        assert(texts(r@) =~= payment_ids(ps).take(i + 1));
        i += 1;
    }
    assert(payment_ids(ps).take(i as int) =~= payment_ids(ps));
    r
}

impl Payment {
    /// Validate an instruction, including one not stored in the network.
    /// Validity does not imply a route or sufficient funding.
    pub fn validate(&self, network: &Network) -> (r: Result<(), ValidationError>)
        ensures
            r is Ok <==> payment_problem(network@, self@) is None,
            r matches Err(e) ==> Some(e@) == payment_problem(network@, self@),
    {
        if is_bad_identifier(&self.id) {
            return Err(ValidationError::BadIdentifier { kind: text("payment") });
        }
        if !has_institution(network, &self.sender) {
            return Err(
                ValidationError::UnknownEndpoint {
                    payment: copy_string(&self.id),
                    institution: copy_string(&self.sender),
                },
            );
        }
        if !has_institution(network, &self.receiver) {
            return Err(
                ValidationError::UnknownEndpoint {
                    payment: copy_string(&self.id),
                    institution: copy_string(&self.receiver),
                },
            );
        }
        if self.amount_cents == 0 || same_text(&self.sender, &self.receiver) {
            return Err(ValidationError::BadPayment { payment: copy_string(&self.id) });
        }
        Ok(())
    }
}

/// Validate every instruction of `payments` in order.
pub fn validate_payments(network: &Network, payments: &Vec<Payment>) -> (r: Result<
    (),
    ValidationError,
>)
    ensures
        r is Ok <==> payments_problem(
            network@,
            payments@.map_values(|p: Payment| p@),
            payments@.len() as int,
        ) is None,
        r matches Err(e) ==> Some(e@) == payments_problem(
            network@,
            payments@.map_values(|p: Payment| p@),
            payments@.len() as int,
        ),
{
    let ghost ps = payments@.map_values(|p: Payment| p@);
    let mut i: usize = 0;
    while i < payments.len()
        invariant
            ps == payments@.map_values(|p: Payment| p@),
            i <= payments.len(),
            payments_problem(network@, ps, i as int) is None,
        decreases payments.len() - i,
    {
        match payments[i].validate(network) {
            Ok(()) => {},
            Err(e) => {
                proof {
                    lemma_first_problem_stable(
                        payment_problems(network@, ps),
                        i + 1,
                        payments@.len() as int,
                    );
                }
                return Err(e);
            },
        }
        i += 1;
    }
    Ok(())
}

fn check_rail(network: &Network, rail: &Rail) -> (r: Result<(), ValidationError>)
    ensures
        r is Ok <==> rail_problem(network@, rail@) is None,
        r matches Err(e) ==> Some(e@) == rail_problem(network@, rail@),
{
    if is_blank(&rail.name) || rail.participants.len() < 2 {
        return Err(ValidationError::MalformedRail { rail: copy_string(&rail.id) });
    }
    let kind = concat("participant in rail ", rail.id.as_str());
    match unique_ids(&kind, &rail.participants) {
        Ok(()) => {},
        Err(e) => {
            return Err(e);
        },
    }
    let ghost members = texts(rail.participants@);
    let mut k: usize = 0;
    while k < rail.participants.len()
        invariant
            members == texts(rail.participants@),
            members == rail@.participants,
            !blank(rail@.name),
            rail@.participants.len() >= 2,
            all_ids_problem(participant_kind(rail@.id), rail@.participants) is None,
            k <= rail.participants.len(),
            members_problem(network@, rail@, k as int) is None,
        decreases rail.participants.len() - k,
    {
        if !has_institution(network, &rail.participants[k]) {
            proof {
                lemma_first_problem_stable(
                    member_problems(network@, rail@),
                    k + 1,
                    rail.participants@.len() as int,
                );
            }
            return Err(
                ValidationError::UnknownMember {
                    rail: copy_string(&rail.id),
                    member: copy_string(&rail.participants[k]),
                },
            );
        }
        k += 1;
    }
    if rail.max_amount_cents == Some(0u64) {
        return Err(ValidationError::ZeroCeiling { rail: copy_string(&rail.id) });
    }
    Ok(())
}

impl Network {
    /// Validate identifiers, references, rail ceilings and positive, non-self payment
    /// instructions. Empty collections are valid; routing feasibility is not checked.
    pub fn validate(&self) -> (r: Result<(), ValidationError>)
        ensures
            r is Ok <==> valid_network(self@),
            r matches Err(e) ==> Some(e@) == network_problem(self@),
    {
        if is_blank(&self.name) {
            return Err(ValidationError::EmptyNetworkName);
        }
        let institutions = id_list_of_institutions(self);
        match unique_ids(&text("institution"), &institutions) {
            Ok(()) => {},
            Err(e) => {
                return Err(e);
            },
        }
        let rails = id_list_of_rails(self);
        match unique_ids(&text("rail"), &rails) {
            Ok(()) => {},
            Err(e) => {
                return Err(e);
            },
        }
        let payments = id_list_of_payments(&self.payments);
        match unique_ids(&text("payment"), &payments) {
            Ok(()) => {},
            Err(e) => {
                return Err(e);
            },
        }
        let mut i: usize = 0;
        while i < self.institutions.len()
            invariant
                i <= self.institutions.len(),
                !blank(self@.name),
                all_ids_problem("institution"@, institution_ids(self@)) is None,
                all_ids_problem("rail"@, rail_ids(self@)) is None,
                all_ids_problem("payment"@, payment_ids(self@.payments)) is None,
                names_problem(self@, i as int) is None,
            decreases self.institutions.len() - i,
        {
            if is_blank(&self.institutions[i].name) {
                proof {
                    lemma_first_problem_stable(
                        name_problems(self@),
                        i + 1,
                        self.institutions@.len() as int,
                    );
                }
                return Err(
                    ValidationError::UnnamedInstitution {
                        id: copy_string(&self.institutions[i].id),
                    },
                );
            }
            i += 1;
        }
        let mut k: usize = 0;
        while k < self.rails.len()
            invariant
                k <= self.rails.len(),
                !blank(self@.name),
                all_ids_problem("institution"@, institution_ids(self@)) is None,
                all_ids_problem("rail"@, rail_ids(self@)) is None,
                all_ids_problem("payment"@, payment_ids(self@.payments)) is None,
                names_problem(self@, self@.institutions.len() as int) is None,
                rails_problem(self@, k as int) is None,
            decreases self.rails.len() - k,
        {
            match check_rail(self, &self.rails[k]) {
                Ok(()) => {},
                Err(e) => {
                    proof {
                        lemma_first_problem_stable(rail_problems(self@), k + 1, self.rails@.len() as int);
                    }
                    return Err(e);
                },
            }
            k += 1;
        }
        validate_payments(self, &self.payments)
    }

    pub fn statistics(&self) -> (r: Statistics)
        ensures
            r.institution_count == self.institutions.len(),
            r.rail_count == self.rails.len(),
            r.payment_count == self.payments.len(),
            r.opening_balance_cents == sum_opening(self@.institutions),
            r.payment_volume_cents == sum_amounts(self@.payments),
            r.largest_payment_cents == max_amount(self@.payments),
    {
        let mut opening: u128 = 0;
        let mut i: usize = 0;
        while i < self.institutions.len()
            invariant
                i <= self.institutions.len(),
                opening == sum_opening(self@.institutions.take(i as int)),
                opening <= i * 0xffff_ffff_ffff_ffffu128,
            decreases self.institutions.len() - i,
        {
            assert(self@.institutions.take(i + 1).drop_last() =~= self@.institutions.take(
                i as int,
            ));
            assert(i < 0x1_0000_0000_0000_0000u128);
            assert((i + 1) * 0xffff_ffff_ffff_ffffu128 <= 0xffff_ffff_ffff_ffff_ffff_ffff_ffff_ffffu128)
                by (nonlinear_arith)
                requires
                    i < 0x1_0000_0000_0000_0000u128,
            ;
            assert((i + 1) * 0xffff_ffff_ffff_ffffu128 == i * 0xffff_ffff_ffff_ffffu128
                + 0xffff_ffff_ffff_ffffu128) by (nonlinear_arith);
            opening = opening + self.institutions[i].opening_balance_cents as u128;
            i += 1;
        }
        assert(self@.institutions.take(i as int) =~= self@.institutions);
        let mut volume: u128 = 0;
        let mut largest: u64 = 0;
        let mut k: usize = 0;
        while k < self.payments.len()
            invariant
                k <= self.payments.len(),
                volume == sum_amounts(self@.payments.take(k as int)),
                largest == max_amount(self@.payments.take(k as int)),
                volume <= k * 0xffff_ffff_ffff_ffffu128,
            decreases self.payments.len() - k,
        {
            assert(self@.payments.take(k + 1).drop_last() =~= self@.payments.take(k as int));
            assert(k < 0x1_0000_0000_0000_0000u128);
            assert((k + 1) * 0xffff_ffff_ffff_ffffu128 <= 0xffff_ffff_ffff_ffff_ffff_ffff_ffff_ffffu128)
                by (nonlinear_arith)
                requires
                    k < 0x1_0000_0000_0000_0000u128,
            ;
            assert((k + 1) * 0xffff_ffff_ffff_ffffu128 == k * 0xffff_ffff_ffff_ffffu128
                + 0xffff_ffff_ffff_ffffu128) by (nonlinear_arith);
            let amount = self.payments[k].amount_cents;
            volume = volume + amount as u128;
            if amount > largest {
                largest = amount;
            }
            k += 1;
        }
        assert(self@.payments.take(k as int) =~= self@.payments);
        Statistics {
            institution_count: self.institutions.len(),
            rail_count: self.rails.len(),
            payment_count: self.payments.len(),
            opening_balance_cents: opening,
            payment_volume_cents: volume,
            largest_payment_cents: largest,
        }
    }
}

} // verus!
