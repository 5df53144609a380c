//! Scenario inputs for the continuous simulation: demand, recurring service windows
//! and the routing strategy.
use vstd::prelude::*;
use crate::network::{Network, NetworkView, Payment, PaymentView, ValidationError, ErrorView, either, payment_problem, network_problem, rail_ids, all_ids_problem, unique_ids, texts};
use crate::scalable::SearchLimits;
use crate::text::{copy_string, same_text, text};
use super::disruption::Disruption;

verus! {

/// Uniformly sampled directed flow. Repeated entries give a flow more weight.
#[derive(Debug, Clone, PartialEq, Eq)]
pub struct PaymentFlow {
    pub sender: String,
    pub receiver: String,
}

#[derive(Debug, Clone, PartialEq, Eq)]
pub struct ArrivalProcess {
    pub attempts_per_minute: u32,
    /// Bernoulli probability in [0, 1_000_000], sampled once per attempt.
    pub probability_per_million: u32,
    pub flows: Vec<PaymentFlow>,
    pub min_amount_cents: u64,
    pub max_amount_cents: u64,
    /// Finite inclusive relative deadlines, measured from generated arrival.
    pub min_sla_minutes: u64,
    pub max_sla_minutes: u64,
}

/// A repeating window, wholly contained in its period, and a fresh budget each
/// open minute. This is separate from a static optimization-batch budget.
#[derive(Debug, Clone, PartialEq, Eq)]
pub struct RailService {
    pub rail_id: String,
    pub period_minutes: u64,
    pub offset_minutes: u64,
    pub open_minutes: u64,
    pub capacity_per_minute_cents: Option<u64>,
}

/// The static policy delegates path selection to the exact router over rails
/// usable now, then pins the accepted path. Reserved books every departure.
#[derive(Debug, Clone, Copy, PartialEq, Eq)]
pub enum RoutingStrategy {
    CheapestStatic,
    /// Bounded window-aware routing with complete per-departure reservations.
    Reserved { limits: SearchLimits },
}

#[derive(Debug, Clone, PartialEq, Eq)]
pub struct Scenario {
    pub network: Network,
    pub arrivals: ArrivalProcess,
    pub services: Vec<RailService>,
    pub strategy: RoutingStrategy,
    pub max_active_payments: usize,
    /// Zero disables retained history; each step still returns its events.
    pub retained_events: usize,
    /// Scheduled surprise changes, applied at the start of their minute.
    pub disruptions: Vec<Disruption>,
}

pub open spec fn service_open(s: RailService, minute: int) -> bool {
    s.period_minutes > 0 && {
        let phase = minute % (s.period_minutes as int);
        phase >= s.offset_minutes && phase - s.offset_minutes < s.open_minutes
    }
}

impl RailService {
    /// Whether the window is open at `minute`.
    pub fn is_open(&self, minute: u128) -> (r: bool)
        requires
            self.period_minutes > 0,
        ensures
            r == service_open(*self, minute as int),
    {
        let period = self.period_minutes as u128;
        let offset = self.offset_minutes as u128;
        let open = self.open_minutes as u128;
        let phase = minute % period;
        phase >= offset && phase - offset < open
    }

    pub fn copy(&self) -> (r: RailService)
        ensures
            r.rail_id@ == self.rail_id@,
            r.period_minutes == self.period_minutes,
            r.offset_minutes == self.offset_minutes,
            r.open_minutes == self.open_minutes,
            r.capacity_per_minute_cents == self.capacity_per_minute_cents,
    {
        RailService {
            rail_id: copy_string(&self.rail_id),
            period_minutes: self.period_minutes,
            offset_minutes: self.offset_minutes,
            open_minutes: self.open_minutes,
            capacity_per_minute_cents: self.capacity_per_minute_cents,
        }
    }
}

pub open spec fn window_ok(s: RailService) -> bool {
    s.period_minutes > 0 && s.offset_minutes < s.period_minutes && s.open_minutes
        <= s.period_minutes - s.offset_minutes
}

pub open spec fn arrivals_ok(a: ArrivalProcess) -> bool {
    &&& a.probability_per_million <= 1_000_000
    &&& a.min_amount_cents > 0
    &&& a.min_amount_cents <= a.max_amount_cents
    &&& a.min_sla_minutes <= a.max_sla_minutes
    &&& a.flows@.len() > 0
}

pub open spec fn flow_payment(f: PaymentFlow, amount: u64) -> PaymentView {
    PaymentView {
        id: "flow-validation"@,
        sender: f.sender@,
        receiver: f.receiver@,
        amount_cents: amount,
        max_delivery_minutes: None,
    }
}

pub open spec fn service_rail_known(n: NetworkView, s: RailService) -> bool {
    rail_ids(n).contains(s.rail_id@)
}

/// The scenario is runnable: the network and every configured part are valid,
/// exactly one well-formed service per rail, and no static batch budgets.
pub open spec fn scenario_valid(s: Scenario) -> bool {
    &&& network_problem(s.network@) is None
    &&& s.strategy matches RoutingStrategy::Reserved { limits } ==> limits.positive()
    &&& arrivals_ok(s.arrivals)
    &&& s.max_active_payments > 0
    &&& forall|i: int|
        0 <= i < s.arrivals.flows@.len() ==> payment_problem(
            s.network@,
            flow_payment(#[trigger] s.arrivals.flows@[i], s.arrivals.min_amount_cents),
        ) is None
    &&& all_ids_problem("service rail"@, s.services@.map_values(|x: RailService| x.rail_id@)) is None
    &&& s.services@.len() == s.network.rails@.len()
    &&& forall|i: int|
        0 <= i < s.services@.len() ==> service_rail_known(s.network@, #[trigger] s.services@[i])
            && window_ok(s.services@[i])
    &&& forall|i: int| 0 <= i < s.network.rails@.len() ==> (#[trigger] s.network.rails@[i]).batch_capacity_cents is None
}

fn service_ids(services: &Vec<RailService>) -> (r: Vec<String>)
    ensures
        texts(r@) == services@.map_values(|x: RailService| x.rail_id@),
{
    let mut r: Vec<String> = Vec::new();
    let mut i: usize = 0;
    while i < services.len()
        invariant
            i <= services.len(),
            r@.len() == i,
            forall|j: int| 0 <= j < i ==> (#[trigger] r@[j])@ == services@[j].rail_id@,
        decreases services.len() - i,
    {
        r.push(copy_string(&services[i].rail_id));
        i += 1;
    }
    assert(texts(r@) =~= services@.map_values(|x: RailService| x.rail_id@));
    r
}

fn has_rail(network: &Network, id: &String) -> (r: bool)
    ensures
        r == rail_ids(network@).contains(id@),
{
    let ghost ids = rail_ids(network@);
    let mut i: usize = 0;
    while i < network.rails.len()
        invariant
            ids == rail_ids(network@),
            i <= network.rails.len(),
            forall|k: int| 0 <= k < i ==> ids[k] != id@,
        decreases network.rails.len() - i,
    {
        if same_text(&network.rails[i].id, id) {
            assert(ids[i as int] == id@);
            return true;
        }
        i += 1;
    }
    false
}

impl Scenario {
    /// Validate the network and every scenario field before any execution.
    pub fn validate(&self) -> (r: Result<(), ValidationError>)
        ensures
            r is Ok <==> scenario_valid(*self),
    {
        match self.network.validate() {
            Ok(()) => {},
            Err(e) => {
                return Err(e);
            },
        }
        if let RoutingStrategy::Reserved { limits } = self.strategy {
            match limits.validate() {
                Ok(()) => {},
                Err(e) => {
                    return Err(e);
                },
            }
        }
        let arrivals = &self.arrivals;
        if arrivals.probability_per_million > 1_000_000 || arrivals.min_amount_cents == 0
            || arrivals.min_amount_cents > arrivals.max_amount_cents || arrivals.min_sla_minutes
            > arrivals.max_sla_minutes || arrivals.flows.len() == 0 {
            return Err(ValidationError::BadArrivals);
        }
        if self.max_active_payments == 0 {
            return Err(ValidationError::NoActiveCapacity);
        }
        let mut i: usize = 0;
        while i < arrivals.flows.len()
            invariant
                arrivals == &self.arrivals,
                i <= arrivals.flows.len(),
                forall|j: int|
                    0 <= j < i ==> payment_problem(
                        self.network@,
                        flow_payment(#[trigger] arrivals.flows@[j], arrivals.min_amount_cents),
                    ) is None,
            decreases arrivals.flows.len() - i,
        {
            let flow = &arrivals.flows[i];
            let probe = Payment {
                id: text("flow-validation"),
                sender: copy_string(&flow.sender),
                receiver: copy_string(&flow.receiver),
                amount_cents: arrivals.min_amount_cents,
                max_delivery_minutes: None,
            };
            assert(probe@ == flow_payment(arrivals.flows@[i as int], arrivals.min_amount_cents));
            match probe.validate(&self.network) {
                Ok(()) => {},
                Err(e) => {
                    return Err(e);
                },
            }
            i += 1;
        }
        let ids = service_ids(&self.services);
        match unique_ids(&text("service rail"), &ids) {
            Ok(()) => {},
            Err(e) => {
                return Err(e);
            },
        }
        if self.services.len() != self.network.rails.len() {
            return Err(ValidationError::ServiceCount);
        }
        let mut k: usize = 0;
        while k < self.services.len()
            invariant
                k <= self.services.len(),
                forall|j: int|
                    0 <= j < k ==> service_rail_known(self.network@, #[trigger] self.services@[j])
                        && window_ok(self.services@[j]),
            decreases self.services.len() - k,
        {
            let service = &self.services[k];
            if !has_rail(&self.network, &service.rail_id) {
                return Err(ValidationError::UnknownServiceRail { rail: copy_string(&service.rail_id) });
            }
            if service.period_minutes == 0 || service.offset_minutes >= service.period_minutes
                || service.open_minutes > service.period_minutes - service.offset_minutes {
                return Err(ValidationError::BadWindow { rail: copy_string(&service.rail_id) });
            }
            k += 1;
        }
        let mut m: usize = 0;
        while m < self.network.rails.len()
            invariant
                m <= self.network.rails.len(),
                forall|j: int| 0 <= j < m ==> (#[trigger] self.network.rails@[j]).batch_capacity_cents is None,
            decreases self.network.rails.len() - m,
        {
            if self.network.rails[m].batch_capacity_cents.is_some() {
                return Err(ValidationError::BatchBudgetInSimulation);
            }
            m += 1;
        }
        Ok(())
    }
}


/// What a run relies on: one service per rail, each with a period, sampleable
/// demand, and positive search limits for the reserved strategy.
pub open spec fn config_ok(s: Scenario) -> bool {
    &&& s.services@.len() == s.network.rails@.len()
    &&& forall|i: int| 0 <= i < s.services@.len() ==> (#[trigger] s.services@[i]).period_minutes > 0
    &&& s.arrivals.flows@.len() > 0
    &&& s.arrivals.min_amount_cents <= s.arrivals.max_amount_cents
    &&& s.arrivals.min_sla_minutes <= s.arrivals.max_sla_minutes
    &&& s.strategy matches RoutingStrategy::Reserved { limits } ==> limits.positive()
}

/// Two scenarios describe the same run configuration.
pub open spec fn same_config(a: Scenario, b: Scenario) -> bool {
    &&& a.network@ == b.network@
    &&& a.services@.len() == b.services@.len()
    &&& forall|i: int|
        0 <= i < a.services@.len() ==> (#[trigger] a.services@[i]).rail_id@ == b.services@[i].rail_id@
            && a.services@[i].period_minutes == b.services@[i].period_minutes
            && a.services@[i].offset_minutes == b.services@[i].offset_minutes
            && a.services@[i].open_minutes == b.services@[i].open_minutes
            && a.services@[i].capacity_per_minute_cents == b.services@[i].capacity_per_minute_cents
    &&& a.arrivals.attempts_per_minute == b.arrivals.attempts_per_minute
    &&& a.arrivals.probability_per_million == b.arrivals.probability_per_million
    &&& a.arrivals.flows@ == b.arrivals.flows@
    &&& a.arrivals.min_amount_cents == b.arrivals.min_amount_cents
    &&& a.arrivals.max_amount_cents == b.arrivals.max_amount_cents
    &&& a.arrivals.min_sla_minutes == b.arrivals.min_sla_minutes
    &&& a.arrivals.max_sla_minutes == b.arrivals.max_sla_minutes
    &&& a.strategy == b.strategy
    &&& a.max_active_payments == b.max_active_payments
    &&& a.retained_events == b.retained_events
    &&& a.disruptions@.len() == b.disruptions@.len()
}

pub proof fn lemma_valid_config(s: Scenario)
    requires
        scenario_valid(s),
    ensures
        config_ok(s),
{
    assert forall|i: int| 0 <= i < s.services@.len() implies (#[trigger] s.services@[i]).period_minutes > 0 by {
        assert(window_ok(s.services@[i]));
    }
}

impl ArrivalProcess {
    pub fn copy(&self) -> (r: ArrivalProcess)
        ensures
            r.attempts_per_minute == self.attempts_per_minute,
            r.probability_per_million == self.probability_per_million,
            r.flows@ == self.flows@,
            r.min_amount_cents == self.min_amount_cents,
            r.max_amount_cents == self.max_amount_cents,
            r.min_sla_minutes == self.min_sla_minutes,
            r.max_sla_minutes == self.max_sla_minutes,
    {
        let mut flows: Vec<PaymentFlow> = Vec::new();
        let mut i: usize = 0;
        while i < self.flows.len()
            invariant
                i <= self.flows@.len(),
                flows@ == self.flows@.take(i as int),
            decreases self.flows@.len() - i,
        {
            let f = &self.flows[i];
            flows.push(PaymentFlow { sender: f.sender.clone(), receiver: f.receiver.clone() });
            assert(self.flows@.take(i + 1) =~= self.flows@.take(i as int).push(self.flows@[i as int]));
            i += 1;
        }
        assert(self.flows@.take(i as int) =~= self.flows@);
        ArrivalProcess {
            attempts_per_minute: self.attempts_per_minute,
            probability_per_million: self.probability_per_million,
            flows,
            min_amount_cents: self.min_amount_cents,
            max_amount_cents: self.max_amount_cents,
            min_sla_minutes: self.min_sla_minutes,
            max_sla_minutes: self.max_sla_minutes,
        }
    }
}

impl Scenario {
    pub fn copy(&self) -> (r: Scenario)
        ensures
            same_config(r, *self),
    {
        let mut services: Vec<RailService> = Vec::new();
        let mut i: usize = 0;
        while i < self.services.len()
            invariant
                i <= self.services@.len(),
                services@.len() == i,
                forall|k: int|
                    0 <= k < i ==> (#[trigger] services@[k]).rail_id@ == self.services@[k].rail_id@
                        && services@[k].period_minutes == self.services@[k].period_minutes
                        && services@[k].offset_minutes == self.services@[k].offset_minutes
                        && services@[k].open_minutes == self.services@[k].open_minutes
                        && services@[k].capacity_per_minute_cents == self.services@[k].capacity_per_minute_cents,
            decreases self.services@.len() - i,
        {
            services.push(self.services[i].copy());
            i += 1;
        }
        let mut disruptions: Vec<Disruption> = Vec::new();
        let mut j: usize = 0;
        while j < self.disruptions.len()
            invariant
                j <= self.disruptions@.len(),
                disruptions@.len() == j,
            decreases self.disruptions@.len() - j,
        {
            let d = &self.disruptions[j];
            disruptions.push(Disruption { minute: d.minute, update: d.update.copy() });
            j += 1;
        }
        Scenario {
            network: self.network.copy(),
            arrivals: self.arrivals.copy(),
            services,
            strategy: self.strategy,
            max_active_payments: self.max_active_payments,
            retained_events: self.retained_events,
            disruptions,
        }
    }
}

pub proof fn lemma_same_config_ok(a: Scenario, b: Scenario)
    requires
        same_config(a, b),
        config_ok(b),
    ensures
        config_ok(a),
        a.network.rails@.len() == b.network.rails@.len(),
{
    assert(a.network@.rails.len() == b.network@.rails.len());
    assert forall|i: int| 0 <= i < a.services@.len() implies (#[trigger] a.services@[i]).period_minutes > 0 by {
        assert(b.services@[i].period_minutes > 0);
    }
}

} // verus!
