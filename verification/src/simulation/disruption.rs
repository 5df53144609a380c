//! Surprise service changes and explicit, unweighted stability policy.
use vstd::prelude::*;
use crate::network::{Network, ValidationError, rail_ids};
use crate::scalable::SearchDiagnostics;
use crate::text::{copy_string, same_text};
use crate::order::{TextKeyed, NumKeyed, sort_by_key};
use super::{Simulator, SimulationError};
use super::config::{Scenario, config_ok, RailService, lemma_same_config_ok};

verus! {

#[derive(Debug, Clone, PartialEq, Eq)]
pub struct RailUpdate {
    pub rail_id: String,
    /// None leaves availability unchanged.
    pub available: Option<bool>,
    /// None leaves capacity unchanged; Some(None) makes it unlimited.
    pub capacity_per_minute_cents: Option<Option<u64>>,
}

#[derive(Debug, Clone, PartialEq, Eq)]
pub struct Disruption {
    pub minute: u128,
    pub update: RailUpdate,
}

#[derive(Debug, Clone, Copy, PartialEq, Eq, Structural)]
pub struct RailConditions {
    pub available: bool,
    pub capacity_per_minute_cents: Option<u64>,
}

#[derive(Debug, Clone, PartialEq, Eq)]
pub struct AppliedDisruption {
    pub rail_id: String,
    pub before: RailConditions,
    pub after: RailConditions,
}

#[derive(Debug, Clone, Copy, PartialEq, Eq)]
pub enum ReoptimizationPolicy {
    Preserve,
    Recompute,
    Adaptive { max_extra_fee_cents: u128, max_extra_elapsed_minutes: u128 },
}

impl ReoptimizationPolicy {
    pub open spec fn default_spec() -> ReoptimizationPolicy {
        ReoptimizationPolicy::Adaptive { max_extra_fee_cents: 0, max_extra_elapsed_minutes: 0 }
    }

    /// The default: adapt only when the recomputed plan costs nothing extra.
    pub fn default_policy() -> (r: ReoptimizationPolicy)
        ensures
            r == ReoptimizationPolicy::default_spec(),
    {
        ReoptimizationPolicy::Adaptive {
            max_extra_fee_cents: 0,
            max_extra_elapsed_minutes: 0,
        }
    }
}

#[derive(Debug, Clone, Copy, PartialEq, Eq)]
pub enum ReoptimizationChoice {
    Preserve,
    Recompute,
}

#[derive(Debug, Clone, Copy, PartialEq, Eq)]
pub struct PlanAssessment {
    pub eligible_payments: usize,
    pub planned: usize,
    pub unplanned: usize,
    /// Denominator for changed_assignments / previously_planned.
    pub previously_planned: usize,
    pub changed_assignments: usize,
    pub changed_routes: usize,
    /// Same route, different absolute departure times.
    pub retimed_only: usize,
    pub withdrawn: usize,
    pub newly_planned: usize,
    pub remaining_fee_cents: u128,
    pub remaining_elapsed_minutes: u128,
    pub remaining_hops: usize,
}

#[derive(Debug, Clone, Copy, PartialEq, Eq)]
pub struct ReoptimizationReport {
    pub minute: u128,
    pub policy: ReoptimizationPolicy,
    pub selected: ReoptimizationChoice,
    pub preserve: PlanAssessment,
    pub recompute: PlanAssessment,
    /// If false, fee/elapsed differences are not comparable cohort gaps.
    pub same_planned_cohort: bool,
    /// False for static estimates, which do not predict waiting/windows.
    pub reserved: bool,
    pub preserve_diagnostics: SearchDiagnostics,
    pub recompute_diagnostics: SearchDiagnostics,
}

impl ReoptimizationReport {
    pub fn selected_assessment(&self) -> (r: &PlanAssessment)
        ensures
            r == (match self.selected {
                ReoptimizationChoice::Preserve => &self.preserve,
                ReoptimizationChoice::Recompute => &self.recompute,
            }),
    {
        match self.selected {
            ReoptimizationChoice::Preserve => &self.preserve,
            ReoptimizationChoice::Recompute => &self.recompute,
        }
    }
}

#[derive(Debug, Clone, Copy, PartialEq, Eq)]
pub struct AdaptationMetrics {
    pub rail_changes: u128,
    pub reoptimizations: u128,
    pub assignment_comparisons: u128,
    pub changed_assignments: u128,
    pub changed_routes: u128,
    pub retimed_only: u128,
    pub withdrawn: u128,
}

impl AdaptationMetrics {
    pub open spec fn zero_spec() -> AdaptationMetrics {
        AdaptationMetrics {
            rail_changes: 0,
            reoptimizations: 0,
            assignment_comparisons: 0,
            changed_assignments: 0,
            changed_routes: 0,
            retimed_only: 0,
            withdrawn: 0,
        }
    }

    pub fn zero() -> (r: AdaptationMetrics)
        ensures
            r == AdaptationMetrics::zero_spec(),
    {
        AdaptationMetrics {
            rail_changes: 0,
            reoptimizations: 0,
            assignment_comparisons: 0,
            changed_assignments: 0,
            changed_routes: 0,
            retimed_only: 0,
            withdrawn: 0,
        }
    }
}

/// An update names a rail of the network and changes at least one field.
pub open spec fn update_valid(network: Network, u: RailUpdate) -> bool {
    rail_ids(network@).contains(u.rail_id@) && (u.available is Some
        || u.capacity_per_minute_cents is Some)
}

/// Per field, a later write wins.
pub open spec fn merged(a: RailUpdate, b: RailUpdate) -> (Option<bool>, Option<Option<u64>>) {
    (
        if b.available is Some { b.available } else { a.available },
        if b.capacity_per_minute_cents is Some { b.capacity_per_minute_cents } else { a.capacity_per_minute_cents },
    )
}

impl RailUpdate {
    pub fn validate(&self, network: &Network) -> (r: Result<(), ValidationError>)
        ensures
            r is Ok <==> update_valid(*network, *self),
    {
        let ghost ids = rail_ids(network@);
        let mut known = false;
        let mut i: usize = 0;
        while i < network.rails.len()
            invariant
                ids == rail_ids(network@),
                i <= network.rails.len(),
                known == ids.take(i as int).contains(self.rail_id@),
            decreases network.rails.len() - i,
        {
            let hit = same_text(&network.rails[i].id, &self.rail_id);
            proof {
                assert(ids.take(i + 1) =~= ids.take(i as int).push(ids[i as int]));
                if hit {
                    assert(ids[i as int] == network.rails@[i as int].id@);
                    assert(ids.take(i + 1)[i as int] == self.rail_id@);
                }
                if ids.take(i as int).contains(self.rail_id@) {
                    let k = choose|k: int| 0 <= k < i && #[trigger] ids.take(i as int)[k] == self.rail_id@;
                    assert(ids.take(i + 1)[k] == self.rail_id@);
                }
                if ids.take(i + 1).contains(self.rail_id@) && !hit {
                    let k = choose|k: int| 0 <= k < i + 1 && #[trigger] ids.take(i + 1)[k] == self.rail_id@;
                    assert(ids.take(i as int)[k] == self.rail_id@);
                }
            }
            known = known || hit;
            i += 1;
        }
        assert(ids.take(i as int) =~= ids);
        if !known {
            return Err(ValidationError::UnknownDisruptionRail { rail: copy_string(&self.rail_id) });
        }
        if self.available.is_none() && self.capacity_per_minute_cents.is_none() {
            return Err(ValidationError::EmptyRailUpdate);
        }
        Ok(())
    }

    /// Overwrite every field that `other` sets.
    pub fn merge(&mut self, other: &RailUpdate)
        ensures
            final(self).rail_id == old(self).rail_id,
            (final(self).available, final(self).capacity_per_minute_cents) == merged(*old(self), *other),
    {
        if other.available.is_some() {
            self.available = other.available;
        }
        if other.capacity_per_minute_cents.is_some() {
            self.capacity_per_minute_cents = other.capacity_per_minute_cents;
        }
    }

    pub fn copy(&self) -> (r: RailUpdate)
        ensures
            r.rail_id@ == self.rail_id@,
            r.available == self.available,
            r.capacity_per_minute_cents == self.capacity_per_minute_cents,
    {
        RailUpdate {
            rail_id: copy_string(&self.rail_id),
            available: self.available,
            capacity_per_minute_cents: self.capacity_per_minute_cents,
        }
    }
}


impl TextKeyed for RailUpdate {
    open spec fn key_view(&self) -> Seq<char> {
        self.rail_id@
    }

    fn key(&self) -> (r: &String) {
        &self.rail_id
    }
}

impl TextKeyed for Disruption {
    open spec fn key_view(&self) -> Seq<char> {
        self.update.rail_id@
    }

    fn key(&self) -> (r: &String) {
        &self.update.rail_id
    }
}

impl NumKeyed for Disruption {
    open spec fn num_view(&self) -> u128 {
        self.minute
    }

    fn num(&self) -> (r: u128) {
        self.minute
    }
}

/// No two updates name the same rail.
pub open spec fn distinct_ids(s: Seq<RailUpdate>) -> bool {
    forall|i: int, j: int| 0 <= i < j < s.len() ==> (#[trigger] s[i]).rail_id@ != (#[trigger] s[j]).rail_id@
}

/// Some update of `s` names rail `x`.
pub open spec fn names(s: Seq<RailUpdate>, x: Seq<char>) -> bool {
    exists|k: int| 0 <= k < s.len() && (#[trigger] s[k]).rail_id@ == x
}

/// The end of the run of scheduled changes from `i` that fall at `minute`.
pub open spec fn due_end(ds: Seq<Disruption>, i: int, minute: u128) -> int
    decreases ds.len() - i,
{
    if 0 <= i < ds.len() && ds[i].minute == minute {
        due_end(ds, i + 1, minute)
    } else {
        i
    }
}

/// Rail `x` is named by a change due now: a scheduled one for this minute or a staged one.
pub open spec fn due_name(sim: Simulator, x: Seq<char>) -> bool {
    ||| exists|k: int|
        sim.next_disruption <= k < due_end(sim.scenario.disruptions@, sim.next_disruption as int, sim.state.next_minute)
            && (#[trigger] sim.scenario.disruptions@[k]).update.rail_id@ == x
    ||| names(sim.pending_updates@, x)
}

/// The network has a rail named `x`.
pub open spec fn rail_known(n: Network, x: Seq<char>) -> bool {
    exists|q: int| 0 <= q < n.rails@.len() && (#[trigger] n.rails@[q]).id@ == x
}

fn position_of_update(list: &Vec<RailUpdate>, id: &String) -> (r: Option<usize>)
    ensures
        r matches Some(i) ==> i < list@.len() && list@[i as int].rail_id@ == id@,
        r is None ==> forall|k: int| 0 <= k < list@.len() ==> (#[trigger] list@[k]).rail_id@ != id@,
{
    let mut i: usize = 0;
    while i < list.len()
        invariant
            i <= list@.len(),
            forall|k: int| 0 <= k < i ==> (#[trigger] list@[k]).rail_id@ != id@,
        decreases list@.len() - i,
    {
        if same_text(&list[i].rail_id, id) {
            return Some(i);
        }
        i += 1;
    }
    None
}

/// `new` is `old` with `u` recorded for its rail: an existing record is replaced
/// (when `replace`) or merged field by field, keeping its place; otherwise `u` is
/// appended. Every other record is kept.
pub open spec fn upserted(old: Seq<RailUpdate>, new: Seq<RailUpdate>, u: RailUpdate, replace: bool) -> bool {
    if names(old, u.rail_id@) {
        exists|i: int|
            0 <= i < old.len() && (#[trigger] old[i]).rail_id@ == u.rail_id@ && new.len() == old.len() && new[i].rail_id@
                == u.rail_id@ && (new[i].available, new[i].capacity_per_minute_cents) == (if replace {
                (u.available, u.capacity_per_minute_cents)
            } else {
                merged(old[i], u)
            }) && forall|k: int| 0 <= k < old.len() && k != i ==> new[k] == old[k]
    } else {
        &&& new.len() == old.len() + 1
        &&& new.take(old.len() as int) == old
        &&& new.last().rail_id@ == u.rail_id@
        &&& new.last().available == u.available
        &&& new.last().capacity_per_minute_cents == u.capacity_per_minute_cents
    }
}

/// Record `u` for its rail: replace an earlier record, or merge into it field by
/// field, or add a new one.
pub fn upsert(list: &mut Vec<RailUpdate>, u: &RailUpdate, replace: bool) -> (at: usize)
    requires
        distinct_ids(old(list)@),
    ensures
        distinct_ids(final(list)@),
        final(list)@.len() <= old(list)@.len() + 1,
        at < final(list)@.len() && final(list)@[at as int].rail_id@ == u.rail_id@,
        forall|x: Seq<char>| names(final(list)@, x) <==> (names(old(list)@, x) || x == u.rail_id@),
        upserted(old(list)@, final(list)@, *u, replace),
{
    match position_of_update(list, &u.rail_id) {
        Some(i) => {
            let mut e = list[i].copy();
            if replace {
                e = u.copy();
            } else {
                e.merge(u);
            }
            let ghost before = list@;
            list.set(i, e);
            assert(list@[i as int].rail_id@ == u.rail_id@);
            assert(names(before, u.rail_id@));
            assert(before[i as int].rail_id@ == u.rail_id@);
            proof {
                assert forall|x: Seq<char>| names(list@, x) <==> (names(before, x) || x == u.rail_id@) by {
                    if names(list@, x) {
                        let k = choose|k: int| 0 <= k < list@.len() && (#[trigger] list@[k]).rail_id@ == x;
                        if k != i {
                            assert(before[k] == list@[k]);
                        }
                    }
                    if names(before, x) {
                        let k = choose|k: int| 0 <= k < before.len() && (#[trigger] before[k]).rail_id@ == x;
                        if k != i {
                            assert(before[k] == list@[k]);
                            assert(names(list@, x));
                        } else {
                            assert(list@[i as int].rail_id@ == x);
                        }
                    }
                    if x == u.rail_id@ {
                        assert(list@[i as int].rail_id@ == x);
                    }
                }
            }
            i
        },
        None => {
            let ghost before = list@;
            list.push(u.copy());
            assert(list@[list@.len() - 1].rail_id@ == u.rail_id@);
            assert(list@.take(before.len() as int) =~= before);
            assert(!names(before, u.rail_id@));
            proof {
                assert forall|x: Seq<char>| names(list@, x) <==> (names(before, x) || x == u.rail_id@) by {
                    if names(list@, x) {
                        let k = choose|k: int| 0 <= k < list@.len() && (#[trigger] list@[k]).rail_id@ == x;
                        if k < before.len() {
                            assert(before[k] == list@[k]);
                        }
                    }
                    if names(before, x) {
                        let k = choose|k: int| 0 <= k < before.len() && (#[trigger] before[k]).rail_id@ == x;
                        assert(before[k] == list@[k]);
                    }
                    if x == u.rail_id@ {
                        assert(list@[before.len() as int].rail_id@ == x);
                    }
                }
            }
            list.len() - 1
        },
    }
}


fn rail_position(network: &Network, id: &String) -> (r: Option<usize>)
    ensures
        r matches Some(i) ==> i < network.rails@.len() && network.rails@[i as int].id@ == id@
            && forall|k: int| 0 <= k < i ==> network.rails@[k].id@ != id@,
        r is None ==> forall|k: int| 0 <= k < network.rails@.len() ==> network.rails@[k].id@ != id@,
{
    let mut i: usize = 0;
    while i < network.rails.len()
        invariant
            i <= network.rails@.len(),
            forall|k: int| 0 <= k < i ==> network.rails@[k].id@ != id@,
        decreases network.rails@.len() - i,
    {
        if same_text(&network.rails[i].id, id) {
            return Some(i);
        }
        i += 1;
    }
    None
}

impl Simulator {
    /// The current effective configuration; `scenario()` remains the restart input.
    pub fn effective_scenario(&self) -> (r: &Scenario)
        ensures
            r == &self.effective,
    {
        &self.effective
    }

    pub fn adaptation_metrics(&self) -> (r: &AdaptationMetrics)
        ensures
            r == &self.state.adaptation_metrics,
    {
        &self.state.adaptation_metrics
    }

    pub fn last_reoptimization(&self) -> (r: Option<&ReoptimizationReport>)
        ensures
            r == (match self.state.last_reoptimization {
                Some(report) => Some(&report),
                None => None::<&ReoptimizationReport>,
            }),
    {
        match &self.state.last_reoptimization {
            Some(report) => Some(report),
            None => None,
        }
    }

    pub fn reoptimization_policy(&self) -> (r: ReoptimizationPolicy)
        ensures
            r == self.reoptimization_policy,
    {
        self.reoptimization_policy
    }

    /// Applies to future disruption decisions; does not advance time or reroute.
    pub fn set_reoptimization_policy(&mut self, policy: ReoptimizationPolicy)
        ensures
            *final(self) == (Simulator { reoptimization_policy: policy, ..*old(self) }),
    {
        self.reoptimization_policy = policy;
    }

    /// Stage a next-tick control. Repeated writes merge per field, the last write
    /// winning; at most one record is kept per rail; an invalid write changes nothing.
    pub fn queue_rail_update(&mut self, update: RailUpdate) -> (r: Result<(), SimulationError>)
        requires
            old(self).wf(),
        ensures
            final(self).wf(),
            r is Ok <==> update_valid(old(self).scenario.network, update),
            r is Err ==> *final(self) == *old(self),
            r is Ok ==> final(self).pending_updates@.len() <= old(self).pending_updates@.len() + 1
                && exists|i: int|
                0 <= i < final(self).pending_updates@.len() && (#[trigger] final(self).pending_updates@[i]).rail_id@
                    == update.rail_id@,
            r is Ok ==> final(self).state == old(self).state && final(self).scenario == old(self).scenario,
            r is Ok ==> *final(self) == (Simulator { pending_updates: final(self).pending_updates, ..*old(self) }),
            r is Ok ==> upserted(old(self).pending_updates@, final(self).pending_updates@, update, false),
    {
        match update.validate(&self.scenario.network) {
            Ok(()) => {},
            Err(e) => {
                return Err(SimulationError::Validation(e));
            },
        }
        let at = upsert(&mut self.pending_updates, &update, false);
        assert(self.pending_updates@[at as int].rail_id@ == update.rail_id@);
        Ok(())
    }

    /// Staged updates, at most one per rail.
    pub fn pending_rail_updates(&self) -> (r: usize)
        ensures
            r == self.pending_updates@.len(),
    {
        self.pending_updates.len()
    }

    /// The changes due now: scheduled ones for this minute (a later one for the
    /// same rail replacing an earlier one), then staged ones merged field by
    /// field, applied in rail-identifier order. Only real changes are reported;
    /// without any, the effective configuration stays as it is.
    #[verifier::rlimit(40)]
    pub fn prepare_disruptions(&self) -> (r: Result<(Option<Scenario>, usize, Vec<AppliedDisruption>), SimulationError>)
        requires
            self.wf(),
        ensures
            r matches Ok((eff, index, changes)) ==> {
                &&& eff matches Some(e) ==> config_ok(e) && e.network.rails@.len()
                    == self.effective.network.rails@.len() && changes@.len() > 0
                    && super::rng::same_arrivals(e.arrivals, self.effective.arrivals)
                    && e.arrivals.flows@ == self.effective.arrivals.flows@
                    && e.max_active_payments == self.effective.max_active_payments
                &&& eff is None ==> changes@.len() == 0
                &&& index >= self.next_disruption
                &&& index == due_end(self.scenario.disruptions@, self.next_disruption as int, self.state.next_minute)
            },
            r is Ok <==> forall|x: Seq<char>| #[trigger] due_name(*self, x) ==> rail_known(self.effective.network, x),
            r matches Ok((_, _, changes)) ==> (self.pending_updates@.len() == 0 && due_end(
                self.scenario.disruptions@,
                self.next_disruption as int,
                self.state.next_minute,
            ) == self.next_disruption ==> changes@.len() == 0),
    {
        broadcast use vstd::seq_lib::group_to_multiset_ensures;

        let ghost ds = self.scenario.disruptions@;
        let ghost minute = self.state.next_minute;
        let ghost start = self.next_disruption as int;
        let mut updates: Vec<RailUpdate> = Vec::new();
        let mut index = self.next_disruption;
        while index < self.scenario.disruptions.len()
            invariant_except_break
                ds == self.scenario.disruptions@,
                minute == self.state.next_minute,
                start == self.next_disruption,
                distinct_ids(updates@),
                start <= index,
                index <= ds.len() || index == start,
                due_end(ds, start, minute) == due_end(ds, index as int, minute),
                forall|x: Seq<char>| names(updates@, x) <==> exists|k: int|
                    start <= k < index && (#[trigger] ds[k]).update.rail_id@ == x,
            ensures
                distinct_ids(updates@),
                start <= index,
                index == due_end(ds, start, minute),
                forall|x: Seq<char>| names(updates@, x) <==> exists|k: int|
                    start <= k < index && (#[trigger] ds[k]).update.rail_id@ == x,
            decreases self.scenario.disruptions@.len() - index,
        {
            if self.scenario.disruptions[index].minute != self.state.next_minute {
                break;
            }
            let ghost before = updates@;
            upsert(&mut updates, &self.scenario.disruptions[index].update, true);
            proof {
                assert forall|x: Seq<char>| names(updates@, x) <==> exists|k: int|
                    start <= k < index + 1 && (#[trigger] ds[k]).update.rail_id@ == x by {
                    if names(before, x) {
                        let k = choose|k: int| start <= k < index && (#[trigger] ds[k]).update.rail_id@ == x;
                        assert(start <= k < index + 1 && ds[k].update.rail_id@ == x);
                    }
                    if x == ds[index as int].update.rail_id@ {
                        assert(start <= index < index + 1 && ds[index as int].update.rail_id@ == x);
                    }
                    if exists|k: int| start <= k < index + 1 && (#[trigger] ds[k]).update.rail_id@ == x {
                        let k = choose|k: int| start <= k < index + 1 && (#[trigger] ds[k]).update.rail_id@ == x;
                        if k < index {
                            assert(names(before, x));
                        }
                    }
                }
            }
            index += 1;
        }
        let mut p: usize = 0;
        while p < self.pending_updates.len()
            invariant
                distinct_ids(updates@),
                p <= self.pending_updates@.len(),
                index == due_end(ds, start, minute),
                ds == self.scenario.disruptions@,
                minute == self.state.next_minute,
                start == self.next_disruption,
                forall|x: Seq<char>| names(updates@, x) <==> ((exists|k: int|
                    start <= k < index && (#[trigger] ds[k]).update.rail_id@ == x) || names(
                    self.pending_updates@.take(p as int),
                    x,
                )),
            decreases self.pending_updates@.len() - p,
        {
            let ghost before = updates@;
            let ghost pend = self.pending_updates@;
            upsert(&mut updates, &self.pending_updates[p], false);
            proof {
                assert forall|x: Seq<char>| names(pend.take(p + 1), x) <==> (names(pend.take(p as int), x)
                    || x == pend[p as int].rail_id@) by {
                    if names(pend.take(p + 1), x) {
                        let k = choose|k: int| 0 <= k < pend.take(p + 1).len() && (#[trigger] pend.take(p + 1)[k]).rail_id@ == x;
                        if k < p {
                            assert(pend.take(p as int)[k] == pend.take(p + 1)[k]);
                        }
                    }
                    if names(pend.take(p as int), x) {
                        let k = choose|k: int| 0 <= k < pend.take(p as int).len() && (#[trigger] pend.take(p as int)[k]).rail_id@ == x;
                        assert(pend.take(p as int)[k] == pend.take(p + 1)[k]);
                    }
                    if x == pend[p as int].rail_id@ {
                        assert(pend.take(p + 1)[p as int] == pend[p as int]);
                    }
                }
            }
            p += 1;
        }
        proof {
            assert(self.pending_updates@.take(p as int) =~= self.pending_updates@);
            assert forall|x: Seq<char>| names(updates@, x) <==> due_name(*self, x) by {}
        }
        let mut changes: Vec<AppliedDisruption> = Vec::new();
        if updates.len() == 0 {
            proof {
                assert forall|x: Seq<char>| #[trigger] due_name(*self, x) implies rail_known(self.effective.network, x) by {
                    assert(names(updates@, x));
                }
            }
            return Ok((None, index, changes));
        }
        proof {
            if self.pending_updates@.len() == 0 && due_end(ds, start, minute) == start {
                let x = updates@[0].rail_id@;
                assert(names(updates@, x));
                assert(due_name(*self, x));
                assert(false);
            }
        }
        let ghost unordered = updates@;
        let ordered = sort_by_key(updates);
        proof {
            assert forall|x: Seq<char>| names(ordered@, x) <==> names(unordered, x) by {
                if names(ordered@, x) {
                    let k = choose|k: int| 0 <= k < ordered@.len() && (#[trigger] ordered@[k]).rail_id@ == x;
                    assert(ordered@.to_multiset().count(ordered@[k]) > 0);
                    assert(unordered.contains(ordered@[k]));
                }
                if names(unordered, x) {
                    let k = choose|k: int| 0 <= k < unordered.len() && (#[trigger] unordered[k]).rail_id@ == x;
                    assert(unordered.to_multiset().count(unordered[k]) > 0);
                    assert(ordered@.contains(unordered[k]));
                }
            }
        }
        let mut effective = self.effective.copy();
        proof {
            lemma_same_config_ok(effective, self.effective);
            assert forall|q: int| 0 <= q < effective.network.rails@.len() implies (#[trigger] effective.network.rails@[q]).id@
                == self.effective.network.rails@[q].id@ by {
                assert(effective.network@.rails[q] == self.effective.network@.rails[q]);
            }
        }
        let mut k: usize = 0;
        while k < ordered.len()
            invariant
                k <= ordered@.len(),
                config_ok(effective),
                effective.network.rails@.len() == self.effective.network.rails@.len(),
                super::rng::same_arrivals(effective.arrivals, self.effective.arrivals),
                effective.arrivals.flows@ == self.effective.arrivals.flows@,
                effective.max_active_payments == self.effective.max_active_payments,
                forall|q: int| 0 <= q < effective.network.rails@.len() ==> (#[trigger] effective.network.rails@[q]).id@
                    == self.effective.network.rails@[q].id@,
                forall|q: int| 0 <= q < k ==> rail_known(self.effective.network, (#[trigger] ordered@[q]).rail_id@),
                forall|x: Seq<char>| names(ordered@, x) <==> due_name(*self, x),
            decreases ordered@.len() - k,
        {
            let u = &ordered[k];
            let i = match rail_position(&effective.network, &u.rail_id) {
                Some(i) => i,
                None => {
                    proof {
                        let x = ordered@[k as int].rail_id@;
                        assert(names(ordered@, x));
                        assert(due_name(*self, x));
                        assert forall|q: int| 0 <= q < self.effective.network.rails@.len() implies (
                        #[trigger] self.effective.network.rails@[q]).id@ != x by {
                            assert(effective.network.rails@[q].id@ == self.effective.network.rails@[q].id@);
                        }
                        assert(!rail_known(self.effective.network, x));
                    }
                    return Err(SimulationError::Invariant("unknown disruption rail"));
                },
            };
            proof {
                assert(rail_known(self.effective.network, u.rail_id@));
            }
            let before = RailConditions {
                available: effective.network.rails[i].available,
                capacity_per_minute_cents: effective.services[i].capacity_per_minute_cents,
            };
            let after = RailConditions {
                available: match u.available {
                    Some(a) => a,
                    None => before.available,
                },
                capacity_per_minute_cents: match u.capacity_per_minute_cents {
                    Some(c) => c,
                    None => before.capacity_per_minute_cents,
                },
            };
            if before != after {
                let mut rail = effective.network.rails[i].copy();
                rail.available = after.available;
                effective.network.rails.set(i, rail);
                let mut service = effective.services[i].copy();
                service.capacity_per_minute_cents = after.capacity_per_minute_cents;
                effective.services.set(i, service);
                changes.push(AppliedDisruption { rail_id: u.rail_id.clone(), before, after });
            }
            k += 1;
        }
        proof {
            assert forall|x: Seq<char>| #[trigger] due_name(*self, x) implies rail_known(self.effective.network, x) by {
                assert(names(ordered@, x));
                let q = choose|q: int| 0 <= q < ordered@.len() && (#[trigger] ordered@[q]).rail_id@ == x;
                assert(rail_known(self.effective.network, ordered@[q].rail_id@));
            }
        }
        if changes.len() == 0 {
            Ok((None, index, changes))
        } else {
            Ok((Some(effective), index, changes))
        }
    }
}

} // verus!
