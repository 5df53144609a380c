//! Bounded, feasible routing. Failure is unresolved, never a proof of infeasibility.
//! Exact optimizers do not use this module.
pub mod allocation;
pub use allocation::plan_schedule;

use vstd::prelude::*;
use crate::network::{Network, Payment, Rail, ValidationError, valid_network, is_institution, institution_ids, rail_ids, texts};
use crate::order::{NumKeyed, TextKeyed, key_sorted, keys, sort_by_key, sort_by_num};
use crate::routing::{Route, RouteHop};
use crate::scheduling::{RailDeparture, ScheduledBatchPlan};
use crate::simulation::config::RailService;
use crate::text::{copy_string, same_text};

verus! {

#[derive(Debug, Clone, Copy, PartialEq, Eq)]
pub struct SearchLimits {
    pub labels_per_node: usize,
    pub max_labels: usize,
    pub max_expansions: usize,
    pub max_candidates: usize,
    /// Budget for pairwise repair of an incomplete allocation.
    pub max_repairs: usize,
}

impl Default for SearchLimits {
    fn default() -> (r: Self)
        ensures
            r.labels_per_node == 16,
            r.max_labels == 8192,
            r.max_expansions == 4096,
            r.max_candidates == 100_000,
            r.max_repairs == 16,
    {
        SearchLimits {
            labels_per_node: 16,
            max_labels: 8192,
            max_expansions: 4096,
            max_candidates: 100_000,
            max_repairs: 16,
        }
    }
}

impl SearchLimits {
    pub open spec fn positive(self) -> bool {
        self.labels_per_node > 0 && self.max_labels > 0 && self.max_expansions > 0
            && self.max_candidates > 0
    }

    pub fn validate(self) -> (r: Result<(), ValidationError>)
        ensures
            r is Ok <==> self.positive(),
            r matches Err(e) ==> e == ValidationError::NonPositiveLimits,
    {
        if self.labels_per_node == 0 || self.max_labels == 0 || self.max_expansions == 0
            || self.max_candidates == 0 {
            return Err(ValidationError::NonPositiveLimits);
        }
        Ok(())
    }
}

#[derive(Debug, Clone, Copy, PartialEq, Eq)]
pub struct SearchDiagnostics {
    pub searches: u128,
    pub expansions: u128,
    pub candidates: u128,
    pub truncated_searches: u128,
    pub unresolved: u128,
    pub repair_trials: u128,
}

impl Default for SearchDiagnostics {
    fn default() -> (r: Self)
        ensures
            r == SearchDiagnostics::zero_spec(),
    {
        SearchDiagnostics::zero()
    }
}

pub open spec fn sat_add(a: u128, b: u128) -> u128 {
    if a + b > u128::MAX {
        u128::MAX
    } else {
        (a + b) as u128
    }
}

impl SearchDiagnostics {
    pub open spec fn zero_spec() -> SearchDiagnostics {
        SearchDiagnostics {
            searches: 0,
            expansions: 0,
            candidates: 0,
            truncated_searches: 0,
            unresolved: 0,
            repair_trials: 0,
        }
    }

    pub fn zero() -> (r: SearchDiagnostics)
        ensures
            r == SearchDiagnostics::zero_spec(),
    {
        SearchDiagnostics {
            searches: 0,
            expansions: 0,
            candidates: 0,
            truncated_searches: 0,
            unresolved: 0,
            repair_trials: 0,
        }
    }

    /// Add every counter, saturating.
    pub fn plus(&mut self, other: SearchDiagnostics)
        ensures
            final(self).searches == sat_add(old(self).searches, other.searches),
            final(self).expansions == sat_add(old(self).expansions, other.expansions),
            final(self).candidates == sat_add(old(self).candidates, other.candidates),
            final(self).truncated_searches == sat_add(
                old(self).truncated_searches,
                other.truncated_searches,
            ),
            final(self).unresolved == sat_add(old(self).unresolved, other.unresolved),
            final(self).repair_trials == sat_add(old(self).repair_trials, other.repair_trials),
    {
        self.searches = self.searches.saturating_add(other.searches);
        self.expansions = self.expansions.saturating_add(other.expansions);
        self.candidates = self.candidates.saturating_add(other.candidates);
        self.truncated_searches = self.truncated_searches.saturating_add(other.truncated_searches);
        self.unresolved = self.unresolved.saturating_add(other.unresolved);
        self.repair_trials = self.repair_trials.saturating_add(other.repair_trials);
    }
}

#[derive(Debug, Clone, PartialEq, Eq)]
pub struct PlanningResult {
    /// None means no complete plan was found by the bounded heuristic.
    pub plan: Option<ScheduledBatchPlan>,
    pub diagnostics: SearchDiagnostics,
}

/// Principal booked on one departure of one rail.
#[derive(Debug, Clone, Copy, PartialEq, Eq)]
pub struct SlotBooking {
    pub rail: usize,
    pub minute: u128,
    pub amount: u128,
}

/// Principal booked on one rail's whole-batch budget.
#[derive(Debug, Clone, Copy, PartialEq, Eq)]
pub struct RailBooking {
    pub rail: usize,
    pub amount: u128,
}

/// Reservations by (rail, departure) and by rail; at most one entry per key.
#[derive(Debug, Clone, PartialEq, Eq)]
pub struct Reservations {
    pub slots: Vec<SlotBooking>,
    pub rails: Vec<RailBooking>,
}

pub open spec fn slot_booked(slots: Seq<SlotBooking>, rail: usize, minute: u128) -> int
    decreases slots.len(),
{
    if slots.len() == 0 {
        0
    } else if slots.last().rail == rail && slots.last().minute == minute {
        slots.last().amount as int
    } else {
        slot_booked(slots.drop_last(), rail, minute)
    }
}

pub open spec fn rail_booked(rails: Seq<RailBooking>, rail: usize) -> int
    decreases rails.len(),
{
    if rails.len() == 0 {
        0
    } else if rails.last().rail == rail {
        rails.last().amount as int
    } else {
        rail_booked(rails.drop_last(), rail)
    }
}

impl Reservations {
    pub fn empty() -> (r: Reservations)
        ensures
            r.slots@.len() == 0,
            r.rails@.len() == 0,
    {
        Reservations { slots: Vec::new(), rails: Vec::new() }
    }

    pub fn copy(&self) -> (r: Reservations)
        ensures
            r.slots@ == self.slots@,
            r.rails@ == self.rails@,
    {
        let mut slots: Vec<SlotBooking> = Vec::new();
        let mut i: usize = 0;
        while i < self.slots.len()
            invariant
                i <= self.slots.len(),
                slots@ == self.slots@.take(i as int),
            decreases self.slots.len() - i,
        {
            slots.push(self.slots[i]);
            assert(self.slots@.take(i + 1) =~= self.slots@.take(i as int).push(self.slots@[i as int]));
            i += 1;
        }
        let mut rails: Vec<RailBooking> = Vec::new();
        let mut k: usize = 0;
        while k < self.rails.len()
            invariant
                k <= self.rails.len(),
                rails@ == self.rails@.take(k as int),
                slots@ == self.slots@.take(i as int),
                i == self.slots@.len(),
            decreases self.rails.len() - k,
        {
            rails.push(self.rails[k]);
            assert(self.rails@.take(k + 1) =~= self.rails@.take(k as int).push(self.rails@[k as int]));
            k += 1;
        }
        assert(self.slots@.take(i as int) =~= self.slots@);
        assert(self.rails@.take(k as int) =~= self.rails@);
        Reservations { slots, rails }
    }

    /// Principal booked on a departure; zero when absent.
    pub fn slot_used(&self, rail: usize, minute: u128) -> (r: u128)
        ensures
            r == slot_booked(self.slots@, rail, minute),
    {
        let mut i = self.slots.len();
        assert(self.slots@.take(i as int) =~= self.slots@);
        while i > 0
            invariant
                i <= self.slots@.len(),
                slot_booked(self.slots@, rail, minute) == slot_booked(self.slots@.take(i as int), rail, minute),
            decreases i,
        {
            let b = self.slots[i - 1];
            assert(self.slots@.take(i as int).drop_last() =~= self.slots@.take(i - 1));
            if b.rail == rail && b.minute == minute {
                return b.amount;
            }
            i -= 1;
        }
        0
    }

    /// Principal booked on a rail's batch budget; zero when absent.
    pub fn rail_used(&self, rail: usize) -> (r: u128)
        ensures
            r == rail_booked(self.rails@, rail),
    {
        let mut i = self.rails.len();
        assert(self.rails@.take(i as int) =~= self.rails@);
        while i > 0
            invariant
                i <= self.rails@.len(),
                rail_booked(self.rails@, rail) == rail_booked(self.rails@.take(i as int), rail),
            decreases i,
        {
            let b = self.rails[i - 1];
            assert(self.rails@.take(i as int).drop_last() =~= self.rails@.take(i - 1));
            if b.rail == rail {
                return b.amount;
            }
            i -= 1;
        }
        0
    }

    /// Add principal to a departure booking; false (and no change) on overflow.
    pub fn add_slot(&mut self, rail: usize, minute: u128, amount: u128) -> (ok: bool)
        ensures
            ok <==> slot_booked(old(self).slots@, rail, minute) + amount <= u128::MAX,
            ok ==> slot_booked(final(self).slots@, rail, minute) == slot_booked(old(self).slots@, rail, minute) + amount,
            ok ==> forall|r: usize, m: u128| !(r == rail && m == minute) ==> slot_booked(final(self).slots@, r, m) == slot_booked(old(self).slots@, r, m),
            !ok ==> *final(self) == *old(self),
            final(self).rails@ == old(self).rails@,
    {
        let mut i = self.slots.len();
        while i > 0
            invariant
                i <= self.slots@.len(),
                *self == *old(self),
                forall|j: int| i <= j < self.slots@.len() ==> !((#[trigger] self.slots@[j]).rail == rail && self.slots@[j].minute == minute),
            decreases i,
        {
            if self.slots[i - 1].rail == rail && self.slots[i - 1].minute == minute {
                let b = self.slots[i - 1];
                match b.amount.checked_add(amount) {
                    Some(total) => {
                        let ghost before = self.slots@;
                        self.slots.set(i - 1, SlotBooking { rail, minute, amount: total });
                        proof {
                            lemma_slot_booked_update(before, i - 1, SlotBooking { rail, minute, amount: total });
                            assert(self.slots@ == before.update(i - 1, SlotBooking { rail, minute, amount: total }));
                        }
                        return true;
                    },
                    None => {
                        proof {
                            lemma_slot_booked_update(self.slots@, i - 1, SlotBooking { rail, minute, amount: b.amount });
                        }
                        return false;
                    },
                }
            }
            i -= 1;
        }
        let ghost before = self.slots@;
        proof {
            lemma_slot_booked_absent(before, rail, minute);
        }
        self.slots.push(SlotBooking { rail, minute, amount });
        proof {
            assert(self.slots@.drop_last() =~= before);
            lemma_slot_booked_absent(before, rail, minute);
            assert(self.slots@.last() == SlotBooking { rail, minute, amount });
        }
        true
    }

    /// Add principal to a rail booking; false (and no change) on overflow.
    pub fn add_rail(&mut self, rail: usize, amount: u128) -> (ok: bool)
        ensures
            ok <==> rail_booked(old(self).rails@, rail) + amount <= u128::MAX,
            ok ==> rail_booked(final(self).rails@, rail) == rail_booked(old(self).rails@, rail) + amount,
            ok ==> forall|r: usize| r != rail ==> rail_booked(final(self).rails@, r) == rail_booked(old(self).rails@, r),
            !ok ==> *final(self) == *old(self),
            final(self).slots@ == old(self).slots@,
    {
        let mut i = self.rails.len();
        while i > 0
            invariant
                i <= self.rails@.len(),
                *self == *old(self),
                forall|j: int| i <= j < self.rails@.len() ==> (#[trigger] self.rails@[j]).rail != rail,
            decreases i,
        {
            if self.rails[i - 1].rail == rail {
                let b = self.rails[i - 1];
                match b.amount.checked_add(amount) {
                    Some(total) => {
                        let ghost before = self.rails@;
                        self.rails.set(i - 1, RailBooking { rail, amount: total });
                        proof {
                            lemma_rail_booked_update(before, i - 1, RailBooking { rail, amount: total });
                            assert(self.rails@ == before.update(i - 1, RailBooking { rail, amount: total }));
                        }
                        return true;
                    },
                    None => {
                        proof {
                            lemma_rail_booked_update(self.rails@, i - 1, RailBooking { rail, amount: b.amount });
                        }
                        return false;
                    },
                }
            }
            i -= 1;
        }
        let ghost before = self.rails@;
        proof {
            lemma_rail_booked_absent(before, rail);
        }
        self.rails.push(RailBooking { rail, amount });
        proof {
            assert(self.rails@.drop_last() =~= before);
            lemma_rail_booked_absent(before, rail);
            assert(self.rails@.last() == RailBooking { rail, amount });
        }
        true
    }
}

/// The bookings of `s` whose departure is at or after `minute`, in order.
pub open spec fn slots_from(s: Seq<SlotBooking>, minute: u128) -> Seq<SlotBooking>
    decreases s.len(),
{
    if s.len() == 0 {
        s
    } else if s.last().minute >= minute {
        slots_from(s.drop_last(), minute).push(s.last())
    } else {
        slots_from(s.drop_last(), minute)
    }
}

proof fn lemma_slots_from(s: Seq<SlotBooking>, minute: u128, rail: usize, m: u128)
    ensures
        slot_booked(slots_from(s, minute), rail, m) == (if m >= minute {
            slot_booked(s, rail, m)
        } else {
            0
        }),
    decreases s.len(),
{
    if s.len() > 0 {
        lemma_slots_from(s.drop_last(), minute, rail, m);
        if s.last().minute >= minute {
            assert(slots_from(s, minute).drop_last() =~= slots_from(s.drop_last(), minute));
        }
    }
}

impl Reservations {
    /// Forget every departure booking before `minute`; rail bookings stay.
    pub fn retain_from(&mut self, minute: u128)
        ensures
            final(self).slots@ == slots_from(old(self).slots@, minute),
            final(self).rails@ == old(self).rails@,
            forall|rail: usize, m: u128|
                #[trigger] slot_booked(final(self).slots@, rail, m) == (if m >= minute {
                    slot_booked(old(self).slots@, rail, m)
                } else {
                    0
                }),
    {
        let mut kept: Vec<SlotBooking> = Vec::new();
        let mut i: usize = 0;
        while i < self.slots.len()
            invariant
                i <= self.slots@.len(),
                kept@ == slots_from(self.slots@.take(i as int), minute),
            decreases self.slots@.len() - i,
        {
            let b = self.slots[i];
            proof {
                assert(self.slots@.take(i + 1).drop_last() =~= self.slots@.take(i as int));
            }
            if b.minute >= minute {
                kept.push(b);
            }
            i += 1;
        }
        proof {
            assert(self.slots@.take(i as int) =~= self.slots@);
        }
        let ghost before = self.slots@;
        self.slots = kept;
        proof {
            assert forall|rail: usize, m: u128| #[trigger] slot_booked(self.slots@, rail, m) == (if m >= minute {
                slot_booked(before, rail, m)
            } else {
                0
            }) by {
                lemma_slots_from(before, minute, rail, m);
            }
        }
    }
}

pub proof fn lemma_slot_booked_bounds(s: Seq<SlotBooking>, rail: usize, minute: u128)
    ensures
        0 <= slot_booked(s, rail, minute) <= u128::MAX,
    decreases s.len(),
{
    if s.len() > 0 {
        lemma_slot_booked_bounds(s.drop_last(), rail, minute);
    }
}

pub proof fn lemma_slot_booked_absent(s: Seq<SlotBooking>, rail: usize, minute: u128)
    requires
        forall|j: int| 0 <= j < s.len() ==> !((#[trigger] s[j]).rail == rail && s[j].minute == minute),
    ensures
        slot_booked(s, rail, minute) == 0,
    decreases s.len(),
{
    if s.len() > 0 {
        lemma_slot_booked_absent(s.drop_last(), rail, minute);
    }
}

proof fn lemma_rail_booked_absent(s: Seq<RailBooking>, rail: usize)
    requires
        forall|j: int| 0 <= j < s.len() ==> (#[trigger] s[j]).rail != rail,
    ensures
        rail_booked(s, rail) == 0,
    decreases s.len(),
{
    if s.len() > 0 {
        lemma_rail_booked_absent(s.drop_last(), rail);
    }
}

/// Replacing the last entry of a key changes only that key's booking.
proof fn lemma_slot_booked_update(s: Seq<SlotBooking>, i: int, v: SlotBooking)
    requires
        0 <= i < s.len(),
        s[i].rail == v.rail && s[i].minute == v.minute,
        forall|j: int| i < j < s.len() ==> !((#[trigger] s[j]).rail == v.rail && s[j].minute == v.minute),
    ensures
        slot_booked(s, v.rail, v.minute) == s[i].amount,
        slot_booked(s.update(i, v), v.rail, v.minute) == v.amount,
        forall|r: usize, m: u128| !(r == v.rail && m == v.minute) ==> slot_booked(s.update(i, v), r, m) == slot_booked(s, r, m),
    decreases s.len(),
{
    let t = s.update(i, v);
    if s.len() - 1 != i {
        assert(t.drop_last() =~= s.drop_last().update(i, v));
        lemma_slot_booked_update(s.drop_last(), i, v);
        assert(t.last() == s.last());
        assert forall|r: usize, m: u128| !(r == v.rail && m == v.minute) implies slot_booked(t, r, m) == slot_booked(s, r, m) by {
            if s.last().rail == r && s.last().minute == m {
            } else {
                assert(slot_booked(t.drop_last(), r, m) == slot_booked(s.drop_last(), r, m));
            }
        }
    } else {
        assert(t.drop_last() =~= s.drop_last());
        assert(t.last() == v);
    }
}

proof fn lemma_rail_booked_update(s: Seq<RailBooking>, i: int, v: RailBooking)
    requires
        0 <= i < s.len(),
        s[i].rail == v.rail,
        forall|j: int| i < j < s.len() ==> (#[trigger] s[j]).rail != v.rail,
    ensures
        rail_booked(s, v.rail) == s[i].amount,
        rail_booked(s.update(i, v), v.rail) == v.amount,
        forall|r: usize| r != v.rail ==> rail_booked(s.update(i, v), r) == rail_booked(s, r),
    decreases s.len(),
{
    let t = s.update(i, v);
    if s.len() - 1 != i {
        assert(t.drop_last() =~= s.drop_last().update(i, v));
        lemma_rail_booked_update(s.drop_last(), i, v);
        assert(t.last() == s.last());
        assert forall|r: usize| r != v.rail implies rail_booked(t, r) == rail_booked(s, r) by {
            if s.last().rail == r {
            } else {
                assert(rail_booked(t.drop_last(), r) == rail_booked(s.drop_last(), r));
            }
        }
    } else {
        assert(t.drop_last() =~= s.drop_last());
        assert(t.last() == v);
    }
}


// ---------------------------------------------------------------------------
// The bounded label-setting router.

#[derive(Debug, Clone, Copy, PartialEq, Eq, PartialOrd, Ord)]
pub struct Step {
    pub rail: usize,
    pub from: usize,
    pub to: usize,
    pub departure: u128,
    pub arrival: u128,
    pub fee: u64,
}

#[derive(Debug, Clone, PartialEq, Eq, PartialOrd, Ord)]
pub struct Journey {
    pub steps: Vec<Step>,
    pub fee: u128,
}

#[derive(Debug, Clone, Copy, PartialEq, Eq)]
pub struct Slot {
    pub departure: u128,
    pub arrival: u128,
    pub fee: u64,
    pub capacity: Option<u64>,
}

#[derive(Debug, Clone, PartialEq, Eq)]
pub enum Calendar {
    Finite(Vec<Vec<Slot>>),
    Recurring(Vec<RailService>),
}

/// Institutions and rails in identifier order, members and outgoing rails by index.
#[derive(Debug, Clone, PartialEq, Eq)]
pub struct Router {
    pub nodes: Vec<String>,
    pub rails: Vec<Rail>,
    pub members: Vec<Vec<usize>>,
    pub outgoing: Vec<Vec<usize>>,
    pub calendar: Calendar,
}

pub struct Label {
    pub node: usize,
    pub ready: u128,
    pub journey: Journey,
    pub visited: Vec<usize>,
}

#[derive(Clone, Copy)]
pub struct QueueEntry {
    pub fee: u128,
    pub ready: u128,
    pub hops: usize,
    pub index: usize,
}

/// One decision in a shared residual calendar. Earlier commitments remain fixed.
pub struct Request<'a> {
    pub payment: &'a Payment,
    pub release: u128,
    pub deadline: u128,
}

pub open spec fn steps_fee(steps: Seq<Step>) -> int
    decreases steps.len(),
{
    if steps.len() == 0 {
        0
    } else {
        steps_fee(steps.drop_last()) + steps.last().fee
    }
}

pub open spec fn path_nodes(steps: Seq<Step>, source: usize) -> Seq<usize> {
    seq![source] + steps.map_values(|s: Step| s.to)
}

pub open spec fn rail_carries(r: Rail, amount: u64) -> bool {
    &&& r.available
    &&& r.max_amount_cents matches Some(c) ==> amount <= c
    &&& r.batch_capacity_cents matches Some(c) ==> amount <= c
}

impl Router {
    pub open spec fn wf(&self) -> bool {
        &&& self.members@.len() == self.rails@.len()
        &&& self.outgoing@.len() == self.nodes@.len()
        &&& forall|r: int, k: int|
            0 <= r < self.members@.len() && 0 <= k < self.members@[r]@.len() ==> #[trigger] self.members@[r]@[k]
                < self.nodes@.len()
        &&& forall|n: int, k: int|
            0 <= n < self.outgoing@.len() && 0 <= k < self.outgoing@[n]@.len() ==> #[trigger] self.outgoing@[n]@[k]
                < self.rails@.len() && self.members@[self.outgoing@[n]@[k] as int]@.contains(n as usize)
        &&& match self.calendar {
            Calendar::Finite(slots) => slots@.len() == self.rails@.len() && forall|r: int, k: int|
                0 <= r < slots@.len() && 0 <= k < slots@[r]@.len() ==> (#[trigger] slots@[r]@[k]).departure
                    <= slots@[r]@[k].arrival,
            Calendar::Recurring(services) => services@.len() == self.rails@.len() && forall|r: int|
                0 <= r < services@.len() ==> (#[trigger] services@[r]).period_minutes > 0,
        }
    }

    /// A hop the router can offer: a member-to-member transfer on a rail that
    /// carries the amount, arriving no earlier than it departs.
    pub open spec fn hop_ok(&self, s: Step, amount: u64) -> bool {
        &&& s.rail < self.rails@.len()
        &&& rail_carries(self.rails@[s.rail as int], amount)
        &&& self.members@[s.rail as int]@.contains(s.from)
        &&& self.members@[s.rail as int]@.contains(s.to)
        &&& s.departure <= s.arrival
    }

    /// Consecutive hops from `source`, none departing before the previous arrival
    /// (or before `release`).
    pub open spec fn chain(&self, steps: Seq<Step>, source: usize, release: u128, amount: u64) -> bool {
        forall|i: int|
            0 <= i < steps.len() ==> self.hop_ok(#[trigger] steps[i], amount) && (if i == 0 {
                steps[0].from == source && steps[0].departure >= release
            } else {
                steps[i].from == steps[i - 1].to && steps[i].departure >= steps[i - 1].arrival
            })
    }

    /// A complete, simple, timely journey from `source` to `target`.
    pub open spec fn journey_ok(
        &self,
        j: Journey,
        source: usize,
        target: usize,
        release: u128,
        deadline: u128,
        amount: u64,
    ) -> bool {
        &&& j.steps@.len() > 0
        &&& self.chain(j.steps@, source, release, amount)
        &&& j.steps@.last().to == target
        &&& j.steps@.last().arrival <= deadline
        &&& j.fee == steps_fee(j.steps@)
        &&& path_nodes(j.steps@, source).no_duplicates()
    }

    pub open spec fn label_ok(&self, l: Label, source: usize, release: u128, amount: u64) -> bool {
        let steps = l.journey.steps@;
        &&& self.chain(steps, source, release, amount)
        &&& l.journey.fee == steps_fee(steps)
        &&& l.visited@ == path_nodes(steps, source)
        &&& l.visited@.no_duplicates()
        &&& forall|k: int| 0 <= k < l.visited@.len() ==> #[trigger] l.visited@[k] < self.nodes@.len()
        &&& l.node == l.visited@.last()
        &&& l.ready == (if steps.len() == 0 {
            release
        } else {
            steps.last().arrival
        })
    }
}

proof fn lemma_distinct_below(s: Seq<usize>, n: int)
    requires
        s.no_duplicates(),
        forall|k: int| 0 <= k < s.len() ==> #[trigger] s[k] < n,
        n >= 0,
    ensures
        s.len() <= n,
{
    let b = Seq::new(n as nat, |i: int| i as usize);
    s.unique_seq_to_set();
    b.lemma_cardinality_of_set();
    assert forall|x: usize| s.to_set().contains(x) implies b.to_set().contains(x) by {
        let k = choose|k: int| 0 <= k < s.len() && s[k] == x;
        assert(b[x as int] == x);
    }
    assert(s.to_set().subset_of(b.to_set()));
    vstd::set_lib::lemma_len_subset(s.to_set(), b.to_set());
}

proof fn lemma_steps_fee_bound(steps: Seq<Step>)
    ensures
        0 <= steps_fee(steps) <= steps.len() * 0xffff_ffff_ffff_ffff,
    decreases steps.len(),
{
    if steps.len() > 0 {
        lemma_steps_fee_bound(steps.drop_last());
    }
}

pub fn copy_journey(j: &Journey) -> (r: Journey)
    ensures
        r.steps@ == j.steps@,
        r.fee == j.fee,
{
    let mut steps: Vec<Step> = Vec::new();
    let mut i: usize = 0;
    while i < j.steps.len()
        invariant
            i <= j.steps.len(),
            steps@ == j.steps@.take(i as int),
        decreases j.steps.len() - i,
    {
        steps.push(j.steps[i]);
        assert(j.steps@.take(i + 1) =~= j.steps@.take(i as int).push(j.steps@[i as int]));
        i += 1;
    }
    assert(j.steps@.take(i as int) =~= j.steps@);
    Journey { steps, fee: j.fee }
}

fn copy_usizes(v: &Vec<usize>) -> (r: Vec<usize>)
    ensures
        r@ == v@,
{
    let mut r: Vec<usize> = Vec::new();
    let mut i: usize = 0;
    while i < v.len()
        invariant
            i <= v.len(),
            r@ == v@.take(i as int),
        decreases v.len() - i,
    {
        r.push(v[i]);
        assert(v@.take(i + 1) =~= v@.take(i as int).push(v@[i as int]));
        i += 1;
    }
    assert(v@.take(i as int) =~= v@);
    r
}

fn copy_label(l: &Label) -> (r: Label)
    ensures
        r.node == l.node,
        r.ready == l.ready,
        r.journey.steps@ == l.journey.steps@,
        r.journey.fee == l.journey.fee,
        r.visited@ == l.visited@,
{
    Label {
        node: l.node,
        ready: l.ready,
        journey: copy_journey(&l.journey),
        visited: copy_usizes(&l.visited),
    }
}

fn contains_usize(v: &Vec<usize>, x: usize) -> (r: bool)
    ensures
        r == v@.contains(x),
{
    let mut i: usize = 0;
    while i < v.len()
        invariant
            i <= v.len(),
            forall|k: int| 0 <= k < i ==> v@[k] != x,
        decreases v.len() - i,
    {
        if v[i] == x {
            return true;
        }
        i += 1;
    }
    false
}

fn position_of(v: &Vec<String>, id: &String) -> (r: Option<usize>)
    ensures
        r matches Some(i) ==> i < v@.len() && v@[i as int]@ == id@,
        r is None ==> !texts(v@).contains(id@),
{
    let mut i: usize = 0;
    while i < v.len()
        invariant
            i <= v.len(),
            forall|k: int| 0 <= k < i ==> v@[k]@ != id@,
        decreases v.len() - i,
    {
        if same_text(&v[i], id) {
            return Some(i);
        }
        i += 1;
    }
    proof {
        if texts(v@).contains(id@) {
            let k = choose|k: int| 0 <= k < texts(v@).len() && #[trigger] texts(v@)[k] == id@;
            assert(v@[k]@ == id@);
        }
    }
    None
}

/// Number of steps of `steps` on rail `rail`.
pub open spec fn count_rail(steps: Seq<Step>, rail: usize) -> int
    decreases steps.len(),
{
    if steps.len() == 0 {
        0
    } else {
        count_rail(steps.drop_last(), rail) + if steps.last().rail == rail { 1int } else { 0int }
    }
}

/// Number of steps of `steps` on rail `rail` departing at `minute`.
pub open spec fn count_slot(steps: Seq<Step>, rail: usize, minute: u128) -> int
    decreases steps.len(),
{
    if steps.len() == 0 {
        0
    } else {
        count_slot(steps.drop_last(), rail, minute) + if steps.last().rail == rail
            && steps.last().departure == minute { 1int } else { 0int }
    }
}

fn count_steps(steps: &Vec<Step>, rail: usize, minute: Option<u128>) -> (r: usize)
    ensures
        minute is None ==> r == count_rail(steps@, rail),
        minute matches Some(m) ==> r == count_slot(steps@, rail, m),
        r <= steps@.len(),
{
    let mut c: usize = 0;
    let mut i: usize = 0;
    while i < steps.len()
        invariant
            i <= steps.len(),
            c <= i,
            minute is None ==> c == count_rail(steps@.take(i as int), rail),
            minute matches Some(m) ==> c == count_slot(steps@.take(i as int), rail, m),
        decreases steps.len() - i,
    {
        assert(steps@.take(i + 1).drop_last() =~= steps@.take(i as int));
        let s = steps[i];
        let hit = match minute {
            None => s.rail == rail,
            Some(m) => s.rail == rail && s.departure == m,
        };
        if hit {
            c += 1;
        }
        i += 1;
    }
    assert(steps@.take(i as int) =~= steps@);
    c
}

proof fn lemma_booked_bounds(slots: Seq<SlotBooking>, rails: Seq<RailBooking>, rail: usize, minute: u128)
    ensures
        0 <= slot_booked(slots, rail, minute) <= u128::MAX,
        0 <= rail_booked(rails, rail) <= u128::MAX,
    decreases slots.len() + rails.len(),
{
    if slots.len() > 0 {
        lemma_booked_bounds(slots.drop_last(), rails, rail, minute);
    }
    if rails.len() > 0 {
        lemma_booked_bounds(slots, rails.drop_last(), rail, minute);
    }
}

proof fn lemma_times_next(a: int, c: int)
    ensures
        a * (c + 1) == a * c + a,
{
    assert(a * (c + 1) == a * c + a) by (nonlinear_arith);
}

proof fn lemma_times_le(a: int, c: int, d: int)
    requires
        0 <= a,
        c <= d,
    ensures
        a * c <= a * d,
{
    assert(a * c <= a * d) by (nonlinear_arith)
        requires 0 <= a, c <= d;
}

/// A prefix of a step sequence uses each rail and departure no more often than the whole.
proof fn lemma_count_prefix(steps: Seq<Step>, j: int, rail: usize, minute: u128)
    requires
        0 <= j <= steps.len(),
    ensures
        count_slot(steps.take(j), rail, minute) <= count_slot(steps, rail, minute),
        count_rail(steps.take(j), rail) <= count_rail(steps, rail),
    decreases steps.len(),
{
    if j == steps.len() {
        assert(steps.take(j) =~= steps);
    } else {
        assert(steps.take(j) =~= steps.drop_last().take(j));
        lemma_count_prefix(steps.drop_last(), j, rail, minute);
    }
}

impl Router {
    /// Every limited resource that `steps` uses still has room, after the
    /// bookings of `book`, for `amount` on each of its hops.
    pub open spec fn books_fit(&self, book: Reservations, steps: Seq<Step>, amount: u64) -> bool {
        forall|k: int| 0 <= k < steps.len() ==> {
            let s = #[trigger] steps[k];
            &&& (self.rails@[s.rail as int].batch_capacity_cents matches Some(c) ==> rail_booked(book.rails@, s.rail)
                + amount * count_rail(steps, s.rail) <= c)
            &&& (self.slot_cap(s.rail, s.departure) matches Some(c) ==> slot_booked(book.slots@, s.rail, s.departure)
                + amount * count_slot(steps, s.rail, s.departure) <= c)
        }
    }
}

proof fn lemma_books_fit_extend(router: Router, book: Reservations, steps: Seq<Step>, s: Step, slot: Slot, amount: u64)
    requires
        router.books_fit(book, steps, amount),
        s.rail < router.rails@.len(),
        fits_spec(router, book, steps, s.rail, slot, amount),
        slot.capacity == router.slot_cap(s.rail, slot.departure),
        s.departure == slot.departure,
    ensures
        router.books_fit(book, steps.push(s), amount),
{
    let t = steps.push(s);
    assert(t.drop_last() =~= steps);
    assert forall|k: int| 0 <= k < t.len() implies {
        let x = #[trigger] t[k];
        &&& (router.rails@[x.rail as int].batch_capacity_cents matches Some(c) ==> rail_booked(book.rails@, x.rail)
            + amount * count_rail(t, x.rail) <= c)
        &&& (router.slot_cap(x.rail, x.departure) matches Some(c) ==> slot_booked(book.slots@, x.rail, x.departure)
            + amount * count_slot(t, x.rail, x.departure) <= c)
    } by {
        let x = t[k];
        if k < steps.len() {
            assert(x == steps[k]);
        }
    }
}

/// A departure fits when both the rail's batch budget and the slot budget still
/// admit one more principal for every same-rail (same-slot) hop of the path.
pub open spec fn fits_spec(router: Router, book: Reservations, steps: Seq<Step>, rail: usize, slot: Slot, amount: u64) -> bool {
    &&& router.rails@[rail as int].batch_capacity_cents matches Some(c) ==> rail_booked(book.rails@, rail)
        + amount * (count_rail(steps, rail) + 1) <= c
    &&& slot.capacity matches Some(c) ==> slot_booked(book.slots@, rail, slot.departure) + amount * (
        count_slot(steps, rail, slot.departure) + 1) <= c
}

/// The capacity of the first departure of `group` at `minute`; none when there is none.
pub open spec fn first_capacity(group: Seq<Slot>, minute: u128) -> Option<u64>
    decreases group.len(),
{
    if group.len() == 0 {
        None
    } else if group[0].departure == minute {
        group[0].capacity
    } else {
        first_capacity(group.skip(1), minute)
    }
}

impl Router {
    /// The principal limit of one departure of a rail, if it has one.
    pub open spec fn slot_cap(&self, rail: usize, minute: u128) -> Option<u64> {
        match self.calendar {
            Calendar::Recurring(services) => services@[rail as int].capacity_per_minute_cents,
            Calendar::Finite(slots) => first_capacity(slots@[rail as int]@, minute),
        }
    }

    /// What a departure booking holds once `amount` is booked for each hop of
    /// `steps` on it, where that departure is limited.
    pub open spec fn slot_after(&self, book: Reservations, steps: Seq<Step>, amount: u64, rail: usize, minute: u128) -> int {
        slot_booked(book.slots@, rail, minute) + if self.slot_cap(rail, minute) is Some {
            amount * count_slot(steps, rail, minute)
        } else {
            0
        }
    }

    /// What a rail booking holds once `amount` is booked for each hop of
    /// `steps` on it, where the rail has a batch budget.
    pub open spec fn rail_after(&self, book: Reservations, steps: Seq<Step>, amount: u64, rail: usize) -> int {
        rail_booked(book.rails@, rail) + if rail < self.rails@.len()
            && self.rails@[rail as int].batch_capacity_cents is Some {
            amount * count_rail(steps, rail)
        } else {
            0
        }
    }

    /// Every booking that a journey adds to still fits in a `u128`.
    pub open spec fn reservable(&self, book: Reservations, steps: Seq<Step>, amount: u64) -> bool {
        &&& forall|r: usize, m: u128| #[trigger] self.slot_after(book, steps, amount, r, m) <= u128::MAX
        &&& forall|r: usize| #[trigger] self.rail_after(book, steps, amount, r) <= u128::MAX
    }

    fn fits(&self, book: &Reservations, path: &Journey, rail: usize, slot: &Slot, amount: u64) -> (r: bool)
        requires
            rail < self.rails@.len(),
        ensures
            r == fits_spec(*self, *book, path.steps@, rail, *slot, amount),
    {
        let a = amount as u128;
        let same_rail = count_steps(&path.steps, rail, None) as u128;
        let same_slot = count_steps(&path.steps, rail, Some(slot.departure)) as u128;
        assert(a * (same_rail + 1) <= 0xffff_ffff_ffff_ffff * 0x1_0000_0000_0000_0000) by (nonlinear_arith)
            requires a <= 0xffff_ffff_ffff_ffff, same_rail + 1 <= 0x1_0000_0000_0000_0000;
        assert(a * (same_slot + 1) <= 0xffff_ffff_ffff_ffff * 0x1_0000_0000_0000_0000) by (nonlinear_arith)
            requires a <= 0xffff_ffff_ffff_ffff, same_slot + 1 <= 0x1_0000_0000_0000_0000;
        let rail_ok = match self.rails[rail].batch_capacity_cents {
            None => true,
            Some(c) => {
                let used = book.rail_used(rail);
                let need = a * (same_rail + 1);
                used <= c as u128 && need <= c as u128 - used
            },
        };
        let slot_ok = match slot.capacity {
            None => true,
            Some(c) => {
                let used = book.slot_used(rail, slot.departure);
                let need = a * (same_slot + 1);
                used <= c as u128 && need <= c as u128 - used
            },
        };
        rail_ok && slot_ok
    }

    fn slot_capacity(&self, rail: usize, minute: u128) -> (r: Option<u64>)
        requires
            self.wf(),
            rail < self.rails@.len(),
        ensures
            r == self.slot_cap(rail, minute),
    {
        match &self.calendar {
            Calendar::Recurring(services) => services[rail].capacity_per_minute_cents,
            Calendar::Finite(slots) => {
                let group = &slots[rail];
                let mut i: usize = 0;
                assert(group@.skip(0) =~= group@);
                assert(self.slot_cap(rail, minute) == first_capacity(group@, minute));
                while i < group.len()
                    invariant
                        i <= group@.len(),
                        self.slot_cap(rail, minute) == first_capacity(group@.skip(i as int), minute),
                    decreases group@.len() - i,
                {
                    assert(group@.skip(i as int)[0] == group@[i as int]);
                    if group[i].departure == minute {
                        assert(first_capacity(group@.skip(i as int), minute) == group@[i as int].capacity);
                        return group[i].capacity;
                    }
                    assert(group@.skip(i as int).skip(1) =~= group@.skip(i + 1));
                    i += 1;
                }
                None
            },
        }
    }

    /// One hop of `a` uses its limited rail and departure no more often in `a` than in `b`.
    pub open spec fn step_no_more(&self, a: Seq<Step>, b: Seq<Step>, s: Step) -> bool {
        &&& self.rails@[s.rail as int].batch_capacity_cents is Some ==> count_rail(a, s.rail) <= count_rail(b, s.rail)
        &&& self.slot_cap(s.rail, s.departure) is Some ==> count_slot(a, s.rail, s.departure)
            <= count_slot(b, s.rail, s.departure)
    }

    /// Label `a` makes `b` redundant: no later, no dearer, no longer, visiting a
    /// subset of its institutions, using no more of any limited resource, and
    /// ahead of it in fee, length or step order.
    pub open spec fn dominates_spec(&self, a: Label, b: Label) -> bool {
        &&& a.ready <= b.ready
        &&& a.journey.fee <= b.journey.fee
        &&& a.journey.steps@.len() <= b.journey.steps@.len()
        &&& forall|k: int| 0 <= k < a.visited@.len() ==> b.visited@.contains(#[trigger] a.visited@[k])
        &&& forall|j: int| 0 <= j < a.journey.steps@.len() ==> self.step_no_more(
            a.journey.steps@,
            b.journey.steps@,
            #[trigger] a.journey.steps@[j],
        )
        &&& (a.journey.fee < b.journey.fee || a.journey.steps@.len() < b.journey.steps@.len() || steps_lex_le(
            a.journey.steps@,
            b.journey.steps@,
        ))
    }

    /// Dominance keeps the freedom to reproduce every suffix: earlier, cheaper,
    /// shorter, visiting a subset, and using no more of any limited resource.
    fn dominates(&self, a: &Label, b: &Label) -> (r: bool)
        requires
            self.wf(),
            forall|i: int| 0 <= i < a.journey.steps@.len() ==> (#[trigger] a.journey.steps@[i]).rail < self.rails@.len(),
        ensures
            r == self.dominates_spec(*a, *b),
    {
        if a.ready > b.ready || a.journey.fee > b.journey.fee || a.journey.steps.len()
            > b.journey.steps.len() {
            return false;
        }
        let mut i: usize = 0;
        while i < a.visited.len()
            invariant
                i <= a.visited@.len(),
                forall|k: int| 0 <= k < i ==> b.visited@.contains(#[trigger] a.visited@[k]),
            decreases a.visited@.len() - i,
        {
            if !contains_usize(&b.visited, a.visited[i]) {
                return false;
            }
            i += 1;
        }
        let mut k: usize = 0;
        while k < a.journey.steps.len()
            invariant
                self.wf(),
                k <= a.journey.steps@.len(),
                forall|i: int| 0 <= i < a.journey.steps@.len() ==> (#[trigger] a.journey.steps@[i]).rail < self.rails@.len(),
                forall|j: int| 0 <= j < k ==> self.step_no_more(a.journey.steps@, b.journey.steps@, #[trigger] a.journey.steps@[j]),
            decreases a.journey.steps@.len() - k,
        {
            let s = a.journey.steps[k];
            if self.rails[s.rail].batch_capacity_cents.is_some() && count_steps(
                &a.journey.steps,
                s.rail,
                None,
            ) > count_steps(&b.journey.steps, s.rail, None) {
                return false;
            }
            if self.slot_capacity(s.rail, s.departure).is_some() && count_steps(
                &a.journey.steps,
                s.rail,
                Some(s.departure),
            ) > count_steps(&b.journey.steps, s.rail, Some(s.departure)) {
                return false;
            }
            k += 1;
        }
        // Preserve lexical ties; earlier ready time can disappear in a wait.
        a.journey.fee < b.journey.fee || a.journey.steps.len() < b.journey.steps.len()
            || steps_le(&a.journey.steps, &b.journey.steps)
    }
}

/// `a` before `b`, fields compared in declaration order.
pub open spec fn step_less(a: Step, b: Step) -> bool {
    if a.rail != b.rail {
        a.rail < b.rail
    } else if a.from != b.from {
        a.from < b.from
    } else if a.to != b.to {
        a.to < b.to
    } else if a.departure != b.departure {
        a.departure < b.departure
    } else if a.arrival != b.arrival {
        a.arrival < b.arrival
    } else {
        a.fee < b.fee
    }
}

/// Lexicographic `a <= b` over step sequences.
pub open spec fn steps_lex_le(a: Seq<Step>, b: Seq<Step>) -> bool
    decreases a.len(),
{
    if a.len() == 0 || b.len() == 0 {
        a.len() <= b.len()
    } else if a[0] != b[0] {
        step_less(a[0], b[0])
    } else {
        steps_lex_le(a.skip(1), b.skip(1))
    }
}

/// `a` ranks before `b`: fee, final arrival, hop count, then the steps.
pub open spec fn journey_ranks_before(a: Journey, b: Journey) -> bool {
    let x = a.steps@.last().arrival;
    let y = b.steps@.last().arrival;
    if a.fee != b.fee {
        a.fee < b.fee
    } else if x != y {
        x < y
    } else if a.steps@.len() != b.steps@.len() {
        a.steps@.len() < b.steps@.len()
    } else {
        steps_lex_le(a.steps@, b.steps@) && !steps_lex_le(b.steps@, a.steps@)
    }
}

/// Queue order: fee, ready time, hop count, then label index.
pub open spec fn entry_less(a: QueueEntry, b: QueueEntry) -> bool {
    a.fee < b.fee || (a.fee == b.fee && (a.ready < b.ready || (a.ready == b.ready && (a.hops < b.hops || (
    a.hops == b.hops && a.index < b.index)))))
}

/// Minutes from `ready` to the next open minute of a recurring window.
pub open spec fn window_wait(service: RailService, ready: u128) -> int {
    let period = service.period_minutes as int;
    let offset = service.offset_minutes as int;
    let phase = ready as int % period;
    if phase < offset {
        offset - phase
    } else if phase >= offset + service.open_minutes {
        period - phase + offset
    } else {
        0
    }
}

/// The members of a group other than `target`, in order.
pub open spec fn others(group: Seq<usize>, target: usize) -> Seq<usize>
    decreases group.len(),
{
    if group.len() == 0 {
        seq![]
    } else if group.last() == target {
        others(group.drop_last(), target)
    } else {
        others(group.drop_last(), target).push(group.last())
    }
}

/// `target` first when it is a member, then the other members in order.
pub open spec fn target_first(group: Seq<usize>, target: usize) -> Seq<usize> {
    (if group.contains(target) { seq![target] } else { seq![] }) + others(group, target)
}

fn compare_steps(a: &Step, b: &Step) -> (r: i8)
    ensures
        -1 <= r <= 1,
        r == 0 <==> a == b,
        r < 0 <==> step_less(*a, *b),
{
    if a.rail != b.rail {
        return if a.rail < b.rail { -1 } else { 1 };
    }
    if a.from != b.from {
        return if a.from < b.from { -1 } else { 1 };
    }
    if a.to != b.to {
        return if a.to < b.to { -1 } else { 1 };
    }
    if a.departure != b.departure {
        return if a.departure < b.departure { -1 } else { 1 };
    }
    if a.arrival != b.arrival {
        return if a.arrival < b.arrival { -1 } else { 1 };
    }
    if a.fee != b.fee {
        return if a.fee < b.fee { -1 } else { 1 };
    }
    0
}

/// Lexicographic `a <= b` over step sequences, fields compared in declaration order.
fn steps_le(a: &Vec<Step>, b: &Vec<Step>) -> (r: bool)
    ensures
        r == steps_lex_le(a@, b@),
{
    let mut i: usize = 0;
    assert(a@.skip(0) =~= a@);
    assert(b@.skip(0) =~= b@);
    while i < a.len() && i < b.len()
        invariant
            i <= a@.len(),
            i <= b@.len(),
            steps_lex_le(a@, b@) == steps_lex_le(a@.skip(i as int), b@.skip(i as int)),
        decreases a@.len() - i,
    {
        assert(a@.skip(i as int)[0] == a@[i as int]);
        assert(b@.skip(i as int)[0] == b@[i as int]);
        let c = compare_steps(&a[i], &b[i]);
        if c != 0 {
            return c < 0;
        }
        assert(a@.skip(i as int).skip(1) =~= a@.skip(i + 1));
        assert(b@.skip(i as int).skip(1) =~= b@.skip(i + 1));
        i += 1;
    }
    a.len() <= b.len()
}

/// Position of the smallest entry by (fee, ready, hops, index).
fn min_entry(heap: &Vec<QueueEntry>) -> (r: usize)
    requires
        heap@.len() > 0,
    ensures
        r < heap@.len(),
        forall|k: int| 0 <= k < heap@.len() ==> !entry_less(#[trigger] heap@[k], heap@[r as int]),
        forall|k: int| 0 <= k < r ==> entry_less(heap@[r as int], #[trigger] heap@[k]),
{
    let mut best: usize = 0;
    let mut i: usize = 1;
    while i < heap.len()
        invariant
            best < i <= heap@.len(),
            1 <= i <= heap@.len(),
            forall|k: int| 0 <= k < i ==> !entry_less(#[trigger] heap@[k], heap@[best as int]),
            forall|k: int| 0 <= k < best ==> entry_less(heap@[best as int], #[trigger] heap@[k]),
        decreases heap@.len() - i,
    {
        let a = heap[i];
        let b = heap[best];
        let less = a.fee < b.fee || (a.fee == b.fee && (a.ready < b.ready || (a.ready == b.ready && (
        a.hops < b.hops || (a.hops == b.hops && a.index < b.index)))));
        if less {
            best = i;
        }
        i += 1;
    }
    best
}


/// `a` ranks before `b`: fee, final arrival, hop count, then the steps.
fn journey_less(a: &Journey, b: &Journey) -> (r: bool)
    requires
        a.steps@.len() > 0,
        b.steps@.len() > 0,
    ensures
        r == journey_ranks_before(*a, *b),
{
    let x = a.steps[a.steps.len() - 1].arrival;
    let y = b.steps[b.steps.len() - 1].arrival;
    if a.fee != b.fee {
        return a.fee < b.fee;
    }
    if x != y {
        return x < y;
    }
    if a.steps.len() != b.steps.len() {
        return a.steps.len() < b.steps.len();
    }
    steps_le(&a.steps, &b.steps) && !steps_le(&b.steps, &a.steps)
}

/// The departure of a recurring window at or after `ready`.
fn next_window(service: &RailService, ready: u128) -> (r: Option<u128>)
    requires
        service.period_minutes > 0,
    ensures
        r matches Some(d) ==> d >= ready,
        r == (if ready + window_wait(*service, ready) <= u128::MAX {
            Some((ready + window_wait(*service, ready)) as u128)
        } else {
            None::<u128>
        }),
{
    let period = service.period_minutes as u128;
    let offset = service.offset_minutes as u128;
    let phase = ready % period;
    let open_end = offset + service.open_minutes as u128;
    let wait = if phase < offset {
        offset - phase
    } else if phase >= open_end {
        period - phase + offset
    } else {
        0
    };
    ready.checked_add(wait)
}

fn members_without(group: &Vec<usize>, target: usize) -> (r: Vec<usize>)
    ensures
        r@ == target_first(group@, target),
        forall|k: int| 0 <= k < r@.len() ==> group@.contains(#[trigger] r@[k]),
{
    let mut r: Vec<usize> = Vec::new();
    if contains_usize(group, target) {
        r.push(target);
    }
    let ghost head = r@;
    assert(group@.take(0) =~= Seq::<usize>::empty());
    assert(r@ =~= head + others(group@.take(0), target));
    let mut i: usize = 0;
    while i < group.len()
        invariant
            i <= group@.len(),
            head == (if group@.contains(target) { seq![target] } else { Seq::<usize>::empty() }),
            r@ == head + others(group@.take(i as int), target),
            forall|k: int| 0 <= k < r@.len() ==> group@.contains(#[trigger] r@[k]),
        decreases group@.len() - i,
    {
        assert(group@.take(i + 1).drop_last() =~= group@.take(i as int));
        assert(group@.take(i + 1).last() == group@[i as int]);
        if group[i] != target {
            r.push(group[i]);
            assert(group@[i as int] == r@.last());
        }
        assert(r@ =~= head + others(group@.take(i + 1), target));
        i += 1;
    }
    assert(group@.take(i as int) =~= group@);
    r
}

#[verifier::spinoff_prover]
#[verifier::rlimit(40)]
proof fn lemma_extend_chain(
    router: Router,
    steps: Seq<Step>,
    source: usize,
    release: u128,
    amount: u64,
    visited: Seq<usize>,
    ready: u128,
    s: Step,
)
    requires
        router.chain(steps, source, release, amount),
        visited == path_nodes(steps, source),
        s.from == visited.last(),
        ready == (if steps.len() == 0 { release } else { steps.last().arrival }),
        router.hop_ok(s, amount),
        s.departure >= ready,
    ensures
        router.chain(steps.push(s), source, release, amount),
{
    let t = steps.push(s);
    assert forall|i: int| 0 <= i < t.len() implies router.hop_ok(#[trigger] t[i], amount) && (if i == 0 {
        t[0].from == source && t[0].departure >= release
    } else {
        t[i].from == t[i - 1].to && t[i].departure >= t[i - 1].arrival
    }) by {
        if i < steps.len() {
            assert(t[i] == steps[i]);
            assert(router.hop_ok(steps[i], amount));
            if i > 0 {
                assert(t[i - 1] == steps[i - 1]);
            }
        } else if i > 0 {
            assert(t[i - 1] == steps.last());
            assert(visited.last() == path_nodes(steps, source)[steps.len() as int]);
        } else {
            assert(visited.last() == source);
        }
    }
}

proof fn lemma_extend_visited(steps: Seq<Step>, source: usize, visited: Seq<usize>, n: int, s: Step)
    requires
        visited == path_nodes(steps, source),
        visited.no_duplicates(),
        forall|k: int| 0 <= k < visited.len() ==> #[trigger] visited[k] < n,
        n >= 0,
        !visited.contains(s.to),
        s.to < n,
    ensures
        visited.push(s.to) == path_nodes(steps.push(s), source),
        visited.push(s.to).no_duplicates(),
        forall|k: int| 0 <= k < visited.push(s.to).len() ==> #[trigger] visited.push(s.to)[k] < n,
        steps_fee(steps.push(s)) == steps_fee(steps) + s.fee,
        visited.len() <= n,
{
    let t = steps.push(s);
    assert(t.drop_last() =~= steps);
    assert(visited.push(s.to) =~= path_nodes(t, source));
    let v2 = visited.push(s.to);
    assert forall|a: int, b: int| 0 <= a < v2.len() && 0 <= b < v2.len() && a != b implies v2[a] != v2[b] by {
        if a < visited.len() && b < visited.len() {
        } else if a < visited.len() {
            assert(v2[a] == visited[a]);
        } else if b < visited.len() {
            assert(v2[b] == visited[b]);
        }
    }
    lemma_distinct_below(visited, n);
}

impl Router {
    /// Bounded label-setting search for one payment over the residual calendar.
    /// A returned journey is a simple, timely chain of available hops from the
    /// sender to the receiver; `None` is unresolved, not infeasible.
    #[verifier::rlimit(80)]
    pub fn find(
        &self,
        payment: &Payment,
        release: u128,
        deadline: u128,
        book: &Reservations,
        limits: SearchLimits,
    ) -> (r: (Option<Journey>, SearchDiagnostics))
        requires
            self.wf(),
            limits.positive(),
        ensures
            r.0 matches Some(j) ==> exists|src: usize, tgt: usize|
                src < self.nodes@.len() && tgt < self.nodes@.len() && self.nodes@[src as int]@
                    == payment.sender@ && self.nodes@[tgt as int]@ == payment.receiver@ && self.journey_ok(
                    j,
                    src,
                    tgt,
                    release,
                    deadline,
                    payment.amount_cents,
                ),
            r.0 matches Some(j) ==> self.books_fit(*book, j.steps@, payment.amount_cents),
            r.1.searches == 1,
            r.1.unresolved == (if r.0 is None { 1u128 } else { 0u128 }),
            r.1.truncated_searches <= 1,
            r.1.expansions <= limits.max_expansions,
            r.1.repair_trials == 0,
    {
        let mut stats = SearchDiagnostics::zero();
        stats.searches = 1;
        let src = match position_of(&self.nodes, &payment.sender) {
            Some(i) => i,
            None => {
                stats.unresolved = 1;
                return (None, stats);
            },
        };
        let tgt = match position_of(&self.nodes, &payment.receiver) {
            Some(i) => i,
            None => {
                stats.unresolved = 1;
                return (None, stats);
            },
        };
        let amount = payment.amount_cents;
        let nodes_count = self.nodes.len();
        let mut first_visit: Vec<usize> = Vec::new();
        first_visit.push(src);
        let first = Label {
            node: src,
            ready: release,
            journey: Journey { steps: Vec::new(), fee: 0 },
            visited: first_visit,
        };
        proof {
            assert(first.visited@ =~= path_nodes(first.journey.steps@, src));
        }
        let mut labels: Vec<Label> = Vec::new();
        labels.push(first);
        let mut live: Vec<bool> = Vec::new();
        live.push(true);
        let mut per_node: Vec<Vec<usize>> = Vec::new();
        let mut n: usize = 0;
        while n < self.nodes.len()
            invariant
                n <= self.nodes@.len(),
                per_node@.len() == n,
                labels@.len() == 1,
                forall|a: int, k: int| 0 <= a < per_node@.len() && 0 <= k < per_node@[a]@.len() ==> #[trigger] per_node@[a]@[k] < labels@.len(),
            decreases self.nodes@.len() - n,
        {
            let mut group: Vec<usize> = Vec::new();
            if n == src {
                group.push(0);
            }
            per_node.push(group);
            n += 1;
        }
        let mut heap: Vec<QueueEntry> = Vec::new();
        heap.push(QueueEntry { fee: 0, ready: release, hops: 0, index: 0 });
        let mut best: Option<Journey> = None;
        let mut truncated = false;
        let ghost max_labels = limits.max_labels as int;
        while heap.len() > 0
            invariant
                self.wf(),
                limits.positive(),
                src < self.nodes@.len(),
                nodes_count == self.nodes@.len(),
                tgt < self.nodes@.len(),
                self.nodes@[src as int]@ == payment.sender@,
                self.nodes@[tgt as int]@ == payment.receiver@,
                amount == payment.amount_cents,
                1 <= labels@.len() <= limits.max_labels,
                live@.len() == labels@.len(),
                per_node@.len() == self.nodes@.len(),
                forall|a: int, k: int| 0 <= a < per_node@.len() && 0 <= k < per_node@[a]@.len() ==> #[trigger] per_node@[a]@[k] < labels@.len(),
                forall|k: int| 0 <= k < heap@.len() ==> (#[trigger] heap@[k]).index < labels@.len(),
                forall|i: int| 0 <= i < labels@.len() ==> self.label_ok(#[trigger] labels@[i], src, release, amount),
                forall|i: int| 0 <= i < labels@.len() ==> self.books_fit(*book, (#[trigger] labels@[i]).journey.steps@, amount),
                best matches Some(j) ==> self.journey_ok(j, src, tgt, release, deadline, amount),
                best matches Some(j) ==> self.books_fit(*book, j.steps@, amount),
                stats.searches == 1,
                stats.unresolved == 0,
                stats.truncated_searches == 0,
                stats.repair_trials == 0,
                stats.expansions <= limits.max_expansions,
                stats.candidates <= limits.max_candidates,
            decreases 2 * (limits.max_labels - labels@.len()) + heap@.len(),
        {
            let mi = min_entry(&heap);
            let entry = heap.swap_remove(mi);
            let index = entry.index;
            let ghost measure = 2 * (limits.max_labels - labels@.len()) + heap@.len();
            if !live[index] {
                continue;
            }
            if stats.expansions >= limits.max_expansions as u128 {
                truncated = true;
                break;
            }
            let label = copy_label(&labels[index]);
            assert(self.label_ok(labels@[index as int], src, release, amount));
            if label.ready > deadline {
                continue;
            }
            let ghost lsteps = label.journey.steps@;
            proof {
                lemma_distinct_below(label.visited@, self.nodes@.len() as int);
                lemma_steps_fee_bound(lsteps);
                assert(lsteps.len() + 1 == label.visited@.len());
            }
            if let Some(b) = &best {
                let b_arrival = b.steps[b.steps.len() - 1].arrival;
                let hops = label.journey.steps.len() + 1;
                if label.journey.fee > b.fee || (label.journey.fee == b.fee && (label.ready > b_arrival
                    || (label.ready == b_arrival && hops > b.steps.len()))) {
                    continue;
                }
            }
            stats.expansions = stats.expansions + 1;
            let group = &self.outgoing[label.node];
            let mut stop = false;
            let mut g: usize = 0;
            while g < group.len() && !stop
                invariant
                    self.wf(),
                    limits.positive(),
                    src < self.nodes@.len(),
                    nodes_count == self.nodes@.len(),
                nodes_count == self.nodes@.len(),
                    tgt < self.nodes@.len(),
                    amount == payment.amount_cents,
                    label.node < self.nodes@.len(),
                    group == &self.outgoing@[label.node as int],
                    self.label_ok(label, src, release, amount),
                    self.books_fit(*book, label.journey.steps@, amount),
                    label.journey.steps@ == lsteps,
                    label.journey.fee <= lsteps.len() * 0xffff_ffff_ffff_ffff,
                    lsteps.len() + 1 <= self.nodes@.len(),
                    label.ready <= deadline,
                    1 <= labels@.len() <= limits.max_labels,
                    live@.len() == labels@.len(),
                    per_node@.len() == self.nodes@.len(),
                    forall|a: int, k: int| 0 <= a < per_node@.len() && 0 <= k < per_node@[a]@.len() ==> #[trigger] per_node@[a]@[k] < labels@.len(),
                    forall|k: int| 0 <= k < heap@.len() ==> (#[trigger] heap@[k]).index < labels@.len(),
                    forall|i: int| 0 <= i < labels@.len() ==> self.label_ok(#[trigger] labels@[i], src, release, amount),
                    forall|i: int| 0 <= i < labels@.len() ==> self.books_fit(*book, (#[trigger] labels@[i]).journey.steps@, amount),
                    best matches Some(j) ==> self.journey_ok(j, src, tgt, release, deadline, amount),
                    best matches Some(j) ==> self.books_fit(*book, j.steps@, amount),
                    stats.searches == 1,
                    stats.unresolved == 0,
                    stats.truncated_searches == 0,
                    stats.repair_trials == 0,
                    stats.expansions <= limits.max_expansions,
                    stats.candidates <= limits.max_candidates,
                    2 * (limits.max_labels - labels@.len()) + heap@.len() <= measure,
                decreases group@.len() - g,
            {
                let r = group[g];
                g += 1;
                let rail = &self.rails[r];
                let carries = rail.available && match rail.max_amount_cents {
                    Some(c) => amount <= c,
                    None => true,
                } && match rail.batch_capacity_cents {
                    Some(c) => amount <= c,
                    None => true,
                };
                if !carries {
                    continue;
                }
                let mut choices: Vec<Slot> = Vec::new();
                match &self.calendar {
                    Calendar::Finite(slots) => {
                        let row = &slots[r];
                        let mut k: usize = 0;
                        while k < row.len()
                            invariant
                                self.wf(),
                                r < self.rails@.len(),
                                row == &slots@[r as int],
                                self.calendar == Calendar::Finite(*slots),
                                stats.candidates <= limits.max_candidates,
                                stats.expansions <= limits.max_expansions,
                                stats.searches == 1,
                                stats.unresolved == 0,
                                stats.truncated_searches == 0,
                                stats.repair_trials == 0,
                                forall|c: int| 0 <= c < choices@.len() ==> (#[trigger] choices@[c]).departure >= label.ready
                                    && fits_spec(*self, *book, label.journey.steps@, r, choices@[c], amount) && choices@[c].capacity == self.slot_cap(r, choices@[c].departure)
                                    && choices@[c].departure <= choices@[c].arrival && choices@[c].arrival <= deadline,
                            decreases row@.len() - k,
                        {
                            let slot = row[k];
                            k += 1;
                            if slot.departure < label.ready {
                                continue;
                            }
                            if slot.departure > deadline {
                                break;
                            }
                            stats.candidates = stats.candidates + 1;
                            if stats.candidates > limits.max_candidates as u128 {
                                stats.candidates = stats.candidates - 1;
                                truncated = true;
                                stop = true;
                                break;
                            }
                            if slot.arrival <= deadline {
                                let offered = Slot { capacity: self.slot_capacity(r, slot.departure), ..slot };
                                if self.fits(book, &label.journey, r, &offered, amount) {
                                    choices.push(offered);
                                }
                            }
                        }
                    },
                    Calendar::Recurring(services) => {
                        let service = &services[r];
                        let limited = match service.capacity_per_minute_cents {
                            Some(c) => amount > c,
                            None => false,
                        };
                        if service.open_minutes == 0 || limited {
                            continue;
                        }
                        let mut ready = label.ready;
                        while stats.candidates < limits.max_candidates as u128
                            invariant
                                self.calendar == Calendar::Recurring(*services),
                                service == &services@[r as int],
                                service.period_minutes > 0,
                                r < self.rails@.len(),
                                ready >= label.ready,
                                stats.candidates <= limits.max_candidates,
                                stats.expansions <= limits.max_expansions,
                                stats.searches == 1,
                                stats.unresolved == 0,
                                stats.truncated_searches == 0,
                                stats.repair_trials == 0,
                                forall|c: int| 0 <= c < choices@.len() ==> (#[trigger] choices@[c]).departure >= label.ready
                                    && fits_spec(*self, *book, label.journey.steps@, r, choices@[c], amount) && choices@[c].capacity == self.slot_cap(r, choices@[c].departure)
                                    && choices@[c].departure <= choices@[c].arrival && choices@[c].arrival <= deadline,
                            decreases limits.max_candidates - stats.candidates,
                        {
                            stats.candidates = stats.candidates + 1;
                            let departure = match next_window(service, ready) {
                                Some(d) => d,
                                None => {
                                    break;
                                },
                            };
                            let arrival = match departure.checked_add(rail.settlement_minutes as u128) {
                                Some(a) => a,
                                None => {
                                    break;
                                },
                            };
                            if arrival > deadline {
                                break;
                            }
                            let slot = Slot {
                                departure,
                                arrival,
                                fee: rail.fee_cents,
                                capacity: service.capacity_per_minute_cents,
                            };
                            if self.fits(book, &label.journey, r, &slot, amount) {
                                choices.push(slot);
                                break;
                            }
                            ready = match departure.checked_add(1) {
                                Some(x) => x,
                                None => {
                                    break;
                                },
                            };
                        }
                        if stats.candidates >= limits.max_candidates as u128 && choices.len() == 0 {
                            truncated = true;
                            stop = true;
                        }
                    },
                }
                if stop {
                    break;
                }
                let neighbors = members_without(&self.members[r], tgt);
                let mut c: usize = 0;
                while c < choices.len() && !stop
                    invariant
                        self.wf(),
                        limits.positive(),
                        r < self.rails@.len(),
                        rail == &self.rails@[r as int],
                        rail_carries(*rail, amount),
                        self.members@[r as int]@.contains(label.node),
                        forall|k: int| 0 <= k < neighbors@.len() ==> self.members@[r as int]@.contains(#[trigger] neighbors@[k]),
                        forall|x: int| 0 <= x < choices@.len() ==> (#[trigger] choices@[x]).departure >= label.ready
                            && fits_spec(*self, *book, label.journey.steps@, r, choices@[x], amount) && choices@[x].capacity == self.slot_cap(r, choices@[x].departure)
                            && choices@[x].departure <= choices@[x].arrival && choices@[x].arrival <= deadline,
                        src < self.nodes@.len(),
                        nodes_count == self.nodes@.len(),
                    nodes_count == self.nodes@.len(),
                nodes_count == self.nodes@.len(),
                        tgt < self.nodes@.len(),
                        amount == payment.amount_cents,
                        label.node < self.nodes@.len(),
                        self.label_ok(label, src, release, amount),
                        self.books_fit(*book, label.journey.steps@, amount),
                        label.journey.steps@ == lsteps,
                        label.journey.fee <= lsteps.len() * 0xffff_ffff_ffff_ffff,
                        lsteps.len() + 1 <= self.nodes@.len(),
                        1 <= labels@.len() <= limits.max_labels,
                        live@.len() == labels@.len(),
                        per_node@.len() == self.nodes@.len(),
                        forall|a: int, k: int| 0 <= a < per_node@.len() && 0 <= k < per_node@[a]@.len() ==> #[trigger] per_node@[a]@[k] < labels@.len(),
                        forall|k: int| 0 <= k < heap@.len() ==> (#[trigger] heap@[k]).index < labels@.len(),
                        forall|i: int| 0 <= i < labels@.len() ==> self.label_ok(#[trigger] labels@[i], src, release, amount),
                        forall|i: int| 0 <= i < labels@.len() ==> self.books_fit(*book, (#[trigger] labels@[i]).journey.steps@, amount),
                        best matches Some(j) ==> self.journey_ok(j, src, tgt, release, deadline, amount),
                        best matches Some(j) ==> self.books_fit(*book, j.steps@, amount),
                        stats.searches == 1,
                        stats.unresolved == 0,
                        stats.truncated_searches == 0,
                        stats.repair_trials == 0,
                        stats.expansions <= limits.max_expansions,
                        stats.candidates <= limits.max_candidates,
                        2 * (limits.max_labels - labels@.len()) + heap@.len() <= measure,
                    decreases choices@.len() - c,
                {
                    let slot = choices[c];
                    c += 1;
                    let mut q: usize = 0;
                    while q < neighbors.len()
                        invariant
                            self.wf(),
                            limits.positive(),
                            r < self.rails@.len(),
                            rail == &self.rails@[r as int],
                            rail_carries(*rail, amount),
                            self.members@[r as int]@.contains(label.node),
                            forall|k: int| 0 <= k < neighbors@.len() ==> self.members@[r as int]@.contains(#[trigger] neighbors@[k]),
                            slot.departure >= label.ready && slot.departure <= slot.arrival && slot.arrival <= deadline,
                            fits_spec(*self, *book, label.journey.steps@, r, slot, amount) && slot.capacity == self.slot_cap(r, slot.departure),
                            src < self.nodes@.len(),
                            nodes_count == self.nodes@.len(),
                        nodes_count == self.nodes@.len(),
                    nodes_count == self.nodes@.len(),
                nodes_count == self.nodes@.len(),
                            tgt < self.nodes@.len(),
                            amount == payment.amount_cents,
                            label.node < self.nodes@.len(),
                            self.label_ok(label, src, release, amount),
                            self.books_fit(*book, label.journey.steps@, amount),
                            label.journey.steps@ == lsteps,
                            label.journey.fee <= lsteps.len() * 0xffff_ffff_ffff_ffff,
                            lsteps.len() + 1 <= self.nodes@.len(),
                            1 <= labels@.len() <= limits.max_labels,
                            live@.len() == labels@.len(),
                            per_node@.len() == self.nodes@.len(),
                            forall|a: int, k: int| 0 <= a < per_node@.len() && 0 <= k < per_node@[a]@.len() ==> #[trigger] per_node@[a]@[k] < labels@.len(),
                            forall|k: int| 0 <= k < heap@.len() ==> (#[trigger] heap@[k]).index < labels@.len(),
                            forall|i: int| 0 <= i < labels@.len() ==> self.label_ok(#[trigger] labels@[i], src, release, amount),
                            forall|i: int| 0 <= i < labels@.len() ==> self.books_fit(*book, (#[trigger] labels@[i]).journey.steps@, amount),
                            best matches Some(j) ==> self.journey_ok(j, src, tgt, release, deadline, amount),
                            best matches Some(j) ==> self.books_fit(*book, j.steps@, amount),
                            stats.searches == 1,
                            stats.unresolved == 0,
                            stats.truncated_searches == 0,
                            stats.repair_trials == 0,
                            stats.expansions <= limits.max_expansions,
                            stats.candidates <= limits.max_candidates,
                            2 * (limits.max_labels - labels@.len()) + heap@.len() <= measure,
                        decreases neighbors@.len() - q,
                    {
                        let next = neighbors[q];
                        q += 1;
                        if stats.candidates >= limits.max_candidates as u128 {
                            truncated = true;
                            stop = true;
                            break;
                        }
                        stats.candidates = stats.candidates + 1;
                        if contains_usize(&label.visited, next) {
                            continue;
                        }
                        let step = Step {
                            rail: r,
                            from: label.node,
                            to: next,
                            departure: slot.departure,
                            arrival: slot.arrival,
                            fee: slot.fee,
                        };
                        proof {
                            assert(self.members@[r as int]@.contains(next));
                            let m = choose|m: int| 0 <= m < self.members@[r as int]@.len() && self.members@[r as int]@[m] == next;
                            assert(self.members@[r as int]@[m] < self.nodes@.len());
                            assert(self.hop_ok(step, amount));
                            lemma_extend_chain(*self, lsteps, src, release, amount, label.visited@, label.ready, step);
                            lemma_extend_visited(lsteps, src, label.visited@, self.nodes@.len() as int, step);
                            assert(nodes_count == self.nodes@.len());
                            assert(lsteps.len() + 1 < 0x1_0000_0000_0000_0000);
                            assert((lsteps.len() + 1) * 0xffff_ffff_ffff_ffff < 0x1_0000_0000_0000_0000_0000_0000_0000_0000) by (nonlinear_arith)
                                requires lsteps.len() + 1 < 0x1_0000_0000_0000_0000;
                            assert(lsteps.len() * 0xffff_ffff_ffff_ffff + 0xffff_ffff_ffff_ffff == (lsteps.len() + 1) * 0xffff_ffff_ffff_ffff) by (nonlinear_arith);
                        }
                        let mut cand_steps = copy_journey(&label.journey);
                        cand_steps.steps.push(step);
                        cand_steps.fee = label.journey.fee + slot.fee as u128;
                        let mut cand_visited = copy_usizes(&label.visited);
                        cand_visited.push(next);
                        let candidate = Label {
                            node: next,
                            ready: slot.arrival,
                            journey: cand_steps,
                            visited: cand_visited,
                        };
                        proof {
                            assert(candidate.journey.steps@ == lsteps.push(step));
                            assert(self.label_ok(candidate, src, release, amount));
                            lemma_books_fit_extend(*self, *book, lsteps, step, slot, amount);
                            assert(self.books_fit(*book, candidate.journey.steps@, amount));
                        }
                        if next == tgt {
                            let improves = match &best {
                                None => true,
                                Some(b) => journey_less(&candidate.journey, b),
                            };
                            if improves {
                                best = Some(candidate.journey);
                            }
                            continue;
                        }
                        // Dominated by a live label at the same institution?
                        let bucket = &per_node[next];
                        let mut dominated = false;
                        let mut d: usize = 0;
                        while d < bucket.len()
                            invariant
                                self.wf(),
                                d <= bucket@.len(),
                                live@.len() == labels@.len(),
                                forall|k: int| 0 <= k < bucket@.len() ==> #[trigger] bucket@[k] < labels@.len(),
                                forall|i: int| 0 <= i < labels@.len() ==> self.label_ok(#[trigger] labels@[i], src, release, amount),
                                forall|i: int| 0 <= i < labels@.len() ==> self.books_fit(*book, (#[trigger] labels@[i]).journey.steps@, amount),
                            decreases bucket@.len() - d,
                        {
                            let i = bucket[d];
                            d += 1;
                            assert(self.label_ok(labels@[i as int], src, release, amount));
                            if live[i] && self.dominates(&labels[i], &candidate) {
                                dominated = true;
                                break;
                            }
                        }
                        if dominated {
                            continue;
                        }
                        let mut kept: Vec<usize> = Vec::new();
                        let mut d2: usize = 0;
                        while d2 < bucket.len()
                            invariant
                                self.wf(),
                                d2 <= bucket@.len(),
                                live@.len() == labels@.len(),
                                forall|k: int| 0 <= k < bucket@.len() ==> #[trigger] bucket@[k] < labels@.len(),
                                forall|k: int| 0 <= k < kept@.len() ==> #[trigger] kept@[k] < labels@.len(),
                                forall|i: int| 0 <= i < labels@.len() ==> self.label_ok(#[trigger] labels@[i], src, release, amount),
                                forall|i: int| 0 <= i < labels@.len() ==> self.books_fit(*book, (#[trigger] labels@[i]).journey.steps@, amount),
                                self.label_ok(candidate, src, release, amount),
                                self.books_fit(*book, candidate.journey.steps@, amount),
                            decreases bucket@.len() - d2,
                        {
                            let i = bucket[d2];
                            d2 += 1;
                            if live[i] {
                                assert(self.label_ok(labels@[i as int], src, release, amount));
                                if self.dominates(&candidate, &labels[i]) {
                                    live.set(i, false);
                                } else {
                                    kept.push(i);
                                }
                            }
                        }
                        let full = kept.len() >= limits.labels_per_node;
                        per_node.set(next, kept);
                        if full {
                            truncated = true;
                            continue;
                        }
                        if labels.len() >= limits.max_labels {
                            truncated = true;
                            stop = true;
                            break;
                        }
                        let i = labels.len();
                        heap.push(QueueEntry {
                            fee: candidate.journey.fee,
                            ready: candidate.ready,
                            hops: candidate.journey.steps.len(),
                            index: i,
                        });
                        labels.push(candidate);
                        live.push(true);
                        let mut grown = copy_usizes(&per_node[next]);
                        grown.push(i);
                        per_node.set(next, grown);
                    }
                }
            }
            if stop {
                break;
            }
        }
        if truncated {
            stats.truncated_searches = 1;
        }
        if best.is_none() {
            stats.unresolved = 1;
        }
        (best, stats)
    }
}


impl TextKeyed for Rail {
    open spec fn key_view(&self) -> Seq<char> {
        self.id@
    }

    fn key(&self) -> (r: &String) {
        &self.id
    }
}

impl NumKeyed for Slot {
    open spec fn num_view(&self) -> u128 {
        self.departure
    }

    fn num(&self) -> (r: u128) {
        self.departure
    }
}

impl TextKeyed for RailService {
    open spec fn key_view(&self) -> Seq<char> {
        self.rail_id@
    }

    fn key(&self) -> (r: &String) {
        &self.rail_id
    }
}

pub fn copy_strings(v: &Vec<String>) -> (r: Vec<String>)
    ensures
        texts(r@) == texts(v@),
        r@.len() == v@.len(),
{
    let mut r: Vec<String> = Vec::new();
    let mut i: usize = 0;
    while i < v.len()
        invariant
            i <= v.len(),
            r@.len() == i,
            forall|k: int| 0 <= k < i ==> (#[trigger] r@[k])@ == v@[k]@,
        decreases v.len() - i,
    {
        r.push(copy_string(&v[i]));
        i += 1;
    }
    assert(texts(r@) =~= texts(v@));
    r
}

pub fn copy_rail(rail: &Rail) -> (r: Rail)
    ensures
        r@ == rail@,
{
    Rail {
        id: copy_string(&rail.id),
        name: copy_string(&rail.name),
        participants: copy_strings(&rail.participants),
        fee_cents: rail.fee_cents,
        settlement_minutes: rail.settlement_minutes,
        available: rail.available,
        max_amount_cents: rail.max_amount_cents,
        batch_capacity_cents: rail.batch_capacity_cents,
    }
}

impl Router {
    /// The router's identifier orders and adjacency, before a calendar is attached.
    pub open spec fn wf_graph(&self) -> bool {
        &&& self.members@.len() == self.rails@.len()
        &&& self.outgoing@.len() == self.nodes@.len()
        &&& forall|r: int, k: int|
            0 <= r < self.members@.len() && 0 <= k < self.members@[r]@.len() ==> #[trigger] self.members@[r]@[k]
                < self.nodes@.len()
        &&& forall|n: int, k: int|
            0 <= n < self.outgoing@.len() && 0 <= k < self.outgoing@[n]@.len() ==> #[trigger] self.outgoing@[n]@[k]
                < self.rails@.len() && self.members@[self.outgoing@[n]@[k] as int]@.contains(n as usize)
    }

    pub fn base(network: &Network, calendar: Calendar) -> (r: Router)
        ensures
            r.wf_graph(),
            r.calendar == calendar,
            key_sorted(r.nodes@),
            key_sorted(r.rails@),
            r.rails@.len() == network.rails@.len(),
            r.nodes@.len() == network.institutions@.len(),
    {
        let mut ids: Vec<String> = Vec::new();
        let mut i: usize = 0;
        while i < network.institutions.len()
            invariant
                i <= network.institutions.len(),
                ids@.len() == i,
            decreases network.institutions.len() - i,
        {
            ids.push(copy_string(&network.institutions[i].id));
            i += 1;
        }
        let nodes = sort_by_key(ids);
        let mut copies: Vec<Rail> = Vec::new();
        let mut k: usize = 0;
        while k < network.rails.len()
            invariant
                k <= network.rails.len(),
                copies@.len() == k,
            decreases network.rails.len() - k,
        {
            copies.push(copy_rail(&network.rails[k]));
            k += 1;
        }
        let rails = sort_by_key(copies);
        let mut members: Vec<Vec<usize>> = Vec::new();
        let mut r: usize = 0;
        while r < rails.len()
            invariant
                r <= rails@.len(),
                members@.len() == r,
                forall|a: int, b: int|
                    0 <= a < members@.len() && 0 <= b < members@[a]@.len() ==> #[trigger] members@[a]@[b]
                        < nodes@.len(),
            decreases rails@.len() - r,
        {
            let mut group: Vec<usize> = Vec::new();
            let mut p: usize = 0;
            while p < rails[r].participants.len()
                invariant
                    r < rails@.len(),
                    p <= rails@[r as int].participants@.len(),
                    forall|b: int| 0 <= b < group@.len() ==> #[trigger] group@[b] < nodes@.len(),
                decreases rails@[r as int].participants@.len() - p,
            {
                match position_of(&nodes, &rails[r].participants[p]) {
                    Some(x) => {
                        group.push(x);
                    },
                    None => {},
                }
                p += 1;
            }
            let sorted = sort_by_num(group);
            proof {
                broadcast use vstd::seq_lib::group_to_multiset_ensures;
                assert forall|b: int| 0 <= b < sorted@.len() implies #[trigger] sorted@[b] < nodes@.len() by {
                    assert(sorted@.to_multiset().count(sorted@[b]) > 0);
                    assert(group@.contains(sorted@[b]));
                }
            }
            members.push(sorted);
            r += 1;
        }
        let mut outgoing: Vec<Vec<usize>> = Vec::new();
        let mut n: usize = 0;
        while n < nodes.len()
            invariant
                n <= nodes@.len(),
                outgoing@.len() == n,
                members@.len() == rails@.len(),
                forall|a: int, b: int|
                    0 <= a < outgoing@.len() && 0 <= b < outgoing@[a]@.len() ==> #[trigger] outgoing@[a]@[b]
                        < rails@.len() && members@[outgoing@[a]@[b] as int]@.contains(a as usize),
            decreases nodes@.len() - n,
        {
            let mut group: Vec<usize> = Vec::new();
            let mut q: usize = 0;
            while q < members.len()
                invariant
                    q <= members@.len(),
                    members@.len() == rails@.len(),
                    forall|b: int| 0 <= b < group@.len() ==> #[trigger] group@[b] < rails@.len()
                        && members@[group@[b] as int]@.contains(n),
                decreases members@.len() - q,
            {
                if contains_usize(&members[q], n) {
                    group.push(q);
                }
                q += 1;
            }
            outgoing.push(group);
            n += 1;
        }
        Router { nodes, rails, members, outgoing, calendar }
    }

    pub fn finite(network: &Network, departures: &Vec<RailDeparture>) -> (r: Router)
        ensures
            r.wf(),
            r.rails@.len() == network.rails@.len(),
            r.nodes@.len() == network.institutions@.len(),
    {
        let base = Router::base(network, Calendar::Finite(Vec::new()));
        let mut groups: Vec<Vec<Slot>> = Vec::new();
        let mut r: usize = 0;
        while r < base.rails.len()
            invariant
                r <= base.rails@.len(),
                groups@.len() == r,
                forall|a: int, k: int| 0 <= a < groups@.len() && 0 <= k < groups@[a]@.len() ==> (#[trigger] groups@[a]@[k]).departure <= groups@[a]@[k].arrival,
            decreases base.rails@.len() - r,
        {
            let mut group: Vec<Slot> = Vec::new();
            let mut d: usize = 0;
            while d < departures.len()
                invariant
                    r < base.rails@.len(),
                    d <= departures@.len(),
                    forall|k: int| 0 <= k < group@.len() ==> (#[trigger] group@[k]).departure <= group@[k].arrival,
                decreases departures@.len() - d,
            {
                let s = &departures[d];
                if same_text(&s.rail_id, &base.rails[r].id) {
                    let minutes = match s.settlement_minutes {
                        Some(m) => m,
                        None => base.rails[r].settlement_minutes,
                    };
                    let departure = s.departure_minute as u128;
                    group.push(Slot {
                        departure,
                        arrival: departure + minutes as u128,
                        fee: match s.fee_cents {
                            Some(f) => f,
                            None => base.rails[r].fee_cents,
                        },
                        capacity: s.capacity_cents,
                    });
                }
                d += 1;
            }
            let sorted = sort_by_num(group);
            proof {
                broadcast use vstd::seq_lib::group_to_multiset_ensures;
                assert forall|k: int| 0 <= k < sorted@.len() implies (#[trigger] sorted@[k]).departure <= sorted@[k].arrival by {
                    assert(sorted@.to_multiset().count(sorted@[k]) > 0);
                    assert(group@.contains(sorted@[k]));
                }
            }
            groups.push(sorted);
            r += 1;
        }
        Router {
            nodes: base.nodes,
            rails: base.rails,
            members: base.members,
            outgoing: base.outgoing,
            calendar: Calendar::Finite(groups),
        }
    }

    pub fn recurring(network: &Network, services: &Vec<RailService>) -> (r: Router)
        requires
            services@.len() == network.rails@.len(),
            forall|i: int| 0 <= i < services@.len() ==> (#[trigger] services@[i]).period_minutes > 0,
        ensures
            r.wf(),
            r.rails@.len() == network.rails@.len(),
    {
        let mut copies: Vec<RailService> = Vec::new();
        let mut i: usize = 0;
        while i < services.len()
            invariant
                i <= services@.len(),
                copies@.len() == i,
                forall|k: int| 0 <= k < i ==> (#[trigger] copies@[k]).period_minutes > 0,
                forall|k: int| 0 <= k < services@.len() ==> (#[trigger] services@[k]).period_minutes > 0,
            decreases services@.len() - i,
        {
            copies.push(services[i].copy());
            i += 1;
        }
        let sorted = sort_by_key(copies);
        proof {
            broadcast use vstd::seq_lib::group_to_multiset_ensures;
            assert forall|k: int| 0 <= k < sorted@.len() implies (#[trigger] sorted@[k]).period_minutes > 0 by {
                assert(sorted@.to_multiset().count(sorted@[k]) > 0);
                assert(copies@.contains(sorted@[k]));
            }
        }
        Router::base(network, Calendar::Recurring(sorted))
    }

    /// Book every limited resource a journey uses; false when a total overflows.
    /// Book every limited resource a journey uses; false when a total overflows.
    pub fn reserve(&self, book: &mut Reservations, journey: &Journey, amount: u64) -> (ok: bool)
        requires
            self.wf(),
            forall|i: int| 0 <= i < journey.steps@.len() ==> (#[trigger] journey.steps@[i]).rail < self.rails@.len(),
        ensures
            ok <==> self.reservable(*old(book), journey.steps@, amount),
            ok ==> forall|r: usize, m: u128|
                #[trigger] slot_booked(final(book).slots@, r, m) == self.slot_after(*old(book), journey.steps@, amount, r, m),
            ok ==> forall|r: usize|
                #[trigger] rail_booked(final(book).rails@, r) == self.rail_after(*old(book), journey.steps@, amount, r),
    {
        let ghost start = *book;
        let ghost steps = journey.steps@;
        let mut i: usize = 0;
        assert(steps.take(0) =~= Seq::<Step>::empty());
        while i < journey.steps.len()
            invariant
                self.wf(),
                i <= steps.len(),
                steps == journey.steps@,
                start == *old(book),
                forall|i: int| 0 <= i < steps.len() ==> (#[trigger] steps[i]).rail < self.rails@.len(),
                forall|r: usize, m: u128|
                    #[trigger] slot_booked(book.slots@, r, m) == self.slot_after(start, steps.take(i as int), amount, r, m),
                forall|r: usize|
                    #[trigger] rail_booked(book.rails@, r) == self.rail_after(start, steps.take(i as int), amount, r),
            decreases steps.len() - i,
        {
            let s = journey.steps[i];
            let ghost pre = steps.take(i as int);
            let ghost post = steps.take(i + 1);
            proof {
                assert(post.drop_last() =~= pre);
                assert(post.last() == s);
                assert forall|r: usize, m: u128| #[trigger] count_slot(post, r, m) == count_slot(pre, r, m)
                    + if r == s.rail && m == s.departure { 1int } else { 0int } by {}
                assert forall|r: usize| #[trigger] count_rail(post, r) == count_rail(pre, r)
                    + if r == s.rail { 1int } else { 0int } by {}
                lemma_count_prefix(steps, i + 1, s.rail, s.departure);
            }
            let ghost mid_rails = book.rails@;
            if self.rails[s.rail].batch_capacity_cents.is_some() {
                proof {
                    lemma_times_next(amount as int, count_rail(pre, s.rail));
                }
                if !book.add_rail(s.rail, amount as u128) {
                    proof {
                        lemma_times_le(amount as int, count_rail(post, s.rail), count_rail(steps, s.rail));
                        assert(self.rail_after(start, steps, amount, s.rail) > u128::MAX);
                    }
                    return false;
                }
            } else {
            }
            proof {
                assert forall|r: usize| #[trigger] rail_booked(book.rails@, r) == self.rail_after(start, post, amount, r) by {
                    lemma_times_next(amount as int, count_rail(pre, r));
                }
            }
            if self.slot_capacity(s.rail, s.departure).is_some() {
                proof {
                    lemma_times_next(amount as int, count_slot(pre, s.rail, s.departure));
                }
                if !book.add_slot(s.rail, s.departure, amount as u128) {
                    proof {
                        lemma_times_le(amount as int, count_slot(post, s.rail, s.departure), count_slot(steps, s.rail, s.departure));
                        assert(self.slot_after(start, steps, amount, s.rail, s.departure) > u128::MAX);
                    }
                    return false;
                }
            }
            proof {
                assert forall|r: usize, m: u128| #[trigger] slot_booked(book.slots@, r, m) == self.slot_after(start, post, amount, r, m) by {
                    lemma_times_next(amount as int, count_slot(pre, r, m));
                }
            }
            i += 1;
        }
        proof {
            assert(steps.take(i as int) =~= steps);
            assert forall|r: usize, m: u128| #[trigger] self.slot_after(start, steps, amount, r, m) <= u128::MAX by {
                lemma_booked_bounds(book.slots@, book.rails@, r, m);
            }
            assert forall|r: usize| #[trigger] self.rail_after(start, steps, amount, r) <= u128::MAX by {
                lemma_booked_bounds(book.slots@, book.rails@, r, 0);
            }
        }
        true
    }

    pub fn hop(&self, s: &Step) -> (r: RouteHop)
        requires
            s.rail < self.rails@.len(),
            s.from < self.nodes@.len(),
            s.to < self.nodes@.len(),
        ensures
            r.rail_id@ == self.rails@[s.rail as int].id@,
            r.sender@ == self.nodes@[s.from as int]@,
            r.receiver@ == self.nodes@[s.to as int]@,
    {
        RouteHop {
            rail_id: copy_string(&self.rails[s.rail].id),
            sender: copy_string(&self.nodes[s.from]),
            receiver: copy_string(&self.nodes[s.to]),
        }
    }

    /// The static description of a journey: its hops, fee and summed hop latency.
    pub fn route(&self, journey: &Journey) -> (r: Route)
        requires
            forall|i: int| 0 <= i < journey.steps@.len() ==> {
                let s = #[trigger] journey.steps@[i];
                s.rail < self.rails@.len() && s.from < self.nodes@.len() && s.to < self.nodes@.len()
                    && s.departure <= s.arrival
            },
            forall|i: int| 0 < i < journey.steps@.len() ==> (#[trigger] journey.steps@[i]).departure >= journey.steps@[i - 1].arrival,
        ensures
            r.hops@.len() == journey.steps@.len(),
            r.total_fee_cents == journey.fee,
    {
        let mut hops: Vec<RouteHop> = Vec::new();
        let mut minutes: u128 = 0;
        let mut i: usize = 0;
        while i < journey.steps.len()
            invariant
                i <= journey.steps@.len(),
                hops@.len() == i,
                forall|i: int| 0 <= i < journey.steps@.len() ==> {
                    let s = #[trigger] journey.steps@[i];
                    s.rail < self.rails@.len() && s.from < self.nodes@.len() && s.to < self.nodes@.len()
                        && s.departure <= s.arrival
                },
                forall|i: int| 0 < i < journey.steps@.len() ==> (#[trigger] journey.steps@[i]).departure >= journey.steps@[i - 1].arrival,
                i > 0 ==> minutes <= journey.steps@[i - 1].arrival - journey.steps@[0].departure,
                i == 0 ==> minutes == 0,
            decreases journey.steps@.len() - i,
        {
            let s = journey.steps[i];
            hops.push(self.hop(&s));
            minutes = minutes + (s.arrival - s.departure);
            i += 1;
        }
        Route { hops, total_fee_cents: journey.fee, total_settlement_minutes: minutes }
    }
}

} // verus!
