//! Diagnostic counters of the exact searches, kept by a driver.
//! Saturating counters cannot affect feasibility, ordering, or search termination.
use vstd::prelude::*;

verus! {

#[derive(Clone, Copy, Debug, PartialEq, Eq, Structural)]
pub struct SearchStats {
    pub solver_calls: u64,
    /// Recursive path states, including states immediately pruned.
    pub path_states: u64,
    /// Feasible destination paths; for batch solvers these are retained candidates.
    pub candidates: u64,
    /// Total hops across feasible destination paths, a storage proxy, not bytes.
    pub candidate_hops: u64,
    pub assignment_states: u64,
    pub complete_assignments: u64,
    pub bound_prunes: u64,
    pub deadline_prunes: u64,
    /// Failed joint assignment capacity checks (not path-enumeration checks).
    pub capacity_rejects: u64,
}

impl SearchStats {
    pub open spec fn is_zero(self) -> bool {
        &&& self.solver_calls == 0 && self.path_states == 0 && self.candidates == 0
        &&& self.candidate_hops == 0 && self.assignment_states == 0 && self.complete_assignments == 0
        &&& self.bound_prunes == 0 && self.deadline_prunes == 0 && self.capacity_rejects == 0
    }
}

impl Default for SearchStats {
    fn default() -> (r: SearchStats)
        ensures
            r.is_zero(),
    {
        SearchStats {
            solver_calls: 0,
            path_states: 0,
            candidates: 0,
            candidate_hops: 0,
            assignment_states: 0,
            complete_assignments: 0,
            bound_prunes: 0,
            deadline_prunes: 0,
            capacity_rejects: 0,
        }
    }
}

} // verus!
