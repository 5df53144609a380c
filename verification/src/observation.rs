//! Opt-in, bounded evidence from actual routing searches.
use vstd::prelude::*;
use crate::routing::Route;

verus! {

/// At most this many entries are kept per payment; later ones are only counted.
pub const EVIDENCE_PER_PAYMENT: usize = 24;

#[derive(Debug, Clone, PartialEq, Eq)]
pub struct SearchEvidence {
    /// Describes a search candidate or rejected prefix, not a global proof.
    pub reason: String,
    pub route: Option<Route>,
    pub departures: Vec<u128>,
}

#[derive(Debug, Clone, PartialEq, Eq)]
pub struct PaymentEvidence {
    pub payment_id: String,
    pub entries: Vec<SearchEvidence>,
    pub omitted: u128,
}

/// One tick only, one record per payment identifier. Callers choose their own
/// bounded retention policy.
#[derive(Debug, Clone, PartialEq, Eq)]
pub struct DecisionEvidence {
    pub payments: Vec<PaymentEvidence>,
}

impl DecisionEvidence {
    pub fn empty() -> (r: DecisionEvidence)
        ensures
            r.payments@.len() == 0,
    {
        DecisionEvidence { payments: Vec::new() }
    }
}

} // verus!
