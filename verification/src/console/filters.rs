//! The payment filters of the operator console.
use vstd::prelude::*;
use crate::operations::{Dossier, PaymentStatus, is_terminal};

verus! {

#[derive(Debug, Clone, Copy, PartialEq, Eq, Structural)]
pub enum Filter {
    All,
    Active,
    Queued,
    Failed,
    Finished,
}

pub open spec fn filter_label(f: Filter) -> Seq<char> {
    match f {
        Filter::All => "all"@,
        Filter::Active => "active"@,
        Filter::Queued => "queues"@,
        Filter::Failed => "SLA/overload"@,
        Filter::Finished => "finished"@,
    }
}

/// The payments a filter shows, by their status.
pub open spec fn shows(f: Filter, s: PaymentStatus) -> bool {
    match f {
        Filter::All => true,
        Filter::Active => !is_terminal(s),
        Filter::Queued => s == PaymentStatus::Queued || s == PaymentStatus::Waiting,
        Filter::Failed => s == PaymentStatus::Draining || s == PaymentStatus::Late || s == PaymentStatus::Expired
            || s == PaymentStatus::Rejected,
        Filter::Finished => is_terminal(s),
    }
}

impl Filter {
    pub const ALL: [Filter; 5] = [Filter::All, Filter::Active, Filter::Queued, Filter::Failed, Filter::Finished];

    pub fn label(self) -> (r: &'static str)
        ensures
            r@ == filter_label(self),
    {
        match self {
            Filter::All => "all",
            Filter::Active => "active",
            Filter::Queued => "queues",
            Filter::Failed => "SLA/overload",
            Filter::Finished => "finished",
        }
    }

    /// Whether the filter shows this dossier.
    pub fn matches(self, p: &Dossier) -> (r: bool)
        ensures
            r == shows(self, p.status),
    {
        match self {
            Filter::All => true,
            Filter::Active => !p.status.terminal(),
            Filter::Queued => p.status == PaymentStatus::Queued || p.status == PaymentStatus::Waiting,
            Filter::Failed => p.status == PaymentStatus::Draining || p.status == PaymentStatus::Late || p.status
                == PaymentStatus::Expired || p.status == PaymentStatus::Rejected,
            Filter::Finished => p.status.terminal(),
        }
    }
}

} // verus!
