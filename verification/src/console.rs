//! What the operator console shows: its views and its payment filters.
pub mod filters;
pub mod controls;

use vstd::prelude::*;
pub use filters::{Filter, filter_label, shows};

verus! {

#[derive(Debug, Clone, Copy, PartialEq, Eq, Structural)]
pub enum View {
    Overview,
    Payments,
    Rails,
    Network,
    Optimizer,
    Compare,
}

impl View {
    pub const ALL: [View; 6] = [View::Overview, View::Payments, View::Rails, View::Network, View::Optimizer, View::Compare];
}

} // verus!
