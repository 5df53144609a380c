//! Payment-network data, exact and bounded routing, and a deterministic simulation.
pub mod text;
pub mod network;
pub mod demo;
pub mod routing;
pub mod order;
pub mod batch;
pub mod scheduling;
pub mod scalable;
pub mod simulation;
pub mod observation;
pub mod operations;
pub mod console;
pub mod joint;
pub mod search_stats;
pub mod evaluation;
