//! Greedy scheduling of a vehicle fleet over time-windowed rides on a grid,
//! together with an independent replay that scores a schedule and reports
//! every rule it breaks.

pub mod model;
pub mod replay;
pub mod simulation;
pub mod report;
pub mod validity;
pub mod dispatch;
pub mod solver;
pub mod soundness;
pub mod planner;
pub mod format;
