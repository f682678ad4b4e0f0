//! Short-horizon local motion planner.
//!
//! Given a vehicle's kinematic state and a store of nearby landmarks, the
//! planner runs a cost-guided fixed-depth search over forward-simulated
//! drive states and returns the lowest-cost trajectory it found.
//!
//! All quantities are fixed-point `i64` values with one million units per
//! whole unit (meter, radian, second, or unit of cost), so that every
//! computation is exact integer arithmetic with a proved contract.

pub mod cost;
pub mod drive;
pub mod fixed;
pub mod planner;
pub mod points;
pub mod trig;
