//! Verified surface-coordinate core for a simulation that places and moves
//! entities along the one-dimensional, periodic perimeter of circular bodies.
//!
//! Angles are held in millidegrees (thousandths of a degree), so a full turn
//! is `angle::PERIOD` units and every operation is exact integer arithmetic.

pub mod angle;
pub mod collision;
pub mod navigate;
pub mod occupancy;
pub mod query;
pub mod storage;
pub mod surface;
pub mod world;
