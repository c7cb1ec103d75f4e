//! Proximity ranking for a single-courier delivery round.
//!
//! Customer stops are ordered by ascending great-circle distance from the
//! courier's current position. The distance metric itself is floating-point
//! work done by the surrounding application; this library receives each
//! distance as the raw bit pattern of an IEEE 754 double and owns everything
//! that can be stated and proved exactly: the total order on encoded
//! distances (ascending value, not-a-number entries last) and the stable
//! ranking built from it.

pub mod distance_order;

pub mod rank;

pub mod session;
