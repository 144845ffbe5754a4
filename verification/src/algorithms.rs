//! The three coupled threshold state machines of the detector.

pub mod f;
pub mod m;
pub mod r;
