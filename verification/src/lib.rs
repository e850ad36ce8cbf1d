//! Verified core of a factory-building game played on a hyperbolic {4,q} tiling.

pub mod game;
pub mod hyperbolic;
pub mod sim;
