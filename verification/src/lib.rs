//! Term-proximity windows: a synchronized walk over one ascending stream of
//! positions per keyword that records every window which cannot be shrunk on
//! its left edge, together with its span.

pub mod order;
pub mod storage;
pub mod model;
pub mod frontier;
pub mod enumerate;
pub mod laws;

pub use enumerate::near_proximity;
pub use storage::{Position, Positions, Size};
