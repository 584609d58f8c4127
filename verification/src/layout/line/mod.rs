//! Lines of a paragraph.

pub mod consistency;
pub mod finalize;
pub mod greedy;
pub mod justify;
pub mod laws;
pub mod reorder;
pub mod step;
pub mod validity;
