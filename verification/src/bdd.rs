//! The diagram engine: node encoding, the mathematical model of a diagram, and the pool.

pub mod algebra;
pub mod diagram;
pub mod laws;
pub mod memo;
pub mod node;
pub mod pool;
