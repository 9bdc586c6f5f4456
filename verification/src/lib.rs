//! A minimal metrics-export core: an in-memory snapshot store that
//! accumulates named counter and gauge values, and a differencing drain
//! that renders only the values that changed since the last export in a
//! StatsD-like text line format.

pub mod metric;
pub mod model;
pub mod observer;
