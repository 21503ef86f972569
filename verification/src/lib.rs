//! Classical gate-model quantum register simulator for Shor's
//! integer-factoring algorithm, with exact amplitude arithmetic, together
//! with the number-theoretic toolkit that prepares its inputs and interprets
//! its measurements.

pub mod complex;
pub mod matrix;
pub mod number;
pub mod quantum;
