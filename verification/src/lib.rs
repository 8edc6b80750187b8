//! Markov chains, their ergodic theory, and budget planning and control on top
//! of it.
//!
//! Numbers are binary64 numbers with verified arithmetic ([`double`]), so every
//! result is stated to the last bit.

pub mod binary64;
mod rounding;
pub mod double;
pub mod order;
pub mod vector;
pub mod precision;
pub mod correct;

pub mod divisor;
pub mod matrix;
pub mod graph;

pub mod evolution;
pub mod measures;
pub mod random;
pub mod text;
pub mod chain;

pub mod laws;
pub mod accuracy;
pub mod averages;
pub mod transport;
pub mod exact;
pub mod mixing;
pub mod moves;
pub mod walks;
pub mod scaling;
pub mod convergence;

pub use chain::MarkovChain;
pub use divisor::gcd;
pub use double::Double;
pub use matrix::{TransitionMatrix, MAX_STATES};
pub use measures::{
    birkhoff_bound, budget_adequacy, consumption_drift, control_correction, ergodic_check,
    ergodic_ensemble_average, ergodic_time_average, lqr_step, occupation_measure,
    predict_consumption, wasserstein_distance,
};
