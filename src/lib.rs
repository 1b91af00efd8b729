//! Sample-agnostic core of a feedback-delay-network reverberator: circular
//! delay lines, a fixed-size bank of them, the channel junction that maps
//! physical channels onto internal lines, and the Hadamard butterfly with its
//! normalisation tier.
//!
//! Everything here moves, stores and routes samples of any `Copy` type; the
//! arithmetic on the samples is left to the caller (the butterfly takes its
//! two-point step as a function).

pub mod error;
pub mod delay;
pub mod junction;
pub mod bank;
pub mod hadamard;

pub use error::ConfigError;
pub use delay::{DelayLine, DelayLineView};
pub use bank::DelayBank;
pub use hadamard::{checked_hadamard_tier, hadamard_butterfly, hadamard_tier, is_power_of_two};
pub use junction::{ChannelJunction, JunctionView};
