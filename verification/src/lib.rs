//! Signal Chain: composable signal-processing pipelines.
//!
//! Two kinds of pipeline live here. A [`SignalChain`] runs samples through
//! processing nodes ([`Gain`], [`Delay`], [`Clipper`] or any other
//! [`SignalNode`]); a [`chain::SignalChain`], assembled with a
//! [`ChainBuilder`], runs [`Signal`]s (value, timestamp, confidence, source)
//! through conditioning stages. Both are generic over the [`Scalar`] type,
//! `f64` in practice.
pub mod chain;
pub mod nodes;
pub mod order;
pub mod scalar;
pub mod signal;
pub mod stages;

pub use chain::{ChainBuilder, SignalStage};
pub use nodes::{BiquadMemory, Clipper, Delay, Gain, NodeSlot, SignalChain, SignalNode};
pub use scalar::Scalar;
pub use signal::Signal;
pub use stages::{
    AggregationMethod, Aggregator, ConfidenceGate, DeadbandFilter, ExponentialSmoothing,
    MovingAverage, Normalizer,
};
