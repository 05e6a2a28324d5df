//! Splits hardware modules at barrier markers into chains of pipeline stages
//! that hand their live values to one another over FIFO ports.
//!
//! The pass ([`pass`]) has three phases. *Discovery* ([`discovery`]) flags the modules
//! that hold a barrier marker. *Analysis* ([`graph`], with its model in
//! [`levels`] and [`staging`]) builds the dependency graph of a flagged
//! module, finds the values that cross each cut, and assigns every
//! expression to a stage. The *rewrite* ([`rewrite`], with its model in
//! [`emission`]) makes a module for every stage above the first, with the
//! handshake at its entry, the clones of its body, and the call that links
//! it to the stage before.
//!
//! The system that the pass works on is an arena of nodes ([`builder`],
//! with its model in [`ir`]). What holds of every module that was split is
//! proved in [`laws`], from the shape of the rewrite's steps ([`shape`],
//! [`staged`], [`levels_shape`]) and of the analysis ([`analysis_shape`],
//! [`labelling`]).
//! [`buffer`] is the single-cut form of the analysis, and [`callers`] the
//! index of the calls between modules.

pub mod analysis_shape;
pub mod buffer;
pub mod builder;
pub mod callers;
pub mod discovery;
pub mod emission;
pub mod error;
pub mod graph;
pub mod ir;
pub mod keys;
pub mod labelling;
pub mod laws;
pub mod levels;
pub mod levels_shape;
pub mod pass;
pub mod rewrite;
pub mod shape;
pub mod stage;
pub mod staged;
pub mod staging;
pub mod text;
