//! Block Gibbs sampling of discrete graphical models.
//!
//! - Describe the random variables of a model with a [`Graph`]:
//!   spin variables in {-1, +1} and categorical variables in `[0, K)`.
//! - Describe the energy function as a list of [`DiscreteFactor`]s.
//!   An instance of a factor contributes `-W[c_1, .., c_N] * s_1 * .. * s_M`
//!   to the energy, covering biases, pairwise and higher-order couplings
//!   of both spin and categorical variables.
//! - Partition the nodes into [`Block`]s of conditionally independent
//!   variables and compile a [`Program`].
//! - Run a [`Schedule`] on a [`CpuSampler`], recording [`Samples`] or
//!   accumulating moments across a batch of parallel chains. [`dispatch`] and
//!   [`gpu`] plan the same run for a GPU, and [`kernels`] says what its
//!   kernels compute.
//!
//! Weights are of any type that can be copied. The library says which weights
//! count, and with which sign; numbers are made of them by the functions that
//! a sampler is handed: the probability of a spin to be up as a threshold on
//! 24-bit draws, and the category that a draw picks.
//!
//! [`formulas`] writes out what the parts come to: energies, draws, updates
//! and averages over the inputs of a model. [`validity`] says which models
//! compile.

pub mod bindings;
pub mod checks;
pub mod coloring;
pub mod cpu;
pub mod dispatch;
pub mod energy;
pub mod error;
pub mod factor;
pub mod formulas;
pub mod gibbs;
pub mod gpu;
pub mod graph;
pub mod kernels;
pub mod limits;
pub mod models;
pub mod nested;
pub mod program;
pub mod record;
pub mod rng;
pub mod samples;
pub mod schedule;
pub mod soundness;
pub mod state;
pub mod streams;
pub mod text;
pub mod validity;

pub use checks::MAX_CATEGORICAL_STATES;
pub use coloring::color_blocks;
pub use cpu::CpuSampler;
pub use error::Error;
pub use factor::{total_energy, DiscreteFactor, Term};
pub use graph::{Block, Graph, Node, NodeKind};
pub use program::Program;
pub use samples::Samples;
pub use schedule::Schedule;
pub use state::{validate_state, State};
