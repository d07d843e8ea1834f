//! Static analysis of workflow graphs.
//!
//! A workflow is a directed graph of steps. Each step asks for input keys
//! and says by a schema which output keys it can produce. The analyses
//! encode the flow of keys through the graph as boolean formulas and ask
//! the Z3 solver whether a step can be reached, how few inputs of the first
//! step that takes, and whether execution always arrives at one of a set of
//! steps.
//!
//! The code is verified with Verus. What is believed of Z3 without proof is
//! stated in `analysis::oracle`.

pub mod analysis;
pub mod example_graphs;
pub mod workflow;
