//! Graphs to try the analyses on.

use vstd::prelude::*;
use crate::workflow::NodeIdx;
use crate::workflow::WorkflowGraph;

pub mod buy_sell_stock;
pub mod linear;

verus! {

/// A graph together with the node whose reachability is of interest.
pub struct WorkflowGraphExt {
    pub graph: WorkflowGraph,
    pub test_reachable_node: NodeIdx,
}

impl WorkflowGraphExt {
    /// `graph` with `test_reachable_node` as the node of interest.
    pub fn new(graph: WorkflowGraph, test_reachable_node: NodeIdx) -> (r: Self)
        ensures
            r.graph == graph,
            r.test_reachable_node == test_reachable_node,
    {
        Self { graph, test_reachable_node }
    }

    /// The graph is in order, has a start node, and the node of interest
    /// is one of its nodes.
    pub open spec fn wf(&self) -> bool {
        &&& self.graph.wf()
        &&& self.graph.start is Some
        &&& self.test_reachable_node < self.graph.nodes.len()
    }
}

/// A recipe for a graph.
pub trait MakeGraph {
    /// Whether the recipe can be followed.
    spec fn usable(&self) -> bool;

    /// What to call the graph.
    fn name(&self) -> String;

    /// Builds the graph.
    fn make_graph(&self) -> (r: WorkflowGraphExt)
        requires
            self.usable(),
        ensures
            r.wf(),
    ;
}

} // verus!
