//! Workflow graphs: nodes with input keys and output schemas, and edges
//! between them.

use vstd::prelude::*;
use crate::workflow::schema::InputCond;
use crate::workflow::schema::OutputSchema;

pub mod schema;

verus! {

/// Index of a node in its graph.
pub type NodeIdx = usize;

/// One processing step of a workflow.
#[derive(Debug, Clone)]
pub struct Node {
    pub id: NodeIdx,
    pub name: String,
    pub required_inputs: Vec<String>,
    pub output_schema: OutputSchema,
}

impl Node {
    /// A node of these parts.
    pub fn new(
        id: NodeIdx,
        name: String,
        required_inputs: Vec<String>,
        output_schema: OutputSchema,
    ) -> (r: Self)
        ensures
            r.id == id,
            r.name == name,
            r.required_inputs == required_inputs,
            r.output_schema == output_schema,
    {
        Self { id, name, required_inputs, output_schema }
    }
}

/// A directed graph of nodes with conditions on its edges.
#[derive(Debug, Clone)]
pub struct WorkflowGraph {
    pub nodes: Vec<Node>,
    pub adj_list: Vec<Vec<(NodeIdx, Vec<InputCond>)>>,
    pub start: Option<NodeIdx>,
}

impl WorkflowGraph {
    /// Every node sits at the index that is its id, every node has its edge
    /// list, and edges and start name nodes of the graph.
    pub open spec fn wf(&self) -> bool {
        &&& self.adj_list.len() == self.nodes.len()
        &&& forall|i: int| 0 <= i < self.nodes.len() ==> (#[trigger] self.nodes[i]).id == i
        &&& forall|i: int, e: int|
            0 <= i < self.adj_list.len() && 0 <= e < self.adj_list[i].len() ==> (
            #[trigger] self.adj_list[i][e]).0 < self.nodes.len()
        &&& self.start matches Some(s) ==> s < self.nodes.len()
    }

    /// The nodes to which the edges of node `u` lead, in edge order.
    pub open spec fn targets(&self, u: int) -> Seq<NodeIdx> {
        Seq::new(self.adj_list[u]@.len(), |e: int| self.adj_list[u][e].0)
    }

    /// Whether the graph is in order.
    pub fn is_well_formed(&self) -> (r: bool)
        ensures
            r == self.wf(),
    {
        let n = self.nodes.len();
        if self.adj_list.len() != n {
            return false;
        }
        match self.start {
            Some(s) => {
                if s >= n {
                    return false;
                }
            },
            None => {},
        }
        let mut i: usize = 0;
        while i < n
            invariant
                i <= n,
                n == self.nodes.len(),
                self.adj_list.len() == n,
                forall|t: int| 0 <= t < i ==> (#[trigger] self.nodes[t]).id == t,
                forall|t: int, e: int|
                    0 <= t < i && 0 <= e < self.adj_list[t].len() ==> (
                    #[trigger] self.adj_list[t][e]).0 < n,
            decreases n - i,
        {
            if self.nodes[i].id != i {
                return false;
            }
            let mut e: usize = 0;
            while e < self.adj_list[i].len()
                invariant
                    i < n,
                    n == self.nodes.len(),
                    self.adj_list.len() == n,
                    e <= self.adj_list[i as int].len(),
                    forall|x: int| 0 <= x < e ==> (#[trigger] self.adj_list[i as int][x]).0 < n,
                decreases self.adj_list[i as int].len() - e,
            {
                if self.adj_list[i][e].0 >= n {
                    return false;
                }
                e = e + 1;
            }
            i = i + 1;
        }
        true
    }

    /// A graph without nodes and without a start.
    pub fn new() -> (r: Self)
        ensures
            r.nodes@.len() == 0,
            r.adj_list@.len() == 0,
            r.start is None,
            r.wf(),
    {
        Self { nodes: Vec::new(), adj_list: Vec::new(), start: None }
    }

    /// Appends a node without edges and returns its id.
    pub fn add_node(
        &mut self,
        name: &str,
        required_inputs: Vec<String>,
        output_schema: OutputSchema,
    ) -> (id: NodeIdx)
        ensures
            id == old(self).nodes.len(),
            final(self).nodes@.len() == old(self).nodes@.len() + 1,
            final(self).nodes@.drop_last() == old(self).nodes@,
            final(self).nodes@.last().id == id,
            final(self).nodes@.last().name@ == name@,
            final(self).nodes@.last().required_inputs == required_inputs,
            final(self).nodes@.last().output_schema == output_schema,
            final(self).adj_list@.len() == old(self).adj_list@.len() + 1,
            final(self).adj_list@.drop_last() == old(self).adj_list@,
            final(self).adj_list@.last()@.len() == 0,
            final(self).start == old(self).start,
            old(self).wf() ==> final(self).wf(),
    {
        let id = self.nodes.len();
        self.nodes.push(Node::new(id, name.to_owned(), required_inputs, output_schema));
        self.adj_list.push(Vec::new());
        id
    }

    /// Adds an edge from `src` to `dst` with the conditions under which it
    /// may be taken. The conditions are kept with the edge; the analyses
    /// encode when an edge is taken from the keys of its two nodes alone.
    pub fn add_edge(
        &mut self,
        src: NodeIdx,
        dst: NodeIdx,
        additional_transition_condition: Vec<InputCond>,
    ) -> (r: &mut Self)
        requires
            src < old(self).adj_list.len(),
            dst < old(self).nodes.len(),
        ensures
            r.nodes == old(self).nodes,
            r.start == old(self).start,
            r.adj_list@ == old(self).adj_list@.update(
                src as int,
                r.adj_list@[src as int],
            ),
            r.adj_list@[src as int]@ == old(self).adj_list@[src as int]@.push(
                (dst, additional_transition_condition),
            ),
            old(self).wf() ==> r.wf(),
            *final(self) == *final(r),
    {
        self.adj_list[src].push((dst, additional_transition_condition));
        self
    }

    /// Marks `node` as the one where execution begins.
    pub fn set_start(&mut self, node: NodeIdx) -> (r: &mut Self)
        requires
            old(self).start is None,
            node < old(self).nodes.len(),
        ensures
            r.nodes == old(self).nodes,
            r.adj_list == old(self).adj_list,
            r.start == Some(node),
            old(self).wf() ==> r.wf(),
            *final(self) == *final(r),
    {
        self.start = Some(node);
        self
    }

    /// The node with the id `node`.
    pub fn get_node(&self, node: NodeIdx) -> (r: &Node)
        requires
            node < self.nodes.len(),
        ensures
            *r == self.nodes[node as int],
    {
        &self.nodes[node]
    }
}

} // verus!
