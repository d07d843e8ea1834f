//! Which keys the nodes of a graph have in its encoding, and how many
//! variables that takes, as mathematics over the graph alone.

use vstd::prelude::*;
use crate::analysis::ast::DEMANDED_OUTPUT;
use crate::analysis::ast::origins_at;
use crate::analysis::ast::REQUIRED_INPUT;
use crate::analysis::ast::RULE_INPUT;
use crate::analysis::encoding::demanded;
use crate::analysis::encoding::input_names;
use crate::analysis::encoding::required_names;
use crate::analysis::symbol::SymbolOrigin;
use crate::workflow::NodeIdx;
use crate::workflow::schema::KeyName;
use crate::workflow::WorkflowGraph;

verus! {

/// The input keys of node `u`, its successors followed to a depth of
/// `depth` nodes.
pub open spec fn inputs_to_depth(graph: &WorkflowGraph, u: int, depth: nat) -> Seq<KeyName>
    decreases depth, 1int,
{
    if depth == 0 {
        Seq::empty()
    } else {
        input_names(
            graph.nodes[u].required_inputs@,
            graph.nodes[u].output_schema.dynamic_keys@,
            demanded(children_inputs(graph, u, depth)),
        )
    }
}

/// The input keys of each successor of node `u`, in edge order, where the
/// node itself counts for the depth.
pub open spec fn children_inputs(graph: &WorkflowGraph, u: int, depth: nat) -> Seq<Seq<KeyName>>
    decreases depth, 0int,
{
    Seq::new(
        graph.adj_list[u].len() as nat,
        |e: int|
            if depth == 0 {
                Seq::empty()
            } else {
                inputs_to_depth(graph, graph.adj_list[u][e].0 as int, (depth - 1) as nat)
            },
    )
}

/// The output keys of node `u`, its successors followed to a depth of
/// `depth` nodes: what the successors take as input.
pub open spec fn outputs_to_depth(graph: &WorkflowGraph, u: int, depth: nat) -> Seq<KeyName> {
    demanded(children_inputs(graph, u, depth))
}

/// The input keys of node `u` in the encoding of `graph`. No path of a
/// graph without cycles holds more nodes than the graph has.
pub open spec fn input_keys_of(graph: &WorkflowGraph, u: int) -> Seq<KeyName> {
    inputs_to_depth(graph, u, graph.nodes.len() as nat)
}

/// The output keys of node `u` in the encoding of `graph`.
pub open spec fn output_keys_of(graph: &WorkflowGraph, u: int) -> Seq<KeyName> {
    outputs_to_depth(graph, u, graph.nodes.len() as nat)
}

/// How many variables the encoding of node `u` takes.
pub open spec fn node_variables(graph: &WorkflowGraph, u: int) -> nat {
    input_keys_of(graph, u).len() + output_keys_of(graph, u).len()
}

/// How many variables the encodings of the nodes below `k` that `done`
/// marks take.
pub open spec fn counted(graph: &WorkflowGraph, done: Seq<bool>, k: int) -> nat
    decreases k,
{
    if k <= 0 {
        0
    } else {
        counted(graph, done, k - 1) + if done[k - 1] {
            node_variables(graph, k - 1)
        } else {
            0
        }
    }
}

/// The origins that the registry records for the variables of node `u`:
/// first those of the required inputs, then those of the output keys, then
/// those of the input keys that only rules name.
pub open spec fn node_origins(graph: &WorkflowGraph, u: int) -> Seq<SymbolOrigin> {
    let required = required_names(graph.nodes[u].required_inputs@).len();
    origins_at(REQUIRED_INPUT, required as int) + origins_at(
        DEMANDED_OUTPUT,
        output_keys_of(graph, u).len() as int,
    ) + origins_at(RULE_INPUT, input_keys_of(graph, u).len() - required)
}

/// The origins that the registry records for the variables of the first
/// `k` nodes of `order`.
pub open spec fn origins_before(graph: &WorkflowGraph, order: Seq<NodeIdx>, k: int) -> Seq<
    SymbolOrigin,
>
    decreases k,
{
    if k <= 0 {
        Seq::empty()
    } else {
        origins_before(graph, order, k - 1) + node_origins(graph, order[k - 1] as int)
    }
}

/// How many variables the encodings of the first `k` nodes of `order` take.
pub open spec fn variables_before(graph: &WorkflowGraph, order: Seq<NodeIdx>, k: int) -> nat
    decreases k,
{
    if k <= 0 {
        0
    } else {
        variables_before(graph, order, k - 1) + node_variables(graph, order[k - 1] as int)
    }
}

/// How many variables the encoding of `graph` takes.
pub open spec fn total_variables(graph: &WorkflowGraph) -> nat {
    counted(graph, Seq::new(graph.nodes.len() as nat, |u: int| true), graph.nodes.len() as int)
}

/// Where no node is marked, nothing is counted.
pub proof fn lemma_counted_none(graph: &WorkflowGraph, done: Seq<bool>, k: int)
    requires
        0 <= k <= done.len(),
        forall|u: int| 0 <= u < done.len() ==> !done[u],
    ensures
        counted(graph, done, k) == 0,
    decreases k,
{
    if k > 0 {
        lemma_counted_none(graph, done, k - 1);
    }
}

/// One more node counts for its variables.
pub proof fn lemma_counted_mark(graph: &WorkflowGraph, done: Seq<bool>, u: int, k: int)
    requires
        0 <= u < done.len(),
        0 <= k <= done.len(),
        !done[u],
    ensures
        counted(graph, done.update(u, true), k) == counted(graph, done, k) + if u < k {
            node_variables(graph, u)
        } else {
            0
        },
    decreases k,
{
    if k > 0 {
        lemma_counted_mark(graph, done, u, k - 1);
    }
}

/// Nodes that are marked count for no more than all nodes.
pub proof fn lemma_counted_bound(graph: &WorkflowGraph, done: Seq<bool>, all: Seq<bool>, k: int)
    requires
        0 <= k <= done.len(),
        done.len() == all.len(),
        forall|u: int| 0 <= u < all.len() ==> all[u],
    ensures
        counted(graph, done, k) <= counted(graph, all, k),
        (forall|u: int| 0 <= u < k ==> done[u]) ==> counted(graph, done, k) == counted(
            graph,
            all,
            k,
        ),
    decreases k,
{
    if k > 0 {
        lemma_counted_bound(graph, done, all, k - 1);
    }
}

} // verus!
