//! The encoding of a whole graph: every node in the order in which a
//! depth-first traversal leaves the nodes, successors first.

use vstd::prelude::*;
use crate::analysis::ast::child_names;
use crate::analysis::ast::EncodeError;
use crate::analysis::ast::NodeAST;
use crate::analysis::BuildError;
use crate::analysis::GraphVerifier;
use crate::analysis::layout::children_inputs;
use crate::analysis::layout::counted;
use crate::analysis::layout::input_keys_of;
use crate::analysis::layout::inputs_to_depth;
use crate::analysis::layout::lemma_counted_bound;
use crate::analysis::layout::lemma_counted_mark;
use crate::analysis::layout::lemma_counted_none;
use crate::analysis::layout::origins_before;
use crate::analysis::layout::output_keys_of;
use crate::analysis::layout::outputs_to_depth;
use crate::analysis::layout::total_variables;
use crate::analysis::layout::variables_before;
use crate::analysis::oracle::SolverContext;
use crate::analysis::oracle::TERM_LIMIT;
use crate::analysis::oracle::VARIABLE_LIMIT;
use crate::analysis::symbol::SymbolFactory;
use crate::analysis::topsort::cleared;
use crate::analysis::topsort::distinct_nodes;
use crate::analysis::topsort::has_cycle;
use crate::analysis::topsort::lemma_mark;
use crate::analysis::topsort::placed_before;
use crate::analysis::topsort::post_order;
use crate::analysis::topsort::reachable;
use crate::analysis::topsort::SortError;
use crate::analysis::topsort::sorts;
use crate::analysis::topsort::successors_first;
use crate::analysis::topsort::topological_sort_reversed;
use crate::analysis::topsort::unmarked;
use crate::workflow::NodeIdx;
use crate::workflow::WorkflowGraph;

verus! {

/// The encodings that `arena` holds, by position.
pub open spec fn unwrapped<'ctx, 'g>(arena: Seq<Option<NodeAST<'ctx, 'g>>>) -> Seq<
    NodeAST<'ctx, 'g>,
> {
    Seq::new(arena.len(), |i: int| arena[i]->Some_0)
}

/// The encodings of the successors of node `u`, in edge order.
pub open spec fn children_of<'ctx, 'g>(
    graph: &WorkflowGraph,
    asts: Seq<NodeAST<'ctx, 'g>>,
    u: int,
) -> Seq<&'g NodeAST<'ctx, 'g>> {
    Seq::new(graph.adj_list[u].len() as nat, |e: int| &asts[graph.adj_list[u][e].0 as int])
}

/// `asts[u]` is the encoding of node `u` of `graph` in the session
/// `context`, above the encodings of its successors in `asts`.
pub open spec fn node_fits<'ctx, 'g>(
    graph: &WorkflowGraph,
    context: &SolverContext,
    asts: Seq<NodeAST<'ctx, 'g>>,
    u: int,
) -> bool {
    &&& asts[u].wf()
    &&& asts[u].ctx == context
    &&& asts[u].node == &graph.nodes[u]
    &&& asts[u].transition_constraints@.len() == graph.adj_list[u].len()
    &&& asts[u].encodes(children_of(graph, asts, u))
}

/// The number of edges that leave the nodes below `u`.
pub open spec fn edges_below(graph: &WorkflowGraph, u: int) -> nat
    decreases u,
{
    if u <= 0 {
        0
    } else {
        edges_below(graph, u - 1) + graph.adj_list[u - 1]@.len()
    }
}

/// The solver takes every list of terms that the analyses of `graph` put
/// together: one term or two for each node, one for each edge, one for
/// each rule of a node.
pub open spec fn fits(graph: &WorkflowGraph) -> bool {
    &&& 2 * graph.nodes.len() + 1 <= TERM_LIMIT
    &&& edges_below(graph, graph.adj_list.len() as int) <= TERM_LIMIT
    &&& forall|u: int|
        0 <= u < graph.nodes.len() ==> (#[trigger] graph.nodes[u]).output_schema.dynamic_keys@.len()
            < TERM_LIMIT
}

/// The nodes below `b` have no fewer edges than those below `a`.
pub proof fn lemma_edges_below(graph: &WorkflowGraph, a: int, b: int)
    requires
        0 <= a <= b,
    ensures
        edges_below(graph, a) <= edges_below(graph, b),
    decreases b - a,
{
    if a < b {
        lemma_edges_below(graph, a, b - 1);
    }
}

/// Whether the solver takes every list of terms that the analyses of
/// `graph` put together.
pub fn fits_solver(graph: &WorkflowGraph) -> (r: bool)
    ensures
        r == fits(graph),
{
    if graph.nodes.len() > (TERM_LIMIT - 1) / 2 {
        return false;
    }
    let mut u: usize = 0;
    while u < graph.nodes.len()
        invariant
            u <= graph.nodes.len(),
            forall|w: int|
                0 <= w < u ==> (#[trigger] graph.nodes[w]).output_schema.dynamic_keys@.len()
                    < TERM_LIMIT,
        decreases graph.nodes.len() - u,
    {
        if graph.nodes[u].output_schema.dynamic_keys.len() >= TERM_LIMIT {
            return false;
        }
        u = u + 1;
    }
    let mut edges: usize = 0;
    let mut u: usize = 0;
    while u < graph.adj_list.len()
        invariant
            u <= graph.adj_list.len(),
            edges == edges_below(graph, u as int),
            edges <= TERM_LIMIT,
        decreases graph.adj_list.len() - u,
    {
        if graph.adj_list[u].len() > TERM_LIMIT - edges {
            proof {
                lemma_edges_below(graph, u + 1, graph.adj_list.len() as int);
            }
            return false;
        }
        edges = edges + graph.adj_list[u].len();
        u = u + 1;
    }
    true
}

/// What is known of the node at position `t` of `order` once it is
/// encoded: its encoding stands in `arena`, fits the graph, begins with the
/// variable that follows those of the nodes before it, and has the input
/// keys that the graph gives it.
pub open spec fn encoded_at<'ctx, 'g>(
    graph: &WorkflowGraph,
    context: &SolverContext,
    arena: Seq<Option<NodeAST<'ctx, 'g>>>,
    order: Seq<NodeIdx>,
    base: nat,
    t: int,
) -> bool {
    let u = order[t] as int;
    &&& arena[u] is Some
    &&& node_fits(graph, context, unwrapped(arena), u)
    &&& unwrapped(arena)[u].first_var == base + variables_before(graph, order, t)
    &&& unwrapped(arena)[u].within(
        (base + variables_before(graph, order, t)) as int,
        (base + variables_before(graph, order, t + 1)) as int,
    )
    &&& forall|depth: nat|
        depth > t ==> unwrapped(arena)[u].input_keys.names() == #[trigger] inputs_to_depth(
            graph,
            u,
            depth,
        )
    &&& forall|depth: nat|
        depth > t ==> unwrapped(arena)[u].output_keys.names() == #[trigger] outputs_to_depth(
            graph,
            u,
            depth,
        )
}

/// Whether every node of `graph` stands in `order`.
fn covers(graph: &WorkflowGraph, order: &Vec<NodeIdx>) -> (r: bool)
    requires
        distinct_nodes(order@),
        forall|t: int| 0 <= t < order@.len() ==> #[trigger] order@[t] < graph.nodes.len(),
    ensures
        r <==> forall|v: NodeIdx| v < graph.nodes.len() ==> order@.contains(v),
        order@.len() <= graph.nodes.len(),
{
    let n = graph.nodes.len();
    let mut listed = cleared(n);
    let mut k: usize = 0;
    while k < order.len()
        invariant
            k <= order@.len(),
            n == graph.nodes.len(),
            listed@.len() == n,
            distinct_nodes(order@),
            unmarked(listed@) + k == n,
            forall|t: int| 0 <= t < order@.len() ==> #[trigger] order@[t] < n,
            forall|v: int|
                0 <= v < n ==> (#[trigger] listed@[v] <==> placed_before(
                    order@,
                    v as usize,
                    k as int,
                )),
        decreases order@.len() - k,
    {
        let ghost before = listed@;
        proof {
            if before[order@[k as int] as int] {
                let k2 = choose|k2: int| 0 <= k2 < k && #[trigger] order@[k2] == order@[k as int];
            }
            lemma_mark(before, order@[k as int] as int);
        }
        listed.set(order[k], true);
        k = k + 1;
    }
    let mut v: usize = 0;
    while v < n
        invariant
            v <= n,
            n == graph.nodes.len(),
            order@.len() <= n,
            listed@.len() == n,
            forall|w: int|
                0 <= w < n ==> (#[trigger] listed@[w] <==> placed_before(
                    order@,
                    w as usize,
                    order@.len() as int,
                )),
            forall|w: NodeIdx| w < v ==> order@.contains(w),
        decreases n - v,
    {
        if !listed[v] {
            proof {
                if order@.contains(v) {
                    let k2 = choose|k2: int| 0 <= k2 < order@.len() && order@[k2] == v;
                }
            }
            return false;
        }
        proof {
            let k2 = choose|k2: int| 0 <= k2 < order@.len() && #[trigger] order@[k2] == v;
        }
        v = v + 1;
    }
    true
}

/// The encoding of the node at position `k` of `order` joins those of the
/// nodes before it.
proof fn lemma_encoded_step<'ctx, 'g>(
    graph: &WorkflowGraph,
    context: &SolverContext,
    before: Seq<Option<NodeAST<'ctx, 'g>>>,
    order: Seq<NodeIdx>,
    base: nat,
    k: int,
    ast: NodeAST<'ctx, 'g>,
)
    requires
        graph.wf(),
        distinct_nodes(order),
        successors_first(graph, order),
        forall|t: int| 0 <= t < order.len() ==> #[trigger] order[t] < graph.nodes.len(),
        0 <= k < order.len(),
        before.len() == graph.nodes.len(),
        forall|t: int| 0 <= t < k ==> #[trigger] encoded_at(graph, context, before, order, base, t),
        ast.wf(),
        ast.ctx == context,
        ast.node == &graph.nodes[order[k] as int],
        ast.first_var == base + variables_before(graph, order, k),
        ast.within(
            (base + variables_before(graph, order, k)) as int,
            (base + variables_before(graph, order, k + 1)) as int,
        ),
        ast.encodes(children_of(graph, unwrapped(before), order[k] as int)),
    ensures
        forall|t: int|
            0 <= t < k + 1 ==> #[trigger] encoded_at(
                graph,
                context,
                before.update(order[k] as int, Some(ast)),
                order,
                base,
                t,
            ),
{
    let u = order[k] as int;
    let after = before.update(u, Some(ast));
    let now = unwrapped(after);
    let then = unwrapped(before);
    lemma_children_inputs(graph, context, before, order, base, k);
    assert forall|t: int| 0 <= t < k + 1 implies #[trigger] encoded_at(
        graph,
        context,
        after,
        order,
        base,
        t,
    ) by {
        let w = order[t] as int;
        assert forall|x: int| 0 <= x < graph.adj_list[w].len() implies graph.adj_list[w][x].0
            != u by {
        }
        assert(children_of(graph, now, w) =~= children_of(graph, then, w));
        if t < k {
            assert(encoded_at(graph, context, before, order, base, t));
        } else {
            assert forall|depth: nat| depth > t implies ast.input_keys.names()
                == #[trigger] inputs_to_depth(graph, u, depth) by {
                assert(child_names(children_of(graph, then, u)) == children_inputs(graph, u, depth));
            }
        }
    }
}

/// The input keys of the encodings of the successors of the node at
/// position `k` of `order` are those that the graph gives them.
proof fn lemma_children_inputs<'ctx, 'g>(
    graph: &WorkflowGraph,
    context: &SolverContext,
    arena: Seq<Option<NodeAST<'ctx, 'g>>>,
    order: Seq<NodeIdx>,
    base: nat,
    k: int,
)
    requires
        graph.wf(),
        successors_first(graph, order),
        forall|t: int| 0 <= t < order.len() ==> #[trigger] order[t] < graph.nodes.len(),
        0 <= k < order.len(),
        arena.len() == graph.nodes.len(),
        forall|t: int| 0 <= t < k ==> #[trigger] encoded_at(graph, context, arena, order, base, t),
    ensures
        forall|depth: nat|
            depth > k ==> child_names(children_of(graph, unwrapped(arena), order[k] as int))
                == #[trigger] children_inputs(graph, order[k] as int, depth),
{
    let u = order[k] as int;
    let kids = children_of(graph, unwrapped(arena), u);
    assert forall|depth: nat| depth > k implies child_names(kids) == #[trigger] children_inputs(
        graph,
        u,
        depth,
    ) by {
        let by_graph = children_inputs(graph, u, depth);
        assert forall|e: int| 0 <= e < kids.len() implies child_names(kids)[e] == by_graph[e] by {
            let t = choose|t: int| 0 <= t < k && #[trigger] order[t] == graph.adj_list[u][e].0;
            assert(encoded_at(graph, context, arena, order, base, t));
            assert(unwrapped(arena)[order[t] as int].input_keys.names() == inputs_to_depth(
                graph,
                order[t] as int,
                (depth - 1) as nat,
            ));
        }
        assert(child_names(kids) =~= by_graph);
    }
}

/// The variables of the first `k` nodes of an order without repetition are
/// no more than those of all nodes, and are those of all nodes where the
/// order holds all.
proof fn lemma_variables_before(graph: &WorkflowGraph, order: Seq<NodeIdx>, k: int)
    requires
        distinct_nodes(order),
        forall|t: int| 0 <= t < order.len() ==> #[trigger] order[t] < graph.nodes.len(),
        0 <= k <= order.len(),
    ensures
        variables_before(graph, order, k) == counted(
            graph,
            Seq::new(graph.nodes.len() as nat, |v: int| placed_before(order, v as usize, k)),
            graph.nodes.len() as int,
        ),
        variables_before(graph, order, k) <= total_variables(graph),
        (forall|v: NodeIdx| v < graph.nodes.len() ==> order.contains(v)) && k == order.len()
            ==> variables_before(graph, order, k) == total_variables(graph),
    decreases k,
{
    let n = graph.nodes.len();
    let done = Seq::new(n as nat, |v: int| placed_before(order, v as usize, k));
    let all = Seq::new(n as nat, |v: int| true);
    if k == 0 {
        lemma_counted_none(graph, done, n as int);
    } else {
        lemma_variables_before(graph, order, k - 1);
        let less = Seq::new(n as nat, |v: int| placed_before(order, v as usize, k - 1));
        let u = order[k - 1] as int;
        if less[u] {
            let k2 = choose|k2: int| 0 <= k2 < k - 1 && #[trigger] order[k2] == order[k - 1];
        }
        lemma_counted_mark(graph, less, u, n as int);
        assert(less.update(u, true) =~= done) by {
            assert forall|v: int| 0 <= v < n implies less.update(u, true)[v] == done[v] by {
                if placed_before(order, v as usize, k) {
                    let k2 = choose|k2: int| 0 <= k2 < k && #[trigger] order[k2] == v as usize;
                    if k2 < k - 1 {
                    }
                }
                if less[v] {
                    let k2 = choose|k2: int| 0 <= k2 < k - 1 && #[trigger] order[k2] == v as usize;
                }
                if v == u {
                }
            }
        }
    }
    lemma_counted_bound(graph, done, all, n as int);
    if (forall|v: NodeIdx| v < n ==> order.contains(v)) && k == order.len() {
        assert forall|v: int| 0 <= v < n implies done[v] by {
            assert(order.contains(v as usize));
            let t = choose|t: int| 0 <= t < order.len() && order[t] == v as usize;
        }
    }
}

/// Once every node of an order that holds all nodes is encoded, every
/// node has its encoding, with the keys that the graph gives it and the
/// variables that its place in the order gives it.
proof fn lemma_all_encoded<'ctx, 'g>(
    graph: &WorkflowGraph,
    context: &SolverContext,
    full: Seq<Option<NodeAST<'ctx, 'g>>>,
    order: Seq<NodeIdx>,
    base: nat,
)
    requires
        full.len() == graph.nodes.len(),
        order.len() <= graph.nodes.len(),
        forall|t: int| 0 <= t < order.len() ==> #[trigger] order[t] < graph.nodes.len(),
        forall|v: NodeIdx| v < graph.nodes.len() ==> order.contains(v),
        forall|t: int| 0 <= t < order.len() ==> #[trigger] encoded_at(graph, context, full, order, base, t),
    ensures
        forall|w: int| 0 <= w < full.len() ==> (#[trigger] full[w]) is Some,
        forall|u: int| 0 <= u < full.len() ==> #[trigger] node_fits(graph, context, unwrapped(full), u),
        forall|u: int|
            0 <= u < full.len() ==> (#[trigger] unwrapped(full)[u]).input_keys.names()
                == input_keys_of(graph, u) && unwrapped(full)[u].output_keys.names()
                == output_keys_of(graph, u),
        forall|k: int|
            0 <= k < order.len() ==> unwrapped(full)[(#[trigger] order[k]) as int].first_var == base
                + variables_before(graph, order, k),
{
    assert forall|u: int| 0 <= u < full.len() implies (#[trigger] full[u]) is Some && node_fits(
        graph,
        context,
        unwrapped(full),
        u,
    ) && unwrapped(full)[u].input_keys.names() == input_keys_of(graph, u) && unwrapped(
        full,
    )[u].output_keys.names() == output_keys_of(graph, u) by {
        assert(order.contains(u as usize));
        let t = choose|t: int| 0 <= t < order.len() && order[t] == u as usize;
        assert(encoded_at(graph, context, full, order, base, t));
        assert(unwrapped(full)[u].input_keys.names() == inputs_to_depth(
            graph,
            u,
            graph.nodes.len() as nat,
        ));
        assert(unwrapped(full)[u].output_keys.names() == outputs_to_depth(
            graph,
            u,
            graph.nodes.len() as nat,
        ));
    }
    assert forall|k: int| 0 <= k < order.len() implies unwrapped(full)[(
    #[trigger] order[k]) as int].first_var == base + variables_before(graph, order, k) by {
        assert(encoded_at(graph, context, full, order, base, k));
    }
}

/// Encodes the nodes of `order` one after the other. `None`, with the
/// registry used up, where the variables run out.
fn encode_in_order<'ctx, 'g>(
    graph: &'g WorkflowGraph,
    context: &'ctx SolverContext,
    registry: &mut SymbolFactory,
    order: &Vec<NodeIdx>,
) -> (r: Option<Vec<Option<NodeAST<'ctx, 'g>>>>)
    requires
        graph.wf(),
        fits(graph),
        old(registry).wf(),
        distinct_nodes(order@),
        successors_first(graph, order@),
        forall|t: int| 0 <= t < order@.len() ==> #[trigger] order@[t] < graph.nodes.len(),
        forall|v: NodeIdx| v < graph.nodes.len() ==> order@.contains(v),
        order@.len() <= graph.nodes.len(),
    ensures
        final(registry).wf(),
        r is None <==> old(registry).count() + total_variables(graph) > VARIABLE_LIMIT,
        r is None ==> final(registry).count() == VARIABLE_LIMIT,
        r matches Some(arena) ==> final(registry).origins() == old(registry).origins()
            + origins_before(graph, order@, order@.len() as int),
        r matches Some(arena) ==> arena@.len() == graph.nodes.len() && final(registry).count()
            == old(registry).count() + total_variables(graph) && forall|t: int|
            0 <= t < order@.len() ==> #[trigger] encoded_at(
                graph,
                context,
                arena@,
                order@,
                old(registry).count(),
                t,
            ),
{
    let n = graph.nodes.len();
    let ghost base = registry.count();
    let mut arena: Vec<Option<NodeAST<'ctx, 'g>>> = Vec::new();
    while arena.len() < n
        invariant
            arena@.len() <= n,
        decreases n - arena@.len(),
    {
        arena.push(None);
    }
    let mut k: usize = 0;
    while k < order.len()
        invariant
            k <= order@.len(),
            order@.len() <= n,
            n == graph.nodes.len(),
            graph.wf(),
            fits(graph),
            registry.wf(),
            base == old(registry).count(),
            distinct_nodes(order@),
            successors_first(graph, order@),
            forall|t: int| 0 <= t < order@.len() ==> #[trigger] order@[t] < n,
            forall|v: NodeIdx| v < graph.nodes.len() ==> order@.contains(v),
            arena@.len() == n,
            registry.count() == base + variables_before(graph, order@, k as int),
            registry.origins() == old(registry).origins() + origins_before(graph, order@, k as int),
            forall|t: int|
                0 <= t < k ==> #[trigger] encoded_at(graph, context, arena@, order@, base, t),
        decreases order@.len() - k,
    {
        let u = order[k];
        let children = successors(graph, context, &arena, order, k, Ghost(base));
        let ghost before = arena@;
        proof {
            lemma_children_inputs(graph, context, before, order@, base, k as int);
            lemma_variables_before(graph, order@, k + 1);
            lemma_variables_before(graph, order@, order@.len() as int);
        }
        let ast = match NodeAST::new(context, registry, &graph.nodes[u], graph, children.as_slice()) {
            Ok(ast) => ast,
            Err(EncodeError::OutOfVariables) => {
                return None;
            },
        };
        proof {
            lemma_encoded_step(graph, context, before, order@, base, k as int, ast);
            assert(registry.origins() =~= old(registry).origins() + origins_before(
                graph,
                order@,
                k + 1,
            ));
        }
        arena.set(u, Some(ast));
        k = k + 1;
    }
    proof {
        lemma_variables_before(graph, order@, order@.len() as int);
    }
    Some(arena)
}

/// The nodes up to a later place of an order take no fewer variables than
/// those up to an earlier one.
proof fn lemma_variables_grow(graph: &WorkflowGraph, order: Seq<NodeIdx>, a: int, b: int)
    requires
        0 <= a <= b,
    ensures
        variables_before(graph, order, a) <= variables_before(graph, order, b),
    decreases b - a,
{
    if a < b {
        lemma_variables_grow(graph, order, a, b - 1);
    }
}

/// The encodings of the successors of the node at position `k` of `order`,
/// in edge order.
fn successors<'a, 'ctx, 'g>(
    graph: &'g WorkflowGraph,
    context: &'ctx SolverContext,
    arena: &'a Vec<Option<NodeAST<'ctx, 'g>>>,
    order: &Vec<NodeIdx>,
    k: usize,
    Ghost(base): Ghost<nat>,
) -> (r: Vec<&'a NodeAST<'ctx, 'g>>)
    requires
        graph.wf(),
        successors_first(graph, order@),
        forall|t: int| 0 <= t < order@.len() ==> #[trigger] order@[t] < graph.nodes.len(),
        k < order@.len(),
        arena@.len() == graph.nodes.len(),
        forall|t: int| 0 <= t < k ==> #[trigger] encoded_at(graph, context, arena@, order@, base, t),
    ensures
        r@ == children_of(graph, unwrapped(arena@), order@[k as int] as int),
        forall|i: int|
            0 <= i < r@.len() ==> (#[trigger] r@[i]).wf() && r@[i].ctx.id() == context.id()
                && r@[i].within(0, (base + variables_before(graph, order@, k as int)) as int),
{
    let u = order[k];
    let mut children: Vec<&'a NodeAST<'ctx, 'g>> = Vec::new();
    let mut e: usize = 0;
    while e < graph.adj_list[u].len()
        invariant
            e <= graph.adj_list[u as int].len(),
            u == order@[k as int],
            k < order@.len(),
            u < graph.nodes.len(),
            graph.wf(),
            arena@.len() == graph.nodes.len(),
            successors_first(graph, order@),
            forall|t: int|
                0 <= t < k ==> #[trigger] encoded_at(graph, context, arena@, order@, base, t),
            children@.len() == e,
            forall|t: int|
                0 <= t < e ==> *(#[trigger] children@[t]) == unwrapped(
                    arena@,
                )[graph.adj_list[u as int][t].0 as int] && children@[t].wf() && children@[t].ctx.id()
                    == context.id() && children@[t].within(
                    0,
                    (base + variables_before(graph, order@, k as int)) as int,
                ),
        decreases graph.adj_list[u as int].len() - e,
    {
        let c = graph.adj_list[u][e].0;
        proof {
            let k2 = choose|k2: int| 0 <= k2 < k && #[trigger] order@[k2] == c;
            assert(encoded_at(graph, context, arena@, order@, base, k2));
            lemma_variables_grow(graph, order@, k2 + 1, k as int);
        }
        match &arena[c] {
            Some(child) => {
                children.push(child);
            },
            None => {
                unreached::<()>();
            },
        }
        e = e + 1;
    }
    children
}

/// The encodings that `arena` holds, by position.
fn take_all<'ctx, 'g>(arena: Vec<Option<NodeAST<'ctx, 'g>>>) -> (r: Vec<NodeAST<'ctx, 'g>>)
    requires
        forall|w: int| 0 <= w < arena@.len() ==> (#[trigger] arena@[w]) is Some,
    ensures
        r@ == unwrapped(arena@),
{
    let mut arena = arena;
    let ghost full = arena@;
    let n = arena.len();
    let mut node_asts: Vec<NodeAST<'ctx, 'g>> = Vec::new();
    let mut v: usize = 0;
    while v < n
        invariant
            v <= n,
            arena@.len() == n,
            full.len() == n,
            forall|w: int| 0 <= w < n ==> (#[trigger] full[w]) is Some,
            forall|w: int| v <= w < n ==> arena@[w] == full[w],
            node_asts@.len() == v,
            forall|w: int| 0 <= w < v ==> node_asts@[w] == unwrapped(full)[w],
        decreases n - v,
    {
        let slot = arena[v].take();
        assert(slot == full[v as int]);
        match slot {
            Some(ast) => {
                node_asts.push(ast);
            },
            None => {
                unreached::<()>();
            },
        }
        v = v + 1;
    }
    node_asts
}

impl<'ctx, 'g> GraphVerifier<'ctx, 'g> {
    /// Encodes every node of `graph`, successors first, with variables
    /// from `registry`.
    pub fn new(
        graph: &'g WorkflowGraph,
        context: &'ctx SolverContext,
        registry: &mut SymbolFactory,
    ) -> (r: Result<Self, BuildError>)
        requires
            graph.wf(),
            fits(graph),
            old(registry).wf(),
        ensures
            final(registry).wf(),
            r == Err::<Self, BuildError>(BuildError::MissingStart) <==> graph.start is None,
            r == Err::<Self, BuildError>(BuildError::Cycle) <==> graph.start is Some && has_cycle(
                graph,
            ),
            r == Err::<Self, BuildError>(BuildError::DetachedNode) <==> graph.start is Some
                && !has_cycle(graph) && exists|v: NodeIdx|
                v < graph.nodes.len() && !reachable(graph, v),
            r == Err::<Self, BuildError>(BuildError::OutOfVariables) <==> graph.start is Some
                && !has_cycle(graph) && (forall|v: NodeIdx|
                v < graph.nodes.len() ==> reachable(graph, v)) && old(registry).count()
                + total_variables(graph) > VARIABLE_LIMIT,
            r == Err::<Self, BuildError>(BuildError::OutOfVariables) ==> final(registry).count()
                == VARIABLE_LIMIT,
            r is Err && r != Err::<Self, BuildError>(BuildError::OutOfVariables) ==> final(registry).count()
                == old(registry).count() && final(registry).origins() == old(registry).origins(),
            r matches Ok(verifier) ==> verifier.wf() && verifier.graph == graph && verifier.context
                == context && verifier.laid_out(old(registry).count()) && final(registry).count()
                == old(registry).count() + total_variables(graph) && final(registry).origins()
                == old(registry).origins() + origins_before(
                graph,
                post_order(graph),
                post_order(graph).len() as int,
            ),
    {
        let order = match topological_sort_reversed(graph) {
            Err(SortError::MissingStart) => {
                return Err(BuildError::MissingStart);
            },
            Err(SortError::Cycle) => {
                return Err(BuildError::Cycle);
            },
            Ok(order) => order,
        };
        if !covers(graph, &order) {
            proof {
                let v = choose|v: NodeIdx| v < graph.nodes.len() && !order@.contains(v);
                assert(v < graph.nodes.len() && !reachable(graph, v));
            }
            return Err(BuildError::DetachedNode);
        }
        let ghost base = registry.count();
        let arena = match encode_in_order(graph, context, registry, &order) {
            Some(arena) => arena,
            None => {
                return Err(BuildError::OutOfVariables);
            },
        };
        Ok(Self::assembled(graph, context, arena, &order, Ghost(base)))
    }

    /// The verifier of a graph whose nodes are all encoded in `arena`.
    fn assembled(
        graph: &'g WorkflowGraph,
        context: &'ctx SolverContext,
        arena: Vec<Option<NodeAST<'ctx, 'g>>>,
        order: &Vec<NodeIdx>,
        Ghost(base): Ghost<nat>,
    ) -> (verifier: Self)
        requires
            graph.wf(),
            fits(graph),
            graph.start is Some,
            order@ == post_order(graph),
            sorts(graph, order@),
            arena@.len() == graph.nodes.len(),
            order@.len() <= graph.nodes.len(),
            forall|t: int| 0 <= t < order@.len() ==> #[trigger] order@[t] < graph.nodes.len(),
            forall|v: NodeIdx| v < graph.nodes.len() ==> order@.contains(v),
            forall|t: int|
                0 <= t < order@.len() ==> #[trigger] encoded_at(
                    graph,
                    context,
                    arena@,
                    order@,
                    base,
                    t,
                ),
        ensures
            verifier.wf(),
            verifier.graph == graph,
            verifier.context == context,
            verifier.laid_out(base),
    {
        proof {
            lemma_all_encoded(graph, context, arena@, order@, base);
        }
        let node_asts = take_all(arena);
        let verifier = Self { context, graph, node_asts };
        proof {
            assert(verifier.laid_out(base));
        }
        verifier
    }

    /// Every node has the input keys that the graph gives it, and its
    /// variables follow those of the nodes that a depth-first traversal
    /// leaves before it, the first of which has the number `base`.
    pub open spec fn laid_out(&self, base: nat) -> bool {
        let order = post_order(self.graph);
        &&& forall|u: int|
            0 <= u < self.node_asts@.len() ==> (#[trigger] self.node_asts@[u]).input_keys.names()
                == input_keys_of(self.graph, u) && self.node_asts@[u].output_keys.names()
                == output_keys_of(self.graph, u)
        &&& forall|k: int|
            0 <= k < order.len() ==> self.node_asts@[(#[trigger] order[k]) as int].first_var == base
                + variables_before(self.graph, order, k)
    }
}

} // verus!
