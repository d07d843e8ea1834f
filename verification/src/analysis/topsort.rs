//! The order in which nodes are encoded: successors first.

use vstd::prelude::*;
use crate::workflow::NodeIdx;
use crate::workflow::WorkflowGraph;

verus! {

/// Why a graph has no encoding order.
#[derive(Debug, Clone, Copy, PartialEq, Eq, Structural)]
pub enum SortError {
    /// The graph has no start node.
    MissingStart,
    /// Some node that can be reached from the start lies on a cycle.
    Cycle,
}

/// `graph` has an edge from `u` to `v`.
pub open spec fn has_edge(graph: &WorkflowGraph, u: NodeIdx, v: NodeIdx) -> bool {
    &&& u < graph.adj_list.len()
    &&& exists|e: int| 0 <= e < graph.adj_list[u as int].len() && (#[trigger] graph.adj_list[u as int][e]).0 == v
}

/// Each node of `walk` but the last has an edge to the next one.
pub open spec fn is_walk(graph: &WorkflowGraph, walk: Seq<NodeIdx>) -> bool {
    &&& walk.len() > 0
    &&& forall|i: int| 0 <= i < walk.len() - 1 ==> has_edge(graph, #[trigger] walk[i], walk[i + 1])
}

/// Edges of `graph` lead from `u` to `v`.
pub open spec fn reaches(graph: &WorkflowGraph, u: NodeIdx, v: NodeIdx) -> bool {
    exists|walk: Seq<NodeIdx>| #[trigger] is_walk(graph, walk) && walk.first() == u && walk.last() == v
}

/// Edges of `graph` lead from its start node to `v`.
pub open spec fn reachable(graph: &WorkflowGraph, v: NodeIdx) -> bool {
    graph.start matches Some(s) && reaches(graph, s, v)
}

/// Some node that can be reached from the start can be reached from itself
/// over at least one edge.
pub open spec fn has_cycle(graph: &WorkflowGraph) -> bool {
    exists|walk: Seq<NodeIdx>|
        #[trigger] is_walk(graph, walk) && walk.len() >= 2 && walk.first() == walk.last()
            && reachable(graph, walk.first())
}

/// No node occurs twice in `order`.
pub open spec fn distinct_nodes(order: Seq<NodeIdx>) -> bool {
    forall|i: int, j: int| 0 <= i < j < order.len() ==> order[i] != order[j]
}

/// `v` stands in `order` before position `k`.
pub open spec fn placed_before(order: Seq<NodeIdx>, v: NodeIdx, k: int) -> bool {
    exists|k2: int| 0 <= k2 < k && #[trigger] order[k2] == v
}

/// Every successor of a node of `order` stands in `order` before the node.
pub open spec fn successors_first(graph: &WorkflowGraph, order: Seq<NodeIdx>) -> bool {
    forall|k: int, e: int|
        #![trigger order[k], graph.adj_list[order[k] as int][e]]
        0 <= k < order.len() && order[k] < graph.adj_list.len() && 0 <= e
            < graph.adj_list[order[k] as int].len() ==> placed_before(
            order,
            graph.adj_list[order[k] as int][e].0,
            k,
        )
}

/// `order` holds every node of `graph` once and after all its successors.
pub open spec fn sorts(graph: &WorkflowGraph, order: Seq<NodeIdx>) -> bool {
    &&& distinct_nodes(order)
    &&& successors_first(graph, order)
    &&& forall|k: int| 0 <= k < order.len() ==> #[trigger] order[k] < graph.nodes.len()
    &&& forall|v: NodeIdx| v < graph.nodes.len() ==> order.contains(v)
}

/// How many entries of `marks` are false.
pub open spec fn unmarked(marks: Seq<bool>) -> nat
    decreases marks.len(),
{
    if marks.len() == 0 {
        0
    } else {
        unmarked(marks.drop_last()) + if marks.last() {
            0nat
        } else {
            1nat
        }
    }
}

/// A mark on a node that had none leaves one node fewer without a mark.
pub proof fn lemma_mark(marks: Seq<bool>, i: int)
    requires
        0 <= i < marks.len(),
        !marks[i],
    ensures
        unmarked(marks.update(i, true)) + 1 == unmarked(marks),
    decreases marks.len(),
{
    if i == marks.len() - 1 {
        assert(marks.update(i, true).drop_last() =~= marks.drop_last());
    } else {
        lemma_mark(marks.drop_last(), i);
        assert(marks.update(i, true).drop_last() =~= marks.drop_last().update(i, true));
    }
}

/// `marks` with a mark on every node of `nodes`.
pub open spec fn mark_all(marks: Seq<bool>, nodes: Seq<NodeIdx>) -> Seq<bool>
    decreases nodes.len(),
{
    if nodes.len() == 0 {
        marks
    } else {
        mark_all(marks, nodes.drop_last()).update(nodes.last() as int, true)
    }
}

/// The nodes that a depth-first traversal enters from `node` on, in the
/// order in which it leaves them, `node` last. It enters no node that
/// `seen` marks, and follows the edges of a node in their order. `fuel`
/// bounds the depth; the number of nodes without a mark is enough.
pub open spec fn post_order_from(
    graph: &WorkflowGraph,
    node: NodeIdx,
    seen: Seq<bool>,
    fuel: nat,
) -> Seq<NodeIdx>
    decreases fuel, 0int, 0int,
{
    if fuel == 0 {
        Seq::empty()
    } else {
        post_order_after(graph, node, 0, seen.update(node as int, true), (fuel - 1) as nat).push(
            node,
        )
    }
}

/// The nodes that the traversal enters over the edges of `node` from edge
/// `e` on, in the order in which it leaves them.
pub open spec fn post_order_after(
    graph: &WorkflowGraph,
    node: NodeIdx,
    e: int,
    seen: Seq<bool>,
    fuel: nat,
) -> Seq<NodeIdx>
    decreases fuel, 1int, graph.adj_list[node as int].len() - e,
{
    if e < 0 || e >= graph.adj_list[node as int].len() {
        Seq::empty()
    } else {
        let next = graph.adj_list[node as int][e].0;
        let first = if seen[next as int] {
            Seq::empty()
        } else {
            post_order_from(graph, next, seen, fuel)
        };
        first + post_order_after(graph, node, e + 1, mark_all(seen, first), fuel)
    }
}

/// The order in which a depth-first traversal from the start leaves the
/// nodes of `graph`.
pub open spec fn post_order(graph: &WorkflowGraph) -> Seq<NodeIdx> {
    post_order_from(
        graph,
        graph.start->Some_0,
        Seq::new(graph.nodes.len() as nat, |v: int| false),
        graph.nodes.len() as nat,
    )
}

/// Marking one list of nodes after another is marking both at once.
proof fn lemma_mark_all_concat(marks: Seq<bool>, first: Seq<NodeIdx>, then: Seq<NodeIdx>)
    ensures
        mark_all(mark_all(marks, first), then) == mark_all(marks, first + then),
    decreases then.len(),
{
    if then.len() == 0 {
    } else {
        lemma_mark_all_concat(marks, first, then.drop_last());
        assert((first + then).drop_last() =~= first + then.drop_last());
    }
}

/// It makes no difference whether a node is marked before or after a list
/// of nodes.
proof fn lemma_mark_all_commutes(marks: Seq<bool>, node: NodeIdx, nodes: Seq<NodeIdx>)
    requires
        node < marks.len(),
        forall|i: int| 0 <= i < nodes.len() ==> nodes[i] < marks.len(),
    ensures
        mark_all(marks.update(node as int, true), nodes) == mark_all(marks, nodes).update(
            node as int,
            true,
        ),
        mark_all(marks, nodes).len() == marks.len(),
    decreases nodes.len(),
{
    if nodes.len() > 0 {
        lemma_mark_all_commutes(marks, node, nodes.drop_last());
        let inner = mark_all(marks, nodes.drop_last());
    }
}

/// The state of a depth-first traversal between two steps: `visited` marks
/// the nodes that were entered, `open` those that were entered and not yet
/// left, which all lie on `stack`; the nodes that were left stand in `order`.
spec fn traversal(
    graph: &WorkflowGraph,
    visited: Seq<bool>,
    open: Seq<bool>,
    order: Seq<NodeIdx>,
    stack: Seq<NodeIdx>,
) -> bool {
    let n = graph.nodes.len();
    &&& graph.wf()
    &&& graph.start is Some
    &&& visited.len() == n
    &&& open.len() == n
    &&& forall|v: int| 0 <= v < n && #[trigger] open[v] ==> visited[v] && stack.contains(v as usize)
    &&& forall|v: int| 0 <= v < n ==> ((#[trigger] visited[v] && !open[v]) <==> order.contains(v as usize))
    &&& forall|k: int| 0 <= k < order.len() ==> #[trigger] order[k] < n
    &&& distinct_nodes(order)
    &&& successors_first(graph, order)
    &&& forall|v: int| 0 <= v < n && #[trigger] visited[v] ==> reachable(graph, v as usize)
    &&& forall|i: int| 0 <= i < stack.len() ==> #[trigger] stack[i] < n
    &&& forall|i: int| 0 <= i < stack.len() - 1 ==> has_edge(graph, #[trigger] stack[i], stack[i + 1])
}

/// A walk goes on over an edge that leaves its last node.
proof fn lemma_walk_push(graph: &WorkflowGraph, walk: Seq<NodeIdx>, v: NodeIdx)
    requires
        is_walk(graph, walk),
        has_edge(graph, walk.last(), v),
    ensures
        is_walk(graph, walk.push(v)),
        walk.push(v).first() == walk.first(),
        walk.push(v).last() == v,
{
    let longer = walk.push(v);
}

/// An edge that leaves a node that can be reached leads to one that can.
proof fn lemma_reachable_step(graph: &WorkflowGraph, u: NodeIdx, v: NodeIdx)
    requires
        reachable(graph, u),
        has_edge(graph, u, v),
    ensures
        reachable(graph, v),
{
    let s = graph.start->Some_0;
    let walk = choose|walk: Seq<NodeIdx>| #[trigger]
        is_walk(graph, walk) && walk.first() == s && walk.last() == u;
    lemma_walk_push(graph, walk, v);
}

/// A node on the stack that is met again closes a cycle.
proof fn lemma_cycle_found(
    graph: &WorkflowGraph,
    stack: Seq<NodeIdx>,
    node: NodeIdx,
    again: NodeIdx,
)
    requires
        stack.len() > 0,
        stack.last() == node,
        forall|i: int| 0 <= i < stack.len() - 1 ==> has_edge(graph, #[trigger] stack[i], stack[i + 1]),
        stack.contains(again),
        has_edge(graph, node, again),
        reachable(graph, again),
    ensures
        has_cycle(graph),
{
    let k = choose|k: int| 0 <= k < stack.len() && stack[k] == again;
    let tail = stack.subrange(k, stack.len() as int);
    lemma_walk_push(graph, tail, again);
    let walk = tail.push(again);
}

/// An order that puts successors first holds every node that edges lead to
/// from one of its nodes.
proof fn lemma_walk_stays(graph: &WorkflowGraph, order: Seq<NodeIdx>, walk: Seq<NodeIdx>, i: int)
    requires
        graph.wf(),
        successors_first(graph, order),
        forall|k: int| 0 <= k < order.len() ==> #[trigger] order[k] < graph.nodes.len(),
        is_walk(graph, walk),
        order.contains(walk.first()),
        0 <= i < walk.len(),
    ensures
        order.contains(walk[i]),
    decreases i,
{
    if i > 0 {
        lemma_walk_stays(graph, order, walk, i - 1);
        let u = walk[i - 1];
        let k = choose|k: int| 0 <= k < order.len() && order[k] == u;
        let e = choose|e: int|
            0 <= e < graph.adj_list[u as int].len() && (#[trigger] graph.adj_list[u as int][e]).0
                == walk[i];
    }
}

/// Along a walk through an order that puts successors first and holds no
/// node twice, positions fall.
proof fn lemma_walk_falls(graph: &WorkflowGraph, order: Seq<NodeIdx>, walk: Seq<NodeIdx>, i: int)
    requires
        graph.wf(),
        successors_first(graph, order),
        distinct_nodes(order),
        forall|k: int| 0 <= k < order.len() ==> #[trigger] order[k] < graph.nodes.len(),
        is_walk(graph, walk),
        order.contains(walk.first()),
        0 <= i < walk.len(),
    ensures
        order.contains(walk[i]),
        order.index_of(walk[i]) + i <= order.index_of(walk.first()),
    decreases i,
{
    lemma_walk_stays(graph, order, walk, i);
    if i > 0 {
        lemma_walk_falls(graph, order, walk, i - 1);
        let u = walk[i - 1];
        let k = order.index_of(u);
        let e = choose|e: int|
            0 <= e < graph.adj_list[u as int].len() && (#[trigger] graph.adj_list[u as int][e]).0
                == walk[i];
        let k2 = choose|k2: int| 0 <= k2 < k && #[trigger] order[k2] == walk[i];
        let k3 = order.index_of(walk[i]);
        if k3 < k2 {
        } else if k2 < k3 {
        }
    }
}

/// An order that puts successors first, holds no node twice and holds all
/// nodes that can be reached shows that none of them lies on a cycle.
proof fn lemma_no_cycle(graph: &WorkflowGraph, order: Seq<NodeIdx>)
    requires
        graph.wf(),
        successors_first(graph, order),
        distinct_nodes(order),
        forall|k: int| 0 <= k < order.len() ==> #[trigger] order[k] < graph.nodes.len(),
        forall|v: NodeIdx| reachable(graph, v) ==> order.contains(v),
    ensures
        !has_cycle(graph),
{
    if has_cycle(graph) {
        let walk = choose|walk: Seq<NodeIdx>|
            #[trigger] is_walk(graph, walk) && walk.len() >= 2 && walk.first() == walk.last()
                && reachable(graph, walk.first());
        lemma_walk_falls(graph, order, walk, walk.len() - 1);
    }
}

/// Enters `node`, then every successor that was not entered before, and
/// puts `node` into `post_order` when it leaves it. False where it meets a
/// node that it has entered and not left: that node lies on a cycle.
fn dfs(
    graph: &WorkflowGraph,
    node: NodeIdx,
    visited: &mut Vec<bool>,
    open: &mut Vec<bool>,
    post_order: &mut Vec<NodeIdx>,
    Ghost(stack): Ghost<Seq<NodeIdx>>,
) -> (ok: bool)
    requires
        traversal(graph, old(visited)@, old(open)@, old(post_order)@, stack),
        node < graph.nodes.len(),
        !old(visited)@[node as int],
        reachable(graph, node),
        stack.len() > 0 ==> has_edge(graph, stack.last(), node),
    ensures
        !ok ==> has_cycle(graph),
        ok ==> traversal(graph, final(visited)@, final(open)@, final(post_order)@, stack),
        ok ==> final(open)@ == old(open)@,
        ok ==> final(visited)@[node as int],
        ok ==> final(post_order)@.len() > 0 && final(post_order)@.last() == node,
        ok ==> old(post_order)@.len() <= final(post_order)@.len() && final(post_order)@.take(
            old(post_order)@.len() as int,
        ) == old(post_order)@,
        ok ==> final(visited)@ == mark_all(
            old(visited)@,
            final(post_order)@.skip(old(post_order)@.len() as int),
        ),
        ok ==> forall|fuel: nat|
            fuel >= unmarked(old(visited)@) ==> final(post_order)@.skip(
                old(post_order)@.len() as int,
            ) == #[trigger] post_order_from(graph, node, old(visited)@, fuel),
        final(visited)@.len() == old(visited)@.len(),
        forall|v: int| 0 <= v < old(visited)@.len() && old(visited)@[v] ==> final(visited)@[v],
        unmarked(final(visited)@) < unmarked(old(visited)@),
    decreases unmarked(old(visited)@),
{
    let ghost here = stack.push(node);
    visited.set(node, true);
    open.set(node, true);
    proof {
        lemma_mark(old(visited)@, node as int);
        assert(here[stack.len() as int] == node);
        assert forall|v: int|
            0 <= v < graph.nodes.len() && #[trigger] open@[v] implies visited@[v] && here.contains(
            v as usize,
        ) by {
            if v != node {
                let i = choose|i: int| 0 <= i < stack.len() && stack[i] == v as usize;
                assert(here[i] == v as usize);
            }
        }
    }
    let ghost entered = visited@;
    let ghost mut found: Seq<NodeIdx> = Seq::empty();
    let mut e: usize = 0;
    while e < graph.adj_list[node].len()
        invariant
            e <= graph.adj_list[node as int].len(),
            node < graph.nodes.len(),
            here == stack.push(node),
            entered == old(visited)@.update(node as int, true),
            post_order@ == old(post_order)@ + found,
            forall|i: int| 0 <= i < found.len() ==> found[i] < graph.nodes.len(),
            visited@ == mark_all(entered, found),
            unmarked(visited@) <= unmarked(entered),
            forall|fuel: nat|
                fuel >= unmarked(entered) ==> found + post_order_after(
                    graph,
                    node,
                    e as int,
                    visited@,
                    fuel,
                ) == #[trigger] post_order_after(graph, node, 0, entered, fuel),
            traversal(graph, visited@, open@, post_order@, here),
            visited@[node as int],
            open@ == old(open)@.update(node as int, true),
            visited@.len() == old(visited)@.len(),
            forall|v: int| 0 <= v < old(visited)@.len() && old(visited)@[v] ==> visited@[v],
            unmarked(visited@) < unmarked(old(visited)@),
            forall|t: int|
                0 <= t < e ==> post_order@.contains((#[trigger] graph.adj_list[node as int][t]).0),
        decreases graph.adj_list[node as int].len() - e,
    {
        let next = graph.adj_list[node][e].0;
        proof {
            lemma_reachable_step(graph, node, next);
        }
        if !visited[next] {
            let ghost seen = visited@;
            let ghost left = post_order@;
            if !dfs(graph, next, visited, open, post_order, Ghost(here)) {
                return false;
            }
            proof {
                let more = post_order@.skip(left.len() as int);
                assert(post_order@ =~= left + more);
                lemma_mark_all_concat(entered, found, more);
                assert forall|fuel: nat| fuel >= unmarked(entered) implies (found + more)
                    + post_order_after(graph, node, e + 1, visited@, fuel)
                    == #[trigger] post_order_after(graph, node, 0, entered, fuel) by {
                    assert(more == post_order_from(graph, next, seen, fuel));
                    assert(found + post_order_after(graph, node, e as int, seen, fuel)
                        == post_order_after(graph, node, 0, entered, fuel));
                    assert((found + more) + post_order_after(graph, node, e + 1, visited@, fuel)
                        =~= found + (more + post_order_after(graph, node, e + 1, visited@, fuel)));
                }
                found = found + more;
            }
        } else if open[next] {
            proof {
                lemma_cycle_found(graph, here, node, next);
            }
            return false;
        } else {
        }
        e = e + 1;
    }
    open.set(node, false);
    post_order.push(node);
    proof {
        let all = post_order@.skip(old(post_order)@.len() as int);
        assert(post_order@.take(old(post_order)@.len() as int) =~= old(post_order)@);
        assert(all.drop_last() =~= found);
        lemma_mark_all_commutes(old(visited)@, node, found);
        assert(visited@ == mark_all(old(visited)@, all)) by {
            assert(mark_all(old(visited)@, found).update(node as int, true).update(node as int, true)
                =~= mark_all(old(visited)@, found).update(node as int, true));
        }
        assert forall|fuel: nat| fuel >= unmarked(old(visited)@) implies all
            == #[trigger] post_order_from(graph, node, old(visited)@, fuel) by {
            let less = (fuel - 1) as nat;
            assert(found + post_order_after(
                graph,
                node,
                graph.adj_list[node as int].len() as int,
                visited@,
                less,
            ) == post_order_after(graph, node, 0, entered, less));
        }
    }
    true
}

/// A list of `n` entries, all false.
pub fn cleared(n: usize) -> (r: Vec<bool>)
    ensures
        r@.len() == n,
        forall|i: int| 0 <= i < n ==> !r@[i],
        unmarked(r@) == n,
{
    let mut marks: Vec<bool> = Vec::new();
    while marks.len() < n
        invariant
            marks@.len() <= n,
            forall|i: int| 0 <= i < marks@.len() ==> !marks@[i],
            unmarked(marks@) == marks@.len(),
        decreases n - marks@.len(),
    {
        let ghost before = marks@;
        marks.push(false);
        assert(marks@.drop_last() =~= before);
    }
    marks
}

/// The nodes that can be reached from the start, each once and every node
/// after all its successors, so that the start comes last.
pub fn topological_sort_reversed(graph: &WorkflowGraph) -> (r: Result<Vec<NodeIdx>, SortError>)
    requires
        graph.wf(),
    ensures
        r == Err::<Vec<NodeIdx>, SortError>(SortError::MissingStart) <==> graph.start is None,
        r == Err::<Vec<NodeIdx>, SortError>(SortError::Cycle) <==> graph.start is Some && has_cycle(
            graph,
        ),
        r matches Ok(order) ==> {
            &&& distinct_nodes(order@)
            &&& successors_first(graph, order@)
            &&& forall|v: NodeIdx| order@.contains(v) <==> reachable(graph, v)
            &&& forall|k: int| 0 <= k < order@.len() ==> #[trigger] order@[k] < graph.nodes.len()
            &&& order@.len() > 0
            &&& Some(order@.last()) == graph.start
            &&& order@ == post_order(graph)
        },
{
    let start = match graph.start {
        None => {
            return Err(SortError::MissingStart);
        },
        Some(start) => start,
    };
    let mut visited = cleared(graph.nodes.len());
    let ghost blank = visited@;
    let mut open = cleared(graph.nodes.len());
    let mut post_order: Vec<NodeIdx> = Vec::new();
    proof {
        let alone = seq![start];
        assert(is_walk(graph, alone) && alone.first() == start && alone.last() == start);
    }
    if !dfs(graph, start, &mut visited, &mut open, &mut post_order, Ghost(Seq::empty())) {
        return Err(SortError::Cycle);
    }
    proof {
        let order = post_order@;
        assert(blank =~= Seq::new(graph.nodes.len() as nat, |v: int| false));
        assert forall|v: NodeIdx| reachable(graph, v) implies order.contains(v) by {
            let walk = choose|walk: Seq<NodeIdx>| #[trigger]
                is_walk(graph, walk) && walk.first() == start && walk.last() == v;
            lemma_walk_stays(graph, order, walk, walk.len() - 1);
        }
        assert forall|v: NodeIdx| order.contains(v) implies reachable(graph, v) by {
            let k = choose|k: int| 0 <= k < order.len() && order[k] == v;
            assert(visited@[v as int] && !open@[v as int]);
        }
        lemma_no_cycle(graph, order);
    }
    Ok(post_order)
}

} // verus!
