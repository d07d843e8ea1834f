//! Breadth-first search for a path in a graph that is given by the list of
//! successors of each node.

use vstd::prelude::*;
use crate::analysis::topsort::cleared;
use crate::analysis::topsort::lemma_mark;
use crate::analysis::topsort::unmarked;
use crate::workflow::NodeIdx;

verus! {

/// `v` is a successor of `u` in `graph`.
pub open spec fn steps(graph: Seq<Vec<NodeIdx>>, u: NodeIdx, v: NodeIdx) -> bool {
    u < graph.len() && graph[u as int]@.contains(v)
}

/// Each node of `route` but the last is followed by one of its successors.
pub open spec fn is_route(graph: Seq<Vec<NodeIdx>>, route: Seq<NodeIdx>) -> bool {
    &&& route.len() > 0
    &&& forall|i: int| 0 <= i < route.len() - 1 ==> steps(graph, #[trigger] route[i], route[i + 1])
}

/// A route of `graph` leads from `from` to `to`.
pub open spec fn connects(graph: Seq<Vec<NodeIdx>>, from: NodeIdx, to: NodeIdx) -> bool {
    exists|route: Seq<NodeIdx>|
        #[trigger] is_route(graph, route) && route.first() == from && route.last() == to
}

/// The routes `one` and `other` go together up to `one[i]`, from where
/// `one` steps to the successor at place `k` of that node's list, and
/// the next node of `other` stands nowhere in the list up to that place.
pub open spec fn parts_ways(
    graph: Seq<Vec<NodeIdx>>,
    one: Seq<NodeIdx>,
    other: Seq<NodeIdx>,
    i: int,
    k: int,
) -> bool {
    &&& 0 <= i < one.len() - 1
    &&& i < other.len() - 1
    &&& forall|j: int| 0 <= j <= i ==> one[j] == other[j]
    &&& one[i] < graph.len()
    &&& 0 <= k < graph[one[i] as int]@.len()
    &&& graph[one[i] as int]@[k] == one[i + 1]
    &&& forall|t: int| 0 <= t <= k ==> graph[one[i] as int]@[t] != other[i + 1]
}

/// Where `one` and `other` part, `one` takes the successor that comes
/// first in the list of the node at which they part.
pub open spec fn turns_first(
    graph: Seq<Vec<NodeIdx>>,
    one: Seq<NodeIdx>,
    other: Seq<NodeIdx>,
) -> bool {
    exists|i: int, k: int| #[trigger] parts_ways(graph, one, other, i, k)
}

/// Of two routes that part, only one takes the earlier successor where they
/// part: so at most one route of a given length between two nodes turns
/// first against all the others.
pub proof fn lemma_one_turns_first(
    graph: Seq<Vec<NodeIdx>>,
    one: Seq<NodeIdx>,
    other: Seq<NodeIdx>,
)
    requires
        turns_first(graph, one, other),
    ensures
        !turns_first(graph, other, one),
{
    let (i, k) = choose|i: int, k: int| #[trigger] parts_ways(graph, one, other, i, k);
    if turns_first(graph, other, one) {
        let (j, h) = choose|j: int, h: int| #[trigger] parts_ways(graph, other, one, j, h);
        if i < j {
            assert(other[i + 1] == one[i + 1]);
        } else if j < i {
            assert(one[j + 1] == other[j + 1]);
        } else {
            assert(one[i] == other[i]);
        }
    }
}

/// `path` is the route from `start` to `target` that a breadth-first search
/// finds first: no route between them is shorter, and against every other
/// route of its length it turns first.
pub open spec fn first_route(
    graph: Seq<Vec<NodeIdx>>,
    start: NodeIdx,
    target: NodeIdx,
    path: Seq<NodeIdx>,
) -> bool {
    &&& is_route(graph, path)
    &&& path.first() == start
    &&& path.last() == target
    &&& forall|route: Seq<NodeIdx>|
        #[trigger] is_route(graph, route) && route.first() == start && route.last() == target ==> {
            &&& path.len() <= route.len()
            &&& route.len() == path.len() && route != path ==> turns_first(graph, path, route)
        }
}

/// Only one route between two nodes is the one found first.
pub proof fn lemma_one_first_route(
    graph: Seq<Vec<NodeIdx>>,
    start: NodeIdx,
    target: NodeIdx,
    one: Seq<NodeIdx>,
    other: Seq<NodeIdx>,
)
    requires
        first_route(graph, start, target, one),
        first_route(graph, start, target, other),
    ensures
        one == other,
{
    assert(is_route(graph, one) && is_route(graph, other));
    if one != other {
        lemma_one_turns_first(graph, one, other);
    }
}

/// Every successor in `graph` is a node of `graph`.
pub open spec fn closed_graph(graph: Seq<Vec<NodeIdx>>) -> bool {
    forall|u: int, k: int|
        0 <= u < graph.len() && 0 <= k < graph[u]@.len() ==> (#[trigger] graph[u]@[k]) < graph.len()
}

/// What the search knows of a node `v` that it has marked: where it stands
/// in the queue and, unless it is the start, from which earlier node of
/// the queue it was found.
spec fn settled(
    graph: Seq<Vec<NodeIdx>>,
    marks: Seq<bool>,
    pred: Seq<NodeIdx>,
    pos: Seq<int>,
    dist: Seq<int>,
    queue: Seq<NodeIdx>,
    start: NodeIdx,
    v: int,
) -> bool {
    marks[v] ==> {
        &&& 0 <= pos[v] < queue.len()
        &&& queue[pos[v]] == v
        &&& v == start ==> dist[v] == 0
        &&& v != start ==> {
            &&& pred[v] < marks.len()
            &&& marks[pred[v] as int]
            &&& pos[pred[v] as int] < pos[v]
            &&& dist[v] == dist[pred[v] as int] + 1
            &&& steps(graph, pred[v], v as usize)
        }
    }
}

/// The queue of the search holds the nodes in the order of their distance
/// from the start: none is farther than one step beyond `lead`, and from
/// `head` on none is nearer than `lead`.
spec fn ordered(dist: Seq<int>, queue: Seq<NodeIdx>, head: int, lead: int) -> bool {
    &&& forall|i: int, j: int|
        0 <= i <= j < queue.len() ==> dist[(#[trigger] queue[i]) as int] <= dist[(
        #[trigger] queue[j]) as int]
    &&& forall|i: int| 0 <= i < queue.len() ==> dist[(#[trigger] queue[i]) as int] <= lead + 1
    &&& forall|i: int| head <= i < queue.len() ==> dist[(#[trigger] queue[i]) as int] >= lead
}

/// Every successor of the first `head` nodes of the queue is marked and
/// no farther from the start than one step beyond the node.
spec fn relaxed(
    graph: Seq<Vec<NodeIdx>>,
    marks: Seq<bool>,
    dist: Seq<int>,
    queue: Seq<NodeIdx>,
    head: int,
) -> bool {
    forall|i: int, k: int|
        0 <= i < head && 0 <= k < graph[queue[i] as int]@.len() ==> marks[(
        #[trigger] graph[queue[i] as int]@[k]) as int] && dist[graph[queue[i] as int]@[k] as int]
            <= dist[queue[i] as int] + 1
}

/// No route from the start to a node that the search has marked is shorter
/// than the distance that the search has found, as long as every node up to
/// position `j` of the route was taken from the queue; and a node of the
/// route that still waits in the queue is no nearer than `lead`.
proof fn lemma_no_shorter(
    graph: Seq<Vec<NodeIdx>>,
    marks: Seq<bool>,
    pred: Seq<NodeIdx>,
    pos: Seq<int>,
    dist: Seq<int>,
    queue: Seq<NodeIdx>,
    start: NodeIdx,
    head: int,
    lead: int,
    route: Seq<NodeIdx>,
    j: int,
)
    requires
        marks.len() == graph.len(),
        closed_graph(graph),
        start < graph.len(),
        marks[start as int],
        forall|v: int| 0 <= v < graph.len() ==> #[trigger] settled(graph, marks, pred, pos, dist, queue, start, v),
        forall|i: int| 0 <= i < queue.len() ==> (#[trigger] queue[i]) < graph.len(),
        ordered(dist, queue, head, lead),
        relaxed(graph, marks, dist, queue, head),
        is_route(graph, route),
        route.first() == start,
        0 <= j < route.len(),
    ensures
        route[j] < graph.len(),
        (marks[route[j] as int] && dist[route[j] as int] <= j) || lead < j,
    decreases j,
{
    if j == 0 {
        assert(settled(graph, marks, pred, pos, dist, queue, start, start as int));
    } else {
        lemma_no_shorter(graph, marks, pred, pos, dist, queue, start, head, lead, route, j - 1);
        let u = route[j - 1];
        let k = choose|k: int| 0 <= k < graph[u as int]@.len() && graph[u as int]@[k] == route[j];
        if marks[u as int] && dist[u as int] <= j - 1 {
            assert(settled(graph, marks, pred, pos, dist, queue, start, u as int));
            if pos[u as int] < head {
            } else {
            }
        }
    }
}

/// The search found `v`, unless it is the start, at the first place where
/// it stands among the successors of `pred[v]`, and no node that stands
/// before `pred[v]` in the queue leads to `v`.
spec fn earliest(
    graph: Seq<Vec<NodeIdx>>,
    marks: Seq<bool>,
    pred: Seq<NodeIdx>,
    pos: Seq<int>,
    place: Seq<int>,
    queue: Seq<NodeIdx>,
    start: NodeIdx,
    v: int,
) -> bool {
    marks[v] && v != start ==> {
        &&& 0 <= place[v] < graph[pred[v] as int]@.len()
        &&& graph[pred[v] as int]@[place[v]] == v
        &&& forall|t: int| 0 <= t < place[v] ==> graph[pred[v] as int]@[t] != v
        &&& forall|i: int|
            0 <= i < pos[pred[v] as int] ==> !steps(graph, #[trigger] queue[i], v as usize)
    }
}

/// Of two nodes that the search found, the one found from the earlier node
/// of the queue, or from the same node at an earlier place of its list,
/// stands first in the queue.
spec fn in_turn(
    marks: Seq<bool>,
    pred: Seq<NodeIdx>,
    pos: Seq<int>,
    place: Seq<int>,
    start: NodeIdx,
    u: int,
    v: int,
) -> bool {
    marks[u] && marks[v] && u != start && v != start && (pos[pred[u] as int] < pos[pred[v] as int]
        || (pred[u] == pred[v] && place[u] < place[v])) ==> pos[u] < pos[v]
}

/// The search found `v`, unless it is the start, from a node before
/// position `head` of the queue, or from the node at `head` at a place
/// before `k`.
spec fn found_until(
    marks: Seq<bool>,
    pred: Seq<NodeIdx>,
    pos: Seq<int>,
    place: Seq<int>,
    start: NodeIdx,
    head: int,
    k: int,
    v: int,
) -> bool {
    marks[v] && v != start ==> pos[pred[v] as int] < head || (pos[pred[v] as int] == head
        && place[v] < k)
}

/// What holds of a search that has taken the first `head` nodes from its
/// queue.
spec fn searched(
    graph: Seq<Vec<NodeIdx>>,
    marks: Seq<bool>,
    pred: Seq<NodeIdx>,
    pos: Seq<int>,
    dist: Seq<int>,
    place: Seq<int>,
    queue: Seq<NodeIdx>,
    start: NodeIdx,
    head: int,
) -> bool {
    &&& marks.len() == graph.len()
    &&& pred.len() == graph.len()
    &&& pos.len() == graph.len()
    &&& place.len() == graph.len()
    &&& closed_graph(graph)
    &&& start < graph.len()
    &&& marks[start as int]
    &&& pos[start as int] == 0
    &&& forall|i: int|
        0 <= i < queue.len() ==> (#[trigger] queue[i]) < graph.len() && marks[queue[i] as int]
            && pos[queue[i] as int] == i
    &&& forall|v: int|
        0 <= v < graph.len() ==> #[trigger] settled(graph, marks, pred, pos, dist, queue, start, v)
    &&& relaxed(graph, marks, dist, queue, head)
    &&& forall|v: int|
        0 <= v < graph.len() ==> #[trigger] earliest(graph, marks, pred, pos, place, queue, start, v)
    &&& forall|u: int, v: int|
        0 <= u < graph.len() && 0 <= v < graph.len() ==> #[trigger] in_turn(
            marks,
            pred,
            pos,
            place,
            start,
            u,
            v,
        )
    &&& forall|v: int|
        0 <= v < graph.len() ==> #[trigger] found_until(marks, pred, pos, place, start, head, 0, v)
}

/// `path` begins at the start, and each further node of it was found from
/// the node before it.
spec fn traced(marks: Seq<bool>, pred: Seq<NodeIdx>, start: NodeIdx, path: Seq<NodeIdx>) -> bool {
    &&& path.len() > 0
    &&& path[0] == start
    &&& forall|m: int|
        0 <= m < path.len() - 1 ==> path[m + 1] < marks.len() && marks[path[m + 1] as int] && path[m
            + 1] != start && pred[path[m + 1] as int] == #[trigger] path[m]
}

/// What the search knows once it has marked `next`, the successor at place
/// `k` of the node at the head of the queue.
proof fn lemma_found(
    graph: Seq<Vec<NodeIdx>>,
    marks: Seq<bool>,
    pred: Seq<NodeIdx>,
    pos: Seq<int>,
    dist: Seq<int>,
    place: Seq<int>,
    queue: Seq<NodeIdx>,
    start: NodeIdx,
    head: int,
    k: int,
    next: NodeIdx,
)
    requires
        marks.len() == graph.len(),
        pred.len() == graph.len(),
        pos.len() == graph.len(),
        place.len() == graph.len(),
        start < graph.len(),
        marks[start as int],
        0 <= head < queue.len(),
        0 <= k < graph[queue[head] as int]@.len(),
        graph[queue[head] as int]@[k] == next,
        next < graph.len(),
        !marks[next as int],
        forall|i: int|
            0 <= i < queue.len() ==> (#[trigger] queue[i]) < graph.len() && marks[queue[i] as int]
                && pos[queue[i] as int] == i,
        forall|v: int|
            0 <= v < graph.len() ==> #[trigger] settled(
                graph,
                marks,
                pred,
                pos,
                dist,
                queue,
                start,
                v,
            ),
        relaxed(graph, marks, dist, queue, head),
        forall|t: int| 0 <= t < k ==> marks[(#[trigger] graph[queue[head] as int]@[t]) as int],
        forall|v: int|
            0 <= v < graph.len() ==> #[trigger] earliest(
                graph,
                marks,
                pred,
                pos,
                place,
                queue,
                start,
                v,
            ),
        forall|u: int, v: int|
            0 <= u < graph.len() && 0 <= v < graph.len() ==> #[trigger] in_turn(
                marks,
                pred,
                pos,
                place,
                start,
                u,
                v,
            ),
        forall|v: int|
            0 <= v < graph.len() ==> #[trigger] found_until(
                marks,
                pred,
                pos,
                place,
                start,
                head,
                k,
                v,
            ),
    ensures
        forall|v: int|
            0 <= v < graph.len() ==> #[trigger] earliest(
                graph,
                marks.update(next as int, true),
                pred.update(next as int, queue[head]),
                pos.update(next as int, queue.len() as int),
                place.update(next as int, k),
                queue.push(next),
                start,
                v,
            ),
        forall|u: int, v: int|
            0 <= u < graph.len() && 0 <= v < graph.len() ==> #[trigger] in_turn(
                marks.update(next as int, true),
                pred.update(next as int, queue[head]),
                pos.update(next as int, queue.len() as int),
                place.update(next as int, k),
                start,
                u,
                v,
            ),
        forall|v: int|
            0 <= v < graph.len() ==> #[trigger] found_until(
                marks.update(next as int, true),
                pred.update(next as int, queue[head]),
                pos.update(next as int, queue.len() as int),
                place.update(next as int, k),
                start,
                head,
                k + 1,
                v,
            ),
{
    let front = queue[head];
    let marks2 = marks.update(next as int, true);
    let pred2 = pred.update(next as int, front);
    let pos2 = pos.update(next as int, queue.len() as int);
    let place2 = place.update(next as int, k);
    let queue2 = queue.push(next);
    assert(front != next);
    assert forall|v: int| 0 <= v < graph.len() implies #[trigger] earliest(
        graph,
        marks2,
        pred2,
        pos2,
        place2,
        queue2,
        start,
        v,
    ) by {
        if v == next {
            assert forall|i: int| 0 <= i < head implies !steps(
                graph,
                #[trigger] queue2[i],
                next,
            ) by {
                assert(queue2[i] == queue[i]);
                if steps(graph, queue[i], next) {
                    let h = choose|h: int|
                        0 <= h < graph[queue[i] as int]@.len() && graph[queue[i] as int]@[h]
                            == next;
                    assert(marks[graph[queue[i] as int]@[h] as int]);
                }
            }
        } else if marks[v] && v != start {
            assert(earliest(graph, marks, pred, pos, place, queue, start, v));
            assert(settled(graph, marks, pred, pos, dist, queue, start, v));
            assert forall|i: int| 0 <= i < pos2[pred2[v] as int] implies !steps(
                graph,
                #[trigger] queue2[i],
                v as usize,
            ) by {
                assert(queue2[i] == queue[i]);
            }
        }
    }
    assert forall|u: int, v: int| 0 <= u < graph.len() && 0 <= v < graph.len() implies #[trigger] in_turn(
        marks2,
        pred2,
        pos2,
        place2,
        start,
        u,
        v,
    ) by {
        if u != next && v != next {
            assert(in_turn(marks, pred, pos, place, start, u, v));
            assert(settled(graph, marks, pred, pos, dist, queue, start, u));
            assert(settled(graph, marks, pred, pos, dist, queue, start, v));
        } else if u != next {
            assert(settled(graph, marks, pred, pos, dist, queue, start, u));
        } else if v != next {
            assert(found_until(marks, pred, pos, place, start, head, k, v));
            assert(settled(graph, marks, pred, pos, dist, queue, start, v));
        }
    }
    assert forall|v: int| 0 <= v < graph.len() implies #[trigger] found_until(
        marks2,
        pred2,
        pos2,
        place2,
        start,
        head,
        k + 1,
        v,
    ) by {
        if v != next {
            assert(found_until(marks, pred, pos, place, start, head, k, v));
            assert(settled(graph, marks, pred, pos, dist, queue, start, v));
        }
    }
}

/// The first place at which two different lists of one length differ.
proof fn lemma_first_apart(a: Seq<NodeIdx>, b: Seq<NodeIdx>, upto: int) -> (d: int)
    requires
        a.len() == b.len(),
        a != b,
        0 <= upto <= a.len(),
        forall|j: int| 0 <= j < upto ==> a[j] == b[j],
    ensures
        upto <= d < a.len(),
        a[d] != b[d],
        forall|j: int| 0 <= j < d ==> a[j] == b[j],
    decreases a.len() - upto,
{
    if upto == a.len() {
        assert(a =~= b);
        upto
    } else if a[upto] != b[upto] {
        upto
    } else {
        lemma_first_apart(a, b, upto + 1)
    }
}

/// A route that at some node stands before the path of the search in the
/// queue stays before it, and so does not end where the path ends.
proof fn lemma_stays_behind(
    graph: Seq<Vec<NodeIdx>>,
    marks: Seq<bool>,
    pred: Seq<NodeIdx>,
    pos: Seq<int>,
    dist: Seq<int>,
    place: Seq<int>,
    queue: Seq<NodeIdx>,
    start: NodeIdx,
    head: int,
    path: Seq<NodeIdx>,
    route: Seq<NodeIdx>,
    m: int,
)
    requires
        searched(graph, marks, pred, pos, dist, place, queue, start, head),
        traced(marks, pred, start, path),
        is_route(graph, route),
        route.len() == path.len(),
        1 <= m < path.len(),
        route[m] < graph.len(),
        marks[route[m] as int],
        pos[route[m] as int] < pos[path[m] as int],
    ensures
        route.last() != path.last(),
    decreases path.len() - m,
{
    if m < path.len() - 1 {
        let a = route[m];
        let b = path[m];
        let a2 = route[m + 1];
        let b2 = path[m + 1];
        assert(pred[b2 as int] == b);
        assert(found_until(marks, pred, pos, place, start, head, 0, b2 as int));
        assert(settled(graph, marks, pred, pos, dist, queue, start, b2 as int));
        assert(settled(graph, marks, pred, pos, dist, queue, start, a as int));
        assert(steps(graph, a, a2));
        let h = choose|h: int| 0 <= h < graph[a as int]@.len() && graph[a as int]@[h] == a2;
        assert(queue[pos[a as int]] == a);
        assert(marks[graph[queue[pos[a as int]] as int]@[h] as int]);
        assert(graph[a as int]@[h] < graph.len());
        if a2 != start {
            assert(earliest(graph, marks, pred, pos, place, queue, start, a2 as int));
            assert(settled(graph, marks, pred, pos, dist, queue, start, a2 as int));
            assert(in_turn(marks, pred, pos, place, start, a2 as int, b2 as int));
        }
        lemma_stays_behind(
            graph,
            marks,
            pred,
            pos,
            dist,
            place,
            queue,
            start,
            head,
            path,
            route,
            m + 1,
        );
    }
}

/// The path that the search traced turns first against every other route of
/// its length between the same nodes.
proof fn lemma_turns_first(
    graph: Seq<Vec<NodeIdx>>,
    marks: Seq<bool>,
    pred: Seq<NodeIdx>,
    pos: Seq<int>,
    dist: Seq<int>,
    place: Seq<int>,
    queue: Seq<NodeIdx>,
    start: NodeIdx,
    head: int,
    path: Seq<NodeIdx>,
    route: Seq<NodeIdx>,
)
    requires
        searched(graph, marks, pred, pos, dist, place, queue, start, head),
        traced(marks, pred, start, path),
        is_route(graph, route),
        route.first() == start,
        route.last() == path.last(),
        route.len() == path.len(),
        route != path,
    ensures
        turns_first(graph, path, route),
{
    let d = lemma_first_apart(path, route, 1);
    let i = d - 1;
    let u = path[i];
    let b = path[d];
    let a = route[d];
    assert(pred[b as int] == path[i]);
    assert(settled(graph, marks, pred, pos, dist, queue, start, b as int));
    assert(found_until(marks, pred, pos, place, start, head, 0, b as int));
    assert(earliest(graph, marks, pred, pos, place, queue, start, b as int));
    assert(settled(graph, marks, pred, pos, dist, queue, start, u as int));
    let k = place[b as int];
    if exists|t: int| 0 <= t <= k && graph[u as int]@[t] == a {
        let t = choose|t: int| 0 <= t <= k && graph[u as int]@[t] == a;
        assert(queue[pos[u as int]] == u);
        assert(marks[graph[queue[pos[u as int]] as int]@[t] as int]);
        assert(graph[u as int]@[t] < graph.len());
        if a != start {
            assert(earliest(graph, marks, pred, pos, place, queue, start, a as int));
            assert(settled(graph, marks, pred, pos, dist, queue, start, a as int));
            assert(steps(graph, queue[pos[u as int]], a));
            assert(settled(graph, marks, pred, pos, dist, queue, start, pred[a as int] as int));
            assert(in_turn(marks, pred, pos, place, start, a as int, b as int));
        }
        lemma_stays_behind(graph, marks, pred, pos, dist, place, queue, start, head, path, route, d);
    }
    assert(parts_ways(graph, path, route, i, k));
}

/// A set of marked nodes that holds the successors of each of its nodes
/// holds every node of a route that begins in it.
proof fn lemma_route_stays(graph: Seq<Vec<NodeIdx>>, marks: Seq<bool>, route: Seq<NodeIdx>, i: int)
    requires
        marks.len() == graph.len(),
        closed_graph(graph),
        forall|u: int, k: int|
            0 <= u < graph.len() && marks[u] && 0 <= k < graph[u]@.len() ==> marks[(
            #[trigger] graph[u]@[k]) as int],
        is_route(graph, route),
        route.first() < graph.len(),
        marks[route.first() as int],
        0 <= i < route.len(),
    ensures
        route[i] < graph.len(),
        marks[route[i] as int],
    decreases i,
{
    if i > 0 {
        lemma_route_stays(graph, marks, route, i - 1);
        let u = route[i - 1];
        let k = choose|k: int| 0 <= k < graph[u as int]@.len() && graph[u as int]@[k] == route[i];
    }
}

/// The route of `graph` from `start` to `target` that a breadth-first search
/// finds first when it takes the successors of each node in the order of the
/// node's list: a shortest route, and where another route of that length
/// parts from it, it is the one that takes the earlier successor. `None`
/// where no route leads from `start` to `target`.
pub fn find_path(graph: &Vec<Vec<NodeIdx>>, start: NodeIdx, target: NodeIdx) -> (r: Option<
    Vec<NodeIdx>,
>)
    requires
        closed_graph(graph@),
        start < graph@.len(),
        target < graph@.len(),
    ensures
        r is Some <==> connects(graph@, start, target),
        r matches Some(path) ==> first_route(graph@, start, target, path@),
        r matches Some(path) ==> (target == start ==> path@.len() == 1),
{
    let n = graph.len();
    let mut visited = cleared(n);
    let mut pred: Vec<NodeIdx> = Vec::new();
    while pred.len() < n
        invariant
            pred@.len() <= n,
        decreases n - pred@.len(),
    {
        pred.push(start);
    }
    let mut queue: Vec<NodeIdx> = Vec::new();
    let ghost mut pos: Seq<int> = Seq::new(n as nat, |v: int| 0int);
    let ghost mut dist: Seq<int> = Seq::new(n as nat, |v: int| 0int);
    let ghost mut place: Seq<int> = Seq::new(n as nat, |v: int| 0int);
    let ghost mut lead: int = 0;
    queue.push(start);
    visited.set(start, true);
    let mut head: usize = 0;
    while head < queue.len() && !visited[target]
        invariant
            n == graph@.len(),
            closed_graph(graph@),
            start < n,
            target < n,
            visited@.len() == n,
            pred@.len() == n,
            pos.len() == n,
            dist.len() == n,
            place.len() == n,
            head <= queue@.len(),
            queue@.len() > 0,
            queue@[0] == start,
            visited@[start as int],
            pos[start as int] == 0,
            ordered(dist, queue@, head as int, lead),
            relaxed(graph@, visited@, dist, queue@, head as int),
            forall|i: int|
                0 <= i < queue@.len() ==> (#[trigger] queue@[i]) < n && visited@[queue@[i] as int]
                    && pos[queue@[i] as int] == i,
            forall|v: int|
                0 <= v < n ==> #[trigger] settled(graph@, visited@, pred@, pos, dist, queue@, start, v),
            forall|v: int|
                0 <= v < n ==> #[trigger] earliest(graph@, visited@, pred@, pos, place, queue@, start, v),
            forall|u: int, v: int|
                0 <= u < n && 0 <= v < n ==> #[trigger] in_turn(
                    visited@,
                    pred@,
                    pos,
                    place,
                    start,
                    u,
                    v,
                ),
            forall|v: int|
                0 <= v < n ==> #[trigger] found_until(
                    visited@,
                    pred@,
                    pos,
                    place,
                    start,
                    head as int,
                    0,
                    v,
                ),
        decreases unmarked(visited@) + queue@.len() - head,
    {
        let front = queue[head];
        let ghost budget = unmarked(visited@) + queue@.len();
        proof {
            lead = dist[front as int];
        }
        let mut k: usize = 0;
        while k < graph[front].len()
            invariant
                n == graph@.len(),
                closed_graph(graph@),
                start < n,
                front < n,
                head < queue@.len(),
                front == queue@[head as int],
                k <= graph@[front as int]@.len(),
                visited@.len() == n,
                pred@.len() == n,
                pos.len() == n,
                dist.len() == n,
                place.len() == n,
                lead == dist[front as int],
                queue@[0] == start,
                visited@[start as int],
                pos[start as int] == 0,
                ordered(dist, queue@, head as int, lead),
                relaxed(graph@, visited@, dist, queue@, head as int),
                forall|i: int|
                    0 <= i < queue@.len() ==> (#[trigger] queue@[i]) < n && visited@[queue@[i] as int]
                        && pos[queue@[i] as int] == i,
                forall|v: int|
                    0 <= v < n ==> #[trigger] settled(graph@, visited@, pred@, pos, dist, queue@, start, v),
                forall|t: int|
                    0 <= t < k ==> visited@[(#[trigger] graph@[front as int]@[t]) as int]
                        && dist[graph@[front as int]@[t] as int] <= lead + 1,
                unmarked(visited@) + queue@.len() == budget,
                forall|v: int|
                    0 <= v < n ==> #[trigger] earliest(
                        graph@,
                        visited@,
                        pred@,
                        pos,
                        place,
                        queue@,
                        start,
                        v,
                    ),
                forall|u: int, v: int|
                    0 <= u < n && 0 <= v < n ==> #[trigger] in_turn(
                        visited@,
                        pred@,
                        pos,
                        place,
                        start,
                        u,
                        v,
                    ),
                forall|v: int|
                    0 <= v < n ==> #[trigger] found_until(
                        visited@,
                        pred@,
                        pos,
                        place,
                        start,
                        head as int,
                        k as int,
                        v,
                    ),
            decreases graph@[front as int]@.len() - k,
        {
            let next = graph[front][k];
            if !visited[next] {
                let ghost marks = visited@;
                let ghost preds = pred@;
                let ghost places = pos;
                let ghost far = dist;
                let ghost waiting = queue@;
                proof {
                    lemma_mark(visited@, next as int);
                    lemma_found(
                        graph@,
                        visited@,
                        pred@,
                        pos,
                        dist,
                        place,
                        queue@,
                        start,
                        head as int,
                        k as int,
                        next,
                    );
                    pos = pos.update(next as int, queue@.len() as int);
                    dist = dist.update(next as int, lead + 1);
                    place = place.update(next as int, k as int);
                }
                visited.set(next, true);
                pred.set(next, front);
                queue.push(next);
                proof {
                    assert forall|v: int| 0 <= v < n implies #[trigger] settled(
                        graph@,
                        visited@,
                        pred@,
                        pos,
                        dist,
                        queue@,
                        start,
                        v,
                    ) by {
                        assert(settled(graph@, marks, preds, places, far, waiting, start, v));
                        if v != next && marks[v] && v != start {
                            assert(settled(
                                graph@,
                                marks,
                                preds,
                                places,
                                far,
                                waiting,
                                start,
                                preds[v] as int,
                            ));
                        }
                    }
                }
            } else {
                proof {
                    assert(settled(graph@, visited@, pred@, pos, dist, queue@, start, next as int));
                    assert forall|v: int| 0 <= v < n implies #[trigger] found_until(
                        visited@,
                        pred@,
                        pos,
                        place,
                        start,
                        head as int,
                        k + 1,
                        v,
                    ) by {
                        assert(found_until(visited@, pred@, pos, place, start, head as int, k as int, v));
                    }
                }
            }
            k = k + 1;
        }
        proof {
            assert forall|v: int| 0 <= v < n implies #[trigger] found_until(
                visited@,
                pred@,
                pos,
                place,
                start,
                head + 1,
                0,
                v,
            ) by {
                assert(found_until(visited@, pred@, pos, place, start, head as int, k as int, v));
            }
        }
        head = head + 1;
    }
    assert(searched(graph@, visited@, pred@, pos, dist, place, queue@, start, head as int));
    if !visited[target] {
        proof {
            if connects(graph@, start, target) {
                let route = choose|route: Seq<NodeIdx>|
                    #[trigger] is_route(graph@, route) && route.first() == start && route.last()
                        == target;
                assert forall|u: int, t: int|
                    0 <= u < n && visited@[u] && 0 <= t < graph@[u]@.len() implies visited@[(
                #[trigger] graph@[u]@[t]) as int] by {
                    assert(settled(graph@, visited@, pred@, pos, dist, queue@, start, u));
                }
                lemma_route_stays(graph@, visited@, route, route.len() - 1);
            }
        }
        return None;
    }
    // Back from the target to the start, then the same nodes forwards.
    let mut back: Vec<NodeIdx> = Vec::new();
    let mut cur = target;
    back.push(cur);
    while cur != start
        invariant
            n == graph@.len(),
            start < n,
            cur < n,
            visited@.len() == n,
            pred@.len() == n,
            pos.len() == n,
            dist.len() == n,
            target < n,
            visited@[cur as int],
            back@.len() > 0,
            back@[0] == target,
            back@.last() == cur,
            back@.len() == dist[target as int] - dist[cur as int] + 1,
            forall|i: int| 0 <= i < back@.len() - 1 ==> steps(graph@, #[trigger] back@[i + 1], back@[i]),
            forall|i: int|
                0 <= i < back@.len() - 1 ==> (#[trigger] back@[i]) < n && visited@[back@[i] as int]
                    && back@[i] != start && pred@[back@[i] as int] == back@[i + 1],
            forall|v: int|
                0 <= v < n ==> #[trigger] settled(graph@, visited@, pred@, pos, dist, queue@, start, v),
        decreases pos[cur as int],
    {
        assert(settled(graph@, visited@, pred@, pos, dist, queue@, start, cur as int));
        let from = pred[cur];
        assert(settled(graph@, visited@, pred@, pos, dist, queue@, start, from as int));
        back.push(from);
        cur = from;
    }
    proof {
        if target == start {
            let alone = seq![start];
        }
        assert(settled(graph@, visited@, pred@, pos, dist, queue@, start, start as int));
        assert(settled(graph@, visited@, pred@, pos, dist, queue@, start, target as int));
        assert forall|route: Seq<NodeIdx>|
            #[trigger] is_route(graph@, route) && route.first() == start && route.last()
                == target implies back@.len() <= route.len() by {
            lemma_no_shorter(
                graph@,
                visited@,
                pred@,
                pos,
                dist,
                queue@,
                start,
                head as int,
                lead,
                route,
                route.len() - 1,
            );
        }
    }
    let mut path: Vec<NodeIdx> = Vec::new();
    let mut left: usize = back.len();
    while left > 0
        invariant
            left <= back@.len(),
            path@.len() == back@.len() - left,
            forall|i: int| 0 <= i < path@.len() ==> path@[i] == back@[back@.len() - 1 - i],
        decreases left,
    {
        left = left - 1;
        path.push(back[left]);
    }
    proof {
        assert forall|i: int| 0 <= i < path@.len() - 1 implies steps(
            graph@,
            #[trigger] path@[i],
            path@[i + 1],
        ) by {
            let j = back@.len() - 2 - i;
            assert(steps(graph@, back@[j + 1], back@[j]));
        }
        assert(is_route(graph@, path@));
        assert forall|m: int| 0 <= m < path@.len() - 1 implies path@[m + 1] < n && visited@[path@[m
            + 1] as int] && path@[m + 1] != start && pred@[path@[m + 1] as int]
            == #[trigger] path@[m] by {
            let j = back@.len() - 2 - m;
            assert(pred@[back@[j] as int] == back@[j + 1]);
        }
        assert(traced(visited@, pred@, start, path@));
        assert forall|route: Seq<NodeIdx>|
            #[trigger] is_route(graph@, route) && route.first() == start && route.last() == target
                && route.len() == path@.len() && route != path@ implies turns_first(
            graph@,
            path@,
            route,
        ) by {
            lemma_turns_first(
                graph@,
                visited@,
                pred@,
                pos,
                dist,
                place,
                queue@,
                start,
                head as int,
                path@,
                route,
            );
        }
    }
    Some(path)
}

} // verus!
