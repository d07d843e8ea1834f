//! The terms that say at which nodes execution arrives and from which it
//! goes on, and the clauses of the queries that are made of them.

use vstd::prelude::*;
use crate::analysis::ast::conjunction;
use crate::analysis::ast::disjunction;
use crate::analysis::ast::NodeAST;
use crate::analysis::construct::edges_below;
use crate::analysis::construct::lemma_edges_below;
use crate::analysis::construct::node_fits;
use crate::analysis::formula::all_hold;
use crate::analysis::formula::all_of;
use crate::analysis::formula::Formula;
use crate::analysis::formula::lemma_all_hold_push;
use crate::analysis::formula::lemma_all_of;
use crate::analysis::formula::lemma_either;
use crate::analysis::formula::Valuation;
use crate::analysis::GraphVerifier;
use crate::analysis::oracle::all_at;
use crate::analysis::oracle::BoolTerm;
use crate::analysis::oracle::solver_assert;
use crate::analysis::oracle::SolverBox;
use crate::analysis::oracle::SolverContext;
use crate::analysis::oracle::term_clone;
use crate::analysis::oracle::term_implies;
use crate::analysis::oracle::TERM_LIMIT;
use crate::analysis::oracle::term_lit;
use crate::analysis::oracle::views;
use crate::workflow::NodeIdx;

verus! {

/// The terms of one query: for every node the conjunction of its schema
/// constraints and the implication from arriving to going on, and the flow
/// terms that the implications are made of.
pub struct Clauses<'ctx> {
    pub schema: Vec<BoolTerm<'ctx>>,
    pub moves: Vec<BoolTerm<'ctx>>,
    pub flow: Flow<'ctx>,
}

/// For every node, by its id, a term that says that execution arrives at
/// it and a term that says that execution goes on from it.
pub struct Flow<'ctx> {
    pub incoming: Vec<BoolTerm<'ctx>>,
    pub outgoing: Vec<BoolTerm<'ctx>>,
}

impl<'ctx> Flow<'ctx> {
    /// There is a pair of terms for each of `n` nodes, all of session
    /// `home`.
    pub open spec fn wf(&self, home: int, n: int) -> bool {
        &&& self.incoming@.len() == n
        &&& self.outgoing@.len() == n
        &&& all_at(self.incoming@, home)
        &&& all_at(self.outgoing@, home)
    }
}

impl<'ctx, 'g> GraphVerifier<'ctx, 'g> {
    /// `e` is the position of an edge that leaves node `u`.
    pub open spec fn is_edge(&self, u: int, e: int) -> bool {
        0 <= u < self.graph.adj_list.len() && 0 <= e < self.graph.adj_list[u].len()
    }

    /// The formula that says when edge `e` of node `u` is taken.
    pub open spec fn edge_formula(&self, u: int, e: int) -> Formula {
        self.node_asts@[u].transition_constraints@[e]@
    }

    /// Edge `e` of node `u` is taken under `a`.
    pub open spec fn active(&self, u: int, e: int, a: Valuation) -> bool {
        self.edge_formula(u, e).holds(a)
    }

    /// Some edge into `v` is taken under `a`.
    pub open spec fn entered(&self, v: NodeIdx, a: Valuation) -> bool {
        exists|u: int, e: int|
            self.is_edge(u, e) && self.graph.adj_list[u][e].0 == v && #[trigger] self.active(
                u,
                e,
                a,
            )
    }

    /// Some edge out of `v` is taken under `a`.
    pub open spec fn left(&self, v: NodeIdx, a: Valuation) -> bool {
        exists|e: int| self.is_edge(v as int, e) && #[trigger] self.active(v as int, e, a)
    }

    /// Execution arrives at `v` under `a`: `v` is the start node or some
    /// edge into it is taken.
    pub open spec fn arrives(&self, v: NodeIdx, a: Valuation) -> bool {
        self.graph.start == Some(v) || self.entered(v, a)
    }

    /// Every node produces its output keys as its schema says, under `a`.
    pub open spec fn schemas_hold(&self, a: Valuation) -> bool {
        forall|u: int, j: int|
            0 <= u < self.node_asts@.len() && 0 <= j < self.node_asts@[u].schema_constraints@.len()
                ==> (#[trigger] self.node_asts@[u].schema_constraints@[j])@.holds(a)
    }

    /// Execution goes on from `v` under `a`, where it arrives there, unless
    /// `v` is one of `goals`.
    pub open spec fn goes_on(&self, goals: Seq<NodeIdx>, v: NodeIdx, a: Valuation) -> bool {
        self.arrives(v, a) ==> goals.contains(v) || self.left(v, a)
    }

    /// Under `a`, execution goes on from every node at which it arrives
    /// and which is none of `goals`.
    pub open spec fn flows(&self, goals: Seq<NodeIdx>, a: Valuation) -> bool {
        forall|v: NodeIdx| v < self.graph.nodes.len() ==> #[trigger] self.goes_on(goals, v, a)
    }

    /// The conjunction of the schema constraints of one node.
    pub fn aggregate_schema_constraints(
        node_ast: &NodeAST<'ctx, 'g>,
        context: &'ctx SolverContext,
    ) -> (r: BoolTerm<'ctx>)
        requires
            node_ast.wf(),
            node_ast.ctx.id() == context.id(),
        ensures
            r@ == all_of(views(node_ast.schema_constraints@)),
            r.home() == context.id(),
    {
        conjunction(context, &node_ast.schema_constraints)
    }

    /// For every node, a term that says that some edge into it is taken,
    /// and a term that says that some edge out of it is taken.
    pub fn get_in_out_transition_constraints(&self) -> (r: Flow<'ctx>)
        requires
            self.wf(),
        ensures
            r.wf(self.context.id(), self.graph.nodes.len() as int),
            forall|v: NodeIdx, a: Valuation|
                v < self.graph.nodes.len() ==> (#[trigger] r.incoming@[v as int]@.holds(a)
                    <==> self.entered(v, a)),
            forall|v: NodeIdx, a: Valuation|
                v < self.graph.nodes.len() ==> (#[trigger] r.outgoing@[v as int]@.holds(a)
                    <==> self.left(v, a)),
    {
        let n = self.graph.nodes.len();
        let home = self.context;
        // The terms of the edges into each node, and where each came from.
        let mut into: Vec<Vec<BoolTerm<'ctx>>> = Vec::new();
        while into.len() < n
            invariant
                into@.len() <= n,
                forall|v: int| 0 <= v < into@.len() ==> (#[trigger] into@[v])@.len() == 0,
            decreases n - into@.len(),
        {
            into.push(Vec::new());
        }
        let ghost mut origin: Seq<Seq<(int, int)>> = Seq::new(n as nat, |v: int| Seq::empty());
        let ghost mut slot: Map<(int, int), int> = Map::empty();
        let mut outgoing: Vec<BoolTerm<'ctx>> = Vec::new();
        let mut u: usize = 0;
        while u < n
            invariant
                u <= n,
                n == self.graph.nodes.len(),
                home == self.context,
                self.wf(),
                into@.len() == n,
                origin.len() == n,
                self.gathered(into@, origin, slot, u as int, 0),
                forall|v: int| 0 <= v < n ==> (#[trigger] into@[v])@.len() <= edges_below(self.graph, u as int),
                outgoing@.len() == u,
                all_at(outgoing@, home.id()),
                forall|v: NodeIdx, a: Valuation|
                    v < u ==> (#[trigger] outgoing@[v as int]@.holds(a) <==> self.left(v, a)),
            decreases n - u,
        {
            let ast = &self.node_asts[u];
            assert(node_fits(self.graph, self.context, self.node_asts@, u as int));
            let mut e: usize = 0;
            while e < ast.transition_constraints.len()
                invariant
                    e <= ast.transition_constraints@.len(),
                    u < n,
                    n == self.graph.nodes.len(),
                    home == self.context,
                    self.wf(),
                    *ast == self.node_asts@[u as int],
                    ast.wf(),
                    ast.ctx == self.context,
                    ast.transition_constraints@.len() == self.graph.adj_list[u as int].len(),
                    into@.len() == n,
                    origin.len() == n,
                    self.gathered(into@, origin, slot, u as int, e as int),
                    forall|v: int|
                        0 <= v < n ==> (#[trigger] into@[v])@.len() <= edges_below(
                            self.graph,
                            u as int,
                        ) + e,
                decreases ast.transition_constraints@.len() - e,
            {
                let target = self.graph.adj_list[u][e].0;
                let term = term_clone(&ast.transition_constraints[e]);
                let ghost before = into@;
                into[target].push(term);
                proof {
                    origin = origin.update(
                        target as int,
                        origin[target as int].push((u as int, e as int)),
                    );
                    slot = slot.insert((u as int, e as int), before[target as int]@.len() as int);
                    assert(self.gathered(into@, origin, slot, u as int, e + 1)) by {
                        assert forall|v: int, i: int|
                            0 <= v < into@.len() && 0 <= i < into@[v]@.len() implies #[trigger]
                            self.from_edge(
                            into@[v]@[i],
                            origin[v][i],
                            v,
                        ) by {
                            if v == target && i == before[v]@.len() {
                            } else {
                            }
                        }
                        assert forall|x: int, y: int| #[trigger]
                            self.taken_before(x, y, u as int, e + 1) implies self.has_slot(
                            into@,
                            slot,
                            x,
                            y,
                        ) by {
                            if x == u && y == e {
                            } else {
                                assert(self.taken_before(x, y, u as int, e as int));
                            }
                        }
                    }
                }
                e = e + 1;
            }
            proof {
                lemma_edges_below(self.graph, u + 1, n as int);
            }
            let out = disjunction(home, &ast.transition_constraints);
            proof {
                assert forall|a: Valuation| #[trigger] out@.holds(a) <==> self.left(u, a) by {
                    let parts = views(ast.transition_constraints@);
                    lemma_either(parts, a);
                    if out@.holds(a) {
                        let i = choose|i: int| 0 <= i < parts.len() && (#[trigger] parts[i]).holds(a);
                        assert(self.is_edge(u as int, i) && self.active(u as int, i, a));
                    }
                    if self.left(u, a) {
                        let i = choose|i: int|
                            self.is_edge(u as int, i) && #[trigger] self.active(u as int, i, a);
                        assert(parts[i].holds(a));
                    }
                }
                assert forall|x: int, y: int| #[trigger]
                    self.taken_before(x, y, u + 1, 0) implies self.has_slot(into@, slot, x, y) by {
                    assert(self.taken_before(x, y, u as int, e as int));
                }
            }
            outgoing.push(out);
            u = u + 1;
        }
        let mut incoming: Vec<BoolTerm<'ctx>> = Vec::new();
        let mut v: usize = 0;
        while v < n
            invariant
                v <= n,
                n == self.graph.nodes.len(),
                home == self.context,
                self.wf(),
                into@.len() == n,
                origin.len() == n,
                self.gathered(into@, origin, slot, n as int, 0),
                forall|w: int| 0 <= w < n ==> (#[trigger] into@[w])@.len() <= TERM_LIMIT,
                incoming@.len() == v,
                all_at(incoming@, home.id()),
                forall|w: NodeIdx, a: Valuation|
                    w < v ==> (#[trigger] incoming@[w as int]@.holds(a) <==> self.entered(w, a)),
            decreases n - v,
        {
            assert(all_at(into@[v as int]@, home.id())) by {
                assert forall|i: int| 0 <= i < into@[v as int]@.len() implies (
                #[trigger] into@[v as int]@[i]).home() == home.id() by {
                    assert(self.from_edge(into@[v as int]@[i], origin[v as int][i], v as int));
                }
            }
            let inc = disjunction(home, &into[v]);
            proof {
                assert forall|a: Valuation| #[trigger] inc@.holds(a) <==> self.entered(v, a) by {
                    let parts = views(into@[v as int]@);
                    lemma_either(parts, a);
                    if inc@.holds(a) {
                        let i = choose|i: int| 0 <= i < parts.len() && (#[trigger] parts[i]).holds(a);
                        assert(self.from_edge(into@[v as int]@[i], origin[v as int][i], v as int));
                        let (x, y) = origin[v as int][i];
                        assert(self.is_edge(x, y) && self.active(x, y, a));
                    }
                    if self.entered(v, a) {
                        let (x, y) = choose|x: int, y: int|
                            self.is_edge(x, y) && self.graph.adj_list[x][y].0 == v
                                && #[trigger] self.active(x, y, a);
                        assert(self.taken_before(x, y, n as int, 0));
                        assert(parts[slot[(x, y)]].holds(a));
                    }
                }
            }
            incoming.push(inc);
            v = v + 1;
        }
        Flow { incoming, outgoing }
    }

    /// `term` is the term of the edge `edge`, which leads into `v`.
    pub open spec fn from_edge(&self, term: BoolTerm<'ctx>, edge: (int, int), v: int) -> bool {
        &&& self.is_edge(edge.0, edge.1)
        &&& self.graph.adj_list[edge.0][edge.1].0 == v
        &&& term@ == self.edge_formula(edge.0, edge.1)
        &&& term.home() == self.context.id()
    }

    /// Edge `e` of node `u` comes before edge `e_now` of node `u_now`.
    pub open spec fn taken_before(&self, u: int, e: int, u_now: int, e_now: int) -> bool {
        self.is_edge(u, e) && (u < u_now || (u == u_now && e < e_now))
    }

    /// The term of edge `e` of node `u` stands in the list of its target at
    /// the position that `slot` gives.
    pub open spec fn has_slot(
        &self,
        into: Seq<Vec<BoolTerm<'ctx>>>,
        slot: Map<(int, int), int>,
        u: int,
        e: int,
    ) -> bool {
        let v = self.graph.adj_list[u][e].0 as int;
        &&& slot.dom().contains((u, e))
        &&& 0 <= slot[(u, e)] < into[v]@.len()
        &&& into[v]@[slot[(u, e)]]@ == self.edge_formula(u, e)
    }

    /// `into` holds, for each node, the terms of the edges into it among
    /// those before edge `e_now` of node `u_now`, and no others.
    pub open spec fn gathered(
        &self,
        into: Seq<Vec<BoolTerm<'ctx>>>,
        origin: Seq<Seq<(int, int)>>,
        slot: Map<(int, int), int>,
        u_now: int,
        e_now: int,
    ) -> bool {
        &&& forall|v: int| 0 <= v < into.len() ==> (#[trigger] origin[v]).len() == into[v]@.len()
        &&& forall|v: int, i: int|
            0 <= v < into.len() && 0 <= i < into[v]@.len() ==> #[trigger] self.from_edge(
                into[v]@[i],
                origin[v][i],
                v,
            )
        &&& forall|u: int, e: int| #[trigger]
            self.taken_before(u, e, u_now, e_now) ==> self.has_slot(into, slot, u, e)
    }

    /// The terms of the query in which execution may stop at `goals`.
    pub fn clauses(&self, goals: &[NodeIdx]) -> (r: Clauses<'ctx>)
        requires
            self.wf(),
            forall|i: int| 0 <= i < goals@.len() ==> goals@[i] < self.graph.nodes.len(),
        ensures
            r.flow.wf(self.context.id(), self.graph.nodes.len() as int),
            r.schema@.len() == self.graph.nodes.len(),
            r.moves@.len() == self.graph.nodes.len(),
            all_at(r.schema@, self.context.id()),
            all_at(r.moves@, self.context.id()),
            forall|a: Valuation|
                (forall|u: int| 0 <= u < r.schema@.len() ==> (#[trigger] r.schema@[u])@.holds(a))
                    <==> #[trigger] self.schemas_hold(a),
            forall|v: NodeIdx, a: Valuation|
                v < self.graph.nodes.len() ==> (#[trigger] r.moves@[v as int]@.holds(a)
                    <==> self.goes_on(goals@, v, a)),
            forall|v: NodeIdx, a: Valuation|
                v < self.graph.nodes.len() ==> (#[trigger] r.flow.incoming@[v as int]@.holds(a)
                    <==> self.arrives(v, a)),
    {
        let n = self.graph.nodes.len();
        let home = self.context;
        let mut schema: Vec<BoolTerm<'ctx>> = Vec::new();
        let mut u: usize = 0;
        while u < n
            invariant
                u <= n,
                n == self.graph.nodes.len(),
                home == self.context,
                self.wf(),
                schema@.len() == u,
                all_at(schema@, home.id()),
                forall|w: int|
                    0 <= w < u ==> (#[trigger] schema@[w])@ == all_of(
                        views(self.node_asts@[w].schema_constraints@),
                    ),
            decreases n - u,
        {
            assert(node_fits(self.graph, self.context, self.node_asts@, u as int));
            schema.push(Self::aggregate_schema_constraints(&self.node_asts[u], home));
            u = u + 1;
        }
        proof {
            assert forall|a: Valuation|
                (forall|u: int| 0 <= u < schema@.len() ==> (#[trigger] schema@[u])@.holds(a))
                    <==> #[trigger] self.schemas_hold(a) by {
                if self.schemas_hold(a) {
                    assert forall|u: int| 0 <= u < schema@.len() implies (#[trigger] schema@[u])@.holds(
                        a,
                    ) by {
                        let parts = views(self.node_asts@[u].schema_constraints@);
                        lemma_all_of(parts, a);
                        assert forall|j: int| 0 <= j < parts.len() implies (#[trigger] parts[j]).holds(
                            a,
                        ) by {
                        }
                    }
                }
                if forall|u: int| 0 <= u < schema@.len() ==> (#[trigger] schema@[u])@.holds(a) {
                    assert forall|u: int, j: int|
                        0 <= u < self.node_asts@.len() && 0 <= j
                            < self.node_asts@[u].schema_constraints@.len() implies (
                    #[trigger] self.node_asts@[u].schema_constraints@[j])@.holds(a) by {
                        let parts = views(self.node_asts@[u].schema_constraints@);
                        lemma_all_of(parts, a);
                        assert(schema@[u]@.holds(a));
                        assert(parts[j].holds(a));
                    }
                }
            }
        }
        let mut flow = self.get_in_out_transition_constraints();
        let mut i: usize = 0;
        while i < goals.len()
            invariant
                i <= goals@.len(),
                n == self.graph.nodes.len(),
                home == self.context,
                forall|t: int| 0 <= t < goals@.len() ==> goals@[t] < n,
                flow.wf(home.id(), n as int),
                forall|v: NodeIdx, a: Valuation|
                    v < n ==> (#[trigger] flow.incoming@[v as int]@.holds(a) <==> self.entered(v, a)),
                forall|v: NodeIdx, a: Valuation|
                    v < n ==> (#[trigger] flow.outgoing@[v as int]@.holds(a) <==> goals@.take(
                        i as int,
                    ).contains(v) || self.left(v, a)),
            decreases goals@.len() - i,
        {
            let ghost before = flow.outgoing@;
            let goal = goals[i];
            flow.outgoing.set(goal, term_lit(home, true));
            proof {
                let now = goals@.take(i + 1);
                let then = goals@.take(i as int);
                assert(now[i as int] == goal);
            }
            i = i + 1;
        }
        assert(goals@.take(goals@.len() as int) =~= goals@);
        let start = match self.graph.start {
            Some(start) => start,
            None => unreached(),
        };
        let ghost before = flow.incoming@;
        flow.incoming.set(start, term_lit(home, true));
        let mut moves: Vec<BoolTerm<'ctx>> = Vec::new();
        let mut v: usize = 0;
        while v < n
            invariant
                v <= n,
                n == self.graph.nodes.len(),
                home == self.context,
                flow.wf(home.id(), n as int),
                moves@.len() == v,
                all_at(moves@, home.id()),
                forall|w: int|
                    0 <= w < v ==> (#[trigger] moves@[w])@ == Formula::Implies(
                        Box::new(flow.incoming@[w]@),
                        Box::new(flow.outgoing@[w]@),
                    ),
            decreases n - v,
        {
            moves.push(term_implies(&flow.incoming[v], &flow.outgoing[v]));
            v = v + 1;
        }
        proof {
            assert forall|v: NodeIdx, a: Valuation| v < n implies (#[trigger] moves@[v as int]@.holds(
                a,
            ) <==> self.goes_on(goals@, v, a)) by {
                assert(flow.incoming@[v as int]@.holds(a) <==> self.arrives(v, a));
                assert(flow.outgoing@[v as int]@.holds(a) <==> goals@.contains(v) || self.left(v, a));
            }
        }
        Clauses { schema, moves, flow }
    }

    /// Asserts into `solver` that execution arrives at `target`.
    pub fn assert_reachability(&self, solver: &mut SolverBox<'ctx>, target: NodeIdx)
        requires
            self.wf(),
            target < self.graph.nodes.len(),
            old(solver).home() == self.context.id(),
        ensures
            final(solver).home() == old(solver).home(),
            final(solver).answer() is None,
            forall|a: Valuation|
                #[trigger] all_hold(final(solver).asserted(), a) <==> all_hold(
                    old(solver).asserted(),
                    a,
                ) && self.reach_scenario(target, a),
    {
        let mut goals: Vec<NodeIdx> = Vec::new();
        goals.push(target);
        let clauses = self.clauses(goals.as_slice());
        let n = self.graph.nodes.len();
        let ghost first = solver.asserted();
        let mut u: usize = 0;
        while u < n
            invariant
                u <= n,
                n == self.graph.nodes.len(),
                clauses.schema@.len() == n,
                all_at(clauses.schema@, self.context.id()),
                solver.home() == self.context.id(),
                first == old(solver).asserted(),
                u == 0 ==> solver.asserted() == first,
                u > 0 ==> solver.answer() is None,
                forall|a: Valuation|
                    #[trigger] all_hold(solver.asserted(), a) <==> all_hold(first, a) && forall|w: int|
                        0 <= w < u ==> (#[trigger] clauses.schema@[w])@.holds(a),
            decreases n - u,
        {
            let ghost before = solver.asserted();
            solver_assert(solver, &clauses.schema[u]);
            proof {
                assert forall|a: Valuation| #[trigger]
                    all_hold(solver.asserted(), a) <==> all_hold(first, a) && forall|w: int|
                        0 <= w < u + 1 ==> (#[trigger] clauses.schema@[w])@.holds(a) by {
                    lemma_all_hold_push(before, clauses.schema@[u as int]@, a);
                    assert(all_hold(before, a) <==> all_hold(first, a) && forall|w: int|
                        0 <= w < u ==> (#[trigger] clauses.schema@[w])@.holds(a));
                }
            }
            u = u + 1;
        }
        let all_moves = conjunction(self.context, &clauses.moves);
        let ghost before = solver.asserted();
        solver_assert(solver, &all_moves);
        let ghost between = solver.asserted();
        solver_assert(solver, &clauses.flow.incoming[target]);
        proof {
            assert forall|a: Valuation| #[trigger]
                all_hold(solver.asserted(), a) <==> all_hold(first, a) && self.reach_scenario(
                    target,
                    a,
                ) by {
                lemma_all_hold_push(before, all_moves@, a);
                lemma_all_hold_push(between, clauses.flow.incoming@[target as int]@, a);
                lemma_all_of(views(clauses.moves@), a);
                assert(all_hold(before, a) <==> all_hold(first, a) && forall|w: int|
                    0 <= w < n ==> (#[trigger] clauses.schema@[w])@.holds(a));
                assert((forall|w: int|
                    0 <= w < clauses.schema@.len() ==> (#[trigger] clauses.schema@[w])@.holds(a))
                    <==> self.schemas_hold(a));
                if all_moves@.holds(a) {
                    assert forall|v: NodeIdx| v < n implies #[trigger] self.goes_on(
                        seq![target],
                        v,
                        a,
                    ) by {
                        assert(views(clauses.moves@)[v as int].holds(a));
                    }
                }
                if self.flows(seq![target], a) {
                    assert forall|i: int| 0 <= i < views(clauses.moves@).len() implies (
                    #[trigger] views(clauses.moves@)[i]).holds(a) by {
                    }
                }
            }
        }
    }
}

} // verus!
