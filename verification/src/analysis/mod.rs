//! The analyses of a workflow graph: whether a node can be reached, how
//! few inputs of the start node that takes, and whether execution always
//! arrives at one of a set of nodes.

use vstd::prelude::*;
use crate::analysis::ast::conjunction;
use crate::analysis::ast::disjunction;
use crate::analysis::ast::NodeAST;
use crate::analysis::construct::fits;
use crate::analysis::construct::node_fits;
use crate::analysis::flow::Clauses;
use crate::analysis::formula::all_hold;
use crate::analysis::formula::lemma_all_hold_push;
use crate::analysis::formula::lemma_all_of;
use crate::analysis::formula::lemma_either;
use crate::analysis::formula::Valuation;
use crate::analysis::oracle::all_at;
use crate::analysis::oracle::BoolTerm;
use crate::analysis::oracle::SatAnswer;
use crate::analysis::oracle::solver_assert;
use crate::analysis::oracle::solver_check;
use crate::analysis::oracle::solver_new;
use crate::analysis::oracle::SolverContext;
use crate::analysis::oracle::term_clone;
use crate::analysis::oracle::TERM_LIMIT;
use crate::analysis::oracle::term_not;
use crate::analysis::oracle::views;
use crate::analysis::topsort::post_order;
use crate::analysis::topsort::sorts;
use crate::analysis::witness::ExecutionWitness;
use crate::workflow::NodeIdx;
use crate::workflow::WorkflowGraph;

pub mod ast;
pub mod construct;
pub mod encoding;
pub mod flow;
pub mod formula;
pub mod layout;
pub mod literals;
pub mod oracle;
pub mod path;
pub mod search;
pub mod size;
pub mod symbol;
pub mod topsort;
pub mod witness;

verus! {

/// Why a graph could not be encoded.
#[derive(Debug, Clone, Copy, PartialEq, Eq, Structural)]
pub enum BuildError {
    /// The graph has no start node.
    MissingStart,
    /// Some node that can be reached from the start lies on a cycle.
    Cycle,
    /// Some node cannot be reached from the start.
    DetachedNode,
    /// The registry has fewer variables left than the keys need.
    OutOfVariables,
}

/// Why an analysis has no result.
#[derive(Debug, Clone, Copy, PartialEq, Eq, Structural)]
pub enum QueryError {
    /// The solver could not decide the query.
    Inconclusive,
    /// The solver found the query satisfiable and gave no model.
    NoModel,
    /// The model gave no truth value for a term.
    ModelIncomplete,
}

/// What the solver's answer to the negation of a claim says of the claim:
/// it holds always where its negation cannot be met, and not always where
/// its negation can be met. Where the solver does not decide, nothing is
/// known of the claim.
pub fn verdict_on_negation(answer: SatAnswer) -> (r: Result<bool, QueryError>)
    ensures
        r == match answer {
            SatAnswer::Unsat => Ok::<bool, QueryError>(true),
            SatAnswer::Sat => Ok::<bool, QueryError>(false),
            SatAnswer::Unknown => Err::<bool, QueryError>(QueryError::Inconclusive),
        },
{
    match answer {
        SatAnswer::Unsat => Ok(true),
        SatAnswer::Sat => Ok(false),
        SatAnswer::Unknown => Err(QueryError::Inconclusive),
    }
}

/// What the solver's answer to a scenario settles without a model: that the
/// analysis fails where the solver does not decide, and that there is no
/// execution where the scenario cannot be met. `None` where the scenario
/// can be met: the result is then read from the solver's model.
pub fn settled_by(answer: SatAnswer) -> (r: Option<Result<Option<ExecutionWitness>, QueryError>>)
    ensures
        answer == SatAnswer::Unknown ==> r == Some(
            Err::<Option<ExecutionWitness>, QueryError>(QueryError::Inconclusive),
        ),
        answer == SatAnswer::Unsat ==> r == Some(
            Ok::<Option<ExecutionWitness>, QueryError>(None),
        ),
        answer == SatAnswer::Sat ==> r is None,
{
    match answer {
        SatAnswer::Unknown => Some(Err(QueryError::Inconclusive)),
        SatAnswer::Unsat => Some(Ok(None)),
        SatAnswer::Sat => None,
    }
}

/// The encodings of the nodes of a graph in one solver session, by node id.
pub struct GraphVerifier<'ctx, 'g> {
    pub context: &'ctx SolverContext,
    pub graph: &'g WorkflowGraph,
    pub node_asts: Vec<NodeAST<'ctx, 'g>>,
}

impl<'ctx, 'g> GraphVerifier<'ctx, 'g> {
    /// The graph has a start node from which every node can be reached and
    /// none on a cycle, and every node has its encoding.
    pub open spec fn wf(&self) -> bool {
        &&& self.graph.wf()
        &&& fits(self.graph)
        &&& self.graph.start is Some
        &&& sorts(self.graph, post_order(self.graph))
        &&& self.node_asts@.len() == self.graph.nodes.len()
        &&& forall|u: int|
            0 <= u < self.node_asts@.len() ==> #[trigger] node_fits(
                self.graph,
                self.context,
                self.node_asts@,
                u,
            )
    }

    /// The scenario in which execution arrives at `target`: every schema
    /// holds, execution goes on from every node at which it arrives except
    /// `target`, and it arrives at `target`.
    pub open spec fn reach_scenario(&self, target: NodeIdx, a: Valuation) -> bool {
        &&& self.schemas_hold(a)
        &&& self.flows(seq![target], a)
        &&& self.arrives(target, a)
    }

    /// `witness` shows an execution that arrives at `target`: its path leads
    /// from the start to `target`, and under some valuation of that scenario
    /// the edges of the path are taken, the path is the one that a
    /// breadth-first search finds first over the edges that are taken, and
    /// the keys that the witness lists are there.
    pub open spec fn shows(&self, witness: ExecutionWitness, target: NodeIdx) -> bool {
        &&& self.is_execution_path(witness.path@, target)
        &&& exists|a: Valuation|
            #[trigger] self.reach_scenario(target, a) && self.follows(witness.path@, a)
                && self.found_first(witness.path@, target, a) && self.records(
                witness.models@,
                witness.path@,
                a,
            )
    }

    /// Whether execution can arrive at `target_node`: a witness where it
    /// can, `None` where it cannot. The solver decides which, and the call
    /// fails where the solver does not decide, gives no model, or gives a
    /// model without a truth value for a term. Only the first failure leaves
    /// open whether execution can arrive: the others come after the solver
    /// has found that it can.
    pub fn is_reachable(&self, target_node: NodeIdx) -> (r: Result<
        Option<ExecutionWitness>,
        QueryError,
    >)
        requires
            self.wf(),
            target_node < self.graph.nodes.len(),
        ensures
            r matches Ok(None) ==> forall|a: Valuation| !self.reach_scenario(target_node, a),
            r matches Ok(Some(w)) ==> self.shows(w, target_node),
            r matches Ok(Some(w)) ==> (self.graph.start == Some(target_node) ==> w.path@.len() == 1),
            r matches Err(e) ==> e is Inconclusive || exists|a: Valuation|
                #[trigger] self.reach_scenario(target_node, a),
    {
        let mut solver = solver_new(self.context);
        self.assert_reachability(&mut solver, target_node);
        let answer = solver_check(&mut solver);
        proof {
            if answer == SatAnswer::Unsat {
                assert forall|a: Valuation| !self.reach_scenario(target_node, a) by {
                    if self.reach_scenario(target_node, a) {
                        assert(all_hold(solver.asserted(), a));
                    }
                }
            }
            if answer == SatAnswer::Sat {
                let a = choose|a: Valuation| all_hold(solver.asserted(), a);
                assert(self.reach_scenario(target_node, a));
            }
        }
        match settled_by(answer) {
            Some(settled) => settled,
            None => {
                let found = self.explain(&solver, target_node);
                proof {
                    if found is Ok && found->Ok_0 is Some {
                        let w = found->Ok_0->Some_0;
                        let a = choose|a: Valuation|
                            #[trigger] all_hold(solver.asserted(), a) && self.follows(w.path@, a)
                                && self.found_first(w.path@, target_node, a) && self.records(
                                w.models@,
                                w.path@,
                                a,
                            );
                    }
                }
                found
            },
        }
    }

    /// The scenario in which execution arrives at one of `targets`: every
    /// schema holds, execution goes on from every node at which it arrives
    /// and which is none of `targets`, and it arrives at one of them.
    pub open spec fn eventual_scenario(&self, targets: Seq<NodeIdx>, a: Valuation) -> bool {
        &&& self.schemas_hold(a)
        &&& self.flows(targets, a)
        &&& exists|i: int| 0 <= i < targets.len() && self.arrives(#[trigger] targets[i], a)
    }

    /// Whether the scenario in which execution arrives at one of
    /// `target_nodes` holds whatever the keys are: false where the solver
    /// finds keys under which it does not, true where it finds that there
    /// are none. The call fails where the solver does not decide, and not
    /// otherwise.
    pub fn can_eventually_reach(&self, target_nodes: &[NodeIdx]) -> (r: Result<bool, QueryError>)
        requires
            self.wf(),
            target_nodes@.len() <= TERM_LIMIT,
            forall|i: int|
                0 <= i < target_nodes@.len() ==> target_nodes@[i] < self.graph.nodes.len(),
        ensures
            r matches Ok(true) ==> forall|a: Valuation| self.eventual_scenario(target_nodes@, a),
            r matches Ok(false) ==> exists|a: Valuation|
                !(#[trigger] self.eventual_scenario(target_nodes@, a)),
            (exists|a: Valuation| !(#[trigger] self.eventual_scenario(target_nodes@, a))) ==> r
                != Ok::<bool, QueryError>(true),
            (forall|a: Valuation| self.eventual_scenario(target_nodes@, a)) ==> r != Ok::<
                bool,
                QueryError,
            >(false),
            r matches Err(e) ==> e is Inconclusive,
    {
        let home = self.context;
        let n = self.graph.nodes.len();
        let clauses = self.clauses(target_nodes);
        let mut arrivals: Vec<BoolTerm<'ctx>> = Vec::new();
        let mut i: usize = 0;
        while i < target_nodes.len()
            invariant
                i <= target_nodes@.len(),
                n == self.graph.nodes.len(),
                home == self.context,
                forall|t: int| 0 <= t < target_nodes@.len() ==> target_nodes@[t] < n,
                clauses.flow.wf(home.id(), n as int),
                arrivals@.len() == i,
                all_at(arrivals@, home.id()),
                forall|t: int|
                    0 <= t < i ==> (#[trigger] arrivals@[t])@
                        == clauses.flow.incoming@[target_nodes@[t] as int]@,
            decreases target_nodes@.len() - i,
        {
            arrivals.push(term_clone(&clauses.flow.incoming[target_nodes[i]]));
            i = i + 1;
        }
        let arrival = disjunction(home, &arrivals);
        let Clauses { schema, moves, flow } = clauses;
        let mut all = schema;
        let mut rest = moves;
        all.append(&mut rest);
        all.push(arrival);
        let whole = conjunction(home, &all);
        let negated = term_not(&whole);
        let mut solver = solver_new(home);
        solver_assert(&mut solver, &negated);
        proof {
            assert forall|a: Valuation| #[trigger]
                whole@.holds(a) <==> self.eventual_scenario(target_nodes@, a) by {
                let parts = views(all@);
                lemma_all_of(parts, a);
                lemma_either(views(arrivals@), a);
                assert((forall|u: int| 0 <= u < schema@.len() ==> (#[trigger] schema@[u])@.holds(a))
                    <==> self.schemas_hold(a));
                if whole@.holds(a) {
                    assert forall|u: int| 0 <= u < schema@.len() implies (#[trigger] schema@[u])@.holds(
                        a,
                    ) by {
                        assert(parts[u].holds(a));
                    }
                    assert forall|v: NodeIdx| v < n implies #[trigger] self.goes_on(
                        target_nodes@,
                        v,
                        a,
                    ) by {
                        assert(parts[n + v].holds(a));
                    }
                    assert(parts[2 * n].holds(a));
                    let t = choose|t: int|
                        0 <= t < views(arrivals@).len() && (#[trigger] views(arrivals@)[t]).holds(a);
                }
                if self.eventual_scenario(target_nodes@, a) {
                    let t = choose|t: int|
                        0 <= t < target_nodes@.len() && self.arrives(#[trigger] target_nodes@[t], a);
                    assert(views(arrivals@)[t].holds(a));
                    assert forall|x: int| 0 <= x < parts.len() implies (#[trigger] parts[x]).holds(
                        a,
                    ) by {
                        if x < n {
                        } else if x < 2 * n {
                        }
                    }
                }
            }
            assert forall|a: Valuation| #[trigger]
                all_hold(solver.asserted(), a) <==> !self.eventual_scenario(target_nodes@, a) by {
                lemma_all_hold_push(Seq::empty(), negated@, a);
                assert(negated@.holds(a) <==> !whole@.holds(a));
            }
        }
        let answer = solver_check(&mut solver);
        proof {
            if answer == SatAnswer::Unsat {
                assert forall|a: Valuation| self.eventual_scenario(target_nodes@, a) by {
                    if !self.eventual_scenario(target_nodes@, a) {
                        assert(all_hold(solver.asserted(), a));
                    }
                }
            }
            if answer == SatAnswer::Sat {
                let a = choose|a: Valuation| all_hold(solver.asserted(), a);
                assert(!self.eventual_scenario(target_nodes@, a));
            }
        }
        verdict_on_negation(answer)
    }
}

} // verus!
