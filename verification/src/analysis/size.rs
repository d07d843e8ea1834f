//! The search for the smallest number of inputs of the start node with
//! which execution arrives at a target.

use vstd::prelude::*;
use crate::analysis::construct::node_fits;
use crate::analysis::formula::all_hold;
use crate::analysis::formula::Count;
use crate::analysis::formula::Formula;
use crate::analysis::formula::lemma_all_hold_push;
use crate::analysis::formula::total;
use crate::analysis::formula::Valuation;
use crate::analysis::GraphVerifier;
use crate::analysis::oracle::all_counts_at;
use crate::analysis::oracle::amounts;
use crate::analysis::oracle::count_choice;
use crate::analysis::oracle::count_lit;
use crate::analysis::oracle::count_same;
use crate::analysis::oracle::count_sum;
use crate::analysis::oracle::IntTerm;
use crate::analysis::oracle::SatAnswer;
use crate::analysis::oracle::solver_assert;
use crate::analysis::oracle::solver_check;
use crate::analysis::oracle::solver_new;
use crate::analysis::oracle::VARIABLE_LIMIT;
use crate::analysis::QueryError;
use crate::analysis::search::found_by_search;
use crate::analysis::search::lemma_finds_smallest;
use crate::analysis::search::lemma_found_past_gaps;
use crate::analysis::settled_by;
use crate::analysis::search::SizeSearch;
use crate::analysis::witness::ExecutionWitness;
use crate::workflow::NodeIdx;

verus! {

/// How many of the variables `vars` are true under `a`.
pub open spec fn tally(vars: Seq<u32>, a: Valuation) -> int
    decreases vars.len(),
{
    if vars.len() == 0 {
        0
    } else {
        tally(vars.drop_last(), a) + if a(vars.last()) {
            1int
        } else {
            0int
        }
    }
}

impl<'ctx, 'g> GraphVerifier<'ctx, 'g> {
    /// The variables of the input keys of the start node.
    pub open spec fn start_vars(&self) -> Seq<u32> {
        self.node_asts@[self.graph.start->Some_0 as int].input_keys.vars@
    }

    /// The scenario in which execution arrives at `target` with exactly
    /// `size` input keys of the start node there.
    pub open spec fn sized_scenario(&self, target: NodeIdx, size: int, a: Valuation) -> bool {
        tally(self.start_vars(), a) == size && self.reach_scenario(target, a)
    }

    /// Some execution arrives at `target` with exactly `size` input keys
    /// of the start node there.
    pub open spec fn reachable_with(&self, target: NodeIdx, size: int) -> bool {
        exists|a: Valuation| #[trigger] self.sized_scenario(target, size, a)
    }

    /// `witness` shows an execution that arrives at `target` with exactly
    /// `size` input keys of the start node there: its path leads from the
    /// start to `target`, and under some valuation of that scenario the
    /// edges of the path are taken, the path is the one that a breadth-first
    /// search finds first over the edges that are taken, and the keys that
    /// the witness lists are there.
    pub open spec fn shows_sized(&self, witness: ExecutionWitness, target: NodeIdx, size: int) -> bool {
        &&& self.is_execution_path(witness.path@, target)
        &&& exists|a: Valuation|
            #[trigger] self.sized_scenario(target, size, a) && self.follows(witness.path@, a)
                && self.found_first(witness.path@, target, a) && self.records(
                witness.models@,
                witness.path@,
                a,
            )
    }

    /// The term for the number of input keys of the start node that are
    /// there.
    pub fn count_input_set(&self) -> (r: IntTerm<'ctx>)
        requires
            self.wf(),
        ensures
            r.home() == self.context.id(),
            forall|a: Valuation| #[trigger] r@.amount(a) == tally(self.start_vars(), a),
    {
        let home = self.context;
        let start = match self.graph.start {
            Some(start) => start,
            None => unreached(),
        };
        assert(node_fits(self.graph, self.context, self.node_asts@, start as int));
        let table = &self.node_asts[start].input_keys;
        let ghost vars = table.vars@;
        let one = count_lit(home, 1);
        let zero = count_lit(home, 0);
        let mut parts: Vec<IntTerm<'ctx>> = Vec::new();
        let mut i: usize = 0;
        while i < table.len()
            invariant
                i <= table.names().len(),
                table.wf(home.id()),
                vars == table.vars@,
                one@ == Count::Lit(1),
                zero@ == Count::Lit(0),
                one.home() == home.id(),
                zero.home() == home.id(),
                parts@.len() == i,
                all_counts_at(parts@, home.id()),
                forall|a: Valuation|
                    #[trigger] total(amounts(parts@), a) == tally(vars.take(i as int), a),
            decreases table.names().len() - i,
        {
            let ghost before = parts@;
            let part = count_choice(&table.terms[i], &one, &zero);
            parts.push(part);
            proof {
                assert(amounts(parts@).drop_last() =~= amounts(before));
                assert(vars.take(i + 1).drop_last() =~= vars.take(i as int));
                assert forall|a: Valuation| #[trigger]
                    total(amounts(parts@), a) == tally(vars.take(i + 1), a) by {
                    assert(total(amounts(before), a) == tally(vars.take(i as int), a));
                    assert(Count::Lit(1).amount(a) == 1);
                    assert(Count::Lit(0).amount(a) == 0);
                    assert(Formula::Var(vars[i as int]).holds(a) == a(vars[i as int]));
                    assert(part@.amount(a) == if a(vars[i as int]) {
                        1int
                    } else {
                        0int
                    });
                }
            }
            i = i + 1;
        }
        assert(vars.take(vars.len() as int) =~= vars);
        let sum = if parts.len() == 0 {
            zero
        } else {
            count_sum(home, &parts)
        };
        proof {
            assert forall|a: Valuation| #[trigger] sum@.amount(a) == tally(self.start_vars(), a) by {
                assert(total(amounts(parts@), a) == tally(vars, a));
            }
        }
        sum
    }

    /// Whether execution can arrive at `target_node` with exactly
    /// `input_set_size` input keys of the start node there: a witness where
    /// it can, `None` where it cannot. The solver decides which, and the
    /// call fails where the solver does not decide, gives no model, or gives
    /// a model without a truth value for a term. Only the first failure
    /// leaves the question open.
    pub fn try_minimum_input_set(&self, target_node: NodeIdx, input_set_size: usize) -> (r: Result<
        Option<ExecutionWitness>,
        QueryError,
    >)
        requires
            self.wf(),
            target_node < self.graph.nodes.len(),
            input_set_size <= i64::MAX,
        ensures
            r matches Ok(None) ==> !self.reachable_with(target_node, input_set_size as int),
            r matches Ok(Some(w)) ==> self.shows_sized(w, target_node, input_set_size as int),
            r matches Ok(Some(w)) ==> (self.graph.start == Some(target_node) ==> w.path@.len() == 1),
            r matches Err(e) ==> e is Inconclusive || self.reachable_with(
                target_node,
                input_set_size as int,
            ),
    {
        let mut solver = solver_new(self.context);
        let cost = self.count_input_set();
        let size = count_lit(self.context, input_set_size as i64);
        let sized = count_same(&cost, &size);
        solver_assert(&mut solver, &sized);
        self.assert_reachability(&mut solver, target_node);
        proof {
            assert forall|a: Valuation| #[trigger]
                all_hold(solver.asserted(), a) <==> self.sized_scenario(
                    target_node,
                    input_set_size as int,
                    a,
                ) by {
                lemma_all_hold_push(Seq::empty(), sized@, a);
                assert(sized@.holds(a) <==> cost@.amount(a) == size@.amount(a));
            }
        }
        let answer = solver_check(&mut solver);
        proof {
            if answer == SatAnswer::Unsat {
                if self.reachable_with(target_node, input_set_size as int) {
                    let a = choose|a: Valuation| #[trigger]
                        self.sized_scenario(target_node, input_set_size as int, a);
                    assert(all_hold(solver.asserted(), a));
                }
            }
            if answer == SatAnswer::Sat {
                let a = choose|a: Valuation| all_hold(solver.asserted(), a);
                assert(self.sized_scenario(target_node, input_set_size as int, a));
            }
        }
        match settled_by(answer) {
            Some(settled) => settled,
            None => {
                let found = self.explain(&solver, target_node);
                proof {
                    if found is Ok && found->Ok_0 is Some {
                        let w = found->Ok_0->Some_0;
                        let a = choose|a: Valuation|
                            #[trigger] all_hold(solver.asserted(), a) && self.follows(w.path@, a)
                                && self.found_first(w.path@, target_node, a) && self.records(
                                w.models@,
                                w.path@,
                                a,
                            );
                    }
                }
                found
            },
        }
    }

    /// Which numbers of input keys of the start node work for `target`:
    /// those with which execution can arrive there.
    pub open spec fn works_with(&self, target: NodeIdx) -> spec_fn(int) -> bool {
        |size: int| self.reachable_with(target, size)
    }

    /// The size of a result of the search, if it has one.
    pub open spec fn size_of(found: Option<(usize, ExecutionWitness)>) -> Option<int> {
        match found {
            Some(best) => Some(best.0 as int),
            None => None,
        }
    }

    /// The smallest number of input keys of the start node with which
    /// execution can arrive at `target_node`, as a binary search over the
    /// numbers from 0 to the number of input keys finds it, with a witness;
    /// `None` where the search finds no number. The number found works and
    /// the next smaller one does not; between it and any smaller number
    /// that works lies one that does not, so it is the smallest wherever
    /// a number that works is not followed by one that does not. The
    /// solver decides for each number that the search tries whether it
    /// works, and the call fails where a try fails: where the solver does
    /// not decide, or where it has found that the number works and gives no
    /// model or a model without a truth value for a term.
    pub fn minimum_input_set(&self, target_node: NodeIdx) -> (r: Result<
        Option<(usize, ExecutionWitness)>,
        QueryError,
    >)
        requires
            self.wf(),
            target_node < self.graph.nodes.len(),
        ensures
            r matches Ok(None) ==> !self.reachable_with(
                target_node,
                self.start_vars().len() as int,
            ),
            r matches Ok(Some(found)) ==> {
                &&& found.0 <= self.start_vars().len()
                &&& found.0 > 0 ==> !self.reachable_with(target_node, found.0 - 1)
                &&& self.shows_sized(found.1, target_node, found.0 as int)
            },
            r matches Ok(found) ==> Self::size_of(found) == found_by_search(
                self.works_with(target_node),
                0,
                self.start_vars().len() as int + 1,
                None,
            ),
            r matches Ok(Some(found)) ==> forall|k: int|
                0 <= k < found.0 && #[trigger] self.reachable_with(target_node, k) ==> exists|
                    m: int,
                | k < m < found.0 && !#[trigger] self.reachable_with(target_node, m),
            r matches Ok(None) ==> forall|k: int|
                0 <= k <= self.start_vars().len() && #[trigger] self.reachable_with(target_node, k)
                    ==> exists|m: int|
                    k < m <= self.start_vars().len() && !#[trigger] self.reachable_with(
                        target_node,
                        m,
                    ),
            r matches Err(e) ==> e is Inconclusive || exists|size: int|
                0 <= size <= self.start_vars().len() && #[trigger] self.reachable_with(
                    target_node,
                    size,
                ),
    {
        let start = match self.graph.start {
            Some(start) => start,
            None => unreached(),
        };
        assert(node_fits(self.graph, self.context, self.node_asts@, start as int));
        let count = self.node_asts[start].input_keys.len();
        let mut search = SizeSearch::new(count);
        let mut found: Option<(usize, ExecutionWitness)> = None;
        loop
            invariant
                self.wf(),
                target_node < self.graph.nodes.len(),
                count == self.start_vars().len(),
                count <= VARIABLE_LIMIT,
                search.left <= search.end <= count + 1,
                search.left > 0 ==> !self.reachable_with(target_node, search.left - 1),
                found is None ==> search.end == count + 1,
                found matches Some(best) ==> {
                    &&& best.0 == search.end
                    &&& best.0 <= count
                    &&& self.shows_sized(best.1, target_node, best.0 as int)
                },
                found_by_search(self.works_with(target_node), 0, count + 1, None)
                    == found_by_search(
                    self.works_with(target_node),
                    search.left as int,
                    search.end as int,
                    Self::size_of(found),
                ),
            ensures
                search.left == search.end,
            decreases search.end - search.left,
        {
            let mid = match search.midpoint() {
                Some(mid) => mid,
                None => {
                    break ;
                },
            };
            match self.try_minimum_input_set(target_node, mid) {
                Err(e) => {
                    return Err(e);
                },
                Ok(Some(w)) => {
                    proof {
                        let a = choose|a: Valuation|
                            #[trigger] self.sized_scenario(target_node, mid as int, a)
                                && self.follows(w.path@, a) && self.found_first(
                                w.path@,
                                target_node,
                                a,
                            ) && self.records(w.models@, w.path@, a);
                        assert(self.sized_scenario(target_node, mid as int, a));
                        assert(self.works_with(target_node)(mid as int));
                    }
                    found = Some((mid, w));
                    search = search.narrow(true);
                },
                Ok(None) => {
                    assert(!self.works_with(target_node)(mid as int));
                    search = search.narrow(false);
                },
            }
        }
        proof {
            let works = self.works_with(target_node);
            lemma_found_past_gaps(works, count as int);
            if found is Some {
                let size = found->Some_0.0;
                assert forall|k: int|
                    0 <= k < size && #[trigger] self.reachable_with(target_node, k) implies exists|
                    m: int,
                | k < m < size && !#[trigger] self.reachable_with(target_node, m) by {
                    assert(works(k));
                    let m = choose|m: int| k < m < size && !#[trigger] works(m);
                    assert(!self.reachable_with(target_node, m));
                }
            } else {
                assert forall|k: int|
                    0 <= k <= count && #[trigger] self.reachable_with(
                        target_node,
                        k,
                    ) implies exists|m: int|
                    k < m <= count && !#[trigger] self.reachable_with(target_node, m) by {
                    assert(works(k));
                    let m = choose|m: int| k < m < count + 1 && !#[trigger] works(m);
                    assert(!self.reachable_with(target_node, m));
                }
            }
        }
        Ok(found)
    }

    /// Where more inputs never hurt, the search finds the smallest number
    /// of input keys of the start node with which execution can arrive at
    /// `target`, and finds none only where it cannot arrive with any number.
    pub proof fn lemma_minimum_is_smallest(&self, target: NodeIdx)
        requires
            self.more_inputs_never_hurt(target, self.start_vars().len() as int),
        ensures
            found_by_search(
                self.works_with(target),
                0,
                self.start_vars().len() as int + 1,
                None,
            ) matches Some(size) ==> 0 <= size <= self.start_vars().len() && self.reachable_with(
                target,
                size,
            ) && forall|k: int| 0 <= k < size ==> !#[trigger] self.reachable_with(target, k),
            found_by_search(
                self.works_with(target),
                0,
                self.start_vars().len() as int + 1,
                None,
            ) is None ==> forall|k: int|
                0 <= k <= self.start_vars().len() ==> !#[trigger] self.reachable_with(target, k),
    {
        let works = self.works_with(target);
        let max = self.start_vars().len() as int;
        assert forall|k: int, l: int| 0 <= k <= l <= max && #[trigger] works(k) implies #[trigger] works(
            l,
        ) by {
            assert(self.reachable_with(target, k));
            assert(self.reachable_with(target, l));
        }
        lemma_finds_smallest(works, max);
        match found_by_search(works, 0, max + 1, None) {
            Some(size) => {
                assert(works(size));
                assert forall|k: int| 0 <= k < size implies !#[trigger] self.reachable_with(
                    target,
                    k,
                ) by {
                    assert(!works(k));
                }
            },
            None => {
                assert forall|k: int| 0 <= k <= max implies !#[trigger] self.reachable_with(
                    target,
                    k,
                ) by {
                    assert(!works(k));
                }
            },
        }
    }

    /// Where execution can arrive at `target` with some number of input
    /// keys of the start node, it can with every larger number up to `max`.
    pub open spec fn more_inputs_never_hurt(&self, target: NodeIdx, max: int) -> bool {
        forall|k: int, l: int|
            0 <= k <= l <= max && #[trigger] self.reachable_with(target, k)
                ==> #[trigger] self.reachable_with(target, l)
    }

    /// A size that works while the next smaller one does not is the
    /// smallest that works, where more inputs never hurt.
    pub proof fn lemma_smallest_size(&self, target: NodeIdx, size: int, max: int)
        requires
            self.more_inputs_never_hurt(target, max),
            0 <= size <= max,
            self.reachable_with(target, size),
            size > 0 ==> !self.reachable_with(target, size - 1),
        ensures
            forall|k: int| 0 <= k < size ==> !self.reachable_with(target, k),
    {
    }

    /// Where the largest size does not work, none does, where more inputs
    /// never hurt.
    pub proof fn lemma_no_size(&self, target: NodeIdx, max: int)
        requires
            self.more_inputs_never_hurt(target, max),
            0 <= max,
            !self.reachable_with(target, max),
        ensures
            forall|k: int| 0 <= k <= max ==> !self.reachable_with(target, k),
    {
    }

    /// Where execution can arrive at `target` with some number of input
    /// keys of the start node, it can arrive at `target`.
    pub proof fn lemma_sized_reaches(&self, target: NodeIdx, size: int)
        requires
            self.reachable_with(target, size),
        ensures
            exists|a: Valuation| #[trigger] self.reach_scenario(target, a),
    {
        let a = choose|a: Valuation| #[trigger] self.sized_scenario(target, size, a);
    }
}

} // verus!
