//! What a model of the solver shows: the edges that are taken, a path
//! over them, and the keys that are there at each node of the path.

use vstd::prelude::*;
use crate::analysis::ast::KeyTable;
use crate::analysis::construct::node_fits;
use crate::analysis::formula::all_hold;
use crate::analysis::formula::Formula;
use crate::analysis::oracle::all_at;
use crate::analysis::oracle::BoolTerm;
use crate::workflow::schema::InputCond;
use crate::analysis::formula::Valuation;
use crate::analysis::GraphVerifier;
use crate::analysis::oracle::model_value;
use crate::analysis::oracle::ModelBox;
use crate::analysis::oracle::SatAnswer;
use crate::analysis::oracle::solver_model;
use crate::analysis::oracle::SolverBox;
use crate::analysis::path::closed_graph;
use crate::analysis::path::connects;
use crate::analysis::path::find_path;
use crate::analysis::path::is_route;
use crate::analysis::path::first_route;
use crate::analysis::QueryError;
use crate::analysis::topsort::has_edge;
use crate::analysis::topsort::post_order;
use crate::workflow::NodeIdx;
use crate::workflow::schema::key_names;
use crate::workflow::schema::KeyName;

verus! {

/// The keys that are there at one node in one execution.
#[derive(Debug)]
pub struct ExecutionModel {
    pub node_idx: NodeIdx,
    pub input_keys: Vec<String>,
    pub output_keys: Vec<String>,
}

/// An execution that arrives at a target: the nodes it passes, from the
/// start to the target, and the keys that are there at each of them.
#[derive(Debug)]
pub struct ExecutionWitness {
    pub path: Vec<NodeIdx>,
    pub models: Vec<ExecutionModel>,
}

/// The names among `names` whose variable is true under `a`, in order.
pub open spec fn present(names: Seq<KeyName>, vars: Seq<u32>, a: Valuation) -> Seq<KeyName>
    decreases names.len(),
{
    if names.len() == 0 || vars.len() == 0 {
        Seq::empty()
    } else {
        let before = present(names.drop_last(), vars.drop_last(), a);
        if a(vars.last()) {
            before.push(names.last())
        } else {
            before
        }
    }
}

/// Every truth value of `values` is there.
pub open spec fn all_known(values: Seq<Option<bool>>) -> bool {
    forall|i: int| 0 <= i < values.len() ==> (#[trigger] values[i]) is Some
}

/// The items of `items` whose truth value in `values` is true, in order.
pub open spec fn kept<T>(items: Seq<T>, values: Seq<Option<bool>>) -> Seq<T>
    decreases items.len(),
{
    if items.len() == 0 || values.len() == 0 {
        Seq::empty()
    } else {
        let before = kept(items.drop_last(), values.drop_last());
        if values.last() == Some(true) {
            before.push(items.last())
        } else {
            before
        }
    }
}

/// `values` are truth values that `model` gave for `terms`: each that is
/// there is the one that its term has under the model's valuation.
pub open spec fn told_by(values: Seq<Option<bool>>, terms: Seq<BoolTerm<'_>>, a: Valuation) -> bool {
    &&& values.len() == terms.len()
    &&& forall|i: int|
        0 <= i < values.len() ==> ((#[trigger] values[i]) matches Some(b) ==> b == terms[i]@.holds(a))
}

/// Every item that is kept is one of the items.
pub proof fn lemma_kept_among<T>(items: Seq<T>, values: Seq<Option<bool>>, k: int)
    requires
        0 <= k < kept(items, values).len(),
    ensures
        items.contains(kept(items, values)[k]),
    decreases items.len(),
{
    if items.len() > 0 && values.len() > 0 {
        let before = kept(items.drop_last(), values.drop_last());
        if k < before.len() {
            lemma_kept_among(items.drop_last(), values.drop_last(), k);
            let i = choose|i: int|
                0 <= i < items.drop_last().len() && items.drop_last()[i] == before[k];
            assert(items[i] == before[k]);
        } else {
            assert(items[items.len() - 1] == items.last());
        }
    }
}

/// The truth values that `model` gives for `terms`, in order; `None` in
/// place of one that it does not give.
pub fn truth_values<'ctx>(model: &ModelBox<'ctx>, terms: &Vec<BoolTerm<'ctx>>) -> (r: Vec<
    Option<bool>,
>)
    requires
        all_at(terms@, model.home()),
    ensures
        told_by(r@, terms@, model.values()),
{
    let mut values: Vec<Option<bool>> = Vec::new();
    let mut i: usize = 0;
    while i < terms.len()
        invariant
            i <= terms@.len(),
            all_at(terms@, model.home()),
            values@.len() == i,
            forall|t: int|
                0 <= t < i ==> ((#[trigger] values@[t]) matches Some(b) ==> b == terms@[t]@.holds(
                    model.values(),
                )),
        decreases terms@.len() - i,
    {
        values.push(model_value(model, &terms[i]));
        i = i + 1;
    }
    values
}

/// The names of `names` whose truth value in `values` is true, in order;
/// `None` where `values` does not hold one entry for each name or a truth
/// value is missing, and only there.
pub fn keys_where(names: &Vec<String>, values: &Vec<Option<bool>>) -> (r: Option<Vec<String>>)
    ensures
        r is Some <==> names@.len() == values@.len() && all_known(values@),
        r matches Some(keys) ==> key_names(keys@) == kept(key_names(names@), values@),
{
    if names.len() != values.len() {
        return None;
    }
    let ghost all = key_names(names@);
    let mut keys: Vec<String> = Vec::new();
    let mut i: usize = 0;
    assert(key_names(keys@) =~= kept(all.take(0), values@.take(0)));
    while i < names.len()
        invariant
            i <= names@.len(),
            names@.len() == values@.len(),
            all == key_names(names@),
            forall|t: int| 0 <= t < i ==> (#[trigger] values@[t]) is Some,
            key_names(keys@) == kept(all.take(i as int), values@.take(i as int)),
        decreases names@.len() - i,
    {
        proof {
            assert(all.take(i + 1).drop_last() =~= all.take(i as int));
            assert(values@.take(i + 1).drop_last() =~= values@.take(i as int));
        }
        match values[i] {
            None => {
                return None;
            },
            Some(value) => {
                if value {
                    let ghost before = keys@;
                    keys.push(names[i].clone());
                    assert(key_names(keys@) =~= key_names(before).push(all[i as int]));
                }
            },
        }
        i = i + 1;
    }
    assert(all.take(names@.len() as int) =~= all);
    assert(values@.take(names@.len() as int) =~= values@);
    Some(keys)
}

/// `values` holds one entry for each edge of `adj_list`.
pub open spec fn one_for_each(
    adj_list: Seq<Vec<(NodeIdx, Vec<InputCond>)>>,
    values: Seq<Vec<Option<bool>>>,
) -> bool {
    &&& values.len() == adj_list.len()
    &&& forall|u: int| 0 <= u < values.len() ==> (#[trigger] values[u])@.len() == adj_list[u]@.len()
}

/// For every node, the targets of its edges whose truth value in `values`
/// is true, in edge order; `None` where `values` does not hold one entry
/// for each edge or a truth value is missing, and only there.
pub fn taken_where(
    adj_list: &Vec<Vec<(NodeIdx, Vec<InputCond>)>>,
    values: &Vec<Vec<Option<bool>>>,
) -> (r: Option<Vec<Vec<NodeIdx>>>)
    ensures
        r is Some <==> one_for_each(adj_list@, values@) && forall|u: int|
            0 <= u < values@.len() ==> all_known((#[trigger] values@[u])@),
        r matches Some(taken) ==> taken@.len() == adj_list@.len() && forall|u: int|
            0 <= u < taken@.len() ==> (#[trigger] taken@[u])@ == kept(
                edge_targets(adj_list@[u]@),
                values@[u]@,
            ),
{
    if values.len() != adj_list.len() {
        return None;
    }
    let mut taken: Vec<Vec<NodeIdx>> = Vec::new();
    let mut u: usize = 0;
    while u < adj_list.len()
        invariant
            u <= adj_list@.len(),
            values@.len() == adj_list@.len(),
            forall|w: int| 0 <= w < u ==> (#[trigger] values@[w])@.len() == adj_list@[w]@.len(),
            taken@.len() == u,
            forall|w: int| 0 <= w < u ==> all_known((#[trigger] values@[w])@),
            forall|w: int|
                0 <= w < u ==> (#[trigger] taken@[w])@ == kept(
                    edge_targets(adj_list@[w]@),
                    values@[w]@,
                ),
        decreases adj_list@.len() - u,
    {
        if values[u].len() != adj_list[u].len() {
            return None;
        }
        let ghost targets = edge_targets(adj_list@[u as int]@);
        let ghost told = values@[u as int]@;
        let mut row: Vec<NodeIdx> = Vec::new();
        let mut e: usize = 0;
        assert(row@ =~= kept(targets.take(0), told.take(0)));
        while e < adj_list[u].len()
            invariant
                u < adj_list@.len(),
                e <= adj_list@[u as int]@.len(),
                values@.len() == adj_list@.len(),
                told == values@[u as int]@,
                told.len() == adj_list@[u as int]@.len(),
                targets == edge_targets(adj_list@[u as int]@),
                forall|t: int| 0 <= t < e ==> (#[trigger] told[t]) is Some,
                row@ == kept(targets.take(e as int), told.take(e as int)),
            decreases adj_list@[u as int]@.len() - e,
        {
            proof {
                assert(targets.take(e + 1).drop_last() =~= targets.take(e as int));
                assert(told.take(e + 1).drop_last() =~= told.take(e as int));
            }
            match values[u][e] {
                None => {
                    assert(!all_known(values@[u as int]@));
                    return None;
                },
                Some(value) => {
                    if value {
                        row.push(adj_list[u][e].0);
                    }
                },
            }
            e = e + 1;
        }
        assert(targets.take(targets.len() as int) =~= targets);
        assert(told.take(told.len() as int) =~= told);
        taken.push(row);
        u = u + 1;
    }
    Some(taken)
}

/// The nodes to which `edges` lead, in order.
pub open spec fn edge_targets(edges: Seq<(NodeIdx, Vec<InputCond>)>) -> Seq<NodeIdx> {
    Seq::new(edges.len(), |e: int| edges[e].0)
}

/// Where every truth value that the model gave is there, the names that
/// are kept are those whose variable is true under the model's valuation.
pub proof fn lemma_kept_present(table: KeyTable<'_>, values: Seq<Option<bool>>, a: Valuation, n: int)
    requires
        told_by(values, table.terms@, a),
        table.terms@.len() == table.names().len(),
        table.vars@.len() == table.names().len(),
        forall|i: int|
            0 <= i < table.terms@.len() ==> (#[trigger] table.terms@[i])@ == Formula::Var(
                table.vars@[i],
            ),
        all_known(values),
        0 <= n <= table.names().len(),
    ensures
        kept(table.names().take(n), values.take(n)) == present(
            table.names().take(n),
            table.vars@.take(n),
            a,
        ),
    decreases n,
{
    let names = table.names();
    let vars = table.vars@;
    if n > 0 {
        lemma_kept_present(table, values, a, n - 1);
        assert(names.take(n).drop_last() =~= names.take(n - 1));
        assert(vars.take(n).drop_last() =~= vars.take(n - 1));
        assert(values.take(n).drop_last() =~= values.take(n - 1));
        assert(values[n - 1] is Some);
        assert(table.terms@[n - 1]@ == Formula::Var(vars[n - 1]));
    } else {
        assert(names.take(0) =~= Seq::empty());
    }
}

/// The keys of `table` whose variable is true in `model`; `None` where the
/// model gives no truth value for one. A table without keys asks the model
/// nothing and has its answer.
pub fn true_keys<'ctx>(model: &ModelBox<'ctx>, table: &KeyTable<'ctx>) -> (r: Option<Vec<String>>)
    requires
        table.wf(model.home()),
    ensures
        r matches Some(keys) ==> key_names(keys@) == present(
            table.names(),
            table.vars@,
            model.values(),
        ),
        table.names().len() == 0 ==> r is Some,
        exists|values: Seq<Option<bool>>|
            #[trigger] told_by(values, table.terms@, model.values()) && (r is Some <==> all_known(
                values,
            )),
{
    let values = truth_values(model, &table.terms);
    let keys = keys_where(&table.keys.names, &values);
    proof {
        if keys is Some {
            lemma_kept_present(*table, values@, model.values(), table.names().len() as int);
            assert(table.names().take(table.names().len() as int) =~= table.names());
            assert(table.vars@.take(table.names().len() as int) =~= table.vars@);
            assert(values@.take(table.names().len() as int) =~= values@);
        }
        assert(told_by(values@, table.terms@, model.values()));
    }
    keys
}

impl<'ctx, 'g> GraphVerifier<'ctx, 'g> {
    /// Some edge from `u` to `v` among the first `bound` edges of `u` is
    /// taken under `a`.
    pub open spec fn taken_to(&self, u: int, v: NodeIdx, a: Valuation, bound: int) -> bool {
        exists|e: int|
            0 <= e < bound && self.graph.adj_list[u][e].0 == v && #[trigger] self.active(u, e, a)
    }

    /// The targets of the first `bound` edges of `u` that are taken under
    /// `a`, in edge order.
    pub open spec fn taken_targets(&self, u: int, a: Valuation, bound: int) -> Seq<NodeIdx>
        decreases bound,
    {
        if bound <= 0 {
            Seq::empty()
        } else if self.active(u, bound - 1, a) {
            self.taken_targets(u, a, bound - 1).push(self.graph.adj_list[u][bound - 1].0)
        } else {
            self.taken_targets(u, a, bound - 1)
        }
    }

    /// `path` leads from the start to `target` over edges of the graph.
    pub open spec fn is_execution_path(&self, path: Seq<NodeIdx>, target: NodeIdx) -> bool {
        &&& path.len() > 0
        &&& Some(path.first()) == self.graph.start
        &&& path.last() == target
        &&& forall|i: int|
            0 <= i < path.len() - 1 ==> has_edge(self.graph, #[trigger] path[i], path[i + 1])
    }

    /// Every step of `path` is an edge that is taken under `a`.
    pub open spec fn follows(&self, path: Seq<NodeIdx>, a: Valuation) -> bool {
        forall|i: int|
            0 <= i < path.len() - 1 ==> (#[trigger] path[i]) < self.graph.adj_list.len()
                && self.taken_to(
                path[i] as int,
                path[i + 1],
                a,
                self.graph.adj_list[path[i] as int].len() as int,
            )
    }

    /// `taken` holds, for each node, the targets of its edges that are taken
    /// under `a`, in edge order.
    pub open spec fn taken_under(&self, taken: Seq<Vec<NodeIdx>>, a: Valuation) -> bool {
        &&& taken.len() == self.graph.nodes.len()
        &&& forall|u: int|
            0 <= u < taken.len() ==> (#[trigger] taken[u])@ == self.taken_targets(
                u,
                a,
                self.graph.adj_list[u].len() as int,
            )
    }

    /// `path` is the route from the start to `target` that a breadth-first
    /// search finds first over the edges that are taken under `a`.
    pub open spec fn found_first(&self, path: Seq<NodeIdx>, target: NodeIdx, a: Valuation) -> bool {
        exists|taken: Seq<Vec<NodeIdx>>| #[trigger]
            self.taken_under(taken, a) && first_route(
                taken,
                self.graph.start->Some_0,
                target,
                path,
            )
    }

    /// `models` lists, for each node of `path`, the keys that are there
    /// under `a`.
    pub open spec fn records(
        &self,
        models: Seq<ExecutionModel>,
        path: Seq<NodeIdx>,
        a: Valuation,
    ) -> bool {
        &&& models.len() == path.len()
        &&& forall|i: int|
            0 <= i < models.len() ==> {
                let at = #[trigger] models[i];
                let ast = self.node_asts@[path[i] as int];
                &&& at.node_idx == path[i]
                &&& key_names(at.input_keys@) == present(
                    ast.input_keys.names(),
                    ast.input_keys.vars@,
                    a,
                )
                &&& key_names(at.output_keys@) == present(
                    ast.output_keys.names(),
                    ast.output_keys.vars@,
                    a,
                )
            }
    }

    /// No node of the graph has an edge.
    pub open spec fn without_edges(&self) -> bool {
        forall|u: int|
            0 <= u < self.graph.adj_list.len() ==> (#[trigger] self.graph.adj_list[u]).len() == 0
    }

    /// No node of `path` has an input or an output key.
    pub open spec fn without_keys(&self, path: Seq<NodeIdx>) -> bool {
        forall|i: int|
            0 <= i < path.len() ==> self.node_asts@[(#[trigger] path[i]) as int].input_keys.names().len()
                == 0 && self.node_asts@[path[i] as int].output_keys.names().len() == 0
    }

    /// `values` are truth values that a model with the valuation `a` gave
    /// for the edges of every node.
    pub open spec fn edges_told(&self, values: Seq<Vec<Option<bool>>>, a: Valuation) -> bool {
        &&& values.len() == self.node_asts@.len()
        &&& forall|u: int|
            0 <= u < values.len() ==> told_by(
                (#[trigger] values[u])@,
                self.node_asts@[u].transition_constraints@,
                a,
            )
    }

    /// Every truth value of `values` is there.
    pub open spec fn edges_known(values: Seq<Vec<Option<bool>>>) -> bool {
        forall|u: int| 0 <= u < values.len() ==> all_known((#[trigger] values[u])@)
    }

    /// The truth values that `model` gives for the edges of every node.
    pub fn edge_values(&self, model: &ModelBox<'ctx>) -> (r: Vec<Vec<Option<bool>>>)
        requires
            self.wf(),
            model.home() == self.context.id(),
        ensures
            self.edges_told(r@, model.values()),
    {
        let mut values: Vec<Vec<Option<bool>>> = Vec::new();
        let mut u: usize = 0;
        while u < self.node_asts.len()
            invariant
                u <= self.node_asts@.len(),
                self.wf(),
                model.home() == self.context.id(),
                values@.len() == u,
                forall|w: int|
                    0 <= w < u ==> told_by(
                        (#[trigger] values@[w])@,
                        self.node_asts@[w].transition_constraints@,
                        model.values(),
                    ),
            decreases self.node_asts@.len() - u,
        {
            assert(node_fits(self.graph, self.context, self.node_asts@, u as int));
            values.push(truth_values(model, &self.node_asts[u].transition_constraints));
            u = u + 1;
        }
        values
    }

    /// The edges of `u` that are kept by truth values that the model gave
    /// are those that are taken under the model's valuation.
    pub proof fn lemma_kept_taken(&self, u: int, values: Seq<Option<bool>>, a: Valuation, bound: int)
        requires
            0 <= u < self.graph.adj_list.len(),
            told_by(values, self.node_asts@[u].transition_constraints@, a),
            values.len() == self.graph.adj_list[u].len(),
            all_known(values),
            0 <= bound <= values.len(),
        ensures
            kept(edge_targets(self.graph.adj_list[u]@).take(bound), values.take(bound))
                == self.taken_targets(u, a, bound),
        decreases bound,
    {
        let targets = edge_targets(self.graph.adj_list[u]@);
        if bound > 0 {
            self.lemma_kept_taken(u, values, a, bound - 1);
            assert(targets.take(bound).drop_last() =~= targets.take(bound - 1));
            assert(values.take(bound).drop_last() =~= values.take(bound - 1));
            assert(values[bound - 1] is Some);
        } else {
            assert(targets.take(0) =~= Seq::empty());
        }
    }

    /// A node is among the targets of the edges of `u` that are taken
    /// exactly where an edge from `u` to it is taken.
    pub proof fn lemma_taken_targets(&self, u: int, v: NodeIdx, a: Valuation, bound: int)
        requires
            0 <= bound,
        ensures
            self.taken_targets(u, a, bound).contains(v) <==> self.taken_to(u, v, a, bound),
        decreases bound,
    {
        if bound > 0 {
            self.lemma_taken_targets(u, v, a, bound - 1);
            let before = self.taken_targets(u, a, bound - 1);
            let now = self.taken_targets(u, a, bound);
            let target = self.graph.adj_list[u][bound - 1].0;
            if before.contains(v) {
                let k = choose|k: int| 0 <= k < before.len() && before[k] == v;
                assert(now[k] == v);
                let x = choose|x: int|
                    0 <= x < bound - 1 && self.graph.adj_list[u][x].0 == v && #[trigger] self.active(
                        u,
                        x,
                        a,
                    );
                assert(self.taken_to(u, v, a, bound));
            }
            if self.active(u, bound - 1, a) && v == target {
                assert(now[before.len() as int] == v);
                assert(self.taken_to(u, v, a, bound));
            }
            if now.contains(v) && !before.contains(v) {
                let k = choose|k: int| 0 <= k < now.len() && now[k] == v;
                assert(self.active(u, bound - 1, a) && v == target);
            }
            if self.taken_to(u, v, a, bound) {
                let x = choose|x: int|
                    0 <= x < bound && self.graph.adj_list[u][x].0 == v && #[trigger] self.active(
                        u,
                        x,
                        a,
                    );
                if x < bound - 1 {
                    assert(self.taken_to(u, v, a, bound - 1));
                }
            }
        }
    }

    /// For every node, the targets of its edges that are taken in `model`,
    /// in edge order; `None` where the model gives no truth value for an
    /// edge, and only there. A graph without edges asks the model nothing
    /// and has its answer.
    pub fn build_graph_from_model(&self, model: &ModelBox<'ctx>) -> (r: Option<Vec<Vec<NodeIdx>>>)
        requires
            self.wf(),
            model.home() == self.context.id(),
        ensures
            self.without_edges() ==> r is Some,
            exists|values: Seq<Vec<Option<bool>>>|
                #[trigger] self.edges_told(values, model.values()) && (r is Some
                    <==> Self::edges_known(values)),
            r matches Some(taken) ==> {
                &&& taken@.len() == self.graph.nodes.len()
                &&& closed_graph(taken@)
                &&& forall|u: int|
                    0 <= u < taken@.len() ==> (#[trigger] taken@[u])@ == self.taken_targets(
                        u,
                        model.values(),
                        self.graph.adj_list[u].len() as int,
                    )
                &&& forall|u: int, v: NodeIdx|
                    0 <= u < taken@.len() ==> (#[trigger] taken@[u]@.contains(v) <==> self.taken_to(
                        u,
                        v,
                        model.values(),
                        self.graph.adj_list[u].len() as int,
                    ))
            },
    {
        let values = self.edge_values(model);
        let ghost a = model.values();
        proof {
            assert forall|u: int| 0 <= u < values@.len() implies (#[trigger] values@[u])@.len()
                == self.graph.adj_list@[u]@.len() by {
                assert(node_fits(self.graph, self.context, self.node_asts@, u));
                assert(told_by(values@[u]@, self.node_asts@[u].transition_constraints@, a));
            }
        }
        let found = taken_where(&self.graph.adj_list, &values);
        proof {
            assert(self.edges_told(values@, a));
            if found is Some {
                let taken = found->Some_0;
                assert forall|u: int| 0 <= u < taken@.len() implies (#[trigger] taken@[u])@
                    == self.taken_targets(u, a, self.graph.adj_list[u].len() as int) by {
                    let targets = edge_targets(self.graph.adj_list[u]@);
                    assert(all_known(values@[u]@));
                    assert(told_by(values@[u]@, self.node_asts@[u].transition_constraints@, a));
                    self.lemma_kept_taken(u, values@[u]@, a, values@[u]@.len() as int);
                    assert(targets.take(targets.len() as int) =~= targets);
                    assert(values@[u]@.take(values@[u]@.len() as int) =~= values@[u]@);
                }
                assert forall|u: int, v: NodeIdx| 0 <= u < taken@.len() implies (
                #[trigger] taken@[u]@.contains(v) <==> self.taken_to(
                    u,
                    v,
                    a,
                    self.graph.adj_list[u].len() as int,
                )) by {
                    assert(taken@[u]@ == self.taken_targets(u, a, self.graph.adj_list[u].len() as int));
                    self.lemma_taken_targets(u, v, a, self.graph.adj_list[u].len() as int);
                }
                assert forall|u: int, k: int|
                    0 <= u < taken@.len() && 0 <= k < taken@[u]@.len() implies (
                #[trigger] taken@[u]@[k]) < taken@.len() by {
                    let v = taken@[u]@[k];
                    assert(taken@[u]@.contains(v));
                    let x = choose|x: int|
                        0 <= x < self.graph.adj_list[u].len() && self.graph.adj_list[u][x].0 == v
                            && #[trigger] self.active(u, x, a);
                    assert(self.graph.adj_list[u][x].0 < self.graph.nodes.len());
                }
            }
            if self.without_edges() {
                assert forall|u: int| 0 <= u < values@.len() implies all_known(
                    (#[trigger] values@[u])@,
                ) by {
                    assert(self.graph.adj_list[u].len() == 0);
                }
            }
        }
        found
    }

    /// The path from the start to `target_node` over the edges of `graph`
    /// that a breadth-first search finds first, if there is a path.
    pub fn find_path_by_bfs(&self, graph: &Vec<Vec<NodeIdx>>, target_node: NodeIdx) -> (r: Option<
        Vec<NodeIdx>,
    >)
        requires
            self.graph.wf(),
            self.graph.start is Some,
            graph@.len() == self.graph.nodes.len(),
            closed_graph(graph@),
            target_node < graph@.len(),
        ensures
            r is Some <==> connects(graph@, self.graph.start->Some_0, target_node),
            r matches Some(path) ==> first_route(
                graph@,
                self.graph.start->Some_0,
                target_node,
                path@,
            ),
            r matches Some(path) ==> (self.graph.start == Some(target_node) ==> path@.len() == 1),
    {
        match self.graph.start {
            Some(start) => find_path(graph, start, target_node),
            None => unreached(),
        }
    }

    /// The witness of an execution along `path` under `model`; `None` where
    /// the model gives no truth value for a key. A path over nodes without
    /// keys asks the model nothing and has its witness.
    fn witness(&self, model: &ModelBox<'ctx>, path: Vec<NodeIdx>) -> (r: Option<ExecutionWitness>)
        requires
            self.wf(),
            model.home() == self.context.id(),
            forall|i: int| 0 <= i < path@.len() ==> path@[i] < self.graph.nodes.len(),
        ensures
            r matches Some(w) ==> w.path@ == path@ && self.records(
                w.models@,
                path@,
                model.values(),
            ),
            self.without_keys(path@) ==> r is Some,
    {
        let mut models: Vec<ExecutionModel> = Vec::new();
        let mut i: usize = 0;
        while i < path.len()
            invariant
                i <= path@.len(),
                self.wf(),
                model.home() == self.context.id(),
                forall|t: int| 0 <= t < path@.len() ==> path@[t] < self.graph.nodes.len(),
                self.records(models@, path@.take(i as int), model.values()),
            decreases path@.len() - i,
        {
            let node_idx = path[i];
            let ast = &self.node_asts[node_idx];
            assert(node_fits(self.graph, self.context, self.node_asts@, node_idx as int));
            let input_keys = match true_keys(model, &ast.input_keys) {
                Some(keys) => keys,
                None => {
                    return None;
                },
            };
            let output_keys = match true_keys(model, &ast.output_keys) {
                Some(keys) => keys,
                None => {
                    return None;
                },
            };
            let ghost before = models@;
            models.push(ExecutionModel { node_idx, input_keys, output_keys });
            proof {
                let now = path@.take(i + 1);
            }
            i = i + 1;
        }
        Some(ExecutionWitness { path, models })
    }

    /// Execution that arrives at a node goes on from there over edges that
    /// are taken until it arrives at the target: it cannot stop before, and
    /// the graph has no cycle.
    pub proof fn lemma_execution_arrives(
        &self,
        taken: Seq<Vec<NodeIdx>>,
        target: NodeIdx,
        a: Valuation,
        k: int,
    )
        requires
            self.wf(),
            target < self.graph.nodes.len(),
            self.flows(seq![target], a),
            taken.len() == self.graph.nodes.len(),
            forall|u: int, v: NodeIdx|
                0 <= u < taken.len() ==> (#[trigger] taken[u]@.contains(v) <==> self.taken_to(
                    u,
                    v,
                    a,
                    self.graph.adj_list[u].len() as int,
                )),
            0 <= k < post_order(self.graph).len(),
            self.arrives(post_order(self.graph)[k], a),
        ensures
            connects(taken, post_order(self.graph)[k], target),
        decreases k,
    {
        let order = post_order(self.graph);
        let v = order[k];
        if v == target {
            let alone = seq![v];
            assert(is_route(taken, alone) && alone.first() == v && alone.last() == target);
        } else {
            assert(self.goes_on(seq![target], v, a));
            let e = choose|e: int| self.is_edge(v as int, e) && #[trigger] self.active(v as int, e, a);
            let w = self.graph.adj_list[v as int][e].0;
            let k2 = choose|k2: int| 0 <= k2 < k && #[trigger] order[k2] == w;
            self.lemma_execution_arrives(taken, target, a, k2);
            let rest = choose|route: Seq<NodeIdx>|
                #[trigger] is_route(taken, route) && route.first() == w && route.last() == target;
            let route = seq![v] + rest;
            assert(is_route(taken, route) && route.first() == v && route.last() == target);
        }
    }

    /// The witness that the model of `solver` gives for the scenario in
    /// which execution arrives at `target_node`, after the solver has found
    /// the scenario satisfiable. It fails where the solver gives no model or
    /// the model no truth value, and not otherwise.
    pub(crate) fn explain(&self, solver: &SolverBox<'ctx>, target_node: NodeIdx) -> (r: Result<
        Option<ExecutionWitness>,
        QueryError,
    >)
        requires
            self.wf(),
            target_node < self.graph.nodes.len(),
            solver.home() == self.context.id(),
            solver.answer() == Some(SatAnswer::Sat),
            forall|a: Valuation|
                #[trigger] all_hold(solver.asserted(), a) ==> self.reach_scenario(target_node, a),
        ensures
            r is Err || r matches Ok(Some(_)),
            r matches Err(e) ==> e is NoModel || e is ModelIncomplete,
            r matches Ok(Some(w)) ==> self.is_execution_path(w.path@, target_node),
            r matches Ok(Some(w)) ==> (self.graph.start == Some(target_node) ==> w.path@.len() == 1),
            r matches Ok(Some(w)) ==> exists|a: Valuation|
                #[trigger] all_hold(solver.asserted(), a) && self.follows(w.path@, a)
                    && self.found_first(w.path@, target_node, a) && self.records(
                    w.models@,
                    w.path@,
                    a,
                ),
    {
        let model = match solver_model(solver) {
            Some(model) => model,
            None => {
                return Err(QueryError::NoModel);
            },
        };
        let ghost a = model.values();
        let taken = match self.build_graph_from_model(&model) {
            Some(taken) => taken,
            None => {
                return Err(QueryError::ModelIncomplete);
            },
        };
        proof {
            let order = post_order(self.graph);
            let start = self.graph.start->Some_0;
            assert(order.contains(start));
            let k = choose|k: int| 0 <= k < order.len() && order[k] == start;
            self.lemma_execution_arrives(taken@, target_node, a, k);
        }
        let path = match self.find_path_by_bfs(&taken, target_node) {
            Some(path) => path,
            None => unreached(),
        };
        proof {
            assert(self.taken_under(taken@, a));
            assert(self.found_first(path@, target_node, a));
        }
        match self.witness(&model, path) {
            Some(w) => {
                Ok(Some(w))
            },
            None => Err(QueryError::ModelIncomplete),
        }
    }
}

} // verus!
