use workflow_verifier::analysis::oracle::{SolverContext, VARIABLE_LIMIT};
use workflow_verifier::analysis::symbol::{get_symbol_count, SymbolFactory};
use workflow_verifier::analysis::{BuildError, GraphVerifier};
use workflow_verifier::example_graphs::buy_sell_stock::BuySellStock;
use workflow_verifier::example_graphs::linear::Linear;
use workflow_verifier::example_graphs::MakeGraph;
use workflow_verifier::workflow::schema::{InputCond, KeyRule, OutputSchema};
use workflow_verifier::workflow::WorkflowGraph;

fn keys(names: &[&str]) -> Vec<String> {
    names.iter().map(|s| s.to_string()).collect()
}

/// A -> B -> C, where A produces x, B needs x and produces y, and C needs y.
fn chain() -> WorkflowGraph {
    let mut g = WorkflowGraph::new();
    let a = g.add_node("A", vec![], OutputSchema::new().add_fixed("x").build());
    let b = g.add_node("B", keys(&["x"]), OutputSchema::new().add_fixed("y").build());
    let c = g.add_node("C", keys(&["y"]), OutputSchema::new().build());
    g.add_edge(a, b, vec![]).add_edge(b, c, vec![]).set_start(a);
    g
}

/// A branch with two ends that ask for nothing.
fn fork() -> WorkflowGraph {
    let mut g = WorkflowGraph::new();
    let branch = g.add_node("branch", vec![], OutputSchema::new().add_fixed("side").build());
    let left = g.add_node("left", vec![], OutputSchema::new().build());
    let right = g.add_node("right", vec![], OutputSchema::new().build());
    g.add_edge(branch, left, vec![InputCond::MatchesKeyValue("side".to_string(), "l".to_string())])
        .add_edge(branch, right, vec![InputCond::MatchesKeyValue("side".to_string(), "r".to_string())])
        .set_start(branch);
    g
}

fn is_path_of(graph: &WorkflowGraph, path: &[usize], target: usize) -> bool {
    !path.is_empty()
        && Some(path[0]) == graph.start
        && path[path.len() - 1] == target
        && path
            .windows(2)
            .all(|step| graph.adj_list[step[0]].iter().any(|(to, _)| *to == step[1]))
}

#[test]
fn start_without_inputs_is_reached_by_the_path_of_itself() {
    let mut g = WorkflowGraph::new();
    let only = g.add_node("only", vec![], OutputSchema::new().add_fixed("x").build());
    g.set_start(only);
    let ctx = SolverContext::new();
    let mut registry = SymbolFactory::new(0);
    let verifier = GraphVerifier::new(&g, &ctx, &mut registry).unwrap();
    let witness = verifier.is_reachable(only).unwrap().unwrap();
    assert_eq!(witness.path, vec![0]);
    assert_eq!(witness.models.len(), 1);
    assert_eq!(witness.models[0].node_idx, 0);
    assert!(witness.models[0].input_keys.is_empty());
    assert!(witness.models[0].output_keys.is_empty());
}

#[test]
fn start_of_a_chain_is_reached_by_the_path_of_itself() {
    let g = chain();
    let ctx = SolverContext::new();
    let mut registry = SymbolFactory::new(0);
    let verifier = GraphVerifier::new(&g, &ctx, &mut registry).unwrap();
    let witness = verifier.is_reachable(0).unwrap().unwrap();
    assert_eq!(witness.path, vec![0]);
}

#[test]
fn chain_end_is_reached_without_any_input() {
    let g = chain();
    let ctx = SolverContext::new();
    let mut registry = SymbolFactory::new(0);
    let verifier = GraphVerifier::new(&g, &ctx, &mut registry).unwrap();
    assert_eq!(get_symbol_count(&registry), 4);
    let witness = verifier.is_reachable(2).unwrap().unwrap();
    assert_eq!(witness.path, vec![0, 1, 2]);
    assert_eq!(witness.models.len(), 3);
    // A always produces x, so B has x; B always produces y, so C has y.
    assert_eq!(witness.models[0].output_keys, keys(&["x"]));
    assert_eq!(witness.models[1].input_keys, keys(&["x"]));
    assert_eq!(witness.models[1].output_keys, keys(&["y"]));
    assert_eq!(witness.models[2].input_keys, keys(&["y"]));
    let (size, least) = verifier.minimum_input_set(2).unwrap().unwrap();
    assert_eq!(size, 0);
    assert_eq!(least.path, vec![0, 1, 2]);
}

#[test]
fn witness_paths_lead_from_the_start_to_the_target_over_edges() {
    let graphs = vec![
        BuySellStock::new(true).make_graph().graph,
        BuySellStock::new(false).make_graph().graph,
        Linear(12).make_graph().graph,
        chain(),
    ];
    for g in graphs.iter() {
        let ctx = SolverContext::new();
        let mut registry = SymbolFactory::new(0);
        let verifier = GraphVerifier::new(g, &ctx, &mut registry).unwrap();
        for target in 0..g.nodes.len() {
            if let Some(witness) = verifier.is_reachable(target).unwrap() {
                assert!(is_path_of(g, &witness.path, target));
                assert_eq!(witness.models.len(), witness.path.len());
                for (at, node) in witness.models.iter().zip(witness.path.iter()) {
                    assert_eq!(at.node_idx, *node);
                }
            }
        }
    }
}

#[test]
fn end_beside_an_end_that_asks_for_nothing_is_not_reached() {
    // The edge to an end that asks for nothing is always taken, and
    // execution cannot go on from there.
    let g = fork();
    let ctx = SolverContext::new();
    let mut registry = SymbolFactory::new(0);
    let verifier = GraphVerifier::new(&g, &ctx, &mut registry).unwrap();
    assert!(verifier.is_reachable(1).unwrap().is_none());
    assert!(verifier.is_reachable(2).unwrap().is_none());
    // Not even the start is reached: both ends are entered whatever the
    // target is.
    assert!(verifier.is_reachable(0).unwrap().is_none());
    assert!(verifier.minimum_input_set(1).unwrap().is_none());
    assert!(verifier.try_minimum_input_set(1, 0).unwrap().is_none());
}

#[test]
fn execution_always_ends_in_one_of_both_branches_and_in_neither_alone() {
    let g = fork();
    let ctx = SolverContext::new();
    let mut registry = SymbolFactory::new(0);
    let verifier = GraphVerifier::new(&g, &ctx, &mut registry).unwrap();
    assert_eq!(verifier.can_eventually_reach(&[1, 2]), Ok(true));
    assert_eq!(verifier.can_eventually_reach(&[2, 1]), Ok(true));
    assert_eq!(verifier.can_eventually_reach(&[1]), Ok(false));
    assert_eq!(verifier.can_eventually_reach(&[2]), Ok(false));
    assert_eq!(verifier.can_eventually_reach(&[]), Ok(false));
}

#[test]
fn keys_that_may_be_missing_leave_a_scenario_that_misses_the_target() {
    let g = chain();
    let ctx = SolverContext::new();
    let mut registry = SymbolFactory::new(0);
    let verifier = GraphVerifier::new(&g, &ctx, &mut registry).unwrap();
    for target in 0..3 {
        assert_eq!(verifier.can_eventually_reach(&[target]), Ok(false));
    }
}

#[test]
fn least_input_set_is_no_larger_than_the_inputs_of_the_start() {
    let g = Linear(8).make_graph();
    let ctx = SolverContext::new();
    let mut registry = SymbolFactory::new(0);
    let verifier = GraphVerifier::new(&g.graph, &ctx, &mut registry).unwrap();
    let inputs = verifier.node_asts[0].input_keys.len();
    let (size, witness) = verifier.minimum_input_set(g.test_reachable_node).unwrap().unwrap();
    assert!(size <= inputs);
    assert!(is_path_of(&g.graph, &witness.path, g.test_reachable_node));
    // The size works, the next smaller one does not, and the target is
    // reached without a word on the size as well.
    assert!(verifier.try_minimum_input_set(g.test_reachable_node, size).unwrap().is_some());
    if size > 0 {
        assert!(verifier.try_minimum_input_set(g.test_reachable_node, size - 1).unwrap().is_none());
    }
    assert!(verifier.is_reachable(g.test_reachable_node).unwrap().is_some());
    let named = witness.models[0].input_keys.len();
    assert_eq!(named, size);
}

#[test]
fn size_beyond_the_inputs_of_the_start_cannot_be_met() {
    let mut g = WorkflowGraph::new();
    let a = g.add_node("a", keys(&["k"]), OutputSchema::new().carry_all().build());
    let b = g.add_node("b", keys(&["k"]), OutputSchema::new().build());
    g.add_edge(a, b, vec![]).set_start(a);
    let ctx = SolverContext::new();
    let mut registry = SymbolFactory::new(0);
    let verifier = GraphVerifier::new(&g, &ctx, &mut registry).unwrap();
    assert_eq!(verifier.node_asts[0].input_keys.len(), 1);
    let with_none = verifier.try_minimum_input_set(b, 0).unwrap().unwrap();
    assert!(with_none.models[0].input_keys.is_empty());
    let with_one = verifier.try_minimum_input_set(b, 1).unwrap().unwrap();
    assert_eq!(with_one.models[0].input_keys, keys(&["k"]));
    assert_eq!(with_one.models[0].output_keys, keys(&["k"]));
    assert_eq!(with_one.models[1].input_keys, keys(&["k"]));
    assert!(verifier.try_minimum_input_set(b, 2).unwrap().is_none());
    assert_eq!(verifier.minimum_input_set(b).unwrap().map(|found| found.0), Some(0));
}

#[test]
fn output_that_only_an_input_justifies_is_there_with_that_input() {
    let mut g = WorkflowGraph::new();
    let a = g.add_node(
        "a",
        keys(&["given"]),
        OutputSchema::new()
            .add_rule_for_every_input(
                KeyRule::Fixed("made".to_string()),
                InputCond::MatchesKey("given".to_string()),
            )
            .build(),
    );
    let b = g.add_node("b", keys(&["made", "never"]), OutputSchema::new().build());
    g.add_edge(a, b, vec![]).set_start(a);
    let ctx = SolverContext::new();
    let mut registry = SymbolFactory::new(0);
    let verifier = GraphVerifier::new(&g, &ctx, &mut registry).unwrap();
    for size in 0..2 {
        let witness = verifier.try_minimum_input_set(b, size).unwrap().unwrap();
        let given = witness.models[0].input_keys == keys(&["given"]);
        assert_eq!(given, size == 1);
        // `made` is there exactly with `given`; nothing justifies `never`.
        assert_eq!(witness.models[0].output_keys == keys(&["made"]), given);
        assert_eq!(witness.models[0].output_keys.is_empty(), !given);
        assert_eq!(witness.models[1].input_keys, witness.models[0].output_keys);
    }
}

#[test]
fn graph_without_start_is_refused() {
    let mut g = WorkflowGraph::new();
    g.add_node("a", vec![], OutputSchema::new().build());
    let ctx = SolverContext::new();
    let mut registry = SymbolFactory::new(0);
    assert_eq!(GraphVerifier::new(&g, &ctx, &mut registry).err(), Some(BuildError::MissingStart));
}

#[test]
fn graph_with_a_cycle_is_refused() {
    let mut g = WorkflowGraph::new();
    let a = g.add_node("a", vec![], OutputSchema::new().build());
    let b = g.add_node("b", vec![], OutputSchema::new().build());
    g.add_edge(a, b, vec![]).add_edge(b, a, vec![]).set_start(a);
    let ctx = SolverContext::new();
    let mut registry = SymbolFactory::new(0);
    assert_eq!(GraphVerifier::new(&g, &ctx, &mut registry).err(), Some(BuildError::Cycle));
}

#[test]
fn graph_with_a_node_off_the_start_is_refused() {
    let mut g = WorkflowGraph::new();
    let a = g.add_node("a", vec![], OutputSchema::new().build());
    let b = g.add_node("b", vec![], OutputSchema::new().build());
    g.add_edge(b, a, vec![]).set_start(a);
    let ctx = SolverContext::new();
    let mut registry = SymbolFactory::new(0);
    assert_eq!(GraphVerifier::new(&g, &ctx, &mut registry).err(), Some(BuildError::DetachedNode));
    assert_eq!(get_symbol_count(&registry), 0);
}

#[test]
fn graph_that_needs_more_variables_than_are_left_is_refused() {
    let g = chain();
    let ctx = SolverContext::new();
    let mut short = SymbolFactory::new(VARIABLE_LIMIT as usize - 3);
    assert_eq!(GraphVerifier::new(&g, &ctx, &mut short).err(), Some(BuildError::OutOfVariables));
    assert_eq!(get_symbol_count(&short), VARIABLE_LIMIT as usize);
    let mut enough = SymbolFactory::new(VARIABLE_LIMIT as usize - 4);
    assert!(GraphVerifier::new(&g, &ctx, &mut enough).is_ok());
}

#[test]
fn two_verifiers_share_a_registry_without_sharing_variables() {
    let g = chain();
    let ctx = SolverContext::new();
    let mut registry = SymbolFactory::new(0);
    let first = GraphVerifier::new(&g, &ctx, &mut registry).unwrap();
    let second = GraphVerifier::new(&g, &ctx, &mut registry).unwrap();
    assert_eq!(get_symbol_count(&registry), 8);
    assert_eq!(first.node_asts[2].input_keys.vars, vec![0]);
    assert_eq!(second.node_asts[2].input_keys.vars, vec![4]);
    assert!(first.is_reachable(2).unwrap().is_some());
    assert!(second.is_reachable(2).unwrap().is_some());
}

#[test]
fn edges_taken_in_a_model_are_edges_of_the_graph() {
    let g = BuySellStock::new(false).make_graph().graph;
    let ctx = SolverContext::new();
    let mut registry = SymbolFactory::new(0);
    let verifier = GraphVerifier::new(&g, &ctx, &mut registry).unwrap();
    let flow = verifier.get_in_out_transition_constraints();
    assert_eq!(flow.incoming.len(), 6);
    assert_eq!(flow.outgoing.len(), 6);
    let taken = vec![vec![1], vec![2], vec![4], vec![], vec![5], vec![]];
    assert_eq!(verifier.find_path_by_bfs(&taken, 5), Some(vec![0, 1, 2, 4, 5]));
    assert_eq!(verifier.find_path_by_bfs(&taken, 3), None);
    assert_eq!(verifier.find_path_by_bfs(&taken, 0), Some(vec![0]));
}

/// Both inputs of the start must be missing: each would be handed to a node
/// that must not be entered, because execution could not go on from it.
fn inputs_that_hurt() -> WorkflowGraph {
    let mut g = WorkflowGraph::new();
    let start = g.add_node(
        "start",
        vec![],
        OutputSchema::new()
            .add_rule_for_every_input(KeyRule::Identity, InputCond::MatchesKey("b".to_string()))
            .add_rule_for_every_input(KeyRule::Identity, InputCond::MatchesKey("c".to_string()))
            .build(),
    );
    let side = g.add_node("side", keys(&["q"]), OutputSchema::new().build());
    let first = g.add_node("first", keys(&["b"]), OutputSchema::new().build());
    let second = g.add_node("second", keys(&["c"]), OutputSchema::new().build());
    let end = g.add_node("end", keys(&["z"]), OutputSchema::new().build());
    g.add_edge(start, side, vec![])
        .add_edge(start, first, vec![])
        .add_edge(start, second, vec![])
        .add_edge(side, first, vec![])
        .add_edge(side, second, vec![])
        .add_edge(first, end, vec![])
        .add_edge(second, end, vec![])
        .set_start(start);
    g
}

#[test]
fn search_for_the_least_input_set_trusts_that_more_inputs_never_hurt() {
    let g = inputs_that_hurt();
    let ctx = SolverContext::new();
    let mut registry = SymbolFactory::new(0);
    let verifier = GraphVerifier::new(&g, &ctx, &mut registry).unwrap();
    assert_eq!(verifier.node_asts[0].input_keys.keys.names, keys(&["b", "c"]));
    assert!(verifier.is_reachable(0).unwrap().is_some());
    assert!(verifier.try_minimum_input_set(0, 0).unwrap().is_some());
    assert!(verifier.try_minimum_input_set(0, 1).unwrap().is_none());
    assert!(verifier.try_minimum_input_set(0, 2).unwrap().is_none());
    // The search tries 1, then 2, and gives up.
    assert!(verifier.minimum_input_set(0).unwrap().is_none());
}

#[test]
fn graphs_of_ordinary_size_fit_the_solver() {
    assert!(workflow_verifier::analysis::construct::fits_solver(&chain()));
    assert!(workflow_verifier::analysis::construct::fits_solver(&Linear(50).make_graph().graph));
    assert!(workflow_verifier::analysis::construct::fits_solver(&WorkflowGraph::new()));
}

#[test]
fn verifier_records_the_origin_of_every_variable_in_encoding_order() {
    let g = chain();
    let ctx = SolverContext::new();
    let mut registry = SymbolFactory::new(0);
    let verifier = GraphVerifier::new(&g, &ctx, &mut registry).unwrap();
    // C is encoded first, then B, then A.
    assert_eq!(verifier.node_asts[2].first_var, 0);
    assert_eq!(verifier.node_asts[1].first_var, 1);
    assert_eq!(verifier.node_asts[0].first_var, 3);
    let sites: Vec<&str> = (0..4)
        .map(|var| workflow_verifier::analysis::symbol::get_reason(&registry, var).unwrap().0)
        .collect();
    assert_eq!(
        sites,
        vec!["required input", "required input", "demanded output", "demanded output"]
    );
}

#[test]
fn answer_to_the_negation_gives_the_verdict_on_the_claim() {
    let unsat = workflow_verifier::analysis::oracle::SatAnswer::Unsat;
    let sat = workflow_verifier::analysis::oracle::SatAnswer::Sat;
    let unknown = workflow_verifier::analysis::oracle::SatAnswer::Unknown;
    assert_eq!(workflow_verifier::analysis::verdict_on_negation(unsat), Ok(true));
    assert_eq!(workflow_verifier::analysis::verdict_on_negation(sat), Ok(false));
    assert_eq!(
        workflow_verifier::analysis::verdict_on_negation(unknown),
        Err(workflow_verifier::analysis::QueryError::Inconclusive)
    );
}

#[test]
fn search_for_the_least_input_set_ends_with_the_last_size_that_worked() {
    // One input of the start, and both sizes work: the search tries 0 first
    // and ends there.
    let mut g = WorkflowGraph::new();
    let a = g.add_node("a", keys(&["k"]), OutputSchema::new().carry_all().build());
    let b = g.add_node("b", keys(&["k"]), OutputSchema::new().build());
    g.add_edge(a, b, vec![]).set_start(a);
    let ctx = SolverContext::new();
    let mut registry = SymbolFactory::new(0);
    let verifier = GraphVerifier::new(&g, &ctx, &mut registry).unwrap();
    let (size, witness) = verifier.minimum_input_set(b).unwrap().unwrap();
    assert_eq!(size, 0);
    assert!(witness.models[0].input_keys.is_empty());
    // Two inputs of the start, and only the sizes 0 and 1 work: the search
    // tries 1, then 0.
    let sizes = Linear(3).make_graph();
    let ctx = SolverContext::new();
    let mut registry = SymbolFactory::new(0);
    let verifier = GraphVerifier::new(&sizes.graph, &ctx, &mut registry).unwrap();
    let count = verifier.node_asts[0].input_keys.len();
    let works: Vec<bool> = (0..=count)
        .map(|size| verifier.try_minimum_input_set(2, size).unwrap().is_some())
        .collect();
    let mut left = 0;
    let mut end = count + 1;
    let mut best = None;
    while left < end {
        let mid = left + (end - left) / 2;
        if works[mid] {
            best = Some(mid);
            end = mid;
        } else {
            left = mid + 1;
        }
    }
    assert_eq!(verifier.minimum_input_set(2).unwrap().map(|found| found.0), best);
}

/// The two inputs of the start must be there together or not at all: `tied`
/// hands on what it got, and the leaf `never` must not be entered, which
/// makes both of its edges ask for the opposite of one and the same value.
fn inputs_that_go_together() -> WorkflowGraph {
    let mut g = WorkflowGraph::new();
    let start = g.add_node(
        "start",
        vec![],
        OutputSchema::new()
            .add_rule_for_every_input(
                KeyRule::Fixed("k".to_string()),
                InputCond::MatchesKey("b".to_string()),
            )
            .add_rule_for_every_input(KeyRule::Identity, InputCond::MatchesKey("c".to_string()))
            .build(),
    );
    let tied = g.add_node(
        "tied",
        keys(&["c"]),
        OutputSchema::new()
            .add_rule_for_every_input(
                KeyRule::Fixed("k".to_string()),
                InputCond::MatchesKey("c".to_string()),
            )
            .build(),
    );
    let never = g.add_node("never", keys(&["k"]), OutputSchema::new().build());
    let end = g.add_node("end", vec![], OutputSchema::new().build());
    g.add_edge(start, never, vec![])
        .add_edge(start, tied, vec![])
        .add_edge(tied, never, vec![])
        .add_edge(tied, end, vec![])
        .set_start(start);
    g
}

#[test]
fn search_for_the_least_input_set_can_pass_over_a_smaller_size() {
    let g = inputs_that_go_together();
    let ctx = SolverContext::new();
    let mut registry = SymbolFactory::new(0);
    let verifier = GraphVerifier::new(&g, &ctx, &mut registry).unwrap();
    assert_eq!(verifier.node_asts[0].input_keys.len(), 2);
    assert!(verifier.try_minimum_input_set(3, 0).unwrap().is_some());
    assert!(verifier.try_minimum_input_set(3, 1).unwrap().is_none());
    assert!(verifier.try_minimum_input_set(3, 2).unwrap().is_some());
    // The search tries 1, then 2, and never 0.
    let (size, witness) = verifier.minimum_input_set(3).unwrap().unwrap();
    assert_eq!(size, 2);
    assert_eq!(witness.path, vec![0, 1, 3]);
    assert_eq!(witness.models[0].input_keys.len(), 2);
}
