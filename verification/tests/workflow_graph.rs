use workflow_verifier::analysis::ast::NodeAST;
use workflow_verifier::analysis::oracle::SolverContext;
use workflow_verifier::analysis::symbol::{get_symbol_count, SymbolFactory};
use workflow_verifier::analysis::topsort::topological_sort_reversed;
use workflow_verifier::analysis::GraphVerifier;
use workflow_verifier::example_graphs::buy_sell_stock::BuySellStock;
use workflow_verifier::example_graphs::linear::Linear;
use workflow_verifier::example_graphs::{MakeGraph, WorkflowGraphExt};

#[test]
fn construct_graph_without_panic() {
    let g = BuySellStock::new(true).make_graph().graph;
    println!("Nodes: {:#?}", g.nodes);
    println!("Edges: ");
    for (i, adj) in g.adj_list.iter().enumerate() {
        for (j, cond) in adj.iter() {
            println!("{} -> {} with {:?}", &g.get_node(i).name, &g.get_node(*j).name, cond);
        }
    }
    println!("Start: {:?}", g.get_node(g.start.unwrap()).name);
}

#[test]
fn find_literals_without_panic() {
    let g = BuySellStock::new(true).make_graph().graph;
    let order = topological_sort_reversed(&g).unwrap();
    let ctx = SolverContext::new();
    let mut registry = SymbolFactory::new(0);
    let mut asts: Vec<Option<NodeAST>> = (0..g.nodes.len()).map(|_| None).collect();
    let mut symbol_counts = (0..g.nodes.len()).map(|_| 0).collect::<Vec<_>>();
    for i in order.iter().copied() {
        let cnt0 = get_symbol_count(&registry);
        let ast = {
            let children_ast = g.adj_list[i]
                .iter()
                .map(|(j, _)| asts[*j].as_ref().unwrap())
                .collect::<Vec<_>>();
            NodeAST::new(&ctx, &mut registry, g.get_node(i), &g, &children_ast).unwrap()
        };
        let cnt1 = get_symbol_count(&registry);
        asts[i] = Some(ast);
        symbol_counts[i] = cnt1 - cnt0;
    }
    for ast in order.iter().rev().map(|i| asts[*i].as_ref().unwrap()) {
        println!("name: {}", ast.node.name);
        println!("required_input: {:?}", ast.node.required_inputs);
        println!("output_schema: {:?}", ast.node.output_schema);
        println!("input variables: {:?}", ast.input_keys.keys.names);
        println!("output variables: {:?}", ast.output_keys.keys.names);
        println!("Added symbols: {}", symbol_counts[ast.node.id]);
        println!()
    }
}

fn test_reachable_on_graph(graph_ext: &WorkflowGraphExt, expect_reachable: bool) {
    let graph = &graph_ext.graph;
    let i = graph_ext.test_reachable_node;
    let ctx = SolverContext::new();
    let mut registry = SymbolFactory::new(0);
    let graph_verifier = GraphVerifier::new(graph, &ctx, &mut registry).unwrap();
    let result = graph_verifier.is_reachable(i).unwrap();
    println!(
        "{}: {:?}",
        &graph.get_node(i).name,
        if result.is_some() {
            "reachable"
        } else {
            "not reachable"
        }
    );
    if let Some(ref witness) = result {
        println!("Model:");
        for at in witness.models.iter() {
            println!(
                "model required input: {:?}",
                graph.get_node(at.node_idx).required_inputs
            );
            println!("model input variables: {:?}", at.input_keys);
            println!("model output variables: {:?}", at.output_keys);
            println!();
        }
    }
    assert_eq!(result.is_some(), expect_reachable);
}

// No clause of the encoding asks that a required input is there, so the
// report is reached although nothing produces its key `non-existent`.
#[test]
fn test_reachable_buy_sell_stock() {
    let graph = BuySellStock::new(true).make_graph().graph;
    for i in 0..graph.nodes.len() {
        let graph_ext = WorkflowGraphExt::new(graph.clone(), i);
        test_reachable_on_graph(&graph_ext, true);
        println!()
    }
}

#[test]
fn test_reachable_linear() {
    let graph = Linear(30).make_graph();
    test_reachable_on_graph(&graph, true);
}

#[test]
fn test_can_eventually_reach() {
    let graph = BuySellStock::new(true).make_graph().graph;
    for i in 0..graph.nodes.len() {
        let ctx = SolverContext::new();
        let mut registry = SymbolFactory::new(0);
        let graph_verifier = GraphVerifier::new(&graph, &ctx, &mut registry).unwrap();
        let result = graph_verifier.can_eventually_reach(&[i]).unwrap();
        println!("{}", result);
    }
}

fn test_minimum_input_set_for_reachable_on_graph(graph_ext: &WorkflowGraphExt) {
    let graph = &graph_ext.graph;
    let i = graph_ext.test_reachable_node;
    let ctx = SolverContext::new();
    let mut registry = SymbolFactory::new(0);
    let graph_verifier = GraphVerifier::new(graph, &ctx, &mut registry).unwrap();
    let result = graph_verifier.minimum_input_set(i).unwrap();
    println!("{:?}", result);
}

#[test]
fn test_minimum_input_set_for_reachable_stock() {
    let graph = BuySellStock::new(true).make_graph().graph;
    for i in 0..graph.nodes.len() {
        let graph_ext = WorkflowGraphExt::new(graph.clone(), i);
        test_minimum_input_set_for_reachable_on_graph(&graph_ext);
        println!()
    }
}

#[test]
fn test_minimum_input_set_for_reachable_linear() {
    let graph = Linear(30).make_graph();
    test_minimum_input_set_for_reachable_on_graph(&graph);
}
