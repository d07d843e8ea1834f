use workflow_verifier::analysis::literals::Literals;
use workflow_verifier::analysis::oracle::VARIABLE_LIMIT;
use workflow_verifier::analysis::path::find_path;
use workflow_verifier::analysis::search::SizeSearch;
use workflow_verifier::analysis::symbol::{get_reason, get_symbol_count, SymbolFactory};
use workflow_verifier::analysis::topsort::{topological_sort_reversed, SortError};
use workflow_verifier::example_graphs::buy_sell_stock::BuySellStock;
use workflow_verifier::example_graphs::linear::Linear;
use workflow_verifier::example_graphs::MakeGraph;
use workflow_verifier::workflow::schema::{holds_name, InputCond, KeyRule, OutputSchema};
use workflow_verifier::workflow::{Node, WorkflowGraph};

fn keys(names: &[&str]) -> Vec<String> {
    names.iter().map(|s| s.to_string()).collect()
}

#[test]
fn schema_builder_keeps_each_fixed_key_once() {
    let schema = OutputSchema::new()
        .add_fixed("b")
        .add_fixed("a")
        .add_fixed("b")
        .build();
    assert_eq!(schema.fixed_keys(), &keys(&["a", "b"]));
    assert!(schema.dynamic_keys().is_empty());
}

#[test]
fn schema_builder_keeps_rules_in_order() {
    let schema = OutputSchema::new()
        .add_rule_for_every_input(KeyRule::Fixed("x".to_string()), InputCond::Always)
        .carry_all()
        .add_rule_for_every_input(
            KeyRule::IdWithPrefix("p.".to_string()),
            InputCond::MatchesKeyValue("k".to_string(), "v".to_string()),
        )
        .build();
    let rules = schema.dynamic_keys();
    assert_eq!(rules.len(), 3);
    assert_eq!(rules[0], (KeyRule::Fixed("x".to_string()), InputCond::Always));
    assert_eq!(rules[1], (KeyRule::Identity, InputCond::Always));
    assert_eq!(
        rules[2],
        (
            KeyRule::IdWithPrefix("p.".to_string()),
            InputCond::MatchesKeyValue("k".to_string(), "v".to_string())
        )
    );
    assert!(schema.fixed_keys().is_empty());
}

#[test]
fn holds_name_finds_exact_names_only() {
    let names = keys(&["stock", "stock_price"]);
    assert!(holds_name(&names, "stock"));
    assert!(holds_name(&names, "stock_price"));
    assert!(!holds_name(&names, "stock_"));
    assert!(!holds_name(&Vec::new(), "stock"));
}

#[test]
fn node_new_keeps_its_parts() {
    let node = Node::new(
        7,
        "n".to_string(),
        keys(&["a"]),
        OutputSchema::new().add_fixed("x").build(),
    );
    assert_eq!(node.id, 7);
    assert_eq!(node.name, "n");
    assert_eq!(node.required_inputs, keys(&["a"]));
    assert_eq!(node.output_schema.fixed_keys, keys(&["x"]));
}

#[test]
fn graph_gives_dense_ids_and_keeps_edges_in_order() {
    let mut g = WorkflowGraph::new();
    assert!(g.nodes.is_empty() && g.adj_list.is_empty() && g.start.is_none());
    let a = g.add_node("a", vec![], OutputSchema::new().build());
    let b = g.add_node("b", keys(&["k"]), OutputSchema::new().build());
    let c = g.add_node("c", vec![], OutputSchema::new().build());
    assert_eq!((a, b, c), (0, 1, 2));
    g.add_edge(a, c, vec![InputCond::MatchesKey("k".to_string())])
        .add_edge(a, b, vec![])
        .set_start(a);
    assert_eq!(g.start, Some(0));
    assert_eq!(g.adj_list[0].len(), 2);
    assert_eq!(g.adj_list[0][0], (2, vec![InputCond::MatchesKey("k".to_string())]));
    assert_eq!(g.adj_list[0][1], (1, vec![]));
    assert!(g.adj_list[1].is_empty() && g.adj_list[2].is_empty());
    assert_eq!(g.get_node(1).name, "b");
    assert_eq!(g.get_node(1).id, 1);
    assert_eq!(g.get_node(1).required_inputs, keys(&["k"]));
}

#[test]
fn literals_find_names_by_position() {
    let mut lits = Literals::new();
    assert_eq!(lits.len(), 0);
    assert_eq!(lits.get_index("a"), None);
    assert_eq!(lits.get_or_add_index("a"), 0);
    assert_eq!(lits.get_or_add_index("b"), 1);
    assert_eq!(lits.get_or_add_index("a"), 0);
    assert_eq!(lits.len(), 2);
    assert_eq!(lits.get_index("b"), Some(1));
    assert_eq!(lits.name_at(1), "b");
}

#[test]
fn literals_from_a_list_find_the_last_of_equal_names() {
    let lits = Literals::new_with_literals(&["x", "y", "x"]);
    assert_eq!(lits.names, keys(&["x", "y", "x"]));
    assert_eq!(lits.get_index("x"), Some(2));
    assert_eq!(lits.get_index("y"), Some(1));
    assert_eq!(lits.get_index("z"), None);
}

#[test]
fn symbol_factory_counts_up_and_remembers_origins() {
    let mut factory = SymbolFactory::new(0);
    assert_eq!(get_symbol_count(&factory), 0);
    assert_eq!(factory.add_symbol("here", 3, None), Some(0));
    assert_eq!(factory.add_symbol("there", 9, Some("why".to_string())), Some(1));
    assert_eq!(get_symbol_count(&factory), 2);
    assert_eq!(get_reason(&factory, 0), Some(&("here", 3, None)));
    assert_eq!(
        get_reason(&factory, 1),
        Some(&("there", 9, Some("why".to_string())))
    );
    assert_eq!(get_reason(&factory, 2), None);
}

#[test]
fn symbol_factory_that_starts_later_resolves_its_own_symbols_only() {
    let mut factory = SymbolFactory::new(5);
    assert_eq!(factory.add_symbol("f", 1, None), Some(5));
    assert_eq!(get_symbol_count(&factory), 6);
    assert_eq!(get_reason(&factory, 5), Some(&("f", 1, None)));
    assert_eq!(get_reason(&factory, 4), None);
}

#[test]
fn symbol_factory_stops_at_the_limit() {
    let mut factory = SymbolFactory::new(VARIABLE_LIMIT as usize - 1);
    assert_eq!(factory.add_symbol("f", 1, None), Some(VARIABLE_LIMIT - 1));
    assert_eq!(factory.add_symbol("f", 2, None), None);
    assert_eq!(get_symbol_count(&factory), VARIABLE_LIMIT as usize);
    let full = SymbolFactory::new(usize::MAX);
    assert_eq!(get_symbol_count(&full), VARIABLE_LIMIT as usize);
}

#[test]
fn topological_order_puts_successors_first() {
    let g = BuySellStock::new(false).make_graph().graph;
    let order = topological_sort_reversed(&g).unwrap();
    assert_eq!(order, vec![5, 3, 4, 2, 1, 0]);
    for (at, node) in order.iter().enumerate() {
        for (next, _) in &g.adj_list[*node] {
            assert!(order[..at].contains(next));
        }
    }
}

#[test]
fn topological_order_skips_nodes_that_cannot_be_reached() {
    let mut g = WorkflowGraph::new();
    let a = g.add_node("a", vec![], OutputSchema::new().build());
    let b = g.add_node("b", vec![], OutputSchema::new().build());
    let c = g.add_node("c", vec![], OutputSchema::new().build());
    g.add_edge(c, a, vec![]).add_edge(a, b, vec![]).set_start(a);
    assert_eq!(topological_sort_reversed(&g), Ok(vec![1, 0]));
}

#[test]
fn topological_order_needs_a_start() {
    let mut g = WorkflowGraph::new();
    g.add_node("a", vec![], OutputSchema::new().build());
    assert_eq!(topological_sort_reversed(&g), Err(SortError::MissingStart));
}

#[test]
fn topological_order_reports_a_cycle() {
    let mut g = WorkflowGraph::new();
    let a = g.add_node("a", vec![], OutputSchema::new().build());
    let b = g.add_node("b", vec![], OutputSchema::new().build());
    let c = g.add_node("c", vec![], OutputSchema::new().build());
    g.add_edge(a, b, vec![])
        .add_edge(b, c, vec![])
        .add_edge(c, b, vec![])
        .set_start(a);
    assert_eq!(topological_sort_reversed(&g), Err(SortError::Cycle));
    let mut own = WorkflowGraph::new();
    let n = own.add_node("n", vec![], OutputSchema::new().build());
    own.add_edge(n, n, vec![]).set_start(n);
    assert_eq!(topological_sort_reversed(&own), Err(SortError::Cycle));
}

#[test]
fn topological_order_takes_a_node_with_two_parents_once() {
    let mut g = WorkflowGraph::new();
    let a = g.add_node("a", vec![], OutputSchema::new().build());
    let b = g.add_node("b", vec![], OutputSchema::new().build());
    let c = g.add_node("c", vec![], OutputSchema::new().build());
    let d = g.add_node("d", vec![], OutputSchema::new().build());
    g.add_edge(a, b, vec![])
        .add_edge(a, c, vec![])
        .add_edge(b, d, vec![])
        .add_edge(c, d, vec![])
        .set_start(a);
    assert_eq!(topological_sort_reversed(&g), Ok(vec![3, 1, 2, 0]));
}

#[test]
fn find_path_follows_the_given_edges() {
    let graph = vec![vec![1, 2], vec![3], vec![3], vec![4], vec![]];
    assert_eq!(find_path(&graph, 0, 4), Some(vec![0, 1, 3, 4]));
    assert_eq!(find_path(&graph, 2, 4), Some(vec![2, 3, 4]));
    assert_eq!(find_path(&graph, 0, 0), Some(vec![0]));
    assert_eq!(find_path(&graph, 4, 0), None);
    assert_eq!(find_path(&graph, 1, 2), None);
}

#[test]
fn find_path_copes_with_cycles_and_repeated_edges() {
    let graph = vec![vec![1, 1, 0], vec![0, 2], vec![2]];
    assert_eq!(find_path(&graph, 0, 2), Some(vec![0, 1, 2]));
    assert_eq!(find_path(&graph, 2, 0), None);
}

#[test]
fn size_search_halves_the_sizes_left() {
    let search = SizeSearch::new(6);
    assert_eq!(search, SizeSearch { left: 0, end: 7, best: None });
    assert_eq!(search.midpoint(), Some(3));
    let down = search.narrow(true);
    assert_eq!(down, SizeSearch { left: 0, end: 3, best: Some(3) });
    assert_eq!(down.midpoint(), Some(1));
    let up = down.narrow(false);
    assert_eq!(up, SizeSearch { left: 2, end: 3, best: Some(3) });
    assert_eq!(up.midpoint(), Some(2));
    let done = up.narrow(true);
    assert_eq!(done, SizeSearch { left: 2, end: 2, best: Some(2) });
    assert_eq!(done.midpoint(), None);
}

#[test]
fn size_search_over_one_size_tries_it() {
    let search = SizeSearch::new(0);
    assert_eq!(search.midpoint(), Some(0));
    assert_eq!(search.narrow(false), SizeSearch { left: 1, end: 1, best: None });
    assert_eq!(search.narrow(true), SizeSearch { left: 0, end: 0, best: Some(0) });
}

#[test]
fn linear_graph_is_a_chain() {
    let ext = Linear(4).make_graph();
    assert_eq!(ext.test_reachable_node, 3);
    assert_eq!(ext.graph.start, Some(0));
    assert_eq!(ext.graph.nodes.len(), 4);
    for i in 0..3 {
        assert_eq!(ext.graph.adj_list[i], vec![(i + 1, vec![])]);
    }
    assert!(ext.graph.adj_list[3].is_empty());
    assert_eq!(ext.graph.nodes[0].required_inputs, keys(&["input_0"]));
    assert_eq!(ext.graph.nodes[1].required_inputs, keys(&["output_0", "input_1"]));
    assert_eq!(ext.graph.nodes[2].name, "node_2");
    assert_eq!(ext.graph.nodes[2].output_schema.fixed_keys, keys(&["output_2"]));
    assert_eq!(Linear(4).name(), "linear_4");
    assert_eq!(BuySellStock::new(true).name(), "buy_sell_stock");
}

#[test]
fn buy_sell_stock_report_asks_for_the_missing_key_on_demand() {
    let with = BuySellStock::new(true).make_graph();
    let without = BuySellStock::new(false).make_graph();
    assert_eq!(with.test_reachable_node, 5);
    assert_eq!(with.graph.nodes[5].required_inputs.len(), 4);
    assert_eq!(with.graph.nodes[5].required_inputs[3], "non-existent");
    assert_eq!(without.graph.nodes[5].required_inputs.len(), 3);
    assert_eq!(
        with.graph.adj_list[2][0],
        (3, vec![InputCond::MatchesKeyValue("rec".to_string(), "buy".to_string())])
    );
}

#[test]
fn graph_knows_whether_it_is_in_order() {
    let mut g = WorkflowGraph::new();
    assert!(g.is_well_formed());
    let a = g.add_node("a", vec![], OutputSchema::new().build());
    let b = g.add_node("b", vec![], OutputSchema::new().build());
    g.add_edge(a, b, vec![]).set_start(b);
    assert!(g.is_well_formed());
    let mut far_edge = g.clone();
    far_edge.adj_list[1].push((2, vec![]));
    assert!(!far_edge.is_well_formed());
    let mut far_start = g.clone();
    far_start.start = Some(2);
    assert!(!far_start.is_well_formed());
    let mut wrong_id = g.clone();
    wrong_id.nodes[1].id = 0;
    assert!(!wrong_id.is_well_formed());
    let mut short = g.clone();
    short.adj_list.pop();
    assert!(!short.is_well_formed());
}

#[test]
fn find_path_takes_a_shortest_route() {
    // 0 -> 1 -> 2 -> 5 and 0 -> 3 -> 5 and 0 -> 4 -> 3.
    let graph = vec![vec![1, 4, 3], vec![2], vec![5], vec![5], vec![3], vec![]];
    assert_eq!(find_path(&graph, 0, 5), Some(vec![0, 3, 5]));
    assert_eq!(find_path(&graph, 0, 2), Some(vec![0, 1, 2]));
    assert_eq!(find_path(&graph, 4, 5), Some(vec![4, 3, 5]));
}

#[test]
fn linear_graph_asks_for_an_output_of_one_of_the_ten_nodes_before() {
    let ext = Linear(30).make_graph();
    for i in 1..30usize {
        let asked = &ext.graph.nodes[i].required_inputs;
        assert_eq!(asked.len(), 2);
        let j: usize = asked[0].strip_prefix("output_").unwrap().parse().unwrap();
        assert!(j < i && j + 10 >= i);
        assert_eq!(asked[1], format!("input_{}", i));
        assert_eq!(ext.graph.nodes[i].output_schema.fixed_keys, vec![format!("output_{}", i)]);
    }
}

#[test]
fn buy_sell_stock_nodes_have_their_names_and_keys() {
    let g = BuySellStock::new(false).make_graph().graph;
    let names: Vec<&str> = g.nodes.iter().map(|n| n.name.as_str()).collect();
    assert_eq!(
        names,
        vec!["check_stock_price", "buy_sell_rec", "buy_or_sell", "buy", "sell", "report_result"]
    );
    assert_eq!(g.nodes[3].required_inputs, keys(&["stock_name", "stock_price"]));
    assert_eq!(g.nodes[3].output_schema.fixed_keys, keys(&["quantity"]));
    assert_eq!(
        g.nodes[4].output_schema.dynamic_keys,
        vec![(KeyRule::IdWithPrefix("previous_input.".to_string()), InputCond::Always)]
    );
    assert_eq!(
        g.nodes[5].required_inputs,
        keys(&["previous_input.stock_name", "previous_input.rec", "quantity"])
    );
    assert_eq!(
        g.adj_list[2][1],
        (4, vec![InputCond::MatchesKeyValue("rec".to_string(), "sell".to_string())])
    );
}
