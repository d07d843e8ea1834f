use workflow_verifier::analysis::ast::{
    justify, strip_prefix, EncodeError, Justify, NodeAST, DEMANDED_OUTPUT, REQUIRED_INPUT, RULE_INPUT,
};
use workflow_verifier::analysis::oracle::{SolverContext, VARIABLE_LIMIT};
use workflow_verifier::analysis::symbol::{get_reason, get_symbol_count, SymbolFactory};
use workflow_verifier::workflow::schema::{InputCond, KeyRule, OutputSchema};
use workflow_verifier::workflow::WorkflowGraph;

fn keys(names: &[&str]) -> Vec<String> {
    names.iter().map(|s| s.to_string()).collect()
}

fn how(rule: KeyRule, cond: InputCond, key: &str) -> Option<Option<String>> {
    match justify(&rule, &cond, key) {
        Justify::Never => None,
        Justify::Always => Some(None),
        Justify::Input(name) => Some(Some(name)),
    }
}

fn input(name: &str) -> Option<Option<String>> {
    Some(Some(name.to_string()))
}

#[test]
fn strip_prefix_takes_the_beginning_off() {
    assert_eq!(strip_prefix("previous_input.rec", "previous_input."), Some("rec".to_string()));
    assert_eq!(strip_prefix("rec", "rec"), Some(String::new()));
    assert_eq!(strip_prefix("rec", ""), Some("rec".to_string()));
    assert_eq!(strip_prefix("rec", "recs"), None);
    assert_eq!(strip_prefix("a.rec", "b."), None);
    assert_eq!(strip_prefix("\u{e9}t\u{e9}", "\u{e9}"), Some("t\u{e9}".to_string()));
}

#[test]
fn identity_rule_names_the_key_itself() {
    assert_eq!(how(KeyRule::Identity, InputCond::Always, "k"), input("k"));
    assert_eq!(how(KeyRule::Identity, InputCond::MatchesKey("k".to_string()), "k"), input("k"));
    assert_eq!(how(KeyRule::Identity, InputCond::MatchesKey("j".to_string()), "k"), None);
    assert_eq!(
        how(KeyRule::Identity, InputCond::MatchesKeyValue("k".to_string(), "v".to_string()), "k"),
        input("k")
    );
    assert_eq!(
        how(KeyRule::Identity, InputCond::MatchesKeyValue("j".to_string(), "v".to_string()), "k"),
        None
    );
}

#[test]
fn fixed_rule_answers_for_its_own_key_only() {
    let fixed = || KeyRule::Fixed("out".to_string());
    assert_eq!(how(fixed(), InputCond::Always, "out"), Some(None));
    assert_eq!(how(fixed(), InputCond::MatchesKey("in".to_string()), "out"), input("in"));
    assert_eq!(
        how(fixed(), InputCond::MatchesKeyValue("in".to_string(), "v".to_string()), "out"),
        input("in")
    );
    assert_eq!(how(fixed(), InputCond::Always, "other"), None);
    assert_eq!(how(fixed(), InputCond::MatchesKey("in".to_string()), "other"), None);
}

#[test]
fn prefix_rule_names_the_rest_of_the_key() {
    let prefixed = || KeyRule::IdWithPrefix("p.".to_string());
    assert_eq!(how(prefixed(), InputCond::Always, "p.k"), input("k"));
    assert_eq!(how(prefixed(), InputCond::MatchesKey("k".to_string()), "p.k"), input("k"));
    assert_eq!(how(prefixed(), InputCond::MatchesKey("j".to_string()), "p.k"), None);
    assert_eq!(
        how(prefixed(), InputCond::MatchesKeyValue("k".to_string(), "v".to_string()), "p.k"),
        input("k")
    );
    assert_eq!(
        how(prefixed(), InputCond::MatchesKeyValue("j".to_string(), "v".to_string()), "p.k"),
        None
    );
    assert_eq!(how(prefixed(), InputCond::Always, "q.k"), None);
    assert_eq!(how(prefixed(), InputCond::Always, "p."), input(""));
}

fn two_node_graph() -> WorkflowGraph {
    let mut g = WorkflowGraph::new();
    let parent = g.add_node(
        "parent",
        keys(&["a", "b", "a"]),
        OutputSchema::new()
            .add_fixed("x")
            .add_rule_for_every_input(KeyRule::Fixed("y".to_string()), InputCond::MatchesKey("c".to_string()))
            .add_rule_for_every_input(KeyRule::IdWithPrefix("p.".to_string()), InputCond::Always)
            .carry_all()
            .build(),
    );
    let child = g.add_node("child", keys(&["y", "p.b", "x", "z"]), OutputSchema::new().build());
    g.add_edge(parent, child, vec![]).set_start(parent);
    g
}

#[test]
fn encoding_numbers_required_inputs_then_outputs_then_rule_inputs() {
    let g = two_node_graph();
    let ctx = SolverContext::new();
    let mut registry = SymbolFactory::new(10);
    let child = NodeAST::new(&ctx, &mut registry, g.get_node(1), &g, &[]).unwrap();
    assert_eq!(child.first_var, 10);
    assert_eq!(child.input_keys.keys.names, keys(&["y", "p.b", "x", "z"]));
    assert_eq!(child.input_keys.vars, vec![10, 11, 12, 13]);
    assert!(child.output_keys.keys.names.is_empty());
    assert!(child.transition_constraints.is_empty());
    assert!(child.schema_constraints.is_empty());
    assert_eq!(get_symbol_count(&registry), 14);

    let parent = NodeAST::new(&ctx, &mut registry, g.get_node(0), &g, &[&child]).unwrap();
    assert_eq!(parent.first_var, 14);
    assert_eq!(parent.output_keys.keys.names, keys(&["y", "p.b", "x", "z"]));
    assert_eq!(parent.output_keys.vars, vec![16, 17, 18, 19]);
    // a and b are required; y asks for c and for y itself, p.b for b and
    // for p.b itself, x for x, z for z.
    assert_eq!(
        parent.input_keys.keys.names,
        keys(&["a", "b", "c", "y", "p.b", "x", "z"])
    );
    assert_eq!(parent.input_keys.vars, vec![14, 15, 20, 21, 22, 23, 24]);
    assert_eq!(parent.transition_constraints.len(), 1);
    assert_eq!(parent.schema_constraints.len(), 4);
    assert_eq!(get_symbol_count(&registry), 25);
}

#[test]
fn encoding_twice_gives_the_same_tables() {
    let g = two_node_graph();
    let ctx = SolverContext::new();
    let mut tables = Vec::new();
    for _ in 0..2 {
        let mut registry = SymbolFactory::new(0);
        let child = NodeAST::new(&ctx, &mut registry, g.get_node(1), &g, &[]).unwrap();
        let parent = NodeAST::new(&ctx, &mut registry, g.get_node(0), &g, &[&child]).unwrap();
        tables.push((
            parent.input_keys.keys.names.clone(),
            parent.input_keys.vars.clone(),
            parent.output_keys.keys.names.clone(),
            parent.output_keys.vars.clone(),
            parent.transition_constraints.len(),
            parent.schema_constraints.len(),
            get_symbol_count(&registry),
        ));
    }
    assert_eq!(tables[0], tables[1]);
}

#[test]
fn encoding_fails_where_the_variables_run_out() {
    let g = two_node_graph();
    let ctx = SolverContext::new();
    let mut short = SymbolFactory::new(VARIABLE_LIMIT as usize - 3);
    let r = NodeAST::new(&ctx, &mut short, g.get_node(1), &g, &[]);
    assert_eq!(r.err(), Some(EncodeError::OutOfVariables));
    assert_eq!(get_symbol_count(&short), VARIABLE_LIMIT as usize);
    let mut enough = SymbolFactory::new(VARIABLE_LIMIT as usize - 4);
    assert!(NodeAST::new(&ctx, &mut enough, g.get_node(1), &g, &[]).is_ok());
    assert_eq!(get_symbol_count(&enough), VARIABLE_LIMIT as usize);
}

#[test]
fn encoding_records_where_each_variable_came_from() {
    let g = two_node_graph();
    let ctx = SolverContext::new();
    let mut registry = SymbolFactory::new(0);
    let child = NodeAST::new(&ctx, &mut registry, g.get_node(1), &g, &[]).unwrap();
    let _parent = NodeAST::new(&ctx, &mut registry, g.get_node(0), &g, &[&child]).unwrap();
    let sites: Vec<&str> = (0..get_symbol_count(&registry) as u32)
        .map(|var| get_reason(&registry, var).unwrap().0)
        .collect();
    let mut expected = vec![REQUIRED_INPUT; 4];
    expected.extend(vec![REQUIRED_INPUT; 2]);
    expected.extend(vec![DEMANDED_OUTPUT; 4]);
    expected.extend(vec![RULE_INPUT; 5]);
    assert_eq!(sites, expected);
    assert_eq!(REQUIRED_INPUT, "required input");
    assert_eq!(get_reason(&registry, 0), Some(&("required input", 0, None)));
}

#[test]
fn value_of_a_condition_plays_no_part_in_the_encoding() {
    let with = |cond: InputCond| {
        let mut g = WorkflowGraph::new();
        let parent = g.add_node(
            "parent",
            vec![],
            OutputSchema::new().add_rule_for_every_input(KeyRule::Identity, cond).build(),
        );
        let child = g.add_node("child", keys(&["k", "j"]), OutputSchema::new().build());
        g.add_edge(parent, child, vec![]).set_start(parent);
        let ctx = SolverContext::new();
        let mut registry = SymbolFactory::new(0);
        let below = NodeAST::new(&ctx, &mut registry, g.get_node(1), &g, &[]).unwrap();
        let above = NodeAST::new(&ctx, &mut registry, g.get_node(0), &g, &[&below]).unwrap();
        (above.input_keys.keys.names.clone(), above.input_keys.vars.clone())
    };
    let by_key = with(InputCond::MatchesKey("k".to_string()));
    let by_value = with(InputCond::MatchesKeyValue("k".to_string(), "v".to_string()));
    assert_eq!(by_key, (keys(&["k"]), vec![4]));
    assert_eq!(by_value, by_key);
}
