use workflow_verifier::analysis::oracle::SatAnswer;
use workflow_verifier::analysis::path::find_path;
use workflow_verifier::analysis::search::SizeSearch;
use workflow_verifier::analysis::witness::{keys_where, taken_where};
use workflow_verifier::analysis::{settled_by, QueryError};
use workflow_verifier::workflow::schema::{side_of, InputCond, KeyRule, OutputSchema, Side};

fn names(list: &[&str]) -> Vec<String> {
    list.iter().map(|s| s.to_string()).collect()
}

fn fixed_of(list: &[&str]) -> Vec<String> {
    let mut builder = OutputSchema::new();
    for key in list {
        builder = builder.add_fixed(key);
    }
    builder.build().fixed_keys
}

#[test]
fn fixed_keys_come_out_ascending() {
    assert_eq!(fixed_of(&["b", "a"]), names(&["a", "b"]));
    assert_eq!(fixed_of(&["c", "a", "b"]), names(&["a", "b", "c"]));
    assert_eq!(fixed_of(&["a", "b", "c"]), names(&["a", "b", "c"]));
    assert_eq!(fixed_of(&["c", "b", "a"]), names(&["a", "b", "c"]));
    assert_eq!(fixed_of(&[]), names(&[]));
}

#[test]
fn fixed_keys_hold_each_name_once() {
    assert_eq!(fixed_of(&["x", "x"]), names(&["x"]));
    assert_eq!(fixed_of(&["b", "a", "b", "a", "c", "a"]), names(&["a", "b", "c"]));
    assert_eq!(fixed_of(&["m", "z", "a", "z", "m"]), names(&["a", "m", "z"]));
}

#[test]
fn fixed_keys_stand_as_strings_are_ordered() {
    let keys = [
        "stock_price",
        "stock",
        "",
        "Stock",
        "rec",
        "stock_",
        "r\u{e9}cit",
        "rez",
        "quantity",
        "stock",
        "output_10",
        "output_2",
        "\u{10000}",
        "\u{ffff}",
        "~",
    ];
    let mut expected = names(&keys);
    expected.sort();
    expected.dedup();
    assert_eq!(fixed_of(&keys), expected);
    assert_eq!(
        expected,
        names(&[
            "",
            "Stock",
            "output_10",
            "output_2",
            "quantity",
            "rec",
            "rez",
            "r\u{e9}cit",
            "stock",
            "stock_",
            "stock_price",
            "~",
            "\u{ffff}",
            "\u{10000}",
        ])
    );
}

#[test]
fn rules_stay_in_the_order_of_the_calls_with_repeats() {
    let schema = OutputSchema::new()
        .add_fixed("z")
        .carry_all()
        .add_rule_for_every_input(KeyRule::Fixed("b".to_string()), InputCond::Always)
        .add_fixed("a")
        .carry_all()
        .add_rule_for_every_input(KeyRule::Fixed("a".to_string()), InputCond::Always)
        .build();
    assert_eq!(schema.fixed_keys, names(&["a", "z"]));
    assert_eq!(
        schema.dynamic_keys,
        vec![
            (KeyRule::Identity, InputCond::Always),
            (KeyRule::Fixed("b".to_string()), InputCond::Always),
            (KeyRule::Identity, InputCond::Always),
            (KeyRule::Fixed("a".to_string()), InputCond::Always),
        ]
    );
}

#[test]
fn side_of_goes_by_the_first_character_that_differs() {
    assert_eq!(side_of("a", "b"), Side::Before);
    assert_eq!(side_of("b", "a"), Side::After);
    assert_eq!(side_of("abc", "abd"), Side::Before);
    assert_eq!(side_of("abd", "abc"), Side::After);
    assert_eq!(side_of("B", "a"), Side::Before);
    assert_eq!(side_of("z", "\u{e9}"), Side::Before);
    assert_eq!(side_of("\u{10000}", "\u{ffff}"), Side::After);
    assert_eq!(side_of("ba", "ab"), Side::After);
}

#[test]
fn side_of_puts_a_beginning_before_the_whole() {
    assert_eq!(side_of("", "a"), Side::Before);
    assert_eq!(side_of("a", ""), Side::After);
    assert_eq!(side_of("stock", "stock_price"), Side::Before);
    assert_eq!(side_of("stock_price", "stock"), Side::After);
}

#[test]
fn side_of_knows_the_same_name() {
    assert_eq!(side_of("", ""), Side::Same);
    assert_eq!(side_of("rec", "rec"), Side::Same);
    assert_eq!(side_of("r\u{e9}cit", "r\u{e9}cit"), Side::Same);
}

#[test]
fn side_of_agrees_with_the_order_of_strings() {
    let all = ["", "a", "A", "ab", "abc", "b", "\u{e9}", "e", "zz", "\u{800}", "\u{7ff}", "a\u{0}"];
    for a in all {
        for b in all {
            let expected = if a < b {
                Side::Before
            } else if a == b {
                Side::Same
            } else {
                Side::After
            };
            assert_eq!(side_of(a, b), expected, "{:?} against {:?}", a, b);
        }
    }
}

#[test]
fn find_path_takes_the_successor_that_is_listed_first() {
    let graph = vec![vec![1, 2], vec![3], vec![3], vec![]];
    assert_eq!(find_path(&graph, 0, 3), Some(vec![0, 1, 3]));
    let turned = vec![vec![2, 1], vec![3], vec![3], vec![]];
    assert_eq!(find_path(&turned, 0, 3), Some(vec![0, 2, 3]));
}

#[test]
fn find_path_goes_by_the_node_that_was_found_first() {
    // Both 3 and 4 lead to 5; 3 was found from 2, which is listed before 1.
    let graph = vec![vec![2, 1], vec![4], vec![3], vec![5], vec![5], vec![]];
    assert_eq!(find_path(&graph, 0, 5), Some(vec![0, 2, 3, 5]));
    // 6 is found from 3, the first of the second layer, though 4 lists it first.
    let wide = vec![vec![1, 2], vec![3], vec![4], vec![5, 6], vec![6, 5], vec![], vec![]];
    assert_eq!(find_path(&wide, 0, 6), Some(vec![0, 1, 3, 6]));
    assert_eq!(find_path(&wide, 0, 5), Some(vec![0, 1, 3, 5]));
}

#[test]
fn find_path_is_not_led_astray_by_a_longer_route_listed_first() {
    let graph = vec![vec![1, 3], vec![2], vec![3], vec![]];
    assert_eq!(find_path(&graph, 0, 3), Some(vec![0, 3]));
    let twice = vec![vec![1, 2, 1], vec![3], vec![3, 3], vec![]];
    assert_eq!(find_path(&twice, 0, 3), Some(vec![0, 1, 3]));
}

#[test]
fn keys_where_keeps_the_names_that_are_true() {
    let all = names(&["a", "b", "c", "d"]);
    assert_eq!(
        keys_where(&all, &vec![Some(true), Some(false), Some(true), Some(false)]),
        Some(names(&["a", "c"]))
    );
    assert_eq!(
        keys_where(&all, &vec![Some(false), Some(false), Some(false), Some(false)]),
        Some(names(&[]))
    );
    assert_eq!(
        keys_where(&all, &vec![Some(true), Some(true), Some(true), Some(true)]),
        Some(all.clone())
    );
    assert_eq!(keys_where(&names(&[]), &vec![]), Some(names(&[])));
}

#[test]
fn keys_where_gives_nothing_where_a_value_is_missing() {
    let all = names(&["a", "b", "c"]);
    assert_eq!(keys_where(&all, &vec![None, Some(true), Some(true)]), None);
    assert_eq!(keys_where(&all, &vec![Some(true), Some(false), None]), None);
    assert_eq!(keys_where(&all, &vec![Some(false), None, Some(false)]), None);
    assert_eq!(keys_where(&all, &vec![None, None, None]), None);
}

#[test]
fn taken_where_keeps_the_edges_that_are_true() {
    let adj_list = vec![
        vec![(1, vec![]), (2, vec![InputCond::Always])],
        vec![(2, vec![])],
        vec![],
    ];
    let values = vec![vec![Some(false), Some(true)], vec![Some(true)], vec![]];
    assert_eq!(taken_where(&adj_list, &values), Some(vec![vec![2], vec![2], vec![]]));
    let none = vec![vec![Some(false), Some(false)], vec![Some(false)], vec![]];
    assert_eq!(taken_where(&adj_list, &none), Some(vec![vec![], vec![], vec![]]));
    let all = vec![vec![Some(true), Some(true)], vec![Some(true)], vec![]];
    assert_eq!(taken_where(&adj_list, &all), Some(vec![vec![1, 2], vec![2], vec![]]));
    assert_eq!(taken_where(&Vec::new(), &Vec::new()), Some(Vec::new()));
}

#[test]
fn taken_where_gives_nothing_where_a_value_is_missing() {
    let adj_list = vec![vec![(1, vec![]), (2, vec![])], vec![(2, vec![])], vec![]];
    let first = vec![vec![None, Some(true)], vec![Some(true)], vec![]];
    assert_eq!(taken_where(&adj_list, &first), None);
    let last = vec![vec![Some(true), Some(true)], vec![None], vec![]];
    assert_eq!(taken_where(&adj_list, &last), None);
    let untaken = vec![vec![Some(false), None], vec![Some(false)], vec![]];
    assert_eq!(taken_where(&adj_list, &untaken), None);
}

#[test]
fn an_answer_without_a_model_settles_the_analysis() {
    assert!(matches!(
        settled_by(SatAnswer::Unknown),
        Some(Err(QueryError::Inconclusive))
    ));
    assert!(matches!(settled_by(SatAnswer::Unsat), Some(Ok(None))));
    assert!(settled_by(SatAnswer::Sat).is_none());
}

#[test]
fn keys_where_wants_one_value_for_each_name() {
    let all = names(&["a", "b"]);
    assert_eq!(keys_where(&all, &vec![Some(true)]), None);
    assert_eq!(keys_where(&all, &vec![Some(true), Some(true), Some(true)]), None);
    assert_eq!(keys_where(&all, &vec![]), None);
}

#[test]
fn taken_where_wants_one_value_for_each_edge() {
    let adj_list = vec![vec![(1, vec![])], vec![]];
    assert_eq!(taken_where(&adj_list, &vec![vec![Some(true)]]), None);
    assert_eq!(taken_where(&adj_list, &vec![vec![], vec![]]), None);
    assert_eq!(taken_where(&adj_list, &vec![vec![Some(true)], vec![Some(true)]]), None);
    assert_eq!(taken_where(&adj_list, &vec![vec![Some(true)], vec![]]), Some(vec![vec![1], vec![]]));
}

fn search_over(max: usize, works: &[usize]) -> Option<usize> {
    let mut search = SizeSearch::new(max);
    while let Some(mid) = search.midpoint() {
        search = search.narrow(works.contains(&mid));
    }
    search.best
}

#[test]
fn size_search_finds_the_smallest_where_larger_sizes_work_too() {
    assert_eq!(search_over(5, &[2, 3, 4, 5]), Some(2));
    assert_eq!(search_over(5, &[0, 1, 2, 3, 4, 5]), Some(0));
    assert_eq!(search_over(5, &[5]), Some(5));
    assert_eq!(search_over(5, &[]), None);
    assert_eq!(search_over(0, &[0]), Some(0));
    assert_eq!(search_over(0, &[]), None);
}

#[test]
fn size_search_stops_above_a_size_that_does_not_work() {
    // 2 does not work, so the search never looks below it.
    assert_eq!(search_over(3, &[1, 3]), Some(3));
    // 1 and 2 do not work, so the size 0 is never tried.
    assert_eq!(search_over(2, &[0]), None);
    assert_eq!(search_over(6, &[0, 1, 5, 6]), Some(5));
}
