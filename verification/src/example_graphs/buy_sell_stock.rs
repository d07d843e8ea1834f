//! A workflow that trades a stock.

use vstd::prelude::*;
use crate::example_graphs::MakeGraph;
use crate::example_graphs::WorkflowGraphExt;
use crate::workflow::Node;
use crate::workflow::schema::InputCond;
use crate::workflow::schema::key_names;
use crate::workflow::schema::KeyName;
use crate::workflow::schema::KeyRule;
use crate::workflow::schema::lemma_single;
use crate::workflow::schema::OutputSchema;
use crate::workflow::WorkflowGraph;

verus! {

/// `node` has this name, asks for these inputs, always produces these keys
/// and hands every input on under its own name.
pub open spec fn carrier(
    node: Node,
    name: Seq<char>,
    required: Seq<KeyName>,
    fixed: Seq<KeyName>,
) -> bool {
    &&& node.name@ == name
    &&& key_names(node.required_inputs@) == required
    &&& key_names(node.output_schema.fixed_keys@) == fixed
    &&& node.output_schema.dynamic_keys@ == seq![(KeyRule::Identity, InputCond::Always)]
}

/// `node` has this name, asks for these inputs, always produces `quantity`
/// and hands every input on under its name behind `previous_input.`.
pub open spec fn trader(node: Node, name: Seq<char>, required: Seq<KeyName>) -> bool {
    &&& node.name@ == name
    &&& key_names(node.required_inputs@) == required
    &&& key_names(node.output_schema.fixed_keys@) == seq!["quantity"@]
    &&& node.output_schema.dynamic_keys@.len() == 1
    &&& node.output_schema.dynamic_keys@[0].0 matches KeyRule::IdWithPrefix(prefix)
    &&& prefix@ == "previous_input."@
    &&& node.output_schema.dynamic_keys@[0].1 is Always
}

/// The only condition of `conds` is that the recommendation is `advice`.
pub open spec fn on_advice(conds: Vec<InputCond>, advice: Seq<char>) -> bool {
    &&& conds@.len() == 1
    &&& conds@[0] matches InputCond::MatchesKeyValue(key, value)
    &&& key@ == "rec"@
    &&& value@ == advice
}

/// Looks up a stock price, asks for a recommendation, buys or sells, and
/// reports.
pub struct BuySellStock {
    include_non_existent: bool,
}

impl BuySellStock {
    /// With `include_non_existent` the report asks for an input key that
    /// no node produces.
    pub fn new(include_non_existent: bool) -> (r: Self)
        ensures
            r.asks_for_missing_key() == include_non_existent,
    {
        Self { include_non_existent }
    }

    /// Whether the report asks for an input key that no node produces.
    pub closed spec fn asks_for_missing_key(&self) -> bool {
        self.include_non_existent
    }
}

impl MakeGraph for BuySellStock {
    open spec fn usable(&self) -> bool {
        true
    }

    fn name(&self) -> (r: String)
        ensures
            r@ == "buy_sell_stock"@,
    {
        "buy_sell_stock".to_owned()
    }

    fn make_graph(&self) -> (r: WorkflowGraphExt)
        ensures
            r.graph.nodes@.len() == 6,
            r.graph.start == Some(0usize),
            r.test_reachable_node == 5,
            carrier(
                r.graph.nodes@[0],
                "check_stock_price"@,
                Seq::empty(),
                seq!["stock_price"@],
            ),
            carrier(r.graph.nodes@[1], "buy_sell_rec"@, seq!["stock_price"@], seq!["rec"@]),
            carrier(r.graph.nodes@[2], "buy_or_sell"@, seq!["rec"@], Seq::empty()),
            trader(r.graph.nodes@[3], "buy"@, seq!["stock_name"@, "stock_price"@]),
            trader(r.graph.nodes@[4], "sell"@, seq!["stock_name"@]),
            carrier(
                r.graph.nodes@[5],
                "report_result"@,
                if self.asks_for_missing_key() {
                    seq![
                        "previous_input.stock_name"@,
                        "previous_input.rec"@,
                        "quantity"@,
                        "non-existent"@,
                    ]
                } else {
                    seq!["previous_input.stock_name"@, "previous_input.rec"@, "quantity"@]
                },
                Seq::empty(),
            ),
            on_advice(r.graph.adj_list@[2]@[0].1, "buy"@),
            on_advice(r.graph.adj_list@[2]@[1].1, "sell"@),
            forall|u: int, e: int|
                0 <= u < 6 && u != 2 && 0 <= e < r.graph.adj_list@[u]@.len() ==> (
                #[trigger] r.graph.adj_list@[u]@[e]).1@.len() == 0,
            r.graph.targets(0) == seq![1usize],
            r.graph.targets(1) == seq![2usize],
            r.graph.targets(2) == seq![3usize, 4usize],
            r.graph.targets(3) == seq![5usize],
            r.graph.targets(4) == seq![5usize],
            r.graph.targets(5) == Seq::<usize>::empty(),
    {
        let mut g = WorkflowGraph::new();
        let nothing: Vec<String> = Vec::new();
        let schema = OutputSchema::new().add_fixed("stock_price").carry_all().build();
        proof {
            assert(key_names(nothing@) =~= Seq::empty());
            lemma_single(key_names(schema.fixed_keys@), "stock_price"@);
        }
        let check_stock_price = g.add_node("check_stock_price", nothing, schema);

        let mut price: Vec<String> = Vec::new();
        price.push("stock_price".to_owned());
        let schema = OutputSchema::new().add_fixed("rec").carry_all().build();
        proof {
            assert(key_names(price@) =~= seq!["stock_price"@]);
            lemma_single(key_names(schema.fixed_keys@), "rec"@);
        }
        let buy_sell_rec = g.add_node("buy_sell_rec", price, schema);

        let mut rec: Vec<String> = Vec::new();
        rec.push("rec".to_owned());
        let schema = OutputSchema::new().carry_all().build();
        proof {
            assert(key_names(rec@) =~= seq!["rec"@]);
        }
        let buy_or_sell = g.add_node("buy_or_sell", rec, schema);

        let mut buy_inputs: Vec<String> = Vec::new();
        buy_inputs.push("stock_name".to_owned());
        buy_inputs.push("stock_price".to_owned());
        let schema = OutputSchema::new().add_fixed("quantity").add_rule_for_every_input(
            KeyRule::IdWithPrefix("previous_input.".to_owned()),
            InputCond::Always,
        ).build();
        proof {
            assert(key_names(buy_inputs@) =~= seq!["stock_name"@, "stock_price"@]);
            lemma_single(key_names(schema.fixed_keys@), "quantity"@);
        }
        let buy = g.add_node("buy", buy_inputs, schema);

        let mut sell_inputs: Vec<String> = Vec::new();
        sell_inputs.push("stock_name".to_owned());
        let schema = OutputSchema::new().add_fixed("quantity").add_rule_for_every_input(
            KeyRule::IdWithPrefix("previous_input.".to_owned()),
            InputCond::Always,
        ).build();
        proof {
            assert(key_names(sell_inputs@) =~= seq!["stock_name"@]);
            lemma_single(key_names(schema.fixed_keys@), "quantity"@);
        }
        let sell = g.add_node("sell", sell_inputs, schema);

        let mut report_result_required_input: Vec<String> = Vec::new();
        report_result_required_input.push("previous_input.stock_name".to_owned());
        report_result_required_input.push("previous_input.rec".to_owned());
        report_result_required_input.push("quantity".to_owned());
        if self.include_non_existent {
            report_result_required_input.push("non-existent".to_owned());
        }
        let schema = OutputSchema::new().carry_all().build();
        proof {
            if self.include_non_existent {
                assert(key_names(report_result_required_input@) =~= seq![
                    "previous_input.stock_name"@,
                    "previous_input.rec"@,
                    "quantity"@,
                    "non-existent"@,
                ]);
            } else {
                assert(key_names(report_result_required_input@) =~= seq![
                    "previous_input.stock_name"@,
                    "previous_input.rec"@,
                    "quantity"@,
                ]);
            }
        }
        let report_result = g.add_node("report_result", report_result_required_input, schema);
        let mut when_buy: Vec<InputCond> = Vec::new();
        when_buy.push(InputCond::MatchesKeyValue("rec".to_owned(), "buy".to_owned()));
        let mut when_sell: Vec<InputCond> = Vec::new();
        when_sell.push(InputCond::MatchesKeyValue("rec".to_owned(), "sell".to_owned()));
        g.add_edge(check_stock_price, buy_sell_rec, Vec::new()).add_edge(
            buy_sell_rec,
            buy_or_sell,
            Vec::new(),
        ).add_edge(buy_or_sell, buy, when_buy).add_edge(buy_or_sell, sell, when_sell).add_edge(
            buy,
            report_result,
            Vec::new(),
        ).add_edge(sell, report_result, Vec::new()).set_start(check_stock_price);
        WorkflowGraphExt::new(g, report_result)
    }
}

} // verus!
