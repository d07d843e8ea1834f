//! A workflow that is a chain of a given length.

use vstd::prelude::*;
use rand::Rng;
use rand::SeedableRng;
use crate::example_graphs::MakeGraph;
use crate::example_graphs::WorkflowGraphExt;
use crate::workflow::Node;
use crate::workflow::schema::InputCond;
use crate::workflow::schema::key_names;
use crate::workflow::schema::KeyName;
use crate::workflow::schema::KeyRule;
use crate::workflow::schema::lemma_single;
use crate::workflow::schema::OutputSchema;
use crate::workflow::WorkflowGraph;

verus! {

/// `rand_xorshift::XorShiftRng`, of which nothing is known here.
#[verifier::external_type_specification]
#[verifier::external_body]
pub struct ExXorShiftRng(rand_xorshift::XorShiftRng);

/// `rand::SeedableRng::seed_from_u64` for the xorshift generator. Nothing
/// is claimed of the generator.
#[verifier::external_body]
fn seeded(seed: u64) -> (r: rand_xorshift::XorShiftRng) {
    rand_xorshift::XorShiftRng::seed_from_u64(seed)
}

/// `rand::Rng::gen_range` on the range from `low` up to but not including
/// `high`: the number lies in the range. The call panics on an empty range.
#[verifier::external_body]
fn pick(rng: &mut rand_xorshift::XorShiftRng, low: usize, high: usize) -> (r: usize)
    requires
        low < high,
    ensures
        low <= r < high,
{
    rng.gen_range(low..high)
}

/// The decimal digits of `n`, without leading zeros.
pub open spec fn decimal(n: nat) -> Seq<char>
    decreases n,
{
    if n < 10 {
        seq![((48 + n) as u8) as char]
    } else {
        decimal(n / 10).push(((48 + n % 10) as u8) as char)
    }
}

/// `format!` with a text and a number: `prefix` followed by `i` in decimal
/// digits.
#[verifier::external_body]
fn numbered(prefix: &str, i: usize) -> (r: String)
    ensures
        r@ == prefix@ + decimal(i as nat),
{
    format!("{}{}", prefix, i)
}

/// The first of the nodes whose output node `i` of a chain may ask for.
pub open spec fn window(i: int) -> int {
    if i > 10 {
        i - 10
    } else {
        0
    }
}

/// The inputs that node `i` of a chain asks for where it takes the output
/// of node `j`.
pub open spec fn asked_by(i: int, j: int) -> Seq<KeyName> {
    seq!["output_"@ + decimal(j as nat), "input_"@ + decimal(i as nat)]
}

/// `node` is node `i` of a chain: it is called `node_i`, asks for
/// `input_i` and, unless it is the first, before that for the output of one
/// of the ten nodes before it, always produces `output_i`, and hands every
/// input on.
pub open spec fn link_of_chain(node: Node, i: int) -> bool {
    &&& node.name@ == "node_"@ + decimal(i as nat)
    &&& i == 0 ==> key_names(node.required_inputs@) == seq!["input_"@ + decimal(i as nat)]
    &&& i > 0 ==> exists|j: int|
        window(i) <= j < i && key_names(node.required_inputs@) == #[trigger] asked_by(i, j)
    &&& key_names(node.output_schema.fixed_keys@) == seq!["output_"@ + decimal(i as nat)]
    &&& node.output_schema.dynamic_keys@ == seq![(KeyRule::Identity, InputCond::Always)]
}

/// A chain of as many nodes as the number says. Each node asks for an
/// input of its own, hands all its inputs on and adds an output of its own;
/// each but the first also asks for the output of one of the ten nodes
/// before it.
pub struct Linear(pub usize);

impl MakeGraph for Linear {
    open spec fn usable(&self) -> bool {
        self.0 > 0
    }

    fn name(&self) -> (r: String)
        ensures
            r@ == "linear_"@ + decimal(self.0 as nat),
    {
        numbered("linear_", self.0)
    }

    fn make_graph(&self) -> (r: WorkflowGraphExt)
        ensures
            r.graph.nodes@.len() == self.0,
            r.graph.start == Some(0usize),
            r.test_reachable_node == self.0 - 1,
            forall|i: int|
                0 <= i < self.0 - 1 ==> (#[trigger] r.graph.adj_list@[i])@.len() == 1
                    && r.graph.adj_list@[i]@[0].0 == i + 1,
            r.graph.adj_list@[self.0 - 1]@.len() == 0,
            forall|i: int| 0 <= i < self.0 ==> link_of_chain(#[trigger] r.graph.nodes@[i], i),
    {
        let mut g = WorkflowGraph::new();
        let num_nodes = self.0;
        let mut rng = seeded(0x12345678);
        let mut i: usize = 0;
        while i < num_nodes
            invariant
                i <= num_nodes,
                g.wf(),
                g.start is None,
                g.nodes@.len() == i,
                forall|t: int| 0 <= t < i ==> (#[trigger] g.adj_list@[t])@.len() == 0,
                forall|t: int| 0 <= t < i ==> link_of_chain(#[trigger] g.nodes@[t], t),
            decreases num_nodes - i,
        {
            let name = numbered("node_", i);
            let mut required_inputs: Vec<String> = Vec::new();
            let ghost mut asked: int = 0;
            if i > 0 {
                let low = if i > 10 {
                    i - 10
                } else {
                    0
                };
                let j = pick(&mut rng, low, i);
                required_inputs.push(numbered("output_", j));
                proof {
                    asked = j as int;
                }
            }
            required_inputs.push(numbered("input_", i));
            let output_schema = OutputSchema::new().add_fixed(
                numbered("output_", i).as_str(),
            ).carry_all().build();
            let ghost before = g.adj_list@;
            let ghost nodes_before = g.nodes@;
            proof {
                lemma_single(
                    key_names(output_schema.fixed_keys@),
                    "output_"@ + decimal(i as nat),
                );
                if i > 0 {
                    assert(key_names(required_inputs@) =~= asked_by(i as int, asked));
                } else {
                    assert(key_names(required_inputs@) =~= seq!["input_"@ + decimal(i as nat)]);
                }
            }
            g.add_node(name.as_str(), required_inputs, output_schema);
            assert forall|t: int| 0 <= t < i + 1 implies link_of_chain(#[trigger] g.nodes@[t], t) by {
                if t < i {
                    assert(g.nodes@.drop_last()[t] == nodes_before[t]);
                }
            }
            assert forall|t: int| 0 <= t < i + 1 implies (#[trigger] g.adj_list@[t])@.len() == 0 by {
                if t < i {
                    assert(g.adj_list@.drop_last()[t] == before[t]);
                }
            }
            i = i + 1;
        }
        let mut i: usize = 0;
        while i + 1 < num_nodes
            invariant
                i < num_nodes,
                g.wf(),
                g.start is None,
                g.nodes@.len() == num_nodes,
                forall|t: int| 0 <= t < num_nodes ==> link_of_chain(#[trigger] g.nodes@[t], t),
                forall|t: int|
                    0 <= t < i ==> (#[trigger] g.adj_list@[t])@.len() == 1 && g.adj_list@[t]@[0].0
                        == t + 1,
                forall|t: int| i <= t < num_nodes ==> (#[trigger] g.adj_list@[t])@.len() == 0,
            decreases num_nodes - i,
        {
            g.add_edge(i, i + 1, Vec::new());
            i = i + 1;
        }
        g.set_start(0);
        WorkflowGraphExt::new(g, num_nodes - 1)
    }
}

} // verus!
