//! The encoding of one node: its key tables and the formulas that say
//! when its edges are taken and when its output keys are produced.

use vstd::prelude::*;
use crate::analysis::encoding::counting;
use crate::analysis::encoding::demanded;
use crate::analysis::encoding::extend;
use crate::analysis::encoding::input_names;
use crate::analysis::encoding::is_prefix;
use crate::analysis::encoding::Justification;
use crate::analysis::encoding::justification;
use crate::analysis::encoding::leads;
use crate::analysis::encoding::lemma_demanded;
use crate::analysis::encoding::lemma_demanded_take;
use crate::analysis::encoding::lemma_extend;
use crate::analysis::encoding::lemma_extend_push;
use crate::analysis::encoding::lemma_extend_take;
use crate::analysis::encoding::lemma_index_of;
use crate::analysis::encoding::lemma_leads_trans;
use crate::analysis::encoding::lemma_referenced_holds;
use crate::analysis::encoding::lemma_referenced_push;
use crate::analysis::encoding::lemma_with_name;
use crate::analysis::encoding::lemma_with_references;
use crate::analysis::encoding::lemma_with_references_take;
use crate::analysis::encoding::referenced;
use crate::analysis::encoding::required_names;
use crate::analysis::encoding::with_references;
use crate::analysis::formula::all_of;
use crate::analysis::formula::either;
use crate::analysis::formula::Formula;
use crate::analysis::literals::Literals;
use crate::analysis::oracle::all_at;
use crate::analysis::oracle::BoolTerm;
use crate::analysis::oracle::SolverContext;
use crate::analysis::oracle::term_and;
use crate::analysis::oracle::term_clone;
use crate::analysis::oracle::term_iff;
use crate::analysis::oracle::TERM_LIMIT;
use crate::analysis::oracle::term_lit;
use crate::analysis::oracle::term_or;
use crate::analysis::oracle::term_var;
use crate::analysis::oracle::VARIABLE_LIMIT;
use crate::analysis::oracle::views;
use crate::analysis::symbol::get_symbol_count;
use crate::analysis::symbol::SymbolFactory;
use crate::analysis::symbol::SymbolOrigin;
use crate::workflow::Node;
use crate::workflow::schema::distinct_names;
use crate::workflow::schema::holds_name;
use crate::workflow::schema::InputCond;
use crate::workflow::schema::key_names;
use crate::workflow::schema::KeyName;
use crate::workflow::schema::KeyRule;
use crate::workflow::schema::OutputSchema;
use crate::workflow::schema::with_name;
use crate::workflow::WorkflowGraph;

verus! {

/// The boolean variables of a set of keys: for each key name, in the order
/// in which the names came, the number of its variable and the solver's term
/// for it.
pub struct KeyTable<'ctx> {
    pub keys: Literals,
    pub vars: Vec<u32>,
    pub terms: Vec<BoolTerm<'ctx>>,
}

impl<'ctx> KeyTable<'ctx> {
    /// The key names, in the order in which they came.
    pub open spec fn names(&self) -> Seq<KeyName> {
        self.keys@
    }

    /// No name occurs twice, and each term is the variable of its number in
    /// session `home`.
    pub open spec fn wf(&self, home: int) -> bool {
        &&& self.vars@.len() == self.names().len()
        &&& self.terms@.len() == self.names().len()
        &&& distinct_names(self.names())
        &&& forall|i: int|
            0 <= i < self.terms@.len() ==> (#[trigger] self.terms@[i])@ == Formula::Var(
                self.vars@[i],
            ) && self.terms@[i].home() == home
    }

    /// A table without keys.
    pub fn new() -> (r: Self)
        ensures
            r.names() == Seq::<KeyName>::empty(),
            r.vars@ == Seq::<u32>::empty(),
            forall|home: int| r.wf(home),
    {
        Self { keys: Literals::new(), vars: Vec::new(), terms: Vec::new() }
    }

    /// How many keys the table holds.
    pub fn len(&self) -> (r: usize)
        ensures
            r == self.names().len(),
    {
        self.keys.len()
    }

    /// The position of the key `name`, if the table holds it.
    pub fn find(&self, name: &str) -> (r: Option<usize>)
        ensures
            r matches Some(i) ==> i < self.names().len() && self.names()[i as int] == name@,
            r is Some == self.names().contains(name@),
    {
        self.keys.get_index(name)
    }

    /// The position of the key `name`, which the table holds.
    pub fn position(&self, name: &str) -> (r: usize)
        requires
            self.names().contains(name@),
        ensures
            r < self.names().len(),
            self.names()[r as int] == name@,
    {
        match self.find(name) {
            Some(i) => i,
            None => unreached(),
        }
    }

    /// The name of the key at position `i`.
    pub fn name_at(&self, i: usize) -> (r: &String)
        requires
            i < self.names().len(),
        ensures
            r@ == self.names()[i as int],
    {
        self.keys.name_at(i)
    }

    /// The position of the key `name`. Where the table does not hold it yet,
    /// the key is appended with the next variable of `registry`; `None`,
    /// with nothing changed, where `registry` has none left.
    pub fn ensure(
        &mut self,
        ctx: &'ctx SolverContext,
        registry: &mut SymbolFactory,
        name: &str,
        site: &'static str,
    ) -> (r: Option<usize>)
        requires
            old(self).wf(ctx.id()),
            old(registry).wf(),
        ensures
            final(self).wf(ctx.id()),
            final(registry).wf(),
            r is None <==> !old(self).names().contains(name@) && old(registry).count()
                >= VARIABLE_LIMIT,
            r is None || old(self).names().contains(name@) ==> *final(self) == *old(self)
                && final(registry).count() == old(registry).count()
                && final(registry).origins() == old(registry).origins(),
            r matches Some(i) ==> final(self).names() == with_name(old(self).names(), name@) && i
                < final(self).names().len() && final(self).names()[i as int] == name@,
            r is Some && !old(self).names().contains(name@) ==> final(self).vars@ == old(
                self,
            ).vars@.push(old(registry).count() as u32) && final(registry).count() == old(
                registry,
            ).count() + 1 && final(self).terms@.drop_last() == old(self).terms@
                && final(registry).origins() == old(registry).origins().push((site, 0u32, None)),
    {
        match self.keys.get_index(name) {
            Some(i) => Some(i),
            None => {
                match registry.add_symbol(site, 0, None) {
                    None => {
                        None
                    },
                    Some(var) => {
                        let i = self.keys.get_or_add_index(name);
                        let term = term_var(ctx, var);
                        self.vars.push(var);
                        self.terms.push(term);
                        Some(i)
                    },
                }
            },
        }
    }
}


/// The origin that the registry gets for the variable of a required input.
pub const REQUIRED_INPUT: &'static str = "required input";

/// The origin that the registry gets for the variable of an output key.
pub const DEMANDED_OUTPUT: &'static str = "demanded output";

/// The origin that the registry gets for the variable of an input key that
/// only a rule names.
pub const RULE_INPUT: &'static str = "rule input";

/// The origins of `count` variables that were asked for at `site`.
pub open spec fn origins_at(site: &'static str, count: int) -> Seq<SymbolOrigin> {
    Seq::new(count as nat, |i: int| (site, 0u32, None::<String>))
}

/// The origins of some variables and of some more from one site are the
/// origins of all of them.
pub proof fn lemma_origins_at(site: &'static str, first: int, more: int)
    requires
        0 <= first,
        0 <= more,
    ensures
        origins_at(site, first) + origins_at(site, more) == origins_at(site, first + more),
{
}

/// How a dynamic rule bears on one output key.
pub enum Justify {
    /// The rule cannot produce the key.
    Never,
    /// The rule produces the key whatever the inputs are.
    Always,
    /// The rule produces the key where the input key of this name is there.
    Input(String),
}

impl View for Justify {
    type V = Justification;

    open spec fn view(&self) -> Justification {
        match self {
            Justify::Never => Justification::Never,
            Justify::Always => Justification::Always,
            Justify::Input(name) => Justification::Input(name@),
        }
    }
}

/// Why a node could not be encoded.
#[derive(Debug, Clone, Copy, PartialEq, Eq, Structural)]
pub enum EncodeError {
    /// The registry has fewer variables left than the node's keys need.
    OutOfVariables,
}

/// Whether `name` and `key` are the same name.
fn same_name(name: &String, key: &str) -> (r: bool)
    ensures
        r == (name@ == key@),
{
    *name == key.to_owned()
}

/// `key` without `prefix` at its beginning; `None` where `key` does not
/// begin with `prefix`.
pub fn strip_prefix(key: &str, prefix: &str) -> (r: Option<String>)
    ensures
        r is Some == is_prefix(prefix@, key@),
        r matches Some(rest) ==> rest@ == key@.subrange(prefix@.len() as int, key@.len() as int),
{
    let key_len = key.unicode_len();
    let prefix_len = prefix.unicode_len();
    if prefix_len > key_len {
        return None;
    }
    let head = key.substring_char(0, prefix_len).to_owned();
    if head == prefix.to_owned() {
        Some(key.substring_char(prefix_len, key_len).to_owned())
    } else {
        None
    }
}

/// How the rule `rule` under the condition `cond` bears on the output key
/// `key`.
pub fn justify(rule: &KeyRule, cond: &InputCond, key: &str) -> (r: Justify)
    ensures
        r@ == justification(*rule, *cond, key@),
{
    match rule {
        KeyRule::Identity => match cond {
            InputCond::Always => Justify::Input(key.to_owned()),
            InputCond::MatchesKey(k) => if same_name(k, key) {
                Justify::Input(key.to_owned())
            } else {
                Justify::Never
            },
            InputCond::MatchesKeyValue(k, _) => if same_name(k, key) {
                Justify::Input(key.to_owned())
            } else {
                Justify::Never
            },
        },
        KeyRule::Fixed(name) => if same_name(name, key) {
            match cond {
                InputCond::Always => Justify::Always,
                InputCond::MatchesKey(k) => Justify::Input(k.clone()),
                InputCond::MatchesKeyValue(k, _) => Justify::Input(k.clone()),
            }
        } else {
            Justify::Never
        },
        KeyRule::IdWithPrefix(prefix) => match strip_prefix(key, prefix.as_str()) {
            Some(rest) => match cond {
                InputCond::Always => Justify::Input(rest),
                InputCond::MatchesKey(k) => if same_name(k, rest.as_str()) {
                    Justify::Input(rest)
                } else {
                    Justify::Never
                },
                InputCond::MatchesKeyValue(k, _) => if same_name(k, rest.as_str()) {
                    Justify::Input(rest)
                } else {
                    Justify::Never
                },
            },
            None => Justify::Never,
        },
    }
}

/// The input keys that `rules` name for the output key `key`, in rule order.
pub fn references(rules: &Vec<(KeyRule, InputCond)>, key: &str) -> (r: Vec<String>)
    ensures
        key_names(r@) == referenced(rules@, key@),
{
    let mut found: Vec<String> = Vec::new();
    let mut k: usize = 0;
    while k < rules.len()
        invariant
            k <= rules.len(),
            key_names(found@) == referenced(rules@.take(k as int), key@),
        decreases rules.len() - k,
    {
        let how = justify(&rules[k].0, &rules[k].1, key);
        proof {
            assert(rules@.take(k + 1) =~= rules@.take(k as int).push(rules@[k as int]));
            lemma_referenced_push(rules@.take(k as int), rules@[k as int], key@);
        }
        match how {
            Justify::Input(name) => {
                let ghost before = found@;
                found.push(name);
            },
            _ => {},
        }
        k = k + 1;
    }
    assert(rules@.take(rules.len() as int) =~= rules@);
    found
}


/// The variable of the key `name` in a table with these names and variables.
pub open spec fn var_at(names: Seq<KeyName>, vars: Seq<u32>, name: KeyName) -> u32 {
    vars[names.index_of(name)]
}

/// The two variables `left` and `right` have the same truth value.
pub open spec fn same_truth(left: u32, right: u32) -> Formula {
    Formula::Iff(Box::new(Formula::Var(left)), Box::new(Formula::Var(right)))
}

/// When the edge to a successor is taken: each input key of the successor
/// is there exactly where the output key of that name is. The successor has
/// the input keys `child_names` with the variables `child_vars`; the node has
/// the output keys `names` with the variables `vars`.
pub open spec fn link(
    child_names: Seq<KeyName>,
    child_vars: Seq<u32>,
    names: Seq<KeyName>,
    vars: Seq<u32>,
) -> Formula {
    all_of(
        Seq::new(
            child_names.len(),
            |j: int| same_truth(child_vars[j], var_at(names, vars, child_names[j])),
        ),
    )
}

/// The ways in which `rules` can produce the output key `key`, in rule
/// order: the constant true for a rule that needs no input, else the
/// variable of the input key that the rule names.
pub open spec fn rule_choices(
    rules: Seq<(KeyRule, InputCond)>,
    key: KeyName,
    names: Seq<KeyName>,
    vars: Seq<u32>,
) -> Seq<Formula>
    decreases rules.len(),
{
    if rules.len() == 0 {
        Seq::empty()
    } else {
        let before = rule_choices(rules.drop_last(), key, names, vars);
        match justification(rules.last().0, rules.last().1, key) {
            Justification::Never => before,
            Justification::Always => before.push(Formula::Lit(true)),
            Justification::Input(name) => before.push(Formula::Var(var_at(names, vars, name))),
        }
    }
}

/// All ways in which a node with the fixed keys `fixed` and the rules
/// `rules` can produce the output key `key`: the constant true first where
/// the key is fixed, then what the rules give.
pub open spec fn choices(
    fixed: Seq<KeyName>,
    rules: Seq<(KeyRule, InputCond)>,
    key: KeyName,
    names: Seq<KeyName>,
    vars: Seq<u32>,
) -> Seq<Formula> {
    if fixed.contains(key) {
        seq![Formula::Lit(true)] + rule_choices(rules, key, names, vars)
    } else {
        rule_choices(rules, key, names, vars)
    }
}

/// The boolean encoding of one node: a variable for each of its input and
/// output keys, one formula per outgoing edge that says when the edge is
/// taken, and one formula per output key that says when the key is produced.
///
/// The encoding knows whether a key is there, not what it holds: the value
/// of a key-value condition and the conditions on the edges play no part.
pub struct NodeAST<'ctx, 'g> {
    pub ctx: &'ctx SolverContext,
    pub node: &'g Node,
    /// The number of the first variable of this node.
    pub first_var: usize,
    pub input_keys: KeyTable<'ctx>,
    pub output_keys: KeyTable<'ctx>,
    pub transition_constraints: Vec<BoolTerm<'ctx>>,
    pub schema_constraints: Vec<BoolTerm<'ctx>>,
}

/// The input key names of each of `children`, in order.
pub open spec fn child_names(children: Seq<&NodeAST<'_, '_>>) -> Seq<Seq<KeyName>> {
    Seq::new(children.len(), |i: int| children[i].input_keys.names())
}

/// How many variables the encoding of a node takes: one for each input key
/// and one for each output key.
pub open spec fn variables_needed(node: &Node, children: Seq<&NodeAST<'_, '_>>) -> nat {
    let outputs = demanded(child_names(children));
    input_names(node.required_inputs@, node.output_schema.dynamic_keys@, outputs).len()
        + outputs.len()
}

impl<'ctx, 'g> NodeAST<'ctx, 'g> {
    /// The tables are in order, no list is longer than there are
    /// variables, and every term belongs to the node's session.
    pub open spec fn wf(&self) -> bool {
        &&& self.input_keys.wf(self.ctx.id())
        &&& self.output_keys.wf(self.ctx.id())
        &&& self.input_keys.names().len() <= VARIABLE_LIMIT
        &&& self.output_keys.names().len() <= VARIABLE_LIMIT
        &&& self.schema_constraints@.len() <= VARIABLE_LIMIT
        &&& all_at(self.transition_constraints@, self.ctx.id())
        &&& all_at(self.schema_constraints@, self.ctx.id())
    }

    /// The number of every variable of the node lies from `low` up to but
    /// not including `high`.
    pub open spec fn within(&self, low: int, high: int) -> bool {
        &&& forall|j: int|
            0 <= j < self.input_keys.vars@.len() ==> low <= #[trigger] self.input_keys.vars@[j]
                < high
        &&& forall|j: int|
            0 <= j < self.output_keys.vars@.len() ==> low <= #[trigger] self.output_keys.vars@[j]
                < high
    }

    /// `self` is the encoding of its node above the successors `children`,
    /// with the variables numbered from `first_var` on: first the required
    /// inputs, then the output keys, then the input keys that only rules
    /// name.
    pub open spec fn encodes(&self, children: Seq<&NodeAST<'_, '_>>) -> bool {
        let base = self.first_var as int;
        let outputs = demanded(child_names(children));
        let required = required_names(self.node.required_inputs@);
        let rules = self.node.output_schema.dynamic_keys@;
        let fixed = key_names(self.node.output_schema.fixed_keys@);
        let inputs = self.input_keys.names();
        &&& self.output_keys.names() == outputs
        &&& inputs == input_names(self.node.required_inputs@, rules, outputs)
        &&& base + inputs.len() + outputs.len() <= VARIABLE_LIMIT
        &&& counting(self.input_keys.vars@, base, 0, required.len() as int)
        &&& counting(
            self.input_keys.vars@,
            base + outputs.len(),
            required.len() as int,
            inputs.len() as int,
        )
        &&& counting(self.output_keys.vars@, base + required.len(), 0, outputs.len() as int)
        &&& self.transition_constraints@.len() == children.len()
        &&& forall|i: int|
            0 <= i < children.len() ==> (#[trigger] self.transition_constraints@[i])@ == link(
                children[i].input_keys.names(),
                children[i].input_keys.vars@,
                outputs,
                self.output_keys.vars@,
            )
        &&& self.schema_constraints@.len() == outputs.len()
        &&& forall|j: int|
            0 <= j < outputs.len() ==> (#[trigger] self.schema_constraints@[j])@ == Formula::Iff(
                Box::new(Formula::Var(self.output_keys.vars@[j])),
                Box::new(either(choices(fixed, rules, outputs[j], inputs, self.input_keys.vars@))),
            )
    }
}

/// Gives each name of `names` that `table` does not hold yet the next
/// variable of `registry`. False, with the registry used up, where the
/// registry has fewer variables than new names.
fn admit_all<'ctx>(
    ctx: &'ctx SolverContext,
    registry: &mut SymbolFactory,
    table: &mut KeyTable<'ctx>,
    names: &Vec<String>,
    site: &'static str,
    Ghost(from): Ghost<int>,
    Ghost(lo): Ghost<int>,
) -> (ok: bool)
    requires
        old(table).wf(ctx.id()),
        old(registry).wf(),
        0 <= lo <= old(table).names().len(),
        counting(old(table).vars@, from, lo, old(table).names().len() as int),
        old(registry).count() == from + old(table).names().len(),
    ensures
        final(table).wf(ctx.id()),
        final(registry).wf(),
        leads(old(table).names(), final(table).names()),
        forall|j: int| 0 <= j < old(table).names().len() ==> final(table).vars@[j] == old(table).vars@[j],
        ok ==> final(table).names() == extend(old(table).names(), key_names(names@)),
        ok ==> counting(final(table).vars@, from, lo, final(table).names().len() as int),
        ok ==> final(registry).count() == from + final(table).names().len(),
        ok ==> final(registry).origins() == old(registry).origins() + origins_at(
            site,
            final(table).names().len() - old(table).names().len(),
        ),
        !ok ==> final(registry).count() == VARIABLE_LIMIT,
        !ok ==> from + extend(old(table).names(), key_names(names@)).len() > VARIABLE_LIMIT,
{
    let ghost all = key_names(names@);
    let ghost start = old(table).names();
    let mut i: usize = 0;
    while i < names.len()
        invariant
            i <= names.len(),
            all == key_names(names@),
            start == old(table).names(),
            old(table).wf(ctx.id()),
            table.wf(ctx.id()),
            registry.wf(),
            0 <= lo <= start.len(),
            leads(start, table.names()),
            forall|j: int| 0 <= j < start.len() ==> table.vars@[j] == old(table).vars@[j],
            table.names() == extend(start, all.take(i as int)),
            counting(table.vars@, from, lo, table.names().len() as int),
            registry.count() == from + table.names().len(),
            registry.origins() == old(registry).origins() + origins_at(
                site,
                table.names().len() - start.len(),
            ),
        decreases names.len() - i,
    {
        let ghost before = table.names();
        let placed = table.ensure(ctx, registry, names[i].as_str(), site);
        proof {
            assert(all.take(i + 1) =~= all.take(i as int).push(all[i as int]));
            lemma_extend_push(start, all.take(i as int), all[i as int]);
            lemma_with_name(before, all[i as int]);
        }
        if placed.is_none() {
            proof {
                lemma_extend_take(start, all, i + 1);
            }
            return false;
        }
        proof {
            lemma_leads_trans(start, before, table.names());
        }
        i = i + 1;
    }
    assert(all.take(names.len() as int) =~= all);
    true
}


/// The conjunction of `parts`: the constant true where there is none.
pub fn conjunction<'ctx>(ctx: &'ctx SolverContext, parts: &Vec<BoolTerm<'ctx>>) -> (r: BoolTerm<
    'ctx,
>)
    requires
        parts.len() <= TERM_LIMIT,
        all_at(parts@, ctx.id()),
    ensures
        r@ == all_of(views(parts@)),
        r.home() == ctx.id(),
{
    if parts.len() == 0 {
        term_lit(ctx, true)
    } else {
        term_and(ctx, parts)
    }
}

/// The disjunction of `parts`: the constant false where there is none.
pub fn disjunction<'ctx>(ctx: &'ctx SolverContext, parts: &Vec<BoolTerm<'ctx>>) -> (r: BoolTerm<
    'ctx,
>)
    requires
        parts.len() <= TERM_LIMIT,
        all_at(parts@, ctx.id()),
    ensures
        r@ == either(views(parts@)),
        r.home() == ctx.id(),
{
    if parts.len() == 0 {
        term_lit(ctx, false)
    } else {
        term_or(ctx, parts)
    }
}

/// The formula that says when the edge to the successor with the input
/// keys `child` is taken, over the output keys `outputs` of the node.
fn link_child<'ctx>(ctx: &'ctx SolverContext, child: &KeyTable<'ctx>, outputs: &KeyTable<'ctx>) -> (r:
    BoolTerm<'ctx>)
    requires
        child.wf(ctx.id()),
        child.names().len() <= VARIABLE_LIMIT,
        outputs.wf(ctx.id()),
        forall|j: int|
            0 <= j < child.names().len() ==> outputs.names().contains(#[trigger] child.names()[j]),
    ensures
        r@ == link(child.names(), child.vars@, outputs.names(), outputs.vars@),
        r.home() == ctx.id(),
{
    let mut parts: Vec<BoolTerm<'ctx>> = Vec::new();
    let mut j: usize = 0;
    while j < child.len()
        invariant
            j <= child.names().len(),
            child.wf(ctx.id()),
            child.names().len() <= VARIABLE_LIMIT,
            outputs.wf(ctx.id()),
            forall|t: int|
                0 <= t < child.names().len() ==> outputs.names().contains(
                    #[trigger] child.names()[t],
                ),
            parts@.len() == j,
            all_at(parts@, ctx.id()),
            forall|t: int|
                0 <= t < j ==> (#[trigger] parts@[t])@ == same_truth(
                    child.vars@[t],
                    var_at(outputs.names(), outputs.vars@, child.names()[t]),
                ),
        decreases child.names().len() - j,
    {
        let at = outputs.position(child.name_at(j).as_str());
        proof {
            lemma_index_of(outputs.names(), at as int);
        }
        let both = term_iff(&child.terms[j], &outputs.terms[at]);
        parts.push(both);
        j = j + 1;
    }
    assert(views(parts@) =~= Seq::new(
        child.names().len(),
        |t: int|
            same_truth(child.vars@[t], var_at(outputs.names(), outputs.vars@, child.names()[t])),
    ));
    conjunction(ctx, &parts)
}

/// The formula that says when the output key at position `j` of `outputs`
/// is produced by a node with this schema and the input keys `inputs`.
fn schema_constraint<'ctx>(
    ctx: &'ctx SolverContext,
    schema: &OutputSchema,
    inputs: &KeyTable<'ctx>,
    outputs: &KeyTable<'ctx>,
    j: usize,
) -> (r: BoolTerm<'ctx>)
    requires
        inputs.wf(ctx.id()),
        outputs.wf(ctx.id()),
        j < outputs.names().len(),
        schema.dynamic_keys@.len() < TERM_LIMIT,
        forall|k: int|
            0 <= k < schema.dynamic_keys@.len() && (#[trigger] justification(
                schema.dynamic_keys@[k].0,
                schema.dynamic_keys@[k].1,
                outputs.names()[j as int],
            )) is Input ==> inputs.names().contains(
                justification(
                    schema.dynamic_keys@[k].0,
                    schema.dynamic_keys@[k].1,
                    outputs.names()[j as int],
                )->Input_0,
            ),
    ensures
        r@ == Formula::Iff(
            Box::new(Formula::Var(outputs.vars@[j as int])),
            Box::new(
                either(
                    choices(
                        key_names(schema.fixed_keys@),
                        schema.dynamic_keys@,
                        outputs.names()[j as int],
                        inputs.names(),
                        inputs.vars@,
                    ),
                ),
            ),
        ),
        r.home() == ctx.id(),
{
    let key = outputs.name_at(j).as_str();
    let rules = &schema.dynamic_keys;
    let ghost names = inputs.names();
    let ghost vars = inputs.vars@;
    let mut parts: Vec<BoolTerm<'ctx>> = Vec::new();
    let is_fixed = holds_name(&schema.fixed_keys, key);
    if is_fixed {
        parts.push(term_lit(ctx, true));
    }
    let ghost first = views(parts@);
    assert(first =~= if is_fixed {
        seq![Formula::Lit(true)]
    } else {
        Seq::empty()
    });
    let mut k: usize = 0;
    while k < rules.len()
        invariant
            k <= rules.len(),
            inputs.wf(ctx.id()),
            names == inputs.names(),
            vars == inputs.vars@,
            rules == &schema.dynamic_keys,
            rules@.len() < TERM_LIMIT,
            parts@.len() <= k + 1,
            key@ == outputs.names()[j as int],
            forall|t: int|
                0 <= t < rules@.len() && (#[trigger] justification(
                    rules@[t].0,
                    rules@[t].1,
                    key@,
                )) is Input ==> names.contains(
                    justification(rules@[t].0, rules@[t].1, key@)->Input_0,
                ),
            all_at(parts@, ctx.id()),
            views(parts@) == first + rule_choices(rules@.take(k as int), key@, names, vars),
        decreases rules.len() - k,
    {
        let how = justify(&rules[k].0, &rules[k].1, key);
        let ghost before = views(parts@);
        proof {
            assert(rules@.take(k + 1).drop_last() =~= rules@.take(k as int));
        }
        match how {
            Justify::Never => {},
            Justify::Always => {
                parts.push(term_lit(ctx, true));
                assert(views(parts@) =~= before.push(Formula::Lit(true)));
            },
            Justify::Input(name) => {
                let at = inputs.position(name.as_str());
                proof {
                    lemma_index_of(names, at as int);
                }
                parts.push(term_clone(&inputs.terms[at]));
                assert(views(parts@) =~= before.push(
                    Formula::Var(var_at(names, vars, name@)),
                ));
            },
        }
        k = k + 1;
    }
    assert(rules@.take(rules.len() as int) =~= rules@);
    let body = disjunction(ctx, &parts);
    term_iff(&outputs.terms[j], &body)
}

impl<'ctx, 'g> NodeAST<'ctx, 'g> {
    /// Encodes `node`, whose successors in `graph` have the encodings
    /// `children_ast`, one per outgoing edge and in edge order. The
    /// variables come from `registry`.
    pub fn new(
        ctx: &'ctx SolverContext,
        registry: &mut SymbolFactory,
        node: &'g Node,
        graph: &'g WorkflowGraph,
        children_ast: &[&NodeAST<'ctx, 'g>],
    ) -> (r: Result<Self, EncodeError>)
        requires
            old(registry).wf(),
            node.id < graph.adj_list.len(),
            graph.adj_list[node.id as int].len() == children_ast@.len(),
            node.output_schema.dynamic_keys@.len() < TERM_LIMIT,
            forall|i: int|
                0 <= i < children_ast@.len() ==> (#[trigger] children_ast@[i]).wf()
                    && children_ast@[i].ctx.id() == ctx.id() && children_ast@[i].within(
                    0,
                    old(registry).count() as int,
                ),
        ensures
            final(registry).wf(),
            r matches Ok(ast) ==> ast.within(
                old(registry).count() as int,
                final(registry).count() as int,
            ),
            r is Err <==> old(registry).count() + variables_needed(node, children_ast@)
                > VARIABLE_LIMIT,
            r is Err ==> final(registry).count() == VARIABLE_LIMIT,
            r matches Ok(ast) ==> ast.wf() && ast.ctx == ctx && ast.node == node && ast.first_var
                == old(registry).count() && ast.encodes(children_ast@) && final(registry).count()
                == old(registry).count() + variables_needed(node, children_ast@),
            r matches Ok(ast) ==> final(registry).origins() == old(registry).origins() + origins_at(
                REQUIRED_INPUT,
                required_names(node.required_inputs@).len() as int,
            ) + origins_at(DEMANDED_OUTPUT, ast.output_keys.names().len() as int) + origins_at(
                RULE_INPUT,
                ast.input_keys.names().len() - required_names(node.required_inputs@).len(),
            ),
    {
        let first_var = get_symbol_count(registry);
        let ghost base = first_var as int;
        let ghost kids = child_names(children_ast@);
        let ghost outs = demanded(kids);
        let ghost required = required_names(node.required_inputs@);
        let ghost rules = node.output_schema.dynamic_keys@;
        let ghost ins = input_names(node.required_inputs@, rules, outs);
        proof {
            lemma_with_references(required, rules, outs);
            lemma_demanded(kids);
            lemma_extend(Seq::empty(), key_names(node.required_inputs@));
        }
        // A variable for each required input.
        let mut input_keys = KeyTable::new();
        if !admit_all(
            ctx,
            registry,
            &mut input_keys,
            &node.required_inputs,
            REQUIRED_INPUT,
            Ghost(base),
            Ghost(0),
        ) {
            return Err(EncodeError::OutOfVariables);
        }
        // A variable for each input key of a successor, as an output key.
        let mut output_keys = KeyTable::new();
        let mut i: usize = 0;
        while i < children_ast.len()
            invariant
                i <= children_ast@.len(),
                base == old(registry).count(),
                kids == child_names(children_ast@),
                outs == demanded(kids),
                rules == node.output_schema.dynamic_keys@,
                ins == input_names(node.required_inputs@, rules, outs),
                forall|t: int|
                    0 <= t < children_ast@.len() ==> (#[trigger] children_ast@[t]).wf()
                        && children_ast@[t].ctx.id() == ctx.id(),
                output_keys.wf(ctx.id()),
                registry.wf(),
                output_keys.names() == demanded(kids.take(i as int)),
                counting(
                    output_keys.vars@,
                    base + required.len(),
                    0,
                    output_keys.names().len() as int,
                ),
                registry.count() == base + required.len() + output_keys.names().len(),
                registry.origins() == old(registry).origins() + origins_at(
                    REQUIRED_INPUT,
                    required.len() as int,
                ) + origins_at(DEMANDED_OUTPUT, output_keys.names().len() as int),
                required.len() <= ins.len(),
            decreases children_ast@.len() - i,
        {
            let ghost had = output_keys.names().len() as int;
            let child: &NodeAST<'ctx, 'g> = children_ast[i];
            proof {
                assert(kids.take(i + 1).drop_last() =~= kids.take(i as int));
                lemma_demanded_take(kids, i + 1);
            }
            if !admit_all(
                ctx,
                registry,
                &mut output_keys,
                &child.input_keys.keys.names,
                DEMANDED_OUTPUT,
                Ghost(base + required.len()),
                Ghost(0),
            ) {
                return Err(EncodeError::OutOfVariables);
            }
            proof {
                lemma_origins_at(DEMANDED_OUTPUT, had, output_keys.names().len() - had);
            }
            i = i + 1;
        }
        assert(kids.take(children_ast@.len() as int) =~= kids);
        // A variable for each input key that a rule names for an output key.
        let ghost seeded = input_keys.vars@;
        let mut j: usize = 0;
        while j < output_keys.len()
            invariant
                j <= outs.len(),
                base == old(registry).count(),
                outs == output_keys.names(),
                outs == demanded(child_names(children_ast@)),
                rules == node.output_schema.dynamic_keys@,
                required == required_names(node.required_inputs@),
                ins == input_names(node.required_inputs@, rules, outs),
                input_keys.wf(ctx.id()),
                output_keys.wf(ctx.id()),
                registry.wf(),
                input_keys.names() == with_references(required, rules, outs.take(j as int)),
                required.len() <= input_keys.names().len(),
                seeded.len() == required.len(),
                forall|t: int| 0 <= t < required.len() ==> input_keys.vars@[t] == seeded[t],
                counting(
                    input_keys.vars@,
                    base + outs.len(),
                    required.len() as int,
                    input_keys.names().len() as int,
                ),
                registry.count() == base + outs.len() + input_keys.names().len(),
                registry.origins() == old(registry).origins() + origins_at(
                    REQUIRED_INPUT,
                    required.len() as int,
                ) + origins_at(DEMANDED_OUTPUT, outs.len() as int) + origins_at(
                    RULE_INPUT,
                    input_keys.names().len() - required.len(),
                ),
            decreases outs.len() - j,
        {
            let ghost had = input_keys.names().len() - required.len();
            let named = references(&node.output_schema.dynamic_keys, output_keys.name_at(j).as_str());
            proof {
                assert(outs.take(j + 1).drop_last() =~= outs.take(j as int));
                lemma_with_references_take(required, rules, outs, j + 1);
            }
            if !admit_all(
                ctx,
                registry,
                &mut input_keys,
                &named,
                RULE_INPUT,
                Ghost(base + outs.len()),
                Ghost(required.len() as int),
            ) {
                return Err(EncodeError::OutOfVariables);
            }
            proof {
                lemma_origins_at(RULE_INPUT, had, input_keys.names().len() - required.len() - had);
            }
            j = j + 1;
        }
        assert(outs.take(outs.len() as int) =~= outs);
        // When each edge is taken.
        let mut transition_constraints: Vec<BoolTerm<'ctx>> = Vec::new();
        let mut i: usize = 0;
        while i < children_ast.len()
            invariant
                i <= children_ast@.len(),
                kids == child_names(children_ast@),
                outs == demanded(kids),
                outs == output_keys.names(),
                forall|t: int, x: KeyName|
                    0 <= t < kids.len() && #[trigger] kids[t].contains(x) ==> outs.contains(x),
                forall|t: int|
                    0 <= t < children_ast@.len() ==> (#[trigger] children_ast@[t]).wf()
                        && children_ast@[t].ctx.id() == ctx.id(),
                output_keys.wf(ctx.id()),
                transition_constraints@.len() == i,
                all_at(transition_constraints@, ctx.id()),
                forall|t: int|
                    0 <= t < i ==> (#[trigger] transition_constraints@[t])@ == link(
                        children_ast@[t].input_keys.names(),
                        children_ast@[t].input_keys.vars@,
                        outs,
                        output_keys.vars@,
                    ),
            decreases children_ast@.len() - i,
        {
            let child: &NodeAST<'ctx, 'g> = children_ast[i];
            assert forall|t: int| 0 <= t < child.input_keys.names().len() implies outs.contains(
                #[trigger] child.input_keys.names()[t],
            ) by {
                assert(kids[i as int].contains(child.input_keys.names()[t]));
            }
            transition_constraints.push(link_child(ctx, &child.input_keys, &output_keys));
            i = i + 1;
        }
        // When each output key is produced.
        let mut schema_constraints: Vec<BoolTerm<'ctx>> = Vec::new();
        let mut j: usize = 0;
        while j < output_keys.len()
            invariant
                j <= outs.len(),
                outs == output_keys.names(),
                rules == node.output_schema.dynamic_keys@,
                rules.len() < TERM_LIMIT,
                input_keys.names() == with_references(required, rules, outs),
                input_keys.wf(ctx.id()),
                output_keys.wf(ctx.id()),
                schema_constraints@.len() == j,
                all_at(schema_constraints@, ctx.id()),
                forall|t: int|
                    0 <= t < j ==> (#[trigger] schema_constraints@[t])@ == Formula::Iff(
                        Box::new(Formula::Var(output_keys.vars@[t])),
                        Box::new(
                            either(
                                choices(
                                    key_names(node.output_schema.fixed_keys@),
                                    rules,
                                    outs[t],
                                    input_keys.names(),
                                    input_keys.vars@,
                                ),
                            ),
                        ),
                    ),
            decreases outs.len() - j,
        {
            assert forall|k: int|
                0 <= k < rules.len() && (#[trigger] justification(
                    rules[k].0,
                    rules[k].1,
                    outs[j as int],
                )) is Input implies input_keys.names().contains(
                justification(rules[k].0, rules[k].1, outs[j as int])->Input_0,
            ) by {
                lemma_referenced_holds(rules, outs[j as int], k);
                lemma_with_references(required, rules, outs);
            }
            schema_constraints.push(
                schema_constraint(ctx, &node.output_schema, &input_keys, &output_keys, j),
            );
            j = j + 1;
        }
        let ast = Self {
            ctx,
            node,
            first_var,
            input_keys,
            output_keys,
            transition_constraints,
            schema_constraints,
        };
        proof {
            assert forall|t: int| 0 <= t < required.len() implies #[trigger] ast.input_keys.vars@[t]
                == base + t by {
                assert(ast.input_keys.vars@[t] == seeded[t]);
            }
        }
        Ok(ast)
    }
}

/// The encoding of a node is a function of the node, of the key tables of
/// its successors and of the number of its first variable: two encodings
/// that agree in these have the same keys with the same variables and say
/// the same formulas.
pub proof fn lemma_encoding_determined(
    one: NodeAST<'_, '_>,
    other: NodeAST<'_, '_>,
    children_one: Seq<&NodeAST<'_, '_>>,
    children_other: Seq<&NodeAST<'_, '_>>,
)
    requires
        one.wf(),
        other.wf(),
        one.encodes(children_one),
        other.encodes(children_other),
        one.first_var == other.first_var,
        key_names(one.node.required_inputs@) == key_names(other.node.required_inputs@),
        key_names(one.node.output_schema.fixed_keys@) == key_names(
            other.node.output_schema.fixed_keys@,
        ),
        one.node.output_schema.dynamic_keys@ == other.node.output_schema.dynamic_keys@,
        children_one.len() == children_other.len(),
        forall|i: int|
            0 <= i < children_one.len() ==> (#[trigger] children_one[i]).input_keys.names()
                == children_other[i].input_keys.names() && children_one[i].input_keys.vars@
                == children_other[i].input_keys.vars@,
    ensures
        one.input_keys.names() == other.input_keys.names(),
        one.input_keys.vars@ == other.input_keys.vars@,
        one.output_keys.names() == other.output_keys.names(),
        one.output_keys.vars@ == other.output_keys.vars@,
        views(one.transition_constraints@) == views(other.transition_constraints@),
        views(one.schema_constraints@) == views(other.schema_constraints@),
{
    assert(child_names(children_one) =~= child_names(children_other));
    let outputs = demanded(child_names(children_one));
    let required = required_names(one.node.required_inputs@);
    assert(one.input_keys.vars@ =~= other.input_keys.vars@) by {
        assert forall|j: int| 0 <= j < one.input_keys.vars@.len() implies one.input_keys.vars@[j]
            == other.input_keys.vars@[j] by {
            if j < required.len() {
            } else {
            }
        }
    }
    assert(one.output_keys.vars@ =~= other.output_keys.vars@) by {
        assert forall|j: int| 0 <= j < one.output_keys.vars@.len() implies one.output_keys.vars@[j]
            == other.output_keys.vars@[j] by {
        }
    }
}

} // verus!
