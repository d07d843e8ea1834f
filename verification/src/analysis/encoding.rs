//! What the encoding of one node is, as mathematics: which keys get a
//! variable and in which order, and which rule justifies which output key.

use vstd::prelude::*;
use crate::workflow::schema::distinct_names;
use crate::workflow::schema::InputCond;
use crate::workflow::schema::key_names;
use crate::workflow::schema::KeyName;
use crate::workflow::schema::KeyRule;
use crate::workflow::schema::with_name;

verus! {

/// `acc` followed by the names of `more` that are new, each at its first
/// occurrence.
pub open spec fn extend(acc: Seq<KeyName>, more: Seq<KeyName>) -> Seq<KeyName>
    decreases more.len(),
{
    if more.len() == 0 {
        acc
    } else {
        with_name(extend(acc, more.drop_last()), more.last())
    }
}

/// The output keys that the successors ask of a node: the input keys of its
/// successors, in edge order, each name once.
pub open spec fn demanded(children: Seq<Seq<KeyName>>) -> Seq<KeyName>
    decreases children.len(),
{
    if children.len() == 0 {
        Seq::empty()
    } else {
        extend(demanded(children.drop_last()), children.last())
    }
}

/// `head` is the beginning of `whole`.
pub open spec fn leads(head: Seq<KeyName>, whole: Seq<KeyName>) -> bool {
    &&& head.len() <= whole.len()
    &&& forall|i: int| 0 <= i < head.len() ==> whole[i] == head[i]
}

/// `prefix` is the beginning of `key`.
pub open spec fn is_prefix(prefix: KeyName, key: KeyName) -> bool {
    prefix.len() <= key.len() && key.subrange(0, prefix.len() as int) == prefix
}

/// How a dynamic rule bears on one output key.
pub enum Justification {
    /// The rule cannot produce the key.
    Never,
    /// The rule produces the key whatever the inputs are.
    Always,
    /// The rule produces the key where the input key of this name is there.
    Input(KeyName),
}

/// How the rule `rule` under the condition `cond` bears on the output key
/// `key`. The value of a key-value condition plays no part.
pub open spec fn justification(rule: KeyRule, cond: InputCond, key: KeyName) -> Justification {
    match rule {
        KeyRule::Identity => match cond {
            InputCond::Always => Justification::Input(key),
            InputCond::MatchesKey(k) => if k@ == key {
                Justification::Input(key)
            } else {
                Justification::Never
            },
            InputCond::MatchesKeyValue(k, _) => if k@ == key {
                Justification::Input(key)
            } else {
                Justification::Never
            },
        },
        KeyRule::Fixed(name) => if name@ == key {
            match cond {
                InputCond::Always => Justification::Always,
                InputCond::MatchesKey(k) => Justification::Input(k@),
                InputCond::MatchesKeyValue(k, _) => Justification::Input(k@),
            }
        } else {
            Justification::Never
        },
        KeyRule::IdWithPrefix(prefix) => if is_prefix(prefix@, key) {
            let rest = key.subrange(prefix@.len() as int, key.len() as int);
            match cond {
                InputCond::Always => Justification::Input(rest),
                InputCond::MatchesKey(k) => if k@ == rest {
                    Justification::Input(rest)
                } else {
                    Justification::Never
                },
                InputCond::MatchesKeyValue(k, _) => if k@ == rest {
                    Justification::Input(rest)
                } else {
                    Justification::Never
                },
            }
        } else {
            Justification::Never
        },
    }
}

/// `cond` without the value that it may ask of its key.
pub open spec fn key_alone(cond: InputCond) -> InputCond {
    match cond {
        InputCond::MatchesKeyValue(k, _) => InputCond::MatchesKey(k),
        _ => cond,
    }
}

/// The value of a key-value condition plays no part: the condition bears on
/// every key as the condition on its key alone does.
pub proof fn lemma_value_plays_no_part(rule: KeyRule, cond: InputCond, key: KeyName)
    ensures
        justification(rule, cond, key) == justification(rule, key_alone(cond), key),
{
}

/// The input keys that the rules name for the output key `key`, in rule
/// order.
pub open spec fn referenced(rules: Seq<(KeyRule, InputCond)>, key: KeyName) -> Seq<KeyName>
    decreases rules.len(),
{
    if rules.len() == 0 {
        Seq::empty()
    } else {
        let before = referenced(rules.drop_last(), key);
        match justification(rules.last().0, rules.last().1, key) {
            Justification::Input(name) => before.push(name),
            _ => before,
        }
    }
}

/// `acc` extended by the input keys that the rules name for each of `keys`
/// in turn.
pub open spec fn with_references(
    acc: Seq<KeyName>,
    rules: Seq<(KeyRule, InputCond)>,
    keys: Seq<KeyName>,
) -> Seq<KeyName>
    decreases keys.len(),
{
    if keys.len() == 0 {
        acc
    } else {
        extend(with_references(acc, rules, keys.drop_last()), referenced(rules, keys.last()))
    }
}

/// The required inputs, each name once.
pub open spec fn required_names(required: Seq<String>) -> Seq<KeyName> {
    extend(Seq::empty(), key_names(required))
}

/// The input keys of a node with the given required inputs and rules whose
/// successors ask for `outputs`.
pub open spec fn input_names(
    required: Seq<String>,
    rules: Seq<(KeyRule, InputCond)>,
    outputs: Seq<KeyName>,
) -> Seq<KeyName> {
    with_references(required_names(required), rules, outputs)
}

/// `vars[j]` is `from + j` for every `j` from `lo` up to `hi`.
pub open spec fn counting(vars: Seq<u32>, from: int, lo: int, hi: int) -> bool {
    forall|j: int| lo <= j < hi ==> #[trigger] vars[j] == from + j
}

/// The beginning of a beginning is a beginning.
pub proof fn lemma_leads_trans(a: Seq<KeyName>, b: Seq<KeyName>, c: Seq<KeyName>)
    requires
        leads(a, b),
        leads(b, c),
    ensures
        leads(a, c),
{
}

/// Adding a name keeps what was there, holds the name afterwards, and
/// repeats none.
pub proof fn lemma_with_name(acc: Seq<KeyName>, name: KeyName)
    ensures
        leads(acc, with_name(acc, name)),
        with_name(acc, name).contains(name),
        distinct_names(acc) ==> distinct_names(with_name(acc, name)),
        with_name(acc, name).len() <= acc.len() + 1,
        forall|x: KeyName| acc.contains(x) ==> with_name(acc, name).contains(x),
{
    let w = with_name(acc, name);
    if acc.contains(name) {
    } else {
        assert(w[acc.len() as int] == name);
        assert forall|x: KeyName| acc.contains(x) implies w.contains(x) by {
            let i = choose|i: int| 0 <= i < acc.len() && acc[i] == x;
            assert(w[i] == x);
        }
    }
}

/// Extending by one more name is adding that name at the end.
pub proof fn lemma_extend_push(acc: Seq<KeyName>, more: Seq<KeyName>, name: KeyName)
    ensures
        extend(acc, more.push(name)) == with_name(extend(acc, more), name),
{
    assert(more.push(name).drop_last() =~= more);
}

/// Extending keeps what was there, holds every new name afterwards, and
/// repeats none.
pub proof fn lemma_extend(acc: Seq<KeyName>, more: Seq<KeyName>)
    ensures
        leads(acc, extend(acc, more)),
        distinct_names(acc) ==> distinct_names(extend(acc, more)),
        forall|x: KeyName| acc.contains(x) || more.contains(x) ==> extend(acc, more).contains(x),
    decreases more.len(),
{
    if more.len() > 0 {
        let before = extend(acc, more.drop_last());
        lemma_extend(acc, more.drop_last());
        lemma_with_name(before, more.last());
        assert forall|x: KeyName| acc.contains(x) || more.contains(x) implies extend(
            acc,
            more,
        ).contains(x) by {
            if more.contains(x) && !acc.contains(x) {
                let i = choose|i: int| 0 <= i < more.len() && more[i] == x;
                if i < more.len() - 1 {
                    assert(more.drop_last()[i] == x);
                }
            }
        }
    }
}

/// Extending by a beginning of `more` gives a beginning of extending by
/// `more`.
pub proof fn lemma_extend_take(acc: Seq<KeyName>, more: Seq<KeyName>, n: int)
    requires
        0 <= n <= more.len(),
    ensures
        leads(extend(acc, more.take(n)), extend(acc, more)),
    decreases more.len(),
{
    if n == more.len() {
        assert(more.take(n) =~= more);
    } else {
        lemma_extend_take(acc, more.drop_last(), n);
        assert(more.drop_last().take(n) =~= more.take(n));
        lemma_with_name(extend(acc, more.drop_last()), more.last());
    }
}

/// What the successors ask for holds each of their input keys once.
pub proof fn lemma_demanded(children: Seq<Seq<KeyName>>)
    ensures
        distinct_names(demanded(children)),
        forall|i: int, x: KeyName|
            0 <= i < children.len() && #[trigger] children[i].contains(x) ==> demanded(
                children,
            ).contains(x),
    decreases children.len(),
{
    if children.len() > 0 {
        lemma_demanded(children.drop_last());
        lemma_extend(demanded(children.drop_last()), children.last());
        assert forall|i: int, x: KeyName|
            0 <= i < children.len() && #[trigger] children[i].contains(x) implies demanded(
            children,
        ).contains(x) by {
            if i < children.len() - 1 {
                assert(children.drop_last()[i].contains(x));
            }
        }
    }
}

/// What the first `n` successors ask for is a beginning of what all ask for.
pub proof fn lemma_demanded_take(children: Seq<Seq<KeyName>>, n: int)
    requires
        0 <= n <= children.len(),
    ensures
        leads(demanded(children.take(n)), demanded(children)),
    decreases children.len(),
{
    if n == children.len() {
        assert(children.take(n) =~= children);
    } else {
        lemma_demanded_take(children.drop_last(), n);
        assert(children.drop_last().take(n) =~= children.take(n));
        lemma_extend(demanded(children.drop_last()), children.last());
    }
}

/// One more rule adds the input key it names, if it names one.
pub proof fn lemma_referenced_push(
    rules: Seq<(KeyRule, InputCond)>,
    rule: (KeyRule, InputCond),
    key: KeyName,
)
    ensures
        referenced(rules.push(rule), key) == match justification(rule.0, rule.1, key) {
            Justification::Input(name) => referenced(rules, key).push(name),
            _ => referenced(rules, key),
        },
{
    assert(rules.push(rule).drop_last() =~= rules);
}

/// A rule that names an input key for `key` has that name among the
/// referenced ones.
pub proof fn lemma_referenced_holds(rules: Seq<(KeyRule, InputCond)>, key: KeyName, k: int)
    requires
        0 <= k < rules.len(),
        justification(rules[k].0, rules[k].1, key) is Input,
    ensures
        referenced(rules, key).contains(justification(rules[k].0, rules[k].1, key)->Input_0),
    decreases rules.len(),
{
    let name = justification(rules[k].0, rules[k].1, key)->Input_0;
    let before = referenced(rules.drop_last(), key);
    if k == rules.len() - 1 {
        assert(before.push(name)[before.len() as int] == name);
    } else {
        lemma_referenced_holds(rules.drop_last(), key, k);
        let i = choose|i: int| 0 <= i < before.len() && before[i] == name;
        assert(referenced(rules, key)[i] == name);
    }
}

/// The references keep what was there, hold every name that a rule names
/// for one of the keys, and repeat none.
pub proof fn lemma_with_references(
    acc: Seq<KeyName>,
    rules: Seq<(KeyRule, InputCond)>,
    keys: Seq<KeyName>,
)
    ensures
        leads(acc, with_references(acc, rules, keys)),
        distinct_names(acc) ==> distinct_names(with_references(acc, rules, keys)),
        forall|j: int, x: KeyName|
            0 <= j < keys.len() && #[trigger] referenced(rules, keys[j]).contains(x)
                ==> with_references(acc, rules, keys).contains(x),
    decreases keys.len(),
{
    if keys.len() > 0 {
        let before = with_references(acc, rules, keys.drop_last());
        lemma_with_references(acc, rules, keys.drop_last());
        lemma_extend(before, referenced(rules, keys.last()));
        assert forall|j: int, x: KeyName|
            0 <= j < keys.len() && #[trigger] referenced(rules, keys[j]).contains(
                x,
            ) implies with_references(acc, rules, keys).contains(x) by {
            if j < keys.len() - 1 {
                assert(keys.drop_last()[j] == keys[j]);
            }
        }
    }
}

/// The references of the first `n` keys give a beginning of those of all.
pub proof fn lemma_with_references_take(
    acc: Seq<KeyName>,
    rules: Seq<(KeyRule, InputCond)>,
    keys: Seq<KeyName>,
    n: int,
)
    requires
        0 <= n <= keys.len(),
    ensures
        leads(with_references(acc, rules, keys.take(n)), with_references(acc, rules, keys)),
    decreases keys.len(),
{
    if n == keys.len() {
        assert(keys.take(n) =~= keys);
    } else {
        lemma_with_references_take(acc, rules, keys.drop_last(), n);
        assert(keys.drop_last().take(n) =~= keys.take(n));
        lemma_extend(
            with_references(acc, rules, keys.drop_last()),
            referenced(rules, keys.last()),
        );
    }
}

/// In a list without repetition a name stands at one position only.
pub proof fn lemma_index_of(names: Seq<KeyName>, i: int)
    requires
        distinct_names(names),
        0 <= i < names.len(),
    ensures
        names.index_of(names[i]) == i,
{
    let k = names.index_of(names[i]);
    if k < i {
    } else if i < k {
    }
}

} // verus!
