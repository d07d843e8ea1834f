//! What a node says of the output keys that it can produce.

use vstd::prelude::*;

verus! {

/// The name of an input or output key, as contracts see it.
pub type KeyName = Seq<char>;

/// The names held by a list of owned strings, in order.
pub open spec fn key_names(keys: Seq<String>) -> Seq<KeyName> {
    keys.map_values(|k: String| k@)
}

/// No name occurs twice in `names`.
pub open spec fn distinct_names(names: Seq<KeyName>) -> bool {
    forall|i: int, j: int| 0 <= i < j < names.len() ==> names[i] != names[j]
}

/// Which output key names a dynamic rule can produce.
#[derive(Debug, Clone, PartialEq, Eq)]
pub enum KeyRule {
    /// The output key carries the name of an input key.
    Identity,
    /// The output key is exactly this name.
    Fixed(String),
    /// The output key is this prefix followed by the name of an input key.
    IdWithPrefix(String),
}

/// When a dynamic rule or an edge applies.
#[derive(Debug, Clone, PartialEq, Eq)]
pub enum InputCond {
    /// No restriction beyond the input existing.
    Always,
    /// Only for the input key of this name.
    MatchesKey(String),
    /// Only for the input key of this name holding this value. The value is
    /// carried in the model; the boolean encoding looks at the key alone.
    MatchesKeyValue(String, String),
}

/// Whether `a` and `b` agree before place `i`, where `b` goes on and `a`
/// either ends or holds the character of the smaller code.
pub open spec fn parts_at(a: KeyName, b: KeyName, i: int) -> bool {
    &&& 0 <= i <= a.len()
    &&& i < b.len()
    &&& forall|j: int| 0 <= j < i ==> a[j] == b[j]
    &&& (i == a.len() || (a[i] as u32) < (b[i] as u32))
}

/// Whether `a` stands before `b` in the order of strings: at the first place
/// where they differ `a` holds the character of the smaller code, or `a`
/// ends there and `b` goes on.
pub open spec fn precedes(a: KeyName, b: KeyName) -> bool {
    exists|i: int| parts_at(a, b, i)
}

/// Each name stands before all that follow it; so no name occurs twice.
pub open spec fn ascending(names: Seq<KeyName>) -> bool {
    forall|i: int, j: int| 0 <= i < j < names.len() ==> precedes(names[i], names[j])
}

/// A name that stands before another differs from it and does not stand
/// after it.
pub proof fn lemma_one_way(a: KeyName, b: KeyName)
    requires
        precedes(a, b),
    ensures
        a != b,
        !precedes(b, a),
{
    let i = choose|i: int| parts_at(a, b, i);
    if precedes(b, a) {
        let k = choose|k: int| parts_at(b, a, k);
        if i < k {
            assert(b[i] == a[i]);
        } else if k < i {
            assert(a[k] == b[k]);
        }
    }
}

/// An ascending list holds no name twice.
pub proof fn lemma_ascending_distinct(names: Seq<KeyName>)
    requires
        ascending(names),
    ensures
        distinct_names(names),
{
    assert forall|i: int, j: int| 0 <= i < j < names.len() implies names[i] != names[j] by {
        lemma_one_way(names[i], names[j]);
    }
}

/// What stands before a name stands before all that the name stands before.
pub proof fn lemma_precedes_on(a: KeyName, b: KeyName, c: KeyName)
    requires
        precedes(a, b),
        precedes(b, c),
    ensures
        precedes(a, c),
{
    let i = choose|i: int| parts_at(a, b, i);
    let k = choose|k: int| parts_at(b, c, k);
    if i <= k {
        assert forall|j: int| 0 <= j < i implies a[j] == c[j] by {
            assert(a[j] == b[j]);
            assert(b[j] == c[j]);
        }
        if i < k {
            assert(b[i] == c[i]);
        }
        assert(parts_at(a, c, i));
    } else {
        assert forall|j: int| 0 <= j < k implies a[j] == c[j] by {
            assert(a[j] == b[j]);
            assert(b[j] == c[j]);
        }
        assert(a[k] == b[k]);
        assert(parts_at(a, c, k));
    }
}

/// Two ascending lists that hold the same names are the same list: the names
/// of an ascending list settle it.
pub proof fn lemma_one_order(one: Seq<KeyName>, other: Seq<KeyName>)
    requires
        ascending(one),
        ascending(other),
        forall|name: KeyName| one.contains(name) <==> other.contains(name),
    ensures
        one == other,
    decreases one.len(),
{
    if one.len() == 0 {
        if other.len() > 0 {
            assert(other.contains(other[0]));
        }
        assert(one =~= other);
    } else {
        let top = one.last();
        assert(one.contains(top));
        let at = choose|at: int| 0 <= at < other.len() && other[at] == top;
        if at < other.len() - 1 {
            let more = other.last();
            assert(precedes(other[at], more));
            assert(other.contains(more));
            let back = choose|back: int| 0 <= back < one.len() && one[back] == more;
            lemma_one_way(top, more);
            if back < one.len() - 1 {
                assert(precedes(one[back], top));
            }
        }
        let head = one.drop_last();
        let rest = other.drop_last();
        assert forall|name: KeyName| head.contains(name) <==> rest.contains(name) by {
            if head.contains(name) {
                let i = choose|i: int| 0 <= i < head.len() && head[i] == name;
                assert(precedes(one[i], top));
                lemma_one_way(name, top);
                assert(one.contains(name));
                let k = choose|k: int| 0 <= k < other.len() && other[k] == name;
                assert(rest[k] == name);
            }
            if rest.contains(name) {
                let k = choose|k: int| 0 <= k < rest.len() && rest[k] == name;
                assert(precedes(other[k], top));
                lemma_one_way(name, top);
                assert(other.contains(name));
                let i = choose|i: int| 0 <= i < one.len() && one[i] == name;
                assert(head[i] == name);
            }
        }
        lemma_one_order(head, rest);
        assert(one =~= head.push(top));
        assert(other =~= rest.push(top));
    }
}

/// An ascending list that holds `name` and no other name is `name` alone.
pub proof fn lemma_single(names: Seq<KeyName>, name: KeyName)
    requires
        ascending(names),
        forall|other: KeyName| #[trigger] names.contains(other) <==> other == name,
    ensures
        names == seq![name],
{
    let alone = seq![name];
    assert(alone[0] == name);
    lemma_one_order(names, alone);
}

/// A name put into an ascending list behind the names that stand before it
/// and in front of those that it stands before: the list is still ascending,
/// and holds that name besides the names it held.
pub proof fn lemma_placed(before: Seq<KeyName>, key: KeyName, i: int)
    requires
        ascending(before),
        0 <= i <= before.len(),
        forall|j: int| 0 <= j < i ==> precedes(#[trigger] before[j], key),
        forall|j: int| i <= j < before.len() ==> precedes(key, #[trigger] before[j]),
    ensures
        ascending(before.insert(i, key)),
        forall|name: KeyName| #[trigger]
            before.insert(i, key).contains(name) <==> before.contains(name) || name == key,
{
    let after = before.insert(i, key);
    assert forall|a: int, b: int| 0 <= a < b < after.len() implies precedes(
        after[a],
        after[b],
    ) by {
        if b < i {
            assert(after[a] == before[a] && after[b] == before[b]);
        } else if b == i {
            assert(after[a] == before[a]);
        } else if a < i {
            assert(after[a] == before[a] && after[b] == before[b - 1]);
        } else if a == i {
            assert(after[b] == before[b - 1]);
        } else {
            assert(after[a] == before[a - 1] && after[b] == before[b - 1]);
        }
    }
    assert forall|name: KeyName| #[trigger]
        after.contains(name) <==> before.contains(name) || name == key by {
        assert(after[i] == key);
        if before.contains(name) {
            let k = choose|k: int| 0 <= k < before.len() && before[k] == name;
            if k < i {
                assert(after[k] == name);
            } else {
                assert(after[k + 1] == name);
            }
        }
        if after.contains(name) && name != key {
            let k = choose|k: int| 0 <= k < after.len() && after[k] == name;
            if k < i {
                assert(before[k] == name);
            } else {
                assert(before[k - 1] == name);
            }
        }
    }
}

/// Where two names stand to each other in the order of strings.
#[derive(Debug, Clone, Copy, PartialEq, Eq, Structural)]
pub enum Side {
    /// The first stands before the second.
    Before,
    /// They are the same name.
    Same,
    /// The first stands after the second.
    After,
}

/// Where `a` stands to `b` in the order of strings.
pub fn side_of(a: &str, b: &str) -> (r: Side)
    ensures
        r == Side::Before <==> precedes(a@, b@),
        r == Side::Same <==> a@ == b@,
        r == Side::After <==> precedes(b@, a@),
{
    let a_len = a.unicode_len();
    let b_len = b.unicode_len();
    let mut i: usize = 0;
    while i < a_len && i < b_len
        invariant
            i <= a_len,
            i <= b_len,
            a_len == a@.len(),
            b_len == b@.len(),
            forall|j: int| 0 <= j < i ==> a@[j] == b@[j],
        decreases a_len - i,
    {
        let x = a.get_char(i);
        let y = b.get_char(i);
        if x != y {
            if (x as u32) < (y as u32) {
                proof {
                    assert(parts_at(a@, b@, i as int));
                    lemma_one_way(a@, b@);
                }
                return Side::Before;
            } else {
                proof {
                    assert(parts_at(b@, a@, i as int));
                    lemma_one_way(b@, a@);
                }
                return Side::After;
            }
        }
        i = i + 1;
    }
    if a_len == b_len {
        proof {
            assert(a@ =~= b@);
            if precedes(a@, b@) {
                lemma_one_way(a@, b@);
            }
        }
        Side::Same
    } else if a_len < b_len {
        proof {
            assert(parts_at(a@, b@, i as int));
            lemma_one_way(a@, b@);
        }
        Side::Before
    } else {
        proof {
            assert(parts_at(b@, a@, i as int));
            lemma_one_way(b@, a@);
        }
        Side::After
    }
}

/// The output keys a node may produce.
#[derive(Debug, Clone)]
pub struct OutputSchema {
    /// Keys the node always produces; once built, in ascending order, so
    /// that no name occurs twice.
    pub fixed_keys: Vec<String>,
    /// Rules for conditionally produced keys, in declaration order.
    pub dynamic_keys: Vec<(KeyRule, InputCond)>,
}

/// Collects the parts of an [`OutputSchema`].
pub struct OutputSchemaBuilder {
    fixed_keys: Vec<String>,
    dynamic_keys: Vec<(KeyRule, InputCond)>,
}

/// `names` followed by `name`, unless `names` already holds it.
pub open spec fn with_name(names: Seq<KeyName>, name: KeyName) -> Seq<KeyName> {
    if names.contains(name) {
        names
    } else {
        names.push(name)
    }
}

/// Whether some entry of `keys` is named `name`.
pub fn holds_name(keys: &Vec<String>, name: &str) -> (found: bool)
    ensures
        found == key_names(keys@).contains(name@),
{
    let wanted = name.to_owned();
    let mut i: usize = 0;
    while i < keys.len()
        invariant
            i <= keys.len(),
            wanted@ == name@,
            forall|j: int| 0 <= j < i ==> key_names(keys@)[j] != name@,
        decreases keys.len() - i,
    {
        if keys[i] == wanted {
            assert(key_names(keys@)[i as int] == name@);
            return true;
        }
        i = i + 1;
    }
    false
}

impl OutputSchemaBuilder {
    /// The fixed keys are held in ascending order.
    #[verifier::type_invariant]
    spec fn in_order(self) -> bool {
        ascending(key_names(self.fixed_keys@))
    }

    /// The fixed key names collected so far, in ascending order.
    pub closed spec fn fixed(&self) -> Seq<KeyName> {
        key_names(self.fixed_keys@)
    }

    /// The dynamic rules collected so far, in the order of the calls that
    /// added them.
    pub closed spec fn rules(&self) -> Seq<(KeyRule, InputCond)> {
        self.dynamic_keys@
    }

    /// Adds `key` to the set of keys that are always produced: the names
    /// stay in ascending order, and a name that is already there is not
    /// added again.
    pub fn add_fixed(self, key: &str) -> (r: Self)
        ensures
            ascending(r.fixed()),
            forall|name: KeyName| #[trigger]
                r.fixed().contains(name) <==> self.fixed().contains(name) || name == key@,
            r.rules() == self.rules(),
    {
        proof {
            use_type_invariant(&self);
        }
        let ghost before = self.fixed();
        let ghost rules = self.rules();
        let OutputSchemaBuilder { fixed_keys, dynamic_keys } = self;
        let mut fixed_keys = fixed_keys;
        let mut i: usize = 0;
        while i < fixed_keys.len()
            invariant
                i <= fixed_keys.len(),
                key_names(fixed_keys@) == before,
                dynamic_keys@ == rules,
                before == self.fixed(),
                rules == self.rules(),
                ascending(before),
                forall|j: int| 0 <= j < i ==> precedes(#[trigger] before[j], key@),
            decreases fixed_keys.len() - i,
        {
            assert(before[i as int] == fixed_keys@[i as int]@);
            match side_of(fixed_keys[i].as_str(), key) {
                Side::Before => {},
                Side::Same => {
                    return OutputSchemaBuilder { fixed_keys, dynamic_keys };
                },
                Side::After => {
                    proof {
                        assert forall|j: int| i <= j < before.len() implies precedes(
                            key@,
                            #[trigger] before[j],
                        ) by {
                            if i < j {
                                lemma_precedes_on(key@, before[i as int], before[j]);
                            }
                        }
                        lemma_placed(before, key@, i as int);
                    }
                    fixed_keys.insert(i, key.to_owned());
                    assert(key_names(fixed_keys@) =~= before.insert(i as int, key@));
                    return OutputSchemaBuilder { fixed_keys, dynamic_keys };
                },
            }
            i = i + 1;
        }
        proof {
            lemma_placed(before, key@, i as int);
        }
        fixed_keys.push(key.to_owned());
        assert(key_names(fixed_keys@) =~= before.insert(i as int, key@));
        OutputSchemaBuilder { fixed_keys, dynamic_keys }
    }

    /// Adds a rule that is tried against every input key: it comes after the
    /// rules added before, also where it is the same as one of them.
    pub fn add_rule_for_every_input(self, key: KeyRule, cond: InputCond) -> (r: Self)
        ensures
            r.fixed() == self.fixed(),
            r.rules() == self.rules().push((key, cond)),
    {
        proof {
            use_type_invariant(&self);
        }
        let OutputSchemaBuilder { fixed_keys, dynamic_keys } = self;
        let mut dynamic_keys = dynamic_keys;
        dynamic_keys.push((key, cond));
        OutputSchemaBuilder { fixed_keys, dynamic_keys }
    }

    /// Adds the rule that hands every input key on under its own name.
    pub fn carry_all(self) -> (r: Self)
        ensures
            r.fixed() == self.fixed(),
            r.rules() == self.rules().push((KeyRule::Identity, InputCond::Always)),
    {
        self.add_rule_for_every_input(KeyRule::Identity, InputCond::Always)
    }

    /// The finished schema: the fixed keys in ascending order, the rules in
    /// the order of the calls that added them.
    pub fn build(self) -> (r: OutputSchema)
        ensures
            key_names(r.fixed_keys@) == self.fixed(),
            ascending(key_names(r.fixed_keys@)),
            distinct_names(key_names(r.fixed_keys@)),
            r.dynamic_keys@ == self.rules(),
    {
        proof {
            use_type_invariant(&self);
            lemma_ascending_distinct(key_names(self.fixed_keys@));
        }
        OutputSchema { fixed_keys: self.fixed_keys, dynamic_keys: self.dynamic_keys }
    }
}

impl OutputSchema {
    /// Starts an empty schema.
    pub fn new() -> (r: OutputSchemaBuilder)
        ensures
            r.fixed() == Seq::<KeyName>::empty(),
            r.rules() == Seq::<(KeyRule, InputCond)>::empty(),
    {
        let r = OutputSchemaBuilder { fixed_keys: Vec::new(), dynamic_keys: Vec::new() };
        r
    }

    /// The keys the node always produces.
    pub fn fixed_keys(&self) -> (r: &Vec<String>)
        ensures
            r == &self.fixed_keys,
    {
        &self.fixed_keys
    }

    /// The rules for conditionally produced keys.
    pub fn dynamic_keys(&self) -> (r: &[(KeyRule, InputCond)])
        ensures
            r@ == self.dynamic_keys@,
    {
        self.dynamic_keys.as_slice()
    }
}

} // verus!
