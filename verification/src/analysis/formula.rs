//! Formulas over numbered boolean variables and what it means that one
//! holds.

use vstd::prelude::*;

verus! {

/// A truth value for every boolean variable, by the variable's number.
pub type Valuation = spec_fn(u32) -> bool;

/// What a boolean term of the solver says, as a mathematical formula over
/// numbered variables.
pub enum Formula {
    Lit(bool),
    Var(u32),
    Not(Box<Formula>),
    And(Seq<Formula>),
    Or(Seq<Formula>),
    Iff(Box<Formula>, Box<Formula>),
    Implies(Box<Formula>, Box<Formula>),
    /// Two integer terms have the same value.
    Same(Box<Count>, Box<Count>),
}

/// What an integer term of the solver says.
pub enum Count {
    Lit(int),
    /// The second term where the formula holds, the third where it does not.
    Choice(Box<Formula>, Box<Count>, Box<Count>),
    Sum(Seq<Count>),
}

impl Formula {
    /// Whether the formula is true under `a`.
    pub open spec fn holds(self, a: Valuation) -> bool
        decreases self,
    {
        match self {
            Formula::Lit(b) => b,
            Formula::Var(v) => a(v),
            Formula::Not(f) => !f.holds(a),
            Formula::And(fs) => forall|i: int| 0 <= i < fs.len() ==> (#[trigger] fs[i]).holds(a),
            Formula::Or(fs) => exists|i: int| 0 <= i < fs.len() && (#[trigger] fs[i]).holds(a),
            Formula::Iff(f, g) => f.holds(a) == g.holds(a),
            Formula::Implies(f, g) => f.holds(a) ==> g.holds(a),
            Formula::Same(c, d) => c.amount(a) == d.amount(a),
        }
    }
}

impl Count {
    /// The value of the term under `a`.
    pub open spec fn amount(self, a: Valuation) -> int
        decreases self,
    {
        match self {
            Count::Lit(n) => n,
            Count::Choice(f, c, d) => if f.holds(a) {
                c.amount(a)
            } else {
                d.amount(a)
            },
            Count::Sum(cs) => total(cs, a),
        }
    }
}

/// The sum of the values of `cs` under `a`.
pub open spec fn total(cs: Seq<Count>, a: Valuation) -> int
    decreases cs,
{
    if cs.len() == 0 {
        0
    } else {
        total(cs.drop_last(), a) + cs.last().amount(a)
    }
}

/// The conjunction of `parts`; the constant true where there is none.
pub open spec fn all_of(parts: Seq<Formula>) -> Formula {
    if parts.len() == 0 {
        Formula::Lit(true)
    } else {
        Formula::And(parts)
    }
}

/// The disjunction of `parts`; the constant false where there is none.
pub open spec fn either(parts: Seq<Formula>) -> Formula {
    if parts.len() == 0 {
        Formula::Lit(false)
    } else {
        Formula::Or(parts)
    }
}

/// A conjunction holds where each of its parts does.
pub proof fn lemma_all_of(parts: Seq<Formula>, a: Valuation)
    ensures
        all_of(parts).holds(a) <==> forall|i: int|
            0 <= i < parts.len() ==> (#[trigger] parts[i]).holds(a),
{
    let f = Formula::And(parts);
    assert(f.holds(a) <==> forall|i: int|
        0 <= i < f->And_0.len() ==> (#[trigger] f->And_0[i]).holds(a));
}

/// A disjunction holds where one of its parts does.
pub proof fn lemma_either(parts: Seq<Formula>, a: Valuation)
    ensures
        either(parts).holds(a) <==> exists|i: int|
            0 <= i < parts.len() && (#[trigger] parts[i]).holds(a),
{
    let f = Formula::Or(parts);
    assert(f.holds(a) <==> exists|i: int|
        0 <= i < f->Or_0.len() && (#[trigger] f->Or_0[i]).holds(a));
}

/// Every formula of `fs` is true under `a`.
pub open spec fn all_hold(fs: Seq<Formula>, a: Valuation) -> bool {
    forall|i: int| 0 <= i < fs.len() ==> (#[trigger] fs[i]).holds(a)
}

/// One more formula holds together with the others where it holds and they
/// do.
pub proof fn lemma_all_hold_push(fs: Seq<Formula>, f: Formula, a: Valuation)
    ensures
        all_hold(fs.push(f), a) <==> all_hold(fs, a) && f.holds(a),
{
    let gs = fs.push(f);
    if all_hold(gs, a) {
        assert(gs[fs.len() as int] == f);
        assert forall|i: int| 0 <= i < fs.len() implies (#[trigger] fs[i]).holds(a) by {
            assert(gs[i] == fs[i]);
        }
    }
    if all_hold(fs, a) && f.holds(a) {
    }
}

/// Some valuation makes every formula of `fs` true.
pub open spec fn satisfiable(fs: Seq<Formula>) -> bool {
    exists|a: Valuation| all_hold(fs, a)
}

} // verus!
