//! The boundary to the Z3 solver.
//!
//! Every value of the solver is carried together with what it means: a term
//! with the [`Formula`] it says, a solver with the formulas asserted into it,
//! a model with the [`Valuation`] it fixes. The functions marked
//! `external_body` call Z3; what they promise of these meanings is believed,
//! not proved.

use vstd::prelude::*;
use z3::ast::Ast;
use crate::analysis::formula::all_hold;
use crate::analysis::formula::Count;
use crate::analysis::formula::Formula;
use crate::analysis::formula::satisfiable;
use crate::analysis::formula::Valuation;

verus! {

/// `z3::Context`, of which nothing is known here.
#[verifier::external_type_specification]
#[verifier::external_body]
pub struct ExContext(z3::Context);

/// `z3::ast::Bool`, of which nothing is known here.
#[verifier::external_type_specification]
#[verifier::external_body]
pub struct ExBool<'ctx>(z3::ast::Bool<'ctx>);

/// `z3::ast::Int`, of which nothing is known here.
#[verifier::external_type_specification]
#[verifier::external_body]
pub struct ExInt<'ctx>(z3::ast::Int<'ctx>);

/// `z3::Solver`, of which nothing is known here.
#[verifier::external_type_specification]
#[verifier::external_body]
pub struct ExSolver<'ctx>(z3::Solver<'ctx>);

/// `z3::Model`, of which nothing is known here.
#[verifier::external_type_specification]
#[verifier::external_body]
pub struct ExModel<'ctx>(z3::Model<'ctx>);

/// Variable numbers the solver accepts as names: those below this bound.
pub const VARIABLE_LIMIT: u32 = 0x4000_0000;

/// How many arguments the solver takes in one conjunction, disjunction or
/// sum at most.
pub const TERM_LIMIT: usize = 0xffff_ffff;

/// The answer of a satisfiability check.
#[derive(Clone, Copy, Debug, PartialEq, Eq, Structural)]
pub enum SatAnswer {
    Sat,
    Unsat,
    Unknown,
}

/// A solver session. Terms, solvers and models of one session must not meet
/// those of another.
pub struct SolverContext {
    inner: z3::Context,
    id: Ghost<int>,
}

/// A boolean term of the solver.
pub struct BoolTerm<'ctx> {
    ast: z3::ast::Bool<'ctx>,
    form: Ghost<Formula>,
    home: Ghost<int>,
}

/// An integer term of the solver.
pub struct IntTerm<'ctx> {
    ast: z3::ast::Int<'ctx>,
    form: Ghost<Count>,
    home: Ghost<int>,
}

/// A solver with the formulas asserted into it so far.
pub struct SolverBox<'ctx> {
    inner: z3::Solver<'ctx>,
    asserted: Ghost<Seq<Formula>>,
    answer: Ghost<Option<SatAnswer>>,
    home: Ghost<int>,
}

/// A model that a solver found.
pub struct ModelBox<'ctx> {
    inner: z3::Model<'ctx>,
    values: Ghost<Valuation>,
    home: Ghost<int>,
}

impl SolverContext {
    /// Which session this is.
    pub closed spec fn id(&self) -> int {
        self.id@
    }

    /// Opens a session with the solver's default configuration.
    pub fn new() -> (r: Self) {
        open_context()
    }
}

impl<'ctx> View for BoolTerm<'ctx> {
    type V = Formula;

    closed spec fn view(&self) -> Formula {
        self.form@
    }
}

impl<'ctx> BoolTerm<'ctx> {
    /// The session the term belongs to.
    pub closed spec fn home(&self) -> int {
        self.home@
    }
}

impl<'ctx> View for IntTerm<'ctx> {
    type V = Count;

    closed spec fn view(&self) -> Count {
        self.form@
    }
}

impl<'ctx> IntTerm<'ctx> {
    /// The session the term belongs to.
    pub closed spec fn home(&self) -> int {
        self.home@
    }
}

impl<'ctx> SolverBox<'ctx> {
    /// The formulas asserted so far, in order.
    pub closed spec fn asserted(&self) -> Seq<Formula> {
        self.asserted@
    }

    /// The answer of the last check, if there was one since the last
    /// assertion.
    pub closed spec fn answer(&self) -> Option<SatAnswer> {
        self.answer@
    }

    /// The session the solver belongs to.
    pub closed spec fn home(&self) -> int {
        self.home@
    }
}

impl<'ctx> ModelBox<'ctx> {
    /// The truth value the model gives to each variable.
    pub closed spec fn values(&self) -> Valuation {
        self.values@
    }

    /// The session the model belongs to.
    pub closed spec fn home(&self) -> int {
        self.home@
    }
}

/// What the terms of `parts` say, in order.
pub open spec fn views(parts: Seq<BoolTerm<'_>>) -> Seq<Formula> {
    Seq::new(parts.len(), |i: int| parts[i]@)
}

/// What the integer terms of `parts` say, in order.
pub open spec fn amounts(parts: Seq<IntTerm<'_>>) -> Seq<Count> {
    Seq::new(parts.len(), |i: int| parts[i]@)
}

/// Every term of `parts` belongs to session `home`.
pub open spec fn all_at(parts: Seq<BoolTerm<'_>>, home: int) -> bool {
    forall|i: int| 0 <= i < parts.len() ==> (#[trigger] parts[i]).home() == home
}

/// Every integer term of `parts` belongs to session `home`.
pub open spec fn all_counts_at(parts: Seq<IntTerm<'_>>, home: int) -> bool {
    forall|i: int| 0 <= i < parts.len() ==> (#[trigger] parts[i]).home() == home
}

/// `z3::Context::new` on `z3::Config::new()`. Nothing is claimed of the
/// session but that it exists.
#[verifier::external_body]
fn open_context() -> (r: SolverContext) {
    SolverContext { inner: z3::Context::new(&z3::Config::new()), id: Ghost(arbitrary()) }
}

/// `z3::ast::Bool::from_bool`: the term is the constant `value`.
#[verifier::external_body]
pub(crate) fn term_lit<'ctx>(ctx: &'ctx SolverContext, value: bool) -> (r: BoolTerm<'ctx>)
    ensures
        r@ == Formula::Lit(value),
        r.home() == ctx.id(),
{
    BoolTerm {
        ast: z3::ast::Bool::from_bool(&ctx.inner, value),
        form: Ghost(Formula::Lit(value)),
        home: Ghost(ctx.id()),
    }
}

/// `z3::ast::Bool::new_const` on the integer symbol `var`: the term is the
/// boolean variable of that number. Z3 takes integer symbols below 2^30 only.
#[verifier::external_body]
pub(crate) fn term_var<'ctx>(ctx: &'ctx SolverContext, var: u32) -> (r: BoolTerm<'ctx>)
    requires
        var < VARIABLE_LIMIT,
    ensures
        r@ == Formula::Var(var),
        r.home() == ctx.id(),
{
    BoolTerm {
        ast: z3::ast::Bool::new_const(&ctx.inner, z3::Symbol::Int(var)),
        form: Ghost(Formula::Var(var)),
        home: Ghost(ctx.id()),
    }
}

/// `Clone::clone` of a `z3::ast::Bool`: a second handle on the same term.
#[verifier::external_body]
pub(crate) fn term_clone<'ctx>(term: &BoolTerm<'ctx>) -> (r: BoolTerm<'ctx>)
    ensures
        r@ == term@,
        r.home() == term.home(),
{
    BoolTerm { ast: term.ast.clone(), form: Ghost(term@), home: Ghost(term.home()) }
}

/// `z3::ast::Bool::not`: the term is the negation of `term`.
#[verifier::external_body]
pub(crate) fn term_not<'ctx>(term: &BoolTerm<'ctx>) -> (r: BoolTerm<'ctx>)
    ensures
        r@ == Formula::Not(Box::new(term@)),
        r.home() == term.home(),
{
    BoolTerm {
        ast: term.ast.not(),
        form: Ghost(Formula::Not(Box::new(term@))),
        home: Ghost(term.home()),
    }
}

/// `z3::ast::Bool::and`: the term is the conjunction of `parts`, in order.
/// Z3 asks for at least one argument, and the call panics on more than
/// 2^32 - 1 arguments and on a term of another session.
#[verifier::external_body]
pub(crate) fn term_and<'ctx>(ctx: &'ctx SolverContext, parts: &Vec<BoolTerm<'ctx>>) -> (r:
    BoolTerm<'ctx>)
    requires
        0 < parts.len() <= TERM_LIMIT,
        all_at(parts@, ctx.id()),
    ensures
        r@ == Formula::And(views(parts@)),
        r.home() == ctx.id(),
{
    let asts: Vec<&z3::ast::Bool<'ctx>> = parts.iter().map(|p| &p.ast).collect();
    BoolTerm {
        ast: z3::ast::Bool::and(&ctx.inner, &asts),
        form: Ghost(Formula::And(views(parts@))),
        home: Ghost(ctx.id()),
    }
}

/// `z3::ast::Bool::or`: the term is the disjunction of `parts`, in order.
/// Z3 asks for at least one argument, and the call panics on more than
/// 2^32 - 1 arguments and on a term of another session.
#[verifier::external_body]
pub(crate) fn term_or<'ctx>(ctx: &'ctx SolverContext, parts: &Vec<BoolTerm<'ctx>>) -> (r:
    BoolTerm<'ctx>)
    requires
        0 < parts.len() <= TERM_LIMIT,
        all_at(parts@, ctx.id()),
    ensures
        r@ == Formula::Or(views(parts@)),
        r.home() == ctx.id(),
{
    let asts: Vec<&z3::ast::Bool<'ctx>> = parts.iter().map(|p| &p.ast).collect();
    BoolTerm {
        ast: z3::ast::Bool::or(&ctx.inner, &asts),
        form: Ghost(Formula::Or(views(parts@))),
        home: Ghost(ctx.id()),
    }
}

/// `z3::ast::Ast::_eq` on two boolean terms: the term says that both have
/// the same truth value.
#[verifier::external_body]
pub(crate) fn term_iff<'ctx>(left: &BoolTerm<'ctx>, right: &BoolTerm<'ctx>) -> (r: BoolTerm<'ctx>)
    requires
        left.home() == right.home(),
    ensures
        r@ == Formula::Iff(Box::new(left@), Box::new(right@)),
        r.home() == left.home(),
{
    BoolTerm {
        ast: left.ast._eq(&right.ast),
        form: Ghost(Formula::Iff(Box::new(left@), Box::new(right@))),
        home: Ghost(left.home()),
    }
}

/// `z3::ast::Bool::implies`: the term says that `right` holds where `left`
/// does. The call panics on terms of two sessions.
#[verifier::external_body]
pub(crate) fn term_implies<'ctx>(left: &BoolTerm<'ctx>, right: &BoolTerm<'ctx>) -> (r: BoolTerm<
    'ctx,
>)
    requires
        left.home() == right.home(),
    ensures
        r@ == Formula::Implies(Box::new(left@), Box::new(right@)),
        r.home() == left.home(),
{
    BoolTerm {
        ast: left.ast.implies(&right.ast),
        form: Ghost(Formula::Implies(Box::new(left@), Box::new(right@))),
        home: Ghost(left.home()),
    }
}

/// `z3::ast::Int::from_i64`: the term is the number `value`.
#[verifier::external_body]
pub(crate) fn count_lit<'ctx>(ctx: &'ctx SolverContext, value: i64) -> (r: IntTerm<'ctx>)
    ensures
        r@ == Count::Lit(value as int),
        r.home() == ctx.id(),
{
    IntTerm {
        ast: z3::ast::Int::from_i64(&ctx.inner, value),
        form: Ghost(Count::Lit(value as int)),
        home: Ghost(ctx.id()),
    }
}

/// `z3::ast::Bool::ite` on integer terms: the term is `yes` where `cond`
/// holds and `no` where it does not.
#[verifier::external_body]
pub(crate) fn count_choice<'ctx>(
    cond: &BoolTerm<'ctx>,
    yes: &IntTerm<'ctx>,
    no: &IntTerm<'ctx>,
) -> (r: IntTerm<'ctx>)
    requires
        cond.home() == yes.home(),
        cond.home() == no.home(),
    ensures
        r@ == Count::Choice(Box::new(cond@), Box::new(yes@), Box::new(no@)),
        r.home() == cond.home(),
{
    IntTerm {
        ast: cond.ast.ite(&yes.ast, &no.ast),
        form: Ghost(Count::Choice(Box::new(cond@), Box::new(yes@), Box::new(no@))),
        home: Ghost(cond.home()),
    }
}

/// `z3::ast::Int::add`: the term is the sum of `parts`. Z3 asks for at least
/// one argument, and the call panics on more than 2^32 - 1 arguments and on
/// a term of another session.
#[verifier::external_body]
pub(crate) fn count_sum<'ctx>(ctx: &'ctx SolverContext, parts: &Vec<IntTerm<'ctx>>) -> (r: IntTerm<
    'ctx,
>)
    requires
        0 < parts.len() <= TERM_LIMIT,
        all_counts_at(parts@, ctx.id()),
    ensures
        r@ == Count::Sum(amounts(parts@)),
        r.home() == ctx.id(),
{
    let asts: Vec<&z3::ast::Int<'ctx>> = parts.iter().map(|p| &p.ast).collect();
    IntTerm {
        ast: z3::ast::Int::add(&ctx.inner, &asts),
        form: Ghost(Count::Sum(amounts(parts@))),
        home: Ghost(ctx.id()),
    }
}

/// `z3::ast::Ast::_eq` on two integer terms: the term says that both have
/// the same value.
#[verifier::external_body]
pub(crate) fn count_same<'ctx>(left: &IntTerm<'ctx>, right: &IntTerm<'ctx>) -> (r: BoolTerm<'ctx>)
    requires
        left.home() == right.home(),
    ensures
        r@ == Formula::Same(Box::new(left@), Box::new(right@)),
        r.home() == left.home(),
{
    BoolTerm {
        ast: left.ast._eq(&right.ast),
        form: Ghost(Formula::Same(Box::new(left@), Box::new(right@))),
        home: Ghost(left.home()),
    }
}

/// `z3::Solver::new`: a solver of the session with nothing asserted.
#[verifier::external_body]
pub(crate) fn solver_new<'ctx>(ctx: &'ctx SolverContext) -> (r: SolverBox<'ctx>)
    ensures
        r.asserted() == Seq::<Formula>::empty(),
        r.answer() is None,
        r.home() == ctx.id(),
{
    SolverBox {
        inner: z3::Solver::new(&ctx.inner),
        asserted: Ghost(Seq::empty()),
        answer: Ghost(None),
        home: Ghost(ctx.id()),
    }
}

/// `z3::Solver::assert`: the formula of `term` joins the asserted ones, and
/// an earlier answer no longer stands.
#[verifier::external_body]
pub(crate) fn solver_assert<'ctx>(solver: &mut SolverBox<'ctx>, term: &BoolTerm<'ctx>)
    requires
        old(solver).home() == term.home(),
    ensures
        final(solver).asserted() == old(solver).asserted().push(term@),
        final(solver).answer() is None,
        final(solver).home() == old(solver).home(),
{
    solver.inner.assert(&term.ast);
}

/// `z3::Solver::check`: `Sat` only where some valuation makes every asserted
/// formula true, `Unsat` only where none does. When which answer comes,
/// `Unknown` among them, is up to Z3.
#[verifier::external_body]
pub(crate) fn solver_check<'ctx>(solver: &mut SolverBox<'ctx>) -> (r: SatAnswer)
    ensures
        final(solver).asserted() == old(solver).asserted(),
        final(solver).home() == old(solver).home(),
        final(solver).answer() == Some(r),
        r == SatAnswer::Sat ==> satisfiable(old(solver).asserted()),
        r == SatAnswer::Unsat ==> !satisfiable(old(solver).asserted()),
{
    match solver.inner.check() {
        z3::SatResult::Sat => SatAnswer::Sat,
        z3::SatResult::Unsat => SatAnswer::Unsat,
        z3::SatResult::Unknown => SatAnswer::Unknown,
    }
}

/// `z3::Solver::get_model`: after the answer `Sat`, a model that comes back
/// makes every asserted formula true. That one comes back is not promised.
#[verifier::external_body]
pub(crate) fn solver_model<'ctx>(solver: &SolverBox<'ctx>) -> (r: Option<ModelBox<'ctx>>)
    ensures
        r matches Some(m) ==> m.home() == solver.home(),
        r matches Some(m) ==> (solver.answer() == Some(SatAnswer::Sat) ==> all_hold(
            solver.asserted(),
            m.values(),
        )),
{
    match solver.inner.get_model() {
        Some(m) => Some(ModelBox { inner: m, values: Ghost(arbitrary()), home: Ghost(solver.home()) }),
        None => None,
    }
}

/// `z3::Model::eval` followed by `z3::ast::Bool::as_bool`: a truth value
/// that comes back is the one `term` has under the model's valuation.
#[verifier::external_body]
pub(crate) fn model_value<'ctx>(model: &ModelBox<'ctx>, term: &BoolTerm<'ctx>) -> (r: Option<bool>)
    requires
        model.home() == term.home(),
    ensures
        r matches Some(b) ==> b == term@.holds(model.values()),
{
    model.inner.eval(&term.ast).and_then(|v| v.as_bool())
}

} // verus!
