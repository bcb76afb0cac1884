//! The type-check driver: walks a function body, hands its constraints to
//! the unification engine, puts off what waits for a variable, and takes it
//! up again when the variable is bound.

use crate::family::{BaseInferred, FullInferred, TypeFamily};
use crate::indices::{Base, InferVar, Perm, UniverseIndex};
use crate::instantiate::instantiate_ty;
use crate::intern::{Tables, TyInternTables};
use crate::ops::{
    arena_get, arena_insert, arena_ops, arena_with_capacity, blocked_insert, blocked_ops,
    blocked_remove, blocked_with_capacity, Op, OpIndex,
};
use crate::ty::{Inferable, PermData, Predicate, Ty};
use crate::unify::{
    are_compatible, compatible, Mismatch, Operand, Relation, UnificationTable, Unifier, Value,
};
use generational_arena::Arena;
use indexmap::IndexMap;
use rustc_hash::FxHasher;
use std::hash::BuildHasherDefault;
use vstd::prelude::*;

verus! {

/// What opened a universe.
#[derive(Copy, Clone, Debug, PartialEq, Eq, Structural)]
pub enum UniverseBinder {
    /// The universe of the body itself.
    Root,
    /// A scope with generic parameters of its own.
    Generic { parameters: usize },
}

/// One expression or statement of a body. Expressions are numbered in the
/// order of the body, and an expression refers to earlier ones by number.
#[derive(Copy, Clone, Debug, PartialEq, Eq, Structural)]
pub enum Expr {
    /// A place whose type is written out, in terms of the generic
    /// parameters in scope.
    Declared { ty: Ty },
    /// A use of the local variable `var`.
    Local { var: usize },
    /// `let var = value`.
    Let { var: usize, value: usize },
    /// `target = value`: the two have the same base, and permissions of
    /// the same representation.
    Assign { target: usize, value: usize },
    /// `value` seen as the type `ty`, whose base has the same
    /// representation.
    Cast { value: usize, ty: Ty },
    /// Entry into a scope with generic parameters of its own.
    Enter { parameters: usize },
    /// Exit from the innermost such scope.
    Leave,
}

/// The body of a function as the checker gets it.
#[derive(Debug)]
pub struct FnBody {
    /// The number of local variables.
    pub locals: usize,
    pub exprs: Vec<Expr>,
}

/// What a check can find wrong.
#[derive(Copy, Clone, Debug, PartialEq, Eq, Structural)]
pub enum TypeError {
    /// Two known types were to be in a relation and are not.
    Mismatch { expr: usize, left: Value, right: Value },
    /// The type of the expression could not be inferred.
    Unresolved { expr: usize },
}

impl TypeError {
    /// The expression that the error is about.
    pub open spec fn spec_expr(self) -> usize {
        match self {
            TypeError::Mismatch { expr, .. } => expr,
            TypeError::Unresolved { expr } => expr,
        }
    }

    #[verifier::when_used_as_spec(spec_expr)]
    pub fn expr(self) -> (r: usize)
        ensures
            r == self.spec_expr(),
    {
        match self {
            TypeError::Mismatch { expr, .. } => expr,
            TypeError::Unresolved { expr } => expr,
        }
    }
}

/// What a check found: for every expression its type, where it has one and
/// the type could be inferred, and the errors.
#[derive(Debug)]
pub struct TypeCheckResults {
    pub types: Vec<Option<Ty>>,
    pub errors: Vec<TypeError>,
}

/// One side of a constraint, as far as it is known.
#[derive(Copy, Clone, Debug, PartialEq, Eq, Structural)]
pub enum Side {
    /// The side waits for this variable.
    Blocked(InferVar),
    Settled(Value),
}

/// The errors that tell of the operations in `queue` that they never ran.
pub open spec fn unresolved(queue: Seq<Op>) -> Seq<TypeError> {
    Seq::new(queue.len(), |i: int| TypeError::Unresolved { expr: queue[i].spec_expr() })
}

/// The state of a check.
pub struct Checking {
    pub tables: Tables,
    pub unifier: Unifier,
    /// For every variable, the operations that wait for it, oldest first.
    pub queues: Seq<Seq<Op>>,
    /// For every expression walked, its type as far as the walk knew it.
    pub types: Seq<Option<Ty>>,
    /// For every expression walked, its type once it was inferred.
    pub results: Seq<Option<Ty>>,
    pub errors: Seq<TypeError>,
    pub universes: Seq<UniverseBinder>,
    /// The type of every local variable that has one.
    pub locals: Seq<Option<Ty>>,
}

impl Checking {
    /// The state in which a check of a body with `locals` local variables
    /// starts: one universe, no variable, nothing known.
    pub open spec fn start(tables: Tables, locals: nat) -> Checking {
        Checking {
            tables,
            unifier: Unifier { roots: Seq::empty(), values: Seq::empty(), events: Seq::empty() },
            queues: Seq::empty(),
            types: Seq::empty(),
            results: Seq::empty(),
            errors: Seq::empty(),
            universes: seq![UniverseBinder::Root],
            locals: Seq::new(locals, |i: int| None),
        }
    }

    /// The universe in which placeholders are made at this point.
    pub open spec fn universe(self) -> UniverseIndex {
        UniverseIndex { index: (self.universes.len() - 1) as usize }
    }

    /// The side of a constraint that `base` is: a variable of this check,
    /// or a value.
    pub open spec fn base_operand(self, base: Base) -> Operand {
        match self.tables.bases[base.index as int] {
            Inferable::Infer(var) if self.unifier.has(var) => Operand::Var(var),
            _ => Operand::Known(Value::Base(base)),
        }
    }

    /// The side of a constraint that `perm` is: a variable of this check,
    /// or a value.
    pub open spec fn perm_operand(self, perm: Perm) -> Operand {
        match self.tables.perms[perm.index as int] {
            Inferable::Infer(var) if self.unifier.has(var) => Operand::Var(var),
            _ => Operand::Known(Value::Perm(perm)),
        }
    }

    /// What is known of `operand`: its value, or the variable it waits
    /// for.
    pub open spec fn settled(self, operand: Operand) -> Side {
        match operand {
            Operand::Known(value) => Side::Settled(value),
            Operand::Var(var) => match self.unifier.probe(var) {
                Some(value) => Side::Settled(value),
                None => Side::Blocked(var),
            },
        }
    }

    /// The state with `op` put off until `var` is bound.
    pub open spec fn parked(self, var: InferVar, op: Op) -> Checking {
        Checking {
            queues: self.queues.update(var.index as int, self.queues[var.index as int].push(op)),
            ..self
        }
    }

    /// The state with one more error.
    pub open spec fn failed(self, error: TypeError) -> Checking {
        Checking { errors: self.errors.push(error), ..self }
    }

    /// The state once `a` and `b` were made equal for the expression
    /// `expr`: a variable is unified with the other side, and two values
    /// that differ are an error.
    pub open spec fn equated(self, expr: usize, a: Operand, b: Operand) -> Checking {
        match (a, b) {
            (Operand::Var(var), _) => self.unified(expr, var, b),
            (Operand::Known(_), Operand::Var(var)) => self.unified(expr, var, a),
            (Operand::Known(x), Operand::Known(y)) => if x == y {
                self
            } else {
                self.failed(TypeError::Mismatch { expr, left: x, right: y })
            },
        }
    }

    /// The state once `var` was unified with `other` under equality.
    pub open spec fn unified(self, expr: usize, var: InferVar, other: Operand) -> Checking {
        let unifier = self.unifier.unified(self.tables, Relation::BaseBaseEq, var, other);
        match self.unifier.conflict(self.tables, Relation::BaseBaseEq, var, other) {
            Some(mismatch) => Checking {
                unifier,
                errors: self.errors.push(
                    TypeError::Mismatch { expr, left: mismatch.left, right: mismatch.right },
                ),
                ..self
            },
            None => Checking { unifier, ..self },
        }
    }

    /// The state once `a` and `b` were held against `relation`: where a
    /// side waits for a variable, `op` is put off until that variable is
    /// bound, the first side first; two values that are not in the
    /// relation are an error.
    pub open spec fn related(
        self,
        expr: usize,
        relation: Relation,
        a: Operand,
        b: Operand,
        op: Op,
    ) -> Checking {
        match (self.settled(a), self.settled(b)) {
            (Side::Blocked(var), _) => self.parked(var, op),
            (Side::Settled(_), Side::Blocked(var)) => self.parked(var, op),
            (Side::Settled(x), Side::Settled(y)) => if compatible(self.tables, relation, x, y) {
                self
            } else {
                self.failed(TypeError::Mismatch { expr, left: x, right: y })
            },
        }
    }

    /// The state once `predicate` was taken up for the expression `expr`.
    pub open spec fn proved(self, expr: usize, predicate: Predicate) -> Checking {
        match predicate {
            Predicate::BaseBaseEq(a, b) => self.equated(
                expr,
                self.base_operand(a),
                self.base_operand(b),
            ),
            Predicate::BaseReprEq(a, b) => self.related(
                expr,
                Relation::BaseReprEq,
                self.base_operand(a),
                self.base_operand(b),
                Op::Prove { expr, predicate },
            ),
            Predicate::PermReprEq(p, q) => self.related(
                expr,
                Relation::PermReprEq,
                self.perm_operand(p),
                self.perm_operand(q),
                Op::Prove { expr, predicate },
            ),
            Predicate::RegionConstraint {} => self,
        }
    }

    /// The state once the type of the expression `expr` was put down, or
    /// put off until the variable it waits for is bound, the base first.
    pub open spec fn resolved(self, expr: usize) -> Checking {
        match self.types[expr as int] {
            None => self,
            Some(ty) => match self.settled(self.base_operand(ty.base)) {
                Side::Blocked(var) => self.parked(var, Op::Resolve { expr }),
                Side::Settled(x) => match self.settled(self.perm_operand(ty.perm)) {
                    Side::Blocked(var) => self.parked(var, Op::Resolve { expr }),
                    Side::Settled(y) => match (x, y) {
                        (Value::Base(base), Value::Perm(perm)) => Checking {
                            results: self.results.update(expr as int, Some(Ty { perm, base })),
                            ..self
                        },
                        _ => self.failed(TypeError::Unresolved { expr }),
                    },
                },
            },
        }
    }

    /// The state once `op` ran.
    pub open spec fn ran(self, op: Op) -> Checking {
        match op {
            Op::Prove { expr, predicate } => self.proved(expr, predicate),
            Op::Resolve { expr } => self.resolved(expr),
        }
    }

    /// The state once the first `n` of `ops` ran, in order.
    pub open spec fn ran_all(self, ops: Seq<Op>, n: int) -> Checking
        decreases n,
    {
        if n <= 0 {
            self
        } else {
            self.ran_all(ops, n - 1).ran(ops[n - 1])
        }
    }

    /// The state once the operations that waited for `var` ran, oldest
    /// first.
    pub open spec fn triggered(self, var: InferVar) -> Checking {
        let queue = self.queues[var.index as int];
        Checking { queues: self.queues.update(var.index as int, Seq::empty()), ..self }.ran_all(
            queue,
            queue.len() as int,
        )
    }

    /// The state once the operations that waited for the first `n` of
    /// `vars` ran.
    pub open spec fn triggered_all(self, vars: Seq<InferVar>, n: int) -> Checking
        decreases n,
    {
        if n <= 0 {
            self
        } else {
            self.triggered_all(vars, n - 1).triggered(vars[n - 1])
        }
    }

    /// The state once the events of the engine were drained and the
    /// operations that waited for the variables they name ran.
    pub open spec fn drained(self) -> Checking {
        let events = self.unifier.events;
        Checking { unifier: self.unifier.drained(), ..self }.triggered_all(
            events,
            events.len() as int,
        )
    }

    /// The state with a fresh type: a base that awaits inference and,
    /// where permissions are kept, a permission that does; where they are
    /// not, the permission of an owned value stands in.
    pub open spec fn with_fresh(self, keeps_perms: bool) -> Checking {
        let var = InferVar { index: self.unifier.roots.len() as usize };
        let first = Checking {
            tables: self.tables.with_base(Inferable::Infer(var)),
            unifier: self.unifier.with_var(),
            queues: self.queues.push(Seq::empty()),
            ..self
        };
        if keeps_perms {
            let second = InferVar { index: first.unifier.roots.len() as usize };
            Checking {
                tables: first.tables.with_perm(Inferable::Infer(second)),
                unifier: first.unifier.with_var(),
                queues: first.queues.push(Seq::empty()),
                ..first
            }
        } else {
            Checking {
                tables: first.tables.with_perm(Inferable::Known(PermData::Own)),
                ..first
            }
        }
    }

    /// The fresh type that `self.with_fresh(keeps_perms)` has made.
    pub open spec fn fresh(self, keeps_perms: bool) -> Ty {
        let after = self.with_fresh(keeps_perms);
        let var = InferVar { index: self.unifier.roots.len() as usize };
        let second = InferVar { index: (self.unifier.roots.len() + 1) as usize };
        Ty {
            perm: if keeps_perms {
                after.tables.perm_handle(Inferable::Infer(second))
            } else {
                after.tables.perm_handle(Inferable::Known(PermData::Own))
            },
            base: after.tables.base_handle(Inferable::Infer(var)),
        }
    }

    /// The state with one more expression, of type `ty`.
    pub open spec fn typed(self, ty: Option<Ty>) -> Checking {
        Checking { types: self.types.push(ty), results: self.results.push(None), ..self }
    }

    /// The state once the next expression, `expr`, was walked.
    pub open spec fn stepped(self, expr: Expr, keeps_perms: bool) -> Checking {
        let e = self.types.len() as usize;
        match expr {
            Expr::Declared { ty } => {
                let (tables, made) = self.tables.instantiate_ty(ty, self.universe());
                Checking { tables, ..self }.typed(Some(made)).resolved(e)
            },
            Expr::Local { var } => match self.locals[var as int] {
                Some(ty) => self.typed(Some(ty)).resolved(e),
                None => {
                    let ty = self.fresh(keeps_perms);
                    let after = self.with_fresh(keeps_perms);
                    Checking { locals: after.locals.update(var as int, Some(ty)), ..after }.typed(
                        Some(ty),
                    ).resolved(e)
                },
            },
            Expr::Let { var, value } => {
                let ty = self.types[value as int];
                Checking { locals: self.locals.update(var as int, ty), ..self }.typed(ty).resolved(
                    e,
                )
            },
            Expr::Assign { target, value } => match (
                self.types[target as int],
                self.types[value as int],
            ) {
                (Some(a), Some(b)) => {
                    let first = self.typed(Some(a)).proved(e, Predicate::BaseBaseEq(a.base, b.base));
                    let second = if keeps_perms {
                        first.proved(e, Predicate::PermReprEq(a.perm, b.perm))
                    } else {
                        first
                    };
                    second.resolved(e)
                },
                _ => self.typed(None),
            },
            Expr::Cast { value, ty } => {
                let (tables, made) = self.tables.instantiate_ty(ty, self.universe());
                let first = Checking { tables, ..self }.typed(Some(made));
                let second = match self.types[value as int] {
                    Some(a) => first.proved(e, Predicate::BaseReprEq(a.base, made.base)),
                    None => first,
                };
                second.resolved(e)
            },
            Expr::Enter { parameters } => Checking {
                universes: self.universes.push(UniverseBinder::Generic { parameters }),
                ..self
            }.typed(None),
            Expr::Leave => Checking {
                universes: if self.universes.len() > 1 {
                    self.universes.drop_last()
                } else {
                    self.universes
                },
                ..self
            }.typed(None),
        }
    }

    /// The state once the first `n` of `exprs` were walked.
    pub open spec fn walked(self, exprs: Seq<Expr>, n: int, keeps_perms: bool) -> Checking
        decreases n,
    {
        if n <= 0 {
            self
        } else {
            self.walked(exprs, n - 1, keeps_perms).stepped(exprs[n - 1], keeps_perms)
        }
    }

    /// The errors of the check, followed by those that tell of the
    /// operations that still wait for one of the first `n` variables.
    pub open spec fn reported(self, n: int) -> Seq<TypeError>
        decreases n,
    {
        if n <= 0 {
            self.errors
        } else {
            self.reported(n - 1) + unresolved(self.queues[n - 1])
        }
    }

    /// The state in which the check of a body ends: the body was walked,
    /// and the operations that waited for a variable that the walk bound
    /// ran.
    pub open spec fn checked(tables: Tables, locals: nat, exprs: Seq<Expr>, keeps_perms: bool)
        -> Checking {
        Checking::start(tables, locals).walked(exprs, exprs.len() as int, keeps_perms).drained()
    }
}

impl Tables {
    /// Whether `ty`, if it is a type, is a type of these tables.
    pub open spec fn has_some_ty(self, ty: Option<Ty>) -> bool {
        ty matches Some(t) ==> self.has_ty(t)
    }
}

impl Checking {
    /// Whether the handles of `predicate` are handles of the tables.
    pub open spec fn has_predicate(self, predicate: Predicate) -> bool {
        match predicate {
            Predicate::BaseBaseEq(a, b) => self.tables.has_base(a) && self.tables.has_base(b),
            Predicate::BaseReprEq(a, b) => self.tables.has_base(a) && self.tables.has_base(b),
            Predicate::PermReprEq(p, q) => self.tables.has_perm(p) && self.tables.has_perm(q),
            Predicate::RegionConstraint {} => true,
        }
    }

    /// Whether `op` speaks of an expression that was walked and of handles
    /// of the tables.
    pub open spec fn has_op(self, op: Op) -> bool {
        match op {
            Op::Prove { expr, predicate } => expr < self.types.len() && self.has_predicate(
                predicate,
            ),
            Op::Resolve { expr } => expr < self.types.len(),
        }
    }

    /// Whether `op` can wait for a variable: an equality never waits.
    pub open spec fn waits(op: Op) -> bool {
        !(op matches Op::Prove { predicate: Predicate::BaseBaseEq(_, _), .. })
    }

    /// The parts of the state fit together.
    pub open spec fn ok(self) -> bool {
        &&& self.tables.wf()
        &&& self.unifier.wf()
        &&& self.unifier.values_in(self.tables)
        &&& self.unifier.events_ok()
        &&& self.queues.len() == self.unifier.roots.len()
        &&& self.types.len() == self.results.len() <= usize::MAX
        &&& 1 <= self.universes.len() <= usize::MAX
        &&& forall|e: int|
            0 <= e < self.types.len() ==> (#[trigger] self.types[e] matches Some(ty)
                ==> self.tables.has_ty(ty))
        &&& forall|i: int|
            0 <= i < self.locals.len() ==> (#[trigger] self.locals[i] matches Some(ty)
                ==> self.tables.has_ty(ty))
        &&& forall|e: int|
            0 <= e < self.results.len() ==> (#[trigger] self.results[e] matches Some(ty)
                ==> self.tables.has_ty(ty))
        &&& forall|i: int|
            0 <= i < self.errors.len() ==> (#[trigger] self.errors[i]).spec_expr()
                < self.types.len()
        &&& forall|v: int, i: int|
            0 <= v < self.queues.len() && 0 <= i < self.queues[v].len() ==> self.has_op(
                #[trigger] self.queues[v][i],
            ) && Self::waits(self.queues[v][i])
    }

    /// Whether `operand` names a variable of this check or a value of the
    /// tables.
    pub open spec fn has_operand(self, operand: Operand) -> bool {
        self.unifier.has_operand(self.tables, operand)
    }

    /// The sides of constraints and what is known of them lie in the
    /// tables.
    pub proof fn lemma_operands(self, base: Base, perm: Perm)
        requires
            self.ok(),
        ensures
            self.tables.has_base(base) ==> self.has_operand(self.base_operand(base)),
            self.tables.has_perm(perm) ==> self.has_operand(self.perm_operand(perm)),
    {
    }

    /// What is known of a side of a constraint is a variable of this check
    /// that is not bound, or a value of the tables.
    pub proof fn lemma_settled(self, operand: Operand)
        requires
            self.ok(),
            self.has_operand(operand),
        ensures
            match self.settled(operand) {
                Side::Blocked(var) => self.unifier.has(var) && self.unifier.probe(var) is None,
                Side::Settled(value) => self.tables.has_value(value),
            },
    {
    }

    /// Putting an operation off keeps the state in order.
    pub proof fn lemma_parked(self, var: InferVar, op: Op)
        requires
            self.ok(),
            self.unifier.has(var),
            self.has_op(op),
            Self::waits(op),
        ensures
            self.parked(var, op).ok(),
    {
        let after = self.parked(var, op);
        assert forall|v: int, i: int|
            0 <= v < after.queues.len() && 0 <= i < after.queues[v].len() implies after.has_op(
            #[trigger] after.queues[v][i],
        ) && Self::waits(after.queues[v][i]) by {
            if v == var.index && i == self.queues[v].len() {
            } else {
                assert(self.has_op(self.queues[v][i]));
            }
        }
    }

    /// Running an operation keeps the state in order, and changes neither
    /// the tables nor what was walked. An operation that can wait binds no
    /// variable.
    pub proof fn lemma_ran(self, op: Op)
        requires
            self.ok(),
            self.has_op(op),
        ensures
            self.ran(op).ok(),
            self.ran(op).tables == self.tables,
            self.ran(op).types == self.types,
            self.ran(op).universes == self.universes,
            self.ran(op).locals == self.locals,
            self.ran(op).results.len() == self.results.len(),
            Self::waits(op) ==> self.ran(op).unifier == self.unifier,
            self.ran(op).unifier.roots.len() == self.unifier.roots.len(),
    {
        match op {
            Op::Prove { expr, predicate } => {
                match predicate {
                    Predicate::BaseBaseEq(a, b) => {
                        self.lemma_operands(a, Perm { index: 0 });
                        self.lemma_operands(b, Perm { index: 0 });
                        let x = self.base_operand(a);
                        let y = self.base_operand(b);
                        match (x, y) {
                            (Operand::Var(var), _) => {
                                self.unifier.lemma_unified(
                                    self.tables,
                                    Relation::BaseBaseEq,
                                    var,
                                    y,
                                );
                            },
                            (Operand::Known(_), Operand::Var(var)) => {
                                self.unifier.lemma_unified(
                                    self.tables,
                                    Relation::BaseBaseEq,
                                    var,
                                    x,
                                );
                            },
                            _ => {},
                        }
                    },
                    Predicate::BaseReprEq(a, b) => {
                        self.lemma_operands(a, Perm { index: 0 });
                        self.lemma_operands(b, Perm { index: 0 });
                        self.lemma_settled(self.base_operand(a));
                        self.lemma_settled(self.base_operand(b));
                        match (
                            self.settled(self.base_operand(a)),
                            self.settled(self.base_operand(b)),
                        ) {
                            (Side::Blocked(var), _) => self.lemma_parked(var, op),
                            (Side::Settled(_), Side::Blocked(var)) => self.lemma_parked(var, op),
                            _ => {},
                        }
                    },
                    Predicate::PermReprEq(p, q) => {
                        self.lemma_operands(Base { index: 0 }, p);
                        self.lemma_operands(Base { index: 0 }, q);
                        self.lemma_settled(self.perm_operand(p));
                        self.lemma_settled(self.perm_operand(q));
                        match (
                            self.settled(self.perm_operand(p)),
                            self.settled(self.perm_operand(q)),
                        ) {
                            (Side::Blocked(var), _) => self.lemma_parked(var, op),
                            (Side::Settled(_), Side::Blocked(var)) => self.lemma_parked(var, op),
                            _ => {},
                        }
                    },
                    Predicate::RegionConstraint {} => {},
                }
            },
            Op::Resolve { expr } => {
                match self.types[expr as int] {
                    None => {},
                    Some(ty) => {
                        self.lemma_operands(ty.base, ty.perm);
                        self.lemma_settled(self.base_operand(ty.base));
                        self.lemma_settled(self.perm_operand(ty.perm));
                        match self.settled(self.base_operand(ty.base)) {
                            Side::Blocked(var) => self.lemma_parked(var, op),
                            Side::Settled(x) => match self.settled(self.perm_operand(ty.perm)) {
                                Side::Blocked(var) => self.lemma_parked(var, op),
                                Side::Settled(y) => {},
                            },
                        }
                    },
                }
            },
        }
    }
}

/// The checker of one function body: the unification table, the pool of
/// operations that wait for a variable, the universes that are open, and
/// what was found so far.
struct TypeChecker {
    unify: UnificationTable,
    ops_arena: Arena<Op>,
    ops_blocked: IndexMap<usize, Vec<OpIndex>, BuildHasherDefault<FxHasher>>,
    types: Vec<Option<Ty>>,
    results: Vec<Option<Ty>>,
    errors: Vec<TypeError>,
    universe_binders: Vec<UniverseBinder>,
    locals: Vec<Option<Ty>>,
}

impl TypeChecker {
    /// The operations that wait for the variable with the number `v`.
    closed spec fn queue(&self, v: int) -> Seq<Op> {
        let map = blocked_ops(self.ops_blocked);
        let key = v as usize;
        if map.contains_key(key) {
            Seq::new(map[key].len(), |i: int| arena_ops(self.ops_arena)[map[key][i]])
        } else {
            Seq::empty()
        }
    }

    /// The state of the check, given what the tables hold.
    closed spec fn state(&self, tables: Tables) -> Checking {
        Checking {
            tables,
            unifier: self.unify@,
            queues: Seq::new(self.unify@.roots.len(), |v: int| self.queue(v)),
            types: self.types@,
            results: self.results@,
            errors: self.errors@,
            universes: self.universe_binders@,
            locals: self.locals@,
        }
    }

    /// Every index that waits for a variable names an operation of the
    /// arena.
    closed spec fn listed(&self) -> bool {
        &&& forall|key: usize, i: int|
            blocked_ops(self.ops_blocked).contains_key(key) && 0 <= i < blocked_ops(
                self.ops_blocked,
            )[key].len() ==> arena_ops(self.ops_arena).contains_key(
                #[trigger] blocked_ops(self.ops_blocked)[key][i],
            )
        &&& forall|key: usize| #[trigger]
            blocked_ops(self.ops_blocked).contains_key(key) ==> key < self.unify@.roots.len()
    }

    /// The checker is in order, given what the tables hold.
    closed spec fn inv(&self, tables: Tables) -> bool {
        self.listed() && self.state(tables).ok()
    }

    /// The arena of `later` holds what the arena of `self` holds.
    closed spec fn kept(&self, later: &TypeChecker) -> bool {
        arena_ops(self.ops_arena).submap_of(arena_ops(later.ops_arena))
    }

    /// A checker at the start of a body with `locals` local variables.
    fn new(tables: &TyInternTables, locals: usize) -> (r: TypeChecker)
        requires
            tables@.wf(),
        ensures
            r.inv(tables@),
            r.state(tables@) == Checking::start(tables@, locals as nat),
    {
        let mut none: Vec<Option<Ty>> = Vec::new();
        let mut i: usize = 0;
        while i < locals
            invariant
                i <= locals,
                none@ == Seq::new(i as nat, |k: int| None::<Ty>),
            decreases locals - i,
        {
            none.push(None);
            assert(none@ =~= Seq::new((i + 1) as nat, |k: int| None::<Ty>));
            i = i + 1;
        }
        let mut universe_binders: Vec<UniverseBinder> = Vec::new();
        universe_binders.push(UniverseBinder::Root);
        let r = TypeChecker {
            unify: UnificationTable::new(),
            ops_arena: arena_with_capacity(4),
            ops_blocked: blocked_with_capacity(0),
            types: Vec::new(),
            results: Vec::new(),
            errors: Vec::new(),
            universe_binders,
            locals: none,
        };
        proof {
            let s = r.state(tables@);
            let t = Checking::start(tables@, locals as nat);
            assert(s.unifier.roots =~= t.unifier.roots);
            assert(s.unifier.values =~= t.unifier.values);
            assert(s.unifier.events =~= t.unifier.events);
            assert(s.queues =~= t.queues);
            assert(s.types =~= t.types);
            assert(s.results =~= t.results);
            assert(s.errors =~= t.errors);
            assert(s.universes =~= t.universes);
        }
        r
    }

    fn base_operand(&self, tables: &TyInternTables, base: Base) -> (r: Operand)
        requires
            tables@.has_base(base),
        ensures
            r == self.state(tables@).base_operand(base),
    {
        match tables.lookup_base(base) {
            Inferable::Infer(var) => if var.index < self.unify.len() {
                Operand::Var(var)
            } else {
                Operand::Known(Value::Base(base))
            },
            _ => Operand::Known(Value::Base(base)),
        }
    }

    fn perm_operand(&self, tables: &TyInternTables, perm: Perm) -> (r: Operand)
        requires
            tables@.has_perm(perm),
        ensures
            r == self.state(tables@).perm_operand(perm),
    {
        match tables.lookup_perm(perm) {
            Inferable::Infer(var) => if var.index < self.unify.len() {
                Operand::Var(var)
            } else {
                Operand::Known(Value::Perm(perm))
            },
            _ => Operand::Known(Value::Perm(perm)),
        }
    }

    fn settle(&self, tables: &TyInternTables, operand: Operand) -> (r: Side)
        requires
            self.inv(tables@),
            self.state(tables@).has_operand(operand),
        ensures
            r == self.state(tables@).settled(operand),
    {
        match operand {
            Operand::Known(value) => Side::Settled(value),
            Operand::Var(var) => match self.unify.probe(var) {
                Some(value) => Side::Settled(value),
                None => Side::Blocked(var),
            },
        }
    }

    fn park(&mut self, tables: &TyInternTables, var: InferVar, op: Op)
        requires
            old(self).inv(tables@),
            old(self).state(tables@).unifier.has(var),
        ensures
            final(self).listed(),
            final(self).state(tables@) == old(self).state(tables@).parked(var, op),
            old(self).kept(final(self)),
    {
        let ghost before = self.state(tables@);
        let index = arena_insert(&mut self.ops_arena, op);
        let mut list = match blocked_remove(&mut self.ops_blocked, var.index) {
            Some(list) => list,
            None => Vec::new(),
        };
        list.push(index);
        blocked_insert(&mut self.ops_blocked, var.index, list);
        proof {
            let after = self.state(tables@);
            let want = before.parked(var, op);
            assert forall|v: int| 0 <= v < after.queues.len() implies after.queues[v]
                == want.queues[v] by {
                assert(after.queues[v] == self.queue(v));
                assert(before.queues[v] == old(self).queue(v));
                if v == var.index {
                    assert(self.queue(v) =~= old(self).queue(v).push(op));
                } else {
                    assert(self.queue(v) =~= old(self).queue(v));
                }
            }
            assert(after.queues =~= want.queues);
        }
    }

    fn fail(&mut self, tables: &TyInternTables, error: TypeError)
        ensures
            old(self).listed() ==> final(self).listed(),
            final(self).state(tables@) == old(self).state(tables@).failed(error),
            old(self).kept(final(self)),
    {
        self.errors.push(error);
        assert(self.state(tables@).queues =~= old(self).state(tables@).queues);
    }

    fn unify_with(&mut self, tables: &TyInternTables, expr: usize, var: InferVar, other: Operand)
        requires
            old(self).inv(tables@),
            old(self).state(tables@).unifier.has(var),
            old(self).state(tables@).has_operand(other),
        ensures
            final(self).listed(),
            final(self).state(tables@) == old(self).state(tables@).unified(expr, var, other),
            old(self).kept(final(self)),
    {
        match self.unify.unify(tables, Relation::BaseBaseEq, var, other) {
            Ok(()) => {},
            Err(mismatch) => {
                self.errors.push(
                    TypeError::Mismatch { expr, left: mismatch.left, right: mismatch.right },
                );
            },
        }
        proof {
            assert(self.unify@.roots.len() == old(self).unify@.roots.len());
            assert(self.state(tables@).queues =~= old(self).state(tables@).queues);
        }
    }

    fn equate(&mut self, tables: &TyInternTables, expr: usize, a: Operand, b: Operand)
        requires
            old(self).inv(tables@),
            old(self).state(tables@).has_operand(a),
            old(self).state(tables@).has_operand(b),
        ensures
            final(self).listed(),
            final(self).state(tables@) == old(self).state(tables@).equated(expr, a, b),
            old(self).kept(final(self)),
    {
        match (a, b) {
            (Operand::Var(var), _) => self.unify_with(tables, expr, var, b),
            (Operand::Known(_), Operand::Var(var)) => self.unify_with(tables, expr, var, a),
            (Operand::Known(x), Operand::Known(y)) => {
                if x != y {
                    self.fail(tables, TypeError::Mismatch { expr, left: x, right: y });
                }
            },
        }
    }

    fn relate(
        &mut self,
        tables: &TyInternTables,
        expr: usize,
        relation: Relation,
        a: Operand,
        b: Operand,
        op: Op,
    )
        requires
            old(self).inv(tables@),
            old(self).state(tables@).has_operand(a),
            old(self).state(tables@).has_operand(b),
        ensures
            final(self).listed(),
            final(self).state(tables@) == old(self).state(tables@).related(
                expr,
                relation,
                a,
                b,
                op,
            ),
            old(self).kept(final(self)),
    {
        proof {
            self.state(tables@).lemma_settled(a);
            self.state(tables@).lemma_settled(b);
        }
        match (self.settle(tables, a), self.settle(tables, b)) {
            (Side::Blocked(var), _) => self.park(tables, var, op),
            (Side::Settled(_), Side::Blocked(var)) => self.park(tables, var, op),
            (Side::Settled(x), Side::Settled(y)) => {
                if !are_compatible(tables, relation, x, y) {
                    self.fail(tables, TypeError::Mismatch { expr, left: x, right: y });
                }
            },
        }
    }

    fn prove(&mut self, tables: &TyInternTables, expr: usize, predicate: Predicate)
        requires
            old(self).inv(tables@),
            old(self).state(tables@).has_predicate(predicate),
        ensures
            final(self).listed(),
            final(self).state(tables@) == old(self).state(tables@).proved(expr, predicate),
            old(self).kept(final(self)),
    {
        proof {
            match predicate {
                Predicate::BaseBaseEq(a, b) | Predicate::BaseReprEq(a, b) => {
                    self.state(tables@).lemma_operands(a, Perm { index: 0 });
                    self.state(tables@).lemma_operands(b, Perm { index: 0 });
                },
                Predicate::PermReprEq(p, q) => {
                    self.state(tables@).lemma_operands(Base { index: 0 }, p);
                    self.state(tables@).lemma_operands(Base { index: 0 }, q);
                },
                _ => {},
            }
        }
        match predicate {
            Predicate::BaseBaseEq(a, b) => {
                let x = self.base_operand(tables, a);
                let y = self.base_operand(tables, b);
                self.equate(tables, expr, x, y);
            },
            Predicate::BaseReprEq(a, b) => {
                let x = self.base_operand(tables, a);
                let y = self.base_operand(tables, b);
                self.relate(
                    tables,
                    expr,
                    Relation::BaseReprEq,
                    x,
                    y,
                    Op::Prove { expr, predicate },
                );
            },
            Predicate::PermReprEq(p, q) => {
                let x = self.perm_operand(tables, p);
                let y = self.perm_operand(tables, q);
                self.relate(
                    tables,
                    expr,
                    Relation::PermReprEq,
                    x,
                    y,
                    Op::Prove { expr, predicate },
                );
            },
            Predicate::RegionConstraint {} => {},
        }
    }

    fn resolve(&mut self, tables: &TyInternTables, expr: usize)
        requires
            old(self).inv(tables@),
            expr < old(self).state(tables@).types.len(),
        ensures
            final(self).listed(),
            final(self).state(tables@) == old(self).state(tables@).resolved(expr),
            old(self).kept(final(self)),
    {
        let ghost before = self.state(tables@);
        match self.types[expr] {
            None => {},
            Some(ty) => {
                proof {
                    assert(before.types[expr as int] == Some(ty));
                    before.lemma_operands(ty.base, ty.perm);
                    before.lemma_settled(before.base_operand(ty.base));
                    before.lemma_settled(before.perm_operand(ty.perm));
                }
                let x = self.base_operand(tables, ty.base);
                match self.settle(tables, x) {
                    Side::Blocked(var) => self.park(tables, var, Op::Resolve { expr }),
                    Side::Settled(x) => {
                        let y = self.perm_operand(tables, ty.perm);
                        match self.settle(tables, y) {
                            Side::Blocked(var) => self.park(tables, var, Op::Resolve { expr }),
                            Side::Settled(y) => match (x, y) {
                                (Value::Base(base), Value::Perm(perm)) => {
                                    self.results.set(expr, Some(Ty { perm, base }));
                                    assert(self.state(tables@).queues =~= before.queues);
                                },
                                _ => self.fail(tables, TypeError::Unresolved { expr }),
                            },
                        }
                    },
                }
            },
        }
    }

    fn run(&mut self, tables: &TyInternTables, op: Op)
        requires
            old(self).inv(tables@),
            old(self).state(tables@).has_op(op),
        ensures
            final(self).inv(tables@),
            final(self).state(tables@) == old(self).state(tables@).ran(op),
            old(self).kept(final(self)),
    {
        proof {
            self.state(tables@).lemma_ran(op);
        }
        match op {
            Op::Prove { expr, predicate } => self.prove(tables, expr, predicate),
            Op::Resolve { expr } => self.resolve(tables, expr),
        }
    }
}

/// Whether the expression `expr`, the `k`-th of a body with `locals`
/// local variables, refers to earlier expressions, to local variables of
/// the body and to types of `tables` only.
pub open spec fn expr_fits(expr: Expr, k: int, locals: usize, tables: Tables) -> bool {
    match expr {
        Expr::Declared { ty } => tables.has_ty(ty),
        Expr::Local { var } => var < locals,
        Expr::Let { var, value } => var < locals && value < k,
        Expr::Assign { target, value } => target < k && value < k,
        Expr::Cast { value, ty } => value < k && tables.has_ty(ty),
        Expr::Enter { .. } => true,
        Expr::Leave => true,
    }
}

impl FnBody {
    /// Every expression refers to earlier expressions, to local variables
    /// of the body and to types of `tables` only.
    pub open spec fn wf(&self, tables: Tables) -> bool {
        forall|k: int|
            0 <= k < self.exprs@.len() ==> expr_fits(
                #[trigger] self.exprs@[k],
                k,
                self.locals,
                tables,
            )
    }

    /// Whether the body can be checked against `tables`.
    pub fn is_well_formed(&self, tables: &TyInternTables) -> (r: bool)
        ensures
            r == self.wf(tables@),
    {
        let n: usize = self.exprs.len();
        let mut k: usize = 0;
        while k < n
            invariant
                n == self.exprs@.len(),
                k <= n,
                forall|j: int|
                    0 <= j < k ==> expr_fits(#[trigger] self.exprs@[j], j, self.locals, tables@),
            decreases n - k,
        {
            let fits = match self.exprs[k] {
                Expr::Declared { ty } => tables.has_ty(ty),
                Expr::Local { var } => var < self.locals,
                Expr::Let { var, value } => var < self.locals && value < k,
                Expr::Assign { target, value } => target < k && value < k,
                Expr::Cast { value, ty } => value < k && tables.has_ty(ty),
                Expr::Enter { .. } => true,
                Expr::Leave => true,
            };
            if !fits {
                assert(!expr_fits(self.exprs@[k as int], k as int, self.locals, tables@));
                return false;
            }
            k = k + 1;
        }
        true
    }
}

impl TyInternTables {
    /// Whether both handles of `ty` are handles of these tables.
    pub fn has_ty(&self, ty: Ty) -> (r: bool)
        ensures
            r == self@.has_ty(ty),
    {
        ty.perm.index < self.perm_count() && ty.base.index < self.base_count()
    }
}

impl Checking {
    /// Whether `expr` refers to expressions that were walked, to local
    /// variables of the body and to types of the tables only.
    pub open spec fn has_expr(self, expr: Expr) -> bool {
        expr_fits(expr, self.types.len() as int, self.locals.len() as usize, self.tables)
    }

    /// Every error of a state in order, and every error that tells of an
    /// operation that still waits, is about an expression that was
    /// walked.
    pub proof fn lemma_reported(self, n: int)
        requires
            self.ok(),
            0 <= n <= self.queues.len(),
        ensures
            forall|i: int|
                0 <= i < self.reported(n).len() ==> (#[trigger] self.reported(n)[i]).spec_expr()
                    < self.types.len(),
        decreases n,
    {
        if n > 0 {
            self.lemma_reported(n - 1);
            let earlier = self.reported(n - 1);
            let queue = self.queues[n - 1];
            assert forall|i: int| 0 <= i < self.reported(n).len() implies (
            #[trigger] self.reported(n)[i]).spec_expr() < self.types.len() by {
                if i >= earlier.len() {
                    assert(self.has_op(self.queues[n - 1][i - earlier.len()]));
                }
            }
        }
    }

    /// The state with `later` as its tables.
    pub open spec fn with_tables(self, later: Tables) -> Checking {
        Checking { tables: later, ..self }
    }

    /// The state in which no operation waits for `var`.
    pub open spec fn emptied(self, var: InferVar) -> Checking {
        Checking { queues: self.queues.update(var.index as int, Seq::empty()), ..self }
    }

    /// The state stays in order when the tables grow.
    pub proof fn lemma_grown(self, later: Tables)
        requires
            self.ok(),
            self.tables.grows_to(later),
            later.wf(),
        ensures
            self.with_tables(later).ok(),
    {
        let after = Checking { tables: later, ..self };
        assert forall|v: int, i: int|
            0 <= v < after.queues.len() && 0 <= i < after.queues[v].len() implies after.has_op(
            #[trigger] after.queues[v][i],
        ) && Self::waits(after.queues[v][i]) by {
            assert(self.has_op(self.queues[v][i]));
        }
        assert forall|e: int| 0 <= e < after.types.len() implies (
        #[trigger] after.types[e] matches Some(ty) ==> after.tables.has_ty(ty)) by {
            assert(self.types[e] matches Some(ty) ==> self.tables.has_ty(ty));
        }
        assert forall|i: int| 0 <= i < after.locals.len() implies (
        #[trigger] after.locals[i] matches Some(ty) ==> after.tables.has_ty(ty)) by {
            assert(self.locals[i] matches Some(ty) ==> self.tables.has_ty(ty));
        }
        assert forall|v: int| 0 <= v < after.unifier.values.len() implies (
        #[trigger] after.unifier.values[v] matches Some(x) ==> after.tables.has_value(x)) by {
            assert(self.unifier.values[v] matches Some(x) ==> self.tables.has_value(x));
        }
    }

    /// The state stays in order when an expression is added whose type is
    /// of the tables.
    pub proof fn lemma_typed(self, ty: Option<Ty>)
        requires
            self.ok(),
            self.types.len() < usize::MAX,
            ty matches Some(t) ==> self.tables.has_ty(t),
        ensures
            self.typed(ty).ok(),
    {
        let after = self.typed(ty);
        assert forall|v: int, i: int|
            0 <= v < after.queues.len() && 0 <= i < after.queues[v].len() implies after.has_op(
            #[trigger] after.queues[v][i],
        ) && Self::waits(after.queues[v][i]) by {
            assert(self.has_op(self.queues[v][i]));
        }
        assert forall|e: int| 0 <= e < after.types.len() implies (
        #[trigger] after.types[e] matches Some(t) ==> after.tables.has_ty(t)) by {
            if e < self.types.len() {
                assert(self.types[e] matches Some(t) ==> self.tables.has_ty(t));
            }
        }
    }

    /// Running operations that can wait keeps the state in order and
    /// binds no variable.
    pub proof fn lemma_ran_all(self, ops: Seq<Op>, n: int)
        requires
            self.ok(),
            0 <= n <= ops.len(),
            forall|j: int| 0 <= j < n ==> self.has_op(#[trigger] ops[j]) && Self::waits(ops[j]),
        ensures
            self.ran_all(ops, n).ok(),
            self.ran_all(ops, n).tables == self.tables,
            self.ran_all(ops, n).types == self.types,
            self.ran_all(ops, n).unifier == self.unifier,
            self.ran_all(ops, n).universes == self.universes,
            self.ran_all(ops, n).locals == self.locals,
        decreases n,
    {
        if n > 0 {
            self.lemma_ran_all(ops, n - 1);
            let earlier = self.ran_all(ops, n - 1);
            assert(self.has_op(ops[n - 1]));
            earlier.lemma_ran(ops[n - 1]);
        }
    }

    /// The state with the queue of `var` emptied is in order.
    pub proof fn lemma_emptied(self, var: InferVar)
        requires
            self.ok(),
            self.unifier.has(var),
        ensures
            self.emptied(var).ok(),
    {
        let after = Checking { queues: self.queues.update(var.index as int, Seq::empty()), ..self };
        assert forall|v: int, i: int|
            0 <= v < after.queues.len() && 0 <= i < after.queues[v].len() implies after.has_op(
            #[trigger] after.queues[v][i],
        ) && Self::waits(after.queues[v][i]) by {
            assert(self.has_op(self.queues[v][i]));
        }
    }

    /// Taking up the operations that waited for a variable keeps the
    /// state in order and binds no variable.
    pub proof fn lemma_triggered(self, var: InferVar)
        requires
            self.ok(),
            self.unifier.has(var),
        ensures
            self.triggered(var).ok(),
            self.triggered(var).tables == self.tables,
            self.triggered(var).types == self.types,
            self.triggered(var).unifier == self.unifier,
            self.triggered(var).universes == self.universes,
            self.triggered(var).locals == self.locals,
    {
        let queue = self.queues[var.index as int];
        let emptied = Checking {
            queues: self.queues.update(var.index as int, Seq::empty()),
            ..self
        };
        self.lemma_emptied(var);
        assert forall|j: int| 0 <= j < queue.len() implies emptied.has_op(#[trigger] queue[j])
            && Self::waits(queue[j]) by {
            assert(self.has_op(self.queues[var.index as int][j]));
        }
        emptied.lemma_ran_all(queue, queue.len() as int);
    }

    /// Taking up the operations that waited for several variables keeps
    /// the state in order and binds no variable.
    pub proof fn lemma_triggered_all(self, vars: Seq<InferVar>, n: int)
        requires
            self.ok(),
            0 <= n <= vars.len(),
            forall|j: int| 0 <= j < n ==> self.unifier.has(#[trigger] vars[j]),
        ensures
            self.triggered_all(vars, n).ok(),
            self.triggered_all(vars, n).tables == self.tables,
            self.triggered_all(vars, n).types == self.types,
            self.triggered_all(vars, n).unifier == self.unifier,
            self.triggered_all(vars, n).universes == self.universes,
            self.triggered_all(vars, n).locals == self.locals,
        decreases n,
    {
        if n > 0 {
            self.lemma_triggered_all(vars, n - 1);
            self.triggered_all(vars, n - 1).lemma_triggered(vars[n - 1]);
        }
    }
}

impl TypeChecker {
    fn push_type(&mut self, tables: &TyInternTables, ty: Option<Ty>) -> (r: usize)
        requires
            old(self).inv(tables@),
            ty matches Some(t) ==> tables@.has_ty(t),
        ensures
            final(self).inv(tables@),
            final(self).state(tables@) == old(self).state(tables@).typed(ty),
            r == old(self).state(tables@).types.len(),
            old(self).kept(final(self)),
    {
        let e: usize = self.types.len();
        self.types.push(ty);
        self.results.push(None);
        let n: usize = self.types.len();
        proof {
            assert(self.state(tables@).queues =~= old(self).state(tables@).queues);
            old(self).state(tables@).lemma_typed(ty);
        }
        e
    }

    /// Takes up the operations that waited for `var`, oldest first.
    fn trigger_ops(&mut self, tables: &TyInternTables, var: InferVar)
        requires
            old(self).inv(tables@),
            old(self).state(tables@).unifier.has(var),
        ensures
            final(self).inv(tables@),
            final(self).state(tables@) == old(self).state(tables@).triggered(var),
            old(self).kept(final(self)),
    {
        let ghost before = self.state(tables@);
        let ghost queue = before.queues[var.index as int];
        let ghost emptied = Checking {
            queues: before.queues.update(var.index as int, Seq::empty()),
            ..before
        };
        proof {
            before.lemma_emptied(var);
            assert(queue == self.queue(var.index as int));
        }
        match blocked_remove(&mut self.ops_blocked, var.index) {
            None => {
                proof {
                    assert(queue =~= Seq::empty());
                    assert(self.state(tables@).queues =~= before.queues);
                    assert(emptied.queues =~= before.queues);
                }
            },
            Some(list) => {
                let n: usize = list.len();
                proof {
                    let after = self.state(tables@);
                    assert forall|v: int| 0 <= v < after.queues.len() implies after.queues[v]
                        == emptied.queues[v] by {
                        assert(after.queues[v] == self.queue(v));
                        assert(before.queues[v] == old(self).queue(v));
                        if v == var.index {
                            assert(self.queue(v) =~= Seq::empty());
                        } else {
                            assert(self.queue(v) =~= old(self).queue(v));
                        }
                    }
                    assert(after.queues =~= emptied.queues);
                    assert forall|j: int| 0 <= j < n implies emptied.has_op(#[trigger] queue[j])
                        by {
                        assert(before.has_op(before.queues[var.index as int][j]));
                    }
                }
                let mut i: usize = 0;
                while i < n
                    invariant
                        self.inv(tables@),
                        n == list@.len(),
                        queue.len() == n,
                        i <= n,
                        emptied.ok(),
                        self.state(tables@) == emptied.ran_all(queue, i as int),
                        forall|j: int|
                            0 <= j < n ==> arena_ops(self.ops_arena).contains_key(
                                #[trigger] list@[j],
                            ) && arena_ops(self.ops_arena)[list@[j]] == queue[j],
                        forall|j: int| 0 <= j < n ==> emptied.has_op(#[trigger] queue[j]),
                        self.state(tables@).tables == emptied.tables,
                        self.state(tables@).types == emptied.types,
                        old(self).kept(self),
                    decreases n - i,
                {
                    let ghost now = self.state(tables@);
                    let ghost held = arena_ops(self.ops_arena);
                    match arena_get(&self.ops_arena, list[i]) {
                        Some(op) => {
                            proof {
                                assert(op == queue[i as int]);
                                assert(emptied.has_op(queue[i as int]));
                                now.lemma_ran(op);
                            }
                            self.run(tables, op);
                        },
                        None => {},
                    }
                    proof {
                        assert(held.submap_of(arena_ops(self.ops_arena)));
                        assert forall|index: OpIndex|
                            arena_ops(old(self).ops_arena).contains_key(
                                index,
                            ) implies #[trigger] arena_ops(self.ops_arena).contains_key(index)
                            && arena_ops(self.ops_arena)[index] == arena_ops(
                            old(self).ops_arena,
                        )[index] by {
                            assert(held.contains_key(index));
                        }
                        assert forall|j: int| 0 <= j < n implies arena_ops(
                            self.ops_arena,
                        ).contains_key(#[trigger] list@[j]) && arena_ops(self.ops_arena)[list@[j]]
                            == queue[j] by {
                            assert(held.contains_key(list@[j]));
                        }
                    }
                    i = i + 1;
                }
            },
        }
    }

    /// Drains the events of the engine and takes up the operations that
    /// waited for the variables they name, until a drain yields no event.
    fn drain(&mut self, tables: &TyInternTables)
        requires
            old(self).inv(tables@),
        ensures
            final(self).inv(tables@),
            final(self).state(tables@) == old(self).state(tables@).drained(),
            final(self).state(tables@).unifier.events.len() == 0,
            final(self).state(tables@).types == old(self).state(tables@).types,
    {
        let ghost before = self.state(tables@);
        let mut first: bool = true;
        loop
            invariant
                self.inv(tables@),
                before.ok(),
                first ==> self.state(tables@) == before,
                !first ==> self.state(tables@) == before.drained() && self.state(
                    tables@,
                ).unifier.events.len() == 0,
                self.state(tables@).types == before.types,
            ensures
                self.inv(tables@),
                self.state(tables@) == before.drained(),
                self.state(tables@).unifier.events.len() == 0,
                self.state(tables@).types == before.types,
            decreases
                    if first {
                        1int
                    } else {
                        0int
                    },
        {
            let ghost now = self.state(tables@);
            let vars = self.unify.drain_events();
            let n: usize = vars.len();
            let ghost cleared = Checking { unifier: now.unifier.drained(), ..now };
            proof {
                assert(self.state(tables@).queues =~= now.queues);
                assert(self.state(tables@) == cleared);
                assert(cleared.ok()) by {
                    assert forall|v: int, i: int|
                        0 <= v < cleared.queues.len() && 0 <= i
                            < cleared.queues[v].len() implies cleared.has_op(
                        #[trigger] cleared.queues[v][i],
                    ) && Checking::waits(cleared.queues[v][i]) by {
                        assert(now.has_op(now.queues[v][i]));
                    }
                }
            }
            if n == 0 {
                proof {
                    assert(now.unifier.events =~= Seq::empty());
                    assert(cleared.unifier == now.unifier);
                }
                break ;
            }
            let mut k: usize = 0;
            while k < n
                invariant
                    self.inv(tables@),
                    first,
                    now == before,
                    cleared.ok(),
                    n == vars@.len(),
                    vars@ == now.unifier.events,
                    k <= n,
                    forall|j: int| 0 <= j < n ==> cleared.unifier.has(#[trigger] vars@[j]),
                    self.state(tables@) == cleared.triggered_all(vars@, k as int),
                decreases n - k,
            {
                proof {
                    cleared.lemma_triggered_all(vars@, k as int);
                }
                self.trigger_ops(tables, vars[k]);
                k = k + 1;
            }
            proof {
                cleared.lemma_triggered_all(vars@, n as int);
            }
            first = false;
        }
    }

    /// A fresh type: a base that awaits inference and, where permissions
    /// are kept, a permission that does.
    fn fresh_type(&mut self, tables: &mut TyInternTables, keeps_perms: bool) -> (r: Ty)
        requires
            old(self).inv(old(tables)@),
        ensures
            final(self).inv(final(tables)@),
            final(self).state(final(tables)@) == old(self).state(old(tables)@).with_fresh(
                keeps_perms,
            ),
            r == old(self).state(old(tables)@).fresh(keeps_perms),
            final(tables)@.has_ty(r),
            old(tables)@.grows_to(final(tables)@),
            old(self).kept(final(self)),
    {
        let ghost before = self.state(tables@);
        let ghost t0 = tables@;
        let var = self.unify.new_var();
        let base = tables.intern_base(Inferable::Infer(var));
        let ghost t1 = tables@;
        let perm = if keeps_perms {
            let second = self.unify.new_var();
            tables.intern_perm(Inferable::Infer(second))
        } else {
            tables.intern_perm(Inferable::Known(PermData::Own))
        };
        proof {
            t0.lemma_with_base(Inferable::Infer(var));
            if keeps_perms {
                t1.lemma_with_perm(
                    Inferable::Infer(InferVar { index: (before.unifier.roots.len() + 1) as usize }),
                );
            } else {
                t1.lemma_with_perm(Inferable::Known(PermData::Own));
            }
            t0.lemma_grows_on(t1, tables@);
            let after = self.state(tables@);
            let want = before.with_fresh(keeps_perms);
            assert forall|v: int| 0 <= v < after.queues.len() implies after.queues[v]
                == want.queues[v] by {
                assert(after.queues[v] == self.queue(v));
                if v < before.queues.len() {
                    assert(before.queues[v] == old(self).queue(v));
                } else {
                    assert(self.queue(v) =~= Seq::empty());
                }
            }
            assert(after.queues =~= want.queues);
            assert(after == want);
            let grown = Checking { tables: tables@, ..before };
            before.lemma_grown(tables@);
            assert forall|v: int, i: int|
                0 <= v < after.queues.len() && 0 <= i < after.queues[v].len() implies after.has_op(
                #[trigger] after.queues[v][i],
            ) && Checking::waits(after.queues[v][i]) by {
                assert(grown.has_op(grown.queues[v][i]));
            }
            assert forall|v: int| 0 <= v < after.unifier.values.len() implies (
            #[trigger] after.unifier.values[v] matches Some(x) ==> after.tables.has_value(x)) by {
                if v < grown.unifier.values.len() {
                    assert(grown.unifier.values[v] matches Some(x) ==> grown.tables.has_value(x));
                }
            }
            assert forall|i: int| 0 <= i < after.unifier.events.len() implies after.unifier.has(
                #[trigger] after.unifier.events[i],
            ) by {
                assert(grown.unifier.has(grown.unifier.events[i]));
            }
        }
        Ty { perm, base }
    }
}

impl TypeChecker {
    /// The universe in which placeholders are made at this point.
    fn universe(&self, tables: &TyInternTables) -> (r: UniverseIndex)
        requires
            self.inv(tables@),
        ensures
            r == self.state(tables@).universe(),
    {
        UniverseIndex::new(self.universe_binders.len() - 1)
    }

    /// The type of `ty` as seen from the universe that is open.
    fn declare(&mut self, tables: &mut TyInternTables, ty: Ty) -> (r: Ty)
        requires
            old(self).inv(old(tables)@),
            old(tables)@.has_ty(ty),
        ensures
            final(self).inv(final(tables)@),
            final(self).state(final(tables)@) == old(self).state(old(tables)@).with_tables(
                final(tables)@,
            ),
            (final(tables)@, r) == old(tables)@.instantiate_ty(
                ty,
                old(self).state(old(tables)@).universe(),
            ),
            final(tables)@.has_ty(r),
            old(tables)@.grows_to(final(tables)@),
    {
        let universe = self.universe(tables);
        let ghost before = self.state(tables@);
        let made = instantiate_ty(tables, ty, universe);
        proof {
            before.lemma_grown(tables@);
            assert(self.state(tables@).queues =~= before.queues);
        }
        made
    }

    /// Walks the next expression.
    fn check_expr(&mut self, tables: &mut TyInternTables, expr: Expr, keeps_perms: bool)
        requires
            old(self).inv(old(tables)@),
            old(self).state(old(tables)@).has_expr(expr),
        ensures
            final(self).inv(final(tables)@),
            final(self).state(final(tables)@) == old(self).state(old(tables)@).stepped(
                expr,
                keeps_perms,
            ),
            old(tables)@.grows_to(final(tables)@),
            final(self).state(final(tables)@).types.len() == old(self).state(
                old(tables)@,
            ).types.len() + 1,
            final(self).state(final(tables)@).locals.len() == old(self).state(
                old(tables)@,
            ).locals.len(),
    {
        let ghost before = self.state(tables@);
        proof {
            assert(before.tables.grows_to(before.tables));
        }
        match expr {
            Expr::Declared { ty } => {
                let made = self.declare(tables, ty);
                let e = self.push_type(tables, Some(made));
                proof {
                    self.state(tables@).lemma_ran(Op::Resolve { expr: e });
                }
                self.resolve(tables, e);
            },
            Expr::Local { var } => {
                match self.locals[var] {
                    Some(ty) => {
                        assert(before.locals[var as int] == Some(ty));
                        let e = self.push_type(tables, Some(ty));
                        proof {
                            self.state(tables@).lemma_ran(Op::Resolve { expr: e });
                        }
                        self.resolve(tables, e);
                    },
                    None => {
                        let ty = self.fresh_type(tables, keeps_perms);
                        let ghost after = self.state(tables@);
                        self.locals.set(var, Some(ty));
                        proof {
                            let now = self.state(tables@);
                            assert(now.queues =~= after.queues);
                            assert(now == Checking {
                                locals: after.locals.update(var as int, Some(ty)),
                                ..after
                            });
                            assert forall|v: int, i: int|
                                0 <= v < now.queues.len() && 0 <= i
                                    < now.queues[v].len() implies now.has_op(
                                #[trigger] now.queues[v][i],
                            ) && Checking::waits(now.queues[v][i]) by {
                                assert(after.has_op(after.queues[v][i]));
                            }
                            assert forall|i: int| 0 <= i < now.locals.len() implies (
                            #[trigger] now.locals[i] matches Some(t) ==> now.tables.has_ty(t)) by {
                                if i != var {
                                    assert(after.locals[i] matches Some(t) ==> after.tables.has_ty(
                                        t,
                                    ));
                                }
                            }
                        }
                        let e = self.push_type(tables, Some(ty));
                        proof {
                            self.state(tables@).lemma_ran(Op::Resolve { expr: e });
                        }
                        self.resolve(tables, e);
                    },
                }
            },
            Expr::Let { var, value } => {
                let ty = self.types[value];
                assert(before.types[value as int] == ty);
                self.locals.set(var, ty);
                proof {
                    let now = self.state(tables@);
                    assert(now.queues =~= before.queues);
                    assert(now == Checking {
                        locals: before.locals.update(var as int, ty),
                        ..before
                    });
                    assert forall|v: int, i: int|
                        0 <= v < now.queues.len() && 0 <= i < now.queues[v].len() implies now.has_op(
                        #[trigger] now.queues[v][i],
                    ) && Checking::waits(now.queues[v][i]) by {
                        assert(before.has_op(before.queues[v][i]));
                    }
                    assert forall|i: int| 0 <= i < now.locals.len() implies (
                    #[trigger] now.locals[i] matches Some(t) ==> now.tables.has_ty(t)) by {
                        if i != var {
                            assert(before.locals[i] matches Some(t) ==> before.tables.has_ty(t));
                        }
                    }
                }
                let e = self.push_type(tables, ty);
                proof {
                    self.state(tables@).lemma_ran(Op::Resolve { expr: e });
                }
                self.resolve(tables, e);
            },
            Expr::Assign { target, value } => {
                match (self.types[target], self.types[value]) {
                    (Some(a), Some(b)) => {
                        assert(before.types[target as int] == Some(a));
                        assert(before.types[value as int] == Some(b));
                        let e = self.push_type(tables, Some(a));
                        let first = Predicate::BaseBaseEq(a.base, b.base);
                        proof {
                            self.state(tables@).lemma_ran(Op::Prove { expr: e, predicate: first });
                        }
                        self.prove(tables, e, first);
                        if keeps_perms {
                            let second = Predicate::PermReprEq(a.perm, b.perm);
                            proof {
                                self.state(tables@).lemma_ran(
                                    Op::Prove { expr: e, predicate: second },
                                );
                            }
                            self.prove(tables, e, second);
                        }
                        proof {
                            self.state(tables@).lemma_ran(Op::Resolve { expr: e });
                        }
                        self.resolve(tables, e);
                    },
                    _ => {
                        self.push_type(tables, None);
                    },
                }
            },
            Expr::Cast { value, ty } => {
                let made = self.declare(tables, ty);
                let from = self.types[value];
                assert(before.types[value as int] == from);
                let e = self.push_type(tables, Some(made));
                match from {
                    Some(a) => {
                        let predicate = Predicate::BaseReprEq(a.base, made.base);
                        proof {
                            assert(before.tables.has_ty(a));
                            self.state(tables@).lemma_ran(Op::Prove { expr: e, predicate });
                        }
                        self.prove(tables, e, predicate);
                    },
                    None => {},
                }
                proof {
                    self.state(tables@).lemma_ran(Op::Resolve { expr: e });
                }
                self.resolve(tables, e);
            },
            Expr::Enter { parameters } => {
                self.universe_binders.push(UniverseBinder::Generic { parameters });
                let n: usize = self.universe_binders.len();
                proof {
                    let now = self.state(tables@);
                    assert(now.queues =~= before.queues);
                    assert forall|v: int, i: int|
                        0 <= v < now.queues.len() && 0 <= i < now.queues[v].len() implies now.has_op(
                        #[trigger] now.queues[v][i],
                    ) && Checking::waits(now.queues[v][i]) by {
                        assert(before.has_op(before.queues[v][i]));
                    }
                }
                self.push_type(tables, None);
            },
            Expr::Leave => {
                if self.universe_binders.len() > 1 {
                    self.universe_binders.pop();
                }
                proof {
                    let now = self.state(tables@);
                    assert(now.queues =~= before.queues);
                    assert forall|v: int, i: int|
                        0 <= v < now.queues.len() && 0 <= i < now.queues[v].len() implies now.has_op(
                        #[trigger] now.queues[v][i],
                    ) && Checking::waits(now.queues[v][i]) by {
                        assert(before.has_op(before.queues[v][i]));
                    }
                }
                self.push_type(tables, None);
            },
        }
    }

    /// Walks the body, first expression to last.
    fn walk(&mut self, tables: &mut TyInternTables, body: &FnBody, keeps_perms: bool)
        requires
            old(self).inv(old(tables)@),
            old(self).state(old(tables)@) == Checking::start(old(tables)@, body.locals as nat),
            body.wf(old(tables)@),
        ensures
            final(self).inv(final(tables)@),
            final(self).state(final(tables)@) == old(self).state(old(tables)@).walked(
                body.exprs@,
                body.exprs@.len() as int,
                keeps_perms,
            ),
            old(tables)@.grows_to(final(tables)@),
            final(self).state(final(tables)@).types.len() == body.exprs@.len(),
    {
        let ghost start = self.state(tables@);
        let ghost first = tables@;
        let n: usize = body.exprs.len();
        let mut k: usize = 0;
        proof {
            assert(first.grows_to(first));
        }
        while k < n
            invariant
                n == body.exprs@.len(),
                k <= n,
                first.wf(),
                body.wf(first),
                first.grows_to(tables@),
                self.inv(tables@),
                self.state(tables@) == start.walked(body.exprs@, k as int, keeps_perms),
                self.state(tables@).types.len() == k,
                self.state(tables@).locals.len() == body.locals,
            decreases n - k,
        {
            let expr = body.exprs[k];
            let ghost middle = tables@;
            proof {
                assert(expr_fits(body.exprs@[k as int], k as int, body.locals, first));
            }
            self.check_expr(tables, expr, keeps_perms);
            proof {
                first.lemma_grows_on(middle, tables@);
            }
            k = k + 1;
        }
    }

    /// The errors of the check, followed by those that tell of the
    /// operations that never ran.
    fn report(&mut self, tables: &TyInternTables) -> (r: Vec<TypeError>)
        requires
            old(self).inv(tables@),
        ensures
            r@ == old(self).state(tables@).reported(old(self).state(tables@).queues.len() as int),
            final(self).results == old(self).results,
    {
        let ghost before = self.state(tables@);
        let mut errors: Vec<TypeError> = Vec::new();
        std::mem::swap(&mut errors, &mut self.errors);
        let n: usize = self.unify.len();
        let mut v: usize = 0;
        while v < n
            invariant
                n == before.queues.len(),
                n == self.unify@.roots.len(),
                v <= n,
                self.listed(),
                errors@ == before.reported(v as int),
                forall|w: int| v <= w < n ==> self.queue(w) == #[trigger] before.queues[w],
                self.results == old(self).results,
            decreases n - v,
        {
            let ghost queue = before.queues[v as int];
            assert(self.queue(v as int) == queue);
            let ghost held = arena_ops(self.ops_arena);
            let ghost waiting = blocked_ops(self.ops_blocked);
            match blocked_remove(&mut self.ops_blocked, v) {
                None => {
                    assert(unresolved(queue) =~= Seq::empty());
                    assert(errors@ + unresolved(queue) =~= errors@);
                },
                Some(list) => {
                    let m: usize = list.len();
                    let mut i: usize = 0;
                    let ghost earlier = errors@;
                    while i < m
                        invariant
                            m == list@.len(),
                            m == queue.len(),
                            i <= m,
                            held == arena_ops(self.ops_arena),
                            self.results == old(self).results,
                            forall|j: int|
                                0 <= j < m ==> held.contains_key(#[trigger] list@[j])
                                    && held[list@[j]] == queue[j],
                            errors@ == earlier + unresolved(queue).subrange(0, i as int),
                        decreases m - i,
                    {
                        match arena_get(&self.ops_arena, list[i]) {
                            Some(op) => {
                                errors.push(TypeError::Unresolved { expr: op.expr() });
                            },
                            None => {},
                        }
                        assert(unresolved(queue).subrange(0, i as int).push(
                            unresolved(queue)[i as int],
                        ) =~= unresolved(queue).subrange(0, i + 1));
                        i = i + 1;
                    }
                    assert(unresolved(queue).subrange(0, m as int) =~= unresolved(queue));
                },
            }
            proof {
                assert forall|w: int| v + 1 <= w < n implies self.queue(w)
                    == #[trigger] before.queues[w] by {
                    assert(waiting.contains_key(w as usize) == blocked_ops(
                        self.ops_blocked,
                    ).contains_key(w as usize));
                }
            }
            v = v + 1;
        }
        errors
    }
}

/// Checks `body` against `tables` in the way of the family `F`: with or
/// without permissions. The body is walked, every operation that waited for
/// a variable bound on the way is taken up, and what still waits then is
/// reported as a type that could not be inferred.
pub fn check_fn_body<F: TypeFamily>(body: &FnBody, tables: &mut TyInternTables) -> (r:
    TypeCheckResults)
    requires
        old(tables)@.wf(),
        body.wf(old(tables)@),
    ensures
        final(tables)@.wf(),
        old(tables)@.grows_to(final(tables)@),
        ({
            let end = Checking::checked(
                old(tables)@,
                body.locals as nat,
                body.exprs@,
                F::keeps_perms(),
            );
            &&& final(tables)@ == end.tables
            &&& r.types@ == end.results
            &&& r.errors@ == end.reported(end.queues.len() as int)
            &&& end.unifier.events.len() == 0
        }),
        r.types@.len() == body.exprs@.len(),
        forall|e: int|
            0 <= e < r.types@.len() ==> final(tables)@.has_some_ty(#[trigger] r.types@[e]),
        forall|i: int|
            0 <= i < r.errors@.len() ==> (#[trigger] r.errors@[i]).spec_expr() < body.exprs@.len(),
{
    let keeps_perms = F::tracks_perms();
    let mut checker = TypeChecker::new(tables, body.locals);
    checker.walk(tables, body, keeps_perms);
    checker.drain(tables);
    let ghost end = checker.state(tables@);
    proof {
        assert(end.tables == tables@);
        assert(end.results == checker.results@);
        end.lemma_reported(end.queues.len() as int);
        assert forall|e: int| 0 <= e < end.results.len() implies end.tables.has_some_ty(
            #[trigger] end.results[e],
        ) by {}
    }
    let errors = checker.report(tables);
    TypeCheckResults { types: checker.results, errors }
}

/// Checks `body` with permissions erased.
pub fn base_type_check(body: &FnBody, tables: &mut TyInternTables) -> (r: TypeCheckResults)
    requires
        old(tables)@.wf(),
        body.wf(old(tables)@),
    ensures
        final(tables)@.wf(),
        old(tables)@.grows_to(final(tables)@),
        ({
            let end = Checking::checked(old(tables)@, body.locals as nat, body.exprs@, false);
            &&& final(tables)@ == end.tables
            &&& r.types@ == end.results
            &&& r.errors@ == end.reported(end.queues.len() as int)
            &&& end.unifier.events.len() == 0
        }),
        r.types@.len() == body.exprs@.len(),
        forall|e: int|
            0 <= e < r.types@.len() ==> final(tables)@.has_some_ty(#[trigger] r.types@[e]),
        forall|i: int|
            0 <= i < r.errors@.len() ==> (#[trigger] r.errors@[i]).spec_expr() < body.exprs@.len(),
{
    check_fn_body::<BaseInferred>(body, tables)
}

/// Checks `body` with its permissions.
pub fn full_type_check(body: &FnBody, tables: &mut TyInternTables) -> (r: TypeCheckResults)
    requires
        old(tables)@.wf(),
        body.wf(old(tables)@),
    ensures
        final(tables)@.wf(),
        old(tables)@.grows_to(final(tables)@),
        ({
            let end = Checking::checked(old(tables)@, body.locals as nat, body.exprs@, true);
            &&& final(tables)@ == end.tables
            &&& r.types@ == end.results
            &&& r.errors@ == end.reported(end.queues.len() as int)
            &&& end.unifier.events.len() == 0
        }),
        r.types@.len() == body.exprs@.len(),
        forall|e: int|
            0 <= e < r.types@.len() ==> final(tables)@.has_some_ty(#[trigger] r.types@[e]),
        forall|i: int|
            0 <= i < r.errors@.len() ==> (#[trigger] r.errors@[i]).spec_expr() < body.exprs@.len(),
{
    check_fn_body::<FullInferred>(body, tables)
}

} // verus!
