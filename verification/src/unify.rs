//! The unification engine: inference variables, what is known of them, and
//! the record of those that became known.

use crate::indices::{Base, InferVar, Perm};
use crate::intern::{Tables, TyInternTables};
use crate::relate::{base_repr_eq, bases_repr_eq, perm_repr_eq, perms_repr_eq};
use vstd::prelude::*;

verus! {

/// What a variable can be bound to.
#[derive(Copy, Clone, Debug, PartialEq, Eq, Hash, Structural)]
pub enum Value {
    Perm(Perm),
    Base(Base),
}

/// The relation that two known values have to be in.
#[derive(Copy, Clone, Debug, PartialEq, Eq, Hash, Structural)]
pub enum Relation {
    /// The two values are the same.
    BaseBaseEq,
    /// The two values are bases with the same representation.
    BaseReprEq,
    /// The two values are permissions with the same representation.
    PermReprEq,
}

/// The second side of a unification.
#[derive(Copy, Clone, Debug, PartialEq, Eq, Hash, Structural)]
pub enum Operand {
    Var(InferVar),
    Known(Value),
}

/// Two known values that were to be in a relation and are not.
#[derive(Copy, Clone, Debug, PartialEq, Eq, Hash, Structural)]
pub struct Mismatch {
    pub left: Value,
    pub right: Value,
}

impl Tables {
    /// Whether the handle in `value` is a handle of these tables.
    pub open spec fn has_value(self, value: Value) -> bool {
        match value {
            Value::Perm(p) => self.has_perm(p),
            Value::Base(b) => self.has_base(b),
        }
    }
}

/// Whether `x` and `y` are in `relation`. The same value twice is in every
/// relation.
pub open spec fn compatible(tables: Tables, relation: Relation, x: Value, y: Value) -> bool {
    x == y || match (relation, x, y) {
        (Relation::BaseReprEq, Value::Base(a), Value::Base(b)) => base_repr_eq(
            tables.base_term(a),
            tables.base_term(b),
        ),
        (Relation::PermReprEq, Value::Perm(p), Value::Perm(q)) => perm_repr_eq(
            tables.perms[p.index as int],
            tables.perms[q.index as int],
        ),
        _ => false,
    }
}

/// Whether `x` and `y` are in `relation`.
pub fn are_compatible(tables: &TyInternTables, relation: Relation, x: Value, y: Value) -> (r: bool)
    requires
        tables@.wf(),
        tables@.has_value(x),
        tables@.has_value(y),
    ensures
        r == compatible(tables@, relation, x, y),
{
    if x == y {
        return true;
    }
    match (relation, x, y) {
        (Relation::BaseReprEq, Value::Base(a), Value::Base(b)) => bases_repr_eq(tables, a, b),
        (Relation::PermReprEq, Value::Perm(p), Value::Perm(q)) => perms_repr_eq(tables, p, q),
        _ => false,
    }
}

/// What a unification table holds: for every variable the representative
/// of its class and the value it is bound to, and the variables that
/// became bound since the events were last drained.
pub struct Unifier {
    pub roots: Seq<InferVar>,
    pub values: Seq<Option<Value>>,
    pub events: Seq<InferVar>,
}

impl Unifier {
    /// Whether `var` is a variable of the table.
    pub open spec fn has(self, var: InferVar) -> bool {
        var.index < self.roots.len()
    }

    /// The representative of the class of `var`.
    pub open spec fn root(self, var: InferVar) -> InferVar {
        self.roots[var.index as int]
    }

    /// What `var` is bound to.
    pub open spec fn probe(self, var: InferVar) -> Option<Value> {
        self.values[var.index as int]
    }

    /// The representative of a class is its oldest variable, and the
    /// variables of a class are bound alike.
    pub open spec fn wf(self) -> bool {
        &&& self.values.len() == self.roots.len() <= usize::MAX
        &&& forall|v: int|
            0 <= v < self.roots.len() ==> {
                &&& (#[trigger] self.roots[v]).index <= v
                &&& self.roots[self.roots[v].index as int] == self.roots[v]
                &&& self.values[v] == self.values[self.roots[v].index as int]
            }
    }

    /// Every event names a variable of the table.
    pub open spec fn events_ok(self) -> bool {
        forall|i: int| 0 <= i < self.events.len() ==> self.has(#[trigger] self.events[i])
    }

    /// Every value that a variable is bound to is one of `tables`.
    pub open spec fn values_in(self, tables: Tables) -> bool {
        forall|v: int|
            0 <= v < self.values.len() ==> (#[trigger] self.values[v] matches Some(x)
                ==> tables.has_value(x))
    }

    /// The variables below `n` whose representative is `root`, oldest
    /// first.
    pub open spec fn members(self, root: InferVar, n: int) -> Seq<InferVar>
        decreases n,
    {
        if n <= 0 {
            Seq::empty()
        } else {
            let earlier = self.members(root, n - 1);
            if n <= self.roots.len() && self.roots[n - 1] == root {
                earlier.push(InferVar { index: (n - 1) as usize })
            } else {
                earlier
            }
        }
    }

    /// The variables whose representative is `root`, oldest first.
    pub open spec fn class(self, root: InferVar) -> Seq<InferVar> {
        self.members(root, self.roots.len() as int)
    }

    /// The table with one more variable, in a class of its own and
    /// unbound.
    pub open spec fn with_var(self) -> Unifier {
        Unifier {
            roots: self.roots.push(InferVar { index: self.roots.len() as usize }),
            values: self.values.push(None),
            events: self.events,
        }
    }

    /// The table once the class of `root` was bound to `value`: every
    /// variable of the class is bound and reported.
    pub open spec fn bound(self, root: InferVar, value: Value) -> Unifier {
        Unifier {
            roots: self.roots,
            values: Seq::new(
                self.values.len(),
                |v: int|
                    if self.roots[v] == root {
                        Some(value)
                    } else {
                        self.values[v]
                    },
            ),
            events: self.events + self.class(root),
        }
    }

    /// The value of the class that `into` and `from` make together.
    pub open spec fn joint_value(self, into: InferVar, from: InferVar) -> Option<Value> {
        if self.probe(into) is Some {
            self.probe(into)
        } else {
            self.probe(from)
        }
    }

    /// The variables that become bound when the classes of `into` and
    /// `from` are made one.
    pub open spec fn newly_bound(self, into: InferVar, from: InferVar) -> Seq<InferVar> {
        if self.probe(into) is Some && self.probe(from) is None {
            self.class(from)
        } else if self.probe(into) is None && self.probe(from) is Some {
            self.class(into)
        } else {
            Seq::empty()
        }
    }

    /// The table once the class of `from` was merged into the class of
    /// `into`. Where one of the two was bound, the variables of the other
    /// are bound to the same value and reported.
    pub open spec fn merged(self, into: InferVar, from: InferVar) -> Unifier {
        Unifier {
            roots: Seq::new(
                self.roots.len(),
                |v: int|
                    if self.roots[v] == from {
                        into
                    } else {
                        self.roots[v]
                    },
            ),
            values: Seq::new(
                self.values.len(),
                |v: int|
                    if self.roots[v] == from || self.roots[v] == into {
                        self.joint_value(into, from)
                    } else {
                        self.values[v]
                    },
            ),
            events: self.events + self.newly_bound(into, from),
        }
    }

    /// The table once its events were drained: none is left.
    pub open spec fn drained(self) -> Unifier {
        Unifier { events: Seq::empty(), ..self }
    }

    /// The two values that stand against unifying `a` with `b`, if any
    /// do: `a` is bound, `b` is known or bound, and the two values are not
    /// in `relation`.
    pub open spec fn conflict(
        self,
        tables: Tables,
        relation: Relation,
        a: InferVar,
        b: Operand,
    ) -> Option<Mismatch> {
        let right = match b {
            Operand::Known(x) => Some(x),
            Operand::Var(w) => self.probe(w),
        };
        match (self.probe(a), right) {
            (Some(x), Some(y)) => if compatible(tables, relation, x, y) {
                None
            } else {
                Some(Mismatch { left: x, right: y })
            },
            _ => None,
        }
    }

    /// The table once `a` was unified with `b`. An unbound variable is
    /// bound to a known value; two classes of which at most one is bound
    /// become one, with the older representative; nothing changes where
    /// both sides are bound, or known.
    pub open spec fn unified(
        self,
        tables: Tables,
        relation: Relation,
        a: InferVar,
        b: Operand,
    ) -> Unifier {
        match b {
            Operand::Known(x) => if self.probe(a) is None {
                self.bound(self.root(a), x)
            } else {
                self
            },
            Operand::Var(w) => if self.root(a) == self.root(w) || (self.probe(a) is Some
                && self.probe(w) is Some) {
                self
            } else if self.root(a).index < self.root(w).index {
                self.merged(self.root(a), self.root(w))
            } else {
                self.merged(self.root(w), self.root(a))
            },
        }
    }

    /// A class lists each of its variables once, oldest first, and no
    /// other variable.
    pub proof fn lemma_members(self, root: InferVar, n: int)
        requires
            0 <= n <= self.roots.len() <= usize::MAX,
        ensures
            forall|i: int, j: int|
                0 <= i < j < self.members(root, n).len() ==> self.members(root, n)[i].index
                    < self.members(root, n)[j].index,
            forall|i: int|
                0 <= i < self.members(root, n).len() ==> (#[trigger] self.members(root, n)[i]).index
                    < n && self.root(self.members(root, n)[i]) == root,
            forall|v: InferVar|
                v.index < n && self.root(v) == root ==> #[trigger] self.members(root, n).contains(
                    v,
                ),
        decreases n,
    {
        if n > 0 {
            self.lemma_members(root, n - 1);
            let earlier = self.members(root, n - 1);
            let now = self.members(root, n);
            assert forall|i: int| 0 <= i < now.len() implies (#[trigger] now[i]).index < n
                && self.root(now[i]) == root by {
                if i < earlier.len() {
                    assert(now[i] == earlier[i]);
                }
            }
            assert forall|i: int, j: int| 0 <= i < j < now.len() implies now[i].index
                < now[j].index by {
                assert(now[i] == earlier[i]);
                if j < earlier.len() {
                    assert(now[j] == earlier[j]);
                }
            }
            assert forall|v: InferVar| v.index < n && self.root(v) == root implies now.contains(
                v,
            ) by {
                if v.index < n - 1 {
                    assert(earlier.contains(v));
                    let i = choose|i: int| 0 <= i < earlier.len() && earlier[i] == v;
                    assert(now[i] == v);
                } else {
                    assert(now[now.len() - 1] == v);
                }
            }
        }
    }

    /// Binding a class keeps the table in order.
    pub proof fn lemma_bound(self, tables: Tables, root: InferVar, value: Value)
        requires
            self.wf(),
        ensures
            self.bound(root, value).wf(),
            self.values_in(tables) && tables.has_value(value) ==> self.bound(
                root,
                value,
            ).values_in(tables),
    {
        let after = self.bound(root, value);
        assert forall|v: int| 0 <= v < after.roots.len() implies {
            &&& (#[trigger] after.roots[v]).index <= v
            &&& after.roots[after.roots[v].index as int] == after.roots[v]
            &&& after.values[v] == after.values[after.roots[v].index as int]
        } by {
            let r = self.roots[v];
            assert(self.roots[r.index as int] == r);
        }
    }

    /// Merging the classes of two representatives, the older first, keeps
    /// the table in order.
    pub proof fn lemma_merged(self, tables: Tables, into: InferVar, from: InferVar)
        requires
            self.wf(),
            self.has(into),
            self.has(from),
            self.root(into) == into,
            self.root(from) == from,
            into.index < from.index,
        ensures
            self.merged(into, from).wf(),
            self.values_in(tables) ==> self.merged(into, from).values_in(tables),
    {
        let after = self.merged(into, from);
        assert forall|v: int| 0 <= v < after.roots.len() implies {
            &&& (#[trigger] after.roots[v]).index <= v
            &&& after.roots[after.roots[v].index as int] == after.roots[v]
            &&& after.values[v] == after.values[after.roots[v].index as int]
        } by {
            let r = self.roots[v];
            assert(self.roots[r.index as int] == r);
        }
        if self.values_in(tables) {
            assert forall|v: int| 0 <= v < after.values.len() implies (
            #[trigger] after.values[v] matches Some(x) ==> tables.has_value(x)) by {
                assert(self.values[into.index as int] matches Some(x) ==> tables.has_value(x));
                assert(self.values[from.index as int] matches Some(x) ==> tables.has_value(x));
                assert(self.values[v] matches Some(x) ==> tables.has_value(x));
            }
        }
    }

    /// Whether `b` names a variable of this table or a value of `tables`.
    pub open spec fn has_operand(self, tables: Tables, b: Operand) -> bool {
        match b {
            Operand::Var(w) => self.has(w),
            Operand::Known(x) => tables.has_value(x),
        }
    }

    /// Unifying keeps the table in order.
    pub proof fn lemma_unified(self, tables: Tables, relation: Relation, a: InferVar, b: Operand)
        requires
            self.wf(),
            self.has(a),
            self.has_operand(tables, b),
        ensures
            self.unified(tables, relation, a, b).wf(),
            self.values_in(tables) ==> self.unified(tables, relation, a, b).values_in(tables),
            self.events_ok() ==> self.unified(tables, relation, a, b).events_ok(),
            self.unified(tables, relation, a, b).roots.len() == self.roots.len(),
    {
        let ra = self.root(a);
        assert(self.root(ra) == ra);
        self.lemma_members(ra, self.roots.len() as int);
        if let Operand::Var(w) = b {
            self.lemma_members(self.root(w), self.roots.len() as int);
        }
        match b {
            Operand::Known(x) => {
                self.lemma_bound(tables, ra, x);
            },
            Operand::Var(w) => {
                let rw = self.root(w);
                assert(self.root(rw) == rw);
                if ra.index < rw.index {
                    self.lemma_merged(tables, ra, rw);
                } else if rw.index < ra.index {
                    self.lemma_merged(tables, rw, ra);
                }
            },
        }
    }
}

impl Unifier {
    /// Unifying a variable with a known value a second time succeeds and
    /// changes nothing, whenever the first time succeeded.
    pub proof fn lemma_unify_known_again(
        self,
        tables: Tables,
        relation: Relation,
        var: InferVar,
        value: Value,
    )
        requires
            self.wf(),
            self.has(var),
            self.conflict(tables, relation, var, Operand::Known(value)) is None,
        ensures
            ({
                let once = self.unified(tables, relation, var, Operand::Known(value));
                &&& once.conflict(tables, relation, var, Operand::Known(value)) is None
                &&& once.unified(tables, relation, var, Operand::Known(value)) == once
            }),
    {
    }

    /// Once an unbound variable was unified with a known value, unifying
    /// it with another value under equality fails with the two values, and
    /// changes nothing.
    pub proof fn lemma_unify_other_value(
        self,
        tables: Tables,
        relation: Relation,
        var: InferVar,
        first: Value,
        second: Value,
    )
        requires
            self.wf(),
            self.has(var),
            self.probe(var) is None,
            first != second,
        ensures
            ({
                let once = self.unified(tables, relation, var, Operand::Known(first));
                &&& once.conflict(tables, Relation::BaseBaseEq, var, Operand::Known(second))
                    == Some(Mismatch { left: first, right: second })
                &&& once.unified(tables, Relation::BaseBaseEq, var, Operand::Known(second)) == once
            }),
    {
    }

    /// Binding an unbound variable to a known value reports the variables
    /// of its class, the variable among them, each exactly once. Unifying
    /// a bound variable with a known value reports nothing.
    pub proof fn lemma_bind_reports_once(
        self,
        tables: Tables,
        relation: Relation,
        var: InferVar,
        value: Value,
    )
        requires
            self.wf(),
            self.has(var),
        ensures
            ({
                let once = self.unified(tables, relation, var, Operand::Known(value));
                let reported = self.class(self.root(var));
                &&& self.probe(var) is Some ==> once.events == self.events
                &&& self.probe(var) is None ==> once.events == self.events + reported
                &&& reported.contains(var)
                &&& forall|i: int, j: int|
                    0 <= i < j < reported.len() ==> reported[i] != reported[j]
            }),
    {
        self.lemma_members(self.root(var), self.roots.len() as int);
    }

    /// What is known of a variable stays known: unifying never changes
    /// the value of a variable that is bound, and never takes a variable
    /// out of the class it is in with another.
    pub proof fn lemma_unify_keeps_what_is_known(
        self,
        tables: Tables,
        relation: Relation,
        a: InferVar,
        b: Operand,
        var: InferVar,
        other: InferVar,
    )
        requires
            self.wf(),
            self.has(a),
            self.has_operand(tables, b),
            self.has(var),
            self.has(other),
        ensures
            self.probe(var) is Some ==> self.unified(tables, relation, a, b).probe(var)
                == self.probe(var),
            self.root(var) == self.root(other) ==> self.unified(tables, relation, a, b).root(var)
                == self.unified(tables, relation, a, b).root(other),
    {
        assert(self.root(self.root(a)) == self.root(a));
        if let Operand::Var(w) = b {
            assert(self.root(self.root(w)) == self.root(w));
        }
    }

    /// It makes no difference for the table which of two variables is
    /// unified with which.
    pub proof fn lemma_unify_is_symmetric(
        self,
        tables: Tables,
        relation: Relation,
        a: InferVar,
        b: InferVar,
    )
        requires
            self.wf(),
            self.has(a),
            self.has(b),
        ensures
            self.unified(tables, relation, a, Operand::Var(b)) == self.unified(
                tables,
                relation,
                b,
                Operand::Var(a),
            ),
    {
    }

    /// A drain leaves no event behind: a second drain right after it
    /// yields nothing and changes nothing, and no drain changes what is
    /// known of a variable.
    pub proof fn lemma_drained_twice(self)
        ensures
            self.drained().events.len() == 0,
            self.drained().drained() == self.drained(),
            self.drained().roots == self.roots,
            self.drained().values == self.values,
    {
    }

    /// When two unbound variables are unified and one of them is then
    /// unified with a known value, both are bound to that value, and both
    /// are among the variables reported by the second step.
    pub proof fn lemma_merge_then_bind(
        self,
        tables: Tables,
        relation: Relation,
        a: InferVar,
        b: InferVar,
        value: Value,
    )
        requires
            self.wf(),
            self.has(a),
            self.has(b),
            self.probe(a) is None,
            self.probe(b) is None,
        ensures
            ({
                let merged = self.unified(tables, relation, a, Operand::Var(b));
                let done = merged.unified(tables, relation, b, Operand::Known(value));
                let reported = merged.class(merged.root(b));
                &&& merged.events == self.events
                &&& done.events == self.events + reported
                &&& reported.contains(a)
                &&& reported.contains(b)
                &&& done.probe(a) == Some(value)
                &&& done.probe(b) == Some(value)
            }),
    {
        let merged = self.unified(tables, relation, a, Operand::Var(b));
        self.lemma_unified(tables, relation, a, Operand::Var(b));
        assert(self.root(self.root(a)) == self.root(a));
        assert(self.root(self.root(b)) == self.root(b));
        assert(merged.root(a) == merged.root(b));
        assert(merged.probe(b) is None);
        assert(merged.events =~= self.events);
        merged.lemma_members(merged.root(b), merged.roots.len() as int);
    }
}

/// The table of one check: its inference variables, what they are bound
/// to, and the events that tell which of them became bound.
#[derive(Debug)]
pub struct UnificationTable {
    roots: Vec<InferVar>,
    values: Vec<Option<Value>>,
    events: Vec<InferVar>,
}

impl View for UnificationTable {
    type V = Unifier;

    closed spec fn view(&self) -> Unifier {
        Unifier { roots: self.roots@, values: self.values@, events: self.events@ }
    }
}

impl UnificationTable {
    /// A table without variables.
    pub fn new() -> (r: UnificationTable)
        ensures
            r@.wf(),
            r@.roots.len() == 0,
            r@.events.len() == 0,
    {
        UnificationTable { roots: Vec::new(), values: Vec::new(), events: Vec::new() }
    }

    /// The number of variables.
    pub fn len(&self) -> (r: usize)
        ensures
            r == self@.roots.len(),
    {
        self.roots.len()
    }

    /// A fresh variable, unbound and in a class of its own.
    pub fn new_var(&mut self) -> (r: InferVar)
        requires
            old(self)@.wf(),
        ensures
            final(self)@ == old(self)@.with_var(),
            final(self)@.wf(),
            r.index == old(self)@.roots.len(),
    {
        let var = InferVar { index: self.roots.len() };
        self.roots.push(var);
        self.values.push(None);
        let n = self.roots.len();
        assert(n == old(self)@.roots.len() + 1);
        var
    }

    /// What `var` is bound to.
    pub fn probe(&self, var: InferVar) -> (r: Option<Value>)
        requires
            self@.values.len() == self@.roots.len(),
            self@.has(var),
        ensures
            r == self@.probe(var),
    {
        self.values[var.index]
    }

    /// The representative of the class of `var`.
    pub fn root(&self, var: InferVar) -> (r: InferVar)
        requires
            self@.has(var),
        ensures
            r == self@.root(var),
    {
        self.roots[var.index]
    }

    fn bind(&mut self, root: InferVar, value: Value)
        requires
            old(self)@.wf(),
        ensures
            final(self)@ == old(self)@.bound(root, value),
    {
        let ghost before = self@;
        let n: usize = self.roots.len();
        let mut v: usize = 0;
        while v < n
            invariant
                before.wf(),
                before == old(self)@,
                n == before.roots.len(),
                v <= n,
                self.roots@ == before.roots,
                self.values@.len() == n,
                forall|i: int|
                    0 <= i < n ==> #[trigger] self.values@[i] == if i < v && before.roots[i]
                        == root {
                        Some(value)
                    } else {
                        before.values[i]
                    },
                self.events@ == before.events + before.members(root, v as int),
            decreases n - v,
        {
            if self.roots[v] == root {
                self.values.set(v, Some(value));
                self.events.push(InferVar { index: v });
            }
            assert(self.events@ =~= before.events + before.members(root, v + 1));
            v = v + 1;
        }
        assert(self@.values =~= before.bound(root, value).values);
    }

    fn merge(&mut self, into: InferVar, from: InferVar)
        requires
            old(self)@.wf(),
            old(self)@.has(into),
            old(self)@.has(from),
            into != from,
        ensures
            final(self)@ == old(self)@.merged(into, from),
    {
        let ghost before = self@;
        let joint = match self.values[into.index] {
            Some(x) => Some(x),
            None => self.values[from.index],
        };
        let report_from = self.values[into.index].is_some() && self.values[from.index].is_none();
        let report_into = self.values[into.index].is_none() && self.values[from.index].is_some();
        let n: usize = self.roots.len();
        let mut v: usize = 0;
        while v < n
            invariant
                before.wf(),
                before == old(self)@,
                n == before.roots.len(),
                v <= n,
                into != from,
                joint == before.joint_value(into, from),
                report_from == (before.probe(into) is Some && before.probe(from) is None),
                report_into == (before.probe(into) is None && before.probe(from) is Some),
                self.roots@.len() == n,
                self.values@.len() == n,
                forall|i: int|
                    0 <= i < n ==> #[trigger] self.roots@[i] == if i < v && before.roots[i]
                        == from {
                        into
                    } else {
                        before.roots[i]
                    },
                forall|i: int|
                    0 <= i < n ==> #[trigger] self.values@[i] == if i < v && (before.roots[i]
                        == from || before.roots[i] == into) {
                        joint
                    } else {
                        before.values[i]
                    },
                self.events@ == before.events + if report_from {
                    before.members(from, v as int)
                } else if report_into {
                    before.members(into, v as int)
                } else {
                    Seq::empty()
                },
            decreases n - v,
        {
            let root = self.roots[v];
            if root == from {
                self.roots.set(v, into);
                self.values.set(v, joint);
                if report_from {
                    self.events.push(InferVar { index: v });
                }
            } else if root == into {
                self.values.set(v, joint);
                if report_into {
                    self.events.push(InferVar { index: v });
                }
            }
            assert(self.events@ =~= before.events + if report_from {
                before.members(from, v + 1)
            } else if report_into {
                before.members(into, v + 1)
            } else {
                Seq::empty()
            });
            v = v + 1;
        }
        assert(self@.roots =~= before.merged(into, from).roots);
        assert(self@.values =~= before.merged(into, from).values);
        assert(self@.events =~= before.merged(into, from).events);
    }

    /// Unifies `a` with `b`. An unbound variable is bound to a known
    /// value, two classes of which at most one is bound become one, and
    /// every variable that becomes bound is reported. Where both sides
    /// are bound, or known, nothing changes, and the two values are an
    /// error unless they are in `relation`.
    pub fn unify(
        &mut self,
        tables: &TyInternTables,
        relation: Relation,
        a: InferVar,
        b: Operand,
    ) -> (r: Result<(), Mismatch>)
        requires
            old(self)@.wf(),
            old(self)@.values_in(tables@),
            tables@.wf(),
            old(self)@.has(a),
            old(self)@.has_operand(tables@, b),
        ensures
            final(self)@ == old(self)@.unified(tables@, relation, a, b),
            final(self)@.wf(),
            final(self)@.values_in(tables@),
            r == match old(self)@.conflict(tables@, relation, a, b) {
                Some(mismatch) => Err::<(), Mismatch>(mismatch),
                None => Ok(()),
            },
    {
        proof {
            self@.lemma_unified(tables@, relation, a, b);
        }
        let ra = self.roots[a.index];
        let left = self.values[a.index];
        match b {
            Operand::Known(x) => match left {
                Some(y) => {
                    assert(tables@.has_value(y));
                    if are_compatible(tables, relation, y, x) {
                        Ok(())
                    } else {
                        Err(Mismatch { left: y, right: x })
                    }
                },
                None => {
                    self.bind(ra, x);
                    Ok(())
                },
            },
            Operand::Var(w) => {
                let rw = self.roots[w.index];
                let right = self.values[w.index];
                match (left, right) {
                    (Some(y), Some(z)) => {
                        assert(tables@.has_value(y));
                        assert(tables@.has_value(z));
                        if are_compatible(tables, relation, y, z) {
                            Ok(())
                        } else {
                            Err(Mismatch { left: y, right: z })
                        }
                    },
                    _ => {
                        if ra.index < rw.index {
                            self.merge(ra, rw);
                        } else if rw.index < ra.index {
                            self.merge(rw, ra);
                        }
                        Ok(())
                    },
                }
            },
        }
    }

    /// The variables that became bound since the events were last
    /// drained, in the order in which they became bound. They are handed
    /// out once: the table keeps none of them.
    pub fn drain_events(&mut self) -> (r: Vec<InferVar>)
        ensures
            r@ == old(self)@.events,
            final(self)@ == old(self)@.drained(),
    {
        let mut out: Vec<InferVar> = Vec::new();
        std::mem::swap(&mut self.events, &mut out);
        out
    }
}

} // verus!
