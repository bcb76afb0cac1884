use lark::indices::{Base, DefId, InferVar, ParameterIndex, Perm, Placeholder, Region, UniverseIndex};
use lark::intern::TyInternTables;
use lark::ty::{BaseData, BaseKind, Generic, GenericsData, Inferable, PermData, Ty};
use lark::unify::{are_compatible, Mismatch, Operand, Relation, UnificationTable, Value};

fn named(tables: &mut TyInternTables, def: usize, arguments: Vec<Generic>) -> Base {
    let generics = tables.intern_generics(GenericsData::new(arguments));
    tables.intern_base(Inferable::Known(BaseData { kind: BaseKind::Named(DefId::new(def)), generics }))
}

#[test]
fn new_variables_are_numbered_in_order() {
    let mut table = UnificationTable::new();
    assert_eq!(table.len(), 0);
    let a = table.new_var();
    let b = table.new_var();
    assert_eq!(a, InferVar::new(0));
    assert_eq!(b, InferVar::new(1));
    assert_eq!(table.len(), 2);
    assert_eq!(table.probe(a), None);
    assert_eq!(table.root(a), a);
    assert_eq!(table.root(b), b);
    assert_eq!(table.drain_events(), vec![]);
}

#[test]
fn unifying_with_the_same_value_twice_succeeds() {
    let mut tables = TyInternTables::new();
    let x = named(&mut tables, 1, vec![]);
    let mut table = UnificationTable::new();
    let v = table.new_var();
    let known = Operand::Known(Value::Base(x));
    assert_eq!(table.unify(&tables, Relation::BaseBaseEq, v, known), Ok(()));
    assert_eq!(table.probe(v), Some(Value::Base(x)));
    assert_eq!(table.unify(&tables, Relation::BaseBaseEq, v, known), Ok(()));
    assert_eq!(table.probe(v), Some(Value::Base(x)));
    assert_eq!(table.drain_events(), vec![v]);
    assert_eq!(table.drain_events(), vec![]);
}

#[test]
fn unifying_with_another_value_is_a_mismatch() {
    let mut tables = TyInternTables::new();
    let x = named(&mut tables, 1, vec![]);
    let y = named(&mut tables, 2, vec![]);
    let mut table = UnificationTable::new();
    let v = table.new_var();
    assert_eq!(table.unify(&tables, Relation::BaseBaseEq, v, Operand::Known(Value::Base(x))), Ok(()));
    assert_eq!(
        table.unify(&tables, Relation::BaseBaseEq, v, Operand::Known(Value::Base(y))),
        Err(Mismatch { left: Value::Base(x), right: Value::Base(y) })
    );
    assert_eq!(table.probe(v), Some(Value::Base(x)));
    assert_eq!(table.drain_events(), vec![v]);
}

#[test]
fn merged_variables_resolve_together() {
    let mut tables = TyInternTables::new();
    let x = named(&mut tables, 1, vec![]);
    let mut table = UnificationTable::new();
    let a = table.new_var();
    let b = table.new_var();
    assert_eq!(table.unify(&tables, Relation::BaseBaseEq, a, Operand::Var(b)), Ok(()));
    assert_eq!(table.root(a), a);
    assert_eq!(table.root(b), a);
    assert_eq!(table.probe(a), None);
    assert_eq!(table.drain_events(), vec![]);
    assert_eq!(table.unify(&tables, Relation::BaseBaseEq, b, Operand::Known(Value::Base(x))), Ok(()));
    assert_eq!(table.probe(a), Some(Value::Base(x)));
    assert_eq!(table.probe(b), Some(Value::Base(x)));
    assert_eq!(table.drain_events(), vec![a, b]);
    assert_eq!(table.drain_events(), vec![]);
}

#[test]
fn merging_takes_the_older_representative() {
    let tables = TyInternTables::new();
    let mut table = UnificationTable::new();
    let a = table.new_var();
    let b = table.new_var();
    let c = table.new_var();
    assert_eq!(table.unify(&tables, Relation::BaseBaseEq, c, Operand::Var(b)), Ok(()));
    assert_eq!(table.root(c), b);
    assert_eq!(table.root(b), b);
    assert_eq!(table.unify(&tables, Relation::BaseBaseEq, b, Operand::Var(a)), Ok(()));
    assert_eq!(table.root(a), a);
    assert_eq!(table.root(b), a);
    assert_eq!(table.root(c), a);
    assert_eq!(table.unify(&tables, Relation::BaseBaseEq, a, Operand::Var(c)), Ok(()));
    assert_eq!(table.drain_events(), vec![]);
}

#[test]
fn merging_with_a_bound_variable_binds_the_other_class() {
    let mut tables = TyInternTables::new();
    let x = named(&mut tables, 1, vec![]);
    let mut table = UnificationTable::new();
    let a = table.new_var();
    let b = table.new_var();
    let c = table.new_var();
    assert_eq!(table.unify(&tables, Relation::BaseBaseEq, a, Operand::Var(c)), Ok(()));
    assert_eq!(table.unify(&tables, Relation::BaseBaseEq, b, Operand::Known(Value::Base(x))), Ok(()));
    assert_eq!(table.drain_events(), vec![b]);
    assert_eq!(table.unify(&tables, Relation::BaseBaseEq, c, Operand::Var(b)), Ok(()));
    assert_eq!(table.probe(a), Some(Value::Base(x)));
    assert_eq!(table.probe(c), Some(Value::Base(x)));
    assert_eq!(table.root(b), a);
    assert_eq!(table.drain_events(), vec![a, c]);
}

#[test]
fn two_bound_variables_are_held_against_the_relation() {
    let mut tables = TyInternTables::new();
    let own = tables.intern_perm(Inferable::Known(PermData::Own));
    let shared = tables.intern_perm(Inferable::Known(PermData::Shared(Region::new(0))));
    let inner = named(&mut tables, 1, vec![]);
    let x = named(&mut tables, 2, vec![Generic::Ty(Ty { perm: own, base: inner })]);
    let y = named(&mut tables, 2, vec![Generic::Ty(Ty { perm: shared, base: inner })]);
    let mut table = UnificationTable::new();
    let a = table.new_var();
    let b = table.new_var();
    assert_eq!(table.unify(&tables, Relation::BaseBaseEq, a, Operand::Known(Value::Base(x))), Ok(()));
    assert_eq!(table.unify(&tables, Relation::BaseBaseEq, b, Operand::Known(Value::Base(y))), Ok(()));
    assert_eq!(table.unify(&tables, Relation::BaseReprEq, a, Operand::Var(b)), Ok(()));
    assert_eq!(
        table.unify(&tables, Relation::BaseBaseEq, a, Operand::Var(b)),
        Err(Mismatch { left: Value::Base(x), right: Value::Base(y) })
    );
    assert_eq!(table.root(a), a);
    assert_eq!(table.root(b), b);
    assert_eq!(table.probe(a), Some(Value::Base(x)));
    assert_eq!(table.probe(b), Some(Value::Base(y)));
}

#[test]
fn compatibility_follows_the_relation() {
    let mut tables = TyInternTables::new();
    let own = tables.intern_perm(Inferable::Known(PermData::Own));
    let shared_a = tables.intern_perm(Inferable::Known(PermData::Shared(Region::new(0))));
    let shared_b = tables.intern_perm(Inferable::Known(PermData::Shared(Region::new(1))));
    let inner = named(&mut tables, 1, vec![]);
    let x = named(&mut tables, 2, vec![Generic::Ty(Ty { perm: own, base: inner })]);
    let y = named(&mut tables, 2, vec![Generic::Ty(Ty { perm: shared_a, base: inner })]);
    assert!(are_compatible(&tables, Relation::BaseReprEq, Value::Base(x), Value::Base(y)));
    assert!(!are_compatible(&tables, Relation::BaseBaseEq, Value::Base(x), Value::Base(y)));
    assert!(are_compatible(&tables, Relation::BaseBaseEq, Value::Base(x), Value::Base(x)));
    assert!(!are_compatible(&tables, Relation::PermReprEq, Value::Base(x), Value::Base(y)));
    assert!(are_compatible(&tables, Relation::PermReprEq, Value::Perm(shared_a), Value::Perm(shared_b)));
    assert!(!are_compatible(&tables, Relation::BaseBaseEq, Value::Perm(shared_a), Value::Perm(shared_b)));
    assert!(!are_compatible(&tables, Relation::PermReprEq, Value::Perm(own), Value::Perm(shared_b)));
    assert!(!are_compatible(&tables, Relation::BaseReprEq, Value::Perm(own), Value::Base(x)));
    assert!(are_compatible(&tables, Relation::BaseReprEq, Value::Perm(own), Value::Perm(own)));
}

#[test]
fn a_placeholder_unifies_with_nothing_else() {
    let mut tables = TyInternTables::new();
    let empty = tables.intern_generics(GenericsData::new(vec![]));
    let first = tables.intern_base(Inferable::Known(BaseData {
        kind: BaseKind::Placeholder(Placeholder {
            universe: UniverseIndex::root(),
            index: ParameterIndex::new(0),
        }),
        generics: empty,
    }));
    let second = tables.intern_base(Inferable::Known(BaseData {
        kind: BaseKind::Placeholder(Placeholder {
            universe: UniverseIndex::root(),
            index: ParameterIndex::new(1),
        }),
        generics: empty,
    }));
    let concrete = named(&mut tables, 1, vec![]);
    let mut table = UnificationTable::new();
    let v = table.new_var();
    assert_eq!(table.unify(&tables, Relation::BaseReprEq, v, Operand::Known(Value::Base(first))), Ok(()));
    assert_eq!(
        table.unify(&tables, Relation::BaseReprEq, v, Operand::Known(Value::Base(second))),
        Err(Mismatch { left: Value::Base(first), right: Value::Base(second) })
    );
    assert_eq!(
        table.unify(&tables, Relation::BaseReprEq, v, Operand::Known(Value::Base(concrete))),
        Err(Mismatch { left: Value::Base(first), right: Value::Base(concrete) })
    );
    assert_eq!(table.unify(&tables, Relation::BaseReprEq, v, Operand::Known(Value::Base(first))), Ok(()));
}

#[test]
fn a_variable_can_hold_a_permission() {
    let mut tables = TyInternTables::new();
    let own = tables.intern_perm(Inferable::Known(PermData::Own));
    let mut table = UnificationTable::new();
    let v = table.new_var();
    assert_eq!(table.unify(&tables, Relation::PermReprEq, v, Operand::Known(Value::Perm(own))), Ok(()));
    assert_eq!(table.probe(v), Some(Value::Perm(own)));
    assert_eq!(table.probe(v), Some(Value::Perm(Perm::new(0))));
}
