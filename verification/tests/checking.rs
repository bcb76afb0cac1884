use lark::check::{
    base_type_check, check_fn_body, full_type_check, Expr, FnBody, TypeError,
};
use lark::family::{BaseInferred, FullInferred};
use lark::indices::{Base, BoundIndex, DebruijnIndex, DefId, ParameterIndex, Placeholder, Region, UniverseIndex};
use lark::intern::TyInternTables;
use lark::ty::{BaseData, BaseKind, Generic, GenericsData, Inferable, PermData, Ty};
use lark::ops::Op;
use lark::ty::Predicate;
use lark::unify::Value;

fn named(tables: &mut TyInternTables, def: usize, arguments: Vec<Generic>) -> Base {
    let generics = tables.intern_generics(GenericsData::new(arguments));
    tables.intern_base(Inferable::Known(BaseData { kind: BaseKind::Named(DefId::new(def)), generics }))
}

fn owned(tables: &mut TyInternTables, base: Base) -> Ty {
    Ty { perm: tables.intern_perm(Inferable::Known(PermData::Own)), base }
}

#[test]
fn a_field_of_the_generic_parameter_resolves_to_its_placeholder() {
    let mut tables = TyInternTables::new();
    let parameter = tables.intern_base(Inferable::Bound(BoundIndex {
        binder: DebruijnIndex::innermost(),
        index: ParameterIndex::new(0),
    }));
    let field = owned(&mut tables, parameter);
    let body = FnBody { locals: 0, exprs: vec![Expr::Declared { ty: field }] };
    assert!(body.is_well_formed(&tables));
    let results = full_type_check(&body, &mut tables);
    assert_eq!(results.errors, vec![]);
    assert_eq!(results.types.len(), 1);
    let ty = results.types[0].unwrap();
    assert_eq!(tables.lookup_perm(ty.perm), Inferable::Known(PermData::Own));
    let data = tables.lookup_base(ty.base).assert_known();
    assert_eq!(
        data.kind,
        BaseKind::Placeholder(Placeholder {
            universe: UniverseIndex::root(),
            index: ParameterIndex::new(0),
        })
    );
}

#[test]
fn a_variable_that_nothing_defines_is_unresolved() {
    let mut tables = TyInternTables::new();
    let body = FnBody { locals: 1, exprs: vec![Expr::Local { var: 0 }] };
    let results = full_type_check(&body, &mut tables);
    assert_eq!(results.types, vec![None]);
    assert_eq!(results.errors, vec![TypeError::Unresolved { expr: 0 }]);
    let mut tables = TyInternTables::new();
    let results = base_type_check(&body, &mut tables);
    assert_eq!(results.types, vec![None]);
    assert_eq!(results.errors, vec![TypeError::Unresolved { expr: 0 }]);
}

#[test]
fn an_empty_body_has_nothing_to_report() {
    let mut tables = TyInternTables::new();
    let body = FnBody { locals: 3, exprs: vec![] };
    let results = base_type_check(&body, &mut tables);
    assert_eq!(results.types, vec![]);
    assert_eq!(results.errors, vec![]);
}

#[test]
fn a_let_gives_the_variable_the_type_of_its_value() {
    let mut tables = TyInternTables::new();
    let string = named(&mut tables, 1, vec![]);
    let ty = owned(&mut tables, string);
    let body = FnBody {
        locals: 1,
        exprs: vec![
            Expr::Declared { ty },
            Expr::Let { var: 0, value: 0 },
            Expr::Local { var: 0 },
        ],
    };
    let results = base_type_check(&body, &mut tables);
    assert_eq!(results.errors, vec![]);
    assert_eq!(results.types, vec![Some(ty), Some(ty), Some(ty)]);
}

#[test]
fn an_assignment_binds_the_variable_it_assigns_to() {
    let mut tables = TyInternTables::new();
    let string = named(&mut tables, 1, vec![]);
    let ty = owned(&mut tables, string);
    let body = FnBody {
        locals: 1,
        exprs: vec![
            Expr::Local { var: 0 },
            Expr::Declared { ty },
            Expr::Assign { target: 0, value: 1 },
            Expr::Local { var: 0 },
        ],
    };
    let results = base_type_check(&body, &mut tables);
    assert_eq!(results.errors, vec![]);
    assert_eq!(results.types.len(), 4);
    for found in results.types {
        assert_eq!(found.unwrap().base, string);
        assert_eq!(tables.lookup_perm(found.unwrap().perm), Inferable::Known(PermData::Own));
    }
}

#[test]
fn an_assignment_between_different_bases_is_a_mismatch() {
    let mut tables = TyInternTables::new();
    let string = named(&mut tables, 1, vec![]);
    let number = named(&mut tables, 2, vec![]);
    let a = owned(&mut tables, string);
    let b = owned(&mut tables, number);
    let body = FnBody {
        locals: 0,
        exprs: vec![
            Expr::Declared { ty: a },
            Expr::Declared { ty: b },
            Expr::Assign { target: 0, value: 1 },
        ],
    };
    let results = base_type_check(&body, &mut tables);
    assert_eq!(
        results.errors,
        vec![TypeError::Mismatch { expr: 2, left: Value::Base(string), right: Value::Base(number) }]
    );
    assert_eq!(results.types, vec![Some(a), Some(b), Some(a)]);
}

#[test]
fn a_second_binding_of_a_variable_is_held_against_the_first() {
    let mut tables = TyInternTables::new();
    let string = named(&mut tables, 1, vec![]);
    let number = named(&mut tables, 2, vec![]);
    let a = owned(&mut tables, string);
    let b = owned(&mut tables, number);
    let body = FnBody {
        locals: 1,
        exprs: vec![
            Expr::Local { var: 0 },
            Expr::Declared { ty: a },
            Expr::Declared { ty: b },
            Expr::Assign { target: 0, value: 1 },
            Expr::Assign { target: 0, value: 2 },
        ],
    };
    let results = base_type_check(&body, &mut tables);
    assert_eq!(
        results.errors,
        vec![TypeError::Mismatch { expr: 4, left: Value::Base(string), right: Value::Base(number) }]
    );
    assert_eq!(results.types[0].unwrap().base, string);
    assert_eq!(results.types[3].unwrap().base, string);
}

#[test]
fn a_cast_waits_for_its_value_and_then_compares_representations() {
    let mut tables = TyInternTables::new();
    let own = tables.intern_perm(Inferable::Known(PermData::Own));
    let shared = tables.intern_perm(Inferable::Known(PermData::Shared(Region::new(0))));
    let inner = named(&mut tables, 1, vec![]);
    let list_own = named(&mut tables, 2, vec![Generic::Ty(Ty { perm: own, base: inner })]);
    let list_shared = named(&mut tables, 2, vec![Generic::Ty(Ty { perm: shared, base: inner })]);
    let body = FnBody {
        locals: 1,
        exprs: vec![
            Expr::Local { var: 0 },
            Expr::Cast { value: 0, ty: Ty { perm: own, base: list_shared } },
            Expr::Declared { ty: Ty { perm: own, base: list_own } },
            Expr::Assign { target: 0, value: 2 },
        ],
    };
    let results = base_type_check(&body, &mut tables);
    assert_eq!(results.errors, vec![]);
    assert_eq!(results.types[0].unwrap().base, list_own);
    assert_eq!(results.types[1], Some(Ty { perm: own, base: list_shared }));
    assert_eq!(results.types[3].unwrap().base, list_own);
}

#[test]
fn a_cast_to_another_representation_is_a_mismatch_once_the_value_is_known() {
    let mut tables = TyInternTables::new();
    let own = tables.intern_perm(Inferable::Known(PermData::Own));
    let string = named(&mut tables, 1, vec![]);
    let number = named(&mut tables, 2, vec![]);
    let body = FnBody {
        locals: 1,
        exprs: vec![
            Expr::Local { var: 0 },
            Expr::Cast { value: 0, ty: Ty { perm: own, base: number } },
            Expr::Declared { ty: Ty { perm: own, base: string } },
            Expr::Assign { target: 0, value: 2 },
        ],
    };
    let results = base_type_check(&body, &mut tables);
    assert_eq!(
        results.errors,
        vec![TypeError::Mismatch { expr: 1, left: Value::Base(string), right: Value::Base(number) }]
    );
}

#[test]
fn what_waits_forever_is_reported_for_its_expression() {
    let mut tables = TyInternTables::new();
    let own = tables.intern_perm(Inferable::Known(PermData::Own));
    let number = named(&mut tables, 2, vec![]);
    let body = FnBody {
        locals: 2,
        exprs: vec![
            Expr::Local { var: 0 },
            Expr::Cast { value: 0, ty: Ty { perm: own, base: number } },
            Expr::Local { var: 1 },
        ],
    };
    let results = base_type_check(&body, &mut tables);
    assert_eq!(
        results.errors,
        vec![
            TypeError::Unresolved { expr: 0 },
            TypeError::Unresolved { expr: 1 },
            TypeError::Unresolved { expr: 2 },
        ]
    );
    assert_eq!(results.types, vec![None, Some(Ty { perm: own, base: number }), None]);
}

#[test]
fn two_unknown_variables_that_are_assigned_resolve_together() {
    let mut tables = TyInternTables::new();
    let string = named(&mut tables, 1, vec![]);
    let ty = owned(&mut tables, string);
    let body = FnBody {
        locals: 2,
        exprs: vec![
            Expr::Local { var: 0 },
            Expr::Local { var: 1 },
            Expr::Assign { target: 0, value: 1 },
            Expr::Declared { ty },
            Expr::Assign { target: 1, value: 3 },
        ],
    };
    let results = base_type_check(&body, &mut tables);
    assert_eq!(results.errors, vec![]);
    assert_eq!(results.types[0].unwrap().base, string);
    assert_eq!(results.types[1].unwrap().base, string);
    assert_eq!(results.types[2].unwrap().base, string);
    assert_eq!(results.types[4].unwrap().base, string);
}

#[test]
fn with_permissions_an_unknown_permission_stays_unresolved() {
    let mut tables = TyInternTables::new();
    let string = named(&mut tables, 1, vec![]);
    let ty = owned(&mut tables, string);
    let body = FnBody {
        locals: 1,
        exprs: vec![
            Expr::Local { var: 0 },
            Expr::Declared { ty },
            Expr::Assign { target: 0, value: 1 },
        ],
    };
    let results = check_fn_body::<FullInferred>(&body, &mut tables);
    assert_eq!(results.types[1], Some(ty));
    assert_eq!(results.types[0], None);
    assert_eq!(results.types[2], None);
    assert_eq!(
        results.errors,
        vec![
            TypeError::Unresolved { expr: 2 },
            TypeError::Unresolved { expr: 2 },
            TypeError::Unresolved { expr: 0 },
        ]
    );
    let mut tables = TyInternTables::new();
    let string = named(&mut tables, 1, vec![]);
    let ty = owned(&mut tables, string);
    let body = FnBody {
        locals: 1,
        exprs: vec![
            Expr::Local { var: 0 },
            Expr::Declared { ty },
            Expr::Assign { target: 0, value: 1 },
        ],
    };
    let results = check_fn_body::<BaseInferred>(&body, &mut tables);
    assert_eq!(results.errors, vec![]);
    assert_eq!(results.types, vec![Some(ty), Some(ty), Some(ty)]);
}

#[test]
fn with_permissions_an_assignment_compares_their_representation() {
    let mut tables = TyInternTables::new();
    let own = tables.intern_perm(Inferable::Known(PermData::Own));
    let shared = tables.intern_perm(Inferable::Known(PermData::Shared(Region::new(0))));
    let other = tables.intern_perm(Inferable::Known(PermData::Shared(Region::new(1))));
    let string = named(&mut tables, 1, vec![]);
    let body = FnBody {
        locals: 0,
        exprs: vec![
            Expr::Declared { ty: Ty { perm: shared, base: string } },
            Expr::Declared { ty: Ty { perm: other, base: string } },
            Expr::Declared { ty: Ty { perm: own, base: string } },
            Expr::Assign { target: 0, value: 1 },
            Expr::Assign { target: 0, value: 2 },
        ],
    };
    let results = full_type_check(&body, &mut tables);
    assert_eq!(
        results.errors,
        vec![TypeError::Mismatch { expr: 4, left: Value::Perm(shared), right: Value::Perm(own) }]
    );
    let results = base_type_check(&body, &mut tables);
    assert_eq!(results.errors, vec![]);
}

#[test]
fn a_scope_with_parameters_of_its_own_opens_a_universe() {
    let mut tables = TyInternTables::new();
    let parameter = tables.intern_base(Inferable::Bound(BoundIndex {
        binder: DebruijnIndex::innermost(),
        index: ParameterIndex::new(0),
    }));
    let ty = owned(&mut tables, parameter);
    let body = FnBody {
        locals: 0,
        exprs: vec![
            Expr::Declared { ty },
            Expr::Enter { parameters: 1 },
            Expr::Declared { ty },
            Expr::Leave,
            Expr::Declared { ty },
            Expr::Leave,
            Expr::Declared { ty },
        ],
    };
    let results = base_type_check(&body, &mut tables);
    assert_eq!(results.errors, vec![]);
    assert_eq!(results.types[1], None);
    assert_eq!(results.types[3], None);
    let universe_of = |found: Option<Ty>| match tables.lookup_base(found.unwrap().base).assert_known().kind {
        BaseKind::Placeholder(p) => p.universe,
        other => panic!("{:?}", other),
    };
    assert_eq!(universe_of(results.types[0]), UniverseIndex::new(0));
    assert_eq!(universe_of(results.types[2]), UniverseIndex::new(1));
    assert_eq!(universe_of(results.types[4]), UniverseIndex::new(0));
    assert_eq!(universe_of(results.types[6]), UniverseIndex::new(0));
    assert_ne!(results.types[0], results.types[2]);
    assert_eq!(results.types[0], results.types[4]);
}

#[test]
fn a_body_is_well_formed_when_it_refers_backwards() {
    let mut tables = TyInternTables::new();
    let string = named(&mut tables, 1, vec![]);
    let ty = owned(&mut tables, string);
    let good = FnBody { locals: 1, exprs: vec![Expr::Declared { ty }, Expr::Let { var: 0, value: 0 }] };
    assert!(good.is_well_formed(&tables));
    let forward = FnBody { locals: 1, exprs: vec![Expr::Let { var: 0, value: 0 }] };
    assert!(!forward.is_well_formed(&tables));
    let no_local = FnBody { locals: 0, exprs: vec![Expr::Local { var: 0 }] };
    assert!(!no_local.is_well_formed(&tables));
    let foreign = FnBody {
        locals: 0,
        exprs: vec![Expr::Declared { ty: Ty { perm: ty.perm, base: Base::new(17) } }],
    };
    assert!(!foreign.is_well_formed(&tables));
    let assign = FnBody { locals: 0, exprs: vec![Expr::Declared { ty }, Expr::Assign { target: 0, value: 1 }] };
    assert!(!assign.is_well_formed(&tables));
    let cast = FnBody { locals: 0, exprs: vec![Expr::Cast { value: 0, ty }] };
    assert!(!cast.is_well_formed(&tables));
}

#[test]
fn errors_and_operations_name_their_expression() {
    assert_eq!(TypeError::Unresolved { expr: 4 }.expr(), 4);
    let x = Value::Base(Base::new(0));
    assert_eq!(TypeError::Mismatch { expr: 7, left: x, right: x }.expr(), 7);
    assert_eq!(Op::Resolve { expr: 2 }.expr(), 2);
    assert_eq!(Op::Prove { expr: 3, predicate: Predicate::RegionConstraint {} }.expr(), 3);
}
