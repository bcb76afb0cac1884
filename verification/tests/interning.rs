use lark::indices::{
    Base, BoundIndex, DebruijnIndex, DefId, Generics, InferVar, ParameterIndex, Perm, Placeholder,
    Region, UniverseIndex,
};
use lark::instantiate::{
    base_can_shift_in, can_shift_in, cross_ty, instantiate, instantiate_base, instantiate_perm,
    instantiate_ty, shift_in_ty, Crossing, GenericDefinition,
};
use lark::intern::TyInternTables;
use lark::program::{ModuleTable, StringId};
use lark::relate::{bases_repr_eq, perms_repr_eq};
use lark::ty::{BaseData, BaseKind, Generic, GenericsData, Inferable, PermData, Predicate, Ty};
use lark::family::{BaseInferred, BaseOnly, Erased, FullInferred, TypeFamily};

fn named(tables: &mut TyInternTables, def: usize, arguments: Vec<Generic>) -> Base {
    let generics = tables.intern_generics(GenericsData::new(arguments));
    tables.intern_base(Inferable::Known(BaseData { kind: BaseKind::Named(DefId::new(def)), generics }))
}

#[test]
fn interning_a_string_twice_gives_one_number() {
    let mut table = ModuleTable::new();
    let a = table.intern("msg");
    let b = table.intern("level");
    let c = table.intern("msg");
    assert_eq!(a, c);
    assert_ne!(a, b);
    assert_eq!(a, StringId { index: 0 });
    assert_eq!(b, StringId { index: 1 });
    assert_eq!(table.len(), 2);
    assert_eq!(table.lookup(a), "msg");
    assert_eq!(table.lookup(b), "level");
    assert_eq!(table.get("msg"), Some(a));
    assert_eq!(table.get("other"), None);
    assert_eq!(table.values(), vec!["msg".to_string(), "level".to_string()]);
}

#[test]
fn interning_the_empty_string() {
    let mut table = ModuleTable::new();
    assert_eq!(table.len(), 0);
    assert_eq!(table.get(""), None);
    let id = table.intern("");
    assert_eq!(table.lookup(id), "");
    assert_eq!(table.intern(""), id);
    assert_eq!(table.len(), 1);
}

#[test]
fn interning_a_permission_twice_gives_one_handle() {
    let mut tables = TyInternTables::new();
    let own = tables.intern_perm(Inferable::Known(PermData::Own));
    let shared = tables.intern_perm(Inferable::Known(PermData::Shared(Region::new(0))));
    let again = tables.intern_perm(Inferable::Known(PermData::Own));
    assert_eq!(own, again);
    assert_ne!(own, shared);
    assert_eq!(own, Perm::new(0));
    assert_eq!(shared, Perm::new(1));
    assert_eq!(tables.perm_count(), 2);
    assert_eq!(tables.lookup_perm(shared), Inferable::Known(PermData::Shared(Region::new(0))));
}

#[test]
fn interning_a_base_twice_gives_one_handle() {
    let mut tables = TyInternTables::new();
    let a = named(&mut tables, 1, vec![]);
    let b = named(&mut tables, 2, vec![]);
    let c = named(&mut tables, 1, vec![]);
    assert_eq!(a, c);
    assert_ne!(a, b);
    assert_eq!(tables.base_count(), 2);
    assert_eq!(tables.generics_count(), 1);
    assert_eq!(
        tables.lookup_base(b),
        Inferable::Known(BaseData { kind: BaseKind::Named(DefId::new(2)), generics: Generics::new(0) })
    );
}

#[test]
fn interning_generics_compares_their_elements() {
    let mut tables = TyInternTables::new();
    let own = tables.intern_perm(Inferable::Known(PermData::Own));
    let a = named(&mut tables, 1, vec![]);
    let b = named(&mut tables, 2, vec![]);
    let one = tables.intern_generics(GenericsData::new(vec![Generic::Ty(Ty { perm: own, base: a })]));
    let two = tables.intern_generics(GenericsData::new(vec![Generic::Ty(Ty { perm: own, base: b })]));
    let same = tables.intern_generics(GenericsData::new(vec![Generic::Ty(Ty { perm: own, base: a })]));
    assert_eq!(one, same);
    assert_ne!(one, two);
    assert_eq!(tables.lookup_generics(one).len(), 1);
    assert_eq!(tables.lookup_generics(one).get(0), Generic::Ty(Ty { perm: own, base: a }));
    assert!(tables.has_ty(Ty { perm: own, base: b }));
    assert!(!tables.has_ty(Ty { perm: Perm::new(9), base: b }));
    assert!(!tables.has_ty(Ty { perm: own, base: Base::new(9) }));
}

#[test]
fn generics_data_knows_its_length() {
    let empty = GenericsData::new(vec![]);
    assert!(empty.is_empty());
    assert!(!empty.is_not_empty());
    assert_eq!(empty.len(), 0);
    assert_eq!(empty.iter(), vec![]);
    let ty = Ty { perm: Perm::new(0), base: Base::new(0) };
    let other = Ty { perm: Perm::new(1), base: Base::new(0) };
    let two = GenericsData::new(vec![Generic::Ty(ty), Generic::Ty(other)]);
    assert!(!two.is_empty());
    assert!(two.is_not_empty());
    assert_eq!(two.len(), 2);
    assert_eq!(two.iter(), vec![Generic::Ty(ty), Generic::Ty(other)]);
    assert_eq!(two.get(1).ty(), other);
    assert!(two.same(&GenericsData::new(vec![Generic::Ty(ty), Generic::Ty(other)])));
    assert!(!two.same(&GenericsData::new(vec![Generic::Ty(other), Generic::Ty(ty)])));
    assert!(!two.same(&empty));
}

#[test]
fn assert_known_gives_the_value() {
    assert_eq!(Inferable::Known(PermData::Own).assert_known(), PermData::Own);
    assert_eq!(Inferable::Known(7u32).assert_known(), 7);
}

#[test]
fn predicates_compare_by_their_handles() {
    let a = Base::new(0);
    let b = Base::new(1);
    assert_eq!(Predicate::BaseBaseEq(a, b), Predicate::BaseBaseEq(a, b));
    assert_ne!(Predicate::BaseBaseEq(a, b), Predicate::BaseReprEq(a, b));
    assert_ne!(Predicate::PermReprEq(Perm::new(0), Perm::new(1)), Predicate::RegionConstraint {});
}

#[test]
fn repr_equality_ignores_nested_permissions() {
    let mut tables = TyInternTables::new();
    let own = tables.intern_perm(Inferable::Known(PermData::Own));
    let shared = tables.intern_perm(Inferable::Known(PermData::Shared(Region::new(0))));
    let inner = named(&mut tables, 1, vec![]);
    let a = named(&mut tables, 2, vec![Generic::Ty(Ty { perm: own, base: inner })]);
    let b = named(&mut tables, 2, vec![Generic::Ty(Ty { perm: shared, base: inner })]);
    assert_ne!(a, b);
    assert!(bases_repr_eq(&tables, a, b));
    assert!(bases_repr_eq(&tables, b, a));
    assert!(bases_repr_eq(&tables, a, a));
}

#[test]
fn repr_equality_compares_kinds_and_arguments() {
    let mut tables = TyInternTables::new();
    let own = tables.intern_perm(Inferable::Known(PermData::Own));
    let one = named(&mut tables, 1, vec![]);
    let two = named(&mut tables, 2, vec![]);
    let vec_one = named(&mut tables, 3, vec![Generic::Ty(Ty { perm: own, base: one })]);
    let vec_two = named(&mut tables, 3, vec![Generic::Ty(Ty { perm: own, base: two })]);
    let other_one = named(&mut tables, 4, vec![Generic::Ty(Ty { perm: own, base: one })]);
    let pair = named(
        &mut tables,
        3,
        vec![Generic::Ty(Ty { perm: own, base: one }), Generic::Ty(Ty { perm: own, base: one })],
    );
    assert!(!bases_repr_eq(&tables, one, two));
    assert!(!bases_repr_eq(&tables, vec_one, vec_two));
    assert!(!bases_repr_eq(&tables, vec_one, other_one));
    assert!(!bases_repr_eq(&tables, vec_one, pair));
    let infer = tables.intern_base(Inferable::Infer(InferVar::new(0)));
    let infer_other = tables.intern_base(Inferable::Infer(InferVar::new(1)));
    assert!(bases_repr_eq(&tables, infer, infer));
    assert!(!bases_repr_eq(&tables, infer, infer_other));
    assert!(!bases_repr_eq(&tables, infer, one));
}

#[test]
fn permissions_of_one_kind_have_one_representation() {
    let mut tables = TyInternTables::new();
    let own = tables.intern_perm(Inferable::Known(PermData::Own));
    let shared_a = tables.intern_perm(Inferable::Known(PermData::Shared(Region::new(0))));
    let shared_b = tables.intern_perm(Inferable::Known(PermData::Shared(Region::new(1))));
    let borrow = tables.intern_perm(Inferable::Known(PermData::Borrow(Region::new(0))));
    let p = Placeholder { universe: UniverseIndex::root(), index: ParameterIndex::new(0) };
    let q = Placeholder { universe: UniverseIndex::root(), index: ParameterIndex::new(1) };
    let hold_p = tables.intern_perm(Inferable::Known(PermData::Placeholder(p)));
    let hold_q = tables.intern_perm(Inferable::Known(PermData::Placeholder(q)));
    assert!(perms_repr_eq(&tables, shared_a, shared_b));
    assert!(perms_repr_eq(&tables, own, own));
    assert!(perms_repr_eq(&tables, borrow, borrow));
    assert!(!perms_repr_eq(&tables, own, shared_a));
    assert!(!perms_repr_eq(&tables, shared_a, borrow));
    assert!(perms_repr_eq(&tables, hold_p, hold_p));
    assert!(!perms_repr_eq(&tables, hold_p, hold_q));
    assert!(!perms_repr_eq(&tables, hold_p, own));
}

#[test]
fn instantiating_a_parameter_gives_its_placeholder() {
    let mut tables = TyInternTables::new();
    let universe = UniverseIndex::new(2);
    let bound = BoundIndex { binder: DebruijnIndex::innermost(), index: ParameterIndex::new(1) };
    let base = tables.intern_base(Inferable::Bound(bound));
    let perm = tables.intern_perm(Inferable::Bound(bound));
    let made = instantiate_ty(&mut tables, Ty { perm, base }, universe);
    let placeholder = Placeholder { universe, index: ParameterIndex::new(1) };
    assert_eq!(
        tables.lookup_perm(made.perm),
        Inferable::Known(PermData::Placeholder(placeholder))
    );
    match tables.lookup_base(made.base) {
        Inferable::Known(data) => {
            assert_eq!(data.kind, BaseKind::Placeholder(placeholder));
            assert!(tables.lookup_generics(data.generics).is_empty());
        }
        other => panic!("{:?}", other),
    }
}

#[test]
fn instantiating_shifts_outer_parameters_out() {
    let mut tables = TyInternTables::new();
    let outer = BoundIndex { binder: DebruijnIndex::new(2), index: ParameterIndex::new(0) };
    let base = tables.intern_base(Inferable::Bound(outer));
    let perm = tables.intern_perm(Inferable::Bound(outer));
    let new_base = instantiate_base(&mut tables, base, UniverseIndex::root());
    let new_perm = instantiate_perm(&mut tables, perm, UniverseIndex::root());
    let shifted = BoundIndex { binder: DebruijnIndex::new(1), index: ParameterIndex::new(0) };
    assert_eq!(tables.lookup_base(new_base), Inferable::Bound(shifted));
    assert_eq!(tables.lookup_perm(new_perm), Inferable::Bound(shifted));
}

#[test]
fn instantiating_leaves_known_and_unknown_alone() {
    let mut tables = TyInternTables::new();
    let own = tables.intern_perm(Inferable::Known(PermData::Own));
    let plain = named(&mut tables, 1, vec![]);
    let infer = tables.intern_base(Inferable::Infer(InferVar::new(0)));
    assert_eq!(instantiate_perm(&mut tables, own, UniverseIndex::root()), own);
    assert_eq!(instantiate_base(&mut tables, plain, UniverseIndex::root()), plain);
    assert_eq!(instantiate_base(&mut tables, infer, UniverseIndex::root()), infer);
}

#[test]
fn instantiating_reaches_generic_arguments() {
    let mut tables = TyInternTables::new();
    let universe = UniverseIndex::new(1);
    let bound = BoundIndex { binder: DebruijnIndex::innermost(), index: ParameterIndex::new(0) };
    let own = tables.intern_perm(Inferable::Known(PermData::Own));
    let parameter = tables.intern_base(Inferable::Bound(bound));
    let list = named(&mut tables, 5, vec![Generic::Ty(Ty { perm: own, base: parameter })]);
    let made = instantiate_base(&mut tables, list, universe);
    assert_ne!(made, list);
    let data = tables.lookup_base(made).assert_known();
    assert_eq!(data.kind, BaseKind::Named(DefId::new(5)));
    let arguments = tables.lookup_generics(data.generics).iter();
    assert_eq!(arguments.len(), 1);
    let argument = arguments[0].ty();
    assert_eq!(argument.perm, own);
    let inner = tables.lookup_base(argument.base).assert_known();
    assert_eq!(
        inner.kind,
        BaseKind::Placeholder(Placeholder { universe, index: ParameterIndex::new(0) })
    );
}

#[test]
fn instantiating_a_definition_with_two_parameters() {
    let mut tables = TyInternTables::new();
    let universe = UniverseIndex::new(4);
    let own = tables.intern_perm(Inferable::Known(PermData::Own));
    let first = tables.intern_base(Inferable::Bound(BoundIndex {
        binder: DebruijnIndex::innermost(),
        index: ParameterIndex::new(0),
    }));
    let second = tables.intern_base(Inferable::Bound(BoundIndex {
        binder: DebruijnIndex::innermost(),
        index: ParameterIndex::new(1),
    }));
    let definition = GenericDefinition {
        parameters: 2,
        body: vec![Ty { perm: own, base: first }, Ty { perm: own, base: second }],
    };
    let inside = instantiate(&mut tables, &definition, universe);
    assert_eq!(
        inside.placeholders,
        vec![
            Placeholder { universe, index: ParameterIndex::new(0) },
            Placeholder { universe, index: ParameterIndex::new(1) },
        ]
    );
    assert_eq!(inside.body.len(), 2);
    let a = inside.body[0].base;
    let b = inside.body[1].base;
    assert_ne!(a, b);
    assert_eq!(
        tables.lookup_base(a).assert_known().kind,
        BaseKind::Placeholder(inside.placeholders[0])
    );
    assert_eq!(
        tables.lookup_base(b).assert_known().kind,
        BaseKind::Placeholder(inside.placeholders[1])
    );
    assert!(!bases_repr_eq(&tables, a, b));
    let concrete = named(&mut tables, 1, vec![]);
    assert!(!bases_repr_eq(&tables, a, concrete));
    assert!(!bases_repr_eq(&tables, concrete, b));
}

#[test]
fn every_family_interns_base_data() {
    let mut tables = TyInternTables::new();
    let generics = tables.intern_generics(GenericsData::new(vec![]));
    let data = BaseData { kind: BaseKind::Named(DefId::new(3)), generics };
    let a = Erased::intern_base_data(&mut tables, data);
    let b = BaseOnly::intern_base_data(&mut tables, data);
    let c = BaseInferred::intern_base_data(&mut tables, data);
    let d = FullInferred::intern_base_data(&mut tables, data);
    assert_eq!(a, b);
    assert_eq!(b, c);
    assert_eq!(c, d);
    assert_eq!(tables.lookup_base(a), Inferable::Known(data));
    assert_eq!(tables.base_count(), 1);
    assert!(!Erased::tracks_perms());
    assert!(!BaseOnly::tracks_perms());
    assert!(!BaseInferred::tracks_perms());
    assert!(FullInferred::tracks_perms());
    assert_eq!(BaseInferred, BaseInferred);
}

#[test]
fn entering_a_binder_moves_every_parameter_out() {
    let mut tables = TyInternTables::new();
    let bound = BoundIndex { binder: DebruijnIndex::new(1), index: ParameterIndex::new(2) };
    let perm = tables.intern_perm(Inferable::Bound(bound));
    let parameter = tables.intern_base(Inferable::Bound(bound));
    let list = named(&mut tables, 5, vec![Generic::Ty(Ty { perm, base: parameter })]);
    let ty = Ty { perm, base: list };
    assert!(can_shift_in(&tables, ty));
    let inside = shift_in_ty(&mut tables, ty);
    let moved = BoundIndex { binder: DebruijnIndex::new(2), index: ParameterIndex::new(2) };
    assert_eq!(tables.lookup_perm(inside.perm), Inferable::Bound(moved));
    let data = tables.lookup_base(inside.base).assert_known();
    assert_eq!(data.kind, BaseKind::Named(DefId::new(5)));
    let argument = tables.lookup_generics(data.generics).get(0).ty();
    assert_eq!(tables.lookup_perm(argument.perm), Inferable::Bound(moved));
    assert_eq!(tables.lookup_base(argument.base), Inferable::Bound(moved));
}

#[test]
fn entering_a_binder_and_opening_it_gives_the_type_back() {
    let mut tables = TyInternTables::new();
    let own = tables.intern_perm(Inferable::Known(PermData::Own));
    let innermost = tables.intern_base(Inferable::Bound(BoundIndex {
        binder: DebruijnIndex::innermost(),
        index: ParameterIndex::new(0),
    }));
    let outer = tables.intern_base(Inferable::Bound(BoundIndex {
        binder: DebruijnIndex::new(3),
        index: ParameterIndex::new(1),
    }));
    let pair = named(
        &mut tables,
        7,
        vec![Generic::Ty(Ty { perm: own, base: innermost }), Generic::Ty(Ty { perm: own, base: outer })],
    );
    let ty = Ty { perm: own, base: pair };
    let inside = shift_in_ty(&mut tables, ty);
    assert_ne!(inside, ty);
    let back = instantiate_ty(&mut tables, inside, UniverseIndex::new(9));
    assert_eq!(back, ty);
    let same = cross_ty(&mut tables, inside, Crossing::Open(UniverseIndex::new(9)));
    assert_eq!(same, ty);
}

#[test]
fn a_parameter_of_the_last_binder_cannot_move_out() {
    let mut tables = TyInternTables::new();
    let own = tables.intern_perm(Inferable::Known(PermData::Own));
    let last = BoundIndex { binder: DebruijnIndex::new(usize::MAX), index: ParameterIndex::new(0) };
    let far = tables.intern_base(Inferable::Bound(last));
    let far_perm = tables.intern_perm(Inferable::Bound(last));
    let plain = named(&mut tables, 1, vec![]);
    let holds = named(&mut tables, 2, vec![Generic::Ty(Ty { perm: own, base: far })]);
    let holds_perm = named(&mut tables, 2, vec![Generic::Ty(Ty { perm: far_perm, base: plain })]);
    assert!(base_can_shift_in(&tables, plain));
    assert!(!base_can_shift_in(&tables, far));
    assert!(!base_can_shift_in(&tables, holds));
    assert!(!base_can_shift_in(&tables, holds_perm));
    assert!(can_shift_in(&tables, Ty { perm: own, base: plain }));
    assert!(!can_shift_in(&tables, Ty { perm: far_perm, base: plain }));
    assert!(!can_shift_in(&tables, Ty { perm: own, base: holds }));
}
