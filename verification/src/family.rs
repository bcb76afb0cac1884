//! Type families: what a type looks like in one phase of compilation.

use crate::indices::{Base, Perm, Placeholder};
use crate::intern::TyInternTables;
use crate::ty::{BaseData, Inferable};
use vstd::prelude::*;

verus! {

/// Stands in the place of a permission where permissions are not kept.
#[derive(Copy, Clone, Debug, PartialEq, Eq, Hash, Structural)]
pub struct Erased;

/// A choice of representation for permissions, base types and
/// placeholders, and the one operation that every choice offers: to intern
/// the data of a base type.
pub trait TypeFamily: Sized {
    type Perm;

    type Base;

    type Placeholder;

    /// Whether types of this family keep their permissions.
    spec fn keeps_perms() -> bool;

    /// The handle behind a base of this family.
    spec fn handle(base: Self::Base) -> Base;

    /// Whether types of this family keep their permissions.
    fn tracks_perms() -> (r: bool)
        ensures
            r == Self::keeps_perms(),
    ;

    /// The base of this family that `base_data` is, interned in `tables`.
    fn intern_base_data(tables: &mut TyInternTables, base_data: BaseData) -> (r: Self::Base)
        requires
            old(tables)@.wf(),
            old(tables)@.has_generics(base_data.generics),
        ensures
            final(tables)@ == old(tables)@.with_base(Inferable::Known(base_data)),
            final(tables)@.wf(),
            Self::handle(r) == final(tables)@.base_handle(Inferable::Known(base_data)),
            final(tables)@.has_base(Self::handle(r)),
            final(tables)@.bases[Self::handle(r).index as int] == Inferable::Known(base_data),
    ;
}

/// The family of types without permissions and without unknowns.
#[derive(Copy, Clone, Debug, PartialEq, Eq, Hash, Structural)]
pub struct BaseOnly;

impl TypeFamily for Erased {
    type Perm = ();

    type Base = Base;

    type Placeholder = Placeholder;

    open spec fn keeps_perms() -> bool {
        false
    }

    open spec fn handle(base: Base) -> Base {
        base
    }

    fn tracks_perms() -> (r: bool) {
        false
    }

    fn intern_base_data(tables: &mut TyInternTables, base_data: BaseData) -> (r: Base) {
        tables.intern_base(Inferable::Known(base_data))
    }
}

impl TypeFamily for BaseOnly {
    type Perm = Erased;

    type Base = Base;

    type Placeholder = Placeholder;

    open spec fn keeps_perms() -> bool {
        false
    }

    open spec fn handle(base: Base) -> Base {
        base
    }

    fn tracks_perms() -> (r: bool) {
        false
    }

    fn intern_base_data(tables: &mut TyInternTables, base_data: BaseData) -> (r: Base) {
        tables.intern_base(Inferable::Known(base_data))
    }
}

/// The family of types whose permissions are erased and whose bases may
/// await inference.
#[derive(Copy, Clone, Debug, PartialEq, Eq, Hash, Structural)]
pub struct BaseInferred;

impl TypeFamily for BaseInferred {
    type Perm = Erased;

    type Base = Base;

    type Placeholder = Placeholder;

    open spec fn keeps_perms() -> bool {
        false
    }

    open spec fn handle(base: Base) -> Base {
        base
    }

    fn tracks_perms() -> (r: bool) {
        false
    }

    fn intern_base_data(tables: &mut TyInternTables, base_data: BaseData) -> (r: Base) {
        tables.intern_base(Inferable::Known(base_data))
    }
}

/// The family of types in which permissions and bases alike may await
/// inference or name a generic parameter.
#[derive(Copy, Clone, Debug, PartialEq, Eq, Hash, Structural)]
pub struct FullInferred;

impl TypeFamily for FullInferred {
    type Perm = Perm;

    type Base = Base;

    type Placeholder = Placeholder;

    open spec fn keeps_perms() -> bool {
        true
    }

    open spec fn handle(base: Base) -> Base {
        base
    }

    fn tracks_perms() -> (r: bool) {
        true
    }

    fn intern_base_data(tables: &mut TyInternTables, base_data: BaseData) -> (r: Base) {
        tables.intern_base(Inferable::Known(base_data))
    }
}

} // verus!
