//! Interning: deduplicating storage that gives every value a small number,
//! the same whenever the same value comes again.

use crate::indices::{Base, BoundIndex, Generics, InferVar, Perm};
use crate::ty::{BaseData, BaseKind, Generic, GenericsData, Inferable, PermData, Ty};
use vstd::prelude::*;

verus! {

/// Whether no value occurs twice in `table`.
pub open spec fn distinct<T>(table: Seq<T>) -> bool {
    forall|i: int, j: int| 0 <= i < j < table.len() ==> table[i] != table[j]
}

/// The table after `value` was interned into `table`: unchanged where it
/// holds `value`, with `value` at its end where it does not.
pub open spec fn interned<T>(table: Seq<T>, value: T) -> Seq<T> {
    if table.contains(value) {
        table
    } else {
        table.push(value)
    }
}

/// The place of `value` in `table`, which holds it.
pub open spec fn position<T>(table: Seq<T>, value: T) -> int {
    choose|i: int| 0 <= i < table.len() && table[i] == value
}

/// In a table without duplicates a value has one place.
pub proof fn lemma_position<T>(table: Seq<T>, value: T, i: int)
    requires
        distinct(table),
        0 <= i < table.len(),
        table[i] == value,
    ensures
        position(table, value) == i,
{
}

/// Whether `longer` starts with the entries of `shorter`.
pub open spec fn grows<T>(shorter: Seq<T>, longer: Seq<T>) -> bool {
    &&& shorter.len() <= longer.len()
    &&& forall|i: int| 0 <= i < shorter.len() ==> shorter[i] == longer[i]
}

/// Interning is deduplicating. When `a` and then `b` are interned into a
/// table without duplicates and `ha` and `hb` are the places where they
/// are then found, `ha` still holds `a`, and the two places are the same
/// exactly when the two values are.
pub proof fn lemma_intern_deduplicates<T>(table: Seq<T>, a: T, b: T, ha: int, hb: int)
    requires
        distinct(table),
        0 <= ha < interned(table, a).len(),
        interned(table, a)[ha] == a,
        0 <= hb < interned(interned(table, a), b).len(),
        interned(interned(table, a), b)[hb] == b,
    ensures
        distinct(interned(interned(table, a), b)),
        interned(interned(table, a), b)[ha] == a,
        ha == hb <==> a == b,
{
    lemma_interned(table, a);
    lemma_interned(interned(table, a), b);
}

/// Interning keeps what a table holds, adds no duplicate, and leaves the
/// value in the table.
pub proof fn lemma_interned<T>(table: Seq<T>, value: T)
    requires
        distinct(table),
    ensures
        distinct(interned(table, value)),
        grows(table, interned(table, value)),
        interned(table, value).contains(value),
        interned(interned(table, value), value) == interned(table, value),
{
    let after = interned(table, value);
    if !table.contains(value) {
        assert(after[table.len() as int] == value);
        assert forall|i: int, j: int| 0 <= i < j < after.len() implies after[i] != after[j] by {
            if j == table.len() {
                assert(table[i] == after[i]);
            }
        }
    }
}

impl Generic {
    /// The type that the argument is.
    pub open spec fn spec_ty(self) -> Ty {
        match self {
            Generic::Ty(ty) => ty,
        }
    }

    #[verifier::when_used_as_spec(spec_ty)]
    pub fn ty(self) -> (r: Ty)
        ensures
            r == self.spec_ty(),
    {
        match self {
            Generic::Ty(ty) => ty,
        }
    }
}

/// A type written out in full: what a pair of handles stands for.
pub struct TyTerm {
    pub perm: Inferable<PermData>,
    pub base: BaseTerm,
}

/// A base type written out in full: what a handle stands for.
pub enum BaseTerm {
    Known { kind: BaseKind, generics: Seq<TyTerm> },
    Infer(InferVar),
    Bound(BoundIndex),
}

/// What the tables of interned types hold.
pub struct Tables {
    pub perms: Seq<Inferable<PermData>>,
    pub bases: Seq<Inferable<BaseData>>,
    pub generics: Seq<Seq<Generic>>,
}

impl Tables {
    /// Whether `perm` is a handle of these tables.
    pub open spec fn has_perm(self, perm: Perm) -> bool {
        perm.index < self.perms.len()
    }

    /// Whether `base` is a handle of these tables.
    pub open spec fn has_base(self, base: Base) -> bool {
        base.index < self.bases.len()
    }

    /// Whether `generics` is a handle of these tables.
    pub open spec fn has_generics(self, generics: Generics) -> bool {
        generics.index < self.generics.len()
    }

    /// Whether both handles of `ty` are handles of these tables.
    pub open spec fn has_ty(self, ty: Ty) -> bool {
        self.has_perm(ty.perm) && self.has_base(ty.base)
    }

    /// Every handle among `elements` is one of these tables.
    pub open spec fn has_all(self, elements: Seq<Generic>) -> bool {
        forall|k: int| 0 <= k < elements.len() ==> self.has_ty(#[trigger] elements[k].spec_ty())
    }

    /// The handle in `data`, if it holds one, is one of these tables.
    pub open spec fn has_base_data(self, data: Inferable<BaseData>) -> bool {
        data matches Inferable::Known(d) ==> self.has_generics(d.generics)
    }

    /// The generic arguments of the base at `i`, which is known.
    pub open spec fn arguments(self, i: int) -> Seq<Generic> {
        self.generics[self.bases[i]->Known_0.generics.index as int]
    }

    /// Nothing is stored twice, every handle stored is one of these
    /// tables, and the arguments of a base were interned before the base.
    pub open spec fn wf(self) -> bool {
        &&& distinct(self.perms)
        &&& distinct(self.bases)
        &&& distinct(self.generics)
        &&& forall|g: int| 0 <= g < self.generics.len() ==> self.has_all(#[trigger] self.generics[g])
        &&& forall|i: int|
            0 <= i < self.bases.len() ==> self.has_base_data(#[trigger] self.bases[i])
        &&& forall|i: int, k: int|
            0 <= i < self.bases.len() && self.bases[i] is Known && 0 <= k < self.arguments(i).len()
                ==> (#[trigger] self.arguments(i)[k]).spec_ty().base.index < i
    }

    /// Whether `later` holds all that these tables hold, at the same
    /// handles.
    pub open spec fn grows_to(self, later: Tables) -> bool {
        &&& grows(self.perms, later.perms)
        &&& grows(self.bases, later.bases)
        &&& grows(self.generics, later.generics)
    }

    /// The tables after `data` was interned as a permission.
    pub open spec fn with_perm(self, data: Inferable<PermData>) -> Tables {
        Tables { perms: interned(self.perms, data), ..self }
    }

    /// The handle of `data`, which the tables hold.
    pub open spec fn perm_handle(self, data: Inferable<PermData>) -> Perm {
        Perm { index: position(self.perms, data) as usize }
    }

    /// The handle of `data`, which the tables hold.
    pub open spec fn base_handle(self, data: Inferable<BaseData>) -> Base {
        Base { index: position(self.bases, data) as usize }
    }

    /// The handle of `data`, which the tables hold.
    pub open spec fn generics_handle(self, data: Seq<Generic>) -> Generics {
        Generics { index: position(self.generics, data) as usize }
    }

    /// The tables after `data` was interned as a base.
    pub open spec fn with_base(self, data: Inferable<BaseData>) -> Tables {
        Tables { bases: interned(self.bases, data), ..self }
    }

    /// The tables after `data` was interned as a list of arguments.
    pub open spec fn with_generics(self, data: Seq<Generic>) -> Tables {
        Tables { generics: interned(self.generics, data), ..self }
    }

    /// The type that `ty` stands for, written out in full.
    pub open spec fn ty_term(self, ty: Ty) -> TyTerm
        decreases ty.base.index, 1int,
    {
        TyTerm { perm: self.perms[ty.perm.index as int], base: self.base_term(ty.base) }
    }

    /// The base type that `base` stands for, written out in full.
    pub open spec fn base_term(self, base: Base) -> BaseTerm
        decreases base.index, 0int,
    {
        match self.bases[base.index as int] {
            Inferable::Known(data) => {
                let arguments = self.generics[data.generics.index as int];
                BaseTerm::Known {
                    kind: data.kind,
                    generics: Seq::new(
                        arguments.len(),
                        |k: int|
                            if 0 <= k < arguments.len() && arguments[k].spec_ty().base.index
                                < base.index {
                                self.ty_term(arguments[k].spec_ty())
                            } else {
                                TyTerm {
                                    perm: Inferable::Known(PermData::Own),
                                    base: BaseTerm::Infer(InferVar { index: 0 }),
                                }
                            },
                    ),
                }
            },
            Inferable::Infer(var) => BaseTerm::Infer(var),
            Inferable::Bound(index) => BaseTerm::Bound(index),
        }
    }
}

impl Tables {
    /// Interning a permission keeps the tables in order and keeps what
    /// they hold.
    pub proof fn lemma_with_perm(self, data: Inferable<PermData>)
        requires
            self.wf(),
        ensures
            self.with_perm(data).wf(),
            self.grows_to(self.with_perm(data)),
            self.with_perm(data).perms.contains(data),
    {
        lemma_interned(self.perms, data);
        let after = self.with_perm(data);
        assert forall|g: int| 0 <= g < after.generics.len() implies after.has_all(
            #[trigger] after.generics[g],
        ) by {
            assert(self.has_all(self.generics[g]));
        }
        assert forall|i: int, k: int|
            0 <= i < after.bases.len() && after.bases[i] is Known && 0 <= k < after.arguments(
                i,
            ).len() implies (#[trigger] after.arguments(i)[k]).spec_ty().base.index < i by {
            assert(after.arguments(i) == self.arguments(i));
        }
    }

    /// Interning a base whose arguments are in the tables keeps the tables
    /// in order and keeps what they hold.
    pub proof fn lemma_with_base(self, data: Inferable<BaseData>)
        requires
            self.wf(),
            self.has_base_data(data),
        ensures
            self.with_base(data).wf(),
            self.grows_to(self.with_base(data)),
            self.with_base(data).bases.contains(data),
    {
        lemma_interned(self.bases, data);
        let after = self.with_base(data);
        assert forall|g: int| 0 <= g < after.generics.len() implies after.has_all(
            #[trigger] after.generics[g],
        ) by {
            assert(self.has_all(self.generics[g]));
        }
        assert forall|i: int| 0 <= i < after.bases.len() implies after.has_base_data(
            #[trigger] after.bases[i],
        ) by {
            if i < self.bases.len() {
                assert(self.has_base_data(self.bases[i]));
            }
        }
        assert forall|i: int, k: int|
            0 <= i < after.bases.len() && after.bases[i] is Known && 0 <= k < after.arguments(
                i,
            ).len() implies (#[trigger] after.arguments(i)[k]).spec_ty().base.index < i by {
            if i < self.bases.len() {
                assert(after.arguments(i) == self.arguments(i));
            } else {
                let g = data->Known_0.generics.index as int;
                assert(self.has_all(self.generics[g]));
                assert(self.has_ty(self.generics[g][k].spec_ty()));
            }
        }
    }

    /// Interning a list of arguments that are in the tables keeps the
    /// tables in order and keeps what they hold.
    pub proof fn lemma_with_generics(self, data: Seq<Generic>)
        requires
            self.wf(),
            self.has_all(data),
        ensures
            self.with_generics(data).wf(),
            self.grows_to(self.with_generics(data)),
            self.with_generics(data).generics.contains(data),
    {
        lemma_interned(self.generics, data);
        let after = self.with_generics(data);
        assert forall|g: int| 0 <= g < after.generics.len() implies after.has_all(
            #[trigger] after.generics[g],
        ) by {
            if g < self.generics.len() {
                assert(self.has_all(self.generics[g]));
            }
        }
        assert forall|i: int| 0 <= i < after.bases.len() implies after.has_base_data(
            #[trigger] after.bases[i],
        ) by {
            assert(self.has_base_data(self.bases[i]));
        }
        assert forall|i: int, k: int|
            0 <= i < after.bases.len() && after.bases[i] is Known && 0 <= k < after.arguments(
                i,
            ).len() implies (#[trigger] after.arguments(i)[k]).spec_ty().base.index < i by {
            assert(self.has_base_data(self.bases[i]));
            assert(after.arguments(i) == self.arguments(i));
        }
    }

    /// Growth goes on: tables that hold all of these hand it on to tables
    /// that hold all of theirs.
    pub proof fn lemma_grows_on(self, middle: Tables, later: Tables)
        requires
            self.grows_to(middle),
            middle.grows_to(later),
        ensures
            self.grows_to(later),
    {
    }

    /// A known base stands for its kind applied to what its arguments
    /// stand for.
    pub proof fn lemma_known_term(self, base: Base)
        requires
            self.wf(),
            self.has_base(base),
            self.bases[base.index as int] is Known,
        ensures
            self.base_term(base) matches BaseTerm::Known { kind, generics } && kind
                == self.bases[base.index as int]->Known_0.kind && generics.len()
                == self.arguments(base.index as int).len() && forall|k: int|
                0 <= k < generics.len() ==> #[trigger] generics[k] == self.ty_term(
                    self.arguments(base.index as int)[k].spec_ty(),
                ),
    {
        let i = base.index as int;
        let generics = self.base_term(base)->generics;
        assert forall|k: int| 0 <= k < generics.len() implies #[trigger] generics[k]
            == self.ty_term(self.arguments(i)[k].spec_ty()) by {
            assert(self.arguments(i)[k].spec_ty().base.index < i);
        }
    }

    /// A type stands for the same in tables that have grown.
    pub proof fn lemma_ty_term_kept(self, later: Tables, ty: Ty)
        requires
            self.wf(),
            self.grows_to(later),
            self.has_ty(ty),
        ensures
            later.ty_term(ty) == self.ty_term(ty),
            later.has_ty(ty),
    {
        self.lemma_term_kept(later, ty.base);
    }

    /// A handle stands for the same type in tables that have grown.
    pub proof fn lemma_term_kept(self, later: Tables, base: Base)
        requires
            self.wf(),
            self.grows_to(later),
            self.has_base(base),
        ensures
            later.base_term(base) == self.base_term(base),
        decreases base.index,
    {
        let i = base.index as int;
        assert(self.has_base_data(self.bases[i]));
        match self.bases[i] {
            Inferable::Known(data) => {
                let arguments = self.generics[data.generics.index as int];
                assert(arguments == self.arguments(i));
                assert(self.has_all(arguments));
                assert forall|k: int| 0 <= k < arguments.len() implies later.ty_term(
                    arguments[k].spec_ty(),
                ) == self.ty_term(arguments[k].spec_ty()) by {
                    assert(self.arguments(i)[k].spec_ty().base.index < i);
                    assert(self.has_ty(arguments[k].spec_ty()));
                    self.lemma_term_kept(later, arguments[k].spec_ty().base);
                }
                assert(later.base_term(base)->generics =~= self.base_term(base)->generics);
            },
            _ => {},
        }
    }
}

/// The tables in which permissions, base types and lists of generic
/// arguments are interned. One set of tables serves a whole session.
#[derive(Debug)]
pub struct TyInternTables {
    perms: Vec<Inferable<PermData>>,
    bases: Vec<Inferable<BaseData>>,
    generics: Vec<GenericsData>,
}

impl View for TyInternTables {
    type V = Tables;

    closed spec fn view(&self) -> Tables {
        Tables {
            perms: self.perms@,
            bases: self.bases@,
            generics: Seq::new(self.generics@.len(), |i: int| self.generics@[i]@),
        }
    }
}

impl TyInternTables {
    /// Tables that hold nothing.
    pub fn new() -> (r: TyInternTables)
        ensures
            r@.wf(),
            r@.perms.len() == 0,
            r@.bases.len() == 0,
            r@.generics.len() == 0,
    {
        TyInternTables { perms: Vec::new(), bases: Vec::new(), generics: Vec::new() }
    }

    /// The handle of `data`, which is stored first if it is new.
    pub fn intern_perm(&mut self, data: Inferable<PermData>) -> (r: Perm)
        requires
            old(self)@.wf(),
        ensures
            final(self)@ == old(self)@.with_perm(data),
            final(self)@.wf(),
            final(self)@.has_perm(r),
            final(self)@.perms[r.index as int] == data,
            r == final(self)@.perm_handle(data),
    {
        proof {
            self@.lemma_with_perm(data);
            assert forall|i: int|
                0 <= i < self@.with_perm(data).perms.len() && self@.with_perm(data).perms[i]
                    == data implies position(self@.with_perm(data).perms, data) == i by {
                lemma_position(self@.with_perm(data).perms, data, i);
            }
        }
        let n: usize = self.perms.len();
        let mut i: usize = 0;
        while i < n
            invariant
                n == self.perms@.len(),
                i <= n,
                forall|k: int| 0 <= k < i ==> self.perms@[k] != data,
                self@ == old(self)@,
                old(self)@.wf(),
                forall|i: int|
                    0 <= i < old(self)@.with_perm(data).perms.len() && old(self)@.with_perm(data).perms[i]
                        == data ==> position(old(self)@.with_perm(data).perms, data) == i,
            decreases n - i,
        {
            if self.perms[i] == data {
                assert(self@.perms[i as int] == data);
                return Perm { index: i };
            }
            i = i + 1;
        }
        self.perms.push(data);
        assert(self@.generics =~= old(self)@.generics);
        Perm { index: n }
    }

    /// The handle of `data`, which is stored first if it is new. The
    /// arguments that `data` names are in the tables.
    pub fn intern_base(&mut self, data: Inferable<BaseData>) -> (r: Base)
        requires
            old(self)@.wf(),
            old(self)@.has_base_data(data),
        ensures
            final(self)@ == old(self)@.with_base(data),
            final(self)@.wf(),
            final(self)@.has_base(r),
            final(self)@.bases[r.index as int] == data,
            r == final(self)@.base_handle(data),
    {
        proof {
            self@.lemma_with_base(data);
            assert forall|i: int|
                0 <= i < self@.with_base(data).bases.len() && self@.with_base(data).bases[i]
                    == data implies position(self@.with_base(data).bases, data) == i by {
                lemma_position(self@.with_base(data).bases, data, i);
            }
        }
        let n: usize = self.bases.len();
        let mut i: usize = 0;
        while i < n
            invariant
                n == self.bases@.len(),
                i <= n,
                forall|k: int| 0 <= k < i ==> self.bases@[k] != data,
                self@ == old(self)@,
                old(self)@.wf(),
                forall|i: int|
                    0 <= i < old(self)@.with_base(data).bases.len() && old(self)@.with_base(data).bases[i]
                        == data ==> position(old(self)@.with_base(data).bases, data) == i,
            decreases n - i,
        {
            if self.bases[i] == data {
                assert(self@.bases[i as int] == data);
                return Base { index: i };
            }
            i = i + 1;
        }
        self.bases.push(data);
        assert(self@.generics =~= old(self)@.generics);
        Base { index: n }
    }

    /// The handle of `data`, which is stored first if it is new. The types
    /// in `data` are in the tables.
    pub fn intern_generics(&mut self, data: GenericsData) -> (r: Generics)
        requires
            old(self)@.wf(),
            old(self)@.has_all(data@),
        ensures
            final(self)@ == old(self)@.with_generics(data@),
            final(self)@.wf(),
            final(self)@.has_generics(r),
            final(self)@.generics[r.index as int] == data@,
            r == final(self)@.generics_handle(data@),
    {
        proof {
            self@.lemma_with_generics(data@);
            assert forall|i: int|
                0 <= i < self@.with_generics(data@).generics.len() && self@.with_generics(
                    data@,
                ).generics[i] == data@ implies position(self@.with_generics(data@).generics, data@)
                    == i by {
                lemma_position(self@.with_generics(data@).generics, data@, i);
            }
        }
        let n: usize = self.generics.len();
        let mut i: usize = 0;
        while i < n
            invariant
                n == self.generics@.len(),
                i <= n,
                forall|k: int| 0 <= k < i ==> self@.generics[k] != data@,
                self@ == old(self)@,
                old(self)@.wf(),
                forall|i: int|
                    0 <= i < old(self)@.with_generics(data@).generics.len() && old(
                        self,
                    )@.with_generics(data@).generics[i] == data@ ==> position(
                        old(self)@.with_generics(data@).generics,
                        data@,
                    ) == i,
            decreases n - i,
        {
            if self.generics[i].same(&data) {
                assert(self@.generics[i as int] == data@);
                return Generics { index: i };
            }
            i = i + 1;
        }
        self.generics.push(data);
        assert(self@.generics =~= old(self)@.generics.push(data@));
        Generics { index: n }
    }

    /// The number of permissions held.
    pub fn perm_count(&self) -> (r: usize)
        ensures
            r == self@.perms.len(),
    {
        self.perms.len()
    }

    /// The number of bases held.
    pub fn base_count(&self) -> (r: usize)
        ensures
            r == self@.bases.len(),
    {
        self.bases.len()
    }

    /// The number of lists of generic arguments held.
    pub fn generics_count(&self) -> (r: usize)
        ensures
            r == self@.generics.len(),
    {
        self.generics.len()
    }

    /// The permission that `perm` names.
    pub fn lookup_perm(&self, perm: Perm) -> (r: Inferable<PermData>)
        requires
            self@.has_perm(perm),
        ensures
            r == self@.perms[perm.index as int],
    {
        self.perms[perm.index]
    }

    /// The base that `base` names.
    pub fn lookup_base(&self, base: Base) -> (r: Inferable<BaseData>)
        requires
            self@.has_base(base),
        ensures
            r == self@.bases[base.index as int],
    {
        self.bases[base.index]
    }

    /// The generic arguments that `generics` names.
    pub fn lookup_generics(&self, generics: Generics) -> (r: &GenericsData)
        requires
            self@.has_generics(generics),
        ensures
            r@ == self@.generics[generics.index as int],
    {
        &self.generics[generics.index]
    }
}

} // verus!
