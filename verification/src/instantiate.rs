//! Generic parameters: shifting bound indices across binders, and putting
//! placeholders in the place of the parameters of a definition.

use crate::indices::{
    Base, BoundIndex, DebruijnIndex, DefId, ParameterIndex, Perm, Placeholder, UniverseIndex,
};
use crate::intern::{BaseTerm, Tables, TyInternTables, TyTerm};
use crate::relate::base_repr_eq;
use crate::ty::{BaseData, BaseKind, Generic, GenericsData, Inferable, PermData, Ty};
use crate::unify::{compatible, Relation, Value};
use vstd::prelude::*;

verus! {

impl BoundIndex {
    pub open spec fn spec_shifted_in(self) -> BoundIndex {
        BoundIndex { binder: self.binder.shifted_in(), index: self.index }
    }

    pub open spec fn spec_shifted_out(self) -> BoundIndex {
        BoundIndex { binder: self.binder.shifted_out(), index: self.index }
    }

    /// The same parameter as seen from inside one more binder.
    #[verifier::when_used_as_spec(spec_shifted_in)]
    pub fn shifted_in(self) -> (r: BoundIndex)
        requires
            self.binder.as_usize() < usize::MAX,
        ensures
            r == self.spec_shifted_in(),
    {
        BoundIndex { binder: self.binder.shifted_in(), index: self.index }
    }

    /// The same parameter as seen from outside the innermost binder, which
    /// is not the one that binds it.
    #[verifier::when_used_as_spec(spec_shifted_out)]
    pub fn shifted_out(self) -> (r: BoundIndex)
        requires
            self.binder != DebruijnIndex::innermost(),
        ensures
            r == self.spec_shifted_out(),
    {
        BoundIndex { binder: self.binder.shifted_out(), index: self.index }
    }
}

/// The placeholders of a definition with `count` parameters that is
/// instantiated in `universe`: one for each parameter, in order.
pub open spec fn placeholders_of(universe: UniverseIndex, count: nat) -> Seq<Placeholder> {
    Seq::new(
        count,
        |i: int| Placeholder { universe, index: ParameterIndex { index: i as usize } },
    )
}

/// One fresh placeholder for each of `count` parameters, in `universe`.
pub fn placeholders(universe: UniverseIndex, count: usize) -> (r: Vec<Placeholder>)
    ensures
        r@ == placeholders_of(universe, count as nat),
{
    let mut out: Vec<Placeholder> = Vec::new();
    let mut i: usize = 0;
    while i < count
        invariant
            i <= count,
            out@ == placeholders_of(universe, i as nat),
        decreases count - i,
    {
        out.push(Placeholder { universe, index: ParameterIndex::new(i) });
        assert(out@ =~= placeholders_of(universe, (i + 1) as nat));
        i = i + 1;
    }
    out
}

/// The base type that is nothing but the placeholder `placeholder`.
pub open spec fn placeholder_term(placeholder: Placeholder) -> BaseTerm {
    BaseTerm::Known { kind: BaseKind::Placeholder(placeholder), generics: Seq::empty() }
}

/// How a type crosses a binder.
#[derive(Copy, Clone, Debug, PartialEq, Eq, Structural)]
pub enum Crossing {
    /// The innermost binder is opened: its parameters become the
    /// placeholders of this universe, and the parameters of the binders
    /// around it are one binder nearer.
    Open(UniverseIndex),
    /// One more binder is entered: every parameter is one binder further
    /// out.
    Enter,
}

/// What the parameter `bound` becomes as a permission.
pub open spec fn crossed_perm_bound(bound: BoundIndex, how: Crossing) -> Inferable<PermData> {
    match how {
        Crossing::Open(universe) => if bound.binder == DebruijnIndex::innermost() {
            Inferable::Known(PermData::Placeholder(Placeholder { universe, index: bound.index }))
        } else {
            Inferable::Bound(bound.shifted_out())
        },
        Crossing::Enter => Inferable::Bound(bound.shifted_in()),
    }
}

/// What the parameter `bound` becomes as a base.
pub open spec fn crossed_base_bound(bound: BoundIndex, how: Crossing) -> BaseTerm {
    match how {
        Crossing::Open(universe) => if bound.binder == DebruijnIndex::innermost() {
            placeholder_term(Placeholder { universe, index: bound.index })
        } else {
            BaseTerm::Bound(bound.shifted_out())
        },
        Crossing::Enter => BaseTerm::Bound(bound.shifted_in()),
    }
}

/// Whether `bound` can cross: on the way in, its binder has a successor
/// among the numbers of the machine.
pub open spec fn bound_can_cross(bound: BoundIndex, how: Crossing) -> bool {
    how is Enter ==> bound.binder.as_usize() < usize::MAX
}

/// The permission `perm` after the crossing.
pub open spec fn crossed_perm(perm: Inferable<PermData>, how: Crossing) -> Inferable<PermData> {
    match perm {
        Inferable::Bound(bound) => crossed_perm_bound(bound, how),
        _ => perm,
    }
}

/// The base type `base` after the crossing, its generic arguments
/// included.
pub open spec fn crossed_base(base: BaseTerm, how: Crossing) -> BaseTerm
    decreases base,
{
    match base {
        BaseTerm::Bound(bound) => crossed_base_bound(bound, how),
        BaseTerm::Infer(var) => BaseTerm::Infer(var),
        BaseTerm::Known { kind, generics } => BaseTerm::Known {
            kind,
            generics: Seq::new(
                generics.len(),
                |k: int|
                    if 0 <= k < generics.len() {
                        TyTerm {
                            perm: crossed_perm(generics[k].perm, how),
                            base: crossed_base(generics[k].base, how),
                        }
                    } else {
                        generics[k]
                    },
            ),
        },
    }
}

/// The type `ty` after the crossing.
pub open spec fn crossed_ty(ty: TyTerm, how: Crossing) -> TyTerm {
    TyTerm { perm: crossed_perm(ty.perm, how), base: crossed_base(ty.base, how) }
}

/// Whether every parameter in `perm` can cross.
pub open spec fn perm_can_cross(perm: Inferable<PermData>, how: Crossing) -> bool {
    perm matches Inferable::Bound(bound) ==> bound_can_cross(bound, how)
}

/// Whether every parameter in `base` can cross.
pub open spec fn base_can_cross(base: BaseTerm, how: Crossing) -> bool
    decreases base,
{
    match base {
        BaseTerm::Bound(bound) => bound_can_cross(bound, how),
        BaseTerm::Infer(_) => true,
        BaseTerm::Known { kind, generics } => forall|k: int|
            0 <= k < generics.len() ==> perm_can_cross((#[trigger] generics[k]).perm, how)
                && base_can_cross(generics[k].base, how),
    }
}

/// Whether every parameter in `ty` can cross.
pub open spec fn ty_can_cross(ty: TyTerm, how: Crossing) -> bool {
    perm_can_cross(ty.perm, how) && base_can_cross(ty.base, how)
}

/// The permission `perm` of a definition's body once the definition was
/// instantiated in `universe`: a parameter of the definition is its
/// placeholder, a parameter of an enclosing binder is one binder nearer.
pub open spec fn instantiated_perm(perm: Inferable<PermData>, universe: UniverseIndex) -> Inferable<
    PermData,
> {
    crossed_perm(perm, Crossing::Open(universe))
}

/// The base type `base` of a definition's body once the definition was
/// instantiated in `universe`: a parameter of the definition is its
/// placeholder, a parameter of an enclosing binder is one binder nearer,
/// and generic arguments are instantiated in turn.
pub open spec fn instantiated_base(base: BaseTerm, universe: UniverseIndex) -> BaseTerm {
    crossed_base(base, Crossing::Open(universe))
}

/// The type `ty` of a definition's body once the definition was
/// instantiated in `universe`.
pub open spec fn instantiated_ty(ty: TyTerm, universe: UniverseIndex) -> TyTerm {
    crossed_ty(ty, Crossing::Open(universe))
}

/// The base type `base` as seen from inside one more binder: every
/// parameter is one binder further out.
pub open spec fn shifted_in_base(base: BaseTerm) -> BaseTerm {
    crossed_base(base, Crossing::Enter)
}

/// The type `ty` as seen from inside one more binder.
pub open spec fn shifted_in_ty(ty: TyTerm) -> TyTerm {
    crossed_ty(ty, Crossing::Enter)
}

/// To enter a binder and to open it again gives back the type one started
/// with, whatever the universe.
pub proof fn lemma_enter_then_open(base: BaseTerm, universe: UniverseIndex)
    requires
        base_can_cross(base, Crossing::Enter),
    ensures
        instantiated_base(shifted_in_base(base), universe) == base,
    decreases base,
{
    match base {
        BaseTerm::Known { kind, generics } => {
            let entered = shifted_in_base(base)->generics;
            let back = instantiated_base(shifted_in_base(base), universe)->generics;
            assert forall|k: int| 0 <= k < generics.len() implies back[k] == generics[k] by {
                lemma_enter_then_open(generics[k].base, universe);
                assert(perm_can_cross(generics[k].perm, Crossing::Enter));
                assert(entered[k].base == shifted_in_base(generics[k].base));
            }
            assert(back =~= generics);
        },
        _ => {},
    }
}

/// The placeholders of one instantiation lie in its universe, are numbered
/// from 0 in order, and are pairwise distinct. As base types, two of them
/// have the same representation only if they are the same placeholder.
pub proof fn lemma_placeholders_are_rigid(universe: UniverseIndex, count: nat)
    requires
        count <= usize::MAX,
    ensures
        placeholders_of(universe, count).len() == count,
        forall|i: int|
            0 <= i < count ==> (#[trigger] placeholders_of(universe, count)[i]).universe == universe
                && placeholders_of(universe, count)[i].index.index == i,
        forall|i: int, j: int|
            0 <= i < count && 0 <= j < count && i != j ==> placeholders_of(universe, count)[i]
                != placeholders_of(universe, count)[j] && !base_repr_eq(
                placeholder_term(placeholders_of(universe, count)[i]),
                placeholder_term(placeholders_of(universe, count)[j]),
            ),
{
}

/// A placeholder never has the representation of a declared type, whatever
/// the generic arguments of that type.
pub proof fn lemma_placeholder_differs_from_named(
    placeholder: Placeholder,
    def: DefId,
    generics: Seq<TyTerm>,
)
    ensures
        !base_repr_eq(
            placeholder_term(placeholder),
            BaseTerm::Known { kind: BaseKind::Named(def), generics },
        ),
        !base_repr_eq(
            BaseTerm::Known { kind: BaseKind::Named(def), generics },
            placeholder_term(placeholder),
        ),
{
}

/// A base that is a placeholder is in no relation to a base of another
/// kind.
pub proof fn lemma_placeholder_is_incompatible(
    tables: Tables,
    relation: Relation,
    a: Base,
    b: Base,
    placeholder: Placeholder,
)
    requires
        tables.wf(),
        tables.has_base(a),
        tables.has_base(b),
        tables.bases[a.index as int] matches Inferable::Known(data) && data.kind
            == BaseKind::Placeholder(placeholder),
        tables.bases[b.index as int] matches Inferable::Known(data) && data.kind
            != BaseKind::Placeholder(placeholder),
    ensures
        !compatible(tables, relation, Value::Base(a), Value::Base(b)),
        !compatible(tables, relation, Value::Base(b), Value::Base(a)),
{
}

impl Tables {
    /// The tables, and the handle in them, after the permission `perm`
    /// crossed.
    pub open spec fn cross_perm(self, perm: Perm, how: Crossing) -> (Tables, Perm) {
        match self.perms[perm.index as int] {
            Inferable::Bound(_) => {
                let data = crossed_perm(self.perms[perm.index as int], how);
                let after = self.with_perm(data);
                (after, after.perm_handle(data))
            },
            _ => (self, perm),
        }
    }

    /// The tables, and the handle in them, after the base `base`
    /// crossed: the arguments cross first to last and are interned, then
    /// the base is.
    pub open spec fn cross_base(self, base: Base, how: Crossing) -> (Tables, Base)
        decreases base.index, 1int, 0int,
    {
        match self.bases[base.index as int] {
            Inferable::Infer(_) => (self, base),
            Inferable::Bound(bound) => match how {
                Crossing::Open(universe) if bound.binder == DebruijnIndex::innermost() => {
                    let first = self.with_generics(Seq::empty());
                    let data = Inferable::Known(
                        BaseData {
                            kind: BaseKind::Placeholder(
                                Placeholder { universe, index: bound.index },
                            ),
                            generics: first.generics_handle(Seq::empty()),
                        },
                    );
                    let after = first.with_base(data);
                    (after, after.base_handle(data))
                },
                Crossing::Open(_) => {
                    let data = Inferable::Bound(bound.shifted_out());
                    let after = self.with_base(data);
                    (after, after.base_handle(data))
                },
                Crossing::Enter => {
                    let data = Inferable::Bound(bound.shifted_in());
                    let after = self.with_base(data);
                    (after, after.base_handle(data))
                },
            },
            Inferable::Known(data) => {
                let arguments = self.generics[data.generics.index as int];
                let (filled, made) = self.cross_arguments(
                    arguments,
                    base,
                    arguments.len() as int,
                    how,
                );
                let first = filled.with_generics(made);
                let known = Inferable::Known(
                    BaseData { kind: data.kind, generics: first.generics_handle(made) },
                );
                let after = first.with_base(known);
                (after, after.base_handle(known))
            },
        }
    }

    /// The tables after the first `k` of the arguments of `parent`
    /// crossed, and what they became.
    pub open spec fn cross_arguments(
        self,
        arguments: Seq<Generic>,
        parent: Base,
        k: int,
        how: Crossing,
    ) -> (Tables, Seq<Generic>)
        decreases parent.index, 0int, k,
    {
        if k <= 0 {
            (self, Seq::empty())
        } else {
            let (earlier, made) = self.cross_arguments(arguments, parent, k - 1, how);
            let ty = arguments[k - 1].spec_ty();
            let (first, perm) = earlier.cross_perm(ty.perm, how);
            if ty.base.index < parent.index {
                let (second, base) = first.cross_base(ty.base, how);
                (second, made.push(Generic::Ty(Ty { perm, base })))
            } else {
                (first, made.push(arguments[k - 1]))
            }
        }
    }

    /// The tables, and the type in them, after the type `ty` crossed.
    pub open spec fn cross_ty(self, ty: Ty, how: Crossing) -> (Tables, Ty) {
        let (first, perm) = self.cross_perm(ty.perm, how);
        let (second, base) = first.cross_base(ty.base, how);
        (second, Ty { perm, base })
    }

    /// The tables, and the type in them, after the type `ty` of a
    /// definition was instantiated in `universe`.
    pub open spec fn instantiate_ty(self, ty: Ty, universe: UniverseIndex) -> (Tables, Ty) {
        self.cross_ty(ty, Crossing::Open(universe))
    }

    /// Whether every parameter in the type `ty` can cross.
    pub open spec fn can_cross(self, ty: Ty, how: Crossing) -> bool {
        ty_can_cross(self.ty_term(ty), how)
    }

    /// The tables after the first `k` types of `body` were instantiated
    /// in `universe`, first to last, and what they became.
    pub open spec fn instantiate_body(self, body: Seq<Ty>, k: int, universe: UniverseIndex) -> (
        Tables,
        Seq<Ty>,
    )
        decreases k,
    {
        if k <= 0 {
            (self, Seq::empty())
        } else {
            let (earlier, made) = self.instantiate_body(body, k - 1, universe);
            let (after, ty) = earlier.instantiate_ty(body[k - 1], universe);
            (after, made.push(ty))
        }
    }
}

/// The handle of what `perm` becomes when it crosses.
pub fn cross_perm(tables: &mut TyInternTables, perm: Perm, how: Crossing) -> (r: Perm)
    requires
        old(tables)@.wf(),
        old(tables)@.has_perm(perm),
        perm_can_cross(old(tables)@.perms[perm.index as int], how),
    ensures
        final(tables)@.wf(),
        old(tables)@.grows_to(final(tables)@),
        final(tables)@.has_perm(r),
        final(tables)@.perms[r.index as int] == crossed_perm(
            old(tables)@.perms[perm.index as int],
            how,
        ),
        (final(tables)@, r) == old(tables)@.cross_perm(perm, how),
{
    proof {
        let t = tables@;
        assert(t.grows_to(t));
    }
    match tables.lookup_perm(perm) {
        Inferable::Bound(bound) => {
            let data = match how {
                Crossing::Open(universe) => if bound.binder == DebruijnIndex::innermost() {
                    Inferable::Known(
                        PermData::Placeholder(Placeholder { universe, index: bound.index }),
                    )
                } else {
                    Inferable::Bound(bound.shifted_out())
                },
                Crossing::Enter => Inferable::Bound(bound.shifted_in()),
            };
            proof {
                tables@.lemma_with_perm(data);
            }
            tables.intern_perm(data)
        },
        _ => perm,
    }
}

/// The handle of what `base` becomes when it crosses.
pub fn cross_base(tables: &mut TyInternTables, base: Base, how: Crossing) -> (r: Base)
    requires
        old(tables)@.wf(),
        old(tables)@.has_base(base),
        base_can_cross(old(tables)@.base_term(base), how),
    ensures
        final(tables)@.wf(),
        old(tables)@.grows_to(final(tables)@),
        final(tables)@.has_base(r),
        final(tables)@.base_term(r) == crossed_base(old(tables)@.base_term(base), how),
        (final(tables)@, r) == old(tables)@.cross_base(base, how),
    decreases base.index,
{
    let ghost before = tables@;
    proof {
        assert(before.grows_to(before));
        assert(before.has_base_data(before.bases[base.index as int]));
    }
    match tables.lookup_base(base) {
        Inferable::Infer(_) => base,
        Inferable::Bound(bound) => {
            match how {
                Crossing::Open(universe) => {
                    if bound.binder == DebruijnIndex::innermost() {
                        let empty = tables.intern_generics(GenericsData::new(Vec::new()));
                        proof {
                            before.lemma_with_generics(Seq::empty());
                        }
                        let ghost middle = tables@;
                        let data = Inferable::Known(
                            BaseData {
                                kind: BaseKind::Placeholder(
                                    Placeholder { universe, index: bound.index },
                                ),
                                generics: empty,
                            },
                        );
                        let r = tables.intern_base(data);
                        proof {
                            middle.lemma_with_base(data);
                            before.lemma_grows_on(middle, tables@);
                            tables@.lemma_known_term(r);
                            assert(tables@.base_term(r)->generics =~= Seq::empty());
                        }
                        r
                    } else {
                        let data = Inferable::Bound(bound.shifted_out());
                        proof {
                            before.lemma_with_base(data);
                        }
                        tables.intern_base(data)
                    }
                },
                Crossing::Enter => {
                    let data = Inferable::Bound(bound.shifted_in());
                    proof {
                        before.lemma_with_base(data);
                    }
                    tables.intern_base(data)
                },
            }
        },
        Inferable::Known(data) => {
            let arguments = tables.lookup_generics(data.generics).iter();
            let n: usize = arguments.len();
            let mut out: Vec<Generic> = Vec::new();
            let mut k: usize = 0;
            proof {
                before.lemma_known_term(base);
                assert(arguments@ == before.arguments(base.index as int));
                assert(before.has_all(arguments@));
                assert forall|j: int| 0 <= j < n implies ty_can_cross(
                    before.ty_term(#[trigger] arguments@[j].spec_ty()),
                    how,
                ) by {
                    assert(before.base_term(base)->generics[j] == before.ty_term(
                        arguments@[j].spec_ty(),
                    ));
                }
            }
            while k < n
                invariant
                    before == old(tables)@,
                    before.wf(),
                    before.has_base(base),
                    before.bases[base.index as int] == Inferable::Known(data),
                    arguments@ == before.arguments(base.index as int),
                    before.has_all(arguments@),
                    forall|j: int|
                        0 <= j < n ==> ty_can_cross(
                            before.ty_term(#[trigger] arguments@[j].spec_ty()),
                            how,
                        ),
                    n == arguments@.len(),
                    k <= n,
                    tables@.wf(),
                    before.grows_to(tables@),
                    out@.len() == k,
                    tables@.has_all(out@),
                    (tables@, out@) == before.cross_arguments(arguments@, base, k as int, how),
                    forall|j: int|
                        0 <= j < k ==> tables@.ty_term(#[trigger] out@[j].spec_ty()) == crossed_ty(
                            before.ty_term(arguments@[j].spec_ty()),
                            how,
                        ),
                decreases n - k,
            {
                let ty = arguments[k].ty();
                proof {
                    assert(before.arguments(base.index as int)[k as int].spec_ty().base.index
                        < base.index);
                    assert(before.has_ty(ty));
                    before.lemma_ty_term_kept(tables@, ty);
                    assert(ty_can_cross(before.ty_term(arguments@[k as int].spec_ty()), how));
                }
                let ghost first = tables@;
                let perm = cross_perm(tables, ty.perm, how);
                let ghost second = tables@;
                proof {
                    first.lemma_term_kept(second, ty.base);
                }
                let inner = cross_base(tables, ty.base, how);
                let ghost third = tables@;
                proof {
                    before.lemma_grows_on(first, second);
                    before.lemma_grows_on(second, third);
                    first.lemma_grows_on(second, third);
                    assert forall|j: int| 0 <= j < k implies third.ty_term(
                        #[trigger] out@[j].spec_ty(),
                    ) == crossed_ty(before.ty_term(arguments@[j].spec_ty()), how)
                        && third.has_ty(out@[j].spec_ty()) by {
                        assert(first.has_ty(out@[j].spec_ty()));
                        first.lemma_ty_term_kept(third, out@[j].spec_ty());
                    }
                }
                out.push(Generic::Ty(Ty { perm, base: inner }));
                k = k + 1;
            }
            let ghost filled = tables@;
            let ghost made = out@;
            let generics = tables.intern_generics(GenericsData::new(out));
            let ghost middle = tables@;
            let r = tables.intern_base(
                Inferable::Known(BaseData { kind: data.kind, generics }),
            );
            proof {
                filled.lemma_with_generics(made);
                middle.lemma_with_base(Inferable::Known(BaseData { kind: data.kind, generics }));
                before.lemma_grows_on(filled, middle);
                before.lemma_grows_on(middle, tables@);
                filled.lemma_grows_on(middle, tables@);
                tables@.lemma_known_term(r);
                let got = tables@.base_term(r)->generics;
                let want = crossed_base(before.base_term(base), how)->generics;
                assert(tables@.arguments(r.index as int) == made);
                assert forall|j: int| 0 <= j < got.len() implies got[j] == want[j] by {
                    filled.lemma_ty_term_kept(tables@, made[j].spec_ty());
                }
                assert(got =~= want);
            }
            r
        },
    }
}

/// What `ty` becomes when it crosses.
pub fn cross_ty(tables: &mut TyInternTables, ty: Ty, how: Crossing) -> (r: Ty)
    requires
        old(tables)@.wf(),
        old(tables)@.has_ty(ty),
        old(tables)@.can_cross(ty, how),
    ensures
        final(tables)@.wf(),
        old(tables)@.grows_to(final(tables)@),
        final(tables)@.has_ty(r),
        final(tables)@.ty_term(r) == crossed_ty(old(tables)@.ty_term(ty), how),
        (final(tables)@, r) == old(tables)@.cross_ty(ty, how),
{
    let ghost before = tables@;
    let perm = cross_perm(tables, ty.perm, how);
    let ghost first = tables@;
    proof {
        before.lemma_term_kept(first, ty.base);
    }
    let base = cross_base(tables, ty.base, how);
    proof {
        before.lemma_grows_on(first, tables@);
    }
    Ty { perm, base }
}

/// The handle of what `perm` becomes when its definition is instantiated
/// in `universe`.
pub fn instantiate_perm(tables: &mut TyInternTables, perm: Perm, universe: UniverseIndex) -> (r:
    Perm)
    requires
        old(tables)@.wf(),
        old(tables)@.has_perm(perm),
    ensures
        final(tables)@.wf(),
        old(tables)@.grows_to(final(tables)@),
        final(tables)@.has_perm(r),
        final(tables)@.perms[r.index as int] == instantiated_perm(
            old(tables)@.perms[perm.index as int],
            universe,
        ),
        (final(tables)@, r) == old(tables)@.cross_perm(perm, Crossing::Open(universe)),
{
    cross_perm(tables, perm, Crossing::Open(universe))
}

/// Every type can be instantiated.
pub proof fn lemma_can_open(base: BaseTerm, universe: UniverseIndex)
    ensures
        base_can_cross(base, Crossing::Open(universe)),
    decreases base,
{
    match base {
        BaseTerm::Known { kind, generics } => {
            assert forall|k: int| 0 <= k < generics.len() implies perm_can_cross(
                (#[trigger] generics[k]).perm,
                Crossing::Open(universe),
            ) && base_can_cross(generics[k].base, Crossing::Open(universe)) by {
                lemma_can_open(generics[k].base, universe);
            }
        },
        _ => {},
    }
}

/// The handle of what `base` becomes when its definition is instantiated
/// in `universe`.
pub fn instantiate_base(tables: &mut TyInternTables, base: Base, universe: UniverseIndex) -> (r:
    Base)
    requires
        old(tables)@.wf(),
        old(tables)@.has_base(base),
    ensures
        final(tables)@.wf(),
        old(tables)@.grows_to(final(tables)@),
        final(tables)@.has_base(r),
        final(tables)@.base_term(r) == instantiated_base(old(tables)@.base_term(base), universe),
        (final(tables)@, r) == old(tables)@.cross_base(base, Crossing::Open(universe)),
{
    proof {
        lemma_can_open(tables@.base_term(base), universe);
    }
    cross_base(tables, base, Crossing::Open(universe))
}

/// What `ty` becomes when its definition is instantiated in `universe`.
pub fn instantiate_ty(tables: &mut TyInternTables, ty: Ty, universe: UniverseIndex) -> (r: Ty)
    requires
        old(tables)@.wf(),
        old(tables)@.has_ty(ty),
    ensures
        final(tables)@.wf(),
        old(tables)@.grows_to(final(tables)@),
        final(tables)@.has_ty(r),
        final(tables)@.ty_term(r) == instantiated_ty(old(tables)@.ty_term(ty), universe),
        (final(tables)@, r) == old(tables)@.instantiate_ty(ty, universe),
{
    proof {
        lemma_can_open(tables@.base_term(ty.base), universe);
    }
    cross_ty(tables, ty, Crossing::Open(universe))
}

/// Whether every generic parameter in `base` has room to be one binder
/// further out.
pub fn base_can_shift_in(tables: &TyInternTables, base: Base) -> (r: bool)
    requires
        tables@.wf(),
        tables@.has_base(base),
    ensures
        r == base_can_cross(tables@.base_term(base), Crossing::Enter),
    decreases base.index,
{
    let ghost t = tables@;
    proof {
        assert(t.has_base_data(t.bases[base.index as int]));
    }
    match tables.lookup_base(base) {
        Inferable::Infer(_) => true,
        Inferable::Bound(bound) => bound.binder.as_usize() < usize::MAX,
        Inferable::Known(data) => {
            let arguments = tables.lookup_generics(data.generics);
            let n: usize = arguments.len();
            let ghost listed = t.base_term(base)->generics;
            proof {
                t.lemma_known_term(base);
                assert(arguments@ == t.arguments(base.index as int));
                assert(t.has_all(arguments@));
            }
            let mut k: usize = 0;
            while k < n
                invariant
                    t == tables@,
                    t.wf(),
                    t.has_base(base),
                    t.bases[base.index as int] is Known,
                    arguments@ == t.arguments(base.index as int),
                    t.has_all(arguments@),
                    listed == t.base_term(base)->generics,
                    listed.len() == n,
                    forall|j: int|
                        0 <= j < n ==> #[trigger] listed[j] == t.ty_term(arguments@[j].spec_ty()),
                    n == arguments@.len(),
                    k <= n,
                    forall|j: int| 0 <= j < k ==> ty_can_cross(#[trigger] listed[j], Crossing::Enter),
                decreases n - k,
            {
                let ty = arguments.get(k).ty();
                proof {
                    assert(t.arguments(base.index as int)[k as int].spec_ty().base.index
                        < base.index);
                    assert(t.has_ty(ty));
                    assert(listed[k as int] == t.ty_term(ty));
                }
                let fits = match tables.lookup_perm(ty.perm) {
                    Inferable::Bound(bound) => bound.binder.as_usize() < usize::MAX,
                    _ => true,
                };
                if !fits || !base_can_shift_in(tables, ty.base) {
                    assert(!ty_can_cross(listed[k as int], Crossing::Enter));
                    return false;
                }
                k = k + 1;
            }
            true
        },
    }
}

/// Whether every generic parameter in `ty` has room to be one binder
/// further out.
pub fn can_shift_in(tables: &TyInternTables, ty: Ty) -> (r: bool)
    requires
        tables@.wf(),
        tables@.has_ty(ty),
    ensures
        r == tables@.can_cross(ty, Crossing::Enter),
{
    let fits = match tables.lookup_perm(ty.perm) {
        Inferable::Bound(bound) => bound.binder.as_usize() < usize::MAX,
        _ => true,
    };
    fits && base_can_shift_in(tables, ty.base)
}

/// What `ty` is when it is seen from inside one more binder: every
/// generic parameter in it is one binder further out.
pub fn shift_in_ty(tables: &mut TyInternTables, ty: Ty) -> (r: Ty)
    requires
        old(tables)@.wf(),
        old(tables)@.has_ty(ty),
        old(tables)@.can_cross(ty, Crossing::Enter),
    ensures
        final(tables)@.wf(),
        old(tables)@.grows_to(final(tables)@),
        final(tables)@.has_ty(r),
        final(tables)@.ty_term(r) == shifted_in_ty(old(tables)@.ty_term(ty)),
        (final(tables)@, r) == old(tables)@.cross_ty(ty, Crossing::Enter),
{
    cross_ty(tables, ty, Crossing::Enter)
}

/// A definition with generic parameters: how many it declares, and the
/// types of its body, written in terms of those parameters.
#[derive(Debug)]
pub struct GenericDefinition {
    pub parameters: usize,
    pub body: Vec<Ty>,
}

/// A definition seen from the inside: the placeholders that stand for its
/// parameters, and the types of its body written in terms of them.
#[derive(Debug)]
pub struct Instantiated {
    pub placeholders: Vec<Placeholder>,
    pub body: Vec<Ty>,
}

/// Instantiates `definition` in `universe`: one fresh placeholder for each
/// parameter, numbered from 0, and every type of the body with the
/// placeholders in the place of the parameters.
pub fn instantiate(
    tables: &mut TyInternTables,
    definition: &GenericDefinition,
    universe: UniverseIndex,
) -> (r: Instantiated)
    requires
        old(tables)@.wf(),
        forall|i: int|
            0 <= i < definition.body@.len() ==> old(tables)@.has_ty(#[trigger] definition.body@[i]),
    ensures
        final(tables)@.wf(),
        old(tables)@.grows_to(final(tables)@),
        r.placeholders@ == placeholders_of(universe, definition.parameters as nat),
        (final(tables)@, r.body@) == old(tables)@.instantiate_body(
            definition.body@,
            definition.body@.len() as int,
            universe,
        ),
        r.body@.len() == definition.body@.len(),
        forall|i: int|
            0 <= i < r.body@.len() ==> {
                &&& final(tables)@.has_ty(#[trigger] r.body@[i])
                &&& final(tables)@.ty_term(r.body@[i]) == instantiated_ty(
                    old(tables)@.ty_term(definition.body@[i]),
                    universe,
                )
            },
{
    let ghost before = tables@;
    let n: usize = definition.body.len();
    let mut body: Vec<Ty> = Vec::new();
    let mut k: usize = 0;
    proof {
        assert(before.grows_to(before));
    }
    while k < n
        invariant
            before == old(tables)@,
            before.wf(),
            n == definition.body@.len(),
            forall|i: int| 0 <= i < n ==> before.has_ty(#[trigger] definition.body@[i]),
            k <= n,
            tables@.wf(),
            before.grows_to(tables@),
            body@.len() == k,
            (tables@, body@) == before.instantiate_body(definition.body@, k as int, universe),
            forall|i: int|
                0 <= i < k ==> tables@.has_ty(#[trigger] body@[i]) && tables@.ty_term(body@[i])
                    == instantiated_ty(before.ty_term(definition.body@[i]), universe),
        decreases n - k,
    {
        let ty = definition.body[k];
        let ghost first = tables@;
        proof {
            before.lemma_ty_term_kept(first, ty);
        }
        let made = instantiate_ty(tables, ty, universe);
        proof {
            before.lemma_grows_on(first, tables@);
            assert forall|i: int| 0 <= i < k implies tables@.has_ty(#[trigger] body@[i])
                && tables@.ty_term(body@[i]) == instantiated_ty(
                before.ty_term(definition.body@[i]),
                universe,
            ) by {
                first.lemma_ty_term_kept(tables@, body@[i]);
            }
        }
        body.push(made);
        k = k + 1;
    }
    Instantiated { placeholders: placeholders(universe, definition.parameters), body }
}

} // verus!
