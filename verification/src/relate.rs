//! The relations that the checker asks for between two types: equality,
//! and the weaker sameness of representation.

use crate::indices::{Base, Perm};
use crate::intern::{BaseTerm, Tables, TyInternTables};
use crate::ty::{Inferable, PermData};
use vstd::prelude::*;

verus! {

/// Whether two permissions have the same representation: both shared, both
/// borrowed or both owned, whatever the regions, or the same placeholder,
/// the same variable or the same parameter.
pub open spec fn perm_repr_eq(a: Inferable<PermData>, b: Inferable<PermData>) -> bool {
    match (a, b) {
        (Inferable::Known(PermData::Shared(_)), Inferable::Known(PermData::Shared(_))) => true,
        (Inferable::Known(PermData::Borrow(_)), Inferable::Known(PermData::Borrow(_))) => true,
        (Inferable::Known(PermData::Own), Inferable::Known(PermData::Own)) => true,
        (
            Inferable::Known(PermData::Placeholder(p)),
            Inferable::Known(PermData::Placeholder(q)),
        ) => p == q,
        (Inferable::Infer(v), Inferable::Infer(w)) => v == w,
        (Inferable::Bound(i), Inferable::Bound(j)) => i == j,
        _ => false,
    }
}

/// Whether two base types have the same representation: the same kind, and
/// generic arguments whose bases have pairwise the same representation.
/// The permissions of the arguments are not compared.
pub open spec fn base_repr_eq(a: BaseTerm, b: BaseTerm) -> bool
    decreases a,
{
    match (a, b) {
        (BaseTerm::Known { kind: ka, generics: ga }, BaseTerm::Known { kind: kb, generics: gb }) => {
            &&& ka == kb
            &&& ga.len() == gb.len()
            &&& forall|k: int| 0 <= k < ga.len() ==> base_repr_eq(#[trigger] ga[k].base, gb[k].base)
        },
        (BaseTerm::Infer(v), BaseTerm::Infer(w)) => v == w,
        (BaseTerm::Bound(i), BaseTerm::Bound(j)) => i == j,
        _ => false,
    }
}

/// Every permission has the same representation as itself.
pub proof fn lemma_perm_repr_eq_reflexive(a: Inferable<PermData>)
    ensures
        perm_repr_eq(a, a),
{
}

/// Sameness of representation is weaker than equality: every base type has
/// the same representation as itself.
pub proof fn lemma_base_repr_eq_reflexive(a: BaseTerm)
    ensures
        base_repr_eq(a, a),
    decreases a,
{
    match a {
        BaseTerm::Known { kind, generics } => {
            assert forall|k: int| 0 <= k < generics.len() implies base_repr_eq(
                #[trigger] generics[k].base,
                generics[k].base,
            ) by {
                lemma_base_repr_eq_reflexive(generics[k].base);
            }
        },
        _ => {},
    }
}

/// Sameness of representation is strictly weaker than equality: two base
/// types of one kind, each with one argument of the same base, have the
/// same representation whatever the permissions of the two arguments, and
/// are different types where those permissions differ.
pub proof fn lemma_base_repr_eq_ignores_permissions(
    kind: crate::ty::BaseKind,
    p: Inferable<PermData>,
    q: Inferable<PermData>,
    argument: BaseTerm,
)
    ensures
        base_repr_eq(
            BaseTerm::Known {
                kind,
                generics: seq![crate::intern::TyTerm { perm: p, base: argument }],
            },
            BaseTerm::Known {
                kind,
                generics: seq![crate::intern::TyTerm { perm: q, base: argument }],
            },
        ),
        p != q ==> (BaseTerm::Known {
            kind,
            generics: seq![crate::intern::TyTerm { perm: p, base: argument }],
        }) != (BaseTerm::Known {
            kind,
            generics: seq![crate::intern::TyTerm { perm: q, base: argument }],
        }),
{
    let ga = seq![crate::intern::TyTerm { perm: p, base: argument }];
    let gb = seq![crate::intern::TyTerm { perm: q, base: argument }];
    lemma_base_repr_eq_reflexive(argument);
    assert(ga[0].base == argument && gb[0].base == argument);
    if p != q {
        assert(ga[0] != gb[0]);
    }
}

impl Tables {
    /// Handles are a proxy for structure: two base handles of tables in
    /// order are the same handle exactly when they stand for the same
    /// type.
    pub proof fn lemma_handles_stand_for_terms(self, a: Base, b: Base)
        requires
            self.wf(),
            self.has_base(a),
            self.has_base(b),
        ensures
            a == b <==> self.base_term(a) == self.base_term(b),
        decreases a.index,
    {
        if a != b && self.base_term(a) == self.base_term(b) {
            let i = a.index as int;
            let j = b.index as int;
            assert(self.has_base_data(self.bases[i]));
            assert(self.has_base_data(self.bases[j]));
            match (self.bases[i], self.bases[j]) {
                (Inferable::Known(da), Inferable::Known(db)) => {
                    let ga = self.generics[da.generics.index as int];
                    let gb = self.generics[db.generics.index as int];
                    assert(ga == self.arguments(i));
                    assert(gb == self.arguments(j));
                    assert(self.has_all(ga));
                    assert(self.has_all(gb));
                    let ta = self.base_term(a)->generics;
                    let tb = self.base_term(b)->generics;
                    assert(ta.len() == ga.len() && tb.len() == gb.len());
                    assert forall|k: int| 0 <= k < ga.len() implies ga[k] == gb[k] by {
                        let x = ga[k].spec_ty();
                        let y = gb[k].spec_ty();
                        assert(self.arguments(i)[k].spec_ty().base.index < i);
                        assert(self.arguments(j)[k].spec_ty().base.index < j);
                        assert(self.has_ty(x) && self.has_ty(y));
                        assert(ta[k] == self.ty_term(x));
                        assert(tb[k] == self.ty_term(y));
                        assert(ta[k] == tb[k]);
                        self.lemma_handles_stand_for_terms(x.base, y.base);
                        assert(x.perm.index == y.perm.index);
                    }
                    assert(ga =~= gb);
                    assert(da.generics.index == db.generics.index);
                    assert(da == db);
                },
                _ => {},
            }
            assert(self.bases[i] == self.bases[j]);
            assert(false);
        }
    }
}

/// Whether the permissions that `p` and `q` name have the same
/// representation.
pub fn perms_repr_eq(tables: &TyInternTables, p: Perm, q: Perm) -> (r: bool)
    requires
        tables@.has_perm(p),
        tables@.has_perm(q),
    ensures
        r == perm_repr_eq(tables@.perms[p.index as int], tables@.perms[q.index as int]),
{
    match (tables.lookup_perm(p), tables.lookup_perm(q)) {
        (Inferable::Known(PermData::Shared(_)), Inferable::Known(PermData::Shared(_))) => true,
        (Inferable::Known(PermData::Borrow(_)), Inferable::Known(PermData::Borrow(_))) => true,
        (Inferable::Known(PermData::Own), Inferable::Known(PermData::Own)) => true,
        (
            Inferable::Known(PermData::Placeholder(x)),
            Inferable::Known(PermData::Placeholder(y)),
        ) => x == y,
        (Inferable::Infer(v), Inferable::Infer(w)) => v == w,
        (Inferable::Bound(i), Inferable::Bound(j)) => i == j,
        _ => false,
    }
}

/// Whether the base types that `a` and `b` name have the same
/// representation.
pub fn bases_repr_eq(tables: &TyInternTables, a: Base, b: Base) -> (r: bool)
    requires
        tables@.wf(),
        tables@.has_base(a),
        tables@.has_base(b),
    ensures
        r == base_repr_eq(tables@.base_term(a), tables@.base_term(b)),
    decreases a.index,
{
    let ghost t = tables@;
    proof {
        assert(t.has_base_data(t.bases[a.index as int]));
        assert(t.has_base_data(t.bases[b.index as int]));
    }
    match (tables.lookup_base(a), tables.lookup_base(b)) {
        (Inferable::Known(da), Inferable::Known(db)) => {
            if da.kind != db.kind {
                return false;
            }
            let ga = tables.lookup_generics(da.generics);
            let gb = tables.lookup_generics(db.generics);
            let n: usize = ga.len();
            if n != gb.len() {
                return false;
            }
            let ghost ta = t.base_term(a)->generics;
            let ghost tb = t.base_term(b)->generics;
            proof {
                assert(ga@ == t.arguments(a.index as int));
                assert(gb@ == t.arguments(b.index as int));
                assert(t.has_all(ga@));
                assert(t.has_all(gb@));
            }
            let mut k: usize = 0;
            while k < n
                invariant
                    t == tables@,
                    t.wf(),
                    t.has_base(a),
                    t.has_base(b),
                    t.bases[a.index as int] == Inferable::Known(da),
                    t.bases[b.index as int] == Inferable::Known(db),
                    ga@ == t.arguments(a.index as int),
                    gb@ == t.arguments(b.index as int),
                    t.has_all(ga@),
                    t.has_all(gb@),
                    ta == t.base_term(a)->generics,
                    tb == t.base_term(b)->generics,
                    n == ga@.len(),
                    n == gb@.len(),
                    k <= n,
                    forall|i: int| 0 <= i < k ==> base_repr_eq(#[trigger] ta[i].base, tb[i].base),
                decreases n - k,
            {
                let x = ga.get(k).ty();
                let y = gb.get(k).ty();
                proof {
                    assert(t.arguments(a.index as int)[k as int].spec_ty().base.index < a.index);
                    assert(t.arguments(b.index as int)[k as int].spec_ty().base.index < b.index);
                    assert(t.has_ty(x) && t.has_ty(y));
                    assert(ta[k as int] == t.ty_term(x));
                    assert(tb[k as int] == t.ty_term(y));
                }
                if !bases_repr_eq(tables, x.base, y.base) {
                    assert(!base_repr_eq(ta[k as int].base, tb[k as int].base));
                    return false;
                }
                k = k + 1;
            }
            true
        },
        (Inferable::Infer(v), Inferable::Infer(w)) => v == w,
        (Inferable::Bound(i), Inferable::Bound(j)) => i == j,
        _ => false,
    }
}

} // verus!
