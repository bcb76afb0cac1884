//! Small integer indices: binder depths, parameter positions, universes,
//! inference variables, regions and definitions.

use vstd::prelude::*;

verus! {

/// Identifies the binder at which a generic parameter is bound by counting
/// binders outwards from the place of use. The closest enclosing binder is
/// [`DebruijnIndex::INNERMOST`].
#[derive(Copy, Clone, Debug, PartialEq, Eq, Hash, Structural)]
pub struct DebruijnIndex {
    pub depth: usize,
}

impl DebruijnIndex {
    pub open spec fn spec_innermost() -> Self {
        DebruijnIndex { depth: 0 }
    }

    /// The closest enclosing binder.
    #[verifier::when_used_as_spec(spec_innermost)]
    pub fn innermost() -> (r: Self)
        ensures
            r == Self::spec_innermost(),
    {
        DebruijnIndex { depth: 0 }
    }

    /// The index with the number `depth`.
    pub fn new(depth: usize) -> (r: Self)
        ensures
            r.depth == depth,
    {
        DebruijnIndex { depth }
    }

    pub open spec fn spec_as_usize(self) -> usize {
        self.depth
    }

    /// The number of the index.
    #[verifier::when_used_as_spec(spec_as_usize)]
    pub fn as_usize(self) -> (r: usize)
        ensures
            r == self.depth,
    {
        self.depth
    }

    pub open spec fn spec_shifted_in(self) -> Self {
        DebruijnIndex { depth: (self.depth + 1) as usize }
    }

    pub open spec fn spec_shifted_out(self) -> Self {
        DebruijnIndex { depth: (self.depth - 1) as usize }
    }

    pub open spec fn spec_difference(self, outer: Self) -> usize {
        (outer.depth - self.depth) as usize
    }

    /// The index that names the same binder from inside one more binder.
    #[verifier::when_used_as_spec(spec_shifted_in)]
    pub fn shifted_in(self) -> (r: Self)
        requires
            self.depth < usize::MAX,
        ensures
            r == self.spec_shifted_in(),
            r.depth == self.depth + 1,
    {
        DebruijnIndex { depth: self.depth + 1 }
    }

    /// The index that names the same binder from outside the innermost
    /// binder. The innermost binder itself cannot be shifted out.
    #[verifier::when_used_as_spec(spec_shifted_out)]
    pub fn shifted_out(self) -> (r: Self)
        requires
            self != Self::innermost(),
        ensures
            r == self.spec_shifted_out(),
            r.depth == self.depth - 1,
    {
        DebruijnIndex { depth: self.depth - 1 }
    }

    /// Number of binders between `self` and a binder `outer` that encloses
    /// it. In `for<X> for<Y> for<Z> T`, `Y.difference(X)` is 1 and
    /// `Z.difference(X)` is 2.
    #[verifier::when_used_as_spec(spec_difference)]
    pub fn difference(self, outer: Self) -> (r: usize)
        requires
            outer.as_usize() >= self.as_usize(),
        ensures
            r == self.spec_difference(outer),
            r == outer.as_usize() - self.as_usize(),
    {
        outer.depth - self.depth
    }

    /// Shifting in and then out again gives back the index one started
    /// with, for every index that can be shifted in.
    pub proof fn lemma_shift_round_trip(d: DebruijnIndex)
        requires
            d.depth < usize::MAX,
        ensures
            d.shifted_in() != Self::innermost(),
            d.shifted_in().shifted_out() == d,
            Self::innermost().shifted_in().shifted_out() == Self::innermost(),
    {
    }
}

/// Within one binder, the position of a parameter. In
/// `struct Foo<A, B> { x: A }`, `A` is parameter 0 of the innermost binder
/// and `B` is parameter 1.
#[derive(Copy, Clone, Debug, PartialEq, Eq, Hash, Structural)]
pub struct ParameterIndex {
    pub index: usize,
}

impl ParameterIndex {
    /// The index with the number `index`.
    pub fn new(index: usize) -> (r: Self)
        ensures
            r.index == index,
    {
        ParameterIndex { index }
    }

    pub open spec fn spec_as_usize(self) -> usize {
        self.index
    }

    /// The number of the index.
    #[verifier::when_used_as_spec(spec_as_usize)]
    pub fn as_usize(self) -> (r: usize)
        ensures
            r == self.index,
    {
        self.index
    }
}

/// A numbered scope in which a batch of placeholders is introduced.
#[derive(Copy, Clone, Debug, PartialEq, Eq, Hash, Structural)]
pub struct UniverseIndex {
    pub index: usize,
}

impl UniverseIndex {
    /// The index with the number `index`.
    pub fn new(index: usize) -> (r: Self)
        ensures
            r.index == index,
    {
        UniverseIndex { index }
    }

    pub open spec fn spec_as_usize(self) -> usize {
        self.index
    }

    /// The number of the index.
    #[verifier::when_used_as_spec(spec_as_usize)]
    pub fn as_usize(self) -> (r: usize)
        ensures
            r == self.index,
    {
        self.index
    }
}

impl UniverseIndex {
    pub open spec fn spec_root() -> Self {
        UniverseIndex { index: 0 }
    }

    /// The outermost universe.
    #[verifier::when_used_as_spec(spec_root)]
    pub fn root() -> (r: Self)
        ensures
            r == Self::spec_root(),
    {
        UniverseIndex { index: 0 }
    }
}

/// A handle on one variable of a unification table. It carries no data of
/// its own: what is known of the variable lives in the table.
#[derive(Copy, Clone, Debug, PartialEq, Eq, Hash, Structural)]
pub struct InferVar {
    pub index: usize,
}

impl InferVar {
    /// The index with the number `index`.
    pub fn new(index: usize) -> (r: Self)
        ensures
            r.index == index,
    {
        InferVar { index }
    }

    pub open spec fn spec_as_usize(self) -> usize {
        self.index
    }

    /// The number of the index.
    #[verifier::when_used_as_spec(spec_as_usize)]
    pub fn as_usize(self) -> (r: usize)
        ensures
            r == self.index,
    {
        self.index
    }
}

/// A marker attached to shared and borrowed values to tell distinct shares
/// and loans apart.
#[derive(Copy, Clone, Debug, PartialEq, Eq, Hash, Structural)]
pub struct Region {
    pub index: usize,
}

impl Region {
    /// The index with the number `index`.
    pub fn new(index: usize) -> (r: Self)
        ensures
            r.index == index,
    {
        Region { index }
    }

    pub open spec fn spec_as_usize(self) -> usize {
        self.index
    }

    /// The number of the index.
    #[verifier::when_used_as_spec(spec_as_usize)]
    pub fn as_usize(self) -> (r: usize)
        ensures
            r == self.index,
    {
        self.index
    }
}

/// Names a declared type.
#[derive(Copy, Clone, Debug, PartialEq, Eq, Hash, Structural)]
pub struct DefId {
    pub index: usize,
}

impl DefId {
    /// The index with the number `index`.
    pub fn new(index: usize) -> (r: Self)
        ensures
            r.index == index,
    {
        DefId { index }
    }

    pub open spec fn spec_as_usize(self) -> usize {
        self.index
    }

    /// The number of the index.
    #[verifier::when_used_as_spec(spec_as_usize)]
    pub fn as_usize(self) -> (r: usize)
        ensures
            r == self.index,
    {
        self.index
    }
}

/// Handle of an interned permission.
#[derive(Copy, Clone, Debug, PartialEq, Eq, Hash, Structural)]
pub struct Perm {
    pub index: usize,
}

impl Perm {
    /// The index with the number `index`.
    pub fn new(index: usize) -> (r: Self)
        ensures
            r.index == index,
    {
        Perm { index }
    }

    pub open spec fn spec_as_usize(self) -> usize {
        self.index
    }

    /// The number of the index.
    #[verifier::when_used_as_spec(spec_as_usize)]
    pub fn as_usize(self) -> (r: usize)
        ensures
            r == self.index,
    {
        self.index
    }
}

/// Handle of an interned base type.
#[derive(Copy, Clone, Debug, PartialEq, Eq, Hash, Structural)]
pub struct Base {
    pub index: usize,
}

impl Base {
    /// The index with the number `index`.
    pub fn new(index: usize) -> (r: Self)
        ensures
            r.index == index,
    {
        Base { index }
    }

    pub open spec fn spec_as_usize(self) -> usize {
        self.index
    }

    /// The number of the index.
    #[verifier::when_used_as_spec(spec_as_usize)]
    pub fn as_usize(self) -> (r: usize)
        ensures
            r == self.index,
    {
        self.index
    }
}

/// Handle of an interned list of generic arguments.
#[derive(Copy, Clone, Debug, PartialEq, Eq, Hash, Structural)]
pub struct Generics {
    pub index: usize,
}

impl Generics {
    /// The index with the number `index`.
    pub fn new(index: usize) -> (r: Self)
        ensures
            r.index == index,
    {
        Generics { index }
    }

    pub open spec fn spec_as_usize(self) -> usize {
        self.index
    }

    /// The number of the index.
    #[verifier::when_used_as_spec(spec_as_usize)]
    pub fn as_usize(self) -> (r: usize)
        ensures
            r == self.index,
    {
        self.index
    }
}

/// The parameter at position `index` of the binder `binder` levels out.
#[derive(Copy, Clone, Debug, PartialEq, Eq, Hash, Structural)]
pub struct BoundIndex {
    pub binder: DebruijnIndex,
    pub index: ParameterIndex,
}

/// A rigid stand-in for a universally quantified parameter, made when the
/// parameter's definition is checked from the inside. Two placeholders are
/// the same parameter exactly when universe and index agree.
#[derive(Copy, Clone, Debug, PartialEq, Eq, Hash, Structural)]
pub struct Placeholder {
    pub universe: UniverseIndex,
    pub index: ParameterIndex,
}

} // verus!
