//! The data behind the handles: permissions, base types, generic argument
//! lists, and the wrapper for components that inference has yet to settle.

use crate::indices::{Base, BoundIndex, DefId, Generics, InferVar, Perm, Placeholder, Region};
use std::rc::Rc;
use vstd::prelude::*;

verus! {

/// A type: how a value may be accessed, and what it is made of.
#[derive(Copy, Clone, Debug, PartialEq, Eq, Hash, Structural)]
pub struct Ty {
    pub perm: Perm,
    pub base: Base,
}

/// How a value may be accessed.
#[derive(Copy, Clone, Debug, PartialEq, Eq, Hash, Structural)]
pub enum PermData {
    /// Immutable shared access.
    Shared(Region),
    /// Mutable, exclusive, temporary access.
    Borrow(Region),
    /// An exclusively owned value.
    Own,
    /// Stands for a universally quantified permission parameter.
    Placeholder(Placeholder),
}

/// A component that is known, or awaits inference, or names a generic
/// parameter that has yet to be substituted.
#[derive(Copy, Clone, Debug, PartialEq, Eq, Hash, Structural)]
pub enum Inferable<T> {
    Known(T),
    /// An inference variable of the current check.
    Infer(InferVar),
    /// A generic parameter that has yet to be substituted.
    Bound(BoundIndex),
}

impl<T> Inferable<T> {
    /// The known value. The caller has established that there is one.
    pub fn assert_known(self) -> (r: T)
        requires
            self is Known,
        ensures
            self == Inferable::Known(r),
    {
        match self {
            Inferable::Known(v) => v,
            _ => vstd::pervasive::unreached(),
        }
    }
}

/// What a base type is at its head.
#[derive(Copy, Clone, Debug, PartialEq, Eq, Hash, Structural)]
pub enum BaseKind {
    /// A declared type.
    Named(DefId),
    /// Stands for a universally quantified type parameter.
    Placeholder(Placeholder),
}

/// The structure of a type apart from its permission: a kind applied to
/// generic arguments.
#[derive(Copy, Clone, Debug, PartialEq, Eq, Hash, Structural)]
pub struct BaseData {
    pub kind: BaseKind,
    pub generics: Generics,
}

/// A generic argument.
#[derive(Copy, Clone, Debug, PartialEq, Eq, Hash, Structural)]
pub enum Generic {
    Ty(Ty),
}

/// An ordered list of generic arguments, shared and never changed once
/// built.
#[derive(Clone, Debug, PartialEq, Eq, Hash)]
pub struct GenericsData {
    pub elements: Rc<Vec<Generic>>,
}

impl View for GenericsData {
    type V = Seq<Generic>;

    open spec fn view(&self) -> Seq<Generic> {
        self.elements@
    }
}

impl GenericsData {
    /// The list of `elements`.
    pub fn new(elements: Vec<Generic>) -> (r: Self)
        ensures
            r@ == elements@,
    {
        GenericsData { elements: Rc::new(elements) }
    }

    /// Whether the list holds no argument.
    pub fn is_empty(&self) -> (r: bool)
        ensures
            r == (self@.len() == 0),
    {
        self.len() == 0
    }

    /// Whether the list holds an argument.
    pub fn is_not_empty(&self) -> (r: bool)
        ensures
            r == (self@.len() != 0),
    {
        self.len() != 0
    }

    /// The number of arguments.
    pub fn len(&self) -> (r: usize)
        ensures
            r == self@.len(),
    {
        self.elements.len()
    }

    /// The argument at position `i`.
    pub fn get(&self, i: usize) -> (r: Generic)
        requires
            i < self@.len(),
        ensures
            r == self@[i as int],
    {
        self.elements[i]
    }

    /// The arguments in order.
    pub fn iter(&self) -> (r: Vec<Generic>)
        ensures
            r@ == self@,
    {
        let mut out: Vec<Generic> = Vec::new();
        let n: usize = self.len();
        let mut i: usize = 0;
        while i < n
            invariant
                n == self@.len(),
                i <= n,
                out@ == self@.subrange(0, i as int),
            decreases n - i,
        {
            out.push(self.get(i));
            i = i + 1;
        }
        assert(self@.subrange(0, n as int) =~= self@);
        out
    }

    /// Whether two lists hold the same arguments in the same order.
    pub fn same(&self, other: &GenericsData) -> (r: bool)
        ensures
            r == (self@ == other@),
    {
        let n: usize = self.len();
        if n != other.len() {
            return false;
        }
        let mut i: usize = 0;
        while i < n
            invariant
                n == self@.len(),
                n == other@.len(),
                i <= n,
                forall|k: int| 0 <= k < i ==> self@[k] == other@[k],
            decreases n - i,
        {
            if self.get(i) != other.get(i) {
                return false;
            }
            i = i + 1;
        }
        assert(self@ =~= other@);
        true
    }
}

/// What can be asked of two types.
#[derive(Copy, Clone, Debug, PartialEq, Eq, Hash, Structural)]
pub enum Predicate {
    /// The two bases are equal.
    BaseBaseEq(Base, Base),
    /// The two bases have the same representation.
    BaseReprEq(Base, Base),
    /// The two permissions have the same representation.
    PermReprEq(Perm, Perm),
    /// Reserved for constraints between regions.
    RegionConstraint {},
}

} // verus!
