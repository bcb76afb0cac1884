//! The pool of operations that wait for a variable: the operations
//! themselves, kept in an arena, and for every variable the operations that
//! wait for it.

use crate::ty::Predicate;
use generational_arena::Arena;
use indexmap::IndexMap;
use rustc_hash::FxHasher;
use std::hash::BuildHasherDefault;
use vstd::prelude::*;

verus! {

/// An operation that is put off until a variable is bound.
#[derive(Copy, Clone, Debug, PartialEq, Eq, Structural)]
pub enum Op {
    /// Show that `predicate` holds, for the expression `expr`.
    Prove { expr: usize, predicate: Predicate },
    /// Put down the type of the expression `expr`.
    Resolve { expr: usize },
}

impl Op {
    /// The expression that the operation is for.
    pub open spec fn spec_expr(self) -> usize {
        match self {
            Op::Prove { expr, .. } => expr,
            Op::Resolve { expr } => expr,
        }
    }

    #[verifier::when_used_as_spec(spec_expr)]
    pub fn expr(self) -> (r: usize)
        ensures
            r == self.spec_expr(),
    {
        match self {
            Op::Prove { expr, .. } => expr,
            Op::Resolve { expr } => expr,
        }
    }
}

/// Names an operation of the arena.
#[derive(Copy, Clone, Debug, PartialEq, Eq, Structural)]
pub struct OpIndex {
    pub index: usize,
    pub generation: u64,
}

/// `Arena` of generational-arena. Nothing of what it holds is seen here
/// but through [`arena_ops`].
#[verifier::external_type_specification]
#[verifier::external_body]
#[verifier::reject_recursive_types(T)]
pub struct ExArena<T>(Arena<T>);

/// `FxHasher` of rustc-hash. Nothing of it is seen here.
#[verifier::external_type_specification]
#[verifier::external_body]
pub struct ExFxHasher(FxHasher);

/// `BuildHasherDefault` of std. Nothing of it is seen here.
#[verifier::external_type_specification]
#[verifier::external_body]
#[verifier::reject_recursive_types(H)]
pub struct ExBuildHasherDefault<H>(BuildHasherDefault<H>);

/// `IndexMap` of indexmap. Nothing of what it holds is seen here but
/// through [`blocked_ops`].
#[verifier::external_type_specification]
#[verifier::external_body]
#[verifier::reject_recursive_types(K)]
#[verifier::reject_recursive_types(V)]
#[verifier::reject_recursive_types(S)]
pub struct ExIndexMap<K, V, S>(IndexMap<K, V, S>);

/// The operations that an arena holds, each under its index.
pub uninterp spec fn arena_ops(arena: Arena<Op>) -> Map<OpIndex, Op>;

/// For every variable that operations wait for, by its number, the indices
/// of those operations.
pub uninterp spec fn blocked_ops(
    map: IndexMap<usize, Vec<OpIndex>, BuildHasherDefault<FxHasher>>,
) -> Map<usize, Seq<OpIndex>>;

/// `Arena::with_capacity` of generational-arena: an arena that holds
/// nothing, with room for `capacity` operations.
#[verifier::external_body]
pub(crate) fn arena_with_capacity(capacity: usize) -> (r: Arena<Op>)
    ensures
        forall|index: OpIndex| !arena_ops(r).contains_key(index),
{
    Arena::with_capacity(capacity)
}

/// `Arena::insert` of generational-arena: puts `op` into the arena and
/// returns its index, under which the arena held nothing before. What the
/// arena held stays.
#[verifier::external_body]
pub(crate) fn arena_insert(arena: &mut Arena<Op>, op: Op) -> (r: OpIndex)
    ensures
        !arena_ops(*old(arena)).contains_key(r),
        arena_ops(*final(arena)) == arena_ops(*old(arena)).insert(r, op),
{
    let (index, generation) = arena.insert(op).into_raw_parts();
    OpIndex { index, generation }
}

/// `Arena::get` of generational-arena: the operation under `index`, if
/// the arena holds one there.
#[verifier::external_body]
pub(crate) fn arena_get(arena: &Arena<Op>, index: OpIndex) -> (r: Option<Op>)
    ensures
        r == if arena_ops(*arena).contains_key(index) {
            Some(arena_ops(*arena)[index])
        } else {
            None
        },
{
    arena.get(generational_arena::Index::from_raw_parts(index.index, index.generation)).copied()
}

/// `IndexMap::with_capacity_and_hasher` of indexmap: a map that holds
/// nothing, with room for `capacity` keys.
#[verifier::external_body]
pub(crate) fn blocked_with_capacity(capacity: usize) -> (r: IndexMap<
    usize,
    Vec<OpIndex>,
    BuildHasherDefault<FxHasher>,
>)
    ensures
        forall|key: usize| !blocked_ops(r).contains_key(key),
{
    IndexMap::with_capacity_and_hasher(capacity, BuildHasherDefault::default())
}

/// `IndexMap::insert` of indexmap: puts `value` under `key`, in the place
/// of what the map held there, and returns what it held there.
#[verifier::external_body]
pub(crate) fn blocked_insert(
    map: &mut IndexMap<usize, Vec<OpIndex>, BuildHasherDefault<FxHasher>>,
    key: usize,
    value: Vec<OpIndex>,
) -> (r: Option<Vec<OpIndex>>)
    ensures
        blocked_ops(*final(map)) == blocked_ops(*old(map)).insert(key, value@),
        match r {
            Some(held) => blocked_ops(*old(map)).contains_key(key) && held@ == blocked_ops(
                *old(map),
            )[key],
            None => !blocked_ops(*old(map)).contains_key(key),
        },
{
    map.insert(key, value)
}

/// `IndexMap::swap_remove` of indexmap: takes out what the map holds under
/// `key` and returns it; `None`, and no change, where it holds nothing
/// there.
#[verifier::external_body]
pub(crate) fn blocked_remove(
    map: &mut IndexMap<usize, Vec<OpIndex>, BuildHasherDefault<FxHasher>>,
    key: usize,
) -> (r: Option<Vec<OpIndex>>)
    ensures
        blocked_ops(*final(map)) == blocked_ops(*old(map)).remove(key),
        match r {
            Some(held) => blocked_ops(*old(map)).contains_key(key) && held@ == blocked_ops(
                *old(map),
            )[key],
            None => !blocked_ops(*old(map)).contains_key(key),
        },
{
    map.swap_remove(&key)
}

} // verus!
