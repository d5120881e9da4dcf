use vstd::prelude::*;

use crate::interner::SpaceInterner;
use crate::space::{Space, SpaceContext};

verus! {

/// A decomposition of a type space.
#[derive(Clone, Debug, PartialEq, Eq)]
pub enum Decomposition<T> {
    /// The type cannot be decomposed any further.
    NotDecomposable,
    /// The type is known to be uninhabited.
    Empty,
    /// The type decomposes into the listed subtypes.
    Parts(Vec<T>),
}

impl<T> Decomposition<T> {
    /// Creates a decomposition from a list of parts: `Empty` when there is
    /// none, `Parts` holding them otherwise.
    pub fn parts(parts: Vec<T>) -> (decomposition: Self)
        ensures
            parts@.len() == 0 ==> decomposition is Empty,
            parts@.len() > 0 ==> (decomposition matches Decomposition::Parts(p) && p@ == parts@),
    {
        if parts.len() == 0 {
            Decomposition::Empty
        } else {
            Decomposition::Parts(parts)
        }
    }

    /// Returns `true` when the type can be decomposed or is known to be empty.
    pub fn is_decomposable(&self) -> (decomposable: bool)
        ensures
            decomposable == !(self is NotDecomposable),
    {
        match self {
            Decomposition::NotDecomposable => false,
            _ => true,
        }
    }
}

/// The result of intersecting two unrelated atomic types.
#[derive(Clone, Debug, PartialEq, Eq)]
pub enum AtomicIntersection<T> {
    /// The types are disjoint.
    Empty,
    /// The intersection is represented by the returned type.
    Type(T),
}

/// Hooks required by the generic space engine.
///
/// The engine promises nothing about what these hooks return: every result it
/// computes is correct by construction whatever they answer, but only as
/// meaningful as their answers.
pub trait SpaceOperations {
    /// The type representation used by the engine.
    type Type: Eq + std::hash::Hash + std::fmt::Debug;

    /// The extractor or constructor identifier used by the engine.
    type Extractor: Eq + std::hash::Hash + std::fmt::Debug;

    /// Decomposes a type into smaller spaces when possible.
    ///
    /// Implementations should eventually bottom out.
    fn decompose_type(&self, value_type: &Self::Type) -> Decomposition<Self::Type>;

    /// Returns `true` when `left` is a subtype of `right`.
    fn is_subtype(&self, left: &Self::Type, right: &Self::Type) -> bool;

    /// Returns `true` when two extractors can be treated as equivalent.
    fn extractors_are_equivalent(&self, left: &Self::Extractor, right: &Self::Extractor) -> bool;

    /// Returns the parameter types produced by an extractor for a scrutinee type.
    ///
    /// Implementations should return exactly `arity` parameter types.
    fn extractor_parameter_types(
        &self,
        extractor: &Self::Extractor,
        scrutinee_type: &Self::Type,
        arity: usize,
    ) -> Vec<Self::Type>;

    /// Returns `true` when every value of the scrutinee type matches the extractor.
    fn extractor_covers_type(
        &self,
        extractor: &Self::Extractor,
        scrutinee_type: &Self::Type,
        arity: usize,
    ) -> bool;

    /// Intersects two unrelated atomic types.
    fn intersect_atomic_types(&self, left: &Self::Type, right: &Self::Type) -> AtomicIntersection<
        Self::Type,
    >;

    /// Returns `true` when right-hand-side decomposition is allowed for a type.
    fn allow_right_hand_decomposition(&self, value_type: &Self::Type) -> (allowed: bool)
        default_ensures
            allowed,
    {
        true
    }

    /// Returns `true` when a flattened counterexample is satisfiable.
    fn is_satisfiable<TI, EI>(
        &self,
        context: &SpaceContext<Self::Type, Self::Extractor, TI, EI>,
        space: Space<Self::Type, Self::Extractor>,
    ) -> (satisfiable: bool) where
        TI: SpaceInterner<Item = Self::Type>,
        EI: SpaceInterner<Item = Self::Extractor>,

        default_ensures
            satisfiable,
     {
        true
    }
}

impl<'o, O: SpaceOperations> SpaceOperations for &'o O {
    type Type = O::Type;

    type Extractor = O::Extractor;

    fn decompose_type(&self, value_type: &Self::Type) -> (decomposition: Decomposition<Self::Type>)
        ensures
            call_ensures(O::decompose_type, (*self, value_type), decomposition),
    {
        (**self).decompose_type(value_type)
    }

    fn is_subtype(&self, left: &Self::Type, right: &Self::Type) -> (subtype: bool)
        ensures
            call_ensures(O::is_subtype, (*self, left, right), subtype),
    {
        (**self).is_subtype(left, right)
    }

    fn extractors_are_equivalent(&self, left: &Self::Extractor, right: &Self::Extractor) -> (equivalent: bool)
        ensures
            call_ensures(O::extractors_are_equivalent, (*self, left, right), equivalent),
    {
        (**self).extractors_are_equivalent(left, right)
    }

    fn extractor_parameter_types(
        &self,
        extractor: &Self::Extractor,
        scrutinee_type: &Self::Type,
        arity: usize,
    ) -> (parameter_types: Vec<Self::Type>)
        ensures
            call_ensures(O::extractor_parameter_types, (*self, extractor, scrutinee_type, arity), parameter_types),
    {
        (**self).extractor_parameter_types(extractor, scrutinee_type, arity)
    }

    fn extractor_covers_type(
        &self,
        extractor: &Self::Extractor,
        scrutinee_type: &Self::Type,
        arity: usize,
    ) -> (covers: bool)
        ensures
            call_ensures(O::extractor_covers_type, (*self, extractor, scrutinee_type, arity), covers),
    {
        (**self).extractor_covers_type(extractor, scrutinee_type, arity)
    }

    fn intersect_atomic_types(&self, left: &Self::Type, right: &Self::Type) -> (intersection: AtomicIntersection<
        Self::Type,
    >)
        ensures
            call_ensures(O::intersect_atomic_types, (*self, left, right), intersection),
    {
        (**self).intersect_atomic_types(left, right)
    }

    fn allow_right_hand_decomposition(&self, value_type: &Self::Type) -> (allowed: bool)
        ensures
            call_ensures(O::allow_right_hand_decomposition, (*self, value_type), allowed),
    {
        (**self).allow_right_hand_decomposition(value_type)
    }

    fn is_satisfiable<TI, EI>(
        &self,
        context: &SpaceContext<Self::Type, Self::Extractor, TI, EI>,
        space: Space<Self::Type, Self::Extractor>,
    ) -> (satisfiable: bool) where
        TI: SpaceInterner<Item = Self::Type>,
        EI: SpaceInterner<Item = Self::Extractor>,
     {
        (**self).is_satisfiable(context, space)
    }
}

} // verus!
