use vstd::prelude::*;

use crate::space::Space;

verus! {

/// One arm in a match expression.
#[derive(Clone, Debug, PartialEq, Eq)]
pub struct MatchArm<T, E> {
    /// The space covered by the arm's pattern.
    pub pattern_space: Space<T, E>,
    /// Whether the arm should be treated as only partially covering its pattern space.
    pub is_partial: bool,
    /// Whether the pattern is a top-level wildcard.
    pub is_wildcard: bool,
}

impl<T, E> MatchArm<T, E> {
    /// Creates an unguarded, non-wildcard arm.
    pub fn new(pattern_space: Space<T, E>) -> (arm: Self)
        ensures
            arm.pattern_space == pattern_space,
            !arm.is_partial,
            !arm.is_wildcard,
    {
        MatchArm { pattern_space, is_partial: false, is_wildcard: false }
    }

    /// Creates a top-level wildcard arm.
    pub fn wildcard(pattern_space: Space<T, E>) -> (arm: Self)
        ensures
            arm.pattern_space == pattern_space,
            !arm.is_partial,
            arm.is_wildcard,
    {
        MatchArm { pattern_space, is_partial: false, is_wildcard: true }
    }

    /// Marks whether the arm should be treated as partial.
    pub fn with_partiality(self, is_partial: bool) -> (arm: Self)
        ensures
            arm.pattern_space == self.pattern_space,
            arm.is_partial == is_partial,
            arm.is_wildcard == self.is_wildcard,
    {
        MatchArm { pattern_space: self.pattern_space, is_partial, is_wildcard: self.is_wildcard }
    }
}

/// Input required to analyze exhaustivity and reachability.
#[derive(Clone, Debug, PartialEq, Eq)]
pub struct MatchInput<T, E> {
    /// The space inhabited by the scrutinee.
    pub scrutinee_space: Space<T, E>,
    /// The pattern arms of the match expression.
    pub arms: Vec<MatchArm<T, E>>,
    /// Extra null-only space injected for wildcard reachability checks.
    pub null_space: Option<Space<T, E>>,
    /// Whether uncovered spaces should be filtered through satisfiability checks.
    pub check_counterexample_satisfiability: bool,
}

impl<T, E> MatchInput<T, E> {
    /// Creates a new analysis input.
    pub fn new(scrutinee_space: Space<T, E>, arms: Vec<MatchArm<T, E>>) -> (input: Self)
        ensures
            input.scrutinee_space == scrutinee_space,
            input.arms@ == arms@,
            input.null_space is None,
            !input.check_counterexample_satisfiability,
    {
        MatchInput { scrutinee_space, arms, null_space: None, check_counterexample_satisfiability: false }
    }

    /// Configures the null-only space used by wildcard reachability checks.
    pub fn with_null_space(self, null_space: Space<T, E>) -> (input: Self)
        ensures
            input.scrutinee_space == self.scrutinee_space,
            input.arms@ == self.arms@,
            input.null_space == Some(null_space),
            input.check_counterexample_satisfiability == self.check_counterexample_satisfiability,
    {
        MatchInput {
            scrutinee_space: self.scrutinee_space,
            arms: self.arms,
            null_space: Some(null_space),
            check_counterexample_satisfiability: self.check_counterexample_satisfiability,
        }
    }

    /// Enables satisfiability checks for uncovered counterexamples.
    pub fn with_counterexample_satisfiability_check(self, enabled: bool) -> (input: Self)
        ensures
            input.scrutinee_space == self.scrutinee_space,
            input.arms@ == self.arms@,
            input.null_space == self.null_space,
            input.check_counterexample_satisfiability == enabled,
    {
        MatchInput {
            scrutinee_space: self.scrutinee_space,
            arms: self.arms,
            null_space: self.null_space,
            check_counterexample_satisfiability: enabled,
        }
    }
}

/// Reachability diagnostics for match arms.
#[derive(Clone, Debug, PartialEq, Eq)]
pub enum ReachabilityWarning {
    /// The arm can never be selected because previous arms already cover it.
    Unreachable {
        /// The zero-based index of the unreachable arm.
        arm_index: usize,
        /// Earlier arm indices whose union makes the arm unreachable.
        covering_arm_indices: Vec<usize>,
    },
    /// A wildcard arm is only reachable for `null`.
    OnlyNull {
        /// The zero-based index of the wildcard arm.
        arm_index: usize,
        /// Earlier arm indices whose union covers the wildcard's non-null portion.
        covering_arm_indices: Vec<usize>,
    },
}

/// Combined match-analysis result.
#[derive(Clone, Debug, PartialEq, Eq)]
pub struct MatchAnalysis<T, E> {
    /// Uncovered counterexample spaces.
    pub uncovered_spaces: Vec<Space<T, E>>,
    /// Reachability warnings for individual arms.
    pub reachability_warnings: Vec<ReachabilityWarning>,
}

impl<T, E> MatchAnalysis<T, E> {
    /// Returns `true` when no uncovered spaces remain.
    pub fn is_exhaustive(&self) -> (exhaustive: bool)
        ensures
            exhaustive == (self.uncovered_spaces@.len() == 0),
    {
        self.uncovered_spaces.len() == 0
    }
}

} // verus!
