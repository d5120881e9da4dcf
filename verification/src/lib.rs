//! Space-based exhaustivity and reachability checking for pattern matching.

mod cache;
pub mod dsl;
mod engine;
mod interner;
mod match_analysis;
mod match_input;
mod operations;
mod space;

pub use interner::{DedupInterner, IdentityInterner, InternedId, SpaceInterner};
pub use match_input::{MatchAnalysis, MatchArm, MatchInput, ReachabilityWarning};
pub use operations::{AtomicIntersection, Decomposition, SpaceOperations};
pub use space::{
    PreInternedSpaceContext, ProductSpace, Space, SpaceContext, SpaceKind, SpaceLookupError,
    SpaceNode, TypeSpace,
};
pub use engine::{check_match, SpaceEngine};
pub use match_analysis::{analysis_ok, ends_with_catch_all, increasing, input_ok, warning_arm_index, warning_covering, warnings_ok};
