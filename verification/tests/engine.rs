use patmat::{
    AtomicIntersection, Decomposition, MatchArm, MatchInput, ReachabilityWarning, Space,
    SpaceContext, SpaceEngine, SpaceOperations,
};

#[allow(dead_code)]
#[derive(Clone, Debug, PartialEq, Eq, Hash)]
pub enum DemoType {
    Never,
    Any,
    Bool,
    True,
    False,
    Option(Box<DemoType>),
    SomeOf(Box<DemoType>),
    NoneOf,
    Pair(Box<DemoType>, Box<DemoType>),
    Null,
}

#[derive(Clone, Debug, PartialEq, Eq, Hash)]
pub enum DemoExtractor {
    SomeCtor,
    Pair,
}

#[derive(Clone, Copy, Debug)]
pub struct DemoOperations;

impl SpaceOperations for DemoOperations {
    type Type = DemoType;
    type Extractor = DemoExtractor;

    fn decompose_type(&self, value_type: &Self::Type) -> Decomposition<Self::Type> {
        match value_type {
            DemoType::Never => Decomposition::Empty,
            DemoType::Bool => Decomposition::parts(vec![DemoType::True, DemoType::False]),
            DemoType::Option(inner) => {
                Decomposition::parts(vec![DemoType::SomeOf(inner.clone()), DemoType::NoneOf])
            }
            _ => Decomposition::NotDecomposable,
        }
    }

    fn is_subtype(&self, left: &Self::Type, right: &Self::Type) -> bool {
        if left == right {
            return true;
        }

        match (left, right) {
            (DemoType::Never, _) => true,
            (_, DemoType::Any) => true,
            (DemoType::True, DemoType::Bool) | (DemoType::False, DemoType::Bool) => true,
            (DemoType::SomeOf(left), DemoType::SomeOf(right))
            | (DemoType::SomeOf(left), DemoType::Option(right))
            | (DemoType::Option(left), DemoType::Option(right)) => self.is_subtype(left, right),
            (DemoType::NoneOf, DemoType::Option(_)) => true,
            (DemoType::Pair(left_a, left_b), DemoType::Pair(right_a, right_b)) => {
                self.is_subtype(left_a, right_a) && self.is_subtype(left_b, right_b)
            }
            _ => false,
        }
    }

    fn extractors_are_equivalent(&self, left: &Self::Extractor, right: &Self::Extractor) -> bool {
        left == right
    }

    fn extractor_parameter_types(
        &self,
        extractor: &Self::Extractor,
        scrutinee_type: &Self::Type,
        arity: usize,
    ) -> Vec<Self::Type> {
        match (extractor, scrutinee_type, arity) {
            (DemoExtractor::SomeCtor, DemoType::SomeOf(inner), 1)
            | (DemoExtractor::SomeCtor, DemoType::Option(inner), 1) => vec![(*inner.clone())],
            (DemoExtractor::Pair, DemoType::Pair(left, right), 2) => {
                vec![(*left.clone()), (*right.clone())]
            }
            _ => Vec::new(),
        }
    }

    fn extractor_covers_type(
        &self,
        extractor: &Self::Extractor,
        scrutinee_type: &Self::Type,
        arity: usize,
    ) -> bool {
        matches!(
            (extractor, scrutinee_type, arity),
            (DemoExtractor::SomeCtor, DemoType::SomeOf(_), 1)
                | (DemoExtractor::Pair, DemoType::Pair(_, _), 2)
        )
    }

    fn intersect_atomic_types(
        &self,
        left: &Self::Type,
        right: &Self::Type,
    ) -> AtomicIntersection<Self::Type> {
        if left == right {
            return AtomicIntersection::Type(left.clone());
        }

        match (left, right) {
            (DemoType::Never, _) | (_, DemoType::Never) => AtomicIntersection::Empty,
            (DemoType::Any, other) | (other, DemoType::Any) => {
                AtomicIntersection::Type(other.clone())
            }
            (DemoType::True, DemoType::False) | (DemoType::False, DemoType::True) => {
                AtomicIntersection::Empty
            }
            (DemoType::SomeOf(_), DemoType::NoneOf) | (DemoType::NoneOf, DemoType::SomeOf(_)) => {
                AtomicIntersection::Empty
            }
            (DemoType::Null, DemoType::Null) => AtomicIntersection::Type(DemoType::Null),
            (DemoType::Null, _) | (_, DemoType::Null) => AtomicIntersection::Empty,
            _ => AtomicIntersection::Empty,
        }
    }
}

pub type DemoSpace = Space<DemoType, DemoExtractor>;

pub type DemoContext = SpaceContext<DemoType, DemoExtractor>;

pub fn demo_context() -> DemoContext {
    SpaceContext::new()
}

pub fn demo_engine<'a>(context: &'a mut DemoContext) -> SpaceEngine<'a, DemoOperations> {
    SpaceEngine::new(DemoOperations, context)
}

pub fn product_space(
    context: &mut DemoContext,
    value_type: DemoType,
    extractor: DemoExtractor,
    parameters: Vec<DemoSpace>,
) -> DemoSpace {
    context.product(value_type, extractor, parameters)
}

pub fn type_space(context: &mut DemoContext, value_type: DemoType) -> DemoSpace {
    context.of_type(value_type)
}

pub fn union_space(context: &mut DemoContext, spaces: Vec<DemoSpace>) -> DemoSpace {
    context.union(spaces)
}


#[test]
fn engine_subspace_uses_type_decomposition() {
    let mut context = demo_context();
    let boolean_space = type_space(&mut context, DemoType::Bool);
    let true_space = type_space(&mut context, DemoType::True);
    let false_space = type_space(&mut context, DemoType::False);
    let covered_space = union_space(&mut context, vec![true_space, false_space]);
    let mut engine = demo_engine(&mut context);

    assert!(engine.is_subspace(boolean_space, covered_space));
    assert!(!engine.is_subspace(boolean_space, true_space));
}


#[test]
fn engine_subtraction_splits_product_spaces_along_remaining_dimensions() {
    let mut context = demo_context();
    let pair_type = DemoType::Pair(Box::new(DemoType::Bool), Box::new(DemoType::Bool));
    let bool_space = type_space(&mut context, DemoType::Bool);
    let true_space = type_space(&mut context, DemoType::True);
    let false_space = type_space(&mut context, DemoType::False);

    let left_space = product_space(
        &mut context,
        pair_type.clone(),
        DemoExtractor::Pair,
        vec![bool_space, bool_space],
    );
    let right_space = product_space(
        &mut context,
        pair_type.clone(),
        DemoExtractor::Pair,
        vec![true_space, false_space],
    );
    let expected_left = product_space(
        &mut context,
        pair_type.clone(),
        DemoExtractor::Pair,
        vec![false_space, bool_space],
    );
    let expected_right = product_space(
        &mut context,
        pair_type,
        DemoExtractor::Pair,
        vec![bool_space, true_space],
    );
    let expected = union_space(&mut context, vec![expected_left, expected_right]);
    let mut engine = demo_engine(&mut context);

    let remainder = engine.subtract(left_space, right_space);
    let result = engine.simplify(remainder);

    assert_eq!(result, expected);
}


#[test]
fn engine_exhaustivity_reports_uncovered_space() {
    let mut context = demo_context();
    let option_of_boolean = DemoType::Option(Box::new(DemoType::Bool));
    let scrutinee_space = type_space(&mut context, option_of_boolean.clone());
    let true_space = type_space(&mut context, DemoType::True);
    let some_true = product_space(
        &mut context,
        option_of_boolean.clone(),
        DemoExtractor::SomeCtor,
        vec![true_space],
    );
    let none_space = type_space(&mut context, DemoType::NoneOf);
    let false_space = type_space(&mut context, DemoType::False);
    let expected_uncovered = product_space(
        &mut context,
        DemoType::SomeOf(Box::new(DemoType::Bool)),
        DemoExtractor::SomeCtor,
        vec![false_space],
    );
    let match_input = MatchInput::new(
        scrutinee_space,
        vec![MatchArm::new(some_true), MatchArm::new(none_space)],
    );
    let mut engine = demo_engine(&mut context);

    let analysis = engine.analyze_match(&match_input);

    assert_eq!(analysis.uncovered_spaces, vec![expected_uncovered]);
    assert!(analysis.reachability_warnings.is_empty());
}


#[test]
fn engine_reachability_marks_shadowed_cases() {
    let mut context = demo_context();
    let bool_space = type_space(&mut context, DemoType::Bool);
    let true_space = type_space(&mut context, DemoType::True);
    let false_space = type_space(&mut context, DemoType::False);
    let match_input = MatchInput::new(
        bool_space,
        vec![
            MatchArm::new(true_space),
            MatchArm::wildcard(bool_space),
            MatchArm::new(false_space),
        ],
    );
    let mut engine = demo_engine(&mut context);

    let analysis = engine.analyze_match(&match_input);
    assert!(analysis.is_exhaustive());
    assert_eq!(
        analysis.reachability_warnings,
        vec![ReachabilityWarning::Unreachable {
            arm_index: 2,
            covering_arm_indices: vec![1],
        }]
    );
}


#[test]
fn engine_wildcard_can_be_reported_as_matching_only_null() {
    let mut context = demo_context();
    let bool_space = type_space(&mut context, DemoType::Bool);
    let null_space = type_space(&mut context, DemoType::Null);
    let scrutinee_space = union_space(&mut context, vec![bool_space, null_space]);
    let true_space = type_space(&mut context, DemoType::True);
    let false_space = type_space(&mut context, DemoType::False);
    let match_input = MatchInput::new(
        scrutinee_space,
        vec![
            MatchArm::new(true_space),
            MatchArm::new(false_space),
            MatchArm::wildcard(bool_space),
        ],
    )
    .with_null_space(null_space);
    let mut engine = demo_engine(&mut context);

    let analysis = engine.analyze_match(&match_input);

    assert_eq!(analysis.uncovered_spaces, vec![null_space]);
    assert_eq!(
        analysis.reachability_warnings,
        vec![ReachabilityWarning::OnlyNull {
            arm_index: 2,
            covering_arm_indices: vec![0, 1],
        }]
    );
}


#[test]
fn engine_unreachable_arm_can_report_joint_coverage() {
    let mut context = demo_context();
    let bool_space = type_space(&mut context, DemoType::Bool);
    let true_space = type_space(&mut context, DemoType::True);
    let false_space = type_space(&mut context, DemoType::False);
    let match_input = MatchInput::new(
        bool_space,
        vec![
            MatchArm::new(true_space),
            MatchArm::new(false_space),
            MatchArm::new(bool_space),
        ],
    );
    let mut engine = demo_engine(&mut context);

    let analysis = engine.analyze_match(&match_input);

    assert_eq!(
        analysis.reachability_warnings,
        vec![ReachabilityWarning::Unreachable {
            arm_index: 2,
            covering_arm_indices: vec![0, 1],
        }]
    );
}

