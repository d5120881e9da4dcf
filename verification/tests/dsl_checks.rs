use patmat::dsl::{analyze_source, parse, Span, TypeResponse, WarningResponse};

const OPTION_BOOL: &str = "type Bool =\n  | true\n  | false\n\ntype Option<T> =\n  | Some(T)\n  | None\n\nmatch Option<Bool>:\n  Some(true)\n  None\n";

fn failure(source: &str) -> (String, Option<Span>) {
    match analyze_source(source) {
        Ok(_) => panic!("expected an error"),
        Err(error) => (error.message, error.span),
    }
}

#[test]
fn unexpected_character_points_at_its_byte() {
    let (message, span) = failure("match Bool:\n  #\n");
    assert_eq!(message, "Unexpected character `#`");
    assert_eq!(span, Some(Span { start: 14, end: 15 }));
}

#[test]
fn missing_match_block_points_at_end_of_input() {
    let source = "type Bool =\n  | true\n  | false\n";
    let (message, span) = failure(source);
    assert_eq!(message, "Expected a match block");
    assert_eq!(span, Some(Span { start: source.len(), end: source.len() }));
}

#[test]
fn second_match_block_is_rejected() {
    let (message, span) = failure(
        "type Bool =\n  | true\n  | false\n\nmatch Bool:\n  true\nmatch Bool:\n  false\n",
    );
    assert_eq!(message, "Only one match block is supported");
    assert_eq!(span, Some(Span { start: 51, end: 56 }));
}

#[test]
fn type_after_match_block_is_rejected() {
    let (message, _) = failure("match Bool:\n  _\ntype Bool =\n  | true\n");
    assert_eq!(message, "Type declarations must appear before the match block");
}

#[test]
fn type_without_constructors_is_rejected() {
    let (message, span) = failure("type Empty =\n\nmatch Empty:\n  _\n");
    assert_eq!(message, "Type `Empty` must declare at least one constructor");
    assert_eq!(span, Some(Span { start: 14, end: 19 }));
}

#[test]
fn duplicate_type_parameter_is_rejected() {
    let (message, span) = failure("type Pair<T, T> =\n  | Pair(T, T)\n\nmatch Pair<Pair, Pair>:\n  _\n");
    assert_eq!(message, "Duplicate type parameter `T`");
    assert_eq!(span, Some(Span { start: 13, end: 14 }));
}

#[test]
fn duplicate_type_is_rejected() {
    let (message, _) = failure("type Bool =\n  | true\n\ntype Bool =\n  | false\n\nmatch Bool:\n  _\n");
    assert_eq!(message, "Duplicate type `Bool`");
}

#[test]
fn duplicate_constructor_is_rejected() {
    let (message, span) = failure("type Bool =\n  | true\n  | false\n  | true\n\nmatch Bool:\n  _\n");
    assert_eq!(message, "Duplicate constructor `true` in type `Bool`");
    assert_eq!(span, Some(Span { start: 35, end: 39 }));
}

#[test]
fn recursive_type_is_rejected() {
    let (message, span) = failure("type List =\n  | Nil\n  | Cons(List)\n\nmatch List:\n  _\n");
    assert_eq!(message, "Recursive type `List` is not supported");
    assert_eq!(span, Some(Span { start: 29, end: 33 }));
}

#[test]
fn type_parameter_with_arguments_is_rejected() {
    let (message, _) = failure("type Box<T> =\n  | Box(T<T>)\n\nmatch Box<Box<Box>>:\n  _\n");
    assert_eq!(message, "Type parameter `T` cannot have arguments");
}

#[test]
fn type_argument_count_is_checked() {
    let (message, span) = failure("type Option<T> =\n  | Some(T)\n  | None\n\nmatch Option:\n  _\n");
    assert_eq!(message, "Type `Option` expects 1 type argument(s), got 0");
    assert_eq!(span, Some(Span { start: 45, end: 51 }));
}

#[test]
fn empty_type_argument_list_is_rejected() {
    let (message, _) = failure("match Option<>:\n  _\n");
    assert_eq!(message, "Expected a type argument");
}

#[test]
fn missing_colon_after_scrutinee_is_rejected() {
    let (message, _) = failure("type Bool =\n  | true\n\nmatch Bool\n  _\n");
    assert_eq!(message, "Expected `:`");
}

#[test]
fn unclosed_pattern_arguments_are_rejected() {
    let (message, _) = failure(
        "type Bool =\n  | true\n  | false\n\ntype Option<T> =\n  | Some(T)\n  | None\n\nmatch Option<Bool>:\n  Some(true\n",
    );
    assert_eq!(message, "Expected `)`");
}

#[test]
fn constructor_arity_message_names_both_counts() {
    let (message, _) = failure(
        "type Bool =\n  | true\n  | false\n\ntype Option<T> =\n  | Some(T)\n  | None\n\nmatch Option<Bool>:\n  Some\n",
    );
    assert_eq!(message, "Constructor `Some` expects 1 argument(s), got 0");
}

#[test]
fn response_reports_types_arms_and_uncovered_values() {
    let response = analyze_source(OPTION_BOOL).unwrap();

    assert!(response.ok);
    assert_eq!(response.scrutinee, "Option<Bool>");
    assert!(!response.is_exhaustive);
    assert_eq!(response.uncovered, vec!["Some(false)"]);
    assert!(response.warnings.is_empty());

    assert_eq!(response.arms.len(), 2);
    assert_eq!(response.arms[0].index, 0);
    assert_eq!(response.arms[0].source, "Some(true)");
    assert_eq!(response.arms[0].span, Span { start: 93, end: 103 });
    assert_eq!(response.arms[0].space, "Some(true)");
    assert!(response.arms[0].reachable);
    assert_eq!(response.arms[1].source, "None");
    assert_eq!(response.arms[1].span, Span { start: 106, end: 110 });
    assert_eq!(response.arms[1].space, "None");

    let option: &TypeResponse = &response.types[1];
    assert_eq!(option.name, "Option");
    assert_eq!(option.params, vec!["T"]);
    assert_eq!(option.constructors, vec!["Some(T)", "None"]);
    assert_eq!(response.types[0].constructors, vec!["true", "false"]);
}

#[test]
fn arm_covered_by_earlier_arms_is_reported_with_its_cover() {
    let response = analyze_source(
        "type Bool =\n  | true\n  | false\n\nmatch Bool:\n  true\n  false\n  true | false\n",
    )
    .unwrap();

    assert!(response.is_exhaustive);
    assert!(!response.arms[2].reachable);
    assert_eq!(response.arms[2].source, "true | false");
    assert_eq!(response.arms[2].space, "true | false");
    assert_eq!(response.warnings.len(), 1);
    match &response.warnings[0] {
        WarningResponse::Unreachable { arm_index, covering_arm_indices } => {
            assert_eq!(*arm_index, 2);
            assert_eq!(*covering_arm_indices, vec![0, 1]);
        }
        WarningResponse::OnlyNull { .. } => panic!("expected an unreachable warning"),
    }
}

#[test]
fn parse_keeps_declaration_order_and_spans() {
    let program = parse(OPTION_BOOL).unwrap();

    assert_eq!(program.types.len(), 2);
    assert_eq!(program.types[0].name, "Bool");
    assert_eq!(program.types[1].name, "Option");
    assert_eq!(program.types[1].span, Span { start: 32, end: 69 });
    assert_eq!(program.match_input.arms[0].span(), Span { start: 93, end: 103 });
}

#[test]
fn trailing_wildcard_makes_match_exhaustive() {
    let response = analyze_source(
        "type Bool =\n  | true\n  | false\n\ntype Option<T> =\n  | Some(T)\n  | None\n\nmatch Option<Bool>:\n  Some(true)\n  _\n",
    )
    .unwrap();

    assert!(response.is_exhaustive);
    assert!(response.uncovered.is_empty());
    assert_eq!(response.arms[1].space, "Option<Bool>");
    assert!(response.arms[1].reachable);
}
