use patmat::dsl::{analyze_source, parse, SuccessResponse, WarningResponse};

const BOOL: &str = "type Bool =\n  | true\n  | false\n\nmatch Bool:\n  true\n  false\n";

fn json(source: &str) -> SuccessResponse {
    analyze_source(source).unwrap()
}

fn error(source: &str) -> String {
    match analyze_source(source) {
        Ok(_) => panic!("expected error"),
        Err(error) => error.message,
    }
}

#[test]
fn parses_adt_declarations() {
    let program = parse(BOOL).unwrap();
    assert_eq!(program.types[0].name, "Bool");
    assert_eq!(program.types[0].constructors.len(), 2);
}

#[test]
fn parses_generic_adt_declarations() {
    let source = "type Option<T> =\n  | Some(T)\n  | None\n\nmatch Option<Option<T>>:\n";
    let program = parse(source).unwrap();
    assert_eq!(program.types[0].params, vec!["T"]);
    assert_eq!(program.types[0].constructors[0].fields.len(), 1);
}

#[test]
fn parses_match_block() {
    let program = parse(BOOL).unwrap();
    assert_eq!(program.match_input.arms.len(), 2);
}

#[test]
fn parses_nested_generic_type_expressions() {
    let source = "type Bool =\n  | true\n  | false\n\ntype Option<T> =\n  | Some(T)\n  | None\n\ntype Result<T, E> =\n  | Ok(T)\n  | Err(E)\n\nmatch Result<Bool, Option<Bool>>:\n";
    let program = parse(source).unwrap();
    assert_eq!(program.match_input.scrutinee.render(), "Result<Bool, Option<Bool>>");
}

#[test]
fn analyzes_exhaustive_bool() {
    let result = json(BOOL);
    assert_eq!(result.ok, true);
    assert_eq!(result.is_exhaustive, true);
    assert_eq!(result.uncovered.len(), 0);
}

#[test]
fn analyzes_non_exhaustive_bool() {
    let result = json("type Bool =\n  | true\n  | false\n\nmatch Bool:\n  true\n");
    assert_eq!(result.is_exhaustive, false);
    assert_eq!(result.uncovered, vec!["false"]);
}

#[test]
fn analyzes_exhaustive_option_bool() {
    let source = "type Bool =\n  | true\n  | false\n\ntype Option<T> =\n  | Some(T)\n  | None\n\nmatch Option<Bool>:\n  Some(true)\n  Some(false)\n  None\n";
    assert_eq!(json(source).is_exhaustive, true);
}

#[test]
fn analyzes_nested_or_pattern() {
    let source = "type Bool =\n  | true\n  | false\n\ntype Option<T> =\n  | Some(T)\n  | None\n\nmatch Option<Bool>:\n  Some(true | false)\n  None\n";
    let result = json(source);
    assert_eq!(result.is_exhaustive, true);
    assert_eq!(result.arms[0].space, "Some(true | false)");
}

#[test]
fn analyzes_top_level_or_pattern() {
    let source = "type Bool =\n  | true\n  | false\n\nmatch Bool:\n  true | false\n";
    assert_eq!(json(source).is_exhaustive, true);
}

#[test]
fn analyzes_nested_result_option() {
    let source = "type Bool =\n  | true\n  | false\n\ntype Option<T> =\n  | Some(T)\n  | None\n\ntype Result<T, E> =\n  | Ok(T)\n  | Err(E)\n\nmatch Result<Bool, Option<Bool>>:\n  Ok(true)\n  Ok(false)\n  Err(Some(true))\n  Err(Some(false))\n  Err(None)\n";
    assert_eq!(json(source).is_exhaustive, true);
}

#[test]
fn reports_unreachable_wildcard_duplicate_case() {
    let result = json("type Bool =\n  | true\n  | false\n\nmatch Bool:\n  _\n  true\n");
    assert_eq!(result.is_exhaustive, true);
    assert_eq!(result.arms[1].reachable, false);
    match &result.warnings[0] {
        WarningResponse::Unreachable { arm_index, covering_arm_indices } => {
            assert_eq!(*arm_index, 1);
            assert_eq!(*covering_arm_indices, vec![0]);
        }
        other => panic!("expected an unreachable warning, got {:?}", other),
    }
}

#[test]
fn reports_unknown_type_error() {
    assert!(error("match Nope:\n  _\n").contains("Unknown type `Nope`"));
}

#[test]
fn reports_unknown_constructor_error() {
    assert!(error("type Bool =\n  | true\n  | false\n\nmatch Bool:\n  Foo\n").contains("Unknown constructor `Foo`"));
}

#[test]
fn reports_wrong_constructor_arity() {
    assert!(error(
        "type Bool =\n  | true\n  | false\n\ntype Option<T> =\n  | Some(T)\n  | None\n\nmatch Option<Bool>:\n  Some(true, false)\n"
    )
    .contains("expects 1 argument"));
}

#[test]
fn reports_constructor_used_against_wrong_scrutinee_type() {
    assert!(error(
        "type Bool =\n  | true\n  | false\n\ntype Option<T> =\n  | Some(T)\n  | None\n\nmatch Bool:\n  Some(true)\n"
    )
    .contains("cannot match `Bool`"));
}
