use seryaml::data::YAMLData;
use seryaml::error::YAMLParseError;
use seryaml::parser::parse_yaml;
use seryaml::serializer::serialize;

#[test]
fn test_empty_input_error_kind() {
    assert_eq!(parse_yaml("").unwrap_err(), YAMLParseError::EmptyInput);
}

#[test]
fn test_whitespace_only_error_kind() {
    assert_eq!(parse_yaml("   ").unwrap_err(), YAMLParseError::EmptyInput);
    assert_eq!(parse_yaml(" \t\n \n").unwrap_err(), YAMLParseError::EmptyInput);
}

#[test]
fn test_unbalanced_bracket_error_kind() {
    assert_eq!(
        parse_yaml("k: [unbalanced").unwrap_err(),
        YAMLParseError::InvalidFormat
    );
}

#[test]
fn test_balanced_bracket_is_scalar() {
    let result = parse_yaml("k: [a, b]").unwrap();
    let expected = YAMLData::Mapping(vec![(
        "k".to_string(),
        YAMLData::Scalar("[a, b]".to_string()),
    )]);
    assert_eq!(result, expected);
}

#[test]
fn test_bare_dash_error_kind() {
    assert_eq!(parse_yaml("-").unwrap_err(), YAMLParseError::InvalidFormat);
}

#[test]
fn test_empty_key_error_kind() {
    assert_eq!(
        parse_yaml(": value").unwrap_err(),
        YAMLParseError::InvalidFormat
    );
}

#[test]
fn test_dash_with_nested_block() {
    let result = parse_yaml("-\n  - a\n  - b").unwrap();
    let expected = YAMLData::Sequence(vec![YAMLData::Sequence(vec![
        YAMLData::Scalar("a".to_string()),
        YAMLData::Scalar("b".to_string()),
    ])]);
    assert_eq!(result, expected);
}

#[test]
fn test_scalar_round_trip_after_trim() {
    let text = "  plain text  ";
    let parsed = parse_yaml(text).unwrap();
    assert_eq!(serialize(&parsed).unwrap(), "plain text");
}

#[test]
fn test_serialize_scalar() {
    let v = YAMLData::Scalar("hello".to_string());
    assert_eq!(serialize(&v).unwrap(), "hello");
}

#[test]
fn test_serialize_sequence_fails() {
    let v = YAMLData::Sequence(vec![YAMLData::Scalar("a".to_string())]);
    assert_eq!(serialize(&v).unwrap_err(), YAMLParseError::SerializationError);
}

#[test]
fn test_serialize_mapping_fails() {
    let v = YAMLData::Mapping(vec![("k".to_string(), YAMLData::Scalar("v".to_string()))]);
    assert_eq!(serialize(&v).unwrap_err(), YAMLParseError::SerializationError);
}

#[test]
fn test_mapping_equality_ignores_entry_order() {
    let parsed = parse_yaml("a: 1\nb: 2").unwrap();
    let reversed = YAMLData::Mapping(vec![
        ("b".to_string(), YAMLData::Scalar("2".to_string())),
        ("a".to_string(), YAMLData::Scalar("1".to_string())),
    ]);
    assert_eq!(parsed, reversed);
}

#[test]
fn test_mapping_inequality_on_values() {
    let parsed = parse_yaml("a: 1\nb: 2").unwrap();
    let other = YAMLData::Mapping(vec![
        ("a".to_string(), YAMLData::Scalar("1".to_string())),
        ("b".to_string(), YAMLData::Scalar("3".to_string())),
    ]);
    assert!(parsed != other);
}

#[test]
fn test_duplicate_key_overwrites() {
    let result = parse_yaml("k: a\nk: b").unwrap();
    let expected = YAMLData::Mapping(vec![("k".to_string(), YAMLData::Scalar("b".to_string()))]);
    assert_eq!(result, expected);
}

#[test]
fn test_open_key_with_no_content_is_empty_scalar() {
    let result = parse_yaml("k1:").unwrap();
    let expected = YAMLData::Mapping(vec![("k1".to_string(), YAMLData::Scalar("".to_string()))]);
    assert_eq!(result, expected);
}

#[test]
fn test_indentation_boundary_closes_key() {
    let yaml = "a:\n  b: c\nd: e";
    let result = parse_yaml(yaml).unwrap();
    let expected = YAMLData::Mapping(vec![
        (
            "a".to_string(),
            YAMLData::Mapping(vec![("b".to_string(), YAMLData::Scalar("c".to_string()))]),
        ),
        ("d".to_string(), YAMLData::Scalar("e".to_string())),
    ]);
    assert_eq!(result, expected);
}

#[test]
fn test_open_key_continuation_run_folds() {
    let yaml = "summary:\n  first half\n  second half";
    let result = parse_yaml(yaml).unwrap();
    let expected = YAMLData::Mapping(vec![(
        "summary".to_string(),
        YAMLData::Scalar("first half second half".to_string()),
    )]);
    assert_eq!(result, expected);
}

#[test]
fn test_blank_lines_are_ignored() {
    let yaml = "a: 1\n\n\nb: 2";
    let result = parse_yaml(yaml).unwrap();
    let expected = YAMLData::Mapping(vec![
        ("a".to_string(), YAMLData::Scalar("1".to_string())),
        ("b".to_string(), YAMLData::Scalar("2".to_string())),
    ]);
    assert_eq!(result, expected);
}

#[test]
fn test_mixed_fragments_become_sequence() {
    let yaml = "lonely\n- a";
    let result = parse_yaml(yaml).unwrap();
    let expected = YAMLData::Sequence(vec![
        YAMLData::Scalar("lonely".to_string()),
        YAMLData::Sequence(vec![YAMLData::Scalar("a".to_string())]),
    ]);
    assert_eq!(result, expected);
}

#[test]
fn test_sequence_of_small_mappings() {
    let yaml = "- name: x\n  age: 1\n- name: y";
    let result = parse_yaml(yaml).unwrap();
    let expected = YAMLData::Sequence(vec![
        YAMLData::Mapping(vec![
            ("name".to_string(), YAMLData::Scalar("x".to_string())),
            ("age".to_string(), YAMLData::Scalar("1".to_string())),
        ]),
        YAMLData::Mapping(vec![("name".to_string(), YAMLData::Scalar("y".to_string()))]),
    ]);
    assert_eq!(result, expected);
}

#[test]
fn test_non_ascii_scalar() {
    let result = parse_yaml("title: YAML Ain't Markup Language\u{2122}").unwrap();
    let expected = YAMLData::Mapping(vec![(
        "title".to_string(),
        YAMLData::Scalar("YAML Ain't Markup Language\u{2122}".to_string()),
    )]);
    assert_eq!(result, expected);
}

#[test]
fn test_carriage_returns_are_trimmed() {
    let result = parse_yaml("a: 1\r\nb: 2\r\n").unwrap();
    let expected = YAMLData::Mapping(vec![
        ("a".to_string(), YAMLData::Scalar("1".to_string())),
        ("b".to_string(), YAMLData::Scalar("2".to_string())),
    ]);
    assert_eq!(result, expected);
}

#[test]
fn test_literal_block_skips_blank_lines() {
    let result = parse_yaml("k: |\n  a\n\n  b").unwrap();
    let expected = YAMLData::Mapping(vec![(
        "k".to_string(),
        YAMLData::Scalar("a\nb".to_string()),
    )]);
    assert_eq!(result, expected);
}
