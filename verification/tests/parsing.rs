use kvparse::error::ParseError;
use kvparse::grammar::Expected;
use kvparse::mapping::KvMap;
use kvparse::numbers::ConversionReason;
use kvparse::parse_key_value_pairs;

#[test]
fn test_successful_parsing() {
    let data = r#"
# Asset holdings data
SomeValue: [1, 2, 3, 4]
AnotherKey: [100, -50, 25]
EmptyList: []
SpacedOut : [ 5,    6, 7 ]
        "#;

    let result = parse_key_value_pairs(data).unwrap();

    let mut expected = KvMap::new();
    expected.insert("SomeValue".to_string(), vec![1, 2, 3, 4]);
    expected.insert("AnotherKey".to_string(), vec![100, -50, 25]);
    expected.insert("EmptyList".to_string(), vec![]);
    expected.insert("SpacedOut".to_string(), vec![5, 6, 7]);

    assert_eq!(result, expected);
}

#[test]
fn test_parsing_fails_on_malformed_number() {
    let data = "BadData: [1, two, 3]";
    let result = parse_key_value_pairs(data);
    assert!(result.is_err());
}

#[test]
fn test_parsing_fails_on_bad_syntax() {
    let data = "MissingColon [1, 2, 3]";
    let result = parse_key_value_pairs(data);
    assert!(result.is_err());
    let error_message = result.unwrap_err().message();
    assert!(error_message.contains("expected"));
}

#[test]
fn whitespace_variants_parse_alike() {
    let a = parse_key_value_pairs("K:[1,2,3]").unwrap();
    let b = parse_key_value_pairs("K : [1, 2, 3]").unwrap();
    let c = parse_key_value_pairs("K :  [ 1 ,2,  3 ]").unwrap();
    assert_eq!(a.get("K"), Some(&vec![1, 2, 3]));
    assert_eq!(a, b);
    assert_eq!(b, c);
}

#[test]
fn empty_list_yields_empty_sequence() {
    let result = parse_key_value_pairs("K: []").unwrap();
    assert_eq!(result.len(), 1);
    assert_eq!(result.get("K"), Some(&vec![]));
}

#[test]
fn duplicate_key_last_write_wins() {
    let result = parse_key_value_pairs("K: [1]\nK: [2]").unwrap();
    assert_eq!(result.len(), 1);
    assert_eq!(result.get("K"), Some(&vec![2]));
}

#[test]
fn comments_and_blank_lines_give_empty_mapping() {
    let data = "# first comment\n\n   \n\t# indented comment\n";
    let result = parse_key_value_pairs(data).unwrap();
    assert_eq!(result.len(), 0);
}

#[test]
fn empty_document_gives_empty_mapping() {
    let result = parse_key_value_pairs("").unwrap();
    assert_eq!(result.len(), 0);
}

#[test]
fn syntax_error_names_missing_colon() {
    let err = parse_key_value_pairs("MissingColon [1, 2, 3]").unwrap_err();
    match err {
        ParseError::Syntax { line, expected } => {
            assert_eq!(line, 1);
            assert_eq!(expected, Expected::Colon);
        }
        _ => panic!("a syntax error was expected"),
    }
}

#[test]
fn syntax_error_reports_one_based_line() {
    let err = parse_key_value_pairs("Good: [1]\nBad [2]").unwrap_err();
    match err {
        ParseError::Syntax { line, expected } => {
            assert_eq!(line, 2);
            assert_eq!(expected, Expected::Colon);
        }
        _ => panic!("a syntax error was expected"),
    }
}

#[test]
fn conversion_error_names_key_and_reason() {
    let err = parse_key_value_pairs("BadData: [1, two, 3]").unwrap_err();
    match err {
        ParseError::Conversion { key, reason } => {
            assert_eq!(key, "BadData");
            assert_eq!(reason, ConversionReason::NotANumber);
            let msg = ParseError::Conversion { key, reason }.message();
            assert_eq!(
                msg,
                "failed to parse number for key 'BadData': invalid digit found in string"
            );
        }
        _ => panic!("a conversion error was expected"),
    }
}

#[test]
fn out_of_range_value_is_rejected() {
    let err = parse_key_value_pairs("Big: [2147483648]").unwrap_err();
    match err {
        ParseError::Conversion { key, reason } => {
            assert_eq!(key, "Big");
            assert_eq!(reason, ConversionReason::OutOfRange);
        }
        _ => panic!("a conversion error was expected"),
    }
}

#[test]
fn boundary_values_are_accepted() {
    let result = parse_key_value_pairs("Edges: [-2147483648, 2147483647, 0, -0]").unwrap();
    assert_eq!(result.get("Edges"), Some(&vec![i32::MIN, i32::MAX, 0, 0]));
}

#[test]
fn leading_zeros_are_accepted() {
    let result = parse_key_value_pairs("Zeros: [007, 000000000000042]").unwrap();
    assert_eq!(result.get("Zeros"), Some(&vec![7, 42]));
}

#[test]
fn trailing_comma_is_a_syntax_error() {
    let err = parse_key_value_pairs("K: [1,]").unwrap_err();
    match err {
        ParseError::Syntax { line, expected } => {
            assert_eq!(line, 1);
            assert_eq!(expected, Expected::Value);
        }
        _ => panic!("a syntax error was expected"),
    }
}

#[test]
fn missing_bracket_is_a_syntax_error() {
    let err = parse_key_value_pairs("K: 1, 2").unwrap_err();
    assert!(matches!(
        err,
        ParseError::Syntax { line: 1, expected: Expected::OpenBracket }
    ));
}

#[test]
fn unclosed_list_is_a_syntax_error() {
    let err = parse_key_value_pairs("K: [1, 2").unwrap_err();
    assert!(matches!(
        err,
        ParseError::Syntax { line: 1, expected: Expected::CommaOrClose }
    ));
}

#[test]
fn trailing_text_is_a_syntax_error() {
    let err = parse_key_value_pairs("K: [1] trailing").unwrap_err();
    assert!(matches!(
        err,
        ParseError::Syntax { line: 1, expected: Expected::EndOfLine }
    ));
}

#[test]
fn line_without_identifier_is_a_syntax_error() {
    let err = parse_key_value_pairs(": [1]").unwrap_err();
    assert!(matches!(
        err,
        ParseError::Syntax { line: 1, expected: Expected::IdentifierOrComment }
    ));
}

#[test]
fn syntax_error_message_mentions_expectation() {
    let msg = parse_key_value_pairs("Oops [1]").unwrap_err().message();
    assert!(msg.contains("expected"));
    assert_eq!(msg, "expected ':' on line 1");
}

#[test]
fn crlf_line_endings_are_tolerated() {
    let result = parse_key_value_pairs("A: [1]\r\nB: [2]\r\n").unwrap();
    assert_eq!(result.get("A"), Some(&vec![1]));
    assert_eq!(result.get("B"), Some(&vec![2]));
}

#[test]
fn lookup_of_absent_key_is_none() {
    let result = parse_key_value_pairs("Here: [1]").unwrap();
    assert_eq!(result.get("Missing"), None);
}

#[test]
fn syntax_error_wins_over_conversion_error() {
    // The structural phase runs first: the malformed later line is reported
    // even though an earlier value fails conversion.
    let err = parse_key_value_pairs("A: [99999999999]\nB [1]").unwrap_err();
    assert!(matches!(
        err,
        ParseError::Syntax { line: 2, expected: Expected::Colon }
    ));
}
