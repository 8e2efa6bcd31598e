use loki_federation::labels::Labels;
use loki_federation::labels_parser::{parse_labels, parse_labels_into_map, LabelRule};

fn pair(k: &str, v: &str) -> (String, String) {
    (k.to_string(), v.to_string())
}

#[test]
fn test_parse_labels_empty_string() {
    let labels = parse_labels("".to_string()).unwrap();
    assert_eq!(labels, vec![]);
}

#[test]
fn test_parse_labels_empty_object() {
    let labels = parse_labels("{}".to_string()).unwrap();
    assert_eq!(labels, vec![]);
}

#[test]
fn test_parse_labels_one_label() {
    let labels = parse_labels("{foo=\"bar\"}".to_string()).unwrap();
    assert_eq!(labels, vec![pair("foo", "bar")]);
}

#[test]
fn test_parse_labels_two_labels() {
    let labels = parse_labels("{foo=\"bar\",baz=\"qux\"}".to_string()).unwrap();
    assert_eq!(labels, vec![pair("foo", "bar"), pair("baz", "qux")]);
}

#[test]
fn test_parse_labels_two_labels_with_spaces() {
    let labels = parse_labels("{foo = \"bar\", baz = \"qux\"}".to_string()).unwrap();
    assert_eq!(labels, vec![pair("foo", "bar"), pair("baz", "qux")]);
}

#[test]
fn test_parse_labels_throws_when_missing_quotes() {
    let labels = parse_labels("{foo=bar,baz=qux}".to_string()).unwrap_err();
    assert_eq!(
        labels.to_string(),
        " --> 1:2\n  |\n1 | {foo=bar,baz=qux}\n  |  ^---\n  |\n  = expected label".to_string()
    );
}

#[test]
fn test_parse_labels_throws_when_missing_key() {
    let labels = parse_labels("{=bar}".to_string()).unwrap_err();
    assert_eq!(labels.to_string(), " --> 1:2\n  |\n1 | {=bar}\n  |  ^---\n  |\n  = expected labelKey".to_string());
}

#[test]
fn test_parse_labels_throws_when_missing_value() {
    let labels = parse_labels("{foo=}".to_string()).unwrap_err();
    assert_eq!(labels.to_string(), " --> 1:2\n  |\n1 | {foo=}\n  |  ^---\n  |\n  = expected label".to_string());
}

#[test]
fn test_parse_labels_throws_when_missing_key_value_pair() {
    let labels = parse_labels("{,baz=qux}".to_string()).unwrap_err();
    assert_eq!(
        labels.to_string(),
        " --> 1:2\n  |\n1 | {,baz=qux}\n  |  ^---\n  |\n  = expected labelKey".to_string()
    );
}

#[test]
fn test_parse_labels_throws_when_missing_key_value_pair_with_spaces() {
    let labels = parse_labels("{ ,baz=qux}".to_string()).unwrap_err();
    assert_eq!(
        labels.to_string(),
        " --> 1:3\n  |\n1 | { ,baz=qux}\n  |   ^---\n  |\n  = expected labelKey".to_string()
    );
}

#[test]
fn test_parse_labels_into_map_one_label() {
    let labels = parse_labels_into_map("{foo=\"bar\"}".to_string()).unwrap();
    assert_eq!(labels, Labels::from_pairs(vec![pair("foo", "bar")]));
}

#[test]
fn parse_labels_rejects_text_without_brace() {
    let err = parse_labels("foo=\"bar\"".to_string()).unwrap_err();
    assert_eq!(err.position, 0);
    assert_eq!(err.expected, LabelRule::Labels);
    assert_eq!(err.to_string(), " --> 1:1\n  |\n1 | foo=\"bar\"\n  | ^---\n  |\n  = expected labels");
}

#[test]
fn parse_labels_rejects_a_missing_closing_brace() {
    let err = parse_labels("{a=\"b\"".to_string()).unwrap_err();
    assert_eq!(err.position, 0);
    assert_eq!(err.expected, LabelRule::Labels);
}

#[test]
fn parse_labels_rejects_trailing_comma() {
    let err = parse_labels("{a=\"b\",}".to_string()).unwrap_err();
    assert_eq!(err.position, 7);
    assert_eq!(err.expected, LabelRule::LabelKey);
}

#[test]
fn parse_labels_keeps_value_text_as_written() {
    let labels = parse_labels("{job=\"a b,c\", _x1 = \"\"}".to_string()).unwrap();
    assert_eq!(labels, vec![pair("job", "a b,c"), pair("_x1", "")]);
}

#[test]
fn failure_report_counts_lines() {
    let err = parse_labels("{a=\"x\ny\", =c}".to_string()).unwrap_err();
    assert_eq!(err.position, 10);
    assert_eq!(err.to_string(), " --> 2:5\n  |\n2 | y\", =c}\n  |     ^---\n  |\n  = expected labelKey");
}

#[test]
fn parse_labels_into_map_keeps_the_last_value_of_a_name() {
    let labels = parse_labels_into_map("{a=\"1\", b=\"2\", a=\"3\"}".to_string()).unwrap();
    assert_eq!(labels, Labels::from_pairs(vec![pair("b", "2"), pair("a", "3")]));
    assert_eq!(labels.to_pairs().len(), 2);
}
