use loki_federation::direction::Direction;
use loki_federation::federation::FederatedLoki;
use loki_federation::labels::Labels;
use loki_federation::response::{Data, LabelResponse, LokiError, Response, ResultType, SerieResponse, VectorOrStream};

fn labels(pairs: &[(&str, &str)]) -> Labels {
    Labels::from_pairs(pairs.iter().map(|(k, v)| (k.to_string(), v.to_string())).collect())
}

fn wire(values: &[(&str, &str)]) -> Vec<(String, String)> {
    values.iter().map(|(t, l)| (t.to_string(), l.to_string())).collect()
}

fn stream(l: &[(&str, &str)], values: &[(&str, &str)]) -> VectorOrStream {
    VectorOrStream { metric: None, value: None, stream: Some(labels(l)), values: Some(wire(values)) }
}

fn response(items: Vec<VectorOrStream>) -> Response {
    Response { status: "success".to_string(), data: Data { result_type: ResultType::Streams, result: items } }
}

fn sample_response(values: &[(&str, &str)]) -> Response {
    response(vec![stream(&[("label", "value")], values)])
}

fn get_response_result(response: &Response) -> Vec<(String, String)> {
    let mut result = vec![];
    for s in &response.data.result {
        for (t, l) in s.values.as_ref().unwrap() {
            result.push((t.clone(), l.clone()));
        }
    }
    result
}

fn same_items(a: &Response, b: &Response) -> bool {
    a.data.result.len() == b.data.result.len()
        && a.data.result.iter().zip(b.data.result.iter()).all(|(x, y)| {
            x.stream == y.stream && x.values == y.values && x.metric == y.metric && x.value == y.value
        })
}

#[test]
fn federated_loki_it_should_aggregate_query() {
    let a = sample_response(&[("4", "d"), ("2", "b"), ("1", "a")]);
    let b = sample_response(&[("4", "d"), ("3", "c"), ("1", "a")]);
    let merged = FederatedLoki::merge_query_responses(None, vec![Ok(a), Ok(b)]).unwrap();
    assert_eq!(get_response_result(&merged), wire(&[("4", "d"), ("3", "c"), ("2", "b"), ("1", "a")]));
}

#[test]
fn federated_loki_test_it_should_aggregate_query() {
    let a = sample_response(&[("4", "d"), ("2", "b"), ("1", "a")]);
    let b = sample_response(&[("4", "d"), ("3", "c"), ("1", "a")]);
    let merged = FederatedLoki::aggregate_responses(Direction::Backward, vec![Ok(a), Ok(b)]).unwrap();
    assert_eq!(merged.status, "success");
    assert_eq!(merged.data.result_type, ResultType::Streams);
    assert_eq!(merged.data.result.len(), 1);
    assert_eq!(get_response_result(&merged), wire(&[("4", "d"), ("3", "c"), ("2", "b"), ("1", "a")]));
}

#[test]
fn forward_query_merges_oldest_first() {
    let a = sample_response(&[("1", "A")]);
    let b = sample_response(&[("1", "A2"), ("2", "B")]);
    let merged = FederatedLoki::merge_query_responses(Some(Direction::Forward), vec![Ok(a), Ok(b)]).unwrap();
    assert_eq!(get_response_result(&merged), wire(&[("1", "A"), ("1", "A2"), ("2", "B")]));
}

#[test]
fn a_single_backend_comes_back_as_sent() {
    let sent = || {
        response(vec![
            stream(&[("job", "a")], &[("01", "x"), ("2", "y")]),
            stream(&[("job", "b")], &[("3", "z")]),
            VectorOrStream { metric: Some(labels(&[("m", "1")])), value: Some((7, "0.5".to_string())), stream: None, values: None },
        ])
    };
    let merged = FederatedLoki::merge_query_responses(None, vec![Ok(sent())]).unwrap();
    assert!(same_items(&merged, &sent()));
    assert_eq!(get_response_result(&response(vec![merged.data.result[0].duplicate()])), wire(&[("01", "x"), ("2", "y")]));
}

#[test]
fn failed_backends_change_nothing() {
    let ok = || sample_response(&[("3", "c"), ("1", "a")]);
    let with_failures = FederatedLoki::merge_query_responses(
        None,
        vec![Err(LokiError::Transport), Ok(ok()), Err(LokiError::Other("down".to_string())), Ok(sample_response(&[("2", "b")]))],
    )
    .unwrap();
    let without = FederatedLoki::merge_query_responses(None, vec![Ok(ok()), Ok(sample_response(&[("2", "b")]))]).unwrap();
    assert!(same_items(&with_failures, &without));
    assert_eq!(get_response_result(&without), wire(&[("3", "c"), ("2", "b"), ("1", "a")]));
}

#[test]
fn all_backends_failing_gives_an_empty_answer() {
    let merged = FederatedLoki::merge_query_responses(None, vec![Err(LokiError::NotImplemented), Err(LokiError::Transport)]).unwrap();
    assert_eq!(merged.status, "success");
    assert!(merged.data.result.is_empty());
}

#[test]
fn streams_with_the_same_labels_become_one() {
    let a = response(vec![stream(&[("a", "1"), ("b", "2")], &[("5", "e")]), stream(&[("a", "1")], &[("4", "d")])]);
    let b = response(vec![stream(&[("b", "2"), ("a", "1")], &[("6", "f"), ("5", "e")])]);
    let c = response(vec![stream(&[("a", "1")], &[("3", "c")])]);
    let merged = FederatedLoki::merge_query_responses(None, vec![Ok(a), Ok(b), Ok(c)]).unwrap();
    assert_eq!(merged.data.result.len(), 2);
    assert!(merged.data.result[0].stream != merged.data.result[1].stream);
    assert_eq!(merged.data.result[0].values, Some(wire(&[("6", "f"), ("5", "e")])));
    assert_eq!(merged.data.result[1].values, Some(wire(&[("4", "d"), ("3", "c")])));
}

#[test]
fn merged_streams_hold_no_entry_twice() {
    let a = sample_response(&[("3", "c"), ("2", "b")]);
    let b = sample_response(&[("3", "c"), ("2", "b"), ("2", "b2")]);
    let merged = FederatedLoki::merge_query_responses(None, vec![Ok(a), Ok(b)]).unwrap();
    let v = get_response_result(&merged);
    for i in 0..v.len() {
        for j in 0..v.len() {
            if i != j {
                assert_ne!(v[i], v[j]);
            }
        }
    }
    assert_eq!(v.len(), 3);
}

#[test]
fn merged_timestamps_are_written_canonically() {
    let a = sample_response(&[("02", "b")]);
    let b = sample_response(&[("+1", "a")]);
    let merged = FederatedLoki::merge_query_responses(Some(Direction::Forward), vec![Ok(a), Ok(b)]).unwrap();
    assert_eq!(get_response_result(&merged), wire(&[("1", "a"), ("2", "b")]));
}

#[test]
fn a_malformed_timestamp_fails_the_merge() {
    let a = sample_response(&[("2", "b")]);
    let b = sample_response(&[("x1", "a")]);
    let r = FederatedLoki::merge_query_responses(None, vec![Ok(a), Ok(b)]);
    assert!(matches!(r, Err(LokiError::Decode)));
}

#[test]
fn a_stream_without_values_fails_the_merge() {
    let a = sample_response(&[("2", "b")]);
    let b = response(vec![VectorOrStream { metric: None, value: None, stream: Some(labels(&[("label", "value")])), values: None }]);
    let r = FederatedLoki::merge_query_responses(None, vec![Ok(a), Ok(b)]);
    assert!(matches!(r, Err(LokiError::NoData)));
}

fn label_response(data: Option<&[&str]>) -> LabelResponse {
    LabelResponse { status: "success".to_string(), data: data.map(|d| d.iter().map(|s| s.to_string()).collect()) }
}

fn sorted(v: &Option<Vec<String>>) -> Vec<String> {
    let mut v = v.clone().unwrap();
    v.sort();
    v
}

#[test]
fn label_answers_are_united() {
    let merged = FederatedLoki::merge_label_responses(vec![
        Ok(label_response(Some(&["job", "app"]))),
        Err(LokiError::Transport),
        Ok(label_response(None)),
        Ok(label_response(Some(&["app", "host", "host"]))),
    ]);
    assert_eq!(merged.status, "success");
    assert_eq!(sorted(&merged.data), vec!["app", "host", "job"]);
}

#[test]
fn label_answers_without_data_give_none() {
    let merged = FederatedLoki::merge_label_responses(vec![Ok(label_response(None)), Err(LokiError::NoData)]);
    assert_eq!(merged.data, None);
    let merged = FederatedLoki::merge_label_responses(vec![]);
    assert_eq!(merged.data, None);
}

#[test]
fn label_answers_do_not_depend_on_backend_order() {
    let one = FederatedLoki::merge_label_responses(vec![Ok(label_response(Some(&["a", "b"]))), Ok(label_response(Some(&["c", "a"])))]);
    let two = FederatedLoki::merge_label_responses(vec![Ok(label_response(Some(&["c", "a"]))), Ok(label_response(Some(&["a", "b"])))]);
    assert_eq!(sorted(&one.data), sorted(&two.data));
}

#[test]
fn a_single_label_answer_comes_back_as_sent() {
    let merged = FederatedLoki::merge_label_responses(vec![Ok(label_response(Some(&["z", "a", "m"])))]);
    assert_eq!(merged.data, Some(vec!["z".to_string(), "a".to_string(), "m".to_string()]));
}

fn serie_response(sets: Vec<Labels>) -> SerieResponse {
    SerieResponse { status: "success".to_string(), data: sets }
}

#[test]
fn series_answers_keep_each_label_set_once_first_seen_first() {
    let merged = FederatedLoki::merge_serie_responses(vec![
        Ok(serie_response(vec![labels(&[("a", "1")]), labels(&[("b", "2"), ("c", "3")])])),
        Err(LokiError::Decode),
        Ok(serie_response(vec![labels(&[("c", "3"), ("b", "2")]), labels(&[("d", "4")]), labels(&[("a", "1")])])),
    ]);
    assert_eq!(merged.status, "success");
    assert_eq!(merged.data, vec![labels(&[("a", "1")]), labels(&[("b", "2"), ("c", "3")]), labels(&[("d", "4")])]);
}

#[test]
fn series_answers_do_not_depend_on_backend_order_but_for_order() {
    let x = || serie_response(vec![labels(&[("a", "1")]), labels(&[("b", "2")])]);
    let y = || serie_response(vec![labels(&[("b", "2")]), labels(&[("c", "3")])]);
    let one = FederatedLoki::merge_serie_responses(vec![Ok(x()), Ok(y())]);
    let two = FederatedLoki::merge_serie_responses(vec![Ok(y()), Ok(x())]);
    assert_eq!(one.data.len(), 3);
    assert_eq!(two.data.len(), 3);
    for l in &one.data {
        assert!(two.data.contains(l));
    }
}

#[test]
fn query_answers_do_not_depend_on_backend_order_but_for_ties() {
    let x = || response(vec![stream(&[("job", "a")], &[("5", "e"), ("2", "b")]), stream(&[("job", "b")], &[("9", "z")])]);
    let y = || response(vec![stream(&[("job", "a")], &[("4", "d"), ("2", "b"), ("1", "a")])]);
    let one = FederatedLoki::merge_query_responses(None, vec![Ok(x()), Ok(y())]).unwrap();
    let two = FederatedLoki::merge_query_responses(None, vec![Ok(y()), Ok(x())]).unwrap();
    assert_eq!(one.data.result.len(), 2);
    assert_eq!(two.data.result.len(), 2);
    for s in &one.data.result {
        let other = two.data.result.iter().find(|t| t.stream == s.stream).unwrap();
        assert_eq!(s.values, other.values);
    }
}

#[test]
fn merged_answers_keep_the_requested_order() {
    let a = sample_response(&[("1", "a"), ("4", "d"), ("9", "i")]);
    let b = sample_response(&[("7", "g"), ("2", "b"), ("4", "d2")]);
    let merged = FederatedLoki::merge_query_responses(Some(Direction::Forward), vec![Ok(a), Ok(b)]).unwrap();
    let ts: Vec<i64> = get_response_result(&merged).iter().map(|(t, _)| t.parse().unwrap()).collect();
    assert_eq!(ts.len(), 6);
    for w in ts.windows(2) {
        assert!(w[0] <= w[1]);
    }
}
