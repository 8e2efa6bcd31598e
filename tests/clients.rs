use loki_federation::direction::Direction;
use loki_federation::grpc_client::{from_unix_nano_timestamp, timestamp_text, GrpcEntry, GrpcLokiClient, GrpcStream, Timestamp};
use loki_federation::http_client::HttpLokiClient;
use loki_federation::labels::Labels;
use loki_federation::response::{LokiError, ResultType};

fn params(v: &[(&str, &str)]) -> Vec<(String, String)> {
    v.iter().map(|(k, x)| (k.to_string(), x.to_string())).collect()
}

#[test]
fn http_query_request() {
    let c = HttpLokiClient::new("http://a:3100".to_string());
    let r = c.query_request("{job=\"foo\"}".to_string(), Some(10), Some(-5), Some(Direction::Forward));
    assert_eq!(r.url, "http://a:3100/loki/api/v1/query");
    assert_eq!(r.params, params(&[("query", "{job=\"foo\"}"), ("limit", "10"), ("time", "-5"), ("direction", "forward")]));
    let r = c.query_request("q".to_string(), None, None, None);
    assert_eq!(r.params, params(&[("query", "q")]));
}

#[test]
fn http_query_range_request() {
    let c = HttpLokiClient::new("http://a".to_string());
    let r = c.query_range_request("q".to_string(), 1, 2, None, Some(Direction::Backward), Some("5s".to_string()), None);
    assert_eq!(r.url, "http://a/loki/api/v1/query_range");
    assert_eq!(r.params, params(&[("query", "q"), ("start", "1"), ("end", "2"), ("direction", "backward"), ("step", "5s")]));
}

#[test]
fn http_label_requests() {
    let c = HttpLokiClient::new("http://a".to_string());
    let r = c.labels_request(None, Some(9));
    assert_eq!(r.url, "http://a/loki/api/v1/labels");
    assert_eq!(r.params, params(&[("end", "9")]));
    let r = c.label_values_request("job".to_string(), Some(1), None);
    assert_eq!(r.url, "http://a/loki/api/v1/label/job/values");
    assert_eq!(r.params, params(&[("start", "1")]));
}

#[test]
fn http_series_request() {
    let c = HttpLokiClient::new("http://a".to_string());
    let r = c.series_request(Some(vec!["{a=\"1\"}".to_string(), "{b=\"2\"}".to_string()]), Some(3), Some(4));
    assert_eq!(r.url, "http://a/loki/api/v1/series");
    assert_eq!(r.params, params(&[("match[]", "{a=\"1\"}"), ("match[]", "{b=\"2\"}"), ("start", "3"), ("end", "4")]));
}

#[test]
fn nanosecond_times_split_toward_zero() {
    assert_eq!(from_unix_nano_timestamp(1_500_000_001), Timestamp { seconds: 1, nanos: 500_000_001 });
    assert_eq!(from_unix_nano_timestamp(-1_500_000_001), Timestamp { seconds: -1, nanos: -500_000_001 });
    assert_eq!(from_unix_nano_timestamp(999), Timestamp { seconds: 0, nanos: 999 });
}

#[test]
fn entry_timestamps_pad_nanoseconds() {
    assert_eq!(timestamp_text(&Timestamp { seconds: 1700000000, nanos: 5 }), "1700000000000000005");
    assert_eq!(timestamp_text(&Timestamp { seconds: 2, nanos: 123456789 }), "2123456789");
    assert_eq!(timestamp_text(&Timestamp { seconds: 0, nanos: 0 }), "0000000000");
}

#[test]
fn grpc_query_request() {
    let c = GrpcLokiClient::new("http://g:9095".to_string());
    let r = c.query_request("{a=\"b\"}".to_string(), None, Some(40_000_000_000), None).unwrap();
    assert_eq!(r.selector, "{a=\"b\"}");
    assert_eq!(r.limit, 100);
    assert_eq!(r.start, Some(Timestamp { seconds: 10, nanos: 0 }));
    assert_eq!(r.end, Some(Timestamp { seconds: 40, nanos: 0 }));
    assert_eq!(r.direction, Direction::Backward);
    let r = c.query_request("q".to_string(), Some(-1), None, Some(Direction::Forward)).unwrap();
    assert_eq!(r.limit, u32::MAX);
    assert_eq!(r.start, None);
    assert_eq!(r.direction, Direction::Forward);
    let r = c.query_request("q".to_string(), None, Some(i64::MIN), None);
    assert!(matches!(r, Err(LokiError::Other(m)) if m == "time out of range"));
}

#[test]
fn grpc_streams_become_log_streams() {
    let streams = vec![GrpcStream {
        labels: "{job=\"x\"}".to_string(),
        entries: vec![
            GrpcEntry { timestamp: Some(Timestamp { seconds: 3, nanos: 7 }), line: "b".to_string() },
            GrpcEntry { timestamp: Some(Timestamp { seconds: 1, nanos: 0 }), line: "a".to_string() },
        ],
    }];
    let r = GrpcLokiClient::response_from_streams(&streams).unwrap();
    assert_eq!(r.status, "success");
    assert_eq!(r.data.result_type, ResultType::Streams);
    assert_eq!(r.data.result.len(), 1);
    assert_eq!(r.data.result[0].stream, Some(Labels::from_pairs(params(&[("job", "x")]))));
    assert_eq!(r.data.result[0].values, Some(params(&[("3000000007", "b"), ("1000000000", "a")])));
}

#[test]
fn grpc_stream_without_timestamp_fails() {
    let streams = vec![GrpcStream { labels: "{}".to_string(), entries: vec![GrpcEntry { timestamp: None, line: "a".to_string() }] }];
    let r = GrpcLokiClient::response_from_streams(&streams);
    assert!(matches!(r, Err(LokiError::Other(m)) if m == "Timestamp is missing in the response"));
}

#[test]
fn grpc_stream_with_bad_labels_fails() {
    let streams = vec![GrpcStream { labels: "{=x}".to_string(), entries: vec![] }];
    let r = GrpcLokiClient::response_from_streams(&streams);
    assert!(matches!(r, Err(LokiError::Other(m)) if m == "Error while parsing labels:  --> 1:2\n  |\n1 | {=x}\n  |  ^---\n  |\n  = expected labelKey"));
}
