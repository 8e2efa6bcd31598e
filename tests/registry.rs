use loki_federation::config::Datasources;
use loki_federation::datasources::{BackendClient, DataSource, DataSourcesProvider};
use loki_federation::direction::{direction_or_default, Direction};
use loki_federation::response::LokiError;

fn provider(name: &str, urls: Option<Vec<&str>>) -> DataSourcesProvider {
    DataSourcesProvider::new(Datasources {
        name: name.to_string(),
        urls: urls.map(|u| u.iter().map(|s| s.to_string()).collect()),
    })
}

fn message(r: Result<Vec<loki_federation::datasources::DataSourceInstance>, LokiError>) -> String {
    match r {
        Err(LokiError::Other(m)) => m,
        _ => panic!("expected a configuration error"),
    }
}

#[test]
fn static_http_lists_http_backends() {
    let v = provider("static-http", Some(vec!["http://a", "http://b"])).get_data_sources().unwrap();
    assert_eq!(v.len(), 2);
    match &v[1].data_source {
        DataSource::HttpDataSource(h) => assert_eq!(h.url, "http://b"),
        _ => panic!("expected an HTTP backend"),
    }
    match v[0].get_client().unwrap() {
        BackendClient::Http(c) => assert_eq!(c.url, "http://a"),
        _ => panic!("expected an HTTP client"),
    }
}

#[test]
fn static_grpc_lists_grpc_backends() {
    let v = provider("static-grpc-alpha", Some(vec!["http://g"])).get_data_sources().unwrap();
    assert_eq!(v.len(), 1);
    match v[0].get_client().unwrap() {
        BackendClient::Grpc(c) => assert_eq!(c.url, "http://g"),
        _ => panic!("expected a gRPC client"),
    }
}

#[test]
fn static_kinds_require_urls() {
    assert_eq!(message(provider("static-http", None).get_data_sources()), "static-http requires urls");
    assert_eq!(message(provider("static-grpc-alpha", None).get_data_sources()), "static-grpc requires urls");
}

#[test]
fn other_kinds_are_refused() {
    assert_eq!(message(provider("consul", Some(vec!["x"])).get_data_sources()), "Unsupported datasource");
}

#[test]
fn direction_defaults_to_backward() {
    assert_eq!(direction_or_default(None), Direction::Backward);
    assert_eq!(direction_or_default(Some(Direction::Forward)), Direction::Forward);
    assert_eq!(Direction::Forward.to_string(), "forward");
    assert_eq!(Direction::Backward.to_string(), "backward");
}
