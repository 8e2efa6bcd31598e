//! The backend registry: from the configuration to the backends to call.
use vstd::prelude::*;
use vstd::string::*;

use crate::config::Datasources;
use crate::grpc_client::GrpcLokiClient;
use crate::http_client::HttpLokiClient;
use crate::response::{strings_view, LokiError};

verus! {

/// A backend that speaks the HTTP query API.
#[derive(Debug)]
pub struct HttpDataSource {
    pub url: String,
}

/// A backend that speaks the gRPC querier protocol.
#[derive(Debug)]
pub struct GrpcDataSource {
    pub url: String,
}

/// A configured backend: its protocol and its URL.
#[derive(Debug)]
pub enum DataSource {
    HttpDataSource(HttpDataSource),
    GrpcDataSource(GrpcDataSource),
}

/// A backend as the contracts see it.
pub enum SourceView {
    Http(Seq<char>),
    Grpc(Seq<char>),
}

impl View for DataSource {
    type V = SourceView;

    open spec fn view(&self) -> SourceView {
        match self {
            DataSource::HttpDataSource(h) => SourceView::Http(h.url@),
            DataSource::GrpcDataSource(g) => SourceView::Grpc(g.url@),
        }
    }
}

/// A client for one backend, of the backend's protocol.
#[derive(Debug)]
pub enum BackendClient {
    Http(HttpLokiClient),
    Grpc(GrpcLokiClient),
}

impl View for BackendClient {
    type V = SourceView;

    open spec fn view(&self) -> SourceView {
        match self {
            BackendClient::Http(h) => SourceView::Http(h.url@),
            BackendClient::Grpc(g) => SourceView::Grpc(g.url@),
        }
    }
}

/// One backend that a request goes to.
#[derive(Debug)]
pub struct DataSourceInstance {
    pub data_source: DataSource,
}

impl DataSourceInstance {
    pub fn new(data_source: DataSource) -> (r: DataSourceInstance)
        ensures
            r.data_source@ == data_source@,
    {
        DataSourceInstance { data_source }
    }

    /// A client of the backend's protocol for the backend's URL.
    pub fn get_client(&self) -> (r: Result<BackendClient, LokiError>)
        ensures
            r matches Ok(c) && c@ == self.data_source@,
    {
        match &self.data_source {
            DataSource::HttpDataSource(h) => Ok(BackendClient::Http(HttpLokiClient::new(h.url.clone()))),
            DataSource::GrpcDataSource(g) => Ok(BackendClient::Grpc(GrpcLokiClient::new(g.url.clone()))),
        }
    }
}

pub open spec fn instances_view(v: Seq<DataSourceInstance>) -> Seq<SourceView> {
    v.map_values(|d: DataSourceInstance| d.data_source@)
}

/// Reads the backends out of the configuration; holds no other state.
#[derive(Debug)]
pub struct DataSourcesProvider {
    pub data_sources_config: Datasources,
}

/// The backends that `urls` names, each of the protocol that `grpc` picks.
pub open spec fn sources_of(urls: Seq<Seq<char>>, grpc: bool) -> Seq<SourceView> {
    Seq::new(urls.len(), |i: int| if grpc { SourceView::Grpc(urls[i]) } else { SourceView::Http(urls[i]) })
}

impl DataSourcesProvider {
    pub fn new(data_sources_config: Datasources) -> (r: DataSourcesProvider)
        ensures
            r.data_sources_config == data_sources_config,
    {
        DataSourcesProvider { data_sources_config }
    }

    /// The configured backends. `static-http` and `static-grpc-alpha` list
    /// them in `urls`, which they require; any other kind is refused.
    pub fn get_data_sources(&self) -> (r: Result<Vec<DataSourceInstance>, LokiError>)
        ensures
            ({
                let cfg = self.data_sources_config;
                let http = cfg.name@ == "static-http"@;
                let grpc = cfg.name@ == "static-grpc-alpha"@;
                match r {
                    Ok(v) => (http || grpc) && cfg.urls is Some && instances_view(v@) == sources_of(
                        strings_view(cfg.urls.unwrap()@),
                        grpc,
                    ),
                    Err(LokiError::Other(m)) => if http && cfg.urls is None {
                        m@ == "static-http requires urls"@
                    } else if grpc && cfg.urls is None {
                        m@ == "static-grpc requires urls"@
                    } else {
                        !http && !grpc && m@ == "Unsupported datasource"@
                    },
                    Err(_) => false,
                }
            }),
    {
        let cfg = &self.data_sources_config;
        let http = cfg.name == String::from_str("static-http");
        let grpc = cfg.name == String::from_str("static-grpc-alpha");
        proof {
            if http {
                reveal_strlit("static-http");
                reveal_strlit("static-grpc-alpha");
            }
        }
        if !http && !grpc {
            return Err(LokiError::Other(String::from_str("Unsupported datasource")));
        }
        match &cfg.urls {
            None => if http {
                Err(LokiError::Other(String::from_str("static-http requires urls")))
            } else {
                Err(LokiError::Other(String::from_str("static-grpc requires urls")))
            },
            Some(urls) => {
                let mut out: Vec<DataSourceInstance> = Vec::new();
                let mut i: usize = 0;
                while i < urls.len()
                    invariant
                        i <= urls@.len(),
                        instances_view(out@) =~= sources_of(strings_view(urls@), grpc).subrange(0, i as int),
                    decreases urls@.len() - i,
                {
                    let url = urls[i].clone();
                    let source = if grpc {
                        DataSource::GrpcDataSource(GrpcDataSource { url })
                    } else {
                        DataSource::HttpDataSource(HttpDataSource { url })
                    };
                    let ghost before = out@;
                    let inst = DataSourceInstance::new(source);
                    out.push(inst);
                    proof {
                        assert(out@ == before.push(inst));
                        assert(instances_view(out@) =~= instances_view(before).push(inst.data_source@));
                    }
                    i = i + 1;
                }
                proof {
                    assert(sources_of(strings_view(urls@), grpc).subrange(0, i as int) =~= sources_of(
                        strings_view(urls@),
                        grpc,
                    ));
                }
                Ok(out)
            },
        }
    }
}

} // verus!
