//! The service's configuration record.
use vstd::prelude::*;

verus! {

/// Where the service listens.
#[derive(Debug)]
pub struct ServerConfig {
    pub port: u16,
    pub bind_address: String,
}

/// Which backends to federate: a kind of source and, for the static kinds,
/// the backends' URLs.
#[derive(Debug)]
pub struct Datasources {
    pub name: String,
    pub urls: Option<Vec<String>>,
}

/// Diagnostics settings.
#[derive(Debug)]
pub struct DebugConfig {
    pub log_level: String,
}

/// The whole configuration.
#[derive(Debug)]
pub struct Config {
    pub server: ServerConfig,
    pub datasources: Datasources,
    pub debug: DebugConfig,
}

} // verus!
