//! A read-path federation engine for a log-query API: it merges the
//! answers of several log stores into one ordered, duplicate-free answer.
//!
//! `aggregate` merges two sequences of log entries in a direction;
//! `federation` merges whole answers; `laws` states what holds of every
//! merged answer. The other modules hold the data, the configuration, the
//! backend registry and what the two backend protocols compute.
pub mod aggregate;
pub mod config;
pub mod datasources;
pub mod decimal;
pub mod direction;
pub mod federation;
pub mod grpc_client;
pub mod http_client;
pub mod labels;
pub mod labels_parser;
pub mod laws;
pub mod response;
