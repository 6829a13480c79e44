//! A static file server for frontend builds, with a reverse proxy: everything that it decides
//! and computes.
pub mod answering;
pub mod blocking;
pub mod bytes;
pub mod choosing;
pub mod clients;
pub mod config;
pub mod connection;
pub mod forwarding;
pub mod message;
pub mod notation;
pub mod number;
pub mod path;
pub mod places;
pub mod plain;
pub mod reading;
pub mod request;
pub mod response;
pub mod rule;
pub mod runtime;
pub mod server;
pub mod serving;
pub mod settings;
pub mod static_files;
pub mod text;
pub mod tls;
pub mod toml;
pub mod upstream;
