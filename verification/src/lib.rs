//! Request matching and registry logic for a REST API mock server.
//!
//! A mock is registered for an HTTP method and a path pattern whose `:name`
//! segments are wildcards; it may carry conditions on path parameters, query
//! parameters and headers. An incoming request is answered by the most
//! specific mock whose method, pattern and conditions all accept it.

pub mod model;
pub mod text;
pub mod pattern;
pub mod query;
pub mod regex_match;
pub mod matching;
pub mod registry;
pub mod editor;
pub mod settings;
