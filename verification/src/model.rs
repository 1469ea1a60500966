use vstd::prelude::*;

verus! {

/// Ports of the two servers: the mocked public API and the internal control API.
#[derive(Clone, Copy, Debug, PartialEq, Eq, Structural)]
pub struct Config {
    pub public_port: u16,
    pub private_port: u16,
}

/// One request received by the public server.
#[derive(Clone, Debug, PartialEq, Eq)]
pub struct RequestRecord {
    pub method: String,
    pub path: String,
    pub timestamp: u64,
}

/// Where to look for the value to match against.
#[derive(Clone, Copy, Debug, PartialEq, Eq, Structural)]
pub enum ConditionSource {
    /// Value extracted from a `:param` segment in the path pattern.
    PathParam,
    /// Value from the query string (`?key=value`).
    QueryParam,
    /// Value from a request header.
    Header,
}

/// How to compare the extracted value.
#[derive(Clone, Debug, PartialEq, Eq)]
pub enum ConditionMatcher {
    /// Must be exactly equal (case-sensitive).
    Exact(String),
    /// Must match this regular expression.
    Regex(String),
}

/// A single condition that must be satisfied for a mock to match.
#[derive(Clone, Debug, PartialEq, Eq)]
pub struct MockCondition {
    /// Where to extract the value from.
    pub source: ConditionSource,
    /// The name of the parameter / header.
    pub key: String,
    /// How to compare the extracted value.
    pub matcher: ConditionMatcher,
}

/// A configured mock response.
#[derive(Clone, Debug, PartialEq, Eq)]
pub struct MockConfig {
    pub method: String,
    /// Path pattern where segments starting with `:` are wildcards, e.g. `/users/:id/profile`
    pub path_pattern: String,
    pub status: u16,
    pub body: String,
    /// Conditions that must all match for this mock to be selected.
    /// Mocks with more conditions are evaluated first (most-specific wins).
    /// An empty vec means the mock matches unconditionally.
    pub conditions: Vec<MockCondition>,
}

} // verus!
