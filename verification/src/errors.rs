//! The error taxonomy: configuration errors (the root cannot be inferred),
//! structural errors (the graph's shape is broken), remote-query failures,
//! path-level resolution failures, and unsupported filter clauses.
use vstd::prelude::*;

verus! {

/// A failure while turning a record list into a graph and path cache.
///
/// `MissingRoot` and `AmbiguousRoot` report malformed source data (no or
/// several parentless participants); `CycleDetected` and `DanglingReference`
/// report graph-shape violations found during the path walk.
#[derive(Clone, Debug)]
pub enum BuildError {
    MissingRoot,
    AmbiguousRoot(Vec<String>),
    CycleDetected(String),
    DanglingReference(String),
}

/// A failure of a remote lookup, as reported by the caller-supplied
/// transport; this library never performs the call itself.
#[derive(Clone, Debug)]
pub struct QueryError {
    pub message: String,
}

/// A failure to resolve an absolute path to a resource id.
#[derive(Clone, Debug)]
pub enum ResolveError {
    /// The path does not start with `/`, or contains an empty segment.
    MalformedPath,
    /// A segment stayed absent even after the scoped remote lookup.
    NotFound(String),
    /// The remote lookup itself failed; the cache keeps what it had.
    Lookup(QueryError),
}

/// The filter clauses that can appear in a query expression.
#[derive(Clone, Copy, Debug, PartialEq, Eq, Structural)]
pub enum FilterKind {
    And,
    Or,
    Not,
    Any,
    All,
    Contains,
    Equals,
    StartsWith,
    DateGt,
    DateLt,
    TypeOf,
    Name,
    FullText,
    Parent,
    IsSharedWithMe,
}

/// A filter clause with no defined compilation to the remote query grammar.
///
/// Such a clause fails fast instead of being dropped: dropping it would
/// silently broaden the result set.
#[derive(Clone, Copy, Debug, PartialEq, Eq, Structural)]
pub struct UnimplementedFilter {
    pub kind: FilterKind,
}

/// A failure of a path-scoped query through the facade.
#[derive(Clone, Debug)]
pub enum FacadeError {
    Build(BuildError),
    Resolve(ResolveError),
    Filter(UnimplementedFilter),
    Query(QueryError),
}

/// A base URL that the URL parser refused while building a request URI.
#[derive(Clone, Debug)]
pub struct UriError {
    pub message: String,
}

/// A failure while assembling a request URI: an uncompilable filter clause,
/// or a base URL the parser refused.
#[derive(Clone, Debug)]
pub enum RequestError {
    Filter(UnimplementedFilter),
    Uri(UriError),
}

} // verus!
