//! The error taxonomy shared by every fallible operation of the library.

use vstd::prelude::*;

verus! {

/// Why a metric could not be produced or a history operation failed.
///
/// - `SourceUnavailable`: a counter path or external command could not be
///   read or run at all (reported by the unverified edge, carried here).
/// - `ParseError`: counter text was malformed or had too few fields.
/// - `StoreError`: the history store could not append or answer a query.
/// - `InvalidRequest`: a history range or limit parameter was malformed.
#[derive(Clone, Copy, Debug, PartialEq, Eq, Structural)]
pub enum MetricError {
    SourceUnavailable,
    ParseError,
    StoreError,
    InvalidRequest,
}

} // verus!
