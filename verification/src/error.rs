//! Why a search refuses its configuration.

use vstd::prelude::*;

verus! {

/// A search rejects its configuration before it looks at any route or
/// flight. Finding nothing is no error: it is an empty result.
#[derive(Clone, Copy, Debug, PartialEq, Eq, Structural)]
pub enum SearchError {
    /// The depth bound of a topology search is not positive.
    InvalidDepth,
    /// The bound on the number of legs of an itinerary is not positive.
    InvalidMaxConnections,
    /// A bound of the connection window is not positive.
    InvalidConnectionTime,
    /// The departure date is no day of the calendar.
    InvalidDate,
}

/// Why a search call gives no result: what it was asked is refused, or what
/// it searches could not be read. A failed read is never answered with a
/// part of a result, nor with an empty one.
#[derive(Debug, PartialEq, Eq)]
pub enum SearchFailure<E> {
    Refused(SearchError),
    DataAccess(E),
}

impl SearchError {
    /// The text of the refusal.
    pub open spec fn spec_message(self) -> Seq<char> {
        match self {
            SearchError::InvalidDepth => "the depth bound must be positive"@,
            SearchError::InvalidMaxConnections => "the connection bound must be positive"@,
            SearchError::InvalidConnectionTime => "the connection times must be positive"@,
            SearchError::InvalidDate => "the departure date does not exist"@,
        }
    }

    /// The text shown to the caller.
    pub fn message(&self) -> (text: String)
        ensures
            text@ == self.spec_message(),
    {
        match self {
            SearchError::InvalidDepth => "the depth bound must be positive".to_owned(),
            SearchError::InvalidMaxConnections => "the connection bound must be positive".to_owned(),
            SearchError::InvalidConnectionTime => "the connection times must be positive".to_owned(),
            SearchError::InvalidDate => "the departure date does not exist".to_owned(),
        }
    }
}

} // verus!
