//! The temporal query surface: the shapes an outer query layer hands in.
//! The language itself belongs to that outer layer.

use vstd::prelude::*;

use crate::error::Error;

verus! {

/// A parsed temporal query.
#[derive(Debug)]
pub struct TemporalQuery {
    /// What kind of statement the query is.
    pub query_type: QueryType,
    /// The entity the query is about, if it names one.
    pub entity_id: Option<String>,
    /// The time range the query asks about, if any.
    pub time_range: Option<TimeRange>,
}

impl Clone for TemporalQuery {
    /// A copy naming the same entity, kind and range.
    fn clone(&self) -> (r: Self)
        ensures
            r.query_type == self.query_type,
            r.entity_id.deep_view() == self.entity_id.deep_view(),
            r.time_range == self.time_range,
    {
        TemporalQuery {
            query_type: self.query_type,
            entity_id: match &self.entity_id {
                Some(s) => Some(s.clone()),
                None => None,
            },
            time_range: self.time_range,
        }
    }
}

/// The kind of statement a query is.
#[derive(Debug, Clone, Copy, PartialEq, Eq, Structural)]
pub enum QueryType {
    /// Read data.
    Select,
    /// Insert data.
    Insert,
    /// Update data.
    Update,
    /// Delete data.
    Delete,
}

/// The time range a temporal query asks about.
#[derive(Debug, Clone, Copy, PartialEq, Eq, Structural)]
pub enum TimeRange {
    /// The state as of one timestamp, in nanoseconds.
    AsOf(i64),
    /// A closed span of timestamps, in nanoseconds.
    Between {
        /// Where the span begins.
        start: i64,
        /// Where the span ends.
        end: i64,
    },
    /// From a timestamp on, open-ended.
    From(i64),
}

/// Parse a temporal query. The core stores and serves events; a query
/// language lives in an outer layer, so every text is refused here.
pub fn parse_query(query: &str) -> (r: Result<TemporalQuery, Error>)
    ensures
        r is Err,
        r matches Err(e) ==> e is Query,
{
    Err(Error::Query("the query language is served by an outer layer".to_owned()))
}

/// Optimize a temporal query. No rewrite improves on the plain shape, so
/// the query comes back as it went in.
pub fn optimize_query(query: &TemporalQuery) -> (r: Result<TemporalQuery, Error>)
    ensures
        r matches Ok(q) ==> q.query_type == query.query_type && q.entity_id.deep_view()
            == query.entity_id.deep_view() && q.time_range == query.time_range,
        r is Ok,
{
    Ok(query.clone())
}

/// Execute a temporal query. Execution belongs to the outer layer that
/// owns the language, so every plan is refused here.
pub fn execute_query(query: &TemporalQuery) -> (r: Result<(), Error>)
    ensures
        r is Err,
        r matches Err(e) ==> e is Query,
{
    Err(Error::Query("query execution is served by an outer layer".to_owned()))
}

} // verus!
