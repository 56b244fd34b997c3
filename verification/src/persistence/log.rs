//! Persisted log rows.

use vstd::prelude::*;

use super::clock::Timestamp;
use super::fields::{fields_eqv, Fields};
use super::ident::Id;
use super::state::State;

verus! {

/// Severity of a captured diagnostic line.
#[derive(Clone, Copy, Debug, PartialEq, Eq, Structural, Hash)]
pub enum Level {
    Trace,
    Debug,
    Info,
    Warn,
    Error,
}

/// A persisted log line, tied to the deployment it was captured under and the
/// state that deployment was in.
#[derive(Clone, Debug, PartialEq, Eq)]
pub struct Log {
    /// Deployment id.
    pub id: Id,
    /// Time the line was captured.
    pub timestamp: Timestamp,
    /// State of the deployment when the line was captured.
    pub state: State,
    /// Log level.
    pub level: Level,
    /// File the event took place in.
    pub file: Option<String>,
    /// Line in that file.
    pub line: Option<u32>,
    /// Module the event took place in.
    pub target: String,
    /// Extra structured fields.
    pub fields: Fields,
}

/// Equivalence of two log rows: equal in every column, with the fields
/// column compared structurally.
pub open spec fn log_eqv(a: Log, b: Log) -> bool {
    &&& a.id == b.id
    &&& a.timestamp == b.timestamp
    &&& a.state == b.state
    &&& a.level == b.level
    &&& a.file == b.file
    &&& a.line == b.line
    &&& a.target == b.target
    &&& fields_eqv(a.fields, b.fields)
}

impl Log {
    pub fn dup(&self) -> (r: Log)
        ensures
            log_eqv(r, *self),
    {
        Log {
            id: self.id,
            timestamp: self.timestamp,
            state: self.state,
            level: self.level,
            file: match &self.file {
                Some(f) => Some(f.clone()),
                None => None,
            },
            line: self.line,
            target: self.target.clone(),
            fields: self.fields.dup(),
        }
    }
}

} // verus!
