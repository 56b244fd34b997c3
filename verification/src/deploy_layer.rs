//! The capture layer: deployment-bearing scopes and the diagnostic events
//! inside them become logs. A scope is deployment-bearing when its metadata
//! declares an `id` and a `state` attribute; entering one emits a state log,
//! and every event under one emits an event log. A scope whose id is nil is
//! discarded outright, so nothing of it reaches the store.

use vstd::prelude::*;

use crate::persistence;
use crate::persistence::address::spec_parse_address;
use crate::persistence::fields::{spec_find_key, spec_remove_key};
use crate::persistence::{
    Address, DeploymentState, FieldEntry, FieldObject, FieldValue, Fields, Id, LogLevel, State,
    Timestamp,
};

verus! {

/// The marker persisted in the fields column of state logs, by which
/// subscribers recognise phase boundaries in a log stream.
pub const STATE_MESSAGE: &'static str = "NEW STATE";

/// Records logs for the deployment progress.
pub trait LogRecorder {
    fn record(&mut self, log: Log);
}

/// Whether a log marks a state transition or carries an event.
#[derive(Clone, Copy, Debug, PartialEq, Eq, Structural)]
pub enum LogType {
    Event,
    State,
}

/// An event or state-transition log, as emitted by the capture layer.
#[derive(Clone, Debug, PartialEq, Eq)]
pub struct Log {
    /// Deployment id.
    pub id: Id,
    /// Current state of the deployment.
    pub state: State,
    /// Log level.
    pub level: LogLevel,
    /// Time the log happened.
    pub timestamp: Timestamp,
    /// File the event took place in.
    pub file: Option<String>,
    /// Line in that file.
    pub line: Option<u32>,
    /// Module the log took place in.
    pub target: String,
    /// Extra structured fields.
    pub fields: Fields,
    pub kind: LogType,
    /// The socket the scope carries, still as written in its attribute.
    pub address: Option<String>,
}

impl Log {
    /// The deployment-row update a state log carries: its state and time,
    /// and the scope's address if it reads as a socket.
    pub open spec fn spec_deployment_state(self) -> DeploymentState {
        DeploymentState {
            id: self.id,
            state: self.state,
            last_update: self.timestamp,
            address: match self.address {
                Some(a) => spec_parse_address(a@),
                None => None,
            },
        }
    }

    pub fn to_deployment_state(&self) -> (r: DeploymentState)
        ensures
            r == self.spec_deployment_state(),
    {
        let address: Option<Address> = match &self.address {
            Some(a) => persistence::address::parse_address(a.as_str()),
            None => None,
        };
        DeploymentState { id: self.id, state: self.state, last_update: self.timestamp, address }
    }

    /// What an event log persists: every column as captured.
    pub open spec fn spec_stored_event(self) -> persistence::Log {
        persistence::Log {
            id: self.id,
            timestamp: self.timestamp,
            state: self.state,
            level: self.level,
            file: self.file,
            line: self.line,
            target: self.target,
            fields: self.fields,
        }
    }

    pub fn into_stored_event(self) -> (r: persistence::Log)
        ensures
            r == self.spec_stored_event(),
    {
        persistence::Log {
            id: self.id,
            timestamp: self.timestamp,
            state: self.state,
            level: self.level,
            file: self.file,
            line: self.line,
            target: self.target,
            fields: self.fields,
        }
    }

    /// What a state log persists: the same columns, but an empty target and
    /// the marker string in place of fields, so tailers can spot the
    /// boundary.
    pub open spec fn is_stored_state_row(self, row: persistence::Log) -> bool {
        &&& row.id == self.id
        &&& row.timestamp == self.timestamp
        &&& row.state == self.state
        &&& row.level == self.level
        &&& row.file == self.file
        &&& row.line == self.line
        &&& row.target@ == Seq::<char>::empty()
        &&& row.fields matches Fields::Text(t) && t@ == "NEW STATE"@
    }

    pub fn to_stored_state(&self) -> (r: persistence::Log)
        ensures
            self.is_stored_state_row(r),
    {
        proof {
            reveal_strlit("NEW STATE");
        }
        persistence::Log {
            id: self.id,
            timestamp: self.timestamp,
            state: self.state,
            level: self.level,
            file: match &self.file {
                Some(f) => Some(f.clone()),
                None => None,
            },
            line: self.line,
            target: String::new(),
            fields: Fields::Text(STATE_MESSAGE.to_owned()),
        }
    }
}

/// The `(id, state, address)` triple a deployment-bearing scope carries.
#[derive(Clone, Debug, PartialEq, Eq)]
pub struct ScopeDetails {
    pub id: Id,
    pub state: State,
    pub address: Option<String>,
}

impl Default for ScopeDetails {
    /// Before any attribute is read: nil id, initial state, no address.
    fn default() -> (r: ScopeDetails)
        ensures
            r.id.value == 0 && r.state == State::Queued && r.address == None::<String>,
    {
        ScopeDetails { id: Id::nil(), state: State::Queued, address: None }
    }
}

impl ScopeDetails {
    /// Reads one scope attribute: `id` parses as a UUID and `state` by name
    /// — unreadable values fall back to nil and the initial state — while
    /// `address` is kept as written; any other attribute is ignored.
    pub fn record_field(&mut self, name: &str, value: &str)
        ensures
            name@ == "state"@ ==> ({
                &&& final(self).id == old(self).id
                &&& final(self).address == old(self).address
                &&& final(self).state == State::spec_parse_or_default(value@)
            }),
            name@ == "id"@ ==> ({
                &&& final(self).state == old(self).state
                &&& final(self).address == old(self).address
                &&& final(self).id == Id::spec_parse_lossy(value@)
            }),
            name@ == "address"@ ==> ({
                &&& final(self).id == old(self).id
                &&& final(self).state == old(self).state
                &&& final(self).address matches Some(a) && a@ == value@
            }),
            name@ != "state"@ && name@ != "id"@ && name@ != "address"@ ==> *final(self) == *old(self),
    {
        proof {
            reveal_strlit("state");
            reveal_strlit("id");
            reveal_strlit("address");
            assert("state"@.len() == 5);
            assert("id"@.len() == 2);
            assert("address"@.len() == 7);
        }
        if crate::strutil::str_eq(name, "state") {
            self.state = match State::parse(value) {
                Some(s) => s,
                None => State::Queued,
            };
        } else if crate::strutil::str_eq(name, "id") {
            self.id = Id::parse_lossy(value);
        } else if crate::strutil::str_eq(name, "address") {
            self.address = Some(value.to_owned());
        }
    }
}

/// What entering a deployment-bearing scope emits: nothing when the scope's
/// id is nil — such a scope is dropped and no log of it is ever persisted —
/// otherwise exactly one state log carrying the scope's attributes.
pub fn state_scope_log(
    details: ScopeDetails,
    level: LogLevel,
    timestamp: Timestamp,
    file: Option<String>,
    line: Option<u32>,
    target: String,
) -> (r: Option<Log>)
    ensures
        details.id.spec_is_nil() <==> r is None,
        r matches Some(l) ==> l == (Log {
            id: details.id,
            state: details.state,
            level,
            timestamp,
            file,
            line,
            target,
            fields: Fields::Null,
            kind: LogType::State,
            address: details.address,
        }),
{
    if details.id.is_nil() {
        return None;
    }
    Some(
        Log {
            id: details.id,
            state: details.state,
            level,
            timestamp,
            file,
            line,
            target,
            fields: Fields::Null,
            kind: LogType::State,
            address: details.address,
        },
    )
}

/// How an event's attributes are promoted out of its structured fields: the
/// legacy logging bridge writes `log.target`, `log.line`, `log.file` and
/// `log.module_path` into the body, and they must reach their own columns
/// instead of leaking into stored fields. Yields the target, line, file and
/// the fields that remain.
pub open spec fn event_promotion(
    s: Seq<FieldEntry>,
    meta_target: Seq<char>,
    meta_line: Option<u32>,
    meta_file: Option<Seq<char>>,
) -> (Seq<char>, Option<u32>, Option<Seq<char>>, Seq<FieldEntry>) {
    let target = match spec_find_key(s, "log.target"@) {
        Some(i) => (match s[i].value {
            FieldValue::Text(x) => x@,
            _ => Seq::<char>::empty(),
        }),
        None => meta_target,
    };
    let s1 = spec_remove_key(s, "log.target"@);
    let line = match spec_find_key(s1, "log.line"@) {
        Some(i) => (match s1[i].value {
            FieldValue::UInt(u) => if u <= 0xffff_ffff {
                Some(u as u32)
            } else {
                None
            },
            FieldValue::Int(v) => if 0 <= v && v <= 0xffff_ffff {
                Some(v as u32)
            } else {
                None
            },
            _ => None,
        }),
        None => meta_line,
    };
    let s2 = spec_remove_key(s1, "log.line"@);
    let file = match spec_find_key(s2, "log.file"@) {
        Some(i) => (match s2[i].value {
            FieldValue::Text(x) => Some(x@),
            _ => None,
        }),
        None => meta_file,
    };
    let s3 = spec_remove_key(s2, "log.file"@);
    (target, line, file, spec_remove_key(s3, "log.module_path"@))
}

/// What a diagnostic event under a deployment-bearing scope emits: one event
/// log under the scope's id and state, with bridge attributes promoted out
/// of the captured fields.
pub fn event_log(
    id: Id,
    state: State,
    level: LogLevel,
    timestamp: Timestamp,
    meta_target: String,
    meta_line: Option<u32>,
    meta_file: Option<String>,
    fields: FieldObject,
) -> (r: Log)
    ensures
        ({
            let p = event_promotion(
                fields@,
                meta_target@,
                meta_line,
                match meta_file {
                    Some(f) => Some(f@),
                    None => None,
                },
            );
            &&& r.id == id
            &&& r.state == state
            &&& r.level == level
            &&& r.timestamp == timestamp
            &&& r.kind == LogType::Event
            &&& r.address == None::<String>
            &&& r.target@ == p.0
            &&& r.line == p.1
            &&& (match r.file {
                Some(f) => p.2 == Some(f@),
                None => p.2 is None,
            })
            &&& r.fields matches Fields::Object(o) && o@ == p.3
        }),
{
    let mut f = fields;
    let target = match f.remove("log.target") {
        Some(FieldValue::Text(x)) => x,
        Some(_) => String::new(),
        None => meta_target,
    };
    let line = match f.remove("log.line") {
        Some(FieldValue::UInt(u)) => if u <= 0xffff_ffff {
            Some(u as u32)
        } else {
            None
        },
        Some(FieldValue::Int(v)) => if 0 <= v && v <= 0xffff_ffff {
            Some(v as u32)
        } else {
            None
        },
        Some(_) => None,
        None => meta_line,
    };
    let file = match f.remove("log.file") {
        Some(FieldValue::Text(x)) => Some(x),
        Some(_) => None,
        None => meta_file,
    };
    f.remove("log.module_path");
    Log {
        id,
        state,
        level,
        timestamp,
        file,
        line,
        target,
        fields: Fields::Object(f),
        kind: LogType::Event,
        address: None,
    }
}

} // verus!
