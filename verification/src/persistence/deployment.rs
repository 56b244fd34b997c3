//! Deployment rows and their projections.

use vstd::prelude::*;

use super::address::Address;
use super::clock::Timestamp;
use super::ident::Id;
use super::state::State;

verus! {

/// A deployment row: one attempt to build and run a version of a service.
#[derive(Clone, Copy, Debug, PartialEq, Eq, Structural)]
pub struct Deployment {
    pub id: Id,
    pub service_id: Id,
    pub state: State,
    pub last_update: Timestamp,
    /// Set exactly while the deployment is bound to a socket.
    pub address: Option<Address>,
}

/// The per-deployment part of a state log: what the log router writes back
/// onto the deployment row.
#[derive(Clone, Copy, Debug, PartialEq, Eq, Structural)]
pub struct DeploymentState {
    pub id: Id,
    pub state: State,
    pub last_update: Timestamp,
    pub address: Option<Address>,
}

/// A `Running` row joined with its service name, as resumed at startup.
#[derive(Clone, Debug, PartialEq, Eq)]
pub struct DeploymentRunnable {
    pub id: Id,
    pub service_name: String,
    pub service_id: Id,
}

} // verus!
