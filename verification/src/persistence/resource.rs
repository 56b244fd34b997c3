//! Resource rows: what has been provisioned for a service.

use vstd::prelude::*;

use super::fields::{fields_eqv, Fields};
use super::ident::Id;

verus! {

/// A database provisioned on shared infrastructure.
#[derive(Clone, Copy, Debug, PartialEq, Eq, Structural)]
pub enum SharedType {
    Postgres,
    MongoDb,
}

/// A dedicated AWS RDS database.
#[derive(Clone, Copy, Debug, PartialEq, Eq, Structural)]
pub enum AwsRdsType {
    Postgres,
    MySql,
    MariaDB,
}

#[derive(Clone, Copy, Debug, PartialEq, Eq, Structural)]
pub enum DatabaseType {
    AwsRds(AwsRdsType),
    Shared(SharedType),
}

/// The tagged type of a resource; part of the row's key.
#[derive(Clone, Copy, Debug, PartialEq, Eq, Structural)]
pub enum Type {
    Database(DatabaseType),
}

/// A resource row; keyed by `(service_id, kind)`, so inserting the same kind
/// twice replaces.
#[derive(Clone, Debug, PartialEq, Eq)]
pub struct Resource {
    pub service_id: Id,
    pub kind: Type,
    /// Connection data handed back by the provisioner.
    pub data: Fields,
}

/// Equivalence of two resource rows, with the data compared structurally.
pub open spec fn resource_eqv(a: Resource, b: Resource) -> bool {
    &&& a.service_id == b.service_id
    &&& a.kind == b.kind
    &&& fields_eqv(a.data, b.data)
}

impl Resource {
    pub fn dup(&self) -> (r: Resource)
        ensures
            resource_eqv(r, *self),
    {
        Resource { service_id: self.service_id, kind: self.kind, data: self.data.dup() }
    }
}

} // verus!
