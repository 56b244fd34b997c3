//! Service rows.

use vstd::prelude::*;

use super::ident::Id;

verus! {

/// A named user-supplied program; deployments reference it by id.
#[derive(Clone, Debug, PartialEq, Eq)]
pub struct Service {
    pub id: Id,
    pub name: String,
}

impl Service {
    pub fn dup(&self) -> (r: Service)
        ensures
            r == *self,
    {
        Service { id: self.id, name: self.name.clone() }
    }
}

} // verus!
