//! Secret rows.

use vstd::prelude::*;

use super::clock::Timestamp;
use super::ident::Id;

verus! {

/// A secret a service may read at load time; keyed by `(service_id, key)`.
#[derive(Clone, Debug, PartialEq, Eq)]
pub struct Secret {
    pub service_id: Id,
    pub key: String,
    pub value: String,
    pub last_update: Timestamp,
}

/// The mathematical content of a secret row.
pub struct SecretModel {
    pub service_id: Id,
    pub key: Seq<char>,
    pub value: Seq<char>,
    pub last_update: Timestamp,
}

impl Secret {
    /// The row's content, with its text read as character sequences.
    pub open spec fn model(self) -> SecretModel {
        SecretModel {
            service_id: self.service_id,
            key: self.key@,
            value: self.value@,
            last_update: self.last_update,
        }
    }
}

/// The contents of a secrets table.
pub open spec fn secret_models(s: Seq<Secret>) -> Seq<SecretModel> {
    s.map_values(|x: Secret| x.model())
}

impl Secret {
    pub fn dup(&self) -> (r: Secret)
        ensures
            r == *self,
    {
        Secret {
            service_id: self.service_id,
            key: self.key.clone(),
            value: self.value.clone(),
            last_update: self.last_update,
        }
    }
}

} // verus!
