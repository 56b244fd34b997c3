//! Identifiers for services and deployments: 128-bit UUID values.

use vstd::prelude::*;

verus! {

/// The integer value of a UUID identifying a service or a deployment. The
/// all-zero (nil) value is reserved: scopes that carry it are discarded.
#[derive(Clone, Copy, Debug, PartialEq, Eq, Structural, Hash)]
pub struct Id {
    pub value: u128,
}

impl Id {
    pub fn new(value: u128) -> (r: Id)
        ensures
            r.value == value,
    {
        Id { value }
    }

    /// The nil identifier.
    pub fn nil() -> (r: Id)
        ensures
            r.value == 0,
    {
        Id { value: 0 }
    }

    pub open spec fn spec_is_nil(self) -> bool {
        self.value == 0
    }

    pub fn is_nil(&self) -> (r: bool)
        ensures
            r == self.spec_is_nil(),
    {
        self.value == 0
    }

    /// A fresh random identifier; never nil.
    pub fn fresh() -> (r: Id)
        ensures
            !r.spec_is_nil(),
    {
        Id { value: fresh_uuid_value() }
    }

    /// The identifier written in `s`, or nil when `s` is not a UUID; this is
    /// how a captured scope's `id` attribute is read.
    pub open spec fn spec_parse_lossy(s: Seq<char>) -> Id {
        match uuid_of(s) {
            Some(u) => Id { value: u },
            None => Id { value: 0 },
        }
    }

    pub fn parse_lossy(s: &str) -> (r: Id)
        ensures
            r == Id::spec_parse_lossy(s@),
    {
        match parse_uuid_value(s) {
            Some(u) => Id { value: u },
            None => Id { value: 0 },
        }
    }
}

impl Default for Id {
    /// A scope whose `id` attribute is absent or unreadable carries nil.
    fn default() -> (r: Id)
        ensures
            r.value == 0,
    {
        Id { value: 0 }
    }
}

/// The value that `uuid::Uuid::try_parse` reads from a string, if any; a
/// function of the characters alone.
pub uninterp spec fn uuid_of(s: Seq<char>) -> Option<u128>;

/// Relies on `uuid::Uuid::new_v4`: a random UUID whose version-4 and variant
/// bits are set, so its value is never zero. Nothing else is assumed of it.
#[verifier::external_body]
fn fresh_uuid_value() -> (r: u128)
    ensures
        r != 0,
{
    uuid::Uuid::new_v4().as_u128()
}

/// Relies on `uuid::Uuid::try_parse`, whose result depends on the input
/// characters alone.
#[verifier::external_body]
fn parse_uuid_value(s: &str) -> (r: Option<u128>)
    ensures
        r == uuid_of(s@),
{
    match uuid::Uuid::try_parse(s) {
        Ok(u) => Some(u.as_u128()),
        Err(_) => None,
    }
}

} // verus!
