//! Structured log fields: the `fields` column of a log row is nothing, a
//! single marker string, or an object of event attributes.

use vstd::prelude::*;

use crate::strutil::str_eq;

verus! {

/// A primitive attribute value recorded on a diagnostic event.
#[derive(Clone, Debug, PartialEq, Eq)]
pub enum FieldValue {
    Bool(bool),
    UInt(u64),
    Int(i64),
    Text(String),
}

impl FieldValue {
    fn dup(&self) -> (r: FieldValue)
        ensures
            r == *self,
    {
        match self {
            FieldValue::Bool(b) => FieldValue::Bool(*b),
            FieldValue::UInt(u) => FieldValue::UInt(*u),
            FieldValue::Int(i) => FieldValue::Int(*i),
            FieldValue::Text(t) => FieldValue::Text(t.clone()),
        }
    }
}

/// One key/value attribute of an event.
#[derive(Clone, Debug, PartialEq, Eq)]
pub struct FieldEntry {
    pub key: String,
    pub value: FieldValue,
}

/// Index of the first entry whose key reads `key`.
pub open spec fn spec_find_key(s: Seq<FieldEntry>, key: Seq<char>) -> Option<int>
    decreases s.len(),
{
    if s.len() == 0 {
        None
    } else if s[0].key@ == key {
        Some(0)
    } else {
        match spec_find_key(s.skip(1), key) {
            Some(i) => Some(i + 1),
            None => None,
        }
    }
}

/// An object of event attributes, keyed by field name, in insertion order.
#[derive(Clone, Debug, PartialEq, Eq, Default)]
pub struct FieldObject {
    entries: Vec<FieldEntry>,
}

impl View for FieldObject {
    type V = Seq<FieldEntry>;

    closed spec fn view(&self) -> Seq<FieldEntry> {
        self.entries@
    }
}

/// Setting a key overwrites its first occurrence in place, or appends.
pub open spec fn spec_set_key(s: Seq<FieldEntry>, e: FieldEntry) -> Seq<FieldEntry> {
    match spec_find_key(s, e.key@) {
        Some(i) => s.update(i, e),
        None => s.push(e),
    }
}

/// Removing a key drops its first occurrence.
pub open spec fn spec_remove_key(s: Seq<FieldEntry>, key: Seq<char>) -> Seq<FieldEntry> {
    match spec_find_key(s, key) {
        Some(i) => s.remove(i),
        None => s,
    }
}

impl FieldObject {
    pub fn new() -> (r: FieldObject)
        ensures
            r@ == Seq::<FieldEntry>::empty(),
    {
        FieldObject { entries: Vec::new() }
    }

    pub fn len(&self) -> (r: usize)
        ensures
            r == self@.len(),
    {
        self.entries.len()
    }

    /// First index holding `key`, scanning in insertion order.
    fn find(&self, key: &str) -> (r: Option<usize>)
        ensures
            match r {
                Some(i) => 0 <= i < self@.len() && spec_find_key(self@, key@) == Some(i as int),
                None => spec_find_key(self@, key@) == None::<int>,
            },
    {
        let n = self.entries.len();
        let mut i: usize = 0;
        proof {
            assert(self@.skip(0) =~= self@);
        }
        while i < n
            invariant
                n == self@.len(),
                i <= n,
                spec_find_key(self@, key@) == match spec_find_key(self@.skip(i as int), key@) {
                    Some(j) => Some(j + i),
                    None => None,
                },
        decreases n - i,
        {
            let ghost tail = self@.skip(i as int);
            proof {
                assert(tail[0] == self@[i as int]);
                assert(tail.skip(1) =~= self@.skip(i + 1));
            }
            if str_eq(self.entries[i].key.as_str(), key) {
                return Some(i);
            }
            i = i + 1;
        }
        None
    }

    /// Records an attribute, replacing any earlier value under the same name.
    pub fn set(&mut self, key: String, value: FieldValue)
        ensures
            final(self)@ == spec_set_key(old(self)@, FieldEntry { key: key, value: value }),
    {
        let e = FieldEntry { key, value };
        match self.find(e.key.as_str()) {
            Some(i) => {
                self.entries.remove(i);
                self.entries.insert(i, e);
                proof {
                    assert(self.entries@ =~= old(self)@.update(i as int, e));
                }
            },
            None => {
                self.entries.push(e);
            },
        }
    }

    /// Takes an attribute out of the object, if present.
    pub fn remove(&mut self, key: &str) -> (r: Option<FieldValue>)
        ensures
            final(self)@ == spec_remove_key(old(self)@, key@),
            r == match spec_find_key(old(self)@, key@) {
                Some(i) => Some(old(self)@[i].value),
                None => None::<FieldValue>,
            },
    {
        match self.find(key) {
            Some(i) => {
                let e = self.entries.remove(i);
                Some(e.value)
            },
            None => None,
        }
    }

    pub fn dup(&self) -> (r: FieldObject)
        ensures
            r@ == self@,
    {
        let n = self.entries.len();
        let mut entries: Vec<FieldEntry> = Vec::new();
        let mut i: usize = 0;
        while i < n
            invariant
                n == self@.len(),
                i <= n,
                entries@ == self@.take(i as int),
        decreases n - i,
        {
            let e = &self.entries[i];
            entries.push(FieldEntry { key: e.key.clone(), value: e.value.dup() });
            proof {
                assert(self@.take(i + 1) =~= self@.take(i as int).push(self@[i as int]));
            }
            i = i + 1;
        }
        proof {
            assert(self@.take(n as int) =~= self@);
        }
        FieldObject { entries }
    }
}

/// Equivalence of two field columns: the same payload, with objects compared
/// by their entries.
pub open spec fn fields_eqv(a: Fields, b: Fields) -> bool {
    match (a, b) {
        (Fields::Null, Fields::Null) => true,
        (Fields::Text(s), Fields::Text(t)) => s == t,
        (Fields::Object(x), Fields::Object(y)) => x@ == y@,
        _ => false,
    }
}

/// The `fields` column of a log row.
#[derive(Clone, Debug, PartialEq, Eq)]
pub enum Fields {
    /// No structured payload; what a freshly entered scope carries.
    Null,
    /// A bare marker string, as written on persisted state logs.
    Text(String),
    /// Event attributes.
    Object(FieldObject),
}

impl Fields {
    pub fn dup(&self) -> (r: Fields)
        ensures
            fields_eqv(r, *self),
    {
        match self {
            Fields::Null => Fields::Null,
            Fields::Text(t) => Fields::Text(t.clone()),
            Fields::Object(o) => Fields::Object(o.dup()),
        }
    }
}

impl Default for Fields {
    fn default() -> (r: Fields)
        ensures
            r == Fields::Null,
    {
        Fields::Null
    }
}

} // verus!
