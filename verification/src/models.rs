use vstd::prelude::*;

verus! {

/// An instant in UTC: whole seconds since the Unix epoch and the nanoseconds
/// past that second.
#[derive(Debug, Clone, Copy, PartialEq, Eq)]
pub struct Timestamp {
    pub secs: i64,
    pub nanos: u32,
}

/// `a` comes no later than `b`: seconds first, then nanoseconds.
pub open spec fn not_after(a: Timestamp, b: Timestamp) -> bool {
    a.secs < b.secs || (a.secs == b.secs && a.nanos <= b.nanos)
}

impl Timestamp {
    /// Whether `self` comes no later than `other`.
    pub fn is_not_after(&self, other: &Timestamp) -> (r: bool)
        ensures
            r == not_after(*self, *other),
    {
        self.secs < other.secs || (self.secs == other.secs && self.nanos <= other.nanos)
    }
}

/// A shortened link: its id, the URL it leads to, when it was made and when,
/// if ever, it stops working.
#[derive(Debug, PartialEq, Eq)]
pub struct LinkRecord {
    pub id: String,
    pub target: String,
    pub created_at: Timestamp,
    pub expires_at: Option<Timestamp>,
}

/// A link has expired once its expiry time is not after `now`.
pub open spec fn expired_at(expires_at: Option<Timestamp>, now: Timestamp) -> bool {
    match expires_at {
        Some(e) => not_after(e, now),
        None => false,
    }
}

impl LinkRecord {
    /// A field-by-field copy of the record.
    pub fn duplicate(&self) -> (r: LinkRecord)
        ensures
            r == *self,
    {
        LinkRecord {
            id: self.id.clone(),
            target: self.target.clone(),
            created_at: self.created_at,
            expires_at: self.expires_at,
        }
    }

    /// Whether the link no longer works at `now`.
    pub fn is_expired(&self, now: Timestamp) -> (r: bool)
        ensures
            r == expired_at(self.expires_at, now),
    {
        match self.expires_at {
            Some(e) => e.is_not_after(&now),
            None => false,
        }
    }
}

/// What the metadata endpoint reports of a link: the record and its hits.
#[derive(Debug, PartialEq, Eq)]
pub struct MetadataResponse {
    pub id: String,
    pub target: String,
    pub created_at: Timestamp,
    pub expires_at: Option<Timestamp>,
    pub hits: u64,
}

} // verus!
