use vstd::prelude::*;
use crate::identifier::Identifier;

verus! {

/// The data of a quota, without its id: how much time of a given
/// classification a day is expected to hold.
#[derive(Debug, Clone)]
pub struct QuotaInner {
    /// Identifier of the class the quota counts.
    pub class: Identifier,
    /// Duration of the quota, in nanoseconds.
    pub duration: i64,
    /// Optional description.
    pub description: Option<String>,
}

/// A daily quota.
#[derive(Debug, Clone)]
pub struct Quota {
    /// Unique id.
    pub id: u128,
    /// Data.
    pub inner: QuotaInner,
}

} // verus!
