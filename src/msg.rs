//! Requests and responses of the registry.
use vstd::prelude::*;
use crate::index::KeyBound;
use crate::models::{Appeal, Report, Spam};
use crate::state::Owner;

verus! {

pub struct InstantiateMsg {
    pub owner: Option<Owner>,
}

pub enum ExecuteMsg {
    Report {
        address: String,
        comment: Option<String>,
        tx_hashes: Option<Vec<String>>,
        tags: Option<Vec<String>>,
    },
    Appeal { address: String, argument: String },
    Forgive { appellant: String, address: String },
}

pub enum QueryMsg {
    Select { fields: Option<Vec<String>>, wallet: Option<String> },
    Details { address: String },
    Paginate { cursor: Cursor, limit: Option<u32>, reversed: Option<bool> },
}

pub struct MigrateMsg {}

/// Which index to scan, and where to resume (exclusive): after a value,
/// or after a whole (value, subject) key as returned with a full page.
/// Timestamps are in nanoseconds.
pub enum Cursor {
    Timestamp(Option<KeyBound<u64>>),
    ReportCount(Option<KeyBound<u32>>),
    Reporter(Option<KeyBound<String>>),
    Tag(Option<KeyBound<String>>),
}

pub struct SelectResponse {
    pub owner: Option<Owner>,
}

pub struct SpamResponse {
    pub spam: Spam,
    pub reports: Vec<Report>,
    pub appeals: Vec<Appeal>,
}

pub struct PaginationResponse {
    pub page: Vec<Spam>,
    pub next: Option<Cursor>,
}

} // verus!
