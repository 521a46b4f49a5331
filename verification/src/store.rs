//! The handle of the subscription store.
//!
//! The store lives in a sled database; reading and writing it is the
//! application's part. The library holds the handle, plans the writes of
//! each transaction (`store_plan`) and keeps the bookkeeping of lookups
//! (`lookup`).
use vstd::prelude::*;
use crate::text::{contains_text, text_contains};

verus! {

/// How a failed store operation is answered.
#[derive(Debug, Clone, Copy, PartialEq, Eq)]
pub enum StoreErrorKind {
    NotFound,
    Internal,
}

/// The message by which the store reports a missing subscription.
pub open spec fn not_found_marker() -> Seq<char> {
    "订阅不存在"@
}

/// The kind of a store error, read from its message: a message that
/// carries the store's "not found" text is `NotFound`, any other one
/// `Internal`.
pub open spec fn store_error_kind(message: Seq<char>) -> StoreErrorKind {
    if contains_text(message, not_found_marker()) {
        StoreErrorKind::NotFound
    } else {
        StoreErrorKind::Internal
    }
}

/// A sled database, carried through as it is.
#[verifier::external_type_specification]
#[verifier::external_body]
pub struct ExDb(sled::Db);

/// The subscription store: a handle on its database.
pub struct SubscriptionStore {
    db: sled::Db,
}

impl SubscriptionStore {
    /// A store on the database `db`.
    pub fn new(db: sled::Db) -> (r: SubscriptionStore)
        ensures
            r.database() == db,
    {
        SubscriptionStore { db }
    }

    /// The database of the store.
    pub closed spec fn database(&self) -> sled::Db {
        self.db
    }

    /// The database, for reading and writing.
    pub fn db(&self) -> (r: &sled::Db)
        ensures
            *r == self.database(),
    {
        &self.db
    }

    /// The kind of a store error, from its message (see
    /// `store_error_kind`).
    pub fn classify_error(message: &str) -> (r: StoreErrorKind)
        ensures
            r == store_error_kind(message@),
    {
        if text_contains(message, "订阅不存在") {
            StoreErrorKind::NotFound
        } else {
            StoreErrorKind::Internal
        }
    }
}

} // verus!
