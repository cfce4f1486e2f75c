use vstd::prelude::*;

use crate::errors::BucketError;
use crate::paths::{base_name_of, base_name_str};
use crate::storage::space::{Space, DISC_CAPACITY};

verus! {

/// The store descriptor: the top-level quota container that owns buckets.
/// Its persisted form is a small document kept at the store root.
#[derive(Debug, Clone)]
pub struct Store {
    pub uuid: String,
    pub store_path: String,
    pub store_name: String,
    pub available_space: u64,
    pub usage_space: u64,
    pub logging: bool,
}

/// Relies on uuid::Uuid::new_v4 and its hyphenated text form: a fresh random
/// identifier rendered as exactly 36 characters. Nothing else is promised of
/// the value.
#[verifier::external_body]
fn new_uuid() -> (r: String)
    ensures
        r@.len() == 36,
{
    uuid::Uuid::new_v4().to_string()
}

/// What a store descriptor fresh from `create` promises, apart from its
/// random identifier.
pub open spec fn created_store(s: Store, store_path: Seq<char>, available_space: u64, logging: Option<bool>) -> bool {
    &&& s.store_path@ == store_path
    &&& s.store_name@ == base_name_of(store_path)
    &&& s.available_space == available_space
    &&& s.usage_space == 0
    &&& s.logging == (match logging {
        Option::Some(b) => b,
        Option::None => false,
    })
    &&& s.uuid@.len() == 36
}

/// The store bookkeeping above the buckets.
pub trait Storage: Sized {
    /// Creates a store descriptor rooted at `store_path`. Fails with
    /// `StorageFull` when the requested budget does not leave free room on
    /// the host device.
    fn create(store_path: &str, available_space: u64, logging: Option<bool>) -> (r: Result<
        Store,
        BucketError,
    >)
        ensures
            available_space >= DISC_CAPACITY ==> (r matches Err(e) && e
                == BucketError::StorageFull),
            available_space < DISC_CAPACITY ==> (r matches Ok(s) && created_store(
                s,
                store_path@,
                available_space,
                logging,
            )),
    ;

    /// A blank descriptor, every field cleared.
    fn restore(&self) -> (r: Store)
        ensures
            r.uuid@.len() == 0,
            r.store_path@.len() == 0,
            r.store_name@.len() == 0,
            r.available_space == 0,
            r.usage_space == 0,
            !r.logging,
    ;

    /// Recomputes the usage total; this bookkeeping is not yet kept, so the
    /// total is zero.
    fn recalculation_usage_space(&self) -> (r: u64)
        ensures
            r == 0,
    ;
}

impl Storage for Store {
    fn create(store_path: &str, available_space: u64, logging: Option<bool>) -> (r: Result<
        Store,
        BucketError,
    >) {
        Store::create_with_capacity(store_path, available_space, logging, Space::get_disc())
    }

    fn restore(&self) -> (r: Store) {
        proof {
            reveal_strlit("");
        }
        Store {
            uuid: "".to_owned(),
            store_path: "".to_owned(),
            store_name: "".to_owned(),
            available_space: 0,
            usage_space: 0,
            logging: false,
        }
    }

    fn recalculation_usage_space(&self) -> (r: u64) {
        0
    }
}

impl Store {
    /// Creates a store descriptor against an explicit device capacity; the
    /// capacity probe is pluggable so that small budgets can be exercised.
    /// Fails with `StorageFull` when the budget does not leave free room.
    pub fn create_with_capacity(
        store_path: &str,
        available_space: u64,
        logging: Option<bool>,
        disk_space: u64,
    ) -> (r: Result<Store, BucketError>)
        ensures
            available_space >= disk_space ==> (r matches Err(e) && e == BucketError::StorageFull),
            available_space < disk_space ==> (r matches Ok(s) && created_store(
                s,
                store_path@,
                available_space,
                logging,
            )),
    {
        if available_space >= disk_space {
            return Err(BucketError::StorageFull);
        }
        let store_name: String = base_name_str(store_path);
        Ok(
            Store {
                uuid: new_uuid(),
                store_path: store_path.to_owned(),
                store_name,
                available_space,
                usage_space: 0,
                logging: logging.unwrap_or(false),
            },
        )
    }
}

} // verus!
