//! An in-memory object-store engine: buckets of hash-keyed entries with
//! quota accounting, favorites, soft deletion and subtree rename/move/copy,
//! together with the store bookkeeping above them.

use vstd::prelude::*;

pub mod bucket;
pub mod errors;
pub mod hashing;
pub mod laws;
pub mod paths;
pub mod storage;

use std::collections::hash_map::DefaultHasher;
use std::hash::Hasher;

verus! {

/// The 64-bit fingerprint of a string, stable across runs for the same bytes.
pub fn calculate_hash(t: &str) -> (r: u64)
    ensures
        r == crate::hashing::hash_u64_of(t@),
{
    let mut s = DefaultHasher::new();
    s.write(t.as_bytes());
    let mut terminator: Vec<u8> = Vec::new();
    terminator.push(0xff);
    s.write(terminator.as_slice());
    proof {
        assert(s@ =~~= seq![vstd::utf8::encode_utf8(t@), seq![0xffu8]]);
    }
    s.finish()
}

} // verus!
