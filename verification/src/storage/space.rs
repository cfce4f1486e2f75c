use vstd::prelude::*;

use crate::bucket::bucket::EntryData;
use crate::bucket::bucket_db::KeyPath;
use crate::paths::{is_prefix_of, starts_with_str};

verus! {

/// The byte capacity of the host device, as configured for this engine.
pub const DISC_CAPACITY: u64 = 1099511627776;

/// Space probing: the host capacity and the recursive size of a subtree.
pub struct Space;

/// The exact byte total of the entries under the directory path `dir`,
/// the directory row itself included (directories weigh nothing).
pub open spec fn subtree_size(rows: Seq<KeyPath>, entries: Seq<EntryData>, dir: Seq<char>) -> int
    decreases rows.len(),
{
    if rows.len() == 0 {
        0
    } else {
        let rest = subtree_size(rows.drop_last(), entries.drop_last(), dir);
        if is_prefix_of(dir, rows.last()@.path) {
            rest + entries.last().content@.len()
        } else {
            rest
        }
    }
}

/// The smaller of an exact byte count and the largest representable count.
pub open spec fn clamp_u64(n: int) -> u64 {
    if n > u64::MAX {
        u64::MAX
    } else if n < 0 {
        0
    } else {
        n as u64
    }
}

impl Space {
    /// The byte budget of the host device.
    pub fn get_disc() -> (r: u64)
        ensures
            r == DISC_CAPACITY,
    {
        1099511627776
    }

    /// The recursive byte total of the entries under the directory path
    /// `dir`, saturating at the largest representable count. The rows name
    /// the paths; the entries, in the same order, hold the data.
    pub fn dir_size(rows: &Vec<KeyPath>, entries: &Vec<EntryData>, dir: &String) -> (r: u64)
        requires
            rows@.len() == entries@.len(),
        ensures
            r == clamp_u64(subtree_size(rows@, entries@, dir@)),
    {
        let n: usize = rows.len();
        let mut total: u64 = 0;
        let mut i: usize = 0;
        while i < n
            invariant
                i <= n,
                n == rows@.len(),
                n == entries@.len(),
                total == clamp_u64(subtree_size(rows@.take(i as int), entries@.take(i as int), dir@)),
                subtree_size(rows@.take(i as int), entries@.take(i as int), dir@) >= 0,
            decreases n - i,
        {
            proof {
                assert(rows@.take(i + 1).drop_last() =~= rows@.take(i as int));
                assert(entries@.take(i + 1).drop_last() =~= entries@.take(i as int));
                assert(rows@.take(i + 1).last() == rows@[i as int]);
                assert(entries@.take(i + 1).last() == entries@[i as int]);
            }
            if starts_with_str(rows[i].path.as_str(), dir.as_str()) {
                let size: usize = entries[i].content.len();
                if size as u64 > u64::MAX - total {
                    total = u64::MAX;
                } else {
                    total = total + size as u64;
                }
            }
            i += 1;
        }
        proof {
            assert(rows@.take(n as int) =~= rows@);
            assert(entries@.take(n as int) =~= entries@);
        }
        total
    }
}

} // verus!
