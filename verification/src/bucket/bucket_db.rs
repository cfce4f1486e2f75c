use vstd::prelude::*;

use crate::bucket::fs_metadata::FsMetadata;
use crate::errors::BucketError;
use crate::hashing::hash_hex_of;
use crate::paths::{is_prefix_of, replace_prefix, replace_prefix_str, starts_with_str};

verus! {

/// One row of the path table: a hash key, the path it stands for, and
/// whether the path is a directory.
#[derive(Debug)]
pub struct KeyPath {
    pub key: String,
    pub path: String,
    pub is_dir: bool,
}

/// One row of the trash table: the hash key of a soft-deleted entry and the
/// instant its retention expires.
#[derive(Debug)]
pub struct DeleteRow {
    pub hash: String,
    pub delete_time: i64,
}

/// The mathematical shadow of a path-table row.
pub struct RowView {
    pub key: Seq<char>,
    pub path: Seq<char>,
    pub is_dir: bool,
}

/// The mathematical shadow of a trash-table row.
pub struct DelView {
    pub hash: Seq<char>,
    pub delete_time: i64,
}

impl View for KeyPath {
    type V = RowView;

    open spec fn view(&self) -> RowView {
        RowView { key: self.key@, path: self.path@, is_dir: self.is_dir }
    }
}

impl View for DeleteRow {
    type V = DelView;

    open spec fn view(&self) -> DelView {
        DelView { hash: self.hash@, delete_time: self.delete_time }
    }
}

/// The views of a sequence of path rows.
pub open spec fn rows_view(rows: Seq<KeyPath>) -> Seq<RowView> {
    rows.map_values(|r: KeyPath| r@)
}

/// The views of a sequence of trash rows.
pub open spec fn dels_view(dels: Seq<DeleteRow>) -> Seq<DelView> {
    dels.map_values(|d: DeleteRow| d@)
}

/// Some row carries this hash key.
pub open spec fn has_key(rows: Seq<RowView>, key: Seq<char>) -> bool {
    exists|i: int| 0 <= i < rows.len() && rows[i].key == key
}

/// Some row carries this path.
pub open spec fn has_path(rows: Seq<RowView>, path: Seq<char>) -> bool {
    exists|i: int| 0 <= i < rows.len() && rows[i].path == path
}

/// The index of the row carrying this hash key; meaningful only when the keys
/// are unique and some row carries it.
pub open spec fn key_index(rows: Seq<RowView>, key: Seq<char>) -> int {
    choose|i: int| 0 <= i < rows.len() && rows[i].key == key
}

/// The path of the row carrying this hash key.
pub open spec fn path_of_key(rows: Seq<RowView>, key: Seq<char>) -> Seq<char> {
    rows[key_index(rows, key)].path
}

/// No two rows share a hash key.
pub open spec fn keys_unique(rows: Seq<RowView>) -> bool {
    forall|i: int, j: int| 0 <= i < j < rows.len() ==> rows[i].key != rows[j].key
}

/// No two rows share a path.
pub open spec fn paths_unique(rows: Seq<RowView>) -> bool {
    forall|i: int, j: int| 0 <= i < j < rows.len() ==> rows[i].path != rows[j].path
}

/// The key sequence holds this key.
pub open spec fn contains_key_seq(keys: Seq<Seq<char>>, key: Seq<char>) -> bool {
    exists|i: int| 0 <= i < keys.len() && keys[i] == key
}

/// The trash table holds a row for this key.
pub open spec fn dels_have_key(dels: Seq<DelView>, key: Seq<char>) -> bool {
    exists|i: int| 0 <= i < dels.len() && dels[i].hash == key
}

/// The key sequence with every occurrence of `key` removed, order kept.
pub open spec fn keys_without(keys: Seq<Seq<char>>, key: Seq<char>) -> Seq<Seq<char>>
    decreases keys.len(),
{
    if keys.len() == 0 {
        Seq::<Seq<char>>::empty()
    } else {
        let rest = keys_without(keys.drop_last(), key);
        if keys.last() == key {
            rest
        } else {
            rest.push(keys.last())
        }
    }
}

/// What `keys_without` keeps: no occurrence of the removed key, only
/// members of the original, and distinctness carried over.
pub proof fn lemma_keys_without_props(keys: Seq<Seq<char>>, key: Seq<char>)
    ensures
        forall|k: int|
            0 <= k < keys_without(keys, key).len() ==> #[trigger] keys_without(keys, key)[k]
                != key,
        forall|k: int|
            0 <= k < keys_without(keys, key).len() ==> contains_key_seq(
                keys,
                #[trigger] keys_without(keys, key)[k],
            ),
        (forall|i: int, j: int| 0 <= i < j < keys.len() ==> keys[i] != keys[j]) ==> (forall|
            i: int,
            j: int,
        |
            0 <= i < j < keys_without(keys, key).len() ==> keys_without(keys, key)[i]
                != keys_without(keys, key)[j]),
    decreases keys.len(),
{
    if keys.len() == 0 {
    } else {
        let prev = keys.drop_last();
        lemma_keys_without_props(prev, key);
        let rest = keys_without(prev, key);
        assert forall|k: int| 0 <= k < rest.len() implies contains_key_seq(
            keys,
            #[trigger] rest[k],
        ) by {
            let w = choose|w: int| 0 <= w < prev.len() && prev[w] == rest[k];
            assert(keys[w] == rest[k]);
        }
        if keys.last() != key {
            assert(contains_key_seq(keys, keys_without(keys, key).last())) by {
                assert(keys[keys.len() - 1] == keys.last());
            }
        }
        if forall|i: int, j: int| 0 <= i < j < keys.len() ==> keys[i] != keys[j] {
            assert forall|i: int, j: int| 0 <= i < j < prev.len() implies prev[i] != prev[j] by {
                assert(keys[i] == prev[i] && keys[j] == prev[j]);
            }
            if keys.last() != key {
                assert forall|i: int| 0 <= i < rest.len() implies rest[i] != keys.last() by {
                    let w = choose|w: int| 0 <= w < prev.len() && prev[w] == rest[i];
                    assert(keys[w] == prev[w]);
                    assert(keys[w] != keys[keys.len() - 1]);
                }
            }
        }
    }
}

/// The trash rows with every row keyed `key` removed, order kept.
pub open spec fn dels_without(dels: Seq<DelView>, key: Seq<char>) -> Seq<DelView>
    decreases dels.len(),
{
    if dels.len() == 0 {
        Seq::<DelView>::empty()
    } else {
        let rest = dels_without(dels.drop_last(), key);
        if dels.last().hash == key {
            rest
        } else {
            rest.push(dels.last())
        }
    }
}

/// What `dels_without` keeps: no row with the removed key, only rows of the
/// original, and distinctness of keys carried over.
pub proof fn lemma_dels_without_props(dels: Seq<DelView>, key: Seq<char>)
    ensures
        forall|k: int|
            0 <= k < dels_without(dels, key).len() ==> #[trigger] dels_without(dels, key)[k].hash
                != key,
        forall|k: int|
            0 <= k < dels_without(dels, key).len() ==> dels_have_key(
                dels,
                #[trigger] dels_without(dels, key)[k].hash,
            ),
        (forall|i: int, j: int| 0 <= i < j < dels.len() ==> dels[i].hash != dels[j].hash) ==> (
        forall|i: int, j: int|
            0 <= i < j < dels_without(dels, key).len() ==> dels_without(dels, key)[i].hash
                != dels_without(dels, key)[j].hash),
    decreases dels.len(),
{
    if dels.len() == 0 {
    } else {
        let prev = dels.drop_last();
        lemma_dels_without_props(prev, key);
        let rest = dels_without(prev, key);
        assert forall|k: int| 0 <= k < rest.len() implies dels_have_key(
            dels,
            #[trigger] rest[k].hash,
        ) by {
            let w = choose|w: int| 0 <= w < prev.len() && prev[w].hash == rest[k].hash;
            assert(dels[w].hash == rest[k].hash);
        }
        if dels.last().hash != key {
            assert(dels_have_key(dels, dels_without(dels, key).last().hash)) by {
                assert(dels[dels.len() - 1] == dels.last());
            }
        }
        if forall|i: int, j: int| 0 <= i < j < dels.len() ==> dels[i].hash != dels[j].hash {
            assert forall|i: int, j: int| 0 <= i < j < prev.len() implies prev[i].hash
                != prev[j].hash by {
                assert(dels[i] == prev[i] && dels[j] == prev[j]);
            }
            if dels.last().hash != key {
                assert forall|i: int| 0 <= i < rest.len() implies rest[i].hash
                    != dels.last().hash by {
                    let w = choose|w: int| 0 <= w < prev.len() && prev[w].hash == rest[i].hash;
                    assert(dels[w] == prev[w]);
                    assert(dels[w].hash != dels[dels.len() - 1].hash);
                }
            }
        }
    }
}

/// The path rows with every row keyed `key` removed, order kept.
pub open spec fn rows_without_key(rows: Seq<RowView>, key: Seq<char>) -> Seq<RowView>
    decreases rows.len(),
{
    if rows.len() == 0 {
        Seq::<RowView>::empty()
    } else {
        let rest = rows_without_key(rows.drop_last(), key);
        if rows.last().key == key {
            rest
        } else {
            rest.push(rows.last())
        }
    }
}

/// What `rows_without_key` keeps: no row with the removed key, only rows of
/// the original, and uniqueness of keys and paths carried over.
pub proof fn lemma_rows_without_key_props(rows: Seq<RowView>, key: Seq<char>)
    ensures
        forall|k: int|
            0 <= k < rows_without_key(rows, key).len() ==> #[trigger] rows_without_key(
                rows,
                key,
            )[k].key != key,
        forall|k: int|
            0 <= k < rows_without_key(rows, key).len() ==> exists|w: int|
                0 <= w < rows.len() && rows[w] == #[trigger] rows_without_key(rows, key)[k],
        keys_unique(rows) ==> keys_unique(rows_without_key(rows, key)),
        paths_unique(rows) ==> paths_unique(rows_without_key(rows, key)),
        keys_unique(rows) ==> forall|h: Seq<char>|
            has_key(rows, h) && h != key ==> #[trigger] has_key(rows_without_key(rows, key), h),
    decreases rows.len(),
{
    if rows.len() == 0 {
    } else {
        let prev = rows.drop_last();
        lemma_rows_without_key_props(prev, key);
        let rest = rows_without_key(prev, key);
        let cur = rows_without_key(rows, key);
        assert forall|k: int| 0 <= k < rest.len() implies exists|w: int|
            0 <= w < rows.len() && rows[w] == #[trigger] rest[k] by {
            let w = choose|w: int| 0 <= w < prev.len() && prev[w] == rest[k];
            assert(rows[w] == rest[k]);
        }
        if rows.last().key != key {
            assert(rows[rows.len() - 1] == cur.last());
        }
        if keys_unique(rows) {
            assert forall|i: int, j: int| 0 <= i < j < prev.len() implies prev[i].key
                != prev[j].key by {
                assert(rows[i] == prev[i] && rows[j] == prev[j]);
            }
            if rows.last().key != key {
                assert forall|i: int| 0 <= i < rest.len() implies rest[i].key
                    != rows.last().key by {
                    let w = choose|w: int| 0 <= w < prev.len() && prev[w] == rest[i];
                    assert(rows[w] == prev[w]);
                    assert(rows[w].key != rows[rows.len() - 1].key);
                }
            }
            assert forall|h: Seq<char>| has_key(rows, h) && h != key implies #[trigger] has_key(
                cur,
                h,
            ) by {
                let w = choose|w: int| 0 <= w < rows.len() && rows[w].key == h;
                if w == rows.len() - 1 {
                    assert(cur.last().key == h);
                } else {
                    assert(prev[w].key == h);
                    assert(has_key(prev, h));
                    assert(has_key(rest, h));
                    let v = choose|v: int| 0 <= v < rest.len() && rest[v].key == h;
                    if rows.last().key == key {
                        assert(cur[v].key == h);
                    } else {
                        assert(cur[v].key == h);
                    }
                }
            }
        }
        if paths_unique(rows) {
            assert forall|i: int, j: int| 0 <= i < j < prev.len() implies prev[i].path
                != prev[j].path by {
                assert(rows[i] == prev[i] && rows[j] == prev[j]);
            }
            if rows.last().key != key {
                assert forall|i: int| 0 <= i < rest.len() implies rest[i].path
                    != rows.last().path by {
                    let w = choose|w: int| 0 <= w < prev.len() && prev[w] == rest[i];
                    assert(rows[w] == prev[w]);
                    assert(rows[w].path != rows[rows.len() - 1].path);
                }
            }
        }
    }
}

/// The hash keys of the trash rows, in table order.
pub open spec fn dels_keys(dels: Seq<DelView>) -> Seq<Seq<char>> {
    dels.map_values(|d: DelView| d.hash)
}

/// The paths of the rows carrying the given keys, in key order, skipping
/// keys that no row carries.
pub open spec fn joined_paths(rows: Seq<RowView>, keys: Seq<Seq<char>>) -> Seq<Seq<char>>
    decreases keys.len(),
{
    if keys.len() == 0 {
        Seq::<Seq<char>>::empty()
    } else {
        let rest = joined_paths(rows, keys.drop_last());
        if has_key(rows, keys.last()) {
            rest.push(path_of_key(rows, keys.last()))
        } else {
            rest
        }
    }
}

/// The path rows whose keys are not in `ks`, order kept.
pub open spec fn rows_without_keys(rows: Seq<RowView>, ks: Seq<Seq<char>>) -> Seq<RowView>
    decreases rows.len(),
{
    if rows.len() == 0 {
        Seq::<RowView>::empty()
    } else {
        let rest = rows_without_keys(rows.drop_last(), ks);
        if contains_key_seq(ks, rows.last().key) {
            rest
        } else {
            rest.push(rows.last())
        }
    }
}

/// What `rows_without_keys` keeps: no row keyed in `ks`, only rows of the
/// original, uniqueness carried over, and every key outside `ks` kept.
pub proof fn lemma_rows_without_keys_props(rows: Seq<RowView>, ks: Seq<Seq<char>>)
    ensures
        forall|k: int|
            0 <= k < rows_without_keys(rows, ks).len() ==> !contains_key_seq(
                ks,
                #[trigger] rows_without_keys(rows, ks)[k].key,
            ),
        forall|k: int|
            0 <= k < rows_without_keys(rows, ks).len() ==> exists|w: int|
                0 <= w < rows.len() && rows[w] == #[trigger] rows_without_keys(rows, ks)[k],
        keys_unique(rows) ==> keys_unique(rows_without_keys(rows, ks)),
        paths_unique(rows) ==> paths_unique(rows_without_keys(rows, ks)),
        keys_unique(rows) ==> forall|h: Seq<char>|
            has_key(rows, h) && !contains_key_seq(ks, h) ==> #[trigger] has_key(
                rows_without_keys(rows, ks),
                h,
            ),
    decreases rows.len(),
{
    if rows.len() == 0 {
    } else {
        let prev = rows.drop_last();
        lemma_rows_without_keys_props(prev, ks);
        let rest = rows_without_keys(prev, ks);
        let cur = rows_without_keys(rows, ks);
        assert forall|k: int| 0 <= k < rest.len() implies exists|w: int|
            0 <= w < rows.len() && rows[w] == #[trigger] rest[k] by {
            let w = choose|w: int| 0 <= w < prev.len() && prev[w] == rest[k];
            assert(rows[w] == rest[k]);
        }
        if !contains_key_seq(ks, rows.last().key) {
            assert(rows[rows.len() - 1] == cur.last());
        }
        if keys_unique(rows) {
            assert forall|i: int, j: int| 0 <= i < j < prev.len() implies prev[i].key
                != prev[j].key by {
                assert(rows[i] == prev[i] && rows[j] == prev[j]);
            }
            if !contains_key_seq(ks, rows.last().key) {
                assert forall|i: int| 0 <= i < rest.len() implies rest[i].key
                    != rows.last().key by {
                    let w = choose|w: int| 0 <= w < prev.len() && prev[w] == rest[i];
                    assert(rows[w] == prev[w]);
                    assert(rows[w].key != rows[rows.len() - 1].key);
                }
            }
            assert forall|h: Seq<char>| has_key(rows, h) && !contains_key_seq(ks, h) implies #[trigger] has_key(
                cur,
                h,
            ) by {
                let w = choose|w: int| 0 <= w < rows.len() && rows[w].key == h;
                if w == rows.len() - 1 {
                    assert(cur.last().key == h);
                } else {
                    assert(prev[w].key == h);
                    assert(has_key(prev, h));
                    assert(has_key(rest, h));
                    let v = choose|v: int| 0 <= v < rest.len() && rest[v].key == h;
                    assert(cur[v].key == h);
                }
            }
        }
        if paths_unique(rows) {
            assert forall|i: int, j: int| 0 <= i < j < prev.len() implies prev[i].path
                != prev[j].path by {
                assert(rows[i] == prev[i] && rows[j] == prev[j]);
            }
            if !contains_key_seq(ks, rows.last().key) {
                assert forall|i: int| 0 <= i < rest.len() implies rest[i].path
                    != rows.last().path by {
                    let w = choose|w: int| 0 <= w < prev.len() && prev[w] == rest[i];
                    assert(rows[w] == prev[w]);
                    assert(rows[w].path != rows[rows.len() - 1].path);
                }
            }
        }
    }
}

/// The keys not in `ks`, order kept.
pub open spec fn keys_without_keys(keys: Seq<Seq<char>>, ks: Seq<Seq<char>>) -> Seq<Seq<char>>
    decreases keys.len(),
{
    if keys.len() == 0 {
        Seq::<Seq<char>>::empty()
    } else {
        let rest = keys_without_keys(keys.drop_last(), ks);
        if contains_key_seq(ks, keys.last()) {
            rest
        } else {
            rest.push(keys.last())
        }
    }
}

/// What `keys_without_keys` keeps: nothing from `ks`, only members of the
/// original, and distinctness carried over.
pub proof fn lemma_keys_without_keys_props(keys: Seq<Seq<char>>, ks: Seq<Seq<char>>)
    ensures
        forall|k: int|
            0 <= k < keys_without_keys(keys, ks).len() ==> !contains_key_seq(
                ks,
                #[trigger] keys_without_keys(keys, ks)[k],
            ),
        forall|k: int|
            0 <= k < keys_without_keys(keys, ks).len() ==> contains_key_seq(
                keys,
                #[trigger] keys_without_keys(keys, ks)[k],
            ),
        (forall|i: int, j: int| 0 <= i < j < keys.len() ==> keys[i] != keys[j]) ==> (forall|
            i: int,
            j: int,
        |
            0 <= i < j < keys_without_keys(keys, ks).len() ==> keys_without_keys(keys, ks)[i]
                != keys_without_keys(keys, ks)[j]),
    decreases keys.len(),
{
    if keys.len() == 0 {
    } else {
        let prev = keys.drop_last();
        lemma_keys_without_keys_props(prev, ks);
        let rest = keys_without_keys(prev, ks);
        assert forall|k: int| 0 <= k < rest.len() implies contains_key_seq(
            keys,
            #[trigger] rest[k],
        ) by {
            let w = choose|w: int| 0 <= w < prev.len() && prev[w] == rest[k];
            assert(keys[w] == rest[k]);
        }
        if !contains_key_seq(ks, keys.last()) {
            assert(keys[keys.len() - 1] == keys_without_keys(keys, ks).last());
        }
        if forall|i: int, j: int| 0 <= i < j < keys.len() ==> keys[i] != keys[j] {
            assert forall|i: int, j: int| 0 <= i < j < prev.len() implies prev[i] != prev[j] by {
                assert(keys[i] == prev[i] && keys[j] == prev[j]);
            }
            if !contains_key_seq(ks, keys.last()) {
                assert forall|i: int| 0 <= i < rest.len() implies rest[i] != keys.last() by {
                    let w = choose|w: int| 0 <= w < prev.len() && prev[w] == rest[i];
                    assert(keys[w] == prev[w]);
                    assert(keys[w] != keys[keys.len() - 1]);
                }
            }
        }
    }
}

/// The trash rows whose keys are not in `ks`, order kept.
pub open spec fn dels_without_keys(dels: Seq<DelView>, ks: Seq<Seq<char>>) -> Seq<DelView>
    decreases dels.len(),
{
    if dels.len() == 0 {
        Seq::<DelView>::empty()
    } else {
        let rest = dels_without_keys(dels.drop_last(), ks);
        if contains_key_seq(ks, dels.last().hash) {
            rest
        } else {
            rest.push(dels.last())
        }
    }
}

/// Removing no keys removes nothing.
pub proof fn lemma_without_keys_empty(keys: Seq<Seq<char>>, dels: Seq<DelView>)
    ensures
        keys_without_keys(keys, Seq::<Seq<char>>::empty()) == keys,
        dels_without_keys(dels, Seq::<Seq<char>>::empty()) == dels,
    decreases keys.len() + dels.len(),
{
    if keys.len() > 0 {
        lemma_without_keys_empty(keys.drop_last(), dels);
        assert(keys_without_keys(keys, Seq::<Seq<char>>::empty()) =~= keys);
    }
    if dels.len() > 0 {
        lemma_without_keys_empty(keys, dels.drop_last());
        assert(dels_without_keys(dels, Seq::<Seq<char>>::empty()) =~= dels);
    }
}

/// Removing the keys of `ks` and then one more key removes the keys of
/// `ks.push(k)`.
pub proof fn lemma_keys_without_compose(keys: Seq<Seq<char>>, ks: Seq<Seq<char>>, k: Seq<char>)
    ensures
        keys_without(keys_without_keys(keys, ks), k) == keys_without_keys(keys, ks.push(k)),
    decreases keys.len(),
{
    if keys.len() == 0 {
    } else {
        lemma_keys_without_compose(keys.drop_last(), ks, k);
        let prev = keys.drop_last();
        let lhs_inner = keys_without_keys(keys, ks);
        if contains_key_seq(ks, keys.last()) {
            assert(contains_key_seq(ks.push(k), keys.last())) by {
                let w = choose|w: int| 0 <= w < ks.len() && ks[w] == keys.last();
                assert(ks.push(k)[w] == keys.last());
            }
            assert(lhs_inner == keys_without_keys(prev, ks));
        } else {
            assert(lhs_inner == keys_without_keys(prev, ks).push(keys.last()));
            assert(lhs_inner.drop_last() =~= keys_without_keys(prev, ks));
            if keys.last() == k {
                assert(contains_key_seq(ks.push(k), keys.last())) by {
                    assert(ks.push(k)[ks.len() as int] == k);
                }
                assert(keys_without(lhs_inner, k) == keys_without(
                    keys_without_keys(prev, ks),
                    k,
                ));
            } else {
                if contains_key_seq(ks.push(k), keys.last()) {
                    let w = choose|w: int|
                        0 <= w < ks.push(k).len() && ks.push(k)[w] == keys.last();
                    if w < ks.len() {
                        assert(ks[w] == keys.last());
                    }
                    assert(false);
                }
                assert(keys_without(lhs_inner, k) == keys_without(
                    keys_without_keys(prev, ks),
                    k,
                ).push(keys.last()));
            }
        }
    }
}

/// Removing the trash rows of `ks` and then one more key removes the rows of
/// `ks.push(k)`.
pub proof fn lemma_dels_without_compose(dels: Seq<DelView>, ks: Seq<Seq<char>>, k: Seq<char>)
    ensures
        dels_without(dels_without_keys(dels, ks), k) == dels_without_keys(dels, ks.push(k)),
    decreases dels.len(),
{
    if dels.len() == 0 {
    } else {
        lemma_dels_without_compose(dels.drop_last(), ks, k);
        let prev = dels.drop_last();
        let lhs_inner = dels_without_keys(dels, ks);
        if contains_key_seq(ks, dels.last().hash) {
            assert(contains_key_seq(ks.push(k), dels.last().hash)) by {
                let w = choose|w: int| 0 <= w < ks.len() && ks[w] == dels.last().hash;
                assert(ks.push(k)[w] == dels.last().hash);
            }
            assert(lhs_inner == dels_without_keys(prev, ks));
        } else {
            assert(lhs_inner == dels_without_keys(prev, ks).push(dels.last()));
            assert(lhs_inner.drop_last() =~= dels_without_keys(prev, ks));
            if dels.last().hash == k {
                assert(contains_key_seq(ks.push(k), dels.last().hash)) by {
                    assert(ks.push(k)[ks.len() as int] == k);
                }
                assert(dels_without(lhs_inner, k) == dels_without(
                    dels_without_keys(prev, ks),
                    k,
                ));
            } else {
                if contains_key_seq(ks.push(k), dels.last().hash) {
                    let w = choose|w: int|
                        0 <= w < ks.push(k).len() && ks.push(k)[w] == dels.last().hash;
                    if w < ks.len() {
                        assert(ks[w] == dels.last().hash);
                    }
                    assert(false);
                }
                assert(dels_without(lhs_inner, k) == dels_without(
                    dels_without_keys(prev, ks),
                    k,
                ).push(dels.last()));
            }
        }
    }
}

/// Membership in `keys_without_keys`: a key is kept exactly when it was
/// there and is not removed.
pub proof fn lemma_keys_without_keys_membership(
    keys: Seq<Seq<char>>,
    ks: Seq<Seq<char>>,
    x: Seq<char>,
)
    ensures
        contains_key_seq(keys_without_keys(keys, ks), x) <==> (contains_key_seq(keys, x)
            && !contains_key_seq(ks, x)),
    decreases keys.len(),
{
    if keys.len() == 0 {
    } else {
        lemma_keys_without_keys_membership(keys.drop_last(), ks, x);
        let prev = keys.drop_last();
        let rest = keys_without_keys(prev, ks);
        let cur = keys_without_keys(keys, ks);
        if contains_key_seq(cur, x) {
            let w = choose|w: int| 0 <= w < cur.len() && cur[w] == x;
            if !contains_key_seq(ks, keys.last()) && w == cur.len() - 1 {
                assert(x == keys.last());
                assert(keys[keys.len() - 1] == x);
            } else {
                assert(rest[w] == x);
                assert(contains_key_seq(rest, x));
                let v = choose|v: int| 0 <= v < prev.len() && prev[v] == x;
                assert(keys[v] == x);
            }
        }
        if contains_key_seq(keys, x) && !contains_key_seq(ks, x) {
            let w = choose|w: int| 0 <= w < keys.len() && keys[w] == x;
            if w == keys.len() - 1 {
                assert(cur.last() == x);
            } else {
                assert(prev[w] == x);
                assert(contains_key_seq(prev, x));
                let v = choose|v: int| 0 <= v < rest.len() && rest[v] == x;
                assert(cur[v] == x);
            }
        }
    }
}

/// Membership in `dels_without_keys`: a trash row's key is kept exactly when
/// it was there and is not removed.
pub proof fn lemma_dels_without_keys_membership(dels: Seq<DelView>, ks: Seq<Seq<char>>, x: Seq<char>)
    ensures
        dels_have_key(dels_without_keys(dels, ks), x) <==> (dels_have_key(dels, x)
            && !contains_key_seq(ks, x)),
    decreases dels.len(),
{
    if dels.len() == 0 {
    } else {
        lemma_dels_without_keys_membership(dels.drop_last(), ks, x);
        let prev = dels.drop_last();
        let rest = dels_without_keys(prev, ks);
        let cur = dels_without_keys(dels, ks);
        if dels_have_key(cur, x) {
            let w = choose|w: int| 0 <= w < cur.len() && cur[w].hash == x;
            if !contains_key_seq(ks, dels.last().hash) && w == cur.len() - 1 {
                assert(x == dels.last().hash);
                assert(dels[dels.len() - 1].hash == x);
            } else {
                assert(rest[w].hash == x);
                assert(dels_have_key(rest, x));
                let v = choose|v: int| 0 <= v < prev.len() && prev[v].hash == x;
                assert(dels[v].hash == x);
            }
        }
        if dels_have_key(dels, x) && !contains_key_seq(ks, x) {
            let w = choose|w: int| 0 <= w < dels.len() && dels[w].hash == x;
            if w == dels.len() - 1 {
                assert(cur.last().hash == x);
            } else {
                assert(prev[w].hash == x);
                assert(dels_have_key(prev, x));
                let v = choose|v: int| 0 <= v < rest.len() && rest[v].hash == x;
                assert(cur[v].hash == x);
            }
        }
    }
}

/// What `dels_without_keys` keeps: only rows of the original, and
/// distinctness of keys carried over.
pub proof fn lemma_dels_without_keys_props(dels: Seq<DelView>, ks: Seq<Seq<char>>)
    ensures
        forall|k: int|
            0 <= k < dels_without_keys(dels, ks).len() ==> dels_have_key(
                dels,
                (#[trigger] dels_without_keys(dels, ks)[k]).hash,
            ),
        forall|k: int|
            0 <= k < dels_without_keys(dels, ks).len() ==> !contains_key_seq(
                ks,
                (#[trigger] dels_without_keys(dels, ks)[k]).hash,
            ),
        (forall|i: int, j: int| 0 <= i < j < dels.len() ==> dels[i].hash != dels[j].hash) ==> (
        forall|i: int, j: int|
            0 <= i < j < dels_without_keys(dels, ks).len() ==> dels_without_keys(dels, ks)[i].hash
                != dels_without_keys(dels, ks)[j].hash),
    decreases dels.len(),
{
    if dels.len() == 0 {
    } else {
        let prev = dels.drop_last();
        lemma_dels_without_keys_props(prev, ks);
        let rest = dels_without_keys(prev, ks);
        assert forall|k: int| 0 <= k < rest.len() implies dels_have_key(
            dels,
            (#[trigger] rest[k]).hash,
        ) by {
            let w = choose|w: int| 0 <= w < prev.len() && prev[w].hash == rest[k].hash;
            assert(dels[w].hash == rest[k].hash);
        }
        if !contains_key_seq(ks, dels.last().hash) {
            assert(dels[dels.len() - 1] == dels_without_keys(dels, ks).last());
        }
        if forall|i: int, j: int| 0 <= i < j < dels.len() ==> dels[i].hash != dels[j].hash {
            assert forall|i: int, j: int| 0 <= i < j < prev.len() implies prev[i].hash
                != prev[j].hash by {
                assert(dels[i] == prev[i] && dels[j] == prev[j]);
            }
            if !contains_key_seq(ks, dels.last().hash) {
                assert forall|i: int| 0 <= i < rest.len() implies rest[i].hash
                    != dels.last().hash by {
                    let w = choose|w: int| 0 <= w < prev.len() && prev[w].hash == rest[i].hash;
                    assert(dels[w] == prev[w]);
                    assert(dels[w].hash != dels[dels.len() - 1].hash);
                }
            }
        }
    }
}

/// The trash rows whose retention has not yet expired at `date`.
pub open spec fn dels_retained(dels: Seq<DelView>, date: i64) -> Seq<DelView>
    decreases dels.len(),
{
    if dels.len() == 0 {
        Seq::<DelView>::empty()
    } else {
        let rest = dels_retained(dels.drop_last(), date);
        if dels.last().delete_time < date {
            rest
        } else {
            rest.push(dels.last())
        }
    }
}

/// The keys of the trash rows whose retention has expired at `date`, in
/// table order.
pub open spec fn expired_keys(dels: Seq<DelView>, date: i64) -> Seq<Seq<char>>
    decreases dels.len(),
{
    if dels.len() == 0 {
        Seq::<Seq<char>>::empty()
    } else {
        let rest = expired_keys(dels.drop_last(), date);
        if dels.last().delete_time < date {
            rest.push(dels.last().hash)
        } else {
            rest
        }
    }
}

/// What an expiry sweep keeps and returns: retained rows come from the
/// original and keep distinct keys; with distinct keys no retained row is
/// among the expired keys; and every expired key comes from the original.
pub proof fn lemma_expiry_props(dels: Seq<DelView>, date: i64)
    ensures
        forall|k: int|
            0 <= k < dels_retained(dels, date).len() ==> dels_have_key(
                dels,
                #[trigger] dels_retained(dels, date)[k].hash,
            ),
        (forall|i: int, j: int| 0 <= i < j < dels.len() ==> dels[i].hash != dels[j].hash) ==> (
        forall|i: int, j: int|
            0 <= i < j < dels_retained(dels, date).len() ==> dels_retained(dels, date)[i].hash
                != dels_retained(dels, date)[j].hash),
        (forall|i: int, j: int| 0 <= i < j < dels.len() ==> dels[i].hash != dels[j].hash) ==> (
        forall|k: int|
            0 <= k < dels_retained(dels, date).len() ==> !contains_key_seq(
                expired_keys(dels, date),
                #[trigger] dels_retained(dels, date)[k].hash,
            )),
        forall|k: int|
            0 <= k < expired_keys(dels, date).len() ==> dels_have_key(
                dels,
                #[trigger] expired_keys(dels, date)[k],
            ),
    decreases dels.len(),
{
    if dels.len() == 0 {
    } else {
        let prev = dels.drop_last();
        lemma_expiry_props(prev, date);
        let rest = dels_retained(prev, date);
        let rest_ex = expired_keys(prev, date);
        assert forall|k: int| 0 <= k < rest.len() implies dels_have_key(
            dels,
            #[trigger] rest[k].hash,
        ) by {
            let w = choose|w: int| 0 <= w < prev.len() && prev[w].hash == rest[k].hash;
            assert(dels[w].hash == rest[k].hash);
        }
        assert forall|k: int| 0 <= k < rest_ex.len() implies dels_have_key(
            dels,
            #[trigger] rest_ex[k],
        ) by {
            let w = choose|w: int| 0 <= w < prev.len() && prev[w].hash == rest_ex[k];
            assert(dels[w].hash == rest_ex[k]);
        }
        if dels.last().delete_time >= date {
            assert(dels[dels.len() - 1] == dels_retained(dels, date).last());
        } else {
            assert(dels[dels.len() - 1].hash == expired_keys(dels, date).last());
        }
        if forall|i: int, j: int| 0 <= i < j < dels.len() ==> dels[i].hash != dels[j].hash {
            assert forall|i: int, j: int| 0 <= i < j < prev.len() implies prev[i].hash
                != prev[j].hash by {
                assert(dels[i] == prev[i] && dels[j] == prev[j]);
            }
            assert forall|i: int| 0 <= i < rest.len() implies rest[i].hash
                != dels.last().hash by {
                let w = choose|w: int| 0 <= w < prev.len() && prev[w].hash == rest[i].hash;
                assert(dels[w] == prev[w]);
                assert(dels[w].hash != dels[dels.len() - 1].hash);
            }
            assert forall|i: int| 0 <= i < rest_ex.len() implies rest_ex[i]
                != dels.last().hash by {
                let w = choose|w: int| 0 <= w < prev.len() && prev[w].hash == rest_ex[i];
                assert(dels[w] == prev[w]);
                assert(dels[w].hash != dels[dels.len() - 1].hash);
            }
            if dels.last().delete_time >= date {
                assert forall|k: int| 0 <= k < dels_retained(dels, date).len() implies
                    !contains_key_seq(
                    expired_keys(dels, date),
                    #[trigger] dels_retained(dels, date)[k].hash,
                ) by {
                    let h = dels_retained(dels, date)[k].hash;
                    if contains_key_seq(expired_keys(dels, date), h) {
                        let w = choose|w: int|
                            0 <= w < expired_keys(dels, date).len() && expired_keys(dels, date)[w]
                                == h;
                        assert(rest_ex[w] == h);
                        if k < rest.len() {
                            assert(!contains_key_seq(rest_ex, rest[k].hash));
                        } else {
                            assert(h == dels.last().hash);
                        }
                    }
                }
            } else {
                assert forall|k: int| 0 <= k < dels_retained(dels, date).len() implies
                    !contains_key_seq(
                    expired_keys(dels, date),
                    #[trigger] dels_retained(dels, date)[k].hash,
                ) by {
                    let h = dels_retained(dels, date)[k].hash;
                    assert(rest[k].hash == h);
                    if contains_key_seq(expired_keys(dels, date), h) {
                        let w = choose|w: int|
                            0 <= w < expired_keys(dels, date).len() && expired_keys(dels, date)[w]
                                == h;
                        if w < rest_ex.len() {
                            assert(!contains_key_seq(rest_ex, rest[k].hash));
                            assert(rest_ex[w] == h);
                        } else {
                            assert(h == dels.last().hash);
                        }
                    }
                }
            }
        }
    }
}

/// A row after a prefix rewrite: a row whose path starts with `oldp` gets
/// the prefix replaced by `newp` and is re-keyed with the hash of its new
/// path; any other row stands unchanged.
pub open spec fn upd_row(v: RowView, oldp: Seq<char>, newp: Seq<char>) -> RowView {
    if is_prefix_of(oldp, v.path) {
        RowView {
            key: hash_hex_of(replace_prefix(v.path, oldp, newp)),
            path: replace_prefix(v.path, oldp, newp),
            is_dir: v.is_dir,
        }
    } else {
        v
    }
}

/// The whole table after a prefix rewrite.
pub open spec fn upd_rows(rows: Seq<RowView>, oldp: Seq<char>, newp: Seq<char>) -> Seq<RowView> {
    rows.map_values(|v: RowView| upd_row(v, oldp, newp))
}

/// The new hash keys of the rows a prefix rewrite selects, in table order.
pub open spec fn rekeyed_hashes(rows: Seq<RowView>, oldp: Seq<char>, newp: Seq<char>) -> Seq<
    Seq<char>,
>
    decreases rows.len(),
{
    if rows.len() == 0 {
        Seq::<Seq<char>>::empty()
    } else {
        let rest = rekeyed_hashes(rows.drop_last(), oldp, newp);
        if is_prefix_of(oldp, rows.last().path) {
            rest.push(upd_row(rows.last(), oldp, newp).key)
        } else {
            rest
        }
    }
}

/// The rows a prefix rewrite would select, already rewritten, in table order.
pub open spec fn copied_rows(rows: Seq<RowView>, fromp: Seq<char>, top: Seq<char>) -> Seq<RowView>
    decreases rows.len(),
{
    if rows.len() == 0 {
        Seq::<RowView>::empty()
    } else {
        let rest = copied_rows(rows.drop_last(), fromp, top);
        if is_prefix_of(fromp, rows.last().path) {
            rest.push(upd_row(rows.last(), fromp, top))
        } else {
            rest
        }
    }
}

/// What a sidecar reference becomes under a prefix rewrite: the new key of
/// the row it referenced, or itself when no row carries it.
pub open spec fn rekey_of(
    rows: Seq<RowView>,
    oldp: Seq<char>,
    newp: Seq<char>,
    h: Seq<char>,
) -> Seq<char> {
    if has_key(rows, h) {
        upd_row(rows[key_index(rows, h)], oldp, newp).key
    } else {
        h
    }
}

/// A prefix rewrite leaves the table consistent: keys and paths stay unique.
pub open spec fn upd_ok(rows: Seq<RowView>, oldp: Seq<char>, newp: Seq<char>) -> bool {
    keys_unique(upd_rows(rows, oldp, newp)) && paths_unique(upd_rows(rows, oldp, newp))
}

/// A prefix copy leaves the table consistent: keys and paths of the old and
/// the copied rows together stay unique.
pub open spec fn copy_ok(rows: Seq<RowView>, fromp: Seq<char>, top: Seq<char>) -> bool {
    keys_unique(rows + copied_rows(rows, fromp, top)) && paths_unique(
        rows + copied_rows(rows, fromp, top),
    )
}

/// A key found among rows is still found after a row is appended.
pub proof fn lemma_has_key_push(rows: Seq<RowView>, row: RowView, key: Seq<char>)
    requires
        has_key(rows, key),
    ensures
        has_key(rows.push(row), key),
{
    let w = choose|w: int| 0 <= w < rows.len() && rows[w].key == key;
    assert(rows.push(row)[w].key == key);
}

/// The in-memory path index of one bucket: the path table and its favorite
/// and trash sidecars, the shape the embedded database schema gives them.
#[derive(Debug)]
pub struct BucketDB {
    pub paths: Vec<KeyPath>,
    pub deletes: Vec<DeleteRow>,
    pub favorites: Vec<String>,
}

impl BucketDB {
    /// The view of the path table.
    pub open spec fn rows(&self) -> Seq<RowView> {
        rows_view(self.paths@)
    }

    /// The view of the trash sidecar.
    pub open spec fn dels(&self) -> Seq<DelView> {
        dels_view(self.deletes@)
    }

    /// The view of the favorite sidecar.
    pub open spec fn favs(&self) -> Seq<Seq<char>> {
        self.favorites.deep_view()
    }

    /// The index is well formed: keys and paths are unique, and each sidecar
    /// row references an existing path row, once.
    pub open spec fn wf(&self) -> bool {
        &&& keys_unique(self.rows())
        &&& paths_unique(self.rows())
        &&& forall|i: int, j: int|
            0 <= i < j < self.dels().len() ==> self.dels()[i].hash != self.dels()[j].hash
        &&& forall|i: int| 0 <= i < self.dels().len() ==> has_key(self.rows(), self.dels()[i].hash)
        &&& forall|i: int, j: int|
            0 <= i < j < self.favs().len() ==> self.favs()[i] != self.favs()[j]
        &&& forall|i: int| 0 <= i < self.favs().len() ==> has_key(self.rows(), self.favs()[i])
    }

    /// A fresh, empty index: the schema's three tables with no rows.
    pub fn init() -> (db: BucketDB)
        ensures
            db.rows() == Seq::<RowView>::empty(),
            db.dels() == Seq::<DelView>::empty(),
            db.favs() == Seq::<Seq<char>>::empty(),
            db.wf(),
    {
        let db = BucketDB { paths: Vec::new(), deletes: Vec::new(), favorites: Vec::new() };
        proof {
            assert(db.rows() =~= Seq::<RowView>::empty());
            assert(db.dels() =~= Seq::<DelView>::empty());
            assert(db.favs() =~= Seq::<Seq<char>>::empty());
        }
        db
    }

    /// The index of the row carrying this key, scanning in order.
    pub(crate) fn find_key_index(rows: &Vec<KeyPath>, key: &String) -> (r: Option<usize>)
        ensures
            match r {
                Some(i) => (i as nat) < rows@.len() && rows@[i as int]@.key == key@,
                None => !has_key(rows_view(rows@), key@),
            },
    {
        let n: usize = rows.len();
        let mut i: usize = 0;
        while i < n
            invariant
                i <= n,
                n == rows@.len(),
                forall|k: int| 0 <= k < i ==> rows@[k]@.key != key@,
            decreases n - i,
        {
            if rows[i].key.eq(key) {
                return Some(i);
            }
            i += 1;
        }
        proof {
            assert forall|k: int| 0 <= k < rows_view(rows@).len() implies rows_view(rows@)[k].key
                != key@ by {
                assert(rows_view(rows@)[k] == rows@[k]@);
            }
        }
        None
    }

    /// Inserts a row into the path table. Fails with `AlreadyExists`, leaving
    /// the index unchanged, when a row with the same key or path is present.
    pub fn add_key(&mut self, key: &KeyPath) -> (r: Result<(), BucketError>)
        requires
            old(self).wf(),
        ensures
            final (self).wf(),
            has_key(old(self).rows(), key@.key) || has_path(old(self).rows(), key@.path) ==> r
                == Err::<(), BucketError>(BucketError::AlreadyExists) && *final (self) == *old(
                self,
            ),
            !(has_key(old(self).rows(), key@.key) || has_path(old(self).rows(), key@.path)) ==> r
                == Ok::<(), BucketError>(()) && final (self).rows() == old(self).rows().push(key@)
                && final (self).dels() == old(self).dels() && final (self).favs() == old(
                self,
            ).favs(),
    {
        let n: usize = self.paths.len();
        let mut i: usize = 0;
        while i < n
            invariant
                *self == *old(self),
                old(self).wf(),
                i <= n,
                n == self.paths@.len(),
                forall|k: int|
                    0 <= k < i ==> self.paths@[k]@.key != key@.key && self.paths@[k]@.path
                        != key@.path,
            decreases n - i,
        {
            if self.paths[i].key.eq(&key.key) || self.paths[i].path.eq(&key.path) {
                proof {
                    let rv = self.rows()[i as int];
                    assert(rv == self.paths@[i as int]@);
                    if rv.key == key@.key {
                        assert(has_key(old(self).rows(), key@.key));
                    } else {
                        assert(has_path(old(self).rows(), key@.path));
                    }
                }
                return Err(BucketError::AlreadyExists);
            }
            i += 1;
        }
        proof {
            assert forall|k: int| 0 <= k < self.rows().len() implies self.rows()[k].key != key@.key
                && self.rows()[k].path != key@.path by {
                assert(self.rows()[k] == self.paths@[k]@);
            }
        }
        let row = KeyPath { key: key.key.clone(), path: key.path.clone(), is_dir: key.is_dir };
        proof {
            assert(row@ == key@);
        }
        self.paths.push(row);
        proof {
            assert(self.rows() =~= old(self).rows().push(key@));
            assert(self.dels() =~= old(self).dels());
            assert(self.favs() =~= old(self).favs());
            assert forall|i: int| 0 <= i < self.dels().len() implies has_key(
                self.rows(),
                self.dels()[i].hash,
            ) by {
                assert(self.dels()[i] == old(self).dels()[i]);
                assert(has_key(old(self).rows(), old(self).dels()[i].hash));
                lemma_has_key_push(old(self).rows(), key@, old(self).dels()[i].hash);
            }
            assert forall|i: int| 0 <= i < self.favs().len() implies has_key(
                self.rows(),
                self.favs()[i],
            ) by {
                assert(self.favs()[i] == old(self).favs()[i]);
                assert(has_key(old(self).rows(), old(self).favs()[i]));
                lemma_has_key_push(old(self).rows(), key@, old(self).favs()[i]);
            }
        }
        Ok(())
    }

    /// Marks the entry with this key as a favorite. Fails with `NotFound`
    /// when no row carries the key, and with `AlreadyExists` when the entry
    /// is a favorite already; either failure leaves the index unchanged.
    pub fn set_favorite(&mut self, key: &String) -> (r: Result<(), BucketError>)
        requires
            old(self).wf(),
        ensures
            final (self).wf(),
            !has_key(old(self).rows(), key@) ==> r == Err::<(), BucketError>(BucketError::NotFound)
                && *final (self) == *old(self),
            has_key(old(self).rows(), key@) && contains_key_seq(old(self).favs(), key@) ==> r
                == Err::<(), BucketError>(BucketError::AlreadyExists) && *final (self) == *old(
                self,
            ),
            has_key(old(self).rows(), key@) && !contains_key_seq(old(self).favs(), key@) ==> r
                == Ok::<(), BucketError>(()) && final (self).favs() == old(self).favs().push(key@)
                && final (self).rows() == old(self).rows() && final (self).dels() == old(
                self,
            ).dels(),
    {
        match BucketDB::find_key_index(&self.paths, key) {
            None => {
                return Err(BucketError::NotFound);
            },
            Some(i) => {
                proof {
                    assert(self.rows()[i as int].key == key@);
                }
            },
        }
        let n: usize = self.favorites.len();
        let mut i: usize = 0;
        while i < n
            invariant
                *self == *old(self),
                old(self).wf(),
                i <= n,
                n == self.favorites@.len(),
                forall|k: int| 0 <= k < i ==> self.favs()[k] != key@,
            decreases n - i,
        {
            if self.favorites[i].eq(key) {
                proof {
                    assert(self.favs()[i as int] == self.favorites@[i as int]@);
                }
                return Err(BucketError::AlreadyExists);
            }
            proof {
                assert(self.favs()[i as int] == self.favorites@[i as int]@);
            }
            i += 1;
        }
        self.favorites.push(key.clone());
        proof {
            assert(self.favs() =~= old(self).favs().push(key@));
            assert(self.rows() =~= old(self).rows());
            assert(self.dels() =~= old(self).dels());
        }
        Ok(())
    }

    /// Clears the favorite mark of the entry with this key; clearing an
    /// absent mark is not an error.
    pub fn unset_favorite(&mut self, key: &String) -> (r: Result<(), BucketError>)
        requires
            old(self).wf(),
        ensures
            final (self).wf(),
            r == Ok::<(), BucketError>(()),
            final (self).favs() == keys_without(old(self).favs(), key@),
            final (self).rows() == old(self).rows(),
            final (self).dels() == old(self).dels(),
    {
        let n: usize = self.favorites.len();
        let mut kept: Vec<String> = Vec::new();
        let mut i: usize = 0;
        while i < n
            invariant
                *self == *old(self),
                old(self).wf(),
                i <= n,
                n == self.favorites@.len(),
                kept.deep_view() == keys_without(self.favs().take(i as int), key@),
            decreases n - i,
        {
            proof {
                assert(self.favs().take(i + 1).drop_last() =~= self.favs().take(i as int));
                assert(self.favs().take(i + 1).last() == self.favs()[i as int]);
                assert(self.favs()[i as int] == self.favorites@[i as int]@);
            }
            if !self.favorites[i].eq(key) {
                kept.push(self.favorites[i].clone());
            }
            proof {
                assert(kept.deep_view() =~= keys_without(self.favs().take(i + 1), key@));
            }
            i += 1;
        }
        proof {
            assert(self.favs().take(n as int) =~= self.favs());
            lemma_keys_without_props(old(self).favs(), key@);
        }
        self.favorites = kept;
        proof {
            assert forall|k: int| 0 <= k < self.favs().len() implies has_key(
                self.rows(),
                self.favs()[k],
            ) by {
                assert(contains_key_seq(old(self).favs(), self.favs()[k]));
                let w = choose|w: int|
                    0 <= w < old(self).favs().len() && old(self).favs()[w] == self.favs()[k];
                assert(has_key(old(self).rows(), old(self).favs()[w]));
            }
            assert(keys_unique(self.rows()));
            assert(paths_unique(self.rows()));
            assert(self.deletes@ == old(self).deletes@);
            assert(self.dels() == old(self).dels());
            assert(forall|i: int, j: int|
                0 <= i < j < self.dels().len() ==> self.dels()[i].hash != self.dels()[j].hash);
            assert(forall|i: int|
                0 <= i < self.dels().len() ==> has_key(self.rows(), self.dels()[i].hash));
            assert(forall|i: int, j: int|
                0 <= i < j < old(self).favs().len() ==> old(self).favs()[i] != old(self).favs()[j]);
            assert(forall|i: int, j: int|
                0 <= i < j < self.favs().len() ==> self.favs()[i] != self.favs()[j]);
        }
        Ok(())
    }

    /// Inserts a trash row for this key, expiring at `date`. Fails with
    /// `NotFound` when no row carries the key, and with `AlreadyExists` when
    /// the entry is already trashed; either failure leaves the index
    /// unchanged.
    pub fn set_delete(&mut self, key: &String, date: i64) -> (r: Result<(), BucketError>)
        requires
            old(self).wf(),
        ensures
            final (self).wf(),
            !has_key(old(self).rows(), key@) ==> r == Err::<(), BucketError>(BucketError::NotFound)
                && *final (self) == *old(self),
            has_key(old(self).rows(), key@) && dels_have_key(old(self).dels(), key@) ==> r == Err::<
                (),
                BucketError,
            >(BucketError::AlreadyExists) && *final (self) == *old(self),
            has_key(old(self).rows(), key@) && !dels_have_key(old(self).dels(), key@) ==> r == Ok::<
                (),
                BucketError,
            >(()) && final (self).dels() == old(self).dels().push(
                DelView { hash: key@, delete_time: date },
            ) && final (self).rows() == old(self).rows() && final (self).favs() == old(
                self,
            ).favs(),
    {
        match BucketDB::find_key_index(&self.paths, key) {
            None => {
                return Err(BucketError::NotFound);
            },
            Some(i) => {
                proof {
                    assert(self.rows()[i as int].key == key@);
                }
            },
        }
        let n: usize = self.deletes.len();
        let mut i: usize = 0;
        while i < n
            invariant
                *self == *old(self),
                old(self).wf(),
                i <= n,
                n == self.deletes@.len(),
                forall|k: int| 0 <= k < i ==> self.dels()[k].hash != key@,
            decreases n - i,
        {
            if self.deletes[i].hash.eq(key) {
                proof {
                    assert(self.dels()[i as int] == self.deletes@[i as int]@);
                }
                return Err(BucketError::AlreadyExists);
            }
            proof {
                assert(self.dels()[i as int] == self.deletes@[i as int]@);
            }
            i += 1;
        }
        let row = DeleteRow { hash: key.clone(), delete_time: date };
        proof {
            assert(row@ == (DelView { hash: key@, delete_time: date }));
        }
        self.deletes.push(row);
        proof {
            assert(self.dels() =~= old(self).dels().push(
                DelView { hash: key@, delete_time: date },
            ));
            assert(self.rows() =~= old(self).rows());
            assert(self.favs() =~= old(self).favs());
        }
        Ok(())
    }

    /// Removes the trash row for this key; removing an absent row is not an
    /// error.
    pub fn restore_delete(&mut self, key: &String) -> (r: Result<(), BucketError>)
        requires
            old(self).wf(),
        ensures
            final (self).wf(),
            r == Ok::<(), BucketError>(()),
            final (self).dels() == dels_without(old(self).dels(), key@),
            final (self).rows() == old(self).rows(),
            final (self).favs() == old(self).favs(),
    {
        let n: usize = self.deletes.len();
        let mut kept: Vec<DeleteRow> = Vec::new();
        let mut i: usize = 0;
        while i < n
            invariant
                *self == *old(self),
                old(self).wf(),
                i <= n,
                n == self.deletes@.len(),
                dels_view(kept@) == dels_without(self.dels().take(i as int), key@),
            decreases n - i,
        {
            proof {
                assert(self.dels().take(i + 1).drop_last() =~= self.dels().take(i as int));
                assert(self.dels().take(i + 1).last() == self.dels()[i as int]);
                assert(self.dels()[i as int] == self.deletes@[i as int]@);
            }
            if !self.deletes[i].hash.eq(key) {
                let row = DeleteRow {
                    hash: self.deletes[i].hash.clone(),
                    delete_time: self.deletes[i].delete_time,
                };
                proof {
                    assert(row@ == self.deletes@[i as int]@);
                }
                kept.push(row);
            }
            proof {
                assert(dels_view(kept@) =~= dels_without(self.dels().take(i + 1), key@));
            }
            i += 1;
        }
        proof {
            assert(self.dels().take(n as int) =~= self.dels());
            lemma_dels_without_props(old(self).dels(), key@);
        }
        self.deletes = kept;
        proof {
            assert(self.dels() == dels_without(old(self).dels(), key@));
            assert(self.favorites@ == old(self).favorites@);
            assert(self.favs() == old(self).favs());
            assert forall|k: int| 0 <= k < self.dels().len() implies has_key(
                self.rows(),
                self.dels()[k].hash,
            ) by {
                assert(dels_have_key(old(self).dels(), self.dels()[k].hash));
                let w = choose|w: int|
                    0 <= w < old(self).dels().len() && old(self).dels()[w].hash == self.dels()[k].hash;
                assert(has_key(old(self).rows(), old(self).dels()[w].hash));
            }
            assert(forall|i: int|
                0 <= i < self.favs().len() ==> has_key(self.rows(), self.favs()[i]));
        }
        Ok(())
    }

    /// The favorite entries' paths, joined through the path table, in the
    /// order the favorites were set.
    pub fn get_favorites(&self) -> (r: Result<Vec<String>, BucketError>)
        requires
            self.wf(),
        ensures
            r matches Ok(v) && v.deep_view() == joined_paths(self.rows(), self.favs()),
    {
        let n: usize = self.favorites.len();
        let mut out: Vec<String> = Vec::new();
        let mut i: usize = 0;
        while i < n
            invariant
                self.wf(),
                i <= n,
                n == self.favorites@.len(),
                out.deep_view() == joined_paths(self.rows(), self.favs().take(i as int)),
            decreases n - i,
        {
            proof {
                assert(self.favs().take(i + 1).drop_last() =~= self.favs().take(i as int));
                assert(self.favs().take(i + 1).last() == self.favs()[i as int]);
                assert(self.favs()[i as int] == self.favorites@[i as int]@);
            }
            match BucketDB::find_key_index(&self.paths, &self.favorites[i]) {
                Some(j) => {
                    proof {
                        assert(self.rows()[j as int].key == self.favs()[i as int]);
                        let w = key_index(self.rows(), self.favs()[i as int]);
                        if w != j {
                            assert(self.rows()[w].key == self.favs()[i as int]);
                        }
                    }
                    out.push(self.paths[j].path.clone());
                },
                None => {},
            }
            proof {
                assert(out.deep_view() =~= joined_paths(self.rows(), self.favs().take(i + 1)));
            }
            i += 1;
        }
        proof {
            assert(self.favs().take(n as int) =~= self.favs());
        }
        Ok(out)
    }

    /// The trashed entries' paths, joined through the path table, in the
    /// order the trash rows were inserted.
    pub fn get_deletes(&self) -> (r: Result<Vec<String>, BucketError>)
        requires
            self.wf(),
        ensures
            r matches Ok(v) && v.deep_view() == joined_paths(self.rows(), dels_keys(self.dels())),
    {
        let n: usize = self.deletes.len();
        let mut out: Vec<String> = Vec::new();
        let mut i: usize = 0;
        while i < n
            invariant
                self.wf(),
                i <= n,
                n == self.deletes@.len(),
                out.deep_view() == joined_paths(self.rows(), dels_keys(self.dels()).take(i as int)),
            decreases n - i,
        {
            proof {
                assert(dels_keys(self.dels()).take(i + 1).drop_last() =~= dels_keys(
                    self.dels(),
                ).take(i as int));
                assert(dels_keys(self.dels()).take(i + 1).last() == dels_keys(self.dels())[i as int]);
                assert(dels_keys(self.dels())[i as int] == self.deletes@[i as int]@.hash);
            }
            match BucketDB::find_key_index(&self.paths, &self.deletes[i].hash) {
                Some(j) => {
                    proof {
                        assert(self.rows()[j as int].key == dels_keys(self.dels())[i as int]);
                        let w = key_index(self.rows(), dels_keys(self.dels())[i as int]);
                        if w != j {
                            assert(self.rows()[w].key == dels_keys(self.dels())[i as int]);
                        }
                    }
                    out.push(self.paths[j].path.clone());
                },
                None => {},
            }
            proof {
                assert(out.deep_view() =~= joined_paths(
                    self.rows(),
                    dels_keys(self.dels()).take(i + 1),
                ));
            }
            i += 1;
        }
        proof {
            assert(dels_keys(self.dels()).take(n as int) =~= dels_keys(self.dels()));
        }
        Ok(out)
    }

    /// Deletes the path row with this key; the sidecar rows that reference it
    /// go with it, as the schema's cascades would take them. Deleting an
    /// absent row is not an error.
    pub fn remove_trash(&mut self, key: &String) -> (r: Result<(), BucketError>)
        requires
            old(self).wf(),
        ensures
            final (self).wf(),
            r == Ok::<(), BucketError>(()),
            final (self).rows() == rows_without_key(old(self).rows(), key@),
            final (self).dels() == dels_without(old(self).dels(), key@),
            final (self).favs() == keys_without(old(self).favs(), key@),
    {
        let n: usize = self.paths.len();
        let mut kept: Vec<KeyPath> = Vec::new();
        let mut i: usize = 0;
        while i < n
            invariant
                *self == *old(self),
                old(self).wf(),
                i <= n,
                n == self.paths@.len(),
                rows_view(kept@) == rows_without_key(self.rows().take(i as int), key@),
            decreases n - i,
        {
            proof {
                assert(self.rows().take(i + 1).drop_last() =~= self.rows().take(i as int));
                assert(self.rows().take(i + 1).last() == self.rows()[i as int]);
                assert(self.rows()[i as int] == self.paths@[i as int]@);
            }
            if !self.paths[i].key.eq(key) {
                let row = KeyPath {
                    key: self.paths[i].key.clone(),
                    path: self.paths[i].path.clone(),
                    is_dir: self.paths[i].is_dir,
                };
                proof {
                    assert(row@ == self.paths@[i as int]@);
                }
                kept.push(row);
            }
            proof {
                assert(rows_view(kept@) =~= rows_without_key(self.rows().take(i + 1), key@));
            }
            i += 1;
        }
        proof {
            assert(self.rows().take(n as int) =~= self.rows());
            lemma_rows_without_key_props(old(self).rows(), key@);
            lemma_dels_without_props(old(self).dels(), key@);
            lemma_keys_without_props(old(self).favs(), key@);
        }
        self.paths = kept;
        BucketDB::remove_key_from_dels(&mut self.deletes, key);
        BucketDB::remove_key_from_strings(&mut self.favorites, key);
        proof {
            assert(self.rows() == rows_without_key(old(self).rows(), key@));
            assert(self.dels() == dels_without(old(self).dels(), key@));
            assert(self.favs() == keys_without(old(self).favs(), key@));
            assert forall|k: int| 0 <= k < self.dels().len() implies has_key(
                self.rows(),
                self.dels()[k].hash,
            ) by {
                assert(dels_have_key(old(self).dels(), self.dels()[k].hash));
                let w = choose|w: int|
                    0 <= w < old(self).dels().len() && old(self).dels()[w].hash == self.dels()[k].hash;
                assert(has_key(old(self).rows(), old(self).dels()[w].hash));
                assert(self.dels()[k].hash != key@);
                assert(has_key(self.rows(), self.dels()[k].hash));
            }
            assert forall|k: int| 0 <= k < self.favs().len() implies has_key(
                self.rows(),
                self.favs()[k],
            ) by {
                assert(contains_key_seq(old(self).favs(), self.favs()[k]));
                let w = choose|w: int|
                    0 <= w < old(self).favs().len() && old(self).favs()[w] == self.favs()[k];
                assert(has_key(old(self).rows(), old(self).favs()[w]));
                assert(self.favs()[k] != key@);
                assert(has_key(self.rows(), self.favs()[k]));
            }
        }
        Ok(())
    }

    /// Removes every trash row keyed `key` from the given trash table.
    fn remove_key_from_dels(v: &mut Vec<DeleteRow>, key: &String)
        ensures
            dels_view(final (v)@) == dels_without(dels_view(old(v)@), key@),
    {
        let n: usize = v.len();
        let mut kept: Vec<DeleteRow> = Vec::new();
        let mut i: usize = 0;
        while i < n
            invariant
                *v == *old(v),
                i <= n,
                n == v@.len(),
                dels_view(kept@) == dels_without(dels_view(v@).take(i as int), key@),
            decreases n - i,
        {
            proof {
                assert(dels_view(v@).take(i + 1).drop_last() =~= dels_view(v@).take(i as int));
                assert(dels_view(v@).take(i + 1).last() == dels_view(v@)[i as int]);
                assert(dels_view(v@)[i as int] == v@[i as int]@);
            }
            if !v[i].hash.eq(key) {
                let row = DeleteRow { hash: v[i].hash.clone(), delete_time: v[i].delete_time };
                proof {
                    assert(row@ == v@[i as int]@);
                }
                kept.push(row);
            }
            proof {
                assert(dels_view(kept@) =~= dels_without(dels_view(v@).take(i + 1), key@));
            }
            i += 1;
        }
        proof {
            assert(dels_view(v@).take(n as int) =~= dels_view(v@));
        }
        *v = kept;
    }

    /// Removes every occurrence of `key` from the given key list.
    fn remove_key_from_strings(v: &mut Vec<String>, key: &String)
        ensures
            final (v).deep_view() == keys_without(old(v).deep_view(), key@),
    {
        let n: usize = v.len();
        let mut kept: Vec<String> = Vec::new();
        let mut i: usize = 0;
        while i < n
            invariant
                *v == *old(v),
                i <= n,
                n == v@.len(),
                kept.deep_view() == keys_without(v.deep_view().take(i as int), key@),
            decreases n - i,
        {
            proof {
                assert(v.deep_view().take(i + 1).drop_last() =~= v.deep_view().take(i as int));
                assert(v.deep_view().take(i + 1).last() == v.deep_view()[i as int]);
                assert(v.deep_view()[i as int] == v@[i as int]@);
            }
            if !v[i].eq(key) {
                kept.push(v[i].clone());
            }
            proof {
                assert(kept.deep_view() =~= keys_without(v.deep_view().take(i + 1), key@));
            }
            i += 1;
        }
        proof {
            assert(v.deep_view().take(n as int) =~= v.deep_view());
        }
        *v = kept;
    }

    /// Whether the key list holds this key.
    pub(crate) fn contains_string(v: &Vec<String>, key: &String) -> (r: bool)
        ensures
            r == contains_key_seq(v.deep_view(), key@),
    {
        let n: usize = v.len();
        let mut i: usize = 0;
        while i < n
            invariant
                i <= n,
                n == v@.len(),
                forall|k: int| 0 <= k < i ==> v.deep_view()[k] != key@,
            decreases n - i,
        {
            if v[i].eq(key) {
                proof {
                    assert(v.deep_view()[i as int] == v@[i as int]@);
                }
                return true;
            }
            proof {
                assert(v.deep_view()[i as int] == v@[i as int]@);
            }
            i += 1;
        }
        false
    }

    /// Empties the trash: returns the paths of all trashed entries and
    /// deletes their path rows, cascades included.
    pub fn clear_trash(&mut self) -> (r: Result<Vec<String>, BucketError>)
        requires
            old(self).wf(),
        ensures
            final (self).wf(),
            r matches Ok(v) && v.deep_view() == joined_paths(
                old(self).rows(),
                dels_keys(old(self).dels()),
            ),
            final (self).rows() == rows_without_keys(old(self).rows(), dels_keys(old(self).dels())),
            final (self).dels() == Seq::<DelView>::empty(),
            final (self).favs() == keys_without_keys(old(self).favs(), dels_keys(old(self).dels())),
    {
        let out: Vec<String> = match self.get_deletes() {
            Ok(v) => v,
            Err(e) => {
                return Err(e);
            },
        };
        let n: usize = self.deletes.len();
        let mut ks: Vec<String> = Vec::new();
        let mut i: usize = 0;
        while i < n
            invariant
                *self == *old(self),
                old(self).wf(),
                i <= n,
                n == self.deletes@.len(),
                ks@.len() == i,
                forall|k: int| 0 <= k < i ==> ks@[k]@ == dels_keys(self.dels())[k],
            decreases n - i,
        {
            ks.push(self.deletes[i].hash.clone());
            proof {
                assert(dels_keys(self.dels())[i as int] == self.deletes@[i as int]@.hash);
            }
            i += 1;
        }
        proof {
            assert(ks.deep_view() =~= dels_keys(self.dels()));
        }
        self.remove_rows_with_keys(&ks);
        self.deletes = Vec::new();
        let mut favs_kept: Vec<String> = Vec::new();
        let fn_count: usize = self.favorites.len();
        let mut i: usize = 0;
        while i < fn_count
            invariant
                self.favorites@ == old(self).favorites@,
                i <= fn_count,
                fn_count == self.favorites@.len(),
                ks.deep_view() == dels_keys(old(self).dels()),
                favs_kept.deep_view() == keys_without_keys(
                    self.favs().take(i as int),
                    dels_keys(old(self).dels()),
                ),
            decreases fn_count - i,
        {
            proof {
                assert(self.favs().take(i + 1).drop_last() =~= self.favs().take(i as int));
                assert(self.favs().take(i + 1).last() == self.favs()[i as int]);
                assert(self.favs()[i as int] == self.favorites@[i as int]@);
            }
            if !BucketDB::contains_string(&ks, &self.favorites[i]) {
                favs_kept.push(self.favorites[i].clone());
            }
            proof {
                assert(favs_kept.deep_view() =~= keys_without_keys(
                    self.favs().take(i + 1),
                    dels_keys(old(self).dels()),
                ));
            }
            i += 1;
        }
        proof {
            assert(self.favs().take(fn_count as int) =~= self.favs());
            assert(self.favs() == old(self).favs());
        }
        self.favorites = favs_kept;
        proof {
            assert(self.dels() =~= Seq::<DelView>::empty());
            lemma_rows_without_keys_props(old(self).rows(), dels_keys(old(self).dels()));
            lemma_keys_without_keys_props(old(self).favs(), dels_keys(old(self).dels()));
            assert forall|k: int| 0 <= k < self.favs().len() implies has_key(
                self.rows(),
                self.favs()[k],
            ) by {
                assert(contains_key_seq(old(self).favs(), self.favs()[k]));
                let w = choose|w: int|
                    0 <= w < old(self).favs().len() && old(self).favs()[w] == self.favs()[k];
                assert(has_key(old(self).rows(), old(self).favs()[w]));
                assert(!contains_key_seq(dels_keys(old(self).dels()), self.favs()[k]));
                assert(has_key(self.rows(), self.favs()[k]));
            }
        }
        Ok(out)
    }

    /// Returns the paths of the trash rows whose retention expires before
    /// `date` and deletes their path rows, cascades included; later trash
    /// rows stay.
    pub fn remove_date_trash(&mut self, date: i64) -> (r: Result<Vec<String>, BucketError>)
        requires
            old(self).wf(),
        ensures
            final (self).wf(),
            r matches Ok(v) && v.deep_view() == joined_paths(
                old(self).rows(),
                expired_keys(old(self).dels(), date),
            ),
            final (self).rows() == rows_without_keys(
                old(self).rows(),
                expired_keys(old(self).dels(), date),
            ),
            final (self).dels() == dels_retained(old(self).dels(), date),
            final (self).favs() == keys_without_keys(
                old(self).favs(),
                expired_keys(old(self).dels(), date),
            ),
    {
        let n: usize = self.deletes.len();
        let mut out: Vec<String> = Vec::new();
        let mut ks: Vec<String> = Vec::new();
        let mut kept: Vec<DeleteRow> = Vec::new();
        let mut i: usize = 0;
        while i < n
            invariant
                *self == *old(self),
                old(self).wf(),
                i <= n,
                n == self.deletes@.len(),
                ks.deep_view() == expired_keys(self.dels().take(i as int), date),
                out.deep_view() == joined_paths(
                    self.rows(),
                    expired_keys(self.dels().take(i as int), date),
                ),
                dels_view(kept@) == dels_retained(self.dels().take(i as int), date),
            decreases n - i,
        {
            proof {
                assert(self.dels().take(i + 1).drop_last() =~= self.dels().take(i as int));
                assert(self.dels().take(i + 1).last() == self.dels()[i as int]);
                assert(self.dels()[i as int] == self.deletes@[i as int]@);
            }
            if self.deletes[i].delete_time < date {
                ks.push(self.deletes[i].hash.clone());
                match BucketDB::find_key_index(&self.paths, &self.deletes[i].hash) {
                    Some(j) => {
                        proof {
                            assert(self.rows()[j as int].key == self.dels()[i as int].hash);
                            let w = key_index(self.rows(), self.dels()[i as int].hash);
                            if w != j {
                                assert(self.rows()[w].key == self.dels()[i as int].hash);
                            }
                        }
                        out.push(self.paths[j].path.clone());
                    },
                    None => {},
                }
                proof {
                    let exp1 = expired_keys(self.dels().take(i + 1), date);
                    assert(exp1.drop_last() =~= expired_keys(self.dels().take(i as int), date));
                    assert(ks.deep_view() =~= exp1);
                    assert(out.deep_view() =~= joined_paths(self.rows(), exp1));
                    assert(dels_view(kept@) =~= dels_retained(self.dels().take(i + 1), date));
                }
            } else {
                let row = DeleteRow {
                    hash: self.deletes[i].hash.clone(),
                    delete_time: self.deletes[i].delete_time,
                };
                proof {
                    assert(row@ == self.deletes@[i as int]@);
                }
                kept.push(row);
                proof {
                    assert(ks.deep_view() =~= expired_keys(self.dels().take(i + 1), date));
                    assert(out.deep_view() =~= joined_paths(
                        self.rows(),
                        expired_keys(self.dels().take(i + 1), date),
                    ));
                    assert(dels_view(kept@) =~= dels_retained(self.dels().take(i + 1), date));
                }
            }
            i += 1;
        }
        proof {
            assert(self.dels().take(n as int) =~= self.dels());
            lemma_expiry_props(old(self).dels(), date);
            lemma_rows_without_keys_props(old(self).rows(), expired_keys(old(self).dels(), date));
            lemma_keys_without_keys_props(old(self).favs(), expired_keys(old(self).dels(), date));
        }
        self.remove_rows_with_keys(&ks);
        self.deletes = kept;
        let mut favs_kept: Vec<String> = Vec::new();
        let fn_count: usize = self.favorites.len();
        let mut i: usize = 0;
        while i < fn_count
            invariant
                self.favorites@ == old(self).favorites@,
                i <= fn_count,
                fn_count == self.favorites@.len(),
                ks.deep_view() == expired_keys(old(self).dels(), date),
                favs_kept.deep_view() == keys_without_keys(
                    self.favs().take(i as int),
                    expired_keys(old(self).dels(), date),
                ),
            decreases fn_count - i,
        {
            proof {
                assert(self.favs().take(i + 1).drop_last() =~= self.favs().take(i as int));
                assert(self.favs().take(i + 1).last() == self.favs()[i as int]);
                assert(self.favs()[i as int] == self.favorites@[i as int]@);
            }
            if !BucketDB::contains_string(&ks, &self.favorites[i]) {
                favs_kept.push(self.favorites[i].clone());
            }
            proof {
                assert(favs_kept.deep_view() =~= keys_without_keys(
                    self.favs().take(i + 1),
                    expired_keys(old(self).dels(), date),
                ));
            }
            i += 1;
        }
        proof {
            assert(self.favs().take(fn_count as int) =~= self.favs());
            assert(self.favs() == old(self).favs());
        }
        self.favorites = favs_kept;
        proof {
            let exp = expired_keys(old(self).dels(), date);
            assert forall|k: int| 0 <= k < self.dels().len() implies has_key(
                self.rows(),
                self.dels()[k].hash,
            ) by {
                assert(dels_have_key(old(self).dels(), self.dels()[k].hash));
                let w = choose|w: int|
                    0 <= w < old(self).dels().len() && old(self).dels()[w].hash == self.dels()[k].hash;
                assert(has_key(old(self).rows(), old(self).dels()[w].hash));
                assert(!contains_key_seq(exp, self.dels()[k].hash));
                assert(has_key(self.rows(), self.dels()[k].hash));
            }
            assert forall|k: int| 0 <= k < self.favs().len() implies has_key(
                self.rows(),
                self.favs()[k],
            ) by {
                assert(contains_key_seq(old(self).favs(), self.favs()[k]));
                let w = choose|w: int|
                    0 <= w < old(self).favs().len() && old(self).favs()[w] == self.favs()[k];
                assert(has_key(old(self).rows(), old(self).favs()[w]));
                assert(!contains_key_seq(exp, self.favs()[k]));
                assert(has_key(self.rows(), self.favs()[k]));
            }
        }
        Ok(out)
    }

    /// Deletes every path row whose key is in `ks`, leaving the sidecars
    /// untouched.
    fn remove_rows_with_keys(&mut self, ks: &Vec<String>)
        ensures
            final (self).rows() == rows_without_keys(old(self).rows(), ks.deep_view()),
            final (self).deletes == old(self).deletes,
            final (self).favorites == old(self).favorites,
    {
        let n: usize = self.paths.len();
        let mut kept: Vec<KeyPath> = Vec::new();
        let mut i: usize = 0;
        while i < n
            invariant
                *self == *old(self),
                i <= n,
                n == self.paths@.len(),
                rows_view(kept@) == rows_without_keys(self.rows().take(i as int), ks.deep_view()),
            decreases n - i,
        {
            proof {
                assert(self.rows().take(i + 1).drop_last() =~= self.rows().take(i as int));
                assert(self.rows().take(i + 1).last() == self.rows()[i as int]);
                assert(self.rows()[i as int] == self.paths@[i as int]@);
            }
            if !BucketDB::contains_string(ks, &self.paths[i].key) {
                let row = KeyPath {
                    key: self.paths[i].key.clone(),
                    path: self.paths[i].path.clone(),
                    is_dir: self.paths[i].is_dir,
                };
                proof {
                    assert(row@ == self.paths@[i as int]@);
                }
                kept.push(row);
            }
            proof {
                assert(rows_view(kept@) =~= rows_without_keys(
                    self.rows().take(i + 1),
                    ks.deep_view(),
                ));
            }
            i += 1;
        }
        proof {
            assert(self.rows().take(n as int) =~= self.rows());
        }
        self.paths = kept;
    }

    /// Whether all keys and all paths in the given rows are pairwise
    /// distinct.
    fn rows_all_distinct(rows: &Vec<KeyPath>) -> (r: bool)
        ensures
            r == (keys_unique(rows_view(rows@)) && paths_unique(rows_view(rows@))),
    {
        let n: usize = rows.len();
        let mut i: usize = 0;
        while i < n
            invariant
                i <= n,
                n == rows@.len(),
                forall|a: int, b: int|
                    0 <= a < b < n && a < i ==> rows@[a]@.key != rows@[b]@.key && rows@[a]@.path
                        != rows@[b]@.path,
            decreases n - i,
        {
            let mut j: usize = i + 1;
            while j < n
                invariant
                    i < j <= n,
                    i < n,
                    n == rows@.len(),
                    forall|b: int|
                        i < b < j ==> rows@[i as int]@.key != rows@[b]@.key && rows@[i as int]@.path
                            != rows@[b]@.path,
                decreases n - j,
            {
                if rows[i].key.eq(&rows[j].key) || rows[i].path.eq(&rows[j].path) {
                    proof {
                        assert(rows_view(rows@)[i as int] == rows@[i as int]@);
                        assert(rows_view(rows@)[j as int] == rows@[j as int]@);
                    }
                    return false;
                }
                j += 1;
            }
            i += 1;
        }
        proof {
            assert forall|a: int, b: int| 0 <= a < b < rows_view(rows@).len() implies rows_view(
                rows@,
            )[a].key != rows_view(rows@)[b].key && rows_view(rows@)[a].path != rows_view(
                rows@,
            )[b].path by {
                assert(rows_view(rows@)[a] == rows@[a]@);
                assert(rows_view(rows@)[b] == rows@[b]@);
            }
        }
        true
    }

    /// Rewrites the prefix `old_path` to `new_path` on every row whose path
    /// starts with it, re-keying each rewritten row with the hash of its new
    /// path; sidecar rows follow their re-keyed entries, as the schema's
    /// cascades would carry them. Returns the new hash keys in table order.
    /// Fails with `AlreadyExists`, leaving the index unchanged, when the
    /// rewrite would produce a duplicate key or path.
    pub fn update_paths(&mut self, old_path: &String, new_path: &String) -> (r: Result<
        Vec<String>,
        BucketError,
    >)
        requires
            old(self).wf(),
        ensures
            final (self).wf(),
            !upd_ok(old(self).rows(), old_path@, new_path@) ==> r == Err::<Vec<String>, BucketError>(
                BucketError::AlreadyExists,
            ) && *final (self) == *old(self),
            upd_ok(old(self).rows(), old_path@, new_path@) ==> (r matches Ok(v) && v.deep_view()
                == rekeyed_hashes(old(self).rows(), old_path@, new_path@) && final (self).rows()
                == upd_rows(old(self).rows(), old_path@, new_path@) && final (self).dels().len()
                == old(self).dels().len() && (forall|i: int|
                0 <= i < old(self).dels().len() ==> final (self).dels()[i].hash == rekey_of(
                    old(self).rows(),
                    old_path@,
                    new_path@,
                    #[trigger] old(self).dels()[i].hash,
                ) && final (self).dels()[i].delete_time == old(self).dels()[i].delete_time) && final (
            self).favs().len() == old(self).favs().len() && (forall|i: int|
                0 <= i < old(self).favs().len() ==> final (self).favs()[i] == rekey_of(
                    old(self).rows(),
                    old_path@,
                    new_path@,
                    #[trigger] old(self).favs()[i],
                ))),
    {
        let n: usize = self.paths.len();
        let mut new_rows: Vec<KeyPath> = Vec::new();
        let mut hashes: Vec<String> = Vec::new();
        let mut i: usize = 0;
        while i < n
            invariant
                *self == *old(self),
                old(self).wf(),
                i <= n,
                n == self.paths@.len(),
                new_rows@.len() == i,
                forall|k: int|
                    0 <= k < i ==> #[trigger] new_rows@[k]@ == upd_row(
                        self.rows()[k],
                        old_path@,
                        new_path@,
                    ),
                hashes.deep_view() == rekeyed_hashes(
                    self.rows().take(i as int),
                    old_path@,
                    new_path@,
                ),
            decreases n - i,
        {
            proof {
                assert(self.rows().take(i + 1).drop_last() =~= self.rows().take(i as int));
                assert(self.rows().take(i + 1).last() == self.rows()[i as int]);
                assert(self.rows()[i as int] == self.paths@[i as int]@);
            }
            if starts_with_str(self.paths[i].path.as_str(), old_path.as_str()) {
                let np: String = replace_prefix_str(
                    self.paths[i].path.as_str(),
                    old_path.as_str(),
                    new_path.as_str(),
                );
                let nh: String = FsMetadata::calculate_hash(np.as_str());
                hashes.push(nh.clone());
                let row = KeyPath { key: nh, path: np, is_dir: self.paths[i].is_dir };
                proof {
                    assert(row@ == upd_row(self.rows()[i as int], old_path@, new_path@));
                }
                new_rows.push(row);
            } else {
                let row = KeyPath {
                    key: self.paths[i].key.clone(),
                    path: self.paths[i].path.clone(),
                    is_dir: self.paths[i].is_dir,
                };
                proof {
                    assert(row@ == upd_row(self.rows()[i as int], old_path@, new_path@));
                }
                new_rows.push(row);
            }
            proof {
                assert(hashes.deep_view() =~= rekeyed_hashes(
                    self.rows().take(i + 1),
                    old_path@,
                    new_path@,
                ));
            }
            i += 1;
        }
        proof {
            assert(self.rows().take(n as int) =~= self.rows());
            assert(rows_view(new_rows@) =~= upd_rows(self.rows(), old_path@, new_path@));
        }
        if !BucketDB::rows_all_distinct(&new_rows) {
            return Err(BucketError::AlreadyExists);
        }
        let dn: usize = self.deletes.len();
        let mut new_dels: Vec<DeleteRow> = Vec::new();
        let mut i: usize = 0;
        while i < dn
            invariant
                *self == *old(self),
                old(self).wf(),
                i <= dn,
                dn == self.deletes@.len(),
                new_rows@.len() == self.paths@.len(),
                rows_view(new_rows@) == upd_rows(self.rows(), old_path@, new_path@),
                new_dels@.len() == i,
                forall|k: int|
                    0 <= k < i ==> #[trigger] new_dels@[k]@.hash == rekey_of(
                        self.rows(),
                        old_path@,
                        new_path@,
                        self.dels()[k].hash,
                    ) && new_dels@[k]@.delete_time == self.dels()[k].delete_time,
            decreases dn - i,
        {
            proof {
                assert(self.dels()[i as int] == self.deletes@[i as int]@);
            }
            match BucketDB::find_key_index(&self.paths, &self.deletes[i].hash) {
                Some(j) => {
                    proof {
                        assert(self.rows()[j as int].key == self.dels()[i as int].hash);
                        let w = key_index(self.rows(), self.dels()[i as int].hash);
                        if w != j {
                            assert(self.rows()[w].key == self.dels()[i as int].hash);
                        }
                        assert(rows_view(new_rows@)[j as int] == new_rows@[j as int]@);
                    }
                    let row = DeleteRow {
                        hash: new_rows[j].key.clone(),
                        delete_time: self.deletes[i].delete_time,
                    };
                    new_dels.push(row);
                },
                None => {
                    let row = DeleteRow {
                        hash: self.deletes[i].hash.clone(),
                        delete_time: self.deletes[i].delete_time,
                    };
                    new_dels.push(row);
                },
            }
            i += 1;
        }
        let fnn: usize = self.favorites.len();
        let mut new_favs: Vec<String> = Vec::new();
        let mut i: usize = 0;
        while i < fnn
            invariant
                *self == *old(self),
                old(self).wf(),
                i <= fnn,
                fnn == self.favorites@.len(),
                new_rows@.len() == self.paths@.len(),
                rows_view(new_rows@) == upd_rows(self.rows(), old_path@, new_path@),
                new_favs@.len() == i,
                forall|k: int|
                    0 <= k < i ==> #[trigger] new_favs@[k]@ == rekey_of(
                        self.rows(),
                        old_path@,
                        new_path@,
                        self.favs()[k],
                    ),
            decreases fnn - i,
        {
            proof {
                assert(self.favs()[i as int] == self.favorites@[i as int]@);
            }
            match BucketDB::find_key_index(&self.paths, &self.favorites[i]) {
                Some(j) => {
                    proof {
                        assert(self.rows()[j as int].key == self.favs()[i as int]);
                        let w = key_index(self.rows(), self.favs()[i as int]);
                        if w != j {
                            assert(self.rows()[w].key == self.favs()[i as int]);
                        }
                        assert(rows_view(new_rows@)[j as int] == new_rows@[j as int]@);
                    }
                    new_favs.push(new_rows[j].key.clone());
                },
                None => {
                    new_favs.push(self.favorites[i].clone());
                },
            }
            i += 1;
        }
        self.paths = new_rows;
        self.deletes = new_dels;
        self.favorites = new_favs;
        proof {
            let orows = old(self).rows();
            let urows = upd_rows(orows, old_path@, new_path@);
            assert(self.rows() == urows);
            assert forall|a: int, b: int|
                0 <= a < b < self.dels().len() implies self.dels()[a].hash
                != self.dels()[b].hash by {
                assert(self.dels()[a] == new_dels@[a]@ && self.dels()[b] == new_dels@[b]@);
                let wa = key_index(orows, old(self).dels()[a].hash);
                let wb = key_index(orows, old(self).dels()[b].hash);
                assert(has_key(orows, old(self).dels()[a].hash));
                assert(has_key(orows, old(self).dels()[b].hash));
                if wa == wb {
                    assert(orows[wa].key == old(self).dels()[a].hash);
                    assert(orows[wb].key == old(self).dels()[b].hash);
                }
                assert(urows[wa] == upd_row(orows[wa], old_path@, new_path@));
                assert(urows[wb] == upd_row(orows[wb], old_path@, new_path@));
            }
            assert forall|k: int| 0 <= k < self.dels().len() implies has_key(
                self.rows(),
                self.dels()[k].hash,
            ) by {
                assert(self.dels()[k] == new_dels@[k]@);
                let w = key_index(orows, old(self).dels()[k].hash);
                assert(has_key(orows, old(self).dels()[k].hash));
                assert(urows[w] == upd_row(orows[w], old_path@, new_path@));
                assert(self.rows()[w].key == self.dels()[k].hash);
            }
            assert forall|a: int, b: int|
                0 <= a < b < self.favs().len() implies self.favs()[a] != self.favs()[b] by {
                assert(self.favs()[a] == new_favs@[a]@ && self.favs()[b] == new_favs@[b]@);
                let wa = key_index(orows, old(self).favs()[a]);
                let wb = key_index(orows, old(self).favs()[b]);
                assert(has_key(orows, old(self).favs()[a]));
                assert(has_key(orows, old(self).favs()[b]));
                if wa == wb {
                    assert(orows[wa].key == old(self).favs()[a]);
                    assert(orows[wb].key == old(self).favs()[b]);
                }
                assert(urows[wa] == upd_row(orows[wa], old_path@, new_path@));
                assert(urows[wb] == upd_row(orows[wb], old_path@, new_path@));
            }
            assert forall|k: int| 0 <= k < self.favs().len() implies has_key(
                self.rows(),
                self.favs()[k],
            ) by {
                assert(self.favs()[k] == new_favs@[k]@);
                let w = key_index(orows, old(self).favs()[k]);
                assert(has_key(orows, old(self).favs()[k]));
                assert(urows[w] == upd_row(orows[w], old_path@, new_path@));
                assert(self.rows()[w].key == self.favs()[k]);
            }
        }
        Ok(hashes)
    }

    /// Inserts, for every row whose path starts with `from_path`, a fresh row
    /// whose path has that prefix replaced by `copy_path`, keyed with the
    /// hash of the new path; the originals and the sidecars stay as they are.
    /// Returns the new hash keys in table order. Fails with `AlreadyExists`,
    /// leaving the index unchanged, when a new key or path would collide.
    pub fn copy_paths(&mut self, from_path: &String, copy_path: &String) -> (r: Result<
        Vec<String>,
        BucketError,
    >)
        requires
            old(self).wf(),
        ensures
            final (self).wf(),
            !copy_ok(old(self).rows(), from_path@, copy_path@) ==> r == Err::<
                Vec<String>,
                BucketError,
            >(BucketError::AlreadyExists) && *final (self) == *old(self),
            copy_ok(old(self).rows(), from_path@, copy_path@) ==> (r matches Ok(v) && v.deep_view()
                == rekeyed_hashes(old(self).rows(), from_path@, copy_path@) && final (self).rows()
                == old(self).rows() + copied_rows(old(self).rows(), from_path@, copy_path@)
                && final (self).dels() == old(self).dels() && final (self).favs() == old(
                self,
            ).favs()),
    {
        let n: usize = self.paths.len();
        let mut combined: Vec<KeyPath> = Vec::new();
        let mut hashes: Vec<String> = Vec::new();
        let mut i: usize = 0;
        while i < n
            invariant
                *self == *old(self),
                old(self).wf(),
                i <= n,
                n == self.paths@.len(),
                combined@.len() == i,
                forall|k: int| 0 <= k < i ==> #[trigger] combined@[k]@ == self.rows()[k],
            decreases n - i,
        {
            let row = KeyPath {
                key: self.paths[i].key.clone(),
                path: self.paths[i].path.clone(),
                is_dir: self.paths[i].is_dir,
            };
            proof {
                assert(row@ == self.paths@[i as int]@);
                assert(self.rows()[i as int] == self.paths@[i as int]@);
            }
            combined.push(row);
            i += 1;
        }
        proof {
            assert(copied_rows(self.rows().take(0), from_path@, copy_path@) =~= Seq::<
                RowView,
            >::empty());
            assert(rows_view(combined@) =~= self.rows() + copied_rows(
                self.rows().take(0),
                from_path@,
                copy_path@,
            ));
        }
        let mut i: usize = 0;
        while i < n
            invariant
                *self == *old(self),
                old(self).wf(),
                i <= n,
                n == self.paths@.len(),
                combined@.len() == n + copied_rows(
                    self.rows().take(i as int),
                    from_path@,
                    copy_path@,
                ).len(),
                rows_view(combined@) == self.rows() + copied_rows(
                    self.rows().take(i as int),
                    from_path@,
                    copy_path@,
                ),
                hashes.deep_view() == rekeyed_hashes(
                    self.rows().take(i as int),
                    from_path@,
                    copy_path@,
                ),
            decreases n - i,
        {
            proof {
                assert(self.rows().take(i + 1).drop_last() =~= self.rows().take(i as int));
                assert(self.rows().take(i + 1).last() == self.rows()[i as int]);
                assert(self.rows()[i as int] == self.paths@[i as int]@);
            }
            let ghost prev = combined@;
            if starts_with_str(self.paths[i].path.as_str(), from_path.as_str()) {
                let np: String = replace_prefix_str(
                    self.paths[i].path.as_str(),
                    from_path.as_str(),
                    copy_path.as_str(),
                );
                let nh: String = FsMetadata::calculate_hash(np.as_str());
                hashes.push(nh.clone());
                let row = KeyPath { key: nh, path: np, is_dir: self.paths[i].is_dir };
                proof {
                    assert(row@ == upd_row(self.rows()[i as int], from_path@, copy_path@));
                    assert(copied_rows(self.rows().take(i + 1), from_path@, copy_path@)
                        =~= copied_rows(self.rows().take(i as int), from_path@, copy_path@).push(
                        upd_row(self.rows()[i as int], from_path@, copy_path@),
                    ));
                }
                combined.push(row);
                proof {
                    assert forall|k: int| 0 <= k < prev.len() implies rows_view(combined@)[k]
                        == rows_view(prev)[k] by {
                        assert(combined@[k] == prev[k]);
                    }
                    assert(rows_view(combined@)[prev.len() as int] == upd_row(
                        self.rows()[i as int],
                        from_path@,
                        copy_path@,
                    ));
                    assert(rows_view(combined@) =~= rows_view(prev).push(
                        upd_row(self.rows()[i as int], from_path@, copy_path@),
                    ));
                }
            } else {
                proof {
                    assert(copied_rows(self.rows().take(i + 1), from_path@, copy_path@)
                        =~= copied_rows(self.rows().take(i as int), from_path@, copy_path@));
                }
            }
            proof {
                assert(rows_view(combined@) =~= self.rows() + copied_rows(
                    self.rows().take(i + 1),
                    from_path@,
                    copy_path@,
                ));
                assert(hashes.deep_view() =~= rekeyed_hashes(
                    self.rows().take(i + 1),
                    from_path@,
                    copy_path@,
                ));
            }
            i += 1;
        }
        proof {
            assert(self.rows().take(n as int) =~= self.rows());
        }
        if !BucketDB::rows_all_distinct(&combined) {
            return Err(BucketError::AlreadyExists);
        }
        self.paths = combined;
        proof {
            let orows = old(self).rows();
            assert(self.rows() == orows + copied_rows(orows, from_path@, copy_path@));
            assert(self.deletes@ == old(self).deletes@);
            assert(self.dels() == old(self).dels());
            assert(self.favorites@ == old(self).favorites@);
            assert(self.favs() == old(self).favs());
            assert forall|k: int| 0 <= k < self.dels().len() implies has_key(
                self.rows(),
                self.dels()[k].hash,
            ) by {
                assert(self.dels()[k] == old(self).dels()[k]);
                assert(has_key(orows, old(self).dels()[k].hash));
                let w = choose|w: int|
                    0 <= w < orows.len() && orows[w].key == old(self).dels()[k].hash;
                assert(self.rows()[w].key == self.dels()[k].hash);
            }
            assert forall|k: int| 0 <= k < self.favs().len() implies has_key(
                self.rows(),
                self.favs()[k],
            ) by {
                assert(self.favs()[k] == old(self).favs()[k]);
                assert(has_key(orows, old(self).favs()[k]));
                let w = choose|w: int| 0 <= w < orows.len() && orows[w].key == old(self).favs()[k];
                assert(self.rows()[w].key == self.favs()[k]);
            }
        }
        Ok(hashes)
    }

    /// Resolves a hash key to its path. Fails with `NotFound` when no row
    /// carries the key.
    pub fn get_path(&self, key: &String) -> (r: Result<String, BucketError>)
        requires
            self.wf(),
        ensures
            match r {
                Ok(p) => has_key(self.rows(), key@) && p@ == path_of_key(self.rows(), key@),
                Err(e) => e == BucketError::NotFound && !has_key(self.rows(), key@),
            },
    {
        match BucketDB::find_key_index(&self.paths, key) {
            Some(i) => {
                proof {
                    assert(self.rows()[i as int].key == key@);
                    let j = key_index(self.rows(), key@);
                    if j != i {
                        assert(self.rows()[j].key == key@);
                    }
                }
                Ok(self.paths[i].path.clone())
            },
            None => Err(BucketError::NotFound),
        }
    }
}

} // verus!
