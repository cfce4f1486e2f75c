use vstd::prelude::*;

use crate::bucket::bucket::{
    add_content_spec, add_path_spec, add_post, child_indices, covered, covers, del_indices,
    dels_added, fav_indices, kept_rows, parent_path_spec, rekey_post, remove_post,
    retention_deadline, sat_sub_u64, set_delete_post, Bucket, KeyValue,
};
use crate::bucket::bucket_db::{
    contains_key_seq, dels_have_key, expired_keys, has_key, key_index, keys_unique, paths_unique,
    rekeyed_hashes, upd_row, DelView, RowView,
};
use crate::errors::BucketError;
use crate::hashing::hash_hex_of;
use crate::paths::{
    base_name_of, is_dir_path, is_prefix_of, joined, lemma_last_slash, lemma_segments_join,
    name_wf, replace_prefix, segments, trim_slash,
};

verus! {

/// The final component of a parent-and-name path is the name: what `add`
/// stores under a directory keeps the given name as its base name.
pub proof fn lemma_base_name_concat(pp: Seq<char>, n: Seq<char>)
    requires
        name_wf(n),
        pp.len() == 0 || is_dir_path(pp),
    ensures
        base_name_of(pp + n) == n,
        base_name_of(pp + n + seq!['/']) == n,
{
    let t1 = pp + n;
    assert(t1[t1.len() - 1] == n[n.len() - 1]);
    assert(!is_dir_path(t1));
    assert(trim_slash(t1) == t1);
    let t2 = pp + n + seq!['/'];
    assert(is_dir_path(t2));
    assert(trim_slash(t2) =~= t1);
    lemma_last_slash(t1);
    let ls = crate::paths::last_slash(t1);
    if pp.len() == 0 {
        if ls != -1 {
            assert(t1[ls] == n[ls]);
            assert(t1[ls] != '/');
        }
        assert(t1.skip(ls + 1) =~= n);
    } else {
        assert(t1[pp.len() - 1] == '/');
        if ls < pp.len() - 1 {
            assert(t1[pp.len() - 1] != '/');
        }
        if ls > pp.len() - 1 {
            assert(t1[ls] == n[ls - pp.len()]);
            assert(t1[ls] != '/');
        }
        assert(ls == pp.len() - 1);
        assert(t1.skip(ls + 1) =~= n);
    }
}

/// Round trip of `add` and `get`: after a successful `add`, the returned key
/// resolves to a row whose base name is the requested name and whose entry
/// holds exactly the given bytes — so a read with that key returns them.
pub proof fn lemma_add_get_round_trip(pre: Bucket, post: Bucket, kv: KeyValue, now: u64, h: String)
    requires
        pre.wf(),
        post.wf(),
        add_post(pre, post, kv, now, Ok::<String, BucketError>(h)),
    ensures
        has_key(post.rows(), h@),
        post.ents()[key_index(post.rows(), h@)].content == add_content_spec(kv),
        base_name_of(post.rows()[key_index(post.rows(), h@)].path) == kv.name@,
        post.rows()[key_index(post.rows(), h@)].is_dir == (kv.value is None),
{
    let rows = pre.rows();
    let path = add_path_spec(rows, kv);
    let row = RowView { key: h@, path, is_dir: kv.value is None };
    let n = rows.len() as int;
    assert(post.rows()[n] == row);
    assert(has_key(post.rows(), h@));
    let w = key_index(post.rows(), h@);
    if w != n {
        assert(post.rows()[w].key == h@);
        if w < n {
            assert(rows[w] == post.rows()[w]);
            assert(has_key(rows, h@));
        }
    }
    assert(post.ents()[n] == post.ents()[w]);
    let pp = parent_path_spec(rows, kv);
    if kv.key is Some {
        assert(is_dir_path(pp));
    }
    lemma_base_name_concat(pp, kv.name@);
    if kv.value is None {
        assert(path =~= pp + kv.name@ + seq!['/']);
    } else {
        assert(path =~= pp + kv.name@);
    }
}

/// Hash determinism: the key of a fresh entry depends only on the parent
/// path, the name, and whether it is a directory — re-adding the same path,
/// after a deletion or in any other state that resolves the same parent path,
/// recomputes the same key.
pub proof fn lemma_hash_deterministic(
    rows1: Seq<RowView>,
    kv1: KeyValue,
    rows2: Seq<RowView>,
    kv2: KeyValue,
)
    requires
        parent_path_spec(rows1, kv1) == parent_path_spec(rows2, kv2),
        kv1.name@ == kv2.name@,
        (kv1.value is None) == (kv2.value is None),
    ensures
        hash_hex_of(add_path_spec(rows1, kv1)) == hash_hex_of(add_path_spec(rows2, kv2)),
{
    assert(add_path_spec(rows1, kv1) =~= add_path_spec(rows2, kv2));
}

/// Quota bound: a well-formed bucket never uses more than its budget.
pub proof fn lemma_quota_bound(b: Bucket)
    requires
        b.wf(),
    ensures
        b.usage_space <= b.available_space,
{
}

/// Quota growth of `add`: a successful `add` grows the usage by exactly the
/// byte length of the given data — by nothing for a directory.
pub proof fn lemma_add_quota(pre: Bucket, post: Bucket, kv: KeyValue, now: u64, h: String)
    requires
        add_post(pre, post, kv, now, Ok::<String, BucketError>(h)),
    ensures
        post.usage_space == pre.usage_space + add_content_spec(kv).len(),
        kv.value is None ==> post.usage_space == pre.usage_space,
{
}

/// The byte total of the entries the listed keys name, in list order.
pub open spec fn keys_total_size(
    rows: Seq<RowView>,
    ents: Seq<crate::bucket::bucket::EntryV>,
    ks: Seq<Seq<char>>,
) -> int
    decreases ks.len(),
{
    if ks.len() == 0 {
        0
    } else {
        keys_total_size(rows, ents, ks.drop_last()) + ents[key_index(
            rows,
            ks.last(),
        )].content.len()
    }
}

/// The byte total of the rows whose keys are listed, in table order.
spec fn rows_total_in(
    rows: Seq<RowView>,
    ents: Seq<crate::bucket::bucket::EntryV>,
    ks: Seq<Seq<char>>,
) -> int
    decreases rows.len(),
{
    if rows.len() == 0 {
        0
    } else {
        rows_total_in(rows.drop_last(), ents.drop_last(), ks) + if contains_key_seq(
            ks,
            rows.last().key,
        ) {
            ents.last().content.len() as int
        } else {
            0
        }
    }
}

/// The byte length of the last row keyed `k`, zero when none is.
spec fn key_size_in(
    rows: Seq<RowView>,
    ents: Seq<crate::bucket::bucket::EntryV>,
    k: Seq<char>,
) -> int
    decreases rows.len(),
{
    if rows.len() == 0 {
        0
    } else if rows.last().key == k {
        ents.last().content.len() as int
    } else {
        key_size_in(rows.drop_last(), ents.drop_last(), k)
    }
}

/// The row stands somewhere in the table.
spec fn row_among(rows0: Seq<RowView>, r: RowView) -> bool {
    exists|j: int| 0 <= j < rows0.len() && r == #[trigger] rows0[j]
}

/// When every listed root is a file, a row is covered by the removal exactly
/// when its key is listed.
proof fn lemma_covered_iff_key_listed(rows0: Seq<RowView>, ks: Seq<Seq<char>>, r: RowView)
    requires
        keys_unique(rows0),
        paths_unique(rows0),
        row_among(rows0, r),
        forall|i: int|
            0 <= i < ks.len() ==> has_key(rows0, #[trigger] ks[i]) && !rows0[key_index(
                rows0,
                ks[i],
            )].is_dir,
    ensures
        covered(rows0, ks, r) <==> contains_key_seq(ks, r.key),
{
    let j = choose|j: int| 0 <= j < rows0.len() && r == #[trigger] rows0[j];
    if covered(rows0, ks, r) {
        let q = choose|q: int|
            0 <= q < ks.len() && has_key(rows0, ks[q]) && covers(
                rows0[key_index(rows0, ks[q])],
                r,
            );
        let m = key_index(rows0, ks[q]);
        assert(rows0[m].key == ks[q]);
        assert(rows0[j].path == rows0[m].path);
        if m != j {
            assert(rows0[m].path != rows0[j].path);
        }
        assert(r.key == ks[q]);
        assert(contains_key_seq(ks, r.key));
    }
    if contains_key_seq(ks, r.key) {
        let q = choose|q: int| 0 <= q < ks.len() && ks[q] == r.key;
        assert(has_key(rows0, ks[q]));
        let m = key_index(rows0, ks[q]);
        assert(rows0[m].key == ks[q]);
        if m != j {
            assert(rows0[m].key != rows0[j].key);
        }
        assert(covers(rows0[key_index(rows0, ks[q])], r));
        assert(covered(rows0, ks, r));
    }
}

/// The removal total equals the total over the rows whose keys are listed.
proof fn lemma_removed_eq_rows_total(
    rows0: Seq<RowView>,
    ks: Seq<Seq<char>>,
    rows: Seq<RowView>,
    ents: Seq<crate::bucket::bucket::EntryV>,
)
    requires
        keys_unique(rows0),
        paths_unique(rows0),
        ents.len() == rows.len(),
        forall|i: int| 0 <= i < rows.len() ==> #[trigger] row_among(rows0, rows[i]),
        forall|i: int|
            0 <= i < ks.len() ==> has_key(rows0, #[trigger] ks[i]) && !rows0[key_index(
                rows0,
                ks[i],
            )].is_dir,
    ensures
        crate::bucket::bucket::removed_bytes(rows0, ks, rows, ents) == rows_total_in(
            rows,
            ents,
            ks,
        ),
    decreases rows.len(),
{
    if rows.len() > 0 {
        let prows = rows.drop_last();
        let pents = ents.drop_last();
        assert forall|i: int| 0 <= i < prows.len() implies #[trigger] row_among(
            rows0,
            prows[i],
        ) by {
            assert(rows[i] == prows[i]);
            assert(row_among(rows0, rows[i]));
        }
        lemma_removed_eq_rows_total(rows0, ks, prows, pents);
        assert(rows[rows.len() - 1] == rows.last());
        assert(row_among(rows0, rows.last()));
        lemma_covered_iff_key_listed(rows0, ks, rows.last());
    }
}

/// A key no row carries contributes nothing.
proof fn lemma_key_size_absent(
    rows: Seq<RowView>,
    ents: Seq<crate::bucket::bucket::EntryV>,
    k: Seq<char>,
)
    requires
        forall|i: int| 0 <= i < rows.len() ==> (#[trigger] rows[i]).key != k,
    ensures
        key_size_in(rows, ents, k) == 0,
    decreases rows.len(),
{
    if rows.len() > 0 {
        assert(rows[rows.len() - 1] == rows.last());
        assert forall|i: int| 0 <= i < rows.drop_last().len() implies (
        #[trigger] rows.drop_last()[i]).key != k by {
            assert(rows[i] == rows.drop_last()[i]);
        }
        lemma_key_size_absent(rows.drop_last(), ents.drop_last(), k);
    }
}

/// Listing one more key, not listed before, adds exactly that key's row.
proof fn lemma_rows_total_push_key(
    rows: Seq<RowView>,
    ents: Seq<crate::bucket::bucket::EntryV>,
    ks: Seq<Seq<char>>,
    k: Seq<char>,
)
    requires
        keys_unique(rows),
        !contains_key_seq(ks, k),
        ents.len() == rows.len(),
    ensures
        rows_total_in(rows, ents, ks.push(k)) == rows_total_in(rows, ents, ks) + key_size_in(
            rows,
            ents,
            k,
        ),
    decreases rows.len(),
{
    if rows.len() > 0 {
        let prows = rows.drop_last();
        let pents = ents.drop_last();
        assert forall|i: int, j: int| 0 <= i < j < prows.len() implies prows[i].key
            != prows[j].key by {
            assert(rows[i] == prows[i] && rows[j] == prows[j]);
        }
        lemma_rows_total_push_key(prows, pents, ks, k);
        assert(contains_key_seq(ks.push(k), k)) by {
            assert(ks.push(k)[ks.len() as int] == k);
        }
        if rows.last().key == k {
            assert forall|i: int| 0 <= i < prows.len() implies (#[trigger] prows[i]).key != k by {
                assert(rows[i] == prows[i]);
                assert(rows[i].key != rows[rows.len() - 1].key);
            }
            lemma_key_size_absent(prows, pents, k);
            assert(rows_total_in(prows, pents, ks.push(k)) == rows_total_in(prows, pents, ks));
        } else {
            assert(contains_key_seq(ks.push(k), rows.last().key) <==> contains_key_seq(
                ks,
                rows.last().key,
            )) by {
                if contains_key_seq(ks.push(k), rows.last().key) {
                    let w = choose|w: int|
                        0 <= w < ks.push(k).len() && ks.push(k)[w] == rows.last().key;
                    if w < ks.len() {
                        assert(ks[w] == rows.last().key);
                    }
                }
                if contains_key_seq(ks, rows.last().key) {
                    let w = choose|w: int| 0 <= w < ks.len() && ks[w] == rows.last().key;
                    assert(ks.push(k)[w] == rows.last().key);
                }
            }
        }
    }
}

/// The contribution of one present key is its row's byte length.
proof fn lemma_key_size_present(
    rows: Seq<RowView>,
    ents: Seq<crate::bucket::bucket::EntryV>,
    k: Seq<char>,
)
    requires
        keys_unique(rows),
        has_key(rows, k),
        ents.len() == rows.len(),
    ensures
        key_size_in(rows, ents, k) == ents[key_index(rows, k)].content.len(),
    decreases rows.len(),
{
    let m = key_index(rows, k);
    assert(rows[m].key == k);
    if rows.last().key == k {
        if m != rows.len() - 1 {
            assert(rows[rows.len() - 1] == rows.last());
            assert(rows[m].key != rows[rows.len() - 1].key);
        }
    } else {
        assert(rows[rows.len() - 1] == rows.last());
        assert(m < rows.len() - 1);
        let prows = rows.drop_last();
        let pents = ents.drop_last();
        assert forall|i: int, j: int| 0 <= i < j < prows.len() implies prows[i].key
            != prows[j].key by {
            assert(rows[i] == prows[i] && rows[j] == prows[j]);
        }
        assert(prows[m].key == k);
        assert(has_key(prows, k));
        lemma_key_size_present(prows, pents, k);
        let m2 = key_index(prows, k);
        if m2 != m {
            assert(prows[m2].key == k);
            assert(rows[m2] == prows[m2]);
            assert(rows[m2].key != rows[m].key);
        }
        assert(pents[m] == ents[m]);
    }
}

/// Totalling the listed rows in table order equals totalling the keys in
/// list order, when the keys are distinct and each has a row.
proof fn lemma_rows_total_eq_keys_total(
    rows: Seq<RowView>,
    ents: Seq<crate::bucket::bucket::EntryV>,
    ks: Seq<Seq<char>>,
)
    requires
        keys_unique(rows),
        ents.len() == rows.len(),
        forall|i: int| 0 <= i < ks.len() ==> has_key(rows, #[trigger] ks[i]),
        forall|i: int, j: int| 0 <= i < j < ks.len() ==> ks[i] != ks[j],
    ensures
        rows_total_in(rows, ents, ks) == keys_total_size(rows, ents, ks),
    decreases ks.len(),
{
    if ks.len() == 0 {
        lemma_key_size_absent_all(rows, ents, ks);
    } else {
        let pks = ks.drop_last();
        let k = ks.last();
        assert forall|i: int| 0 <= i < pks.len() implies has_key(rows, #[trigger] pks[i]) by {
            assert(ks[i] == pks[i]);
        }
        assert forall|i: int, j: int| 0 <= i < j < pks.len() implies pks[i] != pks[j] by {
            assert(ks[i] == pks[i] && ks[j] == pks[j]);
        }
        lemma_rows_total_eq_keys_total(rows, ents, pks);
        assert(!contains_key_seq(pks, k)) by {
            if contains_key_seq(pks, k) {
                let w = choose|w: int| 0 <= w < pks.len() && pks[w] == k;
                assert(ks[w] == k);
                assert(ks[w] != ks[ks.len() - 1]);
            }
        }
        lemma_rows_total_push_key(rows, ents, pks, k);
        assert(pks.push(k) =~= ks);
        assert(has_key(rows, ks[ks.len() - 1]));
        lemma_key_size_present(rows, ents, k);
    }
}

/// An empty key list totals zero over the rows.
proof fn lemma_key_size_absent_all(
    rows: Seq<RowView>,
    ents: Seq<crate::bucket::bucket::EntryV>,
    ks: Seq<Seq<char>>,
)
    requires
        ks.len() == 0,
    ensures
        rows_total_in(rows, ents, ks) == 0,
    decreases rows.len(),
{
    if rows.len() > 0 {
        lemma_key_size_absent_all(rows.drop_last(), ents.drop_last(), ks);
    }
}

/// Quota refund of `remove`: hard-deleting distinct file entries gives the
/// sum of their byte lengths back to the usage counter, saturating at zero.
pub proof fn lemma_remove_quota(pre: Bucket, post: Bucket, ks: Seq<Seq<char>>)
    requires
        pre.wf(),
        remove_post(pre, post, ks),
        forall|i: int|
            0 <= i < ks.len() ==> has_key(pre.rows(), #[trigger] ks[i]) && !pre.rows()[key_index(
                pre.rows(),
                ks[i],
            )].is_dir,
        forall|i: int, j: int| 0 <= i < j < ks.len() ==> ks[i] != ks[j],
    ensures
        post.usage_space == sat_sub_u64(
            pre.usage_space,
            keys_total_size(pre.rows(), pre.ents(), ks),
        ),
{
    let rows = pre.rows();
    let ents = pre.ents();
    assert forall|i: int| 0 <= i < rows.len() implies #[trigger] row_among(rows, rows[i]) by {
        assert(rows[i] == rows[i]);
    }
    lemma_removed_eq_rows_total(rows, ks, rows, ents);
    lemma_rows_total_eq_keys_total(rows, ents, ks);
}

/// Prefix rename: a successful re-keying rewrites exactly the rows whose
/// paths start with the old prefix — each new path replaces the prefix, each
/// new key is the hash of the new path — and leaves every other row alone;
/// the returned keys are one per rewritten row, the renamed entry and its
/// descendants.
pub proof fn lemma_prefix_rename(
    pre: Bucket,
    post: Bucket,
    oldp: Seq<char>,
    newp: Seq<char>,
    v: Seq<Seq<char>>,
)
    requires
        rekey_post(pre, post, oldp, newp, v),
    ensures
        post.rows().len() == pre.rows().len(),
        forall|i: int|
            0 <= i < pre.rows().len() && is_prefix_of(oldp, (#[trigger] pre.rows()[i]).path)
                ==> post.rows()[i].path == replace_prefix(pre.rows()[i].path, oldp, newp)
                && post.rows()[i].key == hash_hex_of(replace_prefix(pre.rows()[i].path, oldp, newp)),
        forall|i: int|
            0 <= i < pre.rows().len() && !is_prefix_of(oldp, (#[trigger] pre.rows()[i]).path)
                ==> post.rows()[i] == pre.rows()[i],
        v.len() == sel_count(pre.rows(), oldp),
{
    assert forall|i: int|
        0 <= i < pre.rows().len() && is_prefix_of(
            oldp,
            (#[trigger] pre.rows()[i]).path,
        ) implies post.rows()[i].path == replace_prefix(pre.rows()[i].path, oldp, newp)
        && post.rows()[i].key == hash_hex_of(replace_prefix(pre.rows()[i].path, oldp, newp)) by {
        assert(post.rows()[i] == upd_row(pre.rows()[i], oldp, newp));
    }
    assert forall|i: int|
        0 <= i < pre.rows().len() && !is_prefix_of(
            oldp,
            (#[trigger] pre.rows()[i]).path,
        ) implies post.rows()[i] == pre.rows()[i] by {
        assert(post.rows()[i] == upd_row(pre.rows()[i], oldp, newp));
    }
    lemma_rekeyed_count(pre.rows(), oldp, newp);
}

/// The number of rows a prefix rewrite selects.
pub open spec fn sel_count(rows: Seq<RowView>, oldp: Seq<char>) -> int
    decreases rows.len(),
{
    if rows.len() == 0 {
        0
    } else {
        sel_count(rows.drop_last(), oldp) + if is_prefix_of(oldp, rows.last().path) {
            1int
        } else {
            0int
        }
    }
}

/// A prefix rewrite returns one key per selected row.
pub proof fn lemma_rekeyed_count(rows: Seq<RowView>, oldp: Seq<char>, newp: Seq<char>)
    ensures
        rekeyed_hashes(rows, oldp, newp).len() == sel_count(rows, oldp),
    decreases rows.len(),
{
    if rows.len() > 0 {
        lemma_rekeyed_count(rows.drop_last(), oldp, newp);
    }
}

/// Every listed child is a live direct child of the directory.
pub proof fn lemma_child_indices_props(
    rows: Seq<RowView>,
    ents: Seq<crate::bucket::bucket::EntryV>,
    dirp: Seq<char>,
)
    requires
        ents.len() == rows.len(),
    ensures
        forall|q: int|
            0 <= q < child_indices(rows, ents, dirp).len() ==> 0 <= #[trigger] child_indices(
                rows,
                ents,
                dirp,
            )[q] < rows.len() && crate::paths::is_child_path(
                dirp,
                rows[child_indices(rows, ents, dirp)[q]].path,
            ) && !ents[child_indices(rows, ents, dirp)[q]].meta.deleted,
        forall|i: int|
            0 <= i < rows.len() && crate::paths::is_child_path(dirp, (#[trigger] rows[i]).path)
                && !ents[i].meta.deleted ==> exists|q: int|
                0 <= q < child_indices(rows, ents, dirp).len() && child_indices(rows, ents, dirp)[q]
                    == i,
    decreases rows.len(),
{
    if rows.len() > 0 {
        lemma_child_indices_props(rows.drop_last(), ents.drop_last(), dirp);
        let prev = child_indices(rows.drop_last(), ents.drop_last(), dirp);
        let cur = child_indices(rows, ents, dirp);
        assert forall|i: int|
            0 <= i < rows.len() && crate::paths::is_child_path(dirp, (#[trigger] rows[i]).path)
                && !ents[i].meta.deleted implies exists|q: int|
            0 <= q < cur.len() && cur[q] == i by {
            if i == rows.len() - 1 {
                assert(cur.last() == i);
            } else {
                assert(rows.drop_last()[i] == rows[i]);
                assert(ents.drop_last()[i] == ents[i]);
                let q = choose|q: int| 0 <= q < prev.len() && prev[q] == i;
                assert(cur[q] == i);
            }
        }
    }
}

/// Position `q` of the trash listing names the row some trash key resolves
/// to.
pub open spec fn del_listed_from(rows: Seq<RowView>, dels: Seq<DelView>, q: int) -> bool {
    exists|d: int|
        0 <= d < dels.len() && has_key(rows, (#[trigger] dels[d]).hash) && del_indices(rows, dels)[q]
            == key_index(rows, dels[d].hash)
}

/// Every listed trash row names the row its key resolves to, and every
/// trashed key with a row is listed.
pub proof fn lemma_del_indices_props(rows: Seq<RowView>, dels: Seq<DelView>)
    ensures
        forall|q: int|
            0 <= q < del_indices(rows, dels).len() ==> #[trigger] del_listed_from(rows, dels, q),
        forall|d: int|
            0 <= d < dels.len() && has_key(rows, (#[trigger] dels[d]).hash) ==> exists|q: int|
                0 <= q < del_indices(rows, dels).len() && #[trigger] del_indices(rows, dels)[q]
                    == key_index(rows, dels[d].hash),
    decreases dels.len(),
{
    if dels.len() > 0 {
        lemma_del_indices_props(rows, dels.drop_last());
        let prev = del_indices(rows, dels.drop_last());
        let cur = del_indices(rows, dels);
        assert forall|q: int| 0 <= q < cur.len() implies #[trigger] del_listed_from(
            rows,
            dels,
            q,
        ) by {
            if has_key(rows, dels.last().hash) && q == cur.len() - 1 {
                let d = dels.len() - 1;
                assert(dels[d].hash == dels.last().hash);
                assert(0 <= d < dels.len() && has_key(rows, dels[d].hash) && cur[q] == key_index(
                    rows,
                    dels[d].hash,
                ));
            } else {
                assert(cur[q] == prev[q]);
                assert(del_listed_from(rows, dels.drop_last(), q));
                let d = choose|d: int|
                    0 <= d < dels.drop_last().len() && has_key(
                        rows,
                        (#[trigger] dels.drop_last()[d]).hash,
                    ) && prev[q] == key_index(rows, dels.drop_last()[d].hash);
                assert(dels[d] == dels.drop_last()[d]);
                assert(0 <= d < dels.len() && has_key(rows, dels[d].hash) && cur[q] == key_index(
                    rows,
                    dels[d].hash,
                ));
            }
        }
        assert forall|d: int|
            0 <= d < dels.len() && has_key(rows, (#[trigger] dels[d]).hash) implies exists|q: int|
            0 <= q < cur.len() && cur[q] == key_index(rows, dels[d].hash) by {
            if d == dels.len() - 1 {
                assert(cur.last() == key_index(rows, dels.last().hash));
            } else {
                assert(dels.drop_last()[d] == dels[d]);
                let q = choose|q: int|
                    0 <= q < prev.len() && prev[q] == key_index(rows, dels.drop_last()[d].hash);
                assert(cur[q] == key_index(rows, dels[d].hash));
            }
        }
    }
}

/// Soft-delete visibility, first half: an entry flagged as deleted never
/// shows among a directory's listed children, but its key is listed in the
/// trash.
pub proof fn lemma_deleted_visibility(b: Bucket, k: Seq<char>, dirp: Seq<char>)
    requires
        b.wf(),
        has_key(b.rows(), k),
        b.ents()[key_index(b.rows(), k)].meta.deleted,
    ensures
        forall|q: int|
            0 <= q < child_indices(b.rows(), b.ents(), dirp).len() ==> b.rows()[#[trigger] child_indices(
                b.rows(),
                b.ents(),
                dirp,
            )[q]].key != k,
        exists|q: int|
            0 <= q < del_indices(b.rows(), b.db.dels()).len() && #[trigger] del_indices(
                b.rows(),
                b.db.dels(),
            )[q] == key_index(b.rows(), k),
{
    let w = key_index(b.rows(), k);
    lemma_child_indices_props(b.rows(), b.ents(), dirp);
    assert forall|q: int|
        0 <= q < child_indices(b.rows(), b.ents(), dirp).len() implies b.rows()[#[trigger] child_indices(
        b.rows(),
        b.ents(),
        dirp,
    )[q]].key != k by {
        let i = child_indices(b.rows(), b.ents(), dirp)[q];
        if b.rows()[i].key == k {
            if i != w {
                assert(b.rows()[w].key == k);
            }
            assert(i == w);
        }
    }
    assert(dels_have_key(b.db.dels(), k));
    let d = choose|d: int| 0 <= d < b.db.dels().len() && b.db.dels()[d].hash == k;
    lemma_del_indices_props(b.rows(), b.db.dels());
    assert(has_key(b.rows(), b.db.dels()[d].hash));
}

/// Soft-delete visibility, second half: a live entry directly inside a
/// directory shows among its listed children, and its key is not listed in
/// the trash.
pub proof fn lemma_restored_visibility(b: Bucket, k: Seq<char>, dirp: Seq<char>)
    requires
        b.wf(),
        has_key(b.rows(), k),
        !b.ents()[key_index(b.rows(), k)].meta.deleted,
        crate::paths::is_child_path(dirp, b.rows()[key_index(b.rows(), k)].path),
    ensures
        exists|q: int|
            0 <= q < child_indices(b.rows(), b.ents(), dirp).len() && #[trigger] child_indices(
                b.rows(),
                b.ents(),
                dirp,
            )[q] == key_index(b.rows(), k),
        forall|q: int|
            0 <= q < del_indices(b.rows(), b.db.dels()).len() ==> b.rows()[#[trigger] del_indices(
                b.rows(),
                b.db.dels(),
            )[q]].key != k,
{
    let w = key_index(b.rows(), k);
    lemma_child_indices_props(b.rows(), b.ents(), dirp);
    lemma_del_indices_props(b.rows(), b.db.dels());
    assert(!dels_have_key(b.db.dels(), k));
    assert forall|q: int|
        0 <= q < del_indices(b.rows(), b.db.dels()).len() implies b.rows()[#[trigger] del_indices(
        b.rows(),
        b.db.dels(),
    )[q]].key != k by {
        assert(del_listed_from(b.rows(), b.db.dels(), q));
        let d = choose|d: int|
            0 <= d < b.db.dels().len() && has_key(b.rows(), (#[trigger] b.db.dels()[d]).hash)
                && del_indices(b.rows(), b.db.dels())[q] == key_index(
                b.rows(),
                b.db.dels()[d].hash,
            );
        let i = del_indices(b.rows(), b.db.dels())[q];
        assert(b.rows()[i].key == b.db.dels()[d].hash);
        if b.rows()[i].key == k {
            assert(dels_have_key(b.db.dels(), k));
        }
    }
}

/// Favorites persist through renames and moves: the favorite mark of an
/// entry follows its re-keyed row, so the entry's new key is still marked.
pub proof fn lemma_favorites_persist(
    pre: Bucket,
    post: Bucket,
    oldp: Seq<char>,
    newp: Seq<char>,
    v: Seq<Seq<char>>,
    k: Seq<char>,
)
    requires
        pre.wf(),
        rekey_post(pre, post, oldp, newp, v),
        contains_key_seq(pre.db.favs(), k),
    ensures
        has_key(pre.rows(), k),
        contains_key_seq(
            post.db.favs(),
            upd_row(pre.rows()[key_index(pre.rows(), k)], oldp, newp).key,
        ),
{
    let w = choose|w: int| 0 <= w < pre.db.favs().len() && pre.db.favs()[w] == k;
    assert(has_key(pre.rows(), pre.db.favs()[w]));
    assert(post.db.favs()[w] == crate::bucket::bucket_db::rekey_of(pre.rows(), oldp, newp, k));
    assert(contains_key_seq(
        post.db.favs(),
        upd_row(pre.rows()[key_index(pre.rows(), k)], oldp, newp).key,
    ));
}

/// Every live favorite with a row is listed: the favorite listing carries,
/// for each marked key whose entry is not flagged as deleted, the position
/// of that entry's row.
pub proof fn lemma_fav_indices_complete(
    rows: Seq<RowView>,
    ents: Seq<crate::bucket::bucket::EntryV>,
    favs: Seq<Seq<char>>,
)
    ensures
        forall|w: int|
            0 <= w < favs.len() && has_key(rows, #[trigger] favs[w]) && !ents[key_index(
                rows,
                favs[w],
            )].meta.deleted ==> exists|q: int|
                0 <= q < fav_indices(rows, ents, favs).len() && #[trigger] fav_indices(
                    rows,
                    ents,
                    favs,
                )[q] == key_index(rows, favs[w]),
    decreases favs.len(),
{
    if favs.len() > 0 {
        lemma_fav_indices_complete(rows, ents, favs.drop_last());
        let prev = fav_indices(rows, ents, favs.drop_last());
        let cur = fav_indices(rows, ents, favs);
        assert forall|w: int|
            0 <= w < favs.len() && has_key(rows, #[trigger] favs[w]) && !ents[key_index(
                rows,
                favs[w],
            )].meta.deleted implies exists|q: int|
            0 <= q < cur.len() && #[trigger] cur[q] == key_index(rows, favs[w]) by {
            if w == favs.len() - 1 {
                assert(cur.last() == key_index(rows, favs.last()));
            } else {
                assert(favs.drop_last()[w] == favs[w]);
                let q = choose|q: int|
                    0 <= q < prev.len() && #[trigger] prev[q] == key_index(
                        rows,
                        favs.drop_last()[w],
                    );
                assert(cur[q] == key_index(rows, favs[w]));
            }
        }
    }
}

/// Favorites stay listed through renames and moves: after a re-keying, a
/// marked entry that is not in the trash shows in the favorite listing under
/// its new key.
pub proof fn lemma_favorites_listed_after_rekey(
    pre: Bucket,
    post: Bucket,
    oldp: Seq<char>,
    newp: Seq<char>,
    v: Seq<Seq<char>>,
    k: Seq<char>,
)
    requires
        pre.wf(),
        post.wf(),
        rekey_post(pre, post, oldp, newp, v),
        contains_key_seq(pre.db.favs(), k),
        !pre.ents()[key_index(pre.rows(), k)].meta.deleted,
    ensures
        exists|q: int|
            0 <= q < fav_indices(post.rows(), post.ents(), post.db.favs()).len()
                && #[trigger] fav_indices(post.rows(), post.ents(), post.db.favs())[q] == key_index(
                post.rows(),
                upd_row(pre.rows()[key_index(pre.rows(), k)], oldp, newp).key,
            ),
{
    lemma_favorites_persist(pre, post, oldp, newp, v, k);
    let i = key_index(pre.rows(), k);
    assert(pre.rows()[i].key == k);
    let nk = upd_row(pre.rows()[i], oldp, newp).key;
    assert(post.rows()[i] == upd_row(pre.rows()[i], oldp, newp));
    assert(has_key(post.rows(), nk));
    let j = key_index(post.rows(), nk);
    if j != i {
        assert(post.rows()[j].key == nk);
    }
    assert(post.ents()[i] == pre.ents()[i]);
    lemma_fav_indices_complete(post.rows(), post.ents(), post.db.favs());
    let w = choose|w: int| 0 <= w < post.db.favs().len() && post.db.favs()[w] == nk;
    assert(has_key(post.rows(), post.db.favs()[w]));
}

/// Breadcrumbs join back to the path: the titles of a breadcrumb, joined
/// with slashes, give the entry's stored path — the trailing slash of a
/// directory path included, through its final empty-titled segment.
pub proof fn lemma_breadcrumb_titles(p: Seq<char>)
    ensures
        joined(segments(p)) == p,
{
    lemma_segments_join(p);
}

/// An expired trash row's key is among the keys an expiry sweep selects.
pub proof fn lemma_expired_contains(dels: Seq<DelView>, now: i64, x: Seq<char>)
    requires
        exists|d: int| 0 <= d < dels.len() && (#[trigger] dels[d]).hash == x && dels[d].delete_time
            < now,
    ensures
        contains_key_seq(expired_keys(dels, now), x),
    decreases dels.len(),
{
    let d = choose|d: int|
        0 <= d < dels.len() && (#[trigger] dels[d]).hash == x && dels[d].delete_time < now;
    if d == dels.len() - 1 {
        assert(expired_keys(dels, now).last() == x);
    } else {
        assert(dels.drop_last()[d] == dels[d]);
        lemma_expired_contains(dels.drop_last(), now, x);
        let w = choose|w: int|
            0 <= w < expired_keys(dels.drop_last(), now).len() && expired_keys(
                dels.drop_last(),
                now,
            )[w] == x;
        if dels.last().delete_time < now {
            assert(expired_keys(dels, now)[w] == x);
        }
    }
}

/// Trash purge: an entry flagged as deleted at `t` disappears from the index
/// when a sweep runs at any instant past its retention deadline. (At the
/// deadline itself the row is still retained: the sweep removes only rows
/// whose deadline lies strictly in the past.)
pub proof fn lemma_trash_purge(
    pre: Bucket,
    mid: Bucket,
    post: Bucket,
    keys: Seq<Seq<char>>,
    k: Seq<char>,
    t: i64,
    now: i64,
)
    requires
        pre.wf(),
        mid.wf(),
        set_delete_post(pre, mid, keys, t, Ok::<(), BucketError>(())),
        contains_key_seq(keys, k),
        remove_post(mid, post, expired_keys(mid.db.dels(), now)),
        now > retention_deadline(t),
    ensures
        !has_key(post.rows(), k),
{
    let expire = retention_deadline(t);
    let w = choose|w: int| 0 <= w < keys.len() && keys[w] == k;
    assert(mid.db.dels()[pre.db.dels().len() + w] == (DelView { hash: k, delete_time: expire }))
        by {
        assert(dels_added(keys, expire)[w] == (DelView { hash: k, delete_time: expire }));
    }
    lemma_expired_contains(mid.db.dels(), now, k);
    let exp = expired_keys(mid.db.dels(), now);
    let kept = kept_rows(mid.rows(), exp, mid.rows());
    assert(has_key(mid.rows(), k)) by {
        let d = pre.db.dels().len() + w;
        assert(mid.db.dels()[d].hash == k);
    }
    crate::bucket::bucket::lemma_kept_props(mid.rows(), exp, mid.rows(), mid.ents());
    if has_key(post.rows(), k) {
        let q = choose|q: int| 0 <= q < kept.len() && kept[q].key == k;
        let j = choose|j: int|
            0 <= j < mid.rows().len() && #[trigger] kept[q] == mid.rows()[j] && crate::bucket::bucket::kept_ents(
                mid.rows(),
                exp,
                mid.rows(),
                mid.ents(),
            )[q] == mid.ents()[j] && !covered(mid.rows(), exp, mid.rows()[j]);
        assert(mid.rows()[j].key == k);
        let e = choose|e: int| 0 <= e < exp.len() && exp[e] == k;
        let m = key_index(mid.rows(), k);
        if m != j {
            assert(mid.rows()[m].key == k);
        }
        assert(mid.rows()[j].path.subrange(0, mid.rows()[j].path.len() as int) =~= mid.rows()[j].path);
        assert(covers(mid.rows()[j], mid.rows()[j]));
        assert(covered(mid.rows(), exp, mid.rows()[j]));
    }
}

} // verus!
