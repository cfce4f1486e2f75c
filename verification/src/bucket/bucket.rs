use vstd::prelude::*;

use crate::bucket::bucket_db::{
    contains_key_seq, copied_rows, copy_ok, dels_have_key, dels_view, dels_without_keys, has_key,
    has_path, key_index, keys_unique, keys_without_keys, lemma_dels_without_compose,
    lemma_dels_without_keys_membership, lemma_keys_without_compose,
    lemma_keys_without_keys_membership, lemma_without_keys_empty, path_of_key, paths_unique,
    rekey_of, rekeyed_hashes, rows_view, upd_ok, upd_row, upd_rows, BucketDB, DeleteRow, DelView,
    KeyPath, RowView,
};
use vstd::string::StrSliceExecFns;
use crate::bucket::fs_metadata::{clamp_time, mime_of, size_display_of, FsItem, FsMetadata,
    PropertiesItem};
use crate::errors::BucketError;
use crate::hashing::hash_hex_of;
use crate::paths::{
    base_name_of, base_name_str, concat_str, ends_with_slash, extension_of, is_child_path,
    is_dir_path, is_prefix_of, name_ok, name_wf, rename_path, rename_target, replace_prefix,
    starts_with_str, trim_slash,
};
use crate::storage::store::Store;
use vstd::string::StringExecFns;

verus! {

/// How long a soft-deleted entry is retained before it may be swept, in
/// seconds.
pub const RETENTION: i64 = 2592000;

/// Options for a read: metadata only, and whether to include trashed entries.
pub struct GetOptions {
    pub info_only: bool,
    pub get_delete: Option<bool>,
}

/// What `add` creates: an optional parent key, the entry name, and the data
/// bytes — absent for a directory.
pub struct KeyValue {
    pub key: Option<String>,
    pub name: String,
    pub value: Option<Vec<u8>>,
}

/// One breadcrumb segment: the hash key of the sub-path and its title.
pub struct PathItem {
    pub key: String,
    pub title: String,
}

/// The stored side of one entry: its data bytes (empty for directories) and
/// its out-of-band attributes. The path index holds its path and key at the
/// same position.
#[derive(Debug)]
pub struct EntryData {
    pub content: Vec<u8>,
    pub meta: FsMetadata,
}

/// The mathematical shadow of an entry.
pub struct EntryV {
    pub content: Seq<u8>,
    pub meta: FsMetadata,
}

impl View for EntryData {
    type V = EntryV;

    open spec fn view(&self) -> EntryV {
        EntryV { content: self.content@, meta: self.meta }
    }
}

/// The views of a sequence of entries.
pub open spec fn entries_view(es: Seq<EntryData>) -> Seq<EntryV> {
    es.map_values(|e: EntryData| e@)
}

/// One bucket: a per-tenant namespace with its own quota, its path index,
/// and the entries the index rows stand for, in index order.
#[derive(Debug)]
pub struct Bucket {
    pub uuid: String,
    pub path: String,
    pub store: Store,
    pub available_space: u64,
    pub usage_space: u64,
    pub db: BucketDB,
    pub entries: Vec<EntryData>,
}

/// A fresh attribute record stamped with the given instant.
pub open spec fn new_meta(now: u64) -> FsMetadata {
    FsMetadata {
        available_space: 0,
        usage_space: 0,
        deleted: false,
        delete_time: 0,
        favorite: false,
        see_time: now,
        create_at: now,
        update_at: now,
    }
}

/// The key named by an `add` request, as a character sequence.
pub open spec fn kv_key_of(kv: KeyValue) -> Seq<char> {
    match kv.key {
        Option::Some(k) => k@,
        Option::None => Seq::<char>::empty(),
    }
}

/// The parent path an `add` request resolves to: the named key's path, or
/// the bucket root.
pub open spec fn parent_path_spec(rows: Seq<RowView>, kv: KeyValue) -> Seq<char> {
    match kv.key {
        Option::Some(k) => path_of_key(rows, k@),
        Option::None => Seq::<char>::empty(),
    }
}

/// The path an `add` request creates: the parent path, the name, and a
/// trailing slash for a directory.
pub open spec fn add_path_spec(rows: Seq<RowView>, kv: KeyValue) -> Seq<char> {
    parent_path_spec(rows, kv) + kv.name@ + if kv.value is None {
        seq!['/']
    } else {
        Seq::<char>::empty()
    }
}

/// The data bytes an `add` request stores: empty for a directory.
pub open spec fn add_content_spec(kv: KeyValue) -> Seq<u8> {
    match kv.value {
        Option::Some(v) => v@,
        Option::None => Seq::<u8>::empty(),
    }
}

/// What one `add` does, stamped at `now`: each failure with the inputs on
/// which it comes, leaving the bucket unchanged, and on success the fresh
/// row, entry, and quota growth.
pub open spec fn add_post(
    pre: Bucket,
    post: Bucket,
    kv: KeyValue,
    now: u64,
    r: Result<String, BucketError>,
) -> bool {
    let rows = pre.rows();
    let pp = parent_path_spec(rows, kv);
    let path = add_path_spec(rows, kv);
    let h = hash_hex_of(path);
    if kv.key is Some && !has_key(rows, kv_key_of(kv)) {
        r == Err::<String, BucketError>(BucketError::NotFound) && post == pre
    } else if kv.key is Some && !is_dir_path(pp) {
        r == Err::<String, BucketError>(BucketError::NotADirectory) && post == pre
    } else if !name_wf(kv.name@) {
        r == Err::<String, BucketError>(BucketError::InvalidInput) && post == pre
    } else if kv.value is Some && pre.usage_space + add_content_spec(kv).len()
        > pre.available_space {
        r == Err::<String, BucketError>(BucketError::StorageFull) && post == pre
    } else if has_key(rows, h) || has_path(rows, path) {
        r == Err::<String, BucketError>(BucketError::AlreadyExists) && post == pre
    } else {
        &&& r matches Ok(v) && v@ == h
        &&& post.rows() == rows.push(RowView { key: h, path, is_dir: kv.value is None })
        &&& post.ents() == pre.ents().push(
            EntryV { content: add_content_spec(kv), meta: new_meta(now) },
        )
        &&& post.db.dels() == pre.db.dels()
        &&& post.db.favs() == pre.db.favs()
        &&& post.usage_space == pre.usage_space + add_content_spec(kv).len()
        &&& post.available_space == pre.available_space
        &&& post.uuid == pre.uuid
        &&& post.path == pre.path
        &&& post.store == pre.store
    }
}

/// The read-shape `item` describes the entry `e` at the row `row`, with the
/// given data bytes attached, if any.
pub open spec fn item_matches(item: FsItem, row: RowView, e: EntryV, buf: Option<Seq<u8>>) -> bool {
    &&& item.name@ == base_name_of(row.path)
    &&& item.hash@ == hash_hex_of(trim_slash(row.path))
    &&& item.size@ == size_display_of(e.content.len() as u64)
    &&& item.file_type@ == extension_of(base_name_of(row.path))
    &&& item.mime_type@ == mime_of(row.path)
    &&& item.is_dir == row.is_dir
    &&& item.is_favorite == e.meta.favorite
    &&& item.is_delete == e.meta.deleted
    &&& item.see_time == e.meta.see_time
    &&& item.delete_at == Option::Some(clamp_time(e.meta.delete_time))
    &&& match buf {
        Option::Some(b) => item.buffer matches Some(v) && v@ == b,
        Option::None => item.buffer is None,
    }
}

/// The property sheet `p` describes the entry `e` at the row `row`.
pub open spec fn props_matches(p: PropertiesItem, row: RowView, e: EntryV) -> bool {
    &&& p.name@ == base_name_of(row.path)
    &&& p.hash@ == hash_hex_of(trim_slash(row.path))
    &&& p.is_dir == row.is_dir
    &&& p.owner == 0
    &&& p.create_at == e.meta.create_at
    &&& p.update_at == e.meta.update_at
    &&& p.see_time == e.meta.see_time
    &&& p.is_favorite == e.meta.favorite
    &&& p.is_delete == e.meta.deleted
    &&& p.description@ == Seq::<char>::empty()
    &&& p.size == e.content.len()
}

/// The destination path of a move or copy: the target directory, the
/// source's final component, and the source's directory form.
pub open spec fn move_dest_spec(fromp: Seq<char>, top: Seq<char>) -> Seq<char> {
    top + base_name_of(fromp) + if is_dir_path(fromp) {
        seq!['/']
    } else {
        Seq::<char>::empty()
    }
}

/// What a successful subtree re-keying (rename or move) does: every row whose
/// path starts with `oldp` gets the prefix replaced by `newp` and the hash of
/// its new path as key; the returned keys are the re-keyed rows', in table
/// order; the sidecars follow their rows; the entries and the quota stand.
pub open spec fn rekey_post(
    pre: Bucket,
    post: Bucket,
    oldp: Seq<char>,
    newp: Seq<char>,
    v: Seq<Seq<char>>,
) -> bool {
    &&& post.rows() == upd_rows(pre.rows(), oldp, newp)
    &&& v == rekeyed_hashes(pre.rows(), oldp, newp)
    &&& post.ents() == pre.ents()
    &&& post.db.dels().len() == pre.db.dels().len()
    &&& forall|i: int|
        0 <= i < pre.db.dels().len() ==> post.db.dels()[i].hash == rekey_of(
            pre.rows(),
            oldp,
            newp,
            (#[trigger] pre.db.dels()[i]).hash,
        ) && post.db.dels()[i].delete_time == pre.db.dels()[i].delete_time
    &&& post.db.favs().len() == pre.db.favs().len()
    &&& forall|i: int|
        0 <= i < pre.db.favs().len() ==> post.db.favs()[i] == rekey_of(
            pre.rows(),
            oldp,
            newp,
            #[trigger] pre.db.favs()[i],
        )
    &&& post.usage_space == pre.usage_space
    &&& post.available_space == pre.available_space
    &&& post.uuid == pre.uuid
    &&& post.path == pre.path
    &&& post.store == pre.store
}

/// What a successful subtree copy does: the rows a prefix rewrite selects are
/// appended, rewritten and re-keyed; their data is duplicated under fresh
/// attribute records; the originals, the sidecars and the quota stand; the
/// returned keys are the new rows', in table order.
pub open spec fn copy_post(
    pre: Bucket,
    post: Bucket,
    fromp: Seq<char>,
    dest: Seq<char>,
    v: Seq<Seq<char>>,
) -> bool {
    &&& v == rekeyed_hashes(pre.rows(), fromp, dest)
    &&& post.rows() == pre.rows() + copied_rows(pre.rows(), fromp, dest)
    &&& post.ents() == pre.ents() + copied_ents(pre.rows(), pre.ents(), fromp)
    &&& post.db.dels() == pre.db.dels()
    &&& post.db.favs() == pre.db.favs()
    &&& post.usage_space == pre.usage_space
    &&& post.available_space == pre.available_space
    &&& post.uuid == pre.uuid
    &&& post.path == pre.path
    &&& post.store == pre.store
}

/// A rename target keeps the directory form of the path it renames, and is
/// never empty.
pub proof fn lemma_rename_form(oldp: Seq<char>, name: Seq<char>)
    requires
        name_wf(name),
    ensures
        rename_path(oldp, name).len() > 0,
        is_dir_path(rename_path(oldp, name)) <==> is_dir_path(oldp),
{
    let r = rename_path(oldp, name);
    if is_dir_path(oldp) {
        assert(r[r.len() - 1] == '/');
    } else {
        assert(r =~= crate::paths::dir_prefix_of(oldp) + name);
        assert(r[r.len() - 1] == name[name.len() - 1]);
    }
}

/// A move destination keeps the directory form of the path it moves, and is
/// never empty.
pub proof fn lemma_move_dest_form(fromp: Seq<char>, top: Seq<char>)
    requires
        fromp.len() > 0,
        top.len() > 0,
    ensures
        move_dest_spec(fromp, top).len() > 0,
        is_dir_path(move_dest_spec(fromp, top)) <==> is_dir_path(fromp),
{
    let d = move_dest_spec(fromp, top);
    if is_dir_path(fromp) {
        assert(d[d.len() - 1] == '/');
    } else {
        crate::paths::lemma_last_slash(fromp);
        let ls = crate::paths::last_slash(fromp);
        assert(trim_slash(fromp) == fromp);
        if ls == fromp.len() - 1 {
            assert(fromp[fromp.len() - 1] == '/');
        }
        let base = base_name_of(fromp);
        assert(base.len() > 0);
        assert(d =~= top + base);
        assert(d[d.len() - 1] == base[base.len() - 1]);
        assert(base[base.len() - 1] == fromp[fromp.len() - 1]);
    }
}

/// A successful re-keying keeps the bucket well formed.
pub proof fn lemma_rekey_wf(pre: Bucket, post: Bucket, oldp: Seq<char>, newp: Seq<char>)
    requires
        pre.wf(),
        newp.len() > 0,
        is_dir_path(newp) <==> is_dir_path(oldp),
        upd_ok(pre.rows(), oldp, newp),
        post.db.wf(),
        post.rows() == upd_rows(pre.rows(), oldp, newp),
        post.ents() == pre.ents(),
        post.db.dels().len() == pre.db.dels().len(),
        forall|i: int|
            0 <= i < pre.db.dels().len() ==> post.db.dels()[i].hash == rekey_of(
                pre.rows(),
                oldp,
                newp,
                (#[trigger] pre.db.dels()[i]).hash,
            ) && post.db.dels()[i].delete_time == pre.db.dels()[i].delete_time,
        post.db.favs().len() == pre.db.favs().len(),
        forall|i: int|
            0 <= i < pre.db.favs().len() ==> post.db.favs()[i] == rekey_of(
                pre.rows(),
                oldp,
                newp,
                #[trigger] pre.db.favs()[i],
            ),
        post.usage_space == pre.usage_space,
        post.available_space == pre.available_space,
    ensures
        post.wf(),
{
    let rows = pre.rows();
    let urows = upd_rows(rows, oldp, newp);
    assert forall|i: int| 0 <= i < urows.len() implies (#[trigger] urows[i]).key == hash_hex_of(
        urows[i].path,
    ) && urows[i].path.len() > 0 && (urows[i].is_dir <==> is_dir_path(urows[i].path)) by {
        assert(urows[i] == upd_row(rows[i], oldp, newp));
        if is_prefix_of(oldp, rows[i].path) {
            let p = rows[i].path;
            let np = replace_prefix(p, oldp, newp);
            if p.len() == oldp.len() {
                assert(p =~= oldp);
                assert(np =~= newp);
            } else {
                assert(np[np.len() - 1] == p[p.len() - 1]);
            }
        }
    }
    assert forall|i: int| 0 <= i < urows.len() implies (urows[i].is_dir ==> (
    #[trigger] post.ents()[i]).content.len() == 0) by {
        assert(urows[i] == upd_row(rows[i], oldp, newp));
        assert(post.ents()[i] == pre.ents()[i]);
    }
    assert forall|i: int| 0 <= i < urows.len() implies ((#[trigger] post.ents()[i]).meta.deleted
        <==> dels_have_key(post.db.dels(), urows[i].key)) by {
        assert(urows[i] == upd_row(rows[i], oldp, newp));
        assert(post.ents()[i] == pre.ents()[i]);
        if pre.ents()[i].meta.deleted {
            let w = choose|w: int|
                0 <= w < pre.db.dels().len() && pre.db.dels()[w].hash == rows[i].key;
            assert(post.db.dels()[w].hash == rekey_of(rows, oldp, newp, pre.db.dels()[w].hash));
            let m = key_index(rows, rows[i].key);
            if m != i {
                assert(rows[m].key == rows[i].key);
            }
            assert(post.db.dels()[w].hash == urows[i].key);
        }
        if dels_have_key(post.db.dels(), urows[i].key) {
            let w = choose|w: int|
                0 <= w < post.db.dels().len() && post.db.dels()[w].hash == urows[i].key;
            assert(post.db.dels()[w].hash == rekey_of(rows, oldp, newp, pre.db.dels()[w].hash));
            assert(has_key(rows, pre.db.dels()[w].hash));
            let m = key_index(rows, pre.db.dels()[w].hash);
            assert(rows[m].key == pre.db.dels()[w].hash);
            assert(urows[m] == upd_row(rows[m], oldp, newp));
            if m != i {
                assert(urows[m].key != urows[i].key);
            }
            assert(pre.ents()[i].meta.deleted);
        }
    }
    assert forall|i: int| 0 <= i < urows.len() implies ((#[trigger] post.ents()[i]).meta.favorite
        <==> contains_key_seq(post.db.favs(), urows[i].key)) by {
        assert(urows[i] == upd_row(rows[i], oldp, newp));
        assert(post.ents()[i] == pre.ents()[i]);
        if pre.ents()[i].meta.favorite {
            let w = choose|w: int| 0 <= w < pre.db.favs().len() && pre.db.favs()[w] == rows[i].key;
            assert(post.db.favs()[w] == rekey_of(rows, oldp, newp, pre.db.favs()[w]));
            let m = key_index(rows, rows[i].key);
            if m != i {
                assert(rows[m].key == rows[i].key);
            }
            assert(post.db.favs()[w] == urows[i].key);
        }
        if contains_key_seq(post.db.favs(), urows[i].key) {
            let w = choose|w: int|
                0 <= w < post.db.favs().len() && post.db.favs()[w] == urows[i].key;
            assert(post.db.favs()[w] == rekey_of(rows, oldp, newp, pre.db.favs()[w]));
            assert(has_key(rows, pre.db.favs()[w]));
            let m = key_index(rows, pre.db.favs()[w]);
            assert(rows[m].key == pre.db.favs()[w]);
            assert(urows[m] == upd_row(rows[m], oldp, newp));
            if m != i {
                assert(urows[m].key != urows[i].key);
            }
            assert(pre.ents()[i].meta.favorite);
        }
    }
}

/// The entries a subtree copy appends: for each row whose path starts with
/// `fromp`, a copy of its data under a fresh, unstamped attribute record —
/// copies carry no favorite or deletion marks.
pub open spec fn copied_ents(
    rows: Seq<RowView>,
    ents: Seq<EntryV>,
    fromp: Seq<char>,
) -> Seq<EntryV>
    decreases rows.len(),
{
    if rows.len() == 0 {
        Seq::<EntryV>::empty()
    } else {
        let rest = copied_ents(rows.drop_last(), ents.drop_last(), fromp);
        if is_prefix_of(fromp, rows.last().path) {
            rest.push(EntryV { content: ents.last().content, meta: new_meta(0) })
        } else {
            rest
        }
    }
}

/// A successful subtree copy keeps the bucket well formed.
pub proof fn lemma_copy_wf(pre: Bucket, post: Bucket, fromp: Seq<char>, dest: Seq<char>)
    requires
        pre.wf(),
        dest.len() > 0,
        is_dir_path(dest) <==> is_dir_path(fromp),
        copy_ok(pre.rows(), fromp, dest),
        post.db.wf(),
        post.rows() == pre.rows() + copied_rows(pre.rows(), fromp, dest),
        post.ents() == pre.ents() + copied_ents(pre.rows(), pre.ents(), fromp),
        post.db.dels() == pre.db.dels(),
        post.db.favs() == pre.db.favs(),
        post.usage_space == pre.usage_space,
        post.available_space == pre.available_space,
    ensures
        post.wf(),
{
    let rows = pre.rows();
    let ents = pre.ents();
    let crows = copied_rows(rows, fromp, dest);
    let cents = copied_ents(rows, ents, fromp);
    lemma_copied_pointwise(rows, ents, fromp, dest);
    assert(post.ents().len() == post.rows().len());
    assert forall|i: int| 0 <= i < post.rows().len() implies (#[trigger] post.rows()[i]).key
        == hash_hex_of(post.rows()[i].path) && post.rows()[i].path.len() > 0 && (
    post.rows()[i].is_dir <==> is_dir_path(post.rows()[i].path)) && (post.rows()[i].is_dir ==> (
    post.ents()[i]).content.len() == 0) by {
        if i < rows.len() {
            assert(post.rows()[i] == rows[i]);
            assert(post.ents()[i] == ents[i]);
        } else {
            let k = i - rows.len();
            assert(post.rows()[i] == crows[k]);
            assert(post.ents()[i] == cents[k]);
            assert(copied_from(rows, ents, fromp, dest, k));
            let w = choose|w: int|
                0 <= w < rows.len() && is_prefix_of(fromp, (#[trigger] rows[w]).path) && crows[k]
                    == upd_row(rows[w], fromp, dest) && cents[k] == (EntryV {
                    content: ents[w].content,
                    meta: new_meta(0),
                });
            let p = rows[w].path;
            let np = replace_prefix(p, fromp, dest);
            if p.len() == fromp.len() {
                assert(p =~= fromp);
                assert(np =~= dest);
            } else {
                assert(np[np.len() - 1] == p[p.len() - 1]);
            }
        }
    }
    assert forall|i: int| 0 <= i < post.rows().len() implies ((
    #[trigger] post.ents()[i]).meta.deleted <==> dels_have_key(
        post.db.dels(),
        post.rows()[i].key,
    )) && ((post.ents()[i]).meta.favorite <==> contains_key_seq(
        post.db.favs(),
        post.rows()[i].key,
    )) by {
        if i < rows.len() {
            assert(post.rows()[i] == rows[i]);
            assert(post.ents()[i] == ents[i]);
        } else {
            let k = i - rows.len();
            assert(post.rows()[i] == crows[k]);
            assert(post.ents()[i] == cents[k]);
            assert(copied_from(rows, ents, fromp, dest, k));
            let w = choose|w: int|
                0 <= w < rows.len() && is_prefix_of(fromp, (#[trigger] rows[w]).path) && crows[k]
                    == upd_row(rows[w], fromp, dest) && cents[k] == (EntryV {
                    content: ents[w].content,
                    meta: new_meta(0),
                });
            if dels_have_key(post.db.dels(), post.rows()[i].key) {
                let d = choose|d: int|
                    0 <= d < pre.db.dels().len() && pre.db.dels()[d].hash == post.rows()[i].key;
                assert(has_key(rows, pre.db.dels()[d].hash));
                let m = choose|m: int|
                    0 <= m < rows.len() && rows[m].key == pre.db.dels()[d].hash;
                assert(post.rows()[m] == rows[m]);
                assert(keys_unique(post.rows()));
                assert(post.rows()[m].key == post.rows()[i].key);
                assert(m < rows.len() <= i);
                assert(false);
            }
            if contains_key_seq(post.db.favs(), post.rows()[i].key) {
                let d = choose|d: int|
                    0 <= d < pre.db.favs().len() && pre.db.favs()[d] == post.rows()[i].key;
                assert(has_key(rows, pre.db.favs()[d]));
                let m = choose|m: int|
                    0 <= m < rows.len() && rows[m].key == pre.db.favs()[d];
                assert(post.rows()[m] == rows[m]);
                assert(keys_unique(post.rows()));
                assert(post.rows()[m].key == post.rows()[i].key);
                assert(m < rows.len() <= i);
                assert(false);
            }
        }
    }
}

/// Position `k` of the copied rows and entries comes from some selected
/// source row, already rewritten, its data duplicated under a fresh record.
pub open spec fn copied_from(
    rows: Seq<RowView>,
    ents: Seq<EntryV>,
    fromp: Seq<char>,
    dest: Seq<char>,
    k: int,
) -> bool {
    exists|w: int|
        0 <= w < rows.len() && is_prefix_of(fromp, (#[trigger] rows[w]).path) && copied_rows(
            rows,
            fromp,
            dest,
        )[k] == upd_row(rows[w], fromp, dest) && copied_ents(rows, ents, fromp)[k] == (EntryV {
            content: ents[w].content,
            meta: new_meta(0),
        })
}

/// Every copied row and entry pair comes from a selected source row, already
/// rewritten, and the two sequences have the same length.
pub proof fn lemma_copied_pointwise(
    rows: Seq<RowView>,
    ents: Seq<EntryV>,
    fromp: Seq<char>,
    dest: Seq<char>,
)
    requires
        ents.len() == rows.len(),
    ensures
        copied_ents(rows, ents, fromp).len() == copied_rows(rows, fromp, dest).len(),
        forall|k: int|
            0 <= k < copied_rows(rows, fromp, dest).len() ==> #[trigger] copied_from(
                rows,
                ents,
                fromp,
                dest,
                k,
            ),
    decreases rows.len(),
{
    if rows.len() == 0 {
        assert(copied_rows(rows, fromp, dest) =~= Seq::<RowView>::empty());
        assert(copied_ents(rows, ents, fromp) =~= Seq::<EntryV>::empty());
    } else {
        lemma_copied_pointwise(rows.drop_last(), ents.drop_last(), fromp, dest);
        let crows = copied_rows(rows, fromp, dest);
        let cents = copied_ents(rows, ents, fromp);
        let prows = copied_rows(rows.drop_last(), fromp, dest);
        let pents = copied_ents(rows.drop_last(), ents.drop_last(), fromp);
        assert forall|k: int| 0 <= k < crows.len() implies #[trigger] copied_from(
            rows,
            ents,
            fromp,
            dest,
            k,
        ) by {
            if k < prows.len() {
                assert(copied_from(rows.drop_last(), ents.drop_last(), fromp, dest, k));
                let w = choose|w: int|
                    0 <= w < rows.drop_last().len() && is_prefix_of(
                        fromp,
                        (#[trigger] rows.drop_last()[w]).path,
                    ) && prows[k] == upd_row(rows.drop_last()[w], fromp, dest) && pents[k] == (
                    EntryV { content: ents.drop_last()[w].content, meta: new_meta(0) });
                assert(rows[w] == rows.drop_last()[w]);
                assert(ents[w] == ents.drop_last()[w]);
                assert(crows[k] == prows[k] && cents[k] == pents[k]);
                assert(0 <= w < rows.len() && is_prefix_of(fromp, rows[w].path) && crows[k]
                    == upd_row(rows[w], fromp, dest) && cents[k] == (EntryV {
                    content: ents[w].content,
                    meta: new_meta(0),
                }));
            } else {
                let w = rows.len() - 1;
                assert(is_prefix_of(fromp, rows.last().path));
                assert(rows[w] == rows.last());
                assert(ents[w] == ents.last());
                assert(crows[k] == upd_row(rows[w], fromp, dest));
                assert(cents[k] == (EntryV { content: ents[w].content, meta: new_meta(0) }));
                assert(0 <= w < rows.len() && is_prefix_of(fromp, rows[w].path) && crows[k]
                    == upd_row(rows[w], fromp, dest) && cents[k] == (EntryV {
                    content: ents[w].content,
                    meta: new_meta(0),
                }));
            }
        }
    }
}

/// All the favorite marks can be set in order: each key has a row and is not
/// already marked, the earlier keys of the list counted as marked.
pub open spec fn favs_apply_ok(
    rows: Seq<RowView>,
    favs: Seq<Seq<char>>,
    keys: Seq<Seq<char>>,
) -> bool
    decreases keys.len(),
{
    keys.len() == 0 || (has_key(rows, keys[0]) && !contains_key_seq(favs, keys[0])
        && favs_apply_ok(rows, favs.push(keys[0]), keys.skip(1)))
}

/// The first failure that setting the favorite marks in order meets.
pub open spec fn favs_apply_err(
    rows: Seq<RowView>,
    favs: Seq<Seq<char>>,
    keys: Seq<Seq<char>>,
) -> BucketError
    decreases keys.len(),
{
    if keys.len() == 0 {
        BucketError::Io
    } else if !has_key(rows, keys[0]) {
        BucketError::NotFound
    } else if contains_key_seq(favs, keys[0]) {
        BucketError::AlreadyExists
    } else {
        favs_apply_err(rows, favs.push(keys[0]), keys.skip(1))
    }
}

/// All the trash rows can be inserted in order: each key has a row and is not
/// already trashed, the earlier keys of the list counted as trashed.
pub open spec fn dels_apply_ok(
    rows: Seq<RowView>,
    dels: Seq<DelView>,
    keys: Seq<Seq<char>>,
    expire: i64,
) -> bool
    decreases keys.len(),
{
    keys.len() == 0 || (has_key(rows, keys[0]) && !dels_have_key(dels, keys[0]) && dels_apply_ok(
        rows,
        dels.push(DelView { hash: keys[0], delete_time: expire }),
        keys.skip(1),
        expire,
    ))
}

/// The first failure that inserting the trash rows in order meets.
pub open spec fn dels_apply_err(
    rows: Seq<RowView>,
    dels: Seq<DelView>,
    keys: Seq<Seq<char>>,
    expire: i64,
) -> BucketError
    decreases keys.len(),
{
    if keys.len() == 0 {
        BucketError::Io
    } else if !has_key(rows, keys[0]) {
        BucketError::NotFound
    } else if dels_have_key(dels, keys[0]) {
        BucketError::AlreadyExists
    } else {
        dels_apply_err(
            rows,
            dels.push(DelView { hash: keys[0], delete_time: expire }),
            keys.skip(1),
            expire,
        )
    }
}

/// The trash rows that deleting the listed keys inserts, in list order.
pub open spec fn dels_added(keys: Seq<Seq<char>>, expire: i64) -> Seq<DelView> {
    keys.map_values(|k: Seq<char>| DelView { hash: k, delete_time: expire })
}

/// What flagging the listed entries as deleted at `now` does: each failure
/// with the inputs on which it comes, leaving the bucket unchanged, and on
/// success the recorded instants, the inserted trash rows, and nothing else.
pub open spec fn set_delete_post(
    pre: Bucket,
    post: Bucket,
    keys: Seq<Seq<char>>,
    now: i64,
    r: Result<(), BucketError>,
) -> bool {
    let expire = retention_deadline(now);
    if dels_apply_ok(pre.rows(), pre.db.dels(), keys, expire) {
        &&& r == Ok::<(), BucketError>(())
        &&& post.db.dels() == pre.db.dels() + dels_added(keys, expire)
        &&& post.rows() == pre.rows()
        &&& post.db.favs() == pre.db.favs()
        &&& post.ents().len() == pre.ents().len()
        &&& forall|i: int|
            0 <= i < pre.ents().len() ==> (#[trigger] post.ents()[i]).content
                == pre.ents()[i].content && post.ents()[i].meta == (FsMetadata {
                deleted: pre.ents()[i].meta.deleted || contains_key_seq(keys, pre.rows()[i].key),
                delete_time: if contains_key_seq(keys, pre.rows()[i].key) {
                    now
                } else {
                    pre.ents()[i].meta.delete_time
                },
                ..pre.ents()[i].meta
            })
        &&& post.usage_space == pre.usage_space
        &&& post.available_space == pre.available_space
        &&& post.uuid == pre.uuid
        &&& post.path == pre.path
        &&& post.store == pre.store
    } else {
        r == Err::<(), BucketError>(dels_apply_err(pre.rows(), pre.db.dels(), keys, expire)) && post
            == pre
    }
}

/// The directory path a listing resolves: the named key's path, or the
/// bucket root.
pub open spec fn get_items_dir(rows: Seq<RowView>, key: Option<&String>) -> Seq<char> {
    match key {
        Option::None => Seq::<char>::empty(),
        Option::Some(k) => path_of_key(rows, k@),
    }
}

/// The positions of the live direct children of the directory path `dirp`,
/// in table order: rows directly inside it whose entries are not flagged as
/// deleted.
pub open spec fn child_indices(rows: Seq<RowView>, ents: Seq<EntryV>, dirp: Seq<char>) -> Seq<int>
    decreases rows.len(),
{
    if rows.len() == 0 {
        Seq::<int>::empty()
    } else {
        let rest = child_indices(rows.drop_last(), ents.drop_last(), dirp);
        if is_child_path(dirp, rows.last().path) && !ents.last().meta.deleted {
            rest.push(rows.len() - 1)
        } else {
            rest
        }
    }
}

/// The positions of the live favorite entries, in the order the marks were
/// set: rows the favorite keys name whose entries are not flagged as deleted.
pub open spec fn fav_indices(rows: Seq<RowView>, ents: Seq<EntryV>, favs: Seq<Seq<char>>) -> Seq<
    int,
>
    decreases favs.len(),
{
    if favs.len() == 0 {
        Seq::<int>::empty()
    } else {
        let rest = fav_indices(rows, ents, favs.drop_last());
        let k = favs.last();
        if has_key(rows, k) && !ents[key_index(rows, k)].meta.deleted {
            rest.push(key_index(rows, k))
        } else {
            rest
        }
    }
}

/// The positions of the trashed entries, in the order the trash rows were
/// inserted.
pub open spec fn del_indices(rows: Seq<RowView>, dels: Seq<DelView>) -> Seq<int>
    decreases dels.len(),
{
    if dels.len() == 0 {
        Seq::<int>::empty()
    } else {
        let rest = del_indices(rows, dels.drop_last());
        if has_key(rows, dels.last().hash) {
            rest.push(key_index(rows, dels.last().hash))
        } else {
            rest
        }
    }
}

/// One root row takes a row with it when it is removed: itself alone for a
/// file, every row under its path for a directory.
pub open spec fn covers(root: RowView, row: RowView) -> bool {
    if root.is_dir {
        is_prefix_of(root.path, row.path)
    } else {
        row.path == root.path
    }
}

/// Some listed root key resolves, in the original table, to a row that takes
/// this row with it.
pub open spec fn covered(rows: Seq<RowView>, roots: Seq<Seq<char>>, row: RowView) -> bool {
    exists|i: int|
        0 <= i < roots.len() && has_key(rows, roots[i]) && covers(
            rows[key_index(rows, roots[i])],
            row,
        )
}

/// The rows that survive removing the subtrees the roots cover, in order.
pub open spec fn kept_rows(
    rows0: Seq<RowView>,
    roots: Seq<Seq<char>>,
    rows: Seq<RowView>,
) -> Seq<RowView>
    decreases rows.len(),
{
    if rows.len() == 0 {
        Seq::<RowView>::empty()
    } else {
        let rest = kept_rows(rows0, roots, rows.drop_last());
        if covered(rows0, roots, rows.last()) {
            rest
        } else {
            rest.push(rows.last())
        }
    }
}

/// The entries that survive, in step with `kept_rows`.
pub open spec fn kept_ents(
    rows0: Seq<RowView>,
    roots: Seq<Seq<char>>,
    rows: Seq<RowView>,
    ents: Seq<EntryV>,
) -> Seq<EntryV>
    decreases rows.len(),
{
    if rows.len() == 0 {
        Seq::<EntryV>::empty()
    } else {
        let rest = kept_ents(rows0, roots, rows.drop_last(), ents.drop_last());
        if covered(rows0, roots, rows.last()) {
            rest
        } else {
            rest.push(ents.last())
        }
    }
}

/// The exact byte total of the removed entries' data.
pub open spec fn removed_bytes(
    rows0: Seq<RowView>,
    roots: Seq<Seq<char>>,
    rows: Seq<RowView>,
    ents: Seq<EntryV>,
) -> int
    decreases rows.len(),
{
    if rows.len() == 0 {
        0
    } else {
        let rest = removed_bytes(rows0, roots, rows.drop_last(), ents.drop_last());
        if covered(rows0, roots, rows.last()) {
            rest + ents.last().content.len()
        } else {
            rest
        }
    }
}

/// A usage counter after subtracting an exact byte total, saturating at zero.
pub open spec fn sat_sub_u64(a: u64, b: int) -> u64 {
    if b >= a {
        0
    } else {
        (a - b) as u64
    }
}

/// The trash rows whose entries' rows survive.
pub open spec fn dels_with_rows(dels: Seq<DelView>, kept: Seq<RowView>) -> Seq<DelView>
    decreases dels.len(),
{
    if dels.len() == 0 {
        Seq::<DelView>::empty()
    } else {
        let rest = dels_with_rows(dels.drop_last(), kept);
        if has_key(kept, dels.last().hash) {
            rest.push(dels.last())
        } else {
            rest
        }
    }
}

/// The favorite keys whose entries' rows survive.
pub open spec fn favs_with_rows(favs: Seq<Seq<char>>, kept: Seq<RowView>) -> Seq<Seq<char>>
    decreases favs.len(),
{
    if favs.len() == 0 {
        Seq::<Seq<char>>::empty()
    } else {
        let rest = favs_with_rows(favs.drop_last(), kept);
        if has_key(kept, favs.last()) {
            rest.push(favs.last())
        } else {
            rest
        }
    }
}

/// What survives a covered removal: pairs of the original table, none of
/// them covered, in order, with uniqueness carried over; every uncovered row
/// survives; removed bytes are never negative.
pub proof fn lemma_kept_props(
    rows0: Seq<RowView>,
    roots: Seq<Seq<char>>,
    rows: Seq<RowView>,
    ents: Seq<EntryV>,
)
    requires
        ents.len() == rows.len(),
    ensures
        kept_ents(rows0, roots, rows, ents).len() == kept_rows(rows0, roots, rows).len(),
        removed_bytes(rows0, roots, rows, ents) >= 0,
        forall|q: int|
            0 <= q < kept_rows(rows0, roots, rows).len() ==> exists|w: int|
                0 <= w < rows.len() && #[trigger] kept_rows(rows0, roots, rows)[q] == rows[w]
                    && kept_ents(rows0, roots, rows, ents)[q] == ents[w] && !covered(
                    rows0,
                    roots,
                    rows[w],
                ),
        keys_unique(rows) ==> keys_unique(kept_rows(rows0, roots, rows)),
        paths_unique(rows) ==> paths_unique(kept_rows(rows0, roots, rows)),
        keys_unique(rows) ==> forall|h: Seq<char>|
            (exists|w: int|
                0 <= w < rows.len() && rows[w].key == h && !covered(rows0, roots, rows[w]))
                ==> #[trigger] has_key(kept_rows(rows0, roots, rows), h),
    decreases rows.len(),
{
    if rows.len() == 0 {
    } else {
        let prows = rows.drop_last();
        let pents = ents.drop_last();
        lemma_kept_props(rows0, roots, prows, pents);
        let rest = kept_rows(rows0, roots, prows);
        let cur = kept_rows(rows0, roots, rows);
        assert forall|q: int| 0 <= q < rest.len() implies exists|w: int|
            0 <= w < rows.len() && #[trigger] rest[q] == rows[w] && kept_ents(
                rows0,
                roots,
                rows,
                ents,
            )[q] == ents[w] && !covered(rows0, roots, rows[w]) by {
            let w = choose|w: int|
                0 <= w < prows.len() && #[trigger] rest[q] == prows[w] && kept_ents(
                    rows0,
                    roots,
                    prows,
                    pents,
                )[q] == pents[w] && !covered(rows0, roots, prows[w]);
            assert(rows[w] == prows[w] && ents[w] == pents[w]);
        }
        if !covered(rows0, roots, rows.last()) {
            assert(rows[rows.len() - 1] == cur.last());
            assert(ents[ents.len() - 1] == kept_ents(rows0, roots, rows, ents).last());
        }
        if keys_unique(rows) {
            assert forall|i: int, j: int| 0 <= i < j < prows.len() implies prows[i].key
                != prows[j].key by {
                assert(rows[i] == prows[i] && rows[j] == prows[j]);
            }
            if !covered(rows0, roots, rows.last()) {
                assert forall|i: int| 0 <= i < rest.len() implies rest[i].key
                    != rows.last().key by {
                    let w = choose|w: int| 0 <= w < prows.len() && prows[w] == rest[i];
                    assert(rows[w] == prows[w]);
                    assert(rows[w].key != rows[rows.len() - 1].key);
                }
            }
            assert forall|h: Seq<char>|
                (exists|w: int|
                    0 <= w < rows.len() && rows[w].key == h && !covered(
                        rows0,
                        roots,
                        rows[w],
                    )) implies #[trigger] has_key(cur, h) by {
                let w = choose|w: int|
                    0 <= w < rows.len() && rows[w].key == h && !covered(rows0, roots, rows[w]);
                if w == rows.len() - 1 {
                    assert(cur.last().key == h);
                } else {
                    assert(prows[w] == rows[w]);
                    assert(has_key(kept_rows(rows0, roots, prows), h));
                    let v = choose|v: int| 0 <= v < rest.len() && rest[v].key == h;
                    assert(cur[v].key == h);
                }
            }
        }
        if paths_unique(rows) {
            assert forall|i: int, j: int| 0 <= i < j < prows.len() implies prows[i].path
                != prows[j].path by {
                assert(rows[i] == prows[i] && rows[j] == prows[j]);
            }
            if !covered(rows0, roots, rows.last()) {
                assert forall|i: int| 0 <= i < rest.len() implies rest[i].path
                    != rows.last().path by {
                    let w = choose|w: int| 0 <= w < prows.len() && prows[w] == rest[i];
                    assert(rows[w] == prows[w]);
                    assert(rows[w].path != rows[rows.len() - 1].path);
                }
            }
        }
    }
}

/// Membership in `dels_with_rows`: a trash row is kept exactly when its key
/// was there and its entry's row survived.
pub proof fn lemma_dels_with_rows_membership(dels: Seq<DelView>, kept: Seq<RowView>, x: Seq<char>)
    ensures
        dels_have_key(dels_with_rows(dels, kept), x) <==> (dels_have_key(dels, x) && has_key(
            kept,
            x,
        )),
        forall|i: int, j: int|
            (forall|a: int, b: int| 0 <= a < b < dels.len() ==> dels[a].hash != dels[b].hash) && 0
                <= i < j < dels_with_rows(dels, kept).len() ==> dels_with_rows(dels, kept)[i].hash
                != dels_with_rows(dels, kept)[j].hash,
        forall|i: int|
            0 <= i < dels_with_rows(dels, kept).len() ==> has_key(
                kept,
                (#[trigger] dels_with_rows(dels, kept)[i]).hash,
            ),
    decreases dels.len(),
{
    if dels.len() == 0 {
    } else {
        let prev = dels.drop_last();
        lemma_dels_with_rows_membership(prev, kept, x);
        let rest = dels_with_rows(prev, kept);
        let cur = dels_with_rows(dels, kept);
        if dels_have_key(cur, x) {
            let w = choose|w: int| 0 <= w < cur.len() && cur[w].hash == x;
            if has_key(kept, dels.last().hash) && w == cur.len() - 1 {
                assert(dels[dels.len() - 1].hash == x);
            } else {
                assert(rest[w].hash == x);
                assert(dels_have_key(rest, x));
                let v = choose|v: int| 0 <= v < prev.len() && prev[v].hash == x;
                assert(dels[v].hash == x);
            }
        }
        if dels_have_key(dels, x) && has_key(kept, x) {
            let w = choose|w: int| 0 <= w < dels.len() && dels[w].hash == x;
            if w == dels.len() - 1 {
                assert(cur.last().hash == x);
            } else {
                assert(prev[w].hash == x);
                assert(dels_have_key(prev, x));
                let v = choose|v: int| 0 <= v < rest.len() && rest[v].hash == x;
                assert(cur[v].hash == x);
            }
        }
        if forall|a: int, b: int| 0 <= a < b < dels.len() ==> dels[a].hash != dels[b].hash {
            assert forall|a: int, b: int| 0 <= a < b < prev.len() implies prev[a].hash
                != prev[b].hash by {
                assert(dels[a] == prev[a] && dels[b] == prev[b]);
            }
            if has_key(kept, dels.last().hash) {
                assert forall|i: int| 0 <= i < rest.len() implies rest[i].hash
                    != dels.last().hash by {
                    assert(dels_have_key(prev, rest[i].hash)) by {
                        lemma_dels_with_rows_membership(prev, kept, rest[i].hash);
                    }
                    let v = choose|v: int| 0 <= v < prev.len() && prev[v].hash == rest[i].hash;
                    assert(dels[v] == prev[v]);
                    assert(dels[v].hash != dels[dels.len() - 1].hash);
                }
            }
        }
        assert forall|i: int| 0 <= i < cur.len() implies has_key(
            kept,
            (#[trigger] cur[i]).hash,
        ) by {
            if has_key(kept, dels.last().hash) && i == cur.len() - 1 {
            } else {
                assert(cur[i] == rest[i]);
            }
        }
    }
}

/// Membership in `favs_with_rows`: a favorite key is kept exactly when it
/// was there and its entry's row survived.
pub proof fn lemma_favs_with_rows_membership(
    favs: Seq<Seq<char>>,
    kept: Seq<RowView>,
    x: Seq<char>,
)
    ensures
        contains_key_seq(favs_with_rows(favs, kept), x) <==> (contains_key_seq(favs, x) && has_key(
            kept,
            x,
        )),
        forall|i: int, j: int|
            (forall|a: int, b: int| 0 <= a < b < favs.len() ==> favs[a] != favs[b]) && 0 <= i < j
                < favs_with_rows(favs, kept).len() ==> favs_with_rows(favs, kept)[i]
                != favs_with_rows(favs, kept)[j],
        forall|i: int|
            0 <= i < favs_with_rows(favs, kept).len() ==> has_key(
                kept,
                #[trigger] favs_with_rows(favs, kept)[i],
            ),
    decreases favs.len(),
{
    if favs.len() == 0 {
    } else {
        let prev = favs.drop_last();
        lemma_favs_with_rows_membership(prev, kept, x);
        let rest = favs_with_rows(prev, kept);
        let cur = favs_with_rows(favs, kept);
        if contains_key_seq(cur, x) {
            let w = choose|w: int| 0 <= w < cur.len() && cur[w] == x;
            if has_key(kept, favs.last()) && w == cur.len() - 1 {
                assert(favs[favs.len() - 1] == x);
            } else {
                assert(rest[w] == x);
                assert(contains_key_seq(rest, x));
                let v = choose|v: int| 0 <= v < prev.len() && prev[v] == x;
                assert(favs[v] == x);
            }
        }
        if contains_key_seq(favs, x) && has_key(kept, x) {
            let w = choose|w: int| 0 <= w < favs.len() && favs[w] == x;
            if w == favs.len() - 1 {
                assert(cur.last() == x);
            } else {
                assert(prev[w] == x);
                assert(contains_key_seq(prev, x));
                let v = choose|v: int| 0 <= v < rest.len() && rest[v] == x;
                assert(cur[v] == x);
            }
        }
        if forall|a: int, b: int| 0 <= a < b < favs.len() ==> favs[a] != favs[b] {
            assert forall|a: int, b: int| 0 <= a < b < prev.len() implies prev[a] != prev[b] by {
                assert(favs[a] == prev[a] && favs[b] == prev[b]);
            }
            if has_key(kept, favs.last()) {
                assert forall|i: int| 0 <= i < rest.len() implies rest[i] != favs.last() by {
                    assert(contains_key_seq(prev, rest[i])) by {
                        lemma_favs_with_rows_membership(prev, kept, rest[i]);
                    }
                    let v = choose|v: int| 0 <= v < prev.len() && prev[v] == rest[i];
                    assert(favs[v] == prev[v]);
                    assert(favs[v] != favs[favs.len() - 1]);
                }
            }
        }
        assert forall|i: int| 0 <= i < cur.len() implies has_key(kept, #[trigger] cur[i]) by {
            if has_key(kept, favs.last()) && i == cur.len() - 1 {
            } else {
                assert(cur[i] == rest[i]);
            }
        }
    }
}

/// The sub-path one breadcrumb names: the joined leading segments of the
/// entry's stored path in directory form, and, for the final segment, the
/// entry's own stored path. A directory path ends with a slash, so its last
/// segment is empty and both of its final breadcrumbs name the entry itself.
pub open spec fn crumb_path(p: Seq<char>, q: int) -> Seq<char> {
    let segs = crate::paths::segments(p);
    if q == segs.len() - 1 {
        p
    } else {
        crate::paths::joined(segs.take(q + 1)) + seq!['/']
    }
}

/// What removing the entries covered by the listed roots does: the uncovered
/// rows and entries survive in order, the sidecar rows of the survivors stay,
/// and the removed data bytes go back to the quota.
pub open spec fn remove_post(pre: Bucket, post: Bucket, roots: Seq<Seq<char>>) -> bool {
    &&& post.rows() == kept_rows(pre.rows(), roots, pre.rows())
    &&& post.ents() == kept_ents(pre.rows(), roots, pre.rows(), pre.ents())
    &&& post.db.dels() == dels_with_rows(pre.db.dels(), kept_rows(pre.rows(), roots, pre.rows()))
    &&& post.db.favs() == favs_with_rows(pre.db.favs(), kept_rows(pre.rows(), roots, pre.rows()))
    &&& post.usage_space == sat_sub_u64(
        pre.usage_space,
        removed_bytes(pre.rows(), roots, pre.rows(), pre.ents()),
    )
    &&& post.available_space == pre.available_space
    &&& post.uuid == pre.uuid
    &&& post.path == pre.path
    &&& post.store == pre.store
}

/// What applying a list of `add` requests in order does: each request runs
/// against the state the previous ones left; the first failure stops the run
/// and is returned, the earlier successes persisting. The result is taken as
/// the views of the returned keys.
pub open spec fn adds_post(
    pre: Bucket,
    post: Bucket,
    kvs: Seq<KeyValue>,
    now: u64,
    rv: Result<Seq<Seq<char>>, BucketError>,
) -> bool
    decreases kvs.len(),
{
    if kvs.len() == 0 {
        post == pre && rv == Ok::<Seq<Seq<char>>, BucketError>(Seq::<Seq<char>>::empty())
    } else {
        exists|mid: Bucket, r0: Result<String, BucketError>|
            {
                &&& #[trigger] add_post(pre, mid, kvs[0], now, r0)
                &&& match r0 {
                    Result::Ok(h) => match rv {
                        Result::Ok(hs) => hs.len() >= 1 && hs[0] == h@ && adds_post(
                            mid,
                            post,
                            kvs.skip(1),
                            now,
                            Ok::<Seq<Seq<char>>, BucketError>(hs.skip(1)),
                        ),
                        Result::Err(e) => adds_post(
                            mid,
                            post,
                            kvs.skip(1),
                            now,
                            Err::<Seq<Seq<char>>, BucketError>(e),
                        ),
                    },
                    Result::Err(e) => rv == Err::<Seq<Seq<char>>, BucketError>(e) && post == mid,
                }
            }
    }
}

/// A successful run extends by one more successful request.
pub proof fn lemma_adds_snoc(
    pre: Bucket,
    mid: Bucket,
    post: Bucket,
    kvs: Seq<KeyValue>,
    hs: Seq<Seq<char>>,
    kv: KeyValue,
    h: String,
    now: u64,
)
    requires
        adds_post(pre, mid, kvs, now, Ok::<Seq<Seq<char>>, BucketError>(hs)),
        add_post(mid, post, kv, now, Ok::<String, BucketError>(h)),
    ensures
        adds_post(pre, post, kvs.push(kv), now, Ok::<Seq<Seq<char>>, BucketError>(hs.push(h@))),
    decreases kvs.len(),
{
    if kvs.len() == 0 {
        assert(mid == pre);
        assert(kvs.push(kv)[0] == kv);
        assert(kvs.push(kv).skip(1) =~= Seq::<KeyValue>::empty());
        assert(hs.push(h@).skip(1) =~= Seq::<Seq<char>>::empty());
        assert(adds_post(
            post,
            post,
            kvs.push(kv).skip(1),
            now,
            Ok::<Seq<Seq<char>>, BucketError>(hs.push(h@).skip(1)),
        ));
        assert(add_post(pre, post, kvs.push(kv)[0], now, Ok::<String, BucketError>(h)));
    } else {
        let (mid0, r00) = choose|mid0: Bucket, r00: Result<String, BucketError>|
            {
                &&& #[trigger] add_post(pre, mid0, kvs[0], now, r00)
                &&& match r00 {
                    Result::Ok(h0) => hs.len() >= 1 && hs[0] == h0@ && adds_post(
                        mid0,
                        mid,
                        kvs.skip(1),
                        now,
                        Ok::<Seq<Seq<char>>, BucketError>(hs.skip(1)),
                    ),
                    Result::Err(e) => Ok::<Seq<Seq<char>>, BucketError>(hs) == Err::<
                        Seq<Seq<char>>,
                        BucketError,
                    >(e) && mid == mid0,
                }
            };
        match r00 {
            Result::Ok(h0) => {
                lemma_adds_snoc(mid0, mid, post, kvs.skip(1), hs.skip(1), kv, h, now);
                assert(kvs.push(kv)[0] == kvs[0]);
                assert(kvs.push(kv).skip(1) =~= kvs.skip(1).push(kv));
                assert(hs.push(h@)[0] == hs[0]);
                assert(hs.push(h@).skip(1) =~= hs.skip(1).push(h@));
                assert(add_post(pre, mid0, kvs.push(kv)[0], now, r00));
            },
            Result::Err(e) => {
                assert(false);
            },
        }
    }
}

/// A successful run followed by one failing request yields that failure,
/// keeping the state the successes left; the requests after the failure do
/// not run.
pub proof fn lemma_adds_snoc_err(
    pre: Bucket,
    mid: Bucket,
    kvs: Seq<KeyValue>,
    hs: Seq<Seq<char>>,
    kv: KeyValue,
    rest: Seq<KeyValue>,
    e: BucketError,
    now: u64,
)
    requires
        adds_post(pre, mid, kvs, now, Ok::<Seq<Seq<char>>, BucketError>(hs)),
        add_post(mid, mid, kv, now, Err::<String, BucketError>(e)),
    ensures
        adds_post(pre, mid, kvs.push(kv) + rest, now, Err::<Seq<Seq<char>>, BucketError>(e)),
    decreases kvs.len(),
{
    if kvs.len() == 0 {
        assert(mid == pre);
        assert((kvs.push(kv) + rest)[0] == kv);
        assert(add_post(pre, mid, (kvs.push(kv) + rest)[0], now, Err::<String, BucketError>(e)));
    } else {
        let (mid0, r00) = choose|mid0: Bucket, r00: Result<String, BucketError>|
            {
                &&& #[trigger] add_post(pre, mid0, kvs[0], now, r00)
                &&& match r00 {
                    Result::Ok(h0) => hs.len() >= 1 && hs[0] == h0@ && adds_post(
                        mid0,
                        mid,
                        kvs.skip(1),
                        now,
                        Ok::<Seq<Seq<char>>, BucketError>(hs.skip(1)),
                    ),
                    Result::Err(e0) => Ok::<Seq<Seq<char>>, BucketError>(hs) == Err::<
                        Seq<Seq<char>>,
                        BucketError,
                    >(e0) && mid == mid0,
                }
            };
        match r00 {
            Result::Ok(h0) => {
                lemma_adds_snoc_err(mid0, mid, kvs.skip(1), hs.skip(1), kv, rest, e, now);
                assert((kvs.push(kv) + rest)[0] == kvs[0]);
                assert((kvs.push(kv) + rest).skip(1) =~= kvs.skip(1).push(kv) + rest);
                assert(add_post(pre, mid0, (kvs.push(kv) + rest)[0], now, r00));
            },
            Result::Err(e0) => {
                assert(false);
            },
        }
    }
}

/// Every listed key has a row.
pub open spec fn all_keys_present(rows: Seq<RowView>, keys: Seq<Seq<char>>) -> bool {
    forall|k: int| 0 <= k < keys.len() ==> has_key(rows, #[trigger] keys[k])
}

/// The retention deadline for a deletion at `now`, saturating at the largest
/// representable instant.
pub open spec fn retention_deadline(now: i64) -> i64 {
    if now > i64::MAX - RETENTION {
        i64::MAX
    } else {
        (now + RETENTION) as i64
    }
}

/// Copies a byte vector.
pub fn clone_bytes(v: &Vec<u8>) -> (r: Vec<u8>)
    ensures
        r@ == v@,
{
    let n: usize = v.len();
    let mut r: Vec<u8> = Vec::new();
    let mut i: usize = 0;
    while i < n
        invariant
            i <= n,
            n == v@.len(),
            r@ == v@.take(i as int),
        decreases n - i,
    {
        r.push(v[i]);
        proof {
            assert(r@ =~= v@.take(i + 1));
        }
        i += 1;
    }
    proof {
        assert(v@.take(n as int) =~= v@);
    }
    r
}

/// A mutable handle on the attributes of the entry at position `i`.
fn entry_meta_mut(entries: &mut Vec<EntryData>, i: usize) -> (m: &mut FsMetadata)
    requires
        i < old(entries)@.len(),
    ensures
        *m == old(entries)@[i as int].meta,
        final (entries)@ == old(entries)@.update(
            i as int,
            EntryData { content: old(entries)@[i as int].content, meta: *final (m) },
        ),
{
    &mut entries[i].meta
}

/// Relies on chrono::Utc::now().timestamp(): the wall clock, in seconds
/// since the epoch. Nothing is promised of the value.
#[verifier::external_body]
fn now_timestamp() -> i64 {
    chrono::Utc::now().timestamp()
}

impl Bucket {
    /// The view of the bucket's path table.
    pub open spec fn rows(&self) -> Seq<RowView> {
        self.db.rows()
    }

    /// The view of the bucket's entries, in path-table order.
    pub open spec fn ents(&self) -> Seq<EntryV> {
        entries_view(self.entries@)
    }

    /// The bucket is well formed: the index is; each index row has its entry
    /// at the same position; every key is the hash of its row's path; paths
    /// are nonempty and carry a trailing slash exactly on directories, which
    /// hold no data; the deletion and favorite flags agree with the index
    /// sidecars; and usage stays within the quota.
    pub open spec fn wf(&self) -> bool {
        &&& self.db.wf()
        &&& self.ents().len() == self.rows().len()
        &&& forall|i: int|
            0 <= i < self.rows().len() ==> (#[trigger] self.rows()[i]).key == hash_hex_of(
                self.rows()[i].path,
            )
        &&& forall|i: int|
            0 <= i < self.rows().len() ==> (#[trigger] self.rows()[i]).path.len() > 0
        &&& forall|i: int|
            0 <= i < self.rows().len() ==> ((#[trigger] self.rows()[i]).is_dir <==> is_dir_path(
                self.rows()[i].path,
            ))
        &&& forall|i: int|
            0 <= i < self.rows().len() ==> (self.rows()[i].is_dir
                ==> (#[trigger] self.ents()[i]).content.len() == 0)
        &&& forall|i: int|
            0 <= i < self.rows().len() ==> ((#[trigger] self.ents()[i]).meta.deleted
                <==> dels_have_key(self.db.dels(), self.rows()[i].key))
        &&& forall|i: int|
            0 <= i < self.rows().len() ==> ((#[trigger] self.ents()[i]).meta.favorite
                <==> crate::bucket::bucket_db::contains_key_seq(
                self.db.favs(),
                self.rows()[i].key,
            ))
        &&& self.usage_space <= self.available_space
    }

    /// Creates a bucket under the store, pre-allocating `bucket_space` of the
    /// store's budget. Fails with `StorageFull` when the store cannot spare
    /// that much.
    pub fn create(store: Store, uuid: &str, bucket_space: u64) -> (r: Result<Bucket, BucketError>)
        ensures
            store.usage_space + bucket_space > store.available_space ==> (r matches Err(e) && e
                == BucketError::StorageFull),
            store.usage_space + bucket_space <= store.available_space ==> (r matches Ok(b) && b.wf()
                && b.uuid@ == uuid@ && b.path@ == store.store_path@ + seq!['/'] + uuid@
                && b.available_space == bucket_space && b.usage_space == 0 && b.rows() == Seq::<
                RowView,
            >::empty() && b.ents() == Seq::<EntryV>::empty() && b.store.usage_space
                == store.usage_space + bucket_space && b.store.available_space
                == store.available_space && b.store.store_path == store.store_path),
    {
        if store.usage_space > store.available_space || bucket_space > store.available_space
            - store.usage_space {
            return Err(BucketError::StorageFull);
        }
        proof {
            reveal_strlit("/");
        }
        let path: String = concat_str(concat_str(store.store_path.as_str(), "/").as_str(), uuid);
        let new_usage: u64 = store.usage_space + bucket_space;
        let bucket = Bucket {
            uuid: uuid.to_owned(),
            path,
            store: Store { usage_space: new_usage, ..store },
            available_space: bucket_space,
            usage_space: 0,
            db: BucketDB::init(),
            entries: Vec::new(),
        };
        proof {
            assert(bucket.ents() =~= Seq::<EntryV>::empty());
        }
        Ok(bucket)
    }

    /// Opens a handle on an existing bucket from its recovered quota pair.
    /// Fails with `InvalidInput` when the pair is inconsistent.
    pub fn open(store: Store, uuid: &str, space: crate::bucket::fs_metadata::Size) -> (r: Result<
        Bucket,
        BucketError,
    >)
        ensures
            space.usage_space > space.available_space ==> (r matches Err(e) && e
                == BucketError::InvalidInput),
            space.usage_space <= space.available_space ==> (r matches Ok(b) && b.wf() && b.uuid@
                == uuid@ && b.path@ == store.store_path@ + seq!['/'] + uuid@ && b.available_space
                == space.available_space && b.usage_space == space.usage_space && b.rows() == Seq::<
                RowView,
            >::empty() && b.store == store),
    {
        if space.usage_space > space.available_space {
            return Err(BucketError::InvalidInput);
        }
        proof {
            reveal_strlit("/");
        }
        let path: String = concat_str(concat_str(store.store_path.as_str(), "/").as_str(), uuid);
        let bucket = Bucket {
            uuid: uuid.to_owned(),
            path,
            store,
            available_space: space.available_space,
            usage_space: space.usage_space,
            db: BucketDB::init(),
            entries: Vec::new(),
        };
        proof {
            assert(bucket.ents() =~= Seq::<EntryV>::empty());
        }
        Ok(bucket)
    }

    /// Creates one entry, stamping its attributes with the instant `now`:
    /// a directory when no data is given, a file otherwise.
    pub fn add_at(&mut self, key_value: &KeyValue, now: u64) -> (r: Result<String, BucketError>)
        requires
            old(self).wf(),
        ensures
            final (self).wf(),
            add_post(*old(self), *final (self), *key_value, now, r),
    {
        proof {
            reveal_strlit("");
            reveal_strlit("/");
        }
        let parent_path: String = match &key_value.key {
            None => String::new(),
            Some(k) => {
                match self.db.get_path(k) {
                    Ok(p) => p,
                    Err(e) => {
                        return Err(e);
                    },
                }
            },
        };
        proof {
            assert(parent_path@ == parent_path_spec(old(self).rows(), *key_value));
        }
        if key_value.key.is_some() && !ends_with_slash(parent_path.as_str()) {
            return Err(BucketError::NotADirectory);
        }
        if !name_ok(key_value.name.as_str()) {
            return Err(BucketError::InvalidInput);
        }
        let entry_path: String = match &key_value.value {
            None => concat_str(
                concat_str(parent_path.as_str(), key_value.name.as_str()).as_str(),
                "/",
            ),
            Some(_) => concat_str(parent_path.as_str(), key_value.name.as_str()),
        };
        proof {
            assert(entry_path@ == add_path_spec(old(self).rows(), *key_value));
        }
        let file_size: u64 = match &key_value.value {
            None => 0,
            Some(v) => v.len() as u64,
        };
        if key_value.value.is_some() {
            if self.usage_space > self.available_space || file_size > self.available_space
                - self.usage_space {
                return Err(BucketError::StorageFull);
            }
        }
        let hash: String = FsMetadata::calculate_hash(entry_path.as_str());
        let key_path = KeyPath {
            key: hash.clone(),
            path: entry_path,
            is_dir: key_value.value.is_none(),
        };
        match self.db.add_key(&key_path) {
            Err(e) => {
                return Err(e);
            },
            Ok(_) => {},
        }
        let content: Vec<u8> = match &key_value.value {
            None => Vec::new(),
            Some(v) => clone_bytes(v),
        };
        let meta = FsMetadata { see_time: now, create_at: now, update_at: now, ..FsMetadata::new() };
        self.entries.push(EntryData { content, meta });
        if key_value.value.is_some() {
            self.usage_space = self.usage_space + file_size;
        }
        proof {
            let rows = old(self).rows();
            let path = add_path_spec(rows, *key_value);
            let h = hash_hex_of(path);
            let row = RowView { key: h, path, is_dir: key_value.value is None };
            assert(key_path@ == row);
            assert(self.rows() == rows.push(row));
            assert(self.ents() =~= old(self).ents().push(
                EntryV { content: add_content_spec(*key_value), meta: new_meta(now) },
            ));
            assert forall|i: int| 0 <= i < self.rows().len() implies (
            #[trigger] self.rows()[i]).key == hash_hex_of(self.rows()[i].path) && self.rows()[i].path.len()
                > 0 && (self.rows()[i].is_dir <==> is_dir_path(self.rows()[i].path)) by {
                if i < rows.len() {
                    assert(self.rows()[i] == rows[i]);
                } else {
                    assert(self.rows()[i] == row);
                    if key_value.value is None {
                        assert(path[path.len() - 1] == '/');
                    } else {
                        assert(path =~= parent_path_spec(rows, *key_value) + key_value.name@);
                        assert(path[path.len() - 1] == key_value.name@[key_value.name@.len() - 1]);
                    }
                }
            }
            assert forall|i: int| 0 <= i < self.rows().len() implies (self.rows()[i].is_dir ==> (
            #[trigger] self.ents()[i]).content.len() == 0) && ((self.ents()[i]).meta.deleted
                <==> dels_have_key(self.db.dels(), self.rows()[i].key)) && ((
            self.ents()[i]).meta.favorite <==> crate::bucket::bucket_db::contains_key_seq(
                self.db.favs(),
                self.rows()[i].key,
            )) by {
                if i < rows.len() {
                    assert(self.rows()[i] == rows[i]);
                    assert(self.ents()[i] == old(self).ents()[i]);
                } else {
                    assert(self.rows()[i] == row);
                    assert(self.ents()[i].meta == new_meta(now));
                    if dels_have_key(self.db.dels(), h) {
                        let w = choose|w: int|
                            0 <= w < self.db.dels().len() && self.db.dels()[w].hash == h;
                        assert(has_key(rows, self.db.dels()[w].hash));
                    }
                    if crate::bucket::bucket_db::contains_key_seq(self.db.favs(), h) {
                        let w = choose|w: int|
                            0 <= w < self.db.favs().len() && self.db.favs()[w] == h;
                        assert(has_key(rows, self.db.favs()[w]));
                    }
                }
            }
        }
        Ok(hash)
    }

    /// Applies each `add` request in order, stamping every entry with the
    /// instant `now`; the first failure stops the run and is returned, the
    /// earlier successes persisting.
    pub fn adds_at(&mut self, key_values: &Vec<KeyValue>, now: u64) -> (r: Result<
        Vec<String>,
        BucketError,
    >)
        requires
            old(self).wf(),
        ensures
            final (self).wf(),
            adds_post(
                *old(self),
                *final (self),
                key_values@,
                now,
                match r {
                    Result::Ok(v) => Ok::<Seq<Seq<char>>, BucketError>(v.deep_view()),
                    Result::Err(e) => Err::<Seq<Seq<char>>, BucketError>(e),
                },
            ),
    {
        let m: usize = key_values.len();
        let mut out: Vec<String> = Vec::new();
        proof {
            assert(key_values@.take(0) =~= Seq::<KeyValue>::empty());
            assert(out.deep_view() =~= Seq::<Seq<char>>::empty());
        }
        let mut i: usize = 0;
        while i < m
            invariant
                i <= m,
                m == key_values@.len(),
                old(self).wf(),
                self.wf(),
                adds_post(
                    *old(self),
                    *self,
                    key_values@.take(i as int),
                    now,
                    Ok::<Seq<Seq<char>>, BucketError>(out.deep_view()),
                ),
            decreases m - i,
        {
            let ghost mid = *self;
            let ghost outv = out.deep_view();
            match self.add_at(&key_values[i], now) {
                Ok(h) => {
                    proof {
                        lemma_adds_snoc(
                            *old(self),
                            mid,
                            *self,
                            key_values@.take(i as int),
                            outv,
                            key_values@[i as int],
                            h,
                            now,
                        );
                        assert(key_values@.take(i + 1) =~= key_values@.take(i as int).push(
                            key_values@[i as int],
                        ));
                    }
                    let ghost hv = h@;
                    out.push(h);
                    proof {
                        assert(out.deep_view() =~= outv.push(hv));
                    }
                },
                Err(e) => {
                    proof {
                        assert(*self == mid);
                        assert(add_post(
                            mid,
                            mid,
                            key_values@[i as int],
                            now,
                            Err::<String, BucketError>(e),
                        ));
                        lemma_adds_snoc_err(
                            *old(self),
                            mid,
                            key_values@.take(i as int),
                            outv,
                            key_values@[i as int],
                            key_values@.skip(i + 1),
                            e,
                            now,
                        );
                        assert(key_values@.take(i as int).push(key_values@[i as int])
                            + key_values@.skip(i + 1) =~= key_values@);
                    }
                    return Err(e);
                },
            }
            i += 1;
        }
        proof {
            assert(key_values@.take(m as int) =~= key_values@);
        }
        Ok(out)
    }

    /// Applies each `add` request in order, stamped with the wall clock; the
    /// first failure stops the run, earlier successes persisting.
    pub fn adds(&mut self, key_values: Vec<KeyValue>) -> (r: Result<Vec<String>, BucketError>)
        requires
            old(self).wf(),
        ensures
            final (self).wf(),
            r matches Ok(v) ==> exists|t: u64|
                #[trigger] adds_post(
                    *old(self),
                    *final (self),
                    key_values@,
                    t,
                    Ok::<Seq<Seq<char>>, BucketError>(v.deep_view()),
                ),
            r matches Err(e) ==> exists|t: u64|
                #[trigger] adds_post(
                    *old(self),
                    *final (self),
                    key_values@,
                    t,
                    Err::<Seq<Seq<char>>, BucketError>(e),
                ),
    {
        let t: i64 = now_timestamp();
        let now: u64 = if t >= 0 {
            t as u64
        } else {
            0
        };
        let r = self.adds_at(&key_values, now);
        proof {
            assert(adds_post(
                *old(self),
                *self,
                key_values@,
                now,
                match r {
                    Result::Ok(v) => Ok::<Seq<Seq<char>>, BucketError>(v.deep_view()),
                    Result::Err(e) => Err::<Seq<Seq<char>>, BucketError>(e),
                },
            ));
        }
        r
    }

    /// Creates one entry, stamped with the wall clock.
    pub fn add(&mut self, key_value: &KeyValue) -> (r: Result<String, BucketError>)
        requires
            old(self).wf(),
        ensures
            final (self).wf(),
            exists|t: u64| add_post(*old(self), *final (self), *key_value, t, r),
    {
        let t: i64 = now_timestamp();
        let now: u64 = if t >= 0 {
            t as u64
        } else {
            0
        };
        let r = self.add_at(key_value, now);
        proof {
            assert(add_post(*old(self), *self, *key_value, now, r));
        }
        r
    }

    /// Reads one entry by its key. With `info_only` the metadata alone is
    /// returned; otherwise the entry must be a file (`IsADirectory` else) and
    /// its bytes are attached.
    pub fn get(&self, key: &String, info_only: bool) -> (r: Result<FsItem, BucketError>)
        requires
            self.wf(),
        ensures
            !has_key(self.rows(), key@) ==> (r matches Err(e) && e == BucketError::NotFound),
            has_key(self.rows(), key@) && self.rows()[key_index(self.rows(), key@)].is_dir
                && !info_only ==> (r matches Err(e) && e == BucketError::IsADirectory),
            has_key(self.rows(), key@) && (info_only || !self.rows()[key_index(
                self.rows(),
                key@,
            )].is_dir) ==> (r matches Ok(item) && item_matches(
                item,
                self.rows()[key_index(self.rows(), key@)],
                self.ents()[key_index(self.rows(), key@)],
                if info_only {
                    Option::<Seq<u8>>::None
                } else {
                    Option::Some(self.ents()[key_index(self.rows(), key@)].content)
                },
            )),
    {
        let j: usize = match BucketDB::find_key_index(&self.db.paths, key) {
            None => {
                return Err(BucketError::NotFound);
            },
            Some(j) => j,
        };
        proof {
            assert(self.rows()[j as int].key == key@);
            let w = key_index(self.rows(), key@);
            if w != j {
                assert(self.rows()[w].key == key@);
            }
            assert(self.ents()[j as int] == self.entries@[j as int]@);
        }
        let is_dir: bool = self.db.paths[j].is_dir;
        if !info_only && is_dir {
            return Err(BucketError::IsADirectory);
        }
        let size: u64 = self.entries[j].content.len() as u64;
        let mut item: FsItem = self.entries[j].meta.info(self.db.paths[j].path.as_str(), is_dir, size);
        if !info_only {
            item.buffer = Some(clone_bytes(&self.entries[j].content));
        }
        Ok(item)
    }

    /// The property sheet of the entry with this key.
    pub fn properties(&self, key: &String) -> (r: Result<PropertiesItem, BucketError>)
        requires
            self.wf(),
        ensures
            !has_key(self.rows(), key@) ==> (r matches Err(e) && e == BucketError::NotFound),
            has_key(self.rows(), key@) ==> (r matches Ok(p) && props_matches(
                p,
                self.rows()[key_index(self.rows(), key@)],
                self.ents()[key_index(self.rows(), key@)],
            )),
    {
        let j: usize = match BucketDB::find_key_index(&self.db.paths, key) {
            None => {
                return Err(BucketError::NotFound);
            },
            Some(j) => j,
        };
        proof {
            assert(self.rows()[j as int].key == key@);
            let w = key_index(self.rows(), key@);
            if w != j {
                assert(self.rows()[w].key == key@);
            }
            assert(self.ents()[j as int] == self.entries@[j as int]@);
        }
        let size: u64 = self.entries[j].content.len() as u64;
        Ok(
            self.entries[j].meta.get_properties(
                self.db.paths[j].path.as_str(),
                self.db.paths[j].is_dir,
                size,
            ),
        )
    }

    /// Renames the entry with this key: its final path component becomes
    /// `new_name`, and every row under it is re-keyed with the hash of its
    /// new path. Returns the new keys, the entry's own and its descendants'.
    pub fn rename(&mut self, key: &String, new_name: &String) -> (r: Result<
        Vec<String>,
        BucketError,
    >)
        requires
            old(self).wf(),
        ensures
            final (self).wf(),
            !has_key(old(self).rows(), key@) ==> (r matches Err(e) && e == BucketError::NotFound
                && *final (self) == *old(self)),
            has_key(old(self).rows(), key@) && !name_wf(new_name@) ==> (r matches Err(e) && e
                == BucketError::InvalidInput && *final (self) == *old(self)),
            has_key(old(self).rows(), key@) && name_wf(new_name@) && !upd_ok(
                old(self).rows(),
                path_of_key(old(self).rows(), key@),
                rename_path(path_of_key(old(self).rows(), key@), new_name@),
            ) ==> (r matches Err(e) && e == BucketError::AlreadyExists && *final (self) == *old(self)),
            has_key(old(self).rows(), key@) && name_wf(new_name@) && upd_ok(
                old(self).rows(),
                path_of_key(old(self).rows(), key@),
                rename_path(path_of_key(old(self).rows(), key@), new_name@),
            ) ==> (r matches Ok(v) && rekey_post(
                *old(self),
                *final (self),
                path_of_key(old(self).rows(), key@),
                rename_path(path_of_key(old(self).rows(), key@), new_name@),
                v.deep_view(),
            )),
    {
        let old_path: String = match self.db.get_path(key) {
            Ok(p) => p,
            Err(e) => {
                proof {
                    assert(*self == *old(self));
                }
                return Err(e);
            },
        };
        if !name_ok(new_name.as_str()) {
            return Err(BucketError::InvalidInput);
        }
        let new_path: String = rename_target(old_path.as_str(), new_name.as_str());
        proof {
            lemma_rename_form(path_of_key(old(self).rows(), key@), new_name@);
        }
        let hashes: Vec<String> = match self.db.update_paths(&old_path, &new_path) {
            Ok(v) => v,
            Err(e) => {
                proof {
                    assert(*self == *old(self));
                }
                return Err(e);
            },
        };
        proof {
            lemma_rekey_wf(*old(self), *self, old_path@, new_path@);
        }
        Ok(hashes)
    }

    /// Moves the entry with `key_from` into the directory with `key_to`; the
    /// whole subtree is re-keyed. Fails with `InvalidInput` when the keys
    /// match or the destination lies inside the source.
    pub fn move_items(&mut self, key_from: &String, key_to: &String) -> (r: Result<
        (),
        BucketError,
    >)
        requires
            old(self).wf(),
        ensures
            final (self).wf(),
            key_from@ == key_to@ ==> (r matches Err(e) && e == BucketError::InvalidInput && *final (
            self) == *old(self)),
            key_from@ != key_to@ && (!has_key(old(self).rows(), key_from@) || !has_key(
                old(self).rows(),
                key_to@,
            )) ==> (r matches Err(e) && e == BucketError::NotFound && *final (self) == *old(self)),
            key_from@ != key_to@ && has_key(old(self).rows(), key_from@) && has_key(
                old(self).rows(),
                key_to@,
            ) && is_prefix_of(
                path_of_key(old(self).rows(), key_from@),
                path_of_key(old(self).rows(), key_to@),
            ) ==> (r matches Err(e) && e == BucketError::InvalidInput && *final (self) == *old(self)),
            key_from@ != key_to@ && has_key(old(self).rows(), key_from@) && has_key(
                old(self).rows(),
                key_to@,
            ) && !is_prefix_of(
                path_of_key(old(self).rows(), key_from@),
                path_of_key(old(self).rows(), key_to@),
            ) && !is_dir_path(path_of_key(old(self).rows(), key_to@)) ==> (r matches Err(e) && e
                == BucketError::NotADirectory && *final (self) == *old(self)),
            key_from@ != key_to@ && has_key(old(self).rows(), key_from@) && has_key(
                old(self).rows(),
                key_to@,
            ) && is_dir_path(path_of_key(old(self).rows(), key_to@)) && !is_prefix_of(
                path_of_key(old(self).rows(), key_from@),
                path_of_key(old(self).rows(), key_to@),
            ) && !upd_ok(
                old(self).rows(),
                path_of_key(old(self).rows(), key_from@),
                move_dest_spec(
                    path_of_key(old(self).rows(), key_from@),
                    path_of_key(old(self).rows(), key_to@),
                ),
            ) ==> (r matches Err(e) && e == BucketError::AlreadyExists && *final (self) == *old(self)),
            key_from@ != key_to@ && has_key(old(self).rows(), key_from@) && has_key(
                old(self).rows(),
                key_to@,
            ) && is_dir_path(path_of_key(old(self).rows(), key_to@)) && !is_prefix_of(
                path_of_key(old(self).rows(), key_from@),
                path_of_key(old(self).rows(), key_to@),
            ) && upd_ok(
                old(self).rows(),
                path_of_key(old(self).rows(), key_from@),
                move_dest_spec(
                    path_of_key(old(self).rows(), key_from@),
                    path_of_key(old(self).rows(), key_to@),
                ),
            ) ==> (r matches Ok(u) && rekey_post(
                *old(self),
                *final (self),
                path_of_key(old(self).rows(), key_from@),
                move_dest_spec(
                    path_of_key(old(self).rows(), key_from@),
                    path_of_key(old(self).rows(), key_to@),
                ),
                rekeyed_hashes(
                    old(self).rows(),
                    path_of_key(old(self).rows(), key_from@),
                    move_dest_spec(
                        path_of_key(old(self).rows(), key_from@),
                        path_of_key(old(self).rows(), key_to@),
                    ),
                ),
            )),
    {
        if key_from.eq(key_to) {
            return Err(BucketError::InvalidInput);
        }
        let path_from: String = match self.db.get_path(key_from) {
            Ok(p) => p,
            Err(e) => {
                proof {
                    assert(*self == *old(self));
                }
                return Err(e);
            },
        };
        let path_to: String = match self.db.get_path(key_to) {
            Ok(p) => p,
            Err(e) => {
                proof {
                    assert(*self == *old(self));
                }
                return Err(e);
            },
        };
        if starts_with_str(path_to.as_str(), path_from.as_str()) {
            return Err(BucketError::InvalidInput);
        }
        if !ends_with_slash(path_to.as_str()) {
            return Err(BucketError::NotADirectory);
        }
        proof {
            reveal_strlit("/");
        }
        let base: String = base_name_str(path_from.as_str());
        let mut dest: String = concat_str(path_to.as_str(), base.as_str());
        if ends_with_slash(path_from.as_str()) {
            dest = dest.concat("/");
        }
        proof {
            assert(dest@ =~= move_dest_spec(path_from@, path_to@));
        }
        match self.db.update_paths(&path_from, &dest) {
            Ok(_) => {},
            Err(e) => {
                proof {
                    assert(*self == *old(self));
                }
                return Err(e);
            },
        }
        proof {
            lemma_move_dest_form(path_from@, path_to@);
            lemma_rekey_wf(*old(self), *self, path_from@, dest@);
        }
        Ok(())
    }

    /// Copies the entry with `key_from` — its whole subtree — into the
    /// directory with `key_to`, leaving the originals in place. The copies
    /// carry no favorite or deletion marks. Returns the new keys.
    pub fn copy(&mut self, key_from: &String, key_to: &String) -> (r: Result<
        Vec<String>,
        BucketError,
    >)
        requires
            old(self).wf(),
        ensures
            final (self).wf(),
            key_from@ == key_to@ ==> (r matches Err(e) && e == BucketError::InvalidInput && *final (
            self) == *old(self)),
            key_from@ != key_to@ && (!has_key(old(self).rows(), key_from@) || !has_key(
                old(self).rows(),
                key_to@,
            )) ==> (r matches Err(e) && e == BucketError::NotFound && *final (self) == *old(self)),
            key_from@ != key_to@ && has_key(old(self).rows(), key_from@) && has_key(
                old(self).rows(),
                key_to@,
            ) && is_prefix_of(
                path_of_key(old(self).rows(), key_from@),
                path_of_key(old(self).rows(), key_to@),
            ) ==> (r matches Err(e) && e == BucketError::InvalidInput && *final (self) == *old(self)),
            key_from@ != key_to@ && has_key(old(self).rows(), key_from@) && has_key(
                old(self).rows(),
                key_to@,
            ) && !is_prefix_of(
                path_of_key(old(self).rows(), key_from@),
                path_of_key(old(self).rows(), key_to@),
            ) && !is_dir_path(path_of_key(old(self).rows(), key_to@)) ==> (r matches Err(e) && e
                == BucketError::NotADirectory && *final (self) == *old(self)),
            key_from@ != key_to@ && has_key(old(self).rows(), key_from@) && has_key(
                old(self).rows(),
                key_to@,
            ) && is_dir_path(path_of_key(old(self).rows(), key_to@)) && !is_prefix_of(
                path_of_key(old(self).rows(), key_from@),
                path_of_key(old(self).rows(), key_to@),
            ) && !copy_ok(
                old(self).rows(),
                path_of_key(old(self).rows(), key_from@),
                move_dest_spec(
                    path_of_key(old(self).rows(), key_from@),
                    path_of_key(old(self).rows(), key_to@),
                ),
            ) ==> (r matches Err(e) && e == BucketError::AlreadyExists && *final (self) == *old(self)),
            key_from@ != key_to@ && has_key(old(self).rows(), key_from@) && has_key(
                old(self).rows(),
                key_to@,
            ) && is_dir_path(path_of_key(old(self).rows(), key_to@)) && !is_prefix_of(
                path_of_key(old(self).rows(), key_from@),
                path_of_key(old(self).rows(), key_to@),
            ) && copy_ok(
                old(self).rows(),
                path_of_key(old(self).rows(), key_from@),
                move_dest_spec(
                    path_of_key(old(self).rows(), key_from@),
                    path_of_key(old(self).rows(), key_to@),
                ),
            ) ==> (r matches Ok(v) && copy_post(
                *old(self),
                *final (self),
                path_of_key(old(self).rows(), key_from@),
                move_dest_spec(
                    path_of_key(old(self).rows(), key_from@),
                    path_of_key(old(self).rows(), key_to@),
                ),
                v.deep_view(),
            )),
    {
        if key_from.eq(key_to) {
            return Err(BucketError::InvalidInput);
        }
        let path_from: String = match self.db.get_path(key_from) {
            Ok(p) => p,
            Err(e) => {
                proof {
                    assert(*self == *old(self));
                }
                return Err(e);
            },
        };
        let path_to: String = match self.db.get_path(key_to) {
            Ok(p) => p,
            Err(e) => {
                proof {
                    assert(*self == *old(self));
                }
                return Err(e);
            },
        };
        if starts_with_str(path_to.as_str(), path_from.as_str()) {
            return Err(BucketError::InvalidInput);
        }
        if !ends_with_slash(path_to.as_str()) {
            return Err(BucketError::NotADirectory);
        }
        proof {
            reveal_strlit("/");
        }
        let base: String = base_name_str(path_from.as_str());
        let mut dest: String = concat_str(path_to.as_str(), base.as_str());
        if ends_with_slash(path_from.as_str()) {
            dest = dest.concat("/");
        }
        proof {
            assert(dest@ =~= move_dest_spec(path_from@, path_to@));
        }
        let n: usize = self.entries.len();
        let hashes: Vec<String> = match self.db.copy_paths(&path_from, &dest) {
            Ok(v) => v,
            Err(e) => {
                proof {
                    assert(*self == *old(self));
                }
                return Err(e);
            },
        };
        proof {
            assert(copied_ents(
                old(self).rows().take(0),
                old(self).ents().take(0),
                path_from@,
            ) =~= Seq::<EntryV>::empty());
            assert(self.ents() =~= old(self).ents() + copied_ents(
                old(self).rows().take(0),
                old(self).ents().take(0),
                path_from@,
            ));
        }
        let mut i: usize = 0;
        while i < n
            invariant
                i <= n,
                n == old(self).rows().len(),
                n == old(self).ents().len(),
                old(self).wf(),
                self.db.wf(),
                self.db.rows() == old(self).rows() + copied_rows(
                    old(self).rows(),
                    path_from@,
                    dest@,
                ),
                self.db.dels() == old(self).db.dels(),
                self.db.favs() == old(self).db.favs(),
                self.usage_space == old(self).usage_space,
                self.available_space == old(self).available_space,
                self.uuid == old(self).uuid,
                self.path == old(self).path,
                self.store == old(self).store,
                self.ents() == old(self).ents() + copied_ents(
                    old(self).rows().take(i as int),
                    old(self).ents().take(i as int),
                    path_from@,
                ),
            decreases n - i,
        {
            proof {
                assert(old(self).rows().take(i + 1).drop_last() =~= old(self).rows().take(i as int));
                assert(old(self).ents().take(i + 1).drop_last() =~= old(self).ents().take(i as int));
                assert(old(self).rows().take(i + 1).last() == old(self).rows()[i as int]);
                assert(old(self).ents().take(i + 1).last() == old(self).ents()[i as int]);
                assert(self.db.rows().len() == self.db.paths@.len());
                assert(self.ents().len() == self.entries@.len());
                assert((i as nat) < self.db.paths@.len());
                assert((i as nat) < self.entries@.len());
                assert(self.db.rows()[i as int] == old(self).rows()[i as int]);
                assert(self.db.rows()[i as int] == self.db.paths@[i as int]@);
                assert(self.ents()[i as int] == old(self).ents()[i as int]);
                assert(self.ents()[i as int] == self.entries@[i as int]@);
            }
            let ghost prev = self.entries@;
            if starts_with_str(self.db.paths[i].path.as_str(), path_from.as_str()) {
                let c: Vec<u8> = clone_bytes(&self.entries[i].content);
                self.entries.push(EntryData { content: c, meta: FsMetadata::new() });
                proof {
                    assert forall|k: int| 0 <= k < prev.len() implies entries_view(self.entries@)[k]
                        == entries_view(prev)[k] by {
                        assert(self.entries@[k] == prev[k]);
                    }
                    assert(entries_view(self.entries@)[prev.len() as int] == (EntryV {
                        content: old(self).ents()[i as int].content,
                        meta: new_meta(0),
                    }));
                    assert(entries_view(self.entries@) =~= entries_view(prev).push(
                        EntryV { content: old(self).ents()[i as int].content, meta: new_meta(0) },
                    ));
                    assert(copied_ents(
                        old(self).rows().take(i + 1),
                        old(self).ents().take(i + 1),
                        path_from@,
                    ) =~= copied_ents(
                        old(self).rows().take(i as int),
                        old(self).ents().take(i as int),
                        path_from@,
                    ).push(
                        EntryV { content: old(self).ents()[i as int].content, meta: new_meta(0) },
                    ));
                    assert(self.ents() =~= old(self).ents() + copied_ents(
                        old(self).rows().take(i + 1),
                        old(self).ents().take(i + 1),
                        path_from@,
                    ));
                }
            } else {
                proof {
                    assert(copied_ents(
                        old(self).rows().take(i + 1),
                        old(self).ents().take(i + 1),
                        path_from@,
                    ) =~= copied_ents(
                        old(self).rows().take(i as int),
                        old(self).ents().take(i as int),
                        path_from@,
                    ));
                    assert(self.ents() =~= old(self).ents() + copied_ents(
                        old(self).rows().take(i + 1),
                        old(self).ents().take(i + 1),
                        path_from@,
                    ));
                }
            }
            i += 1;
        }
        proof {
            assert(old(self).rows().take(n as int) =~= old(self).rows());
            assert(old(self).ents().take(n as int) =~= old(self).ents());
            lemma_move_dest_form(path_from@, path_to@);
            lemma_copy_wf(*old(self), *self, path_from@, dest@);
        }
        Ok(hashes)
    }

    /// Marks each listed entry as a favorite, in the index sidecar and on the
    /// entry's attributes. Fails, changing nothing, when a key has no row
    /// (`NotFound`) or is already marked, an earlier listed key included
    /// (`AlreadyExists`).
    pub fn set_favorites(&mut self, keys: Vec<String>) -> (r: Result<(), BucketError>)
        requires
            old(self).wf(),
        ensures
            final (self).wf(),
            favs_apply_ok(old(self).rows(), old(self).db.favs(), keys.deep_view()) ==> r == Ok::<
                (),
                BucketError,
            >(()) && final (self).db.favs() == old(self).db.favs() + keys.deep_view() && final (
            self).rows() == old(self).rows() && final (self).db.dels() == old(self).db.dels()
                && final (self).ents().len() == old(self).ents().len() && (forall|i: int|
                0 <= i < old(self).ents().len() ==> (#[trigger] final (self).ents()[i]).content
                    == old(self).ents()[i].content && final (self).ents()[i].meta == (FsMetadata {
                    favorite: old(self).ents()[i].meta.favorite || contains_key_seq(
                        keys.deep_view(),
                        old(self).rows()[i].key,
                    ),
                    ..old(self).ents()[i].meta
                })) && final (self).usage_space == old(self).usage_space && final (
            self).available_space == old(self).available_space && final (self).uuid == old(
                self,
            ).uuid && final (self).path == old(self).path && final (self).store == old(self).store,
            !favs_apply_ok(old(self).rows(), old(self).db.favs(), keys.deep_view()) ==> r == Err::<
                (),
                BucketError,
            >(favs_apply_err(old(self).rows(), old(self).db.favs(), keys.deep_view())) && *final (
            self) == *old(self),
    {
        let m: usize = keys.len();
        let ghost kv = keys.deep_view();
        let ghost favs0 = old(self).db.favs();
        let ghost rows0 = old(self).rows();
        proof {
            assert(kv.take(0) =~= Seq::<Seq<char>>::empty());
            assert(favs0 + kv.take(0) =~= favs0);
            assert(kv.skip(0) =~= kv);
        }
        let mut i: usize = 0;
        while i < m
            invariant
                *self == *old(self),
                old(self).wf(),
                i <= m,
                m == keys@.len(),
                kv == keys.deep_view(),
                favs0 == self.db.favs(),
                rows0 == self.rows(),
                favs_apply_ok(rows0, favs0, kv) == favs_apply_ok(
                    rows0,
                    favs0 + kv.take(i as int),
                    kv.skip(i as int),
                ),
                !favs_apply_ok(rows0, favs0, kv) ==> favs_apply_err(rows0, favs0, kv)
                    == favs_apply_err(rows0, favs0 + kv.take(i as int), kv.skip(i as int)),
                forall|k: int| 0 <= k < i ==> has_key(rows0, #[trigger] kv[k]),
                forall|k: int| 0 <= k < i ==> !contains_key_seq(favs0 + kv.take(k), #[trigger] kv[k]),
            decreases m - i,
        {
            proof {
                assert(kv.skip(i as int)[0] == kv[i as int]);
                assert(kv[i as int] == keys@[i as int]@);
            }
            match BucketDB::find_key_index(&self.db.paths, &keys[i]) {
                None => {
                    return Err(BucketError::NotFound);
                },
                Some(j) => {
                    proof {
                        assert(rows0[j as int].key == kv[i as int]);
                        assert(has_key(rows0, kv[i as int]));
                    }
                },
            }
            if BucketDB::contains_string(&self.db.favorites, &keys[i]) {
                proof {
                    let w = choose|w: int| 0 <= w < favs0.len() && favs0[w] == kv[i as int];
                    assert((favs0 + kv.take(i as int))[w] == kv[i as int]);
                    assert(contains_key_seq(favs0 + kv.take(i as int), kv[i as int]));
                }
                return Err(BucketError::AlreadyExists);
            }
            let mut j: usize = 0;
            while j < i
                invariant
                    *self == *old(self),
                    old(self).wf(),
                    j <= i,
                    i < m,
                    m == keys@.len(),
                    kv == keys.deep_view(),
                    favs0 == self.db.favs(),
                    rows0 == self.rows(),
                    has_key(rows0, kv[i as int]),
                    favs_apply_ok(rows0, favs0, kv) == favs_apply_ok(
                        rows0,
                        favs0 + kv.take(i as int),
                        kv.skip(i as int),
                    ),
                    !favs_apply_ok(rows0, favs0, kv) ==> favs_apply_err(rows0, favs0, kv)
                        == favs_apply_err(rows0, favs0 + kv.take(i as int), kv.skip(i as int)),
                    kv.skip(i as int)[0] == kv[i as int],
                    forall|k: int| 0 <= k < j ==> kv[k] != kv[i as int],
                decreases i - j,
            {
                if keys[j].eq(&keys[i]) {
                    proof {
                        assert(kv[j as int] == kv[i as int]);
                        assert((favs0 + kv.take(i as int))[favs0.len() + j] == kv[i as int]);
                        assert(contains_key_seq(favs0 + kv.take(i as int), kv[i as int]));
                    }
                    return Err(BucketError::AlreadyExists);
                }
                proof {
                    assert(kv[j as int] == keys@[j as int]@);
                }
                j += 1;
            }
            proof {
                assert(!contains_key_seq(favs0 + kv.take(i as int), kv[i as int])) by {
                    if contains_key_seq(favs0 + kv.take(i as int), kv[i as int]) {
                        let w = choose|w: int|
                            0 <= w < (favs0 + kv.take(i as int)).len() && (favs0 + kv.take(
                                i as int,
                            ))[w] == kv[i as int];
                        if w < favs0.len() {
                            assert(favs0[w] == kv[i as int]);
                            assert(contains_key_seq(favs0, kv[i as int]));
                        } else {
                            assert(kv[w - favs0.len()] == kv[i as int]);
                        }
                    }
                }
                assert((favs0 + kv.take(i as int)).push(kv[i as int]) =~= favs0 + kv.take(i + 1));
                assert(kv.skip(i as int).skip(1) =~= kv.skip(i + 1));
            }
            i += 1;
        }
        proof {
            assert(kv.skip(m as int) =~= Seq::<Seq<char>>::empty());
            assert(favs_apply_ok(rows0, favs0, kv));
            assert(kv.take(m as int) =~= kv);
            assert(favs0 + kv.take(0) =~= favs0);
        }
        let mut i: usize = 0;
        while i < m
            invariant
                i <= m,
                m == keys@.len(),
                kv == keys.deep_view(),
                old(self).wf(),
                favs0 == old(self).db.favs(),
                rows0 == old(self).rows(),
                forall|k: int| 0 <= k < m ==> has_key(rows0, #[trigger] kv[k]),
                forall|k: int| 0 <= k < m ==> !contains_key_seq(favs0 + kv.take(k), #[trigger] kv[k]),
                self.db.wf(),
                self.rows() == rows0,
                self.db.dels() == old(self).db.dels(),
                self.db.favs() == favs0 + kv.take(i as int),
                self.entries@.len() == old(self).entries@.len(),
                forall|k: int|
                    0 <= k < old(self).ents().len() ==> self.ents()[k].content == (#[trigger] old(
                        self,
                    ).ents()[k]).content && self.ents()[k].meta == (FsMetadata {
                        favorite: old(self).ents()[k].meta.favorite || contains_key_seq(
                            kv.take(i as int),
                            rows0[k].key,
                        ),
                        ..old(self).ents()[k].meta
                    }),
                self.usage_space == old(self).usage_space,
                self.available_space == old(self).available_space,
                self.uuid == old(self).uuid,
                self.path == old(self).path,
                self.store == old(self).store,
            decreases m - i,
        {
            proof {
                assert(kv[i as int] == keys@[i as int]@);
                assert(!contains_key_seq(favs0 + kv.take(i as int), kv[i as int]));
            }
            match self.db.set_favorite(&keys[i]) {
                Ok(_) => {},
                Err(e) => {
                    proof {
                        assert(false);
                    }
                    return Err(e);
                },
            }
            proof {
                assert((favs0 + kv.take(i as int)).push(kv[i as int]) =~= favs0 + kv.take(i + 1));
            }
            let j: usize = match BucketDB::find_key_index(&self.db.paths, &keys[i]) {
                Some(j) => j,
                None => {
                    proof {
                        assert(has_key(self.rows(), kv[i as int]));
                        assert(false);
                    }
                    return Err(BucketError::NotFound);
                },
            };
            proof {
                assert(self.rows()[j as int].key == kv[i as int]);
            }
            let ghost prev_entries = self.entries@;
            let em = entry_meta_mut(&mut self.entries, j);
            em.set_favorite();
            proof {
                assert(self.entries@ == prev_entries.update(
                    j as int,
                    EntryData {
                        content: prev_entries[j as int].content,
                        meta: (FsMetadata { favorite: true, ..prev_entries[j as int].meta }),
                    },
                ));
                assert(prev_entries.len() == old(self).ents().len());
                assert(forall|k: int|
                    0 <= k < prev_entries.len() ==> #[trigger] entries_view(prev_entries)[k]
                        == prev_entries[k]@);
                assert forall|k: int| 0 <= k < old(self).ents().len() implies (
                #[trigger] self.ents()[k]).content == old(self).ents()[k].content
                    && self.ents()[k].meta == (FsMetadata {
                    favorite: old(self).ents()[k].meta.favorite || contains_key_seq(
                        kv.take(i + 1),
                        rows0[k].key,
                    ),
                    ..old(self).ents()[k].meta
                }) by {
                    assert(entries_view(prev_entries)[k] == prev_entries[k]@);
                    assert(self.entries@.len() == prev_entries.len());
                    assert(self.ents()[k] == self.entries@[k]@);
                    assert(prev_entries[k]@.content == old(self).ents()[k].content);
                    assert(prev_entries[k]@.meta == (FsMetadata {
                        favorite: old(self).ents()[k].meta.favorite || contains_key_seq(
                            kv.take(i as int),
                            rows0[k].key,
                        ),
                        ..old(self).ents()[k].meta
                    }));
                    if k == j {
                        assert(kv.take(i + 1)[i as int] == rows0[j as int].key);
                        assert(contains_key_seq(kv.take(i + 1), rows0[j as int].key));
                    } else {
                        assert(self.entries@[k] == prev_entries[k]);
                        assert(rows0[k].key != rows0[j as int].key);
                        if contains_key_seq(kv.take(i + 1), rows0[k].key) {
                            let w = choose|w: int|
                                0 <= w < kv.take(i + 1).len() && #[trigger] kv.take(i + 1)[w] == rows0[k].key;
                            if w == i {
                                assert(rows0[k].key == kv[i as int]);
                            } else {
                                assert(kv.take(i as int)[w] == rows0[k].key);
                                assert(contains_key_seq(kv.take(i as int), rows0[k].key));
                            }
                        }
                        if contains_key_seq(kv.take(i as int), rows0[k].key) {
                            let w = choose|w: int|
                                0 <= w < kv.take(i as int).len() && #[trigger] kv.take(i as int)[w]
                                    == rows0[k].key;
                            assert(kv.take(i + 1)[w] == rows0[k].key);
                            assert(contains_key_seq(kv.take(i + 1), rows0[k].key));
                        }
                    }
                }
            }
            i += 1;
        }
        proof {
            assert(kv.take(m as int) =~= kv);
            assert forall|k: int| 0 <= k < self.rows().len() implies ((
            #[trigger] self.ents()[k]).meta.deleted <==> dels_have_key(
                self.db.dels(),
                self.rows()[k].key,
            )) && (self.ents()[k].meta.favorite <==> contains_key_seq(
                self.db.favs(),
                self.rows()[k].key,
            )) && (self.rows()[k].is_dir ==> self.ents()[k].content.len() == 0) by {
                assert(old(self).ents()[k].meta.deleted <==> dels_have_key(
                    old(self).db.dels(),
                    rows0[k].key,
                ));
                assert(old(self).ents()[k].meta.favorite <==> contains_key_seq(favs0, rows0[k].key));
                if contains_key_seq(self.db.favs(), rows0[k].key) {
                    let w = choose|w: int|
                        0 <= w < self.db.favs().len() && self.db.favs()[w] == rows0[k].key;
                    if w < favs0.len() {
                        assert(favs0[w] == rows0[k].key);
                        assert(contains_key_seq(favs0, rows0[k].key));
                    } else {
                        assert(kv[w - favs0.len()] == rows0[k].key);
                        assert(contains_key_seq(kv, rows0[k].key));
                    }
                }
                if contains_key_seq(favs0, rows0[k].key) {
                    let w = choose|w: int| 0 <= w < favs0.len() && favs0[w] == rows0[k].key;
                    assert(self.db.favs()[w] == rows0[k].key);
                    assert(contains_key_seq(self.db.favs(), rows0[k].key));
                }
                if contains_key_seq(kv, rows0[k].key) {
                    let w = choose|w: int| 0 <= w < kv.len() && kv[w] == rows0[k].key;
                    assert(self.db.favs()[favs0.len() + w] == rows0[k].key);
                    assert(contains_key_seq(self.db.favs(), rows0[k].key));
                }
            }
        }
        Ok(())
    }

    /// Clears the favorite mark of each listed entry, in the index sidecar
    /// and on the entry's attributes; clearing an absent mark is no error.
    /// Fails with `NotFound`, changing nothing, when a key has no row.
    pub fn unset_favorites(&mut self, keys: Vec<String>) -> (r: Result<(), BucketError>)
        requires
            old(self).wf(),
        ensures
            final (self).wf(),
            all_keys_present(old(self).rows(), keys.deep_view()) ==> r == Ok::<(), BucketError>(())
                && final (self).db.favs() == keys_without_keys(
                old(self).db.favs(),
                keys.deep_view(),
            ) && final (self).rows() == old(self).rows() && final (self).db.dels() == old(
                self,
            ).db.dels() && final (self).ents().len() == old(self).ents().len() && (forall|i: int|
                0 <= i < old(self).ents().len() ==> (#[trigger] final (self).ents()[i]).content
                    == old(self).ents()[i].content && final (self).ents()[i].meta == (FsMetadata {
                    favorite: old(self).ents()[i].meta.favorite && !contains_key_seq(
                        keys.deep_view(),
                        old(self).rows()[i].key,
                    ),
                    ..old(self).ents()[i].meta
                })) && final (self).usage_space == old(self).usage_space && final (
            self).available_space == old(self).available_space && final (self).uuid == old(
                self,
            ).uuid && final (self).path == old(self).path && final (self).store == old(self).store,
            !all_keys_present(old(self).rows(), keys.deep_view()) ==> r == Err::<(), BucketError>(
                BucketError::NotFound,
            ) && *final (self) == *old(self),
    {
        let m: usize = keys.len();
        let ghost kv = keys.deep_view();
        let ghost favs0 = old(self).db.favs();
        let ghost rows0 = old(self).rows();
        proof {
            assert(kv.take(0) =~= Seq::<Seq<char>>::empty());
            assert(favs0 + kv.take(0) =~= favs0);
            assert(kv.skip(0) =~= kv);
        }
        let mut i: usize = 0;
        while i < m
            invariant
                *self == *old(self),
                old(self).wf(),
                i <= m,
                m == keys@.len(),
                kv == keys.deep_view(),
                forall|k: int| 0 <= k < i ==> has_key(rows0, #[trigger] kv[k]),
                rows0 == self.rows(),
            decreases m - i,
        {
            proof {
                assert(kv[i as int] == keys@[i as int]@);
            }
            match BucketDB::find_key_index(&self.db.paths, &keys[i]) {
                None => {
                    return Err(BucketError::NotFound);
                },
                Some(j) => {
                    proof {
                        assert(rows0[j as int].key == kv[i as int]);
                        assert(has_key(rows0, kv[i as int]));
                    }
                },
            }
            i += 1;
        }
        proof {
            lemma_without_keys_empty(favs0, old(self).db.dels());
            assert(kv.take(0) =~= Seq::<Seq<char>>::empty());
        }
        let mut i: usize = 0;
        while i < m
            invariant
                i <= m,
                m == keys@.len(),
                kv == keys.deep_view(),
                old(self).wf(),
                favs0 == old(self).db.favs(),
                rows0 == old(self).rows(),
                forall|k: int| 0 <= k < m ==> has_key(rows0, #[trigger] kv[k]),
                self.db.wf(),
                self.rows() == rows0,
                self.db.dels() == old(self).db.dels(),
                self.db.favs() == keys_without_keys(favs0, kv.take(i as int)),
                self.entries@.len() == old(self).entries@.len(),
                forall|k: int|
                    0 <= k < old(self).ents().len() ==> self.ents()[k].content == (#[trigger] old(
                        self,
                    ).ents()[k]).content && self.ents()[k].meta == (FsMetadata {
                        favorite: old(self).ents()[k].meta.favorite && !contains_key_seq(
                            kv.take(i as int),
                            rows0[k].key,
                        ),
                        ..old(self).ents()[k].meta
                    }),
                self.usage_space == old(self).usage_space,
                self.available_space == old(self).available_space,
                self.uuid == old(self).uuid,
                self.path == old(self).path,
                self.store == old(self).store,
            decreases m - i,
        {
            proof {
                assert(kv[i as int] == keys@[i as int]@);
            }
            match self.db.unset_favorite(&keys[i]) {
                Ok(_) => {},
                Err(e) => {
                    proof {
                        assert(false);
                    }
                    return Err(e);
                },
            }
            proof {
                lemma_keys_without_compose(favs0, kv.take(i as int), kv[i as int]);
                assert(kv.take(i as int).push(kv[i as int]) =~= kv.take(i + 1));
            }
            let j: usize = match BucketDB::find_key_index(&self.db.paths, &keys[i]) {
                Some(j) => j,
                None => {
                    proof {
                        assert(has_key(self.rows(), kv[i as int]));
                        assert(false);
                    }
                    return Err(BucketError::NotFound);
                },
            };
            proof {
                assert(self.rows()[j as int].key == kv[i as int]);
            }
            let ghost prev_entries = self.entries@;
            let em = entry_meta_mut(&mut self.entries, j);
            em.unset_favorite();
            proof {
                assert forall|k: int| 0 <= k < old(self).ents().len() implies (
                #[trigger] self.ents()[k]).content == old(self).ents()[k].content
                    && self.ents()[k].meta == (FsMetadata {
                    favorite: old(self).ents()[k].meta.favorite && !contains_key_seq(
                        kv.take(i + 1),
                        rows0[k].key,
                    ),
                    ..old(self).ents()[k].meta
                }) by {
                    assert(entries_view(prev_entries)[k] == prev_entries[k]@);
                    assert(self.entries@.len() == prev_entries.len());
                    assert(self.ents()[k] == self.entries@[k]@);
                    if k == j {
                        assert(kv.take(i + 1)[i as int] == rows0[j as int].key);
                        assert(contains_key_seq(kv.take(i + 1), rows0[j as int].key));
                    } else {
                        assert(self.entries@[k] == prev_entries[k]);
                        assert(rows0[k].key != rows0[j as int].key);
                        if contains_key_seq(kv.take(i + 1), rows0[k].key) {
                            let w = choose|w: int|
                                0 <= w < kv.take(i + 1).len() && #[trigger] kv.take(i + 1)[w] == rows0[k].key;
                            if w == i {
                                assert(rows0[k].key == kv[i as int]);
                            } else {
                                assert(kv.take(i as int)[w] == rows0[k].key);
                                assert(contains_key_seq(kv.take(i as int), rows0[k].key));
                            }
                        }
                        if contains_key_seq(kv.take(i as int), rows0[k].key) {
                            let w = choose|w: int|
                                0 <= w < kv.take(i as int).len() && #[trigger] kv.take(i as int)[w]
                                    == rows0[k].key;
                            assert(kv.take(i + 1)[w] == rows0[k].key);
                            assert(contains_key_seq(kv.take(i + 1), rows0[k].key));
                        }
                    }
                }
            }
            i += 1;
        }
        proof {
            assert(kv.take(m as int) =~= kv);
            assert forall|k: int| 0 <= k < self.rows().len() implies ((
            #[trigger] self.ents()[k]).meta.deleted <==> dels_have_key(
                self.db.dels(),
                self.rows()[k].key,
            )) && (self.ents()[k].meta.favorite <==> contains_key_seq(
                self.db.favs(),
                self.rows()[k].key,
            )) && (self.rows()[k].is_dir ==> self.ents()[k].content.len() == 0) by {
                assert(old(self).ents()[k].meta.deleted <==> dels_have_key(
                    old(self).db.dels(),
                    rows0[k].key,
                ));
                assert(old(self).ents()[k].meta.favorite <==> contains_key_seq(favs0, rows0[k].key));
                lemma_keys_without_keys_membership(favs0, kv, rows0[k].key);
            }
        }
        Ok(())
    }

    /// Flags each listed entry as deleted at the instant `now`: the entry's
    /// attributes record the instant, and a trash row is inserted whose
    /// retention expires one retention span later. Fails, changing nothing,
    /// when a key has no row (`NotFound`) or is already trashed, an earlier
    /// listed key included (`AlreadyExists`).
    pub fn set_delete_at(&mut self, keys: &Vec<String>, now: i64) -> (r: Result<(), BucketError>)
        requires
            old(self).wf(),
        ensures
            final (self).wf(),
            set_delete_post(*old(self), *final (self), keys.deep_view(), now, r),
    {
        let expire: i64 = if now > i64::MAX - RETENTION {
            i64::MAX
        } else {
            now + RETENTION
        };
        let m: usize = keys.len();
        let ghost kv = keys.deep_view();
        let ghost dels0 = old(self).db.dels();
        let ghost rows0 = old(self).rows();
        proof {
            assert(kv.take(0) =~= Seq::<Seq<char>>::empty());
            assert(dels_added(kv.take(0), expire) =~= Seq::<DelView>::empty());
            assert(dels0 + dels_added(kv.take(0), expire) =~= dels0);
            assert(kv.skip(0) =~= kv);
        }
        let mut i: usize = 0;
        while i < m
            invariant
                *self == *old(self),
                old(self).wf(),
                i <= m,
                m == keys@.len(),
                kv == keys.deep_view(),
                dels0 == self.db.dels(),
                rows0 == self.rows(),
                expire == retention_deadline(now),
                dels_apply_ok(rows0, dels0, kv, expire) == dels_apply_ok(
                    rows0,
                    dels0 + dels_added(kv.take(i as int), expire),
                    kv.skip(i as int),
                    expire,
                ),
                !dels_apply_ok(rows0, dels0, kv, expire) ==> dels_apply_err(rows0, dels0, kv, expire)
                    == dels_apply_err(
                    rows0,
                    dels0 + dels_added(kv.take(i as int), expire),
                    kv.skip(i as int),
                    expire,
                ),
                forall|k: int| 0 <= k < i ==> has_key(rows0, #[trigger] kv[k]),
                forall|k: int|
                    0 <= k < i ==> !dels_have_key(
                        dels0 + dels_added(kv.take(k), expire),
                        #[trigger] kv[k],
                    ),
            decreases m - i,
        {
            proof {
                assert(kv.skip(i as int)[0] == kv[i as int]);
                assert(kv[i as int] == keys@[i as int]@);
            }
            match BucketDB::find_key_index(&self.db.paths, &keys[i]) {
                None => {
                    return Err(BucketError::NotFound);
                },
                Some(j) => {
                    proof {
                        assert(rows0[j as int].key == kv[i as int]);
                        assert(has_key(rows0, kv[i as int]));
                    }
                },
            }
            let mut found: bool = false;
            let dn: usize = self.deletes_len();
            let mut w: usize = 0;
            while w < dn
                invariant
                    *self == *old(self),
                    w <= dn,
                    dn == self.db.deletes@.len(),
                    i < m,
                    m == keys@.len(),
                    kv == keys.deep_view(),
                    dels0 == self.db.dels(),
                    !found ==> forall|q: int| 0 <= q < w ==> dels0[q].hash != kv[i as int],
                    found ==> dels_have_key(dels0, kv[i as int]),
                decreases dn - w,
            {
                if self.db.deletes[w].hash.eq(&keys[i]) {
                    proof {
                        assert(dels0[w as int] == self.db.deletes@[w as int]@);
                    }
                    found = true;
                    proof {
                        assert(dels_have_key(dels0, kv[i as int]));
                    }
                }
                proof {
                    assert(dels0[w as int] == self.db.deletes@[w as int]@);
                }
                w += 1;
            }
            if found {
                proof {
                    let q = choose|q: int| 0 <= q < dels0.len() && dels0[q].hash == kv[i as int];
                    assert((dels0 + dels_added(kv.take(i as int), expire))[q].hash == kv[i as int]);
                    assert(dels_have_key(
                        dels0 + dels_added(kv.take(i as int), expire),
                        kv[i as int],
                    ));
                }
                return Err(BucketError::AlreadyExists);
            }
            let mut j: usize = 0;
            while j < i
                invariant
                    *self == *old(self),
                    old(self).wf(),
                    j <= i,
                    i < m,
                    m == keys@.len(),
                    kv == keys.deep_view(),
                    dels0 == self.db.dels(),
                    rows0 == self.rows(),
                    expire == retention_deadline(now),
                    has_key(rows0, kv[i as int]),
                    dels_apply_ok(rows0, dels0, kv, expire) == dels_apply_ok(
                        rows0,
                        dels0 + dels_added(kv.take(i as int), expire),
                        kv.skip(i as int),
                        expire,
                    ),
                    !dels_apply_ok(rows0, dels0, kv, expire) ==> dels_apply_err(
                        rows0,
                        dels0,
                        kv,
                        expire,
                    ) == dels_apply_err(
                        rows0,
                        dels0 + dels_added(kv.take(i as int), expire),
                        kv.skip(i as int),
                        expire,
                    ),
                    kv.skip(i as int)[0] == kv[i as int],
                    forall|k: int| 0 <= k < j ==> kv[k] != kv[i as int],
                decreases i - j,
            {
                if keys[j].eq(&keys[i]) {
                    proof {
                        assert(kv[j as int] == kv[i as int]);
                        assert(dels_added(kv.take(i as int), expire)[j as int].hash
                            == kv[i as int]);
                        assert((dels0 + dels_added(kv.take(i as int), expire))[dels0.len()
                            + j].hash == kv[i as int]);
                        assert(dels_have_key(
                            dels0 + dels_added(kv.take(i as int), expire),
                            kv[i as int],
                        ));
                    }
                    return Err(BucketError::AlreadyExists);
                }
                proof {
                    assert(kv[j as int] == keys@[j as int]@);
                }
                j += 1;
            }
            proof {
                assert(!dels_have_key(dels0 + dels_added(kv.take(i as int), expire), kv[i as int]))
                    by {
                    if dels_have_key(dels0 + dels_added(kv.take(i as int), expire), kv[i as int]) {
                        let w = choose|w: int|
                            0 <= w < (dels0 + dels_added(kv.take(i as int), expire)).len() && (dels0
                                + dels_added(kv.take(i as int), expire))[w].hash == kv[i as int];
                        if w < dels0.len() {
                            assert(dels0[w].hash == kv[i as int]);
                            assert(dels_have_key(dels0, kv[i as int]));
                        } else {
                            assert(dels_added(kv.take(i as int), expire)[w - dels0.len()].hash
                                == kv[i as int]);
                            assert(kv[w - dels0.len()] == kv[i as int]);
                        }
                    }
                }
                assert((dels0 + dels_added(kv.take(i as int), expire)).push(
                    DelView { hash: kv[i as int], delete_time: expire },
                ) =~= dels0 + dels_added(kv.take(i + 1), expire));
                assert(kv.skip(i as int).skip(1) =~= kv.skip(i + 1));
            }
            i += 1;
        }
        proof {
            assert(kv.skip(m as int) =~= Seq::<Seq<char>>::empty());
            assert(dels_apply_ok(rows0, dels0, kv, expire));
            assert(kv.take(m as int) =~= kv);
        }
        let mut i: usize = 0;
        while i < m
            invariant
                i <= m,
                m == keys@.len(),
                kv == keys.deep_view(),
                old(self).wf(),
                dels0 == old(self).db.dels(),
                rows0 == old(self).rows(),
                expire == retention_deadline(now),
                forall|k: int| 0 <= k < m ==> has_key(rows0, #[trigger] kv[k]),
                forall|k: int|
                    0 <= k < m ==> !dels_have_key(
                        dels0 + dels_added(kv.take(k), expire),
                        #[trigger] kv[k],
                    ),
                self.db.wf(),
                self.rows() == rows0,
                self.db.favs() == old(self).db.favs(),
                self.db.dels() == dels0 + dels_added(kv.take(i as int), expire),
                self.entries@.len() == old(self).entries@.len(),
                forall|k: int|
                    0 <= k < old(self).ents().len() ==> self.ents()[k].content == (#[trigger] old(
                        self,
                    ).ents()[k]).content && self.ents()[k].meta == (FsMetadata {
                        deleted: old(self).ents()[k].meta.deleted || contains_key_seq(
                            kv.take(i as int),
                            rows0[k].key,
                        ),
                        delete_time: if contains_key_seq(kv.take(i as int), rows0[k].key) {
                            now
                        } else {
                            old(self).ents()[k].meta.delete_time
                        },
                        ..old(self).ents()[k].meta
                    }),
                self.usage_space == old(self).usage_space,
                self.available_space == old(self).available_space,
                self.uuid == old(self).uuid,
                self.path == old(self).path,
                self.store == old(self).store,
            decreases m - i,
        {
            proof {
                assert(kv[i as int] == keys@[i as int]@);
                assert(!dels_have_key(dels0 + dels_added(kv.take(i as int), expire), kv[i as int]));
            }
            match self.db.set_delete(&keys[i], expire) {
                Ok(_) => {},
                Err(e) => {
                    proof {
                        assert(false);
                    }
                    return Err(e);
                },
            }
            proof {
                assert((dels0 + dels_added(kv.take(i as int), expire)).push(
                    DelView { hash: kv[i as int], delete_time: expire },
                ) =~= dels0 + dels_added(kv.take(i + 1), expire));
            }
            let j: usize = match BucketDB::find_key_index(&self.db.paths, &keys[i]) {
                Some(j) => j,
                None => {
                    proof {
                        assert(has_key(self.rows(), kv[i as int]));
                        assert(false);
                    }
                    return Err(BucketError::NotFound);
                },
            };
            proof {
                assert(self.rows()[j as int].key == kv[i as int]);
            }
            let ghost prev_entries = self.entries@;
            let em = entry_meta_mut(&mut self.entries, j);
            em.set_delete(now);
            proof {
                assert forall|k: int| 0 <= k < old(self).ents().len() implies (
                #[trigger] self.ents()[k]).content == old(self).ents()[k].content
                    && self.ents()[k].meta == (FsMetadata {
                    deleted: old(self).ents()[k].meta.deleted || contains_key_seq(
                        kv.take(i + 1),
                        rows0[k].key,
                    ),
                    delete_time: if contains_key_seq(kv.take(i + 1), rows0[k].key) {
                        now
                    } else {
                        old(self).ents()[k].meta.delete_time
                    },
                    ..old(self).ents()[k].meta
                }) by {
                    assert(entries_view(prev_entries)[k] == prev_entries[k]@);
                    assert(self.entries@.len() == prev_entries.len());
                    assert(self.ents()[k] == self.entries@[k]@);
                    if k == j {
                        assert(kv.take(i + 1)[i as int] == rows0[j as int].key);
                        assert(contains_key_seq(kv.take(i + 1), rows0[j as int].key));
                    } else {
                        assert(self.entries@[k] == prev_entries[k]);
                        assert(rows0[k].key != rows0[j as int].key);
                        if contains_key_seq(kv.take(i + 1), rows0[k].key) {
                            let w = choose|w: int|
                                0 <= w < kv.take(i + 1).len() && #[trigger] kv.take(i + 1)[w] == rows0[k].key;
                            if w == i {
                                assert(rows0[k].key == kv[i as int]);
                            } else {
                                assert(kv.take(i as int)[w] == rows0[k].key);
                                assert(contains_key_seq(kv.take(i as int), rows0[k].key));
                            }
                        }
                        if contains_key_seq(kv.take(i as int), rows0[k].key) {
                            let w = choose|w: int|
                                0 <= w < kv.take(i as int).len() && #[trigger] kv.take(i as int)[w]
                                    == rows0[k].key;
                            assert(kv.take(i + 1)[w] == rows0[k].key);
                            assert(contains_key_seq(kv.take(i + 1), rows0[k].key));
                        }
                    }
                }
            }
            i += 1;
        }
        proof {
            assert(kv.take(m as int) =~= kv);
            assert forall|k: int| 0 <= k < self.rows().len() implies ((
            #[trigger] self.ents()[k]).meta.deleted <==> dels_have_key(
                self.db.dels(),
                self.rows()[k].key,
            )) && (self.ents()[k].meta.favorite <==> contains_key_seq(
                self.db.favs(),
                self.rows()[k].key,
            )) && (self.rows()[k].is_dir ==> self.ents()[k].content.len() == 0) by {
                assert(old(self).ents()[k].meta.deleted <==> dels_have_key(dels0, rows0[k].key));
                assert(old(self).ents()[k].meta.favorite <==> contains_key_seq(
                    old(self).db.favs(),
                    rows0[k].key,
                ));
                if dels_have_key(self.db.dels(), rows0[k].key) {
                    let w = choose|w: int|
                        0 <= w < self.db.dels().len() && self.db.dels()[w].hash == rows0[k].key;
                    if w < dels0.len() {
                        assert(dels0[w].hash == rows0[k].key);
                        assert(dels_have_key(dels0, rows0[k].key));
                    } else {
                        assert(kv[w - dels0.len()] == rows0[k].key);
                        assert(contains_key_seq(kv, rows0[k].key));
                    }
                }
                if dels_have_key(dels0, rows0[k].key) {
                    let w = choose|w: int| 0 <= w < dels0.len() && dels0[w].hash == rows0[k].key;
                    assert(self.db.dels()[w].hash == rows0[k].key);
                    assert(dels_have_key(self.db.dels(), rows0[k].key));
                }
                if contains_key_seq(kv, rows0[k].key) {
                    let w = choose|w: int| 0 <= w < kv.len() && kv[w] == rows0[k].key;
                    assert(self.db.dels()[dels0.len() + w].hash == rows0[k].key);
                    assert(dels_have_key(self.db.dels(), rows0[k].key));
                }
            }
        }
        Ok(())
    }

    /// Flags each listed entry as deleted, stamped with the wall clock.
    pub fn set_delete(&mut self, keys: Vec<String>) -> (r: Result<(), BucketError>)
        requires
            old(self).wf(),
        ensures
            final (self).wf(),
            exists|t: i64| set_delete_post(*old(self), *final (self), keys.deep_view(), t, r),
    {
        let now: i64 = now_timestamp();
        let r = self.set_delete_at(&keys, now);
        proof {
            assert(set_delete_post(*old(self), *self, keys.deep_view(), now, r));
        }
        r
    }

    /// The number of trash rows in the index.
    fn deletes_len(&self) -> (r: usize)
        ensures
            r == self.db.deletes@.len(),
    {
        self.db.deletes.len()
    }

    /// Restores each listed entry from the trash: the deletion flag and
    /// instant are cleared and the trash row removed; restoring an entry that
    /// is not trashed is no error. Fails with `NotFound`, changing nothing,
    /// when a key has no row.
    pub fn restore_delete(&mut self, keys: Vec<String>) -> (r: Result<(), BucketError>)
        requires
            old(self).wf(),
        ensures
            final (self).wf(),
            all_keys_present(old(self).rows(), keys.deep_view()) ==> r == Ok::<(), BucketError>(())
                && final (self).db.dels() == dels_without_keys(
                old(self).db.dels(),
                keys.deep_view(),
            ) && final (self).rows() == old(self).rows() && final (self).db.favs() == old(
                self,
            ).db.favs() && final (self).ents().len() == old(self).ents().len() && (forall|i: int|
                0 <= i < old(self).ents().len() ==> (#[trigger] final (self).ents()[i]).content
                    == old(self).ents()[i].content && final (self).ents()[i].meta == (FsMetadata {
                    deleted: old(self).ents()[i].meta.deleted && !contains_key_seq(
                        keys.deep_view(),
                        old(self).rows()[i].key,
                    ),
                    delete_time: if contains_key_seq(keys.deep_view(), old(self).rows()[i].key) {
                        0i64
                    } else {
                        old(self).ents()[i].meta.delete_time
                    },
                    ..old(self).ents()[i].meta
                })) && final (self).usage_space == old(self).usage_space && final (
            self).available_space == old(self).available_space && final (self).uuid == old(
                self,
            ).uuid && final (self).path == old(self).path && final (self).store == old(self).store,
            !all_keys_present(old(self).rows(), keys.deep_view()) ==> r == Err::<(), BucketError>(
                BucketError::NotFound,
            ) && *final (self) == *old(self),
    {
        let m: usize = keys.len();
        let ghost kv = keys.deep_view();
        let ghost dels0 = old(self).db.dels();
        let ghost rows0 = old(self).rows();
        let mut i: usize = 0;
        while i < m
            invariant
                *self == *old(self),
                old(self).wf(),
                i <= m,
                m == keys@.len(),
                kv == keys.deep_view(),
                forall|k: int| 0 <= k < i ==> has_key(rows0, #[trigger] kv[k]),
                rows0 == self.rows(),
            decreases m - i,
        {
            proof {
                assert(kv[i as int] == keys@[i as int]@);
            }
            match BucketDB::find_key_index(&self.db.paths, &keys[i]) {
                None => {
                    return Err(BucketError::NotFound);
                },
                Some(j) => {
                    proof {
                        assert(rows0[j as int].key == kv[i as int]);
                        assert(has_key(rows0, kv[i as int]));
                    }
                },
            }
            i += 1;
        }
        proof {
            lemma_without_keys_empty(old(self).db.favs(), dels0);
            assert(kv.take(0) =~= Seq::<Seq<char>>::empty());
        }
        let mut i: usize = 0;
        while i < m
            invariant
                i <= m,
                m == keys@.len(),
                kv == keys.deep_view(),
                old(self).wf(),
                dels0 == old(self).db.dels(),
                rows0 == old(self).rows(),
                forall|k: int| 0 <= k < m ==> has_key(rows0, #[trigger] kv[k]),
                self.db.wf(),
                self.rows() == rows0,
                self.db.favs() == old(self).db.favs(),
                self.db.dels() == dels_without_keys(dels0, kv.take(i as int)),
                self.entries@.len() == old(self).entries@.len(),
                forall|k: int|
                    0 <= k < old(self).ents().len() ==> self.ents()[k].content == (#[trigger] old(
                        self,
                    ).ents()[k]).content && self.ents()[k].meta == (FsMetadata {
                        deleted: old(self).ents()[k].meta.deleted && !contains_key_seq(
                            kv.take(i as int),
                            rows0[k].key,
                        ),
                        delete_time: if contains_key_seq(kv.take(i as int), rows0[k].key) {
                            0i64
                        } else {
                            old(self).ents()[k].meta.delete_time
                        },
                        ..old(self).ents()[k].meta
                    }),
                self.usage_space == old(self).usage_space,
                self.available_space == old(self).available_space,
                self.uuid == old(self).uuid,
                self.path == old(self).path,
                self.store == old(self).store,
            decreases m - i,
        {
            proof {
                assert(kv[i as int] == keys@[i as int]@);
            }
            match self.db.restore_delete(&keys[i]) {
                Ok(_) => {},
                Err(e) => {
                    proof {
                        assert(false);
                    }
                    return Err(e);
                },
            }
            proof {
                lemma_dels_without_compose(dels0, kv.take(i as int), kv[i as int]);
                assert(kv.take(i as int).push(kv[i as int]) =~= kv.take(i + 1));
            }
            let j: usize = match BucketDB::find_key_index(&self.db.paths, &keys[i]) {
                Some(j) => j,
                None => {
                    proof {
                        assert(has_key(self.rows(), kv[i as int]));
                        assert(false);
                    }
                    return Err(BucketError::NotFound);
                },
            };
            proof {
                assert(self.rows()[j as int].key == kv[i as int]);
            }
            let ghost prev_entries = self.entries@;
            let em = entry_meta_mut(&mut self.entries, j);
            em.restore_delete();
            proof {
                assert forall|k: int| 0 <= k < old(self).ents().len() implies (
                #[trigger] self.ents()[k]).content == old(self).ents()[k].content
                    && self.ents()[k].meta == (FsMetadata {
                    deleted: old(self).ents()[k].meta.deleted && !contains_key_seq(
                        kv.take(i + 1),
                        rows0[k].key,
                    ),
                    delete_time: if contains_key_seq(kv.take(i + 1), rows0[k].key) {
                        0i64
                    } else {
                        old(self).ents()[k].meta.delete_time
                    },
                    ..old(self).ents()[k].meta
                }) by {
                    assert(entries_view(prev_entries)[k] == prev_entries[k]@);
                    assert(self.entries@.len() == prev_entries.len());
                    assert(self.ents()[k] == self.entries@[k]@);
                    if k == j {
                        assert(kv.take(i + 1)[i as int] == rows0[j as int].key);
                        assert(contains_key_seq(kv.take(i + 1), rows0[j as int].key));
                    } else {
                        assert(self.entries@[k] == prev_entries[k]);
                        assert(rows0[k].key != rows0[j as int].key);
                        if contains_key_seq(kv.take(i + 1), rows0[k].key) {
                            let w = choose|w: int|
                                0 <= w < kv.take(i + 1).len() && #[trigger] kv.take(i + 1)[w] == rows0[k].key;
                            if w == i {
                                assert(rows0[k].key == kv[i as int]);
                            } else {
                                assert(kv.take(i as int)[w] == rows0[k].key);
                                assert(contains_key_seq(kv.take(i as int), rows0[k].key));
                            }
                        }
                        if contains_key_seq(kv.take(i as int), rows0[k].key) {
                            let w = choose|w: int|
                                0 <= w < kv.take(i as int).len() && #[trigger] kv.take(i as int)[w]
                                    == rows0[k].key;
                            assert(kv.take(i + 1)[w] == rows0[k].key);
                            assert(contains_key_seq(kv.take(i + 1), rows0[k].key));
                        }
                    }
                }
            }
            i += 1;
        }
        proof {
            assert(kv.take(m as int) =~= kv);
            assert forall|k: int| 0 <= k < self.rows().len() implies ((
            #[trigger] self.ents()[k]).meta.deleted <==> dels_have_key(
                self.db.dels(),
                self.rows()[k].key,
            )) && (self.ents()[k].meta.favorite <==> contains_key_seq(
                self.db.favs(),
                self.rows()[k].key,
            )) && (self.rows()[k].is_dir ==> self.ents()[k].content.len() == 0) by {
                assert(old(self).ents()[k].meta.deleted <==> dels_have_key(dels0, rows0[k].key));
                assert(old(self).ents()[k].meta.favorite <==> contains_key_seq(
                    old(self).db.favs(),
                    rows0[k].key,
                ));
                lemma_dels_without_keys_membership(dels0, kv, rows0[k].key);
            }
        }
        Ok(())
    }

    /// Lists the direct children of the directory with this key — of the
    /// bucket root when no key is given — omitting entries flagged as
    /// deleted. No data buffers are attached.
    pub fn get_items(&self, key: Option<&String>) -> (r: Result<Vec<FsItem>, BucketError>)
        requires
            self.wf(),
        ensures
            key matches Some(k) && !has_key(self.rows(), k@) ==> (r matches Err(e) && e
                == BucketError::NotFound),
            key matches Some(k) && has_key(self.rows(), k@) && !self.rows()[key_index(
                self.rows(),
                k@,
            )].is_dir ==> (r matches Err(e) && e == BucketError::NotADirectory),
            (key is None || (key matches Some(k) && has_key(self.rows(), k@) && self.rows()[key_index(
                self.rows(),
                k@,
            )].is_dir)) ==> (r matches Ok(v) && v@.len() == child_indices(
                self.rows(),
                self.ents(),
                get_items_dir(self.rows(), key),
            ).len() && (forall|q: int|
                0 <= q < v@.len() ==> item_matches(
                    #[trigger] v@[q],
                    self.rows()[child_indices(
                        self.rows(),
                        self.ents(),
                        get_items_dir(self.rows(), key),
                    )[q]],
                    self.ents()[child_indices(
                        self.rows(),
                        self.ents(),
                        get_items_dir(self.rows(), key),
                    )[q]],
                    Option::<Seq<u8>>::None,
                ))),
    {
        proof {
            reveal_strlit("");
        }
        let dirp: String = match key {
            None => String::new(),
            Some(k) => {
                match self.db.get_path(k) {
                    Ok(p) => p,
                    Err(e) => {
                        return Err(e);
                    },
                }
            },
        };
        if key.is_some() && !ends_with_slash(dirp.as_str()) {
            proof {
                match key {
                    Option::Some(k) => {
                        let ki = key_index(self.rows(), k@);
                        assert(self.rows()[ki].path == dirp@);
                    },
                    Option::None => {},
                }
            }
            return Err(BucketError::NotADirectory);
        }
        proof {
            assert(dirp@ == get_items_dir(self.rows(), key));
        }
        let ghost idxs = child_indices(self.rows(), self.ents(), dirp@);
        let n: usize = self.db.paths.len();
        let mut out: Vec<FsItem> = Vec::new();
        let mut i: usize = 0;
        while i < n
            invariant
                self.wf(),
                i <= n,
                n == self.db.paths@.len(),
                n == self.entries@.len(),
                out@.len() == child_indices(
                    self.rows().take(i as int),
                    self.ents().take(i as int),
                    dirp@,
                ).len(),
                forall|q: int|
                    0 <= q < out@.len() ==> 0 <= #[trigger] child_indices(
                        self.rows().take(i as int),
                        self.ents().take(i as int),
                        dirp@,
                    )[q] < i,
                forall|q: int|
                    0 <= q < out@.len() ==> item_matches(
                        #[trigger] out@[q],
                        self.rows()[child_indices(
                            self.rows().take(i as int),
                            self.ents().take(i as int),
                            dirp@,
                        )[q]],
                        self.ents()[child_indices(
                            self.rows().take(i as int),
                            self.ents().take(i as int),
                            dirp@,
                        )[q]],
                        Option::<Seq<u8>>::None,
                    ),
            decreases n - i,
        {
            proof {
                assert(self.rows().take(i + 1).drop_last() =~= self.rows().take(i as int));
                assert(self.ents().take(i + 1).drop_last() =~= self.ents().take(i as int));
                assert(self.rows().take(i + 1).last() == self.rows()[i as int]);
                assert(self.ents().take(i + 1).last() == self.ents()[i as int]);
                assert(self.rows()[i as int] == self.db.paths@[i as int]@);
                assert(self.ents()[i as int] == self.entries@[i as int]@);
            }
            if crate::paths::is_child_of_str(dirp.as_str(), self.db.paths[i].path.as_str())
                && !self.entries[i].meta.is_delete() {
                let size: u64 = self.entries[i].content.len() as u64;
                let item: FsItem = self.entries[i].meta.info(
                    self.db.paths[i].path.as_str(),
                    self.db.paths[i].is_dir,
                    size,
                );
                out.push(item);
                proof {
                    let prev = child_indices(
                        self.rows().take(i as int),
                        self.ents().take(i as int),
                        dirp@,
                    );
                    let cur = child_indices(
                        self.rows().take(i + 1),
                        self.ents().take(i + 1),
                        dirp@,
                    );
                    assert(cur =~= prev.push(i as int));
                }
            } else {
                proof {
                    assert(child_indices(self.rows().take(i + 1), self.ents().take(i + 1), dirp@)
                        =~= child_indices(
                        self.rows().take(i as int),
                        self.ents().take(i as int),
                        dirp@,
                    ));
                }
            }
            i += 1;
        }
        proof {
            assert(self.rows().take(n as int) =~= self.rows());
            assert(self.ents().take(n as int) =~= self.ents());
        }
        Ok(out)
    }

    /// Lists the favorite entries, in the order the marks were set, skipping
    /// those currently flagged as deleted. No data buffers are attached.
    pub fn get_favorites(&self) -> (r: Result<Vec<FsItem>, BucketError>)
        requires
            self.wf(),
        ensures
            r matches Ok(v) && v@.len() == fav_indices(
                self.rows(),
                self.ents(),
                self.db.favs(),
            ).len() && (forall|q: int|
                0 <= q < v@.len() ==> item_matches(
                    #[trigger] v@[q],
                    self.rows()[fav_indices(self.rows(), self.ents(), self.db.favs())[q]],
                    self.ents()[fav_indices(self.rows(), self.ents(), self.db.favs())[q]],
                    Option::<Seq<u8>>::None,
                )),
    {
        let m: usize = self.db.favorites.len();
        let mut out: Vec<FsItem> = Vec::new();
        let mut i: usize = 0;
        while i < m
            invariant
                self.wf(),
                i <= m,
                m == self.db.favorites@.len(),
                out@.len() == fav_indices(
                    self.rows(),
                    self.ents(),
                    self.db.favs().take(i as int),
                ).len(),
                forall|q: int|
                    0 <= q < out@.len() ==> 0 <= #[trigger] fav_indices(
                        self.rows(),
                        self.ents(),
                        self.db.favs().take(i as int),
                    )[q] < self.rows().len(),
                forall|q: int|
                    0 <= q < out@.len() ==> item_matches(
                        #[trigger] out@[q],
                        self.rows()[fav_indices(
                            self.rows(),
                            self.ents(),
                            self.db.favs().take(i as int),
                        )[q]],
                        self.ents()[fav_indices(
                            self.rows(),
                            self.ents(),
                            self.db.favs().take(i as int),
                        )[q]],
                        Option::<Seq<u8>>::None,
                    ),
            decreases m - i,
        {
            proof {
                assert(self.db.favs().take(i + 1).drop_last() =~= self.db.favs().take(i as int));
                assert(self.db.favs().take(i + 1).last() == self.db.favs()[i as int]);
                assert(self.db.favs()[i as int] == self.db.favorites@[i as int]@);
            }
            match BucketDB::find_key_index(&self.db.paths, &self.db.favorites[i]) {
                Some(j) => {
                    proof {
                        assert(self.rows()[j as int].key == self.db.favs()[i as int]);
                        let w = key_index(self.rows(), self.db.favs()[i as int]);
                        if w != j {
                            assert(self.rows()[w].key == self.db.favs()[i as int]);
                        }
                        assert(self.ents()[j as int] == self.entries@[j as int]@);
                    }
                    if !self.entries[j].meta.is_delete() {
                        let size: u64 = self.entries[j].content.len() as u64;
                        let item: FsItem = self.entries[j].meta.info(
                            self.db.paths[j].path.as_str(),
                            self.db.paths[j].is_dir,
                            size,
                        );
                        out.push(item);
                        proof {
                            assert(fav_indices(
                                self.rows(),
                                self.ents(),
                                self.db.favs().take(i + 1),
                            ) =~= fav_indices(
                                self.rows(),
                                self.ents(),
                                self.db.favs().take(i as int),
                            ).push(j as int));
                        }
                    } else {
                        proof {
                            assert(fav_indices(
                                self.rows(),
                                self.ents(),
                                self.db.favs().take(i + 1),
                            ) =~= fav_indices(
                                self.rows(),
                                self.ents(),
                                self.db.favs().take(i as int),
                            ));
                        }
                    }
                },
                None => {
                    proof {
                        assert(fav_indices(self.rows(), self.ents(), self.db.favs().take(i + 1))
                            =~= fav_indices(
                            self.rows(),
                            self.ents(),
                            self.db.favs().take(i as int),
                        ));
                    }
                },
            }
            i += 1;
        }
        proof {
            assert(self.db.favs().take(m as int) =~= self.db.favs());
        }
        Ok(out)
    }

    /// Lists the trashed entries, in the order the trash rows were inserted.
    /// No data buffers are attached.
    pub fn get_deletes(&self) -> (r: Result<Vec<FsItem>, BucketError>)
        requires
            self.wf(),
        ensures
            r matches Ok(v) && v@.len() == del_indices(self.rows(), self.db.dels()).len() && (
            forall|q: int|
                0 <= q < v@.len() ==> item_matches(
                    #[trigger] v@[q],
                    self.rows()[del_indices(self.rows(), self.db.dels())[q]],
                    self.ents()[del_indices(self.rows(), self.db.dels())[q]],
                    Option::<Seq<u8>>::None,
                )),
    {
        let m: usize = self.db.deletes.len();
        let mut out: Vec<FsItem> = Vec::new();
        let mut i: usize = 0;
        while i < m
            invariant
                self.wf(),
                i <= m,
                m == self.db.deletes@.len(),
                out@.len() == del_indices(self.rows(), self.db.dels().take(i as int)).len(),
                forall|q: int|
                    0 <= q < out@.len() ==> 0 <= #[trigger] del_indices(
                        self.rows(),
                        self.db.dels().take(i as int),
                    )[q] < self.rows().len(),
                forall|q: int|
                    0 <= q < out@.len() ==> item_matches(
                        #[trigger] out@[q],
                        self.rows()[del_indices(self.rows(), self.db.dels().take(i as int))[q]],
                        self.ents()[del_indices(self.rows(), self.db.dels().take(i as int))[q]],
                        Option::<Seq<u8>>::None,
                    ),
            decreases m - i,
        {
            proof {
                assert(self.db.dels().take(i + 1).drop_last() =~= self.db.dels().take(i as int));
                assert(self.db.dels().take(i + 1).last() == self.db.dels()[i as int]);
                assert(self.db.dels()[i as int] == self.db.deletes@[i as int]@);
            }
            match BucketDB::find_key_index(&self.db.paths, &self.db.deletes[i].hash) {
                Some(j) => {
                    proof {
                        assert(self.rows()[j as int].key == self.db.dels()[i as int].hash);
                        let w = key_index(self.rows(), self.db.dels()[i as int].hash);
                        if w != j {
                            assert(self.rows()[w].key == self.db.dels()[i as int].hash);
                        }
                        assert(self.ents()[j as int] == self.entries@[j as int]@);
                    }
                    let size: u64 = self.entries[j].content.len() as u64;
                    let item: FsItem = self.entries[j].meta.info(
                        self.db.paths[j].path.as_str(),
                        self.db.paths[j].is_dir,
                        size,
                    );
                    out.push(item);
                    proof {
                        assert(del_indices(self.rows(), self.db.dels().take(i + 1)) =~= del_indices(
                            self.rows(),
                            self.db.dels().take(i as int),
                        ).push(j as int));
                    }
                },
                None => {
                    proof {
                        assert(del_indices(self.rows(), self.db.dels().take(i + 1)) =~= del_indices(
                            self.rows(),
                            self.db.dels().take(i as int),
                        ));
                    }
                },
            }
            i += 1;
        }
        proof {
            assert(self.db.dels().take(m as int) =~= self.db.dels());
        }
        Ok(out)
    }

    /// Whether some listed root takes the row at position `i` with it.
    fn is_covered_at(&self, roots: &Vec<String>, i: usize) -> (r: bool)
        requires
            self.wf(),
            (i as nat) < self.rows().len(),
        ensures
            r == covered(self.rows(), roots.deep_view(), self.rows()[i as int]),
    {
        let m: usize = roots.len();
        let mut k: usize = 0;
        while k < m
            invariant
                self.wf(),
                k <= m,
                m == roots@.len(),
                (i as nat) < self.rows().len(),
                forall|q: int|
                    0 <= q < k ==> !(has_key(self.rows(), #[trigger] roots.deep_view()[q])
                        && covers(
                        self.rows()[key_index(self.rows(), roots.deep_view()[q])],
                        self.rows()[i as int],
                    )),
            decreases m - k,
        {
            proof {
                assert(roots.deep_view()[k as int] == roots@[k as int]@);
            }
            match BucketDB::find_key_index(&self.db.paths, &roots[k]) {
                Some(j) => {
                    proof {
                        assert(self.rows()[j as int].key == roots.deep_view()[k as int]);
                        let w = key_index(self.rows(), roots.deep_view()[k as int]);
                        if w != j {
                            assert(self.rows()[w].key == roots.deep_view()[k as int]);
                        }
                        assert(self.rows()[j as int] == self.db.paths@[j as int]@);
                        assert(self.rows()[i as int] == self.db.paths@[i as int]@);
                    }
                    let hit: bool = if self.db.paths[j].is_dir {
                        starts_with_str(
                            self.db.paths[i].path.as_str(),
                            self.db.paths[j].path.as_str(),
                        )
                    } else {
                        self.db.paths[i].path.eq(&self.db.paths[j].path)
                    };
                    if hit {
                        proof {
                            assert(covers(self.rows()[j as int], self.rows()[i as int]));
                        }
                        return true;
                    }
                },
                None => {},
            }
            k += 1;
        }
        proof {
            if covered(self.rows(), roots.deep_view(), self.rows()[i as int]) {
                let q = choose|q: int|
                    0 <= q < roots.deep_view().len() && has_key(
                        self.rows(),
                        roots.deep_view()[q],
                    ) && covers(
                        self.rows()[key_index(self.rows(), roots.deep_view()[q])],
                        self.rows()[i as int],
                    );
            }
        }
        false
    }

    /// Removes every entry some listed root covers — the root itself, and its
    /// whole subtree when it is a directory — from the path table and the
    /// entries, the sidecar rows of the removed entries with them, and gives
    /// the removed data bytes back to the quota.
    fn remove_covered(&mut self, roots: &Vec<String>)
        requires
            old(self).wf(),
        ensures
            final (self).wf(),
            remove_post(*old(self), *final (self), roots.deep_view()),
    {
        let ghost rows0 = old(self).rows();
        let ghost ents0 = old(self).ents();
        let ghost dels0 = old(self).db.dels();
        let ghost favs0 = old(self).db.favs();
        let ghost rv = roots.deep_view();
        let n: usize = self.db.paths.len();
        let mut new_paths: Vec<KeyPath> = Vec::new();
        let mut new_ents: Vec<EntryData> = Vec::new();
        let mut usage: u64 = self.usage_space;
        let mut i: usize = 0;
        while i < n
            invariant
                *self == *old(self),
                old(self).wf(),
                i <= n,
                n == rows0.len(),
                n == ents0.len(),
                rv == roots.deep_view(),
                rows0 == self.rows(),
                ents0 == self.ents(),
                new_ents@.len() == new_paths@.len(),
                rows_view(new_paths@) == kept_rows(rows0, rv, rows0.take(i as int)),
                entries_view(new_ents@) == kept_ents(
                    rows0,
                    rv,
                    rows0.take(i as int),
                    ents0.take(i as int),
                ),
                removed_bytes(rows0, rv, rows0.take(i as int), ents0.take(i as int)) >= 0,
                usage == sat_sub_u64(
                    old(self).usage_space,
                    removed_bytes(rows0, rv, rows0.take(i as int), ents0.take(i as int)),
                ),
            decreases n - i,
        {
            proof {
                assert(rows0.take(i + 1).drop_last() =~= rows0.take(i as int));
                assert(ents0.take(i + 1).drop_last() =~= ents0.take(i as int));
                assert(rows0.take(i + 1).last() == rows0[i as int]);
                assert(ents0.take(i + 1).last() == ents0[i as int]);
                assert(rows0[i as int] == self.db.paths@[i as int]@);
                assert(ents0[i as int] == self.entries@[i as int]@);
            }
            if self.is_covered_at(roots, i) {
                let len: u64 = self.entries[i].content.len() as u64;
                if len >= usage {
                    usage = 0;
                } else {
                    usage = usage - len;
                }
            } else {
                let row = KeyPath {
                    key: self.db.paths[i].key.clone(),
                    path: self.db.paths[i].path.clone(),
                    is_dir: self.db.paths[i].is_dir,
                };
                proof {
                    assert(row@ == rows0[i as int]);
                }
                let c: Vec<u8> = clone_bytes(&self.entries[i].content);
                let ghost prev_rows = new_paths@;
                let ghost prev_ents = new_ents@;
                new_paths.push(row);
                new_ents.push(EntryData { content: c, meta: self.entries[i].meta });
                proof {
                    assert forall|q: int| 0 <= q < prev_rows.len() implies rows_view(new_paths@)[q]
                        == rows_view(prev_rows)[q] && entries_view(new_ents@)[q] == entries_view(
                        prev_ents,
                    )[q] by {
                        assert(new_paths@[q] == prev_rows[q]);
                        assert(new_ents@[q] == prev_ents[q]);
                    }
                    assert(rows_view(new_paths@)[prev_rows.len() as int] == rows0[i as int]);
                    assert(entries_view(new_ents@)[prev_ents.len() as int] == ents0[i as int]);
                    assert(rows_view(new_paths@) =~= kept_rows(rows0, rv, rows0.take(i + 1)));
                    assert(entries_view(new_ents@) =~= kept_ents(
                        rows0,
                        rv,
                        rows0.take(i + 1),
                        ents0.take(i + 1),
                    ));
                }
            }
            proof {
                assert(rows_view(new_paths@) =~= kept_rows(rows0, rv, rows0.take(i + 1)));
                assert(entries_view(new_ents@) =~= kept_ents(
                    rows0,
                    rv,
                    rows0.take(i + 1),
                    ents0.take(i + 1),
                ));
            }
            i += 1;
        }
        proof {
            assert(rows0.take(n as int) =~= rows0);
            assert(ents0.take(n as int) =~= ents0);
            lemma_kept_props(rows0, rv, rows0, ents0);
        }
        let ghost kept = kept_rows(rows0, rv, rows0);
        let dn: usize = self.db.deletes.len();
        let mut new_dels: Vec<DeleteRow> = Vec::new();
        let mut i: usize = 0;
        while i < dn
            invariant
                *self == *old(self),
                old(self).wf(),
                i <= dn,
                dn == dels0.len(),
                dels0 == self.db.dels(),
                kept == rows_view(new_paths@),
                dels_view(new_dels@) == dels_with_rows(dels0.take(i as int), kept),
            decreases dn - i,
        {
            proof {
                assert(dels0.take(i + 1).drop_last() =~= dels0.take(i as int));
                assert(dels0.take(i + 1).last() == dels0[i as int]);
                assert(dels0[i as int] == self.db.deletes@[i as int]@);
            }
            match BucketDB::find_key_index(&new_paths, &self.db.deletes[i].hash) {
                Some(j) => {
                    proof {
                        assert(kept[j as int].key == dels0[i as int].hash);
                        assert(has_key(kept, dels0[i as int].hash));
                    }
                    let row = DeleteRow {
                        hash: self.db.deletes[i].hash.clone(),
                        delete_time: self.db.deletes[i].delete_time,
                    };
                    proof {
                        assert(row@ == dels0[i as int]);
                    }
                    new_dels.push(row);
                },
                None => {},
            }
            proof {
                assert(dels_view(new_dels@) =~= dels_with_rows(dels0.take(i + 1), kept));
            }
            i += 1;
        }
        proof {
            assert(dels0.take(dn as int) =~= dels0);
        }
        let fnn: usize = self.db.favorites.len();
        let mut new_favs: Vec<String> = Vec::new();
        let mut i: usize = 0;
        while i < fnn
            invariant
                *self == *old(self),
                old(self).wf(),
                i <= fnn,
                fnn == favs0.len(),
                favs0 == self.db.favs(),
                kept == rows_view(new_paths@),
                new_favs.deep_view() == favs_with_rows(favs0.take(i as int), kept),
            decreases fnn - i,
        {
            proof {
                assert(favs0.take(i + 1).drop_last() =~= favs0.take(i as int));
                assert(favs0.take(i + 1).last() == favs0[i as int]);
                assert(favs0[i as int] == self.db.favorites@[i as int]@);
            }
            match BucketDB::find_key_index(&new_paths, &self.db.favorites[i]) {
                Some(j) => {
                    proof {
                        assert(kept[j as int].key == favs0[i as int]);
                        assert(has_key(kept, favs0[i as int]));
                    }
                    new_favs.push(self.db.favorites[i].clone());
                },
                None => {},
            }
            proof {
                assert(new_favs.deep_view() =~= favs_with_rows(favs0.take(i + 1), kept));
            }
            i += 1;
        }
        proof {
            assert(favs0.take(fnn as int) =~= favs0);
        }
        self.db.paths = new_paths;
        self.db.deletes = new_dels;
        self.db.favorites = new_favs;
        self.entries = new_ents;
        self.usage_space = usage;
        proof {
            lemma_dels_with_rows_membership(dels0, kept, Seq::<char>::empty());
            lemma_favs_with_rows_membership(favs0, kept, Seq::<char>::empty());
            assert forall|q: int| 0 <= q < self.rows().len() implies (#[trigger] self.rows()[q]).key
                == hash_hex_of(self.rows()[q].path) && self.rows()[q].path.len() > 0 && (
            self.rows()[q].is_dir <==> is_dir_path(self.rows()[q].path)) && (self.rows()[q].is_dir
                ==> self.ents()[q].content.len() == 0) && (self.ents()[q].meta.deleted
                <==> dels_have_key(self.db.dels(), self.rows()[q].key)) && (
            self.ents()[q].meta.favorite <==> contains_key_seq(
                self.db.favs(),
                self.rows()[q].key,
            )) by {
                let w = choose|w: int|
                    0 <= w < rows0.len() && #[trigger] kept[q] == rows0[w] && kept_ents(
                        rows0,
                        rv,
                        rows0,
                        ents0,
                    )[q] == ents0[w] && !covered(rows0, rv, rows0[w]);
                assert(self.rows()[q] == rows0[w]);
                assert(self.ents()[q] == ents0[w]);
                assert(has_key(kept, rows0[w].key)) by {
                    assert(kept[q].key == rows0[w].key);
                }
                lemma_dels_with_rows_membership(dels0, kept, rows0[w].key);
                lemma_favs_with_rows_membership(favs0, kept, rows0[w].key);
            }
        }
    }

    /// Hard-deletes the listed entries: each key's row and entry go, the
    /// whole subtree with it for a directory, the sidecar rows with them, and
    /// the removed data bytes go back to the quota. Fails with `NotFound`,
    /// changing nothing, when a key has no row.
    pub fn remove(&mut self, keys: Vec<String>) -> (r: Result<(), BucketError>)
        requires
            old(self).wf(),
        ensures
            final (self).wf(),
            all_keys_present(old(self).rows(), keys.deep_view()) ==> r == Ok::<(), BucketError>(())
                && remove_post(*old(self), *final (self), keys.deep_view()),
            !all_keys_present(old(self).rows(), keys.deep_view()) ==> r == Err::<(), BucketError>(
                BucketError::NotFound,
            ) && *final (self) == *old(self),
    {
        let m: usize = keys.len();
        let ghost kv = keys.deep_view();
        let mut i: usize = 0;
        while i < m
            invariant
                *self == *old(self),
                old(self).wf(),
                i <= m,
                m == keys@.len(),
                kv == keys.deep_view(),
                forall|k: int| 0 <= k < i ==> has_key(old(self).rows(), #[trigger] kv[k]),
            decreases m - i,
        {
            proof {
                assert(kv[i as int] == keys@[i as int]@);
            }
            match BucketDB::find_key_index(&self.db.paths, &keys[i]) {
                None => {
                    return Err(BucketError::NotFound);
                },
                Some(j) => {
                    proof {
                        assert(self.rows()[j as int].key == kv[i as int]);
                        assert(has_key(old(self).rows(), kv[i as int]));
                    }
                },
            }
            i += 1;
        }
        self.remove_covered(&keys);
        Ok(())
    }

    /// Empties the trash: every trashed entry is hard-deleted, its whole
    /// subtree with it for a directory; afterwards no trash rows remain.
    pub fn clear_trash(&mut self) -> (r: Result<(), BucketError>)
        requires
            old(self).wf(),
        ensures
            final (self).wf(),
            r == Ok::<(), BucketError>(()),
            remove_post(
                *old(self),
                *final (self),
                crate::bucket::bucket_db::dels_keys(old(self).db.dels()),
            ),
            final (self).db.dels() == Seq::<DelView>::empty(),
    {
        let ghost dels0 = old(self).db.dels();
        let ghost rows0 = old(self).rows();
        let dn: usize = self.db.deletes.len();
        let mut roots: Vec<String> = Vec::new();
        let mut i: usize = 0;
        while i < dn
            invariant
                *self == *old(self),
                old(self).wf(),
                i <= dn,
                dn == dels0.len(),
                dels0 == self.db.dels(),
                roots@.len() == i,
                forall|k: int|
                    0 <= k < i ==> #[trigger] roots@[k]@ == crate::bucket::bucket_db::dels_keys(
                        dels0,
                    )[k],
            decreases dn - i,
        {
            roots.push(self.db.deletes[i].hash.clone());
            proof {
                assert(crate::bucket::bucket_db::dels_keys(dels0)[i as int] == self.db.deletes@[i
                    as int]@.hash);
            }
            i += 1;
        }
        proof {
            assert(roots.deep_view() =~= crate::bucket::bucket_db::dels_keys(dels0));
        }
        self.remove_covered(&roots);
        proof {
            let rv = crate::bucket::bucket_db::dels_keys(dels0);
            let kept = kept_rows(rows0, rv, rows0);
            lemma_kept_props(rows0, rv, rows0, old(self).ents());
            assert(self.db.dels() =~= Seq::<DelView>::empty()) by {
                if self.db.dels().len() > 0 {
                    let x = self.db.dels()[0].hash;
                    lemma_dels_with_rows_membership(dels0, kept, x);
                    assert(dels_have_key(self.db.dels(), x));
                    assert(dels_have_key(dels0, x) && has_key(kept, x));
                    let d = choose|d: int| 0 <= d < dels0.len() && dels0[d].hash == x;
                    assert(rv[d] == x);
                    let q = choose|q: int| 0 <= q < kept.len() && kept[q].key == x;
                    let w = choose|w: int|
                        0 <= w < rows0.len() && #[trigger] kept[q] == rows0[w] && kept_ents(
                            rows0,
                            rv,
                            rows0,
                            old(self).ents(),
                        )[q] == old(self).ents()[w] && !covered(rows0, rv, rows0[w]);
                    assert(rows0[w].key == x);
                    assert(has_key(rows0, rv[d]));
                    let m = key_index(rows0, x);
                    if m != w {
                        assert(rows0[m].key == x);
                    }
                    assert(rows0[w].path.subrange(0, rows0[w].path.len() as int) =~= rows0[w].path);
                    assert(covers(rows0[w], rows0[w]));
                    assert(covered(rows0, rv, rows0[w]));
                }
            }
        }
        Ok(())
    }

    /// Sweeps the trash rows whose retention expired before `now`: each such
    /// entry is hard-deleted, its whole subtree with it for a directory.
    /// Returns the paths of the expired entries, in trash order.
    pub fn sweep_expired(&mut self, now: i64) -> (r: Result<Vec<String>, BucketError>)
        requires
            old(self).wf(),
        ensures
            final (self).wf(),
            r matches Ok(v) && v.deep_view() == crate::bucket::bucket_db::joined_paths(
                old(self).rows(),
                crate::bucket::bucket_db::expired_keys(old(self).db.dels(), now),
            ) && remove_post(
                *old(self),
                *final (self),
                crate::bucket::bucket_db::expired_keys(old(self).db.dels(), now),
            ),
    {
        let ghost dels0 = old(self).db.dels();
        let ghost rows0 = old(self).rows();
        let ghost exp = crate::bucket::bucket_db::expired_keys(dels0, now);
        let dn: usize = self.db.deletes.len();
        let mut roots: Vec<String> = Vec::new();
        let mut out: Vec<String> = Vec::new();
        let mut i: usize = 0;
        while i < dn
            invariant
                *self == *old(self),
                old(self).wf(),
                i <= dn,
                dn == dels0.len(),
                dels0 == self.db.dels(),
                rows0 == self.rows(),
                exp == crate::bucket::bucket_db::expired_keys(dels0, now),
                roots.deep_view() == crate::bucket::bucket_db::expired_keys(
                    dels0.take(i as int),
                    now,
                ),
                out.deep_view() == crate::bucket::bucket_db::joined_paths(
                    rows0,
                    crate::bucket::bucket_db::expired_keys(dels0.take(i as int), now),
                ),
            decreases dn - i,
        {
            proof {
                assert(dels0.take(i + 1).drop_last() =~= dels0.take(i as int));
                assert(dels0.take(i + 1).last() == dels0[i as int]);
                assert(dels0[i as int] == self.db.deletes@[i as int]@);
            }
            if self.db.deletes[i].delete_time < now {
                roots.push(self.db.deletes[i].hash.clone());
                match BucketDB::find_key_index(&self.db.paths, &self.db.deletes[i].hash) {
                    Some(j) => {
                        proof {
                            assert(self.rows()[j as int].key == dels0[i as int].hash);
                            let w = key_index(rows0, dels0[i as int].hash);
                            if w != j {
                                assert(rows0[w].key == dels0[i as int].hash);
                            }
                        }
                        out.push(self.db.paths[j].path.clone());
                    },
                    None => {},
                }
                proof {
                    let exp1 = crate::bucket::bucket_db::expired_keys(dels0.take(i + 1), now);
                    assert(exp1.drop_last() =~= crate::bucket::bucket_db::expired_keys(
                        dels0.take(i as int),
                        now,
                    ));
                    assert(roots.deep_view() =~= exp1);
                    assert(out.deep_view() =~= crate::bucket::bucket_db::joined_paths(rows0, exp1));
                }
            } else {
                proof {
                    assert(crate::bucket::bucket_db::expired_keys(dels0.take(i + 1), now)
                        =~= crate::bucket::bucket_db::expired_keys(dels0.take(i as int), now));
                }
            }
            i += 1;
        }
        proof {
            assert(dels0.take(dn as int) =~= dels0);
        }
        self.remove_covered(&roots);
        Ok(out)
    }

    /// The breadcrumb of the entry with this key: one segment per path
    /// component, root to leaf, each carrying its title and the hash key of
    /// its own sub-path; the final segment carries the entry's own key.
    pub fn get_path(&self, key: String) -> (r: Result<Vec<PathItem>, BucketError>)
        requires
            self.wf(),
        ensures
            !has_key(self.rows(), key@) ==> (r matches Err(e) && e == BucketError::NotFound),
            has_key(self.rows(), key@) ==> (r matches Ok(v) && v@.len() == crate::paths::segments(
                path_of_key(self.rows(), key@),
            ).len() && (forall|q: int|
                0 <= q < v@.len() ==> (#[trigger] v@[q]).title@ == crate::paths::segments(
                    path_of_key(self.rows(), key@),
                )[q] && v@[q].key@ == hash_hex_of(crumb_path(path_of_key(self.rows(), key@), q)))),
    {
        let path: String = match self.db.get_path(&key) {
            Ok(p) => p,
            Err(e) => {
                return Err(e);
            },
        };
        let ghost p = path_of_key(self.rows(), key@);
        let segs: Vec<String> = crate::paths::split_segments(path.as_str());
        let ghost segsv = crate::paths::segments(p);
        let sn: usize = segs.len();
        let mut out: Vec<PathItem> = Vec::new();
        proof {
            reveal_strlit("");
            reveal_strlit("/");
        }
        let mut cum: String = String::new();
        let mut k: usize = 0;
        while k < sn
            invariant
                k <= sn,
                sn == segsv.len(),
                segsv == crate::paths::segments(p),
                segs.deep_view() == segsv,
                sn == segs@.len(),
                path@ == p,
                "/"@ == seq!['/'],
                out@.len() == k,
                forall|q: int|
                    0 <= q < k ==> (#[trigger] out@[q]).title@ == segsv[q] && out@[q].key@
                        == hash_hex_of(crumb_path(p, q)),
                cum@ == if k == 0 {
                    Seq::<char>::empty()
                } else {
                    crate::paths::joined(segsv.take(k as int)) + seq!['/']
                },
            decreases sn - k,
        {
            proof {
                assert(segsv[k as int] == segs@[k as int]@);
                if k >= 1 {
                    assert(segsv.take(k + 1).drop_last() =~= segsv.take(k as int));
                    assert(segsv.take(k + 1).last() == segsv[k as int]);
                } else {
                    assert(segsv.take(1) =~= seq![segsv[0]]);
                }
            }
            let sub: String = if k + 1 < sn {
                concat_str(concat_str(cum.as_str(), segs[k].as_str()).as_str(), "/")
            } else {
                path.clone()
            };
            proof {
                if k + 1 < sn {
                    assert(sub@ =~= crate::paths::joined(segsv.take(k + 1)) + seq!['/']);
                    assert(sub@ == crumb_path(p, k as int));
                } else {
                    assert(sub@ == crumb_path(p, k as int));
                }
            }
            let h: String = FsMetadata::calculate_hash(sub.as_str());
            out.push(PathItem { key: h, title: segs[k].clone() });
            cum = concat_str(concat_str(cum.as_str(), segs[k].as_str()).as_str(), "/");
            proof {
                assert(cum@ =~= crate::paths::joined(segsv.take(k + 1)) + seq!['/']);
            }
            k += 1;
        }
        Ok(out)
    }

    /// The space summary; this placeholder answer is what the operation
    /// currently yields.
    pub fn get_space() -> (r: Result<String, BucketError>)
        ensures
            r matches Ok(s) && s@ == "test"@,
    {
        proof {
            reveal_strlit("test");
        }
        Ok("test".to_owned())
    }
}

} // verus!
