use vstd::prelude::*;

use crate::errors::BucketError;
use crate::hashing::hash_hex_of;
use crate::paths::{base_name_of, base_name_str, extension_of, extension_str, trim_slash};
use vstd::string::StrSliceExecFns;

verus! {

/// The quota pair kept on a bucket root.
#[derive(Clone, Copy, Debug, PartialEq, Eq, Structural)]
pub struct Size {
    pub available_space: u64,
    pub usage_space: u64,
}

/// The read-shape of an entry, as listings and reads return it.
#[derive(Debug)]
pub struct FsItem {
    pub name: String,
    pub hash: String,
    pub size: String,
    pub file_type: String,
    pub mime_type: String,
    pub is_dir: bool,
    pub is_favorite: bool,
    pub is_delete: bool,
    pub see_time: u64,
    pub delete_at: Option<u64>,
    pub buffer: Option<Vec<u8>>,
}

/// The full property sheet of an entry.
#[derive(Debug)]
pub struct PropertiesItem {
    pub name: String,
    pub hash: String,
    pub is_dir: bool,
    pub owner: u64,
    pub create_at: u64,
    pub update_at: u64,
    pub see_time: u64,
    pub is_favorite: bool,
    pub description: String,
    pub is_delete: bool,
    pub size: u64,
}

/// The out-of-band attributes of one file-system entry: the deletion and
/// favorite flags, the timestamps, and — on a bucket root — the quota pair.
#[derive(Clone, Copy, Debug, PartialEq, Eq, Structural)]
pub struct FsMetadata {
    pub available_space: u64,
    pub usage_space: u64,
    pub deleted: bool,
    pub delete_time: i64,
    pub favorite: bool,
    pub see_time: u64,
    pub create_at: u64,
    pub update_at: u64,
}

/// A timestamp forced into `u64`, with negative instants clamped to zero.
pub open spec fn clamp_time(t: i64) -> u64 {
    if t >= 0 {
        t as u64
    } else {
        0
    }
}

/// The text that a guessed media type renders to for a path; the guess reads
/// only the path, never the disk, so it is a function of the path alone.
pub uninterp spec fn mime_of(p: Seq<char>) -> Seq<char>;

/// The human-readable rendering of a byte count with its binary unit.
pub uninterp spec fn size_display_of(n: u64) -> Seq<char>;

/// Relies on mime_guess::from_path: the guess reads only the path's extension
/// (no disk access) and falls back to text/plain, so equal paths give equal
/// results.
#[verifier::external_body]
fn guess_mime(path: &str) -> (r: String)
    ensures
        r@ == mime_of(path@),
{
    mime_guess::from_path(path).first_or_text_plain().to_string()
}

/// Relies on byte_unit::Byte::get_appropriate_unit with binary multiples: a
/// pure rendering of a byte count, chosen by comparing against fixed bounds.
#[verifier::external_body]
fn size_display(n: u64) -> (r: String)
    ensures
        r@ == size_display_of(n),
{
    byte_unit::Byte::from_bytes(n as u128).get_appropriate_unit(true).to_string()
}

impl FsMetadata {
    /// A fresh attribute record: nothing flagged, all counters zero.
    pub fn new() -> (m: FsMetadata)
        ensures
            m == (FsMetadata {
                available_space: 0,
                usage_space: 0,
                deleted: false,
                delete_time: 0,
                favorite: false,
                see_time: 0,
                create_at: 0,
                update_at: 0,
            }),
    {
        FsMetadata {
            available_space: 0,
            usage_space: 0,
            deleted: false,
            delete_time: 0,
            favorite: false,
            see_time: 0,
            create_at: 0,
            update_at: 0,
        }
    }

    /// Grows the usage counter by `add_size`; fails with `StorageFull` and
    /// leaves everything unchanged when the quota would be exceeded.
    pub fn increase_size(&mut self, add_size: u64) -> (r: Result<u64, BucketError>)
        ensures
            old(self).usage_space + add_size > old(self).available_space ==> r == Err::<
                u64,
                BucketError,
            >(BucketError::StorageFull) && *final (self) == *old(self),
            old(self).usage_space + add_size <= old(self).available_space ==> r == Ok::<
                u64,
                BucketError,
            >((old(self).usage_space + add_size) as u64) && *final (self) == (FsMetadata {
                usage_space: (old(self).usage_space + add_size) as u64,
                ..*old(self)
            }),
    {
        if self.usage_space > self.available_space || add_size > self.available_space
            - self.usage_space {
            return Err(BucketError::StorageFull);
        }
        self.usage_space = self.usage_space + add_size;
        Ok(self.usage_space)
    }

    /// Shrinks the usage counter by `delete_size`, saturating at zero.
    pub fn decrease_size(&mut self, delete_size: u64) -> (r: u64)
        ensures
            *final (self) == (FsMetadata {
                usage_space: if delete_size >= old(self).usage_space {
                    0u64
                } else {
                    (old(self).usage_space - delete_size) as u64
                },
                ..*old(self)
            }),
            r == final (self).usage_space,
    {
        if delete_size >= self.usage_space {
            self.usage_space = 0;
        } else {
            self.usage_space = self.usage_space - delete_size;
        }
        self.usage_space
    }

    /// Flags the entry as deleted at the given instant and returns it.
    pub fn set_delete(&mut self, now: i64) -> (r: i64)
        ensures
            *final (self) == (FsMetadata { deleted: true, delete_time: now, ..*old(self) }),
            r == now,
    {
        self.deleted = true;
        self.delete_time = now;
        now
    }

    /// Clears the deletion flag and its instant.
    pub fn restore_delete(&mut self)
        ensures
            *final (self) == (FsMetadata { deleted: false, delete_time: 0, ..*old(self) }),
    {
        self.deleted = false;
        self.delete_time = 0;
    }

    /// The instant the entry was deleted, or nothing when the record holds no
    /// instant.
    pub fn get_delete_time(&self) -> (r: Option<i64>)
        ensures
            r == if self.delete_time != 0 {
                Option::Some(self.delete_time)
            } else {
                Option::<i64>::None
            },
    {
        if self.delete_time != 0 {
            Some(self.delete_time)
        } else {
            None
        }
    }

    /// Sets the quota ceiling.
    pub fn set_available_space(&mut self, available_space: u64)
        ensures
            *final (self) == (FsMetadata { available_space, ..*old(self) }),
    {
        self.available_space = available_space;
    }

    /// The quota pair of the record.
    pub fn get_space(&self) -> (r: Size)
        ensures
            r == (Size {
                available_space: self.available_space,
                usage_space: self.usage_space,
            }),
    {
        Size { available_space: self.available_space, usage_space: self.usage_space }
    }

    /// Whether the entry is flagged as deleted.
    pub fn is_delete(&self) -> (r: bool)
        ensures
            r == self.deleted,
    {
        self.deleted
    }

    /// Flags the entry as a favorite.
    pub fn set_favorite(&mut self)
        ensures
            *final (self) == (FsMetadata { favorite: true, ..*old(self) }),
    {
        self.favorite = true;
    }

    /// Clears the favorite flag.
    pub fn unset_favorite(&mut self)
        ensures
            *final (self) == (FsMetadata { favorite: false, ..*old(self) }),
    {
        self.favorite = false;
    }

    /// Whether the entry is flagged as a favorite.
    pub fn is_favorite(&self) -> (r: bool)
        ensures
            r == self.favorite,
    {
        self.favorite
    }

    /// The read-shape of the entry at `path` whose attributes this record
    /// holds; `size` is the byte length of its data, zero for directories.
    /// No data buffer is attached.
    pub fn info(&self, path: &str, is_dir: bool, size: u64) -> (r: FsItem)
        ensures
            r.name@ == base_name_of(path@),
            r.hash@ == hash_hex_of(trim_slash(path@)),
            r.size@ == size_display_of(size),
            r.file_type@ == extension_of(base_name_of(path@)),
            r.mime_type@ == mime_of(path@),
            r.is_dir == is_dir,
            r.is_favorite == self.favorite,
            r.is_delete == self.deleted,
            r.see_time == self.see_time,
            r.delete_at == Option::Some(clamp_time(self.delete_time)),
            r.buffer is None,
    {
        let name: String = base_name_str(path);
        let file_type: String = extension_str(name.as_str());
        let delete_at: u64 = if self.delete_time >= 0 {
            self.delete_time as u64
        } else {
            0
        };
        FsItem {
            name,
            hash: FsMetadata::calculate_hash_of_trimmed(path),
            size: size_display(size),
            file_type,
            mime_type: guess_mime(path),
            is_dir,
            is_favorite: self.favorite,
            is_delete: self.deleted,
            see_time: self.see_time,
            delete_at: Some(delete_at),
            buffer: None,
        }
    }

    /// The property sheet of the entry at `path` whose attributes this record
    /// holds; `size` is the byte length of its data, zero for directories.
    pub fn get_properties(&self, path: &str, is_dir: bool, size: u64) -> (r: PropertiesItem)
        ensures
            r.name@ == base_name_of(path@),
            r.hash@ == hash_hex_of(trim_slash(path@)),
            r.is_dir == is_dir,
            r.owner == 0,
            r.create_at == self.create_at,
            r.update_at == self.update_at,
            r.see_time == self.see_time,
            r.is_favorite == self.favorite,
            r.is_delete == self.deleted,
            r.description@ == Seq::<char>::empty(),
            r.size == size,
    {
        proof {
            reveal_strlit("");
        }
        PropertiesItem {
            name: base_name_str(path),
            hash: FsMetadata::calculate_hash_of_trimmed(path),
            is_dir,
            owner: 0,
            create_at: self.create_at,
            update_at: self.update_at,
            see_time: self.see_time,
            is_favorite: self.favorite,
            is_delete: self.deleted,
            description: "".to_owned(),
            size,
        }
    }

    /// The textual hash key of a string: its 64-bit fingerprint rendered in
    /// uppercase hexadecimal.
    pub fn calculate_hash(key: &str) -> (r: String)
        ensures
            r@ == hash_hex_of(key@),
    {
        let h: u64 = crate::calculate_hash(key);
        crate::hashing::to_hex_upper(h)
    }

    /// The hash key of a path taken without its trailing slash, the form the
    /// file system itself would show.
    fn calculate_hash_of_trimmed(path: &str) -> (r: String)
        ensures
            r@ == hash_hex_of(trim_slash(path@)),
    {
        let l: usize = path.unicode_len();
        if l > 0 && path.get_char(l - 1) == '/' {
            let t: &str = path.substring_char(0, l - 1);
            proof {
                assert(t@ =~= trim_slash(path@));
            }
            FsMetadata::calculate_hash(t)
        } else {
            FsMetadata::calculate_hash(path)
        }
    }
}

} // verus!
