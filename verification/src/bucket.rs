pub mod bucket;
pub mod bucket_db;
pub mod fs_metadata;
