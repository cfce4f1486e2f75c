pub mod space;
pub mod store;
