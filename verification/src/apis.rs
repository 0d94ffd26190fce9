//! Front ends of the object store.
pub mod object_page;
pub mod s3;
