//! An object-storage core: named byte blobs ("objects") grouped into
//! namespaces ("buckets"), with a metadata index kept separate from the raw
//! bytes, content checksums for integrity and duplicate detection, and an
//! orchestrator that keeps the two stores consistent.

mod clock;
pub mod digest;
pub mod blob;
pub mod db;
pub mod laws;
pub mod storage;
pub mod text;
pub mod types;
