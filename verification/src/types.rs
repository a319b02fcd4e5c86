//! The record types of the store and the error taxonomy.

use vstd::prelude::*;

verus! {

/// The pair of content digests recorded for an object: a weak legacy digest
/// and a strong one, both hex-encoded over the exact content bytes.
#[derive(Debug)]
pub struct Checksums {
    pub md5: String,
    pub sha256: String,
}

impl Clone for Checksums {
    fn clone(&self) -> (r: Self)
        ensures
            r == *self,
    {
        Checksums { md5: self.md5.clone(), sha256: self.sha256.clone() }
    }
}

/// A bucket row of the metadata index. Timestamps are milliseconds since the
/// epoch.
#[derive(Debug)]
pub struct BucketRecord {
    pub id: u64,
    pub name: String,
    pub created_at: i64,
    pub updated_at: i64,
}

impl Clone for BucketRecord {
    fn clone(&self) -> (r: Self)
        ensures
            r == *self,
    {
        BucketRecord {
            id: self.id,
            name: self.name.clone(),
            created_at: self.created_at,
            updated_at: self.updated_at,
        }
    }
}

/// An object row of the metadata index.
#[derive(Debug)]
pub struct ObjectRecord {
    pub id: u64,
    pub bucket_id: u64,
    pub key: String,
    pub size: u64,
    pub content_type: String,
    pub md5_checksum: String,
    pub sha256_checksum: String,
    pub storage_path: String,
    pub created_at: i64,
    pub modified_at: i64,
}

impl Clone for ObjectRecord {
    fn clone(&self) -> (r: Self)
        ensures
            r == *self,
    {
        ObjectRecord {
            id: self.id,
            bucket_id: self.bucket_id,
            key: self.key.clone(),
            size: self.size,
            content_type: self.content_type.clone(),
            md5_checksum: self.md5_checksum.clone(),
            sha256_checksum: self.sha256_checksum.clone(),
            storage_path: self.storage_path.clone(),
            created_at: self.created_at,
            modified_at: self.modified_at,
        }
    }
}

/// One custom metadata entry of an object: a child row keyed by the object's
/// id, cascade-deleted with it.
#[derive(Debug)]
pub struct MetadataEntry {
    pub object_id: u64,
    pub key: String,
    pub value: String,
}

impl Clone for MetadataEntry {
    fn clone(&self) -> (r: Self)
        ensures
            r == *self,
    {
        MetadataEntry { object_id: self.object_id, key: self.key.clone(), value: self.value.clone() }
    }
}

/// A bucket as reported to callers, with its derived statistics.
#[derive(Debug)]
pub struct BucketInfo {
    pub name: String,
    pub created_at: i64,
    pub object_count: usize,
    pub total_size: u64,
}

/// An object's metadata as reported to callers.
#[derive(Debug)]
pub struct ObjectMetadata {
    pub key: String,
    pub size: u64,
    pub content_type: String,
    pub checksums: Checksums,
    pub created_at: i64,
    pub modified_at: i64,
    pub custom_metadata: Vec<(String, String)>,
}

/// The errors of the metadata index.
#[derive(Debug)]
pub enum DbError {
    /// A backend fault (for the in-memory index: id space exhausted; for an
    /// outside backend: pool exhaustion or an I/O fault), distinct from
    /// "not found".
    Backend(String),
    BucketAlreadyExists(String),
    BucketNotFound(String),
    ObjectNotFound(String),
}

/// The errors of the storage core.
#[derive(Debug)]
pub enum StorageError {
    BucketNotFound(String),
    BucketAlreadyExists(String),
    BucketNotEmpty(String),
    ObjectNotFound(String),
    ObjectAlreadyExists(String),
    DuplicateContent(String),
    ChecksumMismatch { expected: String, actual: String },
    IoError(String),
    DatabaseError(DbError),
    SerializationError(String),
    InvalidBucketName(String),
    InvalidObjectKey(String),
}

} // verus!
