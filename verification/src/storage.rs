//! The storage orchestrator: sequences bucket and object operations across
//! the blob store and the metadata index so that, from the caller's point of
//! view, each operation is all-or-nothing. Bytes are committed before the
//! index row that points at them (write-then-point), and index rows are
//! removed before their bytes (point-then-delete), so the worst a failure
//! leaves behind is an orphaned blob, never a dangling record.

use vstd::prelude::*;

use crate::blob::{has_ns, has_path, stored, under_ns, BlobStore};
use crate::db::{
    buckets_sorted, distinct_keys, has_bucket_name, has_object, list_selection, meta_entries_of,
    meta_for, meta_of_objects, meta_without, objects_sorted, objs_not_in_bucket, objs_of_bucket,
    seq_inserted, Database,
};
use crate::digest::{digest, md5_hex_of, sha256_hex_of, verify};
use crate::text::{
    bucket_name_ok, join_path, lemma_lex_lt_irrefl, object_key_ok, path_join, str_eq,
    valid_bucket_name, valid_object_key,
};
use crate::types::{
    BucketInfo, BucketRecord, Checksums, ObjectMetadata, ObjectRecord, StorageError,
};

verus! {

broadcast use {vstd::seq_lib::group_filter_ensures, vstd::seq::Seq::lemma_filter_push};

/// The id of the bucket row named `n`.
pub open spec fn owner_id(bs: Seq<BucketRecord>, n: Seq<char>) -> u64 {
    bs[choose|k: int| 0 <= k < bs.len() && bs[k].name@ == n].id
}

/// Object record `o` points into the subtree of its own bucket: its storage
/// path is derived from the bucket's name and the object's key.
pub open spec fn obj_path_ok(bs: Seq<BucketRecord>, o: ObjectRecord) -> bool {
    exists|k: int|
        0 <= k < bs.len() && (#[trigger] bs[k]).id == o.bucket_id && o.storage_path@ == path_join(
            bs[k].name@,
            o.key@,
        )
}

/// Sorted bucket rows have pairwise distinct names.
pub proof fn lemma_sorted_names_unique(bs: Seq<BucketRecord>)
    requires
        buckets_sorted(bs),
    ensures
        forall|x: int, y: int|
            0 <= x < bs.len() && 0 <= y < bs.len() && x != y ==> (#[trigger] bs[x]).name@ != (
            #[trigger] bs[y]).name@,
{
    assert forall|x: int, y: int|
        0 <= x < bs.len() && 0 <= y < bs.len() && x != y implies (#[trigger] bs[x]).name@ != (
    #[trigger] bs[y]).name@ by {
        if bs[x].name@ == bs[y].name@ {
            lemma_lex_lt_irrefl(bs[x].name@);
        }
    }
}

/// The record named `n` has id `owner_id(bs, n)`.
pub proof fn lemma_owner_id_at(bs: Seq<BucketRecord>, i: int)
    requires
        buckets_sorted(bs),
        0 <= i < bs.len(),
    ensures
        owner_id(bs, bs[i].name@) == bs[i].id,
{
    let n = bs[i].name@;
    assert(bs[i].name@ == n);
    let k = choose|k: int| 0 <= k < bs.len() && bs[k].name@ == n;
    assert(bs[k].name@ == n);
    lemma_sorted_names_unique(bs);
    assert(k == i);
}

/// A path derived under one bucket never lies under another bucket's
/// namespace: bucket names hold no separator, so the first segment decides.
pub proof fn lemma_join_not_under_other(bn: Seq<char>, key: Seq<char>, other: Seq<char>)
    requires
        valid_bucket_name(bn),
        valid_bucket_name(other),
        bn != other,
    ensures
        !under_ns(path_join(bn, key), other),
{
    let p = path_join(bn, key);
    let pre = other + seq!['/'];
    if under_ns(p, other) {
        if other.len() < bn.len() {
            assert(p[other.len() as int] == bn[other.len() as int]);
            assert(pre[other.len() as int] == '/');
            assert(crate::text::is_bucket_char(bn[other.len() as int]));
            assert(('/' as int) == 47);
            assert(false);
        } else if other.len() > bn.len() {
            assert(p[bn.len() as int] == '/');
            assert(pre[bn.len() as int] == other[bn.len() as int]);
            assert(crate::text::is_bucket_char(other[bn.len() as int]));
            assert(false);
        } else {
            assert forall|j: int| 0 <= j < bn.len() implies bn[j] == other[j] by {
                assert(p[j] == bn[j]);
                assert(pre[j] == other[j]);
            }
            assert(bn =~= other);
            assert(false);
        }
    }
}

/// Sorted object rows have pairwise distinct (bucket, key) pairs.
pub proof fn lemma_sorted_keys_unique(os: Seq<ObjectRecord>)
    requires
        objects_sorted(os),
    ensures
        forall|x: int, y: int|
            0 <= x < os.len() && 0 <= y < os.len() && x != y ==> !((#[trigger] os[x]).bucket_id == (
            #[trigger] os[y]).bucket_id && os[x].key@ == os[y].key@),
{
    assert forall|x: int, y: int|
        0 <= x < os.len() && 0 <= y < os.len() && x != y implies !((#[trigger] os[x]).bucket_id == (
    #[trigger] os[y]).bucket_id && os[x].key@ == os[y].key@) by {
        if os[x].bucket_id == os[y].bucket_id && os[x].key@ == os[y].key@ {
            lemma_lex_lt_irrefl(os[x].key@);
            if x < y {
                assert(crate::db::obj_before(os[x], os[y]));
            } else {
                assert(crate::db::obj_before(os[y], os[x]));
            }
        }
    }
}

/// The sum of the recorded sizes of the given object rows.
pub open spec fn sum_sizes(os: Seq<ObjectRecord>) -> int
    decreases os.len(),
{
    if os.len() == 0 {
        0
    } else {
        sum_sizes(os.drop_last()) + os.last().size
    }
}

/// The storage core.
pub struct Storage {
    pub base_path: String,
    pub db: Database,
    pub blobs: BlobStore,
}

/// The success state change of a put: exactly `data` lies under the derived
/// path, every other path is untouched, the bucket rows are untouched, and
/// the index holds the row `o` for (bucket, key) — updated in place when the
/// key existed, inserted otherwise — carrying the digests of `data`.
pub open spec fn put_committed(
    pre: Storage,
    post: Storage,
    o: ObjectRecord,
    bucket: Seq<char>,
    key: Seq<char>,
    data: Seq<u8>,
    content_type: Seq<char>,
    now: int,
) -> bool {
    let p = path_join(bucket, key);
    &&& post.db.buckets@ == pre.db.buckets@
    &&& post.blobs.namespaces@ == pre.blobs.namespaces@
    &&& stored(post.blobs.entries@, p, data)
    &&& (forall|d: Seq<u8>| stored(post.blobs.entries@, p, d) ==> d == data)
    &&& (forall|q: Seq<char>, d: Seq<u8>|
        q != p ==> (stored(post.blobs.entries@, q, d) == stored(pre.blobs.entries@, q, d)))
    &&& (forall|q: Seq<char>|
        q != p ==> (has_path(post.blobs.entries@, q) == has_path(pre.blobs.entries@, q)))
    &&& o.key@ == key
    &&& o.size == data.len()
    &&& o.content_type@ == content_type
    &&& o.md5_checksum@ == md5_hex_of(data)
    &&& o.sha256_checksum@ == sha256_hex_of(data)
    &&& o.storage_path@ == p
    &&& o.modified_at == now
    &&& has_bucket_name(pre.db.buckets@, bucket)
    &&& o.bucket_id == owner_id(pre.db.buckets@, bucket)
    &&& (has_object(pre.db.objects@, o.bucket_id, key) ==> exists|i: int|
        0 <= i < pre.db.objects@.len() && (#[trigger] pre.db.objects@[i]).bucket_id == o.bucket_id
            && pre.db.objects@[i].key@ == key && o.id == pre.db.objects@[i].id && o.created_at
            == pre.db.objects@[i].created_at && post.db.objects@ == pre.db.objects@.update(i, o))
    &&& (!has_object(pre.db.objects@, o.bucket_id, key) ==> (o.created_at == now && seq_inserted(
        pre.db.objects@,
        post.db.objects@,
        o,
    )))
}

/// The success state change of a bucket creation: the row is in the index,
/// the namespace exists, and nothing else moved.
pub open spec fn create_committed(pre: Storage, post: Storage, name: Seq<char>, now: int) -> bool {
    &&& !has_bucket_name(pre.db.buckets@, name)
    &&& valid_bucket_name(name)
    &&& (exists|b: BucketRecord|
        seq_inserted(pre.db.buckets@, post.db.buckets@, b) && (#[trigger] b.name)@ == name && b.id
            == pre.db.next_bucket_id && b.created_at == now && b.updated_at == now)
    &&& post.db.objects@ == pre.db.objects@
    &&& post.db.metadata@ == pre.db.metadata@
    &&& post.blobs.entries@ == pre.blobs.entries@
    &&& has_ns(post.blobs.namespaces@, name)
    &&& (forall|q: Seq<char>|
        q != name ==> (has_ns(post.blobs.namespaces@, q) == has_ns(pre.blobs.namespaces@, q)))
}

impl Storage {
    /// Well-formedness of the whole core: both stores well-formed, the
    /// bucket rows and the blob-store namespaces in bijection, every stored
    /// name and key valid, and every object row pointing at existing bytes
    /// under the path derived from its bucket's name and its key.
    pub open spec fn wf(self) -> bool {
        &&& self.db.wf()
        &&& self.blobs.wf()
        &&& (forall|q: Seq<char>|
            #[trigger] has_bucket_name(self.db.buckets@, q) ==> has_ns(self.blobs.namespaces@, q))
        &&& (forall|q: Seq<char>|
            #[trigger] has_ns(self.blobs.namespaces@, q) ==> has_bucket_name(self.db.buckets@, q))
        &&& (forall|k: int|
            0 <= k < self.db.buckets@.len() ==> valid_bucket_name(
                (#[trigger] self.db.buckets@[k]).name@,
            ))
        &&& (forall|i: int|
            0 <= i < self.db.objects@.len() ==> valid_object_key(
                (#[trigger] self.db.objects@[i]).key@,
            ))
        &&& (forall|i: int|
            0 <= i < self.db.objects@.len() ==> obj_path_ok(
                self.db.buckets@,
                #[trigger] self.db.objects@[i],
            ))
        &&& (forall|i: int|
            0 <= i < self.db.objects@.len() ==> has_path(
                self.blobs.entries@,
                (#[trigger] self.db.objects@[i]).storage_path@,
            ))
    }

    /// An object with this key exists in the bucket of this name.
    pub open spec fn object_exists(self, bucket: Seq<char>, key: Seq<char>) -> bool {
        has_bucket_name(self.db.buckets@, bucket) && has_object(
            self.db.objects@,
            owner_id(self.db.buckets@, bucket),
            key,
        )
    }

    /// The object record of (bucket, key); meaningful when `object_exists`.
    pub open spec fn spec_object(self, bucket: Seq<char>, key: Seq<char>) -> ObjectRecord {
        self.db.objects@[choose|i: int|
            0 <= i < self.db.objects@.len() && self.db.objects@[i].bucket_id == owner_id(
                self.db.buckets@,
                bucket,
            ) && self.db.objects@[i].key@ == key]
    }

    /// The bytes stored under path `p`; meaningful when some are.
    pub open spec fn spec_bytes_at(self, p: Seq<char>) -> Seq<u8> {
        choose|d: Seq<u8>| stored(self.blobs.entries@, p, d)
    }

    /// A fresh, empty core rooted (for outside callers) at `base_path`.
    pub fn new(base_path: &str) -> (s: Storage)
        ensures
            s.wf(),
            s.base_path@ == base_path@,
            s.db.buckets@.len() == 0,
            s.db.objects@.len() == 0,
            s.db.metadata@.len() == 0,
            s.blobs.entries@.len() == 0,
            s.blobs.namespaces@.len() == 0,
    {
        Storage {
            base_path: String::from_str(base_path),
            db: Database::new(),
            blobs: BlobStore::new(),
        }
    }

    /// The bucket-name validation rule: 3 to 30 characters, letters, digits,
    /// hyphen, underscore.
    pub fn validate_bucket_name(&self, name: &str) -> (r: Result<(), StorageError>)
        ensures
            (r is Ok) == valid_bucket_name(name@),
            r matches Err(e) ==> e is InvalidBucketName,
    {
        if bucket_name_ok(name) {
            Ok(())
        } else {
            Err(
                StorageError::InvalidBucketName(
                    String::from_str("bucket names hold 3 to 30 characters: letters, digits, hyphen, underscore"),
                ),
            )
        }
    }

    /// The object-key validation rule: 1 to 1024 characters, no leading or
    /// trailing separator, no traversal segment.
    pub fn validate_object_key(&self, key: &str) -> (r: Result<(), StorageError>)
        ensures
            (r is Ok) == valid_object_key(key@),
            r matches Err(e) ==> e is InvalidObjectKey,
    {
        if object_key_ok(key) {
            Ok(())
        } else {
            Err(
                StorageError::InvalidObjectKey(
                    String::from_str("object keys hold 1 to 1024 characters and no leading, trailing or traversal separator"),
                ),
            )
        }
    }

    /// The backing path of a bucket under this core's base path.
    pub fn get_bucket_path(&self, bucket: &str) -> (r: String)
        ensures
            r@ == path_join(self.base_path@, bucket@),
    {
        join_path(self.base_path.as_str(), bucket)
    }

    /// The backing path of an object under this core's base path.
    pub fn get_object_path(&self, bucket: &str, key: &str) -> (r: String)
        ensures
            r@ == path_join(self.base_path@, path_join(bucket@, key@)),
    {
        let rel = join_path(bucket, key);
        join_path(self.base_path.as_str(), rel.as_str())
    }

    /// Fetch an object: resolve the bucket and the index row, read the exact
    /// bytes last committed under the recorded storage path, and return them
    /// with the object's metadata. In strict mode the digests are recomputed
    /// from the bytes read and held against the recorded ones; on divergence
    /// the read fails with `ChecksumMismatch` carrying the recorded digest as
    /// expected and the freshly computed one as actual, the strong pair
    /// first. Integrity failures are reported, never repaired.
    pub fn get_object(&self, bucket: &str, key: &str, strict: bool) -> (r: Result<
        (Vec<u8>, ObjectMetadata),
        StorageError,
    >)
        requires
            self.wf(),
        ensures
            !valid_bucket_name(bucket@) ==> r matches Err(StorageError::InvalidBucketName(_)),
            valid_bucket_name(bucket@) && !valid_object_key(key@) ==> r matches Err(
                StorageError::InvalidObjectKey(_),
            ),
            valid_bucket_name(bucket@) && valid_object_key(key@) && !has_bucket_name(
                self.db.buckets@,
                bucket@,
            ) ==> (r matches Err(StorageError::BucketNotFound(n)) && n@ == bucket@),
            valid_bucket_name(bucket@) && valid_object_key(key@) && has_bucket_name(
                self.db.buckets@,
                bucket@,
            ) && !self.object_exists(bucket@, key@) ==> (r matches Err(StorageError::ObjectNotFound(
                k,
            )) && k@ == key@),
            valid_bucket_name(bucket@) && valid_object_key(key@) && self.object_exists(
                bucket@,
                key@,
            ) ==> ({
                let o = self.spec_object(bucket@, key@);
                let d = self.spec_bytes_at(o.storage_path@);
                &&& stored(self.blobs.entries@, o.storage_path@, d)
                &&& (strict && sha256_hex_of(d) != o.sha256_checksum@ ==> (r matches Err(
                    StorageError::ChecksumMismatch { expected: e, actual: a },
                ) && e@ == o.sha256_checksum@ && a@ == sha256_hex_of(d)))
                &&& (strict && sha256_hex_of(d) == o.sha256_checksum@ && md5_hex_of(d)
                    != o.md5_checksum@ ==> (r matches Err(
                    StorageError::ChecksumMismatch { expected: e, actual: a },
                ) && e@ == o.md5_checksum@ && a@ == md5_hex_of(d)))
                &&& ((!strict || (sha256_hex_of(d) == o.sha256_checksum@ && md5_hex_of(d)
                    == o.md5_checksum@)) ==> (r matches Ok(pr) && pr.0@ == d && pr.1.key@ == o.key@
                    && pr.1.size == o.size && pr.1.content_type@ == o.content_type@
                    && pr.1.checksums.md5@ == o.md5_checksum@ && pr.1.checksums.sha256@
                    == o.sha256_checksum@ && pr.1.created_at == o.created_at && pr.1.modified_at
                    == o.modified_at && pr.1.custom_metadata@.len() == meta_for(
                    self.db.metadata@,
                    o.id,
                ).len() && (forall|i: int|
                    0 <= i < pr.1.custom_metadata@.len() ==> (#[trigger] pr.1.custom_metadata@[i]).0@
                        == meta_for(self.db.metadata@, o.id)[i].key@
                        && pr.1.custom_metadata@[i].1@ == meta_for(
                        self.db.metadata@,
                        o.id,
                    )[i].value@)))
            }),
    {
        if !bucket_name_ok(bucket) {
            return Err(
                StorageError::InvalidBucketName(
                    String::from_str("bucket names hold 3 to 30 characters: letters, digits, hyphen, underscore"),
                ),
            );
        }
        if !object_key_ok(key) {
            return Err(
                StorageError::InvalidObjectKey(
                    String::from_str("object keys hold 1 to 1024 characters and no leading, trailing or traversal separator"),
                ),
            );
        }
        let b = match self.db.get_bucket(bucket) {
            Ok(b) => b,
            Err(_) => {
                return Err(StorageError::BucketNotFound(String::from_str(bucket)));
            },
        };
        proof {
            let kb = choose|k: int|
                0 <= k < self.db.buckets@.len() && self.db.buckets@[k as int] == b;
            lemma_owner_id_at(self.db.buckets@, kb);
        }
        let o = match self.db.get_object(b.id, key) {
            Ok(o) => o,
            Err(_) => {
                return Err(StorageError::ObjectNotFound(String::from_str(key)));
            },
        };
        proof {
            let os = self.db.objects@;
            let io = choose|i: int| 0 <= i < os.len() && os[i as int] == o;
            lemma_sorted_keys_unique(os);
            assert(o == self.spec_object(bucket@, key@));
            assert(has_path(self.blobs.entries@, o.storage_path@));
        }
        let bytes = match self.blobs.read(o.storage_path.as_str()) {
            Some(d) => d,
            None => {
                proof {
                    assert(false);
                }
                return Err(StorageError::ObjectNotFound(String::from_str(key)));
            },
        };
        proof {
            let ghost d0 = self.spec_bytes_at(o.storage_path@);
            assert(stored(self.blobs.entries@, o.storage_path@, bytes@));
            assert(stored(self.blobs.entries@, o.storage_path@, d0));
            let w1 = choose|w: int|
                0 <= w < self.blobs.entries@.len() && (#[trigger] self.blobs.entries@[w]).0@
                    == o.storage_path@ && self.blobs.entries@[w].1@ == bytes@;
            let w2 = choose|w: int|
                0 <= w < self.blobs.entries@.len() && (#[trigger] self.blobs.entries@[w]).0@
                    == o.storage_path@ && self.blobs.entries@[w].1@ == d0;
            assert(w1 == w2);
            assert(bytes@ == d0);
        }
        if strict {
            let expected = Checksums {
                md5: o.md5_checksum.clone(),
                sha256: o.sha256_checksum.clone(),
            };
            if let Err(e) = verify(bytes.as_slice(), &expected) {
                return Err(e);
            }
        }
        let custom = self.db.get_object_metadata(o.id);
        let meta = ObjectMetadata {
            key: o.key.clone(),
            size: o.size,
            content_type: o.content_type.clone(),
            checksums: Checksums { md5: o.md5_checksum.clone(), sha256: o.sha256_checksum.clone() },
            created_at: o.created_at,
            modified_at: o.modified_at,
            custom_metadata: custom,
        };
        Ok((bytes, meta))
    }

    /// Store `data` under (bucket, key): validate both names, resolve the
    /// bucket (fail `BucketNotFound`), compute the digests, consult the dedup
    /// engine (an identical same-key put reuses the bytes already in place),
    /// commit the bytes, then upsert the index row pointing at them — the
    /// bytes are visible before the row that references them ever is.
    pub fn put_object(
        &mut self,
        bucket: &str,
        key: &str,
        data: &[u8],
        content_type: &str,
        custom_metadata: Option<&Vec<(String, String)>>,
        now: i64,
    ) -> (r: Result<ObjectRecord, StorageError>)
        requires
            old(self).wf(),
            custom_metadata matches Some(m) ==> distinct_keys(m@),
        ensures
            final(self).wf(),
            final(self).base_path@ == old(self).base_path@,
            !valid_bucket_name(bucket@) ==> (r matches Err(StorageError::InvalidBucketName(_))
                && *final(self) == *old(self)),
            valid_bucket_name(bucket@) && !valid_object_key(key@) ==> (r matches Err(
                StorageError::InvalidObjectKey(_),
            ) && *final(self) == *old(self)),
            valid_bucket_name(bucket@) && valid_object_key(key@) && !has_bucket_name(
                old(self).db.buckets@,
                bucket@,
            ) ==> (r matches Err(StorageError::BucketNotFound(n)) && n@ == bucket@ && *final(self)
                == *old(self)),
            valid_bucket_name(bucket@) && valid_object_key(key@) && has_bucket_name(
                old(self).db.buckets@,
                bucket@,
            ) && (has_object(
                old(self).db.objects@,
                owner_id(old(self).db.buckets@, bucket@),
                key@,
            ) || old(self).db.next_object_id < u64::MAX) ==> (r matches Ok(o) && put_committed(
                *old(self),
                *final(self),
                o,
                bucket@,
                key@,
                data@,
                content_type@,
                now as int,
            ) && (match custom_metadata {
                Some(m) => final(self).db.metadata@ == meta_without(old(self).db.metadata@, o.id)
                    + meta_entries_of(m@, o.id),
                None => final(self).db.metadata@ == old(self).db.metadata@,
            })),
            valid_bucket_name(bucket@) && valid_object_key(key@) && has_bucket_name(
                old(self).db.buckets@,
                bucket@,
            ) && !has_object(
                old(self).db.objects@,
                owner_id(old(self).db.buckets@, bucket@),
                key@,
            ) && old(self).db.next_object_id == u64::MAX ==> (r matches Err(
                StorageError::DatabaseError(_),
            ) && final(self).db == old(self).db && final(self).blobs.namespaces@ == old(self).blobs.namespaces@ && (forall|q: Seq<char>, d: Seq<u8>|
                q != path_join(bucket@, key@) ==> (stored(final(self).blobs.entries@, q, d)
                    == stored(old(self).blobs.entries@, q, d)))),
    {
        if !bucket_name_ok(bucket) {
            return Err(
                StorageError::InvalidBucketName(
                    String::from_str("bucket names hold 3 to 30 characters: letters, digits, hyphen, underscore"),
                ),
            );
        }
        if !object_key_ok(key) {
            return Err(
                StorageError::InvalidObjectKey(
                    String::from_str("object keys hold 1 to 1024 characters and no leading, trailing or traversal separator"),
                ),
            );
        }
        let b = match self.db.get_bucket(bucket) {
            Ok(b) => b,
            Err(_) => {
                return Err(StorageError::BucketNotFound(String::from_str(bucket)));
            },
        };
        proof {
            let kb = choose|k: int|
                0 <= k < self.db.buckets@.len() && self.db.buckets@[k as int] == b;
            lemma_owner_id_at(self.db.buckets@, kb);
        }
        let path = join_path(bucket, key);
        let sums = digest(data);
        let dup = self.db.find_duplicate(b.id, &sums);
        let mut reuse = false;
        if let Some(dp) = dup {
            if str_eq(dp.as_str(), path.as_str()) {
                if let Some(existing) = self.blobs.read(path.as_str()) {
                    reuse = crate::blob::bytes_eq(existing.as_slice(), data);
                }
            }
        }
        if !reuse {
            self.blobs.write(path.as_str(), data);
        }
        proof {
            assert(stored(self.blobs.entries@, path@, data@));
            assert forall|d: Seq<u8>| stored(self.blobs.entries@, path@, d) implies d == data@ by {
                let w1 = choose|w: int|
                    0 <= w < self.blobs.entries@.len() && (#[trigger] self.blobs.entries@[w]).0@
                        == path@ && self.blobs.entries@[w].1@ == d;
                let w2 = choose|w: int|
                    0 <= w < self.blobs.entries@.len() && (#[trigger] self.blobs.entries@[w]).0@
                        == path@ && self.blobs.entries@[w].1@ == data@;
                assert(w1 == w2);
            }
        }
        let sz = data.len() as u64;
        let ghost mid = *self;
        let res = self.db.create_object(
            b.id,
            key,
            sz,
            content_type,
            sums.md5.as_str(),
            sums.sha256.as_str(),
            path.as_str(),
            custom_metadata,
            now,
        );
        match res {
            Ok(o) => {
                proof {
                    let pre = *old(self);
                    let bs = pre.db.buckets@;
                    let oldos = pre.db.objects@;
                    let nos = self.db.objects@;
                    let kb = choose|k: int| 0 <= k < bs.len() && bs[k as int] == b;
                    if has_object(oldos, b.id, key@) {
                        let i = choose|i: int|
                            0 <= i < oldos.len() && (#[trigger] oldos[i]).bucket_id == b.id
                                && oldos[i].key@ == key@ && o.id == oldos[i].id && o.created_at
                                == oldos[i].created_at && nos == oldos.update(i, o);
                        assert forall|x: int|
                            0 <= x < nos.len() implies valid_object_key((#[trigger] nos[x]).key@)
                            && obj_path_ok(self.db.buckets@, nos[x]) && has_path(
                            self.blobs.entries@,
                            nos[x].storage_path@,
                        ) by {
                            if x == i {
                                assert(nos[x] == o);
                                assert(self.db.buckets@[kb].id == o.bucket_id);
                            } else {
                                assert(nos[x] == oldos[x]);
                                assert(obj_path_ok(bs, oldos[x]));
                                if oldos[x].storage_path@ == path@ {
                                } else {
                                    assert(has_path(mid.blobs.entries@, oldos[x].storage_path@));
                                }
                            }
                        }
                    } else {
                        let i = choose|i: int|
                            0 <= i <= oldos.len() && nos == oldos.insert(i, o);
                        oldos.insert_ensures(i, o);
                        assert forall|x: int|
                            0 <= x < nos.len() implies valid_object_key((#[trigger] nos[x]).key@)
                            && obj_path_ok(self.db.buckets@, nos[x]) && has_path(
                            self.blobs.entries@,
                            nos[x].storage_path@,
                        ) by {
                            if x == i {
                                assert(nos[x] == o);
                                assert(self.db.buckets@[kb].id == o.bucket_id);
                            } else {
                                let x0: int = if x < i {
                                    x
                                } else {
                                    x - 1
                                };
                                assert(nos[x] == oldos[x0]);
                                assert(obj_path_ok(bs, oldos[x0]));
                                if oldos[x0].storage_path@ == path@ {
                                } else {
                                    assert(has_path(mid.blobs.entries@, oldos[x0].storage_path@));
                                }
                            }
                        }
                    }
                    assert(put_committed(
                        *old(self),
                        *final(self),
                        o,
                        bucket@,
                        key@,
                        data@,
                        content_type@,
                        now as int,
                    ));
                }
                Ok(o)
            },
            Err(e) => {
                proof {
                    let pre = *old(self);
                    assert forall|x: int|
                        0 <= x < self.db.objects@.len() implies has_path(
                        self.blobs.entries@,
                        (#[trigger] self.db.objects@[x]).storage_path@,
                    ) by {
                        if self.db.objects@[x].storage_path@ == path@ {
                        } else {
                            assert(has_path(pre.blobs.entries@, self.db.objects@[x].storage_path@));
                        }
                    }
                }
                Err(StorageError::DatabaseError(e))
            },
        }
    }

    /// Create a bucket: validate the name, fail `BucketAlreadyExists` when a
    /// row with the name exists, create the namespace, then the index row.
    /// Were the index insert to fail after the namespace was created, the
    /// namespace is removed again before the error returns, so the bijection
    /// between rows and namespaces survives.
    pub fn create_bucket(&mut self, name: &str, now: i64) -> (r: Result<BucketInfo, StorageError>)
        requires
            old(self).wf(),
        ensures
            final(self).wf(),
            final(self).base_path@ == old(self).base_path@,
            !valid_bucket_name(name@) ==> (r matches Err(StorageError::InvalidBucketName(_))
                && *final(self) == *old(self)),
            valid_bucket_name(name@) && has_bucket_name(old(self).db.buckets@, name@) ==> (
            r matches Err(StorageError::BucketAlreadyExists(n)) && n@ == name@ && *final(self)
                == *old(self)),
            valid_bucket_name(name@) && !has_bucket_name(old(self).db.buckets@, name@) && old(self).db.next_bucket_id == u64::MAX ==> (r matches Err(StorageError::DatabaseError(_))
                && final(self).db == old(self).db && (forall|q: Seq<char>|
                has_ns(final(self).blobs.namespaces@, q) == has_ns(old(self).blobs.namespaces@, q))
                && (forall|q: Seq<char>, d: Seq<u8>|
                !under_ns(q, name@) ==> (stored(final(self).blobs.entries@, q, d) == stored(
                    old(self).blobs.entries@,
                    q,
                    d,
                )))),
            valid_bucket_name(name@) && !has_bucket_name(old(self).db.buckets@, name@) && old(self).db.next_bucket_id < u64::MAX ==> (r matches Ok(info) && info.name@ == name@
                && info.created_at == now && info.object_count == 0 && info.total_size == 0
                && create_committed(*old(self), *final(self), name@, now as int)),
    {
        if !bucket_name_ok(name) {
            return Err(
                StorageError::InvalidBucketName(
                    String::from_str("bucket names hold 3 to 30 characters: letters, digits, hyphen, underscore"),
                ),
            );
        }
        if let Ok(_) = self.db.get_bucket(name) {
            return Err(StorageError::BucketAlreadyExists(String::from_str(name)));
        }
        self.blobs.create_namespace(name);
        let ghost mid = *self;
        match self.db.create_bucket(name, now) {
            Ok(b) => {
                proof {
                    let pre = *old(self);
                    let bs = pre.db.buckets@;
                    let nbs = self.db.buckets@;
                    let pos = choose|i: int| 0 <= i <= bs.len() && nbs == bs.insert(i, b);
                    bs.insert_ensures(pos, b);
                    assert forall|q: Seq<char>|
                        #[trigger] has_bucket_name(nbs, q) implies has_ns(
                        self.blobs.namespaces@,
                        q,
                    ) by {
                        let w = choose|w: int| 0 <= w < nbs.len() && (#[trigger] nbs[w]).name@ == q;
                        if w == pos {
                        } else if w < pos {
                            assert(nbs[w] == bs[w]);
                            assert(has_bucket_name(bs, q));
                        } else {
                            assert(nbs[w] == bs[w - 1]);
                            assert(has_bucket_name(bs, q));
                        }
                    }
                    assert forall|q: Seq<char>|
                        #[trigger] has_ns(self.blobs.namespaces@, q) implies has_bucket_name(
                        nbs,
                        q,
                    ) by {
                        if q == name@ {
                            assert(nbs[pos] == b);
                        } else {
                            assert(has_ns(pre.blobs.namespaces@, q));
                            let w = choose|w: int|
                                0 <= w < bs.len() && (#[trigger] bs[w]).name@ == q;
                            if w < pos {
                                assert(nbs[w] == bs[w]);
                            } else {
                                assert(nbs[w + 1] == bs[w]);
                            }
                        }
                    }
                    assert forall|k: int|
                        0 <= k < nbs.len() implies valid_bucket_name((#[trigger] nbs[k]).name@) by {
                        if k < pos {
                            assert(nbs[k] == bs[k]);
                        } else if k > pos {
                            assert(nbs[k] == bs[k - 1]);
                        }
                    }
                    assert forall|i: int|
                        0 <= i < self.db.objects@.len() implies obj_path_ok(
                        nbs,
                        #[trigger] self.db.objects@[i],
                    ) by {
                        let o = self.db.objects@[i];
                        assert(obj_path_ok(bs, o));
                        let k = choose|k: int|
                            0 <= k < bs.len() && (#[trigger] bs[k]).id == o.bucket_id
                                && o.storage_path@ == path_join(bs[k].name@, o.key@);
                        if k < pos {
                            assert(nbs[k] == bs[k]);
                        } else {
                            assert(nbs[k + 1] == bs[k]);
                        }
                    }
                    assert(create_committed(*old(self), *final(self), name@, now as int));
                }
                Ok(
                    BucketInfo {
                        name: b.name,
                        created_at: now,
                        object_count: 0,
                        total_size: 0,
                    },
                )
            },
            Err(e) => {
                self.blobs.delete_all(name);
                proof {
                    let pre = *old(self);
                    assert forall|q: Seq<char>|
                        has_ns(self.blobs.namespaces@, q) == has_ns(
                        pre.blobs.namespaces@,
                        q,
                    ) by {
                        if q == name@ {
                            assert(!has_ns(self.blobs.namespaces@, q));
                            if has_ns(pre.blobs.namespaces@, q) {
                                assert(has_bucket_name(pre.db.buckets@, q));
                            }
                        }
                    }
                    assert forall|q: Seq<char>|
                        #[trigger] has_ns(self.blobs.namespaces@, q) implies has_bucket_name(
                        self.db.buckets@,
                        q,
                    ) by {}
                    assert forall|i: int|
                        0 <= i < self.db.objects@.len() implies has_path(
                        self.blobs.entries@,
                        (#[trigger] self.db.objects@[i]).storage_path@,
                    ) by {
                        let o = self.db.objects@[i];
                        assert(obj_path_ok(pre.db.buckets@, o));
                        let k = choose|k: int|
                            0 <= k < pre.db.buckets@.len() && (#[trigger] pre.db.buckets@[k]).id
                                == o.bucket_id && o.storage_path@ == path_join(
                                pre.db.buckets@[k].name@,
                                o.key@,
                            );
                        assert(pre.db.buckets@[k].name@ != name@);
                        lemma_join_not_under_other(pre.db.buckets@[k].name@, o.key@, name@);
                    }
                }
                Err(StorageError::DatabaseError(e))
            },
        }
    }

    /// As `create_bucket`, timestamped with the current wall-clock time.
    pub fn create_bucket_now(&mut self, name: &str) -> (r: Result<BucketInfo, StorageError>)
        requires
            old(self).wf(),
        ensures
            final(self).wf(),
            final(self).base_path@ == old(self).base_path@,
            !valid_bucket_name(name@) ==> (r matches Err(StorageError::InvalidBucketName(_))
                && *final(self) == *old(self)),
            valid_bucket_name(name@) && has_bucket_name(old(self).db.buckets@, name@) ==> (
            r matches Err(StorageError::BucketAlreadyExists(n)) && n@ == name@ && *final(self)
                == *old(self)),
            valid_bucket_name(name@) && !has_bucket_name(old(self).db.buckets@, name@) && old(
                self,
            ).db.next_bucket_id < u64::MAX ==> (r is Ok && exists|now: int|
                create_committed(*old(self), *final(self), name@, now)),
    {
        let now = crate::clock::current_time_millis();
        self.create_bucket(name, now)
    }

    /// As `put_object`, timestamped with the current wall-clock time.
    pub fn put_object_now(
        &mut self,
        bucket: &str,
        key: &str,
        data: &[u8],
        content_type: &str,
        custom_metadata: Option<&Vec<(String, String)>>,
    ) -> (r: Result<ObjectRecord, StorageError>)
        requires
            old(self).wf(),
            custom_metadata matches Some(m) ==> distinct_keys(m@),
        ensures
            final(self).wf(),
            final(self).base_path@ == old(self).base_path@,
            valid_bucket_name(bucket@) && valid_object_key(key@) && has_bucket_name(
                old(self).db.buckets@,
                bucket@,
            ) && (has_object(
                old(self).db.objects@,
                owner_id(old(self).db.buckets@, bucket@),
                key@,
            ) || old(self).db.next_object_id < u64::MAX) ==> (r matches Ok(o) && exists|now: int|
                put_committed(
                    *old(self),
                    *final(self),
                    o,
                    bucket@,
                    key@,
                    data@,
                    content_type@,
                    now,
                )),
    {
        let now = crate::clock::current_time_millis();
        self.put_object(bucket, key, data, content_type, custom_metadata, now)
    }

    /// The number of objects and total recorded byte size of bucket `bid`
    /// (the size saturates at the largest representable value).
    fn stats_for_id(&self, bid: u64) -> (r: (usize, u64))
        requires
            self.wf(),
        ensures
            r.0 == objs_of_bucket(self.db.objects@, bid).len(),
            r.1 as int == (if sum_sizes(objs_of_bucket(self.db.objects@, bid)) <= u64::MAX as int {
                sum_sizes(objs_of_bucket(self.db.objects@, bid))
            } else {
                u64::MAX as int
            }),
    {
        let n = self.db.objects.len();
        let mut count: usize = 0;
        let mut total: u64 = 0;
        let mut j: usize = 0;
        while j < n
            invariant
                j <= n,
                n == self.db.objects@.len(),
                count == objs_of_bucket(self.db.objects@.subrange(0, j as int), bid).len(),
                total as int == (if sum_sizes(
                    objs_of_bucket(self.db.objects@.subrange(0, j as int), bid),
                ) <= u64::MAX as int {
                    sum_sizes(objs_of_bucket(self.db.objects@.subrange(0, j as int), bid))
                } else {
                    u64::MAX as int
                }),
            decreases n - j,
        {
            proof {
                assert(self.db.objects@.subrange(0, j as int + 1) =~= self.db.objects@.subrange(
                    0,
                    j as int,
                ).push(self.db.objects@[j as int]));
            }
            let ghost f0 = objs_of_bucket(self.db.objects@.subrange(0, j as int), bid);
            if self.db.objects[j].bucket_id == bid {
                let sz = self.db.objects[j].size;
                proof {
                    let f1 = objs_of_bucket(self.db.objects@.subrange(0, j as int + 1), bid);
                    assert(f1 == f0.push(self.db.objects@[j as int]));
                    assert(f1.drop_last() =~= f0);
                    assert(sum_sizes(f1) == sum_sizes(f0) + sz);
                }
                count = count + 1;
                if total > u64::MAX - sz {
                    total = u64::MAX;
                } else {
                    total = total + sz;
                }
            }
            j = j + 1;
        }
        proof {
            assert(self.db.objects@.subrange(0, n as int) =~= self.db.objects@);
        }
        (count, total)
    }

    /// The derived statistics of a bucket; fails `BucketNotFound` exactly
    /// when the name is absent.
    pub fn get_bucket_stats(&self, bucket_name: &str) -> (r: Result<(usize, u64), StorageError>)
        requires
            self.wf(),
        ensures
            (r is Ok) == has_bucket_name(self.db.buckets@, bucket_name@),
            r matches Err(e) ==> (e matches StorageError::BucketNotFound(n) && n@ == bucket_name@),
            r matches Ok(st) ==> (st.0 == objs_of_bucket(
                self.db.objects@,
                owner_id(self.db.buckets@, bucket_name@),
            ).len() && st.1 as int == (if sum_sizes(
                objs_of_bucket(self.db.objects@, owner_id(self.db.buckets@, bucket_name@)),
            ) <= u64::MAX as int {
                sum_sizes(objs_of_bucket(self.db.objects@, owner_id(self.db.buckets@, bucket_name@)))
            } else {
                u64::MAX as int
            })),
    {
        let b = match self.db.get_bucket(bucket_name) {
            Ok(b) => b,
            Err(_) => {
                return Err(StorageError::BucketNotFound(String::from_str(bucket_name)));
            },
        };
        proof {
            let kb = choose|k: int|
                0 <= k < self.db.buckets@.len() && self.db.buckets@[k as int] == b;
            lemma_owner_id_at(self.db.buckets@, kb);
        }
        Ok(self.stats_for_id(b.id))
    }

    /// All buckets with their derived statistics, in name order.
    pub fn list_buckets(&self) -> (r: Vec<BucketInfo>)
        requires
            self.wf(),
        ensures
            r@.len() == self.db.buckets@.len(),
            forall|i: int|
                0 <= i < r@.len() ==> (#[trigger] r@[i]).name@ == self.db.buckets@[i].name@
                    && r@[i].created_at == self.db.buckets@[i].created_at && r@[i].object_count
                    == objs_of_bucket(self.db.objects@, self.db.buckets@[i].id).len()
                    && r@[i].total_size as int == (if sum_sizes(
                    objs_of_bucket(self.db.objects@, self.db.buckets@[i].id),
                ) <= u64::MAX as int {
                    sum_sizes(objs_of_bucket(self.db.objects@, self.db.buckets@[i].id))
                } else {
                    u64::MAX as int
                }),
    {
        let n = self.db.buckets.len();
        let mut out: Vec<BucketInfo> = Vec::new();
        let mut k: usize = 0;
        while k < n
            invariant
                k <= n,
                n == self.db.buckets@.len(),
                self.wf(),
                out@.len() == k,
                forall|i: int|
                    0 <= i < k ==> (#[trigger] out@[i]).name@ == self.db.buckets@[i].name@
                        && out@[i].created_at == self.db.buckets@[i].created_at
                        && out@[i].object_count == objs_of_bucket(
                        self.db.objects@,
                        self.db.buckets@[i].id,
                    ).len() && out@[i].total_size as int == (if sum_sizes(
                        objs_of_bucket(self.db.objects@, self.db.buckets@[i].id),
                    ) <= u64::MAX as int {
                        sum_sizes(objs_of_bucket(self.db.objects@, self.db.buckets@[i].id))
                    } else {
                        u64::MAX as int
                    }),
            decreases n - k,
        {
            let st = self.stats_for_id(self.db.buckets[k].id);
            out.push(
                BucketInfo {
                    name: self.db.buckets[k].name.clone(),
                    created_at: self.db.buckets[k].created_at,
                    object_count: st.0,
                    total_size: st.1,
                },
            );
            k = k + 1;
        }
        out
    }

    /// The object rows of a bucket, optionally restricted to keys starting
    /// with the prefix, in key order; fails `BucketNotFound` exactly when
    /// the bucket is absent.
    pub fn list_objects(&self, bucket: &str, prefix: Option<&str>) -> (r: Result<
        Vec<ObjectRecord>,
        StorageError,
    >)
        requires
            self.wf(),
        ensures
            (r is Ok) == has_bucket_name(self.db.buckets@, bucket@),
            r matches Err(e) ==> (e matches StorageError::BucketNotFound(n) && n@ == bucket@),
            r matches Ok(v) ==> (v@ == list_selection(
                self.db.objects@,
                owner_id(self.db.buckets@, bucket@),
                match prefix {
                    Some(p) => Some(p@),
                    None => None,
                },
            ) && objects_sorted(v@)),
    {
        let b = match self.db.get_bucket(bucket) {
            Ok(b) => b,
            Err(_) => {
                return Err(StorageError::BucketNotFound(String::from_str(bucket)));
            },
        };
        proof {
            let kb = choose|k: int|
                0 <= k < self.db.buckets@.len() && self.db.buckets@[k as int] == b;
            lemma_owner_id_at(self.db.buckets@, kb);
        }
        Ok(self.db.list_objects(b.id, prefix))
    }

    /// Delete a bucket: fail `BucketNotFound` when absent; unless `force` is
    /// given, fail `BucketNotEmpty` when the bucket still holds an object;
    /// otherwise remove the bucket's subtree from the blob store and then
    /// the bucket row, its object rows and their metadata from the index.
    pub fn delete_bucket(&mut self, name: &str, force: bool) -> (r: Result<(), StorageError>)
        requires
            old(self).wf(),
        ensures
            final(self).wf(),
            final(self).base_path@ == old(self).base_path@,
            !has_bucket_name(old(self).db.buckets@, name@) ==> (r matches Err(
                StorageError::BucketNotFound(n),
            ) && n@ == name@ && *final(self) == *old(self)),
            has_bucket_name(old(self).db.buckets@, name@) && !force && objs_of_bucket(
                old(self).db.objects@,
                owner_id(old(self).db.buckets@, name@),
            ).len() > 0 ==> (r matches Err(StorageError::BucketNotEmpty(n)) && n@ == name@ && *final(self) == *old(self)),
            has_bucket_name(old(self).db.buckets@, name@) && (force || objs_of_bucket(
                old(self).db.objects@,
                owner_id(old(self).db.buckets@, name@),
            ).len() == 0) ==> (r is Ok && !has_bucket_name(final(self).db.buckets@, name@) && (
            forall|q: Seq<char>|
                q != name@ ==> (has_bucket_name(final(self).db.buckets@, q) == has_bucket_name(
                    old(self).db.buckets@,
                    q,
                ))) && final(self).db.objects@ == objs_not_in_bucket(
                old(self).db.objects@,
                owner_id(old(self).db.buckets@, name@),
            ) && final(self).db.metadata@ == meta_of_objects(
                old(self).db.metadata@,
                final(self).db.objects@,
            ) && !has_ns(final(self).blobs.namespaces@, name@) && (forall|q: Seq<char>|
                q != name@ ==> (has_ns(final(self).blobs.namespaces@, q) == has_ns(
                    old(self).blobs.namespaces@,
                    q,
                ))) && (forall|q: Seq<char>, d: Seq<u8>|
                !under_ns(q, name@) ==> (stored(final(self).blobs.entries@, q, d) == stored(
                    old(self).blobs.entries@,
                    q,
                    d,
                ))) && (forall|q: Seq<char>|
                under_ns(q, name@) ==> !has_path(final(self).blobs.entries@, q))),
    {
        let b = match self.db.get_bucket(name) {
            Ok(b) => b,
            Err(_) => {
                return Err(StorageError::BucketNotFound(String::from_str(name)));
            },
        };
        proof {
            let kb = choose|k: int|
                0 <= k < self.db.buckets@.len() && self.db.buckets@[k as int] == b;
            lemma_owner_id_at(self.db.buckets@, kb);
        }
        if !force {
            let st = self.stats_for_id(b.id);
            if st.0 > 0 {
                return Err(StorageError::BucketNotEmpty(String::from_str(name)));
            }
        }
        self.blobs.delete_all(name);
        let ghost mid = *self;
        match self.db.delete_bucket(name) {
            Ok(_) => {},
            Err(_) => {
                proof {
                    assert(false);
                }
                return Err(StorageError::BucketNotFound(String::from_str(name)));
            },
        }
        proof {
            let pre = *old(self);
            let bs = pre.db.buckets@;
            let nbs = self.db.buckets@;
            let i = choose|i: int|
                0 <= i < bs.len() && (#[trigger] bs[i]).name@ == name@ && nbs == bs.remove(i)
                    && self.db.objects@ == objs_not_in_bucket(pre.db.objects@, bs[i].id)
                    && self.db.metadata@ == meta_of_objects(pre.db.metadata@, self.db.objects@);
            bs.remove_ensures(i);
            lemma_sorted_names_unique(bs);
            lemma_owner_id_at(bs, i);
            assert(bs[i].id == owner_id(bs, name@));
            assert forall|w: int| 0 <= w < nbs.len() implies (#[trigger] nbs[w]).name@ != name@ by {
                if w < i {
                    assert(nbs[w] == bs[w]);
                } else {
                    assert(nbs[w] == bs[w + 1]);
                }
            }
            assert forall|q: Seq<char>| q != name@ implies (has_bucket_name(nbs, q)
                == has_bucket_name(bs, q)) by {
                if has_bucket_name(nbs, q) {
                    let w = choose|w: int| 0 <= w < nbs.len() && (#[trigger] nbs[w]).name@ == q;
                    if w < i {
                        assert(bs[w].name@ == q);
                    } else {
                        assert(bs[w + 1].name@ == q);
                    }
                }
                if has_bucket_name(bs, q) {
                    let w = choose|w: int| 0 <= w < bs.len() && (#[trigger] bs[w]).name@ == q;
                    assert(w != i);
                    if w < i {
                        assert(nbs[w].name@ == q);
                    } else {
                        assert(nbs[w - 1].name@ == q);
                    }
                }
            }
            assert forall|q: Seq<char>|
                #[trigger] has_bucket_name(nbs, q) implies has_ns(self.blobs.namespaces@, q) by {
                assert(q != name@);
                assert(has_bucket_name(bs, q));
            }
            assert forall|q: Seq<char>|
                #[trigger] has_ns(self.blobs.namespaces@, q) implies has_bucket_name(nbs, q) by {
                assert(q != name@);
                assert(has_ns(pre.blobs.namespaces@, q));
            }
            assert forall|x: int|
                0 <= x < nbs.len() implies valid_bucket_name((#[trigger] nbs[x]).name@) by {
                if x < i {
                    assert(nbs[x] == bs[x]);
                } else {
                    assert(nbs[x] == bs[x + 1]);
                }
            }
            let prednb = |o: ObjectRecord| o.bucket_id != bs[i].id;
            assert forall|x: int|
                0 <= x < self.db.objects@.len() implies valid_object_key(
                (#[trigger] self.db.objects@[x]).key@,
            ) && obj_path_ok(nbs, self.db.objects@[x]) && has_path(
                self.blobs.entries@,
                self.db.objects@[x].storage_path@,
            ) by {
                let w = crate::db::lemma_filter_elem_source(pre.db.objects@, prednb, x);
                let o = self.db.objects@[x];
                assert(o == pre.db.objects@[w]);
                assert(obj_path_ok(bs, o));
                let k = choose|k: int|
                    0 <= k < bs.len() && (#[trigger] bs[k]).id == o.bucket_id && o.storage_path@
                        == path_join(bs[k].name@, o.key@);
                assert(k != i);
                if k < i {
                    assert(nbs[k] == bs[k]);
                } else {
                    assert(nbs[k - 1] == bs[k]);
                }
                assert(bs[k].name@ != name@);
                lemma_join_not_under_other(bs[k].name@, o.key@, name@);
                assert(has_path(pre.blobs.entries@, o.storage_path@));
            }
        }
        Ok(())
    }

    /// Delete one object: validate, resolve the bucket, remove the index row
    /// first (fail `ObjectNotFound` when absent) and only then the bytes, so
    /// a reader never sees a record whose bytes are already gone.
    pub fn delete_object(&mut self, bucket: &str, key: &str) -> (r: Result<(), StorageError>)
        requires
            old(self).wf(),
        ensures
            final(self).wf(),
            final(self).base_path@ == old(self).base_path@,
            !valid_bucket_name(bucket@) ==> (r matches Err(StorageError::InvalidBucketName(_))
                && *final(self) == *old(self)),
            valid_bucket_name(bucket@) && !valid_object_key(key@) ==> (r matches Err(
                StorageError::InvalidObjectKey(_),
            ) && *final(self) == *old(self)),
            valid_bucket_name(bucket@) && valid_object_key(key@) && !has_bucket_name(
                old(self).db.buckets@,
                bucket@,
            ) ==> (r matches Err(StorageError::BucketNotFound(n)) && n@ == bucket@ && *final(self)
                == *old(self)),
            valid_bucket_name(bucket@) && valid_object_key(key@) && has_bucket_name(
                old(self).db.buckets@,
                bucket@,
            ) && !old(self).object_exists(bucket@, key@) ==> (r matches Err(
                StorageError::ObjectNotFound(k),
            ) && k@ == key@ && *final(self) == *old(self)),
            valid_bucket_name(bucket@) && valid_object_key(key@) && old(self).object_exists(
                bucket@,
                key@,
            ) ==> (r is Ok && final(self).db.buckets@ == old(self).db.buckets@ && final(self).blobs.namespaces@ == old(self).blobs.namespaces@ && (exists|i: int|
                0 <= i < old(self).db.objects@.len() && (#[trigger] old(self).db.objects@[i]).bucket_id
                    == owner_id(old(self).db.buckets@, bucket@) && old(self).db.objects@[i].key@
                    == key@ && final(self).db.objects@ == old(self).db.objects@.remove(i) && final(self).db.metadata@ == meta_without(old(self).db.metadata@, old(self).db.objects@[i].id))
                && !has_path(final(self).blobs.entries@, path_join(bucket@, key@)) && (forall|
                q: Seq<char>,
                d: Seq<u8>,
            |
                q != path_join(bucket@, key@) ==> (stored(final(self).blobs.entries@, q, d)
                    == stored(old(self).blobs.entries@, q, d)))),
    {
        if !bucket_name_ok(bucket) {
            return Err(
                StorageError::InvalidBucketName(
                    String::from_str("bucket names hold 3 to 30 characters: letters, digits, hyphen, underscore"),
                ),
            );
        }
        if !object_key_ok(key) {
            return Err(
                StorageError::InvalidObjectKey(
                    String::from_str("object keys hold 1 to 1024 characters and no leading, trailing or traversal separator"),
                ),
            );
        }
        let b = match self.db.get_bucket(bucket) {
            Ok(b) => b,
            Err(_) => {
                return Err(StorageError::BucketNotFound(String::from_str(bucket)));
            },
        };
        proof {
            let kb = choose|k: int|
                0 <= k < self.db.buckets@.len() && self.db.buckets@[k as int] == b;
            lemma_owner_id_at(self.db.buckets@, kb);
        }
        match self.db.delete_object(b.id, key) {
            Ok(_) => {},
            Err(_) => {
                return Err(StorageError::ObjectNotFound(String::from_str(key)));
            },
        }
        let path = join_path(bucket, key);
        let ghost mid = *self;
        self.blobs.delete(path.as_str());
        proof {
            let pre = *old(self);
            let bs = pre.db.buckets@;
            let oldos = pre.db.objects@;
            let i = choose|i: int|
                0 <= i < oldos.len() && (#[trigger] oldos[i]).bucket_id == b.id && oldos[i].key@
                    == key@ && self.db.objects@ == oldos.remove(i) && self.db.metadata@
                    == meta_without(pre.db.metadata@, oldos[i].id);
            oldos.remove_ensures(i);
            lemma_sorted_names_unique(bs);
            lemma_sorted_keys_unique(oldos);
            assert forall|x: int|
                0 <= x < self.db.objects@.len() implies valid_object_key(
                (#[trigger] self.db.objects@[x]).key@,
            ) && obj_path_ok(bs, self.db.objects@[x]) && has_path(
                self.blobs.entries@,
                self.db.objects@[x].storage_path@,
            ) by {
                let w: int = if x < i {
                    x
                } else {
                    x + 1
                };
                let o = self.db.objects@[x];
                assert(o == oldos[w]);
                assert(obj_path_ok(bs, o));
                let k = choose|k: int|
                    0 <= k < bs.len() && (#[trigger] bs[k]).id == o.bucket_id && o.storage_path@
                        == path_join(bs[k].name@, o.key@);
                if o.storage_path@ == path@ {
                    crate::text::lemma_path_join_injective(bs[k].name@, o.key@, bucket@, key@);
                    assert(bs[k].name@ == bucket@);
                    let kb = choose|k2: int|
                        0 <= k2 < self.db.buckets@.len() && self.db.buckets@[k2 as int] == b;
                    assert(k == kb);
                    assert(o.bucket_id == b.id && o.key@ == key@);
                    assert(w != i);
                    assert(false);
                }
                assert(has_path(mid.blobs.entries@, o.storage_path@));
            }
        }
        Ok(())
    }
}

} // verus!
