//! The metadata index: transactional bookkeeping of buckets, objects and
//! per-object custom metadata, keyed by (bucket, key) with uniqueness
//! enforced. It is the single arbiter of what exists and what each object
//! points to. Bucket rows are kept sorted by name and object rows by
//! (bucket id, key), so listings are deterministic.

use vstd::prelude::*;

use crate::text::{lex_lt, is_prefix_of, lemma_lex_lt_total, str_eq, str_lt, str_has_prefix};
use crate::types::{BucketRecord, Checksums, DbError, MetadataEntry, ObjectRecord};

verus! {

broadcast use {vstd::seq_lib::group_filter_ensures, vstd::seq::Seq::lemma_filter_push};

pub open spec fn has_bucket_name(bs: Seq<BucketRecord>, n: Seq<char>) -> bool {
    exists|i: int| 0 <= i < bs.len() && (#[trigger] bs[i]).name@ == n
}

pub open spec fn has_bucket_id(bs: Seq<BucketRecord>, id: u64) -> bool {
    exists|i: int| 0 <= i < bs.len() && (#[trigger] bs[i]).id == id
}

pub open spec fn has_object(os: Seq<ObjectRecord>, bucket_id: u64, k: Seq<char>) -> bool {
    exists|i: int| 0 <= i < os.len() && (#[trigger] os[i]).bucket_id == bucket_id && os[i].key@
        == k
}

pub open spec fn has_object_id(os: Seq<ObjectRecord>, id: u64) -> bool {
    exists|i: int| 0 <= i < os.len() && (#[trigger] os[i]).id == id
}

pub open spec fn buckets_sorted(bs: Seq<BucketRecord>) -> bool {
    forall|i: int, j: int|
        0 <= i < j < bs.len() ==> lex_lt((#[trigger] bs[i]).name@, (#[trigger] bs[j]).name@)
}

/// The listing order of object rows: by bucket id, then key.
pub open spec fn obj_before(a: ObjectRecord, b: ObjectRecord) -> bool {
    a.bucket_id < b.bucket_id || (a.bucket_id == b.bucket_id && lex_lt(a.key@, b.key@))
}

pub open spec fn objects_sorted(os: Seq<ObjectRecord>) -> bool {
    forall|i: int, j: int| 0 <= i < j < os.len() ==> obj_before(#[trigger] os[i], #[trigger] os[j])
}

/// `post` is `pre` with `x` inserted at some position.
pub open spec fn seq_inserted<T>(pre: Seq<T>, post: Seq<T>, x: T) -> bool {
    exists|i: int| 0 <= i <= pre.len() && post == pre.insert(i, x)
}

/// The custom metadata pairs handed to an upsert have pairwise distinct keys.
pub open spec fn distinct_keys(ps: Seq<(String, String)>) -> bool {
    forall|i: int, j: int| 0 <= i < j < ps.len() ==> (#[trigger] ps[i]).0@ != (#[trigger] ps[j]).0@
}

/// The object rows that do not belong to bucket `bid`.
pub open spec fn objs_not_in_bucket(os: Seq<ObjectRecord>, bid: u64) -> Seq<ObjectRecord> {
    os.filter(|o: ObjectRecord| o.bucket_id != bid)
}

/// The object rows of bucket `bid`.
pub open spec fn objs_of_bucket(os: Seq<ObjectRecord>, bid: u64) -> Seq<ObjectRecord> {
    os.filter(|o: ObjectRecord| o.bucket_id == bid)
}

/// The metadata entries whose object still exists in `os`.
pub open spec fn meta_of_objects(ms: Seq<MetadataEntry>, os: Seq<ObjectRecord>) -> Seq<
    MetadataEntry,
> {
    ms.filter(|e: MetadataEntry| has_object_id(os, e.object_id))
}

/// The metadata entries of object `oid`.
pub open spec fn meta_for(ms: Seq<MetadataEntry>, oid: u64) -> Seq<MetadataEntry> {
    ms.filter(|e: MetadataEntry| e.object_id == oid)
}

/// The metadata entries of all objects but `oid`.
pub open spec fn meta_without(ms: Seq<MetadataEntry>, oid: u64) -> Seq<MetadataEntry> {
    ms.filter(|e: MetadataEntry| e.object_id != oid)
}

/// The object rows selected by a listing: the given bucket, optionally only
/// keys starting with the prefix.
pub open spec fn list_pred(o: ObjectRecord, bid: u64, prefix: Option<Seq<char>>) -> bool {
    o.bucket_id == bid && match prefix {
        Some(p) => is_prefix_of(p, o.key@),
        None => true,
    }
}

pub open spec fn list_selection(
    os: Seq<ObjectRecord>,
    bid: u64,
    prefix: Option<Seq<char>>,
) -> Seq<ObjectRecord> {
    os.filter(|o: ObjectRecord| list_pred(o, bid, prefix))
}

pub open spec fn meta_entries_of(pairs: Seq<(String, String)>, oid: u64) -> Seq<MetadataEntry> {
    pairs.map_values(|p: (String, String)| MetadataEntry { object_id: oid, key: p.0, value: p.1 })
}

/// An in-memory metadata index.
pub struct Database {
    pub buckets: Vec<BucketRecord>,
    pub objects: Vec<ObjectRecord>,
    pub metadata: Vec<MetadataEntry>,
    pub next_bucket_id: u64,
    pub next_object_id: u64,
}

impl Database {
    /// Well-formedness: rows sorted (hence names and (bucket, key) pairs
    /// unique), ids unique and below the allocation counters, every object in
    /// an existing bucket, every metadata entry under an existing object and
    /// unique per (object, key).
    pub open spec fn wf(self) -> bool {
        &&& buckets_sorted(self.buckets@)
        &&& objects_sorted(self.objects@)
        &&& forall|i: int|
            0 <= i < self.buckets@.len() ==> (#[trigger] self.buckets@[i]).id
                < self.next_bucket_id
        &&& forall|i: int, j: int|
            0 <= i < j < self.buckets@.len() ==> (#[trigger] self.buckets@[i]).id != (
            #[trigger] self.buckets@[j]).id
        &&& forall|i: int|
            0 <= i < self.objects@.len() ==> (#[trigger] self.objects@[i]).id
                < self.next_object_id
        &&& forall|i: int, j: int|
            0 <= i < j < self.objects@.len() ==> (#[trigger] self.objects@[i]).id != (
            #[trigger] self.objects@[j]).id
        &&& forall|i: int|
            0 <= i < self.objects@.len() ==> has_bucket_id(
                self.buckets@,
                (#[trigger] self.objects@[i]).bucket_id,
            )
        &&& forall|i: int|
            0 <= i < self.metadata@.len() ==> has_object_id(
                self.objects@,
                (#[trigger] self.metadata@[i]).object_id,
            )
        &&& forall|i: int, j: int|
            0 <= i < j < self.metadata@.len() ==> !((#[trigger] self.metadata@[i]).object_id == (
            #[trigger] self.metadata@[j]).object_id && self.metadata@[i].key@
                == self.metadata@[j].key@)
    }

    /// A fresh, empty index.
    pub fn new() -> (d: Database)
        ensures
            d.wf(),
            d.buckets@.len() == 0,
            d.objects@.len() == 0,
            d.metadata@.len() == 0,
            d.next_bucket_id == 1,
            d.next_object_id == 1,
    {
        Database {
            buckets: Vec::new(),
            objects: Vec::new(),
            metadata: Vec::new(),
            next_bucket_id: 1,
            next_object_id: 1,
        }
    }

    fn find_bucket_by_name(&self, name: &str) -> (r: Option<usize>)
        ensures
            match r {
                Some(i) => i < self.buckets@.len() && self.buckets@[i as int].name@ == name@,
                None => !has_bucket_name(self.buckets@, name@),
            },
    {
        let n = self.buckets.len();
        let mut i: usize = 0;
        while i < n
            invariant
                i <= n,
                n == self.buckets@.len(),
                forall|j: int| 0 <= j < i ==> (#[trigger] self.buckets@[j]).name@ != name@,
            decreases n - i,
        {
            if str_eq(self.buckets[i].name.as_str(), name) {
                return Some(i);
            }
            i = i + 1;
        }
        None
    }

    fn find_object(&self, bucket_id: u64, key: &str) -> (r: Option<usize>)
        ensures
            match r {
                Some(i) => i < self.objects@.len() && self.objects@[i as int].bucket_id == bucket_id
                    && self.objects@[i as int].key@ == key@,
                None => !has_object(self.objects@, bucket_id, key@),
            },
    {
        let n = self.objects.len();
        let mut i: usize = 0;
        while i < n
            invariant
                i <= n,
                n == self.objects@.len(),
                forall|j: int|
                    0 <= j < i ==> !((#[trigger] self.objects@[j]).bucket_id == bucket_id
                        && self.objects@[j].key@ == key@),
            decreases n - i,
        {
            if self.objects[i].bucket_id == bucket_id && str_eq(self.objects[i].key.as_str(), key) {
                return Some(i);
            }
            i = i + 1;
        }
        None
    }

    fn bucket_insert_pos(&self, name: &str) -> (r: usize)
        requires
            buckets_sorted(self.buckets@),
            !has_bucket_name(self.buckets@, name@),
        ensures
            r <= self.buckets@.len(),
            forall|j: int| 0 <= j < r ==> lex_lt((#[trigger] self.buckets@[j]).name@, name@),
            forall|j: int|
                r <= j < self.buckets@.len() ==> lex_lt(name@, (#[trigger] self.buckets@[j]).name@),
    {
        let n = self.buckets.len();
        let mut i: usize = 0;
        while i < n
            invariant
                i <= n,
                n == self.buckets@.len(),
                buckets_sorted(self.buckets@),
                !has_bucket_name(self.buckets@, name@),
                forall|j: int| 0 <= j < i ==> lex_lt((#[trigger] self.buckets@[j]).name@, name@),
            decreases n - i,
        {
            if str_lt(name, self.buckets[i].name.as_str()) {
                proof {
                    assert forall|j: int|
                        i <= j < self.buckets@.len() implies lex_lt(
                        name@,
                        (#[trigger] self.buckets@[j]).name@,
                    ) by {
                        if j > i {
                            crate::text::lemma_lex_lt_trans(
                                name@,
                                self.buckets@[i as int].name@,
                                self.buckets@[j].name@,
                            );
                        }
                    }
                }
                return i;
            }
            proof {
                lemma_lex_lt_total(self.buckets@[i as int].name@, name@);
                assert(self.buckets@[i as int].name@ != name@);
            }
            i = i + 1;
        }
        i
    }

    fn object_insert_pos(&self, bucket_id: u64, key: &str) -> (r: usize)
        requires
            objects_sorted(self.objects@),
            !has_object(self.objects@, bucket_id, key@),
        ensures
            r <= self.objects@.len(),
            forall|j: int|
                0 <= j < r ==> (#[trigger] self.objects@[j]).bucket_id < bucket_id || (
                self.objects@[j].bucket_id == bucket_id && lex_lt(self.objects@[j].key@, key@)),
            forall|j: int|
                r <= j < self.objects@.len() ==> bucket_id < (#[trigger] self.objects@[j]).bucket_id
                    || (self.objects@[j].bucket_id == bucket_id && lex_lt(
                    key@,
                    self.objects@[j].key@,
                )),
    {
        let n = self.objects.len();
        let mut i: usize = 0;
        while i < n
            invariant
                i <= n,
                n == self.objects@.len(),
                objects_sorted(self.objects@),
                !has_object(self.objects@, bucket_id, key@),
                forall|j: int|
                    0 <= j < i ==> (#[trigger] self.objects@[j]).bucket_id < bucket_id || (
                    self.objects@[j].bucket_id == bucket_id && lex_lt(self.objects@[j].key@, key@)),
            decreases n - i,
        {
            let after = if self.objects[i].bucket_id > bucket_id {
                true
            } else if self.objects[i].bucket_id == bucket_id {
                str_lt(key, self.objects[i].key.as_str())
            } else {
                false
            };
            if after {
                proof {
                    assert forall|j: int|
                        i <= j < self.objects@.len() implies bucket_id < (
                    #[trigger] self.objects@[j]).bucket_id || (self.objects@[j].bucket_id
                        == bucket_id && lex_lt(key@, self.objects@[j].key@)) by {
                        if j > i {
                            assert(obj_before(self.objects@[i as int], self.objects@[j]));
                            if self.objects@[i as int].bucket_id == bucket_id
                                && self.objects@[j].bucket_id == bucket_id {
                                crate::text::lemma_lex_lt_trans(
                                    key@,
                                    self.objects@[i as int].key@,
                                    self.objects@[j].key@,
                                );
                            }
                        }
                    }
                }
                return i;
            }
            proof {
                if self.objects@[i as int].bucket_id == bucket_id {
                    lemma_lex_lt_total(self.objects@[i as int].key@, key@);
                    assert(self.objects@[i as int].key@ != key@);
                }
            }
            i = i + 1;
        }
        i
    }

    /// Create a bucket row with both timestamps `now`. Fails with
    /// `BucketAlreadyExists` exactly when the name is taken (uniqueness is
    /// enforced here, at the index, not merely checked by callers).
    pub fn create_bucket(&mut self, name: &str, now: i64) -> (r: Result<BucketRecord, DbError>)
        requires
            old(self).wf(),
        ensures
            final(self).wf(),
            has_bucket_name(old(self).buckets@, name@) ==> (r matches Err(
                DbError::BucketAlreadyExists(n),
            ) && n@ == name@ && *final(self) == *old(self)),
            !has_bucket_name(old(self).buckets@, name@) && old(self).next_bucket_id == u64::MAX
                ==> (r matches Err(DbError::Backend(_)) && *final(self) == *old(self)),
            !has_bucket_name(old(self).buckets@, name@) && old(self).next_bucket_id < u64::MAX
                ==> (r matches Ok(b) && b.id == old(self).next_bucket_id && b.name@ == name@
                && b.created_at == now && b.updated_at == now && seq_inserted(
                old(self).buckets@,
                final(self).buckets@,
                b,
            ) && final(self).objects@ == old(self).objects@ && final(self).metadata@ == old(self).metadata@
                && final(self).next_bucket_id == old(self).next_bucket_id + 1 && final(self).next_object_id == old(self).next_object_id),
    {
        if let Some(_) = self.find_bucket_by_name(name) {
            return Err(DbError::BucketAlreadyExists(String::from_str(name)));
        }
        if self.next_bucket_id == u64::MAX {
            return Err(DbError::Backend(String::from_str("bucket id space exhausted")));
        }
        let pos = self.bucket_insert_pos(name);
        let rec = BucketRecord {
            id: self.next_bucket_id,
            name: String::from_str(name),
            created_at: now,
            updated_at: now,
        };
        let ret = rec.clone();
        proof {
            old(self).buckets@.insert_ensures(pos as int, rec);
        }
        self.buckets.insert(pos, rec);
        self.next_bucket_id = self.next_bucket_id + 1;
        proof {
            let bs = old(self).buckets@;
            let ns = self.buckets@;
            assert forall|i: int, j: int| 0 <= i < j < ns.len() implies lex_lt(
                (#[trigger] ns[i]).name@,
                (#[trigger] ns[j]).name@,
            ) by {
                if j < pos {
                } else if i < pos && j == pos {
                } else if i < pos && j > pos {
                    assert(ns[j] == bs[j - 1]);
                } else if i == pos && j > pos {
                    assert(ns[j] == bs[j - 1]);
                } else {
                    assert(ns[i] == bs[i - 1] && ns[j] == bs[j - 1]);
                }
            }
            assert forall|i: int|
                0 <= i < self.objects@.len() implies has_bucket_id(
                ns,
                (#[trigger] self.objects@[i]).bucket_id,
            ) by {
                let w = choose|k: int|
                    0 <= k < bs.len() && (#[trigger] bs[k]).id == self.objects@[i].bucket_id;
                if w < pos {
                    assert(ns[w] == bs[w]);
                } else {
                    assert(ns[w + 1] == bs[w]);
                }
            }
        }
        Ok(ret)
    }

    /// Look a bucket up by name; fails `BucketNotFound` exactly when absent.
    pub fn get_bucket(&self, name: &str) -> (r: Result<BucketRecord, DbError>)
        ensures
            (r is Ok) == has_bucket_name(self.buckets@, name@),
            r matches Ok(b) ==> self.buckets@.contains(b) && b.name@ == name@,
            r matches Err(e) ==> (e matches DbError::BucketNotFound(n) && n@ == name@),
    {
        match self.find_bucket_by_name(name) {
            Some(i) => {
                let b = self.buckets[i].clone();
                Ok(b)
            },
            None => Err(DbError::BucketNotFound(String::from_str(name))),
        }
    }

    /// All bucket rows, in name order.
    pub fn list_buckets(&self) -> (r: Vec<BucketRecord>)
        requires
            self.wf(),
        ensures
            r@ == self.buckets@,
            buckets_sorted(r@),
    {
        let n = self.buckets.len();
        let mut out: Vec<BucketRecord> = Vec::new();
        let mut i: usize = 0;
        while i < n
            invariant
                i <= n,
                n == self.buckets@.len(),
                out@ =~= self.buckets@.subrange(0, i as int),
            decreases n - i,
        {
            out.push(self.buckets[i].clone());
            proof {
                assert(out@ =~= self.buckets@.subrange(0, i as int + 1));
            }
            i = i + 1;
        }
        proof {
            assert(out@ =~= self.buckets@);
        }
        out
    }

    /// Delete a bucket row together with its object rows and their metadata
    /// (the cascade of the schema); fails `BucketNotFound` exactly when the
    /// name is absent.
    pub fn delete_bucket(&mut self, name: &str) -> (r: Result<(), DbError>)
        requires
            old(self).wf(),
        ensures
            final(self).wf(),
            !has_bucket_name(old(self).buckets@, name@) ==> (r matches Err(
                DbError::BucketNotFound(n),
            ) && n@ == name@ && *final(self) == *old(self)),
            has_bucket_name(old(self).buckets@, name@) ==> (r is Ok && exists|i: int|
                0 <= i < old(self).buckets@.len() && (#[trigger] old(self).buckets@[i]).name@
                    == name@ && final(self).buckets@ == old(self).buckets@.remove(i) && final(self).objects@
                    == objs_not_in_bucket(old(self).objects@, old(self).buckets@[i].id)
                    && final(self).metadata@ == meta_of_objects(old(self).metadata@, final(self).objects@)),
            final(self).next_bucket_id == old(self).next_bucket_id,
            final(self).next_object_id == old(self).next_object_id,
    {
        let i = match self.find_bucket_by_name(name) {
            Some(i) => i,
            None => {
                return Err(DbError::BucketNotFound(String::from_str(name)));
            },
        };
        let bid = self.buckets[i].id;
        proof {
            old(self).buckets@.remove_ensures(i as int);
        }
        self.buckets.remove(i);

        let n = self.objects.len();
        let mut kept: Vec<ObjectRecord> = Vec::new();
        let mut j: usize = 0;
        while j < n
            invariant
                j <= n,
                n == self.objects@.len(),
                kept@ == objs_not_in_bucket(self.objects@.subrange(0, j as int), bid),
            decreases n - j,
        {
            proof {
                assert(self.objects@.subrange(0, j as int + 1) =~= self.objects@.subrange(
                    0,
                    j as int,
                ).push(self.objects@[j as int]));
            }
            if self.objects[j].bucket_id != bid {
                kept.push(self.objects[j].clone());
            }
            j = j + 1;
        }
        proof {
            assert(self.objects@.subrange(0, n as int) =~= self.objects@);
        }
        self.objects = kept;

        let m = self.metadata.len();
        let mut kept_meta: Vec<MetadataEntry> = Vec::new();
        let mut k: usize = 0;
        while k < m
            invariant
                k <= m,
                m == self.metadata@.len(),
                kept_meta@ == meta_of_objects(self.metadata@.subrange(0, k as int), self.objects@),
            decreases m - k,
        {
            proof {
                assert(self.metadata@.subrange(0, k as int + 1) =~= self.metadata@.subrange(
                    0,
                    k as int,
                ).push(self.metadata@[k as int]));
            }
            let keep = match self.find_object_by_id(self.metadata[k].object_id) {
                Some(_) => true,
                None => false,
            };
            if keep {
                kept_meta.push(self.metadata[k].clone());
            }
            k = k + 1;
        }
        proof {
            assert(self.metadata@.subrange(0, m as int) =~= self.metadata@);
        }
        self.metadata = kept_meta;

        proof {
            let oldos = old(self).objects@;
            let pred = |o: ObjectRecord| o.bucket_id != bid;
            lemma_filter_keeps_sorted(oldos, pred);
            assert forall|x: int, y: int|
                0 <= x < y < self.objects@.len() implies (#[trigger] self.objects@[x]).id != (
            #[trigger] self.objects@[y]).id by {
                lemma_filter_elem_indices(oldos, pred, x, y);
            }
            assert forall|x: int|
                0 <= x < self.objects@.len() implies (#[trigger] self.objects@[x]).id < self.next_object_id
                    && has_bucket_id(self.buckets@, self.objects@[x].bucket_id) by {
                let w = lemma_filter_elem_source(oldos, pred, x);
                let obid = self.objects@[x].bucket_id;
                let bw = choose|k2: int|
                    0 <= k2 < old(self).buckets@.len() && (#[trigger] old(self).buckets@[k2]).id
                        == obid;
                assert(old(self).buckets@[bw].id == obid);
                assert(bw != i);
                if bw < i {
                    assert(self.buckets@[bw] == old(self).buckets@[bw]);
                } else {
                    assert(self.buckets@[bw - 1] == old(self).buckets@[bw]);
                }
            }
            assert forall|x: int, y: int|
                0 <= x < y < self.metadata@.len() implies !((#[trigger] self.metadata@[x]).object_id
                == (#[trigger] self.metadata@[y]).object_id && self.metadata@[x].key@
                == self.metadata@[y].key@) by {
                let predm = |e: MetadataEntry| has_object_id(self.objects@, e.object_id);
                lemma_filter_elem_indices_meta(old(self).metadata@, predm, x, y);
            }
        }
        Ok(())
    }

    /// Upsert the object row keyed by (bucket_id, key): when the row exists
    /// all non-key fields are overwritten and the modified timestamp set to
    /// `now` (the created timestamp and the row's id are kept); when absent a
    /// fresh row is inserted with both timestamps `now`. When custom metadata
    /// is supplied the object's whole metadata set is replaced with it, in
    /// the same step.
    pub fn create_object(
        &mut self,
        bucket_id: u64,
        key: &str,
        size: u64,
        content_type: &str,
        md5_checksum: &str,
        sha256_checksum: &str,
        storage_path: &str,
        custom_metadata: Option<&Vec<(String, String)>>,
        now: i64,
    ) -> (r: Result<ObjectRecord, DbError>)
        requires
            old(self).wf(),
            has_bucket_id(old(self).buckets@, bucket_id),
            custom_metadata matches Some(m) ==> distinct_keys(m@),
        ensures
            final(self).wf(),
            final(self).buckets@ == old(self).buckets@,
            final(self).next_bucket_id == old(self).next_bucket_id,
            !has_object(old(self).objects@, bucket_id, key@) && old(self).next_object_id
                == u64::MAX ==> (r matches Err(DbError::Backend(_)) && *final(self) == *old(self)),
            r matches Ok(o) ==> (o.bucket_id == bucket_id && o.key@ == key@ && o.size == size
                && o.content_type@ == content_type@ && o.md5_checksum@ == md5_checksum@
                && o.sha256_checksum@ == sha256_checksum@ && o.storage_path@ == storage_path@
                && o.modified_at == now),
            has_object(old(self).objects@, bucket_id, key@) ==> (r matches Ok(o) && exists|i: int|
                0 <= i < old(self).objects@.len() && (#[trigger] old(self).objects@[i]).bucket_id
                    == bucket_id && old(self).objects@[i].key@ == key@ && o.id == old(self).objects@[i].id && o.created_at == old(self).objects@[i].created_at && final(self).objects@ == old(self).objects@.update(i, o)) && final(self).next_object_id == old(self).next_object_id,
            !has_object(old(self).objects@, bucket_id, key@) && old(self).next_object_id
                < u64::MAX ==> (r matches Ok(o) && o.id == old(self).next_object_id && o.created_at
                == now && seq_inserted(old(self).objects@, final(self).objects@, o) && final(self).next_object_id == old(self).next_object_id + 1),
            r matches Ok(o) ==> (match custom_metadata {
                Some(m) => final(self).metadata@ == meta_without(old(self).metadata@, o.id)
                    + meta_entries_of(m@, o.id),
                None => final(self).metadata@ == old(self).metadata@,
            }),
    {
        match self.find_object(bucket_id, key) {
            Some(i) => {
                let created = self.objects[i].created_at;
                let the_id = self.objects[i].id;
                let rec = ObjectRecord {
                    id: the_id,
                    bucket_id,
                    key: String::from_str(key),
                    size,
                    content_type: String::from_str(content_type),
                    md5_checksum: String::from_str(md5_checksum),
                    sha256_checksum: String::from_str(sha256_checksum),
                    storage_path: String::from_str(storage_path),
                    created_at: created,
                    modified_at: now,
                };
                let ret = rec.clone();
                proof {
                    self.objects@.remove_ensures(i as int);
                    self.objects@.remove(i as int).insert_ensures(i as int, rec);
                }
                self.objects.remove(i);
                self.objects.insert(i, rec);
                proof {
                    let os = old(self).objects@;
                    let ns = self.objects@;
                    assert(ns =~= os.update(i as int, ret));
                    assert forall|x: int, y: int| 0 <= x < y < ns.len() implies obj_before(
                        #[trigger] ns[x],
                        #[trigger] ns[y],
                    ) by {
                        assert(obj_before(os[x], os[y]));
                    }
                    assert forall|x: int|
                        0 <= x < self.metadata@.len() implies has_object_id(
                        ns,
                        (#[trigger] self.metadata@[x]).object_id,
                    ) by {
                        let w = choose|k: int|
                            0 <= k < os.len() && (#[trigger] os[k]).id
                                == self.metadata@[x].object_id;
                        assert(ns[w].id == os[w].id);
                    }
                }
                if let Some(m) = custom_metadata {
                    self.replace_metadata(the_id, m);
                }
                Ok(ret)
            },
            None => {
                if self.next_object_id == u64::MAX {
                    return Err(DbError::Backend(String::from_str("object id space exhausted")));
                }
                let pos = self.object_insert_pos(bucket_id, key);
                let the_id = self.next_object_id;
                let rec = ObjectRecord {
                    id: the_id,
                    bucket_id,
                    key: String::from_str(key),
                    size,
                    content_type: String::from_str(content_type),
                    md5_checksum: String::from_str(md5_checksum),
                    sha256_checksum: String::from_str(sha256_checksum),
                    storage_path: String::from_str(storage_path),
                    created_at: now,
                    modified_at: now,
                };
                let ret = rec.clone();
                proof {
                    self.objects@.insert_ensures(pos as int, rec);
                }
                self.objects.insert(pos, rec);
                self.next_object_id = self.next_object_id + 1;
                proof {
                    let os = old(self).objects@;
                    let ns = self.objects@;
                    assert forall|x: int, y: int| 0 <= x < y < ns.len() implies obj_before(
                        #[trigger] ns[x],
                        #[trigger] ns[y],
                    ) by {
                        if y < pos {
                        } else if x < pos && y == pos {
                        } else if x < pos && y > pos {
                            assert(ns[y] == os[y - 1]);
                        } else if x == pos && y > pos {
                            assert(ns[y] == os[y - 1]);
                        } else {
                            assert(ns[x] == os[x - 1] && ns[y] == os[y - 1]);
                        }
                    }
                    assert forall|x: int|
                        0 <= x < self.metadata@.len() implies has_object_id(
                        ns,
                        (#[trigger] self.metadata@[x]).object_id,
                    ) by {
                        let w = choose|k: int|
                            0 <= k < os.len() && (#[trigger] os[k]).id
                                == self.metadata@[x].object_id;
                        if w < pos {
                            assert(ns[w] == os[w]);
                        } else {
                            assert(ns[w + 1] == os[w]);
                        }
                    }
                    assert(has_object_id(ns, the_id)) by {
                        assert(ns[pos as int].id == the_id);
                    }
                }
                if let Some(m) = custom_metadata {
                    self.replace_metadata(the_id, m);
                }
                Ok(ret)
            },
        }
    }

    /// Replace the whole custom metadata set of object `oid` with the given
    /// pairs.
    fn replace_metadata(&mut self, oid: u64, pairs: &Vec<(String, String)>)
        requires
            old(self).wf(),
            distinct_keys(pairs@),
            has_object_id(old(self).objects@, oid),
        ensures
            final(self).wf(),
            final(self).metadata@ == meta_without(old(self).metadata@, oid) + meta_entries_of(
                pairs@,
                oid,
            ),
            final(self).buckets@ == old(self).buckets@,
            final(self).objects@ == old(self).objects@,
            final(self).next_bucket_id == old(self).next_bucket_id,
            final(self).next_object_id == old(self).next_object_id,
    {
        let m = self.metadata.len();
        let mut kept: Vec<MetadataEntry> = Vec::new();
        let mut k: usize = 0;
        while k < m
            invariant
                k <= m,
                m == self.metadata@.len(),
                kept@ == meta_without(self.metadata@.subrange(0, k as int), oid),
            decreases m - k,
        {
            proof {
                assert(self.metadata@.subrange(0, k as int + 1) =~= self.metadata@.subrange(
                    0,
                    k as int,
                ).push(self.metadata@[k as int]));
            }
            if self.metadata[k].object_id != oid {
                kept.push(self.metadata[k].clone());
            }
            k = k + 1;
        }
        proof {
            assert(self.metadata@.subrange(0, m as int) =~= self.metadata@);
        }
        let p = pairs.len();
        let mut k2: usize = 0;
        while k2 < p
            invariant
                k2 <= p,
                p == pairs@.len(),
                kept@ =~= meta_without(self.metadata@, oid) + meta_entries_of(
                    pairs@.subrange(0, k2 as int),
                    oid,
                ),
            decreases p - k2,
        {
            let e = MetadataEntry {
                object_id: oid,
                key: pairs[k2].0.clone(),
                value: pairs[k2].1.clone(),
            };
            kept.push(e);
            proof {
                assert(kept@ =~= meta_without(self.metadata@, oid) + meta_entries_of(
                    pairs@.subrange(0, k2 as int + 1),
                    oid,
                ));
            }
            k2 = k2 + 1;
        }
        proof {
            assert(pairs@.subrange(0, p as int) =~= pairs@);
        }
        self.metadata = kept;
        proof {
            let oldm = old(self).metadata@;
            let base = meta_without(oldm, oid);
            let added = meta_entries_of(pairs@, oid);
            let predm = |e: MetadataEntry| e.object_id != oid;
            assert forall|x: int|
                0 <= x < self.metadata@.len() implies has_object_id(
                self.objects@,
                (#[trigger] self.metadata@[x]).object_id,
            ) by {
                if x < base.len() {
                    let w = lemma_filter_elem_source_meta(oldm, predm, x);
                } else {
                    assert(self.metadata@[x] == added[x - base.len()]);
                    assert(self.metadata@[x].object_id == oid);
                }
            }
            assert forall|x: int, y: int|
                0 <= x < y < self.metadata@.len() implies !((
            #[trigger] self.metadata@[x]).object_id == (#[trigger] self.metadata@[y]).object_id
                && self.metadata@[x].key@ == self.metadata@[y].key@) by {
                if y < base.len() {
                    lemma_filter_elem_indices_meta(oldm, predm, x, y);
                } else if x < base.len() {
                    assert(self.metadata@[y] == added[y - base.len()]);
                    assert(self.metadata@[y].object_id == oid);
                    assert(predm(self.metadata@[x]));
                } else {
                    assert(self.metadata@[x] == added[x - base.len()]);
                    assert(self.metadata@[y] == added[y - base.len()]);
                    assert(self.metadata@[x].key@ == pairs@[x - base.len()].0@);
                    assert(self.metadata@[y].key@ == pairs@[y - base.len()].0@);
                }
            }
        }
    }

    /// Look an object up by (bucket, key); fails `ObjectNotFound` exactly
    /// when absent.
    pub fn get_object(&self, bucket_id: u64, key: &str) -> (r: Result<ObjectRecord, DbError>)
        ensures
            (r is Ok) == has_object(self.objects@, bucket_id, key@),
            r matches Ok(o) ==> self.objects@.contains(o) && o.bucket_id == bucket_id && o.key@
                == key@,
            r matches Err(e) ==> (e matches DbError::ObjectNotFound(k) && k@ == key@),
    {
        match self.find_object(bucket_id, key) {
            Some(i) => {
                let o = self.objects[i].clone();
                proof {
                    assert(self.objects@[i as int] == o);
                }
                Ok(o)
            },
            None => Err(DbError::ObjectNotFound(String::from_str(key))),
        }
    }

    /// The custom metadata pairs of an object, in stored order; empty when
    /// there are none.
    pub fn get_object_metadata(&self, object_id: u64) -> (r: Vec<(String, String)>)
        ensures
            r@.len() == meta_for(self.metadata@, object_id).len(),
            forall|i: int|
                0 <= i < r@.len() ==> (#[trigger] r@[i]).0@ == meta_for(
                    self.metadata@,
                    object_id,
                )[i].key@ && r@[i].1@ == meta_for(self.metadata@, object_id)[i].value@,
    {
        let m = self.metadata.len();
        let mut out: Vec<(String, String)> = Vec::new();
        let mut k: usize = 0;
        while k < m
            invariant
                k <= m,
                m == self.metadata@.len(),
                out@.len() == meta_for(self.metadata@.subrange(0, k as int), object_id).len(),
                forall|i: int|
                    0 <= i < out@.len() ==> (#[trigger] out@[i]).0@ == meta_for(
                        self.metadata@.subrange(0, k as int),
                        object_id,
                    )[i].key@ && out@[i].1@ == meta_for(
                        self.metadata@.subrange(0, k as int),
                        object_id,
                    )[i].value@,
            decreases m - k,
        {
            proof {
                assert(self.metadata@.subrange(0, k as int + 1) =~= self.metadata@.subrange(
                    0,
                    k as int,
                ).push(self.metadata@[k as int]));
            }
            if self.metadata[k].object_id == object_id {
                out.push((self.metadata[k].key.clone(), self.metadata[k].value.clone()));
            }
            k = k + 1;
        }
        proof {
            assert(self.metadata@.subrange(0, m as int) =~= self.metadata@);
        }
        out
    }

    /// The object rows of a bucket, optionally restricted to keys starting
    /// with the prefix, in key order.
    pub fn list_objects(&self, bucket_id: u64, prefix: Option<&str>) -> (r: Vec<ObjectRecord>)
        requires
            self.wf(),
        ensures
            r@ == list_selection(
                self.objects@,
                bucket_id,
                match prefix {
                    Some(p) => Some(p@),
                    None => None,
                },
            ),
            objects_sorted(r@),
    {
        let ghost gp: Option<Seq<char>> = match prefix {
            Some(p) => Some(p@),
            None => None,
        };
        let n = self.objects.len();
        let mut out: Vec<ObjectRecord> = Vec::new();
        let mut j: usize = 0;
        while j < n
            invariant
                j <= n,
                n == self.objects@.len(),
                gp == (match prefix {
                    Some(p) => Some(p@),
                    None => None::<Seq<char>>,
                }),
                out@ == list_selection(self.objects@.subrange(0, j as int), bucket_id, gp),
            decreases n - j,
        {
            proof {
                assert(self.objects@.subrange(0, j as int + 1) =~= self.objects@.subrange(
                    0,
                    j as int,
                ).push(self.objects@[j as int]));
            }
            let sel = if self.objects[j].bucket_id == bucket_id {
                match prefix {
                    Some(p) => str_has_prefix(self.objects[j].key.as_str(), p),
                    None => true,
                }
            } else {
                false
            };
            if sel {
                out.push(self.objects[j].clone());
            }
            proof {
                let pred = |o: ObjectRecord| list_pred(o, bucket_id, gp);
                assert(sel == list_pred(self.objects@[j as int], bucket_id, gp));
                assert(sel == pred(self.objects@[j as int]));
                assert(out@ == self.objects@.subrange(0, j as int).filter(pred).push(
                    self.objects@[j as int],
                ) || out@ == self.objects@.subrange(0, j as int).filter(pred));
                assert(out@ == list_selection(
                    self.objects@.subrange(0, j as int + 1),
                    bucket_id,
                    gp,
                ));
            }
            j = j + 1;
        }
        proof {
            assert(self.objects@.subrange(0, n as int) =~= self.objects@);
            lemma_filter_keeps_sorted(self.objects@, |o: ObjectRecord| list_pred(o, bucket_id, gp));
        }
        out
    }

    /// Delete the object row for (bucket, key) and, with it, its metadata
    /// entries; fails `ObjectNotFound` exactly when absent.
    pub fn delete_object(&mut self, bucket_id: u64, key: &str) -> (r: Result<(), DbError>)
        requires
            old(self).wf(),
        ensures
            final(self).wf(),
            final(self).buckets@ == old(self).buckets@,
            final(self).next_bucket_id == old(self).next_bucket_id,
            final(self).next_object_id == old(self).next_object_id,
            !has_object(old(self).objects@, bucket_id, key@) ==> (r matches Err(
                DbError::ObjectNotFound(k),
            ) && k@ == key@ && *final(self) == *old(self)),
            has_object(old(self).objects@, bucket_id, key@) ==> (r is Ok && exists|i: int|
                0 <= i < old(self).objects@.len() && (#[trigger] old(self).objects@[i]).bucket_id
                    == bucket_id && old(self).objects@[i].key@ == key@ && final(self).objects@
                    == old(self).objects@.remove(i) && final(self).metadata@ == meta_without(
                    old(self).metadata@,
                    old(self).objects@[i].id,
                )),
    {
        let i = match self.find_object(bucket_id, key) {
            Some(i) => i,
            None => {
                return Err(DbError::ObjectNotFound(String::from_str(key)));
            },
        };
        let oid = self.objects[i].id;
        proof {
            self.objects@.remove_ensures(i as int);
        }
        self.objects.remove(i);

        let m = self.metadata.len();
        let mut kept: Vec<MetadataEntry> = Vec::new();
        let mut k: usize = 0;
        while k < m
            invariant
                k <= m,
                m == self.metadata@.len(),
                kept@ == meta_without(self.metadata@.subrange(0, k as int), oid),
            decreases m - k,
        {
            proof {
                assert(self.metadata@.subrange(0, k as int + 1) =~= self.metadata@.subrange(
                    0,
                    k as int,
                ).push(self.metadata@[k as int]));
            }
            if self.metadata[k].object_id != oid {
                kept.push(self.metadata[k].clone());
            }
            k = k + 1;
        }
        proof {
            assert(self.metadata@.subrange(0, m as int) =~= self.metadata@);
        }
        self.metadata = kept;

        proof {
            let os = old(self).objects@;
            let ns = self.objects@;
            let oldm = old(self).metadata@;
            let predm = |e: MetadataEntry| e.object_id != oid;
            assert forall|x: int, y: int| 0 <= x < y < ns.len() implies obj_before(
                #[trigger] ns[x],
                #[trigger] ns[y],
            ) by {
                if y < i {
                } else if x < i {
                    assert(ns[y] == os[y + 1]);
                } else {
                    assert(ns[x] == os[x + 1] && ns[y] == os[y + 1]);
                }
            }
            assert forall|x: int|
                0 <= x < self.metadata@.len() implies has_object_id(
                ns,
                (#[trigger] self.metadata@[x]).object_id,
            ) by {
                let w0 = lemma_filter_elem_source_meta(oldm, predm, x);
                let eid = self.metadata@[x].object_id;
                let w = choose|k2: int| 0 <= k2 < os.len() && (#[trigger] os[k2]).id == eid;
                assert(os[w].id == eid);
                assert(w != i);
                if w < i {
                    assert(ns[w] == os[w]);
                } else {
                    assert(ns[w - 1] == os[w]);
                }
            }
            assert forall|x: int, y: int|
                0 <= x < y < self.metadata@.len() implies !((
            #[trigger] self.metadata@[x]).object_id == (#[trigger] self.metadata@[y]).object_id
                && self.metadata@[x].key@ == self.metadata@[y].key@) by {
                lemma_filter_elem_indices_meta(oldm, predm, x, y);
            }
        }
        Ok(())
    }

    /// Duplicate search for the dedup engine, per-bucket scope: the recorded
    /// storage path of some object of the bucket whose checksums equal the
    /// given ones, if any exists.
    pub fn find_duplicate(&self, bucket_id: u64, checksums: &Checksums) -> (r: Option<String>)
        ensures
            match r {
                Some(p) => exists|i: int|
                    0 <= i < self.objects@.len() && (#[trigger] self.objects@[i]).bucket_id
                        == bucket_id && self.objects@[i].md5_checksum@ == checksums.md5@
                        && self.objects@[i].sha256_checksum@ == checksums.sha256@ && p@
                        == self.objects@[i].storage_path@,
                None => forall|i: int|
                    0 <= i < self.objects@.len() ==> !((#[trigger] self.objects@[i]).bucket_id
                        == bucket_id && self.objects@[i].md5_checksum@ == checksums.md5@
                        && self.objects@[i].sha256_checksum@ == checksums.sha256@),
            },
    {
        let n = self.objects.len();
        let mut i: usize = 0;
        while i < n
            invariant
                i <= n,
                n == self.objects@.len(),
                forall|j: int|
                    0 <= j < i ==> !((#[trigger] self.objects@[j]).bucket_id == bucket_id
                        && self.objects@[j].md5_checksum@ == checksums.md5@
                        && self.objects@[j].sha256_checksum@ == checksums.sha256@),
            decreases n - i,
        {
            if self.objects[i].bucket_id == bucket_id && str_eq(
                self.objects[i].md5_checksum.as_str(),
                checksums.md5.as_str(),
            ) && str_eq(self.objects[i].sha256_checksum.as_str(), checksums.sha256.as_str()) {
                return Some(self.objects[i].storage_path.clone());
            }
            i = i + 1;
        }
        None
    }

    fn find_object_by_id(&self, id: u64) -> (r: Option<usize>)
        ensures
            match r {
                Some(i) => i < self.objects@.len() && self.objects@[i as int].id == id,
                None => !has_object_id(self.objects@, id),
            },
    {
        let n = self.objects.len();
        let mut i: usize = 0;
        while i < n
            invariant
                i <= n,
                n == self.objects@.len(),
                forall|j: int| 0 <= j < i ==> (#[trigger] self.objects@[j]).id != id,
            decreases n - i,
        {
            if self.objects[i].id == id {
                return Some(i);
            }
            i = i + 1;
        }
        None
    }
}

/// Every element of a filtered sequence comes from the original; returns a
/// source index.
pub proof fn lemma_filter_elem_source(
    os: Seq<ObjectRecord>,
    pred: spec_fn(ObjectRecord) -> bool,
    x: int,
) -> (w: int)
    requires
        0 <= x < os.filter(pred).len(),
    ensures
        0 <= w < os.len(),
        os[w] == os.filter(pred)[x],
    decreases os.len(),
{
    reveal(Seq::filter);
    if os.len() == 0 {
        0
    } else {
        let dl = os.drop_last();
        let f = os.filter(pred);
        if pred(os.last()) && x == f.len() - 1 {
            os.len() - 1
        } else {
            let w = lemma_filter_elem_source(dl, pred, x);
            assert(dl[w] == os[w]);
            w
        }
    }
}

/// Filtering keeps the listing order.
pub proof fn lemma_filter_keeps_sorted(os: Seq<ObjectRecord>, pred: spec_fn(ObjectRecord) -> bool)
    requires
        objects_sorted(os),
    ensures
        objects_sorted(os.filter(pred)),
    decreases os.len(),
{
    reveal(Seq::filter);
    if os.len() > 0 {
        let dl = os.drop_last();
        assert(objects_sorted(dl)) by {
            assert forall|i: int, j: int| 0 <= i < j < dl.len() implies obj_before(
                #[trigger] dl[i],
                #[trigger] dl[j],
            ) by {
                assert(dl[i] == os[i] && dl[j] == os[j]);
            }
        }
        lemma_filter_keeps_sorted(dl, pred);
        if pred(os.last()) {
            let f = dl.filter(pred);
            assert forall|i: int, j: int| 0 <= i < j < os.filter(pred).len() implies obj_before(
                #[trigger] os.filter(pred)[i],
                #[trigger] os.filter(pred)[j],
            ) by {
                if j == os.filter(pred).len() - 1 {
                    let w = lemma_filter_elem_source(dl, pred, i);
                    assert(dl[w] == os[w]);
                    assert(obj_before(os[w], os[os.len() - 1]));
                }
            }
        }
    }
}

/// Two distinct positions of a filtered sequence come from two distinct
/// positions of the original, in order: so pairwise facts carry over.
pub proof fn lemma_filter_elem_indices(
    os: Seq<ObjectRecord>,
    pred: spec_fn(ObjectRecord) -> bool,
    x: int,
    y: int,
)
    requires
        0 <= x < y < os.filter(pred).len(),
        forall|i: int, j: int|
            0 <= i < j < os.len() ==> (#[trigger] os[i]).id != (#[trigger] os[j]).id,
        objects_sorted(os),
    ensures
        os.filter(pred)[x].id != os.filter(pred)[y].id,
    decreases os.len(),
{
    reveal(Seq::filter);
    let f = os.filter(pred);
    if os.len() > 0 {
        let dl = os.drop_last();
        assert(objects_sorted(dl)) by {
            assert forall|i: int, j: int| 0 <= i < j < dl.len() implies obj_before(
                #[trigger] dl[i],
                #[trigger] dl[j],
            ) by {
                assert(dl[i] == os[i] && dl[j] == os[j]);
            }
        }
        if pred(os.last()) && y == f.len() - 1 {
            let w = lemma_filter_elem_source(dl, pred, x);
            assert(dl[w] == os[w]);
            assert(os[w].id != os[os.len() - 1].id);
        } else {
            lemma_filter_elem_indices(dl, pred, x, y);
        }
    }
}

/// As above, for metadata entries: the per-(object, key) uniqueness carries
/// over to a filtered sequence.
pub proof fn lemma_filter_elem_indices_meta(
    ms: Seq<MetadataEntry>,
    pred: spec_fn(MetadataEntry) -> bool,
    x: int,
    y: int,
)
    requires
        0 <= x < y < ms.filter(pred).len(),
        forall|i: int, j: int|
            0 <= i < j < ms.len() ==> !((#[trigger] ms[i]).object_id == (#[trigger] ms[j]).object_id
                && ms[i].key@ == ms[j].key@),
    ensures
        !(ms.filter(pred)[x].object_id == ms.filter(pred)[y].object_id && ms.filter(pred)[x].key@
            == ms.filter(pred)[y].key@),
    decreases ms.len(),
{
    reveal(Seq::filter);
    let f = ms.filter(pred);
    if ms.len() > 0 {
        let dl = ms.drop_last();
        if pred(ms.last()) && y == f.len() - 1 {
            let w = lemma_filter_elem_source_meta(dl, pred, x);
            assert(dl[w] == ms[w]);
        } else {
            lemma_filter_elem_indices_meta(dl, pred, x, y);
        }
    }
}

pub proof fn lemma_filter_elem_source_meta(
    ms: Seq<MetadataEntry>,
    pred: spec_fn(MetadataEntry) -> bool,
    x: int,
) -> (w: int)
    requires
        0 <= x < ms.filter(pred).len(),
    ensures
        0 <= w < ms.len(),
        ms[w] == ms.filter(pred)[x],
    decreases ms.len(),
{
    reveal(Seq::filter);
    if ms.len() == 0 {
        0
    } else {
        let dl = ms.drop_last();
        let f = ms.filter(pred);
        if pred(ms.last()) && x == f.len() - 1 {
            ms.len() - 1
        } else {
            let w = lemma_filter_elem_source_meta(dl, pred, x);
            assert(dl[w] == ms[w]);
            w
        }
    }
}

} // verus!
