//! Cross-operation guarantees of the core, stated and proved over the same
//! views and predicates that the operations' contracts use.

use vstd::prelude::*;

use crate::blob::stored;
use crate::db::{has_bucket_name, has_object, objs_not_in_bucket, seq_inserted};
use crate::digest::{md5_hex_of, sha256_hex_of};
use crate::storage::{
    create_committed, lemma_sorted_keys_unique, owner_id, put_committed, Storage,
};
use crate::types::{BucketRecord, ObjectRecord};

verus! {

broadcast use vstd::seq_lib::group_filter_ensures;

/// Round trip: after a successful put of `data` under (bucket, key), the
/// object exists, its row is the one the put committed, any bytes a reader
/// finds under its recorded storage path are exactly `data`, and the digests
/// recomputed from those bytes equal the recorded ones — so by
/// `get_object`'s contract a strict get succeeds and returns bytes identical
/// to the input.
pub proof fn lemma_put_get_round_trip(
    pre: Storage,
    post: Storage,
    o: ObjectRecord,
    bucket: Seq<char>,
    key: Seq<char>,
    data: Seq<u8>,
    content_type: Seq<char>,
    now: int,
)
    requires
        pre.wf(),
        post.wf(),
        put_committed(pre, post, o, bucket, key, data, content_type, now),
    ensures
        post.object_exists(bucket, key),
        post.spec_object(bucket, key) == o,
        stored(post.blobs.entries@, o.storage_path@, data),
        post.spec_bytes_at(o.storage_path@) == data,
        o.md5_checksum@ == md5_hex_of(post.spec_bytes_at(o.storage_path@)),
        o.sha256_checksum@ == sha256_hex_of(post.spec_bytes_at(o.storage_path@)),
{
    let bid = owner_id(pre.db.buckets@, bucket);
    let oldos = pre.db.objects@;
    let nos = post.db.objects@;
    if has_object(oldos, bid, key) {
        let i = choose|i: int|
            0 <= i < oldos.len() && (#[trigger] oldos[i]).bucket_id == bid && oldos[i].key@ == key
                && o.id == oldos[i].id && o.created_at == oldos[i].created_at && nos
                == oldos.update(i, o);
        assert(nos[i] == o);
        assert(has_object(nos, bid, key));
    } else {
        let i = choose|i: int| 0 <= i <= oldos.len() && nos == oldos.insert(i, o);
        oldos.insert_ensures(i, o);
        assert(nos[i] == o);
        assert(has_object(nos, bid, key));
    }
    let io = choose|i: int| 0 <= i < nos.len() && (#[trigger] nos[i]).id == o.id && nos[i] == o;
    assert(post.object_exists(bucket, key));
    let iq = choose|i: int|
        0 <= i < nos.len() && nos[i].bucket_id == owner_id(post.db.buckets@, bucket) && nos[i].key@
            == key;
    lemma_sorted_keys_unique(nos);
    assert(iq == io);
    assert(post.spec_object(bucket, key) == o);
    let d0 = post.spec_bytes_at(o.storage_path@);
    assert(stored(post.blobs.entries@, o.storage_path@, data));
    assert(stored(post.blobs.entries@, o.storage_path@, d0));
    assert(d0 == data);
}

/// Idempotent upsert: two successive puts to one (bucket, key) leave exactly
/// one record for the key — the second put adds no row — and that record
/// reflects the second write.
pub proof fn lemma_upsert_keeps_one_record(
    pre: Storage,
    mid: Storage,
    post: Storage,
    o1: ObjectRecord,
    o2: ObjectRecord,
    bucket: Seq<char>,
    key: Seq<char>,
    data1: Seq<u8>,
    data2: Seq<u8>,
    ct1: Seq<char>,
    ct2: Seq<char>,
    now1: int,
    now2: int,
)
    requires
        pre.wf(),
        mid.wf(),
        post.wf(),
        put_committed(pre, mid, o1, bucket, key, data1, ct1, now1),
        put_committed(mid, post, o2, bucket, key, data2, ct2, now2),
    ensures
        post.db.objects@.len() == mid.db.objects@.len(),
        post.object_exists(bucket, key),
        post.spec_object(bucket, key) == o2,
        o2.sha256_checksum@ == sha256_hex_of(data2),
        o2.md5_checksum@ == md5_hex_of(data2),
        o2.size == data2.len(),
        post.spec_bytes_at(o2.storage_path@) == data2,
        forall|x: int, y: int|
            0 <= x < y < post.db.objects@.len() ==> !((#[trigger] post.db.objects@[x]).bucket_id
                == (#[trigger] post.db.objects@[y]).bucket_id && post.db.objects@[x].key@
                == post.db.objects@[y].key@),
{
    lemma_put_get_round_trip(pre, mid, o1, bucket, key, data1, ct1, now1);
    assert(mid.object_exists(bucket, key));
    assert(owner_id(mid.db.buckets@, bucket) == owner_id(pre.db.buckets@, bucket));
    let bid = owner_id(mid.db.buckets@, bucket);
    assert(has_object(mid.db.objects@, bid, key));
    let i = choose|i: int|
        0 <= i < mid.db.objects@.len() && (#[trigger] mid.db.objects@[i]).bucket_id == bid
            && mid.db.objects@[i].key@ == key && o2.id == mid.db.objects@[i].id && o2.created_at
            == mid.db.objects@[i].created_at && post.db.objects@ == mid.db.objects@.update(i, o2);
    assert(post.db.objects@.len() == mid.db.objects@.len());
    lemma_put_get_round_trip(mid, post, o2, bucket, key, data2, ct2, now2);
    lemma_sorted_keys_unique(post.db.objects@);
}

/// Uniqueness: of two creates of one bucket name, exactly one can commit.
/// After one has, the name is in the index — so by `create_bucket`'s
/// contract a later create of the same name fails `BucketAlreadyExists`;
/// formally, no second committed create of the name is possible from the
/// resulting state.
pub proof fn lemma_create_bucket_unique(pre: Storage, post: Storage, name: Seq<char>, now: int)
    requires
        create_committed(pre, post, name, now),
    ensures
        has_bucket_name(post.db.buckets@, name),
        forall|post2: Storage, now2: int| !create_committed(post, post2, name, now2),
{
    let b = choose|b: BucketRecord|
        seq_inserted(pre.db.buckets@, post.db.buckets@, b) && (#[trigger] b.name)@ == name && b.id
            == pre.db.next_bucket_id && b.created_at == now && b.updated_at == now;
    let i = choose|i: int|
        0 <= i <= pre.db.buckets@.len() && post.db.buckets@ == pre.db.buckets@.insert(i, b);
    pre.db.buckets@.insert_ensures(i, b);
    assert(post.db.buckets@[i] == b);
    assert(has_bucket_name(post.db.buckets@, name));
}

/// Non-empty guard, forced half: the object rows left by a forced bucket
/// delete are `objs_not_in_bucket` (by `delete_bucket`'s contract), and none
/// of them belongs to the deleted bucket: the forced delete removed every
/// contained object. The unforced half — a bucket holding an object fails
/// `BucketNotEmpty` — is an ensures clause of `delete_bucket` itself.
pub proof fn lemma_force_delete_removes_all(os: Seq<ObjectRecord>, bid: u64)
    ensures
        forall|x: int|
            0 <= x < objs_not_in_bucket(os, bid).len() ==> (#[trigger] objs_not_in_bucket(
                os,
                bid,
            )[x]).bucket_id != bid,
{
}

/// Corruption detection: when the bytes behind a stored object have been
/// replaced by `alt` whose strong digest differs from the recorded one, a
/// reader finds exactly `alt` under the object's path — so by `get_object`'s
/// contract a strict get fails `ChecksumMismatch` with the recorded digest
/// as expected and the digest recomputed from `alt` as actual.
pub proof fn lemma_corruption_detected(s: Storage, bucket: Seq<char>, key: Seq<char>, alt: Seq<u8>)
    requires
        s.wf(),
        s.object_exists(bucket, key),
        stored(s.blobs.entries@, s.spec_object(bucket, key).storage_path@, alt),
        sha256_hex_of(alt) != s.spec_object(bucket, key).sha256_checksum@,
    ensures
        s.spec_bytes_at(s.spec_object(bucket, key).storage_path@) == alt,
        sha256_hex_of(s.spec_bytes_at(s.spec_object(bucket, key).storage_path@)) != s.spec_object(
            bucket,
            key,
        ).sha256_checksum@,
{
    let o = s.spec_object(bucket, key);
    let d0 = s.spec_bytes_at(o.storage_path@);
    assert(stored(s.blobs.entries@, o.storage_path@, d0));
    let w1 = choose|w: int|
        0 <= w < s.blobs.entries@.len() && (#[trigger] s.blobs.entries@[w]).0@ == o.storage_path@
            && s.blobs.entries@[w].1@ == alt;
    let w2 = choose|w: int|
        0 <= w < s.blobs.entries@.len() && (#[trigger] s.blobs.entries@[w]).0@ == o.storage_path@
            && s.blobs.entries@[w].1@ == d0;
    assert(w1 == w2);
}

} // verus!
