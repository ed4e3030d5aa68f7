//! Table-wide laws of the engine, stated and proved once over the storage
//! model so that every caller can rely on them.

use vstd::prelude::*;

use crate::db::{DbState, TCH};
use crate::hash::spec_bucket_of;
use crate::storage::{
    chain_keys, keys_from, lemma_chain_find_at, lemma_chain_find_mem, rec_need, spec_aligned,
    StorageFile,
};

verus! {

/// Keys of buckets `b..`: each appears exactly once, and they are exactly
/// the keys the table binds in those buckets.
proof fn lemma_keys_from_props(s: StorageFile, b: int)
    requires
        s.wf(),
        0 <= b <= s.buckets@.len(),
    ensures
        forall|k: Seq<u8>|
            #[trigger] keys_from(s.buckets@, b).contains(k) <==> (spec_bucket_of(
                k,
                s.bucket_count,
            ) >= b && s.sget(k) is Some),
        forall|i: int, j: int|
            0 <= i < j < keys_from(s.buckets@, b).len() ==> keys_from(s.buckets@, b)[i]
                != keys_from(s.buckets@, b)[j],
    decreases s.buckets@.len() - b,
{
    let bs = s.buckets@;
    let cur = keys_from(bs, b);
    if b == bs.len() {
        assert forall|k: Seq<u8>| #[trigger]
            cur.contains(k) <==> (spec_bucket_of(k, s.bucket_count) >= b && s.sget(
                k,
            ) is Some) by {
            if spec_bucket_of(k, s.bucket_count) >= b && s.sget(k) is Some {
                assert(spec_bucket_of(k, s.bucket_count) < s.bucket_count);
            }
        }
    } else {
        lemma_keys_from_props(s, b + 1);
        let c = bs[b]@;
        let ck = chain_keys(c);
        let rest = keys_from(bs, b + 1);
        assert(cur == ck + rest);
        assert forall|k: Seq<u8>| #[trigger]
            cur.contains(k) implies (spec_bucket_of(k, s.bucket_count) >= b && s.sget(
            k,
        ) is Some) by {
            let i = choose|i: int| 0 <= i < cur.len() && cur[i] == k;
            if i < ck.len() {
                assert(cur[i] == ck[i]);
                assert(k == c[i].key@);
                assert(spec_bucket_of(k, s.bucket_count) == b);
                assert(forall|j2: int| 0 <= j2 < i ==> c[j2].key@ != k);
                lemma_chain_find_at(c, k, i);
            } else {
                assert(cur[i] == rest[i - ck.len()]);
                assert(rest.contains(k));
            }
        }
        assert forall|k: Seq<u8>|
            spec_bucket_of(k, s.bucket_count) >= b && s.sget(k) is Some implies #[trigger]
        cur.contains(k) by {
            if spec_bucket_of(k, s.bucket_count) == b {
                lemma_chain_find_mem(c, k);
                let i = choose|i: int| 0 <= i < c.len() && c[i].key@ == k;
                assert(cur[i] == ck[i]);
                assert(cur[i] == k);
            } else {
                assert(rest.contains(k));
                let i = choose|i: int| 0 <= i < rest.len() && rest[i] == k;
                assert(cur[ck.len() + i] == rest[i]);
            }
        }
        assert forall|i: int, j: int| 0 <= i < j < cur.len() implies cur[i] != cur[j] by {
            if j < ck.len() {
                assert(cur[i] == c[i].key@ && cur[j] == c[j].key@);
            } else if i >= ck.len() {
                assert(cur[i] == rest[i - ck.len()] && cur[j] == rest[j - ck.len()]);
            } else {
                assert(cur[i] == c[i].key@);
                assert(cur[j] == rest[j - ck.len()]);
                assert(rest.contains(rest[j - ck.len()]));
                assert(spec_bucket_of(cur[j], s.bucket_count) >= b + 1);
                assert(spec_bucket_of(cur[i], s.bucket_count) == b);
            }
        }
    }
}

/// Iteration completeness and key uniqueness: a full traversal (the key
/// sequence `all_keys`) yields exactly the keys the table binds, each
/// exactly once — regardless of how the hash spread them over buckets. So a
/// table holding N distinct keys is walked in exactly N steps, an
/// overwritten key still owns a single record, and a removed key no longer
/// appears at all.
pub proof fn lemma_iteration_complete(s: StorageFile)
    requires
        s.wf(),
    ensures
        forall|k: Seq<u8>| #[trigger] s.all_keys().contains(k) <==> s.sget(k) is Some,
        forall|i: int, j: int|
            0 <= i < j < s.all_keys().len() ==> s.all_keys()[i] != s.all_keys()[j],
        s.all_keys().len() == s.record_count,
{
    lemma_keys_from_props(s, 0);
}

/// Uniqueness: a key owns at most one record, so after an overwrite a full
/// traversal still meets it exactly once.
pub proof fn lemma_single_record(s: StorageFile, k: Seq<u8>, i: int, j: int)
    requires
        s.wf(),
        0 <= i < s.all_keys().len(),
        0 <= j < s.all_keys().len(),
        s.all_keys()[i] == k,
        s.all_keys()[j] == k,
    ensures
        i == j,
{
    lemma_iteration_complete(s);
}

/// Removal: a key the table no longer binds appears nowhere in a full
/// traversal.
pub proof fn lemma_removed_key_not_iterated(s: StorageFile, k: Seq<u8>)
    requires
        s.wf(),
        s.sget(k) is None,
    ensures
        !s.all_keys().contains(k),
{
    lemma_iteration_complete(s);
}

/// Space sufficiency: a put is owed success whenever the file can still
/// grow by one aligned record and the record count has room — the spare-
/// space condition under which the round-trip and scenario properties hold
/// (a put may otherwise report only `OutOfSpace`).
pub proof fn lemma_put_serviceable(s: StorageFile, k: Seq<u8>, v: Seq<u8>)
    requires
        s.wf(),
        k.len() > 0,
        s.record_count < u64::MAX,
        s.file_size + spec_aligned(rec_need(k.len() as int, v.len() as int), s.align_pow)
            <= u64::MAX,
    ensures
        s.spec_put_ok(k, v),
{
}

/// Cache transparency: whatever the record cache holds agrees with the
/// storage file, so a `get` answered from the cache equals a `get` answered
/// from the file — results do not depend on the cache capacity.
pub proof fn lemma_cache_transparent(d: TCH)
    requires
        d.wf(),
        d.state == DbState::Opened,
    ensures
        forall|k: Seq<u8>|
            d.cache.spec_find(k) is Some ==> d.cache.spec_find(k) == d.spec_get(k),
{
}


} // verus!
