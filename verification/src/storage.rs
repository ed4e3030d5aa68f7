//! The storage file: a hash bucket table over variable-length records, with
//! an alignment quantum and a size-classed free-block pool.
//!
//! Records live in collision chains, one chain per bucket; a new record is
//! linked at the chain head. Every record owns a span of the record region at
//! least as large as the record needs; the slack is padding that later
//! overwrites of the same key may grow into without relocation. Space freed
//! by a removal or a relocation goes to the free-block pool, grouped by size
//! class; an allocation takes the best fit within its own size class, else
//! extends the file. Reclaimed spans are never merged: fragmentation is
//! accepted in exchange for constant-time allocation.

use vstd::arithmetic::div_mod::lemma_fundamental_div_mod;
use vstd::prelude::*;

use crate::errors::ErrorCode;
use crate::cache::{bytes_eq, clone_bytes};
use crate::hash::{bucket_of, spec_bucket_of};
use crate::tuning::{spec_options_ok, Tuning, MAX_ALIGN_POW, MAX_BUCKET_COUNT, MAX_FREE_POW};

verus! {

/// Bytes of on-disk bookkeeping per record: a tag byte, three 32-bit length
/// fields (key, value, padding) and the 64-bit next-in-chain offset.
pub const REC_OVERHEAD: u64 = 21;

/// Bytes a record of the given key and value lengths needs, padding aside.
pub open spec fn rec_need(klen: int, vlen: int) -> int {
    REC_OVERHEAD + klen + vlen
}

/// Two to the power `e`.
pub open spec fn pow2i(e: nat) -> int
    decreases e,
{
    if e == 0 {
        1
    } else {
        2 * pow2i((e - 1) as nat)
    }
}

proof fn lemma_pow2i_pos(e: nat)
    ensures
        pow2i(e) >= 1,
    decreases e,
{
    if e > 0 {
        lemma_pow2i_pos((e - 1) as nat);
    }
}

proof fn lemma_pow2i_mono(a: nat, b: nat)
    requires
        a <= b,
    ensures
        pow2i(a) <= pow2i(b),
    decreases b,
{
    if a < b {
        lemma_pow2i_mono(a, (b - 1) as nat);
        lemma_pow2i_pos((b - 1) as nat);
    }
}

/// `need` rounded up to the allocation quantum `2^apow`.
pub open spec fn spec_aligned(need: int, apow: u8) -> int {
    let q = pow2i(apow as nat);
    ((need + q - 1) / q) * q
}

/// Rounding up to the quantum overshoots by less than one quantum.
pub proof fn lemma_aligned_bounds(need: int, apow: u8)
    requires
        0 <= need,
    ensures
        need <= spec_aligned(need, apow) < need + pow2i(apow as nat),
        pow2i(apow as nat) >= 1,
{
    lemma_pow2i_pos(apow as nat);
    let q = pow2i(apow as nat);
    lemma_fundamental_div_mod(need + q - 1, q);
    assert(((need + q - 1) / q) * q == need + q - 1 - ((need + q - 1) % q));
}

/// The size class of a span: the number of halvings (capped at `ncls - 1`)
/// until the size drops below two.
pub open spec fn class_rec(t: int, c: int, ncls: int) -> int
    decreases ncls - c,
{
    if t >= 2 && c + 1 < ncls {
        class_rec(t / 2, c + 1, ncls)
    } else {
        c
    }
}

/// A reclaimed span of the record region.
pub struct FreeBlock {
    /// File offset of the span.
    pub off: u64,
    /// Length of the span in bytes.
    pub size: u64,
}

/// A live record: a key, its value, and the span of the file it owns.
pub struct Record {
    /// The key; never empty.
    pub key: Vec<u8>,
    /// The value; may be empty.
    pub value: Vec<u8>,
    /// File offset of the record's span.
    pub off: u64,
    /// Length of the span; at least what the record needs.
    pub span: u64,
}

/// A record's structural bounds: lengths fit the on-disk 32-bit fields and
/// the span covers the record with padding that also fits 32 bits.
pub open spec fn rec_wf(r: Record) -> bool {
    &&& r.key@.len() > 0
    &&& r.key@.len() <= u32::MAX
    &&& r.value@.len() <= u32::MAX
    &&& rec_need(r.key@.len() as int, r.value@.len() as int) <= r.span
    &&& r.span - rec_need(r.key@.len() as int, r.value@.len() as int) <= u32::MAX
}

/// The record `k` is bound to in chain `c`, scanned from the head.
pub open spec fn chain_find(c: Seq<Record>, k: Seq<u8>) -> Option<Record>
    decreases c.len(),
{
    if c.len() == 0 {
        None
    } else if c[0].key@ == k {
        Some(c[0])
    } else {
        chain_find(c.skip(1), k)
    }
}

/// No two records of the chain share a key.
pub open spec fn chain_distinct(c: Seq<Record>) -> bool {
    forall|i: int, j: int| 0 <= i < j < c.len() ==> c[i].key@ != c[j].key@
}

/// Every record of the chain is well formed and hashes to bucket `b`.
pub open spec fn chain_wf(c: Seq<Record>, b: int, n: u64) -> bool {
    forall|i: int|
        0 <= i < c.len() ==> rec_wf(#[trigger] c[i]) && spec_bucket_of(c[i].key@, n) == b
}

/// The keys of a chain, in chain order.
pub open spec fn chain_keys(c: Seq<Record>) -> Seq<Seq<u8>> {
    c.map_values(|r: Record| r.key@)
}

/// The keys of buckets `b..`, in bucket order then chain order.
pub open spec fn keys_from(bs: Seq<Vec<Record>>, b: int) -> Seq<Seq<u8>>
    decreases bs.len() - b,
{
    if b < 0 || b >= bs.len() {
        Seq::empty()
    } else {
        chain_keys(bs[b]@) + keys_from(bs, b + 1)
    }
}

/// The storage file held in memory: header parameters, bucket table,
/// free-block pool and bookkeeping.
pub struct StorageFile {
    /// Number of buckets; fixed at creation.
    pub bucket_count: u64,
    /// Power of two giving the allocation quantum.
    pub align_pow: u8,
    /// Power controlling the number of free-block size classes.
    pub free_pow: u8,
    /// Option bits, stored in the header.
    pub options: u8,
    /// The bucket table: one collision chain per bucket.
    pub buckets: Vec<Vec<Record>>,
    /// The free-block pool, one list per size class.
    pub pool: Vec<Vec<FreeBlock>>,
    /// Logical size of the file in bytes; only ever grows.
    pub file_size: u64,
    /// Number of live records.
    pub record_count: u64,
}

impl StorageFile {
    /// Parameter bounds.
    pub open spec fn params_wf(self) -> bool {
        &&& 1 <= self.bucket_count <= MAX_BUCKET_COUNT
        &&& self.align_pow <= MAX_ALIGN_POW
        &&& self.free_pow <= MAX_FREE_POW
        &&& spec_options_ok(self.options)
        &&& self.buckets@.len() == self.bucket_count
        &&& self.pool@.len() == self.free_pow as int + 1
    }

    /// Every chain is well formed, duplicate-free and in its own bucket, and
    /// every record's span lies inside the file.
    pub open spec fn buckets_wf(self) -> bool {
        forall|b: int|
            0 <= b < self.buckets@.len() ==> {
                &&& chain_wf(#[trigger] self.buckets@[b]@, b, self.bucket_count)
                &&& chain_distinct(self.buckets@[b]@)
                &&& forall|i: int|
                    0 <= i < self.buckets@[b]@.len() ==> (#[trigger] self.buckets@[b]@[i]).off
                        + self.buckets@[b]@[i].span <= self.file_size
            }
    }

    /// Every pooled block is non-empty, lies inside the file and sits in its
    /// own size class.
    pub open spec fn pool_wf(self) -> bool {
        forall|c: int, i: int|
            0 <= c < self.pool@.len() && 0 <= i < self.pool@[c]@.len() ==> {
                &&& 1 <= (#[trigger] self.pool@[c]@[i]).size
                &&& self.pool@[c]@[i].off + self.pool@[c]@[i].size <= self.file_size
                &&& class_rec(self.pool@[c]@[i].size as int, 0, self.pool@.len() as int) == c
            }
    }

    /// The record count matches the table.
    pub open spec fn count_wf(self) -> bool {
        self.record_count == keys_from(self.buckets@, 0).len()
    }

    /// Full well-formedness of the storage file.
    pub open spec fn wf(self) -> bool {
        &&& self.params_wf()
        &&& self.buckets_wf()
        &&& self.pool_wf()
        &&& self.count_wf()
    }

    /// The value bound to `k`, if any: the mathematical content of the file.
    pub open spec fn sget(self, k: Seq<u8>) -> Option<Seq<u8>> {
        match chain_find(self.buckets@[spec_bucket_of(k, self.bucket_count)]@, k) {
            Some(r) => Some(r.value@),
            None => None,
        }
    }

    /// All live keys, in bucket order then chain order: what a full
    /// iteration yields.
    pub open spec fn all_keys(self) -> Seq<Seq<u8>> {
        keys_from(self.buckets@, 0)
    }

    /// The keys an iteration cursor at bucket `b`, chain position `pos`,
    /// still has in front of it.
    pub open spec fn spec_remaining(self, b: int, pos: int) -> Seq<Seq<u8>> {
        if 0 <= b < self.buckets@.len() {
            let ck = chain_keys(self.buckets@[b]@);
            let p = if pos < 0 {
                0
            } else if pos > ck.len() {
                ck.len() as int
            } else {
                pos
            };
            ck.skip(p) + keys_from(self.buckets@, b + 1)
        } else {
            Seq::empty()
        }
    }

    /// Whether a put of a record needing `need` bytes can be served: an
    /// in-class block fits, or the file can still grow.
    pub open spec fn spec_can_alloc(self, need: int) -> bool {
        let a = spec_aligned(need, self.align_pow);
        let cls = class_rec(a, 0, self.pool@.len() as int);
        ||| exists|i: int|
            0 <= i < self.pool@[cls]@.len() && (#[trigger] self.pool@[cls]@[i]).size >= a
        ||| self.file_size + a <= u64::MAX
    }

    /// Whether `put(k, v)` succeeds on this file: an existing record is
    /// overwritten in place when the new size fits its span, else space must
    /// be allocatable; a new key also needs the record count to have room.
    pub open spec fn spec_put_ok(self, k: Seq<u8>, v: Seq<u8>) -> bool {
        let need = rec_need(k.len() as int, v.len() as int);
        match chain_find(self.buckets@[spec_bucket_of(k, self.bucket_count)]@, k) {
            Some(r) => (need <= r.span && r.span - need <= u32::MAX) || self.spec_can_alloc(need),
            None => self.spec_can_alloc(need) && self.record_count < u64::MAX,
        }
    }

    /// An empty storage file with the given parameters.
    pub fn new(t: &Tuning) -> (s: StorageFile)
        requires
            t.wf(),
        ensures
            s.wf(),
            s.bucket_count == t.bucket_count,
            s.align_pow == t.align_pow,
            s.free_pow == t.free_pow,
            s.options == t.options,
            s.record_count == 0,
            s.file_size == 44 + 8 * t.bucket_count,
            forall|k: Seq<u8>| s.sget(k) == None::<Seq<u8>>,
            s.all_keys() == Seq::<Seq<u8>>::empty(),
            forall|b: int| 0 <= b < s.buckets@.len() ==> (#[trigger] s.buckets@[b])@.len() == 0,
            forall|c: int| 0 <= c < s.pool@.len() ==> (#[trigger] s.pool@[c])@.len() == 0,
    {
        let mut buckets: Vec<Vec<Record>> = Vec::new();
        let mut i: u64 = 0;
        while i < t.bucket_count
            invariant
                0 <= i <= t.bucket_count,
                buckets@.len() == i,
                forall|b: int| 0 <= b < i ==> (#[trigger] buckets@[b])@.len() == 0,
            decreases t.bucket_count - i,
        {
            buckets.push(Vec::new());
            i = i + 1;
        }
        let mut pool: Vec<Vec<FreeBlock>> = Vec::new();
        let mut c: u16 = 0;
        while c < t.free_pow as u16 + 1
            invariant
                0 <= c <= t.free_pow as u16 + 1,
                pool@.len() == c,
                forall|j: int| 0 <= j < c ==> (#[trigger] pool@[j])@.len() == 0,
            decreases t.free_pow as u16 + 1 - c,
        {
            pool.push(Vec::new());
            c = c + 1;
        }
        let file_size: u64 = 40 + 8 * t.bucket_count + 4;
        let s = StorageFile {
            bucket_count: t.bucket_count,
            align_pow: t.align_pow,
            free_pow: t.free_pow,
            options: t.options,
            buckets,
            pool,
            file_size,
            record_count: 0,
        };
        proof {
            lemma_keys_from_empty(s.buckets@, 0);
            assert forall|k: Seq<u8>| s.sget(k) == None::<Seq<u8>> by {
                let b = spec_bucket_of(k, s.bucket_count);
                if 0 <= b < s.buckets@.len() {
                    assert(s.buckets@[b]@.len() == 0);
                }
            }
            assert(s.all_keys() =~= Seq::<Seq<u8>>::empty());
        }
        s
    }

    /// The number of live records.
    pub fn record_total(&self) -> (n: u64)
        ensures
            n == self.record_count,
    {
        self.record_count
    }

    /// The allocation quantum `2^align_pow`.
    #[verifier::loop_isolation(false)]
    fn quantum(&self) -> (q: u64)
        requires
            self.align_pow <= MAX_ALIGN_POW,
        ensures
            q == pow2i(self.align_pow as nat),
            1 <= q <= 65536,
    {
        proof {
            lemma_pow2i_16();
        }
        let mut q: u64 = 1;
        let mut i: u8 = 0;
        while i < self.align_pow
            invariant
                0 <= i <= self.align_pow,
                q == pow2i(i as nat),
            decreases self.align_pow - i,
        {
            proof {
                lemma_pow2i_mono(i as nat + 1, 16);
            }
            q = q * 2;
            i = i + 1;
        }
        proof {
            lemma_pow2i_mono(self.align_pow as nat, 16);
            lemma_pow2i_pos(self.align_pow as nat);
        }
        q
    }

    /// Puts a reclaimed span into its size class of the pool.
    fn free_span(&mut self, off: u64, size: u64)
        requires
            old(self).params_wf(),
            old(self).pool_wf(),
            1 <= size,
            off + size <= old(self).file_size,
        ensures
            final(self).params_wf(),
            final(self).pool_wf(),
            final(self).bucket_count == old(self).bucket_count,
            final(self).align_pow == old(self).align_pow,
            final(self).free_pow == old(self).free_pow,
            final(self).options == old(self).options,
            final(self).buckets == old(self).buckets,
            final(self).record_count == old(self).record_count,
            final(self).file_size == old(self).file_size,
    {
        let ncls = self.pool.len();
        let c = size_class(size, ncls);
        self.pool[c].push(FreeBlock { off, size });
        proof {
            let p0 = old(self).pool@;
            let p1 = self.pool@;
            assert forall|c2: int, i: int|
                0 <= c2 < p1.len() && 0 <= i < p1[c2]@.len() implies {
                &&& 1 <= (#[trigger] p1[c2]@[i]).size
                &&& p1[c2]@[i].off + p1[c2]@[i].size <= self.file_size
                &&& class_rec(p1[c2]@[i].size as int, 0, p1.len() as int) == c2
            } by {
                if c2 == c as int && i == p1[c2]@.len() - 1 {
                } else {
                    assert(p1[c2]@[i] == p0[c2]@[i]);
                }
            }
        }
    }

    /// Allocates a span of at least `need` bytes: best fit within the size
    /// class of the aligned request, else file growth. Reports `None`, and
    /// changes nothing, exactly when neither way can serve the request.
    #[verifier::loop_isolation(false)]
    fn allocate(&mut self, need: u64) -> (r: Option<(u64, u64)>)
        requires
            old(self).params_wf(),
            old(self).pool_wf(),
            1 <= need <= 0x800000000,
        ensures
            final(self).params_wf(),
            final(self).pool_wf(),
            final(self).bucket_count == old(self).bucket_count,
            final(self).align_pow == old(self).align_pow,
            final(self).free_pow == old(self).free_pow,
            final(self).options == old(self).options,
            final(self).buckets == old(self).buckets,
            final(self).record_count == old(self).record_count,
            final(self).file_size >= old(self).file_size,
            final(self).file_size <= old(self).file_size + spec_aligned(
                need as int,
                old(self).align_pow,
            ),
            r is None ==> *final(self) == *old(self),
            r is Some <==> old(self).spec_can_alloc(need as int),
            r is Some ==> need <= (r->0).1 && (r->0).1 - need < 2 * pow2i(old(self).align_pow as nat)
                && (r->0).0 + (r->0).1 <= final(self).file_size,
    {
        let q = self.quantum();
        let x = need + q - 1;
        proof {
            lemma_fundamental_div_mod(x as int, q as int);
            assert((x as int / q as int) * (q as int) == x as int - (x as int % q as int));
        }
        let aligned = (x / q) * q;
        proof {
            assert(need <= aligned < need + q);
            assert(aligned == spec_aligned(need as int, self.align_pow));
        }
        let ncls = self.pool.len();
        let cls = size_class(aligned, ncls);
        let m = self.pool[cls].len();
        let mut i: usize = 0;
        let mut have: bool = false;
        let mut best: usize = 0;
        while i < m
            invariant
                0 <= i <= m,
                m == self.pool@[cls as int]@.len(),
                have ==> best < i && self.pool@[cls as int]@[best as int].size >= aligned,
                !have ==> forall|j: int|
                    0 <= j < i ==> (#[trigger] self.pool@[cls as int]@[j]).size < aligned,
                *self == *old(self),
            decreases m - i,
        {
            let sz = self.pool[cls][i].size;
            if sz >= aligned && (!have || sz < self.pool[cls][best].size) {
                best = i;
                have = true;
            }
            i = i + 1;
        }
        if have {
            let blk = self.pool[cls].swap_remove(best);
            proof {
                let p0 = old(self).pool@;
                let p1 = self.pool@;
                assert forall|c2: int, j: int|
                    0 <= c2 < p1.len() && 0 <= j < p1[c2]@.len() implies {
                    &&& 1 <= (#[trigger] p1[c2]@[j]).size
                    &&& p1[c2]@[j].off + p1[c2]@[j].size <= self.file_size
                    &&& class_rec(p1[c2]@[j].size as int, 0, p1.len() as int) == c2
                } by {
                    if c2 == cls as int {
                        if j == best as int {
                            assert(p1[c2]@[j] == p0[c2]@[p0[c2]@.len() - 1]);
                        } else {
                            assert(p1[c2]@[j] == p0[c2]@[j]);
                        }
                    } else {
                        assert(p1[c2]@[j] == p0[c2]@[j]);
                    }
                }
            }
            let rem = blk.size - aligned;
            if rem >= q {
                self.free_span(blk.off + aligned, rem);
                Some((blk.off, aligned))
            } else {
                Some((blk.off, blk.size))
            }
        } else if self.file_size <= u64::MAX - aligned {
            let off = self.file_size;
            self.file_size = self.file_size + aligned;
            proof {
                assert forall|c2: int, j: int|
                    0 <= c2 < self.pool@.len() && 0 <= j < self.pool@[c2]@.len() implies {
                    &&& 1 <= (#[trigger] self.pool@[c2]@[j]).size
                    &&& self.pool@[c2]@[j].off + self.pool@[c2]@[j].size <= self.file_size
                    &&& class_rec(self.pool@[c2]@[j].size as int, 0, self.pool@.len() as int) == c2
                } by {
                    assert(self.pool@[c2]@[j] == old(self).pool@[c2]@[j]);
                }
            }
            Some((off, aligned))
        } else {
            None
        }
    }
}

/// An empty bucket table holds no keys.
proof fn lemma_keys_from_empty(bs: Seq<Vec<Record>>, b: int)
    requires
        forall|x: int| 0 <= x < bs.len() ==> (#[trigger] bs[x])@.len() == 0,
    ensures
        keys_from(bs, b).len() == 0,
    decreases bs.len() - b,
{
    if 0 <= b < bs.len() {
        lemma_keys_from_empty(bs, b + 1);
    }
}

/// Replacing bucket `b` changes the key count by the change in that chain.
pub proof fn lemma_keys_len_update(bs: Seq<Vec<Record>>, b: int, c2: Vec<Record>, x: int)
    requires
        0 <= b < bs.len(),
        0 <= x <= bs.len(),
    ensures
        keys_from(bs.update(b, c2), x).len() == keys_from(bs, x).len() + (if x <= b {
            c2@.len() - bs[b]@.len()
        } else {
            0
        }),
    decreases bs.len() - x,
{
    let bs2 = bs.update(b, c2);
    if x < bs.len() {
        lemma_keys_len_update(bs, b, c2, x + 1);
        if x == b {
            assert(bs2[x] == c2);
        } else {
            assert(bs2[x] == bs[x]);
        }
    }
}

/// The size class of a span, computed by halving.
#[verifier::loop_isolation(false)]
fn size_class(size: u64, ncls: usize) -> (c: usize)
    requires
        ncls >= 1,
    ensures
        c as int == class_rec(size as int, 0, ncls as int),
        c < ncls,
{
    let mut t = size;
    let mut c: usize = 0;
    while t >= 2 && c + 1 < ncls
        invariant
            0 <= c < ncls,
            class_rec(size as int, 0, ncls as int) == class_rec(t as int, c as int, ncls as int),
        decreases t,
    {
        t = t / 2;
        c = c + 1;
    }
    c
}

/// `2^16 == 65536`.
proof fn lemma_pow2i_16()
    ensures
        pow2i(16) == 65536,
{
    reveal_with_fuel(pow2i, 18);
}

/// `chain_find` returns the record at `i` when no earlier record matches.
pub proof fn lemma_chain_find_at(c: Seq<Record>, k: Seq<u8>, i: int)
    requires
        0 <= i < c.len(),
        c[i].key@ == k,
        forall|j: int| 0 <= j < i ==> c[j].key@ != k,
    ensures
        chain_find(c, k) == Some(c[i]),
    decreases i,
{
    if i > 0 {
        assert(forall|j: int| 0 <= j < i - 1 ==> c.skip(1)[j] == c[j + 1]);
        lemma_chain_find_at(c.skip(1), k, i - 1);
    }
}

/// `chain_find` returns `None` when no record matches.
pub proof fn lemma_chain_find_none(c: Seq<Record>, k: Seq<u8>)
    requires
        forall|j: int| 0 <= j < c.len() ==> c[j].key@ != k,
    ensures
        chain_find(c, k) == None::<Record>,
    decreases c.len(),
{
    if c.len() > 0 {
        assert(forall|j: int| 0 <= j < c.len() - 1 ==> c.skip(1)[j] == c[j + 1]);
        lemma_chain_find_none(c.skip(1), k);
    }
}

/// A hit names some record of the chain.
pub proof fn lemma_chain_find_mem(c: Seq<Record>, k: Seq<u8>)
    requires
        chain_find(c, k) is Some,
    ensures
        exists|i: int| 0 <= i < c.len() && c[i].key@ == k && chain_find(c, k) == Some(c[i]),
    decreases c.len(),
{
    if c.len() > 0 && c[0].key@ != k {
        lemma_chain_find_mem(c.skip(1), k);
        let i = choose|i: int|
            0 <= i < c.skip(1).len() && c.skip(1)[i].key@ == k && chain_find(c.skip(1), k)
                == Some(c.skip(1)[i]);
        assert(c.skip(1)[i] == c[i + 1]);
    }
}

/// Replacing the record at `i` by one with the same key rebinds that key and
/// leaves every other binding unchanged.
pub proof fn lemma_chain_update(c: Seq<Record>, i: int, r2: Record)
    requires
        0 <= i < c.len(),
        chain_distinct(c),
        r2.key@ == c[i].key@,
    ensures
        chain_distinct(c.update(i, r2)),
        chain_find(c.update(i, r2), r2.key@) == Some(r2),
        forall|k: Seq<u8>| k != r2.key@ ==> chain_find(c.update(i, r2), k) == chain_find(c, k),
{
    let t = c.update(i, r2);
    assert(forall|a: int| 0 <= a < c.len() && a != i ==> t[a] == c[a]);
    assert(t[i] == r2);
    lemma_chain_find_at(t, r2.key@, i);
    assert forall|k: Seq<u8>| k != r2.key@ implies chain_find(t, k) == chain_find(c, k) by {
        if exists|j: int| 0 <= j < c.len() && c[j].key@ == k {
            let j = choose|j: int| 0 <= j < c.len() && c[j].key@ == k;
            assert(forall|j2: int| 0 <= j2 < j ==> c[j2].key@ != k);
            lemma_chain_find_at(c, k, j);
            assert(t[j] == c[j]);
            lemma_chain_find_at(t, k, j);
        } else {
            lemma_chain_find_none(c, k);
            assert forall|a: int| 0 <= a < t.len() implies t[a].key@ != k by {
                if a != i {
                    assert(t[a] == c[a]);
                }
            }
            lemma_chain_find_none(t, k);
        }
    }
}

/// Removing the record at `i` unbinds its key and leaves every other
/// binding unchanged.
pub proof fn lemma_chain_remove(c: Seq<Record>, i: int)
    requires
        0 <= i < c.len(),
        chain_distinct(c),
    ensures
        chain_distinct(c.remove(i)),
        chain_find(c.remove(i), c[i].key@) == None::<Record>,
        forall|k: Seq<u8>| k != c[i].key@ ==> chain_find(c.remove(i), k) == chain_find(c, k),
{
    let t = c.remove(i);
    assert(forall|a: int| 0 <= a < i ==> t[a] == c[a]);
    assert(forall|a: int| i <= a < c.len() - 1 ==> t[a] == c[a + 1]);
    assert(chain_distinct(t)) by {
        assert forall|a: int, b: int| 0 <= a < b < t.len() implies t[a].key@ != t[b].key@ by {
            let ca = if a < i { a } else { a + 1 };
            let cb = if b < i { b } else { b + 1 };
            assert(t[a] == c[ca] && t[b] == c[cb] && ca != cb);
        }
    }
    assert(chain_find(t, c[i].key@) == None::<Record>) by {
        assert forall|a: int| 0 <= a < t.len() implies t[a].key@ != c[i].key@ by {
            let ca = if a < i { a } else { a + 1 };
            assert(t[a] == c[ca] && ca != i);
        }
        lemma_chain_find_none(t, c[i].key@);
    }
    assert forall|k: Seq<u8>| k != c[i].key@ implies chain_find(t, k) == chain_find(c, k) by {
        if exists|j: int| 0 <= j < c.len() && c[j].key@ == k {
            let j = choose|j: int| 0 <= j < c.len() && c[j].key@ == k;
            assert(forall|j2: int| 0 <= j2 < j ==> c[j2].key@ != k);
            lemma_chain_find_at(c, k, j);
            let jt = if j < i { j } else { j - 1 };
            assert(t[jt] == c[j]);
            assert forall|a: int| 0 <= a < jt implies t[a].key@ != k by {
                let ca = if a < i { a } else { a + 1 };
                assert(t[a] == c[ca] && ca != j);
            }
            lemma_chain_find_at(t, k, jt);
        } else {
            lemma_chain_find_none(c, k);
            assert forall|a: int| 0 <= a < t.len() implies t[a].key@ != k by {
                let ca = if a < i { a } else { a + 1 };
                assert(t[a] == c[ca]);
            }
            lemma_chain_find_none(t, k);
        }
    }
}

/// Linking a record with a fresh key at the chain head binds that key and
/// leaves every other binding unchanged.
pub proof fn lemma_chain_insert_front(c: Seq<Record>, r: Record)
    requires
        chain_distinct(c),
        forall|j: int| 0 <= j < c.len() ==> c[j].key@ != r.key@,
    ensures
        chain_distinct(c.insert(0, r)),
        chain_find(c.insert(0, r), r.key@) == Some(r),
        forall|k: Seq<u8>| k != r.key@ ==> chain_find(c.insert(0, r), k) == chain_find(c, k),
{
    let t = c.insert(0, r);
    assert(t[0] == r);
    assert(t.skip(1) =~= c);
    assert forall|a: int, b: int| 0 <= a < b < t.len() implies t[a].key@ != t[b].key@ by {
        if a > 0 {
            assert(t[a] == c[a - 1] && t[b] == c[b - 1]);
        } else {
            assert(t[b] == c[b - 1]);
        }
    }
}

impl StorageFile {
    /// Looks `key` up in the bucket table.
    #[verifier::loop_isolation(false)]
    pub fn lookup_value(&self, key: &Vec<u8>) -> (r: Option<Vec<u8>>)
        requires
            self.wf(),
            key@.len() > 0,
        ensures
            r is Some <==> self.sget(key@) is Some,
            r is Some ==> Some(r->0@) == self.sget(key@),
    {
        let b = bucket_of(key, self.bucket_count);
        let m = self.buckets[b].len();
        let mut i: usize = 0;
        while i < m
            invariant
                0 <= i <= m,
                m == self.buckets@[b as int]@.len(),
                forall|j: int| 0 <= j < i ==> (#[trigger] self.buckets@[b as int]@[j]).key@ != key@,
            decreases m - i,
        {
            if bytes_eq(&self.buckets[b][i].key, key) {
                proof {
                    lemma_chain_find_at(self.buckets@[b as int]@, key@, i as int);
                }
                return Some(clone_bytes(&self.buckets[b][i].value));
            }
            i = i + 1;
        }
        proof {
            lemma_chain_find_none(self.buckets@[b as int]@, key@);
        }
        None
    }

    /// Finds the chain position of `key` in bucket `b`, if present.
    #[verifier::loop_isolation(false)]
    pub(crate) fn chain_position(&self, b: usize, key: &Vec<u8>) -> (r: Option<usize>)
        requires
            self.wf(),
            b < self.buckets@.len(),
        ensures
            r is Some ==> r->0 < self.buckets@[b as int]@.len() && self.buckets@[b as int]@[(r->0)
                as int].key@ == key@ && chain_find(self.buckets@[b as int]@, key@) == Some(
                self.buckets@[b as int]@[(r->0) as int],
            ),
            r is None ==> chain_find(self.buckets@[b as int]@, key@) == None::<Record>,
            r is None ==> forall|j: int|
                0 <= j < self.buckets@[b as int]@.len()
                    ==> (#[trigger] self.buckets@[b as int]@[j]).key@ != key@,
    {
        let m = self.buckets[b].len();
        let mut i: usize = 0;
        while i < m
            invariant
                0 <= i <= m,
                m == self.buckets@[b as int]@.len(),
                forall|j: int| 0 <= j < i ==> (#[trigger] self.buckets@[b as int]@[j]).key@ != key@,
            decreases m - i,
        {
            if bytes_eq(&self.buckets[b][i].key, key) {
                proof {
                    lemma_chain_find_at(self.buckets@[b as int]@, key@, i as int);
                }
                return Some(i);
            }
            i = i + 1;
        }
        proof {
            lemma_chain_find_none(self.buckets@[b as int]@, key@);
        }
        None
    }

    /// Inserts or overwrites the record for `key`. An existing record is
    /// overwritten in place when the new size fits its span and the padding
    /// still fits the on-disk field; otherwise its span is reclaimed and a
    /// new one allocated. A new key is linked at its chain's head. Fails
    /// (changing nothing) exactly when no space can be found.
    #[verifier::rlimit(100)]
    pub fn put_record(&mut self, key: &Vec<u8>, value: &Vec<u8>) -> (r: Result<(), ErrorCode>)
        requires
            old(self).wf(),
            key@.len() > 0,
            key@.len() <= u32::MAX,
            value@.len() <= u32::MAX,
        ensures
            final(self).wf(),
            final(self).bucket_count == old(self).bucket_count,
            final(self).align_pow == old(self).align_pow,
            final(self).free_pow == old(self).free_pow,
            final(self).options == old(self).options,
            r is Ok <==> old(self).spec_put_ok(key@, value@),
            r is Err ==> *final(self) == *old(self) && r == Err::<(), ErrorCode>(
                ErrorCode::OutOfSpace,
            ),
            r is Ok ==> final(self).sget(key@) == Some(value@),
            final(self).file_size <= old(self).file_size + spec_aligned(
                rec_need(key@.len() as int, value@.len() as int),
                old(self).align_pow,
            ),
            r is Ok ==> forall|k: Seq<u8>| k != key@ ==> final(self).sget(k) == old(self).sget(k),
            r is Ok ==> final(self).record_count == old(self).record_count + (if old(self).sget(
                key@,
            ) is Some {
                0int
            } else {
                1int
            }),
    {
        proof {
            lemma_aligned_bounds(
                rec_need(key@.len() as int, value@.len() as int),
                self.align_pow,
            );
        }
        let b = bucket_of(key, self.bucket_count);
        let need: u64 = REC_OVERHEAD + key.len() as u64 + value.len() as u64;
        let found = self.chain_position(b, key);
        match found {
            Some(i) => {
                let cur_span = self.buckets[b][i].span;
                if need <= cur_span && cur_span - need <= u32::MAX as u64 {
                    let ghost chain0 = self.buckets@[b as int]@;
                    let ghost rec0 = chain0[i as int];
                    let vc = clone_bytes(value);
                    let rec = &mut self.buckets[b][i];
                    rec.value = vc;
                    proof {
                        let rec2 = self.buckets@[b as int]@[i as int];
                        lemma_chain_update(chain0, i as int, rec2);
                        assert(self.buckets@ =~= old(self).buckets@.update(
                            b as int,
                            self.buckets@[b as int],
                        ));
                        lemma_keys_len_update(
                            old(self).buckets@,
                            b as int,
                            self.buckets@[b as int],
                            0,
                        );
                        self.lemma_after_chain_change(*old(self), b as int);
                    }
                    Ok(())
                } else {
                    match self.allocate(need) {
                        None => Err(ErrorCode::OutOfSpace),
                        Some((noff, nspan)) => {
                            proof {
                                lemma_pow2i_16();
                                lemma_pow2i_mono(old(self).align_pow as nat, 16);
                            }
                            let ooff = self.buckets[b][i].off;
                            let ospan = self.buckets[b][i].span;
                            self.free_span(ooff, ospan);
                            let ghost chain0 = self.buckets@[b as int]@;
                            let ghost rec0 = chain0[i as int];
                            let vc = clone_bytes(value);
                            let rec = &mut self.buckets[b][i];
                            rec.value = vc;
                            rec.off = noff;
                            rec.span = nspan;
                            proof {
                                let rec2 = self.buckets@[b as int]@[i as int];
                                lemma_chain_update(chain0, i as int, rec2);
                                assert(self.buckets@ =~= old(self).buckets@.update(
                                    b as int,
                                    self.buckets@[b as int],
                                ));
                                lemma_keys_len_update(
                                    old(self).buckets@,
                                    b as int,
                                    self.buckets@[b as int],
                                    0,
                                );
                                self.lemma_after_chain_change(*old(self), b as int);
                            }
                            Ok(())
                        },
                    }
                }
            },
            None => {
                if self.record_count == u64::MAX {
                    return Err(ErrorCode::OutOfSpace);
                }
                match self.allocate(need) {
                    None => Err(ErrorCode::OutOfSpace),
                    Some((noff, nspan)) => {
                        proof {
                            lemma_pow2i_16();
                            lemma_pow2i_mono(old(self).align_pow as nat, 16);
                        }
                        let ghost chain0 = self.buckets@[b as int]@;
                        let rec = Record {
                            key: clone_bytes(key),
                            value: clone_bytes(value),
                            off: noff,
                            span: nspan,
                        };
                        proof {
                            lemma_chain_insert_front(chain0, rec);
                        }
                        self.buckets[b].insert(0, rec);
                        self.record_count = self.record_count + 1;
                        proof {
                            assert(self.buckets@ =~= old(self).buckets@.update(
                                b as int,
                                self.buckets@[b as int],
                            ));
                            lemma_keys_len_update(
                                old(self).buckets@,
                                b as int,
                                self.buckets@[b as int],
                                0,
                            );
                            self.lemma_after_chain_change(*old(self), b as int);
                        }
                        Ok(())
                    },
                }
            },
        }
    }

    /// Unlinks the record for `key`, reclaiming its span; reports whether a
    /// record was there. Removing an absent key changes nothing.
    pub fn remove_record(&mut self, key: &Vec<u8>) -> (r: bool)
        requires
            old(self).wf(),
            key@.len() > 0,
        ensures
            final(self).wf(),
            final(self).bucket_count == old(self).bucket_count,
            final(self).align_pow == old(self).align_pow,
            final(self).free_pow == old(self).free_pow,
            final(self).options == old(self).options,
            r == (old(self).sget(key@) is Some),
            !r ==> *final(self) == *old(self),
            final(self).sget(key@) == None::<Seq<u8>>,
            forall|k: Seq<u8>| k != key@ ==> final(self).sget(k) == old(self).sget(k),
            final(self).record_count == old(self).record_count - (if r {
                1int
            } else {
                0int
            }),
    {
        let b = bucket_of(key, self.bucket_count);
        let found = self.chain_position(b, key);
        match found {
            Some(i) => {
                let ghost chain0 = self.buckets@[b as int]@;
                proof {
                    lemma_chain_remove(chain0, i as int);
                }
                let rec = self.buckets[b].remove(i);
                self.free_span(rec.off, rec.span);
                proof {
                    assert(self.buckets@ =~= old(self).buckets@.update(
                        b as int,
                        self.buckets@[b as int],
                    ));
                    lemma_keys_len_update(old(self).buckets@, b as int, self.buckets@[b as int], 0);
                    assert(keys_from(self.buckets@, 0).len() == old(self).record_count - 1);
                }
                self.record_count = self.record_count - 1;
                proof {
                    self.lemma_after_chain_change(*old(self), b as int);
                }
                true
            },
            None => false,
        }
    }

    /// After an operation that changed only bucket `b` (and possibly the
    /// pool and file size), lookups outside `b`'s chain are unchanged, and
    /// the table stays well formed provided `b`'s new chain is.
    pub proof fn lemma_after_chain_change(self, pre: StorageFile, b: int)
        requires
            pre.wf(),
            0 <= b < pre.buckets@.len(),
            self.bucket_count == pre.bucket_count,
            self.align_pow == pre.align_pow,
            self.free_pow == pre.free_pow,
            self.options == pre.options,
            self.pool@.len() == pre.pool@.len(),
            self.file_size >= pre.file_size,
            self.buckets@.len() == pre.buckets@.len(),
            forall|x: int| 0 <= x < self.buckets@.len() && x != b ==> self.buckets@[x] == pre.buckets@[x],
            chain_wf(self.buckets@[b]@, b, self.bucket_count),
            chain_distinct(self.buckets@[b]@),
            forall|i: int|
                0 <= i < self.buckets@[b]@.len() ==> (#[trigger] self.buckets@[b]@[i]).off
                    + self.buckets@[b]@[i].span <= self.file_size,
        ensures
            self.buckets_wf(),
            forall|k: Seq<u8>|
                spec_bucket_of(k, self.bucket_count) != b ==> self.sget(k) == pre.sget(k),
    {
        assert forall|x: int| 0 <= x < self.buckets@.len() implies {
            &&& chain_wf(#[trigger] self.buckets@[x]@, x, self.bucket_count)
            &&& chain_distinct(self.buckets@[x]@)
            &&& forall|i: int|
                0 <= i < self.buckets@[x]@.len() ==> (#[trigger] self.buckets@[x]@[i]).off
                    + self.buckets@[x]@[i].span <= self.file_size
        } by {
            if x != b {
                assert(self.buckets@[x] == pre.buckets@[x]);
                assert forall|i: int|
                    0 <= i < self.buckets@[x]@.len() implies (#[trigger] self.buckets@[x]@[i]).off
                        + self.buckets@[x]@[i].span <= self.file_size by {
                    assert(pre.buckets@[x]@[i].off + pre.buckets@[x]@[i].span <= pre.file_size);
                }
            }
        }
    }
}

} // verus!
