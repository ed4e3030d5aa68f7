//! The byte image of a storage file.
//!
//! Layout, front to back: a 40-byte header (magic, format version, structural
//! parameters, record count, file size), the bucket array of fixed-width head
//! offsets, the free-block pool section, and the record region. Each record
//! chunk carries a tag byte, the key, value and padding lengths, the offset
//! of the next record in its chain, then the key bytes, the value bytes and
//! the padding.
//!
//! The image is written densely: chains are laid out bucket by bucket in
//! chain order, each record followed by its padding, and free spans are not
//! persisted (the pool section records zero blocks). This merge-on-close
//! policy trades the in-session fragmentation for a compact file; within a
//! session reclaimed spans are still reused, never merged.
//!
//! `parse` accepts exactly the canonical images `serialize` produces: it
//! rebuilds the table from the chunks and then compares the re-encoded image
//! byte for byte, so a parsed file always re-encodes to its input.

use vstd::arithmetic::div_mod::{lemma_div_denominator, lemma_fundamental_div_mod};
use vstd::prelude::*;

use crate::cache::bytes_eq;
use crate::errors::ErrorCode;
use crate::hash::{bucket_of, spec_bucket_of};
use crate::storage::{
    chain_wf, chain_distinct, chain_find, keys_from, lemma_keys_len_update, rec_need, rec_wf,
    spec_aligned, Record, StorageFile, REC_OVERHEAD,
};
use crate::tuning::{Tuning, MAX_ALIGN_POW, MAX_BUCKET_COUNT, MAX_FREE_POW};

verus! {

/// Tag byte that opens every record chunk.
pub const REC_TAG: u8 = 0xc8;

/// Format version written to the header.
pub const FORMAT_VERSION: u32 = 1;

/// The eight magic bytes that open every storage file.
pub open spec fn magic_bytes() -> Seq<u8> {
    seq![0x54u8, 0x43u8, 0x48u8, 0x42u8, 0x4bu8, 0x56u8, 0x30u8, 0x31u8]
}

/// A 32-bit value as four little-endian bytes.
pub open spec fn u32_le(v: u32) -> Seq<u8> {
    seq![
        (v as int % 256) as u8,
        (v as int / 0x100 % 256) as u8,
        (v as int / 0x10000 % 256) as u8,
        (v as int / 0x1000000 % 256) as u8,
    ]
}

/// A 64-bit value as eight little-endian bytes.
pub open spec fn u64_le(v: u64) -> Seq<u8> {
    seq![
        (v as int % 256) as u8,
        (v as int / 0x100 % 256) as u8,
        (v as int / 0x10000 % 256) as u8,
        (v as int / 0x1000000 % 256) as u8,
        (v as int / 0x100000000 % 256) as u8,
        (v as int / 0x10000000000 % 256) as u8,
        (v as int / 0x1000000000000 % 256) as u8,
        (v as int / 0x100000000000000 % 256) as u8,
    ]
}

/// `n` zero bytes.
pub open spec fn zeros(n: int) -> Seq<u8> {
    Seq::new(if n < 0 {
        0
    } else {
        n as nat
    }, |i: int| 0u8)
}

/// An offset clamped into 64 bits.
pub open spec fn sat64(x: int) -> u64 {
    if x < 0 {
        0u64
    } else if x > u64::MAX {
        u64::MAX as u64
    } else {
        x as u64
    }
}

/// The bytes of one record chunk, `nxt` being the stored next-chain offset.
pub open spec fn rec_bytes(r: Record, nxt: u64) -> Seq<u8> {
    seq![REC_TAG] + u32_le(r.key@.len() as u32) + u32_le(r.value@.len() as u32) + u32_le(
        (r.span - rec_need(r.key@.len() as int, r.value@.len() as int)) as u32,
    ) + u64_le(nxt) + r.key@ + r.value@ + zeros(
        r.span - rec_need(r.key@.len() as int, r.value@.len() as int),
    )
}

/// The spans of records `i..` of a chain, summed.
pub open spec fn chain_size_from(c: Seq<Record>, i: int) -> int
    decreases c.len() - i,
{
    if i < 0 || i >= c.len() {
        0
    } else {
        c[i].span + chain_size_from(c, i + 1)
    }
}

/// The bytes of records `i..` of a chain whose record `i` starts at `off`.
pub open spec fn chain_bytes_from(c: Seq<Record>, i: int, off: int) -> Seq<u8>
    decreases c.len() - i,
{
    if i < 0 || i >= c.len() {
        Seq::empty()
    } else {
        rec_bytes(
            c[i],
            if i == c.len() - 1 {
                0u64
            } else {
                sat64(off + c[i].span)
            },
        ) + chain_bytes_from(c, i + 1, off + c[i].span)
    }
}

/// The spans of all records of buckets `b..`, summed.
pub open spec fn total_from(bs: Seq<Vec<Record>>, b: int) -> int
    decreases bs.len() - b,
{
    if b < 0 || b >= bs.len() {
        0
    } else {
        chain_size_from(bs[b]@, 0) + total_from(bs, b + 1)
    }
}

/// The bucket-array slots of buckets `b..`: the head offset of each chain,
/// or zero for an empty bucket, when bucket `b`'s chain starts at `off`.
pub open spec fn slots_from(bs: Seq<Vec<Record>>, b: int, off: int) -> Seq<u8>
    decreases bs.len() - b,
{
    if b < 0 || b >= bs.len() {
        Seq::empty()
    } else {
        u64_le(
            if bs[b]@.len() == 0 {
                0u64
            } else {
                sat64(off)
            },
        ) + slots_from(bs, b + 1, off + chain_size_from(bs[b]@, 0))
    }
}

/// The record region of buckets `b..`, bucket `b` starting at `off`.
pub open spec fn region_from(bs: Seq<Vec<Record>>, b: int, off: int) -> Seq<u8>
    decreases bs.len() - b,
{
    if b < 0 || b >= bs.len() {
        Seq::empty()
    } else {
        chain_bytes_from(bs[b]@, 0, off) + region_from(bs, b + 1, off + chain_size_from(bs[b]@, 0))
    }
}

/// Offset where the record region starts: header, slots, pool section.
pub open spec fn region_start(s: StorageFile) -> int {
    44 + 8 * s.bucket_count
}

/// The canonical byte image of a storage file.
pub open spec fn spec_encode(s: StorageFile) -> Seq<u8> {
    magic_bytes() + u32_le(FORMAT_VERSION) + u64_le(s.bucket_count) + seq![
        s.align_pow,
        s.free_pow,
        s.options,
        0u8,
    ] + u64_le(s.record_count) + u64_le(sat64(region_start(s) + total_from(s.buckets@, 0)))
        + slots_from(s.buckets@, 0, region_start(s)) + u32_le(0) + region_from(
        s.buckets@,
        0,
        region_start(s),
    )
}

proof fn lemma_chain_size_nonneg(c: Seq<Record>, i: int)
    ensures
        chain_size_from(c, i) >= 0,
    decreases c.len() - i,
{
    if 0 <= i < c.len() {
        lemma_chain_size_nonneg(c, i + 1);
    }
}

proof fn lemma_total_nonneg(bs: Seq<Vec<Record>>, b: int)
    ensures
        total_from(bs, b) >= 0,
    decreases bs.len() - b,
{
    if 0 <= b < bs.len() {
        lemma_chain_size_nonneg(bs[b]@, 0);
        lemma_total_nonneg(bs, b + 1);
    }
}

/// Replacing bucket `b` changes the span total by the change in that chain.
pub proof fn lemma_total_update(bs: Seq<Vec<Record>>, b: int, c2: Vec<Record>, x: int)
    requires
        0 <= b < bs.len(),
        0 <= x <= bs.len(),
    ensures
        total_from(bs.update(b, c2), x) == total_from(bs, x) + (if x <= b {
            chain_size_from(c2@, 0) - chain_size_from(bs[b]@, 0)
        } else {
            0
        }),
    decreases bs.len() - x,
{
    let bs2 = bs.update(b, c2);
    if x < bs.len() {
        lemma_total_update(bs, b, c2, x + 1);
        if x == b {
            assert(bs2[x] == c2);
        } else {
            assert(bs2[x] == bs[x]);
        }
    }
}

/// Appending a record adds its span to the chain's size.
pub proof fn lemma_chain_size_push(c: Seq<Record>, r: Record, i: int)
    requires
        0 <= i <= c.len(),
    ensures
        chain_size_from(c.push(r), i) == chain_size_from(c, i) + r.span,
    decreases c.len() - i,
{
    if i < c.len() {
        assert(c.push(r)[i] == c[i]);
        lemma_chain_size_push(c, r, i + 1);
    } else {
        assert(c.push(r)[i] == r);
        assert(chain_size_from(c.push(r), i + 1) == 0);
    }
}

/// Appends a 32-bit value, little endian.
fn write_u32(buf: &mut Vec<u8>, v: u32)
    ensures
        final(buf)@ == old(buf)@ + u32_le(v),
{
    buf.push((v % 256) as u8);
    buf.push((v / 0x100 % 256) as u8);
    buf.push((v / 0x10000 % 256) as u8);
    buf.push((v / 0x1000000 % 256) as u8);
    proof {
        assert(buf@ =~= old(buf)@ + u32_le(v));
    }
}

/// Appends a 64-bit value, little endian.
fn write_u64(buf: &mut Vec<u8>, v: u64)
    ensures
        final(buf)@ == old(buf)@ + u64_le(v),
{
    buf.push((v % 256) as u8);
    buf.push((v / 0x100 % 256) as u8);
    buf.push((v / 0x10000 % 256) as u8);
    buf.push((v / 0x1000000 % 256) as u8);
    buf.push((v / 0x100000000 % 256) as u8);
    buf.push((v / 0x10000000000 % 256) as u8);
    buf.push((v / 0x1000000000000 % 256) as u8);
    buf.push((v / 0x100000000000000 % 256) as u8);
    proof {
        assert(buf@ =~= old(buf)@ + u64_le(v));
    }
}

/// Appends a byte sequence.
#[verifier::loop_isolation(false)]
fn write_bytes(buf: &mut Vec<u8>, v: &Vec<u8>)
    ensures
        final(buf)@ == old(buf)@ + v@,
{
    let mut i: usize = 0;
    while i < v.len()
        invariant
            0 <= i <= v@.len(),
            buf@ == old(buf)@ + v@.take(i as int),
        decreases v@.len() - i,
    {
        buf.push(v[i]);
        proof {
            assert(old(buf)@ + v@.take(i + 1) =~= (old(buf)@ + v@.take(i as int)).push(
                v@[i as int],
            ));
        }
        i = i + 1;
    }
    proof {
        assert(v@.take(v@.len() as int) =~= v@);
    }
}

/// Appends `n` zero bytes.
#[verifier::loop_isolation(false)]
fn write_zeros(buf: &mut Vec<u8>, n: u32)
    ensures
        final(buf)@ == old(buf)@ + zeros(n as int),
{
    let mut i: u32 = 0;
    while i < n
        invariant
            0 <= i <= n,
            buf@ == old(buf)@ + zeros(i as int),
        decreases n - i,
    {
        buf.push(0u8);
        proof {
            assert(old(buf)@ + zeros(i as int + 1) =~= (old(buf)@ + zeros(i as int)).push(0u8));
        }
        i = i + 1;
    }
}

/// The total image size of a storage file, or `None` when it cannot even be
/// measured in 64 bits.
#[verifier::loop_isolation(false)]
pub fn image_size(s: &StorageFile) -> (r: Option<u64>)
    requires
        s.wf(),
    ensures
        r is Some <==> region_start(*s) + total_from(s.buckets@, 0) <= u64::MAX,
        r is Some ==> r->0 == region_start(*s) + total_from(s.buckets@, 0),
{
    let nb = s.buckets.len();
    let mut cum: u64 = 44 + 8 * s.bucket_count;
    let mut b: usize = 0;
    proof {
        lemma_total_nonneg(s.buckets@, 0);
    }
    while b < nb
        invariant
            0 <= b <= nb,
            nb == s.buckets@.len(),
            cum == region_start(*s) + total_from(s.buckets@, 0) - total_from(s.buckets@, b as int),
            cum <= u64::MAX,
        decreases nb - b,
    {
        let m = s.buckets[b].len();
        let mut i: usize = 0;
        proof {
            lemma_chain_size_nonneg(s.buckets@[b as int]@, 0);
            lemma_total_nonneg(s.buckets@, b as int + 1);
        }
        while i < m
            invariant
                0 <= i <= m,
                b < nb,
                m == s.buckets@[b as int]@.len(),
                cum == region_start(*s) + total_from(s.buckets@, 0) - total_from(
                    s.buckets@,
                    b as int,
                ) + chain_size_from(s.buckets@[b as int]@, 0) - chain_size_from(
                    s.buckets@[b as int]@,
                    i as int,
                ),
                cum <= u64::MAX,
            decreases m - i,
        {
            let sp = s.buckets[b][i].span;
            proof {
                lemma_chain_size_nonneg(s.buckets@[b as int]@, i as int + 1);
            }
            if sp > u64::MAX - cum {
                proof {
                    lemma_chain_size_nonneg(s.buckets@[b as int]@, i as int);
                    lemma_total_nonneg(s.buckets@, b as int + 1);
                }
                return None;
            }
            cum = cum + sp;
            i = i + 1;
        }
        b = b + 1;
    }
    Some(cum)
}

/// Appends one record chunk; `last` says whether it is its chain's last.
#[verifier::rlimit(50)]
fn write_record(buf: &mut Vec<u8>, r: &Record, last: bool)
    requires
        rec_wf(*r),
        old(buf)@.len() + r.span <= usize::MAX,
    ensures
        final(buf)@ == old(buf)@ + rec_bytes(
            *r,
            if last {
                0u64
            } else {
                sat64(old(buf)@.len() + r.span)
            },
        ),
        final(buf)@.len() == old(buf)@.len() + r.span,
{
    let klen = r.key.len();
    let vlen = r.value.len();
    let psiz: u64 = r.span - (REC_OVERHEAD + klen as u64 + vlen as u64);
    let nxt: u64 = if last {
        0
    } else {
        buf.len() as u64 + r.span
    };
    buf.push(REC_TAG);
    write_u32(buf, klen as u32);
    write_u32(buf, vlen as u32);
    write_u32(buf, psiz as u32);
    write_u64(buf, nxt);
    write_bytes(buf, &r.key);
    write_bytes(buf, &r.value);
    write_zeros(buf, psiz as u32);
    proof {
        assert(buf@ =~= old(buf)@ + rec_bytes(
            *r,
            if last {
                0u64
            } else {
                sat64(old(buf)@.len() + r.span)
            },
        ));
    }
}

/// Appends a whole chain, head first.
#[verifier::loop_isolation(false)]
fn write_chain(buf: &mut Vec<u8>, c: &Vec<Record>)
    requires
        forall|i: int| 0 <= i < c@.len() ==> rec_wf(#[trigger] c@[i]),
        old(buf)@.len() + chain_size_from(c@, 0) <= usize::MAX,
    ensures
        final(buf)@ == old(buf)@ + chain_bytes_from(c@, 0, old(buf)@.len() as int),
        final(buf)@.len() == old(buf)@.len() + chain_size_from(c@, 0),
{
    let m = c.len();
    let mut i: usize = 0;
    proof {
        lemma_chain_size_nonneg(c@, 0);
    }
    while i < m
        invariant
            0 <= i <= m,
            m == c@.len(),
            buf@.len() + chain_size_from(c@, i as int) == old(buf)@.len() + chain_size_from(c@, 0),
            old(buf)@ + chain_bytes_from(c@, 0, old(buf)@.len() as int) == buf@
                + chain_bytes_from(c@, i as int, buf@.len() as int),
        decreases m - i,
    {
        proof {
            lemma_chain_size_nonneg(c@, i as int + 1);
        }
        let ghost buf0 = buf@;
        write_record(buf, &c[i], i + 1 == m);
        proof {
            assert(chain_bytes_from(c@, i as int, buf0.len() as int) == rec_bytes(
                c@[i as int],
                if i as int == c@.len() - 1 {
                    0u64
                } else {
                    sat64(buf0.len() + c@[i as int].span)
                },
            ) + chain_bytes_from(c@, i as int + 1, buf0.len() + c@[i as int].span));
            assert(buf0 + chain_bytes_from(c@, i as int, buf0.len() as int) =~= buf@
                + chain_bytes_from(c@, i as int + 1, buf@.len() as int));
        }
        i = i + 1;
    }
}

/// Appends the record region, bucket by bucket.
#[verifier::loop_isolation(false)]
fn write_region(buf: &mut Vec<u8>, s: &StorageFile)
    requires
        s.wf(),
        old(buf)@.len() + total_from(s.buckets@, 0) <= usize::MAX,
    ensures
        final(buf)@ == old(buf)@ + region_from(s.buckets@, 0, old(buf)@.len() as int),
        final(buf)@.len() == old(buf)@.len() + total_from(s.buckets@, 0),
{
    let nb = s.buckets.len();
    let mut b: usize = 0;
    proof {
        lemma_total_nonneg(s.buckets@, 0);
    }
    while b < nb
        invariant
            0 <= b <= nb,
            nb == s.buckets@.len(),
            buf@.len() + total_from(s.buckets@, b as int) == old(buf)@.len() + total_from(
                s.buckets@,
                0,
            ),
            old(buf)@ + region_from(s.buckets@, 0, old(buf)@.len() as int) == buf@ + region_from(
                s.buckets@,
                b as int,
                buf@.len() as int,
            ),
        decreases nb - b,
    {
        proof {
            lemma_chain_size_nonneg(s.buckets@[b as int]@, 0);
            lemma_total_nonneg(s.buckets@, b as int + 1);
        }
        let ghost buf0 = buf@;
        write_chain(buf, &s.buckets[b]);
        proof {
            assert(buf0 + region_from(s.buckets@, b as int, buf0.len() as int) =~= buf@
                + region_from(s.buckets@, b as int + 1, buf@.len() as int));
        }
        b = b + 1;
    }
}

/// Appends the bucket array: each chain's head offset, or zero.
#[verifier::loop_isolation(false)]
fn write_slots(buf: &mut Vec<u8>, s: &StorageFile, rs: u64)
    requires
        s.wf(),
        rs == region_start(*s),
        rs + total_from(s.buckets@, 0) <= usize::MAX,
    ensures
        final(buf)@ == old(buf)@ + slots_from(s.buckets@, 0, rs as int),
{
    let nb = s.buckets.len();
    let mut cum: u64 = rs;
    let mut b: usize = 0;
    proof {
        lemma_total_nonneg(s.buckets@, 0);
    }
    while b < nb
        invariant
            0 <= b <= nb,
            nb == s.buckets@.len(),
            cum == rs + total_from(s.buckets@, 0) - total_from(s.buckets@, b as int),
            cum <= usize::MAX,
            old(buf)@ + slots_from(s.buckets@, 0, rs as int) == buf@ + slots_from(
                s.buckets@,
                b as int,
                cum as int,
            ),
        decreases nb - b,
    {
        proof {
            lemma_chain_size_nonneg(s.buckets@[b as int]@, 0);
            lemma_total_nonneg(s.buckets@, b as int + 1);
        }
        let ghost buf0 = buf@;
        if s.buckets[b].len() == 0 {
            write_u64(buf, 0);
        } else {
            write_u64(buf, cum);
        }
        let cs = chain_span_total(&s.buckets[b]);
        proof {
            assert(buf0 + slots_from(s.buckets@, b as int, cum as int) =~= buf@ + slots_from(
                s.buckets@,
                b as int + 1,
                cum + chain_size_from(s.buckets@[b as int]@, 0),
            ));
        }
        cum = cum + cs;
        b = b + 1;
    }
}

/// Sums the spans of a chain.
#[verifier::loop_isolation(false)]
fn chain_span_total(c: &Vec<Record>) -> (t: u64)
    requires
        chain_size_from(c@, 0) <= u64::MAX,
    ensures
        t == chain_size_from(c@, 0),
{
    let m = c.len();
    let mut t: u64 = 0;
    let mut i: usize = 0;
    while i < m
        invariant
            0 <= i <= m,
            m == c@.len(),
            t + chain_size_from(c@, i as int) == chain_size_from(c@, 0),
            t <= u64::MAX,
        decreases m - i,
    {
        proof {
            lemma_chain_size_nonneg(c@, i as int + 1);
        }
        t = t + c[i].span;
        i = i + 1;
    }
    t
}

/// Serializes a storage file into its canonical byte image.
#[verifier::rlimit(60)]
pub fn serialize(s: &StorageFile) -> (r: Vec<u8>)
    requires
        s.wf(),
        region_start(*s) + total_from(s.buckets@, 0) <= usize::MAX,
    ensures
        r@ == spec_encode(*s),
        r@.len() == region_start(*s) + total_from(s.buckets@, 0),
{
    proof {
        lemma_total_nonneg(s.buckets@, 0);
    }
    let total = match image_size(s) {
        Some(t) => t,
        None => 0,  // unreachable: the total fits the address space
    };
    let mut buf: Vec<u8> = Vec::new();
    buf.push(0x54u8);
    buf.push(0x43u8);
    buf.push(0x48u8);
    buf.push(0x42u8);
    buf.push(0x4bu8);
    buf.push(0x56u8);
    buf.push(0x30u8);
    buf.push(0x31u8);
    proof {
        assert(buf@ =~= magic_bytes());
    }
    write_u32(&mut buf, FORMAT_VERSION);
    write_u64(&mut buf, s.bucket_count);
    buf.push(s.align_pow);
    buf.push(s.free_pow);
    buf.push(s.options);
    buf.push(0u8);
    write_u64(&mut buf, s.record_count);
    write_u64(&mut buf, total);
    let ghost hdr = buf@;
    proof {
        assert(hdr =~= magic_bytes() + u32_le(FORMAT_VERSION) + u64_le(s.bucket_count) + seq![
            s.align_pow,
            s.free_pow,
            s.options,
            0u8,
        ] + u64_le(s.record_count) + u64_le(sat64(region_start(*s) + total_from(s.buckets@, 0))));
        assert(hdr.len() == 40);
    }
    let rs: u64 = 44 + 8 * s.bucket_count;
    write_slots(&mut buf, s, rs);
    write_u32(&mut buf, 0);
    proof {
        lemma_slots_len(s.buckets@, 0, rs as int);
        assert(buf@.len() == rs);
    }
    write_region(&mut buf, s);
    proof {
        assert(buf@ =~= spec_encode(*s));
    }
    buf
}

/// The bucket array takes eight bytes per bucket.
proof fn lemma_slots_len(bs: Seq<Vec<Record>>, b: int, off: int)
    requires
        0 <= b <= bs.len(),
    ensures
        slots_from(bs, b, off).len() == 8 * (bs.len() - b),
    decreases bs.len() - b,
{
    if b < bs.len() {
        lemma_slots_len(bs, b + 1, off + chain_size_from(bs[b]@, 0));
    }
}


/// Total span of buckets that are all empty.
proof fn lemma_total_from_empty(bs: Seq<Vec<Record>>, b: int)
    requires
        forall|x: int| 0 <= x < bs.len() ==> (#[trigger] bs[x])@.len() == 0,
    ensures
        total_from(bs, b) == 0,
    decreases bs.len() - b,
{
    if 0 <= b < bs.len() {
        lemma_total_from_empty(bs, b + 1);
    }
}

/// Reads a 32-bit little-endian value.
fn read_u32(b: &Vec<u8>, pos: usize) -> (r: u32)
    requires
        pos + 4 <= b@.len(),
    ensures
        r as int == b@[pos as int] + 0x100 * b@[pos as int + 1] + 0x10000 * b@[pos as int + 2]
            + 0x1000000 * b@[pos as int + 3],
{
    let l = b.len();
    b[pos] as u32 + b[pos + 1] as u32 * 0x100 + b[pos + 2] as u32 * 0x10000 + b[pos + 3] as u32
        * 0x1000000
}

/// Reads a 64-bit little-endian value.
fn read_u64(b: &Vec<u8>, pos: usize) -> (r: u64)
    requires
        pos + 8 <= b@.len(),
    ensures
        r as int == b@[pos as int] + 0x100 * b@[pos as int + 1] + 0x10000 * b@[pos as int + 2]
            + 0x1000000 * b@[pos as int + 3] + 0x100000000 * b@[pos as int + 4] + 0x10000000000
            * b@[pos as int + 5] + 0x1000000000000 * b@[pos as int + 6] + 0x100000000000000 * b@[
            pos as int + 7
        ],
{
    let l = b.len();
    b[pos] as u64 + b[pos + 1] as u64 * 0x100 + b[pos + 2] as u64 * 0x10000 + b[pos + 3] as u64
        * 0x1000000 + b[pos + 4] as u64 * 0x100000000 + b[pos + 5] as u64 * 0x10000000000 + b[pos
        + 6] as u64 * 0x1000000000000 + b[pos + 7] as u64 * 0x100000000000000
}

/// Copies `n` bytes starting at `start`.
#[verifier::loop_isolation(false)]
fn copy_range(b: &Vec<u8>, start: usize, n: usize) -> (r: Vec<u8>)
    requires
        start + n <= b@.len(),
    ensures
        r@ == b@.subrange(start as int, start as int + n),
{
    let l = b.len();
    let mut r: Vec<u8> = Vec::new();
    let mut i: usize = 0;
    while i < n
        invariant
            0 <= i <= n,
            r@ =~= b@.subrange(start as int, start as int + i),
        decreases n - i,
    {
        r.push(b[start + i]);
        i = i + 1;
    }
    proof {
        assert(r@ =~= b@.subrange(start as int, start as int + n));
    }
    r
}


/// Everything the header and layout of a canonical image say about the
/// table it encodes.
proof fn lemma_witness_header(w: StorageFile, bytes: Seq<u8>)
    requires
        w.wf(),
        bytes == spec_encode(w),
    ensures
        bytes.len() == 44 + 8 * w.bucket_count + total_from(w.buckets@, 0),
        total_from(w.buckets@, 0) >= 0,
        bytes[0] == 0x54u8 && bytes[1] == 0x43u8 && bytes[2] == 0x48u8 && bytes[3] == 0x42u8
            && bytes[4] == 0x4bu8 && bytes[5] == 0x56u8 && bytes[6] == 0x30u8 && bytes[7]
            == 0x31u8,
        flat32(bytes, 8) == FORMAT_VERSION,
        flat64(bytes, 12) == w.bucket_count,
        bytes[20] == w.align_pow,
        bytes[21] == w.free_pow,
        bytes[22] == w.options,
        bytes.skip(44 + 8 * w.bucket_count) == region_from(w.buckets@, 0, 44 + 8 * w.bucket_count),
{
    lemma_total_nonneg(w.buckets@, 0);
    lemma_slots_len(w.buckets@, 0, region_start(w));
    lemma_region_len(w, 0, region_start(w));
    assert(bytes.subrange(8, 12) =~= u32_le(FORMAT_VERSION));
    lemma_u32_flat(bytes, 8, FORMAT_VERSION);
    assert(bytes.subrange(12, 20) =~= u64_le(w.bucket_count));
    lemma_u64_flat(bytes, 12, w.bucket_count);
    assert(bytes.skip(44 + 8 * w.bucket_count) =~= region_from(
        w.buckets@,
        0,
        44 + 8 * w.bucket_count,
    ));
}

/// Parses a byte image back into a storage file. Exactly the canonical
/// images are accepted: any well-formed table whose image equals the input
/// is reproduced content for content (so a stored file always loads), and a
/// successful parse re-encodes to exactly its input.
#[verifier::loop_isolation(false)]
#[verifier::rlimit(100)]
pub fn parse(bytes: &Vec<u8>) -> (r: Result<StorageFile, ErrorCode>)
    ensures
        r is Ok ==> (r->Ok_0).wf() && bytes@ == spec_encode(r->Ok_0),
        r is Err ==> r == Err::<StorageFile, ErrorCode>(ErrorCode::CorruptFile),
        forall|w: StorageFile| #![trigger spec_encode(w)]
            w.wf() && bytes@ == spec_encode(w) ==> r is Ok && (forall|k: Seq<u8>|
                (r->Ok_0).sget(k) == w.sget(k)),
{
    let len = bytes.len();
    proof {
        assert forall|w: StorageFile| #![trigger spec_encode(w)]
            w.wf() && bytes@ == spec_encode(w) implies {
            &&& bytes@.len() == 44 + 8 * w.bucket_count + total_from(w.buckets@, 0)
            &&& bytes@.len() >= 44 + 8 * w.bucket_count
            &&& bytes@[0] == 0x54u8 && bytes@[1] == 0x43u8 && bytes@[2] == 0x48u8 && bytes@[3]
                == 0x42u8 && bytes@[4] == 0x4bu8 && bytes@[5] == 0x56u8 && bytes@[6] == 0x30u8
                && bytes@[7] == 0x31u8
            &&& flat32(bytes@, 8) == FORMAT_VERSION
            &&& flat64(bytes@, 12) == w.bucket_count
            &&& bytes@[20] == w.align_pow && bytes@[21] == w.free_pow && bytes@[22] == w.options
            &&& bytes@.skip(44 + 8 * w.bucket_count) == region_from(
                w.buckets@,
                0,
                44 + 8 * w.bucket_count,
            )
        } by {
            lemma_witness_header(w, bytes@);
        }
    }
    if len < 44 {
        return Err(ErrorCode::CorruptFile);
    }
    if !(bytes[0] == 0x54 && bytes[1] == 0x43 && bytes[2] == 0x48 && bytes[3] == 0x42 && bytes[4]
        == 0x4b && bytes[5] == 0x56 && bytes[6] == 0x30 && bytes[7] == 0x31) {
        return Err(ErrorCode::CorruptFile);
    }
    if read_u32(bytes, 8) != FORMAT_VERSION {
        return Err(ErrorCode::CorruptFile);
    }
    let bucket_count = read_u64(bytes, 12);
    if bucket_count < 1 || bucket_count > MAX_BUCKET_COUNT {
        return Err(ErrorCode::CorruptFile);
    }
    let apow = bytes[20];
    let fpow = bytes[21];
    let opts = bytes[22];
    if apow > MAX_ALIGN_POW || fpow > MAX_FREE_POW {
        return Err(ErrorCode::CorruptFile);
    }
    let copt = opts & 14u8;
    if opts & 0xf0u8 != 0 || !(copt == 0 || copt == 2 || copt == 4 || copt == 8) {
        return Err(ErrorCode::CorruptFile);
    }
    let rs64: u64 = 44 + 8 * bucket_count;
    if rs64 > len as u64 {
        return Err(ErrorCode::CorruptFile);
    }
    let rs = rs64 as usize;
    let t = Tuning { bucket_count, align_pow: apow, free_pow: fpow, options: opts };
    let mut st = StorageFile::new(&t);
    st.file_size = len as u64;
    proof {
        assert(st.buckets_wf());
        assert(st.pool_wf()) by {
            assert(forall|c2: int| 0 <= c2 < st.pool@.len() ==> (#[trigger] st.pool@[c2])@.len()
                == 0);
        }
        assert(st.wf());
        lemma_total_from_empty(st.buckets@, 0);
        assert forall|w: StorageFile| #![trigger spec_encode(w)]
            w.wf() && bytes@ == spec_encode(w) implies exists|B: int, I: int|
            pos_ok(w, bytes@, st.buckets@, rs as int, B, I) by {
            assert(pos_ok(w, bytes@, st.buckets@, rs as int, 0, 0)) by {
                assert(w.bucket_count == bucket_count);
                assert(bytes@.skip(rs as int) == chain_bytes_from(
                    w.buckets@[0]@,
                    0,
                    rs as int,
                ) + region_from(
                    w.buckets@,
                    1,
                    rs as int + chain_size_from(w.buckets@[0]@, 0),
                ));
                assert forall|x: int|
                    0 <= x < st.buckets@.len() implies recs_match(
                    (#[trigger] st.buckets@[x])@,
                    walked(w.buckets@, 0, 0, x),
                ) by {
                    assert(st.buckets@[x]@.len() == 0);
                    if x == 0 {
                        assert(walked(w.buckets@, 0, 0, x) =~= Seq::<Record>::empty());
                    }
                }
            }
        }
    }
    let mut cur: usize = rs;
    while cur < len
        invariant
            rs <= cur <= len,
            st.wf(),
            st.bucket_count == bucket_count,
            st.align_pow == apow,
            st.free_pow == fpow,
            st.options == opts,
            st.file_size == len,
            st.record_count <= cur,
            region_start(st) + total_from(st.buckets@, 0) == cur,
            forall|w: StorageFile| #![trigger spec_encode(w)]
                w.wf() && bytes@ == spec_encode(w) ==> w.bucket_count == bucket_count
                    && exists|B: int, I: int| pos_ok(w, bytes@, st.buckets@, cur as int, B, I),
        decreases len - cur,
    {
        proof {
            assert forall|w: StorageFile| #![trigger spec_encode(w)]
                w.wf() && bytes@ == spec_encode(w) implies {
                &&& bytes@[cur as int] == REC_TAG
                &&& flat32(bytes@, cur as int + 1) >= 1
                &&& cur + 21 <= bytes@.len()
                &&& 21 + flat32(bytes@, cur as int + 1) + flat32(bytes@, cur as int + 5) + flat32(
                    bytes@,
                    cur as int + 9,
                ) <= bytes@.len() - cur
            } by {
                lemma_chunk_head(w, bytes@, st.buckets@, cur as int);
                let (B, I) = choose|B2: int, I2: int|
                    {
                        &&& #[trigger] pos_ok(w, bytes@, st.buckets@, cur as int, B2, I2)
                        &&& 0 <= B2 < w.buckets@.len()
                        &&& 0 <= I2 < w.buckets@[B2]@.len()
                        &&& chunk_matches(bytes@, cur as int, w.buckets@[B2]@[I2])
                        &&& spec_bucket_of(w.buckets@[B2]@[I2].key@, w.bucket_count) == B2
                        &&& forall|j: int|
                            0 <= j < st.buckets@[B2]@.len() ==> (#[trigger] st.buckets@[B2]@[
                                j
                            ]).key@ != w.buckets@[B2]@[I2].key@
                    };
                assert(chunk_matches(bytes@, cur as int, w.buckets@[B]@[I]));
            }
        }
        if len - cur < 21 {
            return Err(ErrorCode::CorruptFile);
        }
        if bytes[cur] != REC_TAG {
            return Err(ErrorCode::CorruptFile);
        }
        let klen = read_u32(bytes, cur + 1) as usize;
        let vlen = read_u32(bytes, cur + 5) as usize;
        let psiz = read_u32(bytes, cur + 9) as usize;
        if klen < 1 {
            return Err(ErrorCode::CorruptFile);
        }
        let span64: u64 = 21 + klen as u64 + vlen as u64 + psiz as u64;
        if span64 > (len - cur) as u64 {
            return Err(ErrorCode::CorruptFile);
        }
        let kstart = cur + 21;
        let key = copy_range(bytes, kstart, klen);
        let value = copy_range(bytes, kstart + klen, vlen);
        let b = bucket_of(&key, st.bucket_count);
        let ghost pre = st;
        let ghost prev_cur = cur as int;
        let rec = Record { key, value, off: cur as u64, span: span64 };
        let ghost grec = rec;
        proof {
            assert(rec_wf(rec));
            assert(chunk_matches(bytes@, prev_cur, rec));
            assert forall|w: StorageFile| #![trigger spec_encode(w)]
                w.wf() && bytes@ == spec_encode(w) implies forall|j: int|
                0 <= j < st.buckets@[b as int]@.len() ==> (#[trigger] st.buckets@[b as int]@[
                    j
                ]).key@ != rec.key@ by {
                lemma_chunk_head(w, bytes@, st.buckets@, prev_cur);
                let (B, I) = choose|B2: int, I2: int|
                    {
                        &&& #[trigger] pos_ok(w, bytes@, st.buckets@, prev_cur, B2, I2)
                        &&& 0 <= B2 < w.buckets@.len()
                        &&& 0 <= I2 < w.buckets@[B2]@.len()
                        &&& chunk_matches(bytes@, prev_cur, w.buckets@[B2]@[I2])
                        &&& spec_bucket_of(w.buckets@[B2]@[I2].key@, w.bucket_count) == B2
                        &&& forall|j: int|
                            0 <= j < st.buckets@[B2]@.len() ==> (#[trigger] st.buckets@[B2]@[
                                j
                            ]).key@ != w.buckets@[B2]@[I2].key@
                    };
                let r0 = w.buckets@[B]@[I];
                assert(rec.key@ == r0.key@ && rec.value@ == r0.value@ && rec.span == r0.span);
                assert(b as int == B);
            }
        }
        match st.chain_position(b, &rec.key) {
            Some(_) => {
                proof {
                    crate::storage::lemma_chain_find_mem(st.buckets@[b as int]@, rec.key@);
                }
                return Err(ErrorCode::CorruptFile);
            },
            None => {},
        }
        let ghost chain0 = st.buckets@[b as int]@;
        st.buckets[b].push(rec);
        st.record_count = st.record_count + 1;
        proof {
            let chain1 = st.buckets@[b as int]@;
            assert(chain1 =~= chain0.push(grec));
            assert(st.buckets@ =~= pre.buckets@.update(b as int, st.buckets@[b as int]));
            assert(chain_wf(chain1, b as int, st.bucket_count));
            assert(chain_distinct(chain1)) by {
                assert forall|x: int, y: int|
                    0 <= x < y < chain1.len() implies chain1[x].key@ != chain1[y].key@ by {
                    if y < chain1.len() - 1 {
                        assert(chain1[x] == chain0[x] && chain1[y] == chain0[y]);
                    } else {
                        assert(chain1[x] == chain0[x]);
                    }
                }
            }
            lemma_keys_len_update(pre.buckets@, b as int, st.buckets@[b as int], 0);
            lemma_total_update(pre.buckets@, b as int, st.buckets@[b as int], 0);
            lemma_chain_size_push(chain0, grec, 0);
            st.lemma_after_chain_change(pre, b as int);
            let ghost next_cur = prev_cur + grec.span;
            assert forall|w: StorageFile| #![trigger spec_encode(w)]
                w.wf() && bytes@ == spec_encode(w) implies exists|B: int, I: int|
                pos_ok(w, bytes@, st.buckets@, next_cur, B, I) by {
                lemma_chunk_step(
                    w,
                    bytes@,
                    pre.buckets@,
                    st.buckets@,
                    prev_cur,
                    next_cur,
                    grec,
                    b as int,
                );
            }
        }
        cur = cur + span64 as usize;
    }
    let img = serialize(&st);
    proof {
        assert forall|w: StorageFile| #![trigger spec_encode(w)]
            w.wf() && bytes@ == spec_encode(w) implies img@ == bytes@ && (forall|k: Seq<u8>|
            st.sget(k) == w.sget(k)) by {
            lemma_walk_done(w, bytes@, st.buckets@, cur as int);
            lemma_match_keys_len(st.buckets@, w.buckets@, 0);
            lemma_match_contents(st, w);
        }
    }
    if bytes_eq(&img, bytes) {
        Ok(st)
    } else {
        Err(ErrorCode::CorruptFile)
    }
}


/// A 64-bit value is recovered from its little-endian digits.
proof fn lemma_u64_le_digits(v: u64)
    ensures
        v as int == (v as int % 256) + 256 * ((v as int / 0x100 % 256) + 256 * ((v as int / 0x10000
            % 256) + 256 * ((v as int / 0x1000000 % 256) + 256 * ((v as int / 0x100000000 % 256)
            + 256 * ((v as int / 0x10000000000 % 256) + 256 * ((v as int / 0x1000000000000 % 256)
            + 256 * (v as int / 0x100000000000000 % 256))))))),
{
    let x = v as int;
    lemma_div_denominator(x, 0x100, 0x100);
    lemma_div_denominator(x, 0x10000, 0x100);
    lemma_div_denominator(x, 0x1000000, 0x100);
    lemma_div_denominator(x, 0x100000000, 0x100);
    lemma_div_denominator(x, 0x10000000000, 0x100);
    lemma_div_denominator(x, 0x1000000000000, 0x100);
    lemma_fundamental_div_mod(x, 0x100);
    lemma_fundamental_div_mod(x / 0x100, 0x100);
    lemma_fundamental_div_mod(x / 0x10000, 0x100);
    lemma_fundamental_div_mod(x / 0x1000000, 0x100);
    lemma_fundamental_div_mod(x / 0x100000000, 0x100);
    lemma_fundamental_div_mod(x / 0x10000000000, 0x100);
    lemma_fundamental_div_mod(x / 0x1000000000000, 0x100);
    lemma_fundamental_div_mod(x / 0x100000000000000, 0x100);
    assert(x / 0x100000000000000 < 256) by {
        lemma_fundamental_div_mod(x, 0x100000000000000);
    }
}

/// Two values with the same little-endian bytes are the same value.
proof fn lemma_u64_le_inj(a: u64, b: u64)
    requires
        u64_le(a) == u64_le(b),
    ensures
        a == b,
{
    lemma_u64_le_digits(a);
    lemma_u64_le_digits(b);
    assert(u64_le(a)[0] == u64_le(b)[0]);
    assert(u64_le(a)[1] == u64_le(b)[1]);
    assert(u64_le(a)[2] == u64_le(b)[2]);
    assert(u64_le(a)[3] == u64_le(b)[3]);
    assert(u64_le(a)[4] == u64_le(b)[4]);
    assert(u64_le(a)[5] == u64_le(b)[5]);
    assert(u64_le(a)[6] == u64_le(b)[6]);
    assert(u64_le(a)[7] == u64_le(b)[7]);
}

/// Where the header fields sit in the byte image.
proof fn lemma_header_layout(s: StorageFile)
    ensures
        spec_encode(s).len() >= 40,
        u64_le(s.bucket_count) == spec_encode(s).subrange(12, 20),
        spec_encode(s)[20] == s.align_pow,
        spec_encode(s)[21] == s.free_pow,
        spec_encode(s)[22] == s.options,
        u64_le(s.record_count) == spec_encode(s).subrange(24, 32),
{
    let e = spec_encode(s);
    assert(magic_bytes().len() == 8);
    assert(u32_le(FORMAT_VERSION).len() == 4);
    assert(u64_le(s.bucket_count).len() == 8);
    assert(u64_le(s.record_count).len() == 8);
    assert(u64_le(s.bucket_count) =~= e.subrange(12, 20));
    assert(u64_le(s.record_count) =~= e.subrange(24, 32));
}

/// The header pins the structural parameters: two well-formed storage files
/// with the same byte image agree on the bucket count, the alignment and
/// free-block-pool powers, the option bits and the record count — the stored
/// layout of a reopened file is the one it was written with.
pub proof fn lemma_image_pins_parameters(s: StorageFile, t: StorageFile)
    requires
        s.wf(),
        t.wf(),
        spec_encode(s) == spec_encode(t),
    ensures
        s.bucket_count == t.bucket_count,
        s.align_pow == t.align_pow,
        s.free_pow == t.free_pow,
        s.options == t.options,
        s.record_count == t.record_count,
{
    lemma_header_layout(s);
    lemma_header_layout(t);
    lemma_u64_le_inj(s.bucket_count, t.bucket_count);
    lemma_u64_le_inj(s.record_count, t.record_count);
}


/// A 32-bit value is recovered from its little-endian digits.
proof fn lemma_u32_le_value(v: u32)
    ensures
        v as int == u32_le(v)[0] + 0x100 * u32_le(v)[1] + 0x10000 * u32_le(v)[2] + 0x1000000
            * u32_le(v)[3],
{
    let x = v as int;
    lemma_div_denominator(x, 0x100, 0x100);
    lemma_div_denominator(x, 0x10000, 0x100);
    lemma_fundamental_div_mod(x, 0x100);
    lemma_fundamental_div_mod(x / 0x100, 0x100);
    lemma_fundamental_div_mod(x / 0x10000, 0x100);
    assert(x / 0x1000000 < 256) by {
        lemma_fundamental_div_mod(x, 0x1000000);
    }
}

/// The chunk of a well-formed record is as long as its span.
proof fn lemma_rec_bytes_len(r: Record, nxt: u64)
    requires
        rec_wf(r),
    ensures
        rec_bytes(r, nxt).len() == r.span,
{
}

/// The bytes of a chain tail are as long as its summed spans.
proof fn lemma_chain_bytes_len(c: Seq<Record>, i: int, off: int)
    requires
        forall|j: int| 0 <= j < c.len() ==> rec_wf(#[trigger] c[j]),
    ensures
        chain_bytes_from(c, i, off).len() == chain_size_from(c, i),
    decreases c.len() - i,
{
    if 0 <= i < c.len() {
        lemma_rec_bytes_len(
            c[i],
            if i == c.len() - 1 {
                0u64
            } else {
                sat64(off + c[i].span)
            },
        );
        lemma_chain_bytes_len(c, i + 1, off + c[i].span);
    }
}

/// The record region is as long as the total of the spans.
proof fn lemma_region_len(s: StorageFile, b: int, off: int)
    requires
        s.buckets_wf(),
    ensures
        region_from(s.buckets@, b, off).len() == total_from(s.buckets@, b),
    decreases s.buckets@.len() - b,
{
    if 0 <= b < s.buckets@.len() {
        lemma_chain_bytes_len(s.buckets@[b]@, 0, off);
        lemma_region_len(s, b + 1, off + chain_size_from(s.buckets@[b]@, 0));
    }
}

/// A chain whose spans sum to zero is empty, and its records' spans are
/// positive.
proof fn lemma_chain_size_pos(c: Seq<Record>, i: int)
    requires
        forall|j: int| 0 <= j < c.len() ==> rec_wf(#[trigger] c[j]),
        0 <= i <= c.len(),
    ensures
        chain_size_from(c, i) >= 0,
        i < c.len() ==> chain_size_from(c, i) >= c[i].span >= 22,
    decreases c.len() - i,
{
    if i < c.len() {
        lemma_chain_size_pos(c, i + 1);
    }
}

/// Two chains match when they agree record for record on key, value and
/// span (the file offset, a session artifact, is left free).
pub open spec fn recs_match(c1: Seq<Record>, c2: Seq<Record>) -> bool {
    &&& c1.len() == c2.len()
    &&& forall|i: int|
        0 <= i < c1.len() ==> (#[trigger] c1[i]).key@ == c2[i].key@ && c1[i].value@ == c2[i].value@
            && c1[i].span == c2[i].span
}

/// Two bucket tables match when every bucket's chain matches.
pub open spec fn buckets_match(bs1: Seq<Vec<Record>>, bs2: Seq<Vec<Record>>) -> bool {
    &&& bs1.len() == bs2.len()
    &&& forall|b: int| 0 <= b < bs1.len() ==> recs_match((#[trigger] bs1[b])@, bs2[b]@)
}

proof fn lemma_match_chain_size(c1: Seq<Record>, c2: Seq<Record>, i: int)
    requires
        recs_match(c1, c2),
    ensures
        chain_size_from(c1, i) == chain_size_from(c2, i),
    decreases c1.len() - i,
{
    if 0 <= i < c1.len() {
        lemma_match_chain_size(c1, c2, i + 1);
    }
}

proof fn lemma_match_chain_bytes(c1: Seq<Record>, c2: Seq<Record>, i: int, off: int)
    requires
        recs_match(c1, c2),
    ensures
        chain_bytes_from(c1, i, off) == chain_bytes_from(c2, i, off),
    decreases c1.len() - i,
{
    if 0 <= i < c1.len() {
        lemma_match_chain_bytes(c1, c2, i + 1, off + c1[i].span);
        assert(rec_bytes(
            c1[i],
            if i == c1.len() - 1 {
                0u64
            } else {
                sat64(off + c1[i].span)
            },
        ) == rec_bytes(
            c2[i],
            if i == c2.len() - 1 {
                0u64
            } else {
                sat64(off + c2[i].span)
            },
        ));
    }
}

proof fn lemma_match_totals(bs1: Seq<Vec<Record>>, bs2: Seq<Vec<Record>>, b: int)
    requires
        buckets_match(bs1, bs2),
    ensures
        total_from(bs1, b) == total_from(bs2, b),
    decreases bs1.len() - b,
{
    if 0 <= b < bs1.len() {
        lemma_match_chain_size(bs1[b]@, bs2[b]@, 0);
        lemma_match_totals(bs1, bs2, b + 1);
    }
}

proof fn lemma_match_slots(bs1: Seq<Vec<Record>>, bs2: Seq<Vec<Record>>, b: int, off: int)
    requires
        buckets_match(bs1, bs2),
    ensures
        slots_from(bs1, b, off) == slots_from(bs2, b, off),
    decreases bs1.len() - b,
{
    if 0 <= b < bs1.len() {
        lemma_match_chain_size(bs1[b]@, bs2[b]@, 0);
        lemma_match_slots(bs1, bs2, b + 1, off + chain_size_from(bs1[b]@, 0));
    }
}

proof fn lemma_match_region(bs1: Seq<Vec<Record>>, bs2: Seq<Vec<Record>>, b: int, off: int)
    requires
        buckets_match(bs1, bs2),
    ensures
        region_from(bs1, b, off) == region_from(bs2, b, off),
    decreases bs1.len() - b,
{
    if 0 <= b < bs1.len() {
        lemma_match_chain_size(bs1[b]@, bs2[b]@, 0);
        lemma_match_chain_bytes(bs1[b]@, bs2[b]@, 0, off);
        lemma_match_region(bs1, bs2, b + 1, off + chain_size_from(bs1[b]@, 0));
    }
}

proof fn lemma_match_keys_len(bs1: Seq<Vec<Record>>, bs2: Seq<Vec<Record>>, b: int)
    requires
        buckets_match(bs1, bs2),
    ensures
        keys_from(bs1, b).len() == keys_from(bs2, b).len(),
    decreases bs1.len() - b,
{
    if 0 <= b < bs1.len() {
        lemma_match_keys_len(bs1, bs2, b + 1);
    }
}

proof fn lemma_match_chain_find(c1: Seq<Record>, c2: Seq<Record>, k: Seq<u8>)
    requires
        recs_match(c1, c2),
    ensures
        chain_find(c1, k) is Some <==> chain_find(c2, k) is Some,
        chain_find(c1, k) is Some ==> chain_find(c1, k)->0.value@ == chain_find(
            c2,
            k,
        )->0.value@,
    decreases c1.len(),
{
    if c1.len() > 0 && c1[0].key@ != k {
        assert(forall|j: int| 0 <= j < c1.len() - 1 ==> c1.skip(1)[j] == c1[j + 1]);
        assert(forall|j: int| 0 <= j < c2.len() - 1 ==> c2.skip(1)[j] == c2[j + 1]);
        assert(recs_match(c1.skip(1), c2.skip(1)));
        lemma_match_chain_find(c1.skip(1), c2.skip(1), k);
    }
}

/// Matching tables with the same parameters and record count have the same
/// canonical image and bind every key to the same value.
pub proof fn lemma_match_contents(s: StorageFile, t: StorageFile)
    requires
        1 <= s.bucket_count,
        s.buckets@.len() == s.bucket_count,
        t.buckets@.len() == t.bucket_count,
        s.bucket_count == t.bucket_count,
        s.align_pow == t.align_pow,
        s.free_pow == t.free_pow,
        s.options == t.options,
        s.record_count == t.record_count,
        buckets_match(s.buckets@, t.buckets@),
    ensures
        spec_encode(s) == spec_encode(t),
        forall|k: Seq<u8>| s.sget(k) == t.sget(k),
{
    lemma_match_encode(s, t);
    assert forall|k: Seq<u8>| s.sget(k) == t.sget(k) by {
        let b = crate::hash::spec_bucket_of(k, s.bucket_count);
        assert(0 <= b < s.buckets@.len());
        lemma_match_chain_find(s.buckets@[b]@, t.buckets@[b]@, k);
    }
}

proof fn lemma_match_encode(s: StorageFile, t: StorageFile)
    requires
        s.bucket_count == t.bucket_count,
        s.align_pow == t.align_pow,
        s.free_pow == t.free_pow,
        s.options == t.options,
        s.record_count == t.record_count,
        buckets_match(s.buckets@, t.buckets@),
    ensures
        spec_encode(s) == spec_encode(t),
{
    lemma_match_totals(s.buckets@, t.buckets@, 0);
    lemma_match_slots(s.buckets@, t.buckets@, 0, region_start(s));
    lemma_match_region(s.buckets@, t.buckets@, 0, region_start(s));
}

/// What every record chunk's bytes hold, field by field.
proof fn lemma_rec_bytes_fields(r: Record, nxt: u64)
    requires
        rec_wf(r),
    ensures
        rec_bytes(r, nxt).len() == r.span,
        rec_bytes(r, nxt)[0] == REC_TAG,
        forall|i: int|
            1 <= i < 5 ==> #[trigger] rec_bytes(r, nxt)[i] == u32_le(r.key@.len() as u32)[i - 1],
        forall|i: int|
            5 <= i < 9 ==> #[trigger] rec_bytes(r, nxt)[i] == u32_le(r.value@.len() as u32)[i - 5],
        forall|i: int|
            9 <= i < 13 ==> #[trigger] rec_bytes(r, nxt)[i] == u32_le(
                (r.span - rec_need(r.key@.len() as int, r.value@.len() as int)) as u32,
            )[i - 9],
        forall|i: int|
            21 <= i < 21 + r.key@.len() ==> #[trigger] rec_bytes(r, nxt)[i] == r.key@[i - 21],
        forall|i: int|
            21 + r.key@.len() <= i < 21 + r.key@.len() + r.value@.len() ==> #[trigger] rec_bytes(
                r,
                nxt,
            )[i] == r.value@[i - 21 - r.key@.len()],
{
}


/// The little-endian value of four bytes at `pos`.
pub open spec fn flat32(b: Seq<u8>, pos: int) -> int {
    b[pos] + 0x100 * b[pos + 1] + 0x10000 * b[pos + 2] + 0x1000000 * b[pos + 3]
}

/// The little-endian value of eight bytes at `pos`.
pub open spec fn flat64(b: Seq<u8>, pos: int) -> int {
    b[pos] + 0x100 * b[pos + 1] + 0x10000 * b[pos + 2] + 0x1000000 * b[pos + 3] + 0x100000000 * b[
        pos + 4
    ] + 0x10000000000 * b[pos + 5] + 0x1000000000000 * b[pos + 6] + 0x100000000000000 * b[pos + 7]
}

proof fn lemma_u32_flat(b: Seq<u8>, pos: int, v: u32)
    requires
        0 <= pos,
        pos + 4 <= b.len(),
        b.subrange(pos, pos + 4) == u32_le(v),
    ensures
        flat32(b, pos) == v,
{
    lemma_u32_le_value(v);
    assert(b[pos] == u32_le(v)[0] && b[pos + 1] == u32_le(v)[1] && b[pos + 2] == u32_le(v)[2] && b[
        pos + 3
    ] == u32_le(v)[3]) by {
        assert(b.subrange(pos, pos + 4)[0] == b[pos]);
        assert(b.subrange(pos, pos + 4)[1] == b[pos + 1]);
        assert(b.subrange(pos, pos + 4)[2] == b[pos + 2]);
        assert(b.subrange(pos, pos + 4)[3] == b[pos + 3]);
    }
}

proof fn lemma_u64_flat(b: Seq<u8>, pos: int, v: u64)
    requires
        0 <= pos,
        pos + 8 <= b.len(),
        b.subrange(pos, pos + 8) == u64_le(v),
    ensures
        flat64(b, pos) == v,
{
    lemma_u64_le_digits(v);
    assert forall|i: int| 0 <= i < 8 implies b[pos + i] == u64_le(v)[i] by {
        assert(b.subrange(pos, pos + 8)[i] == b[pos + i]);
    }
}

/// Every record of every chain of a well-formed table is well formed.
proof fn lemma_wf_recs(w: StorageFile, b: int)
    requires
        w.buckets_wf(),
        0 <= b < w.buckets@.len(),
    ensures
        forall|j: int| 0 <= j < w.buckets@[b]@.len() ==> rec_wf(#[trigger] w.buckets@[b]@[j]),
{
}

/// A table whose remaining spans sum to zero has only empty chains left.
proof fn lemma_total_zero_empty(w: StorageFile, b: int)
    requires
        w.buckets_wf(),
        0 <= b,
        total_from(w.buckets@, b) == 0,
    ensures
        forall|x: int| b <= x < w.buckets@.len() ==> (#[trigger] w.buckets@[x])@.len() == 0,
    decreases w.buckets@.len() - b,
{
    if b < w.buckets@.len() {
        lemma_wf_recs(w, b);
        lemma_chain_size_pos(w.buckets@[b]@, 0);
        lemma_total_nonneg(w.buckets@, b + 1);
        lemma_total_zero_empty(w, b + 1);
    }
}

/// The records of bucket `x` that a walk standing at bucket `B`, chain
/// position `I` has already passed.
pub open spec fn walked(bs: Seq<Vec<Record>>, B: int, I: int, x: int) -> Seq<Record> {
    if x < B {
        bs[x]@
    } else if x == B {
        bs[x]@.take(I)
    } else {
        Seq::empty()
    }
}

/// A parse standing at byte `cur` agrees with witness `w` at walk position
/// (`B`, `I`): the bytes still to read are exactly the rest of `w`'s record
/// region, and the chains built so far match what was walked.
pub open spec fn pos_ok(
    w: StorageFile,
    bytes: Seq<u8>,
    mine_bs: Seq<Vec<Record>>,
    cur: int,
    B: int,
    I: int,
) -> bool {
    &&& 0 <= B <= w.buckets@.len()
    &&& mine_bs.len() == w.buckets@.len()
    &&& (B == w.buckets@.len() ==> I == 0 && cur == bytes.len())
    &&& (B < w.buckets@.len() ==> {
        &&& 0 <= I <= w.buckets@[B]@.len()
        &&& 0 <= cur <= bytes.len()
        &&& bytes.skip(cur) == chain_bytes_from(w.buckets@[B]@, I, cur) + region_from(
            w.buckets@,
            B + 1,
            cur + chain_size_from(w.buckets@[B]@, I),
        )
    })
    &&& forall|x: int|
        0 <= x < mine_bs.len() ==> recs_match((#[trigger] mine_bs[x])@, walked(w.buckets@, B, I, x))
}

/// While bytes remain, the walk position can be brought to a live record.
proof fn lemma_normalize_pos(
    w: StorageFile,
    bytes: Seq<u8>,
    mine_bs: Seq<Vec<Record>>,
    cur: int,
    B: int,
    I: int,
)
    requires
        w.wf(),
        pos_ok(w, bytes, mine_bs, cur, B, I),
        cur < bytes.len(),
    ensures
        exists|B2: int, I2: int|
            {
                &&& #[trigger] pos_ok(w, bytes, mine_bs, cur, B2, I2)
                &&& 0 <= B2 < w.buckets@.len()
                &&& 0 <= I2 < w.buckets@[B2]@.len()
            },
    decreases w.buckets@.len() - B,
{
    let bs = w.buckets@;
    if B == bs.len() {
        // contradiction: the walk is done yet bytes remain
    } else {
        let c = bs[B]@;
        if I == c.len() {
            assert(chain_bytes_from(c, I, cur) =~= Seq::<u8>::empty());
            assert(chain_size_from(c, I) == 0);
            assert(bytes.skip(cur) == region_from(bs, B + 1, cur));
            if B + 1 == bs.len() {
                assert(bytes.skip(cur).len() == 0);
                assert(bytes.skip(cur).len() == bytes.len() - cur);
            } else {
                assert(pos_ok(w, bytes, mine_bs, cur, B + 1, 0)) by {
                    assert forall|x: int|
                        0 <= x < mine_bs.len() implies recs_match(
                        (#[trigger] mine_bs[x])@,
                        walked(bs, B + 1, 0, x),
                    ) by {
                        if x == B {
                            assert(c.take(c.len() as int) =~= c);
                        } else if x == B + 1 {
                            assert(walked(bs, B + 1, 0, x) =~= Seq::<Record>::empty());
                            assert(bs[x]@.take(0) =~= Seq::<Record>::empty());
                        }
                    }
                }
                lemma_normalize_pos(w, bytes, mine_bs, cur, B + 1, 0);
            }
        } else {
            assert(pos_ok(w, bytes, mine_bs, cur, B, I) && 0 <= B < bs.len() && 0 <= I < c.len());
        }
    }
}

/// What the bytes at `cur` say about the record chunk that starts there.
pub open spec fn chunk_matches(bytes: Seq<u8>, cur: int, r: Record) -> bool {
    &&& rec_wf(r)
    &&& 0 <= cur
    &&& cur + r.span <= bytes.len()
    &&& bytes[cur] == REC_TAG
    &&& flat32(bytes, cur + 1) == r.key@.len()
    &&& flat32(bytes, cur + 5) == r.value@.len()
    &&& flat32(bytes, cur + 9) == r.span - rec_need(r.key@.len() as int, r.value@.len() as int)
    &&& bytes.subrange(cur + 21, cur + 21 + r.key@.len()) == r.key@
    &&& bytes.subrange(
        cur + 21 + r.key@.len(),
        cur + 21 + r.key@.len() + r.value@.len(),
    ) == r.value@
}

/// At a live walk position the bytes spell out exactly the record there,
/// and the chain built so far does not hold its key yet.

/// Splitting a suffix: what follows a known prefix of the remaining bytes.
proof fn lemma_skip_concat(bytes: Seq<u8>, cur: int, a: Seq<u8>, b: Seq<u8>)
    requires
        0 <= cur <= bytes.len(),
        bytes.skip(cur) == a + b,
    ensures
        bytes.skip(cur + a.len()) == b,
        cur + a.len() + b.len() == bytes.len(),
{
    assert(bytes.skip(cur).len() == bytes.len() - cur);
    assert(bytes.skip(cur + a.len()) =~= b) by {
        assert forall|j: int| 0 <= j < b.len() implies bytes.skip(cur + a.len())[j] == b[j] by {
            assert(bytes.skip(cur)[a.len() + j] == (a + b)[a.len() + j]);
            assert(bytes.skip(cur + a.len())[j] == bytes[cur + a.len() + j]);
            assert(bytes.skip(cur)[a.len() + j] == bytes[cur + a.len() + j]);
        }
    }
}

/// A record chunk standing at the front of the remaining bytes is spelled
/// out by them field for field.
#[verifier::rlimit(100)]
proof fn lemma_chunk_at(bytes: Seq<u8>, cur: int, r: Record, nxt: u64, rest: Seq<u8>)
    requires
        rec_wf(r),
        0 <= cur <= bytes.len(),
        bytes.skip(cur) == rec_bytes(r, nxt) + rest,
    ensures
        chunk_matches(bytes, cur, r),
        bytes.skip(cur + r.span) == rest,
{
    lemma_rec_bytes_len(r, nxt);
    lemma_rec_bytes_fields(r, nxt);
    lemma_skip_concat(bytes, cur, rec_bytes(r, nxt), rest);
    let rb = rec_bytes(r, nxt);
    assert forall|j: int| 0 <= j < r.span implies bytes[cur + j] == rb[j] by {
        assert(bytes.skip(cur)[j] == bytes[cur + j]);
        assert((rb + rest)[j] == rb[j]);
    }
    assert(bytes.subrange(cur + 1, cur + 5) =~= u32_le(r.key@.len() as u32)) by {
        assert forall|i: int| #![trigger u32_le(r.key@.len() as u32)[i]]
            0 <= i < 4 implies bytes.subrange(cur + 1, cur + 5)[i] == u32_le(
            r.key@.len() as u32,
        )[i] by {
            assert(bytes[cur + (1 + i)] == rb[1 + i]);
        }
    }
    lemma_u32_flat(bytes, cur + 1, r.key@.len() as u32);
    assert(bytes.subrange(cur + 5, cur + 9) =~= u32_le(r.value@.len() as u32)) by {
        assert forall|i: int| #![trigger u32_le(r.value@.len() as u32)[i]]
            0 <= i < 4 implies bytes.subrange(cur + 5, cur + 9)[i] == u32_le(
            r.value@.len() as u32,
        )[i] by {
            assert(bytes[cur + (5 + i)] == rb[5 + i]);
        }
    }
    lemma_u32_flat(bytes, cur + 5, r.value@.len() as u32);
    let psiz = (r.span - rec_need(r.key@.len() as int, r.value@.len() as int)) as u32;
    assert(bytes.subrange(cur + 9, cur + 13) =~= u32_le(psiz)) by {
        assert forall|i: int| #![trigger u32_le(psiz)[i]]
            0 <= i < 4 implies bytes.subrange(cur + 9, cur + 13)[i] == u32_le(psiz)[i] by {
            assert(bytes[cur + (9 + i)] == rb[9 + i]);
        }
    }
    lemma_u32_flat(bytes, cur + 9, psiz);
    assert(bytes.subrange(cur + 21, cur + 21 + r.key@.len()) =~= r.key@) by {
        assert forall|i: int| #![trigger r.key@[i]]
            0 <= i < r.key@.len() implies bytes.subrange(cur + 21, cur + 21 + r.key@.len())[i]
            == r.key@[i] by {
            assert(bytes[cur + (21 + i)] == rb[21 + i]);
        }
    }
    assert(bytes.subrange(cur + 21 + r.key@.len(), cur + 21 + r.key@.len() + r.value@.len())
        =~= r.value@) by {
        assert forall|i: int| #![trigger r.value@[i]]
            0 <= i < r.value@.len() implies bytes.subrange(
            cur + 21 + r.key@.len(),
            cur + 21 + r.key@.len() + r.value@.len(),
        )[i] == r.value@[i] by {
            assert(bytes[cur + (21 + r.key@.len() + i)] == rb[21 + r.key@.len() + i]);
        }
    }
}

#[verifier::rlimit(100)]
#[verifier::spinoff_prover]
proof fn lemma_chunk_head(w: StorageFile, bytes: Seq<u8>, mine_bs: Seq<Vec<Record>>, cur: int)
    requires
        w.wf(),
        exists|B: int, I: int| pos_ok(w, bytes, mine_bs, cur, B, I),
        0 <= cur < bytes.len(),
    ensures
        exists|B: int, I: int|
            {
                &&& #[trigger] pos_ok(w, bytes, mine_bs, cur, B, I)
                &&& 0 <= B < w.buckets@.len()
                &&& 0 <= I < w.buckets@[B]@.len()
                &&& chunk_matches(bytes, cur, w.buckets@[B]@[I])
                &&& spec_bucket_of(w.buckets@[B]@[I].key@, w.bucket_count) == B
                &&& forall|j: int|
                    0 <= j < mine_bs[B]@.len() ==> (#[trigger] mine_bs[B]@[j]).key@ != w.buckets@[
                        B
                    ]@[I].key@
            },
{
    let (B0, I0) = choose|B: int, I: int| pos_ok(w, bytes, mine_bs, cur, B, I);
    lemma_normalize_pos(w, bytes, mine_bs, cur, B0, I0);
    let (B, I) = choose|B2: int, I2: int|
        {
            &&& #[trigger] pos_ok(w, bytes, mine_bs, cur, B2, I2)
            &&& 0 <= B2 < w.buckets@.len()
            &&& 0 <= I2 < w.buckets@[B2]@.len()
        };
    let c = w.buckets@[B]@;
    let r = c[I];
    let nxt: u64 = if I == c.len() - 1 {
        0u64
    } else {
        sat64(cur + r.span)
    };
    lemma_wf_recs(w, B);
    let tail = chain_bytes_from(c, I + 1, cur + r.span) + region_from(
        w.buckets@,
        B + 1,
        cur + chain_size_from(c, I),
    );
    assert(bytes.skip(cur) == rec_bytes(r, nxt) + tail) by {
        assert(chain_bytes_from(c, I, cur) == rec_bytes(r, nxt) + chain_bytes_from(
            c,
            I + 1,
            cur + r.span,
        ));
        assert(bytes.skip(cur) =~= rec_bytes(r, nxt) + tail);
    }
    lemma_chunk_at(bytes, cur, r, nxt, tail);
    assert forall|j: int|
        0 <= j < mine_bs[B]@.len() implies (#[trigger] mine_bs[B]@[j]).key@ != r.key@ by {
        assert(recs_match(mine_bs[B]@, walked(w.buckets@, B, I, B)));
        assert(mine_bs[B]@[j].key@ == c.take(I)[j].key@);
        assert(c.take(I)[j] == c[j]);
    }
}

/// Pushing the record the bytes spell out advances the walk by one chunk.
#[verifier::rlimit(100)]
#[verifier::spinoff_prover]
proof fn lemma_chunk_step(
    w: StorageFile,
    bytes: Seq<u8>,
    prev_bs: Seq<Vec<Record>>,
    new_bs: Seq<Vec<Record>>,
    cur: int,
    cur2: int,
    rec: Record,
    b: int,
)
    requires
        w.wf(),
        exists|B: int, I: int| pos_ok(w, bytes, prev_bs, cur, B, I),
        0 <= cur < bytes.len(),
        cur2 == cur + rec.span,
        chunk_matches(bytes, cur, rec),
        b == spec_bucket_of(rec.key@, w.bucket_count),
        0 <= b < prev_bs.len(),
        new_bs.len() == prev_bs.len(),
        new_bs[b]@ == prev_bs[b]@.push(rec),
        forall|x: int| 0 <= x < prev_bs.len() && x != b ==> new_bs[x] == prev_bs[x],
    ensures
        exists|B: int, I: int| pos_ok(w, bytes, new_bs, cur2, B, I),
{
    lemma_chunk_head(w, bytes, prev_bs, cur);
    let (B, I) = choose|B2: int, I2: int|
        {
            &&& #[trigger] pos_ok(w, bytes, prev_bs, cur, B2, I2)
            &&& 0 <= B2 < w.buckets@.len()
            &&& 0 <= I2 < w.buckets@[B2]@.len()
            &&& chunk_matches(bytes, cur, w.buckets@[B2]@[I2])
            &&& spec_bucket_of(w.buckets@[B2]@[I2].key@, w.bucket_count) == B2
            &&& forall|j: int|
                0 <= j < prev_bs[B2]@.len() ==> (#[trigger] prev_bs[B2]@[j]).key@ == w.buckets@[
                    B2
                ]@[I2].key@ ==> false
        };
    let c = w.buckets@[B]@;
    let r = c[I];
    // the chunk determines key, value and span, so `rec` mirrors `r`
    assert(rec.key@.len() == r.key@.len() && rec.value@.len() == r.value@.len());
    assert(rec.key@ == r.key@ && rec.value@ == r.value@);
    assert(rec.span == r.span);
    assert(b == B);
    let nxt: u64 = if I == c.len() - 1 {
        0u64
    } else {
        sat64(cur + r.span)
    };
    lemma_wf_recs(w, B);
    let tail = chain_bytes_from(c, I + 1, cur2) + region_from(
        w.buckets@,
        B + 1,
        cur + chain_size_from(c, I),
    );
    assert(bytes.skip(cur) == rec_bytes(r, nxt) + tail) by {
        assert(chain_bytes_from(c, I, cur) == rec_bytes(r, nxt) + chain_bytes_from(c, I + 1, cur2));
        assert(bytes.skip(cur) =~= rec_bytes(r, nxt) + tail);
    }
    lemma_rec_bytes_len(r, nxt);
    lemma_skip_concat(bytes, cur, rec_bytes(r, nxt), tail);
    assert(pos_ok(w, bytes, new_bs, cur2, B, I + 1)) by {
        assert(cur + chain_size_from(c, I) == cur2 + chain_size_from(c, I + 1));
        assert(bytes.skip(cur2) == chain_bytes_from(c, I + 1, cur2) + region_from(
            w.buckets@,
            B + 1,
            cur2 + chain_size_from(c, I + 1),
        ));
        assert forall|x: int|
            0 <= x < new_bs.len() implies recs_match(
            (#[trigger] new_bs[x])@,
            walked(w.buckets@, B, I + 1, x),
        ) by {
            if x == b {
                assert(c.take(I + 1) =~= c.take(I).push(r));
                assert(recs_match(prev_bs[b]@, c.take(I)));
                let n1 = new_bs[b]@;
                let w1 = c.take(I + 1);
                assert forall|i: int|
                    0 <= i < n1.len() implies (#[trigger] n1[i]).key@ == w1[i].key@ && n1[i].value@
                    == w1[i].value@ && n1[i].span == w1[i].span by {
                    if i < I {
                        assert(n1[i] == prev_bs[b]@[i]);
                        assert(w1[i] == c.take(I)[i]);
                    } else {
                        assert(n1[i] == rec);
                        assert(w1[i] == r);
                    }
                }
            } else {
                assert(new_bs[x] == prev_bs[x]);
                assert(walked(w.buckets@, B, I + 1, x) == walked(w.buckets@, B, I, x));
            }
        }
    }
}

/// A finished walk has matched the whole table.
proof fn lemma_walk_done(w: StorageFile, bytes: Seq<u8>, mine_bs: Seq<Vec<Record>>, cur: int)
    requires
        w.wf(),
        exists|B: int, I: int| pos_ok(w, bytes, mine_bs, cur, B, I),
        cur == bytes.len(),
    ensures
        buckets_match(mine_bs, w.buckets@),
{
    let (B, I) = choose|B: int, I: int| pos_ok(w, bytes, mine_bs, cur, B, I);
    let bs = w.buckets@;
    if B < bs.len() {
        let c = bs[B]@;
        lemma_wf_recs(w, B);
        assert(bytes.skip(cur).len() == 0);
        lemma_chain_bytes_len(c, I, cur);
        lemma_region_len(w, B + 1, cur + chain_size_from(c, I));
        lemma_chain_size_pos(c, I);
        lemma_total_nonneg(bs, B + 1);
        assert(chain_size_from(c, I) == 0 && total_from(bs, B + 1) == 0);
        assert(I == c.len()) by {
            if I < c.len() {
                assert(chain_size_from(c, I) >= 22);
            }
        }
        lemma_total_zero_empty(w, B + 1);
        assert forall|x: int|
            0 <= x < mine_bs.len() implies recs_match((#[trigger] mine_bs[x])@, bs[x]@) by {
            if x == B {
                assert(c.take(c.len() as int) =~= c);
            } else if x > B {
                assert(recs_match(mine_bs[x]@, walked(bs, B, I, x)));
                assert(bs[x]@.len() == 0);
            }
        }
    } else {
        assert forall|x: int|
            0 <= x < mine_bs.len() implies recs_match((#[trigger] mine_bs[x])@, bs[x]@) by {
            assert(walked(bs, B, I, x) == bs[x]@);
        }
    }
}

} // verus!
