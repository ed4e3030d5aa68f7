//! Structural tuning parameters of a storage file.
//!
//! The bucket count, the alignment power, the free-block-pool power and the
//! option bits are chosen before a file is created and are frozen in its
//! header for the file's whole lifetime.

use vstd::prelude::*;

verus! {

/// Default bucket count when the caller gives no hint.
pub const DEFAULT_BUCKET_COUNT: u64 = 131071;

/// Largest accepted bucket count; larger hints are clamped.
pub const MAX_BUCKET_COUNT: u64 = 1048576;

/// Default alignment power: allocations are rounded to 16-byte quanta.
pub const DEFAULT_ALIGN_POW: u8 = 4;

/// Largest accepted alignment power.
pub const MAX_ALIGN_POW: u8 = 16;

/// Default free-block-pool power.
pub const DEFAULT_FREE_POW: u8 = 10;

/// Largest accepted free-block-pool power.
pub const MAX_FREE_POW: u8 = 20;

/// Option bit: the file may grow past 32-bit offsets.
pub const OPT_LARGE: u8 = 1;

/// Option bit: record values are stored deflate-compressed.
pub const OPT_DEFLATE: u8 = 2;

/// Option bit: record values are stored bzip2-compressed.
pub const OPT_BZIP: u8 = 4;

/// Option bit: record values are stored with a custom codec.
pub const OPT_CUSTOM: u8 = 8;

/// True when `opts` has no unknown bits and at most one compression bit.
pub open spec fn spec_options_ok(opts: u8) -> bool {
    &&& opts & 0xf0u8 == 0u8
    &&& {
        let c = opts & 14u8;
        c == 0u8 || c == 2u8 || c == 4u8 || c == 8u8
    }
}

/// The structural parameters of a storage file.
#[derive(Clone, Copy, Debug, PartialEq, Eq, Structural)]
pub struct Tuning {
    /// Number of buckets in the hash table.
    pub bucket_count: u64,
    /// Power of two giving the allocation quantum.
    pub align_pow: u8,
    /// Power controlling the free-block pool's size classes.
    pub free_pow: u8,
    /// Option bit set.
    pub options: u8,
}

impl Tuning {
    /// A tuning is well formed when every parameter is inside its bounds.
    pub open spec fn wf(self) -> bool {
        &&& 1 <= self.bucket_count <= MAX_BUCKET_COUNT
        &&& self.align_pow <= MAX_ALIGN_POW
        &&& self.free_pow <= MAX_FREE_POW
        &&& spec_options_ok(self.options)
    }

    /// The default tuning.
    pub open spec fn spec_default() -> Tuning {
        Tuning {
            bucket_count: DEFAULT_BUCKET_COUNT,
            align_pow: DEFAULT_ALIGN_POW,
            free_pow: DEFAULT_FREE_POW,
            options: 0,
        }
    }

    /// What `normalize` turns a raw parameter set into: negative hints take
    /// the default, oversized hints are clamped to the maximum.
    pub open spec fn spec_normalized(bnum: i64, apow: i8, fpow: i8, opts: u8) -> Tuning {
        Tuning {
            bucket_count: if bnum < 1 {
                DEFAULT_BUCKET_COUNT
            } else if bnum > MAX_BUCKET_COUNT as i64 {
                MAX_BUCKET_COUNT
            } else {
                bnum as u64
            },
            align_pow: if apow < 0 {
                DEFAULT_ALIGN_POW
            } else if apow > MAX_ALIGN_POW as i8 {
                MAX_ALIGN_POW
            } else {
                apow as u8
            },
            free_pow: if fpow < 0 {
                DEFAULT_FREE_POW
            } else if fpow > MAX_FREE_POW as i8 {
                MAX_FREE_POW
            } else {
                fpow as u8
            },
            options: opts,
        }
    }

    /// Builds the default tuning.
    pub fn new_default() -> (t: Tuning)
        ensures
            t == Tuning::spec_default(),
            t.wf(),
    {
        proof {
            assert(0u8 & 0xf0u8 == 0u8) by (bit_vector);
            assert(0u8 & 14u8 == 0u8) by (bit_vector);
        }
        Tuning {
            bucket_count: DEFAULT_BUCKET_COUNT,
            align_pow: DEFAULT_ALIGN_POW,
            free_pow: DEFAULT_FREE_POW,
            options: 0,
        }
    }

    /// Normalizes raw tuning hints, or reports `None` when the option bits
    /// are invalid: unknown bits, or more than one compression codec.
    pub fn normalize(bnum: i64, apow: i8, fpow: i8, opts: u8) -> (r: Option<Tuning>)
        ensures
            r is Some <==> spec_options_ok(opts),
            r is Some ==> r->0 == Tuning::spec_normalized(bnum, apow, fpow, opts)
                && r->0.wf(),
    {
        let c = opts & 14u8;
        if opts & 0xf0u8 != 0 || !(c == 0 || c == 2 || c == 4 || c == 8) {
            return None;
        }
        let bucket_count: u64 = if bnum < 1 {
            DEFAULT_BUCKET_COUNT
        } else if bnum > MAX_BUCKET_COUNT as i64 {
            MAX_BUCKET_COUNT
        } else {
            bnum as u64
        };
        let align_pow: u8 = if apow < 0 {
            DEFAULT_ALIGN_POW
        } else if apow > MAX_ALIGN_POW as i8 {
            MAX_ALIGN_POW
        } else {
            apow as u8
        };
        let free_pow: u8 = if fpow < 0 {
            DEFAULT_FREE_POW
        } else if fpow > MAX_FREE_POW as i8 {
            MAX_FREE_POW
        } else {
            fpow as u8
        };
        Some(Tuning { bucket_count, align_pow, free_pow, options: opts })
    }
}

} // verus!
