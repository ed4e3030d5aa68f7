//! The database handle: the one entry point callers use.
//!
//! A handle is created unconfigured, tuned (only before its first open),
//! opened on a file image, used for `put`/`get`/`remove` and iteration, and
//! closed, which hands back the byte image to persist. The record cache is
//! consulted before the bucket table and refilled on misses; the table is
//! the source of truth, so every result is stated against it alone and is
//! the same at any cache capacity.
//!
//! The handle keeps the last error code of a failing call, mirroring the
//! single-error-slot convention; a missing key on `get`/`remove` is a normal
//! empty result, recorded as `NotFound` but not a failure of the call.
//!
//! Locking (the `ONOLCK`/`OLCKNB` open flags) is advisory and belongs to the
//! process edge that owns the real file; the engine carries the flags but
//! takes no locks itself.

use vstd::prelude::*;

use crate::cache::{clone_bytes, Cache};
use crate::codec::{image_size, parse, region_start, serialize, spec_encode, total_from};
use crate::errors::ErrorCode;
use crate::storage::{chain_keys, keys_from, rec_need, spec_aligned, StorageFile};
use crate::tuning::{spec_options_ok, Tuning};

verus! {

/// Open mode flag: read access.
pub const OREADER: u32 = 1;

/// Open mode flag: write access (implies read).
pub const OWRITER: u32 = 2;

/// Open mode flag: create the file when it does not exist.
pub const OCREAT: u32 = 4;

/// Open mode flag: discard an existing file's contents.
pub const OTRUNC: u32 = 8;

/// Open mode flag: take no file lock (the caller rules the file).
pub const ONOLCK: u32 = 16;

/// Open mode flag: fail instead of blocking on a contended lock.
pub const OLCKNB: u32 = 32;

/// Lifecycle phase of a handle.
#[derive(Clone, Copy, Debug, PartialEq, Eq, Structural)]
pub enum DbState {
    /// Created, never opened.
    Unopened,
    /// Bound to a storage file.
    Opened,
    /// Closed after use; may be opened again.
    Closed,
}

/// A handle to one hash database.
pub struct TCH {
    /// Lifecycle phase.
    pub state: DbState,
    /// Whether this handle was ever opened; tuning is frozen after that.
    pub ever_opened: bool,
    /// Whether the current session has write access.
    pub writer: bool,
    /// Structural parameters used when a file is created.
    pub tuning: Tuning,
    /// The record cache.
    pub cache: Cache,
    /// The storage file of the current session.
    pub storage: StorageFile,
    /// The last error code, for inspection after a failing call.
    pub ecode: Option<ErrorCode>,
    /// Iteration cursor: current bucket.
    pub iter_bucket: usize,
    /// Iteration cursor: position in the current bucket's chain.
    pub iter_pos: usize,
}

impl TCH {
    /// Every cache entry agrees with the storage file: the precondition of
    /// answering `get` from the cache.
    pub open spec fn cache_ok(self) -> bool {
        forall|k: Seq<u8>|
            self.cache.spec_find(k) is Some ==> self.cache.spec_find(k) == self.storage.sget(k)
    }

    /// Handle invariant.
    pub open spec fn wf(self) -> bool {
        &&& self.tuning.wf()
        &&& self.storage.wf()
        &&& self.cache.wf()
        &&& self.state == DbState::Opened ==> self.cache_ok()
    }

    /// The value the database holds for `k`: the handle's mathematical view.
    pub open spec fn spec_get(self, k: Seq<u8>) -> Option<Seq<u8>> {
        self.storage.sget(k)
    }

    /// A fresh handle: unconfigured, closed, with the default tuning and the
    /// cache disabled. No file is touched.
    pub fn create() -> (d: TCH)
        ensures
            d.wf(),
            d.state == DbState::Unopened,
            !d.ever_opened,
            d.tuning == Tuning::spec_default(),
            d.cache.spec_capacity() == 0,
            d.ecode is None,
    {
        proof {
            assert(0u8 & 0xf0u8 == 0u8) by (bit_vector);
            assert(0u8 & 14u8 == 0u8) by (bit_vector);
        }
        let placeholder = Tuning { bucket_count: 1, align_pow: 0, free_pow: 0, options: 0 };
        TCH {
            state: DbState::Unopened,
            ever_opened: false,
            writer: false,
            tuning: Tuning::new_default(),
            cache: Cache::new(0),
            storage: StorageFile::new(&placeholder),
            ecode: None,
            iter_bucket: 0,
            iter_pos: 0,
        }
    }

    /// The last error code, if any call has failed.
    pub fn last_error(&self) -> (r: Option<ErrorCode>)
        ensures
            r == self.ecode,
    {
        self.ecode
    }

    /// The number of live records of the current session's file.
    pub fn record_total(&self) -> (n: u64)
        ensures
            n == self.storage.record_count,
    {
        self.storage.record_count
    }

    /// Sets the structural parameters used when a file is created. Succeeds
    /// only on a handle that has never been opened and with a valid option
    /// set; negative hints take defaults, oversized hints are clamped.
    pub fn tune(&mut self, bnum: i64, apow: i8, fpow: i8, opts: u8) -> (r: bool)
        requires
            old(self).wf(),
        ensures
            final(self).wf(),
            r == (old(self).state == DbState::Unopened && !old(self).ever_opened
                && spec_options_ok(opts)),
            r ==> final(self).tuning == Tuning::spec_normalized(bnum, apow, fpow, opts) && final(self).ecode == old(self).ecode,
            !r ==> final(self).tuning == old(self).tuning && final(self).ecode == Some(
                ErrorCode::InvalidState,
            ),
            final(self).state == old(self).state,
            final(self).storage == old(self).storage,
            final(self).cache == old(self).cache,
            final(self).ever_opened == old(self).ever_opened,
            final(self).writer == old(self).writer,
    {
        if !(matches!(self.state, DbState::Unopened) && !self.ever_opened) {
            self.ecode = Some(ErrorCode::InvalidState);
            return false;
        }
        match Tuning::normalize(bnum, apow, fpow, opts) {
            Some(t) => {
                self.tuning = t;
                true
            },
            None => {
                self.ecode = Some(ErrorCode::InvalidState);
                false
            },
        }
    }

    /// Rebounds the record cache; takes effect immediately, evicting down to
    /// the new limit. Valid in every state.
    pub fn set_cache_capacity(&mut self, n: usize) -> (r: bool)
        requires
            old(self).wf(),
        ensures
            final(self).wf(),
            r == true,
            final(self).cache.spec_capacity() == n,
            final(self).state == old(self).state,
            final(self).storage == old(self).storage,
            final(self).tuning == old(self).tuning,
            final(self).ecode == old(self).ecode,
            final(self).ever_opened == old(self).ever_opened,
            final(self).writer == old(self).writer,
            forall|k: Seq<u8>| final(self).spec_get(k) == old(self).spec_get(k),
    {
        self.cache.set_capacity(n);
        true
    }

    /// Opens a storage file. `contents` is what the file currently holds on
    /// disk, `None` when it does not exist; `mode` combines the `O` flags.
    /// A missing file is created (from the handle's tuning) under
    /// `OWRITER|OCREAT`; an existing one is discarded under `OWRITER|OTRUNC`,
    /// else its image is parsed and its stored layout wins over any tuning.
    pub fn open(&mut self, contents: Option<Vec<u8>>, mode: u32) -> (r: bool)
        requires
            old(self).wf(),
        ensures
            final(self).wf(),
            final(self).tuning == old(self).tuning,
            r ==> final(self).state == DbState::Opened && final(self).ever_opened && final(self).writer == (mode & OWRITER != 0) && final(self).iter_bucket == 0 && (forall|
                k: Seq<u8>,
            |
                final(self).cache.spec_find(k) == None::<Seq<u8>>),
            !r ==> final(self).state == old(self).state && final(self).storage == old(self).storage
                && final(self).ecode is Some,
            old(self).state == DbState::Opened ==> !r && final(self).ecode == Some(
                ErrorCode::InvalidState,
            ),
            old(self).state != DbState::Opened && mode & OREADER == 0 && mode & OWRITER == 0 ==> !r
                && final(self).ecode == Some(ErrorCode::InvalidState),
            old(self).state != DbState::Opened && (mode & OREADER != 0 || mode & OWRITER != 0)
                && contents is None ==> (r == (mode & OWRITER != 0 && mode & OCREAT != 0)) && (!r
                ==> final(self).ecode == Some(ErrorCode::NotFound)),
            r && (contents is None || (mode & OWRITER != 0 && mode & OTRUNC != 0)) ==> final(self).storage.record_count == 0 && (forall|k: Seq<u8>|
                final(self).spec_get(k) == None::<Seq<u8>>) && final(self).storage.bucket_count
                == old(self).tuning.bucket_count && final(self).storage.align_pow == old(self).tuning.align_pow && final(self).storage.free_pow == old(self).tuning.free_pow
                && final(self).storage.options == old(self).tuning.options && final(self).storage.file_size == 44 + 8 * old(self).tuning.bucket_count,
            old(self).state != DbState::Opened && mode & OWRITER != 0 && mode & OTRUNC != 0
                && contents is Some ==> r,
            old(self).state != DbState::Opened && (mode & OREADER != 0 || mode & OWRITER != 0)
                && contents is Some && !(mode & OWRITER != 0 && mode & OTRUNC != 0) && (exists|
                w: StorageFile,
            |
                w.wf() && contents->0@ == spec_encode(w)) ==> r,
            forall|w: StorageFile| #![trigger spec_encode(w)]
                old(self).state != DbState::Opened && (mode & OREADER != 0 || mode & OWRITER != 0)
                    && contents is Some && !(mode & OWRITER != 0 && mode & OTRUNC != 0) && w.wf()
                    && contents->0@ == spec_encode(w) && r ==> (forall|k: Seq<u8>|
                    final(self).spec_get(k) == w.sget(k)),
            r && contents is Some && !(mode & OWRITER != 0 && mode & OTRUNC != 0) ==> contents->0@
                == spec_encode(final(self).storage),
            contents is Some && !(mode & OWRITER != 0 && mode & OTRUNC != 0) && !r && old(self).state != DbState::Opened && (mode & OREADER != 0 || mode & OWRITER != 0) ==> final(self).ecode == Some(ErrorCode::CorruptFile),
    {
        if matches!(self.state, DbState::Opened) {
            self.ecode = Some(ErrorCode::InvalidState);
            return false;
        }
        let wants_reader = mode & OREADER != 0;
        let wants_writer = mode & OWRITER != 0;
        if !wants_reader && !wants_writer {
            self.ecode = Some(ErrorCode::InvalidState);
            return false;
        }
        let fresh = match &contents {
            None => {
                if !(wants_writer && mode & OCREAT != 0) {
                    self.ecode = Some(ErrorCode::NotFound);
                    return false;
                }
                true
            },
            Some(_) => wants_writer && mode & OTRUNC != 0,
        };
        if fresh {
            self.storage = StorageFile::new(&self.tuning);
        } else {
            match &contents {
                Some(bytes) => {
                    match parse(bytes) {
                        Ok(st) => {
                            self.storage = st;
                        },
                        Err(e) => {
                            self.ecode = Some(e);
                            return false;
                        },
                    }
                },
                None => {
                    // unreachable: a missing file is always created fresh
                    self.ecode = Some(ErrorCode::NotFound);
                    return false;
                },
            }
        }
        self.state = DbState::Opened;
        self.ever_opened = true;
        self.writer = wants_writer;
        self.cache.clear();
        self.iter_bucket = 0;
        self.iter_pos = 0;
        true
    }

    /// Inserts or overwrites a record and refreshes the cache. Requires an
    /// open, writable session; fails only when the file cannot grow.
    pub fn put(&mut self, key: &Vec<u8>, value: &Vec<u8>) -> (r: bool)
        requires
            old(self).wf(),
            key@.len() > 0,
            key@.len() <= u32::MAX,
            value@.len() <= u32::MAX,
        ensures
            final(self).wf(),
            final(self).state == old(self).state,
            final(self).writer == old(self).writer,
            final(self).tuning == old(self).tuning,
            old(self).state != DbState::Opened ==> !r && *final(self) == (TCH {
                ecode: Some(ErrorCode::InvalidState),
                ..*old(self)
            }),
            old(self).state == DbState::Opened && !old(self).writer ==> !r && *final(self) == (TCH {
                ecode: Some(ErrorCode::ReadOnly),
                ..*old(self)
            }),
            old(self).state == DbState::Opened && old(self).writer ==> r == old(self).storage.spec_put_ok(key@, value@),
            old(self).state == DbState::Opened && old(self).writer ==> final(self).storage.file_size
                <= old(self).storage.file_size + spec_aligned(
                rec_need(key@.len() as int, value@.len() as int),
                old(self).storage.align_pow,
            ),
            old(self).state == DbState::Opened && old(self).writer && r ==> final(self).ecode
                == old(self).ecode,
            old(self).state == DbState::Opened && old(self).writer && r ==> final(self).spec_get(
                key@,
            ) == Some(value@) && (forall|k: Seq<u8>|
                k != key@ ==> final(self).spec_get(k) == old(self).spec_get(k)) && final(self).storage.record_count == old(self).storage.record_count + (if old(self).spec_get(
                key@,
            ) is Some {
                0int
            } else {
                1int
            }),
            old(self).state == DbState::Opened && old(self).writer && !r ==> final(self).storage
                == old(self).storage && final(self).ecode == Some(ErrorCode::OutOfSpace),
    {
        if !matches!(self.state, DbState::Opened) {
            self.ecode = Some(ErrorCode::InvalidState);
            return false;
        }
        if !self.writer {
            self.ecode = Some(ErrorCode::ReadOnly);
            return false;
        }
        match self.storage.put_record(key, value) {
            Ok(()) => {
                self.cache.insert(key, value);
                proof {
                    assert forall|k: Seq<u8>|
                        self.cache.spec_find(k) is Some implies self.cache.spec_find(k)
                        == self.storage.sget(k) by {}
                }
                true
            },
            Err(e) => {
                self.ecode = Some(e);
                false
            },
        }
    }

    /// Looks a key up: the cache first, the bucket table on a miss (then
    /// refilling the cache). A missing key is a normal `None`, not an error.
    pub fn get(&mut self, key: &Vec<u8>) -> (r: Option<Vec<u8>>)
        requires
            old(self).wf(),
            key@.len() > 0,
        ensures
            final(self).wf(),
            final(self).state == old(self).state,
            final(self).writer == old(self).writer,
            final(self).tuning == old(self).tuning,
            final(self).storage == old(self).storage,
            final(self).iter_bucket == old(self).iter_bucket,
            final(self).iter_pos == old(self).iter_pos,
            old(self).state != DbState::Opened ==> r is None && final(self).ecode == Some(
                ErrorCode::InvalidState,
            ),
            old(self).state == DbState::Opened ==> final(self).ecode == old(self).ecode && (
            r is Some <==> old(self).spec_get(key@) is Some) && (r is Some ==> Some(r->0@) == old(self).spec_get(key@)),
    {
        if !matches!(self.state, DbState::Opened) {
            self.ecode = Some(ErrorCode::InvalidState);
            return None;
        }
        match self.cache.lookup(key) {
            Some(v) => Some(v),
            None => {
                match self.storage.lookup_value(key) {
                    Some(v) => {
                        self.cache.insert(key, &v);
                        proof {
                            assert forall|k: Seq<u8>|
                                self.cache.spec_find(k) is Some implies self.cache.spec_find(k)
                                == self.storage.sget(k) by {}
                        }
                        Some(v)
                    },
                    None => None,
                }
            },
        }
    }

    /// Removes a record, reclaiming its space and evicting its cache entry.
    /// A missing key reports `false` (recorded as `NotFound`, not a failure).
    pub fn remove(&mut self, key: &Vec<u8>) -> (r: bool)
        requires
            old(self).wf(),
            key@.len() > 0,
        ensures
            final(self).wf(),
            final(self).state == old(self).state,
            final(self).writer == old(self).writer,
            final(self).tuning == old(self).tuning,
            old(self).state != DbState::Opened ==> !r && *final(self) == (TCH {
                ecode: Some(ErrorCode::InvalidState),
                ..*old(self)
            }),
            old(self).state == DbState::Opened && !old(self).writer ==> !r && *final(self) == (TCH {
                ecode: Some(ErrorCode::ReadOnly),
                ..*old(self)
            }),
            old(self).state == DbState::Opened && old(self).writer ==> r == (old(self).spec_get(
                key@,
            ) is Some) && final(self).spec_get(key@) == None::<Seq<u8>> && (forall|k: Seq<u8>|
                k != key@ ==> final(self).spec_get(k) == old(self).spec_get(k)) && final(self).storage.record_count == old(self).storage.record_count - (if r {
                1int
            } else {
                0int
            }) && (!r ==> final(self).ecode == Some(ErrorCode::NotFound)),
    {
        if !matches!(self.state, DbState::Opened) {
            self.ecode = Some(ErrorCode::InvalidState);
            return false;
        }
        if !self.writer {
            self.ecode = Some(ErrorCode::ReadOnly);
            return false;
        }
        let hit = self.storage.remove_record(key);
        self.cache.invalidate(key);
        proof {
            assert forall|k: Seq<u8>|
                self.cache.spec_find(k) is Some implies self.cache.spec_find(k)
                == self.storage.sget(k) by {}
        }
        if !hit {
            self.ecode = Some(ErrorCode::NotFound);
        }
        hit
    }

    /// Resets the iteration cursor to the front of the table.
    pub fn iter_init(&mut self) -> (r: bool)
        requires
            old(self).wf(),
        ensures
            final(self).wf(),
            r == (old(self).state == DbState::Opened),
            *final(self) == (TCH {
                iter_bucket: 0,
                iter_pos: 0,
                ecode: final(self).ecode,
                ..*old(self)
            }),
            r ==> final(self).ecode == old(self).ecode && final(self).storage.spec_remaining(0, 0)
                == final(self).storage.all_keys(),
            !r ==> final(self).ecode == Some(ErrorCode::InvalidState),
    {
        self.iter_bucket = 0;
        self.iter_pos = 0;
        if matches!(self.state, DbState::Opened) {
            proof {
                if self.storage.buckets@.len() > 0 {
                    assert(self.storage.spec_remaining(0, 0) =~= self.storage.all_keys());
                }
            }
            true
        } else {
            self.ecode = Some(ErrorCode::InvalidState);
            false
        }
    }

    /// Yields the next key in bucket order, then chain order, or `None` at
    /// the end of the table. Pair it with `get` for the values.
    #[verifier::loop_isolation(false)]
    pub fn iter_next(&mut self) -> (r: Option<Vec<u8>>)
        requires
            old(self).wf(),
        ensures
            final(self).wf(),
            final(self).state == old(self).state,
            final(self).storage == old(self).storage,
            final(self).cache == old(self).cache,
            final(self).writer == old(self).writer,
            final(self).tuning == old(self).tuning,
            old(self).state != DbState::Opened ==> r is None && final(self).ecode == Some(
                ErrorCode::InvalidState,
            ),
            old(self).state == DbState::Opened ==> final(self).ecode == old(self).ecode && {
                let rem = old(self).storage.spec_remaining(
                    old(self).iter_bucket as int,
                    old(self).iter_pos as int,
                );
                &&& (rem.len() > 0 ==> r is Some && r->0@ == rem[0] && final(self).storage.spec_remaining(
                    final(self).iter_bucket as int,
                    final(self).iter_pos as int,
                ) == rem.skip(1))
                &&& (rem.len() == 0 ==> r is None)
            },
    {
        if !matches!(self.state, DbState::Opened) {
            self.ecode = Some(ErrorCode::InvalidState);
            return None;
        }
        let nb = self.storage.buckets.len();
        while self.iter_bucket < nb && self.iter_pos >= self.storage.buckets[self.iter_bucket].len()
            invariant
                nb == self.storage.buckets@.len(),
                *self == (TCH {
                    iter_bucket: self.iter_bucket,
                    iter_pos: self.iter_pos,
                    ..*old(self)
                }),
                self.storage.spec_remaining(self.iter_bucket as int, self.iter_pos as int) == old(self).storage.spec_remaining(old(self).iter_bucket as int, old(self).iter_pos as int),
            decreases nb - self.iter_bucket,
        {
            proof {
                let b = self.iter_bucket as int;
                let ck = chain_keys(self.storage.buckets@[b]@);
                assert(ck.skip(ck.len() as int) =~= Seq::<Seq<u8>>::empty());
                assert(self.storage.spec_remaining(b, self.iter_pos as int) =~= keys_from(
                    self.storage.buckets@,
                    b + 1,
                ));
                if b + 1 < nb {
                    let ck2 = chain_keys(self.storage.buckets@[b + 1]@);
                    assert(ck2.skip(0) =~= ck2);
                    assert(self.storage.spec_remaining(b + 1, 0) =~= keys_from(
                        self.storage.buckets@,
                        b + 1,
                    ));
                } else {
                    assert(self.storage.spec_remaining(b + 1, 0) =~= keys_from(
                        self.storage.buckets@,
                        b + 1,
                    ));
                }
            }
            self.iter_bucket = self.iter_bucket + 1;
            self.iter_pos = 0;
        }
        if self.iter_bucket >= nb {
            return None;
        }
        let ghost b = self.iter_bucket as int;
        let ghost pos = self.iter_pos as int;
        let key = clone_bytes(&self.storage.buckets[self.iter_bucket][self.iter_pos].key);
        self.iter_pos = self.iter_pos + 1;
        proof {
            let ck = chain_keys(self.storage.buckets@[b]@);
            let rest = keys_from(self.storage.buckets@, b + 1);
            assert(key@ == ck[pos]);
            assert((ck.skip(pos) + rest)[0] == ck[pos]);
            assert(ck.skip(pos + 1) + rest =~= (ck.skip(pos) + rest).skip(1));
        }
        Some(key)
    }

    /// Closes the session: hands back the byte image to be written to disk
    /// and freezes the handle until the next `open`. Closing a handle that
    /// is not open is a no-op that reports `InvalidState`. Fails (staying
    /// open, with `IoError`) only when the image would not fit the address
    /// space.
    pub fn close(&mut self) -> (r: Option<Vec<u8>>)
        requires
            old(self).wf(),
        ensures
            final(self).wf(),
            final(self).tuning == old(self).tuning,
            final(self).storage == old(self).storage,
            old(self).state != DbState::Opened ==> r is None && final(self).state == old(self).state && final(self).ecode == Some(ErrorCode::InvalidState),
            old(self).state == DbState::Opened ==> {
                &&& (r is Some <==> region_start(old(self).storage) + total_from(
                    old(self).storage.buckets@,
                    0,
                ) <= usize::MAX)
                &&& (r is Some ==> r->0@ == spec_encode(old(self).storage) && final(self).state
                    == DbState::Closed)
                &&& (r is None ==> final(self).state == DbState::Opened && final(self).ecode
                    == Some(ErrorCode::IoError))
            },
    {
        if !matches!(self.state, DbState::Opened) {
            self.ecode = Some(ErrorCode::InvalidState);
            return None;
        }
        match image_size(&self.storage) {
            Some(t) => {
                if t <= usize::MAX as u64 {
                    let img = serialize(&self.storage);
                    self.state = DbState::Closed;
                    self.cache.clear();
                    Some(img)
                } else {
                    self.ecode = Some(ErrorCode::IoError);
                    None
                }
            },
            None => {
                self.ecode = Some(ErrorCode::IoError);
                None
            },
        }
    }
}

} // verus!
