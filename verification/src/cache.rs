//! The record cache: a bounded in-memory key/value store in front of the
//! storage file.
//!
//! Entries are kept in least-recently-used order (front oldest, back newest);
//! when the capacity is exceeded the front entry is evicted. The cache is an
//! accelerator only: it may drop entries at any time, so its contract promises
//! that whatever it still holds agrees with what was put in, never that an
//! entry is retained.

use vstd::prelude::*;

verus! {

/// Where `k` is bound in `entries` scanned front to back.
pub open spec fn entries_find(s: Seq<(Vec<u8>, Vec<u8>)>, k: Seq<u8>) -> Option<Seq<u8>>
    decreases s.len(),
{
    if s.len() == 0 {
        None
    } else if s[0].0@ == k {
        Some(s[0].1@)
    } else {
        entries_find(s.skip(1), k)
    }
}

/// No two entries share a key.
pub open spec fn entries_distinct(s: Seq<(Vec<u8>, Vec<u8>)>) -> bool {
    forall|i: int, j: int| 0 <= i < j < s.len() ==> s[i].0@ != s[j].0@
}

/// `entries_find` returns the entry at `i` when no earlier entry matches.
proof fn lemma_find_at(s: Seq<(Vec<u8>, Vec<u8>)>, k: Seq<u8>, i: int)
    requires
        0 <= i < s.len(),
        s[i].0@ == k,
        forall|j: int| 0 <= j < i ==> s[j].0@ != k,
    ensures
        entries_find(s, k) == Some(s[i].1@),
    decreases i,
{
    if i > 0 {
        assert(forall|j: int| 0 <= j < i - 1 ==> s.skip(1)[j] == s[j + 1]);
        lemma_find_at(s.skip(1), k, i - 1);
    }
}

/// `entries_find` returns `None` when no entry matches.
proof fn lemma_find_none(s: Seq<(Vec<u8>, Vec<u8>)>, k: Seq<u8>)
    requires
        forall|j: int| 0 <= j < s.len() ==> s[j].0@ != k,
    ensures
        entries_find(s, k) == None::<Seq<u8>>,
    decreases s.len(),
{
    if s.len() > 0 {
        assert(forall|j: int| 0 <= j < s.len() - 1 ==> s.skip(1)[j] == s[j + 1]);
        lemma_find_none(s.skip(1), k);
    }
}

/// Lookups in a sequence agree with lookups in the same entries with one
/// moved to the back.
proof fn lemma_move_to_back(s: Seq<(Vec<u8>, Vec<u8>)>, i: int)
    requires
        0 <= i < s.len(),
        entries_distinct(s),
    ensures
        entries_distinct(s.remove(i).push(s[i])),
        forall|k: Seq<u8>| entries_find(s.remove(i).push(s[i]), k) == entries_find(s, k),
{
    let t = s.remove(i).push(s[i]);
    assert(forall|a: int| 0 <= a < i ==> t[a] == s[a]);
    assert(forall|a: int| i <= a < s.len() - 1 ==> t[a] == s[a + 1]);
    assert(t[s.len() - 1] == s[i]);
    assert(entries_distinct(t)) by {
        assert forall|a: int, b: int| 0 <= a < b < t.len() implies t[a].0@ != t[b].0@ by {
            let sa = if a < i { a } else if a == t.len() - 1 { i } else { a + 1 };
            let sb = if b < i { b } else if b == t.len() - 1 { i } else { b + 1 };
            assert(t[a] == s[sa]);
            assert(t[b] == s[sb]);
            assert(sa != sb);
        }
    }
    assert forall|k: Seq<u8>| entries_find(t, k) == entries_find(s, k) by {
        if exists|j: int| 0 <= j < s.len() && s[j].0@ == k {
            let j = choose|j: int| 0 <= j < s.len() && s[j].0@ == k;
            assert(forall|j2: int| 0 <= j2 < j ==> s[j2].0@ != k);
            lemma_find_at(s, k, j);
            let jt = if j < i { j } else if j == i { t.len() - 1 } else { j - 1 };
            assert(t[jt] == s[j]);
            assert forall|a: int| 0 <= a < jt implies t[a].0@ != k by {
                let sa = if a < i { a } else if a == t.len() - 1 { i } else { a + 1 };
                assert(t[a] == s[sa]);
                assert(sa != j);
            }
            lemma_find_at(t, k, jt);
        } else {
            lemma_find_none(s, k);
            assert forall|a: int| 0 <= a < t.len() implies t[a].0@ != k by {
                let sa = if a < i { a } else if a == t.len() - 1 { i } else { a + 1 };
                assert(t[a] == s[sa]);
            }
            lemma_find_none(t, k);
        }
    }
}

/// Removing the entry at `i` unbinds its key and leaves every other key's
/// binding unchanged.
proof fn lemma_remove_entry(s: Seq<(Vec<u8>, Vec<u8>)>, i: int)
    requires
        0 <= i < s.len(),
        entries_distinct(s),
    ensures
        entries_distinct(s.remove(i)),
        entries_find(s.remove(i), s[i].0@) == None::<Seq<u8>>,
        forall|k: Seq<u8>|
            k != s[i].0@ ==> entries_find(s.remove(i), k) == entries_find(s, k),
{
    let t = s.remove(i);
    assert(forall|a: int| 0 <= a < i ==> t[a] == s[a]);
    assert(forall|a: int| i <= a < s.len() - 1 ==> t[a] == s[a + 1]);
    assert(entries_distinct(t)) by {
        assert forall|a: int, b: int| 0 <= a < b < t.len() implies t[a].0@ != t[b].0@ by {
            let sa = if a < i { a } else { a + 1 };
            let sb = if b < i { b } else { b + 1 };
            assert(t[a] == s[sa] && t[b] == s[sb] && sa != sb);
        }
    }
    assert(entries_find(t, s[i].0@) == None::<Seq<u8>>) by {
        assert forall|a: int| 0 <= a < t.len() implies t[a].0@ != s[i].0@ by {
            let sa = if a < i { a } else { a + 1 };
            assert(t[a] == s[sa] && sa != i);
        }
        lemma_find_none(t, s[i].0@);
    }
    assert forall|k: Seq<u8>| k != s[i].0@ implies entries_find(t, k) == entries_find(s, k) by {
        if exists|j: int| 0 <= j < s.len() && s[j].0@ == k {
            let j = choose|j: int| 0 <= j < s.len() && s[j].0@ == k;
            assert(forall|j2: int| 0 <= j2 < j ==> s[j2].0@ != k);
            lemma_find_at(s, k, j);
            let jt = if j < i { j } else { j - 1 };
            assert(t[jt] == s[j]);
            assert forall|a: int| 0 <= a < jt implies t[a].0@ != k by {
                let sa = if a < i { a } else { a + 1 };
                assert(t[a] == s[sa] && sa != j);
            }
            lemma_find_at(t, k, jt);
        } else {
            lemma_find_none(s, k);
            assert forall|a: int| 0 <= a < t.len() implies t[a].0@ != k by {
                let sa = if a < i { a } else { a + 1 };
                assert(t[a] == s[sa]);
            }
            lemma_find_none(t, k);
        }
    }
}

/// Appending an entry with a fresh key binds that key and keeps the rest.
proof fn lemma_push_fresh(s: Seq<(Vec<u8>, Vec<u8>)>, p: (Vec<u8>, Vec<u8>))
    requires
        entries_distinct(s),
        forall|j: int| 0 <= j < s.len() ==> s[j].0@ != p.0@,
    ensures
        entries_distinct(s.push(p)),
        entries_find(s.push(p), p.0@) == Some(p.1@),
        forall|k: Seq<u8>| k != p.0@ ==> entries_find(s.push(p), k) == entries_find(s, k),
{
    let t = s.push(p);
    assert(forall|a: int| 0 <= a < s.len() ==> t[a] == s[a]);
    assert(t[s.len() as int] == p);
    lemma_find_at(t, p.0@, s.len() as int);
    assert forall|k: Seq<u8>| k != p.0@ implies entries_find(t, k) == entries_find(s, k) by {
        if exists|j: int| 0 <= j < s.len() && s[j].0@ == k {
            let j = choose|j: int| 0 <= j < s.len() && s[j].0@ == k;
            assert(forall|j2: int| 0 <= j2 < j ==> s[j2].0@ != k);
            lemma_find_at(s, k, j);
            lemma_find_at(t, k, j);
        } else {
            lemma_find_none(s, k);
            lemma_find_none(t, k);
        }
    }
}

/// Evicting the front entry only ever drops a binding, never changes one.
proof fn lemma_evict_front(s: Seq<(Vec<u8>, Vec<u8>)>)
    requires
        s.len() > 0,
        entries_distinct(s),
    ensures
        entries_distinct(s.remove(0)),
        forall|k: Seq<u8>|
            entries_find(s.remove(0), k) is Some ==> entries_find(s.remove(0), k)
                == entries_find(s, k),
{
    lemma_remove_entry(s, 0);
}

/// The bounded least-recently-used record cache.
pub struct Cache {
    /// Entries in recency order: front oldest, back newest.
    pub entries: Vec<(Vec<u8>, Vec<u8>)>,
    /// Maximum number of entries; zero disables the cache.
    pub capacity: usize,
}

impl Cache {
    /// Current bound on the entry count.
    pub open spec fn spec_capacity(self) -> usize {
        self.capacity
    }

    /// What the cache currently binds `k` to, if anything.
    pub open spec fn spec_find(self, k: Seq<u8>) -> Option<Seq<u8>> {
        entries_find(self.entries@, k)
    }

    /// Keys are distinct and the bound is respected.
    pub open spec fn wf(self) -> bool {
        &&& entries_distinct(self.entries@)
        &&& self.entries@.len() <= self.capacity
    }

    /// An empty cache with the given capacity.
    pub fn new(capacity: usize) -> (c: Cache)
        ensures
            c.wf(),
            c.spec_capacity() == capacity,
            forall|k: Seq<u8>| c.spec_find(k) == None::<Seq<u8>>,
    {
        Cache { entries: Vec::new(), capacity }
    }

    /// Drops every entry; the capacity stays.
    pub fn clear(&mut self)
        ensures
            final(self).wf(),
            final(self).spec_capacity() == old(self).spec_capacity(),
            forall|k: Seq<u8>| final(self).spec_find(k) == None::<Seq<u8>>,
    {
        self.entries = Vec::new();
    }

    /// Rebounds the cache, evicting oldest-first down to the new capacity.
    /// A binding that survives is unchanged.
    #[verifier::loop_isolation(false)]
    pub fn set_capacity(&mut self, n: usize)
        requires
            old(self).wf(),
        ensures
            final(self).wf(),
            final(self).spec_capacity() == n,
            forall|k: Seq<u8>|
                final(self).spec_find(k) is Some ==> final(self).spec_find(k) == old(
                    self,
                ).spec_find(k),
    {
        self.capacity = n;
        while self.entries.len() > n
            invariant
                entries_distinct(self.entries@),
                self.capacity == n,
                forall|k: Seq<u8>|
                    entries_find(self.entries@, k) is Some ==> entries_find(self.entries@, k)
                        == old(self).spec_find(k),
            decreases self.entries@.len(),
        {
            proof {
                lemma_evict_front(self.entries@);
            }
            self.entries.remove(0);
        }
    }

    /// Looks `key` up and, on a hit, marks it most recently used. No binding
    /// changes either way.
    #[verifier::loop_isolation(false)]
    pub fn lookup(&mut self, key: &Vec<u8>) -> (r: Option<Vec<u8>>)
        requires
            old(self).wf(),
        ensures
            final(self).wf(),
            final(self).spec_capacity() == old(self).spec_capacity(),
            forall|k: Seq<u8>| final(self).spec_find(k) == old(self).spec_find(k),
            r is Some <==> old(self).spec_find(key@) is Some,
            r is Some ==> Some(r->0@) == old(self).spec_find(key@),
    {
        let mut i: usize = 0;
        while i < self.entries.len()
            invariant
                0 <= i <= self.entries@.len(),
                forall|j: int| 0 <= j < i ==> self.entries@[j].0@ != key@,
                *self == *old(self),
            decreases self.entries@.len() - i,
        {
            if bytes_eq(&self.entries[i].0, key) {
                proof {
                    lemma_find_at(self.entries@, key@, i as int);
                    lemma_move_to_back(self.entries@, i as int);
                }
                let entry = self.entries.remove(i);
                let value = clone_bytes(&entry.1);
                self.entries.push(entry);
                return Some(value);
            }
            i = i + 1;
        }
        proof {
            lemma_find_none(self.entries@, key@);
        }
        None
    }

    /// Binds `key` to `value` (overwriting any old binding) and evicts
    /// oldest-first if the capacity is exceeded. Any binding still present
    /// afterwards is either the new one or an unchanged old one.
    #[verifier::loop_isolation(false)]
    pub fn insert(&mut self, key: &Vec<u8>, value: &Vec<u8>)
        requires
            old(self).wf(),
        ensures
            final(self).wf(),
            final(self).spec_capacity() == old(self).spec_capacity(),
            forall|k: Seq<u8>|
                final(self).spec_find(k) is Some ==> final(self).spec_find(k) == (if k == key@ {
                    Some(value@)
                } else {
                    old(self).spec_find(k)
                }),
    {
        self.remove_entry(key);
        if self.capacity == 0 {
            return ;
        }
        let kc = clone_bytes(key);
        let vc = clone_bytes(value);
        proof {
            lemma_push_fresh(self.entries@, (kc, vc));
        }
        self.entries.push((kc, vc));
        while self.entries.len() > self.capacity
            invariant
                entries_distinct(self.entries@),
                self.capacity == old(self).capacity,
                forall|k: Seq<u8>|
                    entries_find(self.entries@, k) is Some ==> entries_find(self.entries@, k)
                        == (if k == key@ {
                            Some(value@)
                        } else {
                            old(self).spec_find(k)
                        }),
            decreases self.entries@.len(),
        {
            let ghost prev = self.entries@;
            proof {
                lemma_evict_front(prev);
            }
            self.entries.remove(0);
            proof {
                assert forall|k: Seq<u8>| entries_find(self.entries@, k) is Some implies
                    entries_find(self.entries@, k) == (if k == key@ {
                        Some(value@)
                    } else {
                        old(self).spec_find(k)
                    }) by {
                    assert(entries_find(prev.remove(0), k) is Some);
                    assert(entries_find(prev, k) is Some);
                }
            }
        }
    }

    /// Unbinds `key`; every other binding is unchanged.
    pub fn invalidate(&mut self, key: &Vec<u8>)
        requires
            old(self).wf(),
        ensures
            final(self).wf(),
            final(self).spec_capacity() == old(self).spec_capacity(),
            final(self).spec_find(key@) == None::<Seq<u8>>,
            forall|k: Seq<u8>|
                k != key@ ==> final(self).spec_find(k) == old(self).spec_find(k),
    {
        self.remove_entry(key);
    }

    /// Removes the entry bound to `key` if one exists.
    #[verifier::loop_isolation(false)]
    fn remove_entry(&mut self, key: &Vec<u8>)
        requires
            old(self).wf(),
        ensures
            final(self).wf(),
            final(self).spec_capacity() == old(self).spec_capacity(),
            final(self).entries@.len() <= old(self).entries@.len(),
            final(self).spec_find(key@) == None::<Seq<u8>>,
            forall|k: Seq<u8>|
                k != key@ ==> final(self).spec_find(k) == old(self).spec_find(k),
            forall|j: int|
                0 <= j < final(self).entries@.len() ==> final(self).entries@[j].0@ != key@,
    {
        let mut i: usize = 0;
        while i < self.entries.len()
            invariant
                0 <= i <= self.entries@.len(),
                forall|j: int| 0 <= j < i ==> self.entries@[j].0@ != key@,
                *self == *old(self),
            decreases self.entries@.len() - i,
        {
            if bytes_eq(&self.entries[i].0, key) {
                proof {
                    lemma_find_at(self.entries@, key@, i as int);
                    lemma_remove_entry(self.entries@, i as int);
                }
                self.entries.remove(i);
                proof {
                    assert forall|j: int|
                        0 <= j < self.entries@.len() implies self.entries@[j].0@ != key@ by {
                        let sa = if j < i { j } else { j + 1 };
                        assert(self.entries@[j] == old(self).entries@[sa]);
                    }
                }
                return ;
            }
            i = i + 1;
        }
        proof {
            lemma_find_none(self.entries@, key@);
        }
    }
}

/// A fresh byte vector with the same contents.
pub fn clone_bytes(v: &Vec<u8>) -> (r: Vec<u8>)
    ensures
        r@ == v@,
{
    let mut r: Vec<u8> = Vec::new();
    let mut i: usize = 0;
    while i < v.len()
        invariant
            0 <= i <= v@.len(),
            r@ =~= v@.take(i as int),
        decreases v@.len() - i,
    {
        r.push(v[i]);
        i = i + 1;
    }
    proof {
        assert(v@.take(v@.len() as int) =~= v@);
    }
    r
}

/// Byte-for-byte equality of two byte vectors.
pub fn bytes_eq(a: &Vec<u8>, b: &Vec<u8>) -> (r: bool)
    ensures
        r == (a@ == b@),
{
    if a.len() != b.len() {
        proof {
            assert(a@.len() != b@.len());
        }
        return false;
    }
    let mut i: usize = 0;
    while i < a.len()
        invariant
            0 <= i <= a@.len(),
            a@.len() == b@.len(),
            forall|j: int| 0 <= j < i ==> a@[j] == b@[j],
        decreases a@.len() - i,
    {
        if a[i] != b[i] {
            return false;
        }
        i = i + 1;
    }
    proof {
        assert(a@ =~= b@);
    }
    true
}

} // verus!
