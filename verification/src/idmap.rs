//! Ordered association of neighbor-intersection ids to lane-node ids.
//!
//! Kept as a vector of pairs in insertion order, so every walk over the table
//! is deterministic: the traffic-light assignment depends on this order.

use vstd::prelude::*;

verus! {

/// Keys of the entry list are pairwise distinct.
pub open spec fn map_keys_distinct(s: Seq<(usize, usize)>) -> bool {
    forall|i: int, j: int|
        0 <= i < j < s.len() ==> (#[trigger] s[i]).0 != (#[trigger] s[j]).0
}

/// Some entry of the list carries key `k`.
pub open spec fn map_has_key(s: Seq<(usize, usize)>, k: usize) -> bool {
    exists|i: int| 0 <= i < s.len() && (#[trigger] s[i]).0 == k
}

/// Position of the entry carrying key `k`.
pub open spec fn map_key_at(s: Seq<(usize, usize)>, k: usize) -> int {
    choose|i: int| 0 <= i < s.len() && (#[trigger] s[i]).0 == k
}

/// The value the list stores under key `k`.
pub open spec fn map_val(s: Seq<(usize, usize)>, k: usize) -> usize {
    s[map_key_at(s, k)].1
}


/// Removing the entry at `idx` keeps the other keys, their values, and the
/// distinctness of the keys.
pub proof fn lemma_map_remove_keys(s: Seq<(usize, usize)>, idx: int, k: usize)
    requires
        map_keys_distinct(s),
        0 <= idx < s.len(),
    ensures
        map_keys_distinct(s.remove(idx)),
        map_has_key(s.remove(idx), k) == (map_has_key(s, k) && k != s[idx].0),
        map_has_key(s.remove(idx), k) ==> map_val(s.remove(idx), k) == map_val(s, k),
{
    let s2 = s.remove(idx);
    assert forall|i: int, j: int| 0 <= i < j < s2.len() implies (#[trigger] s2[i]).0 != (
    #[trigger] s2[j]).0 by {
        let i0 = if i < idx { i } else { i + 1 };
        let j0 = if j < idx { j } else { j + 1 };
        assert(s2[i] == s[i0] && s2[j] == s[j0]);
        assert(s[i0].0 != s[j0].0);
    }
    if map_has_key(s2, k) {
        let w = map_key_at(s2, k);
        assert(s2[w].0 == k);
        let w0 = if w < idx { w } else { w + 1 };
        assert(s2[w] == s[w0]);
        if k == s[idx].0 {
            if w0 < idx {
                assert(s[w0].0 != s[idx].0);
            } else {
                assert(s[idx].0 != s[w0].0);
            }
        }
        assert(map_has_key(s, k));
        let v0 = map_key_at(s, k);
        assert(s[v0].0 == k);
        if v0 < w0 {
            assert(s[v0].0 != s[w0].0);
        } else if w0 < v0 {
            assert(s[w0].0 != s[v0].0);
        }
        assert(v0 == w0);
        assert(map_val(s2, k) == s2[w].1);
        assert(map_val(s, k) == s[v0].1);
    }
    if map_has_key(s, k) && k != s[idx].0 {
        let w0 = map_key_at(s, k);
        assert(s[w0].0 == k);
        assert(w0 != idx);
        let w = if w0 < idx { w0 } else { w0 - 1 };
        assert(s2[w] == s[w0]);
        assert(map_has_key(s2, k));
    }
}


/// Appending an entry with a fresh key keeps all old keys and values and
/// adds the new one.
pub proof fn lemma_map_push_keys(s: Seq<(usize, usize)>, k: usize, v: usize, k2: usize)
    requires
        map_keys_distinct(s),
        !map_has_key(s, k),
    ensures
        map_keys_distinct(s.push((k, v))),
        map_has_key(s.push((k, v)), k2) == (map_has_key(s, k2) || k2 == k),
        map_has_key(s, k2) ==> map_val(s.push((k, v)), k2) == map_val(s, k2),
{
    let s2 = s.push((k, v));
    let n = s.len() as int;
    assert forall|i: int, j: int| 0 <= i < j < s2.len() implies (#[trigger] s2[i]).0 != (
    #[trigger] s2[j]).0 by {
        if j < n {
            assert(s[i].0 != s[j].0);
        } else {
            assert(s2[j] == (k, v));
            if s2[i].0 == k {
                assert(s[i].0 == k);
            }
        }
    }
    if map_has_key(s, k2) {
        let w = map_key_at(s, k2);
        assert(s[w].0 == k2);
        assert(s2[w].0 == k2);
        assert(map_has_key(s2, k2));
        let w2 = map_key_at(s2, k2);
        assert(s2[w2].0 == k2);
        if w < w2 {
            assert(s2[w].0 != s2[w2].0);
        } else if w2 < w {
            assert(s2[w2].0 != s2[w].0);
        }
        assert(map_val(s2, k2) == s2[w2].1 && map_val(s, k2) == s[w].1);
    }
    if k2 == k {
        assert(s2[n].0 == k);
        assert(map_has_key(s2, k2));
    }
    if map_has_key(s2, k2) && k2 != k {
        let w2 = map_key_at(s2, k2);
        assert(s2[w2].0 == k2);
        assert(w2 != n);
        assert(s[w2].0 == k2);
        assert(map_has_key(s, k2));
    }
}

/// The value just appended is the one the grown table stores under its key.
pub proof fn lemma_map_push_self(s: Seq<(usize, usize)>, k: usize, v: usize)
    requires
        map_keys_distinct(s),
        !map_has_key(s, k),
    ensures
        map_has_key(s.push((k, v)), k),
        map_val(s.push((k, v)), k) == v,
{
    let s2 = s.push((k, v));
    let n = s.len() as int;
    assert(s2[n].0 == k);
    assert(map_has_key(s2, k));
    let w = map_key_at(s2, k);
    assert(s2[w].0 == k);
    if w < n {
        assert(s[w].0 == k);
        assert(map_has_key(s, k));
    }
    assert(w == n);
    assert(map_val(s2, k) == s2[n].1);
}

/// A key/value table with distinct keys and a fixed iteration order.
#[derive(Debug)]
pub struct IdMap {
    entries: Vec<(usize, usize)>,
}

impl IdMap {
    /// The entries, in insertion order.
    pub closed spec fn entries_seq(self) -> Seq<(usize, usize)> {
        self.entries@
    }

    /// Keys are pairwise distinct.
    pub open spec fn wf(self) -> bool {
        map_keys_distinct(self.entries_seq())
    }

    pub open spec fn spec_len(self) -> int {
        self.entries_seq().len() as int
    }

    /// Some entry carries key `k`.
    pub open spec fn has_key(self, k: usize) -> bool {
        map_has_key(self.entries_seq(), k)
    }

    /// Position of the entry carrying key `k`.
    pub open spec fn key_at(self, k: usize) -> int {
        map_key_at(self.entries_seq(), k)
    }

    /// The value stored under key `k`.
    pub open spec fn val_of(self, k: usize) -> usize {
        map_val(self.entries_seq(), k)
    }

    /// In a well-formed table an entry `(k, v)` pins `val_of(k)` down.
    pub proof fn lemma_entry_val(self, i: int, k: usize)
        requires
            self.wf(),
            0 <= i < self.entries_seq().len(),
            self.entries_seq()[i].0 == k,
        ensures
            self.has_key(k),
            self.key_at(k) == i,
            self.val_of(k) == self.entries_seq()[i].1,
    {
        assert(self.has_key(k));
        let j = self.key_at(k);
        assert(self.entries_seq()[j].0 == k);
        if i < j {
            assert(self.entries_seq()[i].0 != self.entries_seq()[j].0);
        } else if j < i {
            assert(self.entries_seq()[j].0 != self.entries_seq()[i].0);
        }
    }

    pub fn new() -> (m: IdMap)
        ensures
            m.entries_seq() == Seq::<(usize, usize)>::empty(),
            m.wf(),
    {
        IdMap { entries: Vec::new() }
    }

    pub fn len(&self) -> (n: usize)
        ensures
            n == self.spec_len(),
    {
        self.entries.len()
    }

    /// The `i`-th entry in insertion order.
    pub fn kth(&self, i: usize) -> (r: (usize, usize))
        requires
            0 <= i < self.spec_len(),
        ensures
            r == self.entries_seq()[i as int],
    {
        self.entries[i]
    }

    /// An exact copy.
    pub fn duplicate(&self) -> (r: IdMap)
        ensures
            r.entries_seq() == self.entries_seq(),
    {
        let mut out: Vec<(usize, usize)> = Vec::new();
        let mut i: usize = 0;
        while i < self.entries.len()
            invariant
                0 <= i <= self.entries@.len(),
                out@ == self.entries@.subrange(0, i as int),
            decreases self.entries@.len() - i,
        {
            out.push(self.entries[i]);
            proof {
                assert(out@ == self.entries@.subrange(0, i + 1 as int));
            }
            i = i + 1;
        }
        proof {
            assert(out@ == self.entries@);
        }
        IdMap { entries: out }
    }

    pub fn contains_key(&self, k: usize) -> (r: bool)
        ensures
            r == self.has_key(k),
    {
        let mut i: usize = 0;
        while i < self.entries.len()
            invariant
                0 <= i <= self.entries@.len(),
                forall|j: int| 0 <= j < i ==> (#[trigger] self.entries@[j]).0 != k,
            decreases self.entries@.len() - i,
        {
            if self.entries[i].0 == k {
                proof {
                    assert(self.entries_seq()[i as int].0 == k);
                }
                return true;
            }
            i = i + 1;
        }
        false
    }

    pub fn get(&self, k: usize) -> (r: Option<usize>)
        requires
            self.wf(),
        ensures
            match r {
                Some(v) => self.has_key(k) && v == self.val_of(k),
                None => !self.has_key(k),
            },
    {
        let mut i: usize = 0;
        while i < self.entries.len()
            invariant
                self.wf(),
                0 <= i <= self.entries@.len(),
                forall|j: int| 0 <= j < i ==> (#[trigger] self.entries@[j]).0 != k,
            decreases self.entries@.len() - i,
        {
            if self.entries[i].0 == k {
                proof {
                    self.lemma_entry_val(i as int, k);
                }
                return Some(self.entries[i].1);
            }
            i = i + 1;
        }
        None
    }

    /// Position of the entry carrying key `k`.
    fn index_of(&self, k: usize) -> (r: usize)
        requires
            self.wf(),
            self.has_key(k),
        ensures
            r == self.key_at(k),
            0 <= r < self.spec_len(),
    {
        let mut i: usize = 0;
        loop
            invariant
                self.wf(),
                self.has_key(k),
                0 <= i <= self.entries@.len(),
                forall|j: int| 0 <= j < i ==> (#[trigger] self.entries@[j]).0 != k,
            decreases self.entries@.len() - i,
        {
            if i >= self.entries.len() {
                proof {
                    let w = self.key_at(k);
                    assert(self.entries_seq()[w].0 == k);
                    assert(false);
                }
                return 0;
            }
            if self.entries[i].0 == k {
                proof {
                    self.lemma_entry_val(i as int, k);
                }
                return i;
            }
            i = i + 1;
        }
    }

    /// Adds an entry for a key not yet present, at the end of the order.
    pub fn insert(&mut self, k: usize, v: usize)
        requires
            old(self).wf(),
            !old(self).has_key(k),
        ensures
            final(self).entries_seq() == old(self).entries_seq().push((k, v)),
            final(self).wf(),
            final(self).has_key(k),
            final(self).val_of(k) == v,
            forall|k2: usize| k2 != k ==> final(self).has_key(k2) == old(self).has_key(k2),
            forall|k2: usize|
                k2 != k && old(self).has_key(k2) ==> final(self).val_of(k2) == old(self).val_of(
                    k2,
                ),
    {
        self.entries.push((k, v));
        proof {
            let s_old = old(self).entries_seq();
            let s_new = self.entries_seq();
            let n = s_old.len() as int;
            assert forall|i: int, j: int| 0 <= i < j < s_new.len() implies (#[trigger] s_new[i]).0
                != (#[trigger] s_new[j]).0 by {
                if j < n {
                    assert(s_old[i].0 != s_old[j].0);
                } else {
                    assert(s_new[j] == (k, v));
                    if s_new[i].0 == k {
                        assert(s_old[i].0 == k);
                        assert(old(self).has_key(k));
                    }
                }
            }
            self.lemma_entry_val(n, k);
            assert forall|k2: usize| k2 != k implies final(self).has_key(k2) == old(self).has_key(k2) by {
                if old(self).has_key(k2) {
                    let w = old(self).key_at(k2);
                    assert(s_new[w].0 == k2);
                }
                if final(self).has_key(k2) {
                    let w = final(self).key_at(k2);
                    assert(s_new[w].0 == k2);
                    assert(w < n);
                    assert(s_old[w].0 == k2);
                }
            }
            assert forall|k2: usize| k2 != k && old(self).has_key(k2) implies final(self).val_of(k2) == old(self).val_of(k2) by {
                let w = old(self).key_at(k2);
                assert(s_old[w].0 == k2);
                assert(s_new[w].0 == k2);
                self.lemma_entry_val(w, k2);
                old(self).lemma_entry_val(w, k2);
            }
        }
    }

    /// Removes the entry carrying key `k`, keeping the order of the rest.
    pub fn remove(&mut self, k: usize)
        requires
            old(self).wf(),
            old(self).has_key(k),
        ensures
            final(self).entries_seq() == old(self).entries_seq().remove(old(self).key_at(k)),
            final(self).wf(),
            !final(self).has_key(k),
            final(self).spec_len() == old(self).spec_len() - 1,
            forall|k2: usize| k2 != k ==> final(self).has_key(k2) == old(self).has_key(k2),
            forall|k2: usize|
                k2 != k && old(self).has_key(k2) ==> final(self).val_of(k2) == old(self).val_of(
                    k2,
                ),
    {
        let i = self.index_of(k);
        self.entries.remove(i);
        proof {
            let s_old = old(self).entries_seq();
            let s_new = self.entries_seq();
            let idx = old(self).key_at(k) as int;
            assert(s_new == s_old.remove(idx));
            assert forall|a: int, b: int| 0 <= a < b < s_new.len() implies (#[trigger] s_new[a]).0
                != (#[trigger] s_new[b]).0 by {
                let a0 = if a < idx { a } else { a + 1 };
                let b0 = if b < idx { b } else { b + 1 };
                assert(s_new[a] == s_old[a0]);
                assert(s_new[b] == s_old[b0]);
                assert(s_old[a0].0 != s_old[b0].0);
            }
            assert forall|k2: usize| final(self).has_key(k2) implies k2 != k && old(self).has_key(k2) by {
                let w = final(self).key_at(k2);
                assert(s_new[w].0 == k2);
                let w0 = if w < idx { w } else { w + 1 };
                assert(s_new[w] == s_old[w0]);
                if k2 == k {
                    old(self).lemma_entry_val(w0, k);
                    assert(w0 == idx);
                    assert(false);
                }
            }
            assert forall|k2: usize| k2 != k && old(self).has_key(k2) implies final(self).has_key(k2) && final(self).val_of(k2) == old(self).val_of(k2) by {
                let w0 = old(self).key_at(k2);
                assert(s_old[w0].0 == k2);
                assert(w0 != idx);
                let w = if w0 < idx { w0 } else { w0 - 1 };
                assert(s_new[w] == s_old[w0]);
                self.lemma_entry_val(w, k2);
                old(self).lemma_entry_val(w0, k2);
            }
        }
    }
}

} // verus!
