//! The in-memory buffer of recent writes, ordered by the digest of their key.
use vstd::prelude::*;
use crate::sip_digest;
use crate::hash;

verus! {

/// What a buffered write holds, as plain values.
pub struct EntryView {
    pub digest: u64,
    pub key: Seq<u8>,
    pub value: Seq<u8>,
    pub count: usize,
}

/// A buffered write: the key, its digest, its latest value and how many times the key
/// was overwritten while buffered.
pub struct Entry {
    pub digest: u64,
    pub key: Vec<u8>,
    pub value: Vec<u8>,
    pub count: usize,
}

impl View for Entry {
    type V = EntryView;

    open spec fn view(&self) -> EntryView {
        EntryView { digest: self.digest, key: self.key@, value: self.value@, count: self.count }
    }
}

/// `c + 1`, held at the largest `usize`.
pub open spec fn bump(c: usize) -> usize {
    if c == usize::MAX {
        c
    } else {
        (c + 1) as usize
    }
}

/// Strictly ascending digests, each the digest of its entry's key.
pub open spec fn sorted_entries(s: Seq<EntryView>) -> bool {
    &&& forall|i: int, j: int| 0 <= i < j < s.len() ==> s[i].digest < s[j].digest
    &&& forall|i: int| 0 <= i < s.len() ==> #[trigger] s[i].digest == sip_digest(s[i].key)
}

pub open spec fn has_digest(s: Seq<EntryView>, d: u64) -> bool {
    exists|i: int| 0 <= i < s.len() && #[trigger] s[i].digest == d
}

/// The entries by digest.
pub open spec fn entries_map(s: Seq<EntryView>) -> Map<u64, EntryView> {
    Map::new(
        |d: u64| has_digest(s, d),
        |d: u64| s[choose|i: int| 0 <= i < s.len() && #[trigger] s[i].digest == d],
    )
}

/// The entry that buffering `(key, value)` leaves for its digest in `m`.
pub open spec fn buffered(m: Map<u64, EntryView>, key: Seq<u8>, value: Seq<u8>) -> EntryView {
    let d = sip_digest(key);
    if m.contains_key(d) {
        EntryView { value: value, count: bump(m[d].count), ..m[d] }
    } else {
        EntryView { digest: d, key: key, value: value, count: 0 }
    }
}

pub proof fn lemma_entries_map_at(s: Seq<EntryView>, i: int)
    requires
        sorted_entries(s),
        0 <= i < s.len(),
    ensures
        entries_map(s).contains_key(s[i].digest),
        entries_map(s)[s[i].digest] == s[i],
{
    let d = s[i].digest;
    assert(has_digest(s, d));
    let k = choose|k: int| 0 <= k < s.len() && #[trigger] s[k].digest == d;
    if k < i {
        assert(s[k].digest < s[i].digest);
    } else if k > i {
        assert(s[i].digest < s[k].digest);
    }
}

/// The buffer. Its entries are kept in ascending order of digest, one per digest.
pub struct Memtable {
    entries: Vec<Entry>,
}

impl View for Memtable {
    type V = Seq<EntryView>;

    closed spec fn view(&self) -> Seq<EntryView> {
        self.entries@.map_values(|e: Entry| e@)
    }
}

impl Memtable {
    pub open spec fn wf(&self) -> bool {
        sorted_entries(self@)
    }

    /// The buffered entries by digest.
    pub open spec fn map(&self) -> Map<u64, EntryView> {
        entries_map(self@)
    }

    pub fn new() -> (r: Memtable)
        ensures
            r.wf(),
            r@.len() == 0,
    {
        Memtable { entries: Vec::new() }
    }

    pub fn len(&self) -> (r: usize)
        ensures
            r == self@.len(),
    {
        self.entries.len()
    }

    /// Buffers `value` under `key`: a key already buffered keeps its entry, takes the new
    /// value and counts one more overwrite; a new key starts at count zero.
    pub fn insert(&mut self, key: Vec<u8>, value: Vec<u8>)
        requires
            old(self).wf(),
        ensures
            final(self).wf(),
            final(self).map() == old(self).map().insert(
                sip_digest(key@),
                buffered(old(self).map(), key@, value@),
            ),
            final(self)@.len() == old(self)@.len() + if old(self).map().contains_key(
                sip_digest(key@),
            ) {
                0int
            } else {
                1int
            },
    {
        let ghost s = self@;
        let ghost m = self.map();
        let ghost kv = key@;
        let ghost vv = value@;
        let d = hash(key.as_slice());
        let mut i: usize = 0;
        while i < self.entries.len() && self.entries[i].digest < d
            invariant
                i <= self.entries@.len(),
                self@ == s,
                sorted_entries(s),
                forall|k: int| 0 <= k < i ==> #[trigger] s[k].digest < d,
            decreases self.entries@.len() - i,
        {
            i = i + 1;
        }
        if i < self.entries.len() && self.entries[i].digest == d {
            let old_entry = self.entries.remove(i);
            let count = if old_entry.count == usize::MAX {
                old_entry.count
            } else {
                old_entry.count + 1
            };
            let e = Entry { digest: d, key: old_entry.key, value, count };
            self.entries.insert(i, e);
            proof {
                lemma_entries_map_at(s, i as int);
                assert(self@ =~= s.update(i as int, e@));
                let t = self@;
                assert(sorted_entries(t)) by {
                    assert forall|a: int, b: int| 0 <= a < b < t.len() implies t[a].digest
                        < t[b].digest by {
                        assert(s[a].digest < s[b].digest);
                    }
                    assert forall|a: int| 0 <= a < t.len() implies #[trigger] t[a].digest
                        == sip_digest(t[a].key) by {
                        assert(s[a].digest == sip_digest(s[a].key));
                    }
                }
                assert(self.map() =~= m.insert(d, buffered(m, kv, vv))) by {
                    assert forall|x: u64| #[trigger]
                        self.map().contains_key(x) == m.insert(d, buffered(m, kv, vv)).contains_key(
                            x,
                        ) by {
                        if has_digest(s, x) {
                            let k = choose|k: int| 0 <= k < s.len() && #[trigger] s[k].digest == x;
                            assert(t[k].digest == x);
                        }
                        if has_digest(t, x) {
                            let k = choose|k: int| 0 <= k < t.len() && #[trigger] t[k].digest == x;
                            assert(s[k].digest == x);
                        }
                    }
                    assert forall|x: u64| #[trigger] self.map().contains_key(x) implies self.map()[x]
                        == m.insert(d, buffered(m, kv, vv))[x] by {
                        let k = choose|k: int| 0 <= k < t.len() && #[trigger] t[k].digest == x;
                        lemma_entries_map_at(t, k);
                        if k != i {
                            lemma_entries_map_at(s, k);
                        }
                    }
                }
            }
        } else {
            let e = Entry { digest: d, key, value, count: 0 };
            self.entries.insert(i, e);
            proof {
                assert(self@ =~= s.insert(i as int, e@));
                let t = self@;
                assert(forall|k: int| i <= k < s.len() ==> #[trigger] s[k].digest > d) by {
                    assert forall|k: int| i <= k < s.len() implies #[trigger] s[k].digest > d by {
                        if k > i {
                            assert(s[i as int].digest < s[k].digest);
                        }
                    }
                }
                assert(!has_digest(s, d));
                assert(sorted_entries(t)) by {
                    assert forall|a: int, b: int| 0 <= a < b < t.len() implies t[a].digest
                        < t[b].digest by {
                        if b < i {
                            assert(s[a].digest < s[b].digest);
                        } else if a > i {
                            assert(s[a - 1].digest < s[b - 1].digest);
                        } else if a < i && b > i {
                            assert(s[a].digest < d);
                        }
                    }
                    assert forall|a: int| 0 <= a < t.len() implies #[trigger] t[a].digest
                        == sip_digest(t[a].key) by {
                        if a < i {
                            assert(s[a].digest == sip_digest(s[a].key));
                        } else if a > i {
                            assert(s[a - 1].digest == sip_digest(s[a - 1].key));
                        }
                    }
                }
                assert(self.map() =~= m.insert(d, buffered(m, kv, vv))) by {
                    assert forall|x: u64| #[trigger]
                        self.map().contains_key(x) == m.insert(d, buffered(m, kv, vv)).contains_key(
                            x,
                        ) by {
                        if has_digest(s, x) {
                            let k = choose|k: int| 0 <= k < s.len() && #[trigger] s[k].digest == x;
                            if k < i {
                                assert(t[k].digest == x);
                            } else {
                                assert(t[k + 1].digest == x);
                            }
                        }
                        if has_digest(t, x) && x != d {
                            let k = choose|k: int| 0 <= k < t.len() && #[trigger] t[k].digest == x;
                            if k < i {
                                assert(s[k].digest == x);
                            } else {
                                assert(s[k - 1].digest == x);
                            }
                        }
                        assert(t[i as int].digest == d);
                    }
                    assert forall|x: u64| #[trigger] self.map().contains_key(x) implies self.map()[x]
                        == m.insert(d, buffered(m, kv, vv))[x] by {
                        let k = choose|k: int| 0 <= k < t.len() && #[trigger] t[k].digest == x;
                        lemma_entries_map_at(t, k);
                        if k < i {
                            lemma_entries_map_at(s, k);
                        } else if k > i {
                            lemma_entries_map_at(s, k - 1);
                        }
                    }
                }
            }
        }
    }

    /// Removes all entries and hands them out in ascending order of digest.
    pub fn drain(&mut self) -> (r: Vec<Entry>)
        requires
            old(self).wf(),
        ensures
            final(self).wf(),
            final(self)@.len() == 0,
            r@.map_values(|e: Entry| e@) == old(self)@,
            sorted_entries(old(self)@),
    {
        let mut taken: Vec<Entry> = Vec::new();
        std::mem::swap(&mut taken, &mut self.entries);
        proof {
            assert(self@ =~= Seq::<EntryView>::empty());
        }
        taken
    }
}

} // verus!
