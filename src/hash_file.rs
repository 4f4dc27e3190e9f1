//! The store: a buffer of recent writes in front of a sorted index and a data file.
use vstd::prelude::*;
use crate::Error;
use crate::sip_digest;
use crate::text::{plain_bytes, one_line, is_plain, is_one_line};
use crate::record::{no_sep, sorted_index, parse_line, digest_at};
use crate::memtable::{Memtable, EntryView, entries_map, buffered, lemma_entries_map_at};
use crate::flush::{lines_view, entries_view, merge_spec, merge_flush, storable_entries,
    lemma_merge_sorted,
};
use crate::compact::{live_items, slot_bytes, placed, text_width, compacted_lines, compact,
    lemma_live_items_sorted, lemma_live_items_clean, lemma_compacted_searchable,
};
use crate::lookup::{searchable, indexed_value, lookup, is_searchable, is_sorted_index,
    lemma_searchable_sorted,
};
use crate::contents::{anchored, stored, index_entry, after_insert, is_anchored, one_line_entries,
    lemma_merge_keeps, lemma_compact_keeps, lemma_bump_merged,
};
use crate::compact::from_index;
use crate::lookup::holds_digest;
use crate::contents::lemma_index_entry_at;

verus! {

/// How many writes the buffer holds, unless told otherwise, before it is merged into the
/// index.
pub const DEFAULT_CAPACITY: usize = 1000;

/// A hash-ordered key/value store over an index file and a data file, held as their
/// contents: the index as its lines (without terminators), the data file as its bytes.
///
/// Writes collect in a buffer; once it holds more than `capacity` keys they are merged
/// into the files. `finalize` merges what is left, compacts both files and pads every
/// record to one width; lookups are answered from the files, after a finalize.
pub struct HashFile {
    index: Vec<Vec<u8>>,
    data: Vec<u8>,
    memtable: Memtable,
    capacity: usize,
    line_length: usize,
    finalized: bool,
}

impl HashFile {
    /// The index lines.
    pub closed spec fn lines(&self) -> Seq<Seq<u8>> {
        lines_view(self.index@)
    }

    /// The bytes of the data file.
    pub closed spec fn data_bytes(&self) -> Seq<u8> {
        self.data@
    }

    /// The buffered writes, in ascending order of digest.
    pub closed spec fn pending(&self) -> Seq<EntryView> {
        self.memtable@
    }

    pub closed spec fn capacity_spec(&self) -> usize {
        self.capacity
    }

    /// The record width that padding goes by.
    pub closed spec fn width(&self) -> usize {
        self.line_length
    }

    /// Whether lookups are answered.
    pub closed spec fn is_final(&self) -> bool {
        self.finalized
    }

    pub closed spec fn wf(&self) -> bool {
        &&& self.memtable.wf()
        &&& self.data@.len() <= usize::MAX
        &&& sorted_index(lines_view(self.index@))
        &&& anchored(lines_view(self.index@), self.data@)
        &&& forall|d: u64| #[trigger]
            entries_map(self.memtable@).contains_key(d) ==> no_sep(entries_map(self.memtable@)[d].key)
                && one_line(entries_map(self.memtable@)[d].value)
        &&& self.finalized ==> searchable(lines_view(self.index@), self.line_length as nat)
            && self.memtable@.len() == 0
    }

    /// What the store holds for digest `d`: its value and overwrite count.
    pub open spec fn contents(&self, d: u64) -> Option<(Seq<u8>, usize)> {
        stored(self.lines(), self.data_bytes(), self.pending(), d)
    }

    pub proof fn lemma_data_len(&self)
        requires
            self.wf(),
        ensures
            self.data_bytes().len() <= usize::MAX,
    {
    }

    /// What `finalize` leaves of `before`: the buffer merged into the files, then both
    /// files compacted.
    pub open spec fn finalize_spec(before: HashFile, after: HashFile) -> bool {
        let f = merge_spec(
            before.lines(),
            before.pending(),
            before.data_bytes().len() as nat,
            before.width() as nat,
        );
        let ls = if before.pending().len() > 0 {
            f.lines
        } else {
            before.lines()
        };
        let d = if before.pending().len() > 0 {
            before.data_bytes() + f.appended
        } else {
            before.data_bytes()
        };
        let w = if before.pending().len() > 0 {
            f.pad
        } else {
            before.width() as nat
        };
        &&& after.pending().len() == 0
        &&& after.capacity_spec() == before.capacity_spec()
        &&& after.lines() == compacted_lines(live_items(ls, d), w)
        &&& after.data_bytes() == slot_bytes(live_items(ls, d))
        &&& after.width() as nat == text_width(placed(live_items(ls, d)), w)
        &&& after.is_final()
        &&& searchable(after.lines(), after.width() as nat)
        &&& forall|d: u64| #[trigger] after.contents(d) == before.contents(d)
    }

    /// What `insert` leaves of `before`, with result `r`.
    pub open spec fn insert_spec(
        before: HashFile,
        after: HashFile,
        key: Seq<u8>,
        value: Seq<u8>,
        r: Result<(), Error>,
    ) -> bool {
        &&& after.capacity_spec() == before.capacity_spec()
        &&& !plain_bytes(key) ==> r == Err::<(), Error>(Error::KeyNotStorable)
        &&& plain_bytes(key) && !one_line(value) ==> r == Err::<(), Error>(Error::ValueNotStorable)
        &&& r is Err ==> after == before
        &&& plain_bytes(key) && one_line(value) ==> r is Ok
        &&& r is Ok ==> {
            let m = before.pending_map().insert(
                sip_digest(key),
                buffered(before.pending_map(), key, value),
            );
            let held = before.pending().len() + if before.pending_map().contains_key(
                sip_digest(key),
            ) {
                0int
            } else {
                1int
            };
            &&& !after.is_final()
            &&& forall|d: u64|
                #[trigger] after.contents(d) == if d == sip_digest(key) {
                    after_insert(before.contents(d), value)
                } else {
                    before.contents(d)
                }
            &&& held <= before.capacity_spec() ==> {
                &&& after.pending_map() == m
                &&& after.pending().len() == held
                &&& after.lines() == before.lines()
                &&& after.data_bytes() == before.data_bytes()
                &&& after.width() == before.width()
            }
            &&& held > before.capacity_spec() ==> {
                &&& after.pending().len() == 0
                &&& exists|s: Seq<EntryView>|
                    entries_map(s) == m && s.len() == held && {
                        let f = merge_spec(
                            before.lines(),
                            s,
                            before.data_bytes().len() as nat,
                            before.width() as nat,
                        );
                        &&& after.lines() == f.lines
                        &&& after.data_bytes() == before.data_bytes() + f.appended
                        &&& after.width() as nat == f.pad
                    }
            }
        }
    }

    /// The buffered writes by digest.
    pub open spec fn pending_map(&self) -> Map<u64, EntryView> {
        entries_map(self.pending())
    }

    /// An empty store.
    pub fn new() -> (r: HashFile)
        ensures
            r.wf(),
            r.lines().len() == 0,
            r.data_bytes().len() == 0,
            r.pending().len() == 0,
            r.capacity_spec() == DEFAULT_CAPACITY,
            r.width() == 0,
            r.is_final(),
    {
        let r = HashFile {
            index: Vec::new(),
            data: Vec::new(),
            memtable: Memtable::new(),
            capacity: DEFAULT_CAPACITY,
            line_length: 0,
            finalized: true,
        };
        assert(lines_view(r.index@) =~= Seq::<Seq<u8>>::empty());
        assert forall|d: u64| #[trigger] entries_map(r.memtable@).contains_key(d) implies no_sep(
            entries_map(r.memtable@)[d].key,
        ) && one_line(entries_map(r.memtable@)[d].value) by {}
        r
    }

    /// A store over existing files: the record width is the longest index line, and
    /// lookups are answered at once where the index is searchable at that width.
    ///
    /// Fails on an index whose records are not in ascending order of digest, or that has
    /// a record pointing past the values of the data file.
    pub fn open(index: Vec<Vec<u8>>, data: Vec<u8>) -> (r: Result<HashFile, Error>)
        ensures
            r is Ok <==> sorted_index(lines_view(index@)) && anchored(lines_view(index@), data@),
            !sorted_index(lines_view(index@)) ==> r == Err::<HashFile, Error>(Error::IndexOutOfOrder),
            sorted_index(lines_view(index@)) && !anchored(lines_view(index@), data@) ==> r
                == Err::<HashFile, Error>(Error::DanglingOffset),
            r matches Ok(h) ==> {
                &&& h.wf()
                &&& h.lines() == lines_view(index@)
                &&& h.data_bytes() == data@
                &&& h.pending().len() == 0
                &&& h.capacity_spec() == DEFAULT_CAPACITY
                &&& forall|k: int| 0 <= k < index@.len() ==> (#[trigger] index@[k]@).len() <= h.width()
                &&& h.width() == 0 || exists|k: int|
                    0 <= k < index@.len() && (#[trigger] index@[k]@).len() == h.width()
                &&& h.is_final() == searchable(lines_view(index@), h.width() as nat)
            },
    {
        if !is_sorted_index(&index) {
            return Err(Error::IndexOutOfOrder);
        }
        if !is_anchored(&index, &data) {
            return Err(Error::DanglingOffset);
        }
        let mut width: usize = 0;
        let mut i: usize = 0;
        while i < index.len()
            invariant
                i <= index@.len(),
                forall|k: int| 0 <= k < i ==> (#[trigger] index@[k]@).len() <= width,
                width == 0 || exists|k: int| 0 <= k < i && (#[trigger] index@[k]@).len() == width,
            decreases index@.len() - i,
        {
            if index[i].len() > width {
                width = index[i].len();
            }
            i = i + 1;
        }
        let finalized = is_searchable(&index, width);
        let _ = data.len();
        let memtable = Memtable::new();
        proof {
            assert forall|d: u64| #[trigger] entries_map(memtable@).contains_key(d) implies no_sep(
                entries_map(memtable@)[d].key,
            ) && one_line(entries_map(memtable@)[d].value) by {}
        }
        Ok(HashFile { index, data, memtable, capacity: DEFAULT_CAPACITY, line_length: width, finalized })
    }

    /// The same store, merging its buffer once it holds more than `capacity` keys.
    pub fn set_capacity(self, capacity: usize) -> (r: HashFile)
        requires
            self.wf(),
        ensures
            r.wf(),
            r.capacity_spec() == capacity,
            r.lines() == self.lines(),
            r.data_bytes() == self.data_bytes(),
            r.pending() == self.pending(),
            r.width() == self.width(),
            r.is_final() == self.is_final(),
    {
        HashFile { capacity, ..self }
    }

    pub fn capacity(&self) -> (r: usize)
        ensures
            r == self.capacity_spec(),
    {
        self.capacity
    }

    /// The record width of the index.
    pub fn line_length(&self) -> (r: usize)
        ensures
            r == self.width(),
    {
        self.line_length
    }

    /// How many keys the buffer holds.
    pub fn buffered(&self) -> (r: usize)
        ensures
            r == self.pending().len(),
    {
        self.memtable.len()
    }

    /// Whether lookups are answered (no write since the last finalize).
    pub fn is_finalized(&self) -> (r: bool)
        ensures
            r == self.is_final(),
    {
        self.finalized
    }

    /// The index lines, without terminators.
    pub fn index_lines(&self) -> (r: &Vec<Vec<u8>>)
        ensures
            lines_view(r@) == self.lines(),
    {
        &self.index
    }

    /// The contents of the data file.
    pub fn data(&self) -> (r: &Vec<u8>)
        ensures
            r@ == self.data_bytes(),
    {
        &self.data
    }

    /// Merges the buffer into the index and the data file, and empties it.
    pub fn flush(&mut self)
        requires
            old(self).wf(),
        ensures
            final(self).wf(),
            final(self).lines() == merge_spec(
                old(self).lines(),
                old(self).pending(),
                old(self).data_bytes().len() as nat,
                old(self).width() as nat,
            ).lines,
            final(self).data_bytes() == old(self).data_bytes() + merge_spec(
                old(self).lines(),
                old(self).pending(),
                old(self).data_bytes().len() as nat,
                old(self).width() as nat,
            ).appended,
            final(self).width() as nat == merge_spec(
                old(self).lines(),
                old(self).pending(),
                old(self).data_bytes().len() as nat,
                old(self).width() as nat,
            ).pad,
            final(self).pending().len() == 0,
            final(self).capacity_spec() == old(self).capacity_spec(),
            !final(self).is_final(),
            forall|d: u64| #[trigger] final(self).contents(d) == old(self).contents(d),
    {
        let ghost pending = self.memtable@;
        proof {
            assert forall|k: int| 0 <= k < pending.len() implies no_sep(#[trigger] pending[k].key)
                && one_line(pending[k].value) by {
                lemma_entries_map_at(pending, k);
            }
            assert(storable_entries(pending));
            assert forall|k: int| 0 <= k < pending.len() implies one_line(#[trigger] pending[k].value) by {
                lemma_entries_map_at(pending, k);
            }
            assert(one_line_entries(pending));
        }
        let entries = self.memtable.drain();
        let lines = merge_flush(&self.index, &entries, &mut self.data, &mut self.line_length);
        assert(entries_view(entries@) == old(self).pending());
        proof {
            lemma_merge_sorted(
                lines_view(old(self).index@),
                pending,
                old(self).data@.len() as nat,
                old(self).line_length as nat,
            );
        }
        self.index = lines;
        self.finalized = false;
        let _ = self.data.len();
        proof {
            lemma_merge_keeps(
                lines_view(old(self).index@),
                pending,
                old(self).data@,
                old(self).line_length as nat,
            );
            assert forall|d: u64| #[trigger] self.contents(d) == old(self).contents(d) by {
                assert(!entries_map(self.memtable@).contains_key(d));
            }
            assert forall|d: u64| #[trigger] entries_map(self.memtable@).contains_key(d) implies no_sep(
                entries_map(self.memtable@)[d].key,
            ) && one_line(entries_map(self.memtable@)[d].value) by {}
        }
    }

    /// Buffers `value` under `key`, and merges the buffer into the files once it holds
    /// more than `capacity` keys. A key already buffered takes the new value and counts
    /// one more overwrite.
    ///
    /// Fails, changing nothing, on a key with a separator or a line terminator in it, or
    /// a value with a line terminator in it.
    pub fn insert(&mut self, key: Vec<u8>, value: Vec<u8>) -> (r: Result<(), Error>)
        requires
            old(self).wf(),
        ensures
            final(self).wf(),
            Self::insert_spec(*old(self), *final(self), key@, value@, r),
    {
        if !is_plain(key.as_slice()) {
            return Err(Error::KeyNotStorable);
        }
        if !is_one_line(value.as_slice()) {
            return Err(Error::ValueNotStorable);
        }
        let ghost m0 = entries_map(self.memtable@);
        let ghost kv = key@;
        let ghost vv = value@;
        let ghost before = *self;
        self.memtable.insert(key, value);
        proof {
            let m1 = entries_map(self.memtable@);
            let dk = sip_digest(kv);
            assert forall|x: u64| #[trigger] m1.contains_key(x) implies no_sep(m1[x].key) && one_line(
                m1[x].value,
            ) by {
                if x == dk && !m0.contains_key(x) {
                    assert(m1[x].key == kv);
                    assert forall|i: int| 0 <= i < kv.len() implies #[trigger] kv[i] != crate::text::SEP by {}
                }
            }
            assert forall|d: u64| #[trigger] self.contents(d) == if d == dk {
                after_insert(before.contents(d), vv)
            } else {
                before.contents(d)
            } by {
                if d == dk && m0.contains_key(d) {
                    lemma_bump_merged(
                        match index_entry(before.lines(), before.data_bytes(), d) {
                            Some((_, c)) => c,
                            None => 0,
                        },
                        m0[d].count,
                    );
                }
            }
        }
        self.finalized = false;
        if self.memtable.len() > self.capacity {
            self.flush();
        }
        Ok(())
    }

    /// Merges any buffered writes, then compacts: every record, in index order, has its
    /// value copied to a fresh data file and is padded to the widest record text (and at
    /// least the current width). Lines that hold no record are dropped, and so are values
    /// that no record points at.
    pub fn finalize(&mut self)
        requires
            old(self).wf(),
        ensures
            final(self).wf(),
            Self::finalize_spec(*old(self), *final(self)),
    {
        if self.memtable.len() > 0 {
            self.flush();
        }
        proof {
            lemma_live_items_sorted(lines_view(self.index@), self.data@);
            lemma_live_items_clean(lines_view(self.index@), self.data@);
            lemma_compacted_searchable(
                live_items(lines_view(self.index@), self.data@),
                self.line_length as nat,
            );
        }
        let ghost mid = *self;
        let (lines, data, width) = compact(&self.index, &self.data, self.line_length);
        self.index = lines;
        self.data = data;
        self.line_length = width;
        self.finalized = is_searchable(&self.index, self.line_length);
        let _ = self.data.len();
        proof {
            lemma_searchable_sorted(lines_view(self.index@), self.line_length as nat);
            lemma_compact_keeps(lines_view(mid.index@), mid.data@, mid.line_length as nat);
            let items = live_items(lines_view(mid.index@), mid.data@);
            assert(self.lines() == compacted_lines(items, mid.line_length as nat));
            assert(self.data_bytes() == slot_bytes(items));
            assert forall|d: u64| #[trigger] self.contents(d) == old(self).contents(d) by {
                assert(!entries_map(self.memtable@).contains_key(d));
                assert(!entries_map(mid.memtable@).contains_key(d));
                assert(index_entry(compacted_lines(items, mid.line_length as nat), slot_bytes(items), d)
                    == index_entry(lines_view(mid.index@), mid.data@, d));
                assert(mid.contents(d) == old(self).contents(d));
            }
        }
    }

    /// The value stored under `key` and its overwrite count, or `None`.
    ///
    /// Answered only after a finalize with no write since: otherwise
    /// `Err(Error::NotFinalized)`.
    pub fn get(&self, key: &[u8]) -> (r: Result<Option<(Vec<u8>, usize)>, Error>)
        requires
            self.wf(),
        ensures
            !self.is_final() ==> r == Err::<Option<(Vec<u8>, usize)>, Error>(Error::NotFinalized),
            self.is_final() ==> match r {
                Ok(Some((v, c))) => indexed_value(self.lines(), self.data_bytes(), sip_digest(key@))
                    == Some((v@, c)),
                Ok(None) => indexed_value(self.lines(), self.data_bytes(), sip_digest(key@)) is None,
                Err(_) => false,
            },
            self.is_final() ==> match r {
                Ok(Some((v, c))) => self.contents(sip_digest(key@)) == Some((v@, c)),
                Ok(None) => self.contents(sip_digest(key@)) is None,
                Err(_) => false,
            },
    {
        if !self.finalized {
            return Err(Error::NotFinalized);
        }
        proof {
            let d = sip_digest(key@);
            assert(!entries_map(self.memtable@).contains_key(d));
            if from_index(self.lines(), d) {
                let k = choose|k: int|
                    0 <= k < self.lines().len() && parse_line(#[trigger] self.lines()[k]) is Some
                        && digest_at(self.lines(), k) == d;
                assert(holds_digest(self.lines(), k, d));
                let k2 = choose|k: int| #[trigger] holds_digest(self.lines(), k, d);
                lemma_index_entry_at(self.lines(), self.data_bytes(), k2);
            } else {
                assert forall|k: int| !(#[trigger] holds_digest(self.lines(), k, d)) by {
                    if holds_digest(self.lines(), k, d) {
                        assert(parse_line(self.lines()[k]) is Some && digest_at(self.lines(), k) == d);
                    }
                }
            }
            assert(indexed_value(self.lines(), self.data_bytes(), d) == index_entry(
                self.lines(),
                self.data_bytes(),
                d,
            ));
        }
        lookup(&self.index, &self.data, self.line_length, key)
    }
}

} // verus!
