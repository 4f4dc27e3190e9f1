//! Properties of the store that relate several operations or hold in every state.
use vstd::prelude::*;
use crate::hash_file::HashFile;
use crate::record::{parse_line, digest_at};
use crate::lookup::searchable;
use crate::sip_digest;
use crate::Error;
use crate::contents::after_insert;
use crate::memtable::bump;
use crate::compact::{
    live_items, slot_bytes, compacted_lines, sorted_items, Item,
    lemma_compacted_uniform, lemma_compact_idempotent, lemma_reread, lemma_live_items_clean,
    lemma_live_items_sorted,
};
use crate::contents::{index_entry, lemma_index_entry_items, lemma_item_entry_at};
use crate::lookup::lemma_searchable_sorted;
use crate::text::NEWLINE;

verus! {

/// The size of an index file: each line and its terminator.
pub open spec fn index_file_size(ls: Seq<Seq<u8>>) -> nat
    decreases ls.len(),
{
    if ls.len() == 0 {
        0
    } else {
        index_file_size(ls.drop_last()) + ls.last().len() + 1
    }
}

proof fn lemma_uniform_size(ls: Seq<Seq<u8>>, w: nat)
    requires
        forall|k: int| 0 <= k < ls.len() ==> (#[trigger] ls[k]).len() == w,
    ensures
        index_file_size(ls) == ls.len() * (w + 1),
    decreases ls.len(),
{
    if ls.len() > 0 {
        let t = ls.drop_last();
        assert forall|k: int| 0 <= k < t.len() implies (#[trigger] t[k]).len() == w by {
            assert(t[k] == ls[k]);
        }
        lemma_uniform_size(t, w);
        assert(ls.len() * (w + 1) == t.len() * (w + 1) + w + 1) by (nonlinear_arith)
            requires
                ls.len() == t.len() + 1,
        ;
    }
}

/// After a finalize every index record is exactly `line_length` bytes, so the index file
/// is a whole number of rows of `line_length + 1` bytes, terminator included.
pub proof fn finalize_gives_uniform_width(before: HashFile, after: HashFile)
    requires
        before.wf(),
        HashFile::finalize_spec(before, after),
    ensures
        forall|k: int| 0 <= k < after.lines().len() ==> (#[trigger] after.lines()[k]).len()
            == after.width(),
        index_file_size(after.lines()) == after.lines().len() * (after.width() + 1),
        index_file_size(after.lines()) as int % (after.width() + 1) == 0,
{
    let f = crate::flush::merge_spec(
        before.lines(),
        before.pending(),
        before.data_bytes().len() as nat,
        before.width() as nat,
    );
    let ls = if before.pending().len() > 0 {
        f.lines
    } else {
        before.lines()
    };
    let d = if before.pending().len() > 0 {
        before.data_bytes() + f.appended
    } else {
        before.data_bytes()
    };
    let w = if before.pending().len() > 0 {
        f.pad
    } else {
        before.width() as nat
    };
    lemma_compacted_uniform(live_items(ls, d), w);
    lemma_uniform_size(after.lines(), after.width() as nat);
    let n = after.lines().len();
    let row = after.width() + 1;
    assert((n * row) % row == 0) by (nonlinear_arith)
        requires
            row > 0,
    ;
}

/// Finalizing twice in a row, with no write in between, leaves both files and the record
/// width as the first finalize left them.
pub proof fn finalize_is_idempotent(first: HashFile, second: HashFile, third: HashFile)
    requires
        first.wf(),
        HashFile::finalize_spec(first, second),
        second.wf(),
        HashFile::finalize_spec(second, third),
    ensures
        third.lines() == second.lines(),
        third.data_bytes() == second.data_bytes(),
        third.width() == second.width(),
{
    let f = crate::flush::merge_spec(
        first.lines(),
        first.pending(),
        first.data_bytes().len() as nat,
        first.width() as nat,
    );
    let ls = if first.pending().len() > 0 {
        f.lines
    } else {
        first.lines()
    };
    let d = if first.pending().len() > 0 {
        first.data_bytes() + f.appended
    } else {
        first.data_bytes()
    };
    let w = if first.pending().len() > 0 {
        f.pad
    } else {
        first.width() as nat
    };
    second.lemma_data_len();
    lemma_compact_idempotent(ls, d, w);
}

/// After a finalize every index line holds a record, the digests of their keys rise
/// strictly in file order, and lookups are answered.
pub proof fn finalize_sorts_by_digest(before: HashFile, after: HashFile)
    requires
        before.wf(),
        HashFile::finalize_spec(before, after),
    ensures
        after.is_final(),
        forall|k: int| 0 <= k < after.lines().len() ==> parse_line(#[trigger] after.lines()[k]) is Some,
        forall|a: int, b: int|
            0 <= a < b < after.lines().len() ==> digest_at(after.lines(), a) < digest_at(
                after.lines(),
                b,
            ),
{
    assert(searchable(after.lines(), after.width() as nat));
}

/// A run of inserts that all succeeded, each on the state the previous one left.
pub open spec fn insert_run(states: Seq<HashFile>, keys: Seq<Seq<u8>>, values: Seq<Seq<u8>>) -> bool {
    &&& states.len() == keys.len() + 1
    &&& values.len() == keys.len()
    &&& forall|i: int|
        0 <= i < keys.len() ==> HashFile::insert_spec(
            #[trigger] states[i],
            states[i + 1],
            keys[i],
            values[i],
            Ok::<(), Error>(()),
        )
}

/// Keys of pairwise distinct digests.
pub open spec fn distinct_digests(keys: Seq<Seq<u8>>) -> bool {
    forall|i: int, j: int|
        0 <= i < j < keys.len() ==> sip_digest(#[trigger] keys[i]) != sip_digest(#[trigger] keys[j])
}

proof fn lemma_run_buffers(states: Seq<HashFile>, keys: Seq<Seq<u8>>, values: Seq<Seq<u8>>, n: int)
    requires
        insert_run(states, keys, values),
        distinct_digests(keys),
        states[0].pending().len() == 0,
        0 <= n <= states[0].capacity_spec(),
        n < states.len(),
    ensures
        states[n].capacity_spec() == states[0].capacity_spec(),
        states[n].pending().len() == n,
        states[n].lines() == states[0].lines(),
        states[n].data_bytes() == states[0].data_bytes(),
        forall|x: u64|
            states[n].pending_map().contains_key(x) <==> exists|j: int|
                0 <= j < n && sip_digest(#[trigger] keys[j]) == x,
    decreases n,
{
    if n == 0 {
        assert forall|x: u64| !states[0].pending_map().contains_key(x) by {}
    } else {
        let i = n - 1;
        lemma_run_buffers(states, keys, values, i);
        assert(HashFile::insert_spec(states[i], states[i + 1], keys[i], values[i], Ok(())));
        let d = sip_digest(keys[i]);
        assert(!states[i].pending_map().contains_key(d)) by {
            if states[i].pending_map().contains_key(d) {
                let j = choose|j: int| 0 <= j < i && sip_digest(#[trigger] keys[j]) == d;
                assert(sip_digest(keys[j]) != sip_digest(keys[i]));
            }
        }
        assert forall|x: u64|
            states[n].pending_map().contains_key(x) <==> exists|j: int|
                0 <= j < n && sip_digest(#[trigger] keys[j]) == x by {
            if x == d {
                assert(0 <= i < n && sip_digest(keys[i]) == x);
            } else if exists|j: int| 0 <= j < n && sip_digest(#[trigger] keys[j]) == x {
                let j = choose|j: int| 0 <= j < n && sip_digest(#[trigger] keys[j]) == x;
                assert(j != i);
                assert(exists|j2: int| 0 <= j2 < i && sip_digest(#[trigger] keys[j2]) == x);
            }
        }
    }
}

/// With capacity `c`, a run of `c + 1` successful inserts of keys with distinct digests
/// into an empty buffer merges the buffer into the files exactly once, at the last
/// insert: each of the first `c` only buffers (the files stay as they were and the
/// buffer grows by one), and the last one leaves the buffer empty.
pub proof fn capacity_triggers_one_flush(
    states: Seq<HashFile>,
    keys: Seq<Seq<u8>>,
    values: Seq<Seq<u8>>,
)
    requires
        insert_run(states, keys, values),
        distinct_digests(keys),
        states[0].pending().len() == 0,
        keys.len() == states[0].capacity_spec() + 1,
    ensures
        forall|i: int|
            1 <= i < keys.len() ==> (#[trigger] states[i]).pending().len() == i
                && states[i].lines() == states[0].lines() && states[i].data_bytes()
                == states[0].data_bytes(),
        states[keys.len() as int].pending().len() == 0,
{
    let c = states[0].capacity_spec() as int;
    assert forall|i: int| 1 <= i < keys.len() implies (#[trigger] states[i]).pending().len() == i
        && states[i].lines() == states[0].lines() && states[i].data_bytes()
        == states[0].data_bytes() by {
        lemma_run_buffers(states, keys, values, i);
    }
    lemma_run_buffers(states, keys, values, c);
    assert(HashFile::insert_spec(states[c], states[c + 1], keys[c], values[c], Ok(())));
    let d = sip_digest(keys[c]);
    assert(!states[c].pending_map().contains_key(d)) by {
        if states[c].pending_map().contains_key(d) {
            let j = choose|j: int| 0 <= j < c && sip_digest(#[trigger] keys[j]) == d;
            assert(sip_digest(keys[j]) != sip_digest(keys[c]));
        }
    }
}

/// How many of `keys` have digest `d`.
pub open spec fn occurrences(keys: Seq<Seq<u8>>, d: u64) -> nat
    decreases keys.len(),
{
    if keys.len() == 0 {
        0
    } else {
        occurrences(keys.drop_last(), d) + if sip_digest(keys.last()) == d {
            1nat
        } else {
            0nat
        }
    }
}

/// The value given with the last of `keys` that has digest `d`.
pub open spec fn latest_value(keys: Seq<Seq<u8>>, values: Seq<Seq<u8>>, d: u64) -> Seq<u8>
    decreases keys.len(),
{
    if keys.len() == 0 {
        seq![]
    } else if sip_digest(keys.last()) == d {
        values[keys.len() - 1]
    } else {
        latest_value(keys.drop_last(), values.drop_last(), d)
    }
}

/// What a store that held nothing holds for digest `d` after `keys` were inserted with
/// `values`, in order: the latest value, with one overwrite for each insert after the
/// first.
pub open spec fn inserted(keys: Seq<Seq<u8>>, values: Seq<Seq<u8>>, d: u64) -> Option<
    (Seq<u8>, usize),
> {
    if occurrences(keys, d) > 0 {
        Some((latest_value(keys, values, d), (occurrences(keys, d) - 1) as usize))
    } else {
        None
    }
}

proof fn lemma_occurrences_bound(keys: Seq<Seq<u8>>, d: u64)
    ensures
        occurrences(keys, d) <= keys.len(),
    decreases keys.len(),
{
    if keys.len() > 0 {
        lemma_occurrences_bound(keys.drop_last(), d);
    }
}

proof fn lemma_occurrences_of_member(keys: Seq<Seq<u8>>, k: int)
    requires
        0 <= k < keys.len(),
    ensures
        occurrences(keys, sip_digest(keys[k])) > 0,
    decreases keys.len(),
{
    if k < keys.len() - 1 {
        lemma_occurrences_of_member(keys.drop_last(), k);
        assert(keys.drop_last()[k] == keys[k]);
    }
}

proof fn lemma_run_contents(
    states: Seq<HashFile>,
    keys: Seq<Seq<u8>>,
    values: Seq<Seq<u8>>,
    n: int,
)
    requires
        insert_run(states, keys, values),
        forall|d: u64| #[trigger] states[0].contents(d) is None,
        keys.len() <= usize::MAX,
        0 <= n <= keys.len(),
    ensures
        forall|d: u64| #[trigger] states[n].contents(d) == inserted(keys.take(n), values.take(n), d),
    decreases n,
{
    if n == 0 {
        assert forall|d: u64| #[trigger] states[n].contents(d) == inserted(
            keys.take(n),
            values.take(n),
            d,
        ) by {
            assert(occurrences(keys.take(0), d) == 0);
        }
    } else {
        let i = n - 1;
        lemma_run_contents(states, keys, values, i);
        assert(HashFile::insert_spec(states[i], states[i + 1], keys[i], values[i], Ok(())));
        let kn = keys.take(n);
        let vn = values.take(n);
        assert(kn.drop_last() =~= keys.take(i));
        assert(vn.drop_last() =~= values.take(i));
        assert(kn.last() == keys[i]);
        assert(vn[n - 1] == values[i]);
        assert forall|d: u64| #[trigger] states[n].contents(d) == inserted(kn, vn, d) by {
            lemma_occurrences_bound(keys.take(i), d);
            if d == sip_digest(keys[i]) {
                assert(states[n].contents(d) == after_insert(states[i].contents(d), values[i]));
                if occurrences(keys.take(i), d) > 0 {
                    let c = (occurrences(keys.take(i), d) - 1) as usize;
                    assert(bump(c) == (occurrences(kn, d) - 1) as usize);
                }
            }
        }
    }
}

/// Inserting keys with values into a store that held nothing, then finalizing, leaves
/// for each key the value of its last insert, counted as overwritten once for every
/// insert after the first (so a key inserted once has count zero); a key never inserted
/// is absent. After the finalize, lookups give exactly this.
pub proof fn round_trip(states: Seq<HashFile>, keys: Seq<Seq<u8>>, values: Seq<Seq<u8>>, done: HashFile)
    requires
        insert_run(states, keys, values),
        forall|d: u64| #[trigger] states[0].contents(d) is None,
        keys.len() <= usize::MAX,
        HashFile::finalize_spec(states[keys.len() as int], done),
    ensures
        done.is_final(),
        forall|d: u64| #[trigger] done.contents(d) == inserted(keys, values, d),
        forall|k: int|
            0 <= k < keys.len() ==> done.contents(sip_digest(#[trigger] keys[k])) == Some(
                (
                    latest_value(keys, values, sip_digest(keys[k])),
                    (occurrences(keys, sip_digest(keys[k])) - 1) as usize,
                ),
            ),
{
    let n = keys.len() as int;
    lemma_run_contents(states, keys, values, n);
    assert(keys.take(n) =~= keys);
    assert(values.take(n) =~= values);
    assert forall|d: u64| #[trigger] done.contents(d) == inserted(keys, values, d) by {
        assert(done.contents(d) == states[n].contents(d));
    }
    assert forall|k: int| 0 <= k < keys.len() implies done.contents(sip_digest(#[trigger] keys[k]))
        == Some(
        (
            latest_value(keys, values, sip_digest(keys[k])),
            (occurrences(keys, sip_digest(keys[k])) - 1) as usize,
        ),
    ) by {
        lemma_occurrences_of_member(keys, k);
        assert(done.contents(sip_digest(keys[k])) == inserted(keys, values, sip_digest(keys[k])));
    }
}

/// After a finalize the data file holds one line for each key that the store holds, in
/// index order, with the value the store holds for it, and nothing else: values that were
/// overwritten are gone.
pub proof fn finalize_reclaims(before: HashFile, after: HashFile)
    requires
        before.wf(),
        HashFile::finalize_spec(before, after),
        after.wf(),
    ensures
        ({
            let items = live_items(after.lines(), after.data_bytes());
            &&& after.data_bytes() == slot_bytes(items)
            &&& sorted_items(items)
            &&& forall|i: int|
                0 <= i < items.len() ==> after.contents(sip_digest(#[trigger] items[i].key))
                    == Some((items[i].value, items[i].count))
            &&& forall|d: u64|
                #[trigger] after.contents(d) is Some ==> exists|i: int|
                    0 <= i < items.len() && sip_digest(#[trigger] items[i].key) == d
        }),
{
    let f = crate::flush::merge_spec(
        before.lines(),
        before.pending(),
        before.data_bytes().len() as nat,
        before.width() as nat,
    );
    let ls = if before.pending().len() > 0 {
        f.lines
    } else {
        before.lines()
    };
    let d0 = if before.pending().len() > 0 {
        before.data_bytes() + f.appended
    } else {
        before.data_bytes()
    };
    let w = if before.pending().len() > 0 {
        f.pad
    } else {
        before.width() as nat
    };
    let items0 = live_items(ls, d0);
    after.lemma_data_len();
    lemma_live_items_clean(ls, d0);
    lemma_reread(items0, w, items0.len() as int);
    assert(compacted_lines(items0, w).take(items0.len() as int) =~= compacted_lines(items0, w));
    assert(items0.take(items0.len() as int) =~= items0);
    let items = live_items(after.lines(), after.data_bytes());
    assert(items == items0);
    lemma_searchable_sorted(after.lines(), after.width() as nat);
    lemma_live_items_sorted(after.lines(), after.data_bytes());
    assert forall|i: int| 0 <= i < items.len() implies after.contents(
        sip_digest(#[trigger] items[i].key),
    ) == Some((items[i].value, items[i].count)) by {
        let d = sip_digest(items[i].key);
        lemma_index_entry_items(after.lines(), after.data_bytes(), d);
        lemma_item_entry_at(items, i);
        assert(after.contents(d) == index_entry(after.lines(), after.data_bytes(), d));
    }
    assert forall|d: u64| #[trigger] after.contents(d) is Some implies exists|i: int|
        0 <= i < items.len() && sip_digest(#[trigger] items[i].key) == d by {
        lemma_index_entry_items(after.lines(), after.data_bytes(), d);
        assert(after.contents(d) == index_entry(after.lines(), after.data_bytes(), d));
    }
}

/// Insert `value_a` under a key into a store that held nothing, finalize, insert
/// `value_b` under the same key, finalize: the data file then holds `value_b` alone.
pub proof fn overwritten_value_is_reclaimed(
    s0: HashFile,
    s1: HashFile,
    s2: HashFile,
    s3: HashFile,
    s4: HashFile,
    key: Seq<u8>,
    value_a: Seq<u8>,
    value_b: Seq<u8>,
)
    requires
        s0.wf(),
        forall|d: u64| #[trigger] s0.contents(d) is None,
        HashFile::insert_spec(s0, s1, key, value_a, Ok(())),
        s1.wf(),
        HashFile::finalize_spec(s1, s2),
        s2.wf(),
        HashFile::insert_spec(s2, s3, key, value_b, Ok(())),
        s3.wf(),
        HashFile::finalize_spec(s3, s4),
        s4.wf(),
    ensures
        s4.data_bytes() == value_b + seq![NEWLINE],
        s4.contents(sip_digest(key)) == Some((value_b, 1usize)),
{
    let dk = sip_digest(key);
    assert(s1.contents(dk) == Some((value_a, 0usize)));
    assert(s2.contents(dk) == Some((value_a, 0usize)));
    assert(s3.contents(dk) == Some((value_b, 1usize)));
    assert(s4.contents(dk) == Some((value_b, 1usize)));
    assert forall|d: u64| d != dk implies #[trigger] s4.contents(d) is None by {
        assert(s1.contents(d) == s0.contents(d));
        assert(s2.contents(d) == s1.contents(d));
        assert(s3.contents(d) == s2.contents(d));
        assert(s4.contents(d) == s3.contents(d));
    }
    finalize_reclaims(s3, s4);
    let items = live_items(s4.lines(), s4.data_bytes());
    assert(exists|i: int| 0 <= i < items.len() && sip_digest(#[trigger] items[i].key) == dk);
    let i = choose|i: int| 0 <= i < items.len() && sip_digest(#[trigger] items[i].key) == dk;
    assert forall|j: int| 0 <= j < items.len() implies j == i && #[trigger] items[j] == items[i] by {
        assert(s4.contents(sip_digest(items[j].key)) is Some);
        if j != i {
            if j < i {
                assert(sip_digest(items[j].key) < sip_digest(items[i].key));
            } else {
                assert(sip_digest(items[i].key) < sip_digest(items[j].key));
            }
        }
    }
    assert(items.len() == 1) by {
        if items.len() > 1 {
            assert(items[0] == items[i]);
            assert(items[1] == items[i]);
        }
    }
    assert(items[0].value == value_b);
    assert(items.drop_last() =~= Seq::<Item>::empty());
    assert(slot_bytes(items) == slot_bytes(items.drop_last()) + items[0].value + seq![NEWLINE]);
    assert(slot_bytes(items.drop_last()) =~= Seq::<u8>::empty());
    assert(s4.data_bytes() =~= value_b + seq![NEWLINE]);
}

proof fn lemma_occurrences_none(keys: Seq<Seq<u8>>, d: u64)
    requires
        forall|k: int| 0 <= k < keys.len() ==> sip_digest(#[trigger] keys[k]) != d,
    ensures
        occurrences(keys, d) == 0,
    decreases keys.len(),
{
    if keys.len() > 0 {
        let t = keys.drop_last();
        assert forall|k: int| 0 <= k < t.len() implies sip_digest(#[trigger] t[k]) != d by {
            assert(t[k] == keys[k]);
        }
        lemma_occurrences_none(t, d);
        assert(keys.last() == keys[keys.len() - 1]);
    }
}

proof fn lemma_distinct_member(keys: Seq<Seq<u8>>, values: Seq<Seq<u8>>, k: int)
    requires
        distinct_digests(keys),
        values.len() == keys.len(),
        0 <= k < keys.len(),
    ensures
        occurrences(keys, sip_digest(keys[k])) == 1,
        latest_value(keys, values, sip_digest(keys[k])) == values[k],
    decreases keys.len(),
{
    let n = keys.len() - 1;
    let t = keys.drop_last();
    let d = sip_digest(keys[k]);
    assert(keys.last() == keys[n]);
    assert(distinct_digests(t)) by {
        assert forall|i: int, j: int| 0 <= i < j < t.len() implies sip_digest(#[trigger] t[i])
            != sip_digest(#[trigger] t[j]) by {
            assert(t[i] == keys[i] && t[j] == keys[j]);
        }
    }
    if k == n {
        assert forall|i: int| 0 <= i < t.len() implies sip_digest(#[trigger] t[i]) != d by {
            assert(t[i] == keys[i]);
        }
        lemma_occurrences_none(t, d);
    } else {
        assert(sip_digest(keys[k]) != sip_digest(keys[n]));
        assert(t[k] == keys[k]);
        lemma_distinct_member(t, values.drop_last(), k);
    }
}

/// Inserting keys of distinct digests with values into a store that held nothing, then
/// finalizing, leaves each key with its own value and an overwrite count of zero.
pub proof fn round_trip_distinct(
    states: Seq<HashFile>,
    keys: Seq<Seq<u8>>,
    values: Seq<Seq<u8>>,
    done: HashFile,
)
    requires
        insert_run(states, keys, values),
        distinct_digests(keys),
        forall|d: u64| #[trigger] states[0].contents(d) is None,
        keys.len() <= usize::MAX,
        HashFile::finalize_spec(states[keys.len() as int], done),
    ensures
        done.is_final(),
        forall|k: int|
            0 <= k < keys.len() ==> done.contents(sip_digest(#[trigger] keys[k])) == Some(
                (values[k], 0usize),
            ),
{
    round_trip(states, keys, values, done);
    assert forall|k: int| 0 <= k < keys.len() implies done.contents(sip_digest(#[trigger] keys[k]))
        == Some((values[k], 0usize)) by {
        lemma_distinct_member(keys, values, k);
    }
}

} // verus!
