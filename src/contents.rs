//! What a store holds, key by key: the model that flushes and compaction keep.
use vstd::prelude::*;
use crate::sip_digest;
use crate::text::{NEWLINE, find_from, one_line, lemma_find_bounds, lemma_find_at};
use crate::record::{parse_line, digest_at, sorted_index};
use crate::record::{RecordView, record_text, pad_to, no_sep, lemma_parse_repadded};
use crate::memtable::{EntryView, entries_map, sorted_entries, has_digest, lemma_entries_map_at};
use crate::flush::{merged_count, merge_spec, grow, storable_entries, lemma_index_tail,
    lemma_entries_tail, lemma_merge_sorted, };
use crate::record::lemma_parse_padded;
use crate::compact::{value_at, from_index, Item, live_items, slot_bytes, placed, text_width,
    compacted_lines, clean_items, sorted_items, lemma_slot_prefix, lemma_reread,
    lemma_live_items_sorted, lemma_live_items_clean, lemma_compacted_searchable,
    lemma_compacted_uniform,
};
use crate::lookup::{searchable, lemma_searchable_sorted};
use crate::flush::lines_view;
use crate::record::parse_record;
use crate::text::find_byte;

verus! {

/// Every record of the index points at a value that ends with a line terminator inside
/// the data file.
pub open spec fn anchored(ls: Seq<Seq<u8>>, data: Seq<u8>) -> bool {
    forall|k: int|
        0 <= k < ls.len() && parse_line(#[trigger] ls[k]) is Some ==> {
            let off = parse_line(ls[k])->0.offset as int;
            off < data.len() && find_from(data, NEWLINE, off) < data.len()
        }
}

/// The value and count of the record of line `k`.
pub open spec fn line_entry(ls: Seq<Seq<u8>>, data: Seq<u8>, k: int) -> (Seq<u8>, usize) {
    (value_at(data, parse_line(ls[k])->0.offset as nat), parse_line(ls[k])->0.count)
}

/// What the index gives for digest `d`: the value that its record points at, and its
/// overwrite count.
pub open spec fn index_entry(ls: Seq<Seq<u8>>, data: Seq<u8>, d: u64) -> Option<(Seq<u8>, usize)> {
    if from_index(ls, d) {
        let k = choose|k: int|
            0 <= k < ls.len() && parse_line(#[trigger] ls[k]) is Some && digest_at(ls, k) == d;
        Some(line_entry(ls, data, k))
    } else {
        None
    }
}

/// What a store with index `ls`, data file `data` and buffered entries `es` holds for
/// digest `d`: a buffered entry's value, counted over the record it will replace, or
/// else what the index gives.
pub open spec fn stored(ls: Seq<Seq<u8>>, data: Seq<u8>, es: Seq<EntryView>, d: u64) -> Option<
    (Seq<u8>, usize),
> {
    let m = entries_map(es);
    if m.contains_key(d) {
        Some(
            (
                m[d].value,
                match index_entry(ls, data, d) {
                    Some((_, c)) => merged_count(c, m[d].count),
                    None => m[d].count,
                },
            ),
        )
    } else {
        index_entry(ls, data, d)
    }
}

/// In a sorted index, the record of a digest is the one line that holds it.
pub proof fn lemma_index_entry_at(ls: Seq<Seq<u8>>, data: Seq<u8>, k: int)
    requires
        sorted_index(ls),
        0 <= k < ls.len(),
        parse_line(ls[k]) is Some,
    ensures
        index_entry(ls, data, digest_at(ls, k)) == Some(line_entry(ls, data, k)),
{
    let d = digest_at(ls, k);
    assert(from_index(ls, d));
    let j = choose|j: int|
        0 <= j < ls.len() && parse_line(#[trigger] ls[j]) is Some && digest_at(ls, j) == d;
    if j < k {
        assert(digest_at(ls, j) < digest_at(ls, k));
    } else if j > k {
        assert(digest_at(ls, k) < digest_at(ls, j));
    }
}

/// A value that ends inside the data file is unchanged by appending to it.
pub proof fn lemma_value_kept(data: Seq<u8>, t: Seq<u8>, off: int)
    requires
        0 <= off < data.len(),
        find_from(data, NEWLINE, off) < data.len(),
    ensures
        value_at(data + t, off as nat) == value_at(data, off as nat),
        find_from(data + t, NEWLINE, off) == find_from(data, NEWLINE, off),
{
    let e = find_from(data, NEWLINE, off);
    lemma_find_bounds(data, NEWLINE, off);
    let dt = data + t;
    assert forall|x: int| off <= x < e implies dt[x] != NEWLINE by {
        assert(dt[x] == data[x]);
    }
    assert(dt[e] == data[e]);
    lemma_find_at(dt, NEWLINE, off, e);
    assert(dt.subrange(off, e) =~= data.subrange(off, e));
}

/// An anchored index keeps its values when the data file grows.
pub proof fn lemma_anchored_append(ls: Seq<Seq<u8>>, data: Seq<u8>, t: Seq<u8>)
    requires
        anchored(ls, data),
    ensures
        anchored(ls, data + t),
        forall|k: int|
            0 <= k < ls.len() && parse_line(#[trigger] ls[k]) is Some ==> line_entry(ls, data + t, k)
                == line_entry(ls, data, k),
{
    assert forall|k: int| 0 <= k < ls.len() && parse_line(#[trigger] ls[k]) is Some implies {
        let off = parse_line(ls[k])->0.offset as int;
        &&& off < (data + t).len() && find_from(data + t, NEWLINE, off) < (data + t).len()
        &&& line_entry(ls, data + t, k) == line_entry(ls, data, k)
    } by {
        lemma_value_kept(data, t, parse_line(ls[k])->0.offset as int);
    }
}

/// A value written as a line of its own is read back from its offset.
pub proof fn lemma_value_written(data: Seq<u8>, v: Seq<u8>, t: Seq<u8>)
    requires
        one_line(v),
    ensures
        value_at(data + v + seq![NEWLINE] + t, data.len()) == v,
        find_from(data + v + seq![NEWLINE] + t, NEWLINE, data.len() as int) == data.len() + v.len(),
        data.len() < (data + v + seq![NEWLINE] + t).len(),
{
    let all = data + v + seq![NEWLINE] + t;
    let p = data.len() as int;
    assert forall|x: int| p <= x < p + v.len() implies all[x] != NEWLINE by {
        assert(all[x] == v[x - p]);
    }
    assert(all[p + v.len()] == NEWLINE);
    lemma_find_at(all, NEWLINE, p, p + v.len());
    assert(all.subrange(p, p + v.len()) =~= v);
}

/// Buffered values that fit on one line of the data file.
pub open spec fn one_line_entries(es: Seq<EntryView>) -> bool {
    forall|k: int| 0 <= k < es.len() ==> one_line(#[trigger] es[k].value)
}

/// An anchored index gives the same for every digest after the data file grows.
pub proof fn lemma_index_entry_append(ls: Seq<Seq<u8>>, data: Seq<u8>, t: Seq<u8>, d: u64)
    requires
        anchored(ls, data),
    ensures
        index_entry(ls, data + t, d) == index_entry(ls, data, d),
{
    lemma_anchored_append(ls, data, t);
    if from_index(ls, d) {
        let k = choose|k: int|
            0 <= k < ls.len() && parse_line(#[trigger] ls[k]) is Some && digest_at(ls, k) == d;
        assert(line_entry(ls, data + t, k) == line_entry(ls, data, k));
    }
}

/// Past a first line that does not hold digest `d`, a sorted index gives for `d` what its
/// other lines give.
pub proof fn lemma_index_entry_tail(ls: Seq<Seq<u8>>, data: Seq<u8>, d: u64)
    requires
        sorted_index(ls),
        ls.len() > 0,
        !(parse_line(ls[0]) is Some && digest_at(ls, 0) == d),
    ensures
        index_entry(ls, data, d) == index_entry(ls.drop_first(), data, d),
{
    let t = ls.drop_first();
    lemma_index_tail(ls);
    if from_index(ls, d) {
        let k = choose|k: int|
            0 <= k < ls.len() && parse_line(#[trigger] ls[k]) is Some && digest_at(ls, k) == d;
        assert(k > 0);
        assert(t[k - 1] == ls[k]);
        assert(digest_at(t, k - 1) == d);
        lemma_index_entry_at(ls, data, k);
        lemma_index_entry_at(t, data, k - 1);
    } else if from_index(t, d) {
        let k = choose|k: int|
            0 <= k < t.len() && parse_line(#[trigger] t[k]) is Some && digest_at(t, k) == d;
        assert(t[k] == ls[k + 1]);
        assert(parse_line(ls[k + 1]) is Some && digest_at(ls, k + 1) == d);
    }
}

/// The entries by digest are the first entry over the entries by digest of the rest.
pub proof fn lemma_entries_map_first(es: Seq<EntryView>, d: u64)
    requires
        sorted_entries(es),
        es.len() > 0,
    ensures
        entries_map(es).contains_key(d) == (d == es[0].digest || entries_map(
            es.drop_first(),
        ).contains_key(d)),
        d == es[0].digest ==> entries_map(es)[d] == es[0],
        d != es[0].digest && entries_map(es).contains_key(d) ==> entries_map(es)[d] == entries_map(
            es.drop_first(),
        )[d],
{
    let t = es.drop_first();
    lemma_entries_tail_sorted(es);
    lemma_entries_map_at(es, 0);
    if entries_map(es).contains_key(d) && d != es[0].digest {
        let k = choose|k: int| 0 <= k < es.len() && #[trigger] es[k].digest == d;
        assert(k > 0);
        assert(t[k - 1] == es[k]);
        lemma_entries_map_at(es, k);
        lemma_entries_map_at(t, k - 1);
    }
    if entries_map(t).contains_key(d) {
        let k = choose|k: int| 0 <= k < t.len() && #[trigger] t[k].digest == d;
        assert(t[k] == es[k + 1]);
        assert(has_digest(es, d));
    }
}

proof fn lemma_entries_tail_sorted(es: Seq<EntryView>)
    requires
        sorted_entries(es),
        es.len() > 0,
    ensures
        sorted_entries(es.drop_first()),
{
    let t = es.drop_first();
    assert forall|a: int, b: int| 0 <= a < b < t.len() implies t[a].digest < t[b].digest by {
        assert(es[a + 1].digest < es[b + 1].digest);
    }
    assert forall|a: int| 0 <= a < t.len() implies #[trigger] t[a].digest == sip_digest(t[a].key) by {
        assert(t[a] == es[a + 1]);
    }
}

/// A flush of an anchored, sorted index writes an anchored index that gives, for every
/// digest, what the store held before: buffered entries win, over the records they
/// replace.
pub proof fn lemma_merge_keeps(ls: Seq<Seq<u8>>, es: Seq<EntryView>, data: Seq<u8>, pad: nat)
    requires
        sorted_index(ls),
        anchored(ls, data),
        sorted_entries(es),
        storable_entries(es),
        one_line_entries(es),
        (data + merge_spec(ls, es, data.len(), pad).appended).len() <= u64::MAX,
    ensures
        anchored(
            merge_spec(ls, es, data.len(), pad).lines,
            data + merge_spec(ls, es, data.len(), pad).appended,
        ),
        forall|d: u64|
            #[trigger] index_entry(
                merge_spec(ls, es, data.len(), pad).lines,
                data + merge_spec(ls, es, data.len(), pad).appended,
                d,
            ) == stored(ls, data, es, d),
    decreases ls.len() + es.len(),
{
    let f = merge_spec(ls, es, data.len(), pad);
    let out = f.lines;
    let dd = data + f.appended;
    lemma_merge_sorted(ls, es, data.len(), pad);
    if ls.len() == 0 && es.len() == 0 {
        assert forall|d: u64| #[trigger] index_entry(out, dd, d) == stored(ls, data, es, d) by {
            assert(!entries_map(es).contains_key(d));
        }
    } else if ls.len() > 0 && parse_line(ls[0]) is None {
        let t = ls.drop_first();
        lemma_index_tail(ls);
        assert(anchored(t, data)) by {
            assert forall|k: int| 0 <= k < t.len() && parse_line(#[trigger] t[k]) is Some implies {
                let off = parse_line(t[k])->0.offset as int;
                off < data.len() && find_from(data, NEWLINE, off) < data.len()
            } by {
                assert(t[k] == ls[k + 1]);
            }
        }
        lemma_merge_keeps(t, es, data, pad);
        assert forall|d: u64| #[trigger] index_entry(out, dd, d) == stored(ls, data, es, d) by {
            lemma_index_entry_tail(ls, data, d);
        }
    } else if ls.len() > 0 && (es.len() == 0 || sip_digest(parse_line(ls[0])->0.key)
        < es[0].digest) {
        let t = ls.drop_first();
        let d0 = digest_at(ls, 0);
        lemma_index_tail(ls);
        assert(anchored(t, data)) by {
            assert forall|k: int| 0 <= k < t.len() && parse_line(#[trigger] t[k]) is Some implies {
                let off = parse_line(t[k])->0.offset as int;
                off < data.len() && find_from(data, NEWLINE, off) < data.len()
            } by {
                assert(t[k] == ls[k + 1]);
            }
        }
        let np = grow(pad, ls[0].len());
        let rest = merge_spec(t, es, data.len(), np);
        assert(f.appended == rest.appended);
        lemma_merge_keeps(t, es, data, np);
        lemma_merge_sorted(t, es, data.len(), np);
        lemma_parse_repadded(ls[0], pad);
        assert(out == seq![pad_to(ls[0], pad)] + rest.lines);
        assert(out[0] == pad_to(ls[0], pad));
        assert(out.drop_first() =~= rest.lines);
        let off0 = parse_line(ls[0])->0.offset as int;
        assert(off0 < data.len() && find_from(data, NEWLINE, off0) < data.len());
        lemma_value_kept(data, f.appended, off0);
        assert(anchored(out, dd)) by {
            assert forall|k: int| 0 <= k < out.len() && parse_line(#[trigger] out[k]) is Some implies {
                let off = parse_line(out[k])->0.offset as int;
                off < dd.len() && find_from(dd, NEWLINE, off) < dd.len()
            } by {
                if k > 0 {
                    assert(out[k] == rest.lines[k - 1]);
                }
            }
        }
        assert forall|k: int| 0 <= k < es.len() implies #[trigger] es[k].digest > d0 by {
            if k > 0 {
                assert(es[0].digest < es[k].digest);
            }
        }
        assert forall|d: u64| #[trigger] index_entry(out, dd, d) == stored(ls, data, es, d) by {
            if d == d0 {
                lemma_index_entry_at(out, dd, 0);
                lemma_index_entry_at(ls, data, 0);
                if entries_map(es).contains_key(d) {
                    let k = choose|k: int| 0 <= k < es.len() && #[trigger] es[k].digest == d;
                }
            } else {
                lemma_index_entry_tail(out, dd, d);
                lemma_index_entry_tail(ls, data, d);
            }
        }
    } else {
        let e = es[0];
        let same = ls.len() > 0 && sip_digest(parse_line(ls[0])->0.key) == e.digest;
        let count = if same {
            merged_count(parse_line(ls[0])->0.count, e.count)
        } else {
            e.count
        };
        let rec = RecordView { key: e.key, offset: data.len() as u64, count };
        let text = record_text(rec);
        let nls = if same {
            ls.drop_first()
        } else {
            ls
        };
        let data2 = data + e.value + seq![NEWLINE];
        let np = grow(pad, text.len());
        assert(data2.len() == data.len() + e.value.len() + 1);
        let rest = merge_spec(nls, es.drop_first(), data2.len(), np);
        assert(f.appended == e.value + seq![NEWLINE] + rest.appended);
        assert(dd =~= data2 + rest.appended);
        lemma_entries_tail(es);
        if same {
            lemma_index_tail(ls);
        }
        lemma_anchored_append(ls, data, e.value + seq![NEWLINE]);
        assert(data + (e.value + seq![NEWLINE]) =~= data2);
        assert(anchored(nls, data2)) by {
            if same {
                let t = ls.drop_first();
                assert forall|k: int| 0 <= k < t.len() && parse_line(#[trigger] t[k]) is Some implies {
                    let off = parse_line(t[k])->0.offset as int;
                    off < data2.len() && find_from(data2, NEWLINE, off) < data2.len()
                } by {
                    assert(t[k] == ls[k + 1]);
                }
            }
        }
        assert(one_line_entries(es.drop_first())) by {
            assert forall|k: int| 0 <= k < es.len() - 1 implies one_line(
                #[trigger] es.drop_first()[k].value,
            ) by {
                assert(es.drop_first()[k] == es[k + 1]);
            }
        }
        lemma_merge_keeps(nls, es.drop_first(), data2, np);
        lemma_merge_sorted(nls, es.drop_first(), data2.len(), np);
        assert(no_sep(es[0].key));
        assert(e.digest == sip_digest(e.key));
        assert(one_line(es[0].value));
        lemma_parse_padded(rec, pad);
        assert(out == seq![pad_to(text, pad)] + rest.lines);
        assert(out.drop_first() =~= rest.lines);
        assert(digest_at(out, 0) == e.digest);
        lemma_value_written(data, e.value, rest.appended);
        assert(data + e.value + seq![NEWLINE] + rest.appended =~= dd);
        assert((data.len() as u64) as int == data.len());
        assert(anchored(out, dd)) by {
            assert forall|k: int| 0 <= k < out.len() && parse_line(#[trigger] out[k]) is Some implies {
                let off = parse_line(out[k])->0.offset as int;
                off < dd.len() && find_from(dd, NEWLINE, off) < dd.len()
            } by {
                if k > 0 {
                    assert(out[k] == rest.lines[k - 1]);
                }
            }
        }
        assert(line_entry(out, dd, 0) == (e.value, count));
        lemma_entries_map_at(es, 0);
        assert forall|d: u64| #[trigger] index_entry(out, dd, d) == stored(ls, data, es, d) by {
            lemma_entries_map_first(es, d);
            if d == e.digest {
                lemma_index_entry_at(out, dd, 0);
                if same {
                    lemma_index_entry_at(ls, data, 0);
                } else if ls.len() > 0 {
                    assert(!from_index(ls, d)) by {
                        if from_index(ls, d) {
                            let k = choose|k: int|
                                0 <= k < ls.len() && parse_line(#[trigger] ls[k]) is Some
                                    && digest_at(ls, k) == d;
                            if k > 0 {
                                assert(digest_at(ls, 0) < digest_at(ls, k));
                            }
                        }
                    }
                }
            } else {
                lemma_index_entry_tail(out, dd, d);
                lemma_index_entry_append(nls, data, e.value + seq![NEWLINE], d);
                if same {
                    lemma_index_entry_tail(ls, data, d);
                }
            }
        }
    }
}

/// What a list of items gives for digest `d`.
pub open spec fn item_entry(items: Seq<Item>, d: u64) -> Option<(Seq<u8>, usize)> {
    if exists|i: int| 0 <= i < items.len() && sip_digest(#[trigger] items[i].key) == d {
        let i = choose|i: int| 0 <= i < items.len() && sip_digest(#[trigger] items[i].key) == d;
        Some((items[i].value, items[i].count))
    } else {
        None
    }
}

pub proof fn lemma_item_entry_at(items: Seq<Item>, i: int)
    requires
        sorted_items(items),
        0 <= i < items.len(),
    ensures
        item_entry(items, sip_digest(items[i].key)) == Some((items[i].value, items[i].count)),
{
    let d = sip_digest(items[i].key);
    assert(0 <= i < items.len() && sip_digest(items[i].key) == d);
    let j = choose|j: int| 0 <= j < items.len() && sip_digest(#[trigger] items[j].key) == d;
    if j < i {
        assert(sip_digest(items[j].key) < sip_digest(items[i].key));
    } else if j > i {
        assert(sip_digest(items[i].key) < sip_digest(items[j].key));
    }
}

proof fn lemma_sorted_drop_last(ls: Seq<Seq<u8>>)
    requires
        sorted_index(ls),
        ls.len() > 0,
    ensures
        sorted_index(ls.drop_last()),
{
    let t = ls.drop_last();
    assert forall|a: int, b: int|
        0 <= a < b < t.len() && parse_line(#[trigger] t[a]) is Some && parse_line(
            #[trigger] t[b],
        ) is Some implies digest_at(t, a) < digest_at(t, b) by {
        assert(t[a] == ls[a] && t[b] == ls[b]);
        assert(digest_at(ls, a) < digest_at(ls, b));
    }
}

/// A sorted index gives for each digest what its list of items gives.
pub proof fn lemma_index_entry_items(ls: Seq<Seq<u8>>, data: Seq<u8>, d: u64)
    requires
        sorted_index(ls),
    ensures
        index_entry(ls, data, d) == item_entry(live_items(ls, data), d),
    decreases ls.len(),
{
    if ls.len() == 0 {
        assert(!from_index(ls, d));
    } else {
        let n = ls.len() - 1;
        let t = ls.drop_last();
        lemma_sorted_drop_last(ls);
        lemma_index_entry_items(t, data, d);
        lemma_live_items_sorted(ls, data);
        lemma_live_items_sorted(t, data);
        let rest = live_items(t, data);
        let now = live_items(ls, data);
        assert(ls.last() == ls[n]);
        let holds_last = parse_line(ls[n]) is Some && digest_at(ls, n) == d;
        if holds_last {
            lemma_index_entry_at(ls, data, n);
            assert(now.len() == rest.len() + 1);
            assert(now[now.len() - 1].key == parse_line(ls[n])->0.key);
            lemma_item_entry_at(now, now.len() - 1);
        } else {
            assert(index_entry(ls, data, d) == index_entry(t, data, d)) by {
                if from_index(ls, d) {
                    let k = choose|k: int|
                        0 <= k < ls.len() && parse_line(#[trigger] ls[k]) is Some && digest_at(ls, k)
                            == d;
                    assert(k < n);
                    assert(t[k] == ls[k]);
                    assert(digest_at(t, k) == d);
                    lemma_index_entry_at(ls, data, k);
                    lemma_index_entry_at(t, data, k);
                } else if from_index(t, d) {
                    let k = choose|k: int|
                        0 <= k < t.len() && parse_line(#[trigger] t[k]) is Some && digest_at(t, k)
                            == d;
                    assert(t[k] == ls[k]);
                    assert(parse_line(ls[k]) is Some && digest_at(ls, k) == d);
                }
            }
            assert(item_entry(now, d) == item_entry(rest, d)) by {
                assert forall|i: int| 0 <= i < rest.len() implies now[i] == rest[i] by {}
                if exists|i: int| 0 <= i < now.len() && sip_digest(#[trigger] now[i].key) == d {
                    let i = choose|i: int| 0 <= i < now.len() && sip_digest(#[trigger] now[i].key) == d;
                    assert(i < rest.len());
                    lemma_item_entry_at(now, i);
                    lemma_item_entry_at(rest, i);
                } else if exists|i: int| 0 <= i < rest.len() && sip_digest(#[trigger] rest[i].key) == d {
                    let i = choose|i: int| 0 <= i < rest.len() && sip_digest(#[trigger] rest[i].key)
                        == d;
                    assert(now[i] == rest[i]);
                }
            }
        }
    }
}

/// Each line of a compacted index holds its record, whose value ends inside the
/// compacted data file.
proof fn lemma_compacted_line(items: Seq<Item>, w: nat, k: int)
    requires
        clean_items(items),
        slot_bytes(items).len() <= u64::MAX,
        0 <= k < items.len(),
    ensures
        parse_line(compacted_lines(items, w)[k]) == Some(placed(items)[k]),
        placed(items)[k].offset < slot_bytes(items).len(),
        find_from(slot_bytes(items), NEWLINE, placed(items)[k].offset as int) < slot_bytes(
            items,
        ).len(),
{
    let d = slot_bytes(items);
    let r = placed(items)[k];
    lemma_parse_padded(r, text_width(placed(items), w));
    lemma_slot_prefix(items, k + 1);
    let a = slot_bytes(items.take(k));
    let b = slot_bytes(items.take(k + 1));
    let v = items[k].value;
    assert(items.take(k + 1).drop_last() =~= items.take(k));
    assert(b == a + v + seq![NEWLINE]);
    let p = a.len() as int;
    assert(r.offset as int == p);
    assert forall|x: int| 0 <= x < v.len() + 1 implies d[p + x] == #[trigger] b[p + x] by {
        assert(d.subrange(0, b.len() as int)[p + x] == d[p + x]);
    }
    assert forall|x: int| p <= x < p + v.len() implies #[trigger] d[x] != NEWLINE by {
        assert(d[x] == b[x]);
        assert(b[x] == v[x - p]);
    }
    assert(d[p + v.len()] == b[p + v.len()]);
    lemma_find_at(d, NEWLINE, p, p + v.len());
}

/// Compacting a sorted index gives a searchable, anchored index that gives the same for
/// every digest.
pub proof fn lemma_compact_keeps(ls: Seq<Seq<u8>>, data: Seq<u8>, w: nat)
    requires
        sorted_index(ls),
        slot_bytes(live_items(ls, data)).len() <= u64::MAX,
    ensures
        anchored(
            compacted_lines(live_items(ls, data), w),
            slot_bytes(live_items(ls, data)),
        ),
        forall|d: u64|
            #[trigger] index_entry(
                compacted_lines(live_items(ls, data), w),
                slot_bytes(live_items(ls, data)),
                d,
            ) == index_entry(ls, data, d),
{
    let items = live_items(ls, data);
    let lines = compacted_lines(items, w);
    let dd = slot_bytes(items);
    lemma_live_items_clean(ls, data);
    lemma_live_items_sorted(ls, data);
    lemma_compacted_searchable(items, w);
    lemma_searchable_sorted(lines, text_width(placed(items), w));
    lemma_compacted_uniform(items, w);
    assert(anchored(lines, dd)) by {
        assert forall|k: int| 0 <= k < lines.len() && parse_line(#[trigger] lines[k]) is Some implies {
            let off = parse_line(lines[k])->0.offset as int;
            off < dd.len() && find_from(dd, NEWLINE, off) < dd.len()
        } by {
            lemma_compacted_line(items, w, k);
        }
    }
    lemma_reread(items, w, items.len() as int);
    assert(lines.take(items.len() as int) =~= lines);
    assert(items.take(items.len() as int) =~= items);
    assert forall|d: u64| #[trigger] index_entry(lines, dd, d) == index_entry(ls, data, d) by {
        lemma_index_entry_items(lines, dd, d);
        lemma_index_entry_items(ls, data, d);
    }
}

/// Whether every record of the index `lines` points at a value that ends inside `data`.
pub fn is_anchored(lines: &Vec<Vec<u8>>, data: &Vec<u8>) -> (r: bool)
    ensures
        r == anchored(lines_view(lines@), data@),
{
    let ghost ls = lines_view(lines@);
    let n = lines.len();
    let mut i: usize = 0;
    while i < n
        invariant
            i <= n == lines@.len() == ls.len(),
            ls == lines_view(lines@),
            forall|k: int|
                0 <= k < i && parse_line(#[trigger] ls[k]) is Some ==> {
                    let off = parse_line(ls[k])->0.offset as int;
                    off < data@.len() && find_from(data@, NEWLINE, off) < data@.len()
                },
        decreases n - i,
    {
        proof {
            assert(ls[i as int] == lines@[i as int]@);
        }
        match parse_record(lines[i].as_slice()) {
            None => {},
            Some(rec) => {
                if rec.offset >= data.len() as u64 {
                    assert(parse_line(ls[i as int])->0.offset == rec.offset);
                    return false;
                }
                let slice = data.as_slice();
                let end = find_byte(slice, NEWLINE, rec.offset as usize);
                assert(slice@ == data@);
                proof {
                    lemma_find_bounds(data@, NEWLINE, rec.offset as int);
                }
                if end == data.len() {
                    return false;
                }
                assert(parse_line(ls[i as int])->0.offset == rec.offset);
                assert(rec.offset as int == (rec.offset as usize) as int);
                assert(end == find_from(data@, NEWLINE, rec.offset as int));
                assert(rec.offset < data@.len());
                assert forall|k: int| 0 <= k < i + 1 && parse_line(#[trigger] ls[k]) is Some implies {
                    let off = parse_line(ls[k])->0.offset as int;
                    off < data@.len() && find_from(data@, NEWLINE, off) < data@.len()
                } by {
                    if k == i {
                        assert(parse_line(ls[k])->0.offset == rec.offset);
                    }
                }
            },
        }
        i = i + 1;
    }
    true
}

/// `bump` taken after a merge of counts is the merge taken after `bump`.
pub proof fn lemma_bump_merged(c: usize, e: usize)
    ensures
        merged_count(c, crate::memtable::bump(e)) == crate::memtable::bump(merged_count(c, e)),
{
}

/// What a store holds for a key after `value` is inserted under it, given what it held:
/// the new value, with one more overwrite than before (none for a new key).
pub open spec fn after_insert(held: Option<(Seq<u8>, usize)>, value: Seq<u8>) -> Option<
    (Seq<u8>, usize),
> {
    Some(
        (
            value,
            match held {
                Some((_, c)) => crate::memtable::bump(c),
                None => 0,
            },
        ),
    )
}

} // verus!
