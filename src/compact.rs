//! Compaction: both files rewritten with live values only and records of one width.
use vstd::prelude::*;
use crate::text::{NEWLINE, SEP, one_line, find_from, lemma_find_bounds, lemma_find_at, find_byte, copy_range,
    append_bytes,
};
use crate::record::{RecordView, Record, record_text, pad_to, parse_line, encode_record, pad_line,
    parse_record, no_sep, lemma_parse_padded, digest_at, sorted_index,
};
use crate::sip_digest;
use crate::lookup::searchable;
use crate::flush::{lines_view, grow};

verus! {

/// A live key: its key, the value its record points at, and its overwrite count.
pub struct Item {
    pub key: Seq<u8>,
    pub value: Seq<u8>,
    pub count: usize,
}

/// The line of the data file that starts at byte `offset` (empty past the end).
pub open spec fn value_at(data: Seq<u8>, offset: nat) -> Seq<u8> {
    if offset < data.len() {
        data.subrange(offset as int, find_from(data, NEWLINE, offset as int))
    } else {
        seq![]
    }
}

/// The records of an index, in order, each with the value it points at in `data`; lines
/// that hold no record are left out.
pub open spec fn live_items(ls: Seq<Seq<u8>>, data: Seq<u8>) -> Seq<Item>
    decreases ls.len(),
{
    if ls.len() == 0 {
        seq![]
    } else {
        let rest = live_items(ls.drop_last(), data);
        match parse_line(ls.last()) {
            Some(r) => rest.push(
                Item { key: r.key, value: value_at(data, r.offset as nat), count: r.count },
            ),
            None => rest,
        }
    }
}

/// The data file that holds the values of `items` in order, one per line.
pub open spec fn slot_bytes(items: Seq<Item>) -> Seq<u8>
    decreases items.len(),
{
    if items.len() == 0 {
        seq![]
    } else {
        slot_bytes(items.drop_last()) + items.last().value + seq![NEWLINE]
    }
}

/// The records of `items` with their values laid out by `slot_bytes`.
pub open spec fn placed(items: Seq<Item>) -> Seq<RecordView> {
    Seq::new(
        items.len(),
        |i: int|
            RecordView {
                key: items[i].key,
                offset: slot_bytes(items.take(i)).len() as u64,
                count: items[i].count,
            },
    )
}

/// The widest of `w` and the texts of `recs`.
pub open spec fn text_width(recs: Seq<RecordView>, w: nat) -> nat
    decreases recs.len(),
{
    if recs.len() == 0 {
        w
    } else {
        grow(text_width(recs.drop_last(), w), record_text(recs.last()).len())
    }
}

/// The index lines that compaction writes for `items`, starting from width `w`.
pub open spec fn compacted_lines(items: Seq<Item>, w: nat) -> Seq<Seq<u8>> {
    placed(items).map_values(|r: RecordView| pad_to(record_text(r), text_width(placed(items), w)))
}

/// What `value_at` reads.
pub fn read_value(data: &Vec<u8>, offset: u64) -> (r: Vec<u8>)
    ensures
        r@ == value_at(data@, offset as nat),
{
    if offset >= data.len() as u64 {
        return Vec::new();
    }
    let start = offset as usize;
    let end = find_byte(data.as_slice(), NEWLINE, start);
    proof {
        lemma_find_bounds(data@, NEWLINE, start as int);
    }
    copy_range(data.as_slice(), start, end)
}

/// Rewrites the index `lines` and the data file `data`: each record, in index order, gets
/// its value copied to a fresh data file, a new offset into it, and padding to the widest
/// record text (and at least `line_length`). Lines that hold no record are dropped.
/// Returns the new lines, the new data file and the new width.
pub fn compact(lines: &Vec<Vec<u8>>, data: &Vec<u8>, line_length: usize) -> (r: (
    Vec<Vec<u8>>,
    Vec<u8>,
    usize,
))
    ensures
        lines_view(r.0@) == compacted_lines(
            live_items(lines_view(lines@), data@),
            line_length as nat,
        ),
        r.1@ == slot_bytes(live_items(lines_view(lines@), data@)),
        r.2 as nat == text_width(
            placed(live_items(lines_view(lines@), data@)),
            line_length as nat,
        ),
{
    let ghost ls = lines_view(lines@);
    let ghost all = live_items(ls, data@);
    let n = lines.len();
    let mut texts: Vec<Vec<u8>> = Vec::new();
    let mut new_data: Vec<u8> = Vec::new();
    let mut width: usize = line_length;
    let mut i: usize = 0;
    while i < n
        invariant
            i <= n == lines@.len() == ls.len(),
            ls == lines_view(lines@),
            all == live_items(ls, data@),
            new_data@ == slot_bytes(live_items(ls.take(i as int), data@)),
            lines_view(texts@) == placed(live_items(ls.take(i as int), data@)).map_values(
                |r: RecordView| record_text(r),
            ),
            width as nat == text_width(
                placed(live_items(ls.take(i as int), data@)),
                line_length as nat,
            ),
        decreases n - i,
    {
        let ghost done = live_items(ls.take(i as int), data@);
        proof {
            assert(ls.take(i + 1).drop_last() =~= ls.take(i as int));
            assert(ls.take(i + 1).last() == lines@[i as int]@);
        }
        match parse_record(lines[i].as_slice()) {
            None => {},
            Some(rec) => {
                let value = read_value(data, rec.offset);
                let ghost old_texts = texts@;
                assert(lines_view(old_texts).len() == old_texts.len());
                assert(old_texts.len() == done.len());
                let ghost item = Item { key: rec.key@, value: value@, count: rec.count };
                let ghost now = done.push(item);
                let offset = new_data.len() as u64;
                append_bytes(&mut new_data, value.as_slice());
                new_data.push(NEWLINE);
                let text = encode_record(&Record { key: rec.key, offset, count: rec.count });
                if text.len() > width {
                    width = text.len();
                }
                texts.push(text);
                proof {
                    assert(now.drop_last() =~= done);
                    assert(now.take(done.len() as int) =~= done);
                    assert(new_data@ =~= slot_bytes(now));
                    let pn = placed(now);
                    let pd = placed(done);
                    assert forall|k: int| 0 <= k < done.len() implies #[trigger] pn[k] == pd[k] by {
                        assert(now.take(k) =~= done.take(k));
                    }
                    assert(pn.drop_last() =~= pd);
                    assert(pn[done.len() as int] == RecordView {
                        key: item.key,
                        offset: offset,
                        count: item.count,
                    });
                    assert(texts@.last()@ == record_text(pn[done.len() as int]));
                    assert forall|x: int| 0 <= x < texts@.len() implies #[trigger] lines_view(
                        texts@,
                    )[x] == pn.map_values(|r: RecordView| record_text(r))[x] by {
                        if x < done.len() {
                            assert(lines_view(texts@)[x] == texts@[x]@);
                            assert(texts@[x] == old_texts[x]);
                            assert(lines_view(old_texts)[x] == old_texts[x]@);
                        }
                    }
                    assert(lines_view(texts@) =~= pn.map_values(|r: RecordView| record_text(r)));
                }
            },
        }
        i = i + 1;
    }
    proof {
        assert(ls.take(n as int) =~= ls);
    }
    let ghost recs = placed(all);
    let mut out: Vec<Vec<u8>> = Vec::new();
    let mut k: usize = 0;
    let count = texts.len();
    while k < count
        invariant
            k <= count == texts@.len() == recs.len(),
            lines_view(texts@) == recs.map_values(|r: RecordView| record_text(r)),
            lines_view(out@) == recs.take(k as int).map_values(
                |r: RecordView| pad_to(record_text(r), width as nat),
            ),
        decreases count - k,
    {
        let mut w = width;
        let text = copy_range(texts[k].as_slice(), 0, texts[k].len());
        proof {
            assert(lines_view(texts@)[k as int] == texts@[k as int]@);
            assert(texts@[k as int]@ == record_text(recs[k as int]));
            assert(texts@[k as int]@.subrange(0, texts@[k as int]@.len() as int)
                =~= texts@[k as int]@);
        }
        let line = pad_line(text, &mut w);
        let ghost old_out = out@;
        assert(lines_view(old_out).len() == old_out.len());
        assert(old_out.len() == k);
        out.push(line);
        proof {
            assert forall|x: int| 0 <= x < out@.len() implies #[trigger] lines_view(out@)[x]
                == recs.take(k + 1).map_values(
                |r: RecordView| pad_to(record_text(r), width as nat),
            )[x] by {
                if x < k {
                    assert(out@[x] == old_out[x]);
                    assert(lines_view(old_out)[x] == old_out[x]@);
                }
            }
            assert(lines_view(out@) =~= recs.take(k + 1).map_values(
                |r: RecordView| pad_to(record_text(r), width as nat),
            ));
        }
        k = k + 1;
    }
    proof {
        assert(recs.take(count as int) =~= recs);
    }
    (out, new_data, width)
}

/// Items whose keys can stand in a record and whose values fit on one line.
pub open spec fn clean_items(items: Seq<Item>) -> bool {
    forall|k: int| 0 <= k < items.len() ==> no_sep(#[trigger] items[k].key) && one_line(
        items[k].value,
    )
}

pub proof fn lemma_text_width_bounds(recs: Seq<RecordView>, w: nat)
    ensures
        text_width(recs, w) >= w,
        forall|k: int| 0 <= k < recs.len() ==> text_width(recs, w) >= record_text(
            #[trigger] recs[k],
        ).len(),
    decreases recs.len(),
{
    if recs.len() > 0 {
        lemma_text_width_bounds(recs.drop_last(), w);
        assert forall|k: int| 0 <= k < recs.len() implies text_width(recs, w) >= record_text(
            #[trigger] recs[k],
        ).len() by {
            if k < recs.len() - 1 {
                assert(recs.drop_last()[k] == recs[k]);
            }
        }
    }
}

/// A width that no text exceeds is kept.
pub proof fn lemma_text_width_fixed(recs: Seq<RecordView>, w: nat)
    requires
        forall|k: int| 0 <= k < recs.len() ==> w >= record_text(#[trigger] recs[k]).len(),
    ensures
        text_width(recs, w) == w,
    decreases recs.len(),
{
    if recs.len() > 0 {
        assert forall|k: int| 0 <= k < recs.len() - 1 implies w >= record_text(
            #[trigger] recs.drop_last()[k],
        ).len() by {
            assert(recs.drop_last()[k] == recs[k]);
        }
        lemma_text_width_fixed(recs.drop_last(), w);
    }
}

/// Every compacted line is exactly as wide as the width compaction reports.
pub proof fn lemma_compacted_uniform(items: Seq<Item>, w: nat)
    ensures
        forall|k: int| 0 <= k < items.len() ==> (#[trigger] compacted_lines(items, w)[k]).len()
            == text_width(placed(items), w),
        compacted_lines(items, w).len() == items.len(),
{
    lemma_text_width_bounds(placed(items), w);
    assert forall|k: int| 0 <= k < items.len() implies (#[trigger] compacted_lines(
        items,
        w,
    )[k]).len() == text_width(placed(items), w) by {
        assert(text_width(placed(items), w) >= record_text(placed(items)[k]).len());
    }
}

/// The items read from any index are clean.
pub proof fn lemma_live_items_clean(ls: Seq<Seq<u8>>, data: Seq<u8>)
    ensures
        clean_items(live_items(ls, data)),
    decreases ls.len(),
{
    if ls.len() > 0 {
        lemma_live_items_clean(ls.drop_last(), data);
        let rest = live_items(ls.drop_last(), data);
        match parse_line(ls.last()) {
            Some(r) => {
                let l = ls.last();
                lemma_find_bounds(l, SEP, 0);
                assert(no_sep(r.key));
                let v = value_at(data, r.offset as nat);
                if (r.offset as nat) < data.len() {
                    lemma_find_bounds(data, NEWLINE, r.offset as int);
                    assert forall|i: int| 0 <= i < v.len() implies #[trigger] v[i] != NEWLINE by {
                        assert(v[i] == data[r.offset + i]);
                    }
                }
                assert(one_line(v));
                let now = live_items(ls, data);
                assert forall|k: int| 0 <= k < now.len() implies no_sep(#[trigger] now[k].key)
                    && one_line(now[k].value) by {
                    if k < rest.len() {
                        assert(now[k] == rest[k]);
                    }
                }
            },
            None => {},
        }
    }
}

/// The slots of a prefix of the items begin the slots of all of them.
pub proof fn lemma_slot_prefix(items: Seq<Item>, j: int)
    requires
        0 <= j <= items.len(),
    ensures
        slot_bytes(items.take(j)).len() <= slot_bytes(items).len(),
        slot_bytes(items).subrange(0, slot_bytes(items.take(j)).len() as int) == slot_bytes(
            items.take(j),
        ),
    decreases items.len() - j,
{
    if j == items.len() {
        assert(items.take(j) =~= items);
        assert(slot_bytes(items).subrange(0, slot_bytes(items).len() as int) =~= slot_bytes(items));
    } else {
        lemma_slot_prefix(items, j + 1);
        let a = slot_bytes(items.take(j));
        let b = slot_bytes(items.take(j + 1));
        assert(items.take(j + 1).drop_last() =~= items.take(j));
        assert(b == a + items[j].value + seq![NEWLINE]);
        let all = slot_bytes(items);
        assert(all.subrange(0, a.len() as int) =~= all.subrange(0, b.len() as int).subrange(
            0,
            a.len() as int,
        ));
        assert(b.subrange(0, a.len() as int) =~= a);
    }
}

/// Reading back a compacted index with its data file gives the items it was made from.
pub proof fn lemma_reread(items: Seq<Item>, w: nat, k: int)
    requires
        clean_items(items),
        slot_bytes(items).len() <= u64::MAX,
        0 <= k <= items.len(),
    ensures
        live_items(compacted_lines(items, w).take(k), slot_bytes(items)) == items.take(k),
    decreases k,
{
    let ls = compacted_lines(items, w);
    let d = slot_bytes(items);
    if k == 0 {
        assert(ls.take(0) =~= Seq::<Seq<u8>>::empty());
        assert(items.take(0) =~= Seq::<Item>::empty());
    } else {
        let i = k - 1;
        lemma_reread(items, w, i);
        assert(ls.take(k).drop_last() =~= ls.take(i));
        let r = placed(items)[i];
        assert(no_sep(items[i].key) && one_line(items[i].value));
        lemma_parse_padded(r, text_width(placed(items), w));
        assert(ls.take(k).last() == ls[i]);
        assert(parse_line(ls[i]) == Some(r));
        lemma_slot_prefix(items, k);
        let a = slot_bytes(items.take(i));
        let b = slot_bytes(items.take(k));
        let v = items[i].value;
        assert(items.take(k).drop_last() =~= items.take(i));
        assert(b == a + v + seq![NEWLINE]);
        let p = a.len() as int;
        assert(r.offset as nat == p);
        assert forall|x: int| 0 <= x < v.len() + 1 implies d[p + x] == #[trigger] b[p + x] by {
            assert(d.subrange(0, b.len() as int)[p + x] == d[p + x]);
        }
        assert forall|x: int| p <= x < p + v.len() implies #[trigger] d[x] != NEWLINE by {
            assert(d[x] == b[x]);
            assert(b[x] == v[x - p]);
        }
        assert(d[p + v.len()] == b[p + v.len()]);
        lemma_find_at(d, NEWLINE, p, p + v.len());
        assert(d.subrange(p, p + v.len()) =~= v) by {
            assert forall|x: int| 0 <= x < v.len() implies #[trigger] d.subrange(p, p + v.len())[x]
                == v[x] by {
                assert(d[p + x] == b[p + x]);
            }
        }
        assert(items.take(k) =~= items.take(i).push(items[i]));
    }
}

/// Compacting a compacted index and data file gives them back unchanged, and the same
/// width.
pub proof fn lemma_compact_idempotent(ls: Seq<Seq<u8>>, data: Seq<u8>, w: nat)
    requires
        slot_bytes(live_items(ls, data)).len() <= u64::MAX,
    ensures
        ({
            let items = live_items(ls, data);
            let lines = compacted_lines(items, w);
            let d = slot_bytes(items);
            let width = text_width(placed(items), w);
            &&& live_items(lines, d) == items
            &&& compacted_lines(live_items(lines, d), width) == lines
            &&& slot_bytes(live_items(lines, d)) == d
            &&& text_width(placed(live_items(lines, d)), width) == width
        }),
{
    let items = live_items(ls, data);
    let lines = compacted_lines(items, w);
    let width = text_width(placed(items), w);
    lemma_live_items_clean(ls, data);
    lemma_reread(items, w, items.len() as int);
    assert(lines.take(items.len() as int) =~= lines);
    assert(items.take(items.len() as int) =~= items);
    lemma_text_width_bounds(placed(items), w);
    lemma_text_width_fixed(placed(items), width);
    assert(compacted_lines(items, width) =~= lines);
}

/// Items in strictly ascending order of the digests of their keys.
pub open spec fn sorted_items(items: Seq<Item>) -> bool {
    forall|a: int, b: int|
        0 <= a < b < items.len() ==> sip_digest(#[trigger] items[a].key) < sip_digest(
            #[trigger] items[b].key,
        )
}

/// Some record of the index has digest `d`.
pub open spec fn from_index(ls: Seq<Seq<u8>>, d: u64) -> bool {
    exists|k: int| 0 <= k < ls.len() && parse_line(#[trigger] ls[k]) is Some && digest_at(ls, k) == d
}

/// The items of a sorted index come in its order, each from one of its records.
pub proof fn lemma_live_items_sorted(ls: Seq<Seq<u8>>, data: Seq<u8>)
    requires
        sorted_index(ls),
    ensures
        sorted_items(live_items(ls, data)),
        forall|i: int|
            0 <= i < live_items(ls, data).len() ==> from_index(
                ls,
                sip_digest(#[trigger] live_items(ls, data)[i].key),
            ),
    decreases ls.len(),
{
    if ls.len() > 0 {
        let t = ls.drop_last();
        assert(sorted_index(t)) by {
            assert forall|a: int, b: int|
                0 <= a < b < t.len() && parse_line(#[trigger] t[a]) is Some && parse_line(
                    #[trigger] t[b],
                ) is Some implies digest_at(t, a) < digest_at(t, b) by {
                assert(t[a] == ls[a] && t[b] == ls[b]);
                assert(digest_at(ls, a) < digest_at(ls, b));
            }
        }
        lemma_live_items_sorted(t, data);
        let rest = live_items(t, data);
        let now = live_items(ls, data);
        let n = ls.len() - 1;
        assert forall|i: int| 0 <= i < rest.len() implies from_index(
            ls,
            sip_digest(#[trigger] rest[i].key),
        ) by {
            assert(from_index(t, sip_digest(rest[i].key)));
            let k = choose|k: int|
                0 <= k < t.len() && parse_line(#[trigger] t[k]) is Some && digest_at(t, k)
                    == sip_digest(rest[i].key);
            assert(t[k] == ls[k]);
        }
        match parse_line(ls.last()) {
            Some(r) => {
                assert(ls.last() == ls[n]);
                assert forall|a: int, b: int| 0 <= a < b < now.len() implies sip_digest(
                    #[trigger] now[a].key,
                ) < sip_digest(#[trigger] now[b].key) by {
                    assert(now[a] == rest[a]);
                    if b < rest.len() {
                        assert(now[b] == rest[b]);
                    } else {
                        assert(from_index(t, sip_digest(rest[a].key)));
                        let k = choose|k: int|
                            0 <= k < t.len() && parse_line(#[trigger] t[k]) is Some && digest_at(
                                t,
                                k,
                            ) == sip_digest(rest[a].key);
                        assert(t[k] == ls[k]);
                        assert(digest_at(ls, k) < digest_at(ls, n));
                    }
                }
                assert forall|i: int| 0 <= i < now.len() implies from_index(
                    ls,
                    sip_digest(#[trigger] now[i].key),
                ) by {
                    if i < rest.len() {
                        assert(now[i] == rest[i]);
                    } else {
                        assert(parse_line(ls[n]) is Some && digest_at(ls, n) == sip_digest(
                            now[i].key,
                        ));
                    }
                }
            },
            None => {
                assert(now == rest);
            },
        }
    }
}

/// A compacted index of clean items in ascending digest order is searchable at the width
/// that compaction reports.
pub proof fn lemma_compacted_searchable(items: Seq<Item>, w: nat)
    requires
        clean_items(items),
        sorted_items(items),
    ensures
        searchable(compacted_lines(items, w), text_width(placed(items), w)),
{
    let ls = compacted_lines(items, w);
    let width = text_width(placed(items), w);
    lemma_compacted_uniform(items, w);
    assert forall|k: int| 0 <= k < ls.len() implies parse_line(#[trigger] ls[k]) == Some(
        placed(items)[k],
    ) by {
        assert(no_sep(items[k].key));
        lemma_parse_padded(placed(items)[k], width);
    }
    assert forall|k: int| 0 <= k < ls.len() implies (#[trigger] ls[k]).len() == width && parse_line(
        ls[k],
    ) is Some by {}
    assert forall|a: int, b: int| 0 <= a < b < ls.len() implies digest_at(ls, a) < digest_at(
        ls,
        b,
    ) by {
        assert(parse_line(ls[a]) == Some(placed(items)[a]));
        assert(parse_line(ls[b]) == Some(placed(items)[b]));
        assert(sip_digest(items[a].key) < sip_digest(items[b].key));
    }
}

} // verus!
