//! The merge of the buffer into the index: a two-way merge of two digest-ordered streams.
use vstd::prelude::*;
use crate::sip_digest;
use crate::hash;
use crate::text::{NEWLINE, copy_range, append_bytes};
use crate::record::{RecordView, Record, record_text, pad_to, parse_line, encode_record, pad_line,
    parse_record, digest_at, sorted_index, no_sep, lemma_parse_padded, lemma_parse_repadded,
};
use crate::memtable::{Entry, EntryView, sorted_entries};

verus! {

/// The lines of an index, as byte sequences.
pub open spec fn lines_view(v: Seq<Vec<u8>>) -> Seq<Seq<u8>> {
    v.map_values(|l: Vec<u8>| l@)
}

pub open spec fn entries_view(v: Seq<Entry>) -> Seq<EntryView> {
    v.map_values(|e: Entry| e@)
}

/// The padding width after writing a line of `len` bytes at width `pad`.
pub open spec fn grow(pad: nat, len: nat) -> nat {
    if len > pad {
        len
    } else {
        pad
    }
}

/// The overwrite count of a key whose buffered entry replaces its indexed record: the
/// record's count, the buffer's count, and one for the replacement itself (held at the
/// largest `usize`).
pub open spec fn merged_count(indexed: usize, buffered: usize) -> usize {
    if indexed + buffered + 1 > usize::MAX {
        usize::MAX
    } else {
        (indexed + buffered + 1) as usize
    }
}

/// What a flush produces: the new index lines, the bytes appended to the data file, and
/// the padding width afterwards.
pub struct Flushed {
    pub lines: Seq<Seq<u8>>,
    pub appended: Seq<u8>,
    pub pad: nat,
}

/// The merge of index lines `ls` with buffered entries `es`, values appended to a data
/// file that is `cursor` bytes long, lines padded from width `pad` on.
///
/// A line that holds no record is dropped. A record whose digest is below the next
/// entry's is kept as it stands. An entry goes to the data file and gets a record of its
/// own; where it meets a record of the same digest it replaces it and adds to its count.
pub open spec fn merge_spec(ls: Seq<Seq<u8>>, es: Seq<EntryView>, cursor: nat, pad: nat) -> Flushed
    decreases ls.len() + es.len(),
{
    if ls.len() == 0 && es.len() == 0 {
        Flushed { lines: seq![], appended: seq![], pad }
    } else if ls.len() > 0 && parse_line(ls[0]) is None {
        merge_spec(ls.drop_first(), es, cursor, pad)
    } else if ls.len() > 0 && (es.len() == 0 || sip_digest(parse_line(ls[0])->0.key)
        < es[0].digest) {
        let rest = merge_spec(ls.drop_first(), es, cursor, grow(pad, ls[0].len()));
        Flushed { lines: seq![pad_to(ls[0], pad)] + rest.lines, ..rest }
    } else {
        let e = es[0];
        let same = ls.len() > 0 && sip_digest(parse_line(ls[0])->0.key) == e.digest;
        let count = if same {
            merged_count(parse_line(ls[0])->0.count, e.count)
        } else {
            e.count
        };
        let text = record_text(RecordView { key: e.key, offset: cursor as u64, count });
        let rest = merge_spec(
            if same {
                ls.drop_first()
            } else {
                ls
            },
            es.drop_first(),
            cursor + e.value.len() + 1,
            grow(pad, text.len()),
        );
        Flushed {
            lines: seq![pad_to(text, pad)] + rest.lines,
            appended: e.value + seq![NEWLINE] + rest.appended,
            pad: rest.pad,
        }
    }
}

/// Appends `e`'s value to the data file as one line, and returns its record, padded.
fn emit_entry(e: &Entry, count: usize, data: &mut Vec<u8>, pad_length: &mut usize) -> (r: Vec<u8>)
    ensures
        r@ == pad_to(
            record_text(RecordView { key: e.key@, offset: old(data)@.len() as u64, count }),
            *old(pad_length) as nat,
        ),
        final(data)@ == old(data)@ + e.value@ + seq![NEWLINE],
        *final(pad_length) as nat == grow(
            *old(pad_length) as nat,
            record_text(RecordView { key: e.key@, offset: old(data)@.len() as u64, count }).len(),
        ),
{
    let offset = data.len() as u64;
    append_bytes(data, e.value.as_slice());
    data.push(NEWLINE);
    let rec = Record { key: copy_range(e.key.as_slice(), 0, e.key.len()), offset, count };
    assert(e.key@.subrange(0, e.key@.len() as int) =~= e.key@);
    let text = encode_record(&rec);
    pad_line(text, pad_length)
}

/// Merges the index `lines` with the buffered `entries` (ascending digests): values of
/// the entries are appended to `data`, and the new index lines are returned.
pub fn merge_flush(
    lines: &Vec<Vec<u8>>,
    entries: &Vec<Entry>,
    data: &mut Vec<u8>,
    pad_length: &mut usize,
) -> (r: Vec<Vec<u8>>)
    ensures
        lines_view(r@) == merge_spec(
            lines_view(lines@),
            entries_view(entries@),
            old(data)@.len() as nat,
            *old(pad_length) as nat,
        ).lines,
        final(data)@ == old(data)@ + merge_spec(
            lines_view(lines@),
            entries_view(entries@),
            old(data)@.len() as nat,
            *old(pad_length) as nat,
        ).appended,
        *final(pad_length) as nat == merge_spec(
            lines_view(lines@),
            entries_view(entries@),
            old(data)@.len() as nat,
            *old(pad_length) as nat,
        ).pad,
{
    let ghost ls = lines_view(lines@);
    let ghost es = entries_view(entries@);
    let ghost whole = merge_spec(ls, es, old(data)@.len() as nat, *old(pad_length) as nat);
    let ghost data0 = data@;
    let n = lines.len();
    let m = entries.len();
    let mut out: Vec<Vec<u8>> = Vec::new();
    let mut i: usize = 0;
    let mut j: usize = 0;
    proof {
        assert(ls.subrange(0, n as int) =~= ls);
        assert(es.subrange(0, m as int) =~= es);
        assert(lines_view(out@) =~= Seq::<Seq<u8>>::empty());
        assert(whole.lines =~= lines_view(out@) + whole.lines);
    }
    while i < n || j < m
        invariant
            i <= n == lines@.len() == ls.len(),
            j <= m == entries@.len() == es.len(),
            ls == lines_view(lines@),
            es == entries_view(entries@),
            whole.lines == lines_view(out@) + merge_spec(
                ls.subrange(i as int, n as int),
                es.subrange(j as int, m as int),
                data@.len() as nat,
                *pad_length as nat,
            ).lines,
            data0 + whole.appended == data@ + merge_spec(
                ls.subrange(i as int, n as int),
                es.subrange(j as int, m as int),
                data@.len() as nat,
                *pad_length as nat,
            ).appended,
            whole.pad == merge_spec(
                ls.subrange(i as int, n as int),
                es.subrange(j as int, m as int),
                data@.len() as nat,
                *pad_length as nat,
            ).pad,
        decreases (n - i) + (m - j),
    {
        let ghost lrest = ls.subrange(i as int, n as int);
        let ghost erest = es.subrange(j as int, m as int);
        let ghost cur = merge_spec(lrest, erest, data@.len() as nat, *pad_length as nat);
        let ghost out0 = lines_view(out@);
        proof {
            if i < n {
                assert(lrest[0] == ls[i as int]);
                assert(lrest.drop_first() =~= ls.subrange(i + 1, n as int));
                assert(ls[i as int] == lines@[i as int]@);
            }
            if j < m {
                assert(erest[0] == es[j as int]);
                assert(erest.drop_first() =~= es.subrange(j + 1, m as int));
                assert(es[j as int] == entries@[j as int]@);
            }
        }
        let mut file_digest: Option<(u64, usize)> = None;
        let mut skip = false;
        if i < n {
            match parse_record(lines[i].as_slice()) {
                None => {
                    skip = true;
                },
                Some(rec) => {
                    file_digest = Some((hash(rec.key.as_slice()), rec.count));
                },
            }
        }
        if skip {
            i = i + 1;
        } else {
            match file_digest {
                Some((fd, fc)) => {
                    if j == m || fd < entries[j].digest {
                        let line = pad_line(
                            copy_range(lines[i].as_slice(), 0, lines[i].len()),
                            pad_length,
                        );
                        assert(lines@[i as int]@.subrange(0, lines@[i as int]@.len() as int)
                            =~= lines@[i as int]@);
                        out.push(line);
                        i = i + 1;
                    } else if fd == entries[j].digest {
                        let count = if fc as u128 + entries[j].count as u128 + 1
                            > usize::MAX as u128 {
                            usize::MAX
                        } else {
                            fc + entries[j].count + 1
                        };
                        let line = emit_entry(&entries[j], count, data, pad_length);
                        out.push(line);
                        i = i + 1;
                        j = j + 1;
                    } else {
                        let line = emit_entry(&entries[j], entries[j].count, data, pad_length);
                        out.push(line);
                        j = j + 1;
                    }
                },
                None => {
                    let line = emit_entry(&entries[j], entries[j].count, data, pad_length);
                    out.push(line);
                    j = j + 1;
                },
            }
        }
        proof {
            let nxt = merge_spec(
                ls.subrange(i as int, n as int),
                es.subrange(j as int, m as int),
                data@.len() as nat,
                *pad_length as nat,
            );
            if !skip {
                assert(lines_view(out@) =~= out0.push(out@.last()@));
                assert(cur.lines =~= seq![out@.last()@] + nxt.lines);
                assert(whole.lines =~= lines_view(out@) + nxt.lines);
                assert(data0 + whole.appended =~= data@ + nxt.appended);
            }
        }
    }
    proof {
        assert(ls.subrange(n as int, n as int) =~= Seq::<Seq<u8>>::empty());
        assert(es.subrange(m as int, m as int) =~= Seq::<EntryView>::empty());
        assert(whole.lines =~= lines_view(out@));
        assert(data0 + whole.appended =~= data@);
        assert(data0 + whole.appended =~= old(data)@ + whole.appended);
    }
    out
}

/// Every record of the index has a digest above `b`.
pub open spec fn index_above(ls: Seq<Seq<u8>>, b: u64) -> bool {
    forall|k: int| 0 <= k < ls.len() && parse_line(#[trigger] ls[k]) is Some ==> digest_at(ls, k) > b
}

/// Buffered entries whose keys can stand in a record.
pub open spec fn storable_entries(es: Seq<EntryView>) -> bool {
    forall|k: int| 0 <= k < es.len() ==> no_sep(#[trigger] es[k].key)
}

pub proof fn lemma_index_tail(ls: Seq<Seq<u8>>)
    requires
        ls.len() > 0,
        sorted_index(ls),
    ensures
        sorted_index(ls.drop_first()),
        parse_line(ls[0]) is Some ==> index_above(ls.drop_first(), digest_at(ls, 0)),
{
    let t = ls.drop_first();
    assert forall|a: int, b: int|
        0 <= a < b < t.len() && parse_line(#[trigger] t[a]) is Some && parse_line(
            #[trigger] t[b],
        ) is Some implies digest_at(t, a) < digest_at(t, b) by {
        assert(t[a] == ls[a + 1] && t[b] == ls[b + 1]);
        assert(digest_at(ls, a + 1) < digest_at(ls, b + 1));
    }
    if parse_line(ls[0]) is Some {
        assert forall|k: int| 0 <= k < t.len() && parse_line(#[trigger] t[k]) is Some implies digest_at(
            t,
            k,
        ) > digest_at(ls, 0) by {
            assert(t[k] == ls[k + 1]);
            assert(digest_at(ls, 0) < digest_at(ls, k + 1));
        }
    }
}

proof fn lemma_index_above_tail(ls: Seq<Seq<u8>>, b: u64)
    requires
        ls.len() > 0,
        index_above(ls, b),
    ensures
        index_above(ls.drop_first(), b),
{
    let t = ls.drop_first();
    assert forall|k: int| 0 <= k < t.len() && parse_line(#[trigger] t[k]) is Some implies digest_at(
        t,
        k,
    ) > b by {
        assert(t[k] == ls[k + 1]);
    }
}

pub proof fn lemma_entries_tail(es: Seq<EntryView>)
    requires
        es.len() > 0,
        sorted_entries(es),
        storable_entries(es),
    ensures
        sorted_entries(es.drop_first()),
        storable_entries(es.drop_first()),
        forall|k: int| 0 <= k < es.len() - 1 ==> #[trigger] es.drop_first()[k].digest > es[0].digest,
{
    let t = es.drop_first();
    assert forall|a: int, b: int| 0 <= a < b < t.len() implies t[a].digest < t[b].digest by {
        assert(es[a + 1].digest < es[b + 1].digest);
    }
    assert forall|a: int| 0 <= a < t.len() implies #[trigger] t[a].digest == sip_digest(t[a].key) by {
        assert(t[a] == es[a + 1]);
    }
    assert forall|a: int| 0 <= a < t.len() implies no_sep(#[trigger] t[a].key) by {
        assert(t[a] == es[a + 1]);
    }
    assert forall|k: int| 0 <= k < es.len() - 1 implies #[trigger] t[k].digest > es[0].digest by {
        assert(es[0].digest < es[k + 1].digest);
    }
}

/// The line that a flush writes for an entry holds a record of the entry's digest.
proof fn lemma_entry_line(e: EntryView, cursor: nat, count: usize, pad: nat)
    requires
        no_sep(e.key),
        e.digest == sip_digest(e.key),
    ensures
        parse_line(pad_to(record_text(RecordView { key: e.key, offset: cursor as u64, count }), pad))
            == Some(RecordView { key: e.key, offset: cursor as u64, count }),
{
    lemma_parse_padded(RecordView { key: e.key, offset: cursor as u64, count }, pad);
}

/// Every line a flush writes holds a record, and all their digests lie above any bound
/// that the index records and the entries lie above.
pub proof fn lemma_merge_above(ls: Seq<Seq<u8>>, es: Seq<EntryView>, cursor: nat, pad: nat, b: u64)
    requires
        sorted_index(ls),
        sorted_entries(es),
        storable_entries(es),
        index_above(ls, b),
        forall|k: int| 0 <= k < es.len() ==> #[trigger] es[k].digest > b,
    ensures
        forall|k: int| 0 <= k < merge_spec(ls, es, cursor, pad).lines.len() ==> parse_line(
            #[trigger] merge_spec(ls, es, cursor, pad).lines[k],
        ) is Some,
        index_above(merge_spec(ls, es, cursor, pad).lines, b),
    decreases ls.len() + es.len(),
{
    let out = merge_spec(ls, es, cursor, pad).lines;
    if ls.len() == 0 && es.len() == 0 {
    } else if ls.len() > 0 && parse_line(ls[0]) is None {
        lemma_index_tail(ls);
        lemma_index_above_tail(ls, b);
        lemma_merge_above(ls.drop_first(), es, cursor, pad, b);
    } else if ls.len() > 0 && (es.len() == 0 || sip_digest(parse_line(ls[0])->0.key)
        < es[0].digest) {
        lemma_index_tail(ls);
        lemma_index_above_tail(ls, b);
        let np = grow(pad, ls[0].len());
        lemma_merge_above(ls.drop_first(), es, cursor, np, b);
        let rest = merge_spec(ls.drop_first(), es, cursor, np).lines;
        lemma_parse_repadded(ls[0], pad);
        assert(out == seq![pad_to(ls[0], pad)] + rest);
        assert forall|k: int| 0 <= k < out.len() implies parse_line(#[trigger] out[k]) is Some
            && digest_at(out, k) > b by {
            if k > 0 {
                assert(out[k] == rest[k - 1]);
            } else {
                assert(digest_at(ls, 0) > b);
            }
        }
    } else {
        let e = es[0];
        let same = ls.len() > 0 && sip_digest(parse_line(ls[0])->0.key) == e.digest;
        let count = if same {
            merged_count(parse_line(ls[0])->0.count, e.count)
        } else {
            e.count
        };
        let text = record_text(RecordView { key: e.key, offset: cursor as u64, count });
        let nls = if same {
            ls.drop_first()
        } else {
            ls
        };
        lemma_entries_tail(es);
        if same {
            lemma_index_tail(ls);
            lemma_index_above_tail(ls, b);
        }
        assert forall|k: int| 0 <= k < es.len() - 1 implies #[trigger] es.drop_first()[k].digest
            > b by {
            assert(es.drop_first()[k] == es[k + 1]);
        }
        let np = grow(pad, text.len());
        let nc = cursor + e.value.len() + 1;
        lemma_merge_above(nls, es.drop_first(), nc, np, b);
        let rest = merge_spec(nls, es.drop_first(), nc, np).lines;
        assert(no_sep(es[0].key));
        assert(e.digest == sip_digest(e.key));
        lemma_entry_line(e, cursor, count, pad);
        assert(out == seq![pad_to(text, pad)] + rest);
        assert forall|k: int| 0 <= k < out.len() implies parse_line(#[trigger] out[k]) is Some
            && digest_at(out, k) > b by {
            if k > 0 {
                assert(out[k] == rest[k - 1]);
            }
        }
    }
}

/// A flush of a sorted index with sorted entries writes a sorted index.
pub proof fn lemma_merge_sorted(ls: Seq<Seq<u8>>, es: Seq<EntryView>, cursor: nat, pad: nat)
    requires
        sorted_index(ls),
        sorted_entries(es),
        storable_entries(es),
    ensures
        sorted_index(merge_spec(ls, es, cursor, pad).lines),
    decreases ls.len() + es.len(),
{
    let out = merge_spec(ls, es, cursor, pad).lines;
    if ls.len() == 0 && es.len() == 0 {
    } else if ls.len() > 0 && parse_line(ls[0]) is None {
        lemma_index_tail(ls);
        lemma_merge_sorted(ls.drop_first(), es, cursor, pad);
    } else if ls.len() > 0 && (es.len() == 0 || sip_digest(parse_line(ls[0])->0.key)
        < es[0].digest) {
        lemma_index_tail(ls);
        let d0 = digest_at(ls, 0);
        let np = grow(pad, ls[0].len());
        lemma_merge_sorted(ls.drop_first(), es, cursor, np);
        if es.len() > 0 {
            assert forall|k: int| 0 <= k < es.len() implies #[trigger] es[k].digest > d0 by {
                if k > 0 {
                    assert(es[0].digest < es[k].digest);
                }
            }
        }
        lemma_merge_above(ls.drop_first(), es, cursor, np, d0);
        let rest = merge_spec(ls.drop_first(), es, cursor, np).lines;
        lemma_parse_repadded(ls[0], pad);
        assert(out == seq![pad_to(ls[0], pad)] + rest);
        assert(digest_at(out, 0) == d0);
        assert forall|a: int, b: int|
            0 <= a < b < out.len() && parse_line(#[trigger] out[a]) is Some && parse_line(
                #[trigger] out[b],
            ) is Some implies digest_at(out, a) < digest_at(out, b) by {
            assert(out[b] == rest[b - 1]);
            if a > 0 {
                assert(out[a] == rest[a - 1]);
            }
        }
    } else {
        let e = es[0];
        let same = ls.len() > 0 && sip_digest(parse_line(ls[0])->0.key) == e.digest;
        let count = if same {
            merged_count(parse_line(ls[0])->0.count, e.count)
        } else {
            e.count
        };
        let text = record_text(RecordView { key: e.key, offset: cursor as u64, count });
        let nls = if same {
            ls.drop_first()
        } else {
            ls
        };
        lemma_entries_tail(es);
        if same {
            lemma_index_tail(ls);
        } else if ls.len() > 0 {
            assert forall|k: int| 0 <= k < ls.len() && parse_line(#[trigger] ls[k]) is Some implies digest_at(
                ls,
                k,
            ) > e.digest by {
                if k > 0 {
                    assert(digest_at(ls, 0) < digest_at(ls, k));
                }
            }
        }
        let np = grow(pad, text.len());
        let nc = cursor + e.value.len() + 1;
        lemma_merge_sorted(nls, es.drop_first(), nc, np);
        lemma_merge_above(nls, es.drop_first(), nc, np, e.digest);
        let rest = merge_spec(nls, es.drop_first(), nc, np).lines;
        assert(no_sep(es[0].key));
        assert(e.digest == sip_digest(e.key));
        lemma_entry_line(e, cursor, count, pad);
        assert(out == seq![pad_to(text, pad)] + rest);
        assert(digest_at(out, 0) == e.digest);
        assert forall|a: int, b: int|
            0 <= a < b < out.len() && parse_line(#[trigger] out[a]) is Some && parse_line(
                #[trigger] out[b],
            ) is Some implies digest_at(out, a) < digest_at(out, b) by {
            assert(out[b] == rest[b - 1]);
            if a > 0 {
                assert(out[a] == rest[a - 1]);
            }
        }
    }
}

} // verus!
