//! The index record: `key SEP offset SEP count`, right-padded with `SEP`.
use vstd::prelude::*;
use crate::sip_digest;
use crate::text::{
    SEP, digits, decimal_field, find_from, lemma_digits, lemma_find_at,
    lemma_find_bounds, push_decimal, find_byte, parse_decimal, copy_range, append_bytes,
};

verus! {

/// What a record holds, as plain values.
pub struct RecordView {
    pub key: Seq<u8>,
    pub offset: u64,
    pub count: usize,
}

/// One entry of the index: a serialized key, the byte offset of its value in the data
/// file, and how many times the key was overwritten.
pub struct Record {
    pub key: Vec<u8>,
    pub offset: u64,
    pub count: usize,
}

impl View for Record {
    type V = RecordView;

    open spec fn view(&self) -> RecordView {
        RecordView { key: self.key@, offset: self.offset, count: self.count }
    }
}

/// The unpadded text of a record.
pub open spec fn record_text(r: RecordView) -> Seq<u8> {
    r.key + seq![SEP] + digits(r.offset as nat) + seq![SEP] + digits(r.count as nat)
}

/// `n` separator bytes.
pub open spec fn sep_run(n: nat) -> Seq<u8> {
    Seq::new(n, |i: int| SEP)
}

/// A line right-padded with separators up to `width` bytes (a longer line is kept).
pub open spec fn pad_to(line: Seq<u8>, width: nat) -> Seq<u8> {
    if line.len() < width {
        line + sep_run((width - line.len()) as nat)
    } else {
        line
    }
}

pub open spec fn all_sep(s: Seq<u8>) -> bool {
    forall|i: int| 0 <= i < s.len() ==> #[trigger] s[i] == SEP
}

/// The record that an index line holds: a key up to the first separator, a decimal
/// offset up to the second, a decimal count up to the next separator or the end, and
/// nothing but separators after it.
pub open spec fn parse_line(l: Seq<u8>) -> Option<RecordView> {
    let i = find_from(l, SEP, 0);
    let j = find_from(l, SEP, i + 1);
    let k = find_from(l, SEP, j + 1);
    if i < l.len() && j < l.len() {
        match (decimal_field(l.subrange(i + 1, j)), decimal_field(l.subrange(j + 1, k))) {
            (Some(o), Some(c)) => if o <= u64::MAX && c <= usize::MAX && all_sep(
                l.subrange(k, l.len() as int),
            ) {
                Some(RecordView { key: l.subrange(0, i), offset: o as u64, count: c as usize })
            } else {
                None
            },
            _ => None,
        }
    } else {
        None
    }
}

/// The serialized text of a record, before padding.
pub fn encode_record(rec: &Record) -> (r: Vec<u8>)
    ensures
        r@ == record_text(rec@),
{
    let mut out: Vec<u8> = Vec::new();
    append_bytes(&mut out, rec.key.as_slice());
    out.push(SEP);
    push_decimal(&mut out, rec.offset);
    out.push(SEP);
    push_decimal(&mut out, rec.count as u64);
    assert(out@ =~= record_text(rec@));
    out
}

/// Pads `line` with separators up to `*pad_length` bytes; a longer line raises
/// `*pad_length` to its own length instead.
pub fn pad_line(line: Vec<u8>, pad_length: &mut usize) -> (r: Vec<u8>)
    ensures
        r@ == pad_to(line@, *old(pad_length) as nat),
        *final(pad_length) as nat == if line@.len() > *old(pad_length) {
            line@.len()
        } else {
            *old(pad_length) as nat
        },
{
    let mut out = line;
    if out.len() < *pad_length {
        let ghost start = out@;
        let n = *pad_length - out.len();
        let mut i: usize = 0;
        while i < n
            invariant
                i <= n,
                out@ == start + sep_run(i as nat),
            decreases n - i,
        {
            out.push(SEP);
            assert(out@ =~= start + sep_run((i + 1) as nat));
            i = i + 1;
        }
    } else if out.len() > *pad_length {
        *pad_length = out.len();
    }
    out
}

/// Whether `s[from..]` is separators only.
fn is_padding(s: &[u8], from: usize) -> (r: bool)
    requires
        from <= s@.len(),
    ensures
        r == all_sep(s@.subrange(from as int, s@.len() as int)),
{
    let len = s.len();
    let mut t: usize = from;
    while t < len
        invariant
            from <= t <= len == s@.len(),
            all_sep(s@.subrange(from as int, t as int)),
        decreases len - t,
    {
        if s[t] != SEP {
            assert(s@.subrange(from as int, len as int)[t - from] != SEP);
            return false;
        }
        assert(forall|x: int|
            from <= x <= t ==> #[trigger] s@[x] == s@.subrange(from as int, t + 1)[x - from]);
        t = t + 1;
    }
    true
}

/// Reads the record that an index line holds; `None` for a line that is not one.
pub fn parse_record(line: &[u8]) -> (r: Option<Record>)
    ensures
        match r {
            Some(rec) => parse_line(line@) == Some(rec@),
            None => parse_line(line@) is None,
        },
{
    let len = line.len();
    let i = find_byte(line, SEP, 0);
    proof {
        lemma_find_bounds(line@, SEP, 0);
    }
    if i == len {
        return None;
    }
    let j = find_byte(line, SEP, i + 1);
    proof {
        lemma_find_bounds(line@, SEP, (i + 1) as int);
    }
    if j == len {
        return None;
    }
    let k = find_byte(line, SEP, j + 1);
    proof {
        lemma_find_bounds(line@, SEP, (j + 1) as int);
    }
    let offset = match parse_decimal(line, i + 1, j) {
        Some(v) => v,
        None => {
            return None;
        },
    };
    let count = match parse_decimal(line, j + 1, k) {
        Some(v) => v,
        None => {
            return None;
        },
    };
    if !is_padding(line, k) {
        return None;
    }
    if count > usize::MAX as u64 {
        return None;
    }
    let key = copy_range(line, 0, i);
    Some(Record { key, offset, count: count as usize })
}

/// A byte sequence without a separator.
pub open spec fn no_sep(s: Seq<u8>) -> bool {
    forall|i: int| 0 <= i < s.len() ==> #[trigger] s[i] != SEP
}

/// Parsing a padded record gives the record back.
pub proof fn lemma_parse_padded(r: RecordView, width: nat)
    requires
        no_sep(r.key),
    ensures
        parse_line(pad_to(record_text(r), width)) == Some(r),
{
    let d1 = digits(r.offset as nat);
    let d2 = digits(r.count as nat);
    lemma_digits(r.offset as nat);
    lemma_digits(r.count as nat);
    let t = record_text(r);
    let l = pad_to(t, width);
    let i = r.key.len() as int;
    let j = i + 1 + d1.len();
    let k = j + 1 + d2.len();
    assert(t.len() == k);
    assert(l.subrange(0, k) =~= t);
    assert forall|x: int| 0 <= x < i implies l[x] == #[trigger] r.key[x] by {
        assert(l[x] == t[x]);
    }
    assert forall|x: int| 0 <= x < d1.len() implies l[i + 1 + x] == #[trigger] d1[x] by {
        assert(l[i + 1 + x] == t[i + 1 + x]);
    }
    assert forall|x: int| 0 <= x < d2.len() implies l[j + 1 + x] == #[trigger] d2[x] by {
        assert(l[j + 1 + x] == t[j + 1 + x]);
    }
    assert(l[i] == SEP) by {
        assert(l[i] == t[i]);
    }
    assert(l[j] == SEP) by {
        assert(l[j] == t[j]);
    }
    assert forall|x: int| k <= x < l.len() implies #[trigger] l[x] == SEP by {
        assert(l[x] == sep_run((width - t.len()) as nat)[x - k]);
    }
    assert forall|x: int| 0 <= x < i implies #[trigger] l[x] != SEP by {
        assert(l[x] == r.key[x]);
        assert(r.key[x] != SEP);
    }
    lemma_find_at(l, SEP, 0, i);
    assert forall|x: int| i + 1 <= x < j implies #[trigger] l[x] != SEP by {
        assert(l[x] == d1[x - i - 1]);
    }
    lemma_find_at(l, SEP, i + 1, j);
    assert forall|x: int| j + 1 <= x < k implies #[trigger] l[x] != SEP by {
        assert(l[x] == d2[x - j - 1]);
    }
    lemma_find_at(l, SEP, j + 1, k);
    assert(l.subrange(0, i) =~= r.key);
    assert(l.subrange(i + 1, j) =~= d1);
    assert(l.subrange(j + 1, k) =~= d2);
    assert(all_sep(l.subrange(k, l.len() as int)));
}

/// The digest of the key that line `k` holds.
pub open spec fn digest_at(ls: Seq<Seq<u8>>, k: int) -> u64 {
    sip_digest(parse_line(ls[k])->0.key)
}

/// The records of an index in strictly ascending order of digest (lines that hold no
/// record aside).
pub open spec fn sorted_index(ls: Seq<Seq<u8>>) -> bool {
    forall|a: int, b: int|
        0 <= a < b < ls.len() && parse_line(#[trigger] ls[a]) is Some && parse_line(
            #[trigger] ls[b],
        ) is Some ==> digest_at(ls, a) < digest_at(ls, b)
}

/// Padding a record line further leaves its record as it was.
pub proof fn lemma_parse_repadded(l: Seq<u8>, width: nat)
    requires
        parse_line(l) is Some,
    ensures
        parse_line(pad_to(l, width)) == parse_line(l),
{
    if l.len() < width {
        let p = pad_to(l, width);
        let i = find_from(l, SEP, 0);
        let j = find_from(l, SEP, i + 1);
        let k = find_from(l, SEP, j + 1);
        lemma_find_bounds(l, SEP, 0);
        lemma_find_bounds(l, SEP, i + 1);
        lemma_find_bounds(l, SEP, j + 1);
        assert forall|x: int| 0 <= x < l.len() implies #[trigger] p[x] == l[x] by {}
        assert(p[l.len() as int] == SEP);
        lemma_find_at(p, SEP, 0, i);
        lemma_find_at(p, SEP, i + 1, j);
        lemma_find_at(p, SEP, j + 1, k);
        assert(p.subrange(0, i) =~= l.subrange(0, i));
        assert(p.subrange(i + 1, j) =~= l.subrange(i + 1, j));
        assert(p.subrange(j + 1, k) =~= l.subrange(j + 1, k));
        assert forall|x: int| 0 <= x < p.len() - k implies #[trigger] p.subrange(
            k,
            p.len() as int,
        )[x] == SEP by {
            if k + x < l.len() {
                assert(l.subrange(k, l.len() as int)[x] == SEP);
            }
        }
    }
}

} // verus!
