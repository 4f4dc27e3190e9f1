//! Point lookups: a binary search over the byte offsets of a uniform-width index.
use vstd::prelude::*;
use crate::sip_digest;
use crate::hash;
use crate::Error;
use crate::record::{parse_line, digest_at, sorted_index};
use crate::record::parse_record;
use crate::flush::lines_view;
use crate::compact::{value_at, read_value};

verus! {

/// Index lines that a binary search can rely on: each `width` bytes wide and a record,
/// with strictly ascending digests.
pub open spec fn searchable(ls: Seq<Seq<u8>>, width: nat) -> bool {
    &&& forall|k: int| 0 <= k < ls.len() ==> (#[trigger] ls[k]).len() == width && parse_line(
        ls[k],
    ) is Some
    &&& forall|a: int, b: int| 0 <= a < b < ls.len() ==> digest_at(ls, a) < digest_at(ls, b)
}

/// Whether line `k` holds a record of digest `d`.
pub open spec fn holds_digest(ls: Seq<Seq<u8>>, k: int, d: u64) -> bool {
    0 <= k < ls.len() && parse_line(ls[k]) is Some && digest_at(ls, k) == d
}

/// The value and overwrite count that the index gives for digest `d`, if a record has it
/// (nothing is found while the data file is empty).
pub open spec fn indexed_value(ls: Seq<Seq<u8>>, data: Seq<u8>, d: u64) -> Option<
    (Seq<u8>, usize),
> {
    if data.len() > 0 && exists|k: int| #[trigger] holds_digest(ls, k, d) {
        let k = choose|k: int| #[trigger] holds_digest(ls, k, d);
        let r = parse_line(ls[k])->0;
        Some((value_at(data, r.offset as nat), r.count))
    } else {
        None
    }
}

/// Looks `key` up in the index `lines` (of record width `width`) and the data file
/// `data`: its value and overwrite count, or `None`.
///
/// On a searchable index the answer is exact. On any other it is never wrong about a
/// value it returns, and it fails only on a line that holds no record.
pub fn lookup(lines: &Vec<Vec<u8>>, data: &Vec<u8>, width: usize, key: &[u8]) -> (r: Result<
    Option<(Vec<u8>, usize)>,
    Error,
>)
    ensures
        searchable(lines_view(lines@), width as nat) ==> match r {
            Ok(Some((v, c))) => indexed_value(lines_view(lines@), data@, sip_digest(key@)) == Some(
                (v@, c),
            ),
            Ok(None) => indexed_value(lines_view(lines@), data@, sip_digest(key@)) is None,
            Err(_) => false,
        },
        match r {
            Ok(Some((v, c))) => exists|k: int|
                #[trigger] holds_digest(lines_view(lines@), k, sip_digest(key@)) && v@ == value_at(
                    data@,
                    parse_line(lines_view(lines@)[k])->0.offset as nat,
                ) && c == parse_line(lines_view(lines@)[k])->0.count,
            Ok(None) => true,
            Err(e) => e == Error::CorruptRecord && exists|k: int|
                0 <= k < lines@.len() && parse_line(#[trigger] lines_view(lines@)[k]) is None,
        },
{
    let ghost ls = lines_view(lines@);
    let d = hash(key);
    let n = lines.len();
    if n == 0 || data.len() == 0 {
        return Ok(None);
    }
    let row: u128 = width as u128 + 1;
    assert(n as u128 * row <= u128::MAX) by (nonlinear_arith)
        requires
            n <= usize::MAX,
            row <= usize::MAX + 1,
            usize::MAX <= u64::MAX,
    ;
    let size: u128 = n as u128 * row;
    let mut low: u128 = 0;
    let mut high: u128 = size;
    let ghost mut lo: int = 0;
    let ghost mut hi: int = n as int;
    while low < high
        invariant
            ls == lines_view(lines@),
            n == lines@.len() == ls.len(),
            row == width + 1,
            size == n * row,
            size <= u128::MAX,
            0 <= lo <= hi <= n,
            low == lo * row,
            high == hi * row,
            d == sip_digest(key@),
            data@.len() > 0,
            searchable(ls, width as nat) ==> forall|k: int|
                0 <= k < lo ==> #[trigger] digest_at(ls, k) < d,
            searchable(ls, width as nat) ==> forall|k: int|
                hi <= k < n ==> #[trigger] digest_at(ls, k) > d,
        decreases hi - lo,
    {
        let mid: u128 = low + (high - low) / 2;
        let idx: u128 = mid / row;
        proof {
            assert(lo <= idx < hi) by (nonlinear_arith)
                requires
                    low == lo * row,
                    high == hi * row,
                    low <= mid < high,
                    idx == mid / row,
                    row > 0,
            ;
            assert(idx * row <= mid < idx * row + row) by (nonlinear_arith)
                requires
                    idx == mid / row,
                    row > 0,
            ;
            assert(idx * row + row <= high) by (nonlinear_arith)
                requires
                    idx < hi,
                    high == hi * row,
                    row > 0,
            ;
            assert(idx * row + row <= size) by (nonlinear_arith)
                requires
                    idx < hi <= n,
                    size == n * row,
                    row > 0,
            ;
        }
        let start: u128 = idx * row;
        assert(low <= mid < high);
        assert(start <= mid < start + row);
        let i = idx as usize;
        proof {
            assert(ls[i as int] == lines@[i as int]@);
        }
        match parse_record(lines[i].as_slice()) {
            None => {
                return Err(Error::CorruptRecord);
            },
            Some(rec) => {
                let probe = hash(rec.key.as_slice());
                if probe == d {
                    let value = read_value(data, rec.offset);
                    proof {
                        assert(holds_digest(ls, i as int, d));
                        if searchable(ls, width as nat) {
                            let k = choose|k: int| #[trigger] holds_digest(ls, k, d);
                            if k < i {
                                assert(digest_at(ls, k) < digest_at(ls, i as int));
                            } else if k > i {
                                assert(digest_at(ls, i as int) < digest_at(ls, k));
                            }
                        }
                    }
                    return Ok(Some((value, rec.count)));
                } else if probe < d {
                    proof {
                        if searchable(ls, width as nat) {
                            assert forall|k: int| 0 <= k < idx + 1 implies #[trigger] digest_at(
                                ls,
                                k,
                            ) < d by {
                                if k < idx {
                                    assert(digest_at(ls, k) < digest_at(ls, i as int));
                                }
                            }
                        }
                        lo = idx + 1;
                        assert(start + row == lo * row) by (nonlinear_arith)
                            requires
                                start == idx * row,
                                lo == idx + 1,
                        ;
                    }
                    low = start + row;
                } else {
                    proof {
                        if searchable(ls, width as nat) {
                            assert forall|k: int| idx <= k < n implies #[trigger] digest_at(ls, k)
                                > d by {
                                if k > idx {
                                    assert(digest_at(ls, i as int) < digest_at(ls, k));
                                }
                            }
                        }
                        hi = idx as int;
                    }
                    high = start;
                }
            },
        }
    }
    proof {
        if searchable(ls, width as nat) {
            assert(lo == hi) by (nonlinear_arith)
                requires
                    low >= high,
                    low == lo * row,
                    high == hi * row,
                    lo <= hi,
                    row > 0,
            ;
            if exists|k: int| #[trigger] holds_digest(ls, k, d) {
                let k = choose|k: int| #[trigger] holds_digest(ls, k, d);
                if k < lo {
                    assert(digest_at(ls, k) < d);
                } else {
                    assert(digest_at(ls, k) > d);
                }
            }
        }
    }
    Ok(None)
}

} // verus!

verus! {

/// Whether a binary search can rely on the index `lines` at record width `width`.
pub fn is_searchable(lines: &Vec<Vec<u8>>, width: usize) -> (r: bool)
    ensures
        r == searchable(lines_view(lines@), width as nat),
{
    let ghost ls = lines_view(lines@);
    let n = lines.len();
    let mut prev: u64 = 0;
    let mut i: usize = 0;
    while i < n
        invariant
            i <= n == lines@.len() == ls.len(),
            ls == lines_view(lines@),
            forall|k: int| 0 <= k < i ==> (#[trigger] ls[k]).len() == width && parse_line(ls[k]) is Some,
            forall|a: int, b: int| 0 <= a < b < i ==> digest_at(ls, a) < digest_at(ls, b),
            i > 0 ==> prev == digest_at(ls, i - 1),
        decreases n - i,
    {
        proof {
            assert(ls[i as int] == lines@[i as int]@);
        }
        if lines[i].len() != width {
            return false;
        }
        match parse_record(lines[i].as_slice()) {
            None => {
                return false;
            },
            Some(rec) => {
                let d = hash(rec.key.as_slice());
                if i > 0 && d <= prev {
                    proof {
                        assert(!(digest_at(ls, i - 1) < digest_at(ls, i as int)));
                    }
                    return false;
                }
                proof {
                    assert forall|a: int, b: int| 0 <= a < b < i + 1 implies digest_at(ls, a)
                        < digest_at(ls, b) by {
                        if b == i && a < i - 1 {
                            assert(digest_at(ls, a) < digest_at(ls, i - 1));
                        }
                    }
                }
                prev = d;
            },
        }
        i = i + 1;
    }
    true
}

/// Whether the records of the index `lines` come in strictly ascending order of digest.
pub fn is_sorted_index(lines: &Vec<Vec<u8>>) -> (r: bool)
    ensures
        r == sorted_index(lines_view(lines@)),
{
    let ghost ls = lines_view(lines@);
    let n = lines.len();
    let mut seen = false;
    let mut last: u64 = 0;
    let ghost mut last_k: int = 0;
    let mut i: usize = 0;
    while i < n
        invariant
            i <= n == lines@.len() == ls.len(),
            ls == lines_view(lines@),
            forall|a: int, b: int|
                0 <= a < b < i && parse_line(#[trigger] ls[a]) is Some && parse_line(
                    #[trigger] ls[b],
                ) is Some ==> digest_at(ls, a) < digest_at(ls, b),
            seen ==> 0 <= last_k < i && parse_line(ls[last_k]) is Some && digest_at(ls, last_k)
                == last,
            seen ==> forall|a: int|
                0 <= a < i && parse_line(#[trigger] ls[a]) is Some ==> digest_at(ls, a) <= last,
            !seen ==> forall|a: int| 0 <= a < i ==> parse_line(#[trigger] ls[a]) is None,
        decreases n - i,
    {
        proof {
            assert(ls[i as int] == lines@[i as int]@);
        }
        match parse_record(lines[i].as_slice()) {
            None => {
                proof {
                    assert forall|a: int, b: int|
                        0 <= a < b < i + 1 && parse_line(#[trigger] ls[a]) is Some && parse_line(
                            #[trigger] ls[b],
                        ) is Some implies digest_at(ls, a) < digest_at(ls, b) by {}
                }
            },
            Some(rec) => {
                let d = hash(rec.key.as_slice());
                if seen && d <= last {
                    proof {
                        assert(parse_line(ls[last_k]) is Some && parse_line(ls[i as int]) is Some);
                        assert(!(digest_at(ls, last_k) < digest_at(ls, i as int)));
                    }
                    return false;
                }
                proof {
                    assert(digest_at(ls, i as int) == d);
                    assert forall|a: int, b: int|
                        0 <= a < b < i + 1 && parse_line(#[trigger] ls[a]) is Some && parse_line(
                            #[trigger] ls[b],
                        ) is Some implies digest_at(ls, a) < digest_at(ls, b) by {
                        if b == i && seen {
                            assert(digest_at(ls, a) <= last);
                        }
                    }
                    last_k = i as int;
                }
                seen = true;
                last = d;
            },
        }
        i = i + 1;
    }
    true
}

pub proof fn lemma_searchable_sorted(ls: Seq<Seq<u8>>, width: nat)
    requires
        searchable(ls, width),
    ensures
        sorted_index(ls),
{
    assert forall|a: int, b: int|
        0 <= a < b < ls.len() && parse_line(#[trigger] ls[a]) is Some && parse_line(
            #[trigger] ls[b],
        ) is Some implies digest_at(ls, a) < digest_at(ls, b) by {}
}

} // verus!
