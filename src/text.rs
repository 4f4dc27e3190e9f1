//! Byte-level helpers for the text records: decimal digits and separator search.
use vstd::prelude::*;

verus! {

/// The separator byte between the fields of a record, also used as padding.
pub const SEP: u8 = 0;

/// The line terminator of both files.
pub const NEWLINE: u8 = 10;

/// The decimal digits of `n`, most significant first, without leading zeros.
pub open spec fn digits(n: nat) -> Seq<u8>
    decreases n,
{
    if n < 10 {
        seq![(48 + n) as u8]
    } else {
        digits(n / 10).push((48 + n % 10) as u8)
    }
}

pub open spec fn is_digit(b: u8) -> bool {
    48 <= b <= 57
}

pub open spec fn all_digits(s: Seq<u8>) -> bool {
    forall|i: int| 0 <= i < s.len() ==> is_digit(#[trigger] s[i])
}

/// The number that a sequence of decimal digits spells.
pub open spec fn digit_value(s: Seq<u8>) -> nat
    decreases s.len(),
{
    if s.len() == 0 {
        0
    } else {
        digit_value(s.drop_last()) * 10 + ((s.last() as int) - 48) as nat
    }
}

/// A non-empty run of decimal digits, read as a number.
pub open spec fn decimal_field(s: Seq<u8>) -> Option<nat> {
    if s.len() > 0 && all_digits(s) {
        Some(digit_value(s))
    } else {
        None
    }
}

/// A byte sequence free of the separator and of the line terminator.
pub open spec fn plain_bytes(s: Seq<u8>) -> bool {
    forall|i: int| 0 <= i < s.len() ==> #[trigger] s[i] != SEP && s[i] != NEWLINE
}

/// The position of the first `b` at or after `from`, or the length when there is none.
pub open spec fn find_from(s: Seq<u8>, b: u8, from: int) -> int
    decreases s.len() - from,
{
    if from < 0 || from >= s.len() {
        s.len() as int
    } else if s[from] == b {
        from
    } else {
        find_from(s, b, from + 1)
    }
}

pub proof fn lemma_digits(n: nat)
    ensures
        digits(n).len() > 0,
        all_digits(digits(n)),
        digit_value(digits(n)) == n,
        plain_bytes(digits(n)),
    decreases n,
{
    if n >= 10 {
        lemma_digits(n / 10);
        let d = digits(n);
        assert(d.drop_last() =~= digits(n / 10));
        assert(d.last() as int - 48 == n % 10);
        assert(n == (n / 10) * 10 + n % 10);
        assert(digit_value(d) == digit_value(d.drop_last()) * 10 + ((d.last() as int) - 48) as nat);
    } else {
        let d = digits(n);
        assert(d.drop_last() =~= Seq::<u8>::empty());
        assert(digit_value(d.drop_last()) == 0);
        assert(digit_value(d) == digit_value(d.drop_last()) * 10 + ((d.last() as int) - 48) as nat);
    }
}

pub proof fn lemma_find_bounds(s: Seq<u8>, b: u8, from: int)
    requires
        0 <= from,
    ensures
        from <= find_from(s, b, from) || find_from(s, b, from) == s.len(),
        find_from(s, b, from) <= s.len(),
        find_from(s, b, from) < s.len() ==> s[find_from(s, b, from)] == b,
        forall|k: int| from <= k < find_from(s, b, from) ==> s[k] != b,
    decreases s.len() - from,
{
    if from < s.len() && s[from] != b {
        lemma_find_bounds(s, b, from + 1);
    }
}

/// Searching from `from` gives `to` when no `b` lies in between and `b` stands at `to`
/// (or `to` is the end).
pub proof fn lemma_find_at(s: Seq<u8>, b: u8, from: int, to: int)
    requires
        0 <= from <= to <= s.len(),
        forall|k: int| from <= k < to ==> s[k] != b,
        to == s.len() || s[to] == b,
    ensures
        find_from(s, b, from) == to,
    decreases to - from,
{
    if from < to {
        lemma_find_at(s, b, from + 1, to);
    }
}

/// A prefix of a digit run spells at most what the whole run spells.
pub proof fn lemma_value_prefix(s: Seq<u8>, k: int)
    requires
        all_digits(s),
        0 <= k <= s.len(),
    ensures
        digit_value(s.subrange(0, k)) <= digit_value(s),
    decreases s.len(),
{
    if k < s.len() {
        let t = s.drop_last();
        assert(all_digits(t)) by {
            assert forall|i: int| 0 <= i < t.len() implies is_digit(#[trigger] t[i]) by {
                assert(t[i] == s[i]);
            }
        }
        lemma_value_prefix(t, k);
        assert(t.subrange(0, k) =~= s.subrange(0, k));
    } else {
        assert(s.subrange(0, k) =~= s);
    }
}

/// Appends the decimal digits of `n` to `out`.
pub fn push_decimal(out: &mut Vec<u8>, n: u64)
    ensures
        final(out)@ == old(out)@ + digits(n as nat),
    decreases n,
{
    if n >= 10 {
        push_decimal(out, n / 10);
    }
    out.push((48 + n % 10) as u8);
    proof {
        if n >= 10 {
            assert(old(out)@ + digits(n as nat) =~= (old(out)@ + digits((n / 10) as nat)).push(
                (48 + n % 10) as u8,
            ));
        } else {
            assert(old(out)@ + digits(n as nat) =~= old(out)@.push((48 + n % 10) as u8));
        }
    }
}

/// The first position of `b` in `s` at or after `from` (the length when there is none).
pub fn find_byte(s: &[u8], b: u8, from: usize) -> (r: usize)
    requires
        from <= s@.len(),
    ensures
        r as int == find_from(s@, b, from as int),
{
    let mut i: usize = from;
    while i < s.len() && s[i] != b
        invariant
            from <= i <= s@.len(),
            find_from(s@, b, from as int) == find_from(s@, b, i as int),
        decreases s@.len() - i,
    {
        i = i + 1;
    }
    i
}

/// Reads `s[from..to]` as a decimal number that fits in a `u64`.
pub fn parse_decimal(s: &[u8], from: usize, to: usize) -> (r: Option<u64>)
    requires
        from <= to <= s@.len(),
    ensures
        r == (match decimal_field(s@.subrange(from as int, to as int)) {
            Some(v) => if v <= u64::MAX {
                Some(v as u64)
            } else {
                None::<u64>
            },
            None => None,
        }),
{
    let ghost field = s@.subrange(from as int, to as int);
    if from == to {
        return None;
    }
    let mut acc: u64 = 0;
    let mut i: usize = from;
    while i < to
        invariant
            from <= i <= to <= s@.len(),
            field == s@.subrange(from as int, to as int),
            all_digits(field.subrange(0, i - from)),
            acc as nat == digit_value(field.subrange(0, i - from)),
        decreases to - i,
    {
        let c = s[i];
        let ghost pre = field.subrange(0, i - from);
        let ghost next = field.subrange(0, i + 1 - from);
        assert(next.drop_last() =~= pre);
        assert(next.last() == c);
        if c < 48 || c > 57 {
            assert(!all_digits(field)) by {
                assert(field[i - from] == c);
            }
            return None;
        }
        let d = (c - 48) as u64;
        if acc > (u64::MAX - d) / 10 {
            proof {
                assert(all_digits(next)) by {
                    assert forall|k: int| 0 <= k < next.len() implies is_digit(#[trigger] next[k]) by {
                        if k < pre.len() {
                            assert(next[k] == pre[k]);
                        }
                    }
                }
                assert(digit_value(next) > u64::MAX) by (nonlinear_arith)
                    requires
                        digit_value(next) == acc as nat * 10 + d as nat,
                        acc > (u64::MAX - d) / 10,
                        d <= 9,
                ;
                if all_digits(field) {
                    lemma_value_prefix(field, i + 1 - from);
                }
            }
            return None;
        }
        proof {
            assert(acc * 10 + d <= u64::MAX) by (nonlinear_arith)
                requires
                    acc <= (u64::MAX - d) / 10,
                    d <= 9,
            ;
            assert(all_digits(next)) by {
                assert forall|k: int| 0 <= k < next.len() implies is_digit(#[trigger] next[k]) by {
                    if k < pre.len() {
                        assert(next[k] == pre[k]);
                    }
                }
            }
        }
        acc = acc * 10 + d;
        i = i + 1;
    }
    assert(field.subrange(0, to - from) =~= field);
    Some(acc)
}

} // verus!

verus! {

/// A copy of `s[from..to]`.
pub fn copy_range(s: &[u8], from: usize, to: usize) -> (r: Vec<u8>)
    requires
        from <= to <= s@.len(),
    ensures
        r@ == s@.subrange(from as int, to as int),
{
    let mut out: Vec<u8> = Vec::new();
    let mut i: usize = from;
    while i < to
        invariant
            from <= i <= to <= s@.len(),
            out@ == s@.subrange(from as int, i as int),
        decreases to - i,
    {
        out.push(s[i]);
        assert(out@ =~= s@.subrange(from as int, i + 1));
        i = i + 1;
    }
    out
}

/// Appends the bytes of `s` to `out`.
pub fn append_bytes(out: &mut Vec<u8>, s: &[u8])
    ensures
        final(out)@ == old(out)@ + s@,
{
    let mut i: usize = 0;
    while i < s.len()
        invariant
            i <= s@.len(),
            out@ == old(out)@ + s@.subrange(0, i as int),
        decreases s@.len() - i,
    {
        out.push(s[i]);
        assert(out@ =~= old(out)@ + s@.subrange(0, i + 1));
        i = i + 1;
    }
    assert(s@.subrange(0, s@.len() as int) =~= s@);
}

} // verus!

verus! {

/// A byte sequence without a line terminator.
pub open spec fn one_line(s: Seq<u8>) -> bool {
    forall|i: int| 0 <= i < s.len() ==> #[trigger] s[i] != NEWLINE
}

/// Whether `s` is free of the separator and of the line terminator.
pub fn is_plain(s: &[u8]) -> (r: bool)
    ensures
        r == plain_bytes(s@),
{
    let mut i: usize = 0;
    while i < s.len()
        invariant
            i <= s@.len(),
            forall|k: int| 0 <= k < i ==> #[trigger] s@[k] != SEP && s@[k] != NEWLINE,
        decreases s@.len() - i,
    {
        if s[i] == SEP || s[i] == NEWLINE {
            return false;
        }
        i = i + 1;
    }
    true
}

/// Whether `s` is free of the line terminator.
pub fn is_one_line(s: &[u8]) -> (r: bool)
    ensures
        r == one_line(s@),
{
    let mut i: usize = 0;
    while i < s.len()
        invariant
            i <= s@.len(),
            forall|k: int| 0 <= k < i ==> #[trigger] s@[k] != NEWLINE,
        decreases s@.len() - i,
    {
        if s[i] == NEWLINE {
            return false;
        }
        i = i + 1;
    }
    true
}

} // verus!
