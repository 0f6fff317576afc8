//! Parsing a byte buffer into a list of signed 32-bit integers.
//!
//! The buffer is split at newline bytes; each segment is trimmed of
//! surrounding ASCII whitespace; segments that are empty after trimming are
//! skipped; every other segment must be a decimal integer literal (an
//! optional sign followed by one or more digits) whose value fits in an
//! `i32`, or the whole parse fails.

use vstd::prelude::*;

verus! {

/// ASCII whitespace: space, tab, line feed, vertical tab, form feed,
/// carriage return.
pub open spec fn is_space(b: u8) -> bool {
    b == 32 || b == 9 || b == 10 || b == 11 || b == 12 || b == 13
}

/// ASCII decimal digit.
pub open spec fn is_digit(b: u8) -> bool {
    48 <= b <= 57
}

/// The numeric value of a digit byte, zero for any other byte.
pub open spec fn digit_value(b: u8) -> nat {
    if is_digit(b) {
        (b - 48) as nat
    } else {
        0
    }
}

/// The value of a sequence of digit bytes read as a decimal numeral.
pub open spec fn digits_value(s: Seq<u8>) -> nat
    decreases s.len(),
{
    if s.len() == 0 {
        0
    } else {
        digits_value(s.drop_last()) * 10 + digit_value(s.last())
    }
}

/// Whether the sequence starts with an explicit sign byte (`+` or `-`).
pub open spec fn has_sign(s: Seq<u8>) -> bool {
    s.len() > 0 && (s[0] == 43 || s[0] == 45)
}

/// The digits of a literal: everything after the sign, if there is one.
pub open spec fn digits_part(s: Seq<u8>) -> Seq<u8> {
    if has_sign(s) {
        s.drop_first()
    } else {
        s
    }
}

/// A decimal integer literal: an optional sign followed by one or more
/// digit bytes, nothing else.
pub open spec fn is_int_literal(s: Seq<u8>) -> bool {
    digits_part(s).len() > 0 && forall|k: int|
        0 <= k < digits_part(s).len() ==> is_digit(#[trigger] digits_part(s)[k])
}

/// The mathematical value of an integer literal.
pub open spec fn literal_value(s: Seq<u8>) -> int {
    if s.len() > 0 && s[0] == 45 {
        -(digits_value(digits_part(s)) as int)
    } else {
        digits_value(digits_part(s)) as int
    }
}

/// The literals accepted by the parser: well-formed and within `i32` range.
pub open spec fn parses_to_i32(s: Seq<u8>) -> bool {
    is_int_literal(s) && i32::MIN <= literal_value(s) <= i32::MAX
}

/// Index of the first newline byte in `s`, or `s.len()` if there is none.
pub open spec fn first_newline(s: Seq<u8>) -> nat
    decreases s.len(),
{
    if s.len() == 0 {
        0
    } else if s[0] == 10 {
        0
    } else {
        1 + first_newline(s.drop_first())
    }
}

/// Remove leading ASCII whitespace.
pub open spec fn trim_front(s: Seq<u8>) -> Seq<u8>
    decreases s.len(),
{
    if s.len() > 0 && is_space(s[0]) {
        trim_front(s.drop_first())
    } else {
        s
    }
}

/// Remove trailing ASCII whitespace.
pub open spec fn trim_back(s: Seq<u8>) -> Seq<u8>
    decreases s.len(),
{
    if s.len() > 0 && is_space(s.last()) {
        trim_back(s.drop_last())
    } else {
        s
    }
}

/// Remove surrounding ASCII whitespace.
pub open spec fn trimmed(s: Seq<u8>) -> Seq<u8> {
    trim_back(trim_front(s))
}

/// The parse of a whole buffer: split at the first newline, trim the head
/// segment, skip it if empty, require an in-range integer literal otherwise,
/// and continue past the newline. `None` means some segment was neither
/// empty after trimming nor a literal in range.
pub open spec fn parse_all(s: Seq<u8>) -> Option<Seq<i32>>
    decreases s.len(),
{
    let k = first_newline(s) as int;
    let line = trimmed(s.take(k));
    if k >= s.len() {
        if line.len() == 0 {
            Some(Seq::empty())
        } else if parses_to_i32(line) {
            Some(seq![literal_value(line) as i32])
        } else {
            None
        }
    } else {
        let rest = parse_all(s.skip(k + 1));
        if line.len() == 0 {
            rest
        } else if parses_to_i32(line) {
            match rest {
                Some(r) => Some(seq![literal_value(line) as i32] + r),
                None => None,
            }
        } else {
            None
        }
    }
}

proof fn lemma_first_newline_le(s: Seq<u8>)
    ensures
        first_newline(s) <= s.len(),
    decreases s.len(),
{
    if s.len() > 0 && s[0] != 10 {
        lemma_first_newline_le(s.drop_first());
    }
}

proof fn lemma_trim_front_le(s: Seq<u8>)
    ensures
        trim_front(s).len() <= s.len(),
    decreases s.len(),
{
    if s.len() > 0 && is_space(s[0]) {
        lemma_trim_front_le(s.drop_first());
    }
}

proof fn lemma_trim_back_le(s: Seq<u8>)
    ensures
        trim_back(s).len() <= s.len(),
    decreases s.len(),
{
    if s.len() > 0 && is_space(s.last()) {
        lemma_trim_back_le(s.drop_last());
    }
}

/// A buffer cannot hold more integers than it has bytes: every parsed value
/// comes from at least one non-blank byte, and distinct lines occupy
/// disjoint parts of the buffer.
pub proof fn lemma_parse_count_le_len(s: Seq<u8>)
    requires
        parse_all(s) is Some,
    ensures
        parse_all(s).unwrap().len() <= s.len(),
    decreases s.len(),
{
    let k = first_newline(s) as int;
    let line = trimmed(s.take(k));
    lemma_first_newline_le(s);
    lemma_trim_front_le(s.take(k));
    lemma_trim_back_le(trim_front(s.take(k)));
    if k >= s.len() {
    } else {
        lemma_parse_count_le_len(s.skip(k + 1));
    }
}

/// A prefix of a digit string never has a larger value than the whole.
proof fn lemma_digits_value_prefix_le(s: Seq<u8>, k: int)
    requires
        0 <= k <= s.len(),
    ensures
        digits_value(s.take(k)) <= digits_value(s),
    decreases s.len(),
{
    if k == s.len() {
        assert(s.take(k) =~= s);
    } else {
        lemma_digits_value_prefix_le(s.drop_last(), k);
        assert(s.drop_last().take(k) =~= s.take(k));
    }
}

/// Parse the byte range `[lo, hi)` of `text` as a decimal `i32` literal.
fn parse_int_range(text: &Vec<u8>, lo: usize, hi: usize) -> (r: Option<i32>)
    requires
        lo <= hi <= text@.len(),
    ensures
        match r {
            Some(v) => parses_to_i32(text@.subrange(lo as int, hi as int)) && v as int
                == literal_value(text@.subrange(lo as int, hi as int)),
            None => !parses_to_i32(text@.subrange(lo as int, hi as int)),
        },
{
    let ghost seg = text@.subrange(lo as int, hi as int);
    let mut neg = false;
    let mut d0 = lo;
    if lo < hi && (text[lo] == 43 || text[lo] == 45) {
        neg = text[lo] == 45;
        d0 = lo + 1;
    }
    proof {
        assert(has_sign(seg) ==> seg.drop_first() =~= text@.subrange(d0 as int, hi as int));
        assert(!has_sign(seg) ==> seg =~= text@.subrange(d0 as int, hi as int));
    }
    let ghost dpart = digits_part(seg);
    assert(dpart == text@.subrange(d0 as int, hi as int));
    if d0 == hi {
        // no digits at all: not a literal
        assert(dpart.len() == 0);
        return None;
    }
    let mut acc: u64 = 0;
    let mut k = d0;
    while k < hi
        invariant
            lo <= d0 <= k <= hi <= text@.len(),
            seg == text@.subrange(lo as int, hi as int),
            dpart == digits_part(seg),
            dpart == text@.subrange(d0 as int, hi as int),
            neg == (seg.len() > 0 && seg[0] == 45),
            forall|m: int| d0 <= m < k ==> is_digit(#[trigger] text@[m]),
            acc == digits_value(text@.subrange(d0 as int, k as int)),
            acc <= 2147483648,
        decreases hi - k,
    {
        let b = text[k];
        if b < 48 || b > 57 {
            proof {
                assert(digits_part(seg)[k as int - d0] == text@[k as int]);
                assert(!is_digit(digits_part(seg)[k as int - d0]));
                assert(!is_int_literal(seg));
            }
            return None;
        }
        acc = acc * 10 + ((b - 48) as u64);
        proof {
            assert(text@.subrange(d0 as int, k as int + 1).drop_last() =~= text@.subrange(
                d0 as int,
                k as int,
            ));
            assert(text@.subrange(d0 as int, k as int + 1).last() == text@[k as int]);
        }
        k = k + 1;
        if acc > 2147483648 {
            proof {
                if is_int_literal(seg) {
                    lemma_digits_value_prefix_le(dpart, k as int - d0);
                    assert(dpart.take(k as int - d0) =~= text@.subrange(d0 as int, k as int));
                    assert(digits_value(dpart) >= acc);
                    assert(literal_value(seg) > i32::MAX || literal_value(seg) < i32::MIN);
                }
            }
            return None;
        }
    }
    proof {
        assert(text@.subrange(d0 as int, k as int) =~= dpart);
        assert(is_int_literal(seg));
        assert(digits_value(dpart) == acc);
    }
    if neg {
        assert(seg[0] == 45);
        if acc == 2147483648 {
            Some(i32::MIN)
        } else {
            Some(-(acc as i32))
        }
    } else {
        assert(!(seg.len() > 0 && seg[0] == 45));
        if acc > 2147483647 {
            assert(literal_value(seg) > i32::MAX);
            None
        } else {
            Some(acc as i32)
        }
    }
}

/// Parse a whole buffer given as a single literal: accepts exactly the
/// byte strings that form one optional sign and one or more digits, with a
/// value in `i32` range.
pub fn parse_i32(s: &Vec<u8>) -> (r: Option<i32>)
    ensures
        match r {
            Some(v) => parses_to_i32(s@) && v as int == literal_value(s@),
            None => !parses_to_i32(s@),
        },
{
    proof {
        assert(s@.subrange(0, s@.len() as int) =~= s@);
    }
    parse_int_range(s, 0, s.len())
}

proof fn lemma_first_newline_at(s: Seq<u8>, k: int)
    requires
        0 <= k <= s.len(),
        forall|m: int| 0 <= m < k ==> s[m] != 10,
        k < s.len() ==> s[k] == 10,
    ensures
        first_newline(s) == k,
    decreases k,
{
    if k == 0 {
    } else {
        lemma_first_newline_at(s.drop_first(), k - 1);
    }
}

/// Parse the suffix of `text` that starts at `start`, appending the values
/// to `out`; returns whether every line of the suffix was acceptable.
fn parse_from(text: &Vec<u8>, start: usize, out: &mut Vec<i32>) -> (ok: bool)
    requires
        start <= text@.len(),
    ensures
        ok == (parse_all(text@.skip(start as int)) is Some),
        ok ==> final(out)@ == old(out)@ + parse_all(text@.skip(start as int)).unwrap(),
    decreases text@.len() - start,
{
    let ghost s = text@.skip(start as int);
    let n = text.len();
    let mut k = start;
    while k < n && text[k] != 10
        invariant
            start <= k <= n,
            n == text@.len(),
            forall|m: int| start <= m < k ==> text@[m] != 10,
        decreases n - k,
    {
        k = k + 1;
    }
    proof {
        assert forall|m: int| 0 <= m < k - start implies s[m] != 10 by {
            assert(s[m] == text@[m + start]);
        }
        lemma_first_newline_at(s, k as int - start);
        assert(s.take(k as int - start) =~= text@.subrange(start as int, k as int));
    }
    // trim surrounding whitespace off the segment [start, k)
    let mut lo = start;
    while lo < k && (text[lo] == 32 || text[lo] == 9 || text[lo] == 10 || text[lo] == 11
        || text[lo] == 12 || text[lo] == 13)
        invariant
            start <= lo <= k <= text@.len(),
            trim_front(text@.subrange(start as int, k as int)) == trim_front(
                text@.subrange(lo as int, k as int),
            ),
        decreases k - lo,
    {
        proof {
            assert(text@.subrange(lo as int, k as int).drop_first() =~= text@.subrange(
                lo as int + 1,
                k as int,
            ));
        }
        lo = lo + 1;
    }
    proof {
        assert(trim_front(text@.subrange(start as int, k as int)) == text@.subrange(
            lo as int,
            k as int,
        ));
    }
    let mut hi = k;
    while hi > lo && (text[hi - 1] == 32 || text[hi - 1] == 9 || text[hi - 1] == 10
        || text[hi - 1] == 11 || text[hi - 1] == 12 || text[hi - 1] == 13)
        invariant
            lo <= hi <= k <= text@.len(),
            trim_back(text@.subrange(lo as int, k as int)) == trim_back(
                text@.subrange(lo as int, hi as int),
            ),
        decreases hi - lo,
    {
        proof {
            assert(text@.subrange(lo as int, hi as int).drop_last() =~= text@.subrange(
                lo as int,
                hi as int - 1,
            ));
        }
        hi = hi - 1;
    }
    let ghost line = trimmed(s.take(k as int - start));
    proof {
        assert(line == text@.subrange(lo as int, hi as int));
    }
    if lo < hi {
        match parse_int_range(text, lo, hi) {
            Some(v) => {
                out.push(v);
                proof {
                    assert(v == literal_value(line) as i32);
                    assert(out@ == old(out)@ + seq![literal_value(line) as i32]);
                }
            },
            None => {
                return false;
            },
        }
    }
    let ghost mid = out@;
    if k == n {
        proof {
            assert(s.len() == n - start);
            assert(first_newline(s) == s.len());
            if lo == hi {
                assert(mid + parse_all(s).unwrap() =~= mid);
            } else {
                assert(old(out)@ + parse_all(s).unwrap() =~= mid);
            }
        }
        true
    } else {
        proof {
            assert(s.skip(k as int - start + 1) =~= text@.skip(k as int + 1));
        }
        let rest_ok = parse_from(text, k + 1, out);
        proof {
            let rest = parse_all(text@.skip(k as int + 1));
            assert(parse_all(s.skip(k as int - start + 1)) == rest);
            if rest_ok {
                if lo == hi {
                    assert(parse_all(s) == rest);
                    assert(out@ == old(out)@ + parse_all(s).unwrap());
                } else {
                    assert(parse_all(s) == Some(seq![literal_value(line) as i32] + rest.unwrap()));
                    assert(out@ == (old(out)@ + seq![literal_value(line) as i32]) + rest.unwrap());
                    assert((old(out)@ + seq![literal_value(line) as i32]) + rest.unwrap()
                        =~= old(out)@ + (seq![literal_value(line) as i32] + rest.unwrap()));
                }
            }
        }
        rest_ok
    }
}

/// Parse a byte buffer into the list of integers it holds, one per
/// non-blank line: `Some` with the values in input order exactly when every
/// non-blank line, trimmed of surrounding ASCII whitespace, is a decimal
/// integer literal whose value fits in an `i32`; `None` otherwise.
pub fn parse_input(text: &Vec<u8>) -> (r: Option<Vec<i32>>)
    ensures
        match r {
            Some(v) => parse_all(text@) == Some(v@),
            None => parse_all(text@) is None,
        },
{
    let mut out: Vec<i32> = Vec::new();
    proof {
        assert(text@.skip(0) =~= text@);
    }
    let ok = parse_from(text, 0, &mut out);
    if ok {
        Some(out)
    } else {
        None
    }
}

} // verus!
