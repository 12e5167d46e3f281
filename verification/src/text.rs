//! Byte-level text primitives shared by the counter parsers: ASCII
//! classification, decimal number parsing, whitespace trimming and
//! splitting into fields and lines.

use vstd::prelude::*;
use vstd::slice::{slice_subrange, slice_to_vec};

verus! {

pub const SPACE: u8 = 32;
pub const TAB: u8 = 9;
pub const LF: u8 = 10;
pub const CR: u8 = 13;
pub const DIGIT_0: u8 = 48;
pub const DIGIT_9: u8 = 57;
pub const MINUS: u8 = 45;
pub const DOT: u8 = 46;

/// ASCII whitespace as the counter files use it.
pub open spec fn is_ws(b: u8) -> bool {
    b == SPACE || b == TAB || b == LF || b == CR
}

pub open spec fn is_digit(b: u8) -> bool {
    DIGIT_0 <= b <= DIGIT_9
}

pub open spec fn all_digits(s: Seq<u8>) -> bool {
    forall|i: int| 0 <= i < s.len() ==> is_digit(#[trigger] s[i])
}

/// The number denoted by a string of decimal digits, most significant first.
pub open spec fn digits_val(s: Seq<u8>) -> nat
    recommends
        all_digits(s),
    decreases s.len(),
{
    if s.len() == 0 {
        0
    } else {
        digits_val(s.drop_last()) * 10 + (s.last() - DIGIT_0) as nat
    }
}

/// A digit string denotes at least as much as any of its prefixes.
proof fn lemma_digits_val_prefix_le(s: Seq<u8>, i: int)
    requires
        0 <= i <= s.len(),
    ensures
        digits_val(s.take(i)) <= digits_val(s),
    decreases s.len() - i,
{
    if i < s.len() {
        lemma_digits_val_prefix_le(s, i + 1);
        assert(s.take(i + 1).drop_last() =~= s.take(i));
        assert(digits_val(s.take(i + 1)) == digits_val(s.take(i)) * 10 + (s.take(i + 1).last()
            - DIGIT_0) as nat);
    } else {
        assert(s.take(i) =~= s);
    }
}

/// What `parse_u64` returns: the denoted number, exactly when the input is a
/// non-empty all-digit string whose value fits in a `u64`.
pub open spec fn parse_u64_spec(s: Seq<u8>) -> Option<u64> {
    if s.len() > 0 && all_digits(s) && digits_val(s) <= u64::MAX {
        Some(digits_val(s) as u64)
    } else {
        None
    }
}

/// Parse an unsigned decimal number; rejects empty input, any non-digit
/// byte, and values that overflow a `u64`.
pub fn parse_u64(s: &[u8]) -> (r: Option<u64>)
    ensures
        r == parse_u64_spec(s@),
{
    if s.len() == 0 {
        return None;
    }
    let mut acc: u64 = 0;
    let mut i: usize = 0;
    while i < s.len()
        invariant
            0 <= i <= s@.len(),
            all_digits(s@.take(i as int)),
            acc == digits_val(s@.take(i as int)),
        decreases s@.len() - i,
    {
        let b = s[i];
        if b < DIGIT_0 || b > DIGIT_9 {
            assert(!is_digit(s@[i as int]));
            return None;
        }
        let d = (b - DIGIT_0) as u64;
        proof {
            assert(s@.take(i + 1).drop_last() =~= s@.take(i as int));
            assert(s@.take(i + 1).last() == s@[i as int]);
        }
        if acc > (u64::MAX - d) / 10 {
            proof {
                assert(acc * 10 + d > u64::MAX) by {
                    assert(acc >= (u64::MAX - d) / 10 + 1);
                    assert(((u64::MAX - d) / 10 + 1) * 10 == ((u64::MAX - d) / 10) * 10 + 10);
                    assert(((u64::MAX - d) / 10) * 10 + (u64::MAX - d) % 10 == u64::MAX - d);
                }
                assert(digits_val(s@.take(i + 1)) > u64::MAX);
                lemma_digits_val_prefix_le(s@, i + 1);
            }
            return None;
        }
        proof {
            assert(acc * 10 + d <= u64::MAX) by {
                assert(acc <= (u64::MAX - d) / 10);
                assert(((u64::MAX - d) / 10) * 10 + (u64::MAX - d) % 10 == u64::MAX - d);
                assert(acc * 10 <= ((u64::MAX - d) / 10) * 10);
            }
        }
        acc = acc * 10 + d;
        i = i + 1;
    }
    proof {
        assert(s@.take(i as int) =~= s@);
    }
    Some(acc)
}

/// What `parse_i64` returns: an optional minus sign followed by digits,
/// exactly when the value fits in an `i64`.
pub open spec fn parse_i64_spec(s: Seq<u8>) -> Option<i64> {
    if s.len() > 0 && s[0] == MINUS {
        let d = s.drop_first();
        if d.len() > 0 && all_digits(d) && digits_val(d) <= 0x8000_0000_0000_0000 {
            Some((-(digits_val(d) as int)) as i64)
        } else {
            None
        }
    } else if s.len() > 0 && all_digits(s) && digits_val(s) <= i64::MAX {
        Some(digits_val(s) as i64)
    } else {
        None
    }
}

/// Parse a signed decimal number with an optional leading minus sign.
pub fn parse_i64(s: &[u8]) -> (r: Option<i64>)
    ensures
        r == parse_i64_spec(s@),
{
    if s.len() > 0 && s[0] == MINUS {
        let rest = slice_subrange(s, 1, s.len());
        proof {
            assert(rest@ =~= s@.drop_first());
        }
        match parse_u64(rest) {
            None => None,
            Some(v) => {
                if v <= i64::MAX as u64 {
                    Some(-(v as i64))
                } else if v == 0x8000_0000_0000_0000u64 {
                    Some(i64::MIN)
                } else {
                    None
                }
            },
        }
    } else {
        match parse_u64(s) {
            None => None,
            Some(v) => {
                if v <= i64::MAX as u64 {
                    Some(v as i64)
                } else {
                    None
                }
            },
        }
    }
}

/// The input with its leading ASCII whitespace removed.
pub open spec fn trim_front_spec(s: Seq<u8>) -> Seq<u8>
    decreases s.len(),
{
    if s.len() > 0 && is_ws(s[0]) {
        trim_front_spec(s.drop_first())
    } else {
        s
    }
}

/// The input with its trailing ASCII whitespace removed.
pub open spec fn trim_back_spec(s: Seq<u8>) -> Seq<u8>
    decreases s.len(),
{
    if s.len() > 0 && is_ws(s.last()) {
        trim_back_spec(s.drop_last())
    } else {
        s
    }
}

/// The input with whitespace removed at both ends.
pub open spec fn trim_spec(s: Seq<u8>) -> Seq<u8> {
    trim_back_spec(trim_front_spec(s))
}

/// Remove ASCII whitespace at both ends of a byte string.
pub fn trim(s: &[u8]) -> (r: &[u8])
    ensures
        r@ == trim_spec(s@),
{
    proof {
        assert(s@.skip(0) =~= s@);
    }
    let mut lo: usize = 0;
    while lo < s.len() && (s[lo] == SPACE || s[lo] == TAB || s[lo] == LF || s[lo] == CR)
        invariant
            0 <= lo <= s@.len(),
            trim_front_spec(s@) == trim_front_spec(s@.skip(lo as int)),
        decreases s@.len() - lo,
    {
        proof {
            assert(s@.skip(lo as int).drop_first() =~= s@.skip(lo + 1));
            assert(s@.skip(lo as int)[0] == s@[lo as int]);
        }
        lo = lo + 1;
    }
    proof {
        if lo < s@.len() {
            assert(s@.skip(lo as int)[0] == s@[lo as int]);
        }
        assert(trim_front_spec(s@) == s@.skip(lo as int));
    }
    proof {
        assert(s@.skip(lo as int) =~= s@.subrange(lo as int, s@.len() as int));
    }
    let mut hi: usize = s.len();
    while hi > lo && (s[hi - 1] == SPACE || s[hi - 1] == TAB || s[hi - 1] == LF || s[hi - 1] == CR)
        invariant
            lo <= hi <= s@.len(),
            trim_back_spec(s@.skip(lo as int)) == trim_back_spec(s@.subrange(lo as int, hi as int)),
        decreases hi,
    {
        proof {
            assert(s@.subrange(lo as int, hi as int).drop_last() =~= s@.subrange(
                lo as int,
                hi - 1,
            ));
            assert(s@.subrange(lo as int, hi as int).last() == s@[hi - 1]);
        }
        hi = hi - 1;
    }
    proof {
        if hi > lo {
            assert(s@.subrange(lo as int, hi as int).last() == s@[hi - 1]);
        }
        assert(trim_back_spec(s@.subrange(lo as int, hi as int)) == s@.subrange(
            lo as int,
            hi as int,
        ));
    }
    slice_subrange(s, lo, hi)
}

/// Length of the leading run of non-whitespace bytes.
pub open spec fn token_len(s: Seq<u8>) -> nat
    decreases s.len(),
{
    if s.len() == 0 || is_ws(s[0]) {
        0
    } else {
        token_len(s.drop_first()) + 1
    }
}

pub proof fn lemma_token_len_le(s: Seq<u8>)
    ensures
        token_len(s) <= s.len(),
    decreases s.len(),
{
    if s.len() > 0 && !is_ws(s[0]) {
        lemma_token_len_le(s.drop_first());
    }
}

/// A scan that stops at the first whitespace byte finds the token length.
proof fn lemma_token_len_from_scan(s: Seq<u8>, j: int)
    requires
        0 <= j <= s.len(),
        forall|k: int| 0 <= k < j ==> !is_ws(#[trigger] s[k]),
        j == s.len() || is_ws(s[j]),
    ensures
        token_len(s) == j,
    decreases j,
{
    if j == 0 {
    } else {
        assert(!is_ws(s[0]));
        lemma_token_len_from_scan(s.drop_first(), j - 1);
    }
}

/// The whitespace-separated fields of a byte string, in order.
pub open spec fn fields_spec(s: Seq<u8>) -> Seq<Seq<u8>>
    decreases s.len(),
    via fields_spec_dec
{
    if s.len() == 0 {
        seq![]
    } else if is_ws(s[0]) {
        fields_spec(s.drop_first())
    } else {
        seq![s.take(token_len(s) as int)] + fields_spec(s.skip(token_len(s) as int))
    }
}

#[via_fn]
proof fn fields_spec_dec(s: Seq<u8>) {
    if s.len() > 0 && !is_ws(s[0]) {
        lemma_token_len_le(s);
    }
}

/// Split a byte string into its whitespace-separated fields.
pub fn split_fields(s: &[u8]) -> (r: Vec<Vec<u8>>)
    ensures
        r.deep_view() == fields_spec(s@),
{
    let mut out: Vec<Vec<u8>> = Vec::new();
    proof {
        assert(s@.skip(0) =~= s@);
    }
    let mut i: usize = 0;
    while i < s.len()
        invariant
            0 <= i <= s@.len(),
            out.deep_view() + fields_spec(s@.skip(i as int)) == fields_spec(s@),
        decreases s@.len() - i,
    {
        let b = s[i];
        if b == SPACE || b == TAB || b == LF || b == CR {
            proof {
                assert(s@.skip(i as int)[0] == s@[i as int]);
                assert(s@.skip(i as int).drop_first() =~= s@.skip(i + 1));
            }
            i = i + 1;
        } else {
            let ghost old_dv = out.deep_view();
            let start = i;
            let mut j: usize = i;
            while j < s.len() && !(s[j] == SPACE || s[j] == TAB || s[j] == LF || s[j] == CR)
                invariant
                    start <= j <= s@.len(),
                    forall|k: int| start <= k < j ==> !is_ws(#[trigger] s@[k]),
                decreases s@.len() - j,
            {
                j = j + 1;
            }
            let tok = slice_to_vec(slice_subrange(s, start, j));
            out.push(tok);
            proof {
                let ss = s@.skip(start as int);
                assert forall|k: int| 0 <= k < j - start implies !is_ws(#[trigger] ss[k]) by {
                    assert(ss[k] == s@[start + k]);
                }
                if (j as int) < s@.len() {
                    assert(ss[j - start] == s@[j as int]);
                }
                lemma_token_len_from_scan(ss, j - start);
                assert(ss.take(j - start) =~= s@.subrange(start as int, j as int));
                assert(ss.skip(j - start) =~= s@.skip(j as int));
                assert(!is_ws(ss[0]));
                assert(fields_spec(ss) == seq![s@.subrange(start as int, j as int)] + fields_spec(
                    s@.skip(j as int),
                ));
                assert(out.deep_view() =~~= old_dv.push(tok@));
                assert(out.deep_view() + fields_spec(s@.skip(j as int)) =~= old_dv + fields_spec(
                    ss,
                ));
            }
            i = j;
        }
    }
    proof {
        assert(fields_spec(s@.skip(i as int)) =~= Seq::<Seq<u8>>::empty());
        assert(out.deep_view() + fields_spec(s@.skip(i as int)) =~= out.deep_view());
    }
    out
}

/// Length of the leading run up to, not including, the first line feed.
pub open spec fn line_len(s: Seq<u8>) -> nat
    decreases s.len(),
{
    if s.len() == 0 || s[0] == LF {
        0
    } else {
        line_len(s.drop_first()) + 1
    }
}

pub proof fn lemma_line_len_le(s: Seq<u8>)
    ensures
        line_len(s) <= s.len(),
    decreases s.len(),
{
    if s.len() > 0 && s[0] != LF {
        lemma_line_len_le(s.drop_first());
    }
}

/// A scan that stops at the first line feed finds the line length.
proof fn lemma_line_len_from_scan(s: Seq<u8>, j: int)
    requires
        0 <= j <= s.len(),
        forall|k: int| 0 <= k < j ==> #[trigger] s[k] != LF,
        j == s.len() || s[j] == LF,
    ensures
        line_len(s) == j,
    decreases j,
{
    if j > 0 {
        assert(s[0] != LF);
        lemma_line_len_from_scan(s.drop_first(), j - 1);
    }
}

/// The lines of a byte string: maximal runs separated by single line feeds.
/// A trailing line feed ends the last line; it does not start an empty one.
pub open spec fn lines_spec(s: Seq<u8>) -> Seq<Seq<u8>>
    decreases s.len(),
    via lines_spec_dec
{
    if s.len() == 0 {
        seq![]
    } else {
        let n = line_len(s);
        if n == s.len() {
            seq![s]
        } else {
            seq![s.take(n as int)] + lines_spec(s.skip(n as int + 1))
        }
    }
}

#[via_fn]
proof fn lines_spec_dec(s: Seq<u8>) {
    if s.len() > 0 {
        lemma_line_len_le(s);
    }
}

/// Split a byte string into its lines.
pub fn split_lines(s: &[u8]) -> (r: Vec<Vec<u8>>)
    ensures
        r.deep_view() == lines_spec(s@),
{
    let mut out: Vec<Vec<u8>> = Vec::new();
    proof {
        assert(s@.skip(0) =~= s@);
    }
    let mut i: usize = 0;
    while i < s.len()
        invariant
            0 <= i <= s@.len(),
            out.deep_view() + lines_spec(s@.skip(i as int)) == lines_spec(s@),
        decreases s@.len() - i,
    {
        let ghost old_dv = out.deep_view();
        let start = i;
        let mut j: usize = i;
        while j < s.len() && s[j] != LF
            invariant
                start <= j <= s@.len(),
                forall|k: int| start <= k < j ==> #[trigger] s@[k] != LF,
            decreases s@.len() - j,
        {
            j = j + 1;
        }
        let line = slice_to_vec(slice_subrange(s, start, j));
        out.push(line);
        proof {
            let ss = s@.skip(start as int);
            assert forall|k: int| 0 <= k < j - start implies #[trigger] ss[k] != LF by {
                assert(ss[k] == s@[start + k]);
            }
            if (j as int) < s@.len() {
                assert(ss[j - start] == s@[j as int]);
            }
            lemma_line_len_from_scan(ss, j - start);
            assert(ss.take(j - start) =~= s@.subrange(start as int, j as int));
            assert(out.deep_view() =~~= old_dv.push(line@));
            if (j as int) < s@.len() {
                assert(ss.skip(j - start + 1) =~= s@.skip(j + 1));
                assert(lines_spec(ss) == seq![s@.subrange(start as int, j as int)] + lines_spec(
                    s@.skip(j + 1),
                ));
                assert(out.deep_view() + lines_spec(s@.skip(j + 1)) =~= old_dv + lines_spec(ss));
            } else {
                assert(ss =~= s@.subrange(start as int, j as int));
                assert(lines_spec(ss) == seq![s@.subrange(start as int, j as int)]);
                assert(out.deep_view() =~= old_dv + lines_spec(ss));
                assert(lines_spec(s@.skip(j as int)) =~= Seq::<Seq<u8>>::empty());
                assert(out.deep_view() + lines_spec(s@.skip(j as int)) =~= out.deep_view());
            }
        }
        if j < s.len() {
            i = j + 1;
        } else {
            i = j;
        }
    }
    proof {
        assert(lines_spec(s@.skip(i as int)) =~= Seq::<Seq<u8>>::empty());
        assert(out.deep_view() + lines_spec(s@.skip(i as int)) =~= out.deep_view());
    }
    out
}

/// Length of the leading run up to, not including, the first occurrence
/// of the given byte.
pub open spec fn run_len(s: Seq<u8>, stop: u8) -> nat
    decreases s.len(),
{
    if s.len() == 0 || s[0] == stop {
        0
    } else {
        run_len(s.drop_first(), stop) + 1
    }
}

pub proof fn lemma_run_len_le(s: Seq<u8>, stop: u8)
    ensures
        run_len(s, stop) <= s.len(),
    decreases s.len(),
{
    if s.len() > 0 && s[0] != stop {
        lemma_run_len_le(s.drop_first(), stop);
    }
}

/// A scan that stops at the first occurrence of the byte finds the run
/// length.
pub proof fn lemma_run_len_from_scan(s: Seq<u8>, stop: u8, j: int)
    requires
        0 <= j <= s.len(),
        forall|k: int| 0 <= k < j ==> #[trigger] s[k] != stop,
        j == s.len() || s[j] == stop,
    ensures
        run_len(s, stop) == j,
    decreases j,
{
    if j > 0 {
        assert(s[0] != stop);
        lemma_run_len_from_scan(s.drop_first(), stop, j - 1);
    }
}

/// A digit string of at most three digits stays under a thousand; shorter
/// ones under a hundred and under ten.
pub proof fn lemma_digits_val_up_to_3(s: Seq<u8>)
    requires
        all_digits(s),
        s.len() <= 3,
    ensures
        s.len() <= 1 ==> digits_val(s) <= 9,
        s.len() <= 2 ==> digits_val(s) <= 99,
        digits_val(s) <= 999,
    decreases s.len(),
{
    if s.len() > 0 {
        assert forall|i: int| 0 <= i < s.drop_last().len() implies is_digit(
            #[trigger] s.drop_last()[i],
        ) by {
            assert(s.drop_last()[i] == s[i]);
        }
        lemma_digits_val_up_to_3(s.drop_last());
        assert(is_digit(s.last()));
    }
}

/// Does `s` begin with `p`?
pub open spec fn starts_with(s: Seq<u8>, p: Seq<u8>) -> bool {
    p.len() <= s.len() && s.take(p.len() as int) == p
}

/// The first element that begins with the given prefix.
pub open spec fn first_with_prefix(ls: Seq<Seq<u8>>, p: Seq<u8>) -> Option<Seq<u8>>
    decreases ls.len(),
{
    if ls.len() == 0 {
        None
    } else if starts_with(ls[0], p) {
        Some(ls[0])
    } else {
        first_with_prefix(ls.drop_first(), p)
    }
}

/// Does a byte string begin with the given prefix?
pub fn has_prefix(s: &[u8], p: &[u8]) -> (r: bool)
    ensures
        r == starts_with(s@, p@),
{
    if p.len() > s.len() {
        return false;
    }
    let mut i: usize = 0;
    while i < p.len()
        invariant
            0 <= i <= p@.len() <= s@.len(),
            forall|k: int| 0 <= k < i ==> s@[k] == p@[k],
        decreases p@.len() - i,
    {
        if s[i] != p[i] {
            proof {
                assert(s@.take(p@.len() as int)[i as int] != p@[i as int]);
            }
            return false;
        }
        i = i + 1;
    }
    proof {
        assert(s@.take(p@.len() as int) =~= p@);
    }
    true
}

/// Index of the first line that begins with the given prefix.
pub fn find_with_prefix(ls: &Vec<Vec<u8>>, p: &[u8]) -> (r: Option<usize>)
    ensures
        match r {
            Some(i) => i < ls@.len() && starts_with(ls.deep_view()[i as int], p@)
                && first_with_prefix(ls.deep_view(), p@) == Some(ls.deep_view()[i as int]),
            None => first_with_prefix(ls.deep_view(), p@) is None,
        },
{
    let ghost dv = ls.deep_view();
    proof {
        assert(dv.skip(0) =~= dv);
    }
    let mut i: usize = 0;
    while i < ls.len()
        invariant
            0 <= i <= ls@.len(),
            dv == ls.deep_view(),
            dv.len() == ls@.len(),
            first_with_prefix(dv, p@) == first_with_prefix(dv.skip(i as int), p@),
        decreases ls@.len() - i,
    {
        if has_prefix(ls[i].as_slice(), p) {
            proof {
                assert(dv.skip(i as int)[0] == dv[i as int]);
                assert(ls[i as int]@ == dv[i as int]);
            }
            return Some(i);
        }
        proof {
            assert(dv.skip(i as int)[0] == dv[i as int]);
            assert(ls[i as int]@ == dv[i as int]);
            assert(dv.skip(i as int).drop_first() =~= dv.skip(i + 1));
        }
        i = i + 1;
    }
    proof {
        assert(dv.skip(i as int) =~= Seq::<Seq<u8>>::empty());
    }
    None
}

} // verus!
