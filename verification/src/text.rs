//! Byte-level text primitives: splitting on a separator byte, line
//! splitting, and decimal numerals (parsing and formatting).

use vstd::prelude::*;

verus! {

/// Horizontal tab, the field separator of both input formats.
pub const TAB: u8 = 9;

/// Line feed, the line separator.
pub const LINE_FEED: u8 = 10;

/// Carriage return, stripped from the end of a decoded line.
pub const CARRIAGE_RETURN: u8 = 13;

/// The comment marker that opens a silently skipped fragment line.
pub const COMMENT_MARKER: u8 = 35;

/// Index of the first occurrence of `sep` in `s`, or `s.len()` if absent.
pub open spec fn first_at(s: Seq<u8>, sep: u8) -> int
    decreases s.len(),
{
    if s.len() == 0 {
        0
    } else if s[0] == sep {
        0
    } else {
        1 + first_at(s.subrange(1, s.len() as int), sep)
    }
}

pub proof fn lemma_first_at(s: Seq<u8>, sep: u8)
    ensures
        0 <= first_at(s, sep) <= s.len(),
        first_at(s, sep) < s.len() ==> s[first_at(s, sep)] == sep,
        forall|k: int| 0 <= k < first_at(s, sep) ==> s[k] != sep,
    decreases s.len(),
{
    if s.len() == 0 {
    } else if s[0] == sep {
    } else {
        let t = s.subrange(1, s.len() as int);
        lemma_first_at(t, sep);
        assert forall|k: int| 0 <= k < first_at(s, sep) implies s[k] != sep by {
            if k > 0 {
                assert(s[k] == t[k - 1]);
            }
        }
        if first_at(s, sep) < s.len() {
            assert(s[first_at(s, sep)] == t[first_at(t, sep)]);
        }
    }
}

/// The fields of `s`, split at every occurrence of `sep`.
pub open spec fn spec_split(s: Seq<u8>, sep: u8) -> Seq<Seq<u8>>
    decreases s.len(),
    via spec_split_decreases
{
    let i = first_at(s, sep);
    if i == s.len() {
        seq![s]
    } else {
        seq![s.subrange(0, i)] + spec_split(s.subrange(i + 1, s.len() as int), sep)
    }
}

#[via_fn]
proof fn spec_split_decreases(s: Seq<u8>, sep: u8) {
    lemma_first_at(s, sep);
}

/// The mathematical view of a sequence of byte vectors.
pub open spec fn views_of(fs: Seq<Vec<u8>>) -> Seq<Seq<u8>> {
    fs.map_values(|f: Vec<u8>| f@)
}

/// Copies `s[a..b]` into a fresh vector.
pub fn copy_range(s: &[u8], a: usize, b: usize) -> (r: Vec<u8>)
    requires
        a <= b <= s@.len(),
    ensures
        r@ == s@.subrange(a as int, b as int),
{
    let mut r: Vec<u8> = Vec::new();
    let mut i: usize = a;
    proof {
        assert(r@ =~= s@.subrange(a as int, a as int));
    }
    while i < b
        invariant
            a <= i <= b <= s@.len(),
            r@ == s@.subrange(a as int, i as int),
        decreases b - i,
    {
        r.push(s[i]);
        i = i + 1;
        proof {
            assert(r@ =~= s@.subrange(a as int, i as int));
        }
    }
    r
}

/// Copies a byte vector.
pub fn clone_bytes(v: &Vec<u8>) -> (r: Vec<u8>)
    ensures
        r@ == v@,
{
    let r = copy_range(v.as_slice(), 0, v.len());
    proof {
        assert(v@.subrange(0, v@.len() as int) =~= v@);
    }
    r
}

/// Splits `s` at every `sep` byte; mirrors `spec_split`.
pub fn split_bytes(s: &[u8], sep: u8) -> (fields: Vec<Vec<u8>>)
    ensures
        views_of(fields@) == spec_split(s@, sep),
{
    let mut fields: Vec<Vec<u8>> = Vec::new();
    let mut p: usize = 0;
    proof {
        assert(s@.subrange(0, s@.len() as int) =~= s@);
        assert(views_of(fields@) =~= Seq::<Seq<u8>>::empty());
        assert(views_of(fields@) + spec_split(s@, sep) =~= spec_split(s@, sep));
    }
    loop
        invariant_except_break
            p <= s@.len(),
            spec_split(s@, sep) =~= views_of(fields@) + spec_split(
                s@.subrange(p as int, s@.len() as int),
                sep,
            ),
        ensures
            views_of(fields@) == spec_split(s@, sep),
        decreases s@.len() - p,
    {
        let ghost p0 = p as int;
        let ghost suffix = s@.subrange(p0, s@.len() as int);
        let mut j: usize = p;
        while j < s.len() && s[j] != sep
            invariant
                p <= j <= s@.len(),
                forall|k: int| p <= k < j ==> s@[k] != sep,
            decreases s@.len() - j,
        {
            j = j + 1;
        }
        proof {
            lemma_first_at(suffix, sep);
            assert forall|k: int| 0 <= k < j - p0 implies suffix[k] != sep by {
                assert(suffix[k] == s@[p0 + k]);
            }
            if j < s.len() {
                assert(suffix[j - p0] == s@[j as int]);
            }
            assert(first_at(suffix, sep) == j - p0);
        }
        let seg = copy_range(s, p, j);
        let ghost prev = fields@;
        fields.push(seg);
        proof {
            assert(views_of(fields@) =~= views_of(prev) + seq![seg@]);
        }
        if j == s.len() {
            proof {
                assert(seg@ =~= suffix);
                assert(spec_split(suffix, sep) == seq![suffix]);
                assert(views_of(fields@) =~= spec_split(s@, sep));
            }
            break;
        }
        proof {
            let tail = s@.subrange(j + 1, s@.len() as int);
            assert(suffix.subrange(0, j - p0) =~= seg@);
            assert(suffix.subrange(j - p0 + 1, suffix.len() as int) =~= tail);
            assert(spec_split(suffix, sep) == seq![suffix.subrange(0, j - p0)] + spec_split(
                suffix.subrange(j - p0 + 1, suffix.len() as int),
                sep,
            ));
            assert(spec_split(s@, sep) =~= views_of(fields@) + spec_split(tail, sep));
        }
        p = j + 1;
    }
    fields
}

/// A line with one trailing carriage return removed.
pub open spec fn strip_cr(line: Seq<u8>) -> Seq<u8> {
    if line.len() > 0 && line[line.len() - 1] == CARRIAGE_RETURN {
        line.subrange(0, line.len() - 1)
    } else {
        line
    }
}

/// `strip_cr` applied to every line.
pub open spec fn strip_cr_all(ls: Seq<Seq<u8>>) -> Seq<Seq<u8>> {
    ls.map_values(|l: Seq<u8>| strip_cr(l))
}

/// The decoded lines of a text: split at line feeds, the empty segment
/// after a final line feed dropped, one carriage return stripped from
/// each line end.
pub open spec fn spec_lines(text: Seq<u8>) -> Seq<Seq<u8>> {
    let raw = spec_split(text, LINE_FEED);
    let kept = if raw.len() > 0 && raw[raw.len() - 1].len() == 0 {
        raw.subrange(0, raw.len() - 1)
    } else {
        raw
    };
    strip_cr_all(kept)
}

/// Splits a text into decoded lines; mirrors `spec_lines`.
pub fn split_lines(text: &[u8]) -> (lines: Vec<Vec<u8>>)
    ensures
        views_of(lines@) == spec_lines(text@),
{
    let mut raw = split_bytes(text, LINE_FEED);
    let ghost raw0 = views_of(raw@);
    if raw.len() > 0 && raw[raw.len() - 1].len() == 0 {
        raw.pop();
        proof {
            assert(views_of(raw@) =~= raw0.subrange(0, raw0.len() - 1));
        }
    }
    let ghost kept = views_of(raw@);
    let mut lines: Vec<Vec<u8>> = Vec::new();
    let mut i: usize = 0;
    proof {
        assert(views_of(lines@) =~= strip_cr_all(kept.subrange(0, 0)));
    }
    while i < raw.len()
        invariant
            i <= raw@.len(),
            kept == views_of(raw@),
            views_of(lines@) == strip_cr_all(kept.subrange(0, i as int)),
        decreases raw@.len() - i,
    {
        let ghost prev = lines@;
        let mut l = clone_bytes(&raw[i]);
        if l.len() > 0 && l[l.len() - 1] == CARRIAGE_RETURN {
            l.pop();
            proof {
                assert(l@ =~= strip_cr(kept[i as int]));
            }
        }
        proof {
            assert(l@ == strip_cr(kept[i as int]));
        }
        lines.push(l);
        i = i + 1;
        proof {
            assert(views_of(lines@) =~= views_of(prev) + seq![strip_cr(kept[i - 1])]);
            assert(views_of(lines@) =~= strip_cr_all(kept.subrange(0, i as int)));
        }
    }
    proof {
        assert(kept.subrange(0, kept.len() as int) =~= kept);
    }
    lines
}

/// Byte string equality.
pub fn bytes_eq(a: &[u8], b: &[u8]) -> (r: bool)
    ensures
        r <==> a@ == b@,
{
    if a.len() != b.len() {
        return false;
    }
    let mut i: usize = 0;
    while i < a.len()
        invariant
            i <= a@.len(),
            a@.len() == b@.len(),
            forall|k: int| 0 <= k < i ==> a@[k] == b@[k],
        decreases a@.len() - i,
    {
        if a[i] != b[i] {
            return false;
        }
        i = i + 1;
    }
    proof {
        assert(a@ =~= b@);
    }
    true
}

/// Decimal digit test.
pub open spec fn is_digit(b: u8) -> bool {
    48 <= b <= 57
}

/// The value of one decimal digit byte.
pub open spec fn digit_value(b: u8) -> int {
    b - 48
}

/// A non-empty, all-digit byte string.
pub open spec fn is_numeral(s: Seq<u8>) -> bool {
    s.len() > 0 && forall|i: int| 0 <= i < s.len() ==> is_digit(s[i])
}

/// The number denoted by a digit string, most significant digit first.
pub open spec fn numeral_value(s: Seq<u8>) -> int
    decreases s.len(),
{
    if s.len() == 0 {
        0
    } else {
        10 * numeral_value(s.subrange(0, s.len() - 1)) + digit_value(s[s.len() - 1])
    }
}

pub proof fn lemma_numeral_value_nonneg(s: Seq<u8>)
    requires
        forall|i: int| 0 <= i < s.len() ==> is_digit(s[i]),
    ensures
        numeral_value(s) >= 0,
    decreases s.len(),
{
    if s.len() > 0 {
        let t = s.subrange(0, s.len() - 1);
        assert forall|i: int| 0 <= i < t.len() implies is_digit(t[i]) by {
            assert(t[i] == s[i]);
        }
        lemma_numeral_value_nonneg(t);
    }
}

/// Extending a digit string on the right never decreases its value.
pub proof fn lemma_numeral_value_prefix_le(s: Seq<u8>, i: int)
    requires
        0 <= i <= s.len(),
        forall|k: int| 0 <= k < s.len() ==> is_digit(s[k]),
    ensures
        numeral_value(s.subrange(0, i)) <= numeral_value(s),
    decreases s.len() - i,
{
    if i == s.len() {
        assert(s.subrange(0, i) =~= s);
    } else {
        let t = s.subrange(0, s.len() - 1);
        assert forall|k: int| 0 <= k < t.len() implies is_digit(t[k]) by {
            assert(t[k] == s[k]);
        }
        lemma_numeral_value_nonneg(t);
        lemma_numeral_value_prefix_le(t, i);
        assert(t.subrange(0, i) =~= s.subrange(0, i));
    }
}

/// Parses a non-empty all-digit byte string as a `u64`; `None` when the
/// string is not such a numeral or its value does not fit.
pub fn parse_u64(s: &[u8]) -> (r: Option<u64>)
    ensures
        match r {
            Some(v) => is_numeral(s@) && v == numeral_value(s@),
            None => !(is_numeral(s@) && numeral_value(s@) <= u64::MAX),
        },
{
    if s.len() == 0 {
        return None;
    }
    let mut acc: u64 = 0;
    let mut i: usize = 0;
    while i < s.len()
        invariant
            0 < s@.len(),
            0 <= i <= s@.len(),
            forall|k: int| 0 <= k < i ==> is_digit(s@[k]),
            acc == numeral_value(s@.subrange(0, i as int)),
        decreases s@.len() - i,
    {
        let b = s[i];
        if b < 48 || b > 57 {
            return None;
        }
        let d: u64 = (b - 48) as u64;
        let wide: u128 = acc as u128 * 10 + d as u128;
        proof {
            let t = s@.subrange(0, i + 1);
            assert(t.subrange(0, i as int) =~= s@.subrange(0, i as int));
            assert(t[t.len() - 1] == s@[i as int]);
            assert(numeral_value(t) == 10 * acc + d);
        }
        if wide > u64::MAX as u128 {
            proof {
                if is_numeral(s@) {
                    lemma_numeral_value_prefix_le(s@, i + 1);
                }
            }
            return None;
        }
        acc = wide as u64;
        i = i + 1;
    }
    proof {
        assert(s@.subrange(0, s@.len() as int) =~= s@);
    }
    Some(acc)
}

/// The decimal digit string of `v`: no leading zeros, and `"0"` for zero.
pub open spec fn decimal_of(v: nat) -> Seq<u8>
    decreases v,
    via decimal_of_decreases
{
    if v < 10 {
        seq![(48 + v) as u8]
    } else {
        decimal_of(v / 10) + seq![(48 + v % 10) as u8]
    }
}

#[via_fn]
proof fn decimal_of_decreases(v: nat) {
    if v >= 10 {
        assert(v / 10 < v) by (nonlinear_arith)
            requires
                v >= 10,
        ;
    }
}

/// Appends the decimal digits of `v` to `out`.
pub fn push_decimal(out: &mut Vec<u8>, v: u64)
    ensures
        final(out)@ == old(out)@ + decimal_of(v as nat),
    decreases v,
{
    if v >= 10 {
        proof {
            assert(v / 10 < v) by (nonlinear_arith)
                requires
                    v >= 10,
            ;
        }
        push_decimal(out, v / 10);
    }
    out.push(48 + (v % 10) as u8);
    proof {
        assert(out@ =~= old(out)@ + decimal_of(v as nat));
    }
}

/// Appends all of `s` to `out`.
pub fn push_all(out: &mut Vec<u8>, s: &[u8])
    ensures
        final(out)@ == old(out)@ + s@,
{
    let mut i: usize = 0;
    proof {
        assert(out@ =~= old(out)@ + s@.subrange(0, 0));
    }
    while i < s.len()
        invariant
            i <= s@.len(),
            out@ == old(out)@ + s@.subrange(0, i as int),
        decreases s@.len() - i,
    {
        out.push(s[i]);
        i = i + 1;
        proof {
            assert(out@ =~= old(out)@ + s@.subrange(0, i as int));
        }
    }
    proof {
        assert(s@.subrange(0, s@.len() as int) =~= s@);
    }
}

} // verus!
