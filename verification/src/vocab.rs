//! The vocabulary table: loading the token list from its textual form, and
//! detokenizing an id sequence back to normalized text.
//!
//! The textual form holds one `token id` pair per line, whitespace-separated.
//! In a token, the word-start marker codepoint U+2581 (the bytes
//! `0xE2 0x96 0x81` in UTF-8) stands for a leading space; the literal token
//! `<blk>` designates the blank id. All text is handled as UTF-8 bytes.

use crate::errors::SttError;
use vstd::hash_map::HashMapWithView;
use vstd::prelude::*;

verus! {

broadcast use vstd::std_specs::hash::group_hash_axioms;

/// ASCII whitespace, the separators the vocabulary format uses.
pub open spec fn is_ws(b: u8) -> bool {
    b == 32 || b == 9 || b == 10 || b == 13
}

fn is_ws_byte(b: u8) -> (r: bool)
    ensures
        r == is_ws(b),
{
    b == 32 || b == 9 || b == 10 || b == 13
}

pub open spec fn is_digit(b: u8) -> bool {
    48 <= b <= 57
}

pub open spec fn all_digits(s: Seq<u8>) -> bool {
    forall|j: int| 0 <= j < s.len() ==> is_digit(#[trigger] s[j])
}

/// The number a run of decimal digit bytes denotes.
pub open spec fn digits_val(s: Seq<u8>) -> int
    decreases s.len(),
{
    if s.len() == 0 {
        0
    } else {
        digits_val(s.drop_last()) * 10 + (s.last() - 48)
    }
}

/// The byte form of a (signed) decimal integer: an optional sign, then at
/// least one digit.
pub open spec fn valid_i64_bytes(s: Seq<u8>) -> bool {
    if s.len() == 0 {
        false
    } else if s[0] == 43 || s[0] == 45 {
        s.len() >= 2 && all_digits(s.skip(1))
    } else {
        all_digits(s)
    }
}

/// The value such a byte form denotes.
pub open spec fn int_of_bytes(s: Seq<u8>) -> int {
    if s.len() > 0 && s[0] == 45 {
        -digits_val(s.skip(1))
    } else if s.len() > 0 && s[0] == 43 {
        digits_val(s.skip(1))
    } else {
        digits_val(s)
    }
}

proof fn lemma_digits_val_nonneg(s: Seq<u8>)
    requires
        all_digits(s),
    ensures
        digits_val(s) >= 0,
    decreases s.len(),
{
    if s.len() > 0 {
        assert(all_digits(s.drop_last()));
        lemma_digits_val_nonneg(s.drop_last());
    }
}

/// Appending digits never shrinks the denoted number.
proof fn lemma_digits_val_prefix_bound(s: Seq<u8>, m: int)
    requires
        all_digits(s),
        0 <= m <= s.len(),
    ensures
        digits_val(s) >= digits_val(s.take(m)),
    decreases s.len(),
{
    if m == s.len() {
        assert(s.take(m) =~= s);
    } else {
        assert(all_digits(s.drop_last()));
        lemma_digits_val_prefix_bound(s.drop_last(), m);
        assert(s.drop_last().take(m) =~= s.take(m));
        lemma_digits_val_nonneg(s.drop_last());
    }
}

/// Parses an optionally signed decimal integer, exactly when the bytes have
/// that form and the value fits in an `i64`.
pub fn parse_i64(s: &[u8]) -> (r: Option<i64>)
    ensures
        (r is Some) <==> (valid_i64_bytes(s@) && i64::MIN <= int_of_bytes(s@) <= i64::MAX),
        r matches Some(v) ==> v as int == int_of_bytes(s@),
{
    let n = s.len();
    if n == 0 {
        return None;
    }
    let first = s[0];
    let neg = first == 45;
    let start: usize = if first == 45 || first == 43 {
        1
    } else {
        0
    };
    if start == n {
        return None;
    }
    let bound: u64 = if neg {
        9223372036854775808
    } else {
        9223372036854775807
    };
    let last_digit_max: u64 = if neg {
        8
    } else {
        7
    };
    let mut acc: u64 = 0;
    let mut i: usize = start;
    while i < n
        invariant
            start <= i <= n,
            n == s@.len(),
            n > start,
            start == if s@[0] == 45 || s@[0] == 43 {
                1int
            } else {
                0int
            },
            neg == (s@[0] == 45),
            bound == if neg {
                9223372036854775808u64
            } else {
                9223372036854775807u64
            },
            last_digit_max == if neg {
                8u64
            } else {
                7u64
            },
            all_digits(s@.subrange(start as int, i as int)),
            acc as int == digits_val(s@.subrange(start as int, i as int)),
            acc <= bound,
        decreases n - i,
    {
        let b = s[i];
        let ghost full = s@.skip(start as int);
        proof {
            assert(full.len() == n - start);
            assert(forall|j: int| 0 <= j < full.len() ==> full[j] == s@[start + j]);
        }
        if b < 48 || b > 57 {
            proof {
                assert(full[i - start] == s@[i as int]);
                assert(!all_digits(full));
                if start == 0 {
                    assert(full =~= s@);
                }
                assert(!valid_i64_bytes(s@));
            }
            return None;
        }
        let d: u64 = (b - 48) as u64;
        let ghost pre2 = s@.subrange(start as int, i as int + 1);
        proof {
            assert(pre2.drop_last() =~= s@.subrange(start as int, i as int));
            assert(pre2.last() == s@[i as int]);
            assert(digits_val(pre2) == acc * 10 + d);
            assert(all_digits(pre2));
        }
        if acc > 922337203685477580 || (acc == 922337203685477580 && d > last_digit_max) {
            proof {
                assert(acc * 10 + d > bound);
                if start == 0 {
                    assert(full =~= s@);
                }
                if valid_i64_bytes(s@) {
                    assert(all_digits(full));
                    assert(pre2 =~= full.take(i + 1 - start));
                    lemma_digits_val_prefix_bound(full, i + 1 - start);
                    assert(digits_val(full) > bound);
                    if neg {
                        assert(int_of_bytes(s@) == -digits_val(full));
                        assert(int_of_bytes(s@) < i64::MIN);
                    } else {
                        assert(int_of_bytes(s@) == digits_val(full));
                        assert(int_of_bytes(s@) > i64::MAX);
                    }
                }
            }
            return None;
        }
        acc = acc * 10 + d;
        i = i + 1;
        proof {
            assert(s@.subrange(start as int, i as int) =~= pre2);
        }
    }
    proof {
        let full = s@.skip(start as int);
        assert(s@.subrange(start as int, n as int) =~= full);
        assert(all_digits(full));
        if start == 0 {
            assert(full =~= s@);
        }
        assert(valid_i64_bytes(s@));
        assert(int_of_bytes(s@) == if neg {
            -digits_val(full)
        } else {
            digits_val(full)
        });
        lemma_digits_val_nonneg(full);
    }
    if neg {
        if acc == 9223372036854775808 {
            Some(i64::MIN)
        } else {
            Some(-(acc as i64))
        }
    } else {
        Some(acc as i64)
    }
}

/// The bytes with leading whitespace dropped.
pub open spec fn trim_left(s: Seq<u8>) -> Seq<u8>
    decreases s.len(),
{
    if s.len() > 0 && is_ws(s[0]) {
        trim_left(s.skip(1))
    } else {
        s
    }
}

/// The bytes with trailing whitespace dropped.
pub open spec fn trim_right(s: Seq<u8>) -> Seq<u8>
    decreases s.len(),
{
    if s.len() > 0 && is_ws(s.last()) {
        trim_right(s.drop_last())
    } else {
        s
    }
}

/// The bytes with whitespace dropped at both ends.
pub open spec fn trim(s: Seq<u8>) -> Seq<u8> {
    trim_right(trim_left(s))
}

proof fn lemma_trim_left_skip(s: Seq<u8>, lo: int)
    requires
        0 <= lo <= s.len(),
        forall|j: int| 0 <= j < lo ==> is_ws(#[trigger] s[j]),
        lo == s.len() || !is_ws(s[lo]),
    ensures
        trim_left(s) == s.skip(lo),
    decreases lo,
{
    if lo == 0 {
        assert(s.skip(0) =~= s);
    } else {
        assert(is_ws(s[0]));
        let s1 = s.skip(1);
        assert(forall|j: int| 0 <= j < lo - 1 ==> is_ws(#[trigger] s1[j]));
        lemma_trim_left_skip(s1, lo - 1);
        assert(s1.skip(lo - 1) =~= s.skip(lo));
    }
}

proof fn lemma_trim_right_take(s: Seq<u8>, hi: int)
    requires
        0 <= hi <= s.len(),
        forall|j: int| hi <= j < s.len() ==> is_ws(#[trigger] s[j]),
        hi == 0 || !is_ws(s[hi - 1]),
    ensures
        trim_right(s) == s.take(hi),
    decreases s.len() - hi,
{
    if hi == s.len() {
        assert(s.take(hi) =~= s);
    } else {
        assert(is_ws(s.last()));
        let s1 = s.drop_last();
        lemma_trim_right_take(s1, hi);
        assert(s1.take(hi) =~= s.take(hi));
    }
}

/// The span `[lo, hi)` of the bytes left after trimming whitespace at both
/// ends.
fn trimmed_span(line: &[u8]) -> (r: (usize, usize))
    ensures
        r.0 <= r.1 <= line@.len(),
        trim(line@) == line@.subrange(r.0 as int, r.1 as int),
        r.0 < r.1 ==> !is_ws(line@[r.0 as int]) && !is_ws(line@[r.1 - 1]),
{
    let n = line.len();
    let mut lo: usize = 0;
    while lo < n && is_ws_byte(line[lo])
        invariant
            lo <= n,
            n == line@.len(),
            forall|j: int| 0 <= j < lo ==> is_ws(#[trigger] line@[j]),
        decreases n - lo,
    {
        lo = lo + 1;
    }
    proof {
        lemma_trim_left_skip(line@, lo as int);
    }
    if lo == n {
        proof {
            assert(line@.skip(lo as int).len() == 0);
            assert(trim(line@) =~= line@.subrange(n as int, n as int));
        }
        return (n, n);
    }
    let mut hi: usize = n;
    while hi > lo && is_ws_byte(line[hi - 1])
        invariant
            lo <= hi <= n,
            n == line@.len(),
            forall|j: int| hi <= j < n ==> is_ws(#[trigger] line@[j]),
        decreases hi,
    {
        hi = hi - 1;
    }
    proof {
        assert(hi > lo) by {
            if hi == lo {
                assert(is_ws(line@[lo as int]));
            }
        }
        let t0 = line@.skip(lo as int);
        assert(forall|j: int| hi - lo <= j < t0.len() ==> is_ws(#[trigger] t0[j]));
        assert(!is_ws(t0[hi - lo - 1]));
        lemma_trim_right_take(t0, hi - lo);
        assert(t0.take(hi - lo) =~= line@.subrange(lo as int, hi as int));
    }
    (lo, hi)
}

/// Index of the first whitespace byte, or the length if there is none.
pub open spec fn find_ws(s: Seq<u8>) -> int
    decreases s.len(),
{
    if s.len() == 0 {
        0
    } else if is_ws(s[0]) {
        0
    } else {
        1 + find_ws(s.skip(1))
    }
}

proof fn lemma_find_ws_at(s: Seq<u8>, k: int)
    requires
        0 <= k <= s.len(),
        forall|j: int| 0 <= j < k ==> !is_ws(#[trigger] s[j]),
        k == s.len() || is_ws(s[k]),
    ensures
        find_ws(s) == k,
    decreases k,
{
    if k == 0 {
        if s.len() > 0 && !is_ws(s[0]) {
            assert(k < s.len() && is_ws(s[k]));
        }
    } else {
        let s1 = s.skip(1);
        assert(forall|j: int| 0 <= j < k - 1 ==> !is_ws(#[trigger] s1[j]));
        lemma_find_ws_at(s1, k - 1);
    }
}

/// The token bytes with each word-start marker (U+2581, three bytes in
/// UTF-8) replaced by a literal space.
pub open spec fn replace_marker(s: Seq<u8>) -> Seq<u8>
    decreases s.len(),
{
    if s.len() == 0 {
        Seq::empty()
    } else if s.len() >= 3 && s[0] == 226 && s[1] == 150 && s[2] == 129 {
        seq![32u8] + replace_marker(s.skip(3))
    } else {
        seq![s[0]] + replace_marker(s.skip(1))
    }
}

fn replace_marker_bytes(s: &[u8]) -> (out: Vec<u8>)
    ensures
        out@ == replace_marker(s@),
{
    let mut out: Vec<u8> = Vec::new();
    let mut i: usize = 0;
    proof {
        assert(s@.skip(0) =~= s@);
        assert(out@ + replace_marker(s@) =~= replace_marker(s@));
    }
    while i < s.len()
        invariant
            i <= s@.len(),
            replace_marker(s@) == out@ + replace_marker(s@.skip(i as int)),
        decreases s@.len() - i,
    {
        let ghost rest = s@.skip(i as int);
        let ghost prev_out = out@;
        proof {
            assert(rest.len() == s@.len() - i);
            assert(forall|j: int| 0 <= j < rest.len() ==> rest[j] == s@[i + j]);
        }
        if s.len() - i >= 3 && s[i] == 226 && s[i + 1] == 150 && s[i + 2] == 129 {
            out.push(32);
            proof {
                assert(rest.skip(3) =~= s@.skip(i as int + 3));
                assert(replace_marker(rest) == seq![32u8] + replace_marker(s@.skip(i as int + 3)));
                assert(prev_out + (seq![32u8] + replace_marker(s@.skip(i as int + 3))) =~= out@
                    + replace_marker(s@.skip(i as int + 3)));
            }
            i = i + 3;
        } else {
            let b = s[i];
            out.push(b);
            proof {
                assert(rest.skip(1) =~= s@.skip(i as int + 1));
                assert(replace_marker(rest) == seq![rest[0]] + replace_marker(rest.skip(1)));
                assert(prev_out + (seq![b] + replace_marker(s@.skip(i as int + 1))) =~= out@
                    + replace_marker(s@.skip(i as int + 1)));
            }
            i = i + 1;
        }
    }
    proof {
        assert(s@.skip(s@.len() as int).len() == 0);
        assert(out@ + replace_marker(s@.skip(i as int)) =~= out@);
    }
    out
}

/// The bytes of the literal token `<blk>`.
pub open spec fn blk_bytes() -> Seq<u8> {
    seq![60u8, 98u8, 108u8, 107u8, 62u8]
}

fn is_blk(v: &Vec<u8>) -> (r: bool)
    ensures
        r == (v@ == blk_bytes()),
{
    if v.len() == 5 && v[0] == 60 && v[1] == 98 && v[2] == 108 && v[3] == 107 && v[4] == 62 {
        proof {
            assert(v@ =~= blk_bytes());
        }
        true
    } else {
        proof {
            if v@ == blk_bytes() {
                assert(v@.len() == 5);
                assert(v@[0] == 60 && v@[1] == 98 && v@[2] == 108 && v@[3] == 107 && v@[4] == 62);
            }
        }
        false
    }
}

fn copy_span(v: &[u8], lo: usize, hi: usize) -> (out: Vec<u8>)
    requires
        lo <= hi <= v@.len(),
    ensures
        out@ == v@.subrange(lo as int, hi as int),
{
    let mut out: Vec<u8> = Vec::new();
    let mut i: usize = lo;
    while i < hi
        invariant
            lo <= i <= hi <= v@.len(),
            out@ == v@.subrange(lo as int, i as int),
        decreases hi - i,
    {
        out.push(v[i]);
        proof {
            assert(v@.subrange(lo as int, i as int + 1) =~= v@.subrange(lo as int, i as int).push(
                v@[i as int]));
        }
        i = i + 1;
    }
    out
}

/// What one line of the vocabulary text contributes.
pub ghost enum LineParse {
    /// Fewer than two fields: the line is skipped.
    Skip,
    /// The id field does not parse as an `i64`; `field` holds its bytes.
    Bad { field: Seq<u8> },
    /// A `token id` pair, with the marker already replaced in `frag`.
    Entry { id: i64, frag: Seq<u8>, is_blank: bool },
}

/// How one line is read: trim it, split it at the first whitespace run, take
/// the left part as the token and the right part as the id.
pub open spec fn parse_line(line: Seq<u8>) -> LineParse {
    let t = trim(line);
    let k = find_ws(t);
    if t.len() == 0 || k >= t.len() {
        LineParse::Skip
    } else {
        let left = t.take(k);
        let right = trim_left(t.skip(k));
        if valid_i64_bytes(right) && i64::MIN <= int_of_bytes(right) <= i64::MAX {
            LineParse::Entry {
                id: int_of_bytes(right) as i64,
                frag: replace_marker(left),
                is_blank: left == blk_bytes(),
            }
        } else {
            LineParse::Bad { field: right }
        }
    }
}

enum ParsedLine {
    Skip,
    Bad { field: Vec<u8> },
    Entry { id: i64, frag: Vec<u8>, is_blank: bool },
}

spec fn line_matches(r: ParsedLine, s: LineParse) -> bool {
    match (r, s) {
        (ParsedLine::Skip, LineParse::Skip) => true,
        (ParsedLine::Bad { field: f }, LineParse::Bad { field: g }) => f@ == g,
        (
            ParsedLine::Entry { id, frag, is_blank },
            LineParse::Entry { id: id2, frag: frag2, is_blank: b2 },
        ) => id == id2 && frag@ == frag2 && is_blank == b2,
        _ => false,
    }
}

fn parse_line_exec(line: &[u8]) -> (r: ParsedLine)
    ensures
        line_matches(r, parse_line(line@)),
{
    let (lo, hi) = trimmed_span(line);
    let ghost t = trim(line@);
    if lo == hi {
        assert(t.len() == 0);
        return ParsedLine::Skip;
    }
    let mut k: usize = lo;
    while k < hi && !is_ws_byte(line[k])
        invariant
            lo <= k <= hi <= line@.len(),
            forall|j: int| lo <= j < k ==> !is_ws(#[trigger] line@[j]),
        decreases hi - k,
    {
        k = k + 1;
    }
    proof {
        assert(forall|j: int| 0 <= j < t.len() ==> t[j] == line@[lo + j]);
        lemma_find_ws_at(t, k - lo);
    }
    if k == hi {
        return ParsedLine::Skip;
    }
    let mut k2: usize = k;
    while k2 < hi && is_ws_byte(line[k2])
        invariant
            k <= k2 <= hi <= line@.len(),
            forall|j: int| k <= j < k2 ==> is_ws(#[trigger] line@[j]),
        decreases hi - k2,
    {
        k2 = k2 + 1;
    }
    proof {
        assert(k2 < hi) by {
            if k2 == hi {
                assert(is_ws(line@[hi - 1]));
            }
        }
        let tk = t.skip(k - lo);
        assert(tk =~= line@.subrange(k as int, hi as int));
        assert(forall|j: int| 0 <= j < k2 - k ==> is_ws(#[trigger] tk[j]));
        lemma_trim_left_skip(tk, k2 - k);
        assert(tk.skip(k2 - k) =~= line@.subrange(k2 as int, hi as int));
        assert(t.take(k - lo) =~= line@.subrange(lo as int, k as int));
    }
    let right = copy_span(line, k2, hi);
    match parse_i64(right.as_slice()) {
        None => ParsedLine::Bad { field: right },
        Some(id) => {
            let left = copy_span(line, lo, k);
            let is_blank = is_blk(&left);
            let frag = replace_marker_bytes(left.as_slice());
            ParsedLine::Entry { id, frag, is_blank }
        },
    }
}

/// The mathematical content of a vocabulary: the id-to-fragment table and
/// the blank id.
#[verifier::ext_equal]
pub ghost struct VocabModel {
    pub table: Map<i64, Seq<u8>>,
    pub blank_id: i64,
}

/// What one line does to the vocabulary being built: a bad id aborts the
/// load with the offending field; an entry is inserted, overwriting any
/// earlier entry with the same id, and `<blk>` resets the blank id.
pub open spec fn vocab_step(
    acc: Result<VocabModel, Seq<u8>>,
    line: Seq<u8>,
) -> Result<VocabModel, Seq<u8>> {
    match acc {
        Err(f) => Err(f),
        Ok(m) => match parse_line(line) {
            LineParse::Skip => Ok(m),
            LineParse::Bad { field } => Err(field),
            LineParse::Entry { id, frag, is_blank } => Ok(
                VocabModel {
                    table: m.table.insert(id, frag),
                    blank_id: if is_blank {
                        id
                    } else {
                        m.blank_id
                    },
                },
            ),
        },
    }
}

/// The vocabulary the given lines denote, starting from an empty table and
/// blank id 0.
pub open spec fn parse_vocab_lines(lines: Seq<Seq<u8>>) -> Result<VocabModel, Seq<u8>>
    decreases lines.len(),
{
    if lines.len() == 0 {
        Ok(VocabModel { table: Map::empty(), blank_id: 0 })
    } else {
        vocab_step(parse_vocab_lines(lines.drop_last()), lines.last())
    }
}

/// The text split at every newline byte.
pub open spec fn split_lines_from(s: Seq<u8>, cur: Seq<u8>) -> Seq<Seq<u8>>
    decreases s.len(),
{
    if s.len() == 0 {
        seq![cur]
    } else if s[0] == 10 {
        seq![cur] + split_lines_from(s.skip(1), Seq::empty())
    } else {
        split_lines_from(s.skip(1), cur.push(s[0]))
    }
}

pub open spec fn split_lines(s: Seq<u8>) -> Seq<Seq<u8>> {
    split_lines_from(s, Seq::empty())
}

/// The vocabulary the whole text denotes.
pub open spec fn parse_vocab(s: Seq<u8>) -> Result<VocabModel, Seq<u8>> {
    parse_vocab_lines(split_lines(s))
}

proof fn lemma_vocab_err_absorbs(lines: Seq<Seq<u8>>, j: int)
    requires
        0 <= j <= lines.len(),
        parse_vocab_lines(lines.take(j)) is Err,
    ensures
        parse_vocab_lines(lines) == parse_vocab_lines(lines.take(j)),
    decreases lines.len() - j,
{
    if j < lines.len() {
        assert(lines.take(j + 1).drop_last() =~= lines.take(j));
        assert(lines.take(j + 1).last() == lines[j]);
        lemma_vocab_err_absorbs(lines, j + 1);
    } else {
        assert(lines.take(j) =~= lines);
    }
}

fn split_lines_exec(s: &[u8]) -> (lines: Vec<Vec<u8>>)
    ensures
        lines@.map_values(|l: Vec<u8>| l@) == split_lines(s@),
{
    let mut lines: Vec<Vec<u8>> = Vec::new();
    let mut cur: Vec<u8> = Vec::new();
    let mut i: usize = 0;
    proof {
        assert(s@.skip(0) =~= s@);
        assert(lines@.map_values(|l: Vec<u8>| l@) + split_lines_from(s@, cur@) =~= split_lines_from(
            s@,
            cur@,
        ));
    }
    while i < s.len()
        invariant
            i <= s@.len(),
            split_lines(s@) == lines@.map_values(|l: Vec<u8>| l@) + split_lines_from(
                s@.skip(i as int),
                cur@,
            ),
        decreases s@.len() - i,
    {
        let ghost rest = s@.skip(i as int);
        let ghost prev_lines = lines@;
        let ghost prev_cur = cur@;
        proof {
            assert(rest[0] == s@[i as int]);
            assert(rest.skip(1) =~= s@.skip(i as int + 1));
        }
        let b = s[i];
        if b == 10 {
            lines.push(cur);
            cur = Vec::new();
            proof {
                assert(lines@.map_values(|l: Vec<u8>| l@) =~= prev_lines.map_values(
                    |l: Vec<u8>| l@,
                ).push(prev_cur));
                assert(prev_lines.map_values(|l: Vec<u8>| l@) + (seq![prev_cur]
                    + split_lines_from(s@.skip(i as int + 1), Seq::empty())) =~= lines@.map_values(
                    |l: Vec<u8>| l@,
                ) + split_lines_from(s@.skip(i as int + 1), Seq::empty()));
            }
        } else {
            cur.push(b);
        }
        i = i + 1;
    }
    proof {
        assert(s@.skip(i as int).len() == 0);
    }
    let ghost prev_lines = lines@;
    let ghost prev_cur = cur@;
    lines.push(cur);
    proof {
        assert(lines@.map_values(|l: Vec<u8>| l@) =~= prev_lines.map_values(|l: Vec<u8>| l@).push(
            prev_cur));
        assert(prev_lines.map_values(|l: Vec<u8>| l@) + seq![prev_cur] =~= lines@.map_values(
            |l: Vec<u8>| l@,
        ));
    }
    lines
}

/// The vocabulary table: token id to text fragment, plus the blank id.
pub struct Vocabulary {
    table: HashMapWithView<i64, Vec<u8>>,
    blank_id: i64,
}

impl View for Vocabulary {
    type V = VocabModel;

    closed spec fn view(&self) -> VocabModel {
        VocabModel { table: self.table@.map_values(|v: Vec<u8>| v@), blank_id: self.blank_id }
    }
}

/// The fragments of the looked-up ids, in order; an id with no entry
/// contributes nothing.
pub open spec fn raw_detok(table: Map<i64, Seq<u8>>, ids: Seq<i64>) -> Seq<u8>
    decreases ids.len(),
{
    if ids.len() == 0 {
        Seq::empty()
    } else {
        raw_detok(table, ids.drop_last()) + if table.contains_key(ids.last()) {
            table[ids.last()]
        } else {
            Seq::empty()
        }
    }
}

/// An id with no entry in the table contributes nothing to detokenization:
/// it is silently dropped, never an error.
pub proof fn lemma_unknown_id_dropped(table: Map<i64, Seq<u8>>, ids: Seq<i64>, id: i64)
    requires
        !table.contains_key(id),
    ensures
        raw_detok(table, ids.push(id)) == raw_detok(table, ids),
{
    assert(ids.push(id).drop_last() =~= ids);
    assert(ids.push(id).last() == id);
    assert(raw_detok(table, ids) + Seq::<u8>::empty() =~= raw_detok(table, ids));
}

/// An empty token sequence detokenizes to empty text, whatever the table.
/// Since `start_recording` leaves an empty buffer and `stop_recording`
/// returns exactly the buffer, a stop immediately after a start yields an
/// empty sample sequence whose transcription is empty text, with no neural
/// component involved.
pub proof fn lemma_empty_decode_is_empty_text(table: Map<i64, Seq<u8>>)
    ensures
        normalize_ws(raw_detok(table, Seq::<i64>::empty())) == Seq::<u8>::empty(),
{
}

/// A left-to-right scan state for whitespace normalization: the output so
/// far, and whether whitespace has been seen since the last output byte.
pub open spec fn norm_scan(s: Seq<u8>) -> (Seq<u8>, bool)
    decreases s.len(),
{
    if s.len() == 0 {
        (Seq::empty(), false)
    } else {
        let p = norm_scan(s.drop_last());
        let b = s.last();
        if is_ws(b) {
            (p.0, true)
        } else if p.1 && p.0.len() > 0 {
            (p.0 + seq![32u8, b], false)
        } else {
            (p.0.push(b), false)
        }
    }
}

/// The bytes with leading and trailing whitespace dropped and every internal
/// whitespace run collapsed to one space.
pub open spec fn normalize_ws(s: Seq<u8>) -> Seq<u8> {
    norm_scan(s).0
}

impl Vocabulary {
    /// An empty table with blank id 0.
    pub fn new() -> (v: Vocabulary)
        ensures
            v@ == (VocabModel { table: Map::<i64, Seq<u8>>::empty(), blank_id: 0 }),
    {
        let table = HashMapWithView::<i64, Vec<u8>>::new();
        proof {
            assert(table@.map_values(|v: Vec<u8>| v@) =~= Map::<i64, Seq<u8>>::empty());
        }
        Vocabulary { table, blank_id: 0 }
    }

    /// The distinguished blank id.
    pub fn blank_id(&self) -> (r: i64)
        ensures
            r == self@.blank_id,
    {
        self.blank_id
    }

    /// The number of distinct ids in the table.
    pub fn size(&self) -> (r: usize)
        ensures
            r as int == self@.table.len(),
    {
        proof {
            assert(self@.table.dom() =~= self.table@.dom());
        }
        self.table.len()
    }

    /// Builds a vocabulary from the textual form, exactly as [`parse_vocab`]
    /// reads it; a line whose id field does not parse yields
    /// `InvalidVocabEntry` with that field, and nothing is built.
    pub fn parse(text: &[u8]) -> (r: Result<Vocabulary, SttError>)
        ensures
            (r is Ok) == (parse_vocab(text@) is Ok),
            r matches Ok(v) ==> Ok::<VocabModel, Seq<u8>>(v@) == parse_vocab(text@),
            r matches Err(e) ==> e matches SttError::InvalidVocabEntry { field } && parse_vocab(
                text@,
            ) == Err::<VocabModel, Seq<u8>>(field@),
    {
        let lines = split_lines_exec(text);
        let ghost ls = lines@.map_values(|l: Vec<u8>| l@);
        let mut table: HashMapWithView<i64, Vec<u8>> = HashMapWithView::new();
        let mut blank: i64 = 0;
        proof {
            assert(table@.map_values(|v: Vec<u8>| v@) =~= Map::<i64, Seq<u8>>::empty());
            assert(ls.take(0) =~= Seq::<Seq<u8>>::empty());
        }
        let mut j: usize = 0;
        while j < lines.len()
            invariant
                j <= lines@.len(),
                ls == lines@.map_values(|l: Vec<u8>| l@),
                ls == split_lines(text@),
                parse_vocab_lines(ls.take(j as int)) == Ok::<VocabModel, Seq<u8>>(
                    VocabModel {
                        table: table@.map_values(|v: Vec<u8>| v@),
                        blank_id: blank,
                    },
                ),
            decreases lines@.len() - j,
        {
            let line = &lines[j];
            let p = parse_line_exec(line.as_slice());
            proof {
                assert(ls.take(j as int + 1).drop_last() =~= ls.take(j as int));
                assert(ls.take(j as int + 1).last() == ls[j as int]);
                assert(ls[j as int] == lines@[j as int]@);
            }
            match p {
                ParsedLine::Skip => {},
                ParsedLine::Bad { field } => {
                    proof {
                        lemma_vocab_err_absorbs(ls, j as int + 1);
                    }
                    return Err(SttError::InvalidVocabEntry { field });
                },
                ParsedLine::Entry { id, frag, is_blank } => {
                    let ghost prev = table@.map_values(|v: Vec<u8>| v@);
                    let ghost gfrag = frag@;
                    table.insert(id, frag);
                    if is_blank {
                        blank = id;
                    }
                    proof {
                        assert(table@.map_values(|v: Vec<u8>| v@) =~= prev.insert(id, gfrag));
                    }
                },
            }
            j = j + 1;
        }
        proof {
            assert(ls.take(ls.len() as int) =~= ls);
        }
        Ok(Vocabulary { table, blank_id: blank })
    }

    /// Concatenates the fragments of the given ids, skipping ids with no
    /// entry, and normalizes whitespace in the result.
    pub fn decode(&self, ids: &Vec<i64>) -> (text: Vec<u8>)
        ensures
            text@ == normalize_ws(raw_detok(self@.table, ids@)),
    {
        let mut raw: Vec<u8> = Vec::new();
        let mut i: usize = 0;
        proof {
            assert(ids@.take(0) =~= Seq::<i64>::empty());
        }
        while i < ids.len()
            invariant
                i <= ids@.len(),
                raw@ == raw_detok(self@.table, ids@.take(i as int)),
            decreases ids@.len() - i,
        {
            let id = ids[i];
            proof {
                assert(ids@.take(i as int + 1).drop_last() =~= ids@.take(i as int));
                assert(ids@.take(i as int + 1).last() == ids@[i as int]);
            }
            let ghost prev_raw = raw@;
            match self.table.get(&id) {
                Some(frag) => {
                    let mut m: usize = 0;
                    proof {
                        assert(self@.table.contains_key(id));
                        assert(self@.table[id] == frag@);
                        assert(prev_raw + frag@.take(0) =~= prev_raw);
                    }
                    while m < frag.len()
                        invariant
                            m <= frag@.len(),
                            raw@ == prev_raw + frag@.take(m as int),
                        decreases frag@.len() - m,
                    {
                        raw.push(frag[m]);
                        proof {
                            assert(prev_raw + frag@.take(m as int + 1) =~= (prev_raw + frag@.take(
                                m as int,
                            )).push(frag@[m as int]));
                        }
                        m = m + 1;
                    }
                    proof {
                        assert(frag@.take(frag@.len() as int) =~= frag@);
                    }
                },
                None => {
                    proof {
                        assert(!self@.table.contains_key(id));
                        assert(prev_raw + Seq::<u8>::empty() =~= prev_raw);
                    }
                },
            }
            i = i + 1;
        }
        proof {
            assert(ids@.take(ids@.len() as int) =~= ids@);
        }
        let mut out: Vec<u8> = Vec::new();
        let mut pending: bool = false;
        let mut m: usize = 0;
        proof {
            assert(raw@.take(0) =~= Seq::<u8>::empty());
        }
        while m < raw.len()
            invariant
                m <= raw@.len(),
                out@ == norm_scan(raw@.take(m as int)).0,
                pending == norm_scan(raw@.take(m as int)).1,
            decreases raw@.len() - m,
        {
            let b = raw[m];
            proof {
                assert(raw@.take(m as int + 1).drop_last() =~= raw@.take(m as int));
                assert(raw@.take(m as int + 1).last() == raw@[m as int]);
            }
            if is_ws_byte(b) {
                pending = true;
            } else {
                if pending && out.len() > 0 {
                    let ghost prev_out = out@;
                    out.push(32);
                    out.push(b);
                    proof {
                        assert(out@ =~= prev_out + seq![32u8, b]);
                    }
                } else {
                    out.push(b);
                }
                pending = false;
            }
            m = m + 1;
        }
        proof {
            assert(raw@.take(raw@.len() as int) =~= raw@);
        }
        out
    }
}

} // verus!
