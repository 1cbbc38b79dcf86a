//! Byte-level text utilities shared by the parsers and formatters:
//! searching and splitting byte slices, ASCII whitespace trimming,
//! decimal number parsing and printing, and UTF-8 decoding.

use vstd::prelude::*;
use vstd::slice::{slice_index_get, slice_subrange, slice_to_vec};
use vstd::utf8::{decode_utf8, valid_utf8};

verus! {

// ---------------------------------------------------------------------------
// Basic byte classification
// ---------------------------------------------------------------------------

/// ASCII whitespace, as trimmed from the ends of input lines.
pub open spec fn spec_is_ws(b: u8) -> bool {
    b == 9 || b == 10 || b == 11 || b == 12 || b == 13 || b == 32
}

#[verifier::when_used_as_spec(spec_is_ws)]
pub fn is_ws(b: u8) -> (r: bool)
    ensures
        r == spec_is_ws(b),
{
    b == 9 || b == 10 || b == 11 || b == 12 || b == 13 || b == 32
}

pub open spec fn spec_is_digit(b: u8) -> bool {
    48 <= b <= 57
}

#[verifier::when_used_as_spec(spec_is_digit)]
pub fn is_digit(b: u8) -> (r: bool)
    ensures
        r == spec_is_digit(b),
{
    48 <= b && b <= 57
}

/// Every byte is ASCII.
pub open spec fn is_ascii_seq(s: Seq<u8>) -> bool {
    forall|i: int| 0 <= i < s.len() ==> s[i] < 0x80
}

/// The characters an ASCII byte sequence denotes.
pub open spec fn ascii_chars_of(s: Seq<u8>) -> Seq<char> {
    s.map_values(|b: u8| b as char)
}

// ---------------------------------------------------------------------------
// Finding and splitting
// ---------------------------------------------------------------------------

/// Index of the first occurrence of `b` in `s`, if any.
pub open spec fn spec_find(s: Seq<u8>, b: u8) -> Option<int>
    decreases s.len(),
{
    if s.len() == 0 {
        None
    } else if s[0] == b {
        Some(0int)
    } else {
        match spec_find(s.drop_first(), b) {
            Some(i) => Some(i + 1),
            None => None,
        }
    }
}

pub proof fn lemma_spec_find(s: Seq<u8>, b: u8)
    ensures
        match spec_find(s, b) {
            Some(i) => 0 <= i < s.len() && s[i] == b && (forall|j: int| 0 <= j < i ==> s[j] != b),
            None => forall|j: int| 0 <= j < s.len() ==> s[j] != b,
        },
    decreases s.len(),
{
    if s.len() > 0 && s[0] != b {
        let d = s.drop_first();
        lemma_spec_find(d, b);
        assert(forall|j: int| 0 <= j < d.len() ==> d[j] == s[j + 1]);
        match spec_find(d, b) {
            Some(i) => {
                assert(spec_find(s, b) == Some(i + 1));
                assert(s[i + 1] == b);
                assert forall|j: int| 0 <= j < i + 1 implies s[j] != b by {
                    if j > 0 {
                        assert(d[j - 1] != b);
                    }
                }
            },
            None => {
                assert forall|j: int| 0 <= j < s.len() implies s[j] != b by {
                    if j > 0 {
                        assert(d[j - 1] != b);
                    }
                }
            },
        }
    }
}

pub fn find_byte(s: &[u8], b: u8) -> (r: Option<usize>)
    ensures
        match r {
            Some(i) => Some(i as int) == spec_find(s@, b),
            None => spec_find(s@, b) is None,
        },
{
    proof {
        lemma_spec_find(s@, b);
    }
    let n = s.len();
    let mut i: usize = 0;
    while i < n
        invariant
            n == s@.len(),
            0 <= i <= n,
            forall|j: int| 0 <= j < i ==> s@[j] != b,
        decreases n - i,
    {
        if *slice_index_get(s, i) == b {
            proof {
                lemma_spec_find(s@, b);
                match spec_find(s@, b) {
                    Some(k) => {
                        if k < i {
                            assert(s@[k] != b);
                        } else if k > i {
                            assert(s@[i as int] != b);
                        }
                    },
                    None => {
                        assert(s@[i as int] != b);
                    },
                }
            }
            return Some(i);
        }
        i += 1;
    }
    None
}

/// Splits at the first occurrence of `b`; the separator is kept in neither part.
pub open spec fn spec_split_once(s: Seq<u8>, b: u8) -> Option<(Seq<u8>, Seq<u8>)> {
    match spec_find(s, b) {
        Some(i) => Some((s.take(i), s.skip(i + 1))),
        None => None,
    }
}

pub fn split_once(s: &[u8], b: u8) -> (r: Option<(&[u8], &[u8])>)
    ensures
        match r {
            Some(p) => Some((p.0@, p.1@)) == spec_split_once(s@, b),
            None => spec_split_once(s@, b) is None,
        },
{
    let n = s.len();
    match find_byte(s, b) {
        Some(i) => {
            proof {
                lemma_spec_find(s@, b);
            }
            assert(i < n);
            let left = slice_subrange(s, 0, i);
            let right = slice_subrange(s, i + 1, n);
            assert(left@ =~= s@.take(i as int));
            assert(right@ =~= s@.skip(i + 1));
            Some((left, right))
        },
        None => None,
    }
}

/// Whether `s` begins with `p`.
pub open spec fn spec_starts_with(s: Seq<u8>, p: Seq<u8>) -> bool {
    p.len() <= s.len() && s.take(p.len() as int) =~= p
}

pub fn starts_with(s: &[u8], p: &[u8]) -> (r: bool)
    ensures
        r == spec_starts_with(s@, p@),
{
    if p.len() > s.len() {
        assert(!spec_starts_with(s@, p@));
        return false;
    }
    let n = p.len();
    let mut i: usize = 0;
    while i < n
        invariant
            n == p@.len() <= s@.len(),
            0 <= i <= n,
            forall|j: int| 0 <= j < i ==> s@[j] == p@[j],
        decreases n - i,
    {
        if *slice_index_get(s, i) != *slice_index_get(p, i) {
            assert(s@.take(p@.len() as int)[i as int] != p@[i as int]);
            return false;
        }
        i += 1;
    }
    assert(s@.take(p@.len() as int) =~= p@);
    true
}

/// Byte-wise equality of two slices.
pub fn bytes_eq(a: &[u8], b: &[u8]) -> (r: bool)
    ensures
        r == (a@ =~= b@),
{
    if a.len() != b.len() {
        return false;
    }
    let n = a.len();
    let mut i: usize = 0;
    while i < n
        invariant
            n == a@.len() == b@.len(),
            0 <= i <= n,
            forall|j: int| 0 <= j < i ==> a@[j] == b@[j],
        decreases n - i,
    {
        if *slice_index_get(a, i) != *slice_index_get(b, i) {
            return false;
        }
        i += 1;
    }
    assert(a@ =~= b@);
    true
}

// ---------------------------------------------------------------------------
// Trimming
// ---------------------------------------------------------------------------

/// `s` with leading ASCII whitespace removed.
pub open spec fn spec_trim_start(s: Seq<u8>) -> Seq<u8>
    decreases s.len(),
{
    if s.len() > 0 && spec_is_ws(s[0]) {
        spec_trim_start(s.drop_first())
    } else {
        s
    }
}

/// `s` with trailing ASCII whitespace removed.
pub open spec fn spec_trim_end(s: Seq<u8>) -> Seq<u8>
    decreases s.len(),
{
    if s.len() > 0 && spec_is_ws(s.last()) {
        spec_trim_end(s.drop_last())
    } else {
        s
    }
}

/// `s` with ASCII whitespace removed from both ends.
pub open spec fn spec_trim(s: Seq<u8>) -> Seq<u8> {
    spec_trim_end(spec_trim_start(s))
}

pub proof fn lemma_trim_start_skip(s: Seq<u8>, i: int)
    requires
        0 <= i <= s.len(),
        forall|j: int| 0 <= j < i ==> spec_is_ws(s[j]),
        i < s.len() ==> !spec_is_ws(s[i]),
    ensures
        spec_trim_start(s) =~= s.skip(i),
    decreases s.len(),
{
    if i == 0 {
        if s.len() > 0 && spec_is_ws(s[0]) {
        } else {
            assert(s.skip(0) =~= s);
        }
    } else {
        assert(spec_is_ws(s[0]));
        assert(s.drop_first() =~= s.skip(1));
        lemma_trim_start_skip(s.drop_first(), i - 1);
        assert(s.drop_first().skip(i - 1) =~= s.skip(i));
    }
}

proof fn lemma_trim_end_take(s: Seq<u8>, i: int)
    requires
        0 <= i <= s.len(),
        forall|j: int| i <= j < s.len() ==> spec_is_ws(s[j]),
        i > 0 ==> !spec_is_ws(s[i - 1]),
    ensures
        spec_trim_end(s) =~= s.take(i),
    decreases s.len(),
{
    if i == s.len() {
        if s.len() > 0 && spec_is_ws(s.last()) {
        } else {
            assert(s.take(i) =~= s);
        }
    } else {
        assert(spec_is_ws(s.last()));
        lemma_trim_end_take(s.drop_last(), i);
        assert(s.drop_last().take(i) =~= s.take(i));
    }
}

pub fn trim(s: &[u8]) -> (r: &[u8])
    ensures
        r@ =~= spec_trim(s@),
{
    let n = s.len();
    let mut lo: usize = 0;
    while lo < n && is_ws(*slice_index_get(s, lo))
        invariant
            n == s@.len(),
            0 <= lo <= n,
            forall|j: int| 0 <= j < lo ==> spec_is_ws(s@[j]),
        decreases n - lo,
    {
        lo += 1;
    }
    proof {
        lemma_trim_start_skip(s@, lo as int);
    }
    let mut hi: usize = n;
    while hi > lo && is_ws(*slice_index_get(s, hi - 1))
        invariant
            n == s@.len(),
            lo <= hi <= n,
            forall|j: int| 0 <= j < lo ==> spec_is_ws(s@[j]),
            forall|j: int| hi <= j < n ==> spec_is_ws(s@[j]),
        decreases hi,
    {
        hi -= 1;
    }
    let r = slice_subrange(s, lo, hi);
    proof {
        let t = s@.skip(lo as int);
        lemma_trim_end_take(t, hi - lo);
        assert(t.take(hi - lo) =~= s@.subrange(lo as int, hi as int));
    }
    r
}

// ---------------------------------------------------------------------------
// Line splitting
// ---------------------------------------------------------------------------

/// `s` with one trailing carriage return removed, as `str::lines` does.
pub open spec fn spec_strip_cr(s: Seq<u8>) -> Seq<u8> {
    if s.len() > 0 && s.last() == 13 {
        s.drop_last()
    } else {
        s
    }
}

/// The lines of `s`: split at each newline, the line ending optional on the
/// last line, one trailing carriage return removed per line.
pub open spec fn spec_split_lines(s: Seq<u8>) -> Seq<Seq<u8>>
    decreases s.len(),
{
    if s.len() == 0 {
        Seq::empty()
    } else {
        match spec_find(s, 10) {
            Some(i) => if 0 <= i < s.len() {
                seq![spec_strip_cr(s.take(i))] + spec_split_lines(s.skip(i + 1))
            } else {
                // `spec_find` never returns an index out of bounds.
                seq![spec_strip_cr(s)]
            },
            None => seq![spec_strip_cr(s)],
        }
    }
}

/// Splits the input into lines, as `str::lines` would.
pub fn split_lines(s: &[u8]) -> (r: Vec<Vec<u8>>)
    ensures
        r.deep_view() == spec_split_lines(s@),
{
    let mut r: Vec<Vec<u8>> = Vec::new();
    let n = s.len();
    let mut pos: usize = 0;
    proof {
        assert(s@.skip(0) =~= s@);
        assert(r.deep_view() =~= Seq::<Seq<u8>>::empty());
        assert(Seq::<Seq<u8>>::empty() + spec_split_lines(s@) =~= spec_split_lines(s@));
    }
    while pos < n
        invariant
            n == s@.len(),
            0 <= pos <= n,
            spec_split_lines(s@) == r.deep_view() + spec_split_lines(s@.skip(pos as int)),
        decreases n - pos,
    {
        let ghost rest = s@.skip(pos as int);
        let ghost r_old = r.deep_view();
        let line_end: usize = match find_byte_from(s, pos, 10) {
            Some(i) => i,
            None => n,
        };
        let strip_end: usize = if line_end > pos && *slice_index_get(s, line_end - 1) == 13 {
            line_end - 1
        } else {
            line_end
        };
        let line = slice_to_vec(slice_subrange(s, pos, strip_end));
        let ghost line_v = s@.subrange(pos as int, strip_end as int);
        r.push(line);
        proof {
            assert(line.deep_view() =~= line_v);
            assert(r.deep_view() =~= r_old.push(line_v)) by {
                assert(forall|k: int|
                    0 <= k < r_old.len() ==> #[trigger] r.deep_view()[k] == r_old[k]);
                assert(r.deep_view()[r_old.len() as int] == line.deep_view());
            }
            let tail = if line_end < n {
                s@.skip(line_end + 1)
            } else {
                Seq::<u8>::empty()
            };
            assert(spec_split_lines(rest) == seq![line_v] + spec_split_lines(tail)) by {
                if line_end < n {
                    assert(spec_find(rest, 10) == Some(line_end - pos)) by {
                        lemma_spec_find(rest, 10);
                        assert(forall|k: int|
                            0 <= k < rest.len() ==> #[trigger] rest[k] == s@[k + pos]);
                        match spec_find(rest, 10) {
                            Some(q) => {
                                if q < line_end - pos {
                                    assert(s@[q + pos] == 10);
                                } else if q > line_end - pos {
                                    assert(rest[line_end - pos] == 10);
                                }
                            },
                            None => {
                                assert(rest[line_end - pos] == 10);
                            },
                        }
                    }
                    assert(rest.take(line_end - pos) =~= s@.subrange(
                        pos as int,
                        line_end as int,
                    ));
                    assert(rest.skip(line_end - pos + 1) =~= s@.skip(line_end + 1));
                    assert(spec_strip_cr(rest.take(line_end - pos)) =~= line_v);
                } else {
                    assert(spec_find(rest, 10) is None) by {
                        lemma_spec_find(rest, 10);
                        assert(forall|k: int|
                            0 <= k < rest.len() ==> #[trigger] rest[k] == s@[k + pos]);
                        match spec_find(rest, 10) {
                            Some(q) => {
                                assert(s@[q + pos] == 10);
                            },
                            None => {},
                        }
                    }
                    assert(spec_strip_cr(rest) =~= line_v);
                    assert(spec_split_lines(tail) =~= Seq::<Seq<u8>>::empty());
                    assert(seq![line_v] + spec_split_lines(tail) =~= seq![spec_strip_cr(rest)]);
                }
            }
            assert(r_old.push(line_v) + spec_split_lines(tail) =~= r_old + (seq![line_v]
                + spec_split_lines(tail)));
            assert(s@.skip(n as int) =~= Seq::<u8>::empty());
        }
        pos = if line_end < n {
            line_end + 1
        } else {
            n
        };
    }
    proof {
        assert(s@.skip(pos as int) =~= Seq::<u8>::empty());
        assert(r.deep_view() =~= r.deep_view() + spec_split_lines(s@.skip(pos as int)));
    }
    r
}

/// Index of the first occurrence of `b` at or after `from`.
pub fn find_byte_from(s: &[u8], from: usize, b: u8) -> (r: Option<usize>)
    requires
        from <= s@.len(),
    ensures
        match r {
            Some(i) => from <= i < s@.len() && s@[i as int] == b && (forall|j: int|
                from <= j < i ==> s@[j] != b),
            None => forall|j: int| from <= j < s@.len() ==> s@[j] != b,
        },
{
    let n = s.len();
    let mut i: usize = from;
    while i < n
        invariant
            n == s@.len(),
            from <= i <= n,
            forall|j: int| from <= j < i ==> s@[j] != b,
        decreases n - i,
    {
        if *slice_index_get(s, i) == b {
            return Some(i);
        }
        i += 1;
    }
    None
}

// ---------------------------------------------------------------------------
// Decimal parsing
// ---------------------------------------------------------------------------

/// Every byte of `s` is a decimal digit, and there is at least one.
pub open spec fn spec_all_digits(s: Seq<u8>) -> bool {
    s.len() > 0 && (forall|i: int| 0 <= i < s.len() ==> spec_is_digit(s[i]))
}

/// The value of a string of decimal digits.
pub open spec fn spec_digits_val(s: Seq<u8>) -> nat
    decreases s.len(),
{
    if s.len() == 0 {
        0
    } else {
        spec_digits_val(s.drop_last()) * 10 + (s.last() - 48) as nat
    }
}

proof fn lemma_digits_val_extend(a: Seq<u8>, b: Seq<u8>)
    ensures
        spec_digits_val(a + b) >= spec_digits_val(a),
    decreases b.len(),
{
    if b.len() == 0 {
        assert(a + b =~= a);
    } else {
        lemma_digits_val_extend(a, b.drop_last());
        assert((a + b).drop_last() =~= a + b.drop_last());
        assert(spec_digits_val(a + b) == spec_digits_val(a + b.drop_last()) * 10 + ((a
            + b).last() - 48) as nat);
    }
}

/// `s` with one leading `+` removed, as `str::parse` allows for unsigned numbers.
pub open spec fn spec_strip_plus(s: Seq<u8>) -> Seq<u8> {
    if s.len() > 0 && s[0] == 43 {
        s.drop_first()
    } else {
        s
    }
}

/// An optional `+` sign, then digits, rejecting values above `max`.
pub open spec fn spec_parse_uint(s: Seq<u8>, max: nat) -> Option<nat> {
    let t = spec_strip_plus(s);
    if spec_all_digits(t) && spec_digits_val(t) <= max {
        Some(spec_digits_val(t))
    } else {
        None
    }
}

/// Parses an unsigned decimal number no larger than `max` (`max <= u64::MAX`),
/// accepting one leading `+` as `str::parse` does.
pub fn parse_uint(s: &[u8], max: u64) -> (r: Option<u64>)
    ensures
        match r {
            Some(v) => v <= max && Some(v as nat) == spec_parse_uint(s@, max as nat),
            None => spec_parse_uint(s@, max as nat) is None,
        },
{
    let ghost t = spec_strip_plus(s@);
    let start: usize = if s.len() > 0 && *slice_index_get(s, 0) == 43 {
        1
    } else {
        0
    };
    proof {
        assert(t =~= s@.skip(start as int));
    }
    let n = s.len();
    if start == n {
        assert(!spec_all_digits(t));
        return None;
    }
    let mut acc: u64 = 0;
    let mut i: usize = start;
    while i < n
        invariant
            n == s@.len(),
            start <= i <= n,
            start < n,
            max <= u64::MAX,
            t == spec_strip_plus(s@),
            t =~= s@.skip(start as int),
            forall|j: int| start <= j < i ==> spec_is_digit(s@[j]),
            acc as nat == spec_digits_val(s@.subrange(start as int, i as int)),
            acc <= max,
        decreases n - i,
    {
        let c = *slice_index_get(s, i);
        proof {
            assert(forall|k: int| 0 <= k < t.len() ==> t[k] == s@[k + start]);
        }
        if !is_digit(c) {
            assert(t[i - start] == s@[i as int]);
            assert(!spec_all_digits(t));
            assert(spec_parse_uint(s@, max as nat) is None);
            return None;
        }
        let ghost prefix = s@.subrange(start as int, i as int);
        let ghost prefix1 = s@.subrange(start as int, i + 1);
        proof {
            assert(prefix1.drop_last() =~= prefix);
            assert(spec_digits_val(prefix1) == spec_digits_val(prefix) * 10 + (c - 48) as nat);
        }
        if acc > max / 10 || (acc == max / 10 && (c - 48) as u64 > max % 10) {
            // The value either overflows or a later byte is not a digit;
            // the parse is refused in both cases.
            proof {
                assert(spec_digits_val(prefix1) > max);
                if spec_all_digits(t) {
                    lemma_digits_val_extend(prefix1, s@.skip(i + 1));
                    assert(prefix1 + s@.skip(i + 1) =~= t);
                    assert(spec_digits_val(t) > max);
                }
                assert(spec_parse_uint(s@, max as nat) is None);
            }
            return None;
        }
        acc = acc * 10 + (c - 48) as u64;
        i += 1;
    }
    proof {
        assert(s@.subrange(start as int, n as int) =~= t);
        assert(forall|k: int| 0 <= k < t.len() ==> t[k] == s@[k + start]);
        assert(spec_all_digits(t));
    }
    Some(acc)
}

pub fn parse_u32(s: &[u8]) -> (r: Option<u32>)
    ensures
        match r {
            Some(v) => Some(v as nat) == spec_parse_uint(s@, u32::MAX as nat),
            None => spec_parse_uint(s@, u32::MAX as nat) is None,
        },
{
    match parse_uint(s, 0xffff_ffff) {
        Some(v) => Some(v as u32),
        None => None,
    }
}

pub fn parse_u64(s: &[u8]) -> (r: Option<u64>)
    ensures
        match r {
            Some(v) => Some(v as nat) == spec_parse_uint(s@, u64::MAX as nat),
            None => spec_parse_uint(s@, u64::MAX as nat) is None,
        },
{
    parse_uint(s, u64::MAX)
}

/// A signed decimal number as `str::parse::<i64>` reads it: an optional
/// sign, then digits.
pub open spec fn spec_parse_i64(s: Seq<u8>) -> Option<int> {
    if s.len() > 0 && s[0] == 45 {
        let t = s.drop_first();
        if spec_all_digits(t) && spec_digits_val(t) <= 0x8000_0000_0000_0000 {
            Some(-(spec_digits_val(t) as int))
        } else {
            None
        }
    } else {
        match spec_parse_uint(s, 0x7fff_ffff_ffff_ffff) {
            Some(v) => Some(v as int),
            None => None,
        }
    }
}

pub fn parse_i64(s: &[u8]) -> (r: Option<i64>)
    ensures
        match r {
            Some(v) => Some(v as int) == spec_parse_i64(s@),
            None => spec_parse_i64(s@) is None,
        },
{
    if s.len() > 0 && *slice_index_get(s, 0) == 45 {
        let rest = slice_subrange(s, 1, s.len());
        assert(rest@ =~= s@.drop_first());
        match parse_uint(rest, 0x8000_0000_0000_0000) {
            Some(v) => {
                assert(rest@.len() > 0 && rest@[0] == 43 ==> rest@.drop_first()
                    =~= rest@.drop_first());
                if rest.len() > 0 && *slice_index_get(rest, 0) == 43 {
                    // `str::parse` refuses a sign after a sign; an all-digit
                    // sequence never begins with `+`.
                    assert(!spec_all_digits(rest@));
                    assert(spec_parse_i64(s@) is None);
                    return None;
                }
                if v == 0x8000_0000_0000_0000 {
                    Some(i64::MIN)
                } else {
                    Some(-(v as i64))
                }
            },
            None => None,
        }
    } else {
        match parse_uint(s, 0x7fff_ffff_ffff_ffff) {
            Some(v) => Some(v as i64),
            None => None,
        }
    }
}

// ---------------------------------------------------------------------------
// Decimal printing
// ---------------------------------------------------------------------------

/// The decimal digit bytes of `n`, most significant first.
pub open spec fn spec_u64_digits(n: nat) -> Seq<u8>
    decreases n,
{
    if n < 10 {
        seq![(48 + n) as u8]
    } else {
        spec_u64_digits(n / 10).push((48 + n % 10) as u8)
    }
}

/// The decimal rendering of `n`.
pub open spec fn spec_u64_string(n: nat) -> Seq<char> {
    ascii_chars_of(spec_u64_digits(n))
}

pub proof fn lemma_u64_digits_ascii(n: nat)
    ensures
        forall|i: int|
            0 <= i < spec_u64_digits(n).len() ==> 48 <= #[trigger] spec_u64_digits(n)[i] <= 57,
    decreases n,
{
    if n < 10 {
        assert(spec_u64_digits(n)[0] == (48 + n) as u8);
    } else {
        lemma_u64_digits_ascii(n / 10);
        let d = spec_u64_digits(n / 10);
        assert forall|i: int|
            0 <= i < spec_u64_digits(n).len() implies 48 <= #[trigger] spec_u64_digits(n)[i]
            <= 57 by {
            if i < d.len() {
                assert(spec_u64_digits(n)[i] == d[i]);
            } else {
                assert(spec_u64_digits(n)[i] == (48 + n % 10) as u8);
            }
        }
    }
}

pub fn u64_digits(n: u64) -> (v: Vec<u8>)
    ensures
        v@ =~= spec_u64_digits(n as nat),
    decreases n,
{
    if n < 10 {
        let mut v: Vec<u8> = Vec::new();
        v.push(48 + (n as u8));
        v
    } else {
        let mut v = u64_digits(n / 10);
        v.push(48 + ((n % 10) as u8));
        v
    }
}

// ---------------------------------------------------------------------------
// UTF-8 decoding (trusted boundary to std)
// ---------------------------------------------------------------------------

/// Relies on `std::str::from_utf8`: decodes the bytes when they are valid
/// UTF-8 and refuses them otherwise, per vstd's model of UTF-8.
#[verifier::external_body]
pub fn decode_bytes(bytes: &[u8]) -> (r: Option<String>)
    ensures
        match r {
            Some(s) => valid_utf8(bytes@) && s@ == decode_utf8(bytes@),
            None => !valid_utf8(bytes@),
        },
{
    match std::str::from_utf8(bytes) {
        Ok(s) => Some(s.to_string()),
        Err(_) => None,
    }
}

/// ASCII bytes are valid UTF-8 and decode to themselves.
pub proof fn lemma_ascii_decode(s: Seq<u8>)
    requires
        is_ascii_seq(s),
    ensures
        valid_utf8(s),
        decode_utf8(s) =~= ascii_chars_of(s),
    decreases s.len(),
{
    if s.len() > 0 {
        let b0 = s[0];
        assert(b0 & 0x7f == b0) by (bit_vector)
            requires
                b0 < 0x80,
        ;
        assert(vstd::utf8::length_of_first_scalar(s) == 1);
        assert(vstd::utf8::valid_first_scalar(s));
        assert(vstd::utf8::decode_first_scalar(s) == b0 as u32);
        assert(vstd::utf8::pop_first_scalar(s) =~= s.drop_first());
        assert(is_ascii_seq(s.drop_first()));
        lemma_ascii_decode(s.drop_first());
        assert(decode_utf8(s) =~= seq![(b0 as u32) as char] + decode_utf8(s.drop_first()));
        assert(ascii_chars_of(s) =~= seq![b0 as char] + ascii_chars_of(s.drop_first()));
        assert((b0 as u32) as char == b0 as char);
    }
}

/// Decodes ASCII bytes to the string they spell.
pub fn ascii_to_string(bytes: &[u8]) -> (r: String)
    requires
        is_ascii_seq(bytes@),
    ensures
        r@ == ascii_chars_of(bytes@),
{
    proof {
        lemma_ascii_decode(bytes@);
    }
    match decode_bytes(bytes) {
        Some(s) => s,
        None => {
            // Unreachable: ASCII bytes are valid UTF-8.
            assert(false);
            String::new()
        },
    }
}

/// The bytes of `s` decode back to its characters.
pub proof fn lemma_str_bytes_roundtrip(s: Seq<char>)
    ensures
        valid_utf8(vstd::utf8::encode_utf8(s)),
        decode_utf8(vstd::utf8::encode_utf8(s)) == s,
{
    vstd::utf8::encode_utf8_valid_utf8(s);
    vstd::utf8::encode_utf8_decode_utf8(s);
}

/// Whether two string slices spell the same characters.
pub fn str_eq(a: &str, b: &str) -> (r: bool)
    ensures
        r == (a@ == b@),
{
    let r = bytes_eq(a.as_bytes(), b.as_bytes());
    proof {
        lemma_str_bytes_roundtrip(a@);
        lemma_str_bytes_roundtrip(b@);
    }
    r
}

/// A copy of the byte slice as an owned vector.
pub fn copy_bytes(s: &[u8]) -> (r: Vec<u8>)
    ensures
        r@ == s@,
{
    slice_to_vec(s)
}

/// The decimal rendering of `n`, as a string.
pub fn u64_to_string(n: u64) -> (r: String)
    ensures
        r@ == spec_u64_string(n as nat),
{
    let v = u64_digits(n);
    proof {
        lemma_u64_digits_ascii(n as nat);
    }
    ascii_to_string(v.as_slice())
}


/// Byte-wise lexicographic strict order.
pub open spec fn spec_bytes_lt(a: Seq<u8>, b: Seq<u8>) -> bool
    decreases b.len(),
{
    if b.len() == 0 {
        false
    } else if a.len() == 0 {
        true
    } else if a[0] < b[0] {
        true
    } else if a[0] > b[0] {
        false
    } else {
        spec_bytes_lt(a.drop_first(), b.drop_first())
    }
}

/// The strict byte order is asymmetric.
pub proof fn lemma_bytes_lt_asym(a: Seq<u8>, b: Seq<u8>)
    requires
        spec_bytes_lt(a, b),
    ensures
        !spec_bytes_lt(b, a),
    decreases b.len(),
{
    if b.len() == 0 {
    } else if a.len() == 0 {
    } else if a[0] < b[0] {
    } else if a[0] > b[0] {
    } else {
        lemma_bytes_lt_asym(a.drop_first(), b.drop_first());
    }
}

/// Whether `a` orders strictly before `b`, byte by byte.
pub fn bytes_lt(a: &[u8], b: &[u8]) -> (r: bool)
    ensures
        r == spec_bytes_lt(a@, b@),
{
    let n = a.len();
    let m = b.len();
    let mut i: usize = 0;
    proof {
        assert(a@.skip(0) =~= a@);
        assert(b@.skip(0) =~= b@);
    }
    while i < n && i < m
        invariant
            n == a@.len(),
            m == b@.len(),
            0 <= i <= n,
            i <= m,
            spec_bytes_lt(a@, b@) == spec_bytes_lt(a@.skip(i as int), b@.skip(i as int)),
        decreases n - i,
    {
        proof {
            assert(a@.skip(i as int)[0] == a@[i as int]);
            assert(b@.skip(i as int)[0] == b@[i as int]);
            assert(a@.skip(i as int).drop_first() =~= a@.skip(i + 1));
            assert(b@.skip(i as int).drop_first() =~= b@.skip(i + 1));
        }
        let x = *vstd::slice::slice_index_get(a, i);
        let y = *vstd::slice::slice_index_get(b, i);
        if x < y {
            return true;
        }
        if x > y {
            return false;
        }
        i += 1;
    }
    proof {
        if i >= n {
            assert(a@.skip(i as int) =~= Seq::<u8>::empty());
        }
        if i >= m {
            assert(b@.skip(i as int) =~= Seq::<u8>::empty());
        }
    }
    i < m
}

} // verus!
