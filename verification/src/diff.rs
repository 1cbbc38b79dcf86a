//! Parsing a unified diff into the set of added line numbers per file, as
//! needed for diff coverage: which of a patch's newly added lines are
//! covered by any ingested report.

use vstd::prelude::*;
use vstd::slice::slice_subrange;
use crate::text::{
    spec_split_lines, spec_starts_with, spec_parse_uint, spec_find, spec_split_once, split_lines,
    starts_with, bytes_eq, split_once, parse_u32, decode_bytes, str_eq,
};
use vstd::string::{StrSliceExecFns, StringExecFns, StringSliceAdditionalSpecFns};
use vstd::utf8::{decode_utf8, valid_utf8};

verus! {

/// Added lines per file: the file paths in first-appearance order, each
/// with the new-file line numbers its `+` lines occupy.
pub struct DiffLines {
    pub entries: Vec<(String, Vec<u32>)>,
}

impl View for DiffLines {
    type V = Seq<(Seq<char>, Seq<u32>)>;

    open spec fn view(&self) -> Seq<(Seq<char>, Seq<u32>)> {
        Seq::new(self.entries@.len(), |i: int| (self.entries@[i].0@, self.entries@[i].1@))
    }
}

impl DiffLines {
    /// How many files have added lines.
    pub fn len(&self) -> (r: usize)
        ensures
            r == self@.len(),
    {
        self.entries.len()
    }

    /// Whether no file has added lines.
    pub fn is_empty(&self) -> (r: bool)
        ensures
            r == (self@.len() == 0),
    {
        self.entries.is_empty()
    }

    /// The added line numbers recorded for `path`, if any.
    pub fn get(&self, path: &str) -> (r: Option<&Vec<u32>>)
        ensures
            match r {
                Some(v) => exists|i: int|
                    0 <= i < self@.len() && (#[trigger] self@[i]).0 == path@ && self@[i].1 == v@,
                None => forall|i: int| 0 <= i < self@.len() ==> (#[trigger] self@[i]).0 != path@,
            },
    {
        let n = self.entries.len();
        let mut i: usize = 0;
        while i < n
            invariant
                n == self@.len(),
                0 <= i <= n,
                forall|j: int| 0 <= j < i ==> (#[trigger] self@[j]).0 != path@,
            decreases n - i,
        {
            if str_eq(self.entries[i].0.as_str(), path) {
                assert(self@[i as int].0 == path@ && self@[i as int].1 == self.entries@[i as int].1@);
                return Some(&self.entries[i].1);
            }
            i += 1;
        }
        None
    }
}

/// The parser state after some prefix of the diff's lines: the entries so
/// far, the current target file (none before the first header or after a
/// deletion), and the next new-file line number.
pub struct DiffState {
    pub entries: Seq<(Seq<char>, Seq<u32>)>,
    pub current: Option<Seq<char>>,
    pub counter: u32,
}

/// A counter bump that stays put at the top of the `u32` range rather than
/// overflowing.
pub open spec fn spec_sat_inc(c: u32) -> u32 {
    if c == u32::MAX {
        c
    } else {
        (c + 1) as u32
    }
}

/// `n` recorded as an added line of `file`: appended to its entry, or to a
/// new entry at the end.
pub open spec fn spec_add_line(
    entries: Seq<(Seq<char>, Seq<u32>)>,
    file: Seq<char>,
    n: u32,
) -> Seq<(Seq<char>, Seq<u32>)>
    decreases entries.len(),
{
    if entries.len() == 0 {
        seq![(file, seq![n])]
    } else if entries[0].0 == file {
        seq![(entries[0].0, entries[0].1.push(n))] + entries.drop_first()
    } else {
        seq![entries[0]] + spec_add_line(entries.drop_first(), file, n)
    }
}

/// The target path named by a `+++ ` header: the rest of the line with one
/// `b/` or `a/` prefix removed.
pub open spec fn spec_header_path(rest: Seq<u8>) -> Seq<u8> {
    if spec_starts_with(rest, seq![98u8, 47u8]) {
        rest.skip(2)
    } else if spec_starts_with(rest, seq![97u8, 47u8]) {
        rest.skip(2)
    } else {
        rest
    }
}

/// The bytes of `/dev/null`, the header path of a deleted file.
pub open spec fn spec_dev_null() -> Seq<u8> {
    seq![47u8, 100u8, 101u8, 118u8, 47u8, 110u8, 117u8, 108u8, 108u8]
}

/// The new-file start line of a hunk header `@@ -o,oc +n,nc @@`.
pub open spec fn spec_parse_hunk(line: Seq<u8>) -> Option<u32> {
    if !spec_starts_with(line, seq![64u8, 64u8, 32u8]) {
        None
    } else {
        let after = line.skip(3);
        match spec_split_once(after, 32) {
            None => None,
            Some(p) => {
                let part1 = match spec_find(p.1, 32) {
                    Some(j) => p.1.take(j),
                    None => p.1,
                };
                if !spec_starts_with(part1, seq![43u8]) {
                    None
                } else {
                    let num = match spec_find(part1.skip(1), 44) {
                        Some(k) => part1.skip(1).take(k),
                        None => part1.skip(1),
                    };
                    match spec_parse_uint(num, u32::MAX as nat) {
                        Some(v) => Some(v as u32),
                        None => None,
                    }
                }
            },
        }
    }
}

/// One line of the diff applied to the parser state.
pub open spec fn spec_diff_step(st: DiffState, line: Seq<u8>) -> DiffState {
    if spec_starts_with(line, seq![43u8, 43u8, 43u8, 32u8]) {
        let rest = line.skip(4);
        if rest == spec_dev_null() {
            DiffState { current: None, ..st }
        } else {
            let path = spec_header_path(rest);
            if valid_utf8(path) {
                DiffState { current: Some(decode_utf8(path)), ..st }
            } else {
                DiffState { current: None, ..st }
            }
        }
    } else if spec_starts_with(line, seq![64u8, 64u8, 32u8]) {
        match spec_parse_hunk(line) {
            Some(n) => DiffState { counter: n, ..st },
            None => st,
        }
    } else {
        match st.current {
            None => st,
            Some(file) => {
                if spec_starts_with(line, seq![92u8]) {
                    st
                } else if spec_starts_with(line, seq![43u8]) && !spec_starts_with(
                    line,
                    seq![43u8, 43u8, 43u8],
                ) {
                    DiffState {
                        entries: spec_add_line(st.entries, file, st.counter),
                        counter: spec_sat_inc(st.counter),
                        ..st
                    }
                } else if spec_starts_with(line, seq![45u8]) && !spec_starts_with(
                    line,
                    seq![45u8, 45u8, 45u8],
                ) {
                    st
                } else {
                    DiffState { counter: spec_sat_inc(st.counter), ..st }
                }
            },
        }
    }
}

/// The diff's lines applied in order.
pub open spec fn spec_diff_run(st: DiffState, lines: Seq<Seq<u8>>) -> DiffState
    decreases lines.len(),
{
    if lines.len() == 0 {
        st
    } else {
        spec_diff_run(spec_diff_step(st, lines[0]), lines.drop_first())
    }
}

/// The entries produced by parsing a whole diff.
pub open spec fn spec_parse_diff(bytes: Seq<u8>) -> Seq<(Seq<char>, Seq<u32>)> {
    spec_diff_run(
        DiffState { entries: Seq::empty(), current: None, counter: 0 },
        spec_split_lines(bytes),
    ).entries
}

/// Parse "new" start line from a hunk header like `@@ -10,5 +20,8 @@`.
pub fn parse_hunk_header(line: &str) -> (r: Option<u32>)
    ensures
        r == spec_parse_hunk(line.spec_bytes()),
{
    let bytes = line.as_bytes();
    parse_hunk_bytes(bytes)
}

fn parse_hunk_bytes(bytes: &[u8]) -> (r: Option<u32>)
    ensures
        r == spec_parse_hunk(bytes@),
{
    let prefix: Vec<u8> = vec![64, 64, 32];
    assert(prefix@ =~= seq![64u8, 64u8, 32u8]);
    if !starts_with(bytes, prefix.as_slice()) {
        return None;
    }
    let after = slice_subrange(bytes, 3, bytes.len());
    assert(after@ =~= bytes@.skip(3));
    match split_once(after, 32) {
        None => None,
        Some((_, p1)) => {
            let part1: &[u8] = match crate::text::find_byte(p1, 32) {
                Some(j) => {
                    proof {
                        crate::text::lemma_spec_find(p1@, 32);
                    }
                    slice_subrange(p1, 0, j)
                },
                None => p1,
            };
            assert(part1@ == (match spec_find(p1@, 32) {
                Some(j) => p1@.take(j),
                None => p1@,
            }));
            if part1.len() == 0 || part1[0] != 43 {
                proof {
                    if part1@.len() > 0 {
                        assert(part1@.take(1)[0] == part1@[0]);
                    }
                }
                assert(!spec_starts_with(part1@, seq![43u8]));
                return None;
            }
            assert(spec_starts_with(part1@, seq![43u8])) by {
                assert(part1@.take(1) =~= seq![43u8]);
            }
            let digits = slice_subrange(part1, 1, part1.len());
            assert(digits@ =~= part1@.skip(1));
            let num: &[u8] = match crate::text::find_byte(digits, 44) {
                Some(k) => {
                    proof {
                        crate::text::lemma_spec_find(digits@, 44);
                    }
                    slice_subrange(digits, 0, k)
                },
                None => digits,
            };
            assert(num@ == (match spec_find(digits@, 44) {
                Some(k) => digits@.take(k),
                None => digits@,
            }));
            parse_u32(num)
        },
    }
}

/// Parse a unified diff (e.g. `git diff` output) and return, per file, the
/// new-file line numbers of its added lines.
pub fn parse_diff(diff_text: &str) -> (r: DiffLines)
    ensures
        r@ == spec_parse_diff(diff_text.spec_bytes()),
{
    let bytes = diff_text.as_bytes();
    let lines = split_lines(bytes);
    let mut entries: Vec<(String, Vec<u32>)> = Vec::new();
    let mut current: Option<String> = None;
    let mut counter: u32 = 0;
    let n = lines.len();
    let ghost all = spec_split_lines(bytes@);
    let mut i: usize = 0;
    proof {
        assert(lines.deep_view() == all);
        assert(lines@.len() == all.len()) by {
            assert(lines.deep_view().len() == lines@.len());
        }
        assert(all.skip(0) =~= all);
        assert(view_entries(&entries) =~= Seq::<(Seq<char>, Seq<u32>)>::empty());
        assert(view_current(&current) is None);
    }
    while i < n
        invariant
            n == lines@.len() == all.len(),
            0 <= i <= n,
            lines.deep_view() == all,
            spec_diff_run(DiffState { entries: Seq::empty(), current: None, counter: 0 }, all)
                == spec_diff_run(
                DiffState {
                    entries: view_entries(&entries),
                    current: view_current(&current),
                    counter,
                },
                all.skip(i as int),
            ),
        decreases n - i,
    {
        let ghost st = DiffState {
            entries: view_entries(&entries),
            current: view_current(&current),
            counter,
        };
        let line: &Vec<u8> = &lines[i];
        proof {
            assert(line@ == lines.deep_view()[i as int]);
            assert(all.skip(i as int)[0] == all[i as int]);
            assert(all.skip(i as int).drop_first() =~= all.skip(i + 1));
        }
        let header: Vec<u8> = vec![43, 43, 43, 32];
        let hunk: Vec<u8> = vec![64, 64, 32];
        proof {
            assert(header@ =~= seq![43u8, 43u8, 43u8, 32u8]);
            assert(hunk@ =~= seq![64u8, 64u8, 32u8]);
        }
        if starts_with(line.as_slice(), header.as_slice()) {
            let rest = slice_subrange(line.as_slice(), 4, line.len());
            assert(rest@ =~= line@.skip(4));
            let devnull: Vec<u8> = vec![47, 100, 101, 118, 47, 110, 117, 108, 108];
            proof {
                assert(devnull@ =~= spec_dev_null());
            }
            if bytes_eq(rest, devnull.as_slice()) {
                current = None;
            } else {
                let two_b: Vec<u8> = vec![98, 47];
                let two_a: Vec<u8> = vec![97, 47];
                proof {
                    assert(two_b@ =~= seq![98u8, 47u8]);
                    assert(two_a@ =~= seq![97u8, 47u8]);
                }
                let path: &[u8] = if starts_with(rest, two_b.as_slice()) || starts_with(
                    rest,
                    two_a.as_slice(),
                ) {
                    let p = slice_subrange(rest, 2, rest.len());
                    assert(p@ =~= rest@.skip(2));
                    p
                } else {
                    rest
                };
                assert(path@ == spec_header_path(rest@));
                // A borrowed `str` is valid UTF-8, so its fragments at these
                // ASCII cuts decode; an undecodable path closes the file.
                match decode_bytes(path) {
                    Some(s) => {
                        current = Some(s);
                    },
                    None => {
                        current = None;
                    },
                }
            }
        } else if starts_with(line.as_slice(), hunk.as_slice()) {
            match parse_hunk_bytes(line.as_slice()) {
                Some(v) => {
                    counter = v;
                },
                None => {},
            }
        } else {
            let is_body = current.is_some();
            if is_body {
                let backslash: Vec<u8> = vec![92];
                let plus: Vec<u8> = vec![43];
                let plus3: Vec<u8> = vec![43, 43, 43];
                let minus: Vec<u8> = vec![45];
                let minus3: Vec<u8> = vec![45, 45, 45];
                proof {
                    assert(backslash@ =~= seq![92u8]);
                    assert(plus@ =~= seq![43u8]);
                    assert(plus3@ =~= seq![43u8, 43u8, 43u8]);
                    assert(minus@ =~= seq![45u8]);
                    assert(minus3@ =~= seq![45u8, 45u8, 45u8]);
                }
                if starts_with(line.as_slice(), backslash.as_slice()) {
                    // Diff metadata such as a missing-newline marker.
                } else if starts_with(line.as_slice(), plus.as_slice()) && !starts_with(
                    line.as_slice(),
                    plus3.as_slice(),
                ) {
                    let file: &String = match &current {
                        Some(f) => f,
                        None => unreached(),
                    };
                    add_line(&mut entries, file, counter);
                    counter = sat_inc(counter);
                } else if starts_with(line.as_slice(), minus.as_slice()) && !starts_with(
                    line.as_slice(),
                    minus3.as_slice(),
                ) {
                    // A removed line does not advance the new-file counter.
                } else {
                    counter = sat_inc(counter);
                }
            }
        }
        proof {
            let st2 = DiffState {
                entries: view_entries(&entries),
                current: view_current(&current),
                counter,
            };
            assert(st2 == spec_diff_step(st, all[i as int]));
        }
        i += 1;
    }
    proof {
        assert(all.skip(n as int) =~= Seq::<Seq<u8>>::empty());
    }
    let r = DiffLines { entries };
    proof {
        assert(r@ == view_entries(&r.entries));
    }
    r
}

/// The mathematical image of the entry list.
pub open spec fn view_entries(entries: &Vec<(String, Vec<u32>)>) -> Seq<(Seq<char>, Seq<u32>)> {
    Seq::new(entries@.len(), |i: int| (entries@[i].0@, entries@[i].1@))
}

/// The mathematical image of the current file.
pub open spec fn view_current(current: &Option<String>) -> Option<Seq<char>> {
    match current {
        Some(s) => Some(s@),
        None => None,
    }
}

fn sat_inc(c: u32) -> (r: u32)
    ensures
        r == spec_sat_inc(c),
{
    if c == u32::MAX {
        c
    } else {
        c + 1
    }
}

/// `spec_add_line` replaces the first entry whose key matches, or appends a
/// new entry when none does.
proof fn lemma_add_line(entries: Seq<(Seq<char>, Seq<u32>)>, file: Seq<char>, n: u32, j: int)
    requires
        0 <= j <= entries.len(),
        forall|k: int| 0 <= k < j ==> (#[trigger] entries[k]).0 != file,
        j < entries.len() ==> entries[j].0 == file,
    ensures
        j < entries.len() ==> spec_add_line(entries, file, n) =~= entries.update(
            j,
            (entries[j].0, entries[j].1.push(n)),
        ),
        j == entries.len() ==> spec_add_line(entries, file, n) =~= entries.push((file, seq![n])),
    decreases entries.len(),
{
    if entries.len() == 0 {
        assert(spec_add_line(entries, file, n) =~= entries.push((file, seq![n])));
    } else if entries[0].0 == file {
        assert(j == 0);
        assert(seq![(entries[0].0, entries[0].1.push(n))] + entries.drop_first() =~= entries.update(
            0,
            (entries[0].0, entries[0].1.push(n)),
        ));
    } else {
        let rest = entries.drop_first();
        assert(forall|k: int| 0 <= k < rest.len() ==> #[trigger] rest[k] == entries[k + 1]);
        assert(j > 0);
        lemma_add_line(rest, file, n, j - 1);
        if j < entries.len() {
            assert(seq![entries[0]] + rest.update(j - 1, (entries[j].0, entries[j].1.push(n)))
                =~= entries.update(j, (entries[j].0, entries[j].1.push(n))));
        } else {
            assert(seq![entries[0]] + rest.push((file, seq![n])) =~= entries.push(
                (file, seq![n]),
            ));
        }
    }
}

/// Records `n` as an added line of `file`.
fn add_line(entries: &mut Vec<(String, Vec<u32>)>, file: &String, n: u32)
    ensures
        view_entries(final(entries)) == spec_add_line(view_entries(old(entries)), file@, n),
{
    let ghost orig = view_entries(old(entries));
    let count = entries.len();
    let mut i: usize = 0;
    while i < count
        invariant
            count == entries@.len(),
            0 <= i <= count,
            entries@ == old(entries)@,
            forall|k: int| 0 <= k < i ==> (#[trigger] orig[k]).0 != file@,
            orig == view_entries(entries),
        decreases count - i,
    {
        if str_eq(entries[i].0.as_str(), file.as_str()) {
            let mut e = entries.remove(i);
            e.1.push(n);
            entries.insert(i, e);
            proof {
                lemma_add_line(orig, file@, n, i as int);
                assert(view_entries(entries) =~= orig.update(
                    i as int,
                    (orig[i as int].0, orig[i as int].1.push(n)),
                ));
            }
            return ;
        }
        i += 1;
    }
    let mut lines: Vec<u32> = Vec::new();
    lines.push(n);
    assert(lines@ =~= seq![n]);
    entries.push((clone_string(file), lines));
    proof {
        lemma_add_line(orig, file@, n, count as int);
        assert(view_entries(entries) =~= orig.push((file@, seq![n])));
    }
}

/// A copy of the string with the same characters.
pub fn clone_string(s: &String) -> (r: String)
    ensures
        r@ == s@,
{
    s.clone()
}

/// Prepend a path prefix, trimmed of trailing slashes, to every file path
/// in a diff result.
pub fn apply_path_prefix(diff_lines: DiffLines, prefix: &str) -> (r: DiffLines)
    ensures
        r@.len() == diff_lines@.len(),
        forall|i: int|
            0 <= i < r@.len() ==> (#[trigger] r@[i]).0 == spec_trim_slashes(prefix@) + seq!['/']
                + diff_lines@[i].0 && r@[i].1 == diff_lines@[i].1,
{
    let trimmed = trim_trailing_slashes_pub(prefix);
    let mut out: Vec<(String, Vec<u32>)> = Vec::new();
    let mut remaining = diff_lines.entries;
    let ghost orig = Seq::new(remaining@.len(), |i: int| (remaining@[i].0@, remaining@[i].1@));
    let n = remaining.len();
    let mut i: usize = 0;
    while i < n
        invariant
            n == orig.len(),
            remaining@.len() == n - i,
            0 <= i <= n,
            forall|k: int|
                0 <= k < remaining@.len() ==> (#[trigger] remaining@[k]).0@ == orig[k + i].0
                    && remaining@[k].1@ == orig[k + i].1,
            out@.len() == i,
            trimmed@ == spec_trim_slashes(prefix@),
            forall|k: int|
                0 <= k < i ==> (#[trigger] out@[k]).0@ == spec_trim_slashes(prefix@) + seq!['/']
                    + orig[k].0 && out@[k].1@ == orig[k].1,
        decreases n - i,
    {
        let (path, lines) = remaining.remove(0);
        let mut key = clone_string(&trimmed);
        key.append("/");
        assert(("/")@ =~= seq!['/']) by {
            reveal_strlit("/");
        }
        key.append(path.as_str());
        proof {
            assert(key@ == spec_trim_slashes(prefix@) + seq!['/'] + orig[i as int].0);
        }
        out.push((key, lines));
        i += 1;
    }
    let r = DiffLines { entries: out };
    r
}

/// `s` with every trailing `/` removed.
pub open spec fn spec_trim_slashes(s: Seq<char>) -> Seq<char>
    decreases s.len(),
{
    if s.len() > 0 && s.last() == '/' {
        spec_trim_slashes(s.drop_last())
    } else {
        s
    }
}

/// Removes every trailing slash of `s`.
pub fn trim_trailing_slashes_pub(s: &str) -> (r: String)
    ensures
        r@ == spec_trim_slashes(s@),
{
    let n = s.unicode_len();
    let mut hi: usize = n;
    proof {
        assert(s@.take(n as int) =~= s@);
    }
    while hi > 0 && s.get_char(hi - 1) == '/'
        invariant
            n == s@.len(),
            0 <= hi <= n,
            forall|j: int| hi <= j < n ==> s@[j] == '/',
            spec_trim_slashes(s@) == spec_trim_slashes(s@.take(hi as int)),
        decreases hi,
    {
        proof {
            assert(s@.take(hi as int).drop_last() =~= s@.take(hi - 1));
        }
        hi -= 1;
    }
    let r = s.substring_char(0, hi);
    proof {
        if hi > 0 {
            assert(s@.take(hi as int).last() == s@[hi - 1]);
        }
        assert(spec_trim_slashes(s@.take(hi as int)) == s@.take(hi as int));
        assert(r@ =~= s@.take(hi as int));
    }
    r.to_owned()
}


/// Pairwise distinct file paths.
pub open spec fn unique_paths(entries: Seq<(Seq<char>, Seq<u32>)>) -> bool {
    forall|a: int, b: int|
        0 <= a < b < entries.len() ==> (#[trigger] entries[a]).0 != (#[trigger] entries[b]).0
}

/// Recording a line keeps paths pairwise distinct, and introduces no path
/// but the recorded one.
proof fn lemma_add_line_unique(entries: Seq<(Seq<char>, Seq<u32>)>, file: Seq<char>, n: u32)
    requires
        unique_paths(entries),
    ensures
        unique_paths(spec_add_line(entries, file, n)),
        forall|k: int|
            0 <= k < spec_add_line(entries, file, n).len() ==> (#[trigger] spec_add_line(
                entries,
                file,
                n,
            )[k]).0 == file || (exists|q: int|
                0 <= q < entries.len() && (#[trigger] entries[q]).0 == spec_add_line(
                    entries,
                    file,
                    n,
                )[k].0),
    decreases entries.len(),
{
    let out = spec_add_line(entries, file, n);
    if entries.len() == 0 {
    } else if entries[0].0 == file {
        assert(forall|k: int| 1 <= k < out.len() ==> #[trigger] out[k] == entries[k]);
        assert(out[0].0 == file);
        assert forall|k: int| 0 <= k < out.len() implies (#[trigger] out[k]).0 == file || (
        exists|q: int| 0 <= q < entries.len() && (#[trigger] entries[q]).0 == out[k].0) by {
            if k > 0 {
                assert(entries[k].0 == out[k].0);
            }
        }
    } else {
        let rest = entries.drop_first();
        assert(forall|k: int| 0 <= k < rest.len() ==> #[trigger] rest[k] == entries[k + 1]);
        lemma_add_line_unique(rest, file, n);
        let out2 = spec_add_line(rest, file, n);
        assert(out =~= seq![entries[0]] + out2);
        assert(forall|k: int| 0 <= k < out2.len() ==> out[k + 1] == #[trigger] out2[k]);
        assert forall|k: int| 0 <= k < out.len() implies (#[trigger] out[k]).0 == file || (
        exists|q: int| 0 <= q < entries.len() && (#[trigger] entries[q]).0 == out[k].0) by {
            if k == 0 {
                assert(entries[0].0 == out[0].0);
            } else {
                assert(out[k] == out2[k - 1]);
                if out2[k - 1].0 != file {
                    let q = choose|q: int|
                        0 <= q < rest.len() && (#[trigger] rest[q]).0 == out2[k - 1].0;
                    assert(entries[q + 1].0 == out2[k - 1].0);
                }
            }
        }
        assert forall|a: int, b: int| 0 <= a < b < out.len() implies (#[trigger] out[a]).0 != (
        #[trigger] out[b]).0 by {
            if a == 0 {
                assert(out[b] == out2[b - 1]);
                if out2[b - 1].0 == file {
                    assert(entries[0].0 != file);
                } else {
                    let q = choose|q: int|
                        0 <= q < rest.len() && (#[trigger] rest[q]).0 == out2[b - 1].0;
                    assert(entries[0].0 != entries[q + 1].0);
                }
            } else {
                assert(out[a] == out2[a - 1]);
                assert(out[b] == out2[b - 1]);
            }
        }
    }
}

/// Every state the diff parser reaches keeps file paths pairwise
/// distinct: the map a parsed diff hands out has no duplicate keys.
pub proof fn lemma_diff_run_unique(st: DiffState, lines: Seq<Seq<u8>>)
    requires
        unique_paths(st.entries),
    ensures
        unique_paths(spec_diff_run(st, lines).entries),
    decreases lines.len(),
{
    if lines.len() > 0 {
        lemma_diff_step_unique(st, lines[0]);
        lemma_diff_run_unique(spec_diff_step(st, lines[0]), lines.drop_first());
    }
}

proof fn lemma_diff_step_unique(st: DiffState, line: Seq<u8>)
    requires
        unique_paths(st.entries),
    ensures
        unique_paths(spec_diff_step(st, line).entries),
{
    let st2 = spec_diff_step(st, line);
    if st2.entries != st.entries {
        match st.current {
            Some(file) => {
                lemma_add_line_unique(st.entries, file, st.counter);
            },
            None => {},
        }
    }
}

/// The entries a parsed diff hands out have pairwise distinct paths.
pub proof fn lemma_parse_diff_unique(bytes: Seq<u8>)
    ensures
        unique_paths(spec_parse_diff(bytes)),
{
    lemma_diff_run_unique(
        DiffState { entries: Seq::empty(), current: None, counter: 0 },
        crate::text::spec_split_lines(bytes),
    );
}

} // verus!
