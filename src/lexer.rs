//! Segmentation of raw lines into log entries. A line that the entry
//! pattern matches starts an entry; the lines after it, up to the next such
//! line, continue it. Lines before the first start are dropped.
use vstd::prelude::*;
use crate::pattern::{Pattern, regex_capture, regex_matches};
use crate::text::append;
use crate::time::{parse_millis, parsed_millis};

verus! {

/// One logical log record: its lines joined by newlines, and the instant
/// read from its first line where that was asked for and succeeded.
pub struct Entry {
    pub text: String,
    pub timestamp: Option<i64>,
}

impl Clone for Entry {
    fn clone(&self) -> (r: Self)
        ensures
            r == *self,
    {
        Entry { text: self.text.clone(), timestamp: self.timestamp }
    }
}

/// The indices below `n` whose flag is set, in increasing order.
pub open spec fn starts_upto(f: Seq<bool>, n: int) -> Seq<int>
    decreases n,
{
    if n <= 0 {
        Seq::empty()
    } else {
        starts_upto(f, n - 1) + if f[n - 1] {
            seq![n - 1]
        } else {
            Seq::empty()
        }
    }
}

/// The indices of all set flags, in increasing order.
pub open spec fn start_positions(f: Seq<bool>) -> Seq<int> {
    starts_upto(f, f.len() as int)
}

/// Where group `k` ends: at the next start, or at the end of the input.
pub open spec fn group_end(st: Seq<int>, k: int, n: int) -> int {
    if k + 1 < st.len() {
        st[k + 1]
    } else {
        n
    }
}

/// Lines `a` up to `b` (exclusive) joined by newlines.
pub open spec fn joined(lines: Seq<String>, a: int, b: int) -> Seq<char>
    decreases b - a,
{
    if b <= a + 1 {
        lines[a]@
    } else {
        joined(lines, a, b - 1) + seq!['\n'] + lines[b - 1]@
    }
}

/// For each line, whether the pattern matches it.
pub open spec fn line_flags(p: Seq<char>, lines: Seq<String>) -> Seq<bool> {
    Seq::new(lines.len(), |i: int| regex_matches(p, lines[i]@))
}

/// The name of the capture group that holds an entry's timestamp.
pub open spec fn timestamp_group() -> Seq<char> {
    seq!['t', 'i', 'm', 'e', 's', 't', 'a', 'm', 'p']
}

/// The instant of an entry whose first line is `line`: the `timestamp`
/// capture of the pattern, read with the format.
pub open spec fn line_timestamp(p: Seq<char>, line: Seq<char>, format: Seq<char>) -> Option<i64> {
    match regex_capture(p, timestamp_group(), line) {
        Some(c) => parsed_millis(c.1, format),
        None => None,
    }
}

/// The instant that `segment` gives an entry, with or without a format.
pub open spec fn entry_timestamp(p: Seq<char>, line: Seq<char>, format: Option<Seq<char>>) -> Option<
    i64,
> {
    match format {
        Some(f) => line_timestamp(p, line, f),
        None => None,
    }
}

/// `r` is the segmentation of `lines` by pattern `p`: one entry per line
/// that `p` matches, holding that line and the lines after it up to the
/// next match.
pub open spec fn segmented(lines: Seq<String>, p: Seq<char>, fm: Option<Seq<char>>, r: Seq<Entry>) -> bool {
    let st = start_positions(line_flags(p, lines));
    &&& r.len() == st.len()
    &&& forall|k: int|
        0 <= k < st.len() ==> (#[trigger] r[k]).text@ == joined(lines, st[k], group_end(st, k, lines.len() as int))
            && r[k].timestamp == entry_timestamp(p, lines[st[k]]@, fm)
}

/// The texts of `e` joined by newlines.
pub open spec fn joined_texts(e: Seq<Entry>) -> Seq<char>
    decreases e.len(),
{
    if e.len() <= 1 {
        if e.len() == 0 {
            Seq::empty()
        } else {
            e[0].text@
        }
    } else {
        joined_texts(e.drop_last()) + seq!['\n'] + e.last().text@
    }
}

proof fn lemma_joined_split(lines: Seq<String>, a: int, b: int, c: int)
    requires
        0 <= a < b < c <= lines.len(),
    ensures
        joined(lines, a, c) == joined(lines, a, b) + seq!['\n'] + joined(lines, b, c),
    decreases c - b,
{
    if c > b + 1 {
        lemma_joined_split(lines, a, b, c - 1);
        assert(joined(lines, a, c) =~= joined(lines, a, b) + seq!['\n'] + joined(lines, b, c));
    }
}

/// Segmentation loses and repeats no line: the texts of the entries,
/// joined by newlines, are exactly the lines from the first one that the
/// pattern matches to the last; the lines before it match nothing and
/// produce no entry, and without any match there is no entry at all.
pub proof fn lemma_segmentation_covers(lines: Seq<String>, p: Seq<char>, fm: Option<Seq<char>>, r: Seq<Entry>)
    requires
        segmented(lines, p, fm, r),
    ensures
        r.len() == 0 ==> forall|i: int| 0 <= i < lines.len() ==> !regex_matches(p, #[trigger] lines[i]@),
        r.len() > 0 ==> {
            let first = start_positions(line_flags(p, lines))[0];
            &&& forall|i: int| 0 <= i < first ==> !regex_matches(p, #[trigger] lines[i]@)
            &&& joined_texts(r) == joined(lines, first, lines.len() as int)
        },
{
    let f = line_flags(p, lines);
    let n = lines.len() as int;
    let st = start_positions(f);
    lemma_starts(f, n);
    assert forall|i: int| 0 <= i < n && (r.len() == 0 || i < st[0]) implies !regex_matches(
        p,
        #[trigger] lines[i]@,
    ) by {
        if regex_matches(p, lines[i]@) {
            assert(f[i]);
            let k = choose|k: int| 0 <= k < st.len() && st[k] == i;
            if k > 0 {
                assert(st[0] < st[k]);
            }
        }
    }
    if r.len() > 0 {
        lemma_texts_prefix(lines, p, fm, r, r.len() as int);
        assert(r.take(r.len() as int) =~= r);
    }
}

proof fn lemma_texts_prefix(lines: Seq<String>, p: Seq<char>, fm: Option<Seq<char>>, r: Seq<Entry>, m: int)
    requires
        segmented(lines, p, fm, r),
        1 <= m <= r.len(),
    ensures
        ({
            let st = start_positions(line_flags(p, lines));
            joined_texts(r.take(m)) == joined(lines, st[0], group_end(st, m - 1, lines.len() as int))
        }),
    decreases m,
{
    let f = line_flags(p, lines);
    let n = lines.len() as int;
    let st = start_positions(f);
    lemma_starts(f, n);
    if m == 1 {
        assert(r.take(1) =~= seq![r[0]]);
    } else {
        lemma_texts_prefix(lines, p, fm, r, m - 1);
        assert(st[0] < st[m - 1]);
        lemma_joined_split(lines, st[0], st[m - 1], group_end(st, m - 1, n));
        assert(r.take(m).drop_last() =~= r.take(m - 1));
        assert(r[m - 1].text@ == joined(lines, st[m - 1], group_end(st, m - 1, n)));
    }
}

proof fn lemma_starts(f: Seq<bool>, n: int)
    requires
        0 <= n <= f.len(),
    ensures
        forall|k: int| 0 <= k < starts_upto(f, n).len() ==> 0 <= #[trigger] starts_upto(f, n)[k] < n
            && f[starts_upto(f, n)[k]],
        forall|k1: int, k2: int|
            0 <= k1 < k2 < starts_upto(f, n).len() ==> starts_upto(f, n)[k1] < starts_upto(f, n)[k2],
        forall|i: int| 0 <= i < n && f[i] ==> exists|k: int| 0 <= k < starts_upto(f, n).len() && starts_upto(f, n)[k] == i,
    decreases n,
{
    if n > 0 {
        lemma_starts(f, n - 1);
        let prev = starts_upto(f, n - 1);
        let cur = starts_upto(f, n);
        assert forall|i: int| 0 <= i < n && f[i] implies exists|k: int| 0 <= k < cur.len() && cur[k] == i by {
            if i == n - 1 {
                assert(cur[cur.len() - 1] == i);
            } else {
                let k = choose|k: int| 0 <= k < prev.len() && prev[k] == i;
                assert(cur[k] == i);
            }
        }
    }
}

/// The indices of the set flags, in increasing order.
pub fn start_indices(flags: &Vec<bool>) -> (r: Vec<usize>)
    ensures
        r@.len() == start_positions(flags@).len(),
        forall|k: int| 0 <= k < r@.len() ==> r@[k] == start_positions(flags@)[k],
{
    let mut r: Vec<usize> = Vec::new();
    let mut i: usize = 0;
    while i < flags.len()
        invariant
            i <= flags@.len(),
            r@.len() == starts_upto(flags@, i as int).len(),
            forall|k: int| 0 <= k < r@.len() ==> r@[k] == starts_upto(flags@, i as int)[k],
        decreases flags.len() - i,
    {
        if flags[i] {
            r.push(i);
        }
        i = i + 1;
    }
    r
}

/// Lines `a` up to `b` (exclusive) joined by newlines.
pub fn join_lines(lines: &Vec<String>, a: usize, b: usize) -> (r: String)
    requires
        a < b <= lines@.len(),
    ensures
        r@ == joined(lines@, a as int, b as int),
{
    let mut s = lines[a].clone();
    let mut j: usize = a + 1;
    while j < b
        invariant
            a < j <= b <= lines@.len(),
            s@ == joined(lines@, a as int, j as int),
        decreases b - j,
    {
        append(&mut s, "\n");
        append(&mut s, lines[j].as_str());
        proof {
            reveal_strlit("\n");
            assert("\n"@ =~= seq!['\n']);
        }
        j = j + 1;
    }
    s
}

/// Reads the instant of an entry from its first line: the text of the
/// pattern's `timestamp` group, parsed with `format`. `None` where the
/// group is absent or does not parse.
pub fn extract_timestamp(pattern: &Pattern, line: &str, format: &str) -> (r: Option<i64>)
    ensures
        r == line_timestamp(pattern@, line@, format@),
{
    proof {
        reveal_strlit("timestamp");
        assert(timestamp_group() =~= "timestamp"@);
    }
    match pattern.capture("timestamp", line) {
        Some(c) => parse_millis(c.1.as_str(), format),
        None => None,
    }
}

/// Splits `lines` into entries. Entry `k` holds the lines from the `k`-th
/// line that `pattern` matches up to the next one, and carries the instant
/// of its first line where `format` is given.
pub fn segment(lines: &Vec<String>, pattern: &Pattern, format: Option<&str>) -> (r: Vec<Entry>)
    ensures
        segmented(
            lines@,
            pattern@,
            match format {
                Some(f) => Some(f@),
                None => None,
            },
            r@,
        ),
{
    let ghost f = line_flags(pattern@, lines@);
    let ghost st = start_positions(f);
    let ghost fm = match format {
        Some(f) => Some(f@),
        None => None,
    };
    let n = lines.len();
    let mut flags: Vec<bool> = Vec::new();
    let mut i: usize = 0;
    while i < n
        invariant
            i <= n == lines@.len(),
            f == line_flags(pattern@, lines@),
            flags@ == f.take(i as int),
        decreases n - i,
    {
        let m = pattern.is_match(lines[i].as_str());
        assert(m == f[i as int]);
        flags.push(m);
        proof {
            assert(flags@ =~= f.take(i + 1));
        }
        i = i + 1;
    }
    proof {
        assert(flags@ =~= f);
        lemma_starts(f, n as int);
    }
    let starts = start_indices(&flags);
    let mut out: Vec<Entry> = Vec::new();
    let mut k: usize = 0;
    while k < starts.len()
        invariant
            n == lines@.len(),
            f == line_flags(pattern@, lines@),
            st == starts_upto(f, n as int),
            fm == match format {
                Some(f) => Some(f@),
                None => None,
            },
            starts@.len() == st.len(),
            forall|m: int| 0 <= m < starts@.len() ==> starts@[m] == st[m],
            forall|m: int| 0 <= m < st.len() ==> 0 <= #[trigger] st[m] < n,
            forall|m1: int, m2: int| 0 <= m1 < m2 < st.len() ==> st[m1] < st[m2],
            k <= starts@.len(),
            out@.len() == k,
            forall|m: int|
                0 <= m < k ==> (#[trigger] out@[m]).text@ == joined(
                    lines@,
                    st[m],
                    group_end(st, m, n as int),
                ) && out@[m].timestamp == entry_timestamp(pattern@, lines@[st[m]]@, fm),
        decreases starts.len() - k,
    {
        assert(st[k as int] < group_end(st, k as int, n as int));
        let a = starts[k];
        let b = if k + 1 < starts.len() {
            starts[k + 1]
        } else {
            n
        };
        let text = join_lines(lines, a, b);
        let timestamp = match format {
            Some(fmt) => extract_timestamp(pattern, lines[a].as_str(), fmt),
            None => None,
        };
        out.push(Entry { text, timestamp });
        k = k + 1;
    }
    out
}

/// The text of an optional string.
pub open spec fn opt_view(s: Option<String>) -> Option<Seq<char>> {
    match s {
        Some(t) => Some(t@),
        None => None,
    }
}

/// Segmentation one line at a time: the entry being read, if one has
/// started.
pub struct Segmenter {
    pub pending: Option<String>,
}

impl Segmenter {
    /// A segmenter before the first line.
    pub fn new() -> (r: Segmenter)
        ensures
            r.pending is None,
    {
        Segmenter { pending: None }
    }

    /// Feeds the next line, which starts an entry when `is_start` holds;
    /// returns the entry that this line completes. A line that continues
    /// no entry is dropped.
    pub fn push_line(&mut self, line: &str, is_start: bool) -> (r: Option<String>)
        ensures
            is_start ==> opt_view(r) == opt_view(old(self).pending) && opt_view(final(self).pending) == Some(
                line@,
            ),
            !is_start ==> r is None && opt_view(final(self).pending) == match opt_view(old(self).pending) {
                Some(p) => Some(p + seq!['\n'] + line@),
                None => None,
            },
    {
        if is_start {
            let done = self.pending.take();
            self.pending = Some(line.to_owned());
            done
        } else {
            match self.pending.take() {
                Some(mut p) => {
                    append(&mut p, "\n");
                    append(&mut p, line);
                    proof {
                        reveal_strlit("\n");
                        assert("\n"@ =~= seq!['\n']);
                    }
                    self.pending = Some(p);
                    None
                },
                None => None,
            }
        }
    }

    /// Feeds the next line, which starts an entry when `pattern` matches
    /// it; returns the entry that this line completes.
    pub fn push_matched(&mut self, pattern: &Pattern, line: &str) -> (r: Option<String>)
        ensures
            regex_matches(pattern@, line@) ==> opt_view(r) == opt_view(old(self).pending) && opt_view(
                final(self).pending,
            ) == Some(line@),
            !regex_matches(pattern@, line@) ==> r is None && opt_view(final(self).pending) == match opt_view(
                old(self).pending,
            ) {
                Some(p) => Some(p + seq!['\n'] + line@),
                None => None,
            },
    {
        let start = pattern.is_match(line);
        self.push_line(line, start)
    }

    /// Ends the input: returns the entry being read, if any.
    pub fn finish(&mut self) -> (r: Option<String>)
        ensures
            opt_view(r) == opt_view(old(self).pending),
            final(self).pending is None,
    {
        self.pending.take()
    }
}

} // verus!

