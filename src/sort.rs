//! Sorting a stream of entries by timestamp within a memory budget: the
//! stream is cut into runs whose byte size stays within the budget, each
//! run is sorted on its own, and the sorted runs are merged.
use vstd::prelude::*;
use crate::lexer::Entry;
use crate::merge::{
    appears, is_merge, key_le, key_of, key_view, lemma_merge_ordered, lemma_merge_total, lengths,
    merge_order, sources_sorted, sum, total, valid_pos,
};

verus! {

/// Index `x` occurs in `r`.
pub open spec fn lists(r: Seq<usize>, x: int) -> bool {
    exists|m: int| 0 <= m < r.len() && r[m] == x
}

/// `r` lists the indices `lo` up to `hi` of `keys` once each, in an order
/// that is non-decreasing by key.
pub open spec fn sorts(keys: Seq<Option<i64>>, lo: int, hi: int, r: Seq<usize>) -> bool {
    &&& r.len() == hi - lo
    &&& forall|x: int| lo <= x < hi ==> #[trigger] lists(r, x)
    &&& forall|m: int| 0 <= m < r.len() ==> lo <= #[trigger] r[m] < hi
    &&& forall|m1: int, m2: int| #![trigger r[m1], r[m2]] 0 <= m1 < m2 < r.len() ==> r[m1] != r[m2]
    &&& forall|m1: int, m2: int|
        #![trigger r[m1], r[m2]]
        0 <= m1 < m2 < r.len() ==> key_le(keys[r[m1] as int], keys[r[m2] as int])
}

/// Sorts the entries `lo` up to `hi` of `keys` in memory; entries with
/// equal keys keep their order.
pub fn sort_run(keys: &Vec<Option<i64>>, lo: usize, hi: usize) -> (r: Vec<usize>)
    requires
        lo <= hi <= keys@.len(),
    ensures
        sorts(keys@, lo as int, hi as int, r@),
{
    let mut singles: Vec<Vec<Option<i64>>> = Vec::new();
    let mut j: usize = lo;
    while j < hi
        invariant
            lo <= j <= hi <= keys@.len(),
            singles@.len() == j - lo,
            forall|t: int| 0 <= t < j - lo ==> (#[trigger] singles@[t])@ == seq![keys@[lo + t]],
        decreases hi - j,
    {
        let mut one: Vec<Option<i64>> = Vec::new();
        one.push(keys[j]);
        singles.push(one);
        j = j + 1;
    }
    let ghost s = key_view(singles@);
    proof {
        assert(lengths(s) =~= Seq::new((hi - lo) as nat, |t: int| 1int));
        lemma_sum_ones((hi - lo) as int);
        assert(sources_sorted(s));
    }
    let picks = merge_order(&singles);
    proof {
        lemma_merge_total(s, picks@);
        lemma_merge_ordered(s, picks@);
    }
    let mut r: Vec<usize> = Vec::new();
    let mut m: usize = 0;
    while m < picks.len()
        invariant
            m <= picks@.len() == hi - lo,
            s == key_view(singles@),
            s.len() == hi - lo,
            is_merge(s, picks@),
            forall|t: int| 0 <= t < hi - lo ==> (#[trigger] s[t]) == seq![keys@[lo + t]],
            r@.len() == m,
            forall|t: int| 0 <= t < m ==> #[trigger] r@[t] == lo + picks@[t].0,
        decreases picks.len() - m,
    {
        assert(valid_pos(s, picks@[m as int]));
        r.push(lo + picks[m].0);
        m = m + 1;
    }
    proof {
        assert forall|m1: int, m2: int| #![trigger r@[m1], r@[m2]] 0 <= m1 < m2 < r@.len() implies r@[m1]
            != r@[m2] && key_le(keys@[r@[m1] as int], keys@[r@[m2] as int]) by {
            assert(valid_pos(s, picks@[m1]) && valid_pos(s, picks@[m2]));
            assert(picks@[m1] != picks@[m2]);
            assert(key_of(s, picks@[m1].0 as int, picks@[m1].1 as int) == keys@[r@[m1] as int]);
            assert(key_of(s, picks@[m2].0 as int, picks@[m2].1 as int) == keys@[r@[m2] as int]);
        }
        assert forall|t: int| 0 <= t < r@.len() implies lo <= #[trigger] r@[t] < hi by {
            assert(valid_pos(s, picks@[t]));
        }
        assert forall|x: int| lo <= x < hi implies #[trigger] lists(r@, x) by {
            assert(s[x - lo].len() == 1);
            assert(appears(picks@, x - lo, 0));
            let k = choose|k: int| 0 <= k < picks@.len() && picks@[k] == ((x - lo) as usize, 0usize);
            assert(r@[k] == x);
        }
    }
    r
}

proof fn lemma_sum_ones(n: int)
    requires
        n >= 0,
    ensures
        sum(Seq::new(n as nat, |t: int| 1int)) == n,
    decreases n,
{
    if n > 0 {
        assert(Seq::new(n as nat, |t: int| 1int).drop_last() =~= Seq::new((n - 1) as nat, |t: int| 1int));
        lemma_sum_ones(n - 1);
    }
}

/// The bytes of entries `a` up to `b` (exclusive).
pub open spec fn run_bytes(sizes: Seq<u64>, a: int, b: int) -> int
    decreases b - a,
{
    if b <= a {
        0
    } else {
        run_bytes(sizes, a, b - 1) + sizes[b - 1]
    }
}

/// Where run `k` ends: at the start of the next run, or at the end.
pub open spec fn run_end(st: Seq<usize>, k: int, n: int) -> int {
    if k + 1 < st.len() {
        st[k + 1] as int
    } else {
        n
    }
}

/// `st` lists the first entry of each run of the entries with sizes
/// `sizes`: an entry joins the current run unless the run's bytes would
/// then exceed `budget`, and then it starts the next run. A run holds at
/// least one entry, so an entry larger than the budget is a run of its own.
pub open spec fn plans_runs(sizes: Seq<u64>, budget: int, st: Seq<usize>) -> bool {
    let n = sizes.len() as int;
    &&& (n == 0) == (st.len() == 0)
    &&& st.len() > 0 ==> st[0] == 0
    &&& forall|k: int| 0 <= k < st.len() ==> st[k] < #[trigger] run_end(st, k, n)
    &&& forall|k: int|
        0 <= k < st.len() ==> run_bytes(sizes, st[k] as int, #[trigger] run_end(st, k, n)) <= budget
            || run_end(st, k, n) == st[k] + 1
    &&& forall|k: int|
        0 <= k < st.len() - 1 ==> #[trigger] run_bytes(sizes, st[k] as int, st[k + 1] + 1) > budget
}

/// Cuts entries of the given byte sizes into runs within `budget`.
pub fn plan_runs(sizes: &Vec<u64>, budget: u64) -> (r: Vec<usize>)
    ensures
        plans_runs(sizes@, budget as int, r@),
{
    let n = sizes.len();
    let mut st: Vec<usize> = Vec::new();
    let mut acc: u64 = 0;
    let mut i: usize = 0;
    while i < n
        invariant
            i <= n == sizes@.len(),
            (i == 0) == (st@.len() == 0),
            st@.len() > 0 ==> st@[0] == 0,
            st@.len() > 0 ==> st@.last() < i && acc == run_bytes(sizes@, st@.last() as int, i as int) && (
            acc <= budget || i == st@.last() + 1),
            forall|k: int| 0 <= k < st@.len() - 1 ==> st@[k] < #[trigger] run_end(st@, k, n as int),
            forall|k: int|
                0 <= k < st@.len() - 1 ==> run_bytes(sizes@, st@[k] as int, #[trigger] run_end(st@, k, n as int))
                    <= budget || st@[k + 1] == st@[k] + 1,
            forall|k: int|
                0 <= k < st@.len() - 1 ==> #[trigger] run_bytes(sizes@, st@[k] as int, st@[k + 1] + 1)
                    > budget,
        decreases n - i,
    {
        let sz = sizes[i];
        if i == 0 || acc > budget || sz > budget - acc {
            proof {
                assert(run_bytes(sizes@, i as int, i as int) == 0);
                assert(run_bytes(sizes@, i as int, i + 1) == sz);
            }
            let ghost old_st = st@;
            st.push(i);
            proof {
                assert forall|k: int| 0 <= k < st@.len() - 1 implies st@[k] < #[trigger] run_end(st@, k, n as int)
                    && (run_bytes(sizes@, st@[k] as int, run_end(st@, k, n as int)) <= budget || st@[k + 1]
                    == st@[k] + 1) by {
                    if k < old_st.len() - 1 {
                        assert(run_end(old_st, k, n as int) == run_end(st@, k, n as int));
                    }
                }
            }
            acc = sz;
        } else {
            acc = acc + sz;
        }
        i = i + 1;
    }
    proof {
        let s = st@;
        assert forall|k: int| 0 <= k < s.len() implies s[k] < #[trigger] run_end(s, k, n as int) by {}
        assert forall|k: int| 0 <= k < s.len() implies run_bytes(sizes@, s[k] as int, #[trigger] run_end(s, k, n as int))
            <= budget || run_end(s, k, n as int) == s[k] + 1 by {}
    }
    st
}

/// Runs follow one another: a run ends at or before the start of every
/// later run.
proof fn lemma_runs_disjoint(sizes: Seq<u64>, budget: int, st: Seq<usize>, a1: int, a2: int)
    requires
        plans_runs(sizes, budget, st),
        0 <= a1 < a2 < st.len(),
    ensures
        run_end(st, a1, sizes.len() as int) <= st[a2],
    decreases a2 - a1,
{
    if a1 + 1 < a2 {
        lemma_runs_disjoint(sizes, budget, st, a1 + 1, a2);
        assert(st[a1 + 1] < run_end(st, a1 + 1, sizes.len() as int));
    }
}

/// Every entry lies in some run.
proof fn lemma_find_run(sizes: Seq<u64>, budget: int, st: Seq<usize>, x: int, a: int)
    requires
        plans_runs(sizes, budget, st),
        0 <= a < st.len(),
        st[a] <= x < sizes.len(),
    ensures
        exists|b: int| 0 <= b < st.len() && st[b] <= x < #[trigger] run_end(st, b, sizes.len() as int),
    decreases st.len() - a,
{
    if x >= run_end(st, a, sizes.len() as int) {
        lemma_find_run(sizes, budget, st, x, a + 1);
    }
}

proof fn lemma_run_end_bounded(sizes: Seq<u64>, budget: int, st: Seq<usize>, a: int)
    requires
        plans_runs(sizes, budget, st),
        0 <= a < st.len(),
    ensures
        run_end(st, a, sizes.len() as int) <= sizes.len(),
{
    let last = st.len() - 1;
    if a < last {
        lemma_runs_disjoint(sizes, budget, st, a, last);
        assert(st[last] < run_end(st, last, sizes.len() as int));
    }
}

/// The start of run `k`, or the end of the entries past the last run.
spec fn run_start(st: Seq<usize>, k: int, n: int) -> int {
    if k < st.len() {
        st[k] as int
    } else {
        n
    }
}

/// The keys of the entries `ro` lists, in that order.
fn gather(keys: &Vec<Option<i64>>, ro: &Vec<usize>) -> (r: Vec<Option<i64>>)
    requires
        forall|j: int| 0 <= j < ro@.len() ==> #[trigger] ro@[j] < keys@.len(),
    ensures
        r@ == Seq::new(ro@.len(), |j: int| keys@[ro@[j] as int]),
{
    let mut rk: Vec<Option<i64>> = Vec::new();
    let mut j: usize = 0;
    while j < ro.len()
        invariant
            j <= ro@.len(),
            forall|t: int| 0 <= t < ro@.len() ==> #[trigger] ro@[t] < keys@.len(),
            rk@ == Seq::new(j as nat, |t: int| keys@[ro@[t] as int]),
        decreases ro.len() - j,
    {
        rk.push(keys[ro[j]]);
        proof {
            assert(rk@ =~= Seq::new((j + 1) as nat, |t: int| keys@[ro@[t] as int]));
        }
        j = j + 1;
    }
    rk
}

/// Sorts each run on its own: the order of each run, and the keys of the
/// run in that order.
fn sort_runs(keys: &Vec<Option<i64>>, sizes: &Vec<u64>, budget: u64, st: &Vec<usize>) -> (r: (
    Vec<Vec<usize>>,
    Vec<Vec<Option<i64>>>,
))
    requires
        keys@.len() == sizes@.len(),
        plans_runs(sizes@, budget as int, st@),
    ensures
        r.0@.len() == st@.len(),
        r.1@.len() == st@.len(),
        forall|t: int|
            0 <= t < st@.len() ==> sorts(keys@, st@[t] as int, run_end(st@, t, keys@.len() as int), #[trigger] r.0@[t]@),
        forall|t: int|
            0 <= t < st@.len() ==> (#[trigger] r.1@[t])@ == Seq::new(
                r.0@[t]@.len(),
                |j: int| keys@[r.0@[t]@[j] as int],
            ),
        total(key_view(r.1@)) == keys@.len(),
{
    let n = keys.len();
    let nr = st.len();
    let mut orders: Vec<Vec<usize>> = Vec::new();
    let mut runs: Vec<Vec<Option<i64>>> = Vec::new();
    let mut k: usize = 0;
    proof {
        assert(lengths(key_view(runs@)) =~= Seq::<int>::empty());
    }
    while k < nr
        invariant
            n == keys@.len() == sizes@.len(),
            nr == st@.len(),
            plans_runs(sizes@, budget as int, st@),
            k <= nr,
            orders@.len() == k,
            runs@.len() == k,
            forall|t: int|
                0 <= t < k ==> sorts(keys@, st@[t] as int, run_end(st@, t, n as int), #[trigger] orders@[t]@),
            forall|t: int|
                0 <= t < k ==> (#[trigger] runs@[t])@ == Seq::new(
                    orders@[t]@.len(),
                    |j: int| keys@[orders@[t]@[j] as int],
                ),
            total(key_view(runs@)) == run_start(st@, k as int, n as int),
        decreases nr - k,
    {
        let lo = st[k];
        let hi = if k + 1 < nr {
            st[k + 1]
        } else {
            n
        };
        assert(st@[k as int] < run_end(st@, k as int, n as int));
        proof {
            lemma_run_end_bounded(sizes@, budget as int, st@, k as int);
        }
        let ro = sort_run(keys, lo, hi);
        let rk = gather(keys, &ro);
        let ghost prev = runs@;
        orders.push(ro);
        runs.push(rk);
        proof {
            assert(lengths(key_view(runs@)).drop_last() =~= lengths(key_view(prev)));
            if k + 1 < nr {
                assert(run_start(st@, k + 1, n as int) == hi);
            }
        }
        k = k + 1;
    }
    (orders, runs)
}

/// Sorts entries by key within a memory budget: the entries, with the
/// given byte sizes, are cut into runs by `plan_runs`, each run is sorted,
/// and the runs are merged. The result lists every index once, in an order
/// that is non-decreasing by key.
pub fn sort_order(keys: &Vec<Option<i64>>, sizes: &Vec<u64>, budget: u64) -> (r: Vec<usize>)
    requires
        keys@.len() == sizes@.len(),
    ensures
        sorts(keys@, 0, keys@.len() as int, r@),
{
    let n = keys.len();
    let st = plan_runs(sizes, budget);
    let (orders, runs) = sort_runs(keys, sizes, budget, &st);
    let ghost s = key_view(runs@);
    proof {
        assert forall|i: int, j1: int, j2: int| 0 <= i < s.len() && 0 <= j1 <= j2 < s[i].len() implies key_le(
            #[trigger] key_of(s, i, j1),
            #[trigger] key_of(s, i, j2),
        ) by {
            let o = orders@[i]@;
            assert(sorts(keys@, st@[i] as int, run_end(st@, i, n as int), o));
            if j1 < j2 {
                assert(key_le(keys@[o[j1] as int], keys@[o[j2] as int]));
            }
        }
    }
    let picks = merge_order(&runs);
    proof {
        lemma_merge_total(s, picks@);
        lemma_merge_ordered(s, picks@);
    }
    let mut out: Vec<usize> = Vec::new();
    let mut m: usize = 0;
    while m < picks.len()
        invariant
            m <= picks@.len(),
            s == key_view(runs@),
            is_merge(s, picks@),
            orders@.len() == runs@.len() == s.len(),
            forall|t: int| 0 <= t < s.len() ==> (#[trigger] runs@[t])@.len() == orders@[t]@.len(),
            out@.len() == m,
            forall|t: int|
                0 <= t < m ==> #[trigger] out@[t] == orders@[picks@[t].0 as int]@[picks@[t].1 as int],
        decreases picks.len() - m,
    {
        let (a, b) = picks[m];
        assert(valid_pos(s, picks@[m as int]));
        out.push(orders[a][b]);
        m = m + 1;
    }
    proof {
        assert(st@.len() == st.len());
        lemma_sorted_result(keys@, sizes@, budget as int, st@, orders@, s, picks@, out@);
    }
    out
}

proof fn lemma_sorted_result(
    keys: Seq<Option<i64>>,
    sizes: Seq<u64>,
    budget: int,
    st: Seq<usize>,
    orders: Seq<Vec<usize>>,
    s: Seq<Seq<Option<i64>>>,
    picks: Seq<(usize, usize)>,
    out: Seq<usize>,
)
    requires
        keys.len() == sizes.len() <= usize::MAX,
        st.len() <= usize::MAX,
        plans_runs(sizes, budget, st),
        orders.len() == st.len() == s.len(),
        forall|t: int|
            0 <= t < st.len() ==> sorts(keys, st[t] as int, run_end(st, t, keys.len() as int), #[trigger] orders[t]@),
        forall|t: int|
            0 <= t < st.len() ==> #[trigger] s[t] == Seq::new(orders[t]@.len(), |j: int| keys[orders[t]@[j] as int]),
        total(s) == keys.len(),
        is_merge(s, picks),
        sources_sorted(s),
        out.len() == picks.len(),
        forall|t: int| 0 <= t < out.len() ==> #[trigger] out[t] == orders[picks[t].0 as int]@[picks[t].1 as int],
    ensures
        sorts(keys, 0, keys.len() as int, out),
{
    let n = keys.len() as int;
    lemma_merge_total(s, picks);
    lemma_merge_ordered(s, picks);
    assert forall|x: int| 0 <= x < n implies #[trigger] lists(out, x) by {
        lemma_find_run(sizes, budget, st, x, 0);
        let a = choose|a: int| 0 <= a < st.len() && st[a] <= x < #[trigger] run_end(st, a, n);
        let o = orders[a]@;
        assert(sorts(keys, st[a] as int, run_end(st, a, n), o));
        assert(lists(o, x));
        let b = choose|b: int| 0 <= b < o.len() && o[b] == x;
        assert(s[a].len() == o.len());
        lemma_run_end_bounded(sizes, budget, st, a);
        assert(b < o.len() <= n);
        assert(appears(picks, a, b));
        let k = choose|k: int| 0 <= k < picks.len() && picks[k] == (a as usize, b as usize);
        assert(out[k] == x);
    }
    assert forall|t: int| 0 <= t < out.len() implies 0 <= #[trigger] out[t] < n by {
        let (a, b) = picks[t];
        assert(valid_pos(s, picks[t]));
        assert(sorts(keys, st[a as int] as int, run_end(st, a as int, n), orders[a as int]@));
        lemma_run_end_bounded(sizes, budget, st, a as int);
    }
    assert forall|m1: int, m2: int| #![trigger out[m1], out[m2]] 0 <= m1 < m2 < out.len() implies out[m1]
        != out[m2] && key_le(keys[out[m1] as int], keys[out[m2] as int]) by {
        let (a1, b1) = picks[m1];
        let (a2, b2) = picks[m2];
        assert(valid_pos(s, picks[m1]) && valid_pos(s, picks[m2]));
        assert(picks[m1] != picks[m2]);
        let o1 = orders[a1 as int]@;
        let o2 = orders[a2 as int]@;
        assert(sorts(keys, st[a1 as int] as int, run_end(st, a1 as int, n), o1));
        assert(sorts(keys, st[a2 as int] as int, run_end(st, a2 as int, n), o2));
        assert(s[a1 as int] == Seq::new(o1.len(), |j: int| keys[o1[j] as int]));
        assert(s[a2 as int] == Seq::new(o2.len(), |j: int| keys[o2[j] as int]));
        assert(key_of(s, a1 as int, b1 as int) == keys[out[m1] as int]);
        assert(key_of(s, a2 as int, b2 as int) == keys[out[m2] as int]);
        if a1 == a2 {
            if b1 < b2 {
                assert(o1[b1 as int] != o1[b2 as int]);
            } else {
                assert(o1[b2 as int] != o1[b1 as int]);
            }
        } else if a1 < a2 {
            lemma_runs_disjoint(sizes, budget, st, a1 as int, a2 as int);
            assert(o1[b1 as int] < o2[b2 as int]);
        } else {
            lemma_runs_disjoint(sizes, budget, st, a2 as int, a1 as int);
            assert(o2[b2 as int] < o1[b1 as int]);
        }
    }
}

/// The timestamps of a sequence of entries.
pub open spec fn entry_keys(e: Seq<Entry>) -> Seq<Option<i64>> {
    Seq::new(e.len(), |i: int| e[i].timestamp)
}

/// `r` holds the entries of `e`, each once, in the order `perm`.
pub open spec fn permuted(e: Seq<Entry>, perm: Seq<usize>, r: Seq<Entry>) -> bool {
    &&& r.len() == perm.len()
    &&& forall|m: int| 0 <= m < r.len() ==> #[trigger] r[m] == e[perm[m] as int]
}

/// `r` holds the entries of `e`, each once, ordered by timestamp.
pub open spec fn sorted_version(e: Seq<Entry>, r: Seq<Entry>) -> bool {
    exists|perm: Seq<usize>| sorts(entry_keys(e), 0, e.len() as int, perm) && permuted(e, perm, r)
}

/// Sorts entries by timestamp, holding at most about `budget` bytes of
/// entry text in one run: every entry once, timestamps non-decreasing,
/// entries without a timestamp first. A budget below the size of one entry
/// gives a run per entry; one above the whole input gives a single run.
pub fn sort_entries(entries: &Vec<Entry>, budget: u64) -> (r: Vec<Entry>)
    ensures
        sorted_version(entries@, r@),
{
    let n = entries.len();
    let mut keys: Vec<Option<i64>> = Vec::new();
    let mut sizes: Vec<u64> = Vec::new();
    let mut i: usize = 0;
    while i < n
        invariant
            i <= n == entries@.len(),
            keys@ == entry_keys(entries@).take(i as int),
            sizes@.len() == i,
        decreases n - i,
    {
        keys.push(entries[i].timestamp);
        sizes.push(entries[i].text.as_str().len() as u64);
        proof {
            assert(keys@ =~= entry_keys(entries@).take(i + 1));
        }
        i = i + 1;
    }
    proof {
        assert(keys@ =~= entry_keys(entries@));
    }
    let order = sort_order(&keys, &sizes, budget);
    let mut out: Vec<Entry> = Vec::new();
    let mut m: usize = 0;
    while m < order.len()
        invariant
            m <= order@.len(),
            sorts(entry_keys(entries@), 0, entries@.len() as int, order@),
            out@.len() == m,
            forall|t: int| 0 <= t < m ==> #[trigger] out@[t] == entries@[order@[t] as int],
        decreases order.len() - m,
    {
        assert(order@[m as int] < entries@.len());
        out.push(entries[order[m]].clone());
        m = m + 1;
    }
    proof {
        assert(permuted(entries@, order@, out@));
    }
    out
}

/// The bytes of an entry's text in UTF-8, the measure of the budget, as
/// `str::len` gives it.
pub open spec fn text_size(e: Entry) -> int {
    (vstd::utf8::encode_utf8(e.text@).len() as usize) as int
}

/// The bytes of the texts of `e`.
pub open spec fn batch_size(e: Seq<Entry>) -> int
    decreases e.len(),
{
    if e.len() == 0 {
        0
    } else {
        batch_size(e.drop_last()) + text_size(e.last())
    }
}

/// The first phase of a bounded-memory sort, one entry at a time: entries
/// gather in a batch until the next one would take the batch's bytes over
/// the budget; the batch then leaves sorted, as a run to be stored, and
/// the entry starts the next batch.
pub struct RunBuilder {
    budget: u64,
    bytes: u64,
    batch: Vec<Entry>,
}

impl RunBuilder {
    /// The budget in bytes.
    pub closed spec fn budget(&self) -> int {
        self.budget as int
    }

    /// The entries of the current batch, in arrival order.
    pub closed spec fn batch(&self) -> Seq<Entry> {
        self.batch@
    }

    /// The bytes of the current batch fit the budget, unless it holds a
    /// single entry.
    pub closed spec fn wf(&self) -> bool {
        &&& self.bytes == batch_size(self.batch@)
        &&& self.bytes <= self.budget || self.batch@.len() == 1
    }

    /// An empty builder with the given budget.
    pub fn new(budget: u64) -> (r: RunBuilder)
        ensures
            r.wf(),
            r.budget() == budget,
            r.batch() == Seq::<Entry>::empty(),
    {
        RunBuilder { budget, bytes: 0, batch: Vec::new() }
    }

    /// Adds an entry; returns the finished run, sorted, when the entry
    /// does not fit the current batch.
    pub fn push(&mut self, e: Entry) -> (r: Option<Vec<Entry>>)
        requires
            old(self).wf(),
        ensures
            final(self).wf(),
            final(self).budget() == old(self).budget(),
            ({
                let b = old(self).batch();
                if b.len() > 0 && batch_size(b) + text_size(e) > old(self).budget() {
                    &&& r is Some
                    &&& sorted_version(b, r->Some_0@)
                    &&& final(self).batch() == seq![e]
                } else {
                    &&& r is None
                    &&& final(self).batch() == b.push(e)
                }
            }),
    {
        let t = e.text.as_str();
        let l = t.len();
        assert(l == text_size(e));
        let size = l as u64;
        proof {
            assert(batch_size(seq![e]) == text_size(e)) by {
                assert(seq![e].drop_last() =~= Seq::<Entry>::empty());
                assert(batch_size(Seq::<Entry>::empty()) == 0);
            }
            assert(self.batch@.push(e).drop_last() =~= self.batch@);
        }
        if self.batch.len() > 0 && (self.bytes > self.budget || size > self.budget - self.bytes) {
            let run = sort_entries(&self.batch, u64::MAX);
            let mut fresh: Vec<Entry> = Vec::new();
            fresh.push(e);
            self.batch = fresh;
            self.bytes = size;
            Some(run)
        } else {
            self.batch.push(e);
            self.bytes = self.bytes + size;
            None
        }
    }

    /// Ends the input: returns the last run, sorted, if any entry is left.
    pub fn finish(&mut self) -> (r: Option<Vec<Entry>>)
        requires
            old(self).wf(),
        ensures
            final(self).wf(),
            final(self).budget() == old(self).budget(),
            final(self).batch() == Seq::<Entry>::empty(),
            old(self).batch().len() == 0 ==> r is None,
            old(self).batch().len() > 0 ==> r is Some && sorted_version(old(self).batch(), r->Some_0@),
    {
        if self.batch.len() == 0 {
            None
        } else {
            let run = sort_entries(&self.batch, u64::MAX);
            self.batch = Vec::new();
            self.bytes = 0;
            Some(run)
        }
    }
}

} // verus!

