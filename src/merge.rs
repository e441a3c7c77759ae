//! Chronological k-way merge of several entry sources.
//!
//! A source is a sequence of sort keys; a key is an optional timestamp in
//! milliseconds. Entries without a timestamp order before every entry that
//! has one, so they collect at the front of a merged or sorted stream.
use vstd::prelude::*;

verus! {

/// The keys of a vector of sources.
pub open spec fn key_view(v: Seq<Vec<Option<i64>>>) -> Seq<Seq<Option<i64>>> {
    Seq::new(v.len(), |i: int| v[i]@)
}

/// `a` does not come after `b`: a missing timestamp is the smallest key.
pub open spec fn key_le(a: Option<i64>, b: Option<i64>) -> bool {
    match (a, b) {
        (None, _) => true,
        (Some(_), None) => false,
        (Some(x), Some(y)) => x <= y,
    }
}

/// `a` comes strictly before `b`.
pub open spec fn key_lt(a: Option<i64>, b: Option<i64>) -> bool {
    !key_le(b, a)
}

/// Executable form of `key_lt`.
pub fn key_less(a: Option<i64>, b: Option<i64>) -> (r: bool)
    ensures
        r == key_lt(a, b),
{
    match (a, b) {
        (None, None) => false,
        (None, Some(_)) => true,
        (Some(_), None) => false,
        (Some(x), Some(y)) => x < y,
    }
}

/// The key of entry `j` of source `i`.
pub open spec fn key_of(s: Seq<Seq<Option<i64>>>, i: int, j: int) -> Option<i64> {
    s[i][j]
}

/// Every source is non-decreasing by key.
pub open spec fn sources_sorted(s: Seq<Seq<Option<i64>>>) -> bool {
    forall|i: int, j1: int, j2: int|
        0 <= i < s.len() && 0 <= j1 <= j2 < s[i].len() ==> key_le(
            #[trigger] key_of(s, i, j1),
            #[trigger] key_of(s, i, j2),
        )
}

/// `(i, j)` names an entry of the sources.
pub open spec fn valid_pos(s: Seq<Seq<Option<i64>>>, p: (usize, usize)) -> bool {
    p.0 < s.len() && p.1 < s[p.0 as int].len()
}

/// The merge order: by key, then by source registration order, then by
/// position inside the source.
pub open spec fn precedes(s: Seq<Seq<Option<i64>>>, p: (usize, usize), q: (usize, usize)) -> bool {
    let a = key_of(s, p.0 as int, p.1 as int);
    let b = key_of(s, q.0 as int, q.1 as int);
    key_lt(a, b) || (a == b && (p.0 < q.0 || (p.0 == q.0 && p.1 < q.1)))
}

/// `p` precedes entry `j` of source `i`.
pub open spec fn before(s: Seq<Seq<Option<i64>>>, p: (usize, usize), i: int, j: int) -> bool {
    let a = key_of(s, p.0 as int, p.1 as int);
    let b = key_of(s, i, j);
    key_lt(a, b) || (a == b && (p.0 < i || (p.0 == i && p.1 < j)))
}

/// Sum of a sequence of counts.
pub open spec fn sum(c: Seq<int>) -> int
    decreases c.len(),
{
    if c.len() == 0 {
        0
    } else {
        sum(c.drop_last()) + c.last()
    }
}

/// The number of entries of each source.
pub open spec fn lengths(s: Seq<Seq<Option<i64>>>) -> Seq<int> {
    Seq::new(s.len(), |i: int| s[i].len() as int)
}

/// The number of entries over all sources.
pub open spec fn total(s: Seq<Seq<Option<i64>>>) -> int {
    sum(lengths(s))
}

/// What a merge of `s` returns: every entry exactly once, each position
/// strictly before the next in the merge order.
pub open spec fn is_merge(s: Seq<Seq<Option<i64>>>, r: Seq<(usize, usize)>) -> bool {
    &&& r.len() == total(s)
    &&& forall|k: int| 0 <= k < r.len() ==> valid_pos(s, #[trigger] r[k])
    &&& forall|k: int| 0 <= k < r.len() - 1 ==> precedes(s, #[trigger] r[k], r[k + 1])
    &&& forall|i: int, j: int| 0 <= i < s.len() && 0 <= j < s[i].len() ==> #[trigger] appears(r, i, j)
}

/// Position `(i, j)` is listed in `r`.
pub open spec fn appears(r: Seq<(usize, usize)>, i: int, j: int) -> bool {
    exists|k: int| 0 <= k < r.len() && r[k] == (i as usize, j as usize)
}

proof fn lemma_sum_update(c: Seq<int>, b: int, v: int)
    requires
        0 <= b < c.len(),
    ensures
        sum(c.update(b, v)) == sum(c) - c[b] + v,
    decreases c.len(),
{
    if b == c.len() - 1 {
        assert(c.update(b, v).drop_last() =~= c.drop_last());
    } else {
        assert(c.update(b, v).drop_last() =~= c.drop_last().update(b, v));
        lemma_sum_update(c.drop_last(), b, v);
    }
}

proof fn lemma_sum_le(a: Seq<int>, b: Seq<int>)
    requires
        a.len() == b.len(),
        forall|i: int| 0 <= i < a.len() ==> a[i] <= b[i],
    ensures
        sum(a) <= sum(b),
    decreases a.len(),
{
    if a.len() > 0 {
        lemma_sum_le(a.drop_last(), b.drop_last());
    }
}

proof fn lemma_sum_nonneg(a: Seq<int>)
    requires
        forall|i: int| 0 <= i < a.len() ==> a[i] >= 0,
    ensures
        sum(a) >= 0,
    decreases a.len(),
{
    if a.len() > 0 {
        lemma_sum_nonneg(a.drop_last());
    }
}

/// Counts of a vector of positions, as integers.
spec fn counts(p: Seq<usize>) -> Seq<int> {
    Seq::new(p.len(), |i: int| p[i] as int)
}

/// The number of entries over all sources, or `None` where it does not fit.
pub fn total_len(sources: &Vec<Vec<Option<i64>>>) -> (r: Option<usize>)
    ensures
        match r {
            Some(n) => n == total(key_view(sources@)),
            None => total(key_view(sources@)) > usize::MAX,
        },
{
    let mut acc: usize = 0;
    let mut i: usize = 0;
    while i < sources.len()
        invariant
            i <= sources.len(),
            acc == sum(lengths(key_view(sources@)).take(i as int)),
        decreases sources.len() - i,
    {
        proof {
            assert(lengths(key_view(sources@)).take(i + 1).drop_last() =~= lengths(key_view(sources@)).take(i as int));
        }
        let n = sources[i].len();
        if acc > usize::MAX - n {
            proof {
                let c = lengths(key_view(sources@));
                let rest = c.skip(i + 1);
                assert forall|k: int| 0 <= k < rest.len() implies rest[k] >= 0 by {}
                lemma_sum_nonneg(rest);
                lemma_sum_split(c, i + 1);
            }
            return None;
        }
        acc = acc + n;
        i = i + 1;
    }
    proof {
        assert(lengths(key_view(sources@)).take(i as int) =~= lengths(key_view(sources@)));
    }
    Some(acc)
}

proof fn lemma_sum_split(c: Seq<int>, m: int)
    requires
        0 <= m <= c.len(),
    ensures
        sum(c) == sum(c.take(m)) + sum(c.skip(m)),
    decreases c.len(),
{
    if m < c.len() {
        lemma_sum_split(c.drop_last(), m);
        assert(c.drop_last().take(m) =~= c.take(m));
        assert(c.skip(m).drop_last() =~= c.drop_last().skip(m));
    } else {
        assert(c.take(m) =~= c);
        assert(c.skip(m) =~= Seq::<int>::empty());
    }
}

/// The source whose head a streaming merge emits next: the head with the
/// smallest key, the earliest source among equal keys; `None` when every
/// source is exhausted (its head is `None`).
pub fn select_head(heads: &Vec<Option<Option<i64>>>) -> (r: Option<usize>)
    ensures
        match r {
            None => forall|i: int| 0 <= i < heads@.len() ==> #[trigger] heads@[i] is None,
            Some(b) => b < heads@.len() && heads@[b as int] is Some && forall|i: int|
                0 <= i < heads@.len() && i != b && #[trigger] heads@[i] is Some ==> {
                    let hb = heads@[b as int]->Some_0;
                    let hi = heads@[i]->Some_0;
                    key_lt(hb, hi) || (hb == hi && b < i)
                },
        },
{
    let mut best: Option<usize> = None;
    let mut t: usize = 0;
    while t < heads.len()
        invariant
            t <= heads@.len(),
            match best {
                None => forall|i: int| 0 <= i < t ==> #[trigger] heads@[i] is None,
                Some(b) => b < t && heads@[b as int] is Some && forall|i: int|
                    0 <= i < t && i != b && #[trigger] heads@[i] is Some ==> {
                        let hb = heads@[b as int]->Some_0;
                        let hi = heads@[i]->Some_0;
                        key_lt(hb, hi) || (hb == hi && b < i)
                    },
            },
        decreases heads.len() - t,
    {
        if let Some(k) = heads[t] {
            match best {
                None => {
                    best = Some(t);
                },
                Some(b) => {
                    if let Some(kb) = heads[b] {
                        if key_less(k, kb) {
                            best = Some(t);
                        }
                    }
                },
            }
        }
        t = t + 1;
    }
    best
}

/// Merges sources that are each sorted by key into one order over all
/// their entries. The result lists positions `(source, index)`; the
/// smallest key comes first, and among equal keys the earlier source, then
/// the earlier entry of one source.
pub fn merge_order(sources: &Vec<Vec<Option<i64>>>) -> (r: Vec<(usize, usize)>)
    requires
        sources_sorted(key_view(sources@)),
        total(key_view(sources@)) <= usize::MAX,
    ensures
        is_merge(key_view(sources@), r@),
{
    let ghost s = key_view(sources@);
    let n = sources.len();
    let mut pos: Vec<usize> = Vec::new();
    let mut i: usize = 0;
    proof {
        assert(counts(pos@) =~= Seq::<int>::empty());
    }
    while i < n
        invariant
            i <= n,
            n == s.len(),
            pos@.len() == i,
            forall|t: int| 0 <= t < i ==> pos@[t] == 0,
            sum(counts(pos@)) == 0,
        decreases n - i,
    {
        let ghost prev = pos@;
        pos.push(0);
        proof {
            assert(counts(pos@).drop_last() =~= counts(prev));
        }
        i = i + 1;
    }

    let mut out: Vec<(usize, usize)> = Vec::new();
    let mut done = false;
    while !done
        invariant
            n == s.len(),
            s == key_view(sources@),
            sources_sorted(s),
            total(s) <= usize::MAX,
            pos@.len() == n,
            forall|t: int| 0 <= t < n ==> pos@[t] <= s[t].len(),
            out@.len() == sum(counts(pos@)),
            forall|k: int|
                0 <= k < out@.len() ==> valid_pos(s, #[trigger] out@[k]) && out@[k].1
                    < pos@[out@[k].0 as int],
            forall|k: int| 0 <= k < out@.len() - 1 ==> precedes(s, #[trigger] out@[k], out@[k + 1]),
            out@.len() > 0 ==> forall|t: int, j: int|
                0 <= t < n && pos@[t] <= j < s[t].len() ==> #[trigger] before(s, out@.last(), t, j),
            forall|t: int, j: int| 0 <= t < n && 0 <= j < pos@[t] ==> #[trigger] appears(out@, t, j),
            done ==> forall|t: int| 0 <= t < n ==> pos@[t] == s[t].len(),
        decreases total(s) - out@.len() + if done { 0int } else { 1int },
    {
        proof {
            lemma_sum_le(counts(pos@), lengths(s));
        }
        let mut heads: Vec<Option<Option<i64>>> = Vec::new();
        let mut t: usize = 0;
        while t < n
            invariant
                t <= n,
                n == s.len(),
                s == key_view(sources@),
                pos@.len() == n,
                forall|u: int| 0 <= u < n ==> pos@[u] <= s[u].len(),
                heads@.len() == t,
                forall|u: int|
                    0 <= u < t ==> #[trigger] heads@[u] == if pos@[u] < s[u].len() {
                        Some(s[u][pos@[u] as int])
                    } else {
                        None
                    },
            decreases n - t,
        {
            if pos[t] < sources[t].len() {
                heads.push(Some(sources[t][pos[t]]));
            } else {
                heads.push(None);
            }
            t = t + 1;
        }
        let best = select_head(&heads);
        proof {
            match best {
                None => {
                    assert forall|u: int| 0 <= u < n implies pos@[u] == s[u].len() by {
                        assert(heads@[u] is None);
                    }
                },
                Some(b) => {
                    assert forall|u: int|
                        0 <= u < n && u != b && pos@[u] < s[u].len() implies #[trigger] before(
                        s,
                        (b, pos@[b as int]),
                        u,
                        pos@[u] as int,
                    ) by {
                        assert(heads@[u] is Some);
                    }
                },
            }
        }
        match best {
            None => {
                done = true;
            },
            Some(b) => {
                let p = pos[b];
                let lb = sources[b].len();
                assert(p < lb);
                let ghost prev = out@;
                let ghost old_pos = pos@;
                out.push((b, p));
                pos.set(b, p + 1);
                proof {
                    assert(out@.drop_last() =~= prev);
                    assert(counts(pos@) =~= counts(old_pos).update(b as int, p + 1));
                    lemma_sum_update(counts(old_pos), b as int, p + 1);
                    if prev.len() > 0 {
                        assert(before(s, prev.last(), b as int, p as int));
                    }
                    assert forall|u: int, j: int|
                        0 <= u < n && pos@[u] <= j < s[u].len() implies #[trigger] before(s, (b, p), u, j) by {
                        if u == b {
                            assert(pos@[u] == p + 1);
                            assert(key_le(key_of(s, u, p as int), key_of(s, u, j)));
                        } else {
                            assert(pos@[u] == old_pos[u]);
                            assert(old_pos[u] < s[u].len());
                            assert(before(s, (b, p), u, old_pos[u] as int));
                            assert(key_le(key_of(s, u, old_pos[u] as int), key_of(s, u, j)));
                        }
                    }
                }
                proof {
                    assert forall|u: int, j: int|
                        0 <= u < n && 0 <= j < pos@[u] implies #[trigger] appears(out@, u, j) by {
                        if u == b && j == p {
                            assert(out@[out@.len() - 1] == (u as usize, j as usize));
                        } else {
                            assert(appears(out@.drop_last(), u, j));
                            let k = choose|k: int|
                                0 <= k < out@.len() - 1 && out@.drop_last()[k] == (
                                    u as usize,
                                    j as usize,
                                );
                            assert(out@[k] == (u as usize, j as usize));
                        }
                    }
                }
            },
        }
    }
    proof {
        assert(counts(pos@) =~= lengths(s));
    }
    out
}

/// Each position of a merge precedes every later one, not only the next.
proof fn lemma_merge_chain(s: Seq<Seq<Option<i64>>>, r: Seq<(usize, usize)>, k2: int)
    requires
        is_merge(s, r),
        0 <= k2 < r.len(),
    ensures
        forall|k1: int| 0 <= k1 < k2 ==> precedes(s, #[trigger] r[k1], r[k2]),
    decreases k2,
{
    if k2 > 0 {
        lemma_merge_chain(s, r, k2 - 1);
        assert(precedes(s, r[k2 - 1], r[k2]));
    }
}

/// A merge loses and repeats no entry: it has as many entries as all the
/// sources together, lists each entry of each source, and never one twice.
pub proof fn lemma_merge_total(s: Seq<Seq<Option<i64>>>, r: Seq<(usize, usize)>)
    requires
        is_merge(s, r),
    ensures
        r.len() == sum(lengths(s)),
        forall|i: int, j: int| 0 <= i < s.len() && 0 <= j < s[i].len() ==> #[trigger] appears(r, i, j),
        forall|k1: int, k2: int| 0 <= k1 < k2 < r.len() ==> r[k1] != r[k2],
{
    assert forall|k1: int, k2: int| 0 <= k1 < k2 < r.len() implies r[k1] != r[k2] by {
        lemma_merge_chain(s, r, k2);
        assert(precedes(s, r[k1], r[k2]));
    }
}

/// A merge of sources that are each in order is in chronological order,
/// and at equal timestamps an entry of
/// an earlier source comes before one of a later source, and entries of
/// one source keep their order.
pub proof fn lemma_merge_ordered(s: Seq<Seq<Option<i64>>>, r: Seq<(usize, usize)>)
    requires
        sources_sorted(s),
        is_merge(s, r),
    ensures
        forall|k1: int, k2: int|
            #![trigger r[k1], r[k2]]
            0 <= k1 < k2 < r.len() ==> {
                let a = key_of(s, r[k1].0 as int, r[k1].1 as int);
                let b = key_of(s, r[k2].0 as int, r[k2].1 as int);
                &&& key_le(a, b)
                &&& a == b ==> r[k1].0 <= r[k2].0
                &&& r[k1].0 == r[k2].0 ==> r[k1].1 < r[k2].1
            },
{
    assert forall|k1: int, k2: int| #![trigger r[k1], r[k2]] 0 <= k1 < k2 < r.len() implies {
        let a = key_of(s, r[k1].0 as int, r[k1].1 as int);
        let b = key_of(s, r[k2].0 as int, r[k2].1 as int);
        &&& key_le(a, b)
        &&& a == b ==> r[k1].0 <= r[k2].0
        &&& r[k1].0 == r[k2].0 ==> r[k1].1 < r[k2].1
    } by {
        lemma_merge_chain(s, r, k2);
        assert(precedes(s, r[k1], r[k2]));
        assert(valid_pos(s, r[k1]) && valid_pos(s, r[k2]));
        if r[k1].0 == r[k2].0 && r[k1].1 >= r[k2].1 {
            let i = r[k1].0 as int;
            assert(key_le(key_of(s, i, r[k2].1 as int), key_of(s, i, r[k1].1 as int)));
        }
    }
}

} // verus!

