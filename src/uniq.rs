//! Counting similar log entries: entries are reduced to their timestamp and
//! their message with every number replaced by a placeholder, and equal
//! reductions are counted.
use vstd::prelude::*;
use crate::lexer::timestamp_group;
use crate::merge::key_le;
use crate::pattern::{Pattern, regex_capture, regex_replaced};
use crate::sort::{lists, sort_run, sorts};
use crate::text::append;

verus! {

/// The name of the capture group that holds an entry's message.
pub open spec fn message_group() -> Seq<char> {
    seq!['m', 'e', 's', 's', 'a', 'g', 'e']
}

/// The placeholder that stands for a number.
pub open spec fn number_placeholder() -> Seq<char> {
    seq!['<', 'n', 'u', 'm', '>']
}

/// The reduced form of an entry: its timestamp, a space, and its message
/// with every match of `numbers` replaced by the placeholder.
pub open spec fn reduced(p: Seq<char>, numbers: Seq<char>, text: Seq<char>) -> Option<Seq<char>> {
    match (regex_capture(p, timestamp_group(), text), regex_capture(p, message_group(), text)) {
        (Some(t), Some(m)) => Some(t.1 + seq![' '] + regex_replaced(numbers, m.1, number_placeholder())),
        _ => None,
    }
}

/// Reduces an entry for counting; `None` where the pattern lacks the
/// `timestamp` or the `message` group on it.
pub fn reduce_entry(pattern: &Pattern, numbers: &Pattern, text: &str) -> (r: Option<String>)
    ensures
        match r {
            Some(s) => reduced(pattern@, numbers@, text@) == Some(s@),
            None => reduced(pattern@, numbers@, text@) is None,
        },
{
    proof {
        reveal_strlit("timestamp");
        reveal_strlit("message");
        reveal_strlit("<num>");
        reveal_strlit(" ");
        assert(timestamp_group() =~= "timestamp"@);
        assert(message_group() =~= "message"@);
        assert(number_placeholder() =~= "<num>"@);
        assert(seq![' '] =~= " "@);
    }
    let t = match pattern.capture("timestamp", text) {
        Some(c) => c,
        None => return None,
    };
    let m = match pattern.capture("message", text) {
        Some(c) => c,
        None => return None,
    };
    let replaced = numbers.replace_all(m.1.as_str(), "<num>");
    let mut out = t.1;
    append(&mut out, " ");
    append(&mut out, replaced.as_str());
    Some(out)
}

/// Reduces every entry; `None` where some entry does not reduce.
pub fn reduce_entries(pattern: &Pattern, numbers: &Pattern, texts: &Vec<String>) -> (r: Option<Vec<String>>)
    ensures
        match r {
            Some(v) => v@.len() == texts@.len() && forall|k: int|
                0 <= k < v@.len() ==> reduced(pattern@, numbers@, texts@[k]@) == Some((#[trigger] v@[k])@),
            None => exists|k: int| 0 <= k < texts@.len() && #[trigger] reduced(pattern@, numbers@, texts@[k]@) is None,
        },
{
    let mut out: Vec<String> = Vec::new();
    let mut i: usize = 0;
    while i < texts.len()
        invariant
            i <= texts@.len(),
            out@.len() == i,
            forall|k: int| 0 <= k < i ==> reduced(pattern@, numbers@, texts@[k]@) == Some((#[trigger] out@[k])@),
        decreases texts.len() - i,
    {
        match reduce_entry(pattern, numbers, texts[i].as_str()) {
            Some(s) => out.push(s),
            None => return None,
        }
        i = i + 1;
    }
    Some(out)
}

/// How often `s` occurs among the first `n` of `keys`.
pub open spec fn occurrences(keys: Seq<String>, s: Seq<char>, n: int) -> int
    decreases n,
{
    if n <= 0 {
        0
    } else {
        occurrences(keys, s, n - 1) + if keys[n - 1]@ == s {
            1int
        } else {
            0int
        }
    }
}

/// `r` counts the distinct values of `keys`: each once, with the number of
/// times it occurs, and in non-decreasing order of that number.
pub open spec fn counts_of(keys: Seq<String>, r: Seq<(String, u64)>) -> bool {
    &&& forall|k: int|
        0 <= k < r.len() ==> (#[trigger] r[k]).1 == occurrences(keys, r[k].0@, keys.len() as int)
            && r[k].1 >= 1
    &&& forall|k1: int, k2: int| #![trigger r[k1], r[k2]] 0 <= k1 < k2 < r.len() ==> r[k1].0@ != r[k2].0@
    &&& forall|k1: int, k2: int| #![trigger r[k1], r[k2]] 0 <= k1 < k2 < r.len() ==> r[k1].1 <= r[k2].1
    &&& forall|i: int| 0 <= i < keys.len() ==> #[trigger] counted(r, keys[i]@)
}

/// `s` has an entry in `r`.
pub open spec fn counted(r: Seq<(String, u64)>, s: Seq<char>) -> bool {
    exists|k: int| 0 <= k < r.len() && r[k].0@ == s
}

/// `s` is among `names`.
spec fn named(names: Seq<String>, s: Seq<char>) -> bool {
    exists|k: int| 0 <= k < names.len() && names[k]@ == s
}

/// Counts the distinct values of `keys`, least frequent first.
pub fn count_similar(keys: &Vec<String>) -> (r: Vec<(String, u64)>)
    requires
        keys@.len() <= i64::MAX,
    ensures
        counts_of(keys@, r@),
{
    let n = keys.len();
    let mut names: Vec<String> = Vec::new();
    let mut counts: Vec<u64> = Vec::new();
    let mut i: usize = 0;
    while i < n
        invariant
            i <= n == keys@.len(),
            names@.len() == counts@.len(),
            forall|k: int|
                0 <= k < names@.len() ==> #[trigger] counts@[k] == occurrences(keys@, names@[k]@, i as int)
                    && counts@[k] >= 1 && counts@[k] <= i,
            forall|k1: int, k2: int|
                #![trigger names@[k1], names@[k2]]
                0 <= k1 < k2 < names@.len() ==> names@[k1]@ != names@[k2]@,
            forall|t: int| 0 <= t < i ==> #[trigger] named(names@, keys@[t]@),
        decreases n - i,
    {
        let mut k: usize = 0;
        let mut found = false;
        while k < names.len() && !found
            invariant
                k <= names@.len(),
                i < n == keys@.len(),
                found ==> k > 0 && names@[k - 1]@ == keys@[i as int]@,
                !found ==> forall|u: int| 0 <= u < k ==> names@[u]@ != keys@[i as int]@,
            decreases names.len() - k + if found { 0int } else { 1int },
        {
            if names[k] == keys[i] {
                found = true;
            }
            k = k + 1;
        }
        let ghost old_names = names@;
        let ghost old_counts = counts@;
        if found {
            let c = counts[k - 1];
            counts.set(k - 1, c + 1);
            proof {
                assert forall|u: int| 0 <= u < names@.len() implies #[trigger] counts@[u] == occurrences(
                    keys@,
                    names@[u]@,
                    i + 1,
                ) && counts@[u] >= 1 && counts@[u] <= i + 1 by {
                    if u != k - 1 {
                        if names@[u]@ == keys@[i as int]@ {
                            if u < k - 1 {
                                assert(names@[u]@ != names@[k - 1]@);
                            } else {
                                assert(names@[k - 1]@ != names@[u]@);
                            }
                        }
                    }
                }
            }
        } else {
            names.push(keys[i].clone());
            counts.push(1);
            proof {
                assert forall|t: int| 0 <= t < i implies keys@[t]@ != keys@[i as int]@ by {
                    assert(named(old_names, keys@[t]@));
                }
                assert(occurrences(keys@, keys@[i as int]@, i as int) == 0) by {
                    lemma_absent(keys@, keys@[i as int]@, i as int);
                }
                assert forall|t: int| 0 <= t < i implies #[trigger] named(names@, keys@[t]@) by {
                    assert(named(old_names, keys@[t]@));
                    let u = choose|u: int| 0 <= u < old_names.len() && old_names[u]@ == keys@[t]@;
                    assert(names@[u]@ == keys@[t]@);
                }
            }
        }
        proof {
            let last = if found { (k - 1) as int } else { names@.len() - 1 };
            assert(names@[last]@ == keys@[i as int]@);
            assert(named(names@, keys@[i as int]@));
        }
        i = i + 1;
    }
    let mut ks: Vec<Option<i64>> = Vec::new();
    let mut j: usize = 0;
    while j < counts.len()
        invariant
            j <= counts@.len(),
            n == keys@.len(),
            names@.len() == counts@.len(),
            forall|k: int|
                0 <= k < names@.len() ==> #[trigger] counts@[k] == occurrences(keys@, names@[k]@, n as int)
                    && counts@[k] >= 1 && counts@[k] <= n,
            forall|k1: int, k2: int|
                #![trigger names@[k1], names@[k2]]
                0 <= k1 < k2 < names@.len() ==> names@[k1]@ != names@[k2]@,
            forall|t: int| 0 <= t < n ==> #[trigger] named(names@, keys@[t]@),
            n <= i64::MAX,
            ks@.len() == j,
            forall|t: int| 0 <= t < j ==> #[trigger] ks@[t] == Some(counts@[t] as i64),
        decreases counts.len() - j,
    {
        ks.push(Some(counts[j] as i64));
        j = j + 1;
    }
    let order = sort_run(&ks, 0, ks.len());
    let mut out: Vec<(String, u64)> = Vec::new();
    let mut m: usize = 0;
    while m < order.len()
        invariant
            m <= order@.len(),
            sorts(ks@, 0, ks@.len() as int, order@),
            ks@.len() == counts@.len() == names@.len(),
            n == keys@.len(),
            forall|t: int| 0 <= t < ks@.len() ==> #[trigger] ks@[t] == Some(counts@[t] as i64),
            forall|k: int|
                0 <= k < names@.len() ==> #[trigger] counts@[k] == occurrences(keys@, names@[k]@, n as int)
                    && counts@[k] >= 1 && counts@[k] <= n,
            forall|k1: int, k2: int|
                #![trigger names@[k1], names@[k2]]
                0 <= k1 < k2 < names@.len() ==> names@[k1]@ != names@[k2]@,
            forall|t: int| 0 <= t < n ==> #[trigger] named(names@, keys@[t]@),
            n <= i64::MAX,

            out@.len() == m,
            forall|t: int|
                0 <= t < m ==> #[trigger] out@[t] == (names@[order@[t] as int], counts@[order@[t] as int]),
        decreases order.len() - m,
    {
        let o = order[m];
        out.push((names[o].clone(), counts[o]));
        m = m + 1;
    }
    proof {
        assert forall|k1: int, k2: int| #![trigger out@[k1], out@[k2]] 0 <= k1 < k2 < out@.len() implies out@[k1].0@
            != out@[k2].0@ && out@[k1].1 <= out@[k2].1 by {
            let a = order@[k1] as int;
            let b = order@[k2] as int;
            assert(a != b);
            assert(key_le(ks@[a], ks@[b]));
            if a < b {
                assert(names@[a]@ != names@[b]@);
            } else {
                assert(names@[b]@ != names@[a]@);
            }
        }
        assert forall|t: int| 0 <= t < n implies #[trigger] counted(out@, keys@[t]@) by {
            assert(named(names@, keys@[t]@));
            let u = choose|u: int| 0 <= u < names@.len() && names@[u]@ == keys@[t]@;
            assert(lists(order@, u));
            let k = choose|k: int| 0 <= k < order@.len() && order@[k] == u;
            assert(out@[k].0@ == keys@[t]@);
        }
    }
    out
}

proof fn lemma_absent(keys: Seq<String>, s: Seq<char>, n: int)
    requires
        0 <= n <= keys.len(),
        forall|t: int| 0 <= t < n ==> keys[t]@ != s,
    ensures
        occurrences(keys, s, n) == 0,
    decreases n,
{
    if n > 0 {
        lemma_absent(keys, s, n - 1);
    }
}

} // verus!
