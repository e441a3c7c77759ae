//! Entry counts per second, for charting the rate of a log.
use vstd::prelude::*;

verus! {

/// The second that an instant in milliseconds falls in.
pub open spec fn second_of(millis: int) -> int {
    millis / 1000
}

/// The first `n` instants grouped into runs of equal seconds: each run's
/// second and the number of instants in it.
pub open spec fn per_second(t: Seq<i64>, n: int) -> Seq<(int, int)>
    decreases n,
{
    if n <= 0 {
        Seq::empty()
    } else {
        let prev = per_second(t, n - 1);
        let s = second_of(t[n - 1] as int);
        if prev.len() > 0 && prev.last().0 == s {
            prev.update(prev.len() - 1, (s, prev.last().1 + 1))
        } else {
            prev.push((s, 1))
        }
    }
}

/// The second of an instant, rounded down.
pub fn second(millis: i64) -> (r: i64)
    ensures
        r == second_of(millis as int),
{
    let q = millis / 1000;
    let m = millis % 1000;
    if m < 0 {
        q - 1
    } else {
        q
    }
}

/// Counts entries per second over consecutive instants: a new count
/// starts whenever the second changes.
pub fn count_per_second(t: &Vec<i64>) -> (r: Vec<(i64, u64)>)
    ensures
        r@.len() == per_second(t@, t@.len() as int).len(),
        forall|k: int|
            0 <= k < r@.len() ==> (#[trigger] r@[k]).0 == per_second(t@, t@.len() as int)[k].0 && r@[k].1
                == per_second(t@, t@.len() as int)[k].1,
{
    let mut out: Vec<(i64, u64)> = Vec::new();
    let mut i: usize = 0;
    while i < t.len()
        invariant
            i <= t@.len(),
            out@.len() == per_second(t@, i as int).len(),
            forall|k: int|
                0 <= k < out@.len() ==> (#[trigger] out@[k]).0 == per_second(t@, i as int)[k].0 && out@[k].1
                    == per_second(t@, i as int)[k].1 && 1 <= out@[k].1 <= i,
        decreases t.len() - i,
    {
        let s = second(t[i]);
        let n = out.len();
        if n > 0 && out[n - 1].0 == s {
            let c = out[n - 1].1;
            out.set(n - 1, (s, c + 1));
        } else {
            out.push((s, 1));
        }
        i = i + 1;
    }
    out
}

} // verus!
