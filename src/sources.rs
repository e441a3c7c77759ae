//! Merging the entries of several labelled sources into one stream in
//! chronological order.
use vstd::prelude::*;
use crate::lexer::Entry;
use crate::merge::{is_merge, key_view, merge_order, total, total_len};

verus! {

/// The entries of one source, and the label that marks them in merged
/// output (a file path, say), if any.
pub struct Source {
    pub entries: Vec<Entry>,
    pub label: Option<String>,
}

/// An entry, with the label of the source it came from.
pub struct LabeledEntry {
    pub entry: Entry,
    pub label: Option<String>,
}

/// The timestamps of the entries of each source.
pub open spec fn source_keys(s: Seq<Source>) -> Seq<Seq<Option<i64>>> {
    Seq::new(s.len(), |i: int| Seq::new(s[i].entries@.len(), |j: int| s[i].entries@[j].timestamp))
}

/// Every source is non-decreasing by timestamp.
pub open spec fn sources_in_order(s: Seq<Source>) -> bool {
    crate::merge::sources_sorted(source_keys(s))
}

/// `r` lists the entries of `s` in the merge order `order`, each with the
/// label of its source.
pub open spec fn follows_order(s: Seq<Source>, order: Seq<(usize, usize)>, r: Seq<LabeledEntry>) -> bool {
    &&& r.len() == order.len()
    &&& forall|k: int|
        0 <= k < r.len() ==> (#[trigger] r[k]).entry == s[order[k].0 as int].entries@[order[k].1 as int]
            && r[k].label == s[order[k].0 as int].label
}

/// Clones an optional label.
fn clone_label(l: &Option<String>) -> (r: Option<String>)
    ensures
        r == *l,
{
    match l {
        Some(s) => Some(s.clone()),
        None => None,
    }
}

/// Merges sources that are each in chronological order into one stream:
/// every entry once, by timestamp, entries of an earlier source before
/// those of a later one at equal timestamps, and the order inside one
/// source kept. `None` where the number of entries does not fit in memory.
pub fn merge_sources(sources: &Vec<Source>) -> (r: Option<Vec<LabeledEntry>>)
    requires
        sources_in_order(sources@),
    ensures
        match r {
            Some(v) => exists|order: Seq<(usize, usize)>|
                is_merge(source_keys(sources@), order) && follows_order(sources@, order, v@),
            None => total(source_keys(sources@)) > usize::MAX,
        },
{
    let ghost sk = source_keys(sources@);
    let mut keys: Vec<Vec<Option<i64>>> = Vec::new();
    let mut i: usize = 0;
    while i < sources.len()
        invariant
            i <= sources@.len(),
            sk == source_keys(sources@),
            keys@.len() == i,
            forall|t: int| 0 <= t < i ==> (#[trigger] keys@[t])@ == sk[t],
        decreases sources.len() - i,
    {
        let es = &sources[i].entries;
        let mut ks: Vec<Option<i64>> = Vec::new();
        let mut j: usize = 0;
        while j < es.len()
            invariant
                j <= es@.len(),
                es == sources@[i as int].entries,
                sk == source_keys(sources@),
                i < sources@.len(),
                ks@ == sk[i as int].take(j as int),
            decreases es.len() - j,
        {
            ks.push(es[j].timestamp);
            proof {
                assert(ks@ =~= sk[i as int].take(j + 1));
            }
            j = j + 1;
        }
        proof {
            assert(ks@ =~= sk[i as int]);
        }
        keys.push(ks);
        i = i + 1;
    }
    proof {
        assert(key_view(keys@) =~= sk);
    }
    match total_len(&keys) {
        None => None,
        Some(_) => {
            let order = merge_order(&keys);
            let mut out: Vec<LabeledEntry> = Vec::new();
            let mut k: usize = 0;
            while k < order.len()
                invariant
                    k <= order@.len(),
                    sk == source_keys(sources@),
                    is_merge(sk, order@),
                    out@.len() == k,
                    forall|m: int|
                        0 <= m < k ==> (#[trigger] out@[m]).entry == sources@[order@[m].0 as int].entries@[order@[m].1 as int]
                            && out@[m].label == sources@[order@[m].0 as int].label,
                decreases order.len() - k,
            {
                let (a, b) = order[k];
                assert(crate::merge::valid_pos(sk, order@[k as int]));
                let entry = sources[a].entries[b].clone();
                let label = clone_label(&sources[a].label);
                out.push(LabeledEntry { entry, label });
                k = k + 1;
            }
            Some(out)
        },
    }
}

} // verus!
