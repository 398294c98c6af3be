use vstd::prelude::*;

use crate::error::SortError;
use crate::merge::{merge, partitions_sorted};
use crate::plan::{is_cover, lemma_cover_ordered, plan, Partition};
use crate::sort::{is_sorted, sort_range, sorted_between};

verus! {

broadcast use vstd::seq_lib::group_to_multiset_ensures;

/// Sorts every partition of `buf` in place; this is the work that the
/// workers share out, one partition each.
pub fn sort_partitions(buf: &mut Vec<i64>, parts: &Vec<Partition>)
    requires
        is_cover(parts@, old(buf)@.len() as int),
    ensures
        final(buf)@.len() == old(buf)@.len(),
        partitions_sorted(final(buf)@, parts@),
        final(buf)@.to_multiset() == old(buf)@.to_multiset(),
{
    let ghost orig = buf@;
    let ghost ps = parts@;
    proof {
        lemma_cover_ordered(ps, orig.len() as int);
    }
    let n = parts.len();
    let mut i: usize = 0;
    while i < n
        invariant
            i <= n,
            n == ps.len(),
            ps == parts@,
            buf@.len() == orig.len(),
            forall|a: int, b: int| 0 <= a < b < ps.len() ==> #[trigger] ps[a].end() <= #[trigger] ps[b].start,
            forall|a: int| 0 <= a < ps.len() ==> #[trigger] ps[a].end() <= orig.len(),
            forall|k: int| 0 <= k < i ==> sorted_between(buf@, #[trigger] ps[k].start as int, ps[k].end()),
            buf@.to_multiset() == orig.to_multiset(),
        decreases n - i,
    {
        let p = parts[i];
        let ghost before = buf@;
        assert(ps[i as int].end() <= orig.len());
        sort_range(buf, p.start, p.len);
        assert forall|k: int| 0 <= k < i + 1 implies sorted_between(buf@, #[trigger] ps[k].start as int, ps[k].end()) by {
            if k < i {
                assert(ps[k].end() <= ps[i as int].start);
                assert forall|x: int, y: int| ps[k].start <= x < y < ps[k].end() implies buf@[x] <= buf@[y] by {
                    assert(buf@[x] == before[x]);
                    assert(buf@[y] == before[y]);
                }
            }
        }
        i = i + 1;
    }
}

/// The coordinator's run: plans `workers` partitions over `buffer`, sorts
/// each partition, and merges them. Fails with `InvalidConfiguration` exactly
/// when there are no workers or more workers than elements; otherwise the
/// result is the sorted rearrangement of `buffer`.
pub fn run_sort(buffer: &Vec<i64>, workers: usize) -> (r: Result<Vec<i64>, SortError>)
    ensures
        r.is_ok() <==> 1 <= workers <= buffer@.len(),
        r.is_err() ==> r == Err::<Vec<i64>, SortError>(SortError::InvalidConfiguration),
        r.is_ok() ==> is_sorted(r.unwrap()@),
        r.is_ok() ==> r.unwrap()@.to_multiset() == buffer@.to_multiset(),
{
    let parts = match plan(buffer.len(), workers) {
        Ok(p) => p,
        Err(e) => {
            return Err(e);
        },
    };
    let mut buf = buffer.clone();
    assert(buf@ == buffer@);
    sort_partitions(&mut buf, &parts);
    let out = merge(&buf, &parts);
    Ok(out)
}

} // verus!
