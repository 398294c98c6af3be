use vstd::multiset::Multiset;
use vstd::prelude::*;

use crate::plan::{is_cover, Partition};
use crate::sort::{is_sorted, lemma_sorted_rearrangement_unique, sorted_between};

verus! {

broadcast use vstd::seq_lib::group_to_multiset_ensures, vstd::multiset::group_multiset_axioms;

/// Every partition of `parts` is sorted inside `buf`.
pub open spec fn partitions_sorted(buf: Seq<i64>, parts: Seq<Partition>) -> bool {
    forall|i: int|
        0 <= i < parts.len() ==> sorted_between(buf, #[trigger] parts[i].start as int, parts[i].end())
}

/// Each cursor lies between its partition's start and end.
spec fn cursors_ok(parts: Seq<Partition>, cur: Seq<usize>) -> bool {
    &&& cur.len() == parts.len()
    &&& forall|i: int|
        0 <= i < parts.len() ==> parts[i].start <= #[trigger] cur[i] <= parts[i].end()
}

/// What the cursors of the first `k` partitions have consumed so far.
spec fn taken(buf: Seq<i64>, parts: Seq<Partition>, cur: Seq<usize>, k: int) -> Multiset<i64>
    decreases k,
{
    if k <= 0 {
        Multiset::empty()
    } else {
        taken(buf, parts, cur, k - 1).add(
            buf.subrange(parts[k - 1].start as int, cur[k - 1] as int).to_multiset(),
        )
    }
}

/// How many elements the first `k` partitions still hold beyond their cursors.
spec fn remaining(parts: Seq<Partition>, cur: Seq<usize>, k: int) -> int
    decreases k,
{
    if k <= 0 {
        0
    } else {
        remaining(parts, cur, k - 1) + (parts[k - 1].end() - cur[k - 1])
    }
}

proof fn lemma_cover_bounds(parts: Seq<Partition>, total: int)
    requires
        is_cover(parts, total),
    ensures
        forall|i: int| 0 <= i < parts.len() ==> #[trigger] parts[i].end() <= total,
{
    assert forall|i: int| 0 <= i < parts.len() implies #[trigger] parts[i].end() <= total by {
        lemma_end_below_last(parts, total, i);
    }
}

proof fn lemma_end_below_last(parts: Seq<Partition>, total: int, i: int)
    requires
        is_cover(parts, total),
        0 <= i < parts.len(),
    ensures
        parts[i].end() <= total,
    decreases parts.len() - i,
{
    if i < parts.len() - 1 {
        assert(parts[i + 1].start == parts[i].end());
        lemma_end_below_last(parts, total, i + 1);
    }
}

/// Advancing cursor `m` by one adds the element under it to what was
/// consumed and removes it from what remains.
proof fn lemma_advance(buf: Seq<i64>, parts: Seq<Partition>, cur: Seq<usize>, m: int, k: int)
    requires
        cursors_ok(parts, cur),
        0 <= m < parts.len(),
        cur[m] < parts[m].end(),
        parts[m].end() <= buf.len(),
        buf.len() <= usize::MAX,
        0 <= k <= parts.len(),
    ensures
        ({
            let cur2 = cur.update(m, (cur[m] + 1) as usize);
            &&& taken(buf, parts, cur2, k) == (if m < k {
                taken(buf, parts, cur, k).insert(buf[cur[m] as int])
            } else {
                taken(buf, parts, cur, k)
            })
            &&& remaining(parts, cur2, k) == (if m < k {
                remaining(parts, cur, k) - 1
            } else {
                remaining(parts, cur, k)
            })
        }),
    decreases k,
{
    let cur2 = cur.update(m, (cur[m] + 1) as usize);
    if k > 0 {
        lemma_advance(buf, parts, cur, m, k - 1);
        if k - 1 == m {
            let s = buf.subrange(parts[m].start as int, cur[m] as int);
            assert(buf.subrange(parts[m].start as int, cur2[m] as int) =~= s.push(buf[cur[m] as int]));
            assert(taken(buf, parts, cur2, k) =~= taken(buf, parts, cur, k).insert(buf[cur[m] as int]));
        } else {
            assert(cur2[k - 1] == cur[k - 1]);
        }
    }
}

/// With every cursor still at its partition's start, the first `k`
/// partitions hold everything up to the end of partition `k - 1`.
proof fn lemma_remaining_initial(parts: Seq<Partition>, total: int, cur: Seq<usize>, k: int)
    requires
        is_cover(parts, total),
        cur.len() == parts.len(),
        forall|i: int| 0 <= i < parts.len() ==> #[trigger] cur[i] == parts[i].start,
        1 <= k <= parts.len(),
    ensures
        remaining(parts, cur, k) == parts[k - 1].end(),
    decreases k,
{
    if k > 1 {
        lemma_remaining_initial(parts, total, cur, k - 1);
        assert(parts[(k - 2) + 1].start == parts[k - 2].end());
    } else {
        assert(remaining(parts, cur, 0) == 0);
    }
    assert(cur[k - 1] == parts[k - 1].start);
}

/// Nothing remains exactly when every cursor sits at its partition's end.
proof fn lemma_remaining_zero(parts: Seq<Partition>, cur: Seq<usize>, k: int)
    requires
        cursors_ok(parts, cur),
        0 <= k <= parts.len(),
    ensures
        remaining(parts, cur, k) >= 0,
        remaining(parts, cur, k) == 0 <==> forall|i: int| 0 <= i < k ==> #[trigger] cur[i] == parts[i].end(),
    decreases k,
{
    if k > 0 {
        lemma_remaining_zero(parts, cur, k - 1);
    }
}

/// When the cursors of the first `k` partitions are all at their ends, what
/// was consumed is everything up to the end of partition `k - 1`.
proof fn lemma_taken_full(buf: Seq<i64>, parts: Seq<Partition>, cur: Seq<usize>, k: int)
    requires
        is_cover(parts, buf.len() as int),
        cursors_ok(parts, cur),
        1 <= k <= parts.len(),
        forall|i: int| 0 <= i < k ==> #[trigger] cur[i] == parts[i].end(),
    ensures
        taken(buf, parts, cur, k) == buf.subrange(0, parts[k - 1].end()).to_multiset(),
    decreases k,
{
    lemma_cover_bounds(parts, buf.len() as int);
    if k == 1 {
        assert(taken(buf, parts, cur, 0) =~= Multiset::empty());
        assert(taken(buf, parts, cur, 1) =~= buf.subrange(0, parts[0].end()).to_multiset());
    } else {
        lemma_taken_full(buf, parts, cur, k - 1);
        let mid = parts[k - 2].end();
        assert(parts[(k - 2) + 1].start == mid);
        let a = buf.subrange(0, mid);
        let b = buf.subrange(mid, parts[k - 1].end());
        assert(buf.subrange(0, parts[k - 1].end()) =~= a + b);
        vstd::seq_lib::lemma_multiset_commutative(a, b);
    }
}

/// Combines sorted partitions into one sorted sequence. Repeatedly takes the
/// smallest element under any cursor whose partition is not exhausted (the
/// lowest partition index wins among equal values) and advances that cursor.
/// The result is the sorted rearrangement of `buf`.
pub fn merge(buf: &Vec<i64>, parts: &Vec<Partition>) -> (r: Vec<i64>)
    requires
        is_cover(parts@, buf@.len() as int),
        partitions_sorted(buf@, parts@),
    ensures
        is_sorted(r@),
        r@.to_multiset() == buf@.to_multiset(),
        is_sorted(buf@) ==> r@ == buf@,
{
    let ghost b = buf@;
    let ghost ps = parts@;
    let n = parts.len();
    let total = buf.len();
    proof {
        lemma_cover_bounds(ps, total as int);
    }
    let mut cur: Vec<usize> = Vec::new();
    let mut i: usize = 0;
    while i < n
        invariant
            i <= n,
            n == ps.len(),
            ps == parts@,
            cur@.len() == i,
            forall|k: int| 0 <= k < i ==> #[trigger] cur@[k] == ps[k].start,
        decreases n - i,
    {
        cur.push(parts[i].start);
        i = i + 1;
    }
    proof {
        lemma_remaining_initial(ps, total as int, cur@, n as int);
        assert(taken(b, ps, cur@, n as int) =~= Multiset::empty()) by {
            lemma_taken_empty(b, ps, cur@, n as int);
        }
    }
    let mut out: Vec<i64> = Vec::new();
    while out.len() < total
        invariant
            n == ps.len(),
            ps == parts@,
            b == buf@,
            total == b.len(),
            is_cover(ps, total as int),
            partitions_sorted(b, ps),
            forall|k: int| 0 <= k < ps.len() ==> #[trigger] ps[k].end() <= total,
            cursors_ok(ps, cur@),
            out@.len() + remaining(ps, cur@, n as int) == total,
            out@.to_multiset() == taken(b, ps, cur@, n as int),
            is_sorted(out@),
            forall|k: int, j: int|
                #![trigger cur@[k], b[j]]
                0 <= k < n && cur@[k] <= j < ps[k].end() && out@.len() > 0 ==> out@.last() <= b[j],
        decreases total - out@.len(),
    {
        proof {
            lemma_remaining_zero(ps, cur@, n as int);
        }
        let mut found: bool = false;
        let mut best: i64 = 0;
        let mut m: usize = 0;
        let mut i: usize = 0;
        while i < n
            invariant
                i <= n,
                n == ps.len(),
                ps == parts@,
                b == buf@,
                cursors_ok(ps, cur@),
                forall|k: int| 0 <= k < ps.len() ==> #[trigger] ps[k].end() <= total,
                total == b.len(),
                found ==> m < i && cur@[m as int] < ps[m as int].end() && best == b[cur@[m as int] as int],
                found ==> forall|k: int|
                    0 <= k < i && cur@[k] < ps[k].end() ==> best <= b[#[trigger] cur@[k] as int],
                !found ==> forall|k: int| 0 <= k < i ==> #[trigger] cur@[k] == ps[k].end(),
            decreases n - i,
        {
            let c = cur[i];
            if c < parts[i].start + parts[i].len && (!found || buf[c] < best) {
                found = true;
                best = buf[c];
                m = i;
            }
            i = i + 1;
        }
        let ghost old_cur = cur@;
        let ghost old_out = out@;
        assert(found);
        proof {
            lemma_advance(b, ps, old_cur, m as int, n as int);
            assert forall|k: int, j: int|
                #![trigger old_cur[k], b[j]]
                0 <= k < n && old_cur[k] <= j < ps[k].end() implies best <= b[j] by {
                assert(sorted_between(b, ps[k].start as int, ps[k].end()));
            }
        }
        out.push(best);
        let next = cur[m] + 1;
        cur.set(m, next);
        proof {
            assert(cur@ == old_cur.update(m as int, next));
            assert(is_sorted(out@)) by {
                assert forall|x: int, y: int| 0 <= x < y < out@.len() implies out@[x] <= out@[y] by {
                    if y == out@.len() - 1 && x < y {
                        assert(old_out.last() <= b[old_cur[m as int] as int]);
                    }
                }
            }
        }
    }
    proof {
        lemma_remaining_zero(ps, cur@, n as int);
        lemma_taken_full(b, ps, cur@, n as int);
        assert(b.subrange(0, total as int) =~= b);
        if is_sorted(b) {
            lemma_sorted_rearrangement_unique(out@, b);
        }
    }
    out
}

proof fn lemma_taken_empty(buf: Seq<i64>, parts: Seq<Partition>, cur: Seq<usize>, k: int)
    requires
        0 <= k <= parts.len(),
        cur.len() == parts.len(),
        forall|i: int| 0 <= i < parts.len() ==> #[trigger] cur[i] == parts[i].start,
        forall|i: int| 0 <= i < parts.len() ==> #[trigger] parts[i].end() <= buf.len(),
    ensures
        taken(buf, parts, cur, k) =~= Multiset::empty(),
    decreases k,
{
    if k > 0 {
        lemma_taken_empty(buf, parts, cur, k - 1);
        assert(parts[k - 1].end() <= buf.len());
        assert(cur[k - 1] == parts[k - 1].start);
        assert(buf.subrange(parts[k - 1].start as int, cur[k - 1] as int) =~= Seq::<i64>::empty());
    }
}

} // verus!
