use vstd::prelude::*;

use crate::merge::{merge, partitions_sorted};
use crate::plan::{is_cover, Partition};

verus! {

broadcast use vstd::seq_lib::group_to_multiset_ensures, vstd::multiset::group_multiset_axioms;

/// The elements of `s` at indices `[lo, hi)` are in non-decreasing order.
pub open spec fn sorted_between(s: Seq<i64>, lo: int, hi: int) -> bool {
    forall|a: int, b: int| lo <= a < b < hi ==> s[a] <= s[b]
}

/// The whole of `s` is in non-decreasing order.
pub open spec fn is_sorted(s: Seq<i64>) -> bool {
    sorted_between(s, 0, s.len() as int)
}

/// A sorted rearrangement is unique: two sorted sequences holding the same
/// multiset of elements are equal.
pub proof fn lemma_sorted_rearrangement_unique(a: Seq<i64>, b: Seq<i64>)
    requires
        is_sorted(a),
        is_sorted(b),
        a.to_multiset() == b.to_multiset(),
    ensures
        a == b,
{
    let leq = |x: i64, y: i64| x <= y;
    assert(vstd::relations::total_ordering(leq));
    assert(vstd::relations::sorted_by(a, leq)) by {
        assert forall|i: int, j: int| 0 <= i < j < a.len() implies #[trigger] leq(a[i], a[j]) by {}
    }
    assert(vstd::relations::sorted_by(b, leq)) by {
        assert forall|i: int, j: int| 0 <= i < j < b.len() implies #[trigger] leq(b[i], b[j]) by {}
    }
    vstd::seq_lib::lemma_sorted_unique(a, b, leq);
}

/// Three-way comparison of two integers: 0 when equal, -1 when `a < b`,
/// 1 when `a > b`.
pub fn cmp(a: i64, b: i64) -> (r: i32)
    ensures
        r == (if a == b {
            0i32
        } else if a < b {
            -1i32
        } else {
            1i32
        }),
{
    if a == b {
        0
    } else if a < b {
        -1
    } else {
        1
    }
}

/// Exchanges the elements at `j - 1` and `j`.
fn swap_down(buf: &mut Vec<i64>, j: usize)
    requires
        1 <= j < old(buf).len(),
    ensures
        final(buf)@ == old(buf)@.update(j - 1, old(buf)@[j as int]).update(
            j as int,
            old(buf)@[j - 1],
        ),
        final(buf)@.to_multiset() == old(buf)@.to_multiset(),
{
    let lo = buf[j - 1];
    let hi = buf[j];
    buf.set(j - 1, hi);
    buf.set(j, lo);
    proof {
        let s0 = old(buf)@;
        let s1 = s0.update(j - 1, hi);
        vstd::seq_lib::to_multiset_update(s0, j - 1, hi);
        vstd::seq_lib::to_multiset_update(s1, j as int, lo);
        assert(s1.to_multiset().insert(lo).remove(hi) =~= s0.to_multiset());
    }
}

/// Insertion sort of `buf[start .. start + len]`, for short ranges.
fn insertion_sort_range(buf: &mut Vec<i64>, start: usize, len: usize)
    requires
        start + len <= old(buf).len(),
    ensures
        final(buf)@.len() == old(buf)@.len(),
        sorted_between(final(buf)@, start as int, start + len),
        forall|k: int|
            0 <= k < old(buf)@.len() && !(start <= k < start + len) ==> #[trigger] final(buf)@[k]
                == old(buf)@[k],
        final(buf)@.to_multiset() == old(buf)@.to_multiset(),
        final(buf)@.subrange(start as int, start + len).to_multiset() == old(buf)@.subrange(
            start as int,
            start + len,
        ).to_multiset(),
{
    let ghost orig = buf@;
    let end = start + len;
    if len == 0 {
        assert(buf@.subrange(start as int, end as int) =~= orig.subrange(start as int, end as int));
        return ;
    }
    let mut i: usize = start + 1;
    while i < end
        invariant
            start < i <= end,
            end == start + len,
            end <= buf@.len(),
            buf@.len() == orig.len(),
            sorted_between(buf@, start as int, i as int),
            forall|k: int|
                0 <= k < orig.len() && !(start <= k < end) ==> #[trigger] buf@[k] == orig[k],
            buf@.to_multiset() == orig.to_multiset(),
        decreases end - i,
    {
        let mut j: usize = i;
        while j > start && cmp(buf[j - 1], buf[j]) == 1
            invariant
                start <= j <= i < end,
                end <= buf@.len(),
                buf@.len() == orig.len(),
                forall|a: int, b: int|
                    start <= a < b <= i && a != j && b != j ==> buf@[a] <= buf@[b],
                forall|b: int| j < b <= i ==> buf@[j as int] <= #[trigger] buf@[b],
                forall|k: int|
                    0 <= k < orig.len() && !(start <= k < end) ==> #[trigger] buf@[k] == orig[k],
                buf@.to_multiset() == orig.to_multiset(),
            decreases j,
        {
            swap_down(buf, j);
            j = j - 1;
        }
        assert(sorted_between(buf@, start as int, i + 1)) by {
            assert forall|a: int, b: int| start <= a < b < i + 1 implies buf@[a] <= buf@[b] by {
                if b == j && a < j {
                    assert(buf@[a] <= buf@[j - 1]);
                }
            }
        }
        i = i + 1;
    }
    proof {
        lemma_range_multiset(orig, buf@, start as int, end as int);
    }
}

/// Ranges up to this length are sorted by insertion.
const SHORT_RANGE: usize = 16;

/// Sorts `buf[start .. start + len]` in ascending order, in place, and
/// touches no other index. Long ranges are sorted half by half and the two
/// sorted halves merged; short ones by insertion.
pub fn sort_range(buf: &mut Vec<i64>, start: usize, len: usize)
    requires
        start + len <= old(buf).len(),
    ensures
        final(buf)@.len() == old(buf)@.len(),
        sorted_between(final(buf)@, start as int, start + len),
        forall|k: int|
            0 <= k < old(buf)@.len() && !(start <= k < start + len) ==> #[trigger] final(buf)@[k]
                == old(buf)@[k],
        final(buf)@.to_multiset() == old(buf)@.to_multiset(),
        final(buf)@.subrange(start as int, start + len).to_multiset() == old(buf)@.subrange(
            start as int,
            start + len,
        ).to_multiset(),
    decreases len,
{
    if len <= SHORT_RANGE {
        insertion_sort_range(buf, start, len);
        return ;
    }
    let ghost orig = buf@;
    let end = start + len;
    let mut run: Vec<i64> = Vec::new();
    let mut k: usize = start;
    while k < end
        invariant
            start <= k <= end,
            end == start + len,
            end <= buf@.len(),
            buf@ == orig,
            run@ == orig.subrange(start as int, k as int),
        decreases end - k,
    {
        run.push(buf[k]);
        k = k + 1;
    }
    let ghost run0 = run@;
    let half = len / 2;
    sort_range(&mut run, 0, half);
    let ghost run1 = run@;
    sort_range(&mut run, half, len - half);
    
    let rest = len - half;
    let parts = vec![Partition { start: 0, len: half }, Partition { start: half, len: rest }];
    assert(partitions_sorted(run@, parts@)) by {
        assert forall|x: int, y: int| 0 <= x < y < half implies run@[x] <= run@[y] by {
            assert(run@[x] == run1[x]);
            assert(run@[y] == run1[y]);
        }
        assert(parts@[0] == Partition { start: 0, len: half });
        assert(parts@[1] == Partition { start: half, len: rest });
    }
    assert(is_cover(parts@, run@.len() as int)) by {
        assert(parts@[0int + 1].start == parts@[0int].end());
    }
    let merged = merge(&run, &parts);
    proof {
        vstd::seq_lib::to_multiset_len(merged@);
        vstd::seq_lib::to_multiset_len(run@);
    }
    let mut k: usize = 0;
    while k < len
        invariant
            k <= len,
            end == start + len,
            end <= buf@.len(),
            buf@.len() == orig.len(),
            merged@.len() == len,
            forall|j: int|
                0 <= j < orig.len() ==> #[trigger] buf@[j] == (if start <= j < start + k {
                    merged@[j - start]
                } else {
                    orig[j]
                }),
        decreases len - k,
    {
        buf.set(start + k, merged[k]);
        k = k + 1;
    }
    proof {
        assert(run0 =~= orig.subrange(start as int, end as int));
        assert(buf@.subrange(start as int, end as int) =~= merged@);
        lemma_splice_multiset(orig, buf@, start as int, end as int);
    }
}

/// Replacing the range `[lo, hi)` of `s` by a rearrangement of it keeps the
/// multiset of the whole sequence.
proof fn lemma_splice_multiset(s: Seq<i64>, t: Seq<i64>, lo: int, hi: int)
    requires
        0 <= lo <= hi <= s.len(),
        s.len() == t.len(),
        forall|k: int| 0 <= k < s.len() && !(lo <= k < hi) ==> #[trigger] t[k] == s[k],
        t.subrange(lo, hi).to_multiset() == s.subrange(lo, hi).to_multiset(),
    ensures
        t.to_multiset() == s.to_multiset(),
{
    let n = s.len() as int;
    assert(s =~= s.subrange(0, lo) + s.subrange(lo, hi) + s.subrange(hi, n));
    assert(t =~= t.subrange(0, lo) + t.subrange(lo, hi) + t.subrange(hi, n));
    assert(t.subrange(0, lo) =~= s.subrange(0, lo));
    assert(t.subrange(hi, n) =~= s.subrange(hi, n));
    vstd::seq_lib::lemma_multiset_commutative(s.subrange(0, lo) + s.subrange(lo, hi), s.subrange(hi, n));
    vstd::seq_lib::lemma_multiset_commutative(s.subrange(0, lo), s.subrange(lo, hi));
    vstd::seq_lib::lemma_multiset_commutative(t.subrange(0, lo) + t.subrange(lo, hi), t.subrange(hi, n));
    vstd::seq_lib::lemma_multiset_commutative(t.subrange(0, lo), t.subrange(lo, hi));
}

/// Two sequences of equal length that agree outside `[lo, hi)` and have the
/// same multiset also have the same multiset inside `[lo, hi)`.
proof fn lemma_range_multiset(s: Seq<i64>, t: Seq<i64>, lo: int, hi: int)
    requires
        0 <= lo <= hi <= s.len(),
        s.len() == t.len(),
        forall|k: int| 0 <= k < s.len() && !(lo <= k < hi) ==> #[trigger] t[k] == s[k],
        t.to_multiset() == s.to_multiset(),
    ensures
        t.subrange(lo, hi).to_multiset() == s.subrange(lo, hi).to_multiset(),
{
    let n = s.len() as int;
    assert(s =~= s.subrange(0, lo) + s.subrange(lo, hi) + s.subrange(hi, n));
    assert(t =~= t.subrange(0, lo) + t.subrange(lo, hi) + t.subrange(hi, n));
    assert(t.subrange(0, lo) =~= s.subrange(0, lo));
    assert(t.subrange(hi, n) =~= s.subrange(hi, n));
    vstd::seq_lib::lemma_multiset_commutative(s.subrange(0, lo) + s.subrange(lo, hi), s.subrange(hi, n));
    vstd::seq_lib::lemma_multiset_commutative(s.subrange(0, lo), s.subrange(lo, hi));
    vstd::seq_lib::lemma_multiset_commutative(t.subrange(0, lo) + t.subrange(lo, hi), t.subrange(hi, n));
    vstd::seq_lib::lemma_multiset_commutative(t.subrange(0, lo), t.subrange(lo, hi));
    let a = s.subrange(0, lo).to_multiset();
    let c = s.subrange(hi, n).to_multiset();
    let b1 = s.subrange(lo, hi).to_multiset();
    let b2 = t.subrange(lo, hi).to_multiset();
    assert(s.to_multiset() == a.add(b1).add(c));
    assert(t.to_multiset() == a.add(b2).add(c));
    assert forall|x: i64| b2.count(x) == b1.count(x) by {
        assert(a.add(b1).add(c).count(x) == a.count(x) + b1.count(x) + c.count(x));
        assert(a.add(b2).add(c).count(x) == a.count(x) + b2.count(x) + c.count(x));
    }
    assert(b2 =~= b1);
}

} // verus!
