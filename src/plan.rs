use vstd::prelude::*;

use crate::error::SortError;

verus! {

/// A worker's exclusive, contiguous sub-range `[start, start + len)` of the
/// buffer.
#[derive(Clone, Copy, Debug, PartialEq, Eq, Structural)]
pub struct Partition {
    pub start: usize,
    pub len: usize,
}

impl Partition {
    /// One past the last index of the partition.
    pub open spec fn end(self) -> int {
        self.start + self.len
    }
}

/// `parts` tiles `[0, total)`: the first starts at 0, each one starts where
/// the previous one ends, and the last ends at `total`.
pub open spec fn is_cover(parts: Seq<Partition>, total: int) -> bool {
    &&& parts.len() >= 1
    &&& parts[0].start == 0
    &&& forall|i: int| 0 <= i < parts.len() - 1 ==> #[trigger] parts[i + 1].start == parts[i].end()
    &&& parts.last().end() == total
}

/// Index `k` lies inside one of `parts`.
pub open spec fn in_some_partition(parts: Seq<Partition>, k: int) -> bool {
    exists|i: int| 0 <= i < parts.len() && #[trigger] parts[i].start <= k < parts[i].end()
}

/// The partitions of a cover lie in ascending order without overlap, inside
/// `[0, total)`.
pub proof fn lemma_cover_ordered(parts: Seq<Partition>, total: int)
    requires
        is_cover(parts, total),
    ensures
        forall|i: int, j: int|
            0 <= i < j < parts.len() ==> #[trigger] parts[i].end() <= #[trigger] parts[j].start,
        forall|i: int| 0 <= i < parts.len() ==> #[trigger] parts[i].end() <= total,
{
    assert forall|i: int, j: int| 0 <= i < j < parts.len() implies #[trigger] parts[i].end()
        <= #[trigger] parts[j].start by {
        lemma_cover_step(parts, total, i, j);
    }
    assert forall|i: int| 0 <= i < parts.len() implies #[trigger] parts[i].end() <= total by {
        if i < parts.len() - 1 {
            lemma_cover_step(parts, total, i, parts.len() - 1);
        }
    }
}

proof fn lemma_cover_step(parts: Seq<Partition>, total: int, i: int, j: int)
    requires
        is_cover(parts, total),
        0 <= i < j < parts.len(),
    ensures
        parts[i].end() <= parts[j].start,
    decreases j - i,
{
    assert(parts[(j - 1) + 1].start == parts[j - 1].end());
    if i < j - 1 {
        lemma_cover_step(parts, total, i, j - 1);
    }
}

/// The plan for `workers` workers over `total` elements: every partition
/// holds `total / workers` elements, and the remainder `total % workers` is
/// added to the last partition.
pub open spec fn plan_spec(total: usize, workers: usize) -> Seq<Partition>
    recommends
        1 <= workers <= total,
{
    let q = total / workers;
    Seq::new(
        workers as nat,
        |i: int|
            Partition {
                start: (i * q) as usize,
                len: if i == workers - 1 {
                    (q + total % workers) as usize
                } else {
                    q
                },
            },
    )
}

proof fn lemma_plan_bounds(total: usize, workers: usize, i: int)
    requires
        1 <= workers <= total,
        0 <= i < workers,
    ensures
        0 <= i * ((total as int / workers as int)) <= total,
        (i + 1) * ((total as int / workers as int)) <= total,
        (workers - 1) * ((total as int / workers as int)) + ((total as int / workers as int)) + (total as int % workers as int)
            == total,
        (total as int / workers as int) >= 1,
{
    let q = (total as int / workers as int);
    let r = (total as int % workers as int);
    assert(total == workers * q + r && 0 <= r < workers) by (nonlinear_arith)
        requires
            workers >= 1,
            q == (total as int / workers as int),
            r == (total as int % workers as int),
    ;
    assert(q >= 1) by (nonlinear_arith)
        requires
            total == workers * q + r,
            0 <= r < workers,
            workers <= total,
    ;
    assert(0 <= i * q <= total && (i + 1) * q <= total) by (nonlinear_arith)
        requires
            total == workers * q + r,
            0 <= r,
            q >= 1,
            0 <= i < workers,
    ;
    assert((workers - 1) * q + q + r == total) by (nonlinear_arith)
        requires
            total == workers * q + r,
    ;
}

/// Splits `total` elements into `workers` contiguous partitions of
/// `total / workers` elements each, the remainder going to the last one.
/// Fails with `InvalidConfiguration` when there are no workers or more
/// workers than elements.
pub fn plan(total: usize, workers: usize) -> (r: Result<Vec<Partition>, SortError>)
    ensures
        r.is_ok() <==> 1 <= workers <= total,
        r.is_err() ==> r == Err::<Vec<Partition>, SortError>(SortError::InvalidConfiguration),
        r.is_ok() ==> r.unwrap()@ == plan_spec(total, workers),
        r.is_ok() ==> is_cover(r.unwrap()@, total as int),
{
    if workers == 0 || workers > total {
        return Err(SortError::InvalidConfiguration);
    }
    let q = total / workers;
    let rem = total % workers;
    let mut parts: Vec<Partition> = Vec::new();
    let mut i: usize = 0;
    let mut start: usize = 0;
    while i < workers
        invariant
            1 <= workers <= total,
            q == total / workers,
            rem == total % workers,
            i <= workers,
            start == i * q,
            parts@.len() == i,
            forall|k: int| 0 <= k < i ==> #[trigger] parts@[k] == plan_spec(total, workers)[k],
        decreases workers - i,
    {
        proof {
            lemma_plan_bounds(total, workers, i as int);
        }
        let len = if i == workers - 1 {
            q + rem
        } else {
            q
        };
        parts.push(Partition { start, len });
        assert((i + 1) * q == i * q + q) by (nonlinear_arith);
        start = start + q;
        i = i + 1;
    }
    assert(parts@ =~= plan_spec(total, workers));
    proof {
        lemma_plan_is_cover(total, workers);
    }
    Ok(parts)
}

proof fn lemma_plan_is_cover(total: usize, workers: usize)
    requires
        1 <= workers <= total,
    ensures
        is_cover(plan_spec(total, workers), total as int),
{
    let ps = plan_spec(total, workers);
    let q = (total as int / workers as int);
    assert forall|i: int| 0 <= i < ps.len() - 1 implies #[trigger] ps[i + 1].start == ps[i].end() by {
        lemma_plan_bounds(total, workers, i);
        lemma_plan_bounds(total, workers, i + 1);
        assert((i + 1) * q == i * q + q) by (nonlinear_arith);
    }
    lemma_plan_bounds(total, workers, workers - 1);
    lemma_plan_bounds(total, workers, 0);
}

/// For `1 <= workers <= total` the plan has one partition per worker; every
/// partition is non-empty and lies inside `[0, total)`; partitions come in
/// ascending order and never overlap; and every index of `[0, total)` lies in
/// one of them.
pub proof fn lemma_plan_cover(total: usize, workers: usize)
    requires
        1 <= workers <= total,
    ensures
        plan_spec(total, workers).len() == workers,
        forall|i: int|
            0 <= i < workers ==> {
                let p = #[trigger] plan_spec(total, workers)[i];
                p.len >= 1 && p.end() <= total
            },
        forall|i: int, j: int|
            0 <= i < j < workers ==> #[trigger] plan_spec(total, workers)[i].end()
                <= #[trigger] plan_spec(total, workers)[j].start,
        forall|k: int| 0 <= k < total ==> #[trigger] in_some_partition(plan_spec(total, workers), k),
{
    let ps = plan_spec(total, workers);
    let q = total as int / workers as int;
    let r = total as int % workers as int;
    lemma_plan_bounds(total, workers, 0);
    assert(total == workers * q + r && 0 <= r < workers) by (nonlinear_arith)
        requires
            workers >= 1,
            q == total as int / workers as int,
            r == total as int % workers as int,
    ;
    assert forall|i: int| 0 <= i < workers implies {
        let p = #[trigger] ps[i];
        p.len >= 1 && p.end() <= total
    } by {
        lemma_plan_bounds(total, workers, i);
        assert(ps[i].start == i * q);
        if i < workers - 1 {
            assert(ps[i].len == q);
            assert((i + 1) * q == i * q + q) by (nonlinear_arith);
        } else {
            assert(ps[i].len == q + r);
        }
    }
    assert forall|i: int, j: int| 0 <= i < j < workers implies #[trigger] ps[i].end()
        <= #[trigger] ps[j].start by {
        lemma_plan_bounds(total, workers, i);
        lemma_plan_bounds(total, workers, j);
        assert((i + 1) * q <= j * q) by (nonlinear_arith)
            requires
                i < j,
                q >= 1,
        ;
        assert((i + 1) * q == i * q + q) by (nonlinear_arith);
    }
    assert forall|k: int| 0 <= k < total implies #[trigger] in_some_partition(ps, k) by {
        let d = k / q;
        assert(0 <= d && d * q <= k < d * q + q) by (nonlinear_arith)
            requires
                0 <= k,
                q >= 1,
                d == k / q,
        ;
        if d < workers - 1 {
            lemma_plan_bounds(total, workers, d);
            assert(ps[d].start <= k < ps[d].end());
        } else {
            let i = workers - 1;
            lemma_plan_bounds(total, workers, i);
            assert(i * q <= d * q) by (nonlinear_arith)
                requires
                    i <= d,
                    q >= 1,
            ;
            assert(ps[i].start <= k < ps[i].end());
        }
    }
}

} // verus!
