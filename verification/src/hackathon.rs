//! How a number of items is shared out among workers.

use vstd::arithmetic::div_mod::{lemma_fundamental_div_mod, lemma_mod_bound};
use vstd::prelude::*;

verus! {

/// The share of worker `idx` when `total` items go to `count` workers: each
/// gets the same, and the first workers get one more each until the rest of
/// the division is used up.
pub open spec fn share(idx: int, total: int, count: int) -> int {
    total / count + if idx < total % count {
        1int
    } else {
        0int
    }
}

/// What the workers before worker `n` get together.
pub open spec fn shares_before(n: int, total: int, count: int) -> int
    decreases n,
{
    if n <= 0 {
        0
    } else {
        shares_before(n - 1, total, count) + share(n - 1, total, count)
    }
}

proof fn lemma_shares_before(n: int, total: int, count: int)
    requires
        0 <= n,
        0 <= total,
        0 < count,
    ensures
        shares_before(n, total, count) == n * (total / count) + if n < total % count {
            n
        } else {
            total % count
        },
    decreases n,
{
    lemma_mod_bound(total, count);
    if n > 0 {
        lemma_shares_before(n - 1, total, count);
        assert((n - 1) * (total / count) + (total / count) == n * (total / count))
            by (nonlinear_arith);
    } else {
        assert(0 * (total / count) == 0);
    }
}

/// The shares of all workers add up to what was to be shared, and no worker
/// starts behind the end.
pub proof fn lemma_shares_add_up(n: int, total: int, count: int)
    requires
        0 <= n <= count,
        0 <= total,
        0 < count,
    ensures
        shares_before(count, total, count) == total,
        0 <= shares_before(n, total, count) <= total,
        0 <= share(n, total, count),
        n < count ==> shares_before(n, total, count) + share(n, total, count) <= total,
    decreases count - n,
{
    lemma_shares_before(count, total, count);
    lemma_shares_before(n, total, count);
    lemma_mod_bound(total, count);
    lemma_fundamental_div_mod(total, count);
    let base = total / count;
    assert(count * base == base * count) by (nonlinear_arith);
    assert(0 <= base) by (nonlinear_arith)
        requires
            0 <= total,
            0 < count,
            base == total / count,
    ;
    assert(n * base <= count * base) by (nonlinear_arith)
        requires
            0 <= n <= count,
            0 <= base,
    ;
    assert(0 <= n * base) by (nonlinear_arith)
        requires
            0 <= n,
            0 <= base,
    ;
    if n < count {
        lemma_shares_add_up(n + 1, total, count);
    }
}

/// The number of items that worker `idx` of `count` gets of `total`.
pub fn per_thread_amount(idx: usize, total: usize, count: usize) -> (r: usize)
    requires
        count > 0,
    ensures
        r == share(idx as int, total as int, count as int),
{
    let base = total / count;
    let extra = total % count;
    proof {
        lemma_fundamental_div_mod(total as int, count as int);
        lemma_mod_bound(total as int, count as int);
        if extra > 0 {
            assert(base < total) by (nonlinear_arith)
                requires
                    total == count * base + extra,
                    extra > 0,
                    count > 0,
                    base >= 0,
            ;
        }
    }
    if idx < extra {
        base + 1
    } else {
        base
    }
}

/// For each of `count` workers, in order, the index of its first item and
/// the number of its items, when `total` items are shared out. The ranges
/// follow one another and cover all items.
pub fn allocate(total: usize, count: usize) -> (r: Vec<(usize, usize)>)
    requires
        count > 0,
    ensures
        r.len() == count,
        forall|i: int|
            0 <= i < count ==> (#[trigger] r[i]).0 == shares_before(i, total as int, count as int)
                && r[i].1 == share(i, total as int, count as int),
        shares_before(count as int, total as int, count as int) == total,
{
    let mut ranges: Vec<(usize, usize)> = Vec::new();
    let mut start: usize = 0;
    let mut i: usize = 0;
    proof {
        lemma_shares_add_up(0, total as int, count as int);
    }
    while i < count
        invariant
            i <= count,
            count > 0,
            ranges.len() == i,
            start == shares_before(i as int, total as int, count as int),
            forall|k: int|
                0 <= k < i ==> (#[trigger] ranges[k]).0 == shares_before(
                    k,
                    total as int,
                    count as int,
                ) && ranges[k].1 == share(k, total as int, count as int),
        decreases count - i,
    {
        let amount = per_thread_amount(i, total, count);
        proof {
            lemma_shares_add_up(i as int, total as int, count as int);
        }
        ranges.push((start, amount));
        start = start + amount;
        i += 1;
    }
    ranges
}

} // verus!
