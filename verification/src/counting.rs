//! Counting and summing over `0..n`.

use vstd::prelude::*;

verus! {

/// How many `i` in `0..n` satisfy `p`.
pub open spec fn count(p: spec_fn(int) -> bool, n: int) -> nat
    decreases n,
{
    if n <= 0 {
        0
    } else {
        count(p, n - 1) + (if p(n - 1) {
            1nat
        } else {
            0nat
        })
    }
}

/// The sum of `f(i)` over `i` in `0..n`.
pub open spec fn sum(f: spec_fn(int) -> int, n: int) -> int
    decreases n,
{
    if n <= 0 {
        0
    } else {
        sum(f, n - 1) + f(n - 1)
    }
}

/// A count is at most the size of its range.
pub proof fn count_bound(p: spec_fn(int) -> bool, n: int)
    requires
        0 <= n,
    ensures
        count(p, n) <= n,
    decreases n,
{
    if n > 0 {
        count_bound(p, n - 1);
    }
}

/// A stronger predicate counts no more.
pub proof fn count_le(p: spec_fn(int) -> bool, q: spec_fn(int) -> bool, n: int)
    requires
        forall|i: int| 0 <= i < n && #[trigger] p(i) ==> q(i),
    ensures
        count(p, n) <= count(q, n),
    decreases n,
{
    if n > 0 {
        count_le(p, q, n - 1);
        assert(p(n - 1) ==> q(n - 1));
    }
}

/// Predicates that agree on the range count the same.
pub proof fn count_eq(p: spec_fn(int) -> bool, q: spec_fn(int) -> bool, n: int)
    requires
        forall|i: int| 0 <= i < n ==> #[trigger] p(i) == q(i),
    ensures
        count(p, n) == count(q, n),
    decreases n,
{
    if n > 0 {
        count_eq(p, q, n - 1);
        assert(p(n - 1) == q(n - 1));
    }
}

/// A predicate that holds at one more place counts one more.
pub proof fn count_insert(p: spec_fn(int) -> bool, q: spec_fn(int) -> bool, n: int, k: int)
    requires
        0 <= k < n,
        !p(k),
        q(k),
        forall|i: int| 0 <= i < n && i != k ==> #[trigger] p(i) == q(i),
    ensures
        count(q, n) == count(p, n) + 1,
    decreases n,
{
    if k == n - 1 {
        count_eq(p, q, n - 1);
    } else {
        count_insert(p, q, n - 1, k);
        assert(p(n - 1) == q(n - 1));
    }
}

/// A weaker predicate that holds at some further place counts more.
pub proof fn count_lt(p: spec_fn(int) -> bool, q: spec_fn(int) -> bool, n: int, k: int)
    requires
        0 <= k < n,
        !p(k),
        q(k),
        forall|i: int| 0 <= i < n && #[trigger] p(i) ==> q(i),
    ensures
        count(p, n) < count(q, n),
    decreases n,
{
    if k == n - 1 {
        count_le(p, q, n - 1);
    } else {
        count_lt(p, q, n - 1, k);
        assert(p(n - 1) ==> q(n - 1));
    }
}

/// A positive count has a witness.
pub proof fn count_witness(p: spec_fn(int) -> bool, n: int) -> (k: int)
    requires
        count(p, n) > 0,
    ensures
        0 <= k < n,
        p(k),
    decreases n,
{
    if p(n - 1) {
        n - 1
    } else {
        count_witness(p, n - 1)
    }
}

/// A witness makes the count positive.
pub proof fn count_positive(p: spec_fn(int) -> bool, n: int, k: int)
    requires
        0 <= k < n,
        p(k),
    ensures
        count(p, n) > 0,
    decreases n,
{
    if k < n - 1 {
        count_positive(p, n - 1, k);
    }
}

/// A count over a longer range is no smaller.
pub proof fn count_monotone(p: spec_fn(int) -> bool, m: int, n: int)
    requires
        m <= n,
    ensures
        count(p, m) <= count(p, n),
    decreases n,
{
    if 0 < n && m < n {
        count_monotone(p, m, n - 1);
    }
}

/// Functions that agree on the range have the same sum.
pub proof fn sum_eq(f: spec_fn(int) -> int, h: spec_fn(int) -> int, n: int)
    requires
        forall|i: int| 0 <= i < n ==> #[trigger] f(i) == h(i),
    ensures
        sum(f, n) == sum(h, n),
    decreases n,
{
    if n > 0 {
        sum_eq(f, h, n - 1);
        assert(f(n - 1) == h(n - 1));
    }
}

/// A sum of terms between zero and `b`.
pub proof fn sum_bound(f: spec_fn(int) -> int, n: int, b: int)
    requires
        0 <= n,
        forall|i: int| 0 <= i < n ==> 0 <= #[trigger] f(i) <= b,
    ensures
        0 <= sum(f, n) <= n * b,
    decreases n,
{
    if n > 0 {
        sum_bound(f, n - 1, b);
        assert(0 <= f(n - 1) <= b);
        assert(n * b == (n - 1) * b + b) by (nonlinear_arith);
    } else {
        assert(n * b == 0) by (nonlinear_arith)
            requires
                n == 0,
        ;
    }
}

/// Changing one term changes the sum by the difference.
pub proof fn sum_one(f: spec_fn(int) -> int, h: spec_fn(int) -> int, n: int, k: int)
    requires
        0 <= k < n,
        forall|i: int| 0 <= i < n && i != k ==> #[trigger] f(i) == h(i),
    ensures
        sum(h, n) == sum(f, n) + h(k) - f(k),
    decreases n,
{
    if k == n - 1 {
        sum_eq(f, h, n - 1);
    } else {
        sum_one(f, h, n - 1, k);
        assert(f(n - 1) == h(n - 1));
    }
}

/// Changing two terms changes the sum by both differences.
pub proof fn sum_two(f: spec_fn(int) -> int, h: spec_fn(int) -> int, n: int, a: int, b: int)
    requires
        0 <= a < n,
        0 <= b < n,
        a != b,
        forall|i: int| 0 <= i < n && i != a && i != b ==> #[trigger] f(i) == h(i),
    ensures
        sum(h, n) == sum(f, n) + (h(a) - f(a)) + (h(b) - f(b)),
{
    let m = |i: int| if i == a { h(a) } else { f(i) };
    sum_one(f, m, n, a);
    assert forall|i: int| 0 <= i < n && i != b implies #[trigger] m(i) == h(i) by {
        if i != a {
            assert(f(i) == h(i));
        }
    }
    sum_one(m, h, n, b);
}

/// A sum of numbers that are not negative is zero exactly if all of them are.
pub proof fn sum_zero_iff(f: spec_fn(int) -> int, n: int)
    requires
        forall|i: int| 0 <= i < n ==> #[trigger] f(i) >= 0,
    ensures
        sum(f, n) >= 0,
        sum(f, n) == 0 <==> forall|i: int| 0 <= i < n ==> #[trigger] f(i) == 0,
    decreases n,
{
    if n > 0 {
        sum_zero_iff(f, n - 1);
        assert(f(n - 1) >= 0);
        if sum(f, n) == 0 {
            assert forall|i: int| 0 <= i < n implies #[trigger] f(i) == 0 by {}
        }
    }
}

/// Two indices with a property are counted.
pub proof fn two_are_counted(p: spec_fn(int) -> bool, n: int, a: int, b: int)
    ensures
        0 <= a < n && p(a) ==> count(p, n) >= 1,
        0 <= b < n && p(b) ==> count(p, n) >= 1,
        0 <= a < n && 0 <= b < n && a != b && p(a) && p(b) ==> count(p, n) >= 2,
    decreases n,
{
    if n > 0 {
        two_are_counted(p, n - 1, a, b);
    }
}

} // verus!
