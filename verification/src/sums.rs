use vstd::prelude::*;

use crate::resource::abs;

verus! {

/// `f(0) + f(1) + ... + f(n - 1)`.
pub open spec fn sum_below(n: int, f: spec_fn(int) -> int) -> int
    decreases n,
{
    if n <= 0 {
        0
    } else {
        sum_below(n - 1, f) + f(n - 1)
    }
}

/// The number of `i` in `0 .. n` with `p(i)`.
pub open spec fn count_below(n: int, p: spec_fn(int) -> bool) -> int
    decreases n,
{
    if n <= 0 {
        0
    } else {
        count_below(n - 1, p) + if p(n - 1) {
            1int
        } else {
            0int
        }
    }
}

pub proof fn lemma_sum_mono(n: int, f: spec_fn(int) -> int, g: spec_fn(int) -> int)
    requires
        forall|i: int| 0 <= i < n ==> #[trigger] f(i) <= g(i),
    ensures
        sum_below(n, f) <= sum_below(n, g),
    decreases n,
{
    if n > 0 {
        lemma_sum_mono(n - 1, f, g);
    }
}

pub proof fn lemma_sum_ext(n: int, f: spec_fn(int) -> int, g: spec_fn(int) -> int)
    requires
        forall|i: int| 0 <= i < n ==> #[trigger] f(i) == g(i),
    ensures
        sum_below(n, f) == sum_below(n, g),
    decreases n,
{
    if n > 0 {
        lemma_sum_ext(n - 1, f, g);
    }
}

/// A sum of terms that are all zero is zero.
pub proof fn lemma_sum_zero(n: int, f: spec_fn(int) -> int)
    requires
        forall|i: int| 0 <= i < n ==> #[trigger] f(i) == 0,
    ensures
        sum_below(n, f) == 0,
    decreases n,
{
    if n > 0 {
        lemma_sum_zero(n - 1, f);
    }
}

/// Adding nonnegative terms never decreases a sum.
pub proof fn lemma_sum_prefix(m: int, n: int, f: spec_fn(int) -> int)
    requires
        0 <= m <= n,
        forall|i: int| m <= i < n ==> 0 <= #[trigger] f(i),
    ensures
        sum_below(m, f) <= sum_below(n, f),
    decreases n - m,
{
    if m < n {
        lemma_sum_prefix(m, n - 1, f);
    }
}

pub proof fn lemma_sum_nonneg(n: int, f: spec_fn(int) -> int)
    requires
        forall|j: int| 0 <= j < n ==> 0 <= #[trigger] f(j),
    ensures
        0 <= sum_below(n, f),
    decreases n,
{
    if n > 0 {
        lemma_sum_nonneg(n - 1, f);
    }
}

/// If each term of `f` is bounded in size by the term of `g`, and the term
/// at `i` leaves room for `extra` besides, then so does the whole sum.
pub proof fn lemma_sum_abs_bound(
    n: int,
    f: spec_fn(int) -> int,
    g: spec_fn(int) -> int,
    i: int,
    extra: int,
)
    requires
        forall|j: int| 0 <= j < n ==> abs(#[trigger] f(j)) + (if j == i { extra } else { 0 }) <= g(j),
        0 <= extra,
        0 <= i < n || extra == 0,
    ensures
        abs(sum_below(n, f)) + extra <= sum_below(n, g),
    decreases n,
{
    if n > 0 {
        if i == n - 1 {
            lemma_sum_abs_bound(n - 1, f, g, i, 0);
        } else {
            lemma_sum_abs_bound(n - 1, f, g, i, extra);
        }
    }
}

/// Changing one term of a sum by `c` changes the sum by `c`.
pub proof fn lemma_sum_change_one(n: int, f: spec_fn(int) -> int, g: spec_fn(int) -> int, i: int, c: int)
    requires
        0 <= i < n,
        forall|j: int| 0 <= j < n ==> #[trigger] g(j) == f(j) + (if j == i { c } else { 0 }),
    ensures
        sum_below(n, g) == sum_below(n, f) + c,
    decreases n,
{
    if i < n - 1 {
        lemma_sum_change_one(n - 1, f, g, i, c);
    } else {
        lemma_sum_ext(n - 1, f, g);
    }
}

pub proof fn lemma_count_bounds(n: int, p: spec_fn(int) -> bool)
    requires
        0 <= n,
    ensures
        0 <= count_below(n, p) <= n,
    decreases n,
{
    if n > 0 {
        lemma_count_bounds(n - 1, p);
    }
}

/// Counting a weaker predicate gives at least as much; strictly more when
/// some index satisfies only the weaker one.
pub proof fn lemma_count_mono(n: int, p: spec_fn(int) -> bool, q: spec_fn(int) -> bool)
    requires
        forall|i: int| 0 <= i < n && #[trigger] p(i) ==> q(i),
    ensures
        count_below(n, p) <= count_below(n, q),
        (exists|i: int| 0 <= i < n && #[trigger] q(i) && !p(i)) ==> count_below(n, p) < count_below(n, q),
    decreases n,
{
    if n > 0 {
        lemma_count_mono(n - 1, p, q);
        if exists|i: int| 0 <= i < n && #[trigger] q(i) && !p(i) {
            let w = choose|i: int| 0 <= i < n && #[trigger] q(i) && !p(i);
            if w < n - 1 {
                assert(exists|i: int| 0 <= i < n - 1 && #[trigger] q(i) && !p(i));
            }
        }
    }
}

/// `count_below` is the number of elements of the set of indices below `n`
/// that satisfy `p`.
pub proof fn lemma_count_is_card(n: int, p: spec_fn(int) -> bool)
    requires
        0 <= n,
    ensures
        Set::new(|j: int| 0 <= j < n && p(j)).finite(),
        Set::new(|j: int| 0 <= j < n && p(j)).len() == count_below(n, p),
    decreases n,
{
    let s = Set::new(|j: int| 0 <= j < n && p(j));
    if n == 0 {
        assert(s =~= Set::<int>::empty());
    } else {
        lemma_count_is_card(n - 1, p);
        let prev = Set::new(|j: int| 0 <= j < n - 1 && p(j));
        if p(n - 1) {
            assert(s =~= prev.insert(n - 1));
            assert(!prev.contains(n - 1));
        } else {
            assert(s =~= prev);
        }
    }
}

} // verus!
