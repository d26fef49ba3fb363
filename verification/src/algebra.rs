//! What scalars have to be for the laws of arithmetic to hold of what is computed with them.
//!
//! Nothing in the library relies on these: they are what a law takes for granted where it says
//! what a computation means beyond the order of its operations. Exact numbers have them;
//! rounded ones come close.
use crate::scalar::Real;
use vstd::prelude::*;

verus! {

/// The laws of a commutative ring, of three scalars.
pub open spec fn ring_at<R: Real>(a: R, b: R, c: R) -> bool {
    &&& a.plus_spec(b) == b.plus_spec(a)
    &&& a.plus_spec(b).plus_spec(c) == a.plus_spec(b.plus_spec(c))
    &&& a.plus_spec(R::zero_spec()) == a
    &&& a.plus_spec(a.negate_spec()) == R::zero_spec()
    &&& a.minus_spec(b) == a.plus_spec(b.negate_spec())
    &&& a.times_spec(b) == b.times_spec(a)
    &&& a.times_spec(b).times_spec(c) == a.times_spec(b.times_spec(c))
    &&& a.times_spec(R::one_spec()) == a
    &&& a.times_spec(b.plus_spec(c)) == a.times_spec(b).plus_spec(a.times_spec(c))
}

/// Scalars form a commutative ring.
pub open spec fn ring<R: Real>() -> bool {
    forall|a: R, b: R, c: R| #[trigger] ring_at(a, b, c)
}

/// A sum of ones.
pub open spec fn natural<R: Real>(n: nat) -> R
    decreases n,
{
    if n == 0 {
        R::zero_spec()
    } else {
        natural::<R>((n - 1) as nat).plus_spec(R::one_spec())
    }
}

/// The laws of an ordered field beyond those of a ring, of three scalars: its order, fractions,
/// extremes and magnitudes.
pub open spec fn ordered_at<R: Real>(a: R, b: R, c: R) -> bool {
    &&& a == b || a.below_spec(b) || b.below_spec(a)
    &&& a.below_spec(b) ==> a != b && !b.below_spec(a)
    &&& a.below_spec(b) && b.below_spec(c) ==> a.below_spec(c)
    &&& a.at_most_spec(b) <==> !b.below_spec(a)
    &&& a.same_spec(b) <==> a == b
    &&& a.below_spec(b) ==> a.plus_spec(c).below_spec(b.plus_spec(c))
    &&& R::zero_spec().below_spec(a) && R::zero_spec().below_spec(b)
        ==> R::zero_spec().below_spec(a.times_spec(b))
    &&& a.max_spec(b) == if a.below_spec(b) {
        b
    } else {
        a
    }
    &&& a.min_spec(b) == if b.below_spec(a) {
        b
    } else {
        a
    }
    &&& a.abs_spec() == if a.below_spec(R::zero_spec()) {
        a.negate_spec()
    } else {
        a
    }
    &&& b != R::zero_spec() ==> a.over_spec(b).times_spec(b) == a
}

/// Scalars form an ordered field.
pub open spec fn ordered_field<R: Real>() -> bool {
    &&& ring::<R>()
    &&& R::zero_spec().below_spec(R::one_spec())
    &&& forall|a: R, b: R, c: R| #[trigger] ordered_at(a, b, c)
    &&& forall|n: u64, d: u64|
        d != 0 ==> (#[trigger] R::ratio_spec(n, d)).times_spec(natural::<R>(d as nat))
            == natural::<R>(n as nat)
}

/// Sums.
pub proof fn lemma_plus<R: Real>(a: R, b: R, c: R)
    requires
        ring::<R>(),
    ensures
        a.plus_spec(b) == b.plus_spec(a),
        a.plus_spec(b).plus_spec(c) == a.plus_spec(b.plus_spec(c)),
        a.plus_spec(R::zero_spec()) == a,
        R::zero_spec().plus_spec(a) == a,
        a.plus_spec(a.negate_spec()) == R::zero_spec(),
        a.negate_spec().plus_spec(a) == R::zero_spec(),
        a.minus_spec(b) == a.plus_spec(b.negate_spec()),
        a.minus_spec(a) == R::zero_spec(),
{
    assert(ring_at(a, b, c));
    assert(ring_at(R::zero_spec(), a, a));
    assert(ring_at(a.negate_spec(), a, a));
    assert(ring_at(a, a, a));
}

/// Equal summands can be left out.
pub proof fn lemma_cancel<R: Real>(a: R, b: R, c: R)
    requires
        ring::<R>(),
        a.plus_spec(b) == a.plus_spec(c),
    ensures
        b == c,
{
    lemma_plus(a.negate_spec(), a, b);
    lemma_plus(a.negate_spec(), a, c);
    lemma_plus(a, b, b);
    lemma_plus(b, b, b);
    lemma_plus(c, c, c);
}

/// Four summands can be paired the other way.
pub proof fn lemma_plus_pairs<R: Real>(a: R, b: R, c: R, d: R)
    requires
        ring::<R>(),
    ensures
        a.plus_spec(b).plus_spec(c.plus_spec(d)) == a.plus_spec(c).plus_spec(b.plus_spec(d)),
{
    lemma_plus(a, b, c.plus_spec(d));
    lemma_plus(b, c, d);
    lemma_plus(c, b, d);
    lemma_plus(a, c, b.plus_spec(d));
}

/// Products.
pub proof fn lemma_times<R: Real>(a: R, b: R, c: R)
    requires
        ring::<R>(),
    ensures
        a.times_spec(b) == b.times_spec(a),
        a.times_spec(b).times_spec(c) == a.times_spec(b.times_spec(c)),
        a.times_spec(R::one_spec()) == a,
        R::one_spec().times_spec(a) == a,
        a.times_spec(b.plus_spec(c)) == a.times_spec(b).plus_spec(a.times_spec(c)),
        a.plus_spec(b).times_spec(c) == a.times_spec(c).plus_spec(b.times_spec(c)),
{
    assert(ring_at(a, b, c));
    assert(ring_at(R::one_spec(), a, a));
    assert(ring_at(a.plus_spec(b), c, c));
    assert(ring_at(c, a, b));
    assert(ring_at(c, b, b));
}

/// Products with zero.
pub proof fn lemma_times_zero<R: Real>(a: R)
    requires
        ring::<R>(),
    ensures
        a.times_spec(R::zero_spec()) == R::zero_spec(),
        R::zero_spec().times_spec(a) == R::zero_spec(),
{
    let zero = R::zero_spec();
    lemma_plus(zero, zero, zero);
    lemma_times(a, zero, zero);
    lemma_plus(a.times_spec(zero), zero, zero);
    lemma_cancel(a.times_spec(zero), a.times_spec(zero), zero);
}

/// Opposites.
pub proof fn lemma_negate<R: Real>(a: R, b: R)
    requires
        ring::<R>(),
    ensures
        R::zero_spec().negate_spec() == R::zero_spec(),
        a.negate_spec().negate_spec() == a,
        a.times_spec(b.negate_spec()) == a.times_spec(b).negate_spec(),
        a.negate_spec().times_spec(b) == a.times_spec(b).negate_spec(),
        a.negate_spec().times_spec(b.negate_spec()) == a.times_spec(b),
        a.plus_spec(b).negate_spec() == a.negate_spec().plus_spec(b.negate_spec()),
        R::zero_spec().minus_spec(a) == a.negate_spec(),
{
    let zero = R::zero_spec();
    lemma_plus(zero, zero, zero);
    lemma_plus(zero.negate_spec(), zero, zero);
    lemma_plus(a, a, a);
    lemma_plus(a.negate_spec(), a, a);
    lemma_cancel(a.negate_spec(), a.negate_spec().negate_spec(), a);
    lemma_opposite_product(a, b);
    lemma_opposite_product(a.negate_spec(), b);
    lemma_opposite_product(b, a);
    lemma_times(a, b, b);
    lemma_times(a.negate_spec(), b, b);
    lemma_plus(a.times_spec(b), zero, zero);
    lemma_plus(a.times_spec(b).negate_spec(), zero, zero);
    lemma_cancel(
        a.times_spec(b).negate_spec(),
        a.times_spec(b).negate_spec().negate_spec(),
        a.times_spec(b),
    );
    let sum = a.plus_spec(b);
    lemma_plus_pairs(a, b, a.negate_spec(), b.negate_spec());
    lemma_plus(b, b, b);
    lemma_plus(sum, sum, sum);
    lemma_cancel(sum, sum.negate_spec(), a.negate_spec().plus_spec(b.negate_spec()));
    lemma_plus(zero, a, a);
    lemma_plus(a.negate_spec(), zero, zero);
}

proof fn lemma_opposite_product<R: Real>(a: R, b: R)
    requires
        ring::<R>(),
    ensures
        a.times_spec(b.negate_spec()) == a.times_spec(b).negate_spec(),
{
    lemma_times(a, b, b.negate_spec());
    lemma_plus(b, b, b);
    lemma_times_zero(a);
    let product = a.times_spec(b);
    lemma_plus(product, product, product);
    lemma_cancel(product, a.times_spec(b.negate_spec()), product.negate_spec());
}

/// The sum of `term` at all numbers below `n`, in turn.
pub open spec fn sum<R: Real>(n: int, term: spec_fn(int) -> R) -> R
    decreases n,
{
    if n <= 0 {
        R::zero_spec()
    } else {
        sum(n - 1, term).plus_spec(term(n - 1))
    }
}

/// Sums of equal terms are equal.
pub proof fn lemma_sum_same<R: Real>(n: int, f: spec_fn(int) -> R, g: spec_fn(int) -> R)
    requires
        forall|i: int| 0 <= i < n ==> #[trigger] f(i) == g(i),
    ensures
        sum(n, f) == sum(n, g),
    decreases n,
{
    if n > 0 {
        lemma_sum_same(n - 1, f, g);
        assert(f(n - 1) == g(n - 1));
    }
}

/// A sum of zeros is zero.
pub proof fn lemma_sum_zero<R: Real>(n: int, f: spec_fn(int) -> R)
    requires
        ring::<R>(),
        forall|i: int| 0 <= i < n ==> #[trigger] f(i) == R::zero_spec(),
    ensures
        sum(n, f) == R::zero_spec(),
    decreases n,
{
    if n > 0 {
        lemma_sum_zero(n - 1, f);
        assert(f(n - 1) == R::zero_spec());
        lemma_plus(R::zero_spec(), R::zero_spec(), R::zero_spec());
    }
}

/// A sum of sums splits.
pub proof fn lemma_sum_plus<R: Real>(
    n: int,
    f: spec_fn(int) -> R,
    g: spec_fn(int) -> R,
    h: spec_fn(int) -> R,
)
    requires
        ring::<R>(),
        forall|i: int| 0 <= i < n ==> #[trigger] h(i) == f(i).plus_spec(g(i)),
    ensures
        sum(n, h) == sum(n, f).plus_spec(sum(n, g)),
    decreases n,
{
    if n <= 0 {
        lemma_plus(R::zero_spec(), R::zero_spec(), R::zero_spec());
    } else {
        lemma_sum_plus(n - 1, f, g, h);
        assert(h(n - 1) == f(n - 1).plus_spec(g(n - 1)));
        lemma_plus_pairs(sum(n - 1, f), sum(n - 1, g), f(n - 1), g(n - 1));
    }
}

/// A common factor leaves a sum.
pub proof fn lemma_sum_times<R: Real>(
    n: int,
    factor: R,
    f: spec_fn(int) -> R,
    h: spec_fn(int) -> R,
)
    requires
        ring::<R>(),
        forall|i: int| 0 <= i < n ==> #[trigger] h(i) == factor.times_spec(f(i)),
    ensures
        sum(n, h) == factor.times_spec(sum(n, f)),
    decreases n,
{
    if n <= 0 {
        lemma_times_zero(factor);
    } else {
        lemma_sum_times(n - 1, factor, f, h);
        assert(h(n - 1) == factor.times_spec(f(n - 1)));
        lemma_times(factor, sum(n - 1, f), f(n - 1));
    }
}

/// A sum of opposites is the opposite of the sum.
pub proof fn lemma_sum_negate<R: Real>(n: int, f: spec_fn(int) -> R, h: spec_fn(int) -> R)
    requires
        ring::<R>(),
        forall|i: int| 0 <= i < n ==> #[trigger] h(i) == f(i).negate_spec(),
    ensures
        sum(n, h) == sum(n, f).negate_spec(),
    decreases n,
{
    if n <= 0 {
        lemma_negate(R::zero_spec(), R::zero_spec());
    } else {
        lemma_sum_negate(n - 1, f, h);
        assert(h(n - 1) == f(n - 1).negate_spec());
        lemma_negate(sum(n - 1, f), f(n - 1));
    }
}

/// Two sums can be nested either way.
pub proof fn lemma_sum_swap<R: Real>(n: int, m: int, f: spec_fn(int, int) -> R)
    requires
        ring::<R>(),
    ensures
        sum(n, |i: int| sum(m, |j: int| f(i, j))) == sum(m, |j: int| sum(n, |i: int| f(i, j))),
    decreases n,
{
    let inner = |i: int| sum(m, |j: int| f(i, j));
    let outer = |j: int| sum(n, |i: int| f(i, j));
    if n <= 0 {
        lemma_sum_zero(m, outer);
    } else {
        let before = |j: int| sum(n - 1, |i: int| f(i, j));
        let last = |j: int| f(n - 1, j);
        lemma_sum_swap(n - 1, m, f);
        assert forall|j: int| 0 <= j < m implies #[trigger] outer(j) == before(j).plus_spec(
            last(j),
        ) by {
            let column = |i: int| f(i, j);
            assert(sum(n, column) == sum(n - 1, column).plus_spec(column(n - 1)));
        }
        lemma_sum_plus(m, before, last, outer);
        assert(inner(n - 1) == sum(m, |j: int| f(n - 1, j)));
        assert(sum(n, inner) == sum(n - 1, inner).plus_spec(inner(n - 1)));
    }
}

/// A sum of terms that vanish outside a range is the sum over the range.
pub proof fn lemma_sum_window<R: Real>(
    n: int,
    start: int,
    len: int,
    f: spec_fn(int) -> R,
    g: spec_fn(int) -> R,
)
    requires
        ring::<R>(),
        0 <= start,
        0 <= len,
        start + len <= n,
        forall|i: int| 0 <= i < n && !(start <= i < start + len) ==> #[trigger] f(i)
            == R::zero_spec(),
        forall|i: int| 0 <= i < len ==> #[trigger] g(i) == f(start + i),
    ensures
        sum(n, f) == sum(len, g),
    decreases n,
{
    if n <= 0 {
    } else if start + len < n {
        lemma_sum_window(n - 1, start, len, f, g);
        assert(f(n - 1) == R::zero_spec());
        lemma_plus(sum(n - 1, f), R::zero_spec(), R::zero_spec());
    } else if len == 0 {
        lemma_sum_zero(n, f);
    } else {
        assert(g(len - 1) == f(start + (len - 1)));
        lemma_sum_window(n - 1, start, len - 1, f, g);
    }
}

/// The order of scalars.
pub proof fn lemma_order<R: Real>(a: R, b: R, c: R)
    requires
        ordered_field::<R>(),
    ensures
        a.at_most_spec(a),
        a.at_most_spec(b) || b.at_most_spec(a),
        a.at_most_spec(b) && b.at_most_spec(a) ==> a == b,
        a.at_most_spec(b) && b.at_most_spec(c) ==> a.at_most_spec(c),
        a.below_spec(b) <==> !b.at_most_spec(a),
        a.below_spec(b) ==> a.at_most_spec(b) && a != b,
        a.below_spec(b) && b.at_most_spec(c) ==> a.below_spec(c),
        a.at_most_spec(b) && b.below_spec(c) ==> a.below_spec(c),
        a.at_most_spec(b) ==> a.max_spec(b) == b && b.max_spec(a) == b,
        a.at_most_spec(b) ==> a.min_spec(b) == a && b.min_spec(a) == a,
{
    assert(ordered_at(a, a, a));
    assert(ordered_at(a, b, c));
    assert(ordered_at(b, a, a));
    assert(ordered_at(b, c, c));
    assert(ordered_at(c, b, a));
    assert(ordered_at(a, c, c));
    assert(ordered_at(c, a, b));
    assert(ordered_at(b, c, a));
    assert(ordered_at(c, a, a));
}

/// Holding to a bound keeps the order.
pub proof fn lemma_bounds_order<R: Real>(a: R, b: R, bound: R)
    requires
        ordered_field::<R>(),
        a.at_most_spec(b),
    ensures
        a.max_spec(bound).at_most_spec(b.max_spec(bound)),
        a.min_spec(bound).at_most_spec(b.min_spec(bound)),
{
    lemma_order(a, b, bound);
    lemma_order(a, bound, b);
    lemma_order(b, bound, a);
    lemma_order(bound, a, b);
    lemma_order(bound, b, a);
    lemma_order(bound, bound, bound);
}

/// Equal summands keep the order.
pub proof fn lemma_plus_order<R: Real>(a: R, b: R, c: R)
    requires
        ordered_field::<R>(),
    ensures
        a.at_most_spec(b) <==> a.plus_spec(c).at_most_spec(b.plus_spec(c)),
        a.at_most_spec(b) <==> c.plus_spec(a).at_most_spec(c.plus_spec(b)),
        a.below_spec(b) <==> a.plus_spec(c).below_spec(b.plus_spec(c)),
{
    lemma_order(a, b, c);
    lemma_order(b, a, c);
    lemma_order(a.plus_spec(c), b.plus_spec(c), c);
    lemma_order(b.plus_spec(c), a.plus_spec(c), c);
    lemma_plus(c, a, b);
    lemma_plus(c, b, b);
    assert(ordered_at(a, b, c));
    assert(ordered_at(b, a, c));
}

/// Opposites have the opposite order.
pub proof fn lemma_negate_order<R: Real>(a: R, b: R)
    requires
        ordered_field::<R>(),
    ensures
        a.at_most_spec(b) <==> b.negate_spec().at_most_spec(a.negate_spec()),
        a.at_most_spec(b) <==> R::zero_spec().at_most_spec(b.minus_spec(a)),
        a.below_spec(b) <==> R::zero_spec().below_spec(b.minus_spec(a)),
{
    lemma_plus_order(a, b, a.negate_spec());
    lemma_plus(a, a, a);
    lemma_plus(b, a, a);
    let shift = a.negate_spec().plus_spec(b.negate_spec());
    lemma_plus_order(a, b, shift);
    lemma_plus(a, a.negate_spec(), b.negate_spec());
    lemma_plus(b.negate_spec(), b, b);
    lemma_plus(a.negate_spec(), b.negate_spec(), b);
    lemma_plus(b, shift, shift);
    lemma_plus(b, b, b);
    lemma_plus(a.negate_spec(), R::zero_spec(), R::zero_spec());
}

/// Factors that are not negative keep the order.
pub proof fn lemma_times_order<R: Real>(a: R, b: R, c: R)
    requires
        ordered_field::<R>(),
        a.at_most_spec(b),
        R::zero_spec().at_most_spec(c),
    ensures
        a.times_spec(c).at_most_spec(b.times_spec(c)),
        c.times_spec(a).at_most_spec(c.times_spec(b)),
{
    let zero = R::zero_spec();
    let gap = b.minus_spec(a);
    lemma_negate_order(a, b);
    lemma_negate_order(a.times_spec(c), b.times_spec(c));
    lemma_times(b, a, c);
    lemma_times(a, c, c);
    lemma_plus(b, a, a);
    lemma_times(b, a.negate_spec(), c);
    lemma_negate(a, c);
    lemma_plus(b.times_spec(c), a.times_spec(c), a);
    assert(gap.times_spec(c) == b.times_spec(c).minus_spec(a.times_spec(c)));
    lemma_times(b, c, c);
    assert(ordered_at(gap, c, c));
    lemma_order(zero, gap, zero);
    lemma_order(zero, c, zero);
    lemma_order(zero, zero, zero);
    lemma_times_zero(gap);
    lemma_times_zero(c);
    lemma_order(zero, gap.times_spec(c), zero);
}

/// Positive factors keep the order both ways.
pub proof fn lemma_positive_times_order<R: Real>(a: R, b: R, c: R)
    requires
        ordered_field::<R>(),
        R::zero_spec().below_spec(c),
    ensures
        a.at_most_spec(b) <==> a.times_spec(c).at_most_spec(b.times_spec(c)),
        a.below_spec(b) <==> a.times_spec(c).below_spec(b.times_spec(c)),
        a == b <==> a.times_spec(c) == b.times_spec(c),
{
    let zero = R::zero_spec();
    lemma_order(zero, c, zero);
    lemma_order(a, b, zero);
    lemma_order(b, a, zero);
    lemma_order(a.times_spec(c), b.times_spec(c), zero);
    lemma_order(b.times_spec(c), a.times_spec(c), zero);
    lemma_positive_gap(a, b, c);
    lemma_positive_gap(b, a, c);
}

proof fn lemma_positive_gap<R: Real>(a: R, b: R, c: R)
    requires
        ordered_field::<R>(),
        R::zero_spec().below_spec(c),
    ensures
        a.below_spec(b) ==> a.times_spec(c).below_spec(b.times_spec(c)),
{
    let gap = b.minus_spec(a);
    lemma_negate_order(a, b);
    lemma_negate_order(a.times_spec(c), b.times_spec(c));
    lemma_plus(b, a, a);
    lemma_times(b, a.negate_spec(), c);
    lemma_negate(a, c);
    lemma_plus(b.times_spec(c), a.times_spec(c), a);
    assert(gap.times_spec(c) == b.times_spec(c).minus_spec(a.times_spec(c)));
    assert(ordered_at(gap, c, c));
}

/// A quotient by a positive scalar lies where the products lie.
pub proof fn lemma_quotient_order<R: Real>(a: R, b: R, c: R)
    requires
        ordered_field::<R>(),
        R::zero_spec().below_spec(b),
    ensures
        a.over_spec(b).times_spec(b) == a,
        c.at_most_spec(a.over_spec(b)) <==> c.times_spec(b).at_most_spec(a),
        a.over_spec(b).at_most_spec(c) <==> a.at_most_spec(c.times_spec(b)),
        c == a.over_spec(b) <==> c.times_spec(b) == a,
{
    lemma_order(R::zero_spec(), b, b);
    assert(ordered_at(a, b, b));
    lemma_positive_times_order(c, a.over_spec(b), b);
    lemma_positive_times_order(a.over_spec(b), c, b);
}

/// Squares are not negative.
pub proof fn lemma_square_order<R: Real>(a: R)
    requires
        ordered_field::<R>(),
    ensures
        R::zero_spec().at_most_spec(a.times_spec(a)),
        a.times_spec(a) == R::zero_spec() ==> a == R::zero_spec(),
{
    let zero = R::zero_spec();
    lemma_order(zero, a, zero);
    lemma_negate_order(a, zero);
    lemma_negate(a, a);
    lemma_times_zero(a);
    assert(ordered_at(a, a, a));
    assert(ordered_at(a.negate_spec(), a.negate_spec(), zero));
    lemma_order(zero, a.negate_spec(), zero);
    lemma_order(a, zero, a);
    lemma_order(zero, a.times_spec(a), zero);
    lemma_order(zero, zero, zero);
}

/// Cubes keep the order.
pub proof fn lemma_cube_order<R: Real>(a: R, b: R)
    requires
        ordered_field::<R>(),
        a.at_most_spec(b),
    ensures
        a.times_spec(a).times_spec(a).at_most_spec(b.times_spec(b).times_spec(b)),
{
    let zero = R::zero_spec();
    let cube = |x: R| x.times_spec(x).times_spec(x);
    lemma_order(zero, a, b);
    lemma_order(zero, b, zero);
    lemma_order(a, zero, b);
    lemma_order(b, zero, a);
    if zero.at_most_spec(a) {
        lemma_cube_upper(a, b);
    } else if zero.at_most_spec(b) {
        lemma_cube_sign(b);
        lemma_cube_sign(a);
        lemma_order(cube(a), zero, cube(b));
    } else {
        let p = b.negate_spec();
        let q = a.negate_spec();
        lemma_negate_order(a, b);
        lemma_negate_order(b, zero);
        lemma_negate(a, a);
        lemma_negate(b, b);
        lemma_cube_upper(p, q);
        lemma_negate(a.times_spec(a), a);
        lemma_negate(b.times_spec(b), b);
        lemma_negate_order(cube(a), cube(b));
    }
}

proof fn lemma_cube_upper<R: Real>(a: R, b: R)
    requires
        ordered_field::<R>(),
        R::zero_spec().at_most_spec(a),
        a.at_most_spec(b),
    ensures
        a.times_spec(a).times_spec(a).at_most_spec(b.times_spec(b).times_spec(b)),
{
    let zero = R::zero_spec();
    lemma_order(zero, a, b);
    lemma_times_order(a, b, a);
    lemma_times_order(a, b, b);
    lemma_order(a.times_spec(a), b.times_spec(a), b.times_spec(b));
    lemma_square_order(b);
    lemma_times_order(a.times_spec(a), b.times_spec(b), a);
    lemma_times_order(a, b, b.times_spec(b));
    lemma_order(
        a.times_spec(a).times_spec(a),
        b.times_spec(b).times_spec(a),
        b.times_spec(b).times_spec(b),
    );
}

proof fn lemma_cube_sign<R: Real>(a: R)
    requires
        ordered_field::<R>(),
    ensures
        R::zero_spec().at_most_spec(a) ==> R::zero_spec().at_most_spec(
            a.times_spec(a).times_spec(a),
        ),
        a.at_most_spec(R::zero_spec()) ==> a.times_spec(a).times_spec(a).at_most_spec(
            R::zero_spec(),
        ),
{
    let zero = R::zero_spec();
    lemma_square_order(a);
    lemma_times_zero(a.times_spec(a));
    if zero.at_most_spec(a) {
        lemma_times_order(zero, a, a.times_spec(a));
    }
    if a.at_most_spec(zero) {
        lemma_times_order(a, zero, a.times_spec(a));
    }
}

/// One half, one third and two.
pub proof fn lemma_small_ratios<R: Real>()
    requires
        ordered_field::<R>(),
    ensures
        R::ratio_spec(2, 1) == R::one_spec().plus_spec(R::one_spec()),
        R::ratio_spec(2, 1).times_spec(R::ratio_spec(1, 2)) == R::one_spec(),
        R::ratio_spec(1, 2).plus_spec(R::ratio_spec(1, 2)) == R::one_spec(),
        R::ratio_spec(1, 3).plus_spec(R::ratio_spec(1, 3)).plus_spec(R::ratio_spec(1, 3))
            == R::one_spec(),
        R::zero_spec().below_spec(R::ratio_spec(1, 2)),
        R::ratio_spec(1, 2).below_spec(R::one_spec()),
        R::zero_spec().below_spec(R::ratio_spec(1, 3)),
        R::ratio_spec(1, 3).below_spec(R::one_spec()),
        R::one_spec().below_spec(R::ratio_spec(2, 1)),
{
    let zero = R::zero_spec();
    let one = R::one_spec();
    let two = R::ratio_spec(2, 1);
    let half = R::ratio_spec(1, 2);
    let third = R::ratio_spec(1, 3);
    reveal_with_fuel(natural, 4);
    assert(two.times_spec(natural::<R>(1)) == natural::<R>(2));
    assert(half.times_spec(natural::<R>(2)) == natural::<R>(1));
    assert(third.times_spec(natural::<R>(3)) == natural::<R>(1));
    lemma_plus(zero, one, one);
    lemma_plus(one, one, one);
    lemma_times(two, one, one);
    lemma_times(half, one, one);
    lemma_times(half, two, one);
    lemma_times(third, one, one);
    lemma_times(third, one.plus_spec(one), one);
    lemma_plus(third, third, third);
    lemma_plus_order(zero, one, one);
    lemma_parts_positive(half, half, one);
    let rest = third.plus_spec(third);
    lemma_order(zero, third, zero);
    lemma_order(zero, one, zero);
    lemma_order(zero, zero, zero);
    if third.at_most_spec(zero) {
        lemma_plus_order(third, zero, third);
        lemma_plus(zero, third, third);
        lemma_order(rest, third, zero);
        lemma_plus_order(rest, zero, third);
        lemma_order(rest.plus_spec(third), third, zero);
        lemma_order(one, third, zero);
        lemma_order(one, zero, zero);
    }
    lemma_plus_order(zero, third, third);
    lemma_plus(zero, third, third);
    lemma_order(zero, third, rest);
    lemma_order(third, rest, zero);
    lemma_plus_order(zero, rest, third);
    lemma_plus(zero, third, third);
    lemma_order(third, one, zero);
}

proof fn lemma_parts_positive<R: Real>(a: R, b: R, whole: R)
    requires
        ordered_field::<R>(),
        a == b,
        a.plus_spec(b) == whole,
        R::zero_spec().below_spec(whole),
    ensures
        R::zero_spec().below_spec(a),
        a.below_spec(whole),
{
    let zero = R::zero_spec();
    lemma_order(zero, a, zero);
    lemma_order(zero, whole, zero);
    lemma_plus(a, zero, zero);
    if a.at_most_spec(zero) {
        lemma_plus_order(a, zero, a);
        lemma_order(whole, a, zero);
        lemma_order(whole, zero, zero);
    }
    lemma_plus_order(zero, a, a);
    lemma_order(a, whole, zero);
}

} // verus!
