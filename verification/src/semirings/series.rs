//! Sums of strings with coefficients: what weights that carry strings stand for.

use crate::fst::tr::Label;
use crate::semirings::laws::SemiringLaws;
use vstd::prelude::*;

verus! {

/// A coefficient for every string.
pub type Series<V> = spec_fn(Seq<Label>) -> V;

/// The neutral element of the sum of coefficients.
pub open spec fn no_value<W: SemiringLaws>() -> W::V {
    W::value(W::zero_model())
}

/// The series without strings.
pub open spec fn series_zero<W: SemiringLaws>() -> Series<W::V> {
    |y: Seq<Label>| no_value::<W>()
}

/// The series of one string.
pub open spec fn monomial<W: SemiringLaws>(string: Seq<Label>, v: W::V) -> Series<W::V> {
    |y: Seq<Label>|
        if y == string {
            v
        } else {
            no_value::<W>()
        }
}

/// The coefficients are summed string by string.
pub open spec fn series_sum<W: SemiringLaws>(f: Series<W::V>, g: Series<W::V>) -> Series<W::V> {
    |y: Seq<Label>| W::sum(f(y), g(y))
}

/// The sum of the terms from `a` on and before `b`.
pub open spec fn terms<W: SemiringLaws>(f: spec_fn(int) -> W::V, a: int, b: int) -> W::V
    decreases b - a,
{
    if b <= a {
        no_value::<W>()
    } else {
        W::sum(terms::<W>(f, a, b - 1), f(b - 1))
    }
}

/// The product of the coefficients of the two parts of a string that is cut after
/// its first `i` labels.
pub open spec fn cut<W: SemiringLaws>(
    f: Series<W::V>,
    g: Series<W::V>,
    y: Seq<Label>,
) -> spec_fn(int) -> W::V {
    |i: int| W::product(f(y.take(i)), g(y.skip(i)))
}

/// The coefficient of a string is the sum over all ways to cut it in two.
pub open spec fn series_product<W: SemiringLaws>(f: Series<W::V>, g: Series<W::V>) -> Series<
    W::V,
> {
    |y: Seq<Label>| terms::<W>(cut::<W>(f, g, y), 0, y.len() as int + 1)
}

/// Terms that are equal have equal sums.
proof fn lemma_terms_equal<W: SemiringLaws>(
    f: spec_fn(int) -> W::V,
    g: spec_fn(int) -> W::V,
    a: int,
    b: int,
)
    requires
        forall|i: int| a <= i < b ==> #[trigger] f(i) == g(i),
    ensures
        terms::<W>(f, a, b) == terms::<W>(g, a, b),
    decreases b - a,
{
    if b > a {
        lemma_terms_equal::<W>(f, g, a, b - 1);
        assert(f(b - 1) == g(b - 1));
    }
}

/// Terms can be numbered from elsewhere.
proof fn lemma_terms_shift<W: SemiringLaws>(
    f: spec_fn(int) -> W::V,
    g: spec_fn(int) -> W::V,
    a: int,
    b: int,
    by: int,
)
    requires
        forall|i: int| a <= i < b ==> #[trigger] f(i) == g(i + by),
    ensures
        terms::<W>(f, a, b) == terms::<W>(g, a + by, b + by),
    decreases b - a,
{
    if b > a {
        lemma_terms_shift::<W>(f, g, a, b - 1, by);
        assert(f(b - 1) == g(b - 1 + by));
    }
}

/// Nothing sums up to nothing.
proof fn lemma_terms_zero<W: SemiringLaws>(f: spec_fn(int) -> W::V, a: int, b: int)
    requires
        forall|i: int| a <= i < b ==> #[trigger] f(i) == no_value::<W>(),
    ensures
        terms::<W>(f, a, b) == no_value::<W>(),
    decreases b - a,
{
    if b > a {
        lemma_terms_zero::<W>(f, a, b - 1);
        assert(f(b - 1) == no_value::<W>());
        W::law_sum_zero(no_value::<W>());
    }
}

/// A single term sums up to itself.
proof fn lemma_terms_one<W: SemiringLaws>(f: spec_fn(int) -> W::V, a: int, b: int, k: int)
    requires
        a <= k < b,
        forall|i: int| a <= i < b && i != k ==> #[trigger] f(i) == no_value::<W>(),
    ensures
        terms::<W>(f, a, b) == f(k),
    decreases b - a,
{
    W::law_sum_zero(f(k));
    if k == b - 1 {
        lemma_terms_zero::<W>(f, a, b - 1);
    } else {
        lemma_terms_one::<W>(f, a, b - 1, k);
        assert(f(b - 1) == no_value::<W>());
        W::law_sum_commutative(f(k), no_value::<W>());
    }
}

/// The sum of sums.
proof fn lemma_terms_sum<W: SemiringLaws>(
    f: spec_fn(int) -> W::V,
    g: spec_fn(int) -> W::V,
    a: int,
    b: int,
)
    ensures
        terms::<W>(|i: int| W::sum(f(i), g(i)), a, b) == W::sum(
            terms::<W>(f, a, b),
            terms::<W>(g, a, b),
        ),
    decreases b - a,
{
    let h = |i: int| W::sum(f(i), g(i));
    if b <= a {
        W::law_sum_zero(no_value::<W>());
    } else {
        lemma_terms_sum::<W>(f, g, a, b - 1);
        let (p, q) = (terms::<W>(f, a, b - 1), terms::<W>(g, a, b - 1));
        let (x, y) = (f(b - 1), g(b - 1));
        assert(h(b - 1) == W::sum(x, y));
        W::law_sum_associative(p, q, W::sum(x, y));
        W::law_sum_associative(q, x, y);
        W::law_sum_commutative(q, x);
        W::law_sum_associative(x, q, y);
        W::law_sum_associative(p, x, W::sum(q, y));
    }
}

/// A factor on the left of every term.
proof fn lemma_terms_left<W: SemiringLaws>(c: W::V, f: spec_fn(int) -> W::V, a: int, b: int)
    ensures
        terms::<W>(|i: int| W::product(c, f(i)), a, b) == W::product(c, terms::<W>(f, a, b)),
    decreases b - a,
{
    if b <= a {
        W::law_product_zero(c);
    } else {
        lemma_terms_left::<W>(c, f, a, b - 1);
        W::law_distributive(c, terms::<W>(f, a, b - 1), f(b - 1));
    }
}

/// A factor on the right of every term.
proof fn lemma_terms_right<W: SemiringLaws>(f: spec_fn(int) -> W::V, c: W::V, a: int, b: int)
    ensures
        terms::<W>(|i: int| W::product(f(i), c), a, b) == W::product(terms::<W>(f, a, b), c),
    decreases b - a,
{
    if b <= a {
        W::law_product_zero(c);
    } else {
        lemma_terms_right::<W>(f, c, a, b - 1);
        W::law_distributive(terms::<W>(f, a, b - 1), f(b - 1), c);
    }
}

/// A triangle of terms has the same sum by rows and by columns.
proof fn lemma_terms_triangle<W: SemiringLaws>(t: spec_fn(int, int) -> W::V, n: int)
    requires
        n >= 0,
    ensures
        terms::<W>(|i: int| terms::<W>(|j: int| t(i, j), 0, i + 1), 0, n) == terms::<W>(
            |j: int| terms::<W>(|i: int| t(i, j), j, n),
            0,
            n,
        ),
    decreases n,
{
    let rows = |i: int| terms::<W>(|j: int| t(i, j), 0, i + 1);
    let columns = |j: int| terms::<W>(|i: int| t(i, j), j, n);
    if n > 0 {
        let m = n - 1;
        lemma_terms_triangle::<W>(t, m);
        let shorter = |j: int| terms::<W>(|i: int| t(i, j), j, m);
        let last = |j: int| t(m, j);
        let both = |j: int| W::sum(shorter(j), last(j));
        lemma_terms_sum::<W>(shorter, last, 0, n);
        assert forall|j: int| 0 <= j < n implies #[trigger] columns(j) == both(j) by {
            let column = |i: int| t(i, j);
            assert(terms::<W>(column, j, n) == W::sum(terms::<W>(column, j, n - 1), column(n - 1)));
        }
        lemma_terms_equal::<W>(columns, both, 0, n);
        // The last column of the shorter triangle is empty.
        assert(shorter(m) == no_value::<W>());
        let shorter_sum = terms::<W>(shorter, 0, m);
        W::law_sum_zero(shorter_sum);
        W::law_sum_commutative(shorter_sum, no_value::<W>());
        assert(terms::<W>(shorter, 0, n) == shorter_sum);
        let last_row = |j: int| t(m, j);
        assert(rows(m) == terms::<W>(last_row, 0, n));
    }
}

/// The product of three series, cut into three parts.
proof fn lemma_product_associative<W: SemiringLaws>(
    f: Series<W::V>,
    g: Series<W::V>,
    h: Series<W::V>,
    y: Seq<Label>,
)
    ensures
        series_product::<W>(series_product::<W>(f, g), h)(y) == series_product::<W>(
            f,
            series_product::<W>(g, h),
        )(y),
{
    let n = y.len() as int + 1;
    let t = |i: int, j: int|
        W::product(W::product(f(y.take(j)), g(y.subrange(j, i))), h(y.skip(i)));
    let rows = |i: int| terms::<W>(|j: int| t(i, j), 0, i + 1);
    let columns = |j: int| terms::<W>(|i: int| t(i, j), j, n as int);
    lemma_terms_triangle::<W>(t, n as int);
    let left = cut::<W>(series_product::<W>(f, g), h, y);
    assert forall|i: int| 0 <= i < n implies #[trigger] left(i) == rows(i) by {
        let x = y.take(i);
        let inner = cut::<W>(f, g, x);
        let factor = h(y.skip(i));
        let row = |j: int| t(i, j);
        let scaled = |j: int| W::product(inner(j), factor);
        lemma_terms_right::<W>(inner, factor, 0, i + 1);
        assert forall|j: int| 0 <= j < i + 1 implies #[trigger] scaled(j) == row(j) by {
            assert(x.take(j) =~= y.take(j));
            assert(x.skip(j) =~= y.subrange(j, i));
        }
        lemma_terms_equal::<W>(scaled, row, 0, i + 1);
    }
    lemma_terms_equal::<W>(left, rows, 0, n as int);
    let right = cut::<W>(f, series_product::<W>(g, h), y);
    assert forall|j: int| 0 <= j < n implies #[trigger] right(j) == columns(j) by {
        let x = y.skip(j);
        let inner = cut::<W>(g, h, x);
        let factor = f(y.take(j));
        let column = |i: int| t(i, j);
        let scaled = |k: int| W::product(factor, inner(k));
        lemma_terms_left::<W>(factor, inner, 0, x.len() as int + 1);
        assert forall|k: int| 0 <= k < x.len() as int + 1 implies #[trigger] scaled(k) == column(
            k + j,
        ) by {
            assert(x.take(k) =~= y.subrange(j, k + j));
            assert(x.skip(k) =~= y.skip(k + j));
            W::law_product_associative(factor, g(x.take(k)), h(x.skip(k)));
        }
        lemma_terms_shift::<W>(scaled, column, 0, x.len() as int + 1, j);
    }
    lemma_terms_equal::<W>(right, columns, 0, n as int);
}

pub proof fn lemma_series_product_associative<W: SemiringLaws>(
    f: Series<W::V>,
    g: Series<W::V>,
    h: Series<W::V>,
)
    ensures
        series_product::<W>(series_product::<W>(f, g), h) == series_product::<W>(
            f,
            series_product::<W>(g, h),
        ),
{
    let a = series_product::<W>(series_product::<W>(f, g), h);
    let b = series_product::<W>(f, series_product::<W>(g, h));
    assert forall|y: Seq<Label>| #[trigger] a(y) == b(y) by {
        lemma_product_associative::<W>(f, g, h, y);
    }
    assert(a =~= b);
}

pub proof fn lemma_series_sum<W: SemiringLaws>(
    f: Series<W::V>,
    g: Series<W::V>,
    h: Series<W::V>,
)
    ensures
        series_sum::<W>(series_sum::<W>(f, g), h) == series_sum::<W>(f, series_sum::<W>(g, h)),
        series_sum::<W>(f, g) == series_sum::<W>(g, f),
        series_sum::<W>(series_zero::<W>(), f) == f,
{
    let a = series_sum::<W>(series_sum::<W>(f, g), h);
    let b = series_sum::<W>(f, series_sum::<W>(g, h));
    assert forall|y: Seq<Label>| #[trigger] a(y) == b(y) by {
        W::law_sum_associative(f(y), g(y), h(y));
    }
    assert(a =~= b);
    let c = series_sum::<W>(f, g);
    let d = series_sum::<W>(g, f);
    assert forall|y: Seq<Label>| #[trigger] c(y) == d(y) by {
        W::law_sum_commutative(f(y), g(y));
    }
    assert(c =~= d);
    let e = series_sum::<W>(series_zero::<W>(), f);
    assert forall|y: Seq<Label>| #[trigger] e(y) == f(y) by {
        W::law_sum_zero(f(y));
    }
    assert(e =~= f);
}

pub proof fn lemma_series_product_zero<W: SemiringLaws>(f: Series<W::V>)
    ensures
        series_product::<W>(f, series_zero::<W>()) == series_zero::<W>(),
        series_product::<W>(series_zero::<W>(), f) == series_zero::<W>(),
{
    let zero = series_zero::<W>();
    let a = series_product::<W>(f, zero);
    let b = series_product::<W>(zero, f);
    assert forall|y: Seq<Label>| #[trigger] a(y) == zero(y) by {
        let c = cut::<W>(f, zero, y);
        assert forall|i: int| 0 <= i < y.len() as int + 1 implies #[trigger] c(i) == no_value::<W>() by {
            W::law_product_zero(f(y.take(i)));
        }
        lemma_terms_zero::<W>(c, 0, y.len() as int + 1);
    }
    assert(a =~= zero);
    assert forall|y: Seq<Label>| #[trigger] b(y) == zero(y) by {
        let c = cut::<W>(zero, f, y);
        assert forall|i: int| 0 <= i < y.len() as int + 1 implies #[trigger] c(i) == no_value::<W>() by {
            W::law_product_zero(f(y.skip(i)));
        }
        lemma_terms_zero::<W>(c, 0, y.len() as int + 1);
    }
    assert(b =~= zero);
}

pub proof fn lemma_series_distributive<W: SemiringLaws>(
    f: Series<W::V>,
    g: Series<W::V>,
    h: Series<W::V>,
)
    ensures
        series_product::<W>(f, series_sum::<W>(g, h)) == series_sum::<W>(
            series_product::<W>(f, g),
            series_product::<W>(f, h),
        ),
        series_product::<W>(series_sum::<W>(f, g), h) == series_sum::<W>(
            series_product::<W>(f, h),
            series_product::<W>(g, h),
        ),
{
    let a = series_product::<W>(f, series_sum::<W>(g, h));
    let b = series_sum::<W>(series_product::<W>(f, g), series_product::<W>(f, h));
    assert forall|y: Seq<Label>| #[trigger] a(y) == b(y) by {
        let whole = cut::<W>(f, series_sum::<W>(g, h), y);
        let (p, q) = (cut::<W>(f, g, y), cut::<W>(f, h, y));
        let both = |i: int| W::sum(p(i), q(i));
        assert forall|i: int| 0 <= i < y.len() as int + 1 implies #[trigger] whole(i) == both(i) by {
            W::law_distributive(f(y.take(i)), g(y.skip(i)), h(y.skip(i)));
        }
        lemma_terms_equal::<W>(whole, both, 0, y.len() as int + 1);
        lemma_terms_sum::<W>(p, q, 0, y.len() as int + 1);
    }
    assert(a =~= b);
    let c = series_product::<W>(series_sum::<W>(f, g), h);
    let d = series_sum::<W>(series_product::<W>(f, h), series_product::<W>(g, h));
    assert forall|y: Seq<Label>| #[trigger] c(y) == d(y) by {
        let whole = cut::<W>(series_sum::<W>(f, g), h, y);
        let (p, q) = (cut::<W>(f, h, y), cut::<W>(g, h, y));
        let both = |i: int| W::sum(p(i), q(i));
        assert forall|i: int| 0 <= i < y.len() as int + 1 implies #[trigger] whole(i) == both(i) by {
            W::law_distributive(f(y.take(i)), g(y.take(i)), h(y.skip(i)));
        }
        lemma_terms_equal::<W>(whole, both, 0, y.len() as int + 1);
        lemma_terms_sum::<W>(p, q, 0, y.len() as int + 1);
    }
    assert(c =~= d);
}

/// One string in front of a series: the coefficient of a string that begins with
/// it is that of the rest.
pub proof fn lemma_monomial_product<W: SemiringLaws>(
    string: Seq<Label>,
    v: W::V,
    g: Series<W::V>,
    y: Seq<Label>,
)
    ensures
        series_product::<W>(monomial::<W>(string, v), g)(y) == (if string.len() <= y.len()
            && y.take(string.len() as int) == string {
            W::product(v, g(y.skip(string.len() as int)))
        } else {
            no_value::<W>()
        }),
{
    let n = string.len() as int;
    let f = monomial::<W>(string, v);
    let c = cut::<W>(f, g, y);
    assert forall|i: int|
        0 <= i < y.len() as int + 1 && !(i == n && y.take(n) == string) implies #[trigger] c(i)
        == no_value::<W>() by {
        assert(y.take(i).len() == i);
        assert(y.take(i) != string);
        W::law_product_zero(g(y.skip(i)));
    }
    if n <= y.len() && y.take(n) == string {
        lemma_terms_one::<W>(c, 0, y.len() as int + 1, n);
    } else {
        lemma_terms_zero::<W>(c, 0, y.len() as int + 1);
    }
}

/// The product of two single strings is their joined string.
pub proof fn lemma_monomial_times<W: SemiringLaws>(
    s: Seq<Label>,
    v: W::V,
    t: Seq<Label>,
    w: W::V,
)
    ensures
        series_product::<W>(monomial::<W>(s, v), monomial::<W>(t, w)) == monomial::<W>(
            s + t,
            W::product(v, w),
        ),
{
    let a = series_product::<W>(monomial::<W>(s, v), monomial::<W>(t, w));
    let b = monomial::<W>(s + t, W::product(v, w));
    assert forall|y: Seq<Label>| #[trigger] a(y) == b(y) by {
        lemma_monomial_product::<W>(s, v, monomial::<W>(t, w), y);
        let n = s.len() as int;
        if n <= y.len() && y.take(n) == s {
            assert(y =~= y.take(n) + y.skip(n));
            if y == s + t {
                assert(y.skip(n) =~= t);
            }
            W::law_product_zero(v);
        } else if y == s + t {
            assert(y.take(n) =~= s);
        }
    }
    assert(a =~= b);
}

/// The empty string with the neutral coefficient changes nothing.
pub proof fn lemma_series_product_one<W: SemiringLaws>(g: Series<W::V>)
    ensures
        series_product::<W>(
            monomial::<W>(Seq::empty(), W::value(W::one_model())),
            g,
        ) == g,
        series_product::<W>(
            g,
            monomial::<W>(Seq::empty(), W::value(W::one_model())),
        ) == g,
{
    let one = W::value(W::one_model());
    let empty = Seq::<Label>::empty();
    let a = series_product::<W>(monomial::<W>(empty, one), g);
    assert forall|y: Seq<Label>| #[trigger] a(y) == g(y) by {
        lemma_monomial_product::<W>(empty, one, g, y);
        assert(y.take(0) =~= empty);
        assert(y.skip(0) =~= y);
        W::law_product_one(g(y));
    }
    assert(a =~= g);
    let b = series_product::<W>(g, monomial::<W>(empty, one));
    assert forall|y: Seq<Label>| #[trigger] b(y) == g(y) by {
        let n = y.len() as int;
        let c = cut::<W>(g, monomial::<W>(empty, one), y);
        assert forall|i: int| 0 <= i < n + 1 && i != n implies #[trigger] c(i)
            == no_value::<W>() by {
            assert(y.skip(i).len() == n - i);
            W::law_product_zero(g(y.take(i)));
        }
        lemma_terms_one::<W>(c, 0, n + 1, n);
        assert(y.take(n) =~= y);
        assert(y.skip(n) =~= empty);
        W::law_product_one(g(y));
    }
    assert(b =~= g);
}

/// Coefficients of the same string are summed.
pub proof fn lemma_monomial_sum<W: SemiringLaws>(s: Seq<Label>, v: W::V, w: W::V)
    ensures
        series_sum::<W>(monomial::<W>(s, v), monomial::<W>(s, w)) == monomial::<W>(
            s,
            W::sum(v, w),
        ),
{
    let a = series_sum::<W>(monomial::<W>(s, v), monomial::<W>(s, w));
    let b = monomial::<W>(s, W::sum(v, w));
    assert forall|y: Seq<Label>| #[trigger] a(y) == b(y) by {
        W::law_sum_zero(no_value::<W>());
    }
    assert(a =~= b);
}

} // verus!
