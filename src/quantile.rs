use vstd::arithmetic::div_mod::lemma_fundamental_div_mod;
use vstd::prelude::*;

verus! {

/// Where the quantile `num / den` of `n` sorted values lies, by linear
/// interpolation: the index `(n - 1) * num / den`, between the values at
/// `lower` and `upper`, `weight_num / weight_den` of the way from the first to
/// the second.
#[derive(Debug, Clone, Copy, PartialEq, Eq)]
pub struct QuantilePosition {
    pub lower: usize,
    pub upper: usize,
    pub weight_num: usize,
    pub weight_den: usize,
}

/// The whole part of the index of the quantile `num / den` of `n` values.
pub open spec fn quantile_lower(n: int, num: int, den: int) -> int {
    ((n - 1) * num) / den
}

/// The fractional part of that index, in units of `1 / den`.
pub open spec fn quantile_weight(n: int, num: int, den: int) -> int {
    ((n - 1) * num) % den
}

/// The position above the index: the index itself when it is whole.
pub open spec fn quantile_upper(n: int, num: int, den: int) -> int {
    if quantile_weight(n, num, den) == 0 {
        quantile_lower(n, num, den)
    } else {
        quantile_lower(n, num, den) + 1
    }
}

/// The first of the middle positions of `n` values.
pub open spec fn median_lower(n: int) -> int {
    if n % 2 == 0 {
        n / 2 - 1
    } else {
        n / 2
    }
}

/// The second of the middle positions of `n` values; the same as the first
/// when `n` is odd.
pub open spec fn median_upper(n: int) -> int {
    n / 2
}

proof fn lemma_position_bounds(n: int, num: int, den: int)
    requires
        n > 0,
        den > 0,
        0 <= num <= den,
    ensures
        0 <= quantile_lower(n, num, den) <= quantile_upper(n, num, den) <= n - 1,
        0 <= quantile_weight(n, num, den) < den,
{
    let x = (n - 1) * num;
    assert(0 <= x <= (n - 1) * den) by (nonlinear_arith)
        requires
            n > 0,
            0 <= num <= den,
            x == (n - 1) * num,
    ;
    lemma_fundamental_div_mod(x, den);
    assert(0 <= x / den <= n - 1) by (nonlinear_arith)
        requires
            0 <= x <= (n - 1) * den,
            den > 0,
            x == den * (x / den) + x % den,
            0 <= x % den < den,
    ;
    if x % den != 0 {
        assert(x / den < n - 1) by (nonlinear_arith)
            requires
                0 <= x <= (n - 1) * den,
                den > 0,
                x == den * (x / den) + x % den,
                0 < x % den < den,
        ;
    }
}

/// The position of the quantile `num / den` among `n` sorted values.
pub fn quantile_position(n: usize, num: usize, den: usize) -> (r: QuantilePosition)
    requires
        n > 0,
        den > 0,
        num <= den,
    ensures
        r.lower == quantile_lower(n as int, num as int, den as int),
        r.upper == quantile_upper(n as int, num as int, den as int),
        r.weight_num == quantile_weight(n as int, num as int, den as int),
        r.weight_den == den,
        r.lower <= r.upper < n,
        r.weight_num < r.weight_den,
{
    proof {
        lemma_position_bounds(n as int, num as int, den as int);
    }
    assert((n - 1) as int * num as int <= u128::MAX) by (nonlinear_arith)
        requires
            0 <= (n - 1) as int <= 0xffff_ffff_ffff_ffff,
            0 <= num as int <= 0xffff_ffff_ffff_ffff,
    ;
    let scaled: u128 = (n - 1) as u128 * num as u128;
    assert(scaled == (n - 1) * num) by (nonlinear_arith)
        requires
            scaled == (n - 1) as u128 * num as u128,
            n > 0,
    ;
    let lower = (scaled / den as u128) as usize;
    let weight = (scaled % den as u128) as usize;
    let upper = if weight == 0 {
        lower
    } else {
        lower + 1
    };
    QuantilePosition { lower, upper, weight_num: weight, weight_den: den }
}

/// The middle positions of `n` sorted values, whose mean is the median: the
/// middle one twice when `n` is odd.
pub fn median_positions(n: usize) -> (r: (usize, usize))
    requires
        n > 0,
    ensures
        r.0 == median_lower(n as int),
        r.1 == median_upper(n as int),
        r.0 <= r.1 < n,
{
    if n % 2 == 0 {
        (n / 2 - 1, n / 2)
    } else {
        (n / 2, n / 2)
    }
}

/// The median sits where the quantile one half does: the same two positions,
/// each weighing one half when they differ.
pub proof fn lemma_median_is_half_quantile(n: int)
    requires
        n > 0,
    ensures
        median_lower(n) == quantile_lower(n, 1, 2),
        median_upper(n) == quantile_upper(n, 1, 2),
        median_lower(n) != median_upper(n) ==> quantile_weight(n, 1, 2) == 1,
{
}

/// Whether `s` is in ascending order.
pub open spec fn is_ascending(s: Seq<int>) -> bool {
    forall|i: int, j: int| 0 <= i <= j < s.len() ==> s[i] <= s[j]
}

/// The quantile `num / den` of the ascending values `s` by linear
/// interpolation, in exact arithmetic and multiplied by `den`.
pub open spec fn interpolated(s: Seq<int>, num: int, den: int) -> int {
    let n = s.len() as int;
    s[quantile_lower(n, num, den)] * (den - quantile_weight(n, num, den)) + s[quantile_upper(
        n,
        num,
        den,
    )] * quantile_weight(n, num, den)
}

/// The median of `s` in exact arithmetic, multiplied by four.
pub open spec fn median_times_four(s: Seq<int>) -> int {
    let n = s.len() as int;
    (s[median_lower(n)] + s[median_upper(n)]) * 2
}

proof fn lemma_interpolated_between(s: Seq<int>, num: int, den: int)
    requires
        s.len() > 0,
        is_ascending(s),
        den > 0,
        0 <= num <= den,
    ensures
        s[quantile_lower(s.len() as int, num, den)] * den <= interpolated(s, num, den),
        interpolated(s, num, den) <= s[quantile_upper(s.len() as int, num, den)] * den,
{
    let n = s.len() as int;
    lemma_position_bounds(n, num, den);
    let lo = s[quantile_lower(n, num, den)];
    let hi = s[quantile_upper(n, num, den)];
    let w = quantile_weight(n, num, den);
    assert(lo <= hi);
    assert(lo * den <= lo * (den - w) + hi * w <= hi * den) by (nonlinear_arith)
        requires
            lo <= hi,
            0 <= w < den,
    ;
}

/// Interpolated quantiles of ascending values rise with the quantile, and
/// stay between the least and the greatest value.
pub proof fn lemma_quantiles_ordered(s: Seq<int>, a: int, b: int, den: int)
    requires
        s.len() > 0,
        is_ascending(s),
        den > 0,
        0 <= a <= b <= den,
    ensures
        s[0] * den <= interpolated(s, a, den),
        interpolated(s, a, den) <= interpolated(s, b, den),
        interpolated(s, b, den) <= s[s.len() - 1] * den,
{
    let n = s.len() as int;
    lemma_position_bounds(n, a, den);
    lemma_position_bounds(n, b, den);
    lemma_interpolated_between(s, a, den);
    lemma_interpolated_between(s, b, den);
    let la = quantile_lower(n, a, den);
    let lb = quantile_lower(n, b, den);
    let wa = quantile_weight(n, a, den);
    let wb = quantile_weight(n, b, den);
    let xa = (n - 1) * a;
    let xb = (n - 1) * b;
    assert(xa <= xb) by (nonlinear_arith)
        requires
            n > 0,
            a <= b,
            xa == (n - 1) * a,
            xb == (n - 1) * b,
    ;
    lemma_fundamental_div_mod(xa, den);
    lemma_fundamental_div_mod(xb, den);
    assert(la <= lb) by (nonlinear_arith)
        requires
            xa <= xb,
            xa == den * la + wa,
            xb == den * lb + wb,
            0 <= wa < den,
            0 <= wb < den,
    ;
    assert(s[0] * den <= s[la] * den) by (nonlinear_arith)
        requires
            s[0] <= s[la],
            den > 0,
    ;
    let hb = s[quantile_upper(n, b, den)];
    assert(hb * den <= s[n - 1] * den) by (nonlinear_arith)
        requires
            hb <= s[n - 1],
            den > 0,
    ;
    if la < lb {
        let ha = s[quantile_upper(n, a, den)];
        assert(ha <= s[lb]);
        assert(ha * den <= s[lb] * den) by (nonlinear_arith)
            requires
                ha <= s[lb],
                den > 0,
        ;
    } else {
        assert(wa <= wb);
        if wa > 0 {
            let lo = s[la];
            let hi = s[la + 1];
            assert(lo <= hi);
            assert(lo * (den - wa) + hi * wa <= lo * (den - wb) + hi * wb) by (nonlinear_arith)
                requires
                    lo <= hi,
                    wa <= wb,
            ;
        }
    }
}

/// The first quartile, the median and the third quartile of ascending values,
/// in exact arithmetic, come in that order between the least and the greatest
/// value (all multiplied by four).
pub proof fn lemma_quartiles_ordered(s: Seq<int>)
    requires
        s.len() > 0,
        is_ascending(s),
    ensures
        s[0] * 4 <= interpolated(s, 1, 4),
        interpolated(s, 1, 4) <= median_times_four(s),
        median_times_four(s) <= interpolated(s, 3, 4),
        interpolated(s, 3, 4) <= s[s.len() - 1] * 4,
{
    let n = s.len() as int;
    lemma_quantiles_ordered(s, 1, 2, 4);
    lemma_quantiles_ordered(s, 2, 3, 4);
    assert(median_times_four(s) == interpolated(s, 2, 4)) by {
        let x = (n - 1) * 2;
        assert(x == 2 * n - 2);
        lemma_fundamental_div_mod(n, 2);
        lemma_fundamental_div_mod(x, 4);
        let k = n / 2;
        if n % 2 == 0 {
            assert(x == 4 * (k - 1) + 2);
            assert(x % 4 == 2 && x / 4 == k - 1);
            assert(quantile_lower(n, 2, 4) == k - 1);
            assert(quantile_weight(n, 2, 4) == 2);
            assert(quantile_upper(n, 2, 4) == k);
            assert(interpolated(s, 2, 4) == s[k - 1] * 2 + s[k] * 2);
            assert(median_lower(n) == k - 1 && median_upper(n) == k);
            let (a, b) = (s[k - 1], s[k]);
            assert((a + b) * 2 == a * 2 + b * 2) by (nonlinear_arith);
        } else {
            assert(x == 4 * k);
            assert(x % 4 == 0 && x / 4 == k);
            assert(quantile_lower(n, 2, 4) == k);
            assert(quantile_weight(n, 2, 4) == 0);
            assert(quantile_upper(n, 2, 4) == k);
            assert(interpolated(s, 2, 4) == s[k] * 4 + s[k] * 0);
            assert(median_lower(n) == k && median_upper(n) == k);
            let a = s[k];
            assert((a + a) * 2 == a * 4 + a * 0) by (nonlinear_arith);
        }
    }
}

} // verus!
