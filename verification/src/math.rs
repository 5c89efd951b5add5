//! Price analysis: divergence from a fair market, projection onto the fair
//! prices, mispriced pairs, and position sizes.
//!
//! The divergence and the projection work in units of 10^-12 (`UNIT` is one).
//! The natural logarithm that they need is handed in as a function from a
//! positive number in these units to its logarithm in the same units.

use vstd::prelude::*;
use crate::math_laws::{
    law_centre_is_even, lemma_centre, lemma_corner_range, lemma_corners_need_outcomes,
};
use crate::units::{
    div_down, held, hold, larger, lemma_div_bound, lemma_mul_bound, magnitude, multiply, product,
    product_at_most, smaller, square_root, sum, total, SCALE,
};

verus! {

/// One, in the resolution of the projection.
pub const UNIT: i64 = 1_000_000_000_000;

/// No logarithm of a positive number in these units is farther from zero.
pub const LOG_LIMIT: i64 = 100_000_000_000_000;

/// The most prices of which sums stay within the range of `i128`.
pub const MAX_OUTCOMES: u64 = 1_000_000_000_000_000;

/// Prices below this are left out of the divergence.
pub const PRICE_FLOOR: i64 = 100;

/// The slope at prices of at most one resolution step.
pub const STEEPEST: i128 = -10_000_000_000_000_000_000_000;

/// The smallest contraction.
pub const MIN_EPSILON: i64 = 10_000;

/// The contraction that a projection starts with.
pub const FIRST_EPSILON: i64 = 100_000_000_000;

// ---------------------------------------------------------------------------
// Logarithms
// ---------------------------------------------------------------------------

/// Whether the function `g` returns `f` of its argument, whatever the argument.
pub open spec fn computes<G: Fn(i64) -> i64>(g: G, f: spec_fn(int) -> int) -> bool {
    forall|x: i64, y: i64| #[trigger] g.ensures((x,), y) ==> y == f(x as int)
}

/// Whether the function `g` can be asked about every number.
pub open spec fn asks_any<G: Fn(i64) -> i64>(g: G) -> bool {
    forall|x: i64| #[trigger] g.requires((x,))
}

/// Whether the function `ln` can be asked about every positive number.
pub open spec fn asks_positive<L: Fn(i64) -> i64>(ln: L) -> bool {
    forall|x: i64| x > 0 ==> #[trigger] ln.requires((x,))
}

/// The logarithm of `x`, within its limits.
pub open spec fn log_at(f: spec_fn(int) -> int, x: int) -> int {
    smaller(larger(f(x), -LOG_LIMIT), LOG_LIMIT as int)
}

/// The logarithm of a positive number, within its limits.
fn log_of<L: Fn(i64) -> i64>(ln: &L, x: i64) -> (r: i128)
    requires
        asks_positive(*ln),
        x > 0,
    ensures
        -LOG_LIMIT <= r <= LOG_LIMIT,
        forall|f: spec_fn(int) -> int| #[trigger] computes(*ln, f) ==> r == log_at(f, x as int),
{
    let y: i64 = ln(x);
    if y < -LOG_LIMIT {
        -LOG_LIMIT as i128
    } else if y > LOG_LIMIT {
        LOG_LIMIT as i128
    } else {
        y as i128
    }
}

// ---------------------------------------------------------------------------
// Price vectors
// ---------------------------------------------------------------------------

/// Prices, and what each of them stands for.
#[derive(Debug, Clone)]
pub struct PriceVector {
    pub prices: Vec<i64>,
    pub labels: Vec<String>,
}

/// The sum of the `i`-th prices of the first `n` vectors.
pub open spec fn column_sum(vectors: Seq<PriceVector>, i: int, n: int) -> int
    decreases n,
{
    if n <= 0 { 0 } else { column_sum(vectors, i, n - 1) + vectors[n - 1].prices@[i] }
}

/// The mean of the `i`-th prices of vectors, rounded down.
pub open spec fn column_mean(vectors: Seq<PriceVector>, i: int) -> int {
    column_sum(vectors, i, vectors.len() as int) / (vectors.len() as int)
}

impl PriceVector {
    /// The vector with the given prices and labels.
    pub fn new(prices: Vec<i64>, labels: Vec<String>) -> (r: PriceVector)
        ensures
            r.prices == prices,
            r.labels == labels,
    {
        PriceVector { prices, labels }
    }

    /// The sum of all prices.
    pub fn sum(&self) -> (r: i128)
        ensures
            r == total(self.prices@),
    {
        sum(self.prices.as_slice())
    }

    /// The number of prices.
    pub fn len(&self) -> (r: usize)
        ensures
            r == self.prices.len(),
    {
        self.prices.len()
    }

    /// The mean of several vectors, price by price, rounded down. All of them
    /// have at least as many prices as the first.
    pub fn interior_point(price_vectors: &[PriceVector]) -> (r: Vec<i64>)
        requires
            forall|k: int|
                0 <= k < price_vectors.len() ==> price_vectors[0].prices.len()
                    <= (#[trigger] price_vectors[k]).prices.len(),
        ensures
            price_vectors.len() == 0 ==> r.len() == 0,
            price_vectors.len() > 0 ==> r.len() == price_vectors[0].prices.len(),
            forall|i: int|
                0 <= i < r.len() ==> #[trigger] r@[i] == column_mean(price_vectors@, i),
            forall|i: int|
                0 <= i < r.len() ==> #[trigger] r@[i] == column_sum(
                    price_vectors@,
                    i,
                    price_vectors.len() as int,
                ) / (price_vectors.len() as int),
    {
        let mut out: Vec<i64> = Vec::new();
        if price_vectors.len() == 0 {
            return out;
        }
        let m: usize = price_vectors.len();
        let n: usize = price_vectors[0].len();
        let mut i: usize = 0;
        while i < n
            invariant
                i <= n,
                out.len() == i,
                m == price_vectors.len(),
                m > 0,
                n == price_vectors[0].prices.len(),
                forall|k: int|
                    0 <= k < price_vectors.len() ==> price_vectors[0].prices.len()
                        <= (#[trigger] price_vectors[k]).prices.len(),
                forall|j: int|
                    0 <= j < i ==> #[trigger] out@[j] == column_sum(price_vectors@, j, m as int) / (
                    m as int),
            decreases n - i,
        {
            let mut acc: i128 = 0;
            let mut k: usize = 0;
            while k < m
                invariant
                    k <= m,
                    m == price_vectors.len(),
                    i < n,
                    n == price_vectors[0].prices.len(),
                    forall|k: int|
                        0 <= k < price_vectors.len() ==> price_vectors[0].prices.len()
                            <= (#[trigger] price_vectors[k]).prices.len(),
                    acc == column_sum(price_vectors@, i as int, k as int),
                    k * i64::MIN <= acc <= k * i64::MAX,
                decreases m - k,
            {
                proof {
                    crate::units::lemma_sum_fits(k as int);
                    assert((k + 1) * i64::MIN == k * i64::MIN + i64::MIN) by (nonlinear_arith);
                    assert((k + 1) * i64::MAX == k * i64::MAX + i64::MAX) by (nonlinear_arith);
                }
                acc = acc + price_vectors[k].prices[i] as i128;
                k = k + 1;
            }
            proof {
                assert(m * i64::MIN == i64::MIN * m) by (nonlinear_arith);
                assert(m * i64::MAX == i64::MAX * m) by (nonlinear_arith);
                lemma_div_bound(acc as int, m as int, i64::MIN as int, i64::MAX as int);
            }
            out.push(div_down(acc, m as i128) as i64);
            i = i + 1;
        }
        out
    }
}

// ---------------------------------------------------------------------------
// Divergence
// ---------------------------------------------------------------------------

/// What one price contributes to the divergence: `m * ln(m / t)`, rounded
/// down; nothing where either price is at most `PRICE_FLOOR`.
pub open spec fn divergence_term(m: int, t: int, f: spec_fn(int) -> int) -> int {
    if m > PRICE_FLOOR && t > PRICE_FLOOR {
        (m * (log_at(f, m) - log_at(f, t))) / (UNIT as int)
    } else {
        0
    }
}

/// What the first `n` prices contribute to the divergence.
pub open spec fn divergence_upto(
    mu: Seq<i64>,
    theta: Seq<i64>,
    f: spec_fn(int) -> int,
    n: int,
) -> int
    decreases n,
{
    if n <= 0 {
        0
    } else {
        divergence_upto(mu, theta, f, n - 1) + divergence_term(
            mu[n - 1] as int,
            theta[n - 1] as int,
            f,
        )
    }
}

/// The divergence of the prices `mu` from the prices `theta`.
pub open spec fn divergence(mu: Seq<i64>, theta: Seq<i64>, f: spec_fn(int) -> int) -> int {
    divergence_upto(mu, theta, f, mu.len() as int)
}

/// One term of the divergence.
fn divergence_of_pair<L: Fn(i64) -> i64>(m: i64, t: i64, ln: &L) -> (r: i128)
    requires
        asks_positive(*ln),
    ensures
        forall|f: spec_fn(int) -> int| #[trigger]
            computes(*ln, f) ==> r == divergence_term(m as int, t as int, f),
        -2_000_000_000_000_000_000_000 <= r <= 2_000_000_000_000_000_000_000,
        m <= UNIT ==> -200_000_000_000_000 <= r <= 200_000_000_000_000,
{
    if m > PRICE_FLOOR && t > PRICE_FLOOR {
        let d: i128 = log_of(ln, m) - log_of(ln, t);
        proof {
            let top: int = 0x8000_0000_0000_0000;
            lemma_mul_bound(m as int, d as int, top, 200_000_000_000_000);
            lemma_div_bound(
                m * d,
                UNIT as int,
                -2_000_000_000_000_000_000_000,
                2_000_000_000_000_000_000_000,
            );
            if m <= UNIT {
                lemma_mul_bound(m as int, d as int, UNIT as int, 200_000_000_000_000);
                lemma_div_bound(m * d, UNIT as int, -200_000_000_000_000, 200_000_000_000_000);
            }
        }
        div_down(m as i128 * d, UNIT as i128)
    } else {
        0
    }
}

/// The divergence of the prices `mu` from the prices `theta`: the sum of
/// `m * ln(m / t)` over their pairs.
pub fn bregman_divergence<L: Fn(i64) -> i64>(mu: &[i64], theta: &[i64], ln: &L) -> (r: i128)
    requires
        mu.len() == theta.len(),
        mu.len() <= MAX_OUTCOMES,
        asks_positive(*ln),
    ensures
        forall|f: spec_fn(int) -> int| #[trigger]
            computes(*ln, f) ==> r == divergence(mu@, theta@, f),
        (forall|i: int| 0 <= i < mu.len() ==> #[trigger] mu@[i] <= UNIT) ==> -(mu.len()
            * 200_000_000_000_000) <= r <= mu.len() * 200_000_000_000_000,
{
    let mut acc: i128 = 0;
    let mut i: usize = 0;
    while i < mu.len()
        invariant
            i <= mu.len(),
            mu.len() == theta.len(),
            mu.len() <= MAX_OUTCOMES,
            asks_positive(*ln),
            forall|f: spec_fn(int) -> int| #[trigger]
                computes(*ln, f) ==> acc == divergence_upto(mu@, theta@, f, i as int),
            -(i * 2_000_000_000_000_000_000_000) <= acc <= i * 2_000_000_000_000_000_000_000,
            (forall|i: int| 0 <= i < mu.len() ==> #[trigger] mu@[i] <= UNIT) ==> -(i
                * 200_000_000_000_000) <= acc <= i * 200_000_000_000_000,
        decreases mu.len() - i,
    {
        let t: i128 = divergence_of_pair(mu[i], theta[i], ln);
        acc = acc + t;
        i = i + 1;
    }
    acc
}

/// The slope of the negative entropy at `m`: `ln(m) + 1`.
pub open spec fn entropy_slope(m: int, f: spec_fn(int) -> int) -> int {
    if m > 1 { log_at(f, m) + UNIT } else { STEEPEST as int }
}

/// The slopes of the negative entropy at all prices.
pub open spec fn entropy_slopes(mu: Seq<i64>, f: spec_fn(int) -> int) -> Seq<int> {
    Seq::new(mu.len(), |i: int| entropy_slope(mu[i] as int, f))
}

/// The slope of the divergence from the price `t` at `m`: `ln(m) - ln(t) + 1`;
/// flat where the divergence leaves `t` out.
pub open spec fn slope(m: int, t: int, f: spec_fn(int) -> int) -> int {
    if t <= PRICE_FLOOR {
        0
    } else if m > 1 {
        log_at(f, m) - log_at(f, t) + UNIT
    } else {
        STEEPEST as int
    }
}

/// The slopes of the divergence from the prices `theta` at all prices.
pub open spec fn slopes(mu: Seq<i64>, theta: Seq<i64>, f: spec_fn(int) -> int) -> Seq<int> {
    Seq::new(mu.len(), |i: int| slope(mu[i] as int, theta[i] as int, f))
}

/// Wider integers as integers.
pub open spec fn wide(s: Seq<i128>) -> Seq<int> {
    s.map_values(|x: i128| x as int)
}

/// The gradient of the negative entropy: `ln(m) + 1` at every price, and a
/// fixed steep slope at prices of at most one resolution step.
pub fn bregman_gradient<L: Fn(i64) -> i64>(mu: &[i64], ln: &L) -> (r: Vec<i128>)
    requires
        asks_positive(*ln),
    ensures
        r.len() == mu.len(),
        forall|f: spec_fn(int) -> int| #[trigger]
            computes(*ln, f) ==> wide(r@) == entropy_slopes(mu@, f),
        forall|i: int| 0 <= i < r.len() ==> STEEPEST <= #[trigger] r@[i] <= -STEEPEST,
{
    let mut out: Vec<i128> = Vec::new();
    let mut i: usize = 0;
    while i < mu.len()
        invariant
            i <= mu.len(),
            out.len() == i,
            asks_positive(*ln),
            forall|f: spec_fn(int) -> int, k: int|
                0 <= k < i && #[trigger] computes(*ln, f) ==> (#[trigger] out@[k]) as int
                    == entropy_slope(mu@[k] as int, f),
            forall|k: int| 0 <= k < i ==> STEEPEST <= #[trigger] out@[k] <= -STEEPEST,
        decreases mu.len() - i,
    {
        let m: i64 = mu[i];
        let g: i128 = if m > 1 { log_of(ln, m) + UNIT as i128 } else { STEEPEST };
        out.push(g);
        i = i + 1;
    }
    proof {
        assert forall|f: spec_fn(int) -> int| #[trigger] computes(*ln, f) implies wide(out@)
            == entropy_slopes(mu@, f) by {
            assert(wide(out@) =~= entropy_slopes(mu@, f));
        }
    }
    out
}

/// The gradient of the divergence from the prices `theta`: `ln(m) - ln(t) + 1` at
/// every price, and a fixed steep slope at prices of at most one resolution step.
pub fn divergence_gradient<L: Fn(i64) -> i64>(mu: &[i64], theta: &[i64], ln: &L) -> (r: Vec<i128>)
    requires
        mu.len() == theta.len(),
        asks_positive(*ln),
    ensures
        r.len() == mu.len(),
        forall|f: spec_fn(int) -> int| #[trigger]
            computes(*ln, f) ==> wide(r@) == slopes(mu@, theta@, f),
        forall|i: int| 0 <= i < r.len() ==> STEEPEST <= #[trigger] r@[i] <= -STEEPEST,
{
    let mut out: Vec<i128> = Vec::new();
    let mut i: usize = 0;
    while i < mu.len()
        invariant
            i <= mu.len(),
            mu.len() == theta.len(),
            out.len() == i,
            asks_positive(*ln),
            forall|f: spec_fn(int) -> int, k: int|
                0 <= k < i && #[trigger] computes(*ln, f) ==> (#[trigger] out@[k]) as int == slope(
                    mu@[k] as int,
                    theta@[k] as int,
                    f,
                ),
            forall|k: int| 0 <= k < i ==> STEEPEST <= #[trigger] out@[k] <= -STEEPEST,
        decreases mu.len() - i,
    {
        let m: i64 = mu[i];
        let t: i64 = theta[i];
        let g: i128 = if t <= PRICE_FLOOR {
            0
        } else if m > 1 {
            log_of(ln, m) - log_of(ln, t) + UNIT as i128
        } else {
            STEEPEST
        };
        out.push(g);
        i = i + 1;
    }
    proof {
        assert forall|f: spec_fn(int) -> int| #[trigger] computes(*ln, f) implies wide(out@)
            == slopes(mu@, theta@, f) by {
            assert(wide(out@) =~= slopes(mu@, theta@, f));
        }
    }
    out
}

// ---------------------------------------------------------------------------
// Contraction
// ---------------------------------------------------------------------------

/// `(1 - epsilon) * v + epsilon * u`, rounded down.
pub open spec fn blend(v: int, u: int, epsilon: int) -> int {
    ((UNIT - epsilon) * v + epsilon * u) / (UNIT as int)
}

/// A vertex, contracted towards an interior point, coordinate by coordinate.
pub open spec fn contracted(vertex: Seq<i64>, interior: Seq<i64>, epsilon: int) -> Seq<i64> {
    Seq::new(
        smaller(vertex.len() as int, interior.len() as int) as nat,
        |i: int| held(blend(vertex[i] as int, interior[i] as int, epsilon)) as i64,
    )
}

/// A blend of two points of an interval, with a weight between zero and one,
/// lies in the interval.
pub proof fn lemma_blend_between(v: int, u: int, epsilon: int, lo: int, hi: int)
    requires
        lo <= v <= hi,
        lo <= u <= hi,
        0 <= epsilon <= UNIT,
    ensures
        lo <= blend(v, u, epsilon) <= hi,
{
    let s: int = (UNIT - epsilon) * v + epsilon * u;
    assert(lo * UNIT <= s <= hi * UNIT) by (nonlinear_arith)
        requires
            lo <= v <= hi,
            lo <= u <= hi,
            0 <= epsilon <= UNIT,
            s == (UNIT - epsilon) * v + epsilon * u,
    ;
    lemma_div_bound(s, UNIT as int, lo, hi);
}

/// Moves a vertex towards an interior point, so that no coordinate of it stays
/// on the border: `(1 - epsilon) * v + epsilon * u` for every coordinate that
/// both have.
pub fn contract_polytope_vertex(vertex: &[i64], interior: &[i64], epsilon: i64) -> (r: Vec<i64>)
    ensures
        r@ == contracted(vertex@, interior@, epsilon as int),
{
    let n: usize = if vertex.len() < interior.len() { vertex.len() } else { interior.len() };
    let mut out: Vec<i64> = Vec::new();
    let mut i: usize = 0;
    while i < n
        invariant
            i <= n,
            n == smaller(vertex.len() as int, interior.len() as int),
            out.len() == i,
            forall|k: int|
                0 <= k < i ==> #[trigger] out@[k] == held(
                    blend(vertex@[k] as int, interior@[k] as int, epsilon as int),
                ),
        decreases n - i,
    {
        let v: i64 = vertex[i];
        let u: i64 = interior[i];
        let d: i128 = u as i128 - v as i128;
        proof {
            lemma_blend_shift(v as int, u as int, epsilon as int);
            lemma_mul_bound(
                epsilon as int,
                d as int,
                0x8000_0000_0000_0000,
                0xFFFF_FFFF_FFFF_FFFF,
            );
            lemma_div_bound(
                epsilon * d,
                UNIT as int,
                -0x10_0000_0000_0000_0000_0000_0000,
                0x10_0000_0000_0000_0000_0000_0000,
            );
        }
        let step: i128 = div_down(epsilon as i128 * d, UNIT as i128);
        out.push(hold(v as i128 + step));
        i = i + 1;
    }
    assert(out@ =~= contracted(vertex@, interior@, epsilon as int));
    out
}

/// A blend is the first point and a rounded part of the way to the second.
proof fn lemma_blend_shift(v: int, u: int, epsilon: int)
    ensures
        blend(v, u, epsilon) == v + (epsilon * (u - v)) / (UNIT as int),
{
    let x: int = epsilon * (u - v);
    assert((UNIT - epsilon) * v + epsilon * u == UNIT * v + x) by (nonlinear_arith)
        requires
            x == epsilon * (u - v),
    ;
    vstd::arithmetic::div_mod::lemma_hoist_over_denominator(x, v, UNIT as nat);
    assert(v * UNIT == UNIT * v) by (nonlinear_arith);
}

/// The ratio of two gaps, `fw_gap / |4 * interior_gap|`, rounded down.
pub open spec fn gap_ratio(fw_gap: int, interior_gap: int) -> int {
    (fw_gap * UNIT) / (4 * magnitude(interior_gap))
}

/// The next contraction: where the ratio of the gaps is below the current one,
/// the smaller of the ratio and half the current one, but at least
/// `MIN_EPSILON`; else the current one. A negative gap over no gap counts as a
/// ratio below everything.
pub open spec fn next_epsilon(epsilon: int, fw_gap: int, interior_gap: int) -> int {
    if interior_gap == 0 {
        if fw_gap < 0 { MIN_EPSILON as int } else { epsilon }
    } else if gap_ratio(fw_gap, interior_gap) < epsilon {
        larger(smaller(gap_ratio(fw_gap, interior_gap), epsilon / 2), MIN_EPSILON as int)
    } else {
        epsilon
    }
}

/// Adapts the contraction to the progress made.
pub fn update_epsilon(current_epsilon: i64, fw_gap: i128, interior_gap: i128) -> (r: i64)
    requires
        i128::MIN < fw_gap,
        -0x1000_0000_0000_0000_0000_0000_0000_0000 <= interior_gap
            <= 0x1000_0000_0000_0000_0000_0000_0000_0000,
    ensures
        r == next_epsilon(current_epsilon as int, fw_gap as int, interior_gap as int),
{
    if interior_gap == 0 {
        return if fw_gap < 0 { MIN_EPSILON } else { current_epsilon };
    }
    let size: i128 = 4 * (if interior_gap < 0 { -interior_gap } else { interior_gap });
    let half: i64 = div_down(current_epsilon as i128, 2) as i64;
    proof {
        lemma_ratio(fw_gap * UNIT, size as int, current_epsilon as int);
        lemma_ratio(fw_gap * UNIT, size as int, half as int);
        lemma_ratio(fw_gap * UNIT, size as int, MIN_EPSILON as int);
    }
    if product_at_most(size, current_epsilon as i128, fw_gap, UNIT as i128) {
        return current_epsilon;
    }
    if product_at_most(size, half as i128, fw_gap, UNIT as i128) {
        return if half >= MIN_EPSILON { half } else { MIN_EPSILON };
    }
    if !product_at_most(size, MIN_EPSILON as i128, fw_gap, UNIT as i128) {
        return MIN_EPSILON;
    }
    // The ratio is at least `low` and below `high`.
    let mut low: i64 = MIN_EPSILON;
    let mut high: i64 = half;
    while high - low > 1
        invariant
            MIN_EPSILON <= low < high <= half,
            size == 4 * magnitude(interior_gap as int),
            size > 0,
            i128::MIN < fw_gap,
            low <= gap_ratio(fw_gap as int, interior_gap as int) < high,
        decreases high - low,
    {
        let middle: i64 = low + (high - low) / 2;
        proof {
            lemma_ratio(fw_gap * UNIT, size as int, middle as int);
        }
        if product_at_most(size, middle as i128, fw_gap, UNIT as i128) {
            low = middle;
        } else {
            high = middle;
        }
    }
    low
}

/// A rounded quotient is at least `q` exactly where the dividend is at least
/// `q` times the divisor.
proof fn lemma_ratio(a: int, d: int, q: int)
    requires
        d > 0,
    ensures
        q <= a / d <==> d * q <= a,
{
    vstd::arithmetic::div_mod::lemma_fundamental_div_mod(a, d);
    let x: int = a / d;
    let r: int = a % d;
    if q <= x {
        assert(d * q <= a) by (nonlinear_arith)
            requires
                q <= x,
                a == d * x + r,
                0 <= r,
                d > 0,
        ;
    } else {
        assert(a < d * q) by (nonlinear_arith)
            requires
                x + 1 <= q,
                a == d * x + r,
                r < d,
                d > 0,
        ;
    }
}

// ---------------------------------------------------------------------------
// Constraints
// ---------------------------------------------------------------------------

/// A corner of the fair prices: one outcome of each group at one, all others at
/// zero.
#[derive(Debug, Clone)]
pub struct Vertex {
    pub values: Vec<i64>,
}

/// What ties outcomes together.
#[derive(Debug, Clone)]
pub struct MarketConstraints {
    /// Groups of outcomes of which exactly one comes true.
    pub exclusive_groups: Vec<Vec<usize>>,
    /// Pairs of outcomes of which the first implies the second.
    pub implications: Vec<(usize, usize)>,
}

/// Whether every outcome of a group is one of `n`.
pub open spec fn group_within(group: Seq<usize>, n: int) -> bool {
    forall|j: int| 0 <= j < group.len() ==> (#[trigger] group[j]) < n
}

/// Whether every outcome of every group is one of `n`.
pub open spec fn groups_within(groups: Seq<Seq<usize>>, n: int) -> bool {
    forall|k: int| 0 <= k < groups.len() ==> group_within(#[trigger] groups[k], n)
}

/// The sum of the prices of the first `n` outcomes of a group.
pub open spec fn group_sum(group: Seq<usize>, prices: Seq<i64>, n: int) -> int
    decreases n,
{
    if n <= 0 { 0 } else { group_sum(group, prices, n - 1) + prices[group[n - 1] as int] }
}

/// Whether the prices of a group add up to one, within a tolerance.
pub open spec fn group_fair(group: Seq<usize>, prices: Seq<i64>, tolerance: int) -> bool {
    magnitude(group_sum(group, prices, group.len() as int) - UNIT) <= tolerance
}

/// Whether all groups before the `k`-th are fair.
pub open spec fn fair_before(
    groups: Seq<Seq<usize>>,
    prices: Seq<i64>,
    tolerance: int,
    k: int,
) -> bool {
    forall|h: int| 0 <= h < k ==> group_fair(#[trigger] groups[h], prices, tolerance)
}

/// Whether every pair of outcomes of which the first implies the second is priced
/// so, within a tolerance. A pair counts where both outcomes have a price.
pub open spec fn implied(
    implications: Seq<(usize, usize)>,
    prices: Seq<i64>,
    tolerance: int,
) -> bool {
    forall|h: int|
        0 <= h < implications.len() ==> implies_fairly(
            #[trigger] implications[h],
            prices,
            tolerance,
        )
}

/// Whether an outcome costs no more than one that it implies, within a tolerance.
pub open spec fn implies_fairly(pair: (usize, usize), prices: Seq<i64>, tolerance: int) -> bool {
    pair.0 < prices.len() && pair.1 < prices.len() ==> prices[pair.0 as int]
        <= prices[pair.1 as int] + tolerance
}

/// Whether prices are fair: those of every group add up to one, and no outcome
/// costs more than one that it implies.
pub open spec fn feasible(
    groups: Seq<Seq<usize>>,
    implications: Seq<(usize, usize)>,
    prices: Seq<i64>,
    tolerance: int,
) -> bool {
    &&& fair_before(groups, prices, tolerance, groups.len() as int)
    &&& implied(implications, prices, tolerance)
}

/// Every choice of `front`, up to the `m`-th, with each outcome of a group added.
pub open spec fn extended(
    front: Seq<Seq<usize>>,
    group: Seq<usize>,
    m: int,
) -> Seq<Seq<usize>>
    decreases m,
{
    if m <= 0 {
        Seq::empty()
    } else {
        extended(front, group, m - 1) + Seq::new(group.len(), |j: int| front[m - 1].push(group[j]))
    }
}

/// Every choice of one outcome from each of the first `k` groups.
pub open spec fn choices(groups: Seq<Seq<usize>>, k: int) -> Seq<Seq<usize>>
    decreases k,
{
    if k <= 0 {
        seq![Seq::empty()]
    } else {
        extended(choices(groups, k - 1), groups[k - 1], choices(groups, k - 1).len() as int)
    }
}

/// The corner of a choice: what was chosen at one, everything else at zero.
pub open spec fn corner(n: nat, choice: Seq<usize>) -> Seq<i64> {
    Seq::new(n, |i: int| if picks(choice, i) { UNIT } else { 0 })
}

/// Whether a choice holds the outcome `i`.
pub open spec fn picks(choice: Seq<usize>, i: int) -> bool {
    exists|j: int| 0 <= j < choice.len() && #[trigger] choice[j] == i
}

/// The corners of the first `m` choices that are fair.
pub open spec fn fair_corners(
    groups: Seq<Seq<usize>>,
    implications: Seq<(usize, usize)>,
    list: Seq<Seq<usize>>,
    n: nat,
    m: int,
) -> Seq<Seq<i64>>
    decreases m,
{
    if m <= 0 {
        Seq::empty()
    } else {
        let rest = fair_corners(groups, implications, list, n, m - 1);
        let c = corner(n, list[m - 1]);
        if feasible(groups, implications, c, 0) { rest.push(c) } else { rest }
    }
}

/// The corners of the fair prices: those of every choice of one outcome from each
/// group that is fair. Without groups there are none.
pub open spec fn vertices_of(
    groups: Seq<Seq<usize>>,
    implications: Seq<(usize, usize)>,
    n: nat,
) -> Seq<Seq<i64>> {
    if groups.len() == 0 {
        Seq::empty()
    } else {
        let list = choices(groups, groups.len() as int);
        fair_corners(groups, implications, list, n, list.len() as int)
    }
}

/// Whether no outcome is in two groups, or twice in one.
pub open spec fn apart(groups: Seq<Seq<usize>>) -> bool {
    forall|h: int, j: int, k: int, l: int|
        #![trigger groups[h][j], groups[k][l]]
        0 <= h < groups.len() && 0 <= k < groups.len() && 0 <= j < groups[h].len() && 0 <= l
            < groups[k].len() && groups[h][j] == groups[k][l] ==> h == k && j == l
}

/// Whether outcome `i` is in one of the first `m` groups.
pub open spec fn grouped(groups: Seq<Seq<usize>>, m: int, i: int) -> bool {
    exists|h: int, j: int|
        0 <= h < m && 0 <= j < groups[h].len() && #[trigger] groups[h][j] == i
}

/// Whether the `l`-th outcome of group `h` comes before the `j`-th of group `k`.
spec fn is_before(groups: Seq<Seq<usize>>, k: int, j: int, h: int, l: int) -> bool {
    0 <= h && 0 <= l < groups[h].len() && (h < k || (h == k && l < j))
}

/// Whether outcome `i` stands before the `j`-th of group `k`.
spec fn grouped_before(groups: Seq<Seq<usize>>, k: int, j: int, i: int) -> bool {
    exists|h: int, l: int| is_before(groups, k, j, h, l) && #[trigger] groups[h][l] == i
}

/// Whether no outcome stands twice before the `j`-th of group `k`.
spec fn apart_before(groups: Seq<Seq<usize>>, k: int, j: int) -> bool {
    forall|h: int, l: int, g: int, m: int|
        #![trigger groups[h][l], groups[g][m]]
        is_before(groups, k, j, h, l) && is_before(groups, k, j, g, m) && groups[h][l]
            == groups[g][m] ==> h == g && l == m
}

proof fn lemma_grouped_before(groups: Seq<Seq<usize>>, k: int, x: int)
    ensures
        grouped(groups, k, x) == grouped_before(groups, k, 0, x),
{
    if grouped(groups, k, x) {
        let (h, l) = choose|h: int, l: int|
            0 <= h < k && 0 <= l < groups[h].len() && #[trigger] groups[h][l] == x;
        assert(is_before(groups, k, 0, h, l));
    }
}

proof fn lemma_one_more_apart(groups: Seq<Seq<usize>>, k: int, j: int)
    requires
        0 <= k < groups.len(),
        0 <= j < groups[k].len(),
        apart_before(groups, k, j),
        !grouped_before(groups, k, j, groups[k][j] as int),
    ensures
        apart_before(groups, k, j + 1),
{
    assert forall|h: int, l: int, g: int, m: int|
        #![trigger groups[h][l], groups[g][m]]
        is_before(groups, k, j + 1, h, l) && is_before(groups, k, j + 1, g, m) && groups[h][l]
            == groups[g][m] implies h == g && l == m by {
        if is_before(groups, k, j, h, l) && is_before(groups, k, j, g, m) {
        } else if is_before(groups, k, j, h, l) {
            assert(g == k && m == j);
            assert(grouped_before(groups, k, j, groups[k][j] as int));
        } else if is_before(groups, k, j, g, m) {
            assert(h == k && l == j);
            assert(grouped_before(groups, k, j, groups[k][j] as int));
        }
    }
}

proof fn lemma_one_more_grouped(groups: Seq<Seq<usize>>, k: int, j: int, x: int)
    requires
        0 <= k < groups.len(),
        0 <= j < groups[k].len(),
    ensures
        grouped_before(groups, k, j + 1, x) == (grouped_before(groups, k, j, x) || groups[k][j]
            == x),
{
    if grouped_before(groups, k, j + 1, x) && groups[k][j] != x {
        let (h, l) = choose|h: int, l: int|
            is_before(groups, k, j + 1, h, l) && #[trigger] groups[h][l] == x;
        assert(is_before(groups, k, j, h, l));
    }
    if grouped_before(groups, k, j, x) {
        let (h, l) = choose|h: int, l: int|
            is_before(groups, k, j, h, l) && #[trigger] groups[h][l] == x;
        assert(is_before(groups, k, j + 1, h, l));
    }
    if groups[k][j] == x {
        assert(is_before(groups, k, j + 1, k, j));
    }
}

proof fn lemma_group_passed(groups: Seq<Seq<usize>>, k: int)
    requires
        0 <= k < groups.len(),
        apart_before(groups, k, groups[k].len() as int),
    ensures
        apart_before(groups, k + 1, 0),
{
    assert forall|h: int, l: int, g: int, m: int|
        #![trigger groups[h][l], groups[g][m]]
        is_before(groups, k + 1, 0, h, l) && is_before(groups, k + 1, 0, g, m) && groups[h][l]
            == groups[g][m] implies h == g && l == m by {
        assert(is_before(groups, k, groups[k].len() as int, h, l));
        assert(is_before(groups, k, groups[k].len() as int, g, m));
    }
}

proof fn lemma_grouped_passed(groups: Seq<Seq<usize>>, k: int, x: int)
    requires
        0 <= k < groups.len(),
    ensures
        grouped(groups, k + 1, x) == grouped_before(groups, k, groups[k].len() as int, x),
{
    if grouped(groups, k + 1, x) {
        let (h, l) = choose|h: int, l: int|
            0 <= h < k + 1 && 0 <= l < groups[h].len() && #[trigger] groups[h][l] == x;
        assert(is_before(groups, k, groups[k].len() as int, h, l));
    }
    if grouped_before(groups, k, groups[k].len() as int, x) {
        let (h, l) = choose|h: int, l: int|
            is_before(groups, k, groups[k].len() as int, h, l) && #[trigger] groups[h][l] == x;
        assert(0 <= h < k + 1 && 0 <= l < groups[h].len());
    }
}

proof fn lemma_all_apart(groups: Seq<Seq<usize>>)
    requires
        apart_before(groups, groups.len() as int, 0),
    ensures
        apart(groups),
{
    assert forall|h: int, j: int, k: int, l: int|
        #![trigger groups[h][j], groups[k][l]]
        0 <= h < groups.len() && 0 <= k < groups.len() && 0 <= j < groups[h].len() && 0 <= l
            < groups[k].len() && groups[h][j] == groups[k][l] implies h == k && j == l by {
        assert(is_before(groups, groups.len() as int, 0, h, j));
        assert(is_before(groups, groups.len() as int, 0, k, l));
    }
}

impl MarketConstraints {
    /// The groups, as sequences of outcomes.
    pub open spec fn groups(&self) -> Seq<Seq<usize>> {
        self.exclusive_groups@.map_values(|g: Vec<usize>| g@)
    }

    /// The constraints of a market with the outcomes YES and NO.
    pub fn simple_yes_no() -> (r: MarketConstraints)
        ensures
            r.groups() == seq![seq![0usize, 1usize]],
            r.implications@ == Seq::<(usize, usize)>::empty(),
    {
        let mut pair: Vec<usize> = Vec::new();
        pair.push(0);
        pair.push(1);
        let mut groups: Vec<Vec<usize>> = Vec::new();
        groups.push(pair);
        let r: MarketConstraints = MarketConstraints {
            exclusive_groups: groups,
            implications: Vec::new(),
        };
        assert(r.groups()[0] =~= seq![0usize, 1usize]);
        assert(r.groups() =~= seq![seq![0usize, 1usize]]);
        r
    }

    /// Whether the prices of every group add up to one, and no outcome costs more
    /// than one that it implies, within a tolerance. The groups up to the first
    /// that is not fair name only prices that exist.
    pub fn is_feasible(&self, prices: &[i64], tolerance: i64) -> (r: bool)
        requires
            forall|k: int|
                0 <= k < self.groups().len() && fair_before(
                    self.groups(),
                    prices@,
                    tolerance as int,
                    k,
                ) ==> group_within(#[trigger] self.groups()[k], prices.len() as int),
        ensures
            r == feasible(self.groups(), self.implications@, prices@, tolerance as int),
    {
        let ghost groups = self.groups();
        let mut k: usize = 0;
        while k < self.exclusive_groups.len()
            invariant
                k <= self.exclusive_groups.len(),
                groups == self.groups(),
                fair_before(groups, prices@, tolerance as int, k as int),
                forall|k: int|
                    0 <= k < groups.len() && fair_before(groups, prices@, tolerance as int, k)
                        ==> group_within(#[trigger] groups[k], prices.len() as int),
            decreases self.exclusive_groups.len() - k,
        {
            let group: &Vec<usize> = &self.exclusive_groups[k];
            assert(groups[k as int] == group@);
            let mut acc: i128 = 0;
            let mut j: usize = 0;
            while j < group.len()
                invariant
                    j <= group.len(),
                    group_within(group@, prices.len() as int),
                    acc == group_sum(group@, prices@, j as int),
                    j * i64::MIN <= acc <= j * i64::MAX,
                decreases group.len() - j,
            {
                proof {
                    crate::units::lemma_sum_fits(j as int);
                    assert((j + 1) * i64::MIN == j * i64::MIN + i64::MIN) by (nonlinear_arith);
                    assert((j + 1) * i64::MAX == j * i64::MAX + i64::MAX) by (nonlinear_arith);
                }
                let at: usize = group[j];
                acc = acc + prices[at] as i128;
                j = j + 1;
            }
            if acc > UNIT as i128 {
                if acc - UNIT as i128 > tolerance as i128 {
                    assert(!group_fair(groups[k as int], prices@, tolerance as int));
                    return false;
                }
            } else {
                proof {
                    lemma_group_sum_low(group.len() as int);
                }
                if UNIT as i128 - acc > tolerance as i128 {
                    assert(!group_fair(groups[k as int], prices@, tolerance as int));
                    return false;
                }
            }
            assert(group_fair(groups[k as int], prices@, tolerance as int));
            k = k + 1;
        }
        let mut h: usize = 0;
        while h < self.implications.len()
            invariant
                h <= self.implications.len(),
                forall|x: int|
                    0 <= x < h ==> implies_fairly(
                        #[trigger] self.implications@[x],
                        prices@,
                        tolerance as int,
                    ),
            decreases self.implications.len() - h,
        {
            let (i, j): (usize, usize) = self.implications[h];
            if i < prices.len() && j < prices.len() && prices[i] as i128 > prices[j] as i128
                + tolerance as i128 {
                assert(!implies_fairly(self.implications@[h as int], prices@, tolerance as int));
                return false;
            }
            h = h + 1;
        }
        true
    }

    /// Whether there are groups, and an outcome in each.
    fn any_corner(&self) -> (r: bool)
        ensures
            r == has_corners(self.groups()),
    {
        let ghost groups = self.groups();
        let mut k: usize = 0;
        while k < self.exclusive_groups.len()
            invariant
                k <= self.exclusive_groups.len(),
                groups == self.groups(),
                forall|x: int| 0 <= x < k ==> (#[trigger] groups[x]).len() > 0,
            decreases self.exclusive_groups.len() - k,
        {
            assert(groups[k as int] == self.exclusive_groups@[k as int]@);
            if self.exclusive_groups[k].len() == 0 {
                return false;
            }
            k = k + 1;
        }
        self.exclusive_groups.len() > 0
    }

    /// Whether no outcome is in two groups, or twice in one.
    fn is_apart(&self, n: usize) -> (r: bool)
        requires
            groups_within(self.groups(), n as int),
        ensures
            r == apart(self.groups()),
    {
        let ghost groups = self.groups();
        let mut seen: Vec<bool> = Vec::new();
        let mut i: usize = 0;
        while i < n
            invariant
                i <= n,
                seen.len() == i,
                forall|x: int| 0 <= x < i ==> !(#[trigger] seen@[x]),
            decreases n - i,
        {
            seen.push(false);
            i = i + 1;
        }
        assert forall|x: int| 0 <= x < n implies #[trigger] seen@[x] == grouped(groups, 0, x) by {}
        assert(apart_before(groups, 0, 0));
        let mut k: usize = 0;
        while k < self.exclusive_groups.len()
            invariant
                k <= self.exclusive_groups.len(),
                groups == self.groups(),
                groups_within(groups, n as int),
                seen.len() == n,
                forall|x: int| 0 <= x < n ==> #[trigger] seen@[x] == grouped(groups, k as int, x),
                apart_before(groups, k as int, 0),
            decreases self.exclusive_groups.len() - k,
        {
            let group: &Vec<usize> = &self.exclusive_groups[k];
            assert(groups[k as int] == group@);
            assert(group_within(group@, n as int));
            let mut j: usize = 0;
            assert forall|x: int| 0 <= x < n implies #[trigger] seen@[x] == grouped_before(
                groups,
                k as int,
                0,
                x,
            ) by {
                lemma_grouped_before(groups, k as int, x);
            }
            while j < group.len()
                invariant
                    j <= group.len(),
                    k < self.exclusive_groups.len(),
                    groups == self.groups(),
                    groups[k as int] == group@,
                    group_within(group@, n as int),
                    seen.len() == n,
                    forall|x: int|
                        0 <= x < n ==> #[trigger] seen@[x] == grouped_before(
                            groups,
                            k as int,
                            j as int,
                            x,
                        ),
                    apart_before(groups, k as int, j as int),
                decreases group.len() - j,
            {
                let at: usize = group[j];
                assert(groups[k as int][j as int] == at);
                if seen[at] {
                    proof {
                        let (h, l) = choose|h: int, l: int|
                            is_before(groups, k as int, j as int, h, l) && #[trigger] groups[h][l]
                                == at;
                        assert(groups[h][l] == groups[k as int][j as int]);
                        assert(!apart(groups));
                    }
                    return false;
                }
                seen.set(at, true);
                proof {
                    lemma_one_more_apart(groups, k as int, j as int);
                    assert forall|x: int| 0 <= x < n implies #[trigger] seen@[x] == grouped_before(
                        groups,
                        k as int,
                        j + 1,
                        x,
                    ) by {
                        lemma_one_more_grouped(groups, k as int, j as int, x);
                    }
                }
                j = j + 1;
            }
            proof {
                lemma_group_passed(groups, k as int);
                assert forall|x: int| 0 <= x < n implies #[trigger] seen@[x] == grouped(
                    groups,
                    k + 1,
                    x,
                ) by {
                    lemma_grouped_passed(groups, k as int, x);
                }
            }
            k = k + 1;
        }
        proof {
            lemma_all_apart(groups);
        }
        true
    }

    /// The corners of the fair prices: every choice of one outcome from each group
    /// that is fair. There are as many choices as the sizes of the groups multiply
    /// to.
    pub fn generate_vertices(&self, n: usize) -> (r: Vec<Vertex>)
        requires
            groups_within(self.groups(), n as int),
        ensures
            r@.map_values(|v: Vertex| v.values@) == vertices_of(
                self.groups(),
                self.implications@,
                n as nat,
            ),
    {
        let ghost groups = self.groups();
        let mut vertices: Vec<Vertex> = Vec::new();
        if self.exclusive_groups.len() == 0 {
            assert(vertices@.map_values(|v: Vertex| v.values@) =~= Seq::empty());
            return vertices;
        }
        let mut list: Vec<Vec<i64>> = Vec::new();
        list.push(zeros(n));
        assert(list@[0]@ =~= corner(n as nat, choices(groups, 0)[0]));
        let mut k: usize = 0;
        while k < self.exclusive_groups.len()
            invariant
                k <= self.exclusive_groups.len(),
                groups == self.groups(),
                groups_within(groups, n as int),
                are_corners(list@, choices(groups, k as int), n as nat),
            decreases self.exclusive_groups.len() - k,
        {
            assert(groups[k as int] == self.exclusive_groups@[k as int]@);
            list = extend_corners(
                &list,
                &self.exclusive_groups[k],
                n,
                Ghost(choices(groups, k as int)),
            );
            k = k + 1;
        }
        let ghost all = choices(groups, groups.len() as int);
        let mut m: usize = 0;
        assert(vertices@.map_values(|v: Vertex| v.values@) =~= Seq::empty());
        while m < list.len()
            invariant
                m <= list.len(),
                groups == self.groups(),
                groups_within(groups, n as int),
                are_corners(list@, all, n as nat),
                vertices@.map_values(|v: Vertex| v.values@) == fair_corners(
                    groups,
                    self.implications@,
                    all,
                    n as nat,
                    m as int,
                ),
            decreases list.len() - m,
        {
            let ghost so_far = vertices@;
            assert(list@[m as int]@ == corner(n as nat, all[m as int]));
            if self.is_feasible(list[m].as_slice(), 0) {
                let values: Vec<i64> = copied(list[m].as_slice());
                vertices.push(Vertex { values });
                assert(vertices@.map_values(|v: Vertex| v.values@) =~= so_far.map_values(
                    |v: Vertex| v.values@,
                ).push(values@));
            }
            m = m + 1;
        }
        vertices
    }
}

/// Whether a list holds the corners of choices, one for each.
spec fn are_corners(list: Seq<Vec<i64>>, all: Seq<Seq<usize>>, n: nat) -> bool {
    &&& list.len() == all.len()
    &&& forall|x: int| 0 <= x < list.len() ==> (#[trigger] list[x])@ == corner(n, all[x])
}

/// Every corner of a list, with each outcome of a group added.
fn extend_corners(
    list: &Vec<Vec<i64>>,
    group: &Vec<usize>,
    n: usize,
    front: Ghost<Seq<Seq<usize>>>,
) -> (r: Vec<Vec<i64>>)
    requires
        are_corners(list@, front@, n as nat),
        group_within(group@, n as int),
    ensures
        are_corners(r@, extended(front@, group@, front@.len() as int), n as nat),
{
    let mut out: Vec<Vec<i64>> = Vec::new();
    let mut x: usize = 0;
    while x < list.len()
        invariant
            x <= list.len(),
            are_corners(list@, front@, n as nat),
            group_within(group@, n as int),
            are_corners(out@, extended(front@, group@, x as int), n as nat),
        decreases list.len() - x,
    {
        let ghost done = extended(front@, group@, x as int);
        let ghost row = Seq::new(group@.len(), |j: int| front@[x as int].push(group@[j]));
        assert(list@[x as int]@ == corner(n as nat, front@[x as int]));
        let mut j: usize = 0;
        assert(done + row.take(0) =~= done);
        while j < group.len()
            invariant
                j <= group.len(),
                x < list.len(),
                x < front@.len(),
                group_within(group@, n as int),
                list@[x as int]@ == corner(n as nat, front@[x as int]),
                row == Seq::new(group@.len(), |j: int| front@[x as int].push(group@[j])),
                are_corners(out@, done + row.take(j as int), n as nat),
            decreases group.len() - j,
        {
            let at: usize = group[j];
            let mut values: Vec<i64> = copied(list[x].as_slice());
            values.set(at, UNIT);
            proof {
                lemma_corner_push(n as nat, front@[x as int], at);
                assert(row[j as int] == front@[x as int].push(at));
                assert((done + row.take(j + 1)) =~= (done + row.take(j as int)).push(
                    row[j as int],
                ));
            }
            out.push(values);
            j = j + 1;
        }
        assert(row.take(j as int) =~= row);
        x = x + 1;
        assert(extended(front@, group@, x as int) == done + row);
    }
    out
}

/// Adding an outcome to a choice sets its coordinate.
proof fn lemma_corner_push(n: nat, choice: Seq<usize>, at: usize)
    requires
        at < n,
    ensures
        corner(n, choice.push(at)) == corner(n, choice).update(at as int, UNIT),
{
    let more = choice.push(at);
    assert forall|i: int| 0 <= i < n implies corner(n, more)[i] == #[trigger] corner(
        n,
        choice,
    ).update(at as int, UNIT)[i] by {
        assert(more[choice.len() as int] == at);
        if picks(choice, i) {
            let j = choose|j: int| 0 <= j < choice.len() && #[trigger] choice[j] == i;
            assert(more[j] == i);
        }
        if picks(more, i) {
            let j = choose|j: int| 0 <= j < more.len() && #[trigger] more[j] == i;
            if j < choice.len() {
                assert(choice[j] == i);
            }
        }
    }
    assert(corner(n, more) =~= corner(n, choice).update(at as int, UNIT));
}

/// Sums of prices do not come near the lower end of the range of `i128`.
proof fn lemma_group_sum_low(n: int)
    requires
        0 <= n <= usize::MAX,
    ensures
        n * i64::MIN >= i128::MIN + UNIT,
{
    assert(n * 0x8000_0000_0000_0000 <= 0xFFFF_FFFF_FFFF_FFFF * 0x8000_0000_0000_0000)
        by (nonlinear_arith)
        requires
            n <= 0xFFFF_FFFF_FFFF_FFFF,
    ;
    assert(n * i64::MIN == -(n * 0x8000_0000_0000_0000)) by (nonlinear_arith);
}

/// The price zero for `n` outcomes.
fn zeros(n: usize) -> (r: Vec<i64>)
    ensures
        r.len() == n,
        forall|i: int| 0 <= i < n ==> #[trigger] r@[i] == 0,
{
    let mut values: Vec<i64> = Vec::new();
    let mut i: usize = 0;
    while i < n
        invariant
            i <= n,
            values.len() == i,
            forall|k: int| 0 <= k < i ==> #[trigger] values@[k] == 0,
        decreases n - i,
    {
        values.push(0);
        i = i + 1;
    }
    values
}

// ---------------------------------------------------------------------------
// Projection onto the fair prices
// ---------------------------------------------------------------------------

/// What a projection found.
#[derive(Debug, Clone)]
pub struct FWResult {
    /// The projected prices.
    pub projected_prices: Vec<i64>,
    /// Their divergence from the market's prices: the largest possible profit.
    pub divergence: i128,
    /// The gap that bounds the error; nothing stands for an unbounded one.
    pub fw_gap: Option<i128>,
    /// The profit that is certain: the divergence less the gap.
    pub guaranteed_profit: i128,
    /// The number of iterations made.
    pub iterations: usize,
    /// Whether the gap fell far enough below the divergence.
    pub converged: bool,
}

/// What a projection found, as a mathematical value.
pub struct Projection {
    pub prices: Seq<i64>,
    pub divergence: int,
    pub gap: Option<int>,
    pub profit: int,
    pub iterations: int,
    pub converged: bool,
}

impl View for FWResult {
    type V = Projection;

    open spec fn view(&self) -> Projection {
        Projection {
            prices: self.projected_prices@,
            divergence: self.divergence as int,
            gap: match self.fw_gap {
                Some(g) => Some(g as int),
                None => None,
            },
            profit: self.guaranteed_profit as int,
            iterations: self.iterations as int,
            converged: self.converged,
        }
    }
}

/// Whether the `k`-th outcome of a group is its first with the smallest slope.
pub open spec fn is_steepest(group: Seq<usize>, g: Seq<int>, k: int) -> bool {
    &&& 0 <= k < group.len()
    &&& forall|j: int|
        0 <= j < group.len() ==> g[group[k] as int] <= g[#[trigger] group[j] as int]
    &&& forall|j: int| 0 <= j < k ==> g[group[k] as int] < g[#[trigger] group[j] as int]
}

/// The first outcome of a group with the smallest slope.
pub open spec fn steepest(group: Seq<usize>, g: Seq<int>) -> usize {
    group[choose|k: int| is_steepest(group, g, k)]
}

/// Whether outcome `i` is the steepest of one of the first `n` groups.
pub open spec fn is_chosen(groups: Seq<Seq<usize>>, g: Seq<int>, n: int, i: int) -> bool {
    exists|k: int| 0 <= k < n && steepest(#[trigger] groups[k], g) == i
}

/// The steepest outcome of every group at one, all others at zero.
pub open spec fn descent_corner(groups: Seq<Seq<usize>>, g: Seq<int>, n: nat) -> Seq<i64> {
    Seq::new(n, |i: int| if is_chosen(groups, g, groups.len() as int, i) { UNIT } else { 0 })
}

/// The contracted corner in the direction of the steepest descent.
pub open spec fn descent(
    groups: Seq<Seq<usize>>,
    g: Seq<int>,
    interior: Seq<i64>,
    epsilon: int,
    n: nat,
) -> Seq<i64> {
    contracted(descent_corner(groups, g, n), interior, epsilon)
}

/// What the first `n` coordinates contribute to the gap.
pub open spec fn gap_upto(g: Seq<int>, mu: Seq<i64>, z: Seq<i64>, n: int) -> int
    decreases n,
{
    if n <= 0 {
        0
    } else {
        gap_upto(g, mu, z, n - 1) + (g[n - 1] * (mu[n - 1] - z[n - 1])) / (UNIT as int)
    }
}

/// The sum of the `i`-th coordinates of the first `m` corners.
pub open spec fn coordinate_sum(corners: Seq<Seq<i64>>, i: int, m: int) -> int
    decreases m,
{
    if m <= 0 { 0 } else { coordinate_sum(corners, i, m - 1) + corners[m - 1][i] }
}

/// The mean of the corners of the fair prices, coordinate by coordinate, rounded
/// down.
pub open spec fn centre(
    groups: Seq<Seq<usize>>,
    implications: Seq<(usize, usize)>,
    n: nat,
) -> Seq<i64> {
    let all = vertices_of(groups, implications, n);
    Seq::new(n, |i: int| (coordinate_sum(all, i, all.len() as int) / (all.len() as int)) as i64)
}

/// The gap at the point `mu`: what the divergence from the prices `theta` falls by
/// at most, along its slopes, on the way to a corner.
pub open spec fn gap_at(
    mu: Seq<i64>,
    theta: Seq<i64>,
    groups: Seq<Seq<usize>>,
    f: spec_fn(int) -> int,
) -> int {
    let g = slopes(mu, theta, f);
    gap_upto(g, mu, descent_corner(groups, g, mu.len()), mu.len() as int)
}

/// How far coordinates are kept away from zero and one: a hundredth of the
/// contraction.
pub open spec fn margin(epsilon: int) -> int {
    epsilon / 100
}

/// One coordinate, moved by `2 / (t + 2)` of the way from `m` to `z`, and kept away
/// from zero and one.
pub open spec fn stepped(m: int, z: int, t: int, epsilon: int) -> int {
    smaller(larger((t * m + 2 * z) / (t + 2), margin(epsilon)), UNIT - margin(epsilon))
}

/// Where a projection stands.
pub struct Progress {
    pub mu: Seq<i64>,
    pub epsilon: int,
    pub best_mu: Seq<i64>,
    pub best_profit: int,
    pub best_gap: Option<int>,
}

/// What a projection works on.
pub struct Problem {
    pub theta: Seq<i64>,
    pub groups: Seq<Seq<usize>>,
    pub implications: Seq<(usize, usize)>,
    pub alpha: int,
    pub max_iter: int,
}

/// Whether the gap is small enough: at most `1 - alpha` of the divergence.
pub open spec fn close_enough(gap: int, d: int, alpha: int) -> bool {
    gap * UNIT <= (UNIT - alpha) * d
}

/// The next stand of a projection after iteration `t`.
pub open spec fn advanced(
    p: Problem,
    interior: Seq<i64>,
    f: spec_fn(int) -> int,
    t: int,
    s: Progress,
) -> Progress {
    let z = descent(p.groups, slopes(s.mu, p.theta, f), interior, s.epsilon, s.mu.len());
    let gap = gap_at(s.mu, p.theta, p.groups, f);
    let profit = larger(divergence(s.mu, p.theta, f) - gap, 0);
    let better = profit > s.best_profit;
    let epsilon = next_epsilon(s.epsilon, gap, gap_at(interior, p.theta, p.groups, f));
    Progress {
        mu: Seq::new(
            s.mu.len(),
            |i: int| stepped(s.mu[i] as int, z[i] as int, t, epsilon) as i64,
        ),
        epsilon,
        best_mu: if better { s.mu } else { s.best_mu },
        best_profit: if better { profit } else { s.best_profit },
        best_gap: if better { Some(gap) } else { s.best_gap },
    }
}

/// What a projection finds from iteration `t` on.
pub open spec fn projected_from(
    p: Problem,
    interior: Seq<i64>,
    f: spec_fn(int) -> int,
    t: int,
    s: Progress,
) -> Projection
    decreases p.max_iter - t,
{
    if t >= p.max_iter {
        Projection {
            prices: s.best_mu,
            divergence: divergence(s.best_mu, p.theta, f),
            gap: s.best_gap,
            profit: s.best_profit,
            iterations: p.max_iter,
            converged: false,
        }
    } else {
        let gap = gap_at(s.mu, p.theta, p.groups, f);
        let d = divergence(s.mu, p.theta, f);
        if close_enough(gap, d, p.alpha) {
            Projection {
                prices: s.mu,
                divergence: d,
                gap: Some(gap),
                profit: larger(d - gap, 0),
                iterations: t + 1,
                converged: true,
            }
        } else {
            projected_from(p, interior, f, t + 1, advanced(p, interior, f, t, s))
        }
    }
}

/// Where a projection starts: at the centre.
pub open spec fn start(interior: Seq<i64>) -> Progress {
    Progress {
        mu: interior,
        epsilon: FIRST_EPSILON as int,
        best_mu: interior,
        best_profit: 0,
        best_gap: None,
    }
}

/// Whether there are groups, and an outcome in each.
pub open spec fn has_corners(groups: Seq<Seq<usize>>) -> bool {
    groups.len() > 0 && forall|k: int| 0 <= k < groups.len() ==> (#[trigger] groups[k]).len() > 0
}

/// What a projection finds. Without any corner, the market's prices are kept.
pub open spec fn projection(p: Problem, f: spec_fn(int) -> int) -> Projection {
    if vertices_of(p.groups, p.implications, p.theta.len()).len() == 0 {
        Projection {
            prices: p.theta,
            divergence: 0,
            gap: Some(0),
            profit: 0,
            iterations: 0,
            converged: true,
        }
    } else {
        let interior = centre(p.groups, p.implications, p.theta.len());
        projected_from(p, interior, f, 0, start(interior))
    }
}

/// Whether every coordinate lies between zero and one.
pub open spec fn between_zero_and_one(s: Seq<i64>) -> bool {
    forall|i: int| 0 <= i < s.len() ==> 0 <= #[trigger] s[i] <= UNIT
}

/// There is only one steepest outcome of a group.
proof fn lemma_steepest(group: Seq<usize>, g: Seq<int>, k: int)
    requires
        is_steepest(group, g, k),
    ensures
        steepest(group, g) == group[k],
{
    let c = choose|c: int| is_steepest(group, g, c);
    assert(is_steepest(group, g, c));
    if c < k {
        assert(g[group[k] as int] < g[group[c] as int]);
    } else if k < c {
        assert(g[group[c] as int] < g[group[k] as int]);
    }
}

/// The position in `group` of its steepest outcome.
fn steepest_of(group: &Vec<usize>, gradient: &[i128]) -> (r: usize)
    requires
        group.len() > 0,
        group_within(group@, gradient.len() as int),
    ensures
        r == steepest(group@, wide(gradient@)),
        r < gradient.len(),
{
    let ghost g = wide(gradient@);
    let mut best: usize = 0;
    let mut j: usize = 1;
    assert(group@[0] < gradient.len());
    while j < group.len()
        invariant
            1 <= j <= group.len(),
            best < j,
            group_within(group@, gradient.len() as int),
            g == wide(gradient@),
            forall|i: int|
                0 <= i < j ==> g[group@[best as int] as int] <= g[#[trigger] group@[i] as int],
            forall|i: int|
                0 <= i < best ==> g[group@[best as int] as int] < g[#[trigger] group@[i] as int],
        decreases group.len() - j,
    {
        let a: usize = group[j];
        let b: usize = group[best];
        assert(g[a as int] == gradient@[a as int]);
        assert(g[b as int] == gradient@[b as int]);
        if gradient[a] < gradient[b] {
            best = j;
        }
        j = j + 1;
    }
    proof {
        assert(is_steepest(group@, g, best as int));
        lemma_steepest(group@, g, best as int);
    }
    group[best]
}

/// The corner in the direction of the steepest descent: for every group, the first
/// outcome with the smallest slope.
fn steepest_corner(gradient: &[i128], constraints: &MarketConstraints, n: usize) -> (r: Vec<i64>)
    requires
        gradient.len() == n,
        groups_within(constraints.groups(), n as int),
        forall|k: int|
            0 <= k < constraints.groups().len() ==> (#[trigger] constraints.groups()[k]).len() > 0,
    ensures
        r@ == descent_corner(constraints.groups(), wide(gradient@), n as nat),
{
    let ghost groups = constraints.groups();
    let ghost g = wide(gradient@);
    let mut z: Vec<i64> = zeros(n);
    let mut k: usize = 0;
    while k < constraints.exclusive_groups.len()
        invariant
            k <= constraints.exclusive_groups.len(),
            gradient.len() == n,
            groups == constraints.groups(),
            g == wide(gradient@),
            groups_within(groups, n as int),
            forall|k: int| 0 <= k < groups.len() ==> (#[trigger] groups[k]).len() > 0,
            z.len() == n,
            forall|i: int|
                0 <= i < n ==> #[trigger] z@[i] == if is_chosen(groups, g, k as int, i) {
                    UNIT
                } else {
                    0
                },
        decreases constraints.exclusive_groups.len() - k,
    {
        let group: &Vec<usize> = &constraints.exclusive_groups[k];
        assert(groups[k as int] == group@);
        assert(group_within(group@, n as int));
        let at: usize = steepest_of(group, gradient);
        let ghost before = z@;
        z.set(at, UNIT);
        proof {
            assert forall|i: int| 0 <= i < n implies #[trigger] z@[i] == if is_chosen(
                groups,
                g,
                k + 1,
                i,
            ) {
                UNIT
            } else {
                0
            } by {
                if i == at {
                    assert(steepest(groups[k as int], g) == i);
                    assert(is_chosen(groups, g, k + 1, i));
                } else {
                    assert(z@[i] == before[i]);
                    if is_chosen(groups, g, k + 1, i) {
                        let c = choose|c: int|
                            0 <= c < k + 1 && steepest(#[trigger] groups[c], g) == i;
                        assert(c < k);
                        assert(is_chosen(groups, g, k as int, i));
                    }
                    if is_chosen(groups, g, k as int, i) {
                        let c = choose|c: int|
                            0 <= c < k && steepest(#[trigger] groups[c], g) == i;
                        assert(is_chosen(groups, g, k + 1, i));
                    }
                }
            }
        }
        k = k + 1;
    }
    assert(z@ =~= descent_corner(groups, g, n as nat));
    z
}

/// The contracted corner in the direction of the steepest descent: for every
/// group, the first outcome with the smallest slope.
pub fn linear_min_oracle(
    gradient: &[i128],
    constraints: &MarketConstraints,
    interior: &[i64],
    epsilon: i64,
    n: usize,
) -> (r: Vec<i64>)
    requires
        gradient.len() == n,
        groups_within(constraints.groups(), n as int),
        forall|k: int|
            0 <= k < constraints.groups().len() ==> (#[trigger] constraints.groups()[k]).len() > 0,
    ensures
        r@ == descent(
            constraints.groups(),
            wide(gradient@),
            interior@,
            epsilon as int,
            n as nat,
        ),
{
    let z: Vec<i64> = steepest_corner(gradient, constraints, n);
    contract_polytope_vertex(z.as_slice(), interior, epsilon)
}

/// Sums of at most `MAX_OUTCOMES` slopes stay small.
proof fn lemma_steep_multiples(i: int)
    requires
        0 <= i <= MAX_OUTCOMES,
    ensures
        (i + 1) * STEEPEST == i * STEEPEST + STEEPEST,
        (i + 1) * -STEEPEST == i * -STEEPEST - STEEPEST,
        i * STEEPEST == -(i * -STEEPEST),
        0 <= i * -STEEPEST <= 10_000_000_000_000_000_000_000_000_000_000_000_000,
{
    assert((i + 1) * STEEPEST == i * STEEPEST + STEEPEST) by (nonlinear_arith);
    assert((i + 1) * -STEEPEST == i * -STEEPEST - STEEPEST) by (nonlinear_arith);
    assert(i * STEEPEST == -(i * -STEEPEST)) by (nonlinear_arith);
    assert(0 <= i * 10_000_000_000_000_000_000_000
        <= 10_000_000_000_000_000_000_000_000_000_000_000_000) by (nonlinear_arith)
        requires
            0 <= i <= 1_000_000_000_000_000,
    ;
}

/// The sum of `g * (m - z)` over all coordinates.
fn gap_between(gradient: &[i128], mu: &[i64], z: &[i64]) -> (r: i128)
    requires
        gradient.len() == mu.len(),
        z.len() == mu.len(),
        mu.len() <= MAX_OUTCOMES,
        between_zero_and_one(mu@),
        between_zero_and_one(z@),
        forall|i: int| 0 <= i < gradient.len() ==> STEEPEST <= #[trigger] gradient@[i] <= -STEEPEST,
    ensures
        r == gap_upto(wide(gradient@), mu@, z@, mu.len() as int),
        mu.len() * STEEPEST <= r <= mu.len() * -STEEPEST,
{
    let ghost g = wide(gradient@);
    let mut acc: i128 = 0;
    let mut i: usize = 0;
    while i < mu.len()
        invariant
            i <= mu.len(),
            gradient.len() == mu.len(),
            z.len() == mu.len(),
            mu.len() <= MAX_OUTCOMES,
            between_zero_and_one(mu@),
            between_zero_and_one(z@),
            g == wide(gradient@),
            forall|i: int|
                0 <= i < gradient.len() ==> STEEPEST <= #[trigger] gradient@[i] <= -STEEPEST,
            acc == gap_upto(g, mu@, z@, i as int),
            i * STEEPEST <= acc <= i * -STEEPEST,
        decreases mu.len() - i,
    {
        assert(0 <= mu@[i as int] <= UNIT && 0 <= z@[i as int] <= UNIT);
        assert(STEEPEST <= gradient@[i as int] <= -STEEPEST);
        let d: i128 = mu[i] as i128 - z[i] as i128;
        proof {
            lemma_mul_bound(gradient@[i as int] as int, d as int, -STEEPEST as int, UNIT as int);
            lemma_div_bound(
                gradient@[i as int] * d,
                UNIT as int,
                STEEPEST as int,
                -STEEPEST as int,
            );
            assert(g[i as int] == gradient@[i as int]);
            lemma_steep_multiples(i as int);
        }
        let term: i128 = div_down(gradient[i] * d, UNIT as i128);
        acc = acc + term;
        i = i + 1;
    }
    acc
}

/// A contracted corner keeps its coordinates between zero and one.
proof fn lemma_descent_range(
    groups: Seq<Seq<usize>>,
    g: Seq<int>,
    interior: Seq<i64>,
    epsilon: int,
    n: nat,
)
    requires
        between_zero_and_one(interior),
        interior.len() == n,
        0 <= epsilon <= UNIT,
    ensures
        between_zero_and_one(descent(groups, g, interior, epsilon, n)),
        descent(groups, g, interior, epsilon, n).len() == n,
{
    let z = descent(groups, g, interior, epsilon, n);
    let c = descent_corner(groups, g, n);
    assert forall|i: int| 0 <= i < z.len() implies 0 <= #[trigger] z[i] <= UNIT by {
        assert(0 <= interior[i] <= UNIT);
        lemma_blend_between(c[i] as int, interior[i] as int, epsilon, 0, UNIT as int);
    }
}

/// The gap at the point `mu`, over all corners.
fn compute_fw_gap<L: Fn(i64) -> i64>(
    mu: &[i64],
    theta: &[i64],
    constraints: &MarketConstraints,
    ln: &L,
) -> (r: i128)
    requires
        mu.len() <= MAX_OUTCOMES,
        mu.len() == theta.len(),
        between_zero_and_one(mu@),
        groups_within(constraints.groups(), mu.len() as int),
        has_corners(constraints.groups()),
        asks_positive(*ln),
    ensures
        forall|f: spec_fn(int) -> int| #[trigger]
            computes(*ln, f) ==> r == gap_at(mu@, theta@, constraints.groups(), f),
        mu.len() * STEEPEST <= r <= mu.len() * -STEEPEST,
{
    let gradient: Vec<i128> = divergence_gradient(mu, theta, ln);
    let z: Vec<i64> = steepest_corner(gradient.as_slice(), constraints, mu.len());
    gap_between(gradient.as_slice(), mu, z.as_slice())
}

/// The point at which all outcomes of a group cost the same: the mean of the corners
/// where no outcome is in two groups and none implies another.
fn even_centre(constraints: &MarketConstraints, n: usize) -> (r: Vec<i64>)
    requires
        apart(constraints.groups()),
        has_corners(constraints.groups()),
        groups_within(constraints.groups(), n as int),
        constraints.implications@.len() == 0,
    ensures
        r@ == centre(constraints.groups(), constraints.implications@, n as nat),
{
    let ghost groups = constraints.groups();
    let mut out: Vec<i64> = zeros(n);
    let mut k: usize = 0;
    while k < constraints.exclusive_groups.len()
        invariant
            k <= constraints.exclusive_groups.len(),
            groups == constraints.groups(),
            apart(groups),
            has_corners(groups),
            groups_within(groups, n as int),
            out.len() == n,
            forall|h: int, j: int|
                0 <= h < k && 0 <= j < groups[h].len() ==> out@[#[trigger] groups[h][j] as int]
                    == UNIT as int / groups[h].len() as int,
            forall|i: int| 0 <= i < n && !grouped(groups, k as int, i) ==> #[trigger] out@[i] == 0,
        decreases constraints.exclusive_groups.len() - k,
    {
        let group: &Vec<usize> = &constraints.exclusive_groups[k];
        assert(groups[k as int] == group@);
        assert(group_within(group@, n as int));
        proof {
            assert(UNIT <= UNIT * group.len()) by (nonlinear_arith)
                requires
                    group.len() >= 1,
                    UNIT > 0,
            ;
            lemma_div_bound(UNIT as int, group.len() as int, 0, UNIT as int);
        }
        let share: i64 = div_down(UNIT as i128, group.len() as i128) as i64;
        let mut j: usize = 0;
        while j < group.len()
            invariant
                j <= group.len(),
                k < constraints.exclusive_groups.len(),
                groups == constraints.groups(),
                groups[k as int] == group@,
                group_within(group@, n as int),
                groups_within(groups, n as int),
                apart(groups),
                out.len() == n,
                share == UNIT as int / groups[k as int].len() as int,
                forall|h: int, l: int|
                    0 <= h < k && 0 <= l < groups[h].len() ==> out@[#[trigger] groups[h][l] as int]
                        == UNIT as int / groups[h].len() as int,
                forall|l: int|
                    0 <= l < j ==> out@[#[trigger] groups[k as int][l] as int] == share,
                forall|i: int|
                    0 <= i < n && !grouped(groups, k + 1, i) ==> #[trigger] out@[i] == 0,
            decreases group.len() - j,
        {
            let at: usize = group[j];
            assert(groups[k as int][j as int] == at);
            assert(grouped(groups, k + 1, at as int));
            let ghost before = out@;
            out.set(at, share);
            proof {
                assert forall|h: int, l: int| 0 <= h < k && 0 <= l < groups[h].len() implies out@[
                    #[trigger] groups[h][l] as int] == UNIT as int / groups[h].len() as int by {
                    assert(group_within(groups[h], n as int));
                    assert(groups[h][l] != groups[k as int][j as int]);
                    assert(before[groups[h][l] as int] == out@[groups[h][l] as int]);
                }
            }
            j = j + 1;
        }
        k = k + 1;
    }
    proof {
        law_centre_is_even(groups, constraints.implications@, n as nat);
        let c = centre(groups, constraints.implications@, n as nat);
        assert forall|i: int| 0 <= i < n implies #[trigger] out@[i] == c[i] by {
            if grouped(groups, groups.len() as int, i) {
                let (h, j) = choose|h: int, j: int|
                    0 <= h < groups.len() && 0 <= j < groups[h].len() && #[trigger] groups[h][j]
                        == i;
                assert(out@[groups[h][j] as int] == c[groups[h][j] as int]);
            }
        }
        assert(out@ =~= c);
    }
    out
}

/// The mean of given corners.
fn mean_of_corners(vertices: &Vec<Vertex>, n: usize) -> (r: Vec<i64>)
    requires
        vertices.len() > 0,
        forall|k: int|
            0 <= k < vertices.len() ==> (#[trigger] vertices@[k]).values@.len() == n
                && between_zero_and_one(vertices@[k].values@),
    ensures
        r.len() == n,
        forall|i: int|
            0 <= i < n ==> #[trigger] r@[i] == coordinate_sum(
                vertices@.map_values(|v: Vertex| v.values@),
                i,
                vertices.len() as int,
            ) / (vertices.len() as int),
{
    let ghost all = vertices@.map_values(|v: Vertex| v.values@);
    let mut out: Vec<i64> = Vec::new();
    let mut i: usize = 0;
    while i < n
        invariant
            i <= n,
            out.len() == i,
            vertices.len() > 0,
            all == vertices@.map_values(|v: Vertex| v.values@),
            forall|k: int|
                0 <= k < vertices.len() ==> (#[trigger] vertices@[k]).values@.len() == n
                    && between_zero_and_one(vertices@[k].values@),
            forall|j: int|
                0 <= j < i ==> #[trigger] out@[j] == coordinate_sum(all, j, vertices.len() as int)
                    / (vertices.len() as int),
        decreases n - i,
    {
        let mut acc: i128 = 0;
        let mut k: usize = 0;
        while k < vertices.len()
            invariant
                k <= vertices.len(),
                i < n,
                all == vertices@.map_values(|v: Vertex| v.values@),
                forall|k: int|
                    0 <= k < vertices.len() ==> (#[trigger] vertices@[k]).values@.len() == n
                        && between_zero_and_one(vertices@[k].values@),
                acc == coordinate_sum(all, i as int, k as int),
                0 <= acc <= 1_000_000_000_000 * k,
            decreases vertices.len() - k,
        {
            assert(all[k as int] == vertices@[k as int].values@);
            assert(0 <= vertices@[k as int].values@[i as int] <= UNIT);
            acc = acc + vertices[k].values[i] as i128;
            k = k + 1;
        }
        proof {
            lemma_div_bound(acc as int, vertices.len() as int, 0, 1_000_000_000_000);
        }
        out.push(div_down(acc, vertices.len() as i128) as i64);
        i = i + 1;
    }
    out
}

/// The mean of the corners; nothing where there are none.
fn centre_of(constraints: &MarketConstraints, n: usize) -> (r: Option<Vec<i64>>)
    requires
        groups_within(constraints.groups(), n as int),
    ensures
        match r {
            Some(c) => {
                &&& vertices_of(constraints.groups(), constraints.implications@, n as nat).len() > 0
                &&& has_corners(constraints.groups())
                &&& c@ == centre(constraints.groups(), constraints.implications@, n as nat)
                &&& between_zero_and_one(c@)
            },
            None => vertices_of(constraints.groups(), constraints.implications@, n as nat).len()
                == 0,
        },
{
    let ghost groups = constraints.groups();
    let ghost implications = constraints.implications@;
    proof {
        if vertices_of(groups, implications, n as nat).len() > 0 {
            lemma_corners_need_outcomes(groups, implications, n as nat);
            lemma_centre(groups, implications, n as nat);
        }
    }
    if !constraints.any_corner() {
        return None;
    }
    if constraints.implications.len() == 0 && constraints.is_apart(n) {
        proof {
            law_centre_is_even(groups, implications, n as nat);
        }
        return Some(even_centre(constraints, n));
    }
    let vertices: Vec<Vertex> = constraints.generate_vertices(n);
    let ghost all = vertices_of(groups, implications, n as nat);
    proof {
        assert(vertices@.map_values(|v: Vertex| v.values@).len() == vertices@.len());
    }
    if vertices.len() == 0 {
        return None;
    }
    proof {
        assert forall|k: int| 0 <= k < vertices.len() implies (#[trigger] vertices@[k]).values@.len()
            == n && between_zero_and_one(vertices@[k].values@) by {
            assert(vertices@.map_values(|v: Vertex| v.values@)[k] == vertices@[k].values@);
            lemma_corner_range(groups, implications, n as nat, k);
        }
    }
    let c: Vec<i64> = mean_of_corners(&vertices, n);
    assert(c@ =~= centre(groups, implications, n as nat));
    Some(c)
}

/// One coordinate, moved towards the descent corner.
fn step_coordinate(m: i64, z: i64, t: usize, epsilon: i64) -> (r: i64)
    requires
        0 <= m <= UNIT,
        0 <= z <= UNIT,
        0 <= epsilon <= UNIT,
    ensures
        r == stepped(m as int, z as int, t as int, epsilon as int),
        0 <= r <= UNIT,
{
    proof {
        assert(0 <= t * m <= 0xFFFF_FFFF_FFFF_FFFF * 1_000_000_000_000) by (nonlinear_arith)
            requires
                0 <= t <= 0xFFFF_FFFF_FFFF_FFFF,
                0 <= m <= 1_000_000_000_000,
        ;
        assert(t * m + 2 * z <= 1_000_000_000_000 * (t + 2)) by (nonlinear_arith)
            requires
                0 <= t,
                0 <= m <= 1_000_000_000_000,
                0 <= z <= 1_000_000_000_000,
        ;
        lemma_div_bound(t * m + 2 * z, t + 2, 0, 1_000_000_000_000);
    }
    let moved: i128 = div_down(t as i128 * m as i128 + 2 * z as i128, t as i128 + 2);
    let low: i64 = epsilon / 100;
    let high: i64 = UNIT - low;
    let raised: i64 = if moved as i64 >= low { moved as i64 } else { low };
    if raised <= high { raised } else { high }
}

/// The next contraction stays between the smallest one and the current one.
proof fn lemma_next_epsilon(epsilon: int, fw_gap: int, interior_gap: int)
    requires
        MIN_EPSILON <= epsilon <= FIRST_EPSILON,
    ensures
        MIN_EPSILON <= next_epsilon(epsilon, fw_gap, interior_gap) <= FIRST_EPSILON,
{
}

/// A copy of a vector of coordinates.
fn copied(v: &[i64]) -> (r: Vec<i64>)
    ensures
        r@ == v@,
{
    let mut out: Vec<i64> = Vec::new();
    let mut i: usize = 0;
    while i < v.len()
        invariant
            i <= v.len(),
            out@ == v@.take(i as int),
        decreases v.len() - i,
    {
        out.push(v[i]);
        i = i + 1;
        assert(out@ =~= v@.take(i as int));
    }
    assert(out@ =~= v@);
    out
}

/// Projects the market's prices onto the fair prices by the Frank-Wolfe method: it
/// looks for the fair prices that diverge least from them. The steps lead towards
/// contracted corners; the gap is taken over the corners themselves. It stops as
/// soon as the gap is at most `1 - alpha` of the divergence, or after `max_iter`
/// iterations, and then reports the point with the largest certain profit. It
/// starts at the mean of the corners; without any corner it keeps the market's
/// prices. The steps and the gap go by the groups; what outcomes imply of one
/// another counts where the corners are listed.
pub fn frank_wolfe_project<L: Fn(i64) -> i64>(
    theta: &[i64],
    constraints: &MarketConstraints,
    alpha: i64,
    max_iter: usize,
    ln: &L,
) -> (r: FWResult)
    requires
        theta.len() <= MAX_OUTCOMES,
        groups_within(constraints.groups(), theta.len() as int),
        asks_positive(*ln),
    ensures
        forall|f: spec_fn(int) -> int| #[trigger]
            computes(*ln, f) ==> r@ == projection(
                Problem {
                    theta: theta@,
                    groups: constraints.groups(),
                    implications: constraints.implications@,
                    alpha: alpha as int,
                    max_iter: max_iter as int,
                },
                f,
            ),
{
    let n: usize = theta.len();
    let ghost p = Problem {
        theta: theta@,
        groups: constraints.groups(),
        implications: constraints.implications@,
        alpha: alpha as int,
        max_iter: max_iter as int,
    };
    let interior: Vec<i64> = match centre_of(constraints, n) {
        Some(c) => c,
        None => {
            return FWResult {
                projected_prices: copied(theta),
                divergence: 0,
                fw_gap: Some(0),
                guaranteed_profit: 0,
                iterations: 0,
                converged: true,
            };
        },
    };
    let mut epsilon: i64 = FIRST_EPSILON;
    let mut mu: Vec<i64> = copied(interior.as_slice());
    let mut best_profit: i128 = 0;
    let mut best_mu: Vec<i64> = copied(interior.as_slice());
    let mut best_gap: Option<i128> = None;
    let interior_gap: i128 = compute_fw_gap(interior.as_slice(), theta, constraints, ln);
    let ghost here = interior@;
    proof {
        lemma_steep_multiples(n as int);
    }
    let mut t: usize = 0;
    while t < max_iter
        invariant
            t <= max_iter,
            n == theta.len(),
            n <= MAX_OUTCOMES,
            p == (Problem {
                theta: theta@,
                groups: constraints.groups(),
                implications: constraints.implications@,
                alpha: alpha as int,
                max_iter: max_iter as int,
            }),
            groups_within(constraints.groups(), n as int),
            has_corners(constraints.groups()),
            asks_positive(*ln),
            here == interior@,
            here == centre(constraints.groups(), constraints.implications@, n as nat),
            interior.len() == n,
            mu.len() == n,
            best_mu.len() == n,
            between_zero_and_one(here),
            between_zero_and_one(mu@),
            MIN_EPSILON <= epsilon <= FIRST_EPSILON,
            -10_000_000_000_000_000_000_000_000_000_000_000_000 <= interior_gap
                <= 10_000_000_000_000_000_000_000_000_000_000_000_000,
            forall|f: spec_fn(int) -> int| #[trigger]
                computes(*ln, f) ==> interior_gap == gap_at(
                    here,
                    theta@,
                    constraints.groups(),
                    f,
                ),
            forall|f: spec_fn(int) -> int| #[trigger]
                computes(*ln, f) ==> projection(p, f) == projected_from(
                    p,
                    here,
                    f,
                    t as int,
                    Progress {
                        mu: mu@,
                        epsilon: epsilon as int,
                        best_mu: best_mu@,
                        best_profit: best_profit as int,
                        best_gap: opened(best_gap),
                    },
                ),
        decreases max_iter - t,
    {
        let gradient: Vec<i128> = divergence_gradient(mu.as_slice(), theta, ln);
        let corner: Vec<i64> = steepest_corner(gradient.as_slice(), constraints, n);
        let z: Vec<i64> = linear_min_oracle(
            gradient.as_slice(),
            constraints,
            interior.as_slice(),
            epsilon,
            n,
        );
        proof {
            lemma_descent_range(p.groups, wide(gradient@), here, epsilon as int, n as nat);
            lemma_steep_multiples(n as int);
        }
        let fw_gap: i128 = gap_between(gradient.as_slice(), mu.as_slice(), corner.as_slice());
        let d: i128 = bregman_divergence(mu.as_slice(), theta, ln);
        let profit: i128 = if d - fw_gap >= 0 { d - fw_gap } else { 0 };
        let ghost stand = Progress {
            mu: mu@,
            epsilon: epsilon as int,
            best_mu: best_mu@,
            best_profit: best_profit as int,
            best_gap: opened(best_gap),
        };
        assert(fw_gap * UNIT <= d * (UNIT - alpha) <==> close_enough(
            fw_gap as int,
            d as int,
            alpha as int,
        )) by (nonlinear_arith);
        if product_at_most(fw_gap, UNIT as i128, d, UNIT as i128 - alpha as i128) {
            let r: FWResult = FWResult {
                projected_prices: mu,
                divergence: d,
                fw_gap: Some(fw_gap),
                guaranteed_profit: profit,
                iterations: t + 1,
                converged: true,
            };
            return r;
        }
        if profit > best_profit {
            best_profit = profit;
            best_mu = copied(mu.as_slice());
            best_gap = Some(fw_gap);
        }
        proof {
            lemma_next_epsilon(epsilon as int, fw_gap as int, interior_gap as int);
        }
        epsilon = update_epsilon(epsilon, fw_gap, interior_gap);
        let moved: Vec<i64> = step_all(&mu, &z, t, epsilon);
        mu = moved;
        proof {
            let after = Progress {
                mu: mu@,
                epsilon: epsilon as int,
                best_mu: best_mu@,
                best_profit: best_profit as int,
                best_gap: opened(best_gap),
            };
            assert forall|f: spec_fn(int) -> int| #[trigger] computes(*ln, f) implies projection(p, f)
                == projected_from(p, here, f, t + 1, after) by {
                let next = advanced(p, here, f, t as int, stand);
                assert(next.mu =~= after.mu);
                assert(next == after);
            }
        }
        t = t + 1;
    }
    let d: i128 = bregman_divergence(best_mu.as_slice(), theta, ln);
    FWResult {
        projected_prices: best_mu,
        divergence: d,
        fw_gap: best_gap,
        guaranteed_profit: best_profit,
        iterations: max_iter,
        converged: false,
    }
}

/// A gap, as an integer.
pub open spec fn opened(gap: Option<i128>) -> Option<int> {
    match gap {
        Some(g) => Some(g as int),
        None => None,
    }
}

/// All coordinates, moved towards the descent corner.
fn step_all(mu: &Vec<i64>, z: &Vec<i64>, t: usize, epsilon: i64) -> (r: Vec<i64>)
    requires
        mu.len() == z.len(),
        between_zero_and_one(mu@),
        between_zero_and_one(z@),
        0 <= epsilon <= UNIT,
    ensures
        r@ == Seq::new(
            mu@.len(),
            |i: int| stepped(mu@[i] as int, z@[i] as int, t as int, epsilon as int) as i64,
        ),
        between_zero_and_one(r@),
{
    let mut out: Vec<i64> = Vec::new();
    let mut i: usize = 0;
    while i < mu.len()
        invariant
            i <= mu.len(),
            mu.len() == z.len(),
            out.len() == i,
            between_zero_and_one(mu@),
            between_zero_and_one(z@),
            0 <= epsilon <= UNIT,
            forall|k: int|
                0 <= k < i ==> 0 <= #[trigger] out@[k] <= UNIT && out@[k] == stepped(
                    mu@[k] as int,
                    z@[k] as int,
                    t as int,
                    epsilon as int,
                ),
        decreases mu.len() - i,
    {
        assert(0 <= mu@[i as int] <= UNIT);
        assert(0 <= z@[i as int] <= UNIT);
        out.push(step_coordinate(mu[i], z[i], t, epsilon));
        i = i + 1;
    }
    assert(out@ =~= Seq::new(
        mu@.len(),
        |i: int| stepped(mu@[i] as int, z@[i] as int, t as int, epsilon as int) as i64,
    ));
    out
}

// ---------------------------------------------------------------------------
// Mispriced pairs
// ---------------------------------------------------------------------------

/// What is wrong with the prices of a YES/NO pair.
#[derive(Debug, Clone, Copy, PartialEq, Eq)]
pub enum SimpleArbitrageType {
    /// The pair costs less than one: buy both.
    Underpriced { profit: i64 },
    /// The pair costs more than one: sell both.
    Overpriced { profit: i64 },
    /// Nothing: the pair costs one, within the threshold.
    Fair,
}

/// The analysis of a YES/NO pair.
#[derive(Debug, Clone)]
pub struct SimpleArbitrageAnalysis {
    pub market_id: String,
    pub yes_price: i64,
    pub no_price: i64,
    pub price_sum: i64,
    pub arbitrage_type: SimpleArbitrageType,
    pub gross_profit_per_dollar: i64,
}

/// What is wrong with a pair that costs `price_sum`: it is underpriced where
/// it costs less than one by more than the threshold, and overpriced where it
/// costs more than one by more than the threshold.
pub open spec fn mispricing(price_sum: int, threshold: int) -> SimpleArbitrageType {
    if price_sum < SCALE - threshold {
        SimpleArbitrageType::Underpriced { profit: held(SCALE - price_sum) as i64 }
    } else if price_sum > SCALE + threshold {
        SimpleArbitrageType::Overpriced { profit: held(price_sum - SCALE) as i64 }
    } else {
        SimpleArbitrageType::Fair
    }
}

/// The profit per pair.
pub open spec fn profit_of(kind: SimpleArbitrageType) -> i64 {
    match kind {
        SimpleArbitrageType::Underpriced { profit } => profit,
        SimpleArbitrageType::Overpriced { profit } => profit,
        SimpleArbitrageType::Fair => 0,
    }
}

/// The profit for one unit of a mispriced pair.
pub fn profit_in(kind: &SimpleArbitrageType) -> (r: i64)
    ensures
        r == profit_of(*kind),
{
    match *kind {
        SimpleArbitrageType::Underpriced { profit } => profit,
        SimpleArbitrageType::Overpriced { profit } => profit,
        SimpleArbitrageType::Fair => 0,
    }
}

/// Analyses the prices of a YES/NO pair.
pub fn analyze_simple_arbitrage(
    market_id: &str,
    yes_price: i64,
    no_price: i64,
    min_threshold: i64,
) -> (r: SimpleArbitrageAnalysis)
    ensures
        r.market_id@ == market_id@,
        r.yes_price == yes_price,
        r.no_price == no_price,
        r.price_sum == held(yes_price + no_price),
        r.arbitrage_type == mispricing(held(yes_price + no_price), min_threshold as int),
        r.gross_profit_per_dollar == profit_of(r.arbitrage_type),
{
    let price_sum: i64 = hold(yes_price as i128 + no_price as i128);
    let one: i128 = SCALE as i128;
    let threshold: i128 = min_threshold as i128;
    let arbitrage_type: SimpleArbitrageType = if (price_sum as i128) < one - threshold {
        SimpleArbitrageType::Underpriced { profit: hold(one - price_sum as i128) }
    } else if price_sum as i128 > one + threshold {
        SimpleArbitrageType::Overpriced { profit: hold(price_sum as i128 - one) }
    } else {
        SimpleArbitrageType::Fair
    };
    let gross_profit: i64 = profit_in(&arbitrage_type);
    SimpleArbitrageAnalysis {
        market_id: market_id.to_owned(),
        yes_price,
        no_price,
        price_sum,
        arbitrage_type,
        gross_profit_per_dollar: gross_profit,
    }
}

// ---------------------------------------------------------------------------
// Position sizes
// ---------------------------------------------------------------------------

/// The smallest fill probability that is reckoned with.
pub const MIN_FILL: i64 = 10_000;

/// The largest fill probability that is reckoned with.
pub const MAX_FILL: i64 = 990_000;

/// The whole square root of `x`.
pub open spec fn root(x: int) -> int {
    choose|r: int| is_root(x, r)
}

/// Whether `r` is the largest integer whose square is at most `x`.
pub open spec fn is_root(x: int, r: int) -> bool {
    0 <= r && r * r <= x < (r + 1) * (r + 1)
}

/// There is only one whole square root.
pub proof fn lemma_root(x: int, r: int)
    requires
        is_root(x, r),
    ensures
        root(x) == r,
{
    let c = root(x);
    assert(is_root(x, c));
    if c < r {
        assert((c + 1) * (c + 1) <= r * r) by (nonlinear_arith)
            requires
                0 <= c,
                c + 1 <= r,
        ;
    } else if r < c {
        assert((r + 1) * (r + 1) <= c * c) by (nonlinear_arith)
            requires
                0 <= r,
                r + 1 <= c,
        ;
    }
}

/// The fraction of the capital to stake: `(b * p - q) / b * sqrt(p)`, every
/// quotient and root rounded down; nothing where no profit is in sight.
pub open spec fn kelly_fraction(b: int, p: int) -> int {
    if b > 0 {
        product((b * p - (SCALE - p) * SCALE) / b, root(p * SCALE))
    } else {
        0
    }
}

/// The size of a position: the fraction of the capital, not below zero, not
/// above the capital, and not above half of the depth of the order book.
pub open spec fn kelly_size(profit_pct: int, fill: int, capital: int, depth: int) -> int {
    let p = smaller(larger(fill, MIN_FILL as int), MAX_FILL as int);
    smaller(
        smaller(larger(product(kelly_fraction(profit_pct, p), capital), 0), capital),
        depth / 2,
    )
}

/// The best size of a position by the modified Kelly rule.
pub fn kelly_position_size(
    profit_pct: i64,
    fill_probability: i64,
    max_capital: i64,
    order_book_depth: i64,
) -> (r: i64)
    ensures
        r == kelly_size(
            profit_pct as int,
            fill_probability as int,
            max_capital as int,
            order_book_depth as int,
        ),
        max_capital >= 0 && order_book_depth >= 0 ==> 0 <= r <= max_capital && 2 * r
            <= order_book_depth,
{
    let b: i128 = profit_pct as i128;
    let raised: i64 = if fill_probability >= MIN_FILL { fill_probability } else { MIN_FILL };
    let p: i64 = if raised <= MAX_FILL { raised } else { MAX_FILL };
    let fraction: i64 = if b > 0 {
        let wide_p: i128 = p as i128;
        proof {
            lemma_mul_bound(b as int, p as int, 0x8000_0000_0000_0000, 1_000_000);
            lemma_mul_bound(SCALE - p, SCALE as int, 1_000_000, 1_000_000);
        }
        let won: i128 = b * wide_p - (SCALE as i128 - wide_p) * SCALE as i128;
        proof {
            assert(b * p <= 1_000_000 * b) by (nonlinear_arith)
                requires
                    p <= 1_000_000,
                    b > 0,
            ;
            assert(-1_000_000_000_000 * b <= -1_000_000_000_000) by (nonlinear_arith)
                requires
                    b >= 1,
            ;
            assert(0 <= b * p) by (nonlinear_arith)
                requires
                    0 <= p,
                    b > 0,
            ;
            lemma_div_bound(won as int, b as int, -1_000_000_000_000, 1_000_000);
        }
        let share: i64 = div_down(won, b) as i64;
        let s: u64 = square_root((p * SCALE) as u128);
        proof {
            assert(s < 1_000_000) by (nonlinear_arith)
                requires
                    s * s <= p * SCALE,
                    p * SCALE < 1_000_000 * 1_000_000,
            ;
            lemma_root(p * SCALE, s as int);
            lemma_mul_bound(share as int, s as int, 1_000_000_000_000, 1_000_000);
            lemma_div_bound(share * s, SCALE as int, -1_000_000_000_000, 1_000_000_000_000);
        }
        multiply(share, s as i64) as i64
    } else {
        0
    };
    let stake: i128 = multiply(fraction, max_capital);
    let positive: i128 = if stake >= 0 { stake } else { 0 };
    let capped: i64 = if positive <= max_capital as i128 { positive as i64 } else { max_capital };
    let depth: i64 = div_down(order_book_depth as i128, 2) as i64;
    if capped <= depth { capped } else { depth }
}

} // verus!
