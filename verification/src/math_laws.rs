//! What holds of the price analysis as a whole.

use vstd::prelude::*;
use crate::math::{
    advanced, apart, between_zero_and_one, blend, centre, choices, close_enough, column_mean,
    column_sum, coordinate_sum, corner, descent, descent_corner, divergence, divergence_term,
    divergence_upto, entropy_slope, extended, fair_corners, feasible, gap_at, gap_ratio, gap_upto,
    group_fair, group_sum, group_within, grouped, groups_within, has_corners, implied,
    implies_fairly, is_chosen, is_root, is_steepest, kelly_fraction, kelly_size,
    lemma_blend_between, log_at, margin, mispricing, next_epsilon, picks, projected_from,
    projection, root, slope, slopes, start, steepest, stepped, vertices_of, PriceVector, Problem,
    Progress, Projection, SimpleArbitrageType, FIRST_EPSILON, LOG_LIMIT, MIN_EPSILON, PRICE_FLOOR,
    UNIT,
};
use crate::units::{held, larger, lemma_div_bound, magnitude, smaller, total, SCALE};

verus! {

/// Prices do not diverge from themselves.
pub proof fn law_no_divergence_from_itself(mu: Seq<i64>, f: spec_fn(int) -> int)
    ensures
        divergence(mu, mu, f) == 0,
{
    lemma_no_divergence_upto(mu, f, mu.len() as int);
}

proof fn lemma_no_divergence_upto(mu: Seq<i64>, f: spec_fn(int) -> int, n: int)
    requires
        0 <= n <= mu.len(),
    ensures
        divergence_upto(mu, mu, f, n) == 0,
    decreases n,
{
    if n > 0 {
        lemma_no_divergence_upto(mu, f, n - 1);
        let m: int = mu[n - 1] as int;
        assert(m * (log_at(f, m) - log_at(f, m)) == 0) by (nonlinear_arith);
    }
}

/// Whether `f` keeps below its tangents on all amounts, as the natural logarithm
/// does: `ln(y) - ln(x) <= (y - x) / x`, up to one resolution step for each of the
/// two logarithms.
pub open spec fn below_tangents(f: spec_fn(int) -> int) -> bool {
    forall|x: int, y: int|
        0 < x <= i64::MAX && 0 < y <= i64::MAX ==> #[trigger] log_at(f, x) * x - #[trigger] log_at(
            f,
            y,
        ) * x >= UNIT * (x - y) - 2 * x
}

/// The divergence is not negative, up to two resolution steps for each price,
/// where the market's prices add up to no more than the other prices.
pub proof fn law_divergence_not_negative(mu: Seq<i64>, theta: Seq<i64>, f: spec_fn(int) -> int)
    requires
        mu.len() == theta.len(),
        between_zero_and_one(mu),
        forall|i: int| 0 <= i < mu.len() ==> PRICE_FLOOR < #[trigger] theta[i],
        total(theta) <= total(mu),
        below_tangents(f),
    ensures
        divergence(mu, theta, f) >= -2 * mu.len(),
{
    lemma_divergence_bound(mu, theta, f, mu.len() as int);
    assert(mu.take(mu.len() as int) =~= mu);
    assert(theta.take(mu.len() as int) =~= theta);
}

proof fn lemma_divergence_bound(mu: Seq<i64>, theta: Seq<i64>, f: spec_fn(int) -> int, n: int)
    requires
        mu.len() == theta.len(),
        0 <= n <= mu.len(),
        between_zero_and_one(mu),
        forall|i: int| 0 <= i < mu.len() ==> PRICE_FLOOR < #[trigger] theta[i],
        below_tangents(f),
    ensures
        divergence_upto(mu, theta, f, n) >= total(mu.take(n)) - total(theta.take(n)) - 2 * n,
    decreases n,
{
    if n > 0 {
        lemma_divergence_bound(mu, theta, f, n - 1);
        crate::units::lemma_total_step(mu, n - 1);
        crate::units::lemma_total_step(theta, n - 1);
        let m: int = mu[n - 1] as int;
        let t: int = theta[n - 1] as int;
        assert(0 <= mu[n - 1] <= UNIT && PRICE_FLOOR < theta[n - 1]);
        if m > PRICE_FLOOR {
            let a: int = log_at(f, m);
            let b: int = log_at(f, t);
            assert(a * m - b * m >= UNIT * (m - t) - 2 * m);
            assert(m * (a - b) >= (m - t - 2) * UNIT) by (nonlinear_arith)
                requires
                    a * m - b * m >= UNIT * (m - t) - 2 * m,
                    m <= UNIT,
            ;
            let x: int = m * (a - b);
            vstd::arithmetic::div_mod::lemma_fundamental_div_mod(x, UNIT as int);
            let q: int = x / (UNIT as int);
            assert(q >= m - t - 2) by (nonlinear_arith)
                requires
                    x >= (m - t - 2) * UNIT,
                    x == UNIT * q + x % (UNIT as int),
                    x % (UNIT as int) < UNIT,
                    UNIT > 0,
            ;
            assert(divergence_term(m, t, f) == q);
        }
    }
}

/// The mean of price vectors keeps within bounds that hold for all of them: in
/// particular between zero and one.
pub proof fn law_mean_within_bounds(vectors: Seq<PriceVector>, i: int, lo: int, hi: int)
    requires
        vectors.len() > 0,
        forall|k: int| 0 <= k < vectors.len() ==> lo <= (#[trigger] vectors[k]).prices@[i] <= hi,
    ensures
        lo <= column_sum(vectors, i, vectors.len() as int) / (vectors.len() as int) <= hi,
{
    lemma_column_bounds(vectors, i, lo, hi, vectors.len() as int);
    lemma_div_bound(
        column_sum(vectors, i, vectors.len() as int),
        vectors.len() as int,
        lo,
        hi,
    );
}

proof fn lemma_column_bounds(vectors: Seq<PriceVector>, i: int, lo: int, hi: int, n: int)
    requires
        0 <= n <= vectors.len(),
        forall|k: int| 0 <= k < vectors.len() ==> lo <= (#[trigger] vectors[k]).prices@[i] <= hi,
    ensures
        lo * n <= column_sum(vectors, i, n) <= hi * n,
    decreases n,
{
    if n > 0 {
        lemma_column_bounds(vectors, i, lo, hi, n - 1);
        assert(lo <= vectors[n - 1].prices@[i] <= hi);
        assert(lo * n == lo * (n - 1) + lo) by (nonlinear_arith);
        assert(hi * n == hi * (n - 1) + hi) by (nonlinear_arith);
    }
}

/// A contraction leaves the border: a coordinate of a vertex between zero and
/// one ends up at least its share of the interior point away from zero, and
/// still at most at one.
pub proof fn law_contraction_leaves_border(v: int, u: int, epsilon: int)
    requires
        0 <= v <= UNIT,
        0 <= u <= UNIT,
        0 <= epsilon <= UNIT,
    ensures
        (epsilon * u) / (UNIT as int) <= blend(v, u, epsilon) <= UNIT,
{
    lemma_blend_between(v, u, epsilon, 0, UNIT as int);
    let a: int = (UNIT - epsilon) * v;
    assert(a >= 0) by (nonlinear_arith)
        requires
            a == (UNIT - epsilon) * v,
            v >= 0,
            epsilon <= UNIT,
    ;
    vstd::arithmetic::div_mod::lemma_div_is_ordered(epsilon * u, a + epsilon * u, UNIT as int);
}

/// The contraction never grows and never falls below the smallest one. Where
/// progress is good, and half of it is still allowed, it is at least halved.
pub proof fn law_contraction_shrinks(epsilon: int, fw_gap: int, interior_gap: int)
    requires
        MIN_EPSILON <= epsilon,
    ensures
        MIN_EPSILON <= next_epsilon(epsilon, fw_gap, interior_gap) <= epsilon,
        interior_gap != 0 && gap_ratio(fw_gap, interior_gap) < epsilon && epsilon >= 2 * MIN_EPSILON
            ==> next_epsilon(epsilon, fw_gap, interior_gap) <= epsilon / 2,
        interior_gap != 0 && gap_ratio(fw_gap, interior_gap) >= epsilon ==> next_epsilon(
            epsilon,
            fw_gap,
            interior_gap,
        ) == epsilon,
{
}

/// The centre lies between zero and one.
pub proof fn lemma_centre(
    groups: Seq<Seq<usize>>,
    implications: Seq<(usize, usize)>,
    n: nat,
)
    requires
        vertices_of(groups, implications, n).len() > 0,
    ensures
        between_zero_and_one(centre(groups, implications, n)),
        centre(groups, implications, n).len() == n,
{
    let all = vertices_of(groups, implications, n);
    let c = centre(groups, implications, n);
    let m: int = all.len() as int;
    assert forall|i: int| 0 <= i < c.len() implies 0 <= #[trigger] c[i] <= UNIT by {
        lemma_coordinate_sum(groups, implications, n, i, m);
        lemma_div_bound(coordinate_sum(all, i, m), m, 0, UNIT as int);
    }
}

proof fn lemma_coordinate_sum(
    groups: Seq<Seq<usize>>,
    implications: Seq<(usize, usize)>,
    n: nat,
    i: int,
    m: int,
)
    requires
        0 <= i < n,
        0 <= m <= vertices_of(groups, implications, n).len(),
    ensures
        0 <= coordinate_sum(vertices_of(groups, implications, n), i, m) <= UNIT * m,
    decreases m,
{
    if m > 0 {
        lemma_coordinate_sum(groups, implications, n, i, m - 1);
        lemma_corner_range(groups, implications, n, m - 1);
        assert(0 <= vertices_of(groups, implications, n)[m - 1][i] <= UNIT);
    }
}

/// A corner has a coordinate between zero and one for every outcome.
pub proof fn lemma_corner_range(
    groups: Seq<Seq<usize>>,
    implications: Seq<(usize, usize)>,
    n: nat,
    k: int,
)
    requires
        0 <= k < vertices_of(groups, implications, n).len(),
    ensures
        vertices_of(groups, implications, n)[k].len() == n,
        between_zero_and_one(vertices_of(groups, implications, n)[k]),
{
    let list = choices(groups, groups.len() as int);
    lemma_fair_corner(groups, implications, list, n, list.len() as int, k);
}

/// Where there is a corner, there are groups, and an outcome in each.
pub proof fn lemma_corners_need_outcomes(
    groups: Seq<Seq<usize>>,
    implications: Seq<(usize, usize)>,
    n: nat,
)
    requires
        vertices_of(groups, implications, n).len() > 0,
    ensures
        has_corners(groups),
{
    let v = vertices_of(groups, implications, n)[0];
    let list = choices(groups, groups.len() as int);
    lemma_fair_corner(groups, implications, list, n, list.len() as int, 0);
    assert forall|k: int| 0 <= k < groups.len() implies (#[trigger] groups[k]).len() > 0 by {
        assert(group_fair(groups[k], v, 0));
    }
}

/// Whether a stand of a projection is in order.
spec fn stand_ok(s: Progress, n: nat) -> bool {
    &&& s.mu.len() == n
    &&& s.best_mu.len() == n
    &&& between_zero_and_one(s.mu)
    &&& between_zero_and_one(s.best_mu)
    &&& MIN_EPSILON <= s.epsilon <= FIRST_EPSILON
    &&& s.best_profit >= 0
}

/// A step keeps a coordinate between zero and one, and with no contraction below the
/// smallest at the price floor or above it.
proof fn lemma_stepped(m: int, z: int, t: int, epsilon: int)
    requires
        0 <= epsilon <= UNIT,
    ensures
        MIN_EPSILON <= epsilon ==> PRICE_FLOOR <= stepped(m, z, t, epsilon),
        0 <= stepped(m, z, t, epsilon) <= UNIT,
{
}

/// An iteration keeps the stand in order.
proof fn lemma_advanced(
    p: Problem,
    interior: Seq<i64>,
    f: spec_fn(int) -> int,
    t: int,
    s: Progress,
    n: nat,
)
    requires
        stand_ok(s, n),
        0 <= t,
    ensures
        stand_ok(advanced(p, interior, f, t, s), n),
        advanced(p, interior, f, t, s).best_profit >= s.best_profit,
        advanced(p, interior, f, t, s).best_profit >= divergence(s.mu, p.theta, f) - gap_at(
            s.mu,
            p.theta,
            p.groups,
            f,
        ),
{
    let a = advanced(p, interior, f, t, s);
    let z = descent(p.groups, slopes(s.mu, p.theta, f), interior, s.epsilon, s.mu.len());
    assert forall|i: int| 0 <= i < a.mu.len() implies 0 <= #[trigger] a.mu[i] <= UNIT by {
        lemma_stepped(s.mu[i] as int, z[i] as int, t, a.epsilon);
    }
}

/// What holds of the rest of a projection.
proof fn lemma_projected_from(
    p: Problem,
    interior: Seq<i64>,
    f: spec_fn(int) -> int,
    t: int,
    s: Progress,
    n: nat,
)
    requires
        stand_ok(s, n),
        0 <= t <= p.max_iter,
    ensures
        ({
            let r = projected_from(p, interior, f, t, s);
            &&& r.prices.len() == n
            &&& between_zero_and_one(r.prices)
            &&& r.profit >= 0
            &&& t <= r.iterations <= p.max_iter
            &&& r.converged ==> certain(r, p)
            &&& !r.converged ==> r.iterations == p.max_iter && r.profit >= s.best_profit
        }),
    decreases p.max_iter - t,
{
    if t < p.max_iter {
        let gap: int = gap_at(s.mu, p.theta, p.groups, f);
        let d: int = divergence(s.mu, p.theta, f);
        if close_enough(gap, d, p.alpha) {
            lemma_extraction(gap, d, p.alpha);
        } else {
            lemma_advanced(p, interior, f, t, s, n);
            lemma_projected_from(p, interior, f, t + 1, advanced(p, interior, f, t, s), n);
        }
    }
}

/// Whether a projection that converged secures its share: its profit is the
/// divergence less the gap, or nothing where that is negative, and at least
/// `alpha` of the divergence.
pub open spec fn certain(r: Projection, p: Problem) -> bool {
    &&& r.gap matches Some(g) && close_enough(g, r.divergence, p.alpha) && r.profit == larger(
        r.divergence - g,
        0,
    )
    &&& r.profit * UNIT >= p.alpha * r.divergence
}

/// A gap of at most `1 - alpha` of the divergence leaves `alpha` of it.
proof fn lemma_extraction(gap: int, d: int, alpha: int)
    requires
        close_enough(gap, d, alpha),
    ensures
        larger(d - gap, 0) * UNIT >= alpha * d,
{
    assert((d - gap) * UNIT >= alpha * d) by (nonlinear_arith)
        requires
            gap * UNIT <= (UNIT - alpha) * d,
    ;
    let profit: int = larger(d - gap, 0);
    assert(profit * UNIT >= (d - gap) * UNIT) by (nonlinear_arith)
        requires
            profit >= d - gap,
            UNIT > 0,
    ;
}

/// A projection yields one price between zero and one for every outcome, a
/// profit that is not negative, and takes no more iterations than allowed.
/// Where it converged, the profit is certain and at least `alpha` of the
/// divergence; else all iterations were made.
pub proof fn law_projection(p: Problem, f: spec_fn(int) -> int)
    requires
        vertices_of(p.groups, p.implications, p.theta.len()).len() > 0,
        0 <= p.max_iter,
    ensures
        ({
            let r = projection(p, f);
            &&& r.prices.len() == p.theta.len()
            &&& between_zero_and_one(r.prices)
            &&& r.profit >= 0
            &&& 0 <= r.iterations <= p.max_iter
            &&& r.converged ==> certain(r, p)
            &&& !r.converged ==> r.iterations == p.max_iter
        }),
{
    let interior = centre(p.groups, p.implications, p.theta.len());
    lemma_centre(p.groups, p.implications, p.theta.len());
    lemma_projected_from(p, interior, f, 0, start(interior), p.theta.len());
}

/// The projected prices of a pair add up to one, up to four resolution steps
/// for each iteration.
pub proof fn law_projected_pair_is_fair(p: Problem, f: spec_fn(int) -> int)
    requires
        p.groups == seq![seq![0usize, 1usize]],
        p.implications.len() == 0,
        p.theta.len() == 2,
        0 <= p.max_iter,
    ensures
        magnitude(projection(p, f).prices[0] + projection(p, f).prices[1] - UNIT) <= 4 * p.max_iter,
        projection(p, f).prices.len() == 2,
{
    let interior = centre(p.groups, p.implications, 2);
    lemma_pair_centre(p.groups, p.implications);
    lemma_centre(p.groups, p.implications, 2);
    lemma_pair_from(p, f, 0, start(interior));
}

/// The centre of a pair.
proof fn lemma_pair_centre(groups: Seq<Seq<usize>>, implications: Seq<(usize, usize)>)
    requires
        groups == seq![seq![0usize, 1usize]],
        implications.len() == 0,
    ensures
        vertices_of(groups, implications, 2).len() > 0,
        centre(groups, implications, 2) == seq![500_000_000_000i64, 500_000_000_000i64],
{
    let pair = seq![0usize, 1usize];
    assert(groups[0] == pair);
    assert(groups[0][0] == 0 && groups[0][1] == 1);
    assert(apart(groups));
    law_centre_is_even(groups, implications, 2);
    let c = centre(groups, implications, 2);
    assert(c[groups[0][0] as int] == 500_000_000_000);
    assert(c[groups[0][1] as int] == 500_000_000_000);
    assert(c =~= seq![500_000_000_000i64, 500_000_000_000i64]);
}

/// How far two prices are from adding up to one.
spec fn off(s: Seq<i64>) -> int {
    magnitude(s[0] + s[1] - UNIT)
}

/// The descent corner of a pair adds up to one, up to one resolution step.
proof fn lemma_pair_descent(g: Seq<int>, epsilon: int)
    requires
        g.len() == 2,
        0 <= epsilon <= UNIT,
    ensures
        ({
            let groups = seq![seq![0usize, 1usize]];
            let z = descent(
                groups,
                g,
                seq![500_000_000_000i64, 500_000_000_000i64],
                epsilon,
                2,
            );
            &&& z.len() == 2
            &&& 0 <= z[0] <= UNIT
            &&& 0 <= z[1] <= UNIT
            &&& UNIT - 1 <= z[0] + z[1] <= UNIT
        }),
{
    let group = seq![0usize, 1usize];
    let groups = seq![group];
    let u = seq![500_000_000_000i64, 500_000_000_000i64];
    if g[0] <= g[1] {
        assert(is_steepest(group, g, 0));
    } else {
        assert(is_steepest(group, g, 1));
    }
    let k = choose|k: int| is_steepest(group, g, k);
    assert(is_steepest(group, g, k));
    assert(groups[0] == group);
    let at: int = steepest(group, g) as int;
    assert(at == 0 || at == 1);
    let c = descent_corner(groups, g, 2);
    assert(is_chosen(groups, g, 1, at)) by {
        assert(steepest(groups[0], g) == at);
    }
    assert(!is_chosen(groups, g, 1, 1 - at));
    assert(c[at] == UNIT && c[1 - at] == 0);
    lemma_blend_between(c[0] as int, u[0] as int, epsilon, 0, UNIT as int);
    lemma_blend_between(c[1] as int, u[1] as int, epsilon, 0, UNIT as int);
    let x: int = (UNIT - epsilon) * c[0] + epsilon * u[0];
    let y: int = (UNIT - epsilon) * c[1] + epsilon * u[1];
    assert(x + y == UNIT * UNIT) by (nonlinear_arith)
        requires
            x == (UNIT - epsilon) * c[0] + epsilon * u[0],
            y == (UNIT - epsilon) * c[1] + epsilon * u[1],
            c[0] + c[1] == UNIT,
            u[0] + u[1] == UNIT,
    ;
    lemma_two_floors(x, y, UNIT as int, UNIT as int);
}

/// Two rounded quotients add up to the whole one, or to one less.
proof fn lemma_two_floors(x: int, y: int, d: int, q: int)
    requires
        d > 0,
        x + y == q * d,
    ensures
        q - 1 <= x / d + y / d <= q,
{
    vstd::arithmetic::div_mod::lemma_fundamental_div_mod(x, d);
    vstd::arithmetic::div_mod::lemma_fundamental_div_mod(y, d);
    let a: int = x / d;
    let b: int = y / d;
    let r: int = x % d;
    let s: int = y % d;
    assert(q - 1 <= a + b <= q) by (nonlinear_arith)
        requires
            x == d * a + r,
            y == d * b + s,
            0 <= r < d,
            0 <= s < d,
            x + y == q * d,
            d > 0,
    ;
}

/// A step moves the sum of a pair by less than four resolution steps.
proof fn lemma_pair_step(m: Seq<i64>, z: Seq<i64>, t: int, epsilon: int)
    requires
        m.len() == 2,
        z.len() == 2,
        t >= 0,
        0 <= epsilon <= UNIT,
        UNIT - 1 <= z[0] + z[1] <= UNIT,
    ensures
        magnitude(
            stepped(m[0] as int, z[0] as int, t, epsilon) + stepped(
                m[1] as int,
                z[1] as int,
                t,
                epsilon,
            ) - UNIT,
        ) <= off(m) + 4,
{
    let d: int = t + 2;
    let x: int = t * m[0] + 2 * z[0];
    let y: int = t * m[1] + 2 * z[1];
    let e: int = m[0] + m[1] - UNIT;
    let w: int = z[0] + z[1] - UNIT;
    let a: int = x / d;
    let b: int = y / d;
    vstd::arithmetic::div_mod::lemma_fundamental_div_mod(x, d);
    vstd::arithmetic::div_mod::lemma_fundamental_div_mod(y, d);
    let r: int = x % d;
    let s: int = y % d;
    assert(x + y == d * UNIT + t * e + 2 * w) by (nonlinear_arith)
        requires
            x == t * m[0] + 2 * z[0],
            y == t * m[1] + 2 * z[1],
            e == m[0] + m[1] - UNIT,
            w == z[0] + z[1] - UNIT,
            d == t + 2,
    ;
    let o: int = magnitude(e);
    assert(-o * d <= t * e <= o * d) by (nonlinear_arith)
        requires
            -o <= e <= o,
            o >= 0,
            0 <= t <= d,
    ;
    assert(-(o + 4) <= a + b - UNIT <= o + 4) by (nonlinear_arith)
        requires
            x == d * a + r,
            y == d * b + s,
            0 <= r < d,
            0 <= s < d,
            x + y == d * UNIT + t * e + 2 * w,
            -1 <= w <= 0,
            -o * d <= t * e <= o * d,
            d >= 2,
    ;
}

/// What holds of the rest of the projection of a pair.
proof fn lemma_pair_from(p: Problem, f: spec_fn(int) -> int, t: int, s: Progress)
    requires
        p.groups == seq![seq![0usize, 1usize]],
        stand_ok(s, 2),
        off(s.mu) <= 4 * t,
        off(s.best_mu) <= 4 * t,
        0 <= t <= p.max_iter,
    ensures
        ({
            let r = projected_from(
                p,
                seq![500_000_000_000i64, 500_000_000_000i64],
                f,
                t,
                s,
            );
            &&& r.prices.len() == 2
            &&& off(r.prices) <= 4 * p.max_iter
        }),
    decreases p.max_iter - t,
{
    let interior = seq![500_000_000_000i64, 500_000_000_000i64];
    if t < p.max_iter {
        let gap: int = gap_at(s.mu, p.theta, p.groups, f);
        if !close_enough(gap, divergence(s.mu, p.theta, f), p.alpha) {
            let next = advanced(p, interior, f, t, s);
            let z = descent(p.groups, slopes(s.mu, p.theta, f), interior, s.epsilon, 2);
            lemma_advanced(p, interior, f, t, s, 2);
            lemma_pair_descent(slopes(s.mu, p.theta, f), s.epsilon);
            lemma_pair_step(s.mu, z, t, next.epsilon);
            lemma_stepped(s.mu[0] as int, z[0] as int, t, next.epsilon);
            lemma_stepped(s.mu[1] as int, z[1] as int, t, next.epsilon);
            lemma_pair_from(p, f, t + 1, next);
        }
    }
}

/// A pair is underpriced or overpriced by more than a threshold that is not
/// negative, and never both; the profit is the distance from one.
pub proof fn law_mispricing(price_sum: i64, threshold: i64)
    requires
        0 <= threshold < i64::MAX,
    ensures
        match mispricing(price_sum as int, threshold as int) {
            SimpleArbitrageType::Underpriced { profit } => price_sum < SCALE - threshold && profit
                > threshold && profit == held(SCALE - price_sum),
            SimpleArbitrageType::Overpriced { profit } => price_sum > SCALE + threshold && profit
                > threshold && profit == price_sum - SCALE,
            SimpleArbitrageType::Fair => SCALE - threshold <= price_sum <= SCALE + threshold,
        },
{
}

// ---------------------------------------------------------------------------
// What a projection says of all fair prices
// ---------------------------------------------------------------------------

/// Whether prices lie on the simplex of every group: none is negative, those of
/// every group add up to one, and outcomes outside of the groups cost nothing.
pub open spec fn on_simplex(x: Seq<i64>, groups: Seq<Seq<usize>>) -> bool {
    &&& between_zero_and_one(x)
    &&& forall|h: int|
        0 <= h < groups.len() ==> group_sum(#[trigger] groups[h], x, groups[h].len() as int) == UNIT
    &&& forall|i: int|
        0 <= i < x.len() && !grouped(groups, groups.len() as int, i) ==> #[trigger] x[i] == 0
}

/// A smaller logarithm for a smaller number, up to a resolution step.
proof fn lemma_log_grows(f: spec_fn(int) -> int, x: int, t: int)
    requires
        below_tangents(f),
        0 < x < t <= i64::MAX,
    ensures
        log_at(f, x) <= log_at(f, t) + 1,
{
    let a: int = log_at(f, t);
    let b: int = log_at(f, x);
    assert(a * t - b * t >= UNIT * (t - x) - 2 * t);
    assert(b <= a + 1) by (nonlinear_arith)
        requires
            a * t - b * t >= UNIT * (t - x) - 2 * t,
            0 < x < t,
            UNIT > 0,
    ;
}

/// What the divergence leaves out of a price `m` at the floor or below it, where the
/// other price is above: `m * ln(t / m)`, rounded up.
pub open spec fn left_out_term(m: int, t: int, f: spec_fn(int) -> int) -> int {
    if 0 < m <= PRICE_FLOOR && t > PRICE_FLOOR {
        (m * (log_at(f, t) - log_at(f, m))) / (UNIT as int) + 1
    } else {
        0
    }
}

/// What the divergence leaves out of the first `n` prices.
pub open spec fn left_out_upto(
    mu: Seq<i64>,
    theta: Seq<i64>,
    f: spec_fn(int) -> int,
    n: int,
) -> int
    decreases n,
{
    if n <= 0 {
        0
    } else {
        left_out_upto(mu, theta, f, n - 1) + left_out_term(
            mu[n - 1] as int,
            theta[n - 1] as int,
            f,
        )
    }
}

/// What the divergence of the prices `mu` from the prices `theta` leaves out of
/// prices at the floor or below it. It is nothing where all prices are above.
pub open spec fn left_out(mu: Seq<i64>, theta: Seq<i64>, f: spec_fn(int) -> int) -> int {
    left_out_upto(mu, theta, f, mu.len() as int)
}

/// What is left out is not negative, and nothing where every price is zero or above
/// the floor.
pub proof fn law_left_out(mu: Seq<i64>, theta: Seq<i64>, f: spec_fn(int) -> int)
    requires
        below_tangents(f),
        mu.len() == theta.len(),
    ensures
        left_out(mu, theta, f) >= 0,
        (forall|i: int| 0 <= i < mu.len() ==> #[trigger] mu[i] == 0 || mu[i] > PRICE_FLOOR)
            ==> left_out(mu, theta, f) == 0,
{
    lemma_left_out(mu, theta, f, mu.len() as int);
}

proof fn lemma_left_out(mu: Seq<i64>, theta: Seq<i64>, f: spec_fn(int) -> int, n: int)
    requires
        below_tangents(f),
        mu.len() == theta.len(),
        0 <= n <= mu.len(),
    ensures
        left_out_upto(mu, theta, f, n) >= 0,
        (forall|i: int| 0 <= i < mu.len() ==> #[trigger] mu[i] == 0 || mu[i] > PRICE_FLOOR)
            ==> left_out_upto(mu, theta, f, n) == 0,
    decreases n,
{
    if n > 0 {
        lemma_left_out(mu, theta, f, n - 1);
        let m: int = mu[n - 1] as int;
        let t: int = theta[n - 1] as int;
        if 0 < m <= PRICE_FLOOR && t > PRICE_FLOOR {
            lemma_log_grows(f, m, t);
            let d: int = log_at(f, t) - log_at(f, m);
            assert(-100 <= m * d) by (nonlinear_arith)
                requires
                    d >= -1,
                    0 < m <= 100,
            ;
            vstd::arithmetic::div_mod::lemma_fundamental_div_mod(m * d, UNIT as int);
        }
    }
}

/// The divergence of a price lies above its tangent at another one, up to
/// rounding and what is left out there.
proof fn lemma_above_tangent(x: int, y: int, t: int, f: spec_fn(int) -> int)
    requires
        below_tangents(f),
        t <= i64::MAX,
        0 <= x <= UNIT,
        y == 0 || 1 < y <= UNIT,
    ensures
        UNIT * divergence_term(x, t, f) >= UNIT * divergence_term(y, t, f) - UNIT * left_out_term(
            y,
            t,
            f,
        ) + slope(y, t, f) * (x - y) - 3 * UNIT,
{
    if t <= PRICE_FLOOR {
        assert(0 * (x - y) == 0);
    } else if y == 0 {
        let a: int = log_at(f, x);
        let c: int = log_at(f, t);
        let steep: int = slope(y, t, f);
        assert(steep == -10_000_000_000_000_000_000_000);
        assert(steep * (x - y) <= -200_000_000_000_000 * x) by (nonlinear_arith)
            requires
                steep == -10_000_000_000_000_000_000_000,
                y == 0,
                x >= 0,
        ;
        if x > PRICE_FLOOR {
            vstd::arithmetic::div_mod::lemma_fundamental_div_mod(x * (a - c), UNIT as int);
            assert(UNIT * divergence_term(x, t, f) > x * (a - c) - UNIT);
            assert(x * (a - c) >= -200_000_000_000_000 * x) by (nonlinear_arith)
                requires
                    a - c >= -200_000_000_000_000,
                    x >= 0,
            ;
        }
    } else {
        let a: int = log_at(f, x);
        let b: int = log_at(f, y);
        let c: int = log_at(f, t);
        let g: int = b - c + UNIT;
        assert(slope(y, t, f) == g);
        let dy: int = divergence_term(y, t, f) - left_out_term(y, t, f);
        if y > PRICE_FLOOR {
            vstd::arithmetic::div_mod::lemma_fundamental_div_mod(y * (b - c), UNIT as int);
        } else {
            vstd::arithmetic::div_mod::lemma_fundamental_div_mod(y * (c - b), UNIT as int);
            assert(y * (b - c) == -(y * (c - b))) by (nonlinear_arith);
        }
        assert(UNIT * dy <= y * (b - c));
        assert(y * (b - c) + g * (x - y) == x * b - x * c + UNIT * (x - y)) by (nonlinear_arith)
            requires
                g == b - c + UNIT,
        ;
        if x > PRICE_FLOOR {
            let dx: int = divergence_term(x, t, f);
            vstd::arithmetic::div_mod::lemma_fundamental_div_mod(x * (a - c), UNIT as int);
            assert(UNIT * dx > x * (a - c) - UNIT);
            assert(a * x - b * x >= UNIT * (x - y) - 2 * x);
            assert(x * (a - c) == a * x - x * c) by (nonlinear_arith);
            assert(x * b == b * x) by (nonlinear_arith);
        } else if x > 0 {
            lemma_log_grows(f, x, t);
            assert(a * x - b * x >= UNIT * (x - y) - 2 * x);
            assert(x * b == b * x) by (nonlinear_arith);
            assert(a * x - x * c <= x) by (nonlinear_arith)
                requires
                    a <= c + 1,
                    x > 0,
            ;
        } else {
            assert(x * b == 0 && x * c == 0) by (nonlinear_arith)
                requires
                    x == 0,
            ;
        }
    }
}

/// The weighted sum of the first `n` coordinates.
spec fn weighted(g: Seq<int>, v: Seq<i64>, n: int) -> int
    decreases n,
{
    if n <= 0 { 0 } else { weighted(g, v, n - 1) + g[n - 1] * v[n - 1] }
}

/// The weighted sum of the first `n` outcomes of a group.
spec fn group_weighted(group: Seq<usize>, g: Seq<int>, v: Seq<i64>, n: int) -> int
    decreases n,
{
    if n <= 0 {
        0
    } else {
        group_weighted(group, g, v, n - 1) + g[group[n - 1] as int] * v[group[n - 1] as int]
    }
}

/// The weighted sums of the first `m` groups.
spec fn groups_weighted(groups: Seq<Seq<usize>>, g: Seq<int>, v: Seq<i64>, m: int) -> int
    decreases m,
{
    if m <= 0 {
        0
    } else {
        groups_weighted(groups, g, v, m - 1) + group_weighted(
            groups[m - 1],
            g,
            v,
            groups[m - 1].len() as int,
        )
    }
}

/// Coordinates with those of the first `m` outcomes of a group at zero.
spec fn cleared_of(v: Seq<i64>, group: Seq<usize>, m: int) -> Seq<i64>
    decreases m,
{
    if m <= 0 { v } else { cleared_of(v, group, m - 1).update(group[m - 1] as int, 0) }
}

/// What clearing an outcome takes from a weighted sum.
proof fn lemma_weighted_update(g: Seq<int>, v: Seq<i64>, i: int, n: int)
    requires
        0 <= i < v.len(),
        0 <= n <= v.len(),
    ensures
        weighted(g, v.update(i, 0), n) == weighted(g, v, n) - if i < n { g[i] * v[i] } else { 0 },
    decreases n,
{
    if n > 0 {
        lemma_weighted_update(g, v, i, n - 1);
        assert(g[i] * 0 == 0);
    }
}

/// What a cleared sequence holds.
proof fn lemma_cleared_of(v: Seq<i64>, group: Seq<usize>, m: int)
    requires
        0 <= m <= group.len(),
        group_within(group, v.len() as int),
    ensures
        cleared_of(v, group, m).len() == v.len(),
        forall|i: int|
            0 <= i < v.len() ==> #[trigger] cleared_of(v, group, m)[i] == if exists|j: int|
                0 <= j < m && #[trigger] group[j] == i {
                0
            } else {
                v[i]
            },
    decreases m,
{
    if m > 0 {
        lemma_cleared_of(v, group, m - 1);
        let before = cleared_of(v, group, m - 1);
        let after = cleared_of(v, group, m);
        assert(group[m - 1] < v.len());
        assert forall|i: int| 0 <= i < v.len() implies #[trigger] after[i] == if exists|j: int|
            0 <= j < m && #[trigger] group[j] == i {
            0
        } else {
            v[i]
        } by {
            if group[m - 1] != i {
                assert(after[i] == before[i]);
                if exists|j: int| 0 <= j < m && #[trigger] group[j] == i {
                    let j = choose|j: int| 0 <= j < m && #[trigger] group[j] == i;
                    assert(j < m - 1);
                }
            }
        }
    }
}

/// What clearing a group takes from a weighted sum.
proof fn lemma_weighted_cleared(g: Seq<int>, v: Seq<i64>, group: Seq<usize>, m: int)
    requires
        0 <= m <= group.len(),
        group_within(group, v.len() as int),
        forall|j: int, l: int|
            0 <= j < group.len() && 0 <= l < group.len() && #[trigger] group[j]
                == #[trigger] group[l] ==> j == l,
    ensures
        weighted(g, cleared_of(v, group, m), v.len() as int) == weighted(g, v, v.len() as int)
            - group_weighted(group, g, v, m),
    decreases m,
{
    if m > 0 {
        lemma_weighted_cleared(g, v, group, m - 1);
        lemma_cleared_of(v, group, m - 1);
        let before = cleared_of(v, group, m - 1);
        let at: int = group[m - 1] as int;
        assert(group[m - 1] < v.len());
        lemma_weighted_update(g, before, at, v.len() as int);
        assert(before[at] == v[at]) by {
            if exists|j: int| 0 <= j < m - 1 && #[trigger] group[j] == at {
                let j = choose|j: int| 0 <= j < m - 1 && #[trigger] group[j] == at;
                assert(group[j] == group[m - 1]);
            }
        }
    }
}

/// The weighted sum of a group depends on its own outcomes alone.
proof fn lemma_group_weighted_same(
    group: Seq<usize>,
    g: Seq<int>,
    v: Seq<i64>,
    w: Seq<i64>,
    n: int,
)
    requires
        0 <= n <= group.len(),
        forall|j: int| 0 <= j < group.len() ==> v[#[trigger] group[j] as int] == w[group[j] as int],
    ensures
        group_weighted(group, g, v, n) == group_weighted(group, g, w, n),
    decreases n,
{
    if n > 0 {
        lemma_group_weighted_same(group, g, v, w, n - 1);
        assert(v[group[n - 1] as int] == w[group[n - 1] as int]);
    }
}

proof fn lemma_groups_weighted_same(
    groups: Seq<Seq<usize>>,
    g: Seq<int>,
    v: Seq<i64>,
    w: Seq<i64>,
    m: int,
)
    requires
        0 <= m <= groups.len(),
        forall|h: int, j: int|
            0 <= h < m && 0 <= j < groups[h].len() ==> v[#[trigger] groups[h][j] as int]
                == w[groups[h][j] as int],
    ensures
        groups_weighted(groups, g, v, m) == groups_weighted(groups, g, w, m),
    decreases m,
{
    if m > 0 {
        lemma_groups_weighted_same(groups, g, v, w, m - 1);
        let group = groups[m - 1];
        assert forall|j: int| 0 <= j < group.len() implies v[#[trigger] group[j] as int]
            == w[group[j] as int] by {
            assert(groups[m - 1][j] == group[j]);
        }
        lemma_group_weighted_same(group, g, v, w, group.len() as int);
    }
}

/// Where all other coordinates are zero, a weighted sum is that of the groups.
proof fn lemma_by_groups(groups: Seq<Seq<usize>>, g: Seq<int>, v: Seq<i64>, m: int)
    requires
        0 <= m <= groups.len(),
        apart(groups),
        groups_within(groups, v.len() as int),
        forall|i: int| 0 <= i < v.len() && !grouped(groups, m, i) ==> #[trigger] v[i] == 0,
    ensures
        weighted(g, v, v.len() as int) == groups_weighted(groups, g, v, m),
    decreases m,
{
    if m <= 0 {
        assert forall|i: int| 0 <= i < v.len() implies #[trigger] v[i] == 0 by {
            assert(!grouped(groups, m, i));
        }
        lemma_weighted_zero(g, v, v.len() as int);
    } else {
        let group = groups[m - 1];
        assert(group_within(group, v.len() as int));
        let w = cleared_of(v, group, group.len() as int);
        lemma_cleared_of(v, group, group.len() as int);
        assert forall|j: int, l: int|
            0 <= j < group.len() && 0 <= l < group.len() && #[trigger] group[j]
                == #[trigger] group[l] implies j == l by {
            assert(groups[m - 1][j] == groups[m - 1][l]);
        }
        lemma_weighted_cleared(g, v, group, group.len() as int);
        assert forall|i: int| 0 <= i < w.len() && !grouped(groups, m - 1, i) implies #[trigger] w[i]
            == 0 by {
            if !(exists|j: int| 0 <= j < group.len() && #[trigger] group[j] == i) {
                assert(w[i] == v[i]);
                if grouped(groups, m, i) {
                    let (h, j) = choose|h: int, j: int|
                        0 <= h < m && 0 <= j < groups[h].len() && #[trigger] groups[h][j] == i;
                    if h == m - 1 {
                        assert(group[j] == i);
                    } else {
                        assert(grouped(groups, m - 1, i));
                    }
                }
            }
        }
        lemma_by_groups(groups, g, w, m - 1);
        assert forall|h: int, j: int| 0 <= h < m - 1 && 0 <= j < groups[h].len() implies w[
            #[trigger] groups[h][j] as int] == v[groups[h][j] as int] by {
            let i: int = groups[h][j] as int;
            assert(group_within(groups[h], v.len() as int));
            if exists|l: int| 0 <= l < group.len() && #[trigger] group[l] == i {
                let l = choose|l: int| 0 <= l < group.len() && #[trigger] group[l] == i;
                assert(groups[m - 1][l] == groups[h][j]);
            }
        }
        lemma_groups_weighted_same(groups, g, w, v, m - 1);
    }
}

proof fn lemma_weighted_zero(g: Seq<int>, v: Seq<i64>, n: int)
    requires
        0 <= n <= v.len(),
        forall|i: int| 0 <= i < v.len() ==> #[trigger] v[i] == 0,
    ensures
        weighted(g, v, n) == 0,
    decreases n,
{
    if n > 0 {
        lemma_weighted_zero(g, v, n - 1);
        assert(v[n - 1] == 0);
        assert(g[n - 1] * 0 == 0);
    }
}

/// Every group has a steepest outcome.
proof fn lemma_steepest_exists(group: Seq<usize>, g: Seq<int>)
    requires
        group.len() > 0,
    ensures
        exists|k: int| is_steepest(group, g, k),
{
    let k: int = lemma_first_smallest(group, g, group.len() as int);
    assert(is_steepest(group, g, k));
}

proof fn lemma_first_smallest(group: Seq<usize>, g: Seq<int>, n: int) -> (k: int)
    requires
        0 < n <= group.len(),
    ensures
        0 <= k < n,
        forall|j: int| 0 <= j < n ==> g[group[k] as int] <= g[#[trigger] group[j] as int],
        forall|j: int| 0 <= j < k ==> g[group[k] as int] < g[#[trigger] group[j] as int],
    decreases n,
{
    if n == 1 {
        0
    } else {
        let k: int = lemma_first_smallest(group, g, n - 1);
        if g[group[n - 1] as int] < g[group[k] as int] { n - 1 } else { k }
    }
}

/// A weighted sum over a group is at least its smallest weight times the sum.
proof fn lemma_group_at_least(
    group: Seq<usize>,
    g: Seq<int>,
    x: Seq<i64>,
    least: int,
    n: int,
)
    requires
        0 <= n <= group.len(),
        group_within(group, x.len() as int),
        between_zero_and_one(x),
        forall|j: int| 0 <= j < group.len() ==> least <= g[#[trigger] group[j] as int],
    ensures
        group_weighted(group, g, x, n) >= least * group_sum(group, x, n),
    decreases n,
{
    if n > 0 {
        lemma_group_at_least(group, g, x, least, n - 1);
        let w: int = g[group[n - 1] as int];
        let v: int = x[group[n - 1] as int] as int;
        let s: int = group_sum(group, x, n - 1);
        assert(group[n - 1] < x.len());
        assert(least * s + w * v >= least * (s + v)) by (nonlinear_arith)
            requires
                least <= w,
                0 <= v,
        ;
    }
}

/// A weighted sum over a group with one outcome at one is that outcome's weight.
proof fn lemma_group_of_one(group: Seq<usize>, g: Seq<int>, z: Seq<i64>, at: int, n: int)
    requires
        0 <= n <= group.len(),
        0 <= at < group.len(),
        forall|j: int|
            0 <= j < group.len() ==> z[#[trigger] group[j] as int] == if j == at { UNIT } else { 0 },
    ensures
        group_weighted(group, g, z, n) == if at < n { g[group[at] as int] * UNIT } else { 0 },
    decreases n,
{
    if n > 0 {
        lemma_group_of_one(group, g, z, at, n - 1);
        assert(z[group[n - 1] as int] == if n - 1 == at { UNIT } else { 0 });
        assert(g[group[n - 1] as int] * 0 == 0);
    }
}

/// No point on the simplex of every group lies farther down the slopes than the
/// descent corner.
proof fn lemma_corner_lowest(groups: Seq<Seq<usize>>, g: Seq<int>, x: Seq<i64>)
    requires
        apart(groups),
        has_corners(groups),
        groups_within(groups, x.len() as int),
        on_simplex(x, groups),
    ensures
        weighted(g, x, x.len() as int) >= weighted(
            g,
            descent_corner(groups, g, x.len()),
            x.len() as int,
        ),
{
    let z = descent_corner(groups, g, x.len());
    let k: int = groups.len() as int;
    assert forall|i: int| 0 <= i < z.len() && !grouped(groups, k, i) implies #[trigger] z[i]
        == 0 by {
        if is_chosen(groups, g, k, i) {
            let h = choose|h: int| 0 <= h < k && steepest(#[trigger] groups[h], g) == i;
            lemma_steepest_exists(groups[h], g);
            let j = choose|j: int| is_steepest(groups[h], g, j);
            assert(groups[h][j] == i);
        }
    }
    lemma_by_groups(groups, g, x, k);
    lemma_by_groups(groups, g, z, k);
    lemma_groups_lowest(groups, g, x, k);
}

proof fn lemma_groups_lowest(groups: Seq<Seq<usize>>, g: Seq<int>, x: Seq<i64>, m: int)
    requires
        0 <= m <= groups.len(),
        apart(groups),
        has_corners(groups),
        groups_within(groups, x.len() as int),
        on_simplex(x, groups),
    ensures
        groups_weighted(groups, g, x, m) >= groups_weighted(
            groups,
            g,
            descent_corner(groups, g, x.len()),
            m,
        ),
    decreases m,
{
    if m > 0 {
        lemma_groups_lowest(groups, g, x, m - 1);
        let z = descent_corner(groups, g, x.len());
        let group = groups[m - 1];
        assert(group_within(group, x.len() as int));
        lemma_steepest_exists(group, g);
        let at = choose|at: int| is_steepest(group, g, at);
        assert(is_steepest(group, g, at));
        assert(steepest(groups[m - 1], g) == group[at]);
        assert forall|j: int| 0 <= j < group.len() implies z[#[trigger] group[j] as int] == if j
            == at {
            UNIT
        } else {
            0
        } by {
            let i: int = group[j] as int;
            if j == at {
                assert(is_chosen(groups, g, groups.len() as int, i));
            } else if is_chosen(groups, g, groups.len() as int, i) {
                let h = choose|h: int|
                    0 <= h < groups.len() && steepest(#[trigger] groups[h], g) == i;
                lemma_steepest_exists(groups[h], g);
                let l = choose|l: int| is_steepest(groups[h], g, l);
                assert(groups[h][l] == groups[m - 1][j]);
            }
        }
        lemma_group_of_one(group, g, z, at, group.len() as int);
        lemma_group_at_least(group, g, x, g[group[at] as int], group.len() as int);
        assert(group_sum(groups[m - 1], x, groups[m - 1].len() as int) == UNIT);
    }
}

/// Whether no coordinate is a single resolution step, where the slope is no tangent.
pub open spec fn off_one_step(y: Seq<i64>) -> bool {
    forall|i: int| 0 <= i < y.len() ==> #[trigger] y[i] != 1
}

/// The divergence at a point, its gap and the weighted sums, coordinate by
/// coordinate.
proof fn lemma_tangent_upto(
    x: Seq<i64>,
    y: Seq<i64>,
    z: Seq<i64>,
    theta: Seq<i64>,
    groups: Seq<Seq<usize>>,
    f: spec_fn(int) -> int,
    n: int,
)
    requires
        below_tangents(f),
        x.len() == y.len(),
        y.len() == theta.len(),
        z.len() == y.len(),
        0 <= n <= y.len(),
        between_zero_and_one(y),
        off_one_step(y),
        on_simplex(x, groups),
    ensures
        ({
            let g = slopes(y, theta, f);
            UNIT * divergence_upto(x, theta, f, n) >= UNIT * divergence_upto(y, theta, f, n) - UNIT
                * left_out_upto(y, theta, f, n) - UNIT * gap_upto(g, y, z, n) + weighted(g, x, n)
                - weighted(g, z, n) - 4 * UNIT * n
        }),
    decreases n,
{
    if n > 0 {
        lemma_tangent_upto(x, y, z, theta, groups, f, n - 1);
        let g = slopes(y, theta, f);
        let i: int = n - 1;
        let s: int = slope(y[i] as int, theta[i] as int, f);
        assert(g[i] == s);
        assert(0 <= x[i] <= UNIT);
        assert(0 <= y[i] <= UNIT && y[i] != 1);
        lemma_above_tangent(x[i] as int, y[i] as int, theta[i] as int, f);
        let step: int = s * (y[i] - z[i]);
        vstd::arithmetic::div_mod::lemma_fundamental_div_mod(step, UNIT as int);
        assert(UNIT * (step / (UNIT as int)) > step - UNIT);
        assert(s * (x[i] - y[i]) == s * x[i] - s * z[i] - s * (y[i] - z[i])) by (nonlinear_arith);
    }
}

/// At every point that a projection visits, the divergence less the gap is at most
/// the divergence at any point on the simplex, up to rounding.
proof fn lemma_gap_bounds(
    x: Seq<i64>,
    y: Seq<i64>,
    theta: Seq<i64>,
    groups: Seq<Seq<usize>>,
    f: spec_fn(int) -> int,
)
    requires
        below_tangents(f),
        x.len() == y.len(),
        y.len() == theta.len(),
        between_zero_and_one(y),
        off_one_step(y),
        on_simplex(x, groups),
        apart(groups),
        has_corners(groups),
        groups_within(groups, y.len() as int),
    ensures
        divergence(y, theta, f) - gap_at(y, theta, groups, f) <= divergence(x, theta, f) + 4
            * y.len() + left_out(y, theta, f),
{
    let g = slopes(y, theta, f);
    let z = descent_corner(groups, g, y.len());
    lemma_tangent_upto(x, y, z, theta, groups, f, y.len() as int);
    lemma_corner_lowest(groups, g, x);
    let a: int = divergence(x, theta, f);
    let b: int = divergence(y, theta, f);
    let c: int = gap_at(y, theta, groups, f);
    let e: int = left_out(y, theta, f);
    let n: int = y.len() as int;
    assert(a >= b - e - c - 4 * n) by (nonlinear_arith)
        requires
            UNIT * a >= UNIT * b - UNIT * e - UNIT * c - 4 * UNIT * n,
            UNIT > 0,
    ;
}

/// What the rest of a projection says of a point on the simplex.
proof fn lemma_bound_from(
    p: Problem,
    interior: Seq<i64>,
    f: spec_fn(int) -> int,
    t: int,
    s: Progress,
    x: Seq<i64>,
)
    requires
        below_tangents(f),
        stand_ok(s, p.theta.len()),
        off_one_step(s.mu),
        s.best_profit <= larger(
            divergence(x, p.theta, f) + 4 * p.theta.len() + left_out(s.best_mu, p.theta, f),
            0,
        ),
        0 <= t <= p.max_iter,
        x.len() == p.theta.len(),
        on_simplex(x, p.groups),
        apart(p.groups),
        has_corners(p.groups),
        groups_within(p.groups, p.theta.len() as int),
    ensures
        ({
            let r = projected_from(p, interior, f, t, s);
            let top = divergence(x, p.theta, f) + 4 * p.theta.len() + left_out(
                r.prices,
                p.theta,
                f,
            );
            &&& r.profit <= larger(top, 0)
            &&& r.converged ==> p.alpha * r.divergence <= UNIT * top
        }),
    decreases p.max_iter - t,
{
    if t < p.max_iter {
        let gap: int = gap_at(s.mu, p.theta, p.groups, f);
        let d: int = divergence(s.mu, p.theta, f);
        let top: int = divergence(x, p.theta, f) + 4 * p.theta.len() + left_out(s.mu, p.theta, f);
        lemma_gap_bounds(x, s.mu, p.theta, p.groups, f);
        if close_enough(gap, d, p.alpha) {
            let alpha: int = p.alpha;
            assert(alpha * d <= UNIT * top) by (nonlinear_arith)
                requires
                    gap * UNIT <= (UNIT - alpha) * d,
                    d - gap <= top,
                    UNIT > 0,
            ;
        } else {
            let next = advanced(p, interior, f, t, s);
            let z = descent(p.groups, slopes(s.mu, p.theta, f), interior, s.epsilon, s.mu.len());
            lemma_advanced(p, interior, f, t, s, p.theta.len());
            assert forall|i: int| 0 <= i < next.mu.len() implies #[trigger] next.mu[i] != 1 by {
                lemma_stepped(s.mu[i] as int, z[i] as int, t, next.epsilon);
            }
            lemma_bound_from(p, interior, f, t + 1, next, x);
        }
    }
}

/// A projection bounds the divergence of all fair prices: a profit that it
/// guarantees is no larger than the divergence from the market's prices at any
/// point on the simplex, and where it converged, `alpha` of the divergence that it
/// found is no larger either. Both hold up to four resolution steps for each price,
/// and up to what the divergence leaves out of projected prices at the floor. The
/// mean of the corners, where the projection starts, holds no single step.
pub proof fn law_projection_is_closest(p: Problem, f: spec_fn(int) -> int, x: Seq<i64>)
    requires
        below_tangents(f),
        0 <= p.max_iter,
        x.len() == p.theta.len(),
        on_simplex(x, p.groups),
        apart(p.groups),
        groups_within(p.groups, p.theta.len() as int),
        vertices_of(p.groups, p.implications, p.theta.len()).len() > 0,
        off_one_step(centre(p.groups, p.implications, p.theta.len())),
    ensures
        ({
            let r = projection(p, f);
            let top = divergence(x, p.theta, f) + 4 * p.theta.len() + left_out(
                r.prices,
                p.theta,
                f,
            );
            &&& r.profit <= larger(top, 0)
            &&& r.converged ==> p.alpha * r.divergence <= UNIT * top
        }),
{
    let interior = centre(p.groups, p.implications, p.theta.len());
    lemma_corners_need_outcomes(p.groups, p.implications, p.theta.len());
    lemma_centre(p.groups, p.implications, p.theta.len());
    law_left_out(interior, p.theta, f);
    lemma_bound_from(p, interior, f, 0, start(interior), x);
}

/// Where the market's own prices are fair, a projection guarantees no profit, up
/// to four resolution steps for each price and what the divergence leaves out of
/// projected prices at the floor.
pub proof fn law_fair_market_has_no_profit(p: Problem, f: spec_fn(int) -> int)
    requires
        below_tangents(f),
        0 <= p.max_iter,
        on_simplex(p.theta, p.groups),
        apart(p.groups),
        groups_within(p.groups, p.theta.len() as int),
        vertices_of(p.groups, p.implications, p.theta.len()).len() > 0,
        off_one_step(centre(p.groups, p.implications, p.theta.len())),
    ensures
        ({
            let r = projection(p, f);
            let top = 4 * p.theta.len() + left_out(r.prices, p.theta, f);
            &&& r.profit <= top
            &&& r.converged ==> p.alpha * r.divergence <= UNIT * top
        }),
{
    law_no_divergence_from_itself(p.theta, f);
    law_projection_is_closest(p, f, p.theta);
    law_projection(p, f);
    law_left_out(projection(p, f).prices, p.theta, f);
}

// ---------------------------------------------------------------------------
// Corners
// ---------------------------------------------------------------------------

/// Whether exactly one outcome of a group is at one, and the others at zero.
pub open spec fn one_active(group: Seq<usize>, v: Seq<i64>) -> bool {
    exists|j: int| #[trigger] active_at(group, v, j)
}

/// Whether the `j`-th outcome of a group is at one, and the others at zero.
pub open spec fn active_at(group: Seq<usize>, v: Seq<i64>, j: int) -> bool {
    &&& 0 <= j < group.len()
    &&& forall|l: int|
        0 <= l < group.len() ==> v[#[trigger] group[l] as int] == if l == j { UNIT } else { 0 }
}

/// Every corner is a point with all coordinates at zero or one, exactly one of
/// them at one in every group, and fair within any tolerance.
pub proof fn law_corners(
    groups: Seq<Seq<usize>>,
    implications: Seq<(usize, usize)>,
    n: nat,
    k: int,
    tolerance: int,
)
    requires
        groups_within(groups, n as int),
        0 <= k < vertices_of(groups, implications, n).len(),
        tolerance >= 0,
    ensures
        ({
            let v = vertices_of(groups, implications, n)[k];
            &&& v.len() == n
            &&& forall|i: int| 0 <= i < n ==> #[trigger] v[i] == 0 || v[i] == UNIT
            &&& forall|h: int| 0 <= h < groups.len() ==> one_active(#[trigger] groups[h], v)
            &&& feasible(groups, implications, v, tolerance)
        }),
{
    let v = vertices_of(groups, implications, n)[k];
    let list = choices(groups, groups.len() as int);
    lemma_fair_corner(groups, implications, list, n, list.len() as int, k);
    assert forall|h: int| 0 <= h < groups.len() implies one_active(#[trigger] groups[h], v)
        && group_fair(groups[h], v, tolerance) by {
        assert(group_fair(groups[h], v, 0));
        assert(group_within(groups[h], n as int));
        lemma_one_active(groups[h], v, groups[h].len() as int);
    }
    assert(implied(implications, v, tolerance)) by {
        assert forall|x: int| 0 <= x < implications.len() implies crate::math::implies_fairly(
            #[trigger] implications[x],
            v,
            tolerance,
        ) by {
            assert(crate::math::implies_fairly(implications[x], v, 0));
        }
    }
}

/// What a listed corner is.
proof fn lemma_fair_corner(
    groups: Seq<Seq<usize>>,
    implications: Seq<(usize, usize)>,
    list: Seq<Seq<usize>>,
    n: nat,
    m: int,
    k: int,
)
    requires
        0 <= k < fair_corners(groups, implications, list, n, m).len(),
    ensures
        ({
            let v = fair_corners(groups, implications, list, n, m)[k];
            &&& feasible(groups, implications, v, 0)
            &&& v.len() == n
            &&& forall|i: int| 0 <= i < n ==> #[trigger] v[i] == 0 || v[i] == UNIT
        }),
    decreases m,
{
    if m > 0 {
        let rest = fair_corners(groups, implications, list, n, m - 1);
        if k < rest.len() {
            lemma_fair_corner(groups, implications, list, n, m - 1, k);
        }
    }
}

/// Coordinates at zero or one that add up to one hold it once.
proof fn lemma_one_active(group: Seq<usize>, v: Seq<i64>, n: int)
    requires
        0 <= n <= group.len(),
        forall|j: int|
            0 <= j < group.len() ==> v[#[trigger] group[j] as int] == 0 || v[group[j] as int]
                == UNIT,
    ensures
        group_sum(group, v, n) >= 0,
        group_sum(group, v, n) == 0 ==> forall|l: int|
            0 <= l < n ==> v[#[trigger] group[l] as int] == 0,
        group_sum(group, v, n) > 0 ==> group_sum(group, v, n) >= UNIT,
        group_sum(group, v, n) == UNIT ==> exists|j: int|
            0 <= j < n && #[trigger] holds_at(group, v, n, j),
        n == group.len() && group_sum(group, v, n) == UNIT ==> one_active(group, v),
    decreases n,
{
    if n > 0 {
        lemma_one_active(group, v, n - 1);
        let last: int = v[group[n - 1] as int] as int;
        assert(last == 0 || last == UNIT);
        if group_sum(group, v, n) == UNIT {
            if last == UNIT {
                assert(holds_at(group, v, n, n - 1));
            } else {
                let j = choose|j: int| 0 <= j < n - 1 && #[trigger] holds_at(group, v, n - 1, j);
                assert(holds_at(group, v, n, j));
            }
            let j = choose|j: int| 0 <= j < n && #[trigger] holds_at(group, v, n, j);
            if n == group.len() {
                assert(active_at(group, v, j));
            }
        }
    }
}

/// Whether among the first `n` outcomes of a group only the `j`-th is at one.
spec fn holds_at(group: Seq<usize>, v: Seq<i64>, n: int, j: int) -> bool {
    forall|l: int|
        0 <= l < n ==> v[#[trigger] group[l] as int] == if l == j { UNIT } else { 0 }
}

/// The outcomes that are chosen by their places in the groups.
pub open spec fn chosen(groups: Seq<Seq<usize>>, places: Seq<int>) -> Seq<usize> {
    Seq::new(groups.len(), |h: int| groups[h][places[h]])
}

/// Where no outcome is in two groups, every choice of one outcome from each group
/// that the implications allow is a corner.
pub proof fn law_every_choice_is_a_corner(
    groups: Seq<Seq<usize>>,
    implications: Seq<(usize, usize)>,
    n: nat,
    places: Seq<int>,
)
    requires
        groups.len() > 0,
        apart(groups),
        groups_within(groups, n as int),
        forall|h: int| 0 <= h < groups.len() ==> 0 <= #[trigger] places[h] < groups[h].len(),
        implied(implications, corner(n, chosen(groups, places)), 0),
    ensures
        vertices_of(groups, implications, n).contains(corner(n, chosen(groups, places))),
{
    let c = chosen(groups, places);
    let v = corner(n, c);
    let k: int = groups.len() as int;
    lemma_chosen_listed(groups, places, k);
    assert(c.take(k) =~= c);
    let list = choices(groups, k);
    let a: int = list.index_of(c);
    assert(list[a] == c);
    assert forall|h: int| 0 <= h < k implies group_fair(#[trigger] groups[h], v, 0) by {
        let group = groups[h];
        assert(group_within(group, n as int));
        assert(0 <= places[h] < group.len());
        assert forall|l: int| 0 <= l < group.len() implies v[#[trigger] group[l] as int] == if l
            == places[h] {
            UNIT
        } else {
            0
        } by {
            let i: int = group[l] as int;
            if l == places[h] {
                assert(c[h] == i);
                assert(picks(c, i));
            } else if picks(c, i) {
                let j = choose|j: int| 0 <= j < c.len() && #[trigger] c[j] == i;
                assert(0 <= places[j] < groups[j].len());
                assert(groups[j][places[j]] == groups[h][l]);
            }
        }
        lemma_sum_of_one(group, v, places[h], group.len() as int);
    }
    lemma_listed_corner(groups, implications, list, n, list.len() as int, a);
}

/// The sum over a group with one outcome at one.
proof fn lemma_sum_of_one(group: Seq<usize>, v: Seq<i64>, at: int, n: int)
    requires
        0 <= n <= group.len(),
        forall|j: int|
            0 <= j < group.len() ==> v[#[trigger] group[j] as int] == if j == at { UNIT } else { 0 },
    ensures
        group_sum(group, v, n) == if 0 <= at < n { UNIT as int } else { 0 },
    decreases n,
{
    if n > 0 {
        lemma_sum_of_one(group, v, at, n - 1);
        assert(v[group[n - 1] as int] == if n - 1 == at { UNIT } else { 0 });
    }
}

/// Every choice of places is listed.
proof fn lemma_chosen_listed(groups: Seq<Seq<usize>>, places: Seq<int>, k: int)
    requires
        0 <= k <= groups.len(),
        forall|h: int| 0 <= h < groups.len() ==> 0 <= #[trigger] places[h] < groups[h].len(),
    ensures
        choices(groups, k).contains(chosen(groups, places).take(k)),
    decreases k,
{
    let c = chosen(groups, places);
    if k <= 0 {
        assert(c.take(0) =~= Seq::<usize>::empty());
        assert(choices(groups, 0)[0] == Seq::<usize>::empty());
    } else {
        lemma_chosen_listed(groups, places, k - 1);
        let front = choices(groups, k - 1);
        let a: int = front.index_of(c.take(k - 1));
        assert(front[a] == c.take(k - 1));
        assert(0 <= places[k - 1] < groups[k - 1].len());
        lemma_extended_holds(front, groups[k - 1], front.len() as int, a, places[k - 1]);
        assert(c.take(k) =~= front[a].push(groups[k - 1][places[k - 1]]));
    }
}

/// An extension holds every choice with every outcome added.
proof fn lemma_extended_holds(
    front: Seq<Seq<usize>>,
    group: Seq<usize>,
    m: int,
    a: int,
    j: int,
)
    requires
        0 <= a < m <= front.len(),
        0 <= j < group.len(),
    ensures
        extended(front, group, m).contains(front[a].push(group[j])),
    decreases m,
{
    let rest = extended(front, group, m - 1);
    let row = Seq::new(group.len(), |j: int| front[m - 1].push(group[j]));
    let all = extended(front, group, m);
    assert(all == rest + row);
    if a < m - 1 {
        lemma_extended_holds(front, group, m - 1, a, j);
        let x: int = rest.index_of(front[a].push(group[j]));
        assert(all[x] == rest[x]);
    } else {
        assert(all[rest.len() + j] == row[j]);
    }
}

/// A fair corner of a listed choice is kept.
proof fn lemma_listed_corner(
    groups: Seq<Seq<usize>>,
    implications: Seq<(usize, usize)>,
    list: Seq<Seq<usize>>,
    n: nat,
    m: int,
    a: int,
)
    requires
        0 <= a < m <= list.len(),
        feasible(groups, implications, corner(n, list[a]), 0),
    ensures
        fair_corners(groups, implications, list, n, m).contains(corner(n, list[a])),
    decreases m,
{
    let rest = fair_corners(groups, implications, list, n, m - 1);
    let all = fair_corners(groups, implications, list, n, m);
    if a < m - 1 {
        lemma_listed_corner(groups, implications, list, n, m - 1, a);
        let x: int = rest.index_of(corner(n, list[a]));
        assert(all[x] == rest[x]);
    } else {
        assert(all[rest.len() as int] == corner(n, list[a]));
    }
}

// ---------------------------------------------------------------------------
// The mean of the corners
// ---------------------------------------------------------------------------

/// Whether a choice holds one outcome of each of the first `k` groups, in their
/// order.
spec fn is_choice(groups: Seq<Seq<usize>>, k: int, c: Seq<usize>) -> bool {
    &&& c.len() == k
    &&& forall|h: int| 0 <= h < k ==> picks(groups[h], #[trigger] c[h] as int)
}

/// How many of the first `m` choices hold the outcome `i`.
spec fn holders(list: Seq<Seq<usize>>, i: int, m: int) -> int
    decreases m,
{
    if m <= 0 {
        0
    } else {
        holders(list, i, m - 1) + if picks(list[m - 1], i) { 1int } else { 0int }
    }
}

/// Every listed choice holds one outcome of each group.
proof fn lemma_listed_choice(groups: Seq<Seq<usize>>, k: int, a: int)
    requires
        0 <= k <= groups.len(),
        0 <= a < choices(groups, k).len(),
    ensures
        is_choice(groups, k, choices(groups, k)[a]),
    decreases k,
{
    if k > 0 {
        let front = choices(groups, k - 1);
        let (b, j) = lemma_extended_from(front, groups[k - 1], front.len() as int, a);
        lemma_listed_choice(groups, k - 1, b);
        let c = choices(groups, k)[a];
        assert(c == front[b].push(groups[k - 1][j]));
        assert forall|h: int| 0 <= h < k implies picks(groups[h], #[trigger] c[h] as int) by {
            if h < k - 1 {
                assert(c[h] == front[b][h]);
            } else {
                assert(groups[h][j] == c[h]);
            }
        }
    }
}

/// Where an entry of an extension comes from.
proof fn lemma_extended_from(
    front: Seq<Seq<usize>>,
    group: Seq<usize>,
    m: int,
    a: int,
) -> (r: (int, int))
    requires
        0 <= m <= front.len(),
        0 <= a < extended(front, group, m).len(),
    ensures
        0 <= r.0 < m,
        0 <= r.1 < group.len(),
        extended(front, group, m)[a] == front[r.0].push(group[r.1]),
    decreases m,
{
    let rest = extended(front, group, m - 1);
    if m <= 0 {
        (0, 0)
    } else if a < rest.len() {
        lemma_extended_from(front, group, m - 1, a)
    } else {
        (m - 1, a - rest.len())
    }
}

/// An extension is as long as both sizes multiply to.
proof fn lemma_extended_len(front: Seq<Seq<usize>>, group: Seq<usize>, m: int)
    requires
        0 <= m <= front.len(),
    ensures
        extended(front, group, m).len() == m * group.len(),
    decreases m,
{
    if m > 0 {
        lemma_extended_len(front, group, m - 1);
        let l: int = group.len() as int;
        assert(m * l == (m - 1) * l + l) by (nonlinear_arith);
    } else {
        assert(0 * group.len() == 0);
    }
}

/// The holders among two lists, one after the other.
proof fn lemma_holders_concat(s: Seq<Seq<usize>>, t: Seq<Seq<usize>>, i: int, m: int)
    requires
        0 <= m <= t.len(),
    ensures
        holders(s + t, i, s.len() + m) == holders(s, i, s.len() as int) + holders(t, i, m),
    decreases m,
{
    if m > 0 {
        lemma_holders_concat(s, t, i, m - 1);
        assert((s + t)[s.len() + m - 1] == t[m - 1]);
    } else {
        lemma_holders_prefix(s, t, i, s.len() as int);
    }
}

proof fn lemma_holders_prefix(s: Seq<Seq<usize>>, t: Seq<Seq<usize>>, i: int, m: int)
    requires
        0 <= m <= s.len(),
    ensures
        holders(s + t, i, m) == holders(s, i, m),
    decreases m,
{
    if m > 0 {
        lemma_holders_prefix(s, t, i, m - 1);
        assert((s + t)[m - 1] == s[m - 1]);
    }
}

/// What an added outcome holds.
proof fn lemma_picks_push(c: Seq<usize>, x: usize, i: int)
    ensures
        picks(c.push(x), i) == (picks(c, i) || x == i),
{
    let more = c.push(x);
    assert(more[c.len() as int] == x);
    if picks(c, i) {
        let j = choose|j: int| 0 <= j < c.len() && #[trigger] c[j] == i;
        assert(more[j] == i);
    }
    if picks(more, i) {
        let j = choose|j: int| 0 <= j < more.len() && #[trigger] more[j] == i;
        if j < c.len() {
            assert(c[j] == i);
        }
    }
}

/// The holders among the extensions of one choice.
proof fn lemma_holders_row(c: Seq<usize>, group: Seq<usize>, i: int, m: int)
    requires
        0 <= m <= group.len(),
        forall|j: int, l: int|
            0 <= j < group.len() && 0 <= l < group.len() && #[trigger] group[j]
                == #[trigger] group[l] ==> j == l,
    ensures
        ({
            let row = Seq::new(group.len(), |j: int| c.push(group[j]));
            &&& picks(c, i) ==> holders(row, i, m) == m
            &&& !picks(c, i) ==> holders(row, i, m) == if exists|j: int|
                0 <= j < m && #[trigger] group[j] == i {
                1int
            } else {
                0int
            }
        }),
    decreases m,
{
    if m > 0 {
        lemma_holders_row(c, group, i, m - 1);
        lemma_picks_push(c, group[m - 1], i);
        let row = Seq::new(group.len(), |j: int| c.push(group[j]));
        assert(row[m - 1] == c.push(group[m - 1]));
        if exists|j: int| 0 <= j < m && #[trigger] group[j] == i {
            let j = choose|j: int| 0 <= j < m && #[trigger] group[j] == i;
            if j < m - 1 {
                assert(group[m - 1] != i) by {
                    if group[m - 1] == i {
                        assert(group[j] == group[m - 1]);
                    }
                }
            } else {
                assert(!(exists|l: int| 0 <= l < m - 1 && #[trigger] group[l] == i)) by {
                    if exists|l: int| 0 <= l < m - 1 && #[trigger] group[l] == i {
                        let l = choose|l: int| 0 <= l < m - 1 && #[trigger] group[l] == i;
                        assert(group[l] == group[m - 1]);
                    }
                }
            }
        } else {
            assert(group[m - 1] != i);
        }
    }
}

/// The holders among the extensions of choices by a group.
proof fn lemma_holders_extended(
    front: Seq<Seq<usize>>,
    group: Seq<usize>,
    i: int,
    m: int,
)
    requires
        0 <= m <= front.len(),
        forall|j: int, l: int|
            0 <= j < group.len() && 0 <= l < group.len() && #[trigger] group[j]
                == #[trigger] group[l] ==> j == l,
        picks(group, i) ==> forall|a: int| 0 <= a < front.len() ==> !picks(#[trigger] front[a], i),
    ensures
        ({
            let all = extended(front, group, m);
            &&& picks(group, i) ==> holders(all, i, all.len() as int) == m
            &&& !picks(group, i) ==> holders(all, i, all.len() as int) == holders(front, i, m)
                * group.len()
        }),
    decreases m,
{
    if m > 0 {
        lemma_holders_extended(front, group, i, m - 1);
        let rest = extended(front, group, m - 1);
        let c = front[m - 1];
        let row = Seq::new(group.len(), |j: int| c.push(group[j]));
        let l: int = group.len() as int;
        lemma_holders_concat(rest, row, i, l);
        lemma_holders_row(c, group, i, l);
        let h: int = holders(front, i, m - 1);
        assert((h + 1) * l == h * l + l) by (nonlinear_arith);
        assert((h + 0) * l == h * l);
        assert(extended(front, group, m) == rest + row);
    } else {
        assert(0 * group.len() == 0);
    }
}

/// Where no outcome is in two groups, each outcome of a group is held by an equal
/// share of the choices.
proof fn lemma_equal_shares(groups: Seq<Seq<usize>>, k: int, i: int)
    requires
        0 <= k <= groups.len(),
        apart(groups),
    ensures
        forall|h: int, j: int|
            0 <= h < k && 0 <= j < groups[h].len() && #[trigger] groups[h][j] == i ==> holders(
                choices(groups, k),
                i,
                choices(groups, k).len() as int,
            ) * groups[h].len() == choices(groups, k).len(),
        !grouped(groups, k, i) ==> holders(choices(groups, k), i, choices(groups, k).len() as int)
            == 0,
    decreases k,
{
    let all = choices(groups, k);
    let n: int = all.len() as int;
    if k <= 0 {
        assert(all[0] == Seq::<usize>::empty());
        assert(!picks(all[0], i));
        reveal_with_fuel(holders, 2);
    } else {
        lemma_equal_shares(groups, k - 1, i);
        let front = choices(groups, k - 1);
        let group = groups[k - 1];
        let m: int = front.len() as int;
        let l: int = group.len() as int;
        assert forall|j: int, l: int|
            0 <= j < group.len() && 0 <= l < group.len() && #[trigger] group[j]
                == #[trigger] group[l] implies j == l by {
            assert(groups[k - 1][j] == groups[k - 1][l]);
        }
        if picks(group, i) {
            let p = choose|p: int| 0 <= p < group.len() && #[trigger] group[p] == i;
            assert forall|a: int| 0 <= a < front.len() implies !picks(#[trigger] front[a], i) by {
                lemma_listed_choice(groups, k - 1, a);
                if picks(front[a], i) {
                    let h = choose|h: int| 0 <= h < front[a].len() && #[trigger] front[a][h] == i;
                    assert(picks(groups[h], front[a][h] as int));
                    let q = choose|q: int| 0 <= q < groups[h].len() && #[trigger] groups[h][q] == i;
                    assert(groups[h][q] == groups[k - 1][p]);
                }
            }
        }
        lemma_holders_extended(front, group, i, m);
        lemma_extended_len(front, group, m);
        let before: int = holders(front, i, m);
        assert forall|h: int, j: int|
            0 <= h < k && 0 <= j < groups[h].len() && #[trigger] groups[h][j] == i implies holders(
            all,
            i,
            n,
        ) * groups[h].len() == n by {
            if h == k - 1 {
                assert(group[j] == i);
            } else {
                assert(!picks(group, i)) by {
                    if picks(group, i) {
                        let p = choose|p: int| 0 <= p < group.len() && #[trigger] group[p] == i;
                        assert(groups[k - 1][p] == groups[h][j]);
                    }
                }
                let w: int = groups[h].len() as int;
                assert(before * w == m);
                assert((before * l) * w == m * l) by (nonlinear_arith)
                    requires
                        before * w == m,
                ;
            }
        }
        if !grouped(groups, k, i) {
            assert(!grouped(groups, k - 1, i)) by {
                if grouped(groups, k - 1, i) {
                    let (h, j) = choose|h: int, j: int|
                        0 <= h < k - 1 && 0 <= j < groups[h].len() && #[trigger] groups[h][j] == i;
                    assert(0 <= h < k && groups[h][j] == i);
                }
            }
            assert(!picks(group, i)) by {
                if picks(group, i) {
                    let p = choose|p: int| 0 <= p < group.len() && #[trigger] group[p] == i;
                    assert(groups[k - 1][p] == i);
                }
            }
            assert(0 * l == 0);
        }
    }
}

/// There are choices where every group has an outcome.
proof fn lemma_some_choice(groups: Seq<Seq<usize>>, k: int)
    requires
        0 <= k <= groups.len(),
        has_corners(groups),
    ensures
        choices(groups, k).len() > 0,
    decreases k,
{
    if k > 0 {
        lemma_some_choice(groups, k - 1);
        let m: int = choices(groups, k - 1).len() as int;
        lemma_extended_len(choices(groups, k - 1), groups[k - 1], m);
        assert(groups[k - 1].len() > 0);
        let l: int = groups[k - 1].len() as int;
        assert(m * l > 0) by (nonlinear_arith)
            requires
                m > 0,
                l > 0,
        ;
    }
}

/// Where no outcome is in two groups and none implies another, every choice is fair.
proof fn lemma_choice_fair(
    groups: Seq<Seq<usize>>,
    implications: Seq<(usize, usize)>,
    n: nat,
    c: Seq<usize>,
)
    requires
        apart(groups),
        groups_within(groups, n as int),
        implications.len() == 0,
        is_choice(groups, groups.len() as int, c),
    ensures
        feasible(groups, implications, corner(n, c), 0),
{
    let v = corner(n, c);
    assert forall|h: int| 0 <= h < groups.len() implies group_fair(#[trigger] groups[h], v, 0) by {
        let group = groups[h];
        assert(group_within(group, n as int));
        assert(picks(groups[h], c[h] as int));
        let at = choose|at: int| 0 <= at < group.len() && #[trigger] group[at] == c[h];
        assert forall|l: int| 0 <= l < group.len() implies v[#[trigger] group[l] as int] == if l
            == at {
            UNIT
        } else {
            0
        } by {
            let i: int = group[l] as int;
            if l == at {
                assert(c[h] == i);
            } else if picks(c, i) {
                let j = choose|j: int| 0 <= j < c.len() && #[trigger] c[j] == i;
                assert(picks(groups[j], c[j] as int));
                let q = choose|q: int| 0 <= q < groups[j].len() && #[trigger] groups[j][q] == c[j];
                assert(groups[j][q] == groups[h][l]);
                assert(group[at] == c[h]);
            }
        }
        lemma_sum_of_one(group, v, at, group.len() as int);
    }
}

/// Where every choice is fair, the corners are those of the choices, one for each.
proof fn lemma_all_corners(
    groups: Seq<Seq<usize>>,
    implications: Seq<(usize, usize)>,
    n: nat,
    i: int,
    m: int,
)
    requires
        apart(groups),
        groups_within(groups, n as int),
        implications.len() == 0,
        0 <= i < n,
        0 <= m <= choices(groups, groups.len() as int).len(),
    ensures
        ({
            let list = choices(groups, groups.len() as int);
            let all = fair_corners(groups, implications, list, n, m);
            &&& all.len() == m
            &&& coordinate_sum(all, i, m) == UNIT * holders(list, i, m)
        }),
    decreases m,
{
    if m > 0 {
        lemma_all_corners(groups, implications, n, i, m - 1);
        let list = choices(groups, groups.len() as int);
        let rest = fair_corners(groups, implications, list, n, m - 1);
        lemma_listed_choice(groups, groups.len() as int, m - 1);
        lemma_choice_fair(groups, implications, n, list[m - 1]);
        let all = fair_corners(groups, implications, list, n, m);
        assert(all == rest.push(corner(n, list[m - 1])));
        lemma_sum_prefix(rest, corner(n, list[m - 1]), i, m - 1);
        assert(UNIT * 0 == 0 && UNIT * 1 == UNIT);
    } else {
        assert(UNIT * 0 == 0);
    }
}

proof fn lemma_sum_prefix(s: Seq<Seq<i64>>, last: Seq<i64>, i: int, m: int)
    requires
        0 <= m <= s.len(),
    ensures
        coordinate_sum(s.push(last), i, m) == coordinate_sum(s, i, m),
    decreases m,
{
    if m > 0 {
        lemma_sum_prefix(s, last, i, m - 1);
        assert(s.push(last)[m - 1] == s[m - 1]);
    }
}

/// Where no outcome is in two groups and none implies another, the mean of the
/// corners gives all outcomes of a group the same, and nothing to outcomes outside
/// of the groups. With two outcomes or more, a group's share lies strictly between
/// zero and one.
pub proof fn law_centre_is_even(
    groups: Seq<Seq<usize>>,
    implications: Seq<(usize, usize)>,
    n: nat,
)
    requires
        apart(groups),
        has_corners(groups),
        groups_within(groups, n as int),
        implications.len() == 0,
    ensures
        vertices_of(groups, implications, n).len() > 0,
        forall|h: int, j: int|
            0 <= h < groups.len() && 0 <= j < groups[h].len() ==> centre(groups, implications, n)[
            #[trigger] groups[h][j] as int] == UNIT as int / groups[h].len() as int,
        forall|h: int, j: int|
            0 <= h < groups.len() && 0 <= j < groups[h].len() && 2 <= groups[h].len() <= UNIT ==> 0
                < centre(groups, implications, n)[#[trigger] groups[h][j] as int] < UNIT,
        forall|i: int|
            0 <= i < n && !grouped(groups, groups.len() as int, i) ==> #[trigger] centre(
                groups,
                implications,
                n,
            )[i] == 0,
{
    let k: int = groups.len() as int;
    let list = choices(groups, k);
    let m: int = list.len() as int;
    let c = centre(groups, implications, n);
    lemma_some_choice(groups, k);
    if n == 0 {
        assert(group_within(groups[0], 0));
        assert(groups[0][0] < 0);
    }
    lemma_all_corners(groups, implications, n, 0, m);
    assert forall|h: int, j: int| 0 <= h < k && 0 <= j < groups[h].len() implies c[
        #[trigger] groups[h][j] as int] == UNIT as int / groups[h].len() as int && (2
        <= groups[h].len() <= UNIT ==> 0 < c[groups[h][j] as int] < UNIT) by {
        let i: int = groups[h][j] as int;
        assert(group_within(groups[h], n as int));
        lemma_all_corners(groups, implications, n, i, m);
        lemma_equal_shares(groups, k, i);
        let held_by: int = holders(list, i, m);
        let w: int = groups[h].len() as int;
        assert(held_by * w == m);
        assert(held_by > 0) by (nonlinear_arith)
            requires
                held_by * w == m,
                m > 0,
                w > 0,
        ;
        lemma_common_factor(UNIT as int, w, held_by);
        assert(UNIT <= UNIT * w) by (nonlinear_arith)
            requires
                w >= 1,
                UNIT > 0,
        ;
        lemma_div_bound(UNIT as int, w, 0, UNIT as int);
        if 2 <= w <= UNIT {
            assert(UNIT <= 500_000_000_000 * w) by (nonlinear_arith)
                requires
                    w >= 2,
                    UNIT == 1_000_000_000_000,
            ;
            lemma_div_bound(UNIT as int, w, 1, 500_000_000_000);
        }
    }
    assert forall|i: int| 0 <= i < n && !grouped(groups, k, i) implies #[trigger] c[i] == 0 by {
        lemma_all_corners(groups, implications, n, i, m);
        lemma_equal_shares(groups, k, i);
        assert(0 * m == 0);
        lemma_div_bound(0, m, 0, 0);
    }
}

/// A common factor does not change a rounded quotient.
proof fn lemma_common_factor(a: int, d: int, x: int)
    requires
        d > 0,
        x > 0,
    ensures
        (a * x) / (x * d) == a / d,
{
    vstd::arithmetic::div_mod::lemma_fundamental_div_mod(a, d);
    let q: int = a / d;
    let r: int = a % d;
    assert(a * x == q * (x * d) + r * x) by (nonlinear_arith)
        requires
            a == d * q + r,
    ;
    assert(0 <= r * x < x * d) by (nonlinear_arith)
        requires
            0 <= r < d,
            x > 0,
    ;
    vstd::arithmetic::div_mod::lemma_fundamental_div_mod_converse(a * x, x * d, q, r * x);
}

/// Every number that is not negative has a whole square root.
pub proof fn law_root(x: int)
    requires
        x >= 0,
    ensures
        root(x) >= 0,
        root(x) * root(x) <= x < (root(x) + 1) * (root(x) + 1),
{
    lemma_root_exists(x, x + 1);
    assert(is_root(x, root(x)));
}

/// A number whose square is above `x` bounds a whole square root.
proof fn lemma_root_exists(x: int, top: int)
    requires
        x >= 0,
        top > 0,
        x < top * top || top == x + 1,
    ensures
        exists|r: int| is_root(x, r),
    decreases top,
{
    let r: int = top - 1;
    assert(x < (x + 1) * (x + 1)) by (nonlinear_arith)
        requires
            x >= 0,
    ;
    if r * r <= x {
        assert((r + 1) * (r + 1) == top * top);
        assert(is_root(x, r));
    } else {
        assert(r > 0) by (nonlinear_arith)
            requires
                r * r > x,
                x >= 0,
                r >= 0,
        ;
        lemma_root_exists(x, r);
    }
}

/// The size of a position by the modified Kelly rule: the share `(b * p - q) / b` of the
/// capital, weighted by the root of the fill probability `p`, which is taken as one
/// hundredth at least and as ninety-nine at most. Every step rounds down. The size is
/// never negative, never above the capital, and never above half of the depth; where
/// it is below what the rule gives, it is at one of the two.
pub proof fn law_kelly_size(
    b: int,
    fill: int,
    capital: int,
    depth: int,
    p: int,
    share: int,
    s: int,
    fraction: int,
    stake: int,
)
    requires
        b > 0,
        0 <= capital,
        0 <= depth,
        10_000 <= p <= 990_000,
        p == fill || fill < p == 10_000 || 990_000 == p < fill,
        share * b <= b * p - (SCALE - p) * SCALE < (share + 1) * b,
        0 <= s,
        s * s <= p * SCALE < (s + 1) * (s + 1),
        fraction * SCALE <= share * s < (fraction + 1) * SCALE,
        stake * SCALE <= fraction * capital < (stake + 1) * SCALE,
    ensures
        ({
            let r = kelly_size(b, fill, capital, depth);
            &&& 0 <= r <= capital
            &&& 2 * r <= depth
            &&& stake <= 0 ==> r == 0
            &&& stake > 0 ==> r <= stake
            &&& r < stake ==> r == capital || depth < 2 * r + 2
        }),
{
    lemma_quotient_is(b * p - (SCALE - p) * SCALE, b, share);
    crate::math::lemma_root(p * SCALE, s);
    lemma_quotient_is(share * s, SCALE as int, fraction);
    lemma_quotient_is(fraction * capital, SCALE as int, stake);
    assert(smaller(larger(fill, 10_000), 990_000) == p);
    assert(kelly_fraction(b, p) == fraction);
}

/// A quotient that is rounded down is the only number with its bounds.
proof fn lemma_quotient_is(a: int, d: int, q: int)
    requires
        d > 0,
        q * d <= a < (q + 1) * d,
    ensures
        a / d == q,
{
    assert(a == q * d + (a - q * d) && a - q * d < d) by (nonlinear_arith)
        requires
            a < (q + 1) * d,
    ;
    vstd::arithmetic::div_mod::lemma_fundamental_div_mod_converse(a, d, q, a - q * d);
}

/// Where no profit is in sight, nothing is staked: where the pair yields nothing, or
/// where what is won at the fill probability does not exceed what is lost.
pub proof fn law_nothing_to_stake(b: int, fill: int, capital: int, depth: int)
    requires
        0 <= capital,
        0 <= depth,
        10_000 <= fill <= 990_000,
        b <= 0 || b * fill <= (SCALE - fill) * SCALE,
    ensures
        kelly_size(b, fill, capital, depth) == 0,
{
    if b > 0 {
        let won: int = b * fill - (SCALE - fill) * SCALE;
        lemma_not_positive(won, b);
        let share: int = won / b;
        law_root(fill * SCALE);
        let s: int = root(fill * SCALE);
        assert(share * s <= 0) by (nonlinear_arith)
            requires
                share <= 0,
                s >= 0,
        ;
        lemma_not_positive(share * s, SCALE as int);
        let fraction: int = (share * s) / (SCALE as int);
        assert(fraction * capital <= 0) by (nonlinear_arith)
            requires
                fraction <= 0,
                capital >= 0,
        ;
        lemma_not_positive(fraction * capital, SCALE as int);
    } else {
        assert(0 * capital == 0);
    }
}

proof fn lemma_not_positive(a: int, d: int)
    requires
        a <= 0,
        d > 0,
    ensures
        a / d <= 0,
{
    vstd::arithmetic::div_mod::lemma_fundamental_div_mod(a, d);
    let q: int = a / d;
    assert(q <= 0) by (nonlinear_arith)
        requires
            a == d * q + a % d,
            a % d >= 0,
            a <= 0,
            d > 0,
    ;
}

// ---------------------------------------------------------------------------
// Steps of a projection
// ---------------------------------------------------------------------------

/// One step of a projection moves a price by two of `t + 2` parts of the way towards its
/// target, rounded down, and keeps it a hundredth of the contraction away from zero and
/// one.
pub proof fn law_step(m: int, z: int, t: int, epsilon: int, low: int)
    requires
        0 <= t,
        0 <= epsilon <= UNIT,
        100 * low <= epsilon < 100 * low + 100,
    ensures
        ({
            let x = stepped(m, z, t, epsilon);
            let way = t * m + 2 * z;
            &&& low <= x <= UNIT - low
            &&& low < x < UNIT - low ==> (t + 2) * x <= way < (t + 2) * (x + 1)
            &&& x == low ==> way < (t + 2) * (low + 1)
            &&& x == UNIT - low ==> (t + 2) * (UNIT - low) <= way
        }),
{
    let d: int = t + 2;
    let way: int = t * m + 2 * z;
    vstd::arithmetic::div_mod::lemma_fundamental_div_mod(way, d);
    let q: int = way / d;
    assert(margin(epsilon) == low);
    assert(d * (q + 1) == d * q + d) by (nonlinear_arith);
    let x: int = stepped(m, z, t, epsilon);
    if q < low {
        assert(d * (q + 1) <= d * (low + 1)) by (nonlinear_arith)
            requires
                q < low,
                d > 0,
        ;
    }
    if q > UNIT - low {
        assert(d * (UNIT - low) <= d * q) by (nonlinear_arith)
            requires
                UNIT - low < q,
                d > 0,
        ;
    }
}

/// The contraction stays exactly where the gap is at least four times the gap at the
/// centre, by that contraction. Else it falls to the largest number that is at most a
/// half of it and by which the gap is that large, but not below the smallest one.
pub proof fn law_next_contraction(epsilon: int, fw_gap: int, interior_gap: int, x: int)
    requires
        MIN_EPSILON <= epsilon,
        interior_gap != 0,
    ensures
        ({
            let size = if interior_gap < 0 { -4 * interior_gap } else { 4 * interior_gap };
            let next = next_epsilon(epsilon, fw_gap, interior_gap);
            &&& size * epsilon <= fw_gap * UNIT ==> next == epsilon
            &&& size * epsilon > fw_gap * UNIT ==> {
                &&& next >= 10_000
                &&& next > 10_000 ==> 2 * next <= epsilon && size * next <= fw_gap * UNIT
                &&& 2 * x <= epsilon && size * x <= fw_gap * UNIT ==> x <= next
            }
        }),
{
    let size: int = 4 * magnitude(interior_gap);
    let a: int = fw_gap * UNIT;
    lemma_at_most_quotient(a, size, epsilon);
    lemma_at_most_quotient(a, size, x);
    lemma_at_most_quotient(a, size, next_epsilon(epsilon, fw_gap, interior_gap));
}

proof fn lemma_at_most_quotient(a: int, d: int, q: int)
    requires
        d > 0,
    ensures
        q <= a / d <==> d * q <= a,
{
    vstd::arithmetic::div_mod::lemma_fundamental_div_mod(a, d);
    let x: int = a / d;
    if q <= x {
        assert(d * q <= a) by (nonlinear_arith)
            requires
                q <= x,
                a == d * x + a % d,
                0 <= a % d,
                d > 0,
        ;
    } else {
        assert(a < d * q) by (nonlinear_arith)
            requires
                x + 1 <= q,
                a == d * x + a % d,
                a % d < d,
                d > 0,
        ;
    }
}

/// A contracted coordinate lies `epsilon` of the way from the vertex to the interior
/// point, rounded down: at the vertex for none of it, and at the interior point for all.
pub proof fn law_contraction(v: int, u: int, epsilon: int)
    ensures
        UNIT * blend(v, u, epsilon) <= UNIT * v + epsilon * (u - v) < UNIT * (blend(v, u, epsilon)
            + 1),
        blend(v, u, 0) == v,
        blend(v, u, UNIT as int) == u,
{
    let s: int = (UNIT - epsilon) * v + epsilon * u;
    vstd::arithmetic::div_mod::lemma_fundamental_div_mod(s, UNIT as int);
    assert(s == UNIT * v + epsilon * (u - v)) by (nonlinear_arith)
        requires
            s == (UNIT - epsilon) * v + epsilon * u,
    ;
    assert(UNIT * v + 0 * u == UNIT * v);
    assert(0 * v + UNIT * u == UNIT * u);
    assert((UNIT - UNIT) * v == 0) by (nonlinear_arith);
    vstd::arithmetic::div_mod::lemma_fundamental_div_mod(UNIT * v, UNIT as int);
    vstd::arithmetic::div_mod::lemma_fundamental_div_mod(UNIT * u, UNIT as int);
}

/// What one price contributes to the divergence is `m * ln(m / t)`, rounded down; where
/// either price is a hundred resolution steps or less, it contributes nothing.
pub proof fn law_divergence_term(m: int, t: int, f: spec_fn(int) -> int)
    requires
        -LOG_LIMIT <= f(m) <= LOG_LIMIT,
        -LOG_LIMIT <= f(t) <= LOG_LIMIT,
    ensures
        m > 100 && t > 100 ==> UNIT * divergence_term(m, t, f) <= m * (f(m) - f(t)) < UNIT * (
        divergence_term(m, t, f) + 1),
        m <= 100 || t <= 100 ==> divergence_term(m, t, f) == 0,
{
    vstd::arithmetic::div_mod::lemma_fundamental_div_mod(m * (f(m) - f(t)), UNIT as int);
}

/// A projection starts at the centre with a contraction of a tenth. Where the gap there
/// is at most what `alpha` leaves of the divergence, it ends with the centre after one
/// iteration; where no iteration is allowed, it has found nothing.
pub proof fn law_first_iteration(p: Problem, f: spec_fn(int) -> int)
    requires
        vertices_of(p.groups, p.implications, p.theta.len()).len() > 0,
    ensures
        ({
            let mid = centre(p.groups, p.implications, p.theta.len());
            let d = divergence(mid, p.theta, f);
            let gap = gap_at(mid, p.theta, p.groups, f);
            let r = projection(p, f);
            &&& start(mid).mu == mid
            &&& 10 * start(mid).epsilon == UNIT
            &&& p.max_iter > 0 && gap * UNIT <= (UNIT - p.alpha) * d ==> {
                &&& r.converged
                &&& r.iterations == 1
                &&& r.prices == mid
                &&& r.divergence == d
                &&& r.gap == Some(gap)
                &&& r.profit == if d > gap { d - gap } else { 0 }
            }
            &&& p.max_iter == 0 ==> !r.converged && r.profit == 0 && r.prices == mid && r.gap is None
        }),
{
    reveal_with_fuel(projected_from, 2);
}

/// Every iteration keeps the best that was found: its profit is at least that of the
/// prices before and of all that were best before, and one of the two.
pub proof fn law_best_is_kept(
    p: Problem,
    interior: Seq<i64>,
    f: spec_fn(int) -> int,
    t: int,
    s: Progress,
)
    ensures
        ({
            let next = advanced(p, interior, f, t, s);
            let gap = gap_at(s.mu, p.theta, p.groups, f);
            let d = divergence(s.mu, p.theta, f);
            &&& next.best_profit >= s.best_profit
            &&& s.best_profit >= 0 ==> next.best_profit >= d - gap
            &&& next.best_profit > s.best_profit ==> next.best_mu == s.mu && next.best_gap == Some(
                gap,
            ) && next.best_profit == larger(d - gap, 0)
            &&& next.best_profit == s.best_profit ==> next.best_mu == s.best_mu && next.best_gap
                == s.best_gap
        }),
{
}

/// A projection that does not converge finds the best of all its iterations: no less than
/// was best at any of them.
pub proof fn law_projection_finds_best(
    p: Problem,
    interior: Seq<i64>,
    f: spec_fn(int) -> int,
    t: int,
    s: Progress,
)
    requires
        s.best_profit >= 0,
    ensures
        ({
            let r = projected_from(p, interior, f, t, s);
            let d = divergence(s.mu, p.theta, f);
            let gap = gap_at(s.mu, p.theta, p.groups, f);
            &&& !r.converged ==> r.profit >= s.best_profit
            &&& !r.converged && t < p.max_iter ==> r.profit >= d - gap
            &&& r.converged ==> r.profit == larger(r.divergence - r.gap->0, 0)
            &&& r.divergence == divergence(r.prices, p.theta, f)
        }),
    decreases p.max_iter - t,
{
    if t < p.max_iter {
        let gap: int = gap_at(s.mu, p.theta, p.groups, f);
        if !close_enough(gap, divergence(s.mu, p.theta, f), p.alpha) {
            let next = advanced(p, interior, f, t, s);
            law_best_is_kept(p, interior, f, t, s);
            law_projection_finds_best(p, interior, f, t + 1, next);
        }
    }
}

/// The steepest outcome of a group is one of it, and none of it has a smaller slope; of
/// several with the same slope it is the first.
pub proof fn law_steepest(group: Seq<usize>, g: Seq<int>, j: int)
    requires
        0 <= j < group.len(),
    ensures
        group.contains(steepest(group, g)),
        g[steepest(group, g) as int] <= g[group[j] as int],
        g[steepest(group, g) as int] == g[group[j] as int] ==> exists|k: int|
            0 <= k <= j && #[trigger] group[k] == steepest(group, g),
{
    lemma_steepest_exists(group, g);
    let k = choose|k: int| is_steepest(group, g, k);
    assert(is_steepest(group, g, k));
    assert(group[k] == steepest(group, g));
    if k > j {
        assert(g[group[k] as int] < g[group[j] as int]);
    }
}

/// Every iteration moves every price towards the contracted corner in whose direction the
/// divergence falls most: towards one, less the contraction, where the outcome is the
/// steepest of its group, and else towards the contraction's share of the centre. The
/// slopes are those of the divergence from the market's prices.
pub proof fn law_next_prices(
    p: Problem,
    interior: Seq<i64>,
    f: spec_fn(int) -> int,
    t: int,
    s: Progress,
    i: int,
)
    requires
        0 <= t,
        0 <= i < s.mu.len(),
        s.mu.len() <= interior.len(),
        between_zero_and_one(interior),
        0 <= s.mu[i] <= UNIT,
        MIN_EPSILON <= s.epsilon <= UNIT,
    ensures
        ({
            let next = advanced(p, interior, f, t, s);
            let g = slopes(s.mu, p.theta, f);
            let chosen = exists|k: int|
                0 <= k < p.groups.len() && steepest(#[trigger] p.groups[k], g) == i;
            let target = if chosen {
                UNIT * UNIT - s.epsilon * (UNIT - interior[i])
            } else {
                s.epsilon * interior[i]
            };
            let x = next.mu[i] as int;
            let low = next.epsilon / 100;
            &&& next.mu.len() == s.mu.len()
            &&& next.epsilon == next_epsilon(
                s.epsilon,
                gap_at(s.mu, p.theta, p.groups, f),
                gap_at(interior, p.theta, p.groups, f),
            )
            &&& low <= x <= UNIT - low
            &&& low < x < UNIT - low ==> {
                &&& UNIT * (t + 2) * x <= UNIT * t * s.mu[i] + 2 * target
                &&& UNIT * t * s.mu[i] + 2 * target < UNIT * (t + 2) * (x + 1) + 2 * UNIT
            }
        }),
{
    let next = advanced(p, interior, f, t, s);
    let g = slopes(s.mu, p.theta, f);
    let chosen = is_chosen(p.groups, g, p.groups.len() as int, i);
    let v: int = if chosen { UNIT as int } else { 0 };
    let u: int = interior[i] as int;
    let e: int = s.epsilon;
    assert(0 <= interior[i] <= UNIT);
    let z: int = blend(v, u, e);
    lemma_blend_between(v, u, e, 0, UNIT as int);
    let corner = descent_corner(p.groups, g, s.mu.len());
    assert(corner[i] == v);
    assert(descent(p.groups, g, interior, e, s.mu.len())[i] == z);
    law_contraction(v, u, e);
    law_contraction_shrinks(e, gap_at(s.mu, p.theta, p.groups, f), gap_at(
        interior,
        p.theta,
        p.groups,
        f,
    ));
    let m: int = s.mu[i] as int;
    let low: int = next.epsilon / 100;
    law_step(m, z, t, next.epsilon, low);
    let x: int = stepped(m, z, t, next.epsilon);
    assert(next.mu[i] == x);
    let target: int = UNIT * v + e * (u - v);
    if chosen {
        assert(target == UNIT * UNIT - e * (UNIT - u)) by (nonlinear_arith)
            requires
                target == UNIT * v + e * (u - v),
                v == UNIT,
        ;
    } else {
        assert(target == e * u) by (nonlinear_arith)
            requires
                target == UNIT * v + e * (u - v),
                v == 0,
        ;
    }
    if low < x < UNIT - low {
        assert(UNIT * (t + 2) * x <= UNIT * t * m + 2 * target && UNIT * t * m + 2 * target < UNIT
            * (t + 2) * (x + 1) + 2 * UNIT) by (nonlinear_arith)
            requires
                (t + 2) * x <= t * m + 2 * z < (t + 2) * (x + 1),
                UNIT * z <= target < UNIT * (z + 1),
                UNIT > 0,
        ;
    }
}

/// The slope of the divergence is that of the negative entropy, less the logarithm of the
/// market's price; the latter is the logarithm and one.
pub proof fn law_slopes(m: int, t: int, f: spec_fn(int) -> int)
    requires
        m > 1,
        t > PRICE_FLOOR,
        -LOG_LIMIT <= f(m) <= LOG_LIMIT,
        -LOG_LIMIT <= f(t) <= LOG_LIMIT,
    ensures
        slope(m, t, f) + f(t) == entropy_slope(m, f),
        entropy_slope(m, f) - f(m) == UNIT,
        slope(m, m, f) == UNIT || m <= PRICE_FLOOR,
{
}

/// The prices of a pair are fair within a tolerance exactly where they add up to one
/// within it.
pub proof fn law_fair_pair(x: i64, y: i64, tolerance: int)
    ensures
        feasible(seq![seq![0usize, 1usize]], Seq::empty(), seq![x, y], tolerance) <==> UNIT
            - tolerance <= x + y <= UNIT + tolerance,
{
    let groups = seq![seq![0usize, 1usize]];
    let prices = seq![x, y];
    reveal_with_fuel(group_sum, 3);
    assert(groups[0][0] == 0 && groups[0][1] == 1);
    assert(group_sum(groups[0], prices, 2) == x + y);
    assert(group_fair(groups[0], prices, tolerance) <==> UNIT - tolerance <= x + y <= UNIT
        + tolerance);
}

/// What is fair within a tolerance is fair within a larger one; where one outcome implies
/// another, it costs no more than that, within the tolerance.
pub proof fn law_tolerance(
    groups: Seq<Seq<usize>>,
    implications: Seq<(usize, usize)>,
    prices: Seq<i64>,
    narrow: int,
    broad: int,
    k: int,
)
    requires
        narrow <= broad,
        feasible(groups, implications, prices, narrow),
        0 <= k < implications.len(),
        implications[k].0 < prices.len(),
        implications[k].1 < prices.len(),
    ensures
        feasible(groups, implications, prices, broad),
        prices[implications[k].0 as int] - prices[implications[k].1 as int] <= narrow,
{
    assert forall|h: int| 0 <= h < groups.len() implies group_fair(
        #[trigger] groups[h],
        prices,
        broad,
    ) by {
        assert(group_fair(groups[h], prices, narrow));
    }
    assert forall|h: int| 0 <= h < implications.len() implies implies_fairly(
        #[trigger] implications[h],
        prices,
        broad,
    ) by {
        assert(implies_fairly(implications[h], prices, narrow));
    }
    assert(implies_fairly(implications[k], prices, narrow));
}

/// The sum of a column of price vectors is that of its prices.
pub proof fn law_column_sum(vectors: Seq<PriceVector>, i: int, n: nat)
    requires
        n <= vectors.len(),
    ensures
        column_sum(vectors, i, n as int) == total(
            Seq::new(n, |k: int| vectors[k].prices@[i]),
        ),
    decreases n,
{
    if n > 0 {
        law_column_sum(vectors, i, (n - 1) as nat);
        let all = Seq::new(n, |k: int| vectors[k].prices@[i]);
        assert(all.drop_last() =~= Seq::new((n - 1) as nat, |k: int| vectors[k].prices@[i]));
    }
}

/// The mean of price vectors is that of the prices in each column, rounded down.
pub proof fn law_column_mean(vectors: Seq<PriceVector>, i: int)
    requires
        vectors.len() > 0,
    ensures
        ({
            let n = vectors.len();
            let sum = total(Seq::new(n, |k: int| vectors[k].prices@[i]));
            column_mean(vectors, i) * n <= sum < (column_mean(vectors, i) + 1) * n
        }),
{
    law_column_sum(vectors, i, vectors.len());
    lemma_rounded(column_sum(vectors, i, vectors.len() as int), vectors.len() as int);
}

/// The centre is the mean of the corners in each coordinate, rounded down.
pub proof fn law_centre_is_mean(
    groups: Seq<Seq<usize>>,
    implications: Seq<(usize, usize)>,
    n: nat,
    i: int,
)
    requires
        vertices_of(groups, implications, n).len() > 0,
        0 <= i < n,
    ensures
        ({
            let all = vertices_of(groups, implications, n);
            let c = centre(groups, implications, n)[i] as int;
            let sum = total(Seq::new(all.len(), |k: int| all[k][i]));
            c * all.len() <= sum < (c + 1) * all.len()
        }),
{
    let all = vertices_of(groups, implications, n);
    let m: int = all.len() as int;
    lemma_coordinate_total(all, i, all.len());
    lemma_coordinate_sum(groups, implications, n, i, m);
    lemma_div_bound(coordinate_sum(all, i, m), m, 0, UNIT as int);
    lemma_rounded(coordinate_sum(all, i, m), m);
}

proof fn lemma_coordinate_total(corners: Seq<Seq<i64>>, i: int, n: nat)
    requires
        n <= corners.len(),
    ensures
        coordinate_sum(corners, i, n as int) == total(Seq::new(n, |k: int| corners[k][i])),
    decreases n,
{
    if n > 0 {
        lemma_coordinate_total(corners, i, (n - 1) as nat);
        let all = Seq::new(n, |k: int| corners[k][i]);
        assert(all.drop_last() =~= Seq::new((n - 1) as nat, |k: int| corners[k][i]));
    }
}

proof fn lemma_rounded(a: int, d: int)
    requires
        d > 0,
    ensures
        (a / d) * d <= a < (a / d + 1) * d,
{
    vstd::arithmetic::div_mod::lemma_fundamental_div_mod(a, d);
    let q: int = a / d;
    assert(q * d <= a < (q + 1) * d) by (nonlinear_arith)
        requires
            a == d * q + a % d,
            0 <= a % d < d,
    ;
}

} // verus!
