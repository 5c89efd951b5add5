//! What holds of the statistics of trades and of what is shown of them.

use vstd::prelude::*;
use vstd::arithmetic::div_mod::lemma_fundamental_div_mod;
use crate::dashboard::{limit_used, metrics};
use crate::risk::{
    deepest_fall, deviation, gains, law_drawdown_is_largest_fall, losses, mean, portfolio,
    shortfall, spread, value_at_risk, ConfidenceLevel,
};
use crate::tail_laws::below;
use crate::units::{held, lemma_div_bound, total, SCALE};

verus! {

// ---------------------------------------------------------------------------
// Gains and losses
// ---------------------------------------------------------------------------

/// Gains and losses make up all results: every gain is positive, every loss negative,
/// together they come to the sum of all, and there are as many of each as there are
/// results above and below zero.
pub proof fn law_gains_and_losses(s: Seq<i64>)
    ensures
        forall|i: int| 0 <= i < gains(s).len() ==> #[trigger] gains(s)[i] > 0,
        forall|i: int| 0 <= i < losses(s).len() ==> #[trigger] losses(s)[i] < 0,
        total(gains(s)) + total(losses(s)) == total(s),
        gains(s).len() == s.len() - below(s, 1, s.len() as int),
        losses(s).len() == below(s, 0, s.len() as int),
        total(gains(s)) >= gains(s).len(),
        total(losses(s)) <= -losses(s).len(),
    decreases s.len(),
{
    reveal(Seq::filter);
    if s.len() > 0 {
        let rest = s.drop_last();
        let x = s.last();
        law_gains_and_losses(rest);
        lemma_below_front(s, 1, s.len() - 1);
        lemma_below_front(s, 0, s.len() - 1);
        if x > 0 {
            assert(gains(s) == gains(rest).push(x));
            assert(gains(s).drop_last() =~= gains(rest));
        } else if x < 0 {
            assert(losses(s) == losses(rest).push(x));
            assert(losses(s).drop_last() =~= losses(rest));
        }
    }
}

proof fn lemma_below_front(s: Seq<i64>, x: int, n: int)
    requires
        0 <= n < s.len(),
    ensures
        below(s, x, n) == below(s.drop_last(), x, n),
    decreases n,
{
    if n > 0 {
        lemma_below_front(s, x, n - 1);
        assert(s[n - 1] == s.drop_last()[n - 1]);
    }
}

/// The mean of results, rounded down, lies between the smallest and the largest.
pub proof fn law_mean(s: Seq<i64>, lo: int, hi: int)
    requires
        s.len() > 0,
        forall|i: int| 0 <= i < s.len() ==> lo <= #[trigger] s[i] <= hi,
    ensures
        lo <= mean(s) <= hi,
        mean(s) * s.len() <= total(s) < (mean(s) + 1) * s.len(),
{
    let n: int = s.len() as int;
    lemma_total_between(s, lo, hi);
    lemma_div_bound(total(s), n, lo, hi);
    lemma_quotient(total(s), n);
}

proof fn lemma_total_between(s: Seq<i64>, lo: int, hi: int)
    requires
        forall|i: int| 0 <= i < s.len() ==> lo <= #[trigger] s[i] <= hi,
    ensures
        lo * s.len() <= total(s) <= hi * s.len(),
    decreases s.len(),
{
    if s.len() > 0 {
        let n: int = s.len() as int;
        assert forall|i: int| 0 <= i < n - 1 implies lo <= #[trigger] s.drop_last()[i] <= hi by {
            assert(lo <= s[i] <= hi);
        }
        lemma_total_between(s.drop_last(), lo, hi);
        assert(lo <= s[n - 1] <= hi);
        assert(lo * n == lo * (n - 1) + lo) by (nonlinear_arith);
        assert(hi * n == hi * (n - 1) + hi) by (nonlinear_arith);
    } else {
        assert(lo * 0 == 0 && hi * 0 == 0);
    }
}

/// A quotient, rounded down.
proof fn lemma_quotient(a: int, d: int)
    requires
        d > 0,
    ensures
        (a / d) * d <= a < (a / d + 1) * d,
{
    lemma_fundamental_div_mod(a, d);
    let q: int = a / d;
    assert(q * d <= a < (q + 1) * d) by (nonlinear_arith)
        requires
            a == d * q + a % d,
            0 <= a % d < d,
    ;
}

// ---------------------------------------------------------------------------
// The portfolio
// ---------------------------------------------------------------------------

/// The statistics count every trade and add up all results; the share of gains is that
/// of the results above zero.
pub proof fn law_portfolio_counts(s: Seq<i64>, daily_pnl: i64)
    requires
        0 < s.len() <= usize::MAX,
    ensures
        ({
            let r = portfolio(s, daily_pnl);
            let n = s.len() as int;
            &&& r.total_trades == n
            &&& r.total_pnl == held(total(s))
            &&& r.daily_pnl == daily_pnl
            &&& r.win_rate * n <= (n - below(s, 1, n)) * SCALE < (r.win_rate + 1) * n
        }),
{
    let n: int = s.len() as int;
    law_gains_and_losses(s);
    s.lemma_filter_len(|p: i64| p > 0);
    let w: int = gains(s).len() as int;
    assert(0 <= w * SCALE <= 1_000_000 * n) by (nonlinear_arith)
        requires
            0 <= w <= n,
            SCALE == 1_000_000,
    ;
    lemma_div_bound(w * SCALE, n, 0, 1_000_000);
    lemma_quotient(w * SCALE, n);
}

/// The mean gain and the mean loss are those of the gains and of the losses alone,
/// and zero where there are none.
pub proof fn law_portfolio_means(s: Seq<i64>, daily_pnl: i64)
    requires
        0 < s.len(),
    ensures
        ({
            let r = portfolio(s, daily_pnl);
            let w = gains(s).len();
            let l = losses(s).len();
            &&& w == 0 ==> r.avg_win == 0
            &&& w > 0 ==> r.avg_win > 0 && r.avg_win * w <= total(gains(s)) < (r.avg_win + 1) * w
            &&& l == 0 ==> r.avg_loss == 0
            &&& l > 0 ==> r.avg_loss < 0 && r.avg_loss * l <= total(losses(s)) < (r.avg_loss + 1)
                * l
        }),
{
    law_gains_and_losses(s);
    if gains(s).len() > 0 {
        law_mean(gains(s), 1, i64::MAX as int);
    }
    if losses(s).len() > 0 {
        law_mean(losses(s), i64::MIN as int, -1);
    }
}

/// The profit factor is what was gained for one unit of loss; there is none exactly
/// where nothing was lost.
pub proof fn law_profit_factor(s: Seq<i64>, daily_pnl: i64)
    requires
        0 < s.len(),
    ensures
        ({
            let r = portfolio(s, daily_pnl);
            let lost = -total(losses(s));
            &&& r.profit_factor is None <==> forall|i: int| 0 <= i < s.len() ==> #[trigger] s[i] >= 0
            &&& r.profit_factor matches Some(x) ==> {
                &&& x >= 0
                &&& x < i64::MAX ==> x * lost <= total(gains(s)) * SCALE < (x + 1) * lost
            }
        }),
{
    law_gains_and_losses(s);
    lemma_any_below(s, 0, s.len() as int);
    let lost: int = -total(losses(s));
    if losses(s).len() > 0 {
        let a: int = total(gains(s)) * SCALE;
        lemma_quotient(a, lost);
        assert(0 <= a / lost) by {
            vstd::arithmetic::div_mod::lemma_div_pos_is_pos(a, lost);
        }
    }
}

/// Some result is below `x` exactly where one or more are counted.
proof fn lemma_any_below(s: Seq<i64>, x: int, n: int)
    requires
        0 <= n <= s.len(),
    ensures
        below(s, x, n) >= 0,
        below(s, x, n) == 0 <==> forall|i: int| 0 <= i < n ==> #[trigger] s[i] >= x,
    decreases n,
{
    if n > 0 {
        lemma_any_below(s, x, n - 1);
        if below(s, x, n) == 0 {
            assert forall|i: int| 0 <= i < n implies #[trigger] s[i] >= x by {
                if i == n - 1 {
                    assert(s[n - 1] >= x);
                }
            }
        } else if s[n - 1] >= x {
            let i = choose|i: int| 0 <= i < n - 1 && #[trigger] s[i] < x;
            assert(s[i] < x);
        } else {
            assert(s[n - 1] < x);
        }
    }
}

/// The ratio of mean and deviation: what the mean result is for one unit of
/// deviation, rounded down; zero where there is no deviation.
pub proof fn law_sharpe_ratio(s: Seq<i64>, daily_pnl: i64)
    requires
        2 <= s.len(),
    ensures
        ({
            let r = portfolio(s, daily_pnl);
            let dev = deviation(s, s.len() - 1);
            &&& dev > 0 && i64::MIN < r.sharpe_ratio < i64::MAX ==> r.sharpe_ratio * dev <= mean(s)
                * SCALE < (r.sharpe_ratio + 1) * dev
            &&& dev <= 0 ==> r.sharpe_ratio == 0
        }),
{
    let dev: int = deviation(s, s.len() - 1);
    if dev > 0 {
        lemma_quotient(mean(s) * SCALE, dev);
    }
}

/// The drawdown of the statistics is the largest difference between a running sum of
/// results and a later one.
pub proof fn law_portfolio_drawdown(s: Seq<i64>, daily_pnl: i64, i: int, j: int)
    requires
        0 < s.len(),
        0 <= i <= j <= s.len(),
    ensures
        ({
            let r = portfolio(s, daily_pnl);
            &&& r.max_drawdown >= 0
            &&& r.max_drawdown < i64::MAX ==> {
                &&& total(s.take(i)) - total(s.take(j)) <= r.max_drawdown
                &&& exists|a: int, b: int|
                    0 <= a <= b <= s.len() && (#[trigger] total(s.take(a))) - (#[trigger] total(
                        s.take(b),
                    )) == r.max_drawdown
            }
        }),
{
    law_drawdown_is_largest_fall(s);
    assert(total(s.take(0)) - total(s.take(0)) <= deepest_fall(s, s.len() as int));
}

/// The risk figures that are shown are those of the trades that are remembered: the
/// values at risk and the mean loss beyond at their own levels, and zero where there
/// are too few trades for them.
pub proof fn law_metrics(s: Seq<i64>, daily_pnl: i64, limit: i64)
    requires
        0 < s.len() <= usize::MAX,
    ensures
        ({
            let m = metrics(portfolio(s, daily_pnl), limit);
            let r = portfolio(s, daily_pnl);
            &&& m.daily_pnl == daily_pnl
            &&& m.daily_var_limit == limit
            &&& m.total_trades == s.len()
            &&& value_at_risk(s, ConfidenceLevel::Pct95) matches Some(v) ==> m.var_95 == v
            &&& value_at_risk(s, ConfidenceLevel::Pct99) matches Some(v) ==> m.var_99 == v
            &&& shortfall(s, ConfidenceLevel::Pct95) matches Some(v) ==> m.cvar_95 == v
            &&& s.len() < 30 ==> m.var_95 == 0 && m.var_99 == 0 && m.cvar_95 == 0
            &&& m.win_rate == r.win_rate
            &&& m.profit_factor == r.profit_factor
            &&& m.sharpe_ratio == r.sharpe_ratio
            &&& m.max_drawdown == r.max_drawdown
        }),
{
}

/// The used share of a day's limit, in hundredths: a gain uses nothing, and a loss the
/// part that it is of the limit.
pub proof fn law_limit_used_share(daily_pnl: int, limit: int)
    requires
        daily_pnl < 0,
    ensures
        limit == 0 ==> limit_used(daily_pnl, limit) is None,
        limit > 0 ==> limit_used(daily_pnl, limit) is Some,
        limit < 0 ==> limit_used(daily_pnl, limit) == Some(0i64),
        limit_used(daily_pnl, limit) matches Some(x) ==> limit > 0 && x < i64::MAX ==> x * limit
            <= -daily_pnl * 100 * SCALE < (x + 1) * limit,
{
    if limit > 0 {
        let a: int = -daily_pnl * 100_000_000;
        lemma_quotient(a, limit);
        vstd::arithmetic::div_mod::lemma_div_pos_is_pos(a, limit);
    } else if limit < 0 {
        let a: int = daily_pnl * 100_000_000;
        lemma_quotient(a, -limit);
        let q: int = a / (-limit);
        assert(q <= 0) by (nonlinear_arith)
            requires
                q * -limit <= a,
                a < 0,
                limit < 0,
        ;
    }
}

// ---------------------------------------------------------------------------
// Deviations
// ---------------------------------------------------------------------------

/// The deviation of results is the root of their mean squared distance from the mean,
/// rounded down.
pub proof fn law_deviation(s: Seq<i64>, divisor: int)
    requires
        s.len() > 0,
        divisor > 0,
        spread(s, mean(s), s.len() as int) <= u128::MAX,
    ensures
        ({
            let d = deviation(s, divisor);
            &&& d >= 0
            &&& d * d * divisor <= spread(s, mean(s), s.len() as int) < (d + 1) * (d + 1) * divisor
        }),
{
    let x: int = spread(s, mean(s), s.len() as int);
    lemma_spread_positive(s, mean(s), s.len() as int);
    let y: int = x / divisor;
    lemma_quotient(x, divisor);
    vstd::arithmetic::div_mod::lemma_div_pos_is_pos(x, divisor);
    let d: int = deviation(s, divisor);
    crate::math_laws::law_root(y);
    assert(d * d * divisor <= x < (d + 1) * (d + 1) * divisor) by (nonlinear_arith)
        requires
            d * d <= y < (d + 1) * (d + 1),
            y * divisor <= x < (y + 1) * divisor,
            divisor > 0,
    ;
}

/// Squared distances add up to nothing exactly where every result is at the mean.
proof fn lemma_spread_positive(s: Seq<i64>, m: int, n: int)
    requires
        0 <= n <= s.len(),
    ensures
        spread(s, m, n) >= 0,
        spread(s, m, n) == 0 <==> forall|i: int| 0 <= i < n ==> #[trigger] s[i] == m,
    decreases n,
{
    if n > 0 {
        lemma_spread_positive(s, m, n - 1);
        let d: int = s[n - 1] - m;
        assert(d * d >= 0) by (nonlinear_arith);
        assert(d * d == 0 <==> d == 0) by (nonlinear_arith);
        if spread(s, m, n) == 0 {
            assert forall|i: int| 0 <= i < n implies #[trigger] s[i] == m by {
                if i == n - 1 {
                    assert(s[n - 1] == m);
                }
            }
        } else if s[n - 1] == m {
            let i = choose|i: int| 0 <= i < n - 1 && #[trigger] s[i] != m;
            assert(s[i] != m);
        } else {
            assert(s[n - 1] != m);
        }
    }
}

/// The squared distances of results from one point are those from another, with the
/// difference of the two points counted in.
pub proof fn law_spread_of_shift(s: Seq<i64>, m: int, c: int, n: int)
    requires
        0 <= n <= s.len(),
    ensures
        spread(s, m, n) == spread(s, c, n) + n * (m * m - c * c) - 2 * (m - c) * total(s.take(n)),
    decreases n,
{
    if n > 0 {
        law_spread_of_shift(s, m, c, n - 1);
        crate::units::lemma_total_step(s, n - 1);
        let x: int = s[n - 1] as int;
        let before: int = total(s.take(n - 1));
        assert((x - m) * (x - m) == (x - c) * (x - c) + (m * m - c * c) - 2 * (m - c) * x)
            by (nonlinear_arith);
        assert(n * (m * m - c * c) == (n - 1) * (m * m - c * c) + (m * m - c * c))
            by (nonlinear_arith);
        assert(2 * (m - c) * (before + x) == 2 * (m - c) * before + 2 * (m - c) * x)
            by (nonlinear_arith);
    } else {
        assert(s.take(n).len() == 0);
        assert(n * (m * m - c * c) == 0) by (nonlinear_arith)
            requires
                n == 0,
        ;
        assert(2 * (m - c) * 0 == 0);
    }
}

} // verus!
