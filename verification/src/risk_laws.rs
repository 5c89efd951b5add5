//! What holds of the values at risk, of the limits and of the recommendations.

use vstd::prelude::*;
use vstd::arithmetic::div_mod::{
    lemma_div_is_ordered, lemma_div_pos_is_pos, lemma_fundamental_div_mod,
    lemma_fundamental_div_mod_converse,
};
use crate::order::{ascending, lemma_ascending};
use crate::risk::{
    above_capital_share, advice, deviation, draw, edge_loss, fill_chance, fill_exponent, gains,
    law_edge_loss_grows, law_mean_loss_at_least_edge, limit_verdict, loss_of, loss_total, mean,
    mean_loss, normal_value_at_risk, portfolio, recorded, seed_after, shortfall, shortfall_count,
    simulated, spread, tail_edge, tail_size, value_at_risk, Advice, ConfidenceLevel, LimitVerdict,
    OpportunityRiskProfile, PnLRecord, VaREngine, MAX_TRADES, MIN_TRADES, SCENARIOS,
};
use crate::text::fixed_text;
use crate::units::{
    held, larger, lemma_div_bound, lemma_total_bounds, quotient, smaller, total, SCALE,
};

verus! {

// ---------------------------------------------------------------------------
// Results that are remembered
// ---------------------------------------------------------------------------

/// The mean loss of the tail is at least the value at risk.
pub proof fn law_shortfall_at_least_value_at_risk(s: Seq<i64>, level: ConfidenceLevel)
    ensures
        value_at_risk(s, level) is Some <==> shortfall(s, level) is Some,
        value_at_risk(s, level) matches Some(v) ==> shortfall(s, level) matches Some(c) && v <= c,
{
    let n: int = s.len() as int;
    if n >= MIN_TRADES {
        let edge: int = tail_edge(level.tail_share(), n);
        let count: int = shortfall_count(level.tail_share(), n);
        lemma_tail_size(level.tail_share(), n);
        law_mean_loss_at_least_edge(s, count, edge);
        lemma_mean_loss_range(s, count);
    }
}

/// A share of `n` results is between none and all of them.
proof fn lemma_tail_size(share: int, n: int)
    requires
        0 <= share <= SCALE,
        0 <= n,
    ensures
        0 <= tail_size(share, n) <= n,
{
    assert(0 <= share * n <= n * 1_000_000) by (nonlinear_arith)
        requires
            0 <= share <= 1_000_000,
            0 <= n,
    ;
    lemma_div_bound(share * n, SCALE as int, 0, n);
}

/// A mean of losses is within the range of one.
proof fn lemma_mean_loss_range(s: Seq<i64>, count: int)
    requires
        0 < count <= s.len(),
    ensures
        0 <= mean_loss(s, count) <= i64::MAX,
{
    lemma_losses_at_most(ascending(s), count, i64::MAX as int);
    lemma_div_bound(loss_total(ascending(s), count), count, 0, i64::MAX as int);
}

proof fn lemma_losses_at_most(t: Seq<i64>, n: int, top: int)
    requires
        0 <= n,
        forall|i: int| 0 <= i < n ==> loss_of(#[trigger] t[i] as int) <= top,
    ensures
        0 <= loss_total(t, n) <= top * n,
    decreases n,
{
    if n > 0 {
        lemma_losses_at_most(t, n - 1, top);
        assert(top * n == top * (n - 1) + top) by (nonlinear_arith);
        assert(loss_of(t[n - 1] as int) <= top);
    } else {
        assert(top * 0 == 0);
    }
}

/// More confidence, no less value at risk.
pub proof fn law_value_at_risk_grows_with_confidence(
    s: Seq<i64>,
    more: ConfidenceLevel,
    less: ConfidenceLevel,
)
    requires
        more.tail_share() <= less.tail_share(),
    ensures
        value_at_risk(s, less) matches Some(v) ==> value_at_risk(s, more) matches Some(w) && 0 <= v
            <= w,
{
    if s.len() >= MIN_TRADES {
        law_edge_loss_grows(s, more.tail_share(), less.tail_share());
    }
}

/// Where nothing was lost, nothing is at risk.
pub proof fn law_no_losses_no_value_at_risk(s: Seq<i64>, level: ConfidenceLevel)
    requires
        s.len() >= MIN_TRADES,
        forall|i: int| 0 <= i < s.len() ==> #[trigger] s[i] >= 0,
    ensures
        value_at_risk(s, level) == Some(0i64),
        shortfall(s, level) == Some(0i64),
{
    let n: int = s.len() as int;
    let t = ascending(s);
    lemma_ascending(s);
    lemma_tail_size(level.tail_share(), n);
    assert forall|i: int| 0 <= i < n implies loss_of(#[trigger] t[i] as int) <= 0 by {
        lemma_sorted_member(s, i);
    }
    let count: int = shortfall_count(level.tail_share(), n);
    assert(loss_of(t[tail_edge(level.tail_share(), n)] as int) <= 0);
    lemma_losses_at_most(t, count, 0);
    assert(0 * count == 0);
    lemma_div_bound(loss_total(t, count), count, 0, 0);
}

/// A sorted result is one of the results.
proof fn lemma_sorted_member(s: Seq<i64>, i: int)
    requires
        0 <= i < s.len(),
    ensures
        s.contains(ascending(s)[i]),
{
    lemma_ascending(s);
    let t = ascending(s);
    t.to_multiset_ensures();
    s.to_multiset_ensures();
    assert(t.contains(t[i]));
    assert(t.to_multiset().count(t[i]) > 0);
    assert(s.to_multiset().count(t[i]) > 0);
}

// ---------------------------------------------------------------------------
// Normally distributed results
// ---------------------------------------------------------------------------

/// Every result of `t` is that of `s` and `c` more.
pub open spec fn raised_by(s: Seq<i64>, c: int, t: Seq<i64>) -> bool {
    &&& t.len() == s.len()
    &&& forall|i: int| 0 <= i < s.len() ==> #[trigger] t[i] == s[i] + c
}

/// Results that are all better by `c` have a value at risk that is lower by `c`, as
/// far as it stays above zero: better results never raise it.
pub proof fn law_parametric_shift(s: Seq<i64>, c: int, t: Seq<i64>, level: ConfidenceLevel)
    requires
        raised_by(s, c, t),
        c >= 0,
    ensures
        normal_value_at_risk(s, level) is Some <==> normal_value_at_risk(t, level) is Some,
        normal_value_at_risk(s, level) matches Some(v) ==> v < i64::MAX ==> normal_value_at_risk(
            t,
            level,
        ) == Some(larger(v - c, 0) as i64),
{
    if s.len() >= MIN_TRADES {
        let n: int = s.len() as int;
        lemma_mean_shift(s, c, t);
        lemma_spread_shift(s, c, t, mean(s), n);
        lemma_mean_range(s);
        let v: int = (level.deviations() * deviation(s, n - 1)) / (SCALE as int) - mean(s);
        assert(deviation(t, n - 1) == deviation(s, n - 1));
        assert(normal_value_at_risk(s, level) == Some(larger(held(v), 0) as i64));
        assert(normal_value_at_risk(t, level) == Some(larger(held(v - c), 0) as i64));
    }
}

/// The value at risk of normally distributed results is the mean loss and so many
/// deviations as the level of confidence has, rounded down; there is one from thirty
/// results on, and more confidence makes it no smaller.
pub proof fn law_parametric_value(
    s: Seq<i64>,
    level: ConfidenceLevel,
    less: ConfidenceLevel,
)
    requires
        less.deviations() <= level.deviations(),
    ensures
        normal_value_at_risk(s, level) is Some <==> s.len() >= 30,
        normal_value_at_risk(s, level) matches Some(v) ==> {
            let dev = deviation(s, s.len() - 1);
            &&& v >= 0
            &&& 0 < v < i64::MAX ==> (v + mean(s)) * SCALE <= level.deviations() * dev < (v + mean(s)
                + 1) * SCALE
            &&& v == 0 ==> level.deviations() * dev < (mean(s) + 1) * SCALE
            &&& dev >= 0 ==> normal_value_at_risk(s, less)->0 <= v
        },
{
    if s.len() >= 30 {
        let dev: int = deviation(s, s.len() - 1);
        let x: int = level.deviations() * dev;
        let y: int = less.deviations() * dev;
        lemma_fundamental_div_mod(x, SCALE as int);
        lemma_fundamental_div_mod(y, SCALE as int);
        if dev >= 0 {
            assert(y <= x) by (nonlinear_arith)
                requires
                    x == level.deviations() * dev,
                    y == less.deviations() * dev,
                    less.deviations() <= level.deviations(),
                    dev >= 0,
            ;
        }
    }
}

/// The mean of results is within their range.
proof fn lemma_mean_range(s: Seq<i64>)
    requires
        s.len() > 0,
    ensures
        i64::MIN <= mean(s) <= i64::MAX,
{
    lemma_total_bounds(s);
    let n: int = s.len() as int;
    assert(i64::MIN * n == n * i64::MIN) by (nonlinear_arith);
    assert(i64::MAX * n == n * i64::MAX) by (nonlinear_arith);
    lemma_div_bound(total(s), n, i64::MIN as int, i64::MAX as int);
}

proof fn lemma_total_shift(s: Seq<i64>, c: int, t: Seq<i64>)
    requires
        raised_by(s, c, t),
    ensures
        total(t) == total(s) + c * s.len(),
    decreases s.len(),
{
    if s.len() > 0 {
        let n: int = s.len() as int;
        assert forall|i: int| 0 <= i < n - 1 implies #[trigger] t.drop_last()[i]
            == s.drop_last()[i] + c by {
            assert(t[i] == s[i] + c);
        }
        lemma_total_shift(s.drop_last(), c, t.drop_last());
        assert(t[n - 1] == s[n - 1] + c);
        assert(c * n == c * (n - 1) + c) by (nonlinear_arith);
    } else {
        assert(c * 0 == 0);
    }
}

proof fn lemma_mean_shift(s: Seq<i64>, c: int, t: Seq<i64>)
    requires
        raised_by(s, c, t),
        s.len() > 0,
    ensures
        mean(t) == mean(s) + c,
{
    lemma_total_shift(s, c, t);
    let n: int = s.len() as int;
    lemma_fundamental_div_mod(total(s), n);
    let q: int = total(s) / n;
    let r: int = total(s) % n;
    assert(total(t) == (q + c) * n + r) by (nonlinear_arith)
        requires
            total(t) == total(s) + c * n,
            total(s) == n * q + r,
    ;
    lemma_fundamental_div_mod_converse(total(t), n, q + c, r);
}

proof fn lemma_spread_shift(s: Seq<i64>, c: int, t: Seq<i64>, m: int, n: int)
    requires
        raised_by(s, c, t),
        0 <= n <= s.len(),
    ensures
        spread(t, m + c, n) == spread(s, m, n),
    decreases n,
{
    if n > 0 {
        lemma_spread_shift(s, c, t, m, n - 1);
        assert(t[n - 1] == s[n - 1] + c);
        assert(t[n - 1] - (m + c) == s[n - 1] - m);
    }
}

/// What is remembered: never more than there is room for, the new result last,
/// and before it the latest of those that were there.
pub proof fn law_window(before: VaREngine, record: PnLRecord, day: int, after: VaREngine)
    requires
        recorded(before, record, day, after),
        before.history().len() <= MAX_TRADES,
    ensures
        0 < after.history().len() <= MAX_TRADES,
        after.history().len() == smaller(before.history().len() as int + 1, 500),
        after.history().last() == record,
        after.current_day == day,
        after.daily_var_limit == before.daily_var_limit,
        after.total_capital == before.total_capital,
        after.confidence_level == before.confidence_level,
        forall|i: int|
            0 <= i < after.history().len() - 1 ==> #[trigger] after.history()[i]
                == before.history()[before.history().len() - after.history().len() + 1 + i],
{
}

/// A new day starts from zero; on the same day results add up.
pub proof fn law_daily_result(before: VaREngine, record: PnLRecord, day: int, after: VaREngine)
    requires
        recorded(before, record, day, after),
    ensures
        day != before.current_day ==> after.daily_pnl == record.pnl,
        day == before.current_day ==> after.daily_pnl == held(before.daily_pnl + record.pnl),
{
}

/// The share of gains is between none and all.
pub proof fn law_win_rate(s: Seq<i64>, daily_pnl: i64)
    ensures
        0 <= portfolio(s, daily_pnl).win_rate <= SCALE,
{
    if s.len() > 0 {
        s.lemma_filter_len(|p: i64| p > 0);
        let w: int = gains(s).len() as int;
        let n: int = s.len() as int;
        assert(w * SCALE <= 1_000_000 * n) by (nonlinear_arith)
            requires
                w <= n,
                SCALE == 1_000_000,
        ;
        lemma_div_bound(w * SCALE, n, 0, 1_000_000);
    }
}

// ---------------------------------------------------------------------------
// One trade
// ---------------------------------------------------------------------------

/// The mean loss beyond the value at risk of a trade is at least that value.
pub proof fn law_trade_shortfall(p: OpportunityRiskProfile, level: ConfidenceLevel)
    ensures
        edge_loss(simulated(p), tail_edge(level.tail_share(), SCENARIOS as int)) <= mean_loss(
            simulated(p),
            larger(tail_edge(level.tail_share(), SCENARIOS as int), 1),
        ),
{
    let edge: int = tail_edge(level.tail_share(), SCENARIOS as int);
    lemma_tail_size(level.tail_share(), SCENARIOS as int);
    law_mean_loss_at_least_edge(simulated(p), larger(edge, 1), edge);
}

/// Where every leg is certain to fill, every scenario yields the profit.
pub proof fn law_certain_fill(p: OpportunityRiskProfile, k: int)
    requires
        p.fill_probability >= SCALE,
        0 <= k < SCENARIOS,
    ensures
        simulated(p)[k] == p.guaranteed_profit,
{
    let r: int = draw(k);
    let fill: int = p.fill_probability as int;
    assert(seed_after(k + 1) as int / 0x1_0000_0000 < 0x1_0000_0000);
    assert(r * SCALE < fill * 0x1_0000_0000) by (nonlinear_arith)
        requires
            0 <= r < 0x1_0000_0000,
            fill >= SCALE,
            SCALE == 1_000_000,
    ;
}

/// Where a certain profit is no loss, no scenario loses more than the worst
/// case, and so neither the value at risk nor the mean loss beyond it do.
pub proof fn law_no_scenario_beyond_worst_case(p: OpportunityRiskProfile, level: ConfidenceLevel)
    requires
        p.guaranteed_profit >= 0,
        p.worst_case_single_leg_loss >= 0,
    ensures
        forall|k: int|
            0 <= k < SCENARIOS ==> -p.worst_case_single_leg_loss <= #[trigger] simulated(p)[k]
                <= p.guaranteed_profit,
        edge_loss(simulated(p), tail_edge(level.tail_share(), SCENARIOS as int))
            <= p.worst_case_single_leg_loss,
        mean_loss(simulated(p), larger(tail_edge(level.tail_share(), SCENARIOS as int), 1))
            <= p.worst_case_single_leg_loss,
{
    let s = simulated(p);
    let n: int = SCENARIOS as int;
    let worst: int = p.worst_case_single_leg_loss as int;
    assert forall|k: int| 0 <= k < n implies -worst <= #[trigger] s[k] <= p.guaranteed_profit by {
    }
    let t = ascending(s);
    lemma_ascending(s);
    assert forall|i: int| 0 <= i < n implies loss_of(#[trigger] t[i] as int) <= worst by {
        lemma_sorted_member(s, i);
    }
    let edge: int = tail_edge(level.tail_share(), n);
    lemma_tail_size(level.tail_share(), n);
    assert(loss_of(t[edge] as int) <= worst);
    let count: int = larger(edge, 1);
    lemma_losses_at_most(t, count, worst);
    lemma_div_bound(loss_total(t, count), count, 0, worst);
}

/// Without liquidity nothing fills; with an exponential between zero and one
/// for what is not positive, the chance of a fill is a probability.
pub proof fn law_fill_chance(liquidity: int, size: int, f: spec_fn(int) -> int)
    requires
        size >= 0,
        forall|x: int| x <= 0 ==> 0 <= #[trigger] f(x) <= SCALE,
    ensures
        liquidity <= 0 ==> fill_chance(liquidity, size, f) == 0,
        0 <= fill_chance(liquidity, size, f) <= SCALE,
{
    if liquidity > 0 && size > 0 {
        lemma_exponent_not_positive(liquidity, size);
    }
}

proof fn lemma_exponent_not_positive(liquidity: int, size: int)
    requires
        liquidity >= 0,
        size > 0,
    ensures
        fill_exponent(liquidity, size) <= 0,
{
    let a: int = -2 * liquidity * SCALE;
    assert(a <= 0) by (nonlinear_arith)
        requires
            a == -2 * liquidity * SCALE,
            liquidity >= 0,
            SCALE == 1_000_000,
    ;
    lemma_fundamental_div_mod(a, size);
    let q: int = a / size;
    assert(q <= 0) by (nonlinear_arith)
        requires
            a == size * q + a % size,
            a % size >= 0,
            a <= 0,
            size > 0,
    ;
}

/// The chance of a fill is one less the exponential of minus twice the liquidity for
/// one unit of size, rounded down; and so doubling both leaves it as it is.
pub proof fn law_fill_exponent(liquidity: int, size: int, f: spec_fn(int) -> int, x: int)
    requires
        0 < liquidity,
        0 < size,
        i64::MIN <= x,
        x * size <= -2 * liquidity * SCALE < (x + 1) * size,
    ensures
        fill_chance(liquidity, size, f) == held(SCALE - f(x)),
        fill_chance(2 * liquidity, 2 * size, f) == held(SCALE - f(x)),
{
    let a: int = -2 * liquidity * SCALE;
    lemma_exponent_not_positive(liquidity, size);
    assert(a - x * size >= 0 && a == x * size + (a - x * size) && a - x * size < size)
        by (nonlinear_arith)
        requires
            x * size <= a < (x + 1) * size,
    ;
    lemma_fundamental_div_mod_converse(a, size, x, a - x * size);
    assert(x <= 0);
    let b: int = -2 * (2 * liquidity) * SCALE;
    assert(b == x * (2 * size) + 2 * (a - x * size) && 2 * (a - x * size) < 2 * size)
        by (nonlinear_arith)
        requires
            b == 2 * a,
            a - x * size < size,
    ;
    lemma_fundamental_div_mod_converse(b, 2 * size, x, 2 * (a - x * size));
}

/// More liquidity or a smaller position, no smaller chance of a fill, where the
/// exponential grows and is no more than one for what is not positive.
pub proof fn law_fill_chance_grows(
    thin: int,
    deep: int,
    large: int,
    small: int,
    f: spec_fn(int) -> int,
)
    requires
        thin <= deep,
        0 <= small <= large,
        forall|x: int, y: int| x <= y ==> #[trigger] f(x) <= #[trigger] f(y),
        forall|x: int| x <= 0 ==> 0 <= #[trigger] f(x) <= SCALE,
    ensures
        fill_chance(thin, large, f) <= fill_chance(deep, small, f),
{
    law_fill_chance(thin, large, f);
    law_fill_chance(deep, small, f);
    if thin > 0 && small > 0 {
        let a: int = -2 * deep * SCALE;
        let b: int = -2 * thin * SCALE;
        assert(a <= b <= 0) by (nonlinear_arith)
            requires
                a == -2 * deep * SCALE,
                b == -2 * thin * SCALE,
                0 < thin <= deep,
                SCALE == 1_000_000,
        ;
        lemma_div_is_ordered(a, b, small);
        lemma_fundamental_div_mod(b, small);
        lemma_fundamental_div_mod(b, large);
        let q: int = b / small;
        let p: int = b / large;
        let r: int = b % small;
        let s: int = b % large;
        assert(q <= p) by (nonlinear_arith)
            requires
                b == small * q + r,
                b == large * p + s,
                0 <= r < small,
                0 <= s < large,
                0 < small <= large,
                b <= 0,
        ;
        assert(f(fill_exponent(deep, small)) <= f(fill_exponent(thin, large)));
    }
}

/// The profile of an opportunity with either volume raised, or with a smaller
/// position, has no smaller chance of a fill, and every chance is a probability.
pub proof fn law_profile_fill_grows(
    volumes: (int, int),
    raised: (int, int),
    large: int,
    small: int,
    f: spec_fn(int) -> int,
)
    requires
        volumes.0 <= raised.0,
        volumes.1 <= raised.1,
        0 <= small <= large,
        forall|x: int, y: int| x <= y ==> #[trigger] f(x) <= #[trigger] f(y),
        forall|x: int| x <= 0 ==> 0 <= #[trigger] f(x) <= SCALE,
    ensures
        0 <= fill_chance(smaller(volumes.0, volumes.1), large, f) <= fill_chance(
            smaller(raised.0, raised.1),
            small,
            f,
        ) <= SCALE,
{
    let thin: int = smaller(volumes.0, volumes.1);
    let deep: int = smaller(raised.0, raised.1);
    law_fill_chance(thin, large, f);
    law_fill_chance(deep, small, f);
    law_fill_chance_grows(thin, deep, large, small, f);
}

// ---------------------------------------------------------------------------
// Recommendations and limits
// ---------------------------------------------------------------------------

/// A trade is left exactly where it does not gain on average, where an open leg loses
/// more than twice the profit on average, where its value at risk is more than three
/// times the profit, or where more than four fifths of the day's limit are lost. What
/// is made is made whole exactly where its value at risk is at most a fiftieth of the
/// capital.
pub proof fn law_advice(
    var: int,
    profit: int,
    ev: int,
    daily_var_limit: int,
    daily_pnl: int,
    total_capital: int,
    fill_probability: int,
    worst_case_loss: int,
)
    ensures
        ({
            let a = advice(
                var,
                profit,
                ev,
                daily_var_limit,
                daily_pnl,
                total_capital,
                fill_probability,
                worst_case_loss,
            );
            &&& a !is Skip <==> {
                &&& ev > 0
                &&& (SCALE - fill_probability) * worst_case_loss <= 4 * SCALE * profit
                &&& var <= 3 * profit
                &&& 5 * daily_pnl >= -4 * daily_var_limit
            }
            &&& a is Execute ==> !above_capital_share(var, total_capital)
            &&& total_capital > 0 && a is Execute ==> 50 * var <= total_capital
            &&& total_capital > 0 && a is ExecuteReduced ==> 50 * var > total_capital
            &&& total_capital == 0 && a is Execute ==> var <= 0
            &&& total_capital == 0 && a is ExecuteReduced ==> var > 0
            &&& total_capital < 0 && a is Execute ==> 50 * var >= total_capital
            &&& total_capital < 0 && a is ExecuteReduced ==> 50 * var < total_capital
        }),
{
}

/// A trade that is reduced is made with the share of its size whose value at risk is a
/// fiftieth of the capital, rounded down.
pub proof fn law_advised_share(
    var: int,
    profit: int,
    ev: int,
    daily_var_limit: int,
    daily_pnl: int,
    total_capital: int,
    fill_probability: int,
    worst_case_loss: int,
)
    requires
        0 < total_capital <= i64::MAX,
        0 <= var <= i64::MAX,
    ensures
        advice(
            var,
            profit,
            ev,
            daily_var_limit,
            daily_pnl,
            total_capital,
            fill_probability,
            worst_case_loss,
        ) matches Advice::ExecuteReduced { suggested_size_pct } ==> {
            &&& 0 <= suggested_size_pct < SCALE
            &&& 50 * (suggested_size_pct * var) <= SCALE * total_capital < 50 * ((suggested_size_pct
                + 1) * var)
        },
{
    if above_capital_share(var, total_capital) {
        law_reduced_size(var, total_capital);
        let a: int = 20_000 * total_capital;
        lemma_fundamental_div_mod(a, var);
        let q: int = a / var;
        assert(a < (q + 1) * var) by (nonlinear_arith)
            requires
                a == var * q + a % var,
                a % var < var,
        ;
        assert(SCALE * total_capital == 50 * a);
    }
}

/// A reduced trade is a part of the trade, and its share of the value at risk
/// is at most a fiftieth of the capital.
pub proof fn law_reduced_size(var: int, total_capital: int)
    requires
        0 < total_capital <= i64::MAX,
        0 <= var <= i64::MAX,
        above_capital_share(var, total_capital),
    ensures
        ({
            let share = held(quotient(20_000 * total_capital, var));
            &&& 0 <= share < SCALE
            &&& 50 * (share * var) <= SCALE * total_capital
        }),
{
    let a: int = 20_000 * total_capital;
    lemma_fundamental_div_mod(a, var);
    let q: int = a / var;
    lemma_div_pos_is_pos(a, var);
    assert(q < 1_000_000) by (nonlinear_arith)
        requires
            a == var * q + a % var,
            a % var >= 0,
            a < 1_000_000 * var,
            var > 0,
    ;
    assert(50 * (q * var) <= 1_000_000 * total_capital) by (nonlinear_arith)
        requires
            a == var * q + a % var,
            a % var >= 0,
            a == 20_000 * total_capital,
    ;
}

/// A trade is blocked exactly where the day's loss is beyond the limit, or where
/// the value at risk would take it beyond the limit.
pub proof fn law_daily_limit(trade_var: int, daily_pnl: int, daily_var_limit: int)
    ensures
        limit_verdict(trade_var, daily_pnl, daily_var_limit) is Blocked <==> daily_pnl
            < -daily_var_limit || daily_pnl - trade_var < -daily_var_limit,
{
}

/// What is left of the day's limit is the limit and the day's result. A trade that
/// is not blocked is approved exactly where it takes at most half of that, and what
/// it leaves is told; one that takes more is warned of, with what is left before it.
pub proof fn law_budget_left(trade_var: int, daily_pnl: int, daily_var_limit: int)
    ensures
        match limit_verdict(trade_var, daily_pnl, daily_var_limit) {
            LimitVerdict::Approved { trade_var: var, remaining_budget_after } => {
                &&& 2 * trade_var <= daily_var_limit + daily_pnl
                &&& var == trade_var
                &&& remaining_budget_after == held(daily_var_limit + daily_pnl - trade_var)
            },
            LimitVerdict::Warning { trade_var: var, remaining_budget, .. } => {
                &&& trade_var <= daily_var_limit + daily_pnl < 2 * trade_var
                &&& var == trade_var
                &&& remaining_budget == held(daily_var_limit + daily_pnl)
            },
            LimitVerdict::Blocked { daily_pnl: pnl, daily_limit, .. } => {
                &&& daily_var_limit + daily_pnl < 0 || daily_var_limit + daily_pnl < trade_var
                &&& pnl == daily_pnl
                &&& daily_limit == daily_var_limit
            },
        },
{
}

/// A gain of the day adds to what is left of its limit, and a loss takes from it: two
/// days on which limit and result add up to the same leave the same to a trade that
/// is not blocked.
pub proof fn law_same_budget_same_verdict(
    trade_var: int,
    daily_pnl: int,
    daily_var_limit: int,
    shift: int,
)
    requires
        0 <= trade_var,
    ensures
        ({
            let a = limit_verdict(trade_var, daily_pnl, daily_var_limit);
            let b = limit_verdict(trade_var, daily_pnl - shift, daily_var_limit + shift);
            &&& a is Blocked == b is Blocked
            &&& a !is Blocked ==> a == b
        }),
{
}

/// A trade that is warned of is told the share that it takes of what is left, in
/// hundredths, rounded down: more than a half, and all of it at most.
pub proof fn law_warning(trade_var: int, daily_pnl: int, daily_var_limit: int, share: int)
    requires
        daily_var_limit + daily_pnl > 0,
        share * (daily_var_limit + daily_pnl) <= 100 * SCALE * trade_var < (share + 1) * (
        daily_var_limit + daily_pnl),
    ensures
        limit_verdict(trade_var, daily_pnl, daily_var_limit) matches LimitVerdict::Warning {
            message,
            ..
        } ==> message == "Trade consume "@ + fixed_text(share, 1)
            + "% del presupuesto de riesgo restante"@ && 50 * SCALE <= share <= 100 * SCALE,
{
    let left: int = daily_var_limit + daily_pnl;
    let a: int = 100 * SCALE * trade_var;
    assert(a == share * left + (a - share * left) && a - share * left < left) by (nonlinear_arith)
        requires
            a < (share + 1) * left,
    ;
    lemma_fundamental_div_mod_converse(a, left, share, a - share * left);
    if trade_var <= left < 2 * trade_var {
        assert(share <= 100_000_000) by (nonlinear_arith)
            requires
                share * left <= 100_000_000 * trade_var,
                trade_var <= left,
                left > 0,
        ;
        assert(share >= 50_000_000) by (nonlinear_arith)
            requires
                100_000_000 * trade_var < (share + 1) * left,
                left < 2 * trade_var,
                left > 0,
        ;
    }
}

} // verus!
