//! Value at risk: what a day or a trade can lose, and whether a trade is worth
//! that risk.
//!
//! An arbitrage has no market risk, but its execution has: one leg may fill
//! without the other, the book may be thinner than quoted, and too much capital
//! may stand in few markets.

use vstd::prelude::*;
use std::collections::VecDeque;
use crate::clock::{day_number, day_of, now, Timestamp};
use crate::math::{asks_any, computes, lemma_root, root};
use crate::order::{ascending, lemma_ascending, sort_ascending};
use crate::text::{fixed, fixed_text};
use crate::units::{
    div_down, divide, held, hold, larger, lemma_div_bound, lemma_mul_bound, lemma_sum_fits,
    lemma_total_bounds, lemma_total_step, multiply, product, quotient, smaller, square_root, sum,
    total, SCALE,
};

verus! {

/// The fewest trades from which a value at risk is taken.
pub const MIN_TRADES: usize = 30;

/// The most trades that are remembered.
pub const MAX_TRADES: usize = 500;

/// The number of scenarios of a trade's simulation.
pub const SCENARIOS: usize = 10_000;

// ---------------------------------------------------------------------------
// Confidence
// ---------------------------------------------------------------------------

/// How sure a value at risk is: the loss that is not exceeded in that share of
/// all cases.
#[derive(Debug, Clone, Copy, PartialEq, Eq, Structural)]
pub enum ConfidenceLevel {
    Pct90,
    Pct95,
    Pct99,
    Pct999,
}

impl ConfidenceLevel {
    /// The share of the cases that are worse.
    pub open spec fn tail_share(&self) -> int {
        match self {
            ConfidenceLevel::Pct90 => 100_000,
            ConfidenceLevel::Pct95 => 50_000,
            ConfidenceLevel::Pct99 => 10_000,
            ConfidenceLevel::Pct999 => 1_000,
        }
    }

    /// The share of the cases that are worse.
    pub fn alpha(&self) -> (r: i64)
        ensures
            r == self.tail_share(),
    {
        match self {
            ConfidenceLevel::Pct90 => 100_000,
            ConfidenceLevel::Pct95 => 50_000,
            ConfidenceLevel::Pct99 => 10_000,
            ConfidenceLevel::Pct999 => 1_000,
        }
    }

    /// How many standard deviations of a normal distribution that is.
    pub open spec fn deviations(&self) -> int {
        match self {
            ConfidenceLevel::Pct90 => 1_282_000,
            ConfidenceLevel::Pct95 => 1_645_000,
            ConfidenceLevel::Pct99 => 2_326_000,
            ConfidenceLevel::Pct999 => 3_090_000,
        }
    }

    /// How many standard deviations of a normal distribution that is.
    pub fn z_score(&self) -> (r: i64)
        ensures
            r == self.deviations(),
    {
        match self {
            ConfidenceLevel::Pct90 => 1_282_000,
            ConfidenceLevel::Pct95 => 1_645_000,
            ConfidenceLevel::Pct99 => 2_326_000,
            ConfidenceLevel::Pct999 => 3_090_000,
        }
    }

    /// The level, written out.
    pub open spec fn label_text(&self) -> Seq<char> {
        match self {
            ConfidenceLevel::Pct90 => "90%"@,
            ConfidenceLevel::Pct95 => "95%"@,
            ConfidenceLevel::Pct99 => "99%"@,
            ConfidenceLevel::Pct999 => "99.9%"@,
        }
    }

    /// The level, written out.
    pub fn label(&self) -> (r: &'static str)
        ensures
            r@ == self.label_text(),
    {
        match self {
            ConfidenceLevel::Pct90 => "90%",
            ConfidenceLevel::Pct95 => "95%",
            ConfidenceLevel::Pct99 => "99%",
            ConfidenceLevel::Pct999 => "99.9%",
        }
    }
}

// ---------------------------------------------------------------------------
// Tails
// ---------------------------------------------------------------------------

/// The loss in a result; zero for a gain.
pub open spec fn loss_of(p: int) -> int {
    held(larger(-p, 0))
}

/// The loss in a result; zero for a gain.
fn loss(p: i64) -> (r: i64)
    ensures
        r == loss_of(p as int),
        r >= 0,
{
    if p >= 0 {
        0
    } else {
        hold(-(p as i128))
    }
}

/// The losses in the first `n` results.
pub open spec fn loss_total(s: Seq<i64>, n: int) -> int
    decreases n,
{
    if n <= 0 { 0 } else { loss_total(s, n - 1) + loss_of(s[n - 1] as int) }
}

/// How many of `n` results are in the tail.
pub open spec fn tail_size(share: int, n: int) -> int {
    (share * n) / (SCALE as int)
}

/// The position of the result at the edge of the tail.
pub open spec fn tail_edge(share: int, n: int) -> int {
    smaller(tail_size(share, n), n - 1)
}

/// The loss at the edge of the tail: the value at risk.
pub open spec fn edge_loss(s: Seq<i64>, edge: int) -> int {
    loss_of(ascending(s)[edge] as int)
}

/// The mean loss of the `count` worst results, rounded down.
pub open spec fn mean_loss(s: Seq<i64>, count: int) -> int {
    loss_total(ascending(s), count) / count
}

fn tail_count(share: i64, n: usize) -> (r: usize)
    requires
        0 <= share <= SCALE,
    ensures
        r == tail_size(share as int, n as int),
        r <= n,
{
    proof {
        lemma_mul_bound(share as int, n as int, 1_000_000, 0xFFFF_FFFF_FFFF_FFFF);
        assert(0 <= share * n <= n * 1_000_000) by (nonlinear_arith)
            requires
                0 <= share <= 1_000_000,
                0 <= n,
        ;
        lemma_div_bound(share * n, SCALE as int, 0, n as int);
    }
    div_down(share as i128 * n as i128, SCALE as i128) as usize
}

/// The mean loss of the first `count` of sorted results.
fn mean_of_losses(sorted: &Vec<i64>, count: usize) -> (r: i64)
    requires
        0 < count <= sorted.len(),
    ensures
        r == loss_total(sorted@, count as int) / count as int,
        r >= 0,
{
    let mut acc: i128 = 0;
    let mut i: usize = 0;
    while i < count
        invariant
            i <= count <= sorted.len(),
            acc == loss_total(sorted@, i as int),
            0 <= acc <= i * i64::MAX,
        decreases count - i,
    {
        proof {
            lemma_sum_fits(i as int);
            assert((i + 1) * i64::MAX == i * i64::MAX + i64::MAX) by (nonlinear_arith);
        }
        acc = acc + loss(sorted[i]) as i128;
        i = i + 1;
    }
    proof {
        assert(i64::MAX * count == count * i64::MAX) by (nonlinear_arith);
        lemma_div_bound(acc as int, count as int, 0, i64::MAX as int);
    }
    div_down(acc, count as i128) as i64
}

/// Results beyond the edge of the tail lose at least as much as that at it, so
/// the mean of the tail does too.
pub proof fn law_mean_loss_at_least_edge(s: Seq<i64>, count: int, edge: int)
    requires
        0 < count <= edge + 1 <= s.len(),
    ensures
        edge_loss(s, edge) <= mean_loss(s, count),
{
    lemma_ascending(s);
    let t = ascending(s);
    let v = edge_loss(s, edge);
    lemma_losses_at_least(t, count, v);
    lemma_div_lower(loss_total(t, count), count, v);
}

proof fn lemma_div_lower(a: int, d: int, lo: int)
    requires
        d > 0,
        lo * d <= a,
    ensures
        lo <= a / d,
{
    vstd::arithmetic::div_mod::lemma_fundamental_div_mod(a, d);
    let q: int = a / d;
    let r: int = a % d;
    assert(lo <= q) by (nonlinear_arith)
        requires
            lo * d <= a,
            a == d * q + r,
            0 <= r < d,
            d > 0,
    ;
}

proof fn lemma_losses_at_least(t: Seq<i64>, n: int, v: int)
    requires
        0 <= n <= t.len(),
        forall|i: int| 0 <= i < n ==> loss_of(#[trigger] t[i] as int) >= v,
    ensures
        v * n <= loss_total(t, n),
    decreases n,
{
    if n > 0 {
        lemma_losses_at_least(t, n - 1, v);
        assert(v * n == v * (n - 1) + v) by (nonlinear_arith);
        assert(loss_of(t[n - 1] as int) >= v);
    } else {
        assert(v * 0 == 0);
    }
}

/// The loss at the edge of a smaller tail is at least that at the edge of a
/// larger one: more confidence, more value at risk.
pub proof fn law_edge_loss_grows(s: Seq<i64>, a: int, b: int)
    requires
        0 <= a <= b,
        s.len() > 0,
    ensures
        edge_loss(s, tail_edge(a, s.len() as int)) >= edge_loss(s, tail_edge(b, s.len() as int)),
{
    lemma_ascending(s);
    let n: int = s.len() as int;
    assert(0 <= a * n <= b * n) by (nonlinear_arith)
        requires
            0 <= a <= b,
            0 <= n,
    ;
    vstd::arithmetic::div_mod::lemma_div_is_ordered(a * n, b * n, SCALE as int);
    vstd::arithmetic::div_mod::lemma_div_pos_is_pos(a * n, SCALE as int);
    let x: int = tail_edge(a, n);
    let y: int = tail_edge(b, n);
    assert(ascending(s)[x] <= ascending(s)[y]);
}

// ---------------------------------------------------------------------------
// Spread
// ---------------------------------------------------------------------------

/// The sum of the squared distances of the first `n` results from `mean`.
pub open spec fn spread(s: Seq<i64>, mean: int, n: int) -> int
    decreases n,
{
    if n <= 0 {
        0
    } else {
        spread(s, mean, n - 1) + (s[n - 1] - mean) * (s[n - 1] - mean)
    }
}

/// The mean of results, rounded down.
pub open spec fn mean(s: Seq<i64>) -> int {
    total(s) / s.len() as int
}

/// The standard deviation of results, rounded down; the sum of squares is held
/// at the range of `u128`.
pub open spec fn deviation(s: Seq<i64>, divisor: int) -> int {
    root(smaller(spread(s, mean(s), s.len() as int), u128::MAX as int) / divisor)
}

fn mean_of(values: &Vec<i64>) -> (r: i64)
    requires
        values.len() > 0,
    ensures
        r == mean(values@),
{
    let t: i128 = sum(values.as_slice());
    let n: usize = values.len();
    proof {
        lemma_total_bounds(values@);
        assert(i64::MIN * n == n * i64::MIN) by (nonlinear_arith);
        assert(i64::MAX * n == n * i64::MAX) by (nonlinear_arith);
        lemma_div_bound(t as int, n as int, i64::MIN as int, i64::MAX as int);
    }
    div_down(t, n as i128) as i64
}

fn deviation_of(values: &Vec<i64>, divisor: u64) -> (r: u64)
    requires
        values.len() > 0,
        divisor > 0,
    ensures
        r == deviation(values@, divisor as int),
{
    let m: i64 = mean_of(values);
    let mut acc: u128 = 0;
    let mut i: usize = 0;
    while i < values.len()
        invariant
            i <= values.len(),
            acc == smaller(spread(values@, m as int, i as int), u128::MAX as int),
        decreases values.len() - i,
    {
        let v: i64 = values[i];
        let d: u64 = if v >= m {
            (v as i128 - m as i128) as u64
        } else {
            (m as i128 - v as i128) as u64
        };
        proof {
            assert(d * d == (v - m) * (v - m)) by (nonlinear_arith)
                requires
                    d == v - m || d == m - v,
            ;
            assert(0 <= d * d <= 0xFFFF_FFFF_FFFF_FFFF * 0xFFFF_FFFF_FFFF_FFFF) by (nonlinear_arith)
                requires
                    0 <= d <= 0xFFFF_FFFF_FFFF_FFFF,
            ;
        }
        let square: u128 = d as u128 * d as u128;
        if square > u128::MAX - acc {
            acc = u128::MAX;
        } else {
            acc = acc + square;
        }
        i = i + 1;
    }
    let v: u128 = acc / divisor as u128;
    let r: u64 = square_root(v);
    proof {
        lemma_root(v as int, r as int);
    }
    r
}

// ---------------------------------------------------------------------------
// Recommendations
// ---------------------------------------------------------------------------

/// What to do with a trade.
#[derive(Debug, Clone, PartialEq, Eq)]
pub enum RiskRecommendation {
    /// Execute it.
    Execute,
    /// Execute it with this share of its size.
    ExecuteReduced { suggested_size_pct: i64 },
    /// Leave it: the risk is too high.
    Skip { reason: String },
}

/// What to do with a trade, as a mathematical value.
pub ghost enum Advice {
    Execute,
    ExecuteReduced { suggested_size_pct: int },
    Skip { reason: Seq<char> },
}

impl View for RiskRecommendation {
    type V = Advice;

    open spec fn view(&self) -> Advice {
        match self {
            RiskRecommendation::Execute => Advice::Execute,
            RiskRecommendation::ExecuteReduced { suggested_size_pct } => Advice::ExecuteReduced {
                suggested_size_pct: *suggested_size_pct as int,
            },
            RiskRecommendation::Skip { reason } => Advice::Skip { reason: reason@ },
        }
    }
}

/// What a trade of which one leg may stay open loses on average, rounded down.
pub open spec fn expected_partial_loss(fill_probability: int, worst_case_loss: int) -> int {
    held(((SCALE - fill_probability) * worst_case_loss) / (2 * SCALE))
}

/// Whether a value at risk is more than a fiftieth of the capital, as a real
/// quotient.
pub open spec fn above_capital_share(var: int, total_capital: int) -> bool {
    if total_capital > 0 {
        50 * var > total_capital
    } else if total_capital < 0 {
        50 * var < total_capital
    } else {
        var > 0
    }
}

/// What to do with a trade, by its risk.
pub open spec fn advice(
    var: int,
    profit: int,
    ev: int,
    daily_var_limit: int,
    daily_pnl: int,
    total_capital: int,
    fill_probability: int,
    worst_case_loss: int,
) -> Advice {
    if ev <= 0 {
        Advice::Skip { reason: "Expected Value negativo: $"@ + fixed_text(ev, 4) }
    } else if (SCALE - fill_probability) * worst_case_loss > 4 * SCALE * profit {
        Advice::Skip {
            reason: "Pérdida esperada por fill parcial ($"@ + fixed_text(
                expected_partial_loss(fill_probability, worst_case_loss),
                4,
            ) + ") excede 2x ganancia ($"@ + fixed_text(profit, 4) + "). Fill prob: "@ + fixed_text(
                held(100 * fill_probability),
                0,
            ) + "%"@,
        }
    } else if var > 3 * profit {
        Advice::Skip {
            reason: "VaR ($"@ + fixed_text(var, 4) + ") excede 3x la ganancia ($"@ + fixed_text(
                profit,
                4,
            ) + ")"@,
        }
    } else if 5 * daily_pnl < -4 * daily_var_limit {
        Advice::Skip { reason: "Límite diario al 80%: P&L hoy = $"@ + fixed_text(daily_pnl, 2) }
    } else if above_capital_share(var, total_capital) {
        Advice::ExecuteReduced {
            suggested_size_pct: held(quotient(20_000 * total_capital, var)),
        }
    } else {
        Advice::Execute
    }
}

/// What to do with a trade: nothing where its mean result is no gain, where an
/// open leg loses more than twice the profit on average, where the value at
/// risk is more than three times the profit, or where four fifths of the day's
/// limit are lost; a part of it where the value at risk is more than a fiftieth
/// of the capital; and else the trade.
pub fn determine_recommendation(
    var: i64,
    profit: i64,
    ev: i64,
    daily_var_limit: i64,
    daily_pnl: i64,
    total_capital: i64,
    fill_probability: i64,
    worst_case_loss: i64,
) -> (r: RiskRecommendation)
    ensures
        r@ == advice(
            var as int,
            profit as int,
            ev as int,
            daily_var_limit as int,
            daily_pnl as int,
            total_capital as int,
            fill_probability as int,
            worst_case_loss as int,
        ),
{
    if ev <= 0 {
        let mut reason: String = "Expected Value negativo: $".to_owned();
        reason.append(fixed(ev, 4).as_str());
        return RiskRecommendation::Skip { reason };
    }
    let open: i128 = SCALE as i128 - fill_probability as i128;
    proof {
        lemma_mul_bound(
            open as int,
            worst_case_loss as int,
            0x8000_0000_0010_0000,
            0x8000_0000_0000_0000,
        );
    }
    let at_stake: i128 = open * worst_case_loss as i128;
    if at_stake > 4 * SCALE as i128 * profit as i128 {
        let expected: i64 = hold(div_down(at_stake, 2 * SCALE as i128));
        let mut reason: String = "Pérdida esperada por fill parcial ($".to_owned();
        reason.append(fixed(expected, 4).as_str());
        reason.append(") excede 2x ganancia ($");
        reason.append(fixed(profit, 4).as_str());
        reason.append("). Fill prob: ");
        reason.append(fixed(hold(100 * fill_probability as i128), 0).as_str());
        reason.append("%");
        return RiskRecommendation::Skip { reason };
    }
    if var as i128 > 3 * profit as i128 {
        let mut reason: String = "VaR ($".to_owned();
        reason.append(fixed(var, 4).as_str());
        reason.append(") excede 3x la ganancia ($");
        reason.append(fixed(profit, 4).as_str());
        reason.append(")");
        return RiskRecommendation::Skip { reason };
    }
    if 5 * (daily_pnl as i128) < -(4 * daily_var_limit as i128) {
        let mut reason: String = "Límite diario al 80%: P&L hoy = $".to_owned();
        reason.append(fixed(daily_pnl, 2).as_str());
        return RiskRecommendation::Skip { reason };
    }
    let above: bool = if total_capital > 0 {
        50 * var as i128 > total_capital as i128
    } else if total_capital < 0 {
        50 * (var as i128) < total_capital as i128
    } else {
        var > 0
    };
    if above {
        return RiskRecommendation::ExecuteReduced {
            suggested_size_pct: hold(divide(20_000 * total_capital as i128, var as i128)),
        };
    }
    RiskRecommendation::Execute
}

// ---------------------------------------------------------------------------
// The risk of one trade
// ---------------------------------------------------------------------------

/// What is at stake in an opportunity.
#[derive(Debug, Clone)]
pub struct OpportunityRiskProfile {
    pub opportunity_id: String,
    /// The profit where every leg fills.
    pub guaranteed_profit: i64,
    /// The probability that every leg fills.
    pub fill_probability: i64,
    /// The loss where one leg fills and its outcome does not come.
    pub worst_case_single_leg_loss: i64,
    /// The capital that is put up.
    pub capital_committed: i64,
}

/// The exponent of the probability that legs fill: minus twice the liquidity
/// for one unit of size.
pub open spec fn fill_exponent(liquidity: int, size: int) -> int {
    held(quotient(-2 * liquidity * SCALE, size))
}

/// The probability that every leg fills, by the liquidity of the thinner one:
/// none without liquidity, certainty for an empty position, and else one less
/// the exponential of the exponent.
pub open spec fn fill_chance(liquidity: int, size: int, f: spec_fn(int) -> int) -> int {
    if liquidity <= 0 {
        0
    } else if size == 0 {
        SCALE as int
    } else {
        held(SCALE - f(fill_exponent(liquidity, size)))
    }
}

impl OpportunityRiskProfile {
    /// The profile of an opportunity. The exponential function is handed in, in
    /// millionths.
    pub fn from_opportunity<E: Fn(i64) -> i64>(
        opp_id: &str,
        guaranteed_profit: i64,
        yes_price: i64,
        no_price: i64,
        position_size: i64,
        yes_volume: i64,
        no_volume: i64,
        exp: &E,
    ) -> (r: OpportunityRiskProfile)
        requires
            asks_any(*exp),
        ensures
            r.opportunity_id@ == opp_id@,
            r.guaranteed_profit == guaranteed_profit,
            r.worst_case_single_leg_loss == held(
                product(larger(yes_price as int, no_price as int), position_size as int),
            ),
            r.capital_committed == held(product(held(yes_price + no_price), position_size as int)),
            forall|f: spec_fn(int) -> int| #[trigger]
                computes(*exp, f) ==> r.fill_probability == fill_chance(
                    smaller(yes_volume as int, no_volume as int),
                    position_size as int,
                    f,
                ),
            smaller(yes_volume as int, no_volume as int) <= 0 ==> r.fill_probability == 0,
    {
        let worst_leg_price: i64 = if yes_price >= no_price { yes_price } else { no_price };
        let min_liquidity: i64 = if yes_volume <= no_volume { yes_volume } else { no_volume };
        let fill_probability: i64 = if min_liquidity <= 0 {
            0
        } else if position_size == 0 {
            SCALE
        } else {
            proof {
                lemma_mul_bound(
                    -2 * min_liquidity,
                    SCALE as int,
                    0x1_0000_0000_0000_0000,
                    1_000_000,
                );
            }
            let twice: i128 = -(2 * min_liquidity as i128);
            let x: i64 = hold(divide(twice * SCALE as i128, position_size as i128));
            hold(SCALE as i128 - exp(x) as i128)
        };
        OpportunityRiskProfile {
            opportunity_id: opp_id.to_owned(),
            guaranteed_profit,
            fill_probability,
            worst_case_single_leg_loss: hold(multiply(worst_leg_price, position_size)),
            capital_committed: hold(
                multiply(hold(yes_price as i128 + no_price as i128), position_size),
            ),
        }
    }
}

/// The state of the generator after `k` draws.
pub open spec fn seed_after(k: int) -> u64
    decreases k,
{
    if k <= 0 {
        42
    } else {
        seed_after(k - 1).wrapping_mul(6364136223846793005).wrapping_add(1442695040888963407)
    }
}

/// The draw of scenario `k`, out of `0x1_0000_0000` equally likely ones.
pub open spec fn draw(k: int) -> int {
    seed_after(k + 1) as int / 0x1_0000_0000
}

/// The result of a trade in the scenario with draw `r`: the profit with the
/// probability that every leg fills; and in the two halves of what remains
/// three tenths of it, or the loss of the open leg.
pub open spec fn outcome(profit: int, fill_probability: int, worst: int, r: int) -> int {
    if r * SCALE < fill_probability * 0x1_0000_0000 {
        profit
    } else if 2 * r * SCALE < (SCALE + fill_probability) * 0x1_0000_0000 {
        (3 * profit) / 10
    } else {
        held(-worst)
    }
}

/// The results of a trade in the first `n` scenarios.
pub open spec fn outcomes(profit: int, fill_probability: int, worst: int, n: nat) -> Seq<i64> {
    Seq::new(n, |k: int| outcome(profit, fill_probability, worst, draw(k)) as i64)
}

/// The results of a trade in all scenarios.
pub open spec fn simulated(p: OpportunityRiskProfile) -> Seq<i64> {
    outcomes(
        p.guaranteed_profit as int,
        p.fill_probability as int,
        p.worst_case_single_leg_loss as int,
        SCENARIOS as nat,
    )
}

/// The profit for one unit of value at risk; nothing where there is none.
pub open spec fn profit_per_risk(profit: int, var: int) -> Option<i64> {
    if var > 0 { Some(held((profit * SCALE) / var) as i64) } else { None }
}

/// What a trade risks.
#[derive(Debug, Clone)]
pub struct ExecutionVaRResult {
    /// The value at risk.
    pub var: i64,
    /// The mean loss beyond the value at risk.
    pub cvar: i64,
    /// The mean result.
    pub expected_value: i64,
    /// The profit for one unit of value at risk; nothing where there is none.
    pub profit_var_ratio: Option<i64>,
    pub confidence_level: ConfidenceLevel,
    pub fill_probability: i64,
    pub worst_case_loss: i64,
    pub recommendation: RiskRecommendation,
}

/// Whether `r` is the valuation of a trade by an engine at a level of confidence:
/// over all scenarios the value at risk, the mean loss beyond it and the mean
/// result, with the profit for one unit of that risk and the advice.
pub open spec fn is_valuation(
    r: ExecutionVaRResult,
    engine: VaREngine,
    p: OpportunityRiskProfile,
    level: ConfidenceLevel,
) -> bool {
    let edge = tail_edge(level.tail_share(), SCENARIOS as int);
    &&& r.var == edge_loss(simulated(p), edge)
    &&& r.cvar == mean_loss(simulated(p), larger(edge, 1))
    &&& r.expected_value == mean(simulated(p))
    &&& r.profit_var_ratio == profit_per_risk(p.guaranteed_profit as int, r.var as int)
    &&& r.confidence_level == level
    &&& r.fill_probability == p.fill_probability
    &&& r.worst_case_loss == p.worst_case_single_leg_loss
    &&& r.recommendation@ == advice(
        r.var as int,
        p.guaranteed_profit as int,
        r.expected_value as int,
        engine.daily_var_limit as int,
        engine.daily_pnl as int,
        engine.total_capital as int,
        p.fill_probability as int,
        p.worst_case_single_leg_loss as int,
    )
}

/// The results of a trade in all scenarios.
pub fn simulate_outcomes(opportunity: &OpportunityRiskProfile) -> (r: Vec<i64>)
    ensures
        r@ == simulated(*opportunity),
{
    let profit: i64 = opportunity.guaranteed_profit;
    let p_full: i64 = opportunity.fill_probability;
    let worst: i64 = opportunity.worst_case_single_leg_loss;
    let mut scenarios: Vec<i64> = Vec::with_capacity(SCENARIOS);
    let mut seed: u64 = 42;
    let mut i: usize = 0;
    while i < SCENARIOS
        invariant
            i <= SCENARIOS,
            seed == seed_after(i as int),
            scenarios@ == outcomes(profit as int, p_full as int, worst as int, i as nat),
        decreases SCENARIOS - i,
    {
        seed = seed.wrapping_mul(6364136223846793005).wrapping_add(1442695040888963407);
        let rand: i128 = (seed / 0x1_0000_0000) as i128;
        let pnl: i64 = if rand * (SCALE as i128) < p_full as i128 * 0x1_0000_0000 {
            profit
        } else if 2 * rand * (SCALE as i128) < (SCALE as i128 + p_full as i128) * 0x1_0000_0000 {
            div_down(3 * profit as i128, 10) as i64
        } else {
            hold(-(worst as i128))
        };
        scenarios.push(pnl);
        proof {
            assert(pnl == outcome(profit as int, p_full as int, worst as int, draw(i as int)));
            assert(scenarios@ =~= outcomes(
                profit as int,
                p_full as int,
                worst as int,
                (i + 1) as nat,
            ));
        }
        i = i + 1;
    }
    scenarios
}

// ---------------------------------------------------------------------------
// The daily limit
// ---------------------------------------------------------------------------

/// Whether a trade fits into what is left of the day's limit.
#[derive(Debug, Clone)]
pub enum DailyLimitCheck {
    Approved { trade_var: i64, remaining_budget_after: i64 },
    Warning { message: String, trade_var: i64, remaining_budget: i64 },
    Blocked { reason: String, daily_pnl: i64, daily_limit: i64 },
}

/// Whether a trade fits, as a mathematical value.
pub ghost enum LimitVerdict {
    Approved { trade_var: int, remaining_budget_after: int },
    Warning { message: Seq<char>, trade_var: int, remaining_budget: int },
    Blocked { reason: Seq<char>, daily_pnl: int, daily_limit: int },
}

impl View for DailyLimitCheck {
    type V = LimitVerdict;

    open spec fn view(&self) -> LimitVerdict {
        match self {
            DailyLimitCheck::Approved { trade_var, remaining_budget_after } => {
                LimitVerdict::Approved {
                    trade_var: *trade_var as int,
                    remaining_budget_after: *remaining_budget_after as int,
                }
            },
            DailyLimitCheck::Warning { message, trade_var, remaining_budget } => {
                LimitVerdict::Warning {
                    message: message@,
                    trade_var: *trade_var as int,
                    remaining_budget: *remaining_budget as int,
                }
            },
            DailyLimitCheck::Blocked { reason, daily_pnl, daily_limit } => LimitVerdict::Blocked {
                reason: reason@,
                daily_pnl: *daily_pnl as int,
                daily_limit: *daily_limit as int,
            },
        }
    }
}

impl DailyLimitCheck {
    /// Whether the trade must not be made.
    pub fn is_blocked(&self) -> (r: bool)
        ensures
            r == (self is Blocked),
    {
        matches!(self, DailyLimitCheck::Blocked { .. })
    }
}

/// Whether a trade with the value at risk `trade_var` fits into what the limit
/// and the day's result leave.
pub open spec fn limit_verdict(
    trade_var: int,
    daily_pnl: int,
    daily_var_limit: int,
) -> LimitVerdict {
    let remaining = daily_var_limit + daily_pnl;
    if daily_pnl < -daily_var_limit {
        LimitVerdict::Blocked {
            reason: "Límite diario alcanzado. P&L hoy: $"@ + fixed_text(daily_pnl, 2)
                + ", límite: $"@ + fixed_text(held(-daily_var_limit), 2),
            daily_pnl,
            daily_limit: daily_var_limit,
        }
    } else if trade_var > remaining {
        LimitVerdict::Blocked {
            reason: "VaR del trade ($"@ + fixed_text(trade_var, 2)
                + ") excede presupuesto restante ($"@ + fixed_text(held(remaining), 2) + ")"@,
            daily_pnl,
            daily_limit: daily_var_limit,
        }
    } else if 2 * trade_var > remaining {
        LimitVerdict::Warning {
            message: "Trade consume "@ + fixed_text((100 * SCALE * trade_var) / remaining, 1)
                + "% del presupuesto de riesgo restante"@,
            trade_var,
            remaining_budget: held(remaining),
        }
    } else {
        LimitVerdict::Approved { trade_var, remaining_budget_after: held(remaining - trade_var) }
    }
}

// ---------------------------------------------------------------------------
// Drawdown and portfolio
// ---------------------------------------------------------------------------

/// The highest of the running sums of the first `n` results, and zero.
pub open spec fn peak(s: Seq<i64>, n: int) -> int
    decreases n,
{
    if n <= 0 { 0 } else { larger(peak(s, n - 1), total(s.take(n))) }
}

/// The deepest fall of the running sum below its peak, over the first `n`
/// results.
pub open spec fn deepest_fall(s: Seq<i64>, n: int) -> int
    decreases n,
{
    if n <= 0 {
        0
    } else {
        larger(deepest_fall(s, n - 1), peak(s, n) - total(s.take(n)))
    }
}

/// The deepest fall of the running sum of results below its peak.
pub fn calculate_max_drawdown(pnls: &[i64]) -> (r: i64)
    ensures
        r == held(deepest_fall(pnls@, pnls@.len() as int)),
        r >= 0,
{
    let mut top: i128 = 0;
    let mut cumulative: i128 = 0;
    let mut max_dd: i128 = 0;
    let mut i: usize = 0;
    while i < pnls.len()
        invariant
            i <= pnls.len(),
            cumulative == total(pnls@.take(i as int)),
            top == peak(pnls@, i as int),
            max_dd == deepest_fall(pnls@, i as int),
            0 <= top - cumulative <= i * 0x8000_0000_0000_0000,
            0 <= max_dd,
        decreases pnls.len() - i,
    {
        proof {
            lemma_total_bounds(pnls@.take(i as int));
            lemma_total_step(pnls@, i as int);
            lemma_sum_fits(i as int);
            assert((i + 1) * 0x8000_0000_0000_0000 <= 0x1_0000_0000_0000_0000
                * 0x8000_0000_0000_0000 - 0x8000_0000_0000_0000) by (nonlinear_arith)
                requires
                    i + 1 <= 0xFFFF_FFFF_FFFF_FFFF,
            ;
        }
        cumulative = cumulative + pnls[i] as i128;
        if top < cumulative {
            top = cumulative;
        }
        let drawdown: i128 = top - cumulative;
        if max_dd < drawdown {
            max_dd = drawdown;
        }
        i = i + 1;
    }
    hold(max_dd)
}

/// A drawdown is the largest difference between a running sum and a later one.
pub proof fn law_drawdown_is_largest_fall(s: Seq<i64>)
    ensures
        forall|i: int, j: int|
            0 <= i <= j <= s.len() ==> (#[trigger] total(s.take(i))) - (#[trigger] total(s.take(j)))
                <= deepest_fall(s, s.len() as int),
        exists|i: int, j: int|
            0 <= i <= j <= s.len() && (#[trigger] total(s.take(i))) - (#[trigger] total(s.take(j)))
                == deepest_fall(s, s.len() as int),
{
    let n: int = s.len() as int;
    assert forall|i: int, j: int| 0 <= i <= j <= s.len() implies (#[trigger] total(s.take(i)))
        - (#[trigger] total(s.take(j))) <= deepest_fall(s, n) by {
        lemma_fall_bound(s, n, i, j);
    }
    lemma_fall_attained(s, n);
}

proof fn lemma_peak_bound(s: Seq<i64>, n: int, i: int)
    requires
        0 <= i <= n <= s.len(),
    ensures
        total(s.take(i)) <= peak(s, n),
    decreases n,
{
    if n == 0 {
        assert(s.take(0).len() == 0);
    } else if i < n {
        lemma_peak_bound(s, n - 1, i);
    }
}

proof fn lemma_peak_attained(s: Seq<i64>, n: int) -> (i: int)
    requires
        0 <= n <= s.len(),
    ensures
        0 <= i <= n,
        total(s.take(i)) == peak(s, n),
    decreases n,
{
    if n == 0 {
        assert(s.take(0).len() == 0);
        0
    } else if peak(s, n) == total(s.take(n)) {
        n
    } else {
        lemma_peak_attained(s, n - 1)
    }
}

proof fn lemma_fall_bound(s: Seq<i64>, n: int, i: int, j: int)
    requires
        0 <= i <= j <= n <= s.len(),
    ensures
        total(s.take(i)) - total(s.take(j)) <= deepest_fall(s, n),
        deepest_fall(s, n) >= 0,
    decreases n,
{
    if n == 0 {
    } else if j < n {
        lemma_fall_bound(s, n - 1, i, j);
    } else {
        lemma_fall_bound(s, n - 1, 0, 0);
        lemma_peak_bound(s, n, i);
    }
}

proof fn lemma_fall_attained(s: Seq<i64>, n: int)
    requires
        0 <= n <= s.len(),
    ensures
        exists|i: int, j: int|
            0 <= i <= j <= n && (#[trigger] total(s.take(i))) - (#[trigger] total(s.take(j)))
                == deepest_fall(s, n),
    decreases n,
{
    if n == 0 {
        assert(total(s.take(0)) - total(s.take(0)) == deepest_fall(s, 0));
    } else if deepest_fall(s, n) == peak(s, n) - total(s.take(n)) {
        let i: int = lemma_peak_attained(s, n);
        assert(total(s.take(i)) - total(s.take(n)) == deepest_fall(s, n));
    } else {
        lemma_fall_attained(s, n - 1);
    }
}

/// How the trades that are remembered have gone.
#[derive(Debug, Clone, Copy)]
pub struct PortfolioStats {
    pub total_trades: usize,
    pub total_pnl: i64,
    pub daily_pnl: i64,
    pub win_rate: i64,
    pub avg_win: i64,
    pub avg_loss: i64,
    /// The gains for one unit of loss; nothing where nothing was lost.
    pub profit_factor: Option<i64>,
    pub sharpe_ratio: i64,
    pub max_drawdown: i64,
    pub var_95: i64,
    pub cvar_95: i64,
    pub var_99: i64,
}

impl PortfolioStats {
    /// The statistics without any trade.
    pub open spec fn zero() -> PortfolioStats {
        PortfolioStats {
            total_trades: 0,
            total_pnl: 0,
            daily_pnl: 0,
            win_rate: 0,
            avg_win: 0,
            avg_loss: 0,
            profit_factor: Some(0),
            sharpe_ratio: 0,
            max_drawdown: 0,
            var_95: 0,
            cvar_95: 0,
            var_99: 0,
        }
    }
}

impl Default for PortfolioStats {
    fn default() -> (r: PortfolioStats)
        ensures
            r == PortfolioStats::zero(),
    {
        PortfolioStats {
            total_trades: 0,
            total_pnl: 0,
            daily_pnl: 0,
            win_rate: 0,
            avg_win: 0,
            avg_loss: 0,
            profit_factor: Some(0),
            sharpe_ratio: 0,
            max_drawdown: 0,
            var_95: 0,
            cvar_95: 0,
            var_99: 0,
        }
    }
}

/// The gains among results.
pub open spec fn gains(s: Seq<i64>) -> Seq<i64> {
    s.filter(|p: i64| p > 0)
}

/// The losses among results.
pub open spec fn losses(s: Seq<i64>) -> Seq<i64> {
    s.filter(|p: i64| p < 0)
}

/// The mean of results, zero for none.
pub open spec fn mean_or_zero(s: Seq<i64>) -> int {
    if s.len() == 0 { 0 } else { mean(s) }
}

/// The value at risk of results; nothing where there are too few.
pub open spec fn value_at_risk(s: Seq<i64>, level: ConfidenceLevel) -> Option<i64> {
    if s.len() < MIN_TRADES {
        None
    } else {
        Some(edge_loss(s, tail_edge(level.tail_share(), s.len() as int)) as i64)
    }
}

/// How many results the mean of the tail is taken from: at least one, and not
/// all.
pub open spec fn shortfall_count(share: int, n: int) -> int {
    smaller(larger(tail_size(share, n), 1), n - 1)
}

/// The mean loss of the tail of results; nothing where there are too few.
pub open spec fn shortfall(s: Seq<i64>, level: ConfidenceLevel) -> Option<i64> {
    if s.len() < MIN_TRADES {
        None
    } else {
        Some(mean_loss(s, shortfall_count(level.tail_share(), s.len() as int)) as i64)
    }
}

/// An amount, or zero where there is none.
pub open spec fn or_zero(x: Option<i64>) -> i64 {
    match x {
        Some(v) => v,
        None => 0,
    }
}

/// How trades have gone, by their results.
pub open spec fn portfolio(s: Seq<i64>, daily_pnl: i64) -> PortfolioStats {
    if s.len() == 0 {
        PortfolioStats::zero()
    } else {
        let n = s.len() as int;
        let dev = deviation(s, larger(n - 1, 1));
        PortfolioStats {
            total_trades: s.len() as usize,
            total_pnl: held(total(s)) as i64,
            daily_pnl,
            win_rate: ((gains(s).len() * SCALE) / n) as i64,
            avg_win: mean_or_zero(gains(s)) as i64,
            avg_loss: mean_or_zero(losses(s)) as i64,
            profit_factor: if losses(s).len() == 0 {
                None
            } else {
                Some(held((total(gains(s)) * SCALE) / -total(losses(s))) as i64)
            },
            sharpe_ratio: if dev > 0 { held((mean(s) * SCALE) / dev) as i64 } else { 0 },
            max_drawdown: held(deepest_fall(s, n)) as i64,
            var_95: or_zero(value_at_risk(s, ConfidenceLevel::Pct95)),
            cvar_95: or_zero(shortfall(s, ConfidenceLevel::Pct95)),
            var_99: or_zero(value_at_risk(s, ConfidenceLevel::Pct99)),
        }
    }
}

// ---------------------------------------------------------------------------
// The engine
// ---------------------------------------------------------------------------

/// How a trade was executed.
#[derive(Debug, Clone, Copy, PartialEq, Eq, Structural)]
pub enum ExecutionType {
    /// Every order filled.
    FullFill,
    /// Some legs filled.
    PartialFill { legs_filled: usize, legs_total: usize },
    /// No order filled.
    NoFill,
    /// The trade was only simulated.
    Simulated,
}

/// The result of a trade.
#[derive(Debug, Clone)]
pub struct PnLRecord {
    pub trade_id: String,
    /// What was gained; negative for a loss.
    pub pnl: i64,
    /// The capital that stood at risk.
    pub capital_at_risk: i64,
    pub execution_type: ExecutionType,
    pub timestamp: Timestamp,
}

/// The results of the latest trades, oldest first.
#[derive(Debug)]
pub struct TradeWindow {
    records: VecDeque<PnLRecord>,
}

impl TradeWindow {
    /// The results that are remembered, oldest first.
    pub closed spec fn records(&self) -> Seq<PnLRecord> {
        self.records@
    }

    #[verifier::type_invariant]
    spec fn within_room(&self) -> bool {
        self.records@.len() <= MAX_TRADES
    }

    /// A window without results.
    pub fn new() -> (r: TradeWindow)
        ensures
            r.records().len() == 0,
    {
        TradeWindow { records: VecDeque::with_capacity(MAX_TRADES) }
    }

    /// The number of results; never more than there is room for.
    pub fn len(&self) -> (r: usize)
        ensures
            r == self.records().len(),
            r <= MAX_TRADES,
    {
        proof {
            use_type_invariant(self);
        }
        self.records.len()
    }

    /// The result at a place.
    pub fn get(&self, i: usize) -> (r: &PnLRecord)
        requires
            i < self.records().len(),
        ensures
            *r == self.records()[i as int],
    {
        &self.records[i]
    }

    /// Enters a result; the oldest makes room where there is none.
    pub fn push(&mut self, record: PnLRecord)
        ensures
            final(self).records() == remembered(old(self).records(), record),
            final(self).records().len() <= MAX_TRADES,
    {
        proof {
            use_type_invariant(&*self);
        }
        let mut records: VecDeque<PnLRecord> = VecDeque::new();
        std::mem::swap(&mut records, &mut self.records);
        if records.len() >= MAX_TRADES {
            let _ = records.pop_front();
            assert(records@ =~= old(self).records@.skip(1));
        }
        records.push_back(record);
        self.records = records;
    }
}

/// Remembers the results of trades and values the risk of further ones.
#[derive(Debug)]
pub struct VaREngine {
    pub pnl_history: TradeWindow,
    pub confidence_level: ConfidenceLevel,
    /// The largest loss allowed on one day.
    pub daily_var_limit: i64,
    /// The result of the current day.
    pub daily_pnl: i64,
    /// The capital under management.
    pub total_capital: i64,
    /// The number of the day that the daily result belongs to.
    pub current_day: i32,
}

/// The results of trades.
pub open spec fn results(history: Seq<PnLRecord>) -> Seq<i64> {
    history.map_values(|r: PnLRecord| r.pnl)
}

/// What is remembered once `record` has come: the oldest result makes room
/// where there is none.
pub open spec fn remembered(history: Seq<PnLRecord>, record: PnLRecord) -> Seq<PnLRecord> {
    if history.len() >= MAX_TRADES { history.skip(1).push(record) } else { history.push(record) }
}

/// Whether `after` is the engine `before` with `record` entered on a day: the
/// result counts toward that day, which starts from zero where it is a new one.
pub open spec fn recorded(
    before: VaREngine,
    record: PnLRecord,
    day: int,
    after: VaREngine,
) -> bool {
    &&& after.history() == remembered(before.history(), record)
    &&& after.daily_pnl == held(
        (if day == before.current_day { before.daily_pnl as int } else { 0 }) + record.pnl,
    )
    &&& after.current_day == day
    &&& after.confidence_level == before.confidence_level
    &&& after.daily_var_limit == before.daily_var_limit
    &&& after.total_capital == before.total_capital
}

/// The value at risk that normally distributed results have.
pub open spec fn normal_value_at_risk(s: Seq<i64>, level: ConfidenceLevel) -> Option<i64> {
    if s.len() < MIN_TRADES {
        None
    } else {
        Some(
            larger(
                held(
                    (level.deviations() * deviation(s, s.len() - 1)) / (SCALE as int) - mean(s),
                ),
                0,
            ) as i64,
        )
    }
}

/// Whether a point in time falls on a day.
pub open spec fn falls_on(t: Timestamp, day: int) -> bool {
    Timestamp::exists_at(t.seconds(), t.subsecond()) && day == day_number(t.seconds())
}

/// Whether a day is that of some point in time.
pub open spec fn on_some_day(day: int) -> bool {
    exists|t: Timestamp| #[trigger] falls_on(t, day)
}

impl VaREngine {
    /// The results that are remembered, oldest first.
    pub open spec fn history(&self) -> Seq<PnLRecord> {
        self.pnl_history.records()
    }

    /// The gains and losses that are remembered, oldest first.
    pub open spec fn pnls(&self) -> Seq<i64> {
        results(self.history())
    }

    /// An engine that remembers nothing, on the current day.
    pub fn new(confidence_level: ConfidenceLevel, daily_var_limit: i64, total_capital: i64) -> (r:
        VaREngine)
        ensures
            r.history().len() == 0,
            r.confidence_level == confidence_level,
            r.daily_var_limit == daily_var_limit,
            r.daily_pnl == 0,
            r.total_capital == total_capital,
            on_some_day(r.current_day as int),
    {
        let t: Timestamp = now();
        assert(falls_on(t, day_number(t.seconds())));
        Self::new_on(confidence_level, daily_var_limit, total_capital, day_of(&t))
    }

    /// An engine that remembers nothing, on a given day.
    pub fn new_on(
        confidence_level: ConfidenceLevel,
        daily_var_limit: i64,
        total_capital: i64,
        day: i32,
    ) -> (r: VaREngine)
        ensures
            r.history().len() == 0,
            r.confidence_level == confidence_level,
            r.daily_var_limit == daily_var_limit,
            r.daily_pnl == 0,
            r.total_capital == total_capital,
            r.current_day == day,
    {
        VaREngine {
            pnl_history: TradeWindow::new(),
            confidence_level,
            daily_var_limit,
            daily_pnl: 0,
            total_capital,
            current_day: day,
        }
    }

    /// Enters the result of a trade on the day of the current time.
    pub fn record_trade(&mut self, record: PnLRecord)
        ensures
            exists|t: Timestamp|
                Timestamp::exists_at(t.seconds(), t.subsecond()) && #[trigger] recorded(
                    *old(self),
                    record,
                    day_number(t.seconds()),
                    *final(self),
                ),
    {
        let t: Timestamp = now();
        self.record_trade_on(record, day_of(&t));
        assert(recorded(*old(self), record, day_number(t.seconds()), *self));
    }

    /// Enters the result of a trade on a given day.
    pub fn record_trade_on(&mut self, record: PnLRecord, today: i32)
        ensures
            recorded(*old(self), record, today as int, *final(self)),
    {
        if today != self.current_day {
            self.daily_pnl = 0;
            self.current_day = today;
        }
        self.daily_pnl = hold(self.daily_pnl as i128 + record.pnl as i128);
        self.pnl_history.push(record);
    }

    /// The gains and losses that are remembered, oldest first.
    fn pnl_values(&self) -> (r: Vec<i64>)
        ensures
            r@ == self.pnls(),
            r.len() <= MAX_TRADES,
    {
        let mut r: Vec<i64> = Vec::new();
        let n: usize = self.pnl_history.len();
        let mut i: usize = 0;
        while i < n
            invariant
                i <= n == self.history().len(),
                r@ == self.pnls().take(i as int),
            decreases n - i,
        {
            r.push(self.pnl_history.get(i).pnl);
            i = i + 1;
            assert(r@ =~= self.pnls().take(i as int));
        }
        assert(r@ =~= self.pnls());
        r
    }

    /// The loss that is not exceeded at a level of confidence, by the results
    /// that are remembered; nothing where there are too few.
    pub fn historical_var(&self, confidence: ConfidenceLevel) -> (r: Option<i64>)
        ensures
            r == value_at_risk(self.pnls(), confidence),
    {
        let pnls: Vec<i64> = self.pnl_values();
        if pnls.len() < MIN_TRADES {
            return None;
        }
        let sorted: Vec<i64> = sort_ascending(&pnls);
        proof {
            lemma_ascending(pnls@);
        }
        let count: usize = tail_count(confidence.alpha(), sorted.len());
        let idx: usize = if count <= sorted.len() - 1 { count } else { sorted.len() - 1 };
        Some(loss(sorted[idx]))
    }

    /// The loss that is not exceeded at a level of confidence where results
    /// are normally distributed; nothing where there are too few.
    pub fn parametric_var(&self, confidence: ConfidenceLevel) -> (r: Option<i64>)
        ensures
            r == normal_value_at_risk(self.pnls(), confidence),
    {
        let pnls: Vec<i64> = self.pnl_values();
        if pnls.len() < MIN_TRADES {
            return None;
        }
        let m: i64 = mean_of(&pnls);
        let std_dev: u64 = deviation_of(&pnls, (pnls.len() - 1) as u64);
        let z: i64 = confidence.z_score();
        proof {
            lemma_mul_bound(z as int, std_dev as int, 10_000_000, 0xFFFF_FFFF_FFFF_FFFF);
            lemma_div_bound(
                z * std_dev,
                SCALE as int,
                -0x1_0000_0000_0000_0000_0000,
                0x1_0000_0000_0000_0000_0000,
            );
        }
        let var: i64 = hold(
            div_down(z as i128 * std_dev as i128, SCALE as i128) - m as i128,
        );
        Some(if var >= 0 { var } else { 0 })
    }

    /// The mean of the losses beyond that level; nothing where there are too
    /// few results.
    pub fn cvar(&self, confidence: ConfidenceLevel) -> (r: Option<i64>)
        ensures
            r == shortfall(self.pnls(), confidence),
    {
        let pnls: Vec<i64> = self.pnl_values();
        if pnls.len() < MIN_TRADES {
            return None;
        }
        let sorted: Vec<i64> = sort_ascending(&pnls);
        proof {
            lemma_ascending(pnls@);
        }
        let count: usize = tail_count(confidence.alpha(), sorted.len());
        let least: usize = if count >= 1 { count } else { 1 };
        let cutoff: usize = if least <= sorted.len() - 1 { least } else { sorted.len() - 1 };
        Some(mean_of_losses(&sorted, cutoff))
    }

    /// What a trade risks, over many scenarios of its execution.
    pub fn execution_var(
        &self,
        opportunity: &OpportunityRiskProfile,
        confidence: ConfidenceLevel,
    ) -> (r: ExecutionVaRResult)
        ensures
            is_valuation(r, *self, *opportunity, confidence),
    {
        let scenarios: Vec<i64> = simulate_outcomes(opportunity);
        let expected_value: i64 = mean_of(&scenarios);
        let sorted: Vec<i64> = sort_ascending(&scenarios);
        proof {
            lemma_ascending(scenarios@);
        }
        let count: usize = tail_count(confidence.alpha(), sorted.len());
        let var_idx: usize = if count <= sorted.len() - 1 { count } else { sorted.len() - 1 };
        let var: i64 = loss(sorted[var_idx]);
        let cvar: i64 = mean_of_losses(&sorted, if var_idx >= 1 { var_idx } else { 1 });
        let profit: i64 = opportunity.guaranteed_profit;
        let profit_var_ratio: Option<i64> = if var > 0 {
            proof {
                lemma_mul_bound(profit as int, SCALE as int, 0x8000_0000_0000_0000, 1_000_000);
            }
            Some(hold(div_down(profit as i128 * SCALE as i128, var as i128)))
        } else {
            None
        };
        ExecutionVaRResult {
            var,
            cvar,
            expected_value,
            profit_var_ratio,
            confidence_level: confidence,
            fill_probability: opportunity.fill_probability,
            worst_case_loss: opportunity.worst_case_single_leg_loss,
            recommendation: determine_recommendation(
                var,
                profit,
                expected_value,
                self.daily_var_limit,
                self.daily_pnl,
                self.total_capital,
                opportunity.fill_probability,
                opportunity.worst_case_single_leg_loss,
            ),
        }
    }

    /// Whether a trade fits into what is left of the day's limit.
    pub fn check_daily_limit(&self, trade_var: i64) -> (r: DailyLimitCheck)
        ensures
            r@ == limit_verdict(
                trade_var as int,
                self.daily_pnl as int,
                self.daily_var_limit as int,
            ),
    {
        let remaining: i128 = self.daily_var_limit as i128 + self.daily_pnl as i128;
        if (self.daily_pnl as i128) < -(self.daily_var_limit as i128) {
            let mut reason: String = "Límite diario alcanzado. P&L hoy: $".to_owned();
            reason.append(fixed(self.daily_pnl, 2).as_str());
            reason.append(", límite: $");
            reason.append(fixed(hold(-(self.daily_var_limit as i128)), 2).as_str());
            return DailyLimitCheck::Blocked {
                reason,
                daily_pnl: self.daily_pnl,
                daily_limit: self.daily_var_limit,
            };
        }
        if trade_var as i128 > remaining {
            let mut reason: String = "VaR del trade ($".to_owned();
            reason.append(fixed(trade_var, 2).as_str());
            reason.append(") excede presupuesto restante ($");
            reason.append(fixed(hold(remaining), 2).as_str());
            reason.append(")");
            return DailyLimitCheck::Blocked {
                reason,
                daily_pnl: self.daily_pnl,
                daily_limit: self.daily_var_limit,
            };
        }
        if 2 * trade_var as i128 > remaining {
            proof {
                assert(100 * SCALE * trade_var == 100_000_000 * trade_var);
                lemma_div_bound(100_000_000 * trade_var, remaining as int, 0, 100_000_000);
            }
            let share: i64 = div_down(100_000_000 * trade_var as i128, remaining) as i64;
            let mut message: String = "Trade consume ".to_owned();
            message.append(fixed(share, 1).as_str());
            message.append("% del presupuesto de riesgo restante");
            return DailyLimitCheck::Warning {
                message,
                trade_var,
                remaining_budget: hold(remaining),
            };
        }
        DailyLimitCheck::Approved {
            trade_var,
            remaining_budget_after: hold(remaining - trade_var as i128),
        }
    }

    /// How the trades that are remembered have gone.
    pub fn portfolio_stats(&self) -> (r: PortfolioStats)
        ensures
            r == portfolio(self.pnls(), self.daily_pnl),
    {
        let pnls: Vec<i64> = self.pnl_values();
        if pnls.len() == 0 {
            return PortfolioStats::default();
        }
        let n: usize = pnls.len();
        let (wins, defeats) = split_results(&pnls);
        let total_wins: i128 = sum(wins.as_slice());
        let total_losses: i128 = sum(defeats.as_slice());
        let mean_pnl: i64 = mean_of(&pnls);
        let std_dev: u64 = deviation_of(&pnls, if n > 1 { (n - 1) as u64 } else { 1 });
        proof {
            lemma_total_bounds(wins@);
            lemma_loss_sum(pnls@);
            lemma_mul_bound(mean_pnl as int, SCALE as int, 0x8000_0000_0000_0000, 1_000_000);
            let w: int = wins@.len() as int;
            lemma_div_bound(w * SCALE, n as int, 0, 1_000_000);
            lemma_mul_bound(
                total_wins as int,
                SCALE as int,
                0x200_0000_0000_0000_0000,
                1_000_000,
            );
        }
        let profit_factor: Option<i64> = if defeats.len() == 0 {
            None
        } else {
            Some(hold(div_down(total_wins * SCALE as i128, -total_losses)))
        };
        PortfolioStats {
            total_trades: n,
            total_pnl: hold(sum(pnls.as_slice())),
            daily_pnl: self.daily_pnl,
            win_rate: div_down(wins.len() as i128 * SCALE as i128, n as i128) as i64,
            avg_win: if wins.len() == 0 { 0 } else { mean_of(&wins) },
            avg_loss: if defeats.len() == 0 { 0 } else { mean_of(&defeats) },
            profit_factor,
            sharpe_ratio: if std_dev > 0 {
                hold(div_down(mean_pnl as i128 * SCALE as i128, std_dev as i128))
            } else {
                0
            },
            max_drawdown: calculate_max_drawdown(pnls.as_slice()),
            var_95: amount_or_zero(self.historical_var(ConfidenceLevel::Pct95)),
            cvar_95: amount_or_zero(self.cvar(ConfidenceLevel::Pct95)),
            var_99: amount_or_zero(self.historical_var(ConfidenceLevel::Pct99)),
        }
    }
}

fn amount_or_zero(x: Option<i64>) -> (r: i64)
    ensures
        r == or_zero(x),
{
    match x {
        Some(v) => v,
        None => 0,
    }
}

/// The gains and the losses among results.
fn split_results(pnls: &Vec<i64>) -> (r: (Vec<i64>, Vec<i64>))
    ensures
        r.0@ == gains(pnls@),
        r.1@ == losses(pnls@),
        r.0.len() <= pnls.len(),
{
    let mut wins: Vec<i64> = Vec::new();
    let mut defeats: Vec<i64> = Vec::new();
    let mut i: usize = 0;
    proof {
        reveal(Seq::filter);
    }
    while i < pnls.len()
        invariant
            i <= pnls.len(),
            wins@ == gains(pnls@.take(i as int)),
            defeats@ == losses(pnls@.take(i as int)),
            wins@.len() <= i,
        decreases pnls.len() - i,
    {
        proof {
            reveal(Seq::filter);
            assert(pnls@.take(i + 1).drop_last() =~= pnls@.take(i as int));
        }
        let p: i64 = pnls[i];
        if p > 0 {
            wins.push(p);
        }
        if p < 0 {
            defeats.push(p);
        }
        i = i + 1;
    }
    assert(pnls@.take(i as int) =~= pnls@);
    (wins, defeats)
}

/// The sum of losses is negative unless there are none.
proof fn lemma_loss_sum(s: Seq<i64>)
    ensures
        losses(s).len() > 0 ==> total(losses(s)) < 0,
        losses(s).len() == 0 ==> total(losses(s)) == 0,
        losses(s).len() <= s.len(),
        s.len() * i64::MIN <= total(losses(s)) <= 0,
    decreases s.len(),
{
    reveal(Seq::filter);
    if s.len() > 0 {
        lemma_loss_sum(s.drop_last());
        let n: int = s.len() as int;
        assert(n * i64::MIN == (n - 1) * i64::MIN + i64::MIN) by (nonlinear_arith);
        if s.last() < 0 {
            assert(losses(s).drop_last() =~= losses(s.drop_last()));
        }
    }
}

} // verus!
