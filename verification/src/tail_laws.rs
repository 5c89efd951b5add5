//! What holds of tails: which results lie beyond a value at risk, and what they lose
//! on average.

use vstd::prelude::*;
use vstd::arithmetic::div_mod::lemma_fundamental_div_mod;
use vstd::multiset::Multiset;
use vstd::seq_lib::to_multiset_build;
use crate::executor::trade_var;
use crate::order::{ascending, lemma_ascending};
use crate::risk::{
    draw, edge_loss, is_valuation, loss_of, loss_total, mean_loss, outcome, profit_per_risk,
    seed_after, shortfall, simulated, tail_edge, tail_size, value_at_risk, ConfidenceLevel,
    ExecutionVaRResult, OpportunityRiskProfile, VaREngine,
};
use crate::risk_laws::law_advice;
use crate::units::{lemma_div_bound, smaller, total, SCALE};

verus! {

// ---------------------------------------------------------------------------
// Counting results
// ---------------------------------------------------------------------------

/// How many of the first `n` results are below `x`.
pub open spec fn below(s: Seq<i64>, x: int, n: int) -> int
    decreases n,
{
    if n <= 0 {
        0
    } else {
        below(s, x, n - 1) + if s[n - 1] < x { 1int } else { 0int }
    }
}

proof fn lemma_below_range(s: Seq<i64>, x: int, n: int)
    requires
        0 <= n,
    ensures
        0 <= below(s, x, n) <= n,
    decreases n,
{
    if n > 0 {
        lemma_below_range(s, x, n - 1);
    }
}

proof fn lemma_below_prefix(s: Seq<i64>, t: Seq<i64>, x: int, n: int)
    requires
        forall|i: int| 0 <= i < n ==> #[trigger] s[i] == t[i],
    ensures
        below(s, x, n) == below(t, x, n),
    decreases n,
{
    if n > 0 {
        lemma_below_prefix(s, t, x, n - 1);
        assert(s[n - 1] == t[n - 1]);
    }
}

/// How many results are below `x` does not depend on their order.
proof fn lemma_below_counts(s: Seq<i64>, x: int)
    ensures
        below(s, x, s.len() as int) == s.to_multiset().filter(|v: i64| v < x).len(),
    decreases s.len(),
{
    let is_below = |v: i64| v < x;
    s.to_multiset_ensures();
    if s.len() > 0 {
        let rest = s.drop_last();
        let last = s.last();
        lemma_below_counts(rest, x);
        lemma_below_prefix(s, rest, x, rest.len() as int);
        to_multiset_build(rest, last);
        assert(rest.push(last) =~= s);
        let m = rest.to_multiset();
        if last < x {
            assert(m.insert(last).filter(is_below) =~= m.filter(is_below).insert(last));
        } else {
            assert(m.insert(last).filter(is_below) =~= m.filter(is_below));
        }
    } else {
        assert(s.to_multiset() =~= Multiset::empty());
        assert(s.to_multiset().filter(is_below) =~= Multiset::empty());
    }
}

/// As many results are below `x` once they are sorted.
proof fn lemma_below_sorted(s: Seq<i64>, x: int)
    ensures
        below(ascending(s), x, s.len() as int) == below(s, x, s.len() as int),
{
    lemma_ascending(s);
    lemma_below_counts(s, x);
    lemma_below_counts(ascending(s), x);
}

/// Of sorted results those before a place are not above the one at it, and those
/// behind it not below.
proof fn lemma_below_place(t: Seq<i64>, x: int, k: int, n: int)
    requires
        forall|i: int, j: int| 0 <= i <= j < t.len() ==> #[trigger] t[i] <= #[trigger] t[j],
        0 <= k < t.len(),
        0 <= n <= t.len(),
    ensures
        t[k] >= x ==> below(t, x, n) <= k,
        t[k] < x ==> below(t, x, n) >= smaller(n, k + 1),
    decreases n,
{
    if n > 0 {
        lemma_below_place(t, x, k, n - 1);
        lemma_below_range(t, x, n - 1);
        if n - 1 >= k {
            assert(t[k] <= t[n - 1]);
        } else {
            assert(t[n - 1] <= t[k]);
        }
    }
}

/// The loss at the edge of a tail parts the results: no more than the tail's share of
/// them lose more, and more than that share lose as much.
proof fn lemma_edge_parts(s: Seq<i64>, share: int, edge: int)
    requires
        0 <= edge < s.len(),
        edge * SCALE <= share * s.len() < (edge + 1) * SCALE,
    ensures
        ({
            let v = edge_loss(s, edge);
            let n = s.len() as int;
            v < i64::MAX ==> {
                &&& below(s, -v, n) * SCALE <= share * n
                &&& v > 0 ==> below(s, -v + 1, n) * SCALE > share * n
            }
        }),
{
    let v: int = edge_loss(s, edge);
    let n: int = s.len() as int;
    let t = ascending(s);
    lemma_ascending(s);
    if v < i64::MAX {
        lemma_below_sorted(s, -v);
        lemma_below_sorted(s, -v + 1);
        lemma_below_place(t, -v, edge, n);
        lemma_below_place(t, -v + 1, edge, n);
    }
}

/// Where a share of `n` is at most a half of it, the edge of its tail is that share,
/// rounded down.
proof fn lemma_edge(share: int, n: int)
    requires
        0 <= share <= 500_000,
        2 <= n,
    ensures
        tail_edge(share, n) == tail_size(share, n),
        0 <= tail_edge(share, n) < n,
        tail_edge(share, n) * SCALE <= share * n < (tail_edge(share, n) + 1) * SCALE,
{
    assert(0 <= share * n <= 500_000 * n) by (nonlinear_arith)
        requires
            0 <= share <= 500_000,
            0 <= n,
    ;
    lemma_fundamental_div_mod(share * n, SCALE as int);
    lemma_div_bound(share * n, SCALE as int, 0, n - 1);
}

// ---------------------------------------------------------------------------
// Values at risk
// ---------------------------------------------------------------------------

/// The value at risk of results is a quantile of their losses: at most the share of
/// the tail lost more than it, and where it is a loss at all, more than that share
/// lost as much. There is one from thirty results on.
pub proof fn law_value_at_risk_is_quantile(s: Seq<i64>, level: ConfidenceLevel)
    ensures
        value_at_risk(s, level) is Some <==> s.len() >= 30,
        value_at_risk(s, level) matches Some(v) ==> {
            let n = s.len() as int;
            &&& v >= 0
            &&& v < i64::MAX ==> below(s, -v, n) * SCALE <= level.tail_share() * n
            &&& 0 < v < i64::MAX ==> below(s, -v + 1, n) * SCALE > level.tail_share() * n
        },
{
    if s.len() >= 30 {
        let n: int = s.len() as int;
        lemma_edge(level.tail_share(), n);
        lemma_edge_parts(s, level.tail_share(), tail_edge(level.tail_share(), n));
    }
}

/// The `k` worst results, gains among them taken as nothing.
pub open spec fn worst(s: Seq<i64>, k: nat) -> Seq<i64> {
    Seq::new(k, |i: int| smaller(ascending(s)[i] as int, 0) as i64)
}

/// The losses of sorted results are the amounts by which they are below zero.
proof fn lemma_worst_losses(s: Seq<i64>, k: nat)
    requires
        k <= s.len(),
        forall|i: int| 0 <= i < s.len() ==> #[trigger] s[i] > i64::MIN,
    ensures
        loss_total(ascending(s), k as int) == -total(worst(s, k)),
    decreases k,
{
    let t = ascending(s);
    lemma_ascending(s);
    if k > 0 {
        lemma_worst_losses(s, (k - 1) as nat);
        assert(worst(s, k).drop_last() =~= worst(s, (k - 1) as nat));
        let x = t[k - 1];
        t.to_multiset_ensures();
        s.to_multiset_ensures();
        assert(t.contains(x));
        assert(s.to_multiset().count(x) > 0);
        assert(s.contains(x));
        assert(worst(s, k).last() == smaller(x as int, 0));
    }
}

/// A mean loss is that of the worst results, rounded down.
proof fn lemma_mean_loss(s: Seq<i64>, k: int)
    requires
        0 < k <= s.len(),
        forall|i: int| 0 <= i < s.len() ==> #[trigger] s[i] > i64::MIN,
    ensures
        mean_loss(s, k) * k <= -total(worst(s, k as nat)) < (mean_loss(s, k) + 1) * k,
        0 <= mean_loss(s, k) <= i64::MAX,
{
    let c: int = mean_loss(s, k);
    let a: int = loss_total(ascending(s), k);
    lemma_worst_losses(s, k as nat);
    lemma_fundamental_div_mod(a, k);
    assert(c * k <= a < (c + 1) * k) by (nonlinear_arith)
        requires
            a == k * c + a % k,
            0 <= a % k < k,
    ;
    lemma_loss_range(ascending(s), k);
    lemma_div_bound(a, k, 0, i64::MAX as int);
}

proof fn lemma_loss_range(t: Seq<i64>, n: int)
    requires
        0 <= n,
    ensures
        0 <= loss_total(t, n) <= i64::MAX * n,
    decreases n,
{
    if n > 0 {
        lemma_loss_range(t, n - 1);
        assert(i64::MAX * n == i64::MAX * (n - 1) + i64::MAX) by (nonlinear_arith);
        assert(0 <= loss_of(t[n - 1] as int) <= i64::MAX);
    }
}

/// The mean loss of the tail is that of as many of the worst results as the tail's
/// share comes to, but of one at least; a gain among them counts as no loss.
pub proof fn law_shortfall_is_mean_of_worst(s: Seq<i64>, level: ConfidenceLevel, k: int)
    requires
        s.len() >= 30,
        forall|i: int| 0 <= i < s.len() ==> #[trigger] s[i] > i64::MIN,
        k >= 1,
        k == 1 || k * SCALE <= level.tail_share() * s.len(),
        level.tail_share() * s.len() < (k + 1) * SCALE,
    ensures
        shortfall(s, level) matches Some(c) && c * k <= -total(worst(s, k as nat)) < (c + 1) * k,
{
    lemma_edge(level.tail_share(), s.len() as int);
    lemma_mean_loss(s, k);
}

// ---------------------------------------------------------------------------
// Scenarios
// ---------------------------------------------------------------------------

/// The generator's states follow each other by one linear step, modulo two to the
/// power 64, and a draw is the upper half of a state.
pub proof fn law_draws(k: int)
    requires
        0 <= k,
    ensures
        seed_after(0) == 42,
        exists|q: int|
            seed_after(k + 1) + #[trigger] (q * 0x1_0000_0000_0000_0000) == 6364136223846793005
                * seed_after(k) + 1442695040888963407,
        draw(k) * 0x1_0000_0000 <= seed_after(k + 1) < (draw(k) + 1) * 0x1_0000_0000,
        0 <= draw(k) < 0x1_0000_0000,
{
    reveal_with_fuel(seed_after, 2);
    let base: int = 0x1_0000_0000_0000_0000;
    let a: int = seed_after(k) as int;
    let x: int = a * 6364136223846793005;
    let y: int = seed_after(k).wrapping_mul(6364136223846793005) as int;
    let z: int = y + 1442695040888963407;
    assert(y == x % base);
    lemma_fundamental_div_mod(x, base);
    let carry: int = if z >= base { 1 } else { 0 };
    assert(seed_after(k + 1) == z - carry * base);
    let q: int = x / base + carry;
    assert(seed_after(k + 1) + q * base == x + 1442695040888963407);
}

/// A trade has ten thousand scenarios. In each it yields its profit, three tenths of
/// it, or the worst loss; where the draw is at most that of another scenario, it
/// yields no less than there; and a higher chance of a fill never makes one worse.
pub proof fn law_scenarios(p: OpportunityRiskProfile, q: OpportunityRiskProfile, i: int, j: int)
    requires
        0 <= i < 10_000,
        0 <= j < 10_000,
        p.guaranteed_profit >= 0,
        p.worst_case_single_leg_loss >= 0,
        q.guaranteed_profit == p.guaranteed_profit,
        q.worst_case_single_leg_loss == p.worst_case_single_leg_loss,
        0 <= p.fill_probability <= q.fill_probability <= SCALE,
        draw(j) <= draw(i),
    ensures
        simulated(p).len() == 10_000,
        ({
            let x = simulated(p)[i] as int;
            ||| x == p.guaranteed_profit
            ||| 10 * x <= 3 * p.guaranteed_profit < 10 * x + 10
            ||| x == -p.worst_case_single_leg_loss
        }),
        simulated(p)[i] <= simulated(q)[j],
{
    let r: int = draw(i);
    let l: int = draw(j);
    let profit: int = p.guaranteed_profit as int;
    assert((3 * profit) / 10 <= profit);
    assert(0 <= (3 * profit) / 10);
    assert(simulated(p)[i] == outcome(
        profit,
        p.fill_probability as int,
        p.worst_case_single_leg_loss as int,
        r,
    ));
    assert(simulated(q)[j] == outcome(
        profit,
        q.fill_probability as int,
        q.worst_case_single_leg_loss as int,
        l,
    ));
}

/// The chance of a fill is the share of the draws that yield the profit, and what
/// remains of them is halved: the lower half yields three tenths of it, the upper half
/// the worst loss.
pub proof fn law_outcome_shares(profit: int, fill: int, worst: int, r: int)
    requires
        0 <= fill <= SCALE,
        0 <= r < 0x1_0000_0000,
        i64::MIN < worst <= i64::MAX,
    ensures
        ({
            let full = fill * 0x1_0000_0000;
            let open = (SCALE - fill) * 0x1_0000_0000;
            let x = outcome(profit, fill, worst, r);
            &&& r * SCALE < full ==> x == profit
            &&& 0 <= 2 * (r * SCALE - full) < open ==> 10 * x <= 3 * profit < 10 * x + 10
            &&& open <= 2 * (r * SCALE - full) ==> x == -worst
        }),
{
}

// ---------------------------------------------------------------------------
// The valuation of a trade
// ---------------------------------------------------------------------------

/// What a trade risks, over its scenarios: no more of them than the tail's share lose
/// more than the value at risk, and more than that share lose as much; the mean loss
/// beyond it is that of the tail's share of the worst scenarios; and the mean result
/// is that of all of them. Each is rounded down.
pub proof fn law_valuation(
    r: ExecutionVaRResult,
    engine: VaREngine,
    p: OpportunityRiskProfile,
    level: ConfidenceLevel,
    k: int,
)
    requires
        is_valuation(r, engine, p, level),
        p.guaranteed_profit >= 0,
        p.worst_case_single_leg_loss >= 0,
        k * SCALE == level.tail_share() * 10_000,
    ensures
        ({
            let s = simulated(p);
            &&& 0 <= r.var <= r.cvar
            &&& r.var < i64::MAX ==> below(s, -r.var, 10_000) <= k
            &&& 0 < r.var < i64::MAX ==> below(s, -r.var + 1, 10_000) > k
            &&& r.cvar * k <= -total(worst(s, k as nat)) < (r.cvar + 1) * k
            &&& r.expected_value * 10_000 <= total(s) < (r.expected_value + 1) * 10_000
            &&& r.fill_probability == p.fill_probability
            &&& r.worst_case_loss == p.worst_case_single_leg_loss
            &&& r.confidence_level == level
        }),
{
    let s = simulated(p);
    let share: int = level.tail_share();
    let edge: int = tail_edge(share, 10_000);
    lemma_edge(share, 10_000);
    assert(edge == k && 10 <= k);
    lemma_edge_parts(s, share, edge);
    assert forall|i: int| 0 <= i < s.len() implies #[trigger] s[i] > i64::MIN by {
        assert(s[i] == outcome(
            p.guaranteed_profit as int,
            p.fill_probability as int,
            p.worst_case_single_leg_loss as int,
            draw(i),
        ));
    }
    lemma_mean_loss(s, k);
    lemma_fundamental_div_mod(total(s), 10_000);
    crate::risk::law_mean_loss_at_least_edge(s, k, edge);
}

/// The profit for one unit of value at risk, rounded down: it is below a ratio exactly
/// where the profit is below that many times the risk. There is none where nothing is
/// at risk.
pub proof fn law_profit_per_risk(profit: int, var: int, ratio: int)
    requires
        i64::MIN < ratio <= i64::MAX,
    ensures
        profit_per_risk(profit, var) is Some <==> var > 0,
        profit_per_risk(profit, var) matches Some(x) ==> (x < ratio <==> profit * SCALE < ratio
            * var),
{
    if var > 0 {
        let a: int = profit * SCALE;
        lemma_fundamental_div_mod(a, var);
        let q: int = a / var;
        assert(q < ratio <==> a < ratio * var) by (nonlinear_arith)
            requires
                a == var * q + a % var,
                0 <= a % var < var,
        ;
    }
}

/// What is advised on a trade goes by its own value at risk and mean result, by the day's
/// limit and result of the engine, and by its capital.
pub proof fn law_valuation_advises(
    r: ExecutionVaRResult,
    engine: VaREngine,
    p: OpportunityRiskProfile,
    level: ConfidenceLevel,
    ratio: int,
)
    requires
        is_valuation(r, engine, p, level),
        i64::MIN < ratio <= i64::MAX,
    ensures
        r.recommendation@ !is Skip <==> {
            &&& r.expected_value > 0
            &&& (SCALE - p.fill_probability) * p.worst_case_single_leg_loss <= 4 * SCALE
                * p.guaranteed_profit
            &&& r.var <= 3 * p.guaranteed_profit
            &&& 5 * engine.daily_pnl >= -4 * engine.daily_var_limit
        },
        engine.total_capital > 0 && r.recommendation@ is Execute ==> 50 * r.var
            <= engine.total_capital,
        engine.total_capital > 0 && r.recommendation@ is ExecuteReduced ==> 50 * r.var
            > engine.total_capital,
        r.profit_var_ratio is Some <==> r.var > 0,
        r.profit_var_ratio matches Some(x) ==> (x < ratio <==> p.guaranteed_profit * SCALE < ratio
            * r.var),
{
    law_advice(
        r.var as int,
        p.guaranteed_profit as int,
        r.expected_value as int,
        engine.daily_var_limit as int,
        engine.daily_pnl as int,
        engine.total_capital as int,
        p.fill_probability as int,
        p.worst_case_single_leg_loss as int,
    );
    law_profit_per_risk(p.guaranteed_profit as int, r.var as int, ratio);
}

/// A trade is cleared by its value at risk at a confidence of 95 in a hundred: at most five
/// hundred of its ten thousand scenarios lose more than it, and where it is a loss, more
/// than five hundred lose as much.
pub proof fn law_trade_var(p: OpportunityRiskProfile)
    ensures
        ({
            let v = trade_var(p);
            &&& 0 <= v <= i64::MAX
            &&& v < i64::MAX ==> below(simulated(p), -v, 10_000) <= 500
            &&& 0 < v < i64::MAX ==> below(simulated(p), -v + 1, 10_000) > 500
        }),
{
    let s = simulated(p);
    lemma_edge(50_000, 10_000);
    lemma_edge_parts(s, 50_000, tail_edge(50_000, 10_000));
}

} // verus!
