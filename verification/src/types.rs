//! Markets, order books, opportunities, trades and the bot's configuration.

use vstd::prelude::*;
use crate::clock::Timestamp;
use crate::risk::{on_some_day, ConfidenceLevel, VaREngine};
use crate::table::Table;
use crate::text::{decimal_value, parse_decimal, parse_port, port_value};
use crate::units::{
    div_down, held, hold, larger, lemma_div_bound, lemma_mul_bound, magnitude, smaller, wide_divide,
    SCALE,
};

verus! {

// ---------------------------------------------------------------------------
// Configuration
// ---------------------------------------------------------------------------

/// The bot's configuration.
#[derive(Debug, Clone)]
pub struct BotConfig {
    /// The address of the exchange's stream.
    pub ws_url: String,
    /// The address of the exchange's API.
    pub api_url: String,
    /// The key for the exchange's API; empty for a simulation.
    pub api_key: String,
    /// The smallest profit worth a trade.
    pub min_profit_threshold: i64,
    /// The largest capital for one trade.
    pub max_position_size: i64,
    /// The port of the dashboard.
    pub dashboard_port: u16,
    /// Whether trades are only simulated.
    pub dry_run: bool,
    /// The share of the arbitrage that a projection has to secure, in units of
    /// the projection.
    pub frank_wolfe_alpha: i64,
    /// The largest number of iterations of a projection.
    pub frank_wolfe_max_iter: usize,
    /// The largest loss allowed on one day.
    pub daily_var_limit: i64,
    /// The capital under management.
    pub total_capital: i64,
    /// The smallest ratio of profit to value at risk worth a trade.
    pub min_profit_var_ratio: i64,
}

/// The settings that the configuration is made from; each may be missing.
#[derive(Debug, Clone)]
pub struct Settings {
    pub polymarket_ws_url: Option<String>,
    pub polymarket_api_url: Option<String>,
    pub polymarket_api_key: Option<String>,
    pub min_profit: Option<String>,
    pub max_position: Option<String>,
    pub dashboard_port: Option<String>,
    pub dry_run: Option<String>,
    pub daily_var_limit: Option<String>,
    pub total_capital: Option<String>,
    pub min_profit_var_ratio: Option<String>,
}

/// A setting, or the default where it is missing.
pub open spec fn text_setting(value: Option<String>, default: Seq<char>) -> Seq<char> {
    match value {
        Some(v) => v@,
        None => default,
    }
}

/// The amount of a setting, or the default where it is missing or no amount.
pub open spec fn amount_setting(value: Option<String>, default: i64) -> i64 {
    match value {
        Some(v) => match decimal_value(v@) {
            Some(x) => x,
            None => default,
        },
        None => default,
    }
}

/// The port of a setting, or the default where it is missing or no port.
pub open spec fn port_setting(value: Option<String>, default: u16) -> u16 {
    match value {
        Some(v) => match port_value(v@) {
            Some(x) => x,
            None => default,
        },
        None => default,
    }
}

/// Whether trades are only simulated: where the setting says `true` or `1`, or
/// is missing.
pub open spec fn dry_run_setting(value: Option<String>) -> bool {
    match value {
        Some(v) => v@ == "true"@ || v@ == "1"@,
        None => true,
    }
}

fn text_or(value: &Option<String>, default: &str) -> (r: String)
    ensures
        r@ == text_setting(*value, default@),
{
    match value {
        Some(v) => v.clone(),
        None => default.to_owned(),
    }
}

fn amount_or(value: &Option<String>, default: i64) -> (r: i64)
    ensures
        r == amount_setting(*value, default),
{
    match value {
        Some(v) => match parse_decimal(v.as_str()) {
            Some(x) => x,
            None => default,
        },
        None => default,
    }
}

fn port_or(value: &Option<String>, default: u16) -> (r: u16)
    ensures
        r == port_setting(*value, default),
{
    match value {
        Some(v) => match parse_port(v.as_str()) {
            Some(x) => x,
            None => default,
        },
        None => default,
    }
}

impl BotConfig {
    /// The configuration that the settings ask for, with a default for each
    /// that is missing or cannot be read.
    pub fn from_env_or_default(env: &Settings) -> (r: BotConfig)
        ensures
            r.ws_url@ == text_setting(
                env.polymarket_ws_url,
                "wss://ws-subscriptions-clob.polymarket.com/ws/market"@,
            ),
            r.api_url@ == text_setting(env.polymarket_api_url, "https://clob.polymarket.com"@),
            r.api_key@ == text_setting(env.polymarket_api_key, ""@),
            r.min_profit_threshold == amount_setting(env.min_profit, 50_000),
            r.max_position_size == amount_setting(env.max_position, 100_000_000),
            r.dashboard_port == port_setting(env.dashboard_port, 3000),
            r.dry_run == dry_run_setting(env.dry_run),
            r.frank_wolfe_alpha == 900_000_000_000,
            r.frank_wolfe_max_iter == 150,
            r.daily_var_limit == amount_setting(env.daily_var_limit, 50_000_000),
            r.total_capital == amount_setting(env.total_capital, 500_000_000),
            r.min_profit_var_ratio == amount_setting(env.min_profit_var_ratio, 1_500_000),
    {
        let dry_run: bool = match &env.dry_run {
            Some(v) => *v == "true".to_owned() || *v == "1".to_owned(),
            None => true,
        };
        BotConfig {
            ws_url: text_or(
                &env.polymarket_ws_url,
                "wss://ws-subscriptions-clob.polymarket.com/ws/market",
            ),
            api_url: text_or(&env.polymarket_api_url, "https://clob.polymarket.com"),
            api_key: text_or(&env.polymarket_api_key, ""),
            min_profit_threshold: amount_or(&env.min_profit, 50_000),
            max_position_size: amount_or(&env.max_position, 100_000_000),
            dashboard_port: port_or(&env.dashboard_port, 3000),
            dry_run,
            frank_wolfe_alpha: 900_000_000_000,
            frank_wolfe_max_iter: 150,
            daily_var_limit: amount_or(&env.daily_var_limit, 50_000_000),
            total_capital: amount_or(&env.total_capital, 500_000_000),
            min_profit_var_ratio: amount_or(&env.min_profit_var_ratio, 1_500_000),
        }
    }
}

// ---------------------------------------------------------------------------
// Markets
// ---------------------------------------------------------------------------

/// The state of a market.
#[derive(Debug, Clone, Copy, PartialEq, Eq, Structural)]
pub enum MarketStatus {
    Active,
    Resolved,
    Paused,
}

/// A market with the outcomes YES and NO.
#[derive(Debug, Clone)]
pub struct Market {
    /// The market's identifier.
    pub condition_id: String,
    /// What the market asks.
    pub question: String,
    /// The price of YES.
    pub yes_price: i64,
    /// The price of NO.
    pub no_price: i64,
    /// The volume offered for YES.
    pub yes_volume: i64,
    /// The volume offered for NO.
    pub no_volume: i64,
    /// The time of the last change.
    pub last_updated: Timestamp,
    pub status: MarketStatus,
}

impl Market {
    /// A copy of the market.
    pub fn duplicate(&self) -> (r: Market)
        ensures
            r == *self,
    {
        Market {
            condition_id: self.condition_id.clone(),
            question: self.question.clone(),
            yes_price: self.yes_price,
            no_price: self.no_price,
            yes_volume: self.yes_volume,
            no_volume: self.no_volume,
            last_updated: self.last_updated,
            status: self.status,
        }
    }

    /// The price of the pair of outcomes.
    pub open spec fn pair_price(&self) -> int {
        held(self.yes_price + self.no_price)
    }

    /// The price of the pair of outcomes; one where there is no arbitrage.
    pub fn price_sum(&self) -> (r: i64)
        ensures
            r == self.pair_price(),
    {
        hold(self.yes_price as i128 + self.no_price as i128)
    }

    /// The distance of the pair's price from one.
    pub fn deviation(&self) -> (r: i64)
        ensures
            r == held(magnitude(self.pair_price() - SCALE)),
    {
        let d: i128 = self.price_sum() as i128 - SCALE as i128;
        hold(if d < 0 { -d } else { d })
    }

    /// Whether the pair costs less than one by more than a threshold.
    pub fn has_simple_arbitrage(&self, threshold: i64) -> (r: bool)
        ensures
            r == (self.pair_price() < SCALE - threshold),
    {
        (self.price_sum() as i128) < SCALE as i128 - threshold as i128
    }
}

// ---------------------------------------------------------------------------
// Order books
// ---------------------------------------------------------------------------

/// An offer: so much at such a price.
#[derive(Debug, Clone, Copy, PartialEq, Eq)]
pub struct OrderLevel {
    pub price: i64,
    pub size: i64,
}

/// The offers of a market.
#[derive(Debug, Clone)]
pub struct OrderBook {
    /// Offers to buy YES, highest price first.
    pub yes_bids: Vec<OrderLevel>,
    /// Offers to sell YES, lowest price first.
    pub yes_asks: Vec<OrderLevel>,
    pub no_bids: Vec<OrderLevel>,
    pub no_asks: Vec<OrderLevel>,
}

/// How much of an offer of `size` is taken where `open` is still wanted.
pub open spec fn part(open: int, size: int) -> int {
    if open <= 0 { 0 } else { smaller(open, size) }
}

/// How much is taken from the first `n` offers where `amount` is wanted.
pub open spec fn filled(levels: Seq<OrderLevel>, amount: int, n: int) -> int
    decreases n,
{
    if n <= 0 {
        0
    } else {
        filled(levels, amount, n - 1) + part(
            amount - filled(levels, amount, n - 1),
            levels[n - 1].size as int,
        )
    }
}

/// What that costs: the sum of price and part over the offers.
pub open spec fn fill_cost(levels: Seq<OrderLevel>, amount: int, n: int) -> int
    decreases n,
{
    if n <= 0 {
        0
    } else {
        fill_cost(levels, amount, n - 1) + part(
            amount - filled(levels, amount, n - 1),
            levels[n - 1].size as int,
        ) * levels[n - 1].price
    }
}

/// The mean price of `amount`: what it costs over what is taken, rounded down once;
/// nothing where there is nothing to be had.
pub open spec fn mean_price(levels: Seq<OrderLevel>, amount: int) -> Option<i64> {
    let n = levels.len() as int;
    if filled(levels, amount, n) > 0 {
        Some(held(fill_cost(levels, amount, n) / filled(levels, amount, n)) as i64)
    } else {
        None
    }
}

/// The total size of the first `n` offers.
pub open spec fn depth(levels: Seq<OrderLevel>, n: int) -> int
    decreases n,
{
    if n <= 0 { 0 } else { depth(levels, n - 1) + levels[n - 1].size }
}

impl OrderBook {
    /// A book without offers.
    pub fn new() -> (r: OrderBook)
        ensures
            r.yes_bids@.len() == 0,
            r.yes_asks@.len() == 0,
            r.no_bids@.len() == 0,
            r.no_asks@.len() == 0,
    {
        OrderBook {
            yes_bids: Vec::new(),
            yes_asks: Vec::new(),
            no_bids: Vec::new(),
            no_asks: Vec::new(),
        }
    }

    /// The mean price of buying `amount` of YES; nothing where none is offered.
    pub fn vwap_yes(&self, amount: i64) -> (r: Option<i64>)
        ensures
            r == mean_price(self.yes_asks@, amount as int),
    {
        Self::calculate_vwap(self.yes_asks.as_slice(), amount)
    }

    /// The mean price of buying `amount` of NO; nothing where none is offered.
    pub fn vwap_no(&self, amount: i64) -> (r: Option<i64>)
        ensures
            r == mean_price(self.no_asks@, amount as int),
    {
        Self::calculate_vwap(self.no_asks.as_slice(), amount)
    }

    /// The mean price of taking `amount` from the offers, in their order.
    pub fn calculate_vwap(levels: &[OrderLevel], amount: i64) -> (r: Option<i64>)
        ensures
            r == mean_price(levels@, amount as int),
    {
        let ghost want = amount as int;
        let base: i128 = 0x1_0000_0000_0000_0000;
        let mut remaining: i128 = amount as i128;
        // The cost is `high * base + low`.
        let mut high: i128 = 0;
        let mut low: u64 = 0;
        let mut total_filled: i128 = 0;
        let mut i: usize = 0;
        while i < levels.len()
            invariant
                i <= levels.len(),
                want == amount,
                base == 0x1_0000_0000_0000_0000,
                remaining == want - total_filled,
                total_filled == filled(levels@, want, i as int),
                total_filled <= larger(want, 0),
                high * base + low == fill_cost(levels@, want, i as int),
                -(i * 0x8000_0000_0000_0000) <= total_filled <= i * 0x8000_0000_0000_0000,
                -(i * 0x4000_0000_0000_0001) <= high <= i * 0x4000_0000_0000_0001,
            decreases levels.len() - i,
        {
            let level: OrderLevel = levels[i];
            let fill: i64 = if remaining <= 0 {
                0
            } else if remaining <= level.size as i128 {
                remaining as i64
            } else {
                level.size
            };
            proof {
                lemma_mul_bound(
                    fill as int,
                    level.price as int,
                    0x8000_0000_0000_0000,
                    0x8000_0000_0000_0000,
                );
                assert((i + 1) * 0x8000_0000_0000_0000 <= 0x1_0000_0000_0000_0000
                    * 0x8000_0000_0000_0000 - 0x8000_0000_0000_0000) by (nonlinear_arith)
                    requires
                        i + 1 <= 0xFFFF_FFFF_FFFF_FFFF,
                ;
            }
            let cost: i128 = fill as i128 * level.price as i128;
            let whole: i128 = div_down(cost, base);
            proof {
                lemma_div_bound(
                    cost as int,
                    base as int,
                    -0x4000_0000_0000_0000,
                    0x4000_0000_0000_0000,
                );
                vstd::arithmetic::div_mod::lemma_fundamental_div_mod(cost as int, base as int);
            }
            let rest: i128 = cost - whole * base + low as i128;
            if rest >= base {
                high = high + whole + 1;
                low = (rest - base) as u64;
            } else {
                high = high + whole;
                low = rest as u64;
            }
            total_filled = total_filled + fill as i128;
            remaining = remaining - fill as i128;
            i = i + 1;
        }
        if total_filled > 0 {
            Some(wide_divide(high, low, total_filled as i64))
        } else {
            None
        }
    }

    /// The total size of the offers to sell YES.
    pub fn yes_ask_liquidity(&self) -> (r: i64)
        ensures
            r == held(depth(self.yes_asks@, self.yes_asks@.len() as int)),
    {
        hold(total_size(self.yes_asks.as_slice()))
    }

    /// The total size of the offers to sell NO.
    pub fn no_ask_liquidity(&self) -> (r: i64)
        ensures
            r == held(depth(self.no_asks@, self.no_asks@.len() as int)),
    {
        hold(total_size(self.no_asks.as_slice()))
    }
}

/// The total size of offers.
pub fn total_size(levels: &[OrderLevel]) -> (r: i128)
    ensures
        r == depth(levels@, levels@.len() as int),
{
    let mut acc: i128 = 0;
    let mut i: usize = 0;
    while i < levels.len()
        invariant
            i <= levels.len(),
            acc == depth(levels@, i as int),
            i * i64::MIN <= acc <= i * i64::MAX,
        decreases levels.len() - i,
    {
        proof {
            crate::units::lemma_sum_fits(i as int);
            assert((i + 1) * i64::MIN == i * i64::MIN + i64::MIN) by (nonlinear_arith);
            assert((i + 1) * i64::MAX == i * i64::MAX + i64::MAX) by (nonlinear_arith);
        }
        acc = acc + levels[i].size as i128;
        i = i + 1;
    }
    acc
}

/// Where no offer is negative, a purchase takes as much as is wanted or as
/// much as there is, whichever is less.
pub proof fn law_fill(levels: Seq<OrderLevel>, amount: int, n: int)
    requires
        0 <= n <= levels.len(),
        0 <= amount,
        forall|i: int| 0 <= i < levels.len() ==> (#[trigger] levels[i]).size >= 0,
    ensures
        filled(levels, amount, n) == smaller(amount, depth(levels, n)),
        depth(levels, n) >= 0,
    decreases n,
{
    if n > 0 {
        law_fill(levels, amount, n - 1);
        assert(levels[n - 1].size >= 0);
    }
}

/// Whether offers are in the order of their prices, lowest first, and none is
/// negative.
pub open spec fn ascending(levels: Seq<OrderLevel>) -> bool {
    &&& forall|i: int| 0 <= i < levels.len() ==> (#[trigger] levels[i]).size >= 0
    &&& forall|i: int, j: int|
        0 <= i <= j < levels.len() ==> (#[trigger] levels[i]).price <= (#[trigger] levels[j]).price
}

/// There is a mean price exactly where something is wanted and something offered.
pub proof fn law_mean_price_exists(levels: Seq<OrderLevel>, amount: int)
    requires
        forall|i: int| 0 <= i < levels.len() ==> (#[trigger] levels[i]).size >= 0,
    ensures
        mean_price(levels, amount) is Some <==> amount > 0 && depth(levels, levels.len() as int)
            > 0,
{
    if amount >= 0 {
        law_fill(levels, amount, levels.len() as int);
    } else {
        lemma_nothing_wanted(levels, amount, levels.len() as int);
    }
}

/// Where nothing is wanted, nothing is taken.
proof fn lemma_nothing_wanted(levels: Seq<OrderLevel>, amount: int, n: int)
    requires
        amount <= 0,
    ensures
        filled(levels, amount, n) == 0,
    decreases n,
{
    if n > 0 {
        lemma_nothing_wanted(levels, amount, n - 1);
    }
}

/// Where offers are in order, the mean price lies between the first and the last.
pub proof fn law_mean_price_between(levels: Seq<OrderLevel>, amount: int)
    requires
        0 <= amount,
        ascending(levels),
    ensures
        mean_price(levels, amount) matches Some(p) ==> levels.first().price <= p
            <= levels.last().price,
{
    let n: int = levels.len() as int;
    let q: int = filled(levels, amount, n);
    if q > 0 {
        let lo: int = levels[0].price as int;
        let hi: int = levels[n - 1].price as int;
        lemma_cost_bounds(levels, amount, lo, hi, n);
        lemma_div_bound(fill_cost(levels, amount, n), q, lo, hi);
    }
}

/// A purchase that the first offer covers is made at its price.
pub proof fn law_mean_price_of_first_offer(levels: Seq<OrderLevel>, amount: int)
    requires
        levels.len() > 0,
        0 < amount <= levels[0].size,
    ensures
        mean_price(levels, amount) == Some(levels[0].price),
{
    let n: int = levels.len() as int;
    lemma_covered_by_first(levels, amount, n);
    let p: int = levels[0].price as int;
    assert(amount * p == p * amount + 0) by (nonlinear_arith);
    vstd::arithmetic::div_mod::lemma_fundamental_div_mod_converse(amount * p, amount, p, 0);
}

proof fn lemma_covered_by_first(levels: Seq<OrderLevel>, amount: int, n: int)
    requires
        0 < n <= levels.len(),
        0 < amount <= levels[0].size,
    ensures
        filled(levels, amount, n) == amount,
        fill_cost(levels, amount, n) == amount * levels[0].price,
    decreases n,
{
    reveal_with_fuel(filled, 2);
    reveal_with_fuel(fill_cost, 2);
    if n > 1 {
        lemma_covered_by_first(levels, amount, n - 1);
        assert(0 * levels[n - 1].price == 0);
    }
}

/// Where offers are in order, a larger purchase is made at no lower a mean price.
pub proof fn law_mean_price_grows(levels: Seq<OrderLevel>, a: int, b: int)
    requires
        0 < a <= b,
        ascending(levels),
    ensures
        mean_price(levels, a) is Some == mean_price(levels, b) is Some,
        mean_price(levels, a) matches Some(p) ==> mean_price(levels, b) matches Some(q) && p <= q,
{
    let n: int = levels.len() as int;
    law_mean_price_exists(levels, a);
    law_mean_price_exists(levels, b);
    let fa: int = filled(levels, a, n);
    let fb: int = filled(levels, b, n);
    if fa > 0 {
        lemma_cost_grows(levels, a, b, n);
        let ca: int = fill_cost(levels, a, n);
        let cb: int = fill_cost(levels, b, n);
        let x: int = ca / fa;
        let y: int = cb / fb;
        vstd::arithmetic::div_mod::lemma_fundamental_div_mod(ca, fa);
        vstd::arithmetic::div_mod::lemma_fundamental_div_mod(cb, fb);
        assert(x * fb <= cb) by (nonlinear_arith)
            requires
                fa * x <= ca,
                ca * fb <= cb * fa,
                fa > 0,
                fb > 0,
        ;
        assert(x <= y) by (nonlinear_arith)
            requires
                x * fb <= cb,
                cb < fb * y + fb,
                fb > 0,
        ;
    }
}

/// What is taken costs at least the lowest price and at most the highest.
proof fn lemma_cost_bounds(levels: Seq<OrderLevel>, amount: int, lo: int, hi: int, n: int)
    requires
        0 <= n <= levels.len(),
        0 <= amount,
        forall|i: int| 0 <= i < levels.len() ==> (#[trigger] levels[i]).size >= 0,
        forall|i: int| 0 <= i < n ==> lo <= (#[trigger] levels[i]).price <= hi,
    ensures
        lo * filled(levels, amount, n) <= fill_cost(levels, amount, n) <= hi * filled(
            levels,
            amount,
            n,
        ),
    decreases n,
{
    if n > 0 {
        lemma_cost_bounds(levels, amount, lo, hi, n - 1);
        let before: int = filled(levels, amount, n - 1);
        let f: int = part(amount - before, levels[n - 1].size as int);
        let p: int = levels[n - 1].price as int;
        assert(levels[n - 1].size >= 0);
        assert(lo * f <= f * p <= hi * f) by (nonlinear_arith)
            requires
                0 <= f,
                lo <= p <= hi,
        ;
        assert(lo * (before + f) == lo * before + lo * f) by (nonlinear_arith);
        assert(hi * (before + f) == hi * before + hi * f) by (nonlinear_arith);
    } else {
        assert(lo * 0 == 0 && hi * 0 == 0);
    }
}

/// The cost of a larger purchase grows at least as its size does; as long as the
/// smaller one is not complete, both are the same.
proof fn lemma_cost_grows(levels: Seq<OrderLevel>, a: int, b: int, n: int)
    requires
        0 <= n <= levels.len(),
        0 < a <= b,
        ascending(levels),
    ensures
        fill_cost(levels, a, n) * filled(levels, b, n) <= fill_cost(levels, b, n) * filled(
            levels,
            a,
            n,
        ),
        filled(levels, a, n) < a ==> filled(levels, b, n) == filled(levels, a, n) && fill_cost(
            levels,
            b,
            n,
        ) == fill_cost(levels, a, n),
    decreases n,
{
    law_fill(levels, a, n);
    law_fill(levels, b, n);
    if n > 0 {
        lemma_cost_grows(levels, a, b, n - 1);
        law_fill(levels, a, n - 1);
        law_fill(levels, b, n - 1);
        let fa: int = filled(levels, a, n - 1);
        let fb: int = filled(levels, b, n - 1);
        let ca: int = fill_cost(levels, a, n - 1);
        let cb: int = fill_cost(levels, b, n - 1);
        let size: int = levels[n - 1].size as int;
        let x: int = part(a - fa, size);
        let y: int = part(b - fb, size);
        let p: int = levels[n - 1].price as int;
        assert(levels[n - 1].size >= 0);
        assert(ca <= p * fa) by {
            if n > 1 {
                let lo: int = levels[0].price as int;
                assert forall|i: int| 0 <= i < n - 1 implies lo <= (#[trigger] levels[i]).price
                    <= p by {
                    assert(levels[0].price <= levels[i].price);
                    assert(levels[i].price <= levels[n - 1].price);
                }
                lemma_cost_bounds(levels, a, lo, p, n - 1);
            } else {
                assert(p * 0 == 0);
            }
        }
        if fa < a {
            assert((ca + x * p) * (fa + y) <= (ca + y * p) * (fa + x)) by (nonlinear_arith)
                requires
                    x <= y,
                    ca <= p * fa,
            ;
        } else {
            assert(x == 0);
            assert((ca + 0 * p) * (fb + y) <= (cb + y * p) * (fa + 0)) by (nonlinear_arith)
                requires
                    ca * fb <= cb * fa,
                    ca <= p * fa,
                    0 <= y,
            ;
        }
    }
}

// ---------------------------------------------------------------------------
// Opportunities
// ---------------------------------------------------------------------------

/// The kind of an arbitrage.
#[derive(Debug, Clone, Copy, PartialEq, Eq, Structural)]
pub enum ArbitrageType {
    /// The pair of one market costs less than one.
    SimpleUnderpriced,
    /// The pair of one market costs more than one.
    SimpleOverpriced,
    /// Several markets that depend on one another.
    Combinatorial,
    /// The outcomes of one market do not add up to one.
    MarketRebalancing,
}

impl ArbitrageType {
    /// The name of the kind.
    pub open spec fn name_text(&self) -> Seq<char> {
        match self {
            ArbitrageType::SimpleUnderpriced => "SimpleUnderpriced"@,
            ArbitrageType::SimpleOverpriced => "SimpleOverpriced"@,
            ArbitrageType::Combinatorial => "Combinatorial"@,
            ArbitrageType::MarketRebalancing => "MarketRebalancing"@,
        }
    }

    /// The name of the kind.
    pub fn name(&self) -> (r: &'static str)
        ensures
            r@ == self.name_text(),
    {
        match self {
            ArbitrageType::SimpleUnderpriced => "SimpleUnderpriced",
            ArbitrageType::SimpleOverpriced => "SimpleOverpriced",
            ArbitrageType::Combinatorial => "Combinatorial",
            ArbitrageType::MarketRebalancing => "MarketRebalancing",
        }
    }
}

/// How far an opportunity has come.
#[derive(Debug, Clone, Copy, PartialEq, Eq, Structural)]
pub enum OpportunityStatus {
    Detected,
    Executing,
    Executed,
    Expired,
    Failed,
}

impl OpportunityStatus {
    /// The name of the status.
    pub open spec fn name_text(&self) -> Seq<char> {
        match self {
            OpportunityStatus::Detected => "Detected"@,
            OpportunityStatus::Executing => "Executing"@,
            OpportunityStatus::Executed => "Executed"@,
            OpportunityStatus::Expired => "Expired"@,
            OpportunityStatus::Failed => "Failed"@,
        }
    }

    /// The name of the status.
    pub fn name(&self) -> (r: &'static str)
        ensures
            r@ == self.name_text(),
    {
        match self {
            OpportunityStatus::Detected => "Detected",
            OpportunityStatus::Executing => "Executing",
            OpportunityStatus::Executed => "Executed",
            OpportunityStatus::Expired => "Expired",
            OpportunityStatus::Failed => "Failed",
        }
    }
}

/// The side of an order.
#[derive(Debug, Clone, Copy, PartialEq, Eq, Structural)]
pub enum OrderSide {
    Buy,
    Sell,
}

/// An order that is to be sent.
#[derive(Debug, Clone)]
pub struct OrderToExecute {
    pub market_id: String,
    pub side: OrderSide,
    pub token_id: String,
    pub price: i64,
    pub size: i64,
}

/// An arbitrage that was found.
#[derive(Debug, Clone)]
pub struct ArbitrageOpportunity {
    pub id: String,
    pub opportunity_type: ArbitrageType,
    /// The markets involved.
    pub market_ids: Vec<String>,
    /// The profit that is certain.
    pub guaranteed_profit: i64,
    /// The largest possible profit.
    pub max_profit: i64,
    /// The gap of the projection, in its units; nothing where it is unbounded.
    pub fw_gap: Option<i64>,
    /// The best size of the position.
    pub position_size: i64,
    /// The orders that realise the arbitrage.
    pub orders: Vec<OrderToExecute>,
    pub detected_at: Timestamp,
    pub status: OpportunityStatus,
}

impl OrderToExecute {
    /// A copy of the order.
    pub fn duplicate(&self) -> (r: OrderToExecute)
        ensures
            r == *self,
    {
        OrderToExecute {
            market_id: self.market_id.clone(),
            side: self.side,
            token_id: self.token_id.clone(),
            price: self.price,
            size: self.size,
        }
    }
}

impl ArbitrageOpportunity {
    /// Whether two opportunities agree in everything but their status.
    pub open spec fn same_deal(&self, other: &ArbitrageOpportunity) -> bool {
        &&& self.id == other.id
        &&& self.opportunity_type == other.opportunity_type
        &&& self.market_ids@ == other.market_ids@
        &&& self.guaranteed_profit == other.guaranteed_profit
        &&& self.max_profit == other.max_profit
        &&& self.fw_gap == other.fw_gap
        &&& self.position_size == other.position_size
        &&& self.orders@ == other.orders@
        &&& self.detected_at == other.detected_at
    }

    /// A copy of the opportunity.
    pub fn duplicate(&self) -> (r: ArbitrageOpportunity)
        ensures
            r.same_deal(self),
            r.status == self.status,
    {
        let mut market_ids: Vec<String> = Vec::new();
        let mut i: usize = 0;
        while i < self.market_ids.len()
            invariant
                i <= self.market_ids.len(),
                market_ids@ == self.market_ids@.take(i as int),
            decreases self.market_ids.len() - i,
        {
            market_ids.push(self.market_ids[i].clone());
            i = i + 1;
            assert(market_ids@ =~= self.market_ids@.take(i as int));
        }
        assert(market_ids@ =~= self.market_ids@);
        let mut orders: Vec<OrderToExecute> = Vec::new();
        let mut j: usize = 0;
        while j < self.orders.len()
            invariant
                j <= self.orders.len(),
                orders@ == self.orders@.take(j as int),
            decreases self.orders.len() - j,
        {
            orders.push(self.orders[j].duplicate());
            j = j + 1;
            assert(orders@ =~= self.orders@.take(j as int));
        }
        assert(orders@ =~= self.orders@);
        ArbitrageOpportunity {
            id: self.id.clone(),
            opportunity_type: self.opportunity_type,
            market_ids,
            guaranteed_profit: self.guaranteed_profit,
            max_profit: self.max_profit,
            fw_gap: self.fw_gap,
            position_size: self.position_size,
            orders,
            detected_at: self.detected_at,
            status: self.status,
        }
    }
}

// ---------------------------------------------------------------------------
// Trades
// ---------------------------------------------------------------------------

/// An order that was filled.
#[derive(Debug, Clone)]
pub struct FilledOrder {
    pub order_id: String,
    pub market_id: String,
    pub side: OrderSide,
    pub filled_price: i64,
    pub filled_size: i64,
}

/// A trade that was executed.
#[derive(Debug, Clone)]
pub struct ExecutedTrade {
    pub opportunity_id: String,
    pub executed_at: Timestamp,
    pub orders_filled: Vec<FilledOrder>,
    pub actual_profit: i64,
    pub success: bool,
    pub error: Option<String>,
}

/// What the bot has done so far.
#[derive(Debug, Clone, Copy)]
pub struct BotStats {
    pub opportunities_detected: u64,
    pub opportunities_executed: u64,
    pub opportunities_failed: u64,
    pub total_profit_usd: i64,
    pub markets_monitored: usize,
    pub uptime_seconds: u64,
    pub last_opportunity_at: Option<Timestamp>,
}

impl BotStats {
    /// The statistics of a bot that has done nothing.
    pub open spec fn zero() -> BotStats {
        BotStats {
            opportunities_detected: 0,
            opportunities_executed: 0,
            opportunities_failed: 0,
            total_profit_usd: 0,
            markets_monitored: 0,
            uptime_seconds: 0,
            last_opportunity_at: None,
        }
    }
}

impl Default for BotStats {
    fn default() -> (r: BotStats)
        ensures
            r == BotStats::zero(),
    {
        BotStats {
            opportunities_detected: 0,
            opportunities_executed: 0,
            opportunities_failed: 0,
            total_profit_usd: 0,
            markets_monitored: 0,
            uptime_seconds: 0,
            last_opportunity_at: None,
        }
    }
}

// ---------------------------------------------------------------------------
// The state
// ---------------------------------------------------------------------------

/// Everything that the bot knows.
pub struct AppState {
    /// Markets by their identifier.
    pub markets: Table<Market>,
    /// Opportunities by their identifier.
    pub opportunities: Table<ArbitrageOpportunity>,
    /// Trades by the identifier of their opportunity.
    pub executed_trades: Table<ExecutedTrade>,
    pub config: BotConfig,
    pub stats: BotStats,
    pub var_engine: VaREngine,
}

impl AppState {
    /// Every table is sound, and every record stands under its own identifier.
    pub open spec fn wf(&self) -> bool {
        &&& self.markets.wf()
        &&& self.opportunities.wf()
        &&& self.executed_trades.wf()
        &&& forall|i: int|
            0 <= i < self.markets.records().len() ==> (
            #[trigger] self.markets.records()[i]).condition_id@ == self.markets.order()[i]
        &&& forall|i: int|
            0 <= i < self.opportunities.records().len() ==> (
            #[trigger] self.opportunities.records()[i]).id@ == self.opportunities.order()[i]
        &&& forall|i: int|
            0 <= i < self.executed_trades.records().len() ==> (
            #[trigger] self.executed_trades.records()[i]).opportunity_id@
                == self.executed_trades.order()[i]
    }

    /// Whether the bot has just started with a configuration: it knows nothing, has
    /// done nothing, and its risk engine has the configured limit and capital.
    pub open spec fn is_fresh(&self, config: BotConfig) -> bool {
        &&& self.markets.records().len() == 0
        &&& self.opportunities.records().len() == 0
        &&& self.executed_trades.records().len() == 0
        &&& self.config == config
        &&& self.stats == BotStats::zero()
        &&& self.var_engine.history().len() == 0
        &&& self.var_engine.confidence_level == ConfidenceLevel::Pct95
        &&& self.var_engine.daily_var_limit == config.daily_var_limit
        &&& self.var_engine.daily_pnl == 0
        &&& self.var_engine.total_capital == config.total_capital
    }

    /// The state of a bot that has just started, on the current day.
    pub fn new(config: BotConfig) -> (r: AppState)
        ensures
            r.wf(),
            r.is_fresh(config),
            r.markets.records().len() == 0,
            r.opportunities.records().len() == 0,
            r.executed_trades.records().len() == 0,
            r.config == config,
            r.stats == BotStats::zero(),
            r.var_engine.history().len() == 0,
            r.var_engine.confidence_level == ConfidenceLevel::Pct95,
            r.var_engine.daily_var_limit == config.daily_var_limit,
            r.var_engine.daily_pnl == 0,
            r.var_engine.total_capital == config.total_capital,
            on_some_day(r.var_engine.current_day as int),
    {
        let var_engine: VaREngine = VaREngine::new(
            ConfidenceLevel::Pct95,
            config.daily_var_limit,
            config.total_capital,
        );
        AppState {
            markets: Table::new(),
            opportunities: Table::new(),
            executed_trades: Table::new(),
            config,
            stats: BotStats::default(),
            var_engine,
        }
    }
}

// ---------------------------------------------------------------------------
// Messages of the exchange
// ---------------------------------------------------------------------------

/// A message of the exchange's stream.
pub struct WsMessage {
    pub event_type: Option<String>,
    pub asset_id: Option<String>,
    pub market: Option<String>,
    pub msg_type: Option<String>,
    pub data: Option<serde_json::Value>,
}

/// All offers of a market at one time; each is a price and a size.
#[derive(Debug, Clone)]
pub struct BookSnapshot {
    pub asset_id: String,
    pub bids: Vec<[String; 2]>,
    pub asks: Vec<[String; 2]>,
    pub timestamp: Option<String>,
}

/// What offers cost that are taken whole.
pub open spec fn whole_cost(levels: Seq<OrderLevel>, n: int) -> int
    decreases n,
{
    if n <= 0 {
        0
    } else {
        whole_cost(levels, n - 1) + levels[n - 1].size * levels[n - 1].price
    }
}

/// A purchase takes offers in their order: the first `k` whole, and of the next one what
/// is still wanted. It costs what those cost, and its mean price is that over what was
/// wanted, rounded down.
pub proof fn law_purchase_in_order(levels: Seq<OrderLevel>, amount: int, k: int)
    requires
        forall|i: int| 0 <= i < levels.len() ==> (#[trigger] levels[i]).size >= 0,
        0 <= k < levels.len(),
        0 < amount,
        depth(levels, k) <= amount <= depth(levels, k + 1),
    ensures
        ({
            let cost = whole_cost(levels, k) + (amount - depth(levels, k)) * levels[k].price;
            &&& filled(levels, amount, levels.len() as int) == amount
            &&& fill_cost(levels, amount, levels.len() as int) == cost
            &&& mean_price(levels, amount) matches Some(p) && (i64::MIN < p < i64::MAX ==> p
                * amount <= cost < (p + 1) * amount)
        }),
{
    let n: int = levels.len() as int;
    lemma_taken_whole(levels, amount, k);
    law_fill(levels, amount, k);
    law_fill(levels, amount, k + 1);
    assert(levels[k].size >= 0);
    let cost: int = whole_cost(levels, k) + (amount - depth(levels, k)) * levels[k].price;
    assert(fill_cost(levels, amount, k + 1) == cost) by {
        let open: int = amount - depth(levels, k);
        assert(depth(levels, k + 1) == depth(levels, k) + levels[k].size);
        assert(part(open, levels[k].size as int) == open);
    }
    lemma_nothing_more(levels, amount, k + 1, n);
    vstd::arithmetic::div_mod::lemma_fundamental_div_mod(cost, amount);
    let q: int = cost / amount;
    assert(q * amount <= cost < (q + 1) * amount) by (nonlinear_arith)
        requires
            cost == amount * q + cost % amount,
            0 <= cost % amount < amount,
    ;
}

/// Offers are taken whole as long as more is wanted than they come to.
proof fn lemma_taken_whole(levels: Seq<OrderLevel>, amount: int, k: int)
    requires
        forall|i: int| 0 <= i < levels.len() ==> (#[trigger] levels[i]).size >= 0,
        0 <= k <= levels.len(),
        0 <= amount,
        depth(levels, k) <= amount,
    ensures
        fill_cost(levels, amount, k) == whole_cost(levels, k),
    decreases k,
{
    if k > 0 {
        assert(levels[k - 1].size >= 0);
        lemma_taken_whole(levels, amount, k - 1);
        law_fill(levels, amount, k - 1);
        let open: int = amount - depth(levels, k - 1);
        let size: int = levels[k - 1].size as int;
        assert(filled(levels, amount, k - 1) == depth(levels, k - 1));
        assert(part(open, size) == size);
    }
}

/// Once all that is wanted was taken, nothing more is.
proof fn lemma_nothing_more(levels: Seq<OrderLevel>, amount: int, k: int, n: int)
    requires
        0 <= k <= n <= levels.len(),
        filled(levels, amount, k) == amount,
    ensures
        filled(levels, amount, n) == amount,
        fill_cost(levels, amount, n) == fill_cost(levels, amount, k),
    decreases n,
{
    if n > k {
        lemma_nothing_more(levels, amount, k, n - 1);
        assert(0 * levels[n - 1].price == 0);
    }
}

/// Different kinds of opportunities have different names, and so have different statuses.
pub proof fn law_names_differ(
    a: ArbitrageType,
    b: ArbitrageType,
    s: OpportunityStatus,
    t: OpportunityStatus,
)
    ensures
        a.name_text() == b.name_text() <==> a == b,
        s.name_text() == t.name_text() <==> s == t,
{
    reveal_strlit("SimpleUnderpriced");
    reveal_strlit("SimpleOverpriced");
    reveal_strlit("Combinatorial");
    reveal_strlit("MarketRebalancing");
    reveal_strlit("Detected");
    reveal_strlit("Executing");
    reveal_strlit("Executed");
    reveal_strlit("Expired");
    reveal_strlit("Failed");
    assert("SimpleUnderpriced"@[0] == 'S' && "SimpleOverpriced"@[0] == 'S');
    assert("Combinatorial"@[0] == 'C' && "MarketRebalancing"@[0] == 'M');
    assert("SimpleUnderpriced"@[6] == 'U' && "SimpleOverpriced"@[6] == 'O');
    assert("Detected"@[0] == 'D' && "Failed"@[0] == 'F');
    assert("Executing"@[0] == 'E' && "Executed"@[0] == 'E' && "Expired"@[0] == 'E');
    assert("Executing"@[2] == 'e' && "Executed"@[2] == 'e' && "Expired"@[2] == 'p');
    assert("Executing"@.len() == 9 && "Executed"@.len() == 8);
}

} // verus!
