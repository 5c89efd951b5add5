//! What the dashboard shows.

use vstd::prelude::*;
use crate::clock::{rfc3339_text, to_rfc3339, Timestamp};
use crate::order::{
    is_order, law_rank_follows_order, lemma_rank_range, precedes, rank, stable_order, text_before,
    text_ranks,
};
use crate::risk::{portfolio, PortfolioStats};

use crate::text::{can_cut, cuttable, head, head_text, to_chars};
use crate::types::{
    law_names_differ, AppState, ArbitrageOpportunity, ArbitrageType, ExecutedTrade, Market,
    OpportunityStatus,
};
use crate::units::{div_down, divide, held, hold, larger, magnitude, quotient, smaller, SCALE};

verus! {

/// The most markets that are shown.
pub const SHOWN_MARKETS: usize = 50;

/// The most opportunities that are shown.
pub const SHOWN_OPPORTUNITIES: usize = 20;

/// The most trades that are shown.
pub const SHOWN_TRADES: usize = 50;

/// A point in time, written out.
pub open spec fn written(t: Timestamp) -> Seq<char> {
    rfc3339_text(t.seconds(), t.subsecond())
}

/// The optional text of an optional string.
pub open spec fn text_of(s: Option<String>) -> Option<Seq<char>> {
    match s {
        Some(t) => Some(t@),
        None => None,
    }
}

// ---------------------------------------------------------------------------
// Statistics
// ---------------------------------------------------------------------------

/// The statistics that are shown.
#[derive(Debug, Clone)]
pub struct ApiStats {
    pub opportunities_detected: u64,
    pub opportunities_executed: u64,
    pub opportunities_failed: u64,
    pub total_profit_usd: i64,
    pub markets_monitored: usize,
    pub active_opportunities: usize,
    pub last_opportunity_at: Option<String>,
}

/// Whether `s` shows the statistics of a state.
pub open spec fn shows_stats(s: ApiStats, state: AppState) -> bool {
    &&& s.opportunities_detected == state.stats.opportunities_detected
    &&& s.opportunities_executed == state.stats.opportunities_executed
    &&& s.opportunities_failed == state.stats.opportunities_failed
    &&& s.total_profit_usd == state.stats.total_profit_usd
    &&& s.markets_monitored == state.markets.records().len()
    &&& s.active_opportunities == state.opportunities.records().len()
    &&& text_of(s.last_opportunity_at) == match state.stats.last_opportunity_at {
        Some(t) => Some(written(t)),
        None => None,
    }
}

/// The statistics to show.
pub fn get_stats(state: &AppState) -> (r: ApiStats)
    requires
        state.wf(),
    ensures
        shows_stats(r, *state),
        r.opportunities_detected == state.stats.opportunities_detected,
        r.opportunities_executed == state.stats.opportunities_executed,
        r.opportunities_failed == state.stats.opportunities_failed,
        r.total_profit_usd == state.stats.total_profit_usd,
        r.markets_monitored == state.markets.records().len(),
        r.active_opportunities == state.opportunities.records().len(),
        text_of(r.last_opportunity_at) == match state.stats.last_opportunity_at {
            Some(t) => Some(written(t)),
            None => None,
        },
{
    ApiStats {
        opportunities_detected: state.stats.opportunities_detected,
        opportunities_executed: state.stats.opportunities_executed,
        opportunities_failed: state.stats.opportunities_failed,
        total_profit_usd: state.stats.total_profit_usd,
        markets_monitored: state.markets.len(),
        active_opportunities: state.opportunities.len(),
        last_opportunity_at: match &state.stats.last_opportunity_at {
            Some(t) => Some(to_rfc3339(t)),
            None => None,
        },
    }
}

// ---------------------------------------------------------------------------
// Markets
// ---------------------------------------------------------------------------

/// A market, as it is shown.
#[derive(Debug, Clone)]
pub struct MarketSummary {
    pub condition_id: String,
    pub question: String,
    pub yes_price: i64,
    pub no_price: i64,
    pub price_sum: i64,
    pub deviation: i64,
    pub last_updated: String,
}

/// Whether the texts of a market can be cut to what is shown of them.
pub open spec fn market_showable(m: Market) -> bool {
    cuttable(m.condition_id@, 12) && cuttable(m.question@, 60)
}

/// Whether the texts of all markets can be cut to what is shown of them.
pub open spec fn markets_showable(markets: Seq<Market>) -> bool {
    forall|i: int| 0 <= i < markets.len() ==> market_showable(#[trigger] markets[i])
}

/// The distance of a market's pair from one.
pub open spec fn off_by(m: Market) -> int {
    held(magnitude(m.pair_price() - SCALE))
}

/// Whether `s` shows a market: the first bytes of its texts, and its prices.
pub open spec fn shows_market(s: MarketSummary, m: Market) -> bool {
    &&& s.condition_id@ == head_text(m.condition_id@, 12)
    &&& s.question@ == head_text(m.question@, 60)
    &&& s.yes_price == m.yes_price
    &&& s.no_price == m.no_price
    &&& s.price_sum == m.pair_price()
    &&& s.deviation == off_by(m)
    &&& s.last_updated@ == written(m.last_updated)
}

fn market_summary(m: &Market) -> (r: MarketSummary)
    requires
        market_showable(*m),
    ensures
        shows_market(r, *m),
{
    MarketSummary {
        condition_id: head(m.condition_id.as_str(), 12).to_owned(),
        question: head(m.question.as_str(), 60).to_owned(),
        yes_price: m.yes_price,
        no_price: m.no_price,
        price_sum: m.price_sum(),
        deviation: m.deviation(),
        last_updated: to_rfc3339(&m.last_updated),
    }
}

/// The sort keys of markets: the farther from one, the earlier.
pub open spec fn market_keys(markets: Seq<Market>) -> Seq<i128> {
    markets.map_values(|m: Market| (-off_by(m)) as i128)
}

/// Whether `r` shows the markets that are farthest from one, in the order `p`
/// of all of them.
pub open spec fn shows_markets(r: Seq<MarketSummary>, markets: Seq<Market>, p: Seq<usize>) -> bool {
    &&& is_order(market_keys(markets), p)
    &&& r.len() == smaller(SHOWN_MARKETS as int, markets.len() as int)
    &&& forall|i: int|
        0 <= i < r.len() ==> shows_market(#[trigger] r[i], markets[p[i] as int])
}

/// The markets to show, those farthest from one first; nothing where a text
/// cannot be cut.
pub fn get_markets(state: &AppState) -> (r: Option<Vec<MarketSummary>>)
    requires
        state.wf(),
    ensures
        r is Some <==> markets_showable(state.markets.records()),
        r matches Some(list) ==> exists|p: Seq<usize>| #[trigger]
            shows_markets(list@, state.markets.records(), p),
{
    let ghost markets = state.markets.records();
    let count: usize = state.markets.len();
    let mut keys: Vec<i128> = Vec::new();
    let mut i: usize = 0;
    assert(keys@ =~= market_keys(markets).take(0));
    while i < count
        invariant
            i <= count == markets.len(),
            state.wf(),
            markets == state.markets.records(),
            keys@ == market_keys(markets).take(i as int),
            forall|k: int| 0 <= k < i ==> market_showable(#[trigger] markets[k]),
        decreases count - i,
    {
        let m: &Market = state.markets.row(i);
        if !can_cut(m.condition_id.as_str(), 12) || !can_cut(m.question.as_str(), 60) {
            assert(!market_showable(markets[i as int]));
            return None;
        }
        keys.push(-(m.deviation() as i128));
        i = i + 1;
        assert(keys@ =~= market_keys(markets).take(i as int));
    }
    assert(keys@ =~= market_keys(markets));
    let p: Vec<usize> = stable_order(&keys);
    let top: usize = if count < SHOWN_MARKETS { count } else { SHOWN_MARKETS };
    let mut r: Vec<MarketSummary> = Vec::new();
    let mut k: usize = 0;
    while k < top
        invariant
            k <= top <= count == markets.len(),
            state.wf(),
            markets == state.markets.records(),
            is_order(market_keys(markets), p@),
            markets_showable(markets),
            r.len() == k,
            forall|j: int|
                0 <= j < k ==> shows_market(#[trigger] r@[j], markets[p@[j] as int]),
        decreases top - k,
    {
        let at: usize = p[k];
        assert(market_showable(markets[at as int]));
        r.push(market_summary(state.markets.row(at)));
        k = k + 1;
    }
    assert(shows_markets(r@, state.markets.records(), p@));
    let shown: Option<Vec<MarketSummary>> = Some(r);
    assert(shown->0@ == r@);
    shown
}

// ---------------------------------------------------------------------------
// Opportunities
// ---------------------------------------------------------------------------

/// An opportunity, as it is shown.
#[derive(Debug, Clone)]
pub struct OpportunitySummary {
    pub id: String,
    pub opportunity_type: String,
    pub guaranteed_profit: i64,
    pub max_profit: i64,
    pub position_size: i64,
    pub profit_pct: i64,
    pub status: String,
    pub detected_at: String,
}

/// Whether an identifier has at least eight bytes and can be cut after them.
pub open spec fn id_showable(id: Seq<char>) -> bool {
    vstd::utf8::encode_utf8(id).len() >= 8 && cuttable(id, 8)
}

fn can_show_id(id: &str) -> (r: bool)
    ensures
        r == id_showable(id@),
{
    id.as_bytes().len() >= 8 && can_cut(id, 8)
}

/// Whether the identifiers of all opportunities can be shown.
pub open spec fn opportunities_showable(opps: Seq<ArbitrageOpportunity>) -> bool {
    forall|i: int| 0 <= i < opps.len() ==> id_showable((#[trigger] opps[i]).id@)
}

/// The certain profit in hundredths of the position, rounded down; zero for an
/// empty one.
pub open spec fn profit_percent(o: ArbitrageOpportunity) -> int {
    if o.position_size > 0 {
        held((o.guaranteed_profit * 100_000_000) / o.position_size as int)
    } else {
        0
    }
}

/// Whether `s` shows an opportunity.
pub open spec fn shows_opportunity(s: OpportunitySummary, o: ArbitrageOpportunity) -> bool {
    &&& s.id@ == head_text(o.id@, 8)
    &&& s.opportunity_type@ == o.opportunity_type.name_text()
    &&& s.guaranteed_profit == o.guaranteed_profit
    &&& s.max_profit == o.max_profit
    &&& s.position_size == o.position_size
    &&& s.profit_pct == profit_percent(o)
    &&& s.status@ == o.status.name_text()
    &&& s.detected_at@ == written(o.detected_at)
}

fn opportunity_summary(o: &ArbitrageOpportunity) -> (r: OpportunitySummary)
    requires
        id_showable(o.id@),
    ensures
        shows_opportunity(r, *o),
{
    let profit_pct: i64 = if o.position_size > 0 {
        hold(div_down(o.guaranteed_profit as i128 * 100_000_000, o.position_size as i128))
    } else {
        0
    };
    OpportunitySummary {
        id: head(o.id.as_str(), 8).to_owned(),
        opportunity_type: o.opportunity_type.name().to_owned(),
        guaranteed_profit: o.guaranteed_profit,
        max_profit: o.max_profit,
        position_size: o.position_size,
        profit_pct,
        status: o.status.name().to_owned(),
        detected_at: to_rfc3339(&o.detected_at),
    }
}

/// The sort keys of opportunities: the higher the profit, the earlier.
pub open spec fn opportunity_keys(opps: Seq<ArbitrageOpportunity>) -> Seq<i128> {
    opps.map_values(|o: ArbitrageOpportunity| (-o.guaranteed_profit) as i128)
}

/// Whether `r` shows the most profitable opportunities, in the order `p` of all
/// of them.
pub open spec fn shows_opportunities(
    r: Seq<OpportunitySummary>,
    opps: Seq<ArbitrageOpportunity>,
    p: Seq<usize>,
) -> bool {
    &&& is_order(opportunity_keys(opps), p)
    &&& r.len() == smaller(SHOWN_OPPORTUNITIES as int, opps.len() as int)
    &&& forall|i: int|
        0 <= i < r.len() ==> shows_opportunity(#[trigger] r[i], opps[p[i] as int])
}

/// The opportunities to show, most profitable first; nothing where an
/// identifier cannot be cut.
pub fn get_opportunities(state: &AppState) -> (r: Option<Vec<OpportunitySummary>>)
    requires
        state.wf(),
    ensures
        r is Some <==> opportunities_showable(state.opportunities.records()),
        r matches Some(list) ==> exists|p: Seq<usize>| #[trigger]
            shows_opportunities(list@, state.opportunities.records(), p),
{
    let ghost opps = state.opportunities.records();
    let count: usize = state.opportunities.len();
    let mut keys: Vec<i128> = Vec::new();
    let mut i: usize = 0;
    assert(keys@ =~= opportunity_keys(opps).take(0));
    while i < count
        invariant
            i <= count == opps.len(),
            state.wf(),
            opps == state.opportunities.records(),
            keys@ == opportunity_keys(opps).take(i as int),
            forall|k: int| 0 <= k < i ==> id_showable((#[trigger] opps[k]).id@),
        decreases count - i,
    {
        let o: &ArbitrageOpportunity = state.opportunities.row(i);
        if !can_show_id(o.id.as_str()) {
            assert(!id_showable(opps[i as int].id@));
            return None;
        }
        keys.push(-(o.guaranteed_profit as i128));
        i = i + 1;
        assert(keys@ =~= opportunity_keys(opps).take(i as int));
    }
    assert(keys@ =~= opportunity_keys(opps));
    let p: Vec<usize> = stable_order(&keys);
    let top: usize = if count < SHOWN_OPPORTUNITIES { count } else { SHOWN_OPPORTUNITIES };
    let mut r: Vec<OpportunitySummary> = Vec::new();
    let mut k: usize = 0;
    while k < top
        invariant
            k <= top <= count == opps.len(),
            state.wf(),
            opps == state.opportunities.records(),
            is_order(opportunity_keys(opps), p@),
            opportunities_showable(opps),
            r.len() == k,
            forall|j: int|
                0 <= j < k ==> shows_opportunity(#[trigger] r@[j], opps[p@[j] as int]),
        decreases top - k,
    {
        let at: usize = p[k];
        assert(id_showable(opps[at as int].id@));
        r.push(opportunity_summary(state.opportunities.row(at)));
        k = k + 1;
    }
    assert(shows_opportunities(r@, state.opportunities.records(), p@));
    let shown: Option<Vec<OpportunitySummary>> = Some(r);
    assert(shown->0@ == r@);
    shown
}

// ---------------------------------------------------------------------------
// Trades
// ---------------------------------------------------------------------------

/// A trade, as it is shown.
#[derive(Debug, Clone)]
pub struct TradeSummary {
    pub id: String,
    pub actual_profit: i64,
    pub success: bool,
    pub orders_count: usize,
    pub executed_at: String,
    pub error: Option<String>,
}

/// Whether `s` shows a trade.
pub open spec fn shows_trade(s: TradeSummary, t: ExecutedTrade) -> bool {
    &&& s.id@ == head_text(t.opportunity_id@, 8)
    &&& s.actual_profit == t.actual_profit
    &&& s.success == t.success
    &&& s.orders_count == t.orders_filled@.len()
    &&& s.executed_at@ == written(t.executed_at)
    &&& text_of(s.error) == text_of(t.error)
}

fn trade_summary(t: &ExecutedTrade) -> (r: TradeSummary)
    requires
        id_showable(t.opportunity_id@),
    ensures
        shows_trade(r, *t),
{
    TradeSummary {
        id: head(t.opportunity_id.as_str(), 8).to_owned(),
        actual_profit: t.actual_profit,
        success: t.success,
        orders_count: t.orders_filled.len(),
        executed_at: to_rfc3339(&t.executed_at),
        error: match &t.error {
            Some(e) => Some(e.clone()),
            None => None,
        },
    }
}

/// When trades were executed, written out.
pub open spec fn trade_times(trades: Seq<ExecutedTrade>) -> Seq<Seq<char>> {
    trades.map_values(|t: ExecutedTrade| written(t.executed_at))
}

/// The sort keys of trades: the later in the order of texts, the earlier.
pub open spec fn trade_keys(trades: Seq<ExecutedTrade>) -> Seq<i128> {
    let times = trade_times(trades);
    Seq::new(times.len(), |i: int| (-rank(times, times[i], times.len() as int)) as i128)
}

/// Whether `r` shows the latest trades, in the order `p` of all of them.
pub open spec fn shows_trades(
    r: Seq<TradeSummary>,
    trades: Seq<ExecutedTrade>,
    p: Seq<usize>,
) -> bool {
    &&& is_order(trade_keys(trades), p)
    &&& r.len() == smaller(SHOWN_TRADES as int, trades.len() as int)
    &&& forall|i: int|
        0 <= i < r.len() ==> shows_trade(#[trigger] r[i], trades[p[i] as int])
}

/// Whether the identifiers of all trades can be shown.
pub open spec fn trades_showable(trades: Seq<ExecutedTrade>) -> bool {
    forall|i: int| 0 <= i < trades.len() ==> id_showable((#[trigger] trades[i]).opportunity_id@)
}

/// The trades to show, latest first; nothing where an identifier cannot be cut.
pub fn get_trades(state: &AppState) -> (r: Option<Vec<TradeSummary>>)
    requires
        state.wf(),
    ensures
        r is Some <==> trades_showable(state.executed_trades.records()),
        r matches Some(list) ==> exists|p: Seq<usize>| #[trigger]
            shows_trades(list@, state.executed_trades.records(), p),
{
    let ghost trades = state.executed_trades.records();
    let count: usize = state.executed_trades.len();
    let mut times: Vec<Vec<char>> = Vec::new();
    let mut i: usize = 0;
    while i < count
        invariant
            i <= count == trades.len(),
            state.wf(),
            trades == state.executed_trades.records(),
            times.len() == i,
            forall|k: int| 0 <= k < i ==> (#[trigger] times@[k])@ == written(trades[k].executed_at),
            forall|k: int| 0 <= k < i ==> id_showable((#[trigger] trades[k]).opportunity_id@),
        decreases count - i,
    {
        let t: &ExecutedTrade = state.executed_trades.row(i);
        if !can_show_id(t.opportunity_id.as_str()) {
            assert(!id_showable(trades[i as int].opportunity_id@));
            return None;
        }
        times.push(to_chars(to_rfc3339(&t.executed_at).as_str()));
        i = i + 1;
    }
    assert(times@.map_values(|t: Vec<char>| t@) =~= trade_times(trades));
    let ranks: Vec<i128> = text_ranks(&times);
    let mut keys: Vec<i128> = Vec::new();
    let mut j: usize = 0;
    while j < count
        invariant
            j <= count == trades.len(),
            ranks.len() == count,
            keys@ == trade_keys(trades).take(j as int),
            forall|k: int|
                0 <= k < count ==> #[trigger] ranks@[k] == rank(
                    trade_times(trades),
                    trade_times(trades)[k],
                    count as int,
                ),
        decreases count - j,
    {
        proof {
            lemma_rank_range(trade_times(trades), trade_times(trades)[j as int], count as int);
        }
        keys.push(-ranks[j]);
        j = j + 1;
        assert(keys@ =~= trade_keys(trades).take(j as int));
    }
    assert(keys@ =~= trade_keys(trades));
    let p: Vec<usize> = stable_order(&keys);
    let top: usize = if count < SHOWN_TRADES { count } else { SHOWN_TRADES };
    let mut r: Vec<TradeSummary> = Vec::new();
    let mut k: usize = 0;
    while k < top
        invariant
            k <= top <= count == trades.len(),
            state.wf(),
            trades == state.executed_trades.records(),
            is_order(trade_keys(trades), p@),
            trades_showable(trades),
            r.len() == k,
            forall|j: int|
                0 <= j < k ==> shows_trade(#[trigger] r@[j], trades[p@[j] as int]),
        decreases top - k,
    {
        let at: usize = p[k];
        assert(id_showable(trades[at as int].opportunity_id@));
        r.push(trade_summary(state.executed_trades.row(at)));
        k = k + 1;
    }
    assert(shows_trades(r@, state.executed_trades.records(), p@));
    let shown: Option<Vec<TradeSummary>> = Some(r);
    assert(shown->0@ == r@);
    shown
}

// ---------------------------------------------------------------------------
// Risk
// ---------------------------------------------------------------------------

/// The risk figures that are shown.
#[derive(Debug, Clone, Copy)]
pub struct RiskMetrics {
    pub daily_pnl: i64,
    pub daily_var_limit: i64,
    /// The used share of the day's limit, in hundredths; nothing where there is
    /// a loss and no limit.
    pub daily_limit_used_pct: Option<i64>,
    pub var_95: i64,
    pub cvar_95: i64,
    pub var_99: i64,
    pub win_rate: i64,
    /// The gains for one unit of loss; nothing where nothing was lost.
    pub profit_factor: Option<i64>,
    pub sharpe_ratio: i64,
    pub max_drawdown: i64,
    pub total_trades: usize,
}

/// The used share of the day's limit, in hundredths, rounded down; zero for a
/// gain, and nothing where there is a loss and no limit.
pub open spec fn limit_used(daily_pnl: int, limit: int) -> Option<i64> {
    if limit == 0 {
        if daily_pnl < 0 { None } else { Some(0i64) }
    } else {
        Some(larger(held(quotient(-daily_pnl * 100_000_000, limit)), 0) as i64)
    }
}

/// The risk figures for portfolio statistics and a day's limit.
pub open spec fn metrics(s: PortfolioStats, limit: i64) -> RiskMetrics {
    RiskMetrics {
        daily_pnl: s.daily_pnl,
        daily_var_limit: limit,
        daily_limit_used_pct: limit_used(s.daily_pnl as int, limit as int),
        var_95: s.var_95,
        cvar_95: s.cvar_95,
        var_99: s.var_99,
        win_rate: s.win_rate,
        profit_factor: s.profit_factor,
        sharpe_ratio: s.sharpe_ratio,
        max_drawdown: s.max_drawdown,
        total_trades: s.total_trades,
    }
}

fn limit_share(daily_pnl: i64, limit: i64) -> (r: Option<i64>)
    ensures
        r == limit_used(daily_pnl as int, limit as int),
{
    if limit == 0 {
        if daily_pnl < 0 {
            None
        } else {
            Some(0)
        }
    } else {
        let used: i64 = hold(divide(-(daily_pnl as i128) * 100_000_000, limit as i128));
        Some(if used >= 0 { used } else { 0 })
    }
}

/// The risk figures to show.
pub fn get_risk_metrics(state: &AppState) -> (r: RiskMetrics)
    ensures
        r == metrics(
            portfolio(state.var_engine.pnls(), state.var_engine.daily_pnl),
            state.config.daily_var_limit,
        ),
{
    let stats: PortfolioStats = state.var_engine.portfolio_stats();
    RiskMetrics {
        daily_pnl: stats.daily_pnl,
        daily_var_limit: state.config.daily_var_limit,
        daily_limit_used_pct: limit_share(stats.daily_pnl, state.config.daily_var_limit),
        var_95: stats.var_95,
        cvar_95: stats.cvar_95,
        var_99: stats.var_99,
        win_rate: stats.win_rate,
        profit_factor: stats.profit_factor,
        sharpe_ratio: stats.sharpe_ratio,
        max_drawdown: stats.max_drawdown,
        total_trades: stats.total_trades,
    }
}

// ---------------------------------------------------------------------------
// Laws
// ---------------------------------------------------------------------------

/// The markets that are shown are those farthest from one, farthest first.
pub proof fn law_markets_by_deviation(r: Seq<MarketSummary>, markets: Seq<Market>, p: Seq<usize>)
    requires
        shows_markets(r, markets, p),
    ensures
        forall|i: int, j: int|
            0 <= i < j < r.len() ==> (#[trigger] r[i]).deviation >= (#[trigger] r[j]).deviation,
        forall|i: int, k: int|
            0 <= i < r.len() <= k < markets.len() ==> (#[trigger] r[i]).deviation >= off_by(
                markets[(#[trigger] p[k]) as int],
            ),
{
    let keys = market_keys(markets);
    assert forall|i: int, k: int| 0 <= i < k < markets.len() implies off_by(
        markets[(#[trigger] p[i]) as int],
    ) >= off_by(markets[(#[trigger] p[k]) as int]) by {
        assert(precedes(keys, p[i] as int, p[k] as int));
    }
    assert forall|i: int| 0 <= i < r.len() implies (#[trigger] r[i]).deviation == off_by(
        markets[p[i] as int],
    ) by {
        assert(shows_market(r[i], markets[p[i] as int]));
    }
}

/// The trades that are shown are the latest, latest first: none comes before a
/// later row in the order of the texts of their times.
pub proof fn law_trades_by_time(r: Seq<TradeSummary>, trades: Seq<ExecutedTrade>, p: Seq<usize>)
    requires
        shows_trades(r, trades, p),
        trades.len() <= usize::MAX,
    ensures
        forall|i: int, j: int|
            0 <= i < j < r.len() ==> !text_before(
                (#[trigger] r[i]).executed_at@,
                (#[trigger] r[j]).executed_at@,
            ),
{
    let keys = trade_keys(trades);
    let times = trade_times(trades);
    let n: int = times.len() as int;
    assert forall|i: int, j: int| 0 <= i < j < r.len() implies !text_before(
        (#[trigger] r[i]).executed_at@,
        (#[trigger] r[j]).executed_at@,
    ) by {
        let a: int = p[i] as int;
        let b: int = p[j] as int;
        assert(precedes(keys, p[i] as int, p[j] as int));
        assert(shows_trade(r[i], trades[p[i] as int]));
        assert(shows_trade(r[j], trades[p[j] as int]));
        assert(times[a] == r[i].executed_at@);
        assert(times[b] == r[j].executed_at@);
        if text_before(times[a], times[b]) {
            law_rank_follows_order(times, a, times[b]);
            lemma_rank_range(times, times[a], n);
            lemma_rank_range(times, times[b], n);
        }
    }
}

/// The used share of the day's limit is never negative; a gain uses nothing.
pub proof fn law_limit_used(daily_pnl: int, limit: int)
    requires
        limit > 0,
    ensures
        limit_used(daily_pnl, limit) matches Some(x) && x >= 0 && (daily_pnl >= 0 ==> x == 0),
{
    if daily_pnl >= 0 {
        let a: int = -daily_pnl * 100_000_000;
        vstd::arithmetic::div_mod::lemma_fundamental_div_mod(a, limit);
        let q: int = a / limit;
        assert(q <= 0) by (nonlinear_arith)
            requires
                a == limit * q + a % limit,
                a % limit >= 0,
                a <= 0,
                limit > 0,
        ;
    }
}

/// A market is shown with the sum of its prices and with its distance from one, which is
/// never negative: what its pair costs less or more.
pub proof fn law_shown_market(s: MarketSummary, m: Market)
    requires
        shows_market(s, m),
        i64::MIN < m.yes_price + m.no_price < i64::MAX,
    ensures
        s.price_sum == m.yes_price + m.no_price,
        s.yes_price + s.no_price == s.price_sum,
        s.deviation >= 0,
        s.price_sum <= SCALE && s.deviation < i64::MAX ==> s.price_sum + s.deviation == SCALE,
        s.price_sum >= SCALE ==> s.price_sum - s.deviation == SCALE,
{
}

/// The certain profit in hundredths of the position, rounded down: the position's share
/// of it is the profit. An empty position has none.
pub proof fn law_profit_percent(s: OpportunitySummary, o: ArbitrageOpportunity)
    requires
        shows_opportunity(s, o),
    ensures
        o.position_size <= 0 ==> s.profit_pct == 0,
        o.position_size > 0 && i64::MIN < s.profit_pct < i64::MAX ==> s.profit_pct * o.position_size
            <= 100 * SCALE * o.guaranteed_profit < (s.profit_pct + 1) * o.position_size,
{
    if o.position_size > 0 {
        let a: int = o.guaranteed_profit * 100_000_000;
        let d: int = o.position_size as int;
        vstd::arithmetic::div_mod::lemma_fundamental_div_mod(a, d);
        let q: int = a / d;
        assert(q * d <= a < (q + 1) * d) by (nonlinear_arith)
            requires
                a == d * q + a % d,
                0 <= a % d < d,
        ;
    }
}

/// The opportunities that are shown are the most profitable, most profitable first: none
/// that is left out is more profitable than one that is shown.
pub proof fn law_opportunities_by_profit(
    r: Seq<OpportunitySummary>,
    opps: Seq<ArbitrageOpportunity>,
    p: Seq<usize>,
)
    requires
        shows_opportunities(r, opps, p),
    ensures
        r.len() <= 20,
        r.len() < 20 ==> r.len() == opps.len(),
        forall|i: int, j: int|
            0 <= i < j < r.len() ==> (#[trigger] r[i]).guaranteed_profit >= (
            #[trigger] r[j]).guaranteed_profit,
        forall|i: int, k: int|
            0 <= i < r.len() <= k < opps.len() ==> (#[trigger] r[i]).guaranteed_profit >= opps[(
            #[trigger] p[k]) as int].guaranteed_profit,
{
    let keys = opportunity_keys(opps);
    assert forall|i: int, k: int| 0 <= i < k < opps.len() implies opps[(
    #[trigger] p[i]) as int].guaranteed_profit >= opps[(#[trigger] p[k]) as int].guaranteed_profit by {
        assert(precedes(keys, p[i] as int, p[k] as int));
        assert(keys[p[i] as int] == -opps[p[i] as int].guaranteed_profit);
        assert(keys[p[k] as int] == -opps[p[k] as int].guaranteed_profit);
    }
    assert forall|i: int| 0 <= i < r.len() implies (#[trigger] r[i]).guaranteed_profit
        == opps[p[i] as int].guaranteed_profit by {
        assert(shows_opportunity(r[i], opps[p[i] as int]));
    }
}

/// No trade that is left out was made later than one that is shown, in the order of the
/// texts of their times.
pub proof fn law_latest_trades_shown(
    r: Seq<TradeSummary>,
    trades: Seq<ExecutedTrade>,
    p: Seq<usize>,
)
    requires
        shows_trades(r, trades, p),
        trades.len() <= usize::MAX,
    ensures
        r.len() <= 50,
        r.len() < 50 ==> r.len() == trades.len(),
        forall|i: int, k: int|
            0 <= i < r.len() <= k < trades.len() ==> !text_before(
                (#[trigger] r[i]).executed_at@,
                written(trades[(#[trigger] p[k]) as int].executed_at),
            ),
{
    let keys = trade_keys(trades);
    let times = trade_times(trades);
    let n: int = times.len() as int;
    assert forall|i: int, k: int| 0 <= i < r.len() <= k < trades.len() implies !text_before(
        (#[trigger] r[i]).executed_at@,
        written(trades[(#[trigger] p[k]) as int].executed_at),
    ) by {
        let a: int = p[i] as int;
        let b: int = p[k] as int;
        assert(precedes(keys, p[i] as int, p[k] as int));
        assert(shows_trade(r[i], trades[p[i] as int]));
        assert(times[a] == r[i].executed_at@);
        assert(times[b] == written(trades[b].executed_at));
        if text_before(times[a], times[b]) {
            law_rank_follows_order(times, a, times[b]);
            lemma_rank_range(times, times[a], n);
            lemma_rank_range(times, times[b], n);
        }
    }
}

/// A trade is shown with its own profit, with whether it was a success, with how many of
/// its orders were filled, and with its error.
pub proof fn law_shown_trade(s: TradeSummary, t: ExecutedTrade)
    requires
        shows_trade(s, t),
    ensures
        s.success <==> t.success,
        s.actual_profit == t.actual_profit,
        s.orders_count == t.orders_filled@.len(),
        s.error is Some <==> t.error is Some,
        t.error matches Some(e) ==> s.error matches Some(x) && x@ == e@,
        s.executed_at@ == rfc3339_text(t.executed_at.seconds(), t.executed_at.subsecond()),
{
}

/// An opportunity is shown with its own profits and position; its names tell its kind and
/// its status.
pub proof fn law_shown_opportunity(
    s: OpportunitySummary,
    o: ArbitrageOpportunity,
    kind: ArbitrageType,
    status: OpportunityStatus,
)
    requires
        shows_opportunity(s, o),
    ensures
        s.guaranteed_profit == o.guaranteed_profit,
        s.max_profit == o.max_profit,
        s.position_size == o.position_size,
        s.opportunity_type@ == kind.name_text() <==> kind == o.opportunity_type,
        s.status@ == status.name_text() <==> status == o.status,
        s.detected_at@ == rfc3339_text(o.detected_at.seconds(), o.detected_at.subsecond()),
{
    law_names_differ(kind, o.opportunity_type, status, o.status);
}

} // verus!
