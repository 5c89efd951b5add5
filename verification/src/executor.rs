//! Execution: which opportunities are taken up, whether they still hold, what
//! they risk, and what becomes of their trades.

use vstd::prelude::*;
use crate::clock::{day_number, day_of, now, Timestamp};
use crate::ids::fresh_id;
use crate::json::{
    amount_member, amount_or, document, parse, quoted, quoted_text, read_amount, read_text,
    text_member, Json,
};
use crate::math::{asks_any, computes};
use crate::order::{is_order, stable_order};
use crate::risk::{
    advice, edge_loss, fill_chance, is_valuation, limit_verdict, mean, profit_per_risk, recorded,
    simulated, tail_edge, Advice, ConfidenceLevel, DailyLimitCheck, ExecutionType,
    ExecutionVaRResult, LimitVerdict, OpportunityRiskProfile, PnLRecord, RiskRecommendation,
    VaREngine, SCENARIOS,
};
use crate::table::{inserted, Table};
use crate::text::{ends_with, has_suffix, number, number_text};
use crate::types::{
    AppState, ArbitrageOpportunity, ArbitrageType, BotConfig, BotStats, ExecutedTrade, FilledOrder,
    Market, OpportunityStatus, OrderSide, OrderToExecute,
};
use crate::units::{
    counted, div_down, held, hold, larger, lemma_sum_fits, multiply, product, smaller, SCALE,
};

verus! {

/// How many opportunities are taken up at once.
pub const TOP: usize = 3;

// ---------------------------------------------------------------------------
// Pending opportunities
// ---------------------------------------------------------------------------

/// The opportunities that wait for execution.
pub open spec fn waiting(opps: Seq<ArbitrageOpportunity>) -> Seq<ArbitrageOpportunity> {
    opps.filter(|o: ArbitrageOpportunity| o.status == OpportunityStatus::Detected)
}

/// The sort keys of opportunities: the higher the profit, the earlier.
pub open spec fn profit_keys(opps: Seq<ArbitrageOpportunity>) -> Seq<i128> {
    opps.map_values(|o: ArbitrageOpportunity| (-o.guaranteed_profit) as i128)
}

/// Whether `r` are the most profitable of some opportunities, in the order
/// `p` of all of them.
pub open spec fn are_best(
    r: Seq<ArbitrageOpportunity>,
    opps: Seq<ArbitrageOpportunity>,
    p: Seq<usize>,
) -> bool {
    &&& is_order(profit_keys(opps), p)
    &&& r.len() == smaller(TOP as int, opps.len() as int)
    &&& forall|i: int|
        0 <= i < r.len() ==> (#[trigger] r[i]).same_deal(&opps[p[i] as int]) && r[i].status
            == opps[p[i] as int].status
}

/// The most profitable opportunities that wait for execution, most profitable
/// first.
pub fn pending_opportunities(state: &AppState) -> (r: Vec<ArbitrageOpportunity>)
    requires
        state.wf(),
    ensures
        exists|p: Seq<usize>| #[trigger]
            are_best(r@, waiting(state.opportunities.records()), p),
{
    let ghost opps = state.opportunities.records();
    let count: usize = state.opportunities.len();
    let mut places: Vec<usize> = Vec::new();
    let mut keys: Vec<i128> = Vec::new();
    let mut i: usize = 0;
    proof {
        reveal(Seq::filter);
    }
    assert(keys@ =~= profit_keys(waiting(opps.take(0))));
    while i < count
        invariant
            i <= count == opps.len(),
            state.wf(),
            opps == state.opportunities.records(),
            places.len() == keys.len(),
            places.len() == waiting(opps.take(i as int)).len(),
            keys@ == profit_keys(waiting(opps.take(i as int))),
            forall|k: int|
                0 <= k < places.len() ==> #[trigger] places@[k] < opps.len()
                    && opps[places@[k] as int] == waiting(opps.take(i as int))[k],
        decreases count - i,
    {
        proof {
            reveal(Seq::filter);
            assert(opps.take(i + 1).drop_last() =~= opps.take(i as int));
        }
        let opp: &ArbitrageOpportunity = state.opportunities.row(i);
        if matches!(opp.status, OpportunityStatus::Detected) {
            places.push(i);
            keys.push(-(opp.guaranteed_profit as i128));
        }
        assert(keys@ =~= profit_keys(waiting(opps.take(i + 1))));
        i = i + 1;
    }
    assert(opps.take(i as int) =~= opps);
    let p: Vec<usize> = stable_order(&keys);
    let top: usize = if places.len() < TOP { places.len() } else { TOP };
    let mut r: Vec<ArbitrageOpportunity> = Vec::new();
    let mut k: usize = 0;
    while k < top
        invariant
            k <= top <= places.len(),
            top == smaller(TOP as int, places.len() as int),
            state.wf(),
            opps == state.opportunities.records(),
            places.len() == waiting(opps).len(),
            p.len() == places.len(),
            keys@ == profit_keys(waiting(opps)),
            is_order(keys@, p@),
            r.len() == k,
            forall|j: int|
                0 <= j < places.len() ==> #[trigger] places@[j] < opps.len()
                    && opps[places@[j] as int] == waiting(opps)[j],
            forall|j: int|
                0 <= j < k ==> (#[trigger] r@[j]).same_deal(&waiting(opps)[p@[j] as int])
                    && r@[j].status == waiting(opps)[p@[j] as int].status,
        decreases top - k,
    {
        let at: usize = p[k];
        assert(places@[at as int] < opps.len());
        r.push(state.opportunities.row(places[at]).duplicate());
        k = k + 1;
    }
    assert(are_best(r@, waiting(opps), p@));
    r
}

// ---------------------------------------------------------------------------
// Current prices and liquidity
// ---------------------------------------------------------------------------

/// Whether an order is on the outcome YES.
pub open spec fn is_yes(order: OrderToExecute) -> bool {
    ends_with(order.token_id@, "_YES"@)
}

/// The current price of what an order trades, in a market.
pub open spec fn price_in(order: OrderToExecute, market: Market) -> int {
    if is_yes(order) { market.yes_price as int } else { market.no_price as int }
}

/// The volume of what an order trades, in a market.
pub open spec fn volume_in(order: OrderToExecute, market: Market) -> int {
    if is_yes(order) { market.yes_volume as int } else { market.no_volume as int }
}

/// The sum of the current prices of the first `n` orders; orders on unknown
/// markets do not count.
pub open spec fn price_total(
    markets: Table<Market>,
    orders: Seq<OrderToExecute>,
    n: int,
) -> int
    decreases n,
{
    if n <= 0 {
        0
    } else {
        let order = orders[n - 1];
        price_total(markets, orders, n - 1) + if markets.has(order.market_id@) {
            price_in(order, markets.at(order.market_id@))
        } else {
            0
        }
    }
}

/// The profit of an opportunity at current prices.
pub open spec fn current_profit(markets: Table<Market>, opp: ArbitrageOpportunity) -> int {
    let sum = price_total(markets, opp.orders@, opp.orders@.len() as int);
    let size = opp.position_size as int;
    if opp.orders@.len() == 0 {
        0
    } else {
        match opp.opportunity_type {
            ArbitrageType::SimpleUnderpriced => held(product(held(larger(SCALE - sum, 0)), size)),
            ArbitrageType::SimpleOverpriced => held(product(held(larger(sum - SCALE, 0)), size)),
            _ => opp.guaranteed_profit as int,
        }
    }
}

/// The profit of an opportunity at current prices.
pub fn validate_opportunity_still_valid(state: &AppState, opportunity: &ArbitrageOpportunity) -> (r:
    i64)
    requires
        state.wf(),
    ensures
        r == current_profit(state.markets, *opportunity),
{
    let ghost orders = opportunity.orders@;
    let mut sum: i128 = 0;
    let mut i: usize = 0;
    while i < opportunity.orders.len()
        invariant
            i <= opportunity.orders.len(),
            orders == opportunity.orders@,
            state.wf(),
            sum == price_total(state.markets, orders, i as int),
            i * i64::MIN <= sum <= i * i64::MAX,
        decreases opportunity.orders.len() - i,
    {
        let order: &OrderToExecute = &opportunity.orders[i];
        proof {
            lemma_sum_fits(i as int);
            assert((i + 1) * i64::MIN == i * i64::MIN + i64::MIN) by (nonlinear_arith);
            assert((i + 1) * i64::MAX == i * i64::MAX + i64::MAX) by (nonlinear_arith);
        }
        let price: i64 = match state.markets.get(order.market_id.as_str()) {
            Some(market) => if has_suffix(order.token_id.as_str(), "_YES") {
                market.yes_price
            } else {
                market.no_price
            },
            None => 0,
        };
        sum = sum + price as i128;
        i = i + 1;
    }
    if opportunity.orders.len() == 0 {
        return 0;
    }
    match opportunity.opportunity_type {
        ArbitrageType::SimpleUnderpriced => {
            let gain: i64 = gain_below(sum);
            hold(multiply(gain, opportunity.position_size))
        },
        ArbitrageType::SimpleOverpriced => {
            let gain: i64 = gain_above(sum);
            hold(multiply(gain, opportunity.position_size))
        },
        _ => opportunity.guaranteed_profit,
    }
}

fn gain_below(sum: i128) -> (r: i64)
    ensures
        r == held(larger(SCALE - sum, 0)),
{
    if sum >= SCALE as i128 {
        0
    } else if sum < i64::MIN as i128 {
        i64::MAX
    } else {
        hold(SCALE as i128 - sum)
    }
}

fn gain_above(sum: i128) -> (r: i64)
    ensures
        r == held(larger(sum - SCALE, 0)),
{
    if sum <= SCALE as i128 {
        0
    } else {
        hold(sum - SCALE as i128)
    }
}

/// The smallest volume that the first `n` orders find; nothing where none of
/// their markets is known.
pub open spec fn least_volume(
    markets: Table<Market>,
    orders: Seq<OrderToExecute>,
    n: int,
) -> Option<i64>
    decreases n,
{
    if n <= 0 {
        None
    } else {
        let order = orders[n - 1];
        let before = least_volume(markets, orders, n - 1);
        if markets.has(order.market_id@) {
            let here = volume_in(order, markets.at(order.market_id@)) as i64;
            match before {
                Some(v) => Some(if v <= here { v } else { here }),
                None => Some(here),
            }
        } else {
            before
        }
    }
}

/// The smallest volume that the orders of an opportunity find; nothing where
/// none of their markets is known, so that nothing bounds it.
pub fn check_liquidity(state: &AppState, opportunity: &ArbitrageOpportunity) -> (r: Option<i64>)
    requires
        state.wf(),
    ensures
        r == least_volume(state.markets, opportunity.orders@, opportunity.orders@.len() as int),
{
    let ghost orders = opportunity.orders@;
    let mut least: Option<i64> = None;
    let mut i: usize = 0;
    while i < opportunity.orders.len()
        invariant
            i <= opportunity.orders.len(),
            orders == opportunity.orders@,
            state.wf(),
            least == least_volume(state.markets, orders, i as int),
        decreases opportunity.orders.len() - i,
    {
        let order: &OrderToExecute = &opportunity.orders[i];
        match state.markets.get(order.market_id.as_str()) {
            Some(market) => {
                let here: i64 = if has_suffix(order.token_id.as_str(), "_YES") {
                    market.yes_volume
                } else {
                    market.no_volume
                };
                least = match least {
                    Some(v) => Some(if v <= here { v } else { here }),
                    None => Some(here),
                };
            },
            None => {},
        }
        i = i + 1;
    }
    least
}

/// Whether a volume is less than four fifths of a position.
pub open spec fn too_thin(volume: Option<i64>, size: int) -> bool {
    match volume {
        Some(v) => 5 * v < 4 * size,
        None => false,
    }
}

// ---------------------------------------------------------------------------
// Statuses
// ---------------------------------------------------------------------------

/// An opportunity with another status.
pub open spec fn as_status(
    opp: ArbitrageOpportunity,
    status: OpportunityStatus,
) -> ArbitrageOpportunity {
    ArbitrageOpportunity { status, ..opp }
}

/// Whether `after` are the opportunities `before` with the status of the one
/// under `id` set; nothing changes where there is none.
pub open spec fn with_status(
    before: Table<ArbitrageOpportunity>,
    id: Seq<char>,
    status: OpportunityStatus,
    after: Table<ArbitrageOpportunity>,
) -> bool {
    if before.has(id) {
        &&& after.order() == before.order()
        &&& after.records() == before.records().update(
            before.order().index_of(id),
            as_status(before.at(id), status),
        )
    } else {
        after == before
    }
}

/// Whether `after` is the state `before` with the status of one opportunity
/// set.
pub open spec fn marked(
    before: AppState,
    id: Seq<char>,
    status: OpportunityStatus,
    after: AppState,
) -> bool {
    &&& with_status(before.opportunities, id, status, after.opportunities)
    &&& after.markets == before.markets
    &&& after.executed_trades == before.executed_trades
    &&& after.config == before.config
    &&& after.stats == before.stats
    &&& after.var_engine == before.var_engine
}

/// Sets the status of the opportunity under `id`, where there is one.
pub fn set_status(state: &mut AppState, id: &str, status: OpportunityStatus)
    requires
        old(state).wf(),
    ensures
        final(state).wf(),
        marked(*old(state), id@, status, *final(state)),
{
    proof {
        state.opportunities.lemma_wf();
    }
    match state.opportunities.find(id) {
        Some(i) => {
            let opp: &mut ArbitrageOpportunity = state.opportunities.row_mut(i);
            opp.status = status;
        },
        None => {},
    }
}

/// Of two settings of one status the second remains.
proof fn lemma_marked_twice(
    a: AppState,
    id: Seq<char>,
    first: OpportunityStatus,
    b: AppState,
    second: OpportunityStatus,
    c: AppState,
)
    requires
        a.wf(),
        b.wf(),
        marked(a, id, first, b),
        marked(b, id, second, c),
    ensures
        marked(a, id, second, c),
{
    a.opportunities.lemma_wf();
    b.opportunities.lemma_wf();
    if a.opportunities.has(id) {
        let i: int = a.opportunities.order().index_of(id);
        assert(b.opportunities.has(id));
        assert(b.opportunities.at(id) == as_status(a.opportunities.at(id), first));
        assert(as_status(as_status(a.opportunities.at(id), first), second) == as_status(
            a.opportunities.at(id),
            second,
        ));
        assert(c.opportunities.records() =~= a.opportunities.records().update(
            i,
            as_status(a.opportunities.at(id), second),
        ));
    }
}

// ---------------------------------------------------------------------------
// Risk clearance
// ---------------------------------------------------------------------------

/// Why an opportunity is given up.
#[derive(Debug, Clone)]
pub enum Expiry {
    /// At current prices its profit is below the threshold.
    Unprofitable { current_profit: i64 },
    /// Its orders find too little volume.
    Illiquid { available: i64 },
    /// Its market is not known.
    UnknownMarket,
    /// It does not fit into what is left of the day's limit.
    DailyLimit { reason: String },
    /// Its risk is too high.
    Discarded { reason: String },
    /// Its profit is too small for its value at risk.
    PoorRatio,
}

/// Why an opportunity is given up, as a mathematical value.
pub ghost enum Cause {
    Unprofitable { current_profit: int },
    Illiquid { available: int },
    UnknownMarket,
    DailyLimit { reason: Seq<char> },
    Discarded { reason: Seq<char> },
    PoorRatio,
}

impl View for Expiry {
    type V = Cause;

    open spec fn view(&self) -> Cause {
        match self {
            Expiry::Unprofitable { current_profit } => Cause::Unprofitable {
                current_profit: *current_profit as int,
            },
            Expiry::Illiquid { available } => Cause::Illiquid { available: *available as int },
            Expiry::UnknownMarket => Cause::UnknownMarket,
            Expiry::DailyLimit { reason } => Cause::DailyLimit { reason: reason@ },
            Expiry::Discarded { reason } => Cause::Discarded { reason: reason@ },
            Expiry::PoorRatio => Cause::PoorRatio,
        }
    }
}

/// The value at risk of a trade at the level of the clearance.
pub open spec fn trade_var(profile: OpportunityRiskProfile) -> int {
    edge_loss(
        simulated(profile),
        tail_edge(ConfidenceLevel::Pct95.tail_share(), SCENARIOS as int),
    )
}

/// What the risk engine advises on a trade.
pub open spec fn trade_advice(engine: VaREngine, profile: OpportunityRiskProfile) -> Advice {
    advice(
        trade_var(profile),
        profile.guaranteed_profit as int,
        mean(simulated(profile)),
        engine.daily_var_limit as int,
        engine.daily_pnl as int,
        engine.total_capital as int,
        profile.fill_probability as int,
        profile.worst_case_single_leg_loss as int,
    )
}

/// Whether the profit for one unit of value at risk is too small.
pub open spec fn poor_ratio(profile: OpportunityRiskProfile, min_ratio: int) -> bool {
    match profit_per_risk(profile.guaranteed_profit as int, trade_var(profile)) {
        Some(ratio) => ratio < min_ratio,
        None => false,
    }
}

/// The size with which a trade passes the clearance, or why it does not: it must fit
/// into the day's limit, the engine must not advise against it, and its profit
/// must be large enough for its value at risk.
pub open spec fn clearance(
    engine: VaREngine,
    profile: OpportunityRiskProfile,
    min_ratio: int,
    position_size: int,
) -> Result<int, Cause> {
    match limit_verdict(
        trade_var(profile),
        engine.daily_pnl as int,
        engine.daily_var_limit as int,
    ) {
        LimitVerdict::Blocked { reason, .. } => Err(Cause::DailyLimit { reason }),
        _ => match trade_advice(engine, profile) {
            Advice::Skip { reason } => Err(Cause::Discarded { reason }),
            Advice::Execute => if poor_ratio(profile, min_ratio) {
                Err(Cause::PoorRatio)
            } else {
                Ok(position_size)
            },
            Advice::ExecuteReduced { suggested_size_pct } => if poor_ratio(profile, min_ratio) {
                Err(Cause::PoorRatio)
            } else {
                Ok(held(product(position_size, suggested_size_pct)))
            },
        },
    }
}

/// The outcome of the clearance, as a mathematical value.
pub open spec fn clearance_view(r: Result<i64, Expiry>) -> Result<int, Cause> {
    match r {
        Ok(size) => Ok(size as int),
        Err(e) => Err(e@),
    }
}

/// The size with which a trade passes the clearance, or why it does not; with the
/// valuation of its risk.
pub fn risk_clearance(
    engine: &VaREngine,
    profile: &OpportunityRiskProfile,
    min_ratio: i64,
    position_size: i64,
) -> (r: (ExecutionVaRResult, Result<i64, Expiry>))
    ensures
        clearance_view(r.1) == clearance(*engine, *profile, min_ratio as int, position_size as int),
        is_valuation(r.0, *engine, *profile, ConfidenceLevel::Pct95),
        r.0.var == trade_var(*profile),
        r.0.recommendation@ == trade_advice(*engine, *profile),
{
    let risk: ExecutionVaRResult = engine.execution_var(profile, ConfidenceLevel::Pct95);
    let check: DailyLimitCheck = engine.check_daily_limit(risk.var);
    if let DailyLimitCheck::Blocked { reason, .. } = check {
        return (risk, Err(Expiry::DailyLimit { reason }));
    }
    let size: i64 = match &risk.recommendation {
        RiskRecommendation::Execute => position_size,
        RiskRecommendation::ExecuteReduced { suggested_size_pct } => hold(
            multiply(position_size, *suggested_size_pct),
        ),
        RiskRecommendation::Skip { reason } => {
            let reason: String = reason.clone();
            return (risk, Err(Expiry::Discarded { reason }));
        },
    };
    let poor: bool = match risk.profit_var_ratio {
        Some(ratio) => ratio < min_ratio,
        None => false,
    };
    if poor {
        return (risk, Err(Expiry::PoorRatio));
    }
    (risk, Ok(size))
}

// ---------------------------------------------------------------------------
// Decisions
// ---------------------------------------------------------------------------

/// A trade that is to be made.
#[derive(Debug, Clone)]
pub struct Ticket {
    /// The size with which it was cleared.
    pub position_size: i64,
    pub profile: OpportunityRiskProfile,
    pub risk: ExecutionVaRResult,
}

/// What is to be done with an opportunity.
#[derive(Debug, Clone)]
pub enum Decision {
    /// Nothing: it does not wait for execution any more.
    Taken,
    /// Nothing: it names no market.
    NoMarketId,
    /// It is given up.
    Expired(Expiry),
    /// It is to be traded.
    Trade(Ticket),
}

/// What is to be done with an opportunity, as a mathematical value.
pub ghost enum Course {
    Taken,
    NoMarketId,
    Expired(Cause),
    Trade { position_size: int },
}

impl View for Decision {
    type V = Course;

    open spec fn view(&self) -> Course {
        match self {
            Decision::Taken => Course::Taken,
            Decision::NoMarketId => Course::NoMarketId,
            Decision::Expired(e) => Course::Expired(e@),
            Decision::Trade(t) => Course::Trade { position_size: t.position_size as int },
        }
    }
}

/// What is to be done with an opportunity before its risk is valued: nothing
/// where it is taken up already; it is given up where its profit has gone, where
/// volume is missing, or where its market is not known.
pub open spec fn early_course(state: AppState, opp: ArbitrageOpportunity) -> Option<Course> {
    let profit = current_profit(state.markets, opp);
    let volume = least_volume(state.markets, opp.orders@, opp.orders@.len() as int);
    if state.opportunities.has(opp.id@) && state.opportunities.at(opp.id@).status
        != OpportunityStatus::Detected {
        Some(Course::Taken)
    } else if profit < state.config.min_profit_threshold {
        Some(Course::Expired(Cause::Unprofitable { current_profit: profit }))
    } else if too_thin(volume, opp.position_size as int) {
        Some(Course::Expired(Cause::Illiquid { available: volume->0 as int }))
    } else if opp.market_ids@.len() == 0 {
        Some(Course::NoMarketId)
    } else if !state.markets.has(opp.market_ids@[0]@) {
        Some(Course::Expired(Cause::UnknownMarket))
    } else {
        None
    }
}

/// What is at stake in an opportunity at the current prices and volumes of its
/// market, where `g` is the exponential.
pub open spec fn stake(
    opp: ArbitrageOpportunity,
    market: Market,
    g: spec_fn(int) -> int,
) -> OpportunityRiskProfile {
    OpportunityRiskProfile {
        opportunity_id: opp.id,
        guaranteed_profit: opp.guaranteed_profit,
        fill_probability: fill_chance(
            smaller(market.yes_volume as int, market.no_volume as int),
            opp.position_size as int,
            g,
        ) as i64,
        worst_case_single_leg_loss: held(
            product(
                larger(market.yes_price as int, market.no_price as int),
                opp.position_size as int,
            ),
        ) as i64,
        capital_committed: held(
            product(held(market.yes_price + market.no_price), opp.position_size as int),
        ) as i64,
    }
}

/// What is to be done with an opportunity, where `g` is the exponential.
pub open spec fn course(
    state: AppState,
    opp: ArbitrageOpportunity,
    g: spec_fn(int) -> int,
) -> Course {
    match early_course(state, opp) {
        Some(c) => c,
        None => match clearance(
            state.var_engine,
            stake(opp, state.markets.at(opp.market_ids@[0]@), g),
            state.config.min_profit_var_ratio as int,
            opp.position_size as int,
        ) {
            Ok(size) => Course::Trade { position_size: size },
            Err(c) => Course::Expired(c),
        },
    }
}

/// Whether a decision leads from `before` to `after`: an opportunity that is
/// taken up is marked as being executed, and one that is given up as expired.
pub open spec fn follows(
    before: AppState,
    opp: ArbitrageOpportunity,
    c: Course,
    after: AppState,
) -> bool {
    match c {
        Course::Taken => after == before,
        Course::Expired(_) => marked(before, opp.id@, OpportunityStatus::Expired, after),
        _ => marked(before, opp.id@, OpportunityStatus::Executing, after),
    }
}

/// Whether a profile states what is at stake.
pub open spec fn same_stake(a: OpportunityRiskProfile, b: OpportunityRiskProfile) -> bool {
    &&& a.opportunity_id@ == b.opportunity_id@
    &&& a.guaranteed_profit == b.guaranteed_profit
    &&& a.fill_probability == b.fill_probability
    &&& a.worst_case_single_leg_loss == b.worst_case_single_leg_loss
    &&& a.capital_committed == b.capital_committed
}

/// Whether a profile states what is at stake, but for the chance of a fill.
pub open spec fn stakes(
    p: OpportunityRiskProfile,
    opp: ArbitrageOpportunity,
    market: Market,
) -> bool {
    &&& p.opportunity_id@ == opp.id@
    &&& p.guaranteed_profit == opp.guaranteed_profit
    &&& p.worst_case_single_leg_loss == held(
        product(larger(market.yes_price as int, market.no_price as int), opp.position_size as int),
    )
    &&& p.capital_committed == held(
        product(held(market.yes_price + market.no_price), opp.position_size as int),
    )
}

/// Whether a ticket is for a trade that passed: nothing spoke against it before its
/// risk was valued, it states what is at stake and what that risks, and it was
/// cleared with its size.
pub open spec fn is_cleared(state: AppState, opp: ArbitrageOpportunity, t: Ticket) -> bool {
    &&& early_course(state, opp) is None
    &&& stakes(t.profile, opp, state.markets.at(opp.market_ids@[0]@))
    &&& is_valuation(t.risk, state.var_engine, t.profile, ConfidenceLevel::Pct95)
    &&& t.risk.var == trade_var(t.profile)
    &&& clearance(
        state.var_engine,
        t.profile,
        state.config.min_profit_var_ratio as int,
        opp.position_size as int,
    ) == Ok::<int, Cause>(t.position_size as int)
}

/// Decides on an opportunity, and marks it. The exponential function is handed
/// in, in millionths.
pub fn decide<E: Fn(i64) -> i64>(
    state: &mut AppState,
    opportunity: &ArbitrageOpportunity,
    exp: &E,
) -> (r: Decision)
    requires
        old(state).wf(),
        asks_any(*exp),
    ensures
        final(state).wf(),
        forall|g: spec_fn(int) -> int| #[trigger]
            computes(*exp, g) ==> r@ == course(*old(state), *opportunity, g),
        early_course(*old(state), *opportunity) matches Some(c) ==> r@ == c,
        early_course(*old(state), *opportunity) is None ==> r is Expired || r is Trade,
        follows(*old(state), *opportunity, r@, *final(state)),
        r matches Decision::Trade(t) ==> is_cleared(*old(state), *opportunity, t) && forall|
            g: spec_fn(int) -> int,
        | #[trigger]
            computes(*exp, g) ==> same_stake(
                t.profile,
                stake(*opportunity, old(state).markets.at(opportunity.market_ids@[0]@), g),
            ),
{
    let ghost before = *state;
    match state.opportunities.get(opportunity.id.as_str()) {
        Some(opp) => {
            if !matches!(opp.status, OpportunityStatus::Detected) {
                return Decision::Taken;
            }
        },
        None => {},
    }
    set_status(state, opportunity.id.as_str(), OpportunityStatus::Executing);
    let ghost taken = *state;

    let profit: i64 = validate_opportunity_still_valid(state, opportunity);
    if profit < state.config.min_profit_threshold {
        give_up(state, opportunity, Ghost(before));
        return Decision::Expired(Expiry::Unprofitable { current_profit: profit });
    }
    match check_liquidity(state, opportunity) {
        Some(volume) => {
            if 5 * (volume as i128) < 4 * (opportunity.position_size as i128) {
                give_up(state, opportunity, Ghost(before));
                return Decision::Expired(Expiry::Illiquid { available: volume });
            }
        },
        None => {},
    }
    if opportunity.market_ids.len() == 0 {
        return Decision::NoMarketId;
    }
    let profile: OpportunityRiskProfile = match state.markets.get(
        opportunity.market_ids[0].as_str(),
    ) {
        Some(market) => OpportunityRiskProfile::from_opportunity(
            opportunity.id.as_str(),
            opportunity.guaranteed_profit,
            market.yes_price,
            market.no_price,
            opportunity.position_size,
            market.yes_volume,
            market.no_volume,
            exp,
        ),
        None => {
            give_up(state, opportunity, Ghost(before));
            return Decision::Expired(Expiry::UnknownMarket);
        },
    };
    let (risk, passed): (ExecutionVaRResult, Result<i64, Expiry>) = risk_clearance(
        &state.var_engine,
        &profile,
        state.config.min_profit_var_ratio,
        opportunity.position_size,
    );
    proof {
        let market = before.markets.at(opportunity.market_ids@[0]@);
        assert forall|g: spec_fn(int) -> int| #[trigger] computes(*exp, g) implies clearance(
            before.var_engine,
            profile,
            before.config.min_profit_var_ratio as int,
            opportunity.position_size as int,
        ) == clearance(
            before.var_engine,
            stake(*opportunity, market, g),
            before.config.min_profit_var_ratio as int,
            opportunity.position_size as int,
        ) by {
            assert(simulated(profile) == simulated(stake(*opportunity, market, g)));
        }
    }
    match passed {
        Ok(position_size) => Decision::Trade(Ticket { position_size, profile, risk }),
        Err(expiry) => {
            give_up(state, opportunity, Ghost(before));
            Decision::Expired(expiry)
        },
    }
}

/// Marks an opportunity that was taken up as expired.
fn give_up(state: &mut AppState, opportunity: &ArbitrageOpportunity, before: Ghost<AppState>)
    requires
        before@.wf(),
        old(state).wf(),
        marked(before@, opportunity.id@, OpportunityStatus::Executing, *old(state)),
    ensures
        final(state).wf(),
        marked(before@, opportunity.id@, OpportunityStatus::Expired, *final(state)),
{
    set_status(state, opportunity.id.as_str(), OpportunityStatus::Expired);
    proof {
        lemma_marked_twice(
            before@,
            opportunity.id@,
            OpportunityStatus::Executing,
            *old(state),
            OpportunityStatus::Expired,
            *state,
        );
    }
}

// ---------------------------------------------------------------------------
// Simulated execution
// ---------------------------------------------------------------------------

/// Whether `fill` is the simulated fill of an order.
pub open spec fn is_simulated_fill(fill: FilledOrder, order: OrderToExecute, size: i64) -> bool {
    &&& fill.order_id@.len() == 40
    &&& fill.order_id@.take(4) == "sim_"@
    &&& fill.market_id == order.market_id
    &&& fill.side == order.side
    &&& fill.filled_price == order.price
    &&& fill.filled_size == size
}

/// Whether `trade` is the simulated execution of an opportunity: every order
/// fills at its price.
pub open spec fn is_simulation(
    trade: ExecutedTrade,
    opp: ArbitrageOpportunity,
    size: i64,
) -> bool {
    &&& trade.opportunity_id == opp.id
    &&& trade.orders_filled@.len() == opp.orders@.len()
    &&& forall|i: int|
        0 <= i < opp.orders@.len() ==> is_simulated_fill(
            #[trigger] trade.orders_filled@[i],
            opp.orders@[i],
            size,
        )
    &&& trade.actual_profit == opp.guaranteed_profit
    &&& trade.success
    &&& trade.error is None
}

/// Simulates the execution of an opportunity with a given size.
pub fn simulate_execution(opportunity: &ArbitrageOpportunity, position_size: i64) -> (r:
    ExecutedTrade)
    ensures
        is_simulation(r, *opportunity, position_size),
{
    let mut fills: Vec<FilledOrder> = Vec::new();
    let mut i: usize = 0;
    while i < opportunity.orders.len()
        invariant
            i <= opportunity.orders.len(),
            fills.len() == i,
            forall|k: int|
                0 <= k < i ==> is_simulated_fill(
                    #[trigger] fills@[k],
                    opportunity.orders@[k],
                    position_size,
                ),
        decreases opportunity.orders.len() - i,
    {
        let order: &OrderToExecute = &opportunity.orders[i];
        let mut order_id: String = "sim_".to_owned();
        order_id.append(fresh_id().as_str());
        proof {
            reveal_strlit("sim_");
            assert(order_id@.take(4) =~= "sim_"@);
        }
        fills.push(
            FilledOrder {
                order_id,
                market_id: order.market_id.clone(),
                side: order.side,
                filled_price: order.price,
                filled_size: position_size,
            },
        );
        i = i + 1;
    }
    ExecutedTrade {
        opportunity_id: opportunity.id.clone(),
        executed_at: now(),
        orders_filled: fills,
        actual_profit: opportunity.guaranteed_profit,
        success: true,
        error: None,
    }
}

// ---------------------------------------------------------------------------
// Execution on the exchange
// ---------------------------------------------------------------------------

/// The name of a side, as the exchange writes it.
pub open spec fn side_text(side: OrderSide) -> Seq<char> {
    match side {
        OrderSide::Buy => "BUY"@,
        OrderSide::Sell => "SELL"@,
    }
}

/// The name of a side, as the exchange writes it.
pub fn side_name(side: OrderSide) -> (r: &'static str)
    ensures
        r@ == side_text(side),
{
    match side {
        OrderSide::Buy => "BUY",
        OrderSide::Sell => "SELL",
    }
}

/// Where orders are sent, at an address of the exchange.
pub open spec fn order_address(api: Seq<char>) -> Seq<char> {
    api + "/order"@
}

/// Where orders are sent.
pub fn order_url(config: &BotConfig) -> (r: String)
    ensures
        r@ == order_address(config.api_url@),
        r@ == config.api_url@ + "/order"@,
{
    let mut url: String = config.api_url.clone();
    url.append("/order");
    url
}

/// What identifies the holder of a key to the exchange.
pub open spec fn bearer(key: Seq<char>) -> Seq<char> {
    "Bearer "@ + key
}

/// What identifies the bot to the exchange.
pub fn authorization(config: &BotConfig) -> (r: String)
    ensures
        r@ == bearer(config.api_key@),
        r@ == "Bearer "@ + config.api_key@,
{
    let mut value: String = "Bearer ".to_owned();
    value.append(config.api_key.as_str());
    value
}

/// An order as the exchange takes it: a limit order that fills at once or not
/// at all.
pub open spec fn order_text(order: OrderToExecute) -> Seq<char> {
    "{\"price\":"@ + number_text(order.price as int) + ",\"side\":\""@ + side_text(order.side)
        + "\",\"size\":"@ + number_text(order.size as int)
        + ",\"timeInForce\":\"FOK\",\"tokenID\":"@ + quoted_text(order.token_id@)
        + ",\"type\":\"LIMIT\"}"@
}

/// An order as the exchange takes it.
pub fn order_payload(order: &OrderToExecute) -> (r: String)
    ensures
        r@ == order_text(*order),
{
    let mut body: String = "{\"price\":".to_owned();
    body.append(number(order.price).as_str());
    body.append(",\"side\":\"");
    body.append(side_name(order.side));
    body.append("\",\"size\":");
    body.append(number(order.size).as_str());
    body.append(",\"timeInForce\":\"FOK\",\"tokenID\":");
    body.append(quoted(order.token_id.as_str()).as_str());
    body.append(",\"type\":\"LIMIT\"}");
    body
}

/// Whether `fill` is what a reply says of an order: what it leaves out is as
/// ordered, and an order without an identifier is `unknown`.
pub open spec fn is_fill(fill: FilledOrder, order: OrderToExecute, reply: Json) -> bool {
    &&& fill.order_id@ == text_member(reply, "orderID"@, "unknown"@)
    &&& fill.market_id == order.market_id
    &&& fill.side == order.side
    &&& fill.filled_price == amount_or(amount_member(reply, "price"@), order.price)
    &&& fill.filled_size == amount_or(amount_member(reply, "sizeMatched"@), order.size)
}

/// The answer of the exchange to an order.
#[derive(Debug, Clone)]
pub enum Reply {
    /// The order could not be sent.
    NotSent { error: String },
    /// There was an answer, with or without success, and with this body.
    Answered { success: bool, body: String },
}

/// What an answer to an order comes to, over the error that ends the execution.
pub open spec fn reply_error(reply: Reply) -> Option<Seq<char>> {
    match reply {
        Reply::NotSent { error } => Some("HTTP error: "@ + error@),
        Reply::Answered { success, body } => if !success {
            Some("API error: "@ + body@)
        } else if document(body@) is None {
            Some("error decoding response body"@)
        } else {
            None
        },
    }
}

/// The fill that an answer to an order reports, or the error that ends the
/// execution.
pub fn fill_from_reply(order: &OrderToExecute, reply: &Reply) -> (r: Result<FilledOrder, String>)
    ensures
        match r {
            Ok(fill) => reply_error(*reply) is None && is_fill(
                fill,
                *order,
                document(reply->body@)->0,
            ),
            Err(e) => reply_error(*reply) == Some(e@),
        },
{
    match reply {
        Reply::NotSent { error } => {
            let mut e: String = "HTTP error: ".to_owned();
            e.append(error.as_str());
            Err(e)
        },
        Reply::Answered { success, body } => {
            if !*success {
                let mut e: String = "API error: ".to_owned();
                e.append(body.as_str());
                return Err(e);
            }
            match parse(body.as_str()) {
                None => Err("error decoding response body".to_owned()),
                Some(v) => Ok(
                    FilledOrder {
                        order_id: match read_text(&v, "orderID") {
                            Some(t) => t,
                            None => "unknown".to_owned(),
                        },
                        market_id: order.market_id.clone(),
                        side: order.side,
                        filled_price: match read_amount(&v, "price") {
                            Some(x) => x,
                            None => order.price,
                        },
                        filled_size: match read_amount(&v, "sizeMatched") {
                            Some(x) => x,
                            None => order.size,
                        },
                    },
                ),
            }
        },
    }
}

/// The execution of an opportunity on the exchange: the size with which it was
/// cleared, and the orders that were filled so far, in their order.
#[derive(Debug, Clone)]
pub struct Submission {
    pub position_size: i64,
    pub filled: Vec<FilledOrder>,
}

/// What the first `n` fills cost: what was bought less what was sold.
pub open spec fn net_cost(fills: Seq<FilledOrder>, n: int) -> int
    decreases n,
{
    if n <= 0 {
        0
    } else {
        let fill = fills[n - 1];
        let amount = held(product(fill.filled_price as int, fill.filled_size as int));
        net_cost(fills, n - 1) + match fill.side {
            OrderSide::Buy => amount,
            OrderSide::Sell => -amount,
        }
    }
}

/// Whether fills sell a position: every one of them is a sale.
pub open spec fn is_sale(fills: Seq<FilledOrder>) -> bool {
    &&& fills.len() > 0
    &&& forall|i: int| 0 <= i < fills.len() ==> (#[trigger] fills[i]).side == OrderSide::Sell
}

/// The profit of a position by its fills, not below zero. A position that was
/// bought pays its size, less what it cost; one that was sold brought its proceeds,
/// and has its size to pay.
pub open spec fn execution_profit(size: int, fills: Seq<FilledOrder>) -> int {
    let cost = held(net_cost(fills, fills.len() as int));
    held(larger(if is_sale(fills) { -cost - size } else { size - cost }, 0))
}

/// Whether `trade` is the completed execution of an opportunity with a given size.
pub open spec fn is_execution(
    trade: ExecutedTrade,
    opp: ArbitrageOpportunity,
    size: i64,
    fills: Seq<FilledOrder>,
    at: Timestamp,
) -> bool {
    &&& trade.opportunity_id == opp.id
    &&& trade.executed_at == at
    &&& trade.orders_filled@ == fills
    &&& trade.actual_profit == execution_profit(size as int, fills)
    &&& trade.success
    &&& trade.error is None
}

impl Submission {
    /// Nothing filled yet of a position of the size that was cleared.
    pub fn new(position_size: i64) -> (r: Submission)
        ensures
            r.position_size == position_size,
            r.filled@.len() == 0,
    {
        Submission { position_size, filled: Vec::new() }
    }

    /// The order that is to be sent next, with the size that was cleared; nothing
    /// where all were filled.
    pub fn next_order(&self, opportunity: &ArbitrageOpportunity) -> (r: Option<OrderToExecute>)
        ensures
            match r {
                Some(order) => self.filled@.len() < opportunity.orders@.len() && order
                    == (OrderToExecute {
                    size: self.position_size,
                    ..opportunity.orders@[self.filled@.len() as int]
                }),
                None => self.filled@.len() >= opportunity.orders@.len(),
            },
    {
        if self.filled.len() < opportunity.orders.len() {
            let order: &OrderToExecute = &opportunity.orders[self.filled.len()];
            Some(
                OrderToExecute {
                    market_id: order.market_id.clone(),
                    side: order.side,
                    token_id: order.token_id.clone(),
                    price: order.price,
                    size: self.position_size,
                },
            )
        } else {
            None
        }
    }

    /// Takes the answer to the order that was sent last. An error ends the
    /// execution; what was filled before stays filled.
    pub fn accept(&mut self, order: &OrderToExecute, reply: &Reply) -> (r: Result<(), String>)
        ensures
            final(self).position_size == old(self).position_size,
            match r {
                Ok(_) => reply_error(*reply) is None && final(self).filled@.len()
                    == old(self).filled@.len() + 1 && final(self).filled@.drop_last()
                    == old(self).filled@ && is_fill(
                    final(self).filled@.last(),
                    *order,
                    document(reply->body@)->0,
                ),
                Err(e) => reply_error(*reply) == Some(e@) && final(self).filled@ == old(
                    self,
                ).filled@,
            },
    {
        match fill_from_reply(order, reply) {
            Ok(fill) => {
                self.filled.push(fill);
                assert(self.filled@.drop_last() =~= old(self).filled@);
                Ok(())
            },
            Err(e) => Err(e),
        }
    }

    /// The trade that the fills make up, completed now.
    pub fn complete(self, opportunity: &ArbitrageOpportunity) -> (r: ExecutedTrade)
        ensures
            is_execution(r, *opportunity, self.position_size, self.filled@, r.executed_at),
    {
        self.complete_at(opportunity, now())
    }

    /// The trade that the fills make up, completed at a given time.
    pub fn complete_at(self, opportunity: &ArbitrageOpportunity, at: Timestamp) -> (r:
        ExecutedTrade)
        ensures
            is_execution(r, *opportunity, self.position_size, self.filled@, at),
    {
        let mut cost: i128 = 0;
        let mut sold: bool = true;
        let mut i: usize = 0;
        while i < self.filled.len()
            invariant
                i <= self.filled.len(),
                cost == net_cost(self.filled@, i as int),
                sold == forall|k: int|
                    0 <= k < i ==> (#[trigger] self.filled@[k]).side == OrderSide::Sell,
                -(i * 0x8000_0000_0000_0000) <= cost <= i * 0x8000_0000_0000_0000,
            decreases self.filled.len() - i,
        {
            proof {
                assert((i + 1) * 0x8000_0000_0000_0000 <= 0x1_0000_0000_0000_0000
                    * 0x8000_0000_0000_0000 - 0x8000_0000_0000_0000) by (nonlinear_arith)
                    requires
                        i + 1 <= 0xFFFF_FFFF_FFFF_FFFF,
                ;
            }
            let amount: i64 = hold(
                multiply(self.filled[i].filled_price, self.filled[i].filled_size),
            );
            match self.filled[i].side {
                OrderSide::Buy => {
                    cost = cost + amount as i128;
                    sold = false;
                    assert(self.filled@[i as int].side != OrderSide::Sell);
                },
                OrderSide::Sell => {
                    cost = cost - amount as i128;
                },
            }
            i = i + 1;
        }
        let paid: i128 = hold(cost) as i128;
        let size: i128 = self.position_size as i128;
        let rest: i128 = if sold && self.filled.len() > 0 { -paid - size } else { size - paid };
        ExecutedTrade {
            opportunity_id: opportunity.id.clone(),
            executed_at: at,
            orders_filled: self.filled,
            actual_profit: hold(if rest >= 0 { rest } else { 0 }),
            success: true,
            error: None,
        }
    }
}

// ---------------------------------------------------------------------------
// Settlement
// ---------------------------------------------------------------------------

/// What is remembered of a trade that was made.
pub open spec fn trade_record(
    trade: ExecutedTrade,
    legs: int,
    capital: i64,
    stamp: Timestamp,
) -> PnLRecord {
    PnLRecord {
        trade_id: trade.opportunity_id,
        pnl: trade.actual_profit,
        capital_at_risk: capital,
        execution_type: if trade.success {
            ExecutionType::FullFill
        } else {
            ExecutionType::PartialFill {
                legs_filled: trade.orders_filled@.len() as usize,
                legs_total: legs as usize,
            }
        },
        timestamp: stamp,
    }
}

/// Whether `after` is the state `before` with a trade of an opportunity
/// settled: its result is remembered, the opportunity is executed, the trade
/// is kept, and the statistics count it with the profit that was certain.
pub open spec fn settled(
    before: AppState,
    opp: ArbitrageOpportunity,
    capital: i64,
    trade: ExecutedTrade,
    stamp: Timestamp,
    today: int,
    after: AppState,
) -> bool {
    &&& recorded(
        before.var_engine,
        trade_record(trade, opp.orders@.len() as int, capital, stamp),
        today,
        after.var_engine,
    )
    &&& with_status(
        before.opportunities,
        opp.id@,
        OpportunityStatus::Executed,
        after.opportunities,
    )
    &&& inserted(before.executed_trades, trade.opportunity_id@, trade, after.executed_trades)
    &&& after.stats == BotStats {
        opportunities_executed: smaller(
            before.stats.opportunities_executed + 1,
            u64::MAX as int,
        ) as u64,
        total_profit_usd: held(before.stats.total_profit_usd + opp.guaranteed_profit) as i64,
        ..before.stats
    }
    &&& after.markets == before.markets
    &&& after.config == before.config
}

/// Settles a trade that was made, now.
pub fn settle_success(
    state: &mut AppState,
    opportunity: &ArbitrageOpportunity,
    profile: &OpportunityRiskProfile,
    trade: ExecutedTrade,
)
    requires
        old(state).wf(),
    ensures
        final(state).wf(),
        exists|stamp: Timestamp|
            Timestamp::exists_at(stamp.seconds(), stamp.subsecond()) && #[trigger] settled(
                *old(state),
                *opportunity,
                profile.capital_committed,
                trade,
                stamp,
                day_number(stamp.seconds()),
                *final(state),
            ),
{
    let stamp: Timestamp = now();
    let ghost made = trade;
    settle_success_at(state, opportunity, profile, trade, stamp, day_of(&stamp));
    assert(settled(
        *old(state),
        *opportunity,
        profile.capital_committed,
        made,
        stamp,
        day_number(stamp.seconds()),
        *state,
    ));
}

/// Settles a trade that was made, at a given time and on a given day.
pub fn settle_success_at(
    state: &mut AppState,
    opportunity: &ArbitrageOpportunity,
    profile: &OpportunityRiskProfile,
    trade: ExecutedTrade,
    stamp: Timestamp,
    today: i32,
)
    requires
        old(state).wf(),
    ensures
        final(state).wf(),
        settled(
            *old(state),
            *opportunity,
            profile.capital_committed,
            trade,
            stamp,
            today as int,
            *final(state),
        ),
{
    let record: PnLRecord = PnLRecord {
        trade_id: trade.opportunity_id.clone(),
        pnl: trade.actual_profit,
        capital_at_risk: profile.capital_committed,
        execution_type: if trade.success {
            ExecutionType::FullFill
        } else {
            ExecutionType::PartialFill {
                legs_filled: trade.orders_filled.len(),
                legs_total: opportunity.orders.len(),
            }
        },
        timestamp: stamp,
    };
    state.var_engine.record_trade_on(record, today);
    set_status(state, opportunity.id.as_str(), OpportunityStatus::Executed);
    let ghost key = trade.opportunity_id@;
    proof {
        state.executed_trades.lemma_wf();
        if state.executed_trades.has(key) {
            let i: int = state.executed_trades.order().index_of(key);
            assert(state.executed_trades.order()[i] == key);
        }
    }
    let trade_id: String = trade.opportunity_id.clone();
    state.executed_trades.insert(trade_id, trade);
    state.stats.opportunities_executed = counted(state.stats.opportunities_executed);
    state.stats.total_profit_usd = hold(
        state.stats.total_profit_usd as i128 + opportunity.guaranteed_profit as i128,
    );
}

/// What is remembered of a trade that failed: a tenth of the worst loss.
pub open spec fn failure_record(
    opp: ArbitrageOpportunity,
    profile: OpportunityRiskProfile,
    stamp: Timestamp,
) -> PnLRecord {
    PnLRecord {
        trade_id: opp.id,
        pnl: ((-profile.worst_case_single_leg_loss) / 10) as i64,
        capital_at_risk: profile.capital_committed,
        execution_type: ExecutionType::NoFill,
        timestamp: stamp,
    }
}

/// Whether `after` is the state `before` with the failure of a trade settled.
pub open spec fn failed(
    before: AppState,
    opp: ArbitrageOpportunity,
    profile: OpportunityRiskProfile,
    stamp: Timestamp,
    today: int,
    after: AppState,
) -> bool {
    &&& recorded(
        before.var_engine,
        failure_record(opp, profile, stamp),
        today,
        after.var_engine,
    )
    &&& with_status(before.opportunities, opp.id@, OpportunityStatus::Failed, after.opportunities)
    &&& after.stats == BotStats {
        opportunities_failed: smaller(
            before.stats.opportunities_failed + 1,
            u64::MAX as int,
        ) as u64,
        ..before.stats
    }
    &&& after.markets == before.markets
    &&& after.executed_trades == before.executed_trades
    &&& after.config == before.config
}

/// Settles a trade that failed, now.
pub fn settle_failure(
    state: &mut AppState,
    opportunity: &ArbitrageOpportunity,
    profile: &OpportunityRiskProfile,
)
    requires
        old(state).wf(),
    ensures
        final(state).wf(),
        exists|stamp: Timestamp|
            Timestamp::exists_at(stamp.seconds(), stamp.subsecond()) && #[trigger] failed(
                *old(state),
                *opportunity,
                *profile,
                stamp,
                day_number(stamp.seconds()),
                *final(state),
            ),
{
    let stamp: Timestamp = now();
    settle_failure_at(state, opportunity, profile, stamp, day_of(&stamp));
    assert(failed(
        *old(state),
        *opportunity,
        *profile,
        stamp,
        day_number(stamp.seconds()),
        *state,
    ));
}

/// Settles a trade that failed, at a given time and on a given day.
pub fn settle_failure_at(
    state: &mut AppState,
    opportunity: &ArbitrageOpportunity,
    profile: &OpportunityRiskProfile,
    stamp: Timestamp,
    today: i32,
)
    requires
        old(state).wf(),
    ensures
        final(state).wf(),
        failed(*old(state), *opportunity, *profile, stamp, today as int, *final(state)),
{
    let record: PnLRecord = PnLRecord {
        trade_id: opportunity.id.clone(),
        pnl: div_down(-(profile.worst_case_single_leg_loss as i128), 10) as i64,
        capital_at_risk: profile.capital_committed,
        execution_type: ExecutionType::NoFill,
        timestamp: stamp,
    };
    state.var_engine.record_trade_on(record, today);
    set_status(state, opportunity.id.as_str(), OpportunityStatus::Failed);
    state.stats.opportunities_failed = counted(state.stats.opportunities_failed);
}

// ---------------------------------------------------------------------------
// One opportunity
// ---------------------------------------------------------------------------

/// What became of an opportunity.
#[derive(Debug, Clone)]
pub enum Processed {
    /// Nothing was to be done with it, or it was given up.
    Closed(Decision),
    /// Its execution was simulated.
    Simulated(Ticket),
    /// Its orders are to be sent to the exchange.
    Submit(Ticket),
}

/// Whether processing an opportunity leads from `before` to `after`, given the
/// state `mid` after the decision on it.
pub open spec fn carried_out(
    mid: AppState,
    opp: ArbitrageOpportunity,
    r: Processed,
    after: AppState,
) -> bool {
    match r {
        Processed::Closed(_) => after == mid,
        Processed::Submit(_) => after == mid,
        Processed::Simulated(t) => exists|trade: ExecutedTrade, stamp: Timestamp|
            is_simulation(trade, opp, t.position_size) && Timestamp::exists_at(
                stamp.seconds(),
                stamp.subsecond(),
            ) && #[trigger] settled(
                mid,
                opp,
                t.profile.capital_committed,
                trade,
                stamp,
                day_number(stamp.seconds()),
                after,
            ),
    }
}

/// Whether an outcome fits a decision: a trade is simulated in a dry run and
/// submitted else.
pub open spec fn fits(r: Processed, c: Course, dry_run: bool) -> bool {
    match r {
        Processed::Closed(d) => d@ == c && !(c is Trade),
        Processed::Simulated(t) => dry_run && c == (Course::Trade {
            position_size: t.position_size as int,
        }),
        Processed::Submit(t) => !dry_run && c == (Course::Trade {
            position_size: t.position_size as int,
        }),
    }
}

/// The ticket of an opportunity that was traded or is to be.
pub open spec fn ticket_of(r: Processed) -> Option<Ticket> {
    match r {
        Processed::Closed(_) => None,
        Processed::Simulated(t) => Some(t),
        Processed::Submit(t) => Some(t),
    }
}

/// Whether processing an opportunity leads from `before` to `after` with the outcome
/// `r`, whatever the exponential: what is decided before the risk is valued is
/// carried out; else the opportunity is given up, or traded with a ticket that was
/// cleared.
pub open spec fn processed(
    before: AppState,
    opp: ArbitrageOpportunity,
    r: Processed,
    after: AppState,
) -> bool {
    &&& early_course(before, opp) matches Some(c) ==> fits(r, c, before.config.dry_run)
    &&& early_course(before, opp) is None ==> !(r matches Processed::Closed(d) && (d is Taken
        || d is NoMarketId))
    &&& ticket_of(r) matches Some(t) ==> is_cleared(before, opp, t)
    &&& exists|c: Course, mid: AppState|
        fits(r, c, before.config.dry_run) && #[trigger] follows(before, opp, c, mid) && carried_out(
            mid,
            opp,
            r,
            after,
        )
}

/// Processes one opportunity: validates it, values its risk, and executes it
/// where both allow. A real execution is left to the caller, who sends the
/// orders and settles the trade. The exponential function is handed in, in
/// millionths.
pub fn process_opportunity<E: Fn(i64) -> i64>(
    state: &mut AppState,
    opportunity: &ArbitrageOpportunity,
    exp: &E,
) -> (r: Processed)
    requires
        old(state).wf(),
        asks_any(*exp),
    ensures
        final(state).wf(),
        forall|g: spec_fn(int) -> int| #[trigger]
            computes(*exp, g) ==> fits(
                r,
                course(*old(state), *opportunity, g),
                old(state).config.dry_run,
            ),
        processed(*old(state), *opportunity, r, *final(state)),
        ticket_of(r) matches Some(t) ==> forall|g: spec_fn(int) -> int| #[trigger]
            computes(*exp, g) ==> same_stake(
                t.profile,
                stake(*opportunity, old(state).markets.at(opportunity.market_ids@[0]@), g),
            ),
{
    let decision: Decision = decide(state, opportunity, exp);
    let ghost c = decision@;
    let ghost mid = *state;
    assert(follows(*old(state), *opportunity, c, mid));
    match decision {
        Decision::Trade(ticket) => {
            if state.config.dry_run {
                let trade: ExecutedTrade = simulate_execution(opportunity, ticket.position_size);
                let ghost made = trade;
                settle_success(state, opportunity, &ticket.profile, trade);
                assert(is_simulation(made, *opportunity, ticket.position_size));
                Processed::Simulated(ticket)
            } else {
                Processed::Submit(ticket)
            }
        },
        other => Processed::Closed(other),
    }
}

} // verus!
