//! Detection: which markets are mispriced, by how much, and which orders take
//! the difference.

use vstd::prelude::*;
use vstd::utf8::is_ascii_chars;
use crate::clock::{at_least_before, is_at_least_before, now, Timestamp};
use crate::ids::fresh_id;
use crate::math::{
    analyze_simple_arbitrage, asks_any, asks_positive, computes, frank_wolfe_project,
    kelly_position_size, kelly_size, mispricing, opened, profit_in, profit_of, projection, FWResult,
    MarketConstraints, Problem, SimpleArbitrageAnalysis, SimpleArbitrageType, UNIT,
};
use crate::table::{inserted, kept};
use crate::types::{
    AppState, ArbitrageOpportunity, ArbitrageType, BotConfig, BotStats, Market, OpportunityStatus,
    OrderSide, OrderToExecute,
};
use crate::units::{
    counted, div_down, held, hold, lemma_mul_bound, multiply, product, smaller, SCALE,
};

verus! {

/// For how many seconds an opportunity stays.
pub const STALE_AFTER: u32 = 300;

// ---------------------------------------------------------------------------
// Fill probability
// ---------------------------------------------------------------------------

/// The probability that both orders fill: none without liquidity, certainty for
/// an empty position, and else one less the exponential of minus the liquidity
/// for one unit of size.
pub open spec fn estimated_fill(liquidity: int, size: int, g: spec_fn(int) -> int) -> int {
    if liquidity <= 0 {
        0
    } else if size <= 0 {
        SCALE as int
    } else {
        held(SCALE - g(held((-liquidity * SCALE) / size)))
    }
}

/// The probability that both orders fill, by the liquidity that there is. The
/// exponential function is handed in, in millionths.
pub fn estimate_fill_probability<E: Fn(i64) -> i64>(
    liquidity: i64,
    position_size: i64,
    exp: &E,
) -> (r: i64)
    requires
        asks_any(*exp),
    ensures
        forall|g: spec_fn(int) -> int| #[trigger]
            computes(*exp, g) ==> r == estimated_fill(liquidity as int, position_size as int, g),
        liquidity <= 0 ==> r == 0,
        liquidity > 0 && position_size <= 0 ==> r == SCALE,
{
    if liquidity <= 0 {
        return 0;
    }
    if position_size <= 0 {
        return SCALE;
    }
    proof {
        lemma_mul_bound(-liquidity, SCALE as int, 0x8000_0000_0000_0000, 1_000_000);
    }
    let x: i64 = hold(div_down(-(liquidity as i128) * SCALE as i128, position_size as i128));
    hold(SCALE as i128 - exp(x) as i128)
}

// ---------------------------------------------------------------------------
// Orders
// ---------------------------------------------------------------------------

/// Whether `order` is the order on one outcome of a market.
pub open spec fn is_leg(
    order: OrderToExecute,
    market: Market,
    side: OrderSide,
    mark: Seq<char>,
    price: i64,
    size: i64,
) -> bool {
    &&& order.market_id@ == market.condition_id@
    &&& order.side == side
    &&& order.token_id@ == market.condition_id@ + mark
    &&& order.price == price
    &&& order.size == size
}

/// Whether `orders` trade both outcomes of a market on one side.
pub open spec fn is_pair(
    orders: Seq<OrderToExecute>,
    market: Market,
    side: OrderSide,
    size: i64,
) -> bool {
    &&& orders.len() == 2
    &&& is_leg(orders[0], market, side, "_YES"@, market.yes_price, size)
    &&& is_leg(orders[1], market, side, "_NO"@, market.no_price, size)
}

/// Whether `orders` take the profit of a mispriced pair: both outcomes bought
/// where it costs too little, both sold where it costs too much.
pub open spec fn takes_profit(
    orders: Seq<OrderToExecute>,
    market: Market,
    kind: SimpleArbitrageType,
    size: i64,
) -> bool {
    match kind {
        SimpleArbitrageType::Underpriced { .. } => is_pair(orders, market, OrderSide::Buy, size),
        SimpleArbitrageType::Overpriced { .. } => is_pair(orders, market, OrderSide::Sell, size),
        SimpleArbitrageType::Fair => orders.len() == 0,
    }
}

fn leg(market: &Market, side: OrderSide, mark: &str, price: i64, size: i64) -> (r: OrderToExecute)
    ensures
        is_leg(r, *market, side, mark@, price, size),
{
    let mut token_id: String = market.condition_id.clone();
    token_id.append(mark);
    OrderToExecute { market_id: market.condition_id.clone(), side, token_id, price, size }
}

/// The orders that take the profit of a mispriced pair.
pub fn build_orders_for_simple_arbitrage(
    market: &Market,
    analysis: &SimpleArbitrageAnalysis,
    position_size: i64,
) -> (r: Vec<OrderToExecute>)
    ensures
        takes_profit(r@, *market, analysis.arbitrage_type, position_size),
{
    let side: OrderSide = match analysis.arbitrage_type {
        SimpleArbitrageType::Underpriced { .. } => OrderSide::Buy,
        SimpleArbitrageType::Overpriced { .. } => OrderSide::Sell,
        SimpleArbitrageType::Fair => {
            return Vec::new();
        },
    };
    let mut orders: Vec<OrderToExecute> = Vec::new();
    orders.push(leg(market, side, "_YES", market.yes_price, position_size));
    orders.push(leg(market, side, "_NO", market.no_price, position_size));
    orders
}

// ---------------------------------------------------------------------------
// Detection
// ---------------------------------------------------------------------------

/// What a mispriced market is worth.
#[derive(Debug, Clone, Copy)]
pub struct Appraisal {
    pub kind: SimpleArbitrageType,
    pub guaranteed_profit: i64,
    pub max_profit: i64,
    pub fw_gap: Option<i64>,
    pub position_size: i64,
}

/// A profit for one unit, in units of the projection, on a whole position;
/// rounded down.
pub open spec fn on_position(profit: int, size: int) -> int {
    held((held(profit) * size) / (UNIT as int))
}

/// A gap, held at the range of `i64`.
pub open spec fn held_gap(gap: Option<int>) -> Option<i64> {
    match gap {
        Some(g) => Some(held(g) as i64),
        None => None,
    }
}

/// The projection of a market's prices.
pub open spec fn market_problem(market: Market, config: BotConfig) -> Problem {
    Problem {
        theta: seq![
            held(market.yes_price * 1_000_000) as i64,
            held(market.no_price * 1_000_000) as i64,
        ],
        groups: seq![seq![0usize, 1usize]],
        implications: Seq::empty(),
        alpha: config.frank_wolfe_alpha as int,
        max_iter: config.frank_wolfe_max_iter as int,
    }
}

/// The size of the position that a mispriced market is worth.
pub open spec fn worthwhile_size(
    market: Market,
    config: BotConfig,
    min_profit: int,
    g: spec_fn(int) -> int,
) -> int {
    let depth = smaller(market.yes_volume as int, market.no_volume as int);
    kelly_size(
        profit_of(mispricing(market.pair_price(), min_profit)) as int,
        estimated_fill(depth, min_profit, g),
        config.max_position_size as int,
        depth,
    )
}

/// What a position in a mispriced pair yields: the profit that is certain, the
/// largest possible one, and the gap that lies between them for one unit. A pair
/// that costs too little yields what its projection guarantees. One that costs too
/// much is sold for more than it will pay, and yields the difference.
pub open spec fn position_yield(
    market: Market,
    config: BotConfig,
    kind: SimpleArbitrageType,
    size: int,
    f: spec_fn(int) -> int,
) -> (int, int, Option<int>) {
    if kind is Overpriced {
        let excess = held(product(profit_of(kind) as int, size));
        (excess, excess, Some(0))
    } else {
        let found = projection(market_problem(market, config), f);
        (on_position(found.profit, size), on_position(found.divergence, size), found.gap)
    }
}

/// What a market is worth, where `f` and `g` are the logarithm and the
/// exponential: nothing where its pair is priced fairly, where the position is
/// smaller than one, or where the profit that is certain is below the
/// threshold.
pub open spec fn appraised(
    market: Market,
    config: BotConfig,
    min_profit: int,
    f: spec_fn(int) -> int,
    g: spec_fn(int) -> int,
) -> Option<Appraisal> {
    let kind = mispricing(market.pair_price(), min_profit);
    let size = worthwhile_size(market, config, min_profit, g);
    let (certain, largest, gap) = position_yield(market, config, kind, size, f);
    if kind is Fair || size < SCALE || certain < min_profit {
        None
    } else {
        Some(
            Appraisal {
                kind,
                guaranteed_profit: certain as i64,
                max_profit: largest as i64,
                fw_gap: held_gap(gap),
                position_size: size as i64,
            },
        )
    }
}

fn scaled_price(price: i64) -> (r: i64)
    ensures
        r == held(price * 1_000_000),
{
    hold(price as i128 * 1_000_000)
}

fn whole_profit(profit: i128, size: i64) -> (r: i64)
    ensures
        r == on_position(profit as int, size as int),
{
    let each: i64 = hold(profit);
    proof {
        lemma_mul_bound(each as int, size as int, 0x8000_0000_0000_0000, 0x8000_0000_0000_0000);
    }
    hold(div_down(each as i128 * size as i128, UNIT as i128))
}

/// The projection of a market's prices onto the fair ones.
fn project_market<L: Fn(i64) -> i64>(market: &Market, config: &BotConfig, ln: &L) -> (r: FWResult)
    requires
        asks_positive(*ln),
    ensures
        forall|f: spec_fn(int) -> int| #[trigger]
            computes(*ln, f) ==> r@ == projection(market_problem(*market, *config), f),
{
    let mut theta: Vec<i64> = Vec::new();
    theta.push(scaled_price(market.yes_price));
    theta.push(scaled_price(market.no_price));
    let constraints: MarketConstraints = MarketConstraints::simple_yes_no();
    assert(theta@ =~= market_problem(*market, *config).theta);
    assert(constraints.groups()[0] == seq![0usize, 1usize]);
    frank_wolfe_project(
        theta.as_slice(),
        &constraints,
        config.frank_wolfe_alpha,
        config.frank_wolfe_max_iter,
        ln,
    )
}

/// What a position in a mispriced pair yields.
fn yield_of_position<L: Fn(i64) -> i64>(
    market: &Market,
    config: &BotConfig,
    kind: &SimpleArbitrageType,
    size: i64,
    ln: &L,
) -> (r: (i64, i64, Option<i128>))
    requires
        asks_positive(*ln),
    ensures
        forall|f: spec_fn(int) -> int| #[trigger]
            computes(*ln, f) ==> position_yield(*market, *config, *kind, size as int, f) == (
                r.0 as int,
                r.1 as int,
                opened(r.2),
            ),
        kind is Overpriced ==> r.0 == held(product(profit_of(*kind) as int, size as int)),
{
    match *kind {
        SimpleArbitrageType::Overpriced { profit } => {
            let excess: i64 = hold(multiply(profit, size));
            (excess, excess, Some(0))
        },
        _ => {
            let found: FWResult = project_market(market, config, ln);
            (
                whole_profit(found.guaranteed_profit, size),
                whole_profit(found.divergence, size),
                found.fw_gap,
            )
        },
    }
}

/// What a market is worth. The natural logarithm is handed in in units of the
/// projection, the exponential function in millionths.
pub fn appraise<L: Fn(i64) -> i64, E: Fn(i64) -> i64>(
    market: &Market,
    config: &BotConfig,
    min_profit: i64,
    ln: &L,
    exp: &E,
) -> (r: Option<Appraisal>)
    requires
        asks_positive(*ln),
        asks_any(*exp),
    ensures
        forall|f: spec_fn(int) -> int, g: spec_fn(int) -> int|
            #![trigger computes(*ln, f), computes(*exp, g)]
            computes(*ln, f) && computes(*exp, g) ==> r == appraised(
                *market,
                *config,
                min_profit as int,
                f,
                g,
            ),
        mispricing(market.pair_price(), min_profit as int) is Fair ==> r is None,
        market.yes_volume <= 1_999_999 || market.no_volume <= 1_999_999 ==> r is None,
        r matches Some(a) ==> a.kind == mispricing(market.pair_price(), min_profit as int)
            && a.kind !is Fair && a.guaranteed_profit >= min_profit && a.position_size >= SCALE,
        r matches Some(a) ==> a.kind is Overpriced ==> a.guaranteed_profit == held(
            product(profit_of(a.kind) as int, a.position_size as int),
        ),
{
    let analysis: SimpleArbitrageAnalysis = analyze_simple_arbitrage(
        market.condition_id.as_str(),
        market.yes_price,
        market.no_price,
        min_profit,
    );
    if matches!(analysis.arbitrage_type, SimpleArbitrageType::Fair) {
        return None;
    }
    let available: i64 = if market.yes_volume <= market.no_volume {
        market.yes_volume
    } else {
        market.no_volume
    };
    let fill: i64 = estimate_fill_probability(available, min_profit, exp);
    let position_size: i64 = kelly_position_size(
        analysis.gross_profit_per_dollar,
        fill,
        config.max_position_size,
        available,
    );
    if position_size < SCALE {
        return None;
    }
    let (guaranteed_profit, max_profit, gap): (i64, i64, Option<i128>) = yield_of_position(
        market,
        config,
        &analysis.arbitrage_type,
        position_size,
        ln,
    );
    if guaranteed_profit < min_profit {
        return None;
    }
    Some(
        Appraisal {
            kind: analysis.arbitrage_type,
            guaranteed_profit,
            max_profit,
            fw_gap: match gap {
                Some(g) => Some(hold(g)),
                None => None,
            },
            position_size,
        },
    )
}

/// The kind of the opportunity in a mispriced pair.
pub open spec fn opportunity_kind(kind: SimpleArbitrageType) -> ArbitrageType {
    match kind {
        SimpleArbitrageType::Underpriced { .. } => ArbitrageType::SimpleUnderpriced,
        _ => ArbitrageType::SimpleOverpriced,
    }
}

/// Whether `opp` is the opportunity that an appraisal of a market yields.
pub open spec fn is_opportunity(
    opp: ArbitrageOpportunity,
    market: Market,
    a: Appraisal,
    id: Seq<char>,
    at: Timestamp,
) -> bool {
    &&& opp.id@ == id
    &&& opp.opportunity_type == opportunity_kind(a.kind)
    &&& opp.market_ids@ == seq![market.condition_id]
    &&& opp.guaranteed_profit == a.guaranteed_profit
    &&& opp.max_profit == a.max_profit
    &&& opp.fw_gap == a.fw_gap
    &&& opp.position_size == a.position_size
    &&& takes_profit(opp.orders@, market, a.kind, a.position_size)
    &&& opp.detected_at == at
    &&& opp.status == OpportunityStatus::Detected
}

/// Whether `after` is the state `before` with a detected opportunity entered.
pub open spec fn entered(
    before: AppState,
    market: Market,
    a: Appraisal,
    id: Seq<char>,
    at: Timestamp,
    noted: Timestamp,
    after: AppState,
) -> bool {
    &&& inserted(before.opportunities, id, after.opportunities.at(id), after.opportunities)
    &&& is_opportunity(after.opportunities.at(id), market, a, id, at)
    &&& after.stats == BotStats {
        opportunities_detected: smaller(
            before.stats.opportunities_detected + 1,
            u64::MAX as int,
        ) as u64,
        last_opportunity_at: Some(noted),
        ..before.stats
    }
    &&& after.markets == before.markets
    &&& after.executed_trades == before.executed_trades
    &&& after.config == before.config
    &&& after.var_engine == before.var_engine
}

/// Enters a detected opportunity under an identifier, with the times of its
/// detection and of its entry.
pub fn enter_opportunity(
    state: &mut AppState,
    market: &Market,
    appraisal: &Appraisal,
    id: String,
    detected_at: Timestamp,
    noted_at: Timestamp,
)
    requires
        old(state).wf(),
    ensures
        final(state).wf(),
        entered(
            *old(state),
            *market,
            *appraisal,
            id@,
            detected_at,
            noted_at,
            *final(state),
        ),
{
    let analysis: SimpleArbitrageAnalysis = SimpleArbitrageAnalysis {
        market_id: market.condition_id.clone(),
        yes_price: market.yes_price,
        no_price: market.no_price,
        price_sum: market.price_sum(),
        arbitrage_type: appraisal.kind,
        gross_profit_per_dollar: profit_in(&appraisal.kind),
    };
    let orders: Vec<OrderToExecute> = build_orders_for_simple_arbitrage(
        market,
        &analysis,
        appraisal.position_size,
    );
    let opportunity_type: ArbitrageType = match appraisal.kind {
        SimpleArbitrageType::Underpriced { .. } => ArbitrageType::SimpleUnderpriced,
        _ => ArbitrageType::SimpleOverpriced,
    };
    let mut market_ids: Vec<String> = Vec::new();
    market_ids.push(market.condition_id.clone());
    assert(market_ids@ =~= seq![market.condition_id]);
    let opportunity: ArbitrageOpportunity = ArbitrageOpportunity {
        id: id.clone(),
        opportunity_type,
        market_ids,
        guaranteed_profit: appraisal.guaranteed_profit,
        max_profit: appraisal.max_profit,
        fw_gap: appraisal.fw_gap,
        position_size: appraisal.position_size,
        orders,
        detected_at,
        status: OpportunityStatus::Detected,
    };
    let ghost key = id@;
    let ghost value = opportunity;
    state.opportunities.insert(id, opportunity);
    proof {
        crate::table::law_inserted(
            old(state).opportunities,
            key,
            value,
            state.opportunities,
        );
        old(state).opportunities.lemma_wf();
        if old(state).opportunities.has(key) {
            let i: int = old(state).opportunities.order().index_of(key);
            assert(old(state).opportunities.order()[i] == key);
        }
    }
    state.stats.opportunities_detected = counted(state.stats.opportunities_detected);
    state.stats.last_opportunity_at = Some(noted_at);
}

/// Whether checking a market leads from `before` to `after`, where `f` and `g`
/// are the logarithm and the exponential. What is entered has an identifier of 36
/// ASCII characters.
pub open spec fn checked(
    before: AppState,
    market: Market,
    min_profit: int,
    f: spec_fn(int) -> int,
    g: spec_fn(int) -> int,
    after: AppState,
) -> bool {
    match appraised(market, before.config, min_profit, f, g) {
        None => after == before,
        Some(a) => exists|id: Seq<char>, at: Timestamp, noted: Timestamp|
            id.len() == 36 && is_ascii_chars(id) && #[trigger] entered(
                before,
                market,
                a,
                id,
                at,
                noted,
                after,
            ),
    }
}

/// Checks one market, and enters an opportunity where it is worth one.
pub fn check_simple_arbitrage<L: Fn(i64) -> i64, E: Fn(i64) -> i64>(
    state: &mut AppState,
    market: &Market,
    min_profit: i64,
    ln: &L,
    exp: &E,
)
    requires
        old(state).wf(),
        asks_positive(*ln),
        asks_any(*exp),
    ensures
        final(state).wf(),
        forall|f: spec_fn(int) -> int, g: spec_fn(int) -> int|
            #![trigger computes(*ln, f), computes(*exp, g)]
            computes(*ln, f) && computes(*exp, g) ==> checked(
                *old(state),
                *market,
                min_profit as int,
                f,
                g,
                *final(state),
            ),
        mispricing(market.pair_price(), min_profit as int) is Fair ==> *final(state) == *old(state),
        final(state).config == old(state).config,
{
    match appraise(market, &state.config, min_profit, ln, exp) {
        None => {},
        Some(appraisal) => {
            let id: String = fresh_id();
            let detected_at: Timestamp = now();
            let noted_at: Timestamp = now();
            let ghost key = id@;
            enter_opportunity(state, market, &appraisal, id, detected_at, noted_at);
            assert(entered(
                *old(state),
                *market,
                appraisal,
                key,
                detected_at,
                noted_at,
                *state,
            ));
        },
    }
}

/// Whether checking the first `n` of some markets, one after the other, leads
/// from `before` to `after`.
pub open spec fn scanned(
    before: AppState,
    markets: Seq<Market>,
    n: int,
    f: spec_fn(int) -> int,
    g: spec_fn(int) -> int,
    after: AppState,
) -> bool
    decreases n,
{
    if n <= 0 {
        after == before
    } else {
        exists|mid: AppState|
            scanned(before, markets, n - 1, f, g, mid) && #[trigger] checked(
                mid,
                markets[n - 1],
                before.config.min_profit_threshold as int,
                f,
                g,
                after,
            )
    }
}

proof fn lemma_scan_step(
    before: AppState,
    markets: Seq<Market>,
    n: int,
    f: spec_fn(int) -> int,
    g: spec_fn(int) -> int,
    mid: AppState,
    after: AppState,
)
    requires
        n >= 0,
        scanned(before, markets, n, f, g, mid),
        checked(mid, markets[n], before.config.min_profit_threshold as int, f, g, after),
    ensures
        scanned(before, markets, n + 1, f, g, after),
{
    reveal_with_fuel(scanned, 2);
    let m: int = n + 1;
    assert(scanned(before, markets, m - 1, f, g, mid));
    assert(checked(mid, markets[m - 1], before.config.min_profit_threshold as int, f, g, after));
}

/// Checks every market.
pub fn scan_all_markets<L: Fn(i64) -> i64, E: Fn(i64) -> i64>(
    state: &mut AppState,
    ln: &L,
    exp: &E,
)
    requires
        old(state).wf(),
        asks_positive(*ln),
        asks_any(*exp),
    ensures
        final(state).wf(),
        forall|f: spec_fn(int) -> int, g: spec_fn(int) -> int|
            #![trigger computes(*ln, f), computes(*exp, g)]
            computes(*ln, f) && computes(*exp, g) ==> scanned(
                *old(state),
                old(state).markets.records(),
                old(state).markets.records().len() as int,
                f,
                g,
                *final(state),
            ),
{
    let ghost rows = state.markets.records();
    let mut markets: Vec<Market> = Vec::new();
    let count: usize = state.markets.len();
    let mut i: usize = 0;
    while i < count
        invariant
            i <= count == rows.len(),
            state.wf(),
            rows == state.markets.records(),
            markets@ == rows.take(i as int),
        decreases count - i,
    {
        markets.push(state.markets.row(i).duplicate());
        i = i + 1;
        assert(markets@ =~= rows.take(i as int));
    }
    assert(markets@ =~= rows);
    let min_profit: i64 = state.config.min_profit_threshold;
    let ghost before = *state;
    let mut k: usize = 0;
    while k < markets.len()
        invariant
            k <= markets.len(),
            state.wf(),
            markets@ == rows,
            asks_positive(*ln),
            asks_any(*exp),
            min_profit == before.config.min_profit_threshold,
            state.config == before.config,
            forall|f: spec_fn(int) -> int, g: spec_fn(int) -> int|
                #![trigger computes(*ln, f), computes(*exp, g)]
                computes(*ln, f) && computes(*exp, g) ==> scanned(
                    before,
                    rows,
                    k as int,
                    f,
                    g,
                    *state,
                ),
        decreases markets.len() - k,
    {
        let ghost mid = *state;
        check_simple_arbitrage(state, &markets[k], min_profit, ln, exp);
        proof {
            assert forall|f: spec_fn(int) -> int, g: spec_fn(int) -> int|
                #![trigger computes(*ln, f), computes(*exp, g)]
                computes(*ln, f) && computes(*exp, g) implies scanned(
                before,
                rows,
                k + 1,
                f,
                g,
                *state,
            ) by {
                lemma_scan_step(before, rows, k as int, f, g, mid, *state);
            }
        }
        k = k + 1;
    }
}

// ---------------------------------------------------------------------------
// Stale opportunities
// ---------------------------------------------------------------------------

/// Whether an opportunity stays: while it is recent or being executed.
pub open spec fn stays(opp: ArbitrageOpportunity, at: Timestamp) -> bool {
    !at_least_before(opp.detected_at, at, STALE_AFTER as int) || opp.status
        == OpportunityStatus::Executing
}

/// Which opportunities stay.
pub open spec fn staying(opps: Seq<ArbitrageOpportunity>, at: Timestamp) -> Seq<bool> {
    Seq::new(opps.len(), |i: int| stays(opps[i], at))
}

/// Whether `after` is the state `before` without its stale opportunities.
pub open spec fn cleaned(before: AppState, at: Timestamp, after: AppState) -> bool {
    let keep = staying(before.opportunities.records(), at);
    &&& after.opportunities.order() == kept(before.opportunities.order(), keep)
    &&& after.opportunities.records() == kept(before.opportunities.records(), keep)
    &&& after.markets == before.markets
    &&& after.executed_trades == before.executed_trades
    &&& after.config == before.config
    &&& after.stats == before.stats
    &&& after.var_engine == before.var_engine
}

/// Drops the opportunities that are stale now.
pub fn cleanup_stale_opportunities(state: &mut AppState)
    requires
        old(state).wf(),
    ensures
        final(state).wf(),
        exists|at: Timestamp| #[trigger] cleaned(*old(state), at, *final(state)),
{
    let at: Timestamp = now();
    cleanup_stale_opportunities_at(state, at);
    assert(cleaned(*old(state), at, *state));
}

/// Drops the opportunities that are stale at a given time.
pub fn cleanup_stale_opportunities_at(state: &mut AppState, at: Timestamp)
    requires
        old(state).wf(),
    ensures
        final(state).wf(),
        cleaned(*old(state), at, *final(state)),
{
    let ghost opps = state.opportunities.records();
    let ghost keys = state.opportunities.order();
    let count: usize = state.opportunities.len();
    let mut keep: Vec<bool> = Vec::new();
    let mut i: usize = 0;
    while i < count
        invariant
            i <= count == opps.len(),
            state.opportunities.wf(),
            opps == state.opportunities.records(),
            keep@ == staying(opps, at).take(i as int),
        decreases count - i,
    {
        let opp: &ArbitrageOpportunity = state.opportunities.row(i);
        let marked: bool = !is_at_least_before(&opp.detected_at, &at, STALE_AFTER)
            || matches!(opp.status, OpportunityStatus::Executing);
        keep.push(marked);
        i = i + 1;
        assert(keep@ =~= staying(opps, at).take(i as int));
    }
    assert(keep@ =~= staying(opps, at));
    proof {
        state.opportunities.lemma_wf();
        lemma_kept_pairs(opps, keys, keep@);
    }
    state.opportunities.retain(&keep);
}

/// Keeping the same places of records and keys keeps every record under its
/// own key.
proof fn lemma_kept_pairs(opps: Seq<ArbitrageOpportunity>, keys: Seq<Seq<char>>, keep: Seq<bool>)
    requires
        opps.len() == keys.len(),
        forall|i: int| 0 <= i < opps.len() ==> (#[trigger] opps[i]).id@ == keys[i],
    ensures
        kept(opps, keep).len() == kept(keys, keep).len(),
        forall|i: int|
            0 <= i < kept(opps, keep).len() ==> (#[trigger] kept(opps, keep)[i]).id@ == kept(
                keys,
                keep,
            )[i],
    decreases opps.len(),
{
    if opps.len() > 0 {
        assert(opps.last() == opps[opps.len() - 1]);
        lemma_kept_pairs(opps.drop_last(), keys.drop_last(), keep);
    }
}

} // verus!
