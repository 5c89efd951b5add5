//! What holds of trades: what they are worth at current prices, what stands against
//! them, what they stake, and how they are settled.

use vstd::prelude::*;
use vstd::arithmetic::div_mod::lemma_fundamental_div_mod;
use crate::arbitrage::is_pair;
use crate::arbitrage_laws::law_leg_marks;
use crate::clock::{day_number, Timestamp};
use crate::dashboard::{shows_stats, ApiStats};
use crate::executor::{
    carried_out, clearance, course, current_profit, early_course, execution_profit, failed, fits,
    follows, is_cleared, is_execution, is_fill, is_sale, is_simulation, least_volume, marked,
    net_cost, price_total, processed, reply_error, settled, stake, stakes, trade_advice, trade_var,
    waiting, Cause, Course, Processed, Reply, Ticket,
};
use crate::executor_laws::{law_clearance_size, law_status};
use crate::json::{document, member_of, Json};
use crate::risk::{
    fill_chance, limit_verdict, mean, simulated, value_at_risk, Advice, ConfidenceLevel,
    ExecutionType, LimitVerdict, OpportunityRiskProfile, VaREngine,
};
use crate::risk_laws::{law_advice, law_advised_share, law_daily_limit};
use crate::table::{law_inserted, Table};
use crate::tail_laws::law_profit_per_risk;
use crate::text::{decimal_value, ends_with};
use crate::types::{
    AppState, ArbitrageOpportunity, BotConfig, ExecutedTrade, FilledOrder, Market,
    OpportunityStatus, OrderSide, OrderToExecute,
};
use crate::units::{held, larger, lemma_div_bound, product, SCALE};

verus! {

// ---------------------------------------------------------------------------
// Current prices
// ---------------------------------------------------------------------------

/// At current prices a pair that was to be bought gains what its price is below one, on
/// the whole position and rounded down, and a pair that was to be sold what it is
/// above; nothing where the price has moved to the other side.
pub proof fn law_current_profit(
    markets: Table<Market>,
    opp: ArbitrageOpportunity,
    market: Market,
    side: OrderSide,
    size: i64,
)
    requires
        is_pair(opp.orders@, market, side, size),
        markets.has(market.condition_id@),
        opp.position_size >= 0,
    ensures
        ({
            let now = markets.at(market.condition_id@);
            let price = now.yes_price + now.no_price;
            let r = current_profit(markets, opp);
            let below = (SCALE - price) * opp.position_size;
            let above = (price - SCALE) * opp.position_size;
            &&& opp.opportunity_type is SimpleUnderpriced ==> {
                &&& price >= SCALE ==> r == 0
                &&& SCALE - i64::MAX <= price < SCALE && r < i64::MAX ==> r * SCALE <= below < (r
                    + 1) * SCALE
            }
            &&& opp.opportunity_type is SimpleOverpriced ==> {
                &&& price <= SCALE ==> r == 0
                &&& SCALE < price <= SCALE + i64::MAX && r < i64::MAX ==> r * SCALE <= above < (r
                    + 1) * SCALE
            }
            &&& opp.opportunity_type is Combinatorial ==> r == opp.guaranteed_profit
            &&& opp.opportunity_type is MarketRebalancing ==> r == opp.guaranteed_profit
        }),
{
    let now = markets.at(market.condition_id@);
    let price: int = now.yes_price + now.no_price;
    law_leg_marks(opp.orders@, market, side, size);
    reveal_with_fuel(price_total, 3);
    assert(price_total(markets, opp.orders@, 2) == price);
    lemma_gain(SCALE - price, opp.position_size as int);
    lemma_gain(price - SCALE, opp.position_size as int);
}

/// What a gain for one unit comes to on a position.
proof fn lemma_gain(each: int, size: int)
    requires
        size >= 0,
    ensures
        each <= 0 ==> held(product(held(larger(each, 0)), size)) == 0,
        0 < each <= i64::MAX ==> ({
            let r = held(product(held(larger(each, 0)), size));
            &&& r >= 0
            &&& r < i64::MAX ==> r * SCALE <= each * size < (r + 1) * SCALE
        }),
{
    if each > 0 {
        assert(each * size >= 0) by (nonlinear_arith)
            requires
                each > 0,
                size >= 0,
        ;
        lemma_fundamental_div_mod(each * size, SCALE as int);
    } else {
        assert(0 * size == 0);
    }
}

/// An opportunity without orders gains nothing; where the market of its orders is not
/// known, nothing is paid for them.
pub proof fn law_current_profit_unknown(
    markets: Table<Market>,
    opp: ArbitrageOpportunity,
    market: Market,
    side: OrderSide,
    size: i64,
)
    requires
        opp.orders@.len() == 0 || is_pair(opp.orders@, market, side, size) && !markets.has(
            market.condition_id@,
        ),
        opp.position_size >= 0,
    ensures
        opp.orders@.len() == 0 ==> current_profit(markets, opp) == 0,
        opp.orders@.len() > 0 && opp.opportunity_type is SimpleUnderpriced ==> current_profit(
            markets,
            opp,
        ) == opp.position_size,
        opp.orders@.len() > 0 && opp.opportunity_type is SimpleOverpriced ==> current_profit(
            markets,
            opp,
        ) == 0,
{
    if opp.orders@.len() > 0 {
        reveal_with_fuel(price_total, 3);
        let q: int = opp.position_size as int;
        assert(price_total(markets, opp.orders@, 2) == 0);
        lemma_gain(SCALE as int, q);
        lemma_gain(-SCALE, q);
        let r: int = held(product(held(larger(SCALE as int, 0)), q));
        lemma_fundamental_div_mod(SCALE * q, SCALE as int);
        assert(product(SCALE as int, q) == q);
    }
}

/// Of two lists of orders, the sum of the prices of both is that of the first and that
/// of the second.
pub proof fn law_prices_add_up(
    markets: Table<Market>,
    a: Seq<OrderToExecute>,
    b: Seq<OrderToExecute>,
    n: int,
)
    requires
        0 <= n <= b.len(),
    ensures
        price_total(markets, a + b, a.len() + n) == price_total(markets, a, a.len() as int)
            + price_total(markets, b, n),
    decreases n,
{
    if n > 0 {
        law_prices_add_up(markets, a, b, n - 1);
        assert((a + b)[a.len() + n - 1] == b[n - 1]);
    } else {
        lemma_prices_prefix(markets, a, a + b, a.len() as int);
    }
}

proof fn lemma_prices_prefix(
    markets: Table<Market>,
    a: Seq<OrderToExecute>,
    b: Seq<OrderToExecute>,
    n: int,
)
    requires
        forall|i: int| 0 <= i < n ==> #[trigger] a[i] == b[i],
    ensures
        price_total(markets, a, n) == price_total(markets, b, n),
    decreases n,
{
    if n > 0 {
        lemma_prices_prefix(markets, a, b, n - 1);
        assert(a[n - 1] == b[n - 1]);
    }
}

// ---------------------------------------------------------------------------
// Decisions
// ---------------------------------------------------------------------------

/// What is decided before the risk of an opportunity is valued. It is left alone exactly
/// where it is known and does not wait. It is given up for its profit exactly where it
/// waits and that is below the threshold; for its volume exactly where that is less than
/// four fifths of the position, and the profit is not too small; and for its market
/// where that is not known.
pub proof fn law_early_course(state: AppState, opp: ArbitrageOpportunity)
    ensures
        ({
            let c = early_course(state, opp);
            let waits = state.opportunities.has(opp.id@) ==> state.opportunities.at(opp.id@).status
                == OpportunityStatus::Detected;
            let profit = current_profit(state.markets, opp);
            let pays = profit >= state.config.min_profit_threshold;
            let volume = least_volume(state.markets, opp.orders@, opp.orders@.len() as int);
            let deep = volume matches Some(v) ==> 10 * v >= 8 * opp.position_size;
            &&& c == Some(Course::Taken) <==> !waits
            &&& (c matches Some(Course::Expired(Cause::Unprofitable { .. }))) <==> waits && !pays
            &&& c matches Some(Course::Expired(Cause::Unprofitable { current_profit })) ==> {
                current_profit == profit
            }
            &&& (c matches Some(Course::Expired(Cause::Illiquid { .. }))) <==> waits && pays
                && !deep
            &&& c matches Some(Course::Expired(Cause::Illiquid { available })) ==> {
                volume matches Some(v) && v == available
            }
            &&& c == Some(Course::NoMarketId) <==> waits && pays && deep && opp.market_ids@.len()
                == 0
            &&& c == Some(Course::Expired(Cause::UnknownMarket)) <==> waits && pays && deep
                && opp.market_ids@.len() > 0 && !state.markets.has(opp.market_ids@[0]@)
            &&& c is None <==> waits && pays && deep && opp.market_ids@.len() > 0
                && state.markets.has(opp.market_ids@[0]@)
        }),
{
}

/// A decision marks what it takes up as being executed, what it gives up as expired, and
/// touches no other opportunity.
pub proof fn law_decision_marks(
    before: AppState,
    opp: ArbitrageOpportunity,
    c: Course,
    after: AppState,
)
    requires
        before.wf(),
        after.wf(),
        follows(before, opp, c, after),
        before.opportunities.has(opp.id@),
    ensures
        after.opportunities.has(opp.id@),
        after.opportunities.at(opp.id@).same_deal(&before.opportunities.at(opp.id@)),
        c is Expired ==> after.opportunities.at(opp.id@).status == OpportunityStatus::Expired,
        c is Trade ==> after.opportunities.at(opp.id@).status == OpportunityStatus::Executing,
        c is NoMarketId ==> after.opportunities.at(opp.id@).status == OpportunityStatus::Executing,
        c is Taken ==> after == before,
        forall|k: Seq<char>| #[trigger]
            before.opportunities.has(k) && k != opp.id@ ==> after.opportunities.at(k)
                == before.opportunities.at(k),
        after.markets == before.markets,
        after.executed_trades == before.executed_trades,
        after.stats == before.stats,
        after.config == before.config,
        after.var_engine == before.var_engine,
{
    match c {
        Course::Taken => {},
        Course::Expired(_) => {
            law_status(
                before.opportunities,
                opp.id@,
                OpportunityStatus::Expired,
                after.opportunities,
            );
        },
        _ => {
            law_status(
                before.opportunities,
                opp.id@,
                OpportunityStatus::Executing,
                after.opportunities,
            );
        },
    }
}

/// A trade is cleared exactly where its value at risk is within what is left of the
/// day's limit, it gains on average, an open leg loses at most twice the profit on
/// average, its value at risk is at most three times the profit, at most four fifths of
/// the limit are lost, and its profit is at least the asked ratio of the risk. It is
/// cleared whole where its value at risk is at most a fiftieth of the capital, and else
/// with the share of its size whose risk is.
pub proof fn law_cleared_exactly(
    engine: VaREngine,
    profile: OpportunityRiskProfile,
    min_ratio: int,
    position_size: int,
    share: int,
)
    requires
        i64::MIN < min_ratio <= i64::MAX,
        engine.total_capital > 0,
        0 <= position_size <= i64::MAX,
        trade_var(profile) > 0 ==> 50 * (share * trade_var(profile)) <= SCALE * engine.total_capital
            < 50 * ((share + 1) * trade_var(profile)),
    ensures
        ({
            let var = trade_var(profile);
            let c = clearance(engine, profile, min_ratio, position_size);
            &&& c is Ok <==> {
                &&& engine.daily_pnl + engine.daily_var_limit >= 0
                &&& engine.daily_pnl + engine.daily_var_limit >= var
                &&& mean(simulated(profile)) > 0
                &&& (SCALE - profile.fill_probability) * profile.worst_case_single_leg_loss <= 4
                    * SCALE * profile.guaranteed_profit
                &&& var <= 3 * profile.guaranteed_profit
                &&& 5 * engine.daily_pnl >= -4 * engine.daily_var_limit
                &&& var > 0 ==> profile.guaranteed_profit * SCALE >= min_ratio * var
            }
            &&& c matches Ok(size) ==> {
                &&& 50 * var <= engine.total_capital ==> size == position_size
                &&& 50 * var > engine.total_capital ==> size * SCALE <= position_size * share < (size
                    + 1) * SCALE
            }
        }),
{
    let var: int = trade_var(profile);
    let ev: int = mean(simulated(profile));
    law_daily_limit(var, engine.daily_pnl as int, engine.daily_var_limit as int);
    law_advice(
        var,
        profile.guaranteed_profit as int,
        ev,
        engine.daily_var_limit as int,
        engine.daily_pnl as int,
        engine.total_capital as int,
        profile.fill_probability as int,
        profile.worst_case_single_leg_loss as int,
    );
    law_advised_share(
        var,
        profile.guaranteed_profit as int,
        ev,
        engine.daily_var_limit as int,
        engine.daily_pnl as int,
        engine.total_capital as int,
        profile.fill_probability as int,
        profile.worst_case_single_leg_loss as int,
    );
    law_profit_per_risk(profile.guaranteed_profit as int, var, min_ratio);
    if let Advice::ExecuteReduced { suggested_size_pct } = trade_advice(engine, profile) {
        let x: int = suggested_size_pct;
        assert(x == share) by (nonlinear_arith)
            requires
                50 * (share * var) <= SCALE * engine.total_capital < 50 * ((share + 1) * var),
                50 * (x * var) <= SCALE * engine.total_capital < 50 * ((x + 1) * var),
                var > 0,
        ;
        assert(0 <= position_size * share <= position_size * 1_000_000) by (nonlinear_arith)
            requires
                0 <= share < 1_000_000,
                0 <= position_size,
        ;
        lemma_div_bound(position_size * share, SCALE as int, 0, position_size);
        lemma_fundamental_div_mod(position_size * share, SCALE as int);
    }
}

/// What an opportunity stakes: at worst the dearer of its outcomes on the whole
/// position, and as capital the price of the pair on it, both rounded down; and its
/// profit.
pub proof fn law_stake(p: OpportunityRiskProfile, opp: ArbitrageOpportunity, market: Market)
    requires
        stakes(p, opp, market),
        opp.position_size >= 0,
        0 <= market.yes_price,
        0 <= market.no_price,
        market.yes_price + market.no_price <= i64::MAX,
    ensures
        ({
            let w = p.worst_case_single_leg_loss as int;
            let c = p.capital_committed as int;
            let q = opp.position_size as int;
            &&& 0 <= w <= c
            &&& w < i64::MAX ==> {
                &&& w * SCALE <= market.yes_price * q || w * SCALE <= market.no_price * q
                &&& market.yes_price * q < (w + 1) * SCALE
                &&& market.no_price * q < (w + 1) * SCALE
            }
            &&& c < i64::MAX ==> c * SCALE <= (market.yes_price + market.no_price) * q < (c + 1)
                * SCALE
            &&& p.guaranteed_profit == opp.guaranteed_profit
            &&& p.opportunity_id@ == opp.id@
        }),
{
    let q: int = opp.position_size as int;
    let y: int = market.yes_price as int;
    let n: int = market.no_price as int;
    let high: int = larger(y, n);
    lemma_fundamental_div_mod(high * q, SCALE as int);
    lemma_fundamental_div_mod((y + n) * q, SCALE as int);
    assert(0 <= y * q && 0 <= n * q && y * q <= high * q && n * q <= high * q && high * q <= (y
        + n) * q) by (nonlinear_arith)
        requires
            0 <= q,
            0 <= y,
            0 <= n,
            high >= y,
            high >= n,
            high <= y + n,
    ;
}

// ---------------------------------------------------------------------------
// Fills
// ---------------------------------------------------------------------------

/// One more fill that was bought raises the cost by its price on its size, rounded down;
/// one that was sold lowers it by as much.
pub proof fn law_fill_adds_to_cost(fills: Seq<FilledOrder>, fill: FilledOrder)
    requires
        fill.filled_price >= 0,
        fill.filled_size >= 0,
    ensures
        ({
            let n = fills.len() as int;
            let before = net_cost(fills, n);
            let after = net_cost(fills.push(fill), n + 1);
            let amount = if fill.side == OrderSide::Buy { after - before } else { before - after };
            &&& 0 <= amount <= i64::MAX
            &&& amount < i64::MAX ==> amount * SCALE <= fill.filled_price * fill.filled_size
                < (amount + 1) * SCALE
        }),
{
    let n: int = fills.len() as int;
    let all = fills.push(fill);
    lemma_cost_prefix(fills, all, n);
    assert(all[n] == fill);
    reveal_with_fuel(net_cost, 2);
    let a: int = fill.filled_price * fill.filled_size;
    assert(a >= 0) by (nonlinear_arith)
        requires
            a == fill.filled_price * fill.filled_size,
            fill.filled_price >= 0,
            fill.filled_size >= 0,
    ;
    lemma_fundamental_div_mod(a, SCALE as int);
    let amount: int = held(product(fill.filled_price as int, fill.filled_size as int));
    assert(net_cost(all, n + 1) == net_cost(all, n) + match fill.side {
        OrderSide::Buy => amount,
        OrderSide::Sell => -amount,
    });
}

proof fn lemma_cost_prefix(a: Seq<FilledOrder>, b: Seq<FilledOrder>, n: int)
    requires
        forall|i: int| 0 <= i < n ==> #[trigger] a[i] == b[i],
    ensures
        net_cost(a, n) == net_cost(b, n),
    decreases n,
{
    if n > 0 {
        lemma_cost_prefix(a, b, n - 1);
        assert(a[n - 1] == b[n - 1]);
    }
}

/// A position that was bought and its cost make up its size, where it gained; one that
/// was sold and its size make up the proceeds. Where any fill was bought, the position
/// was.
pub proof fn law_profit_makes_up(size: i64, fills: Seq<FilledOrder>)
    requires
        i64::MIN < net_cost(fills, fills.len() as int) < i64::MAX,
    ensures
        ({
            let r = execution_profit(size as int, fills);
            let cost = net_cost(fills, fills.len() as int);
            let bought = exists|i: int|
                0 <= i < fills.len() && (#[trigger] fills[i]).side == OrderSide::Buy;
            &&& r >= 0
            &&& bought && 0 < r < i64::MAX ==> r + cost == size
            &&& bought && r == 0 ==> cost >= size
            &&& !bought && fills.len() > 0 && 0 < r < i64::MAX ==> r + size == -cost
            &&& !bought && fills.len() > 0 && r == 0 ==> -cost <= size
            &&& fills.len() == 0 ==> r == larger(size as int, 0)
        }),
{
    if exists|i: int| 0 <= i < fills.len() && (#[trigger] fills[i]).side == OrderSide::Buy {
        let i = choose|i: int|
            0 <= i < fills.len() && (#[trigger] fills[i]).side == OrderSide::Buy;
        assert(fills[i].side != OrderSide::Sell);
        assert(!is_sale(fills));
    } else {
        assert forall|i: int| 0 <= i < fills.len() implies (#[trigger] fills[i]).side
            == OrderSide::Sell by {
            assert(fills[i].side != OrderSide::Buy);
        }
    }
}

// ---------------------------------------------------------------------------
// Settlement
// ---------------------------------------------------------------------------

/// A settled trade counts once more among those executed and adds its certain profit to
/// the total; its result is the latest that is remembered, with its capital, and counts
/// toward the day.
pub proof fn law_settled_counts(
    before: AppState,
    opp: ArbitrageOpportunity,
    capital: i64,
    trade: ExecutedTrade,
    stamp: Timestamp,
    today: int,
    after: AppState,
)
    requires
        settled(before, opp, capital, trade, stamp, today, after),
        before.stats.opportunities_executed < u64::MAX,
        i64::MIN <= before.stats.total_profit_usd + opp.guaranteed_profit <= i64::MAX,
        before.var_engine.history().len() <= 500,
    ensures
        after.stats.opportunities_executed == before.stats.opportunities_executed + 1,
        after.stats.total_profit_usd - before.stats.total_profit_usd == opp.guaranteed_profit,
        after.stats.opportunities_detected == before.stats.opportunities_detected,
        after.stats.opportunities_failed == before.stats.opportunities_failed,
        after.stats.last_opportunity_at == before.stats.last_opportunity_at,
        ({
            let r = after.var_engine.history().last();
            &&& r.trade_id == trade.opportunity_id
            &&& r.pnl == trade.actual_profit
            &&& r.capital_at_risk == capital
            &&& r.timestamp == stamp
            &&& trade.success ==> r.execution_type == ExecutionType::FullFill
            &&& !trade.success ==> r.execution_type is PartialFill
        }),
        after.var_engine.current_day == today,
        today == before.var_engine.current_day ==> after.var_engine.daily_pnl == held(
            before.var_engine.daily_pnl + after.var_engine.history().last().pnl,
        ),
        after.markets == before.markets,
        after.config == before.config,
{
}

/// A failed trade counts once more among those failed, and is remembered as the loss of
/// a tenth of the worst case, rounded against the bot; the total of the profits stays.
pub proof fn law_failed_counts(
    before: AppState,
    opp: ArbitrageOpportunity,
    profile: OpportunityRiskProfile,
    stamp: Timestamp,
    today: int,
    after: AppState,
)
    requires
        failed(before, opp, profile, stamp, today, after),
        before.stats.opportunities_failed < u64::MAX,
        before.var_engine.history().len() <= 500,
    ensures
        after.stats.opportunities_failed == before.stats.opportunities_failed + 1,
        after.stats.opportunities_executed == before.stats.opportunities_executed,
        after.stats.opportunities_detected == before.stats.opportunities_detected,
        after.stats.total_profit_usd == before.stats.total_profit_usd,
        ({
            let r = after.var_engine.history().last();
            &&& r.trade_id == opp.id
            &&& 10 * r.pnl <= -profile.worst_case_single_leg_loss < 10 * r.pnl + 10
            &&& r.capital_at_risk == profile.capital_committed
            &&& r.execution_type == ExecutionType::NoFill
            &&& r.timestamp == stamp
        }),
        after.var_engine.current_day == today,
        today == before.var_engine.current_day ==> after.var_engine.daily_pnl == held(
            before.var_engine.daily_pnl + after.var_engine.history().last().pnl,
        ),
        after.markets == before.markets,
        after.config == before.config,
{
}

/// In a dry run no order is ever submitted, and outside of one nothing is simulated. A
/// trade that is submitted changes nothing but the mark on its opportunity.
pub proof fn law_dry_run(
    before: AppState,
    opp: ArbitrageOpportunity,
    r: Processed,
    after: AppState,
)
    requires
        processed(before, opp, r, after),
    ensures
        before.config.dry_run ==> r !is Submit,
        !before.config.dry_run ==> r !is Simulated,
        r is Submit ==> marked(before, opp.id@, OpportunityStatus::Executing, after),
{
    let (c, mid) = choose|c: Course, mid: AppState|
        fits(r, c, before.config.dry_run) && #[trigger] follows(before, opp, c, mid) && carried_out(
            mid,
            opp,
            r,
            after,
        );
    assert(follows(before, opp, c, mid));
}

/// A simulated trade fills every order once, at the price that it asks for and with the
/// size that was cleared, and yields the profit that was certain.
pub proof fn law_simulation(
    trade: ExecutedTrade,
    opp: ArbitrageOpportunity,
    size: i64,
    i: int,
)
    requires
        is_simulation(trade, opp, size),
        0 <= i < opp.orders@.len(),
    ensures
        trade.orders_filled@.len() == opp.orders@.len(),
        trade.orders_filled@[i].filled_price == opp.orders@[i].price,
        trade.orders_filled@[i].filled_size == size,
        trade.orders_filled@[i].side == opp.orders@[i].side,
        trade.orders_filled@[i].market_id == opp.orders@[i].market_id,
        trade.actual_profit == opp.guaranteed_profit,
        trade.success,
        trade.error is None,
        trade.opportunity_id == opp.id,
{
}

/// What one order costs at current prices is the price of the outcome that it names: that
/// of YES where its token ends so, and else that of NO; nothing where its market is not
/// known.
pub proof fn law_price_of_order(markets: Table<Market>, order: OrderToExecute)
    ensures
        ({
            let price = price_total(markets, seq![order], 1);
            let market = markets.at(order.market_id@);
            &&& markets.has(order.market_id@) && ends_with(order.token_id@, "_YES"@) ==> price
                == market.yes_price
            &&& markets.has(order.market_id@) && !ends_with(order.token_id@, "_YES"@) ==> price
                == market.no_price
            &&& !markets.has(order.market_id@) ==> price == 0
        }),
{
    reveal_with_fuel(price_total, 2);
    assert(seq![order][0] == order);
}

/// The chance of a fill that an opportunity stakes on is that at the volume of the
/// thinner outcome of its market, for its whole position.
pub proof fn law_stake_fill(
    opp: ArbitrageOpportunity,
    market: Market,
    g: spec_fn(int) -> int,
    thin: int,
)
    requires
        thin <= market.yes_volume,
        thin <= market.no_volume,
        thin == market.yes_volume || thin == market.no_volume,
    ensures
        stake(opp, market, g).fill_probability == fill_chance(
            thin,
            opp.position_size as int,
            g,
        ),
        stakes(stake(opp, market, g), opp, market),
{
}

/// An answer to an order is a fill exactly where the order was sent, answered with
/// success, and the answer is a JSON document.
pub proof fn law_reply(reply: Reply)
    ensures
        reply_error(reply) is None <==> (reply matches Reply::Answered { success, body } && success
            && document(body@) is Some),
{
}

/// A fill is on the market and on the side of its order. Where the answer gives a price
/// or a size as a number, the fill has it, and else the one that was ordered.
pub proof fn law_fill_of_reply(fill: FilledOrder, order: OrderToExecute, reply: Json)
    requires
        is_fill(fill, order, reply),
    ensures
        fill.market_id == order.market_id,
        fill.side == order.side,
        member_of(reply, "price"@) is None ==> fill.filled_price == order.price,
        member_of(reply, "price"@) matches Some(m) ==> m !is Number ==> fill.filled_price
            == order.price,
        member_of(reply, "price"@) matches Some(Json::Number(t)) ==> (decimal_value(t) matches Some(
            x,
        ) ==> fill.filled_price == x),
        member_of(reply, "sizeMatched"@) is None ==> fill.filled_size == order.size,
        member_of(reply, "sizeMatched"@) matches Some(m) ==> m !is Number ==> fill.filled_size
            == order.size,
        member_of(reply, "sizeMatched"@) matches Some(Json::Number(t)) ==> (decimal_value(
            t,
        ) matches Some(x) ==> fill.filled_size == x),
        member_of(reply, "orderID"@) matches Some(Json::Text(t)) ==> fill.order_id@ == t,
{
}

/// The statistics that are shown follow a settled trade: one more is executed, and the
/// profit grows by what was certain; nothing else of them changes.
pub proof fn law_shown_after_success(
    shown: ApiStats,
    before: AppState,
    opp: ArbitrageOpportunity,
    capital: i64,
    trade: ExecutedTrade,
    stamp: Timestamp,
    today: int,
    after: AppState,
    later: ApiStats,
)
    requires
        before.wf(),
        shows_stats(shown, before),
        settled(before, opp, capital, trade, stamp, today, after),
        shows_stats(later, after),
        shown.opportunities_executed < u64::MAX,
        i64::MIN <= shown.total_profit_usd + opp.guaranteed_profit <= i64::MAX,
    ensures
        later.opportunities_executed == shown.opportunities_executed + 1,
        later.total_profit_usd == shown.total_profit_usd + opp.guaranteed_profit,
        later.opportunities_failed == shown.opportunities_failed,
        later.opportunities_detected == shown.opportunities_detected,
        later.markets_monitored == shown.markets_monitored,
        later.active_opportunities == shown.active_opportunities,
        later.last_opportunity_at is Some == shown.last_opportunity_at is Some,
{
    before.opportunities.lemma_wf();
    if before.opportunities.has(opp.id@) {
        let i: int = before.opportunities.order().index_of(opp.id@);
        assert(before.opportunities.order()[i] == opp.id@);
    }
}

/// The statistics that are shown follow a failed trade: one more has failed, and nothing
/// else of them changes.
pub proof fn law_shown_after_failure(
    shown: ApiStats,
    before: AppState,
    opp: ArbitrageOpportunity,
    profile: OpportunityRiskProfile,
    stamp: Timestamp,
    today: int,
    after: AppState,
    later: ApiStats,
)
    requires
        before.wf(),
        shows_stats(shown, before),
        failed(before, opp, profile, stamp, today, after),
        shows_stats(later, after),
        shown.opportunities_failed < u64::MAX,
    ensures
        later.opportunities_failed == shown.opportunities_failed + 1,
        later.opportunities_executed == shown.opportunities_executed,
        later.opportunities_detected == shown.opportunities_detected,
        later.total_profit_usd == shown.total_profit_usd,
        later.markets_monitored == shown.markets_monitored,
        later.active_opportunities == shown.active_opportunities,
{
    before.opportunities.lemma_wf();
    if before.opportunities.has(opp.id@) {
        let i: int = before.opportunities.order().index_of(opp.id@);
        assert(before.opportunities.order()[i] == opp.id@);
    }
}

/// A trade with a ticket still pays what is asked for at current prices; its value at
/// risk is within what is left of the day's limit and at most three times its profit; its
/// profit is at least the configured ratio of that risk; and it is no larger than the
/// opportunity's position.
pub proof fn law_ticket(state: AppState, opp: ArbitrageOpportunity, t: Ticket)
    requires
        is_cleared(state, opp, t),
        state.var_engine.total_capital > 0,
        state.config.min_profit_var_ratio > i64::MIN,
        opp.position_size >= 0,
    ensures
        current_profit(state.markets, opp) >= state.config.min_profit_threshold,
        t.profile.guaranteed_profit == opp.guaranteed_profit,
        t.risk.var <= state.var_engine.daily_var_limit + state.var_engine.daily_pnl,
        t.risk.var <= 3 * opp.guaranteed_profit,
        t.risk.var > 0 ==> opp.guaranteed_profit * SCALE >= state.config.min_profit_var_ratio
            * t.risk.var,
        t.risk.expected_value > 0,
        0 <= t.position_size <= opp.position_size,
        t.position_size < opp.position_size ==> 50 * t.risk.var > state.var_engine.total_capital,
        50 * (t.position_size * t.risk.var) <= state.var_engine.total_capital * opp.position_size
            || t.position_size == opp.position_size,
{
    let var: int = t.risk.var as int;
    let capital: int = state.var_engine.total_capital as int;
    let size: int = opp.position_size as int;
    law_early_course(state, opp);
    let share: int = if var > 0 { (20_000 * capital) / var } else { 0 };
    if var > 0 {
        lemma_fundamental_div_mod(20_000 * capital, var);
        assert(50 * (share * var) <= SCALE * capital < 50 * ((share + 1) * var))
            by (nonlinear_arith)
            requires
                20_000 * capital == var * share + (20_000 * capital) % var,
                0 <= (20_000 * capital) % var < var,
                SCALE == 1_000_000,
        ;
    }
    law_cleared_exactly(
        state.var_engine,
        t.profile,
        state.config.min_profit_var_ratio as int,
        size,
        share,
    );
    law_clearance_size(
        state.var_engine,
        t.profile,
        state.config.min_profit_var_ratio as int,
        size,
    );
    let s: int = t.position_size as int;
    if 50 * var > capital {
        assert(50 * (s * var) <= capital * size) by (nonlinear_arith)
            requires
                s * SCALE <= size * share,
                50 * (share * var) <= SCALE * capital,
                SCALE == 1_000_000,
                0 <= size,
                0 < var,
        ;
    }
}

/// Where nothing stands against an opportunity before its risk is valued, it is traded
/// exactly where its stake is cleared at the configured ratio, with the size that is
/// cleared, and else given up.
pub proof fn law_course(state: AppState, opp: ArbitrageOpportunity, g: spec_fn(int) -> int)
    requires
        state.opportunities.has(opp.id@) ==> state.opportunities.at(opp.id@).status
            == OpportunityStatus::Detected,
        current_profit(state.markets, opp) >= state.config.min_profit_threshold,
        least_volume(state.markets, opp.orders@, opp.orders@.len() as int) matches Some(v) ==> 5 * v
            >= 4 * opp.position_size,
        opp.market_ids@.len() > 0,
        state.markets.has(opp.market_ids@[0]@),
    ensures
        ({
            let profile = stake(opp, state.markets.at(opp.market_ids@[0]@), g);
            let c = clearance(
                state.var_engine,
                profile,
                state.config.min_profit_var_ratio as int,
                opp.position_size as int,
            );
            &&& c matches Ok(size) ==> course(state, opp, g) == (Course::Trade {
                position_size: size,
            })
            &&& c matches Err(e) ==> course(state, opp, g) == Course::Expired(e)
        }),
{
    law_early_course(state, opp);
}

/// A completed trade keeps its fills, is a success at its time, and its profit and its
/// cost make up its size where it was bought and gained; where it was sold and gained, its
/// profit and its size make up the proceeds.
pub proof fn law_completed(
    trade: ExecutedTrade,
    opp: ArbitrageOpportunity,
    size: i64,
    fills: Seq<FilledOrder>,
    at: Timestamp,
)
    requires
        is_execution(trade, opp, size, fills, at),
        i64::MIN < net_cost(fills, fills.len() as int) < i64::MAX,
    ensures
        trade.orders_filled@ == fills,
        trade.opportunity_id == opp.id,
        trade.executed_at == at,
        trade.success && trade.error is None,
        ({
            let cost = net_cost(fills, fills.len() as int);
            let bought = exists|i: int|
                0 <= i < fills.len() && (#[trigger] fills[i]).side == OrderSide::Buy;
            let profit = trade.actual_profit;
            &&& profit >= 0
            &&& bought && 0 < profit < i64::MAX ==> profit + cost == size
            &&& bought && profit == 0 ==> cost >= size
            &&& !bought && fills.len() > 0 && 0 < profit < i64::MAX ==> profit + size == -cost
            &&& !bought && fills.len() > 0 && profit == 0 ==> -cost <= size
        }),
{
    law_profit_makes_up(size, fills);
}

/// A bot that has just started has nothing to take up and has counted nothing; the whole
/// limit of its day is left, and a trade within half of it is approved. Its engine's level
/// of confidence leaves out one case in twenty.
pub proof fn law_fresh_state(state: AppState, config: BotConfig, var: int)
    requires
        state.is_fresh(config),
        0 <= var,
        2 * var <= config.daily_var_limit,
    ensures
        waiting(state.opportunities.records()).len() == 0,
        state.stats.opportunities_detected == 0,
        state.stats.opportunities_executed == 0,
        state.stats.opportunities_failed == 0,
        state.stats.total_profit_usd == 0,
        state.stats.last_opportunity_at is None,
        20 * state.var_engine.confidence_level.tail_share() == SCALE,
        limit_verdict(
            var,
            state.var_engine.daily_pnl as int,
            state.var_engine.daily_var_limit as int,
        ) == (LimitVerdict::Approved {
            trade_var: var,
            remaining_budget_after: config.daily_var_limit - var,
        }),
        state.var_engine.total_capital == config.total_capital,
        value_at_risk(state.var_engine.pnls(), ConfidenceLevel::Pct95) is None,
{
    state.opportunities.records().lemma_filter_len(
        |o: ArbitrageOpportunity| o.status == OpportunityStatus::Detected,
    );
}

/// A trade that is simulated is kept under its opportunity with every order filled at the
/// size that was cleared, is counted once with the certain profit, and is remembered with
/// the capital of its ticket; its opportunity is executed.
pub proof fn law_simulated(
    before: AppState,
    opp: ArbitrageOpportunity,
    t: Ticket,
    after: AppState,
)
    requires
        before.wf(),
        after.wf(),
        before.opportunities.has(opp.id@),
        processed(before, opp, Processed::Simulated(t), after),
        before.stats.opportunities_executed < u64::MAX,
        i64::MIN <= before.stats.total_profit_usd + opp.guaranteed_profit <= i64::MAX,
    ensures
        after.executed_trades.has(opp.id@),
        after.executed_trades.at(opp.id@).actual_profit == opp.guaranteed_profit,
        after.executed_trades.at(opp.id@).orders_filled@.len() == opp.orders@.len(),
        forall|i: int|
            0 <= i < opp.orders@.len() ==> (#[trigger] after.executed_trades.at(
                opp.id@,
            ).orders_filled@[i]).filled_size == t.position_size,
        after.opportunities.at(opp.id@).status == OpportunityStatus::Executed,
        after.stats.opportunities_executed == before.stats.opportunities_executed + 1,
        after.stats.total_profit_usd == before.stats.total_profit_usd + opp.guaranteed_profit,
        after.var_engine.history().last().pnl == opp.guaranteed_profit,
        after.var_engine.history().last().capital_at_risk == t.profile.capital_committed,
{
    let r = Processed::Simulated(t);
    let id = opp.id@;
    before.opportunities.lemma_wf();
    let (c, mid) = choose|c: Course, mid: AppState|
        fits(r, c, before.config.dry_run) && #[trigger] follows(before, opp, c, mid) && carried_out(
            mid,
            opp,
            r,
            after,
        );
    assert(follows(before, opp, c, mid));
    let (trade, stamp) = choose|trade: ExecutedTrade, stamp: Timestamp|
        is_simulation(trade, opp, t.position_size) && Timestamp::exists_at(
            stamp.seconds(),
            stamp.subsecond(),
        ) && #[trigger] settled(
            mid,
            opp,
            t.profile.capital_committed,
            trade,
            stamp,
            day_number(stamp.seconds()),
            after,
        );
    assert(settled(
        mid,
        opp,
        t.profile.capital_committed,
        trade,
        stamp,
        day_number(stamp.seconds()),
        after,
    ));
    assert(mid.executed_trades == before.executed_trades);
    law_inserted(before.executed_trades, trade.opportunity_id@, trade, after.executed_trades);
    let i: int = before.opportunities.order().index_of(id);
    assert(before.opportunities.order()[i] == id);
    assert(mid.opportunities.order() == before.opportunities.order());
    assert(mid.opportunities.has(id));
    assert(after.opportunities.order().index_of(id) == i);
    assert forall|k: int| 0 <= k < opp.orders@.len() implies (#[trigger] after.executed_trades.at(
        id,
    ).orders_filled@[k]).filled_size == t.position_size by {
        assert(after.executed_trades.at(id) == trade);
        law_simulation(trade, opp, t.position_size, k);
    }
}

} // verus!
