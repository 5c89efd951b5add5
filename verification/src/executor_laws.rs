//! What holds of decisions on opportunities and of settled trades.

use vstd::prelude::*;
use crate::arbitrage::{is_opportunity, is_pair, takes_profit, Appraisal};
use crate::arbitrage_laws::law_leg_marks;
use crate::clock::{day_number, Timestamp};
use crate::executor::{
    are_best, as_status, carried_out, clearance, course, current_profit, early_course,
    execution_profit, failed, fits, follows, is_execution, is_sale, is_simulation, least_volume,
    net_cost, poor_ratio, price_total, processed, profit_keys, settled, trade_var, volume_in,
    waiting, with_status, Course, Processed,
};
use crate::math::{mispricing, profit_of};
use crate::order::{is_order, precedes};
use crate::risk::{above_capital_share, mean, simulated, OpportunityRiskProfile, VaREngine};
use crate::risk_laws::{law_daily_limit, law_reduced_size};
use crate::table::{law_inserted, Table};
use crate::text::ends_with;
use crate::types::{
    AppState, ArbitrageOpportunity, ExecutedTrade, FilledOrder, Market, OpportunityStatus,
    OrderSide, OrderToExecute,
};
use crate::units::{held, larger, product, quotient, SCALE};

verus! {

/// The status that was set is the status that is found, and every other
/// opportunity keeps its own.
pub proof fn law_status(
    before: Table<ArbitrageOpportunity>,
    id: Seq<char>,
    status: OpportunityStatus,
    after: Table<ArbitrageOpportunity>,
)
    requires
        before.wf(),
        after.wf(),
        with_status(before, id, status, after),
    ensures
        forall|k: Seq<char>| #[trigger] after.has(k) <==> before.has(k),
        before.has(id) ==> after.at(id) == as_status(before.at(id), status),
        before.has(id) ==> after.at(id).same_deal(&before.at(id)) && after.at(id).status == status,
        forall|k: Seq<char>| #[trigger] before.has(k) && k != id ==> after.at(k) == before.at(k),
{
    before.lemma_wf();
    after.lemma_wf();
    assert forall|k: Seq<char>| #[trigger] before.has(k) && k != id implies after.at(k)
        == before.at(k) by {
        let i: int = before.order().index_of(k);
        assert(before.order()[i] == k);
    }
}

/// What is taken up or given up once is not taken up again: a second decision
/// on it does nothing.
pub proof fn law_no_double_decision(
    before: AppState,
    opp: ArbitrageOpportunity,
    g: spec_fn(int) -> int,
    after: AppState,
)
    requires
        before.wf(),
        after.wf(),
        before.opportunities.has(opp.id@),
        follows(before, opp, course(before, opp, g), after),
    ensures
        course(after, opp, g) == Course::Taken,
{
    match course(before, opp, g) {
        Course::Taken => {},
        Course::Expired(_) => {
            law_status(
                before.opportunities,
                opp.id@,
                OpportunityStatus::Expired,
                after.opportunities,
            );
        },
        _ => {
            law_status(
                before.opportunities,
                opp.id@,
                OpportunityStatus::Executing,
                after.opportunities,
            );
        },
    }
}

/// An opportunity that does not wait for execution is left alone: processing it
/// changes nothing, and no order is sent.
pub proof fn law_only_waiting_is_processed(
    before: AppState,
    opp: ArbitrageOpportunity,
    r: Processed,
    after: AppState,
)
    requires
        before.opportunities.has(opp.id@),
        before.opportunities.at(opp.id@).status != OpportunityStatus::Detected,
        processed(before, opp, r, after),
    ensures
        r matches Processed::Closed(d) && d is Taken,
        after == before,
{
    assert(early_course(before, opp) == Some(Course::Taken));
    let (c, mid) = choose|c: Course, mid: AppState|
        fits(r, c, before.config.dry_run) && #[trigger] follows(before, opp, c, mid) && carried_out(
            mid,
            opp,
            r,
            after,
        );
    assert(follows(before, opp, c, mid));
}

/// Once processed, an opportunity does not wait for execution any more.
pub proof fn law_processed_waits_no_more(
    before: AppState,
    opp: ArbitrageOpportunity,
    r: Processed,
    after: AppState,
)
    requires
        before.wf(),
        after.wf(),
        before.opportunities.has(opp.id@),
        processed(before, opp, r, after),
    ensures
        after.opportunities.has(opp.id@),
        after.opportunities.at(opp.id@).status != OpportunityStatus::Detected,
{
    let id = opp.id@;
    before.opportunities.lemma_wf();
    let (c, mid) = choose|c: Course, mid: AppState|
        fits(r, c, before.config.dry_run) && #[trigger] follows(before, opp, c, mid) && carried_out(
            mid,
            opp,
            r,
            after,
        );
    assert(follows(before, opp, c, mid));
    if c is Taken {
        assert(early_course(before, opp) is Some);
    } else {
        let status = if c is Expired {
            OpportunityStatus::Expired
        } else {
            OpportunityStatus::Executing
        };
        lemma_status_set(before.opportunities, id, status, mid.opportunities);
        if let Processed::Simulated(t) = r {
            let (trade, stamp) = choose|trade: ExecutedTrade, stamp: Timestamp|
                is_simulation(trade, opp, t.position_size) && Timestamp::exists_at(
                    stamp.seconds(),
                    stamp.subsecond(),
                ) && #[trigger] settled(
                    mid,
                    opp,
                    t.profile.capital_committed,
                    trade,
                    stamp,
                    day_number(stamp.seconds()),
                    after,
                );
            assert(settled(
                mid,
                opp,
                t.profile.capital_committed,
                trade,
                stamp,
                day_number(stamp.seconds()),
                after,
            ));
            lemma_status_set(
                mid.opportunities,
                id,
                OpportunityStatus::Executed,
                after.opportunities,
            );
        }
    }
}

/// A status that was set is found.
proof fn lemma_status_set(
    before: Table<ArbitrageOpportunity>,
    id: Seq<char>,
    status: OpportunityStatus,
    after: Table<ArbitrageOpportunity>,
)
    requires
        before.records().len() == before.order().len(),
        before.has(id),
        with_status(before, id, status, after),
    ensures
        after.has(id),
        after.at(id).status == status,
        after.records().len() == after.order().len(),
{
    let i: int = before.order().index_of(id);
    assert(before.order()[i] == id);
    assert(after.order().index_of(id) == i);
}

/// No double execution: processing an opportunity a second time changes nothing,
/// and no order is sent.
pub proof fn law_no_double_execution(
    before: AppState,
    opp: ArbitrageOpportunity,
    first: Processed,
    between: AppState,
    second: Processed,
    after: AppState,
)
    requires
        before.wf(),
        between.wf(),
        before.opportunities.has(opp.id@),
        processed(before, opp, first, between),
        processed(between, opp, second, after),
    ensures
        second matches Processed::Closed(d) && d is Taken,
        after == between,
{
    law_processed_waits_no_more(before, opp, first, between);
    law_only_waiting_is_processed(between, opp, second, after);
}

/// No trade is cleared unless it gains on average, its value at risk is
/// within what is left of the day's limit and at most three times its profit,
/// and its profit is large enough for that value.
pub proof fn law_clearance(
    engine: VaREngine,
    profile: OpportunityRiskProfile,
    min_ratio: int,
    position_size: int,
)
    ensures
        clearance(engine, profile, min_ratio, position_size) is Ok ==> {
            &&& mean(simulated(profile)) > 0
            &&& trade_var(profile) <= 3 * profile.guaranteed_profit
            &&& engine.daily_pnl >= -engine.daily_var_limit
            &&& engine.daily_pnl - trade_var(profile) >= -engine.daily_var_limit
            &&& 5 * engine.daily_pnl >= -4 * engine.daily_var_limit
            &&& !poor_ratio(profile, min_ratio)
        },
{
    law_daily_limit(
        trade_var(profile),
        engine.daily_pnl as int,
        engine.daily_var_limit as int,
    );
}

/// A trade is cleared with the size of its position or less.
pub proof fn law_clearance_size(
    engine: VaREngine,
    profile: OpportunityRiskProfile,
    min_ratio: int,
    position_size: int,
)
    requires
        engine.total_capital > 0,
        0 <= position_size <= i64::MAX,
    ensures
        clearance(engine, profile, min_ratio, position_size) matches Ok(size) ==> 0 <= size
            <= position_size,
{
    let var: int = trade_var(profile);
    if above_capital_share(var, engine.total_capital as int) {
        law_reduced_size(var, engine.total_capital as int);
        let share: int = held(quotient(20_000 * engine.total_capital, var));
        assert(0 <= position_size * share <= 1_000_000 * position_size) by (nonlinear_arith)
            requires
                0 <= share <= 1_000_000,
                0 <= position_size,
        ;
        assert(0 * 1_000_000 <= position_size * share <= position_size * 1_000_000);
        crate::units::lemma_div_bound(position_size * share, SCALE as int, 0, position_size);
    }
}

/// The most profitable opportunities come first, and none that is left out is
/// more profitable than one that is taken up.
pub proof fn law_best_first(
    r: Seq<ArbitrageOpportunity>,
    opps: Seq<ArbitrageOpportunity>,
    p: Seq<usize>,
)
    requires
        are_best(r, opps, p),
    ensures
        forall|i: int, j: int|
            0 <= i < j < r.len() ==> (#[trigger] r[i]).guaranteed_profit >= (
            #[trigger] r[j]).guaranteed_profit,
        forall|i: int, k: int|
            0 <= i < r.len() <= k < opps.len() ==> (#[trigger] r[i]).guaranteed_profit >= opps[(
            #[trigger] p[k]) as int].guaranteed_profit,
{
    let keys = profit_keys(opps);
    assert forall|i: int, k: int| 0 <= i < k < opps.len() implies opps[(
    #[trigger] p[i]) as int].guaranteed_profit >= opps[(#[trigger] p[k]) as int].guaranteed_profit by {
        assert(precedes(keys, p[i] as int, p[k] as int));
        assert(keys[p[i] as int] == -opps[p[i] as int].guaranteed_profit);
        assert(keys[p[k] as int] == -opps[p[k] as int].guaranteed_profit);
    }
    assert forall|i: int, j: int| 0 <= i < j < r.len() implies (
    #[trigger] r[i]).guaranteed_profit >= (#[trigger] r[j]).guaranteed_profit by {
        assert(r[i].same_deal(&opps[p[i] as int]));
        assert(r[j].same_deal(&opps[p[j] as int]));
    }
    assert forall|i: int, k: int| 0 <= i < r.len() <= k < opps.len() implies (
    #[trigger] r[i]).guaranteed_profit >= opps[(#[trigger] p[k]) as int].guaranteed_profit by {
        assert(r[i].same_deal(&opps[p[i] as int]));
    }
}

/// What is taken up waits for execution, is found among all opportunities, and
/// nothing that waits is passed over for what is less profitable: every opportunity
/// that waits is either taken up, or no more profitable than each that is. Fewer are
/// taken up than can be at once only where all that wait are.
pub proof fn law_pending_are_best_waiting(
    r: Seq<ArbitrageOpportunity>,
    opps: Seq<ArbitrageOpportunity>,
    p: Seq<usize>,
)
    requires
        are_best(r, waiting(opps), p),
        opps.len() <= usize::MAX,
    ensures
        r.len() <= 3,
        forall|i: int|
            0 <= i < r.len() ==> (#[trigger] r[i]).status == OpportunityStatus::Detected,
        forall|i: int| 0 <= i < r.len() ==> is_one_of(#[trigger] r[i], opps),
        forall|k: int|
            0 <= k < opps.len() && (#[trigger] opps[k]).status == OpportunityStatus::Detected
                ==> is_among(r, opps[k]) || r.len() == 3 && forall|i: int|
                0 <= i < 3 ==> (#[trigger] r[i]).guaranteed_profit >= opps[k].guaranteed_profit,
{
    let all = waiting(opps);
    let keys = profit_keys(all);
    let is_waiting = |o: ArbitrageOpportunity| o.status == OpportunityStatus::Detected;
    opps.lemma_filter_len(is_waiting);
    assert forall|i: int| 0 <= i < r.len() implies (#[trigger] r[i]).status
        == OpportunityStatus::Detected && is_one_of(r[i], opps) by {
        let o = all[p[i] as int];
        assert(p[i] < keys.len());
        assert(all.contains(o));
        opps.lemma_filter_contains_rev(is_waiting, o);
        opps.lemma_filter_pred(is_waiting, p[i] as int);
        let k = choose|k: int| 0 <= k < opps.len() && opps[k] == o;
        assert(r[i].same_deal(&opps[k]));
    }
    law_best_first(r, all, p);
    assert forall|k: int|
        0 <= k < opps.len() && (#[trigger] opps[k]).status == OpportunityStatus::Detected implies
        is_among(r, opps[k]) || r.len() == 3 && forall|i: int|
        0 <= i < 3 ==> (#[trigger] r[i]).guaranteed_profit >= opps[k].guaranteed_profit by {
        let o = opps[k];
        opps.lemma_filter_contains(is_waiting, k);
        let a = choose|a: int| 0 <= a < all.len() && all[a] == o;
        lemma_place_in_order(keys, p, a);
        let j = choose|j: int| 0 <= j < p.len() && #[trigger] p[j] == a;
        if j < r.len() {
            assert(r[j].same_deal(&all[p[j] as int]));
        } else {
            assert forall|i: int| 0 <= i < r.len() implies (#[trigger] r[i]).guaranteed_profit
                >= o.guaranteed_profit by {
                assert(p[j] == a);
            }
        }
    }
}

/// Whether an opportunity is one of others that wait for execution.
pub open spec fn is_one_of(o: ArbitrageOpportunity, opps: Seq<ArbitrageOpportunity>) -> bool {
    exists|k: int|
        0 <= k < opps.len() && o.same_deal(#[trigger] &opps[k]) && opps[k].status
            == OpportunityStatus::Detected
}

/// Whether an opportunity is among those that are taken up.
pub open spec fn is_among(r: Seq<ArbitrageOpportunity>, o: ArbitrageOpportunity) -> bool {
    exists|i: int| 0 <= i < r.len() && (#[trigger] r[i]).same_deal(&o)
}

/// Every place has its place in an order.
proof fn lemma_place_in_order(keys: Seq<i128>, p: Seq<usize>, a: int)
    requires
        is_order(keys, p),
        0 <= a < keys.len() <= usize::MAX,
    ensures
        exists|j: int| 0 <= j < p.len() && #[trigger] p[j] == a,
{
    assert(p.contains(a as usize));
    let j = choose|j: int| 0 <= j < p.len() && p[j] == a as usize;
    assert(p[j] == a);
}

/// The volume that is offered of what an order trades, on its market: that of YES
/// where the order names it, and else that of NO.
pub open spec fn is_offered(markets: Table<Market>, order: OrderToExecute, volume: int) -> bool {
    &&& markets.has(order.market_id@)
    &&& if ends_with(order.token_id@, "_YES"@) {
        volume == markets.at(order.market_id@).yes_volume
    } else {
        volume == markets.at(order.market_id@).no_volume
    }
}

/// The liquidity of orders is at most the volume that any of them finds, and is what
/// one of them finds; nothing bounds it exactly where none of their markets is known.
pub proof fn law_liquidity_is_least(markets: Table<Market>, orders: Seq<OrderToExecute>)
    ensures
        match least_volume(markets, orders, orders.len() as int) {
            Some(least) => {
                &&& forall|i: int, v: int|
                    0 <= i < orders.len() && #[trigger] is_offered(markets, orders[i], v) ==> least
                        <= v
                &&& exists|i: int|
                    0 <= i < orders.len() && #[trigger] is_offered(
                        markets,
                        orders[i],
                        least as int,
                    )
            },
            None => forall|i: int|
                0 <= i < orders.len() ==> !markets.has((#[trigger] orders[i]).market_id@),
        },
{
    lemma_least_volume(markets, orders, orders.len() as int);
}

proof fn lemma_least_volume(markets: Table<Market>, orders: Seq<OrderToExecute>, n: int)
    requires
        0 <= n <= orders.len(),
    ensures
        match least_volume(markets, orders, n) {
            Some(least) => {
                &&& forall|i: int, v: int|
                    0 <= i < n && #[trigger] is_offered(markets, orders[i], v) ==> least <= v
                &&& exists|i: int|
                    0 <= i < n && #[trigger] is_offered(markets, orders[i], least as int)
            },
            None => forall|i: int|
                0 <= i < n ==> !markets.has((#[trigger] orders[i]).market_id@),
        },
    decreases n,
{
    if n > 0 {
        lemma_least_volume(markets, orders, n - 1);
        let order = orders[n - 1];
        if markets.has(order.market_id@) {
            let here: int = volume_in(order, markets.at(order.market_id@));
            let least: int = least_volume(markets, orders, n)->0 as int;
            assert(is_offered(markets, orders[n - 1], here));
            assert forall|i: int, v: int|
                0 <= i < n && #[trigger] is_offered(markets, orders[i], v) implies least <= v by {
                if i < n - 1 {
                    assert(markets.has(orders[i].market_id@));
                }
            }
            if least != here {
                let i = choose|i: int|
                    0 <= i < n - 1 && #[trigger] is_offered(markets, orders[i], least);
                assert(is_offered(markets, orders[i], least));
            }
        }
    }
}

/// Two orders on the outcomes of one market find the smaller of its volumes.
pub proof fn law_pair_liquidity(
    markets: Table<Market>,
    orders: Seq<OrderToExecute>,
    market: Market,
    side: OrderSide,
    size: i64,
)
    requires
        is_pair(orders, market, side, size),
        markets.has(market.condition_id@),
    ensures
        ({
            let now = markets.at(market.condition_id@);
            least_volume(markets, orders, 2) == Some(
                if now.yes_volume <= now.no_volume {
                    now.yes_volume
                } else {
                    now.no_volume
                },
            )
        }),
{
    law_leg_marks(orders, market, side, size);
    reveal_with_fuel(least_volume, 3);
}

/// While the prices of its market stay, the current profit of a detected
/// opportunity is the profit of the mispriced pair on the whole position.
pub proof fn law_unchanged_prices_stay_valid(
    markets: Table<Market>,
    opp: ArbitrageOpportunity,
    market: Market,
    a: Appraisal,
    min_profit: int,
    id: Seq<char>,
    at: Timestamp,
)
    requires
        is_opportunity(opp, market, a, id, at),
        a.kind == mispricing(market.pair_price(), min_profit),
        a.kind !is Fair,
        min_profit >= 0,
        i64::MIN <= market.yes_price + market.no_price <= i64::MAX,
        markets.has(market.condition_id@),
        markets.at(market.condition_id@) == market,
    ensures
        current_profit(markets, opp) == held(
            product(profit_of(a.kind) as int, opp.position_size as int),
        ),
{
    let orders = opp.orders@;
    let side = if a.kind is Underpriced { OrderSide::Buy } else { OrderSide::Sell };
    law_leg_marks(orders, market, side, a.position_size);
    reveal_with_fuel(price_total, 3);
    assert(price_total(markets, orders, 2) == market.yes_price + market.no_price);
}

/// A settled trade is found under its opportunity, which is executed and left alone
/// from then on.
pub proof fn law_settled(
    before: AppState,
    opp: ArbitrageOpportunity,
    capital: i64,
    trade: ExecutedTrade,
    stamp: Timestamp,
    today: int,
    after: AppState,
)
    requires
        before.wf(),
        after.wf(),
        settled(before, opp, capital, trade, stamp, today, after),
    ensures
        after.executed_trades.has(trade.opportunity_id@),
        after.executed_trades.at(trade.opportunity_id@) == trade,
        before.opportunities.has(opp.id@) ==> after.opportunities.at(opp.id@).status
            == OpportunityStatus::Executed,
        after.var_engine.history().last().pnl == trade.actual_profit,
        forall|r: Processed, later: AppState|
            before.opportunities.has(opp.id@) && #[trigger] processed(after, opp, r, later)
                ==> later == after,
{
    law_inserted(
        before.executed_trades,
        trade.opportunity_id@,
        trade,
        after.executed_trades,
    );
    law_status(
        before.opportunities,
        opp.id@,
        OpportunityStatus::Executed,
        after.opportunities,
    );
}

/// A failed trade leaves no trade behind, counts as a loss where the worst case is
/// one, and fails its opportunity, which is left alone from then on.
pub proof fn law_failed(
    before: AppState,
    opp: ArbitrageOpportunity,
    profile: OpportunityRiskProfile,
    stamp: Timestamp,
    today: int,
    after: AppState,
)
    requires
        before.wf(),
        after.wf(),
        failed(before, opp, profile, stamp, today, after),
    ensures
        after.executed_trades == before.executed_trades,
        before.opportunities.has(opp.id@) ==> after.opportunities.at(opp.id@).status
            == OpportunityStatus::Failed,
        profile.worst_case_single_leg_loss >= 0 ==> after.var_engine.history().last().pnl <= 0,
        forall|r: Processed, later: AppState|
            before.opportunities.has(opp.id@) && #[trigger] processed(after, opp, r, later)
                ==> later == after,
{
    law_status(before.opportunities, opp.id@, OpportunityStatus::Failed, after.opportunities);
}

/// The profit of an execution is never negative. A position that was bought never
/// gains more than its size, and one that was sold never more than its proceeds.
pub proof fn law_execution_profit(
    trade: ExecutedTrade,
    opp: ArbitrageOpportunity,
    size: i64,
    at: Timestamp,
)
    requires
        is_execution(trade, opp, size, trade.orders_filled@, at),
        size >= 0,
    ensures
        trade.actual_profit >= 0,
        ({
            let fills = trade.orders_filled@;
            let cost = net_cost(fills, fills.len() as int);
            &&& cost >= 0 ==> trade.actual_profit <= size
            &&& is_sale(fills) ==> trade.actual_profit <= larger(-cost, 0)
        }),
{
}

/// Where both orders on a mispriced pair fill as ordered, the profit of the
/// execution is that of the pair on the whole position, up to the rounding of the
/// two amounts: a pair that was bought cost that much less than it pays, and one
/// that was sold brought that much more.
pub proof fn law_filled_pair_profit(
    orders: Seq<OrderToExecute>,
    fills: Seq<FilledOrder>,
    market: Market,
    min_profit: int,
    size: i64,
)
    requires
        0 <= min_profit,
        0 <= size,
        0 <= market.yes_price,
        0 <= market.no_price,
        market.yes_price + market.no_price <= i64::MAX,
        product(market.yes_price as int, size as int) + product(
            market.no_price as int,
            size as int,
        ) <= i64::MAX,
        takes_profit(orders, market, mispricing(market.pair_price(), min_profit), size),
        mispricing(market.pair_price(), min_profit) !is Fair,
        fills.len() == 2,
        forall|i: int|
            0 <= i < 2 ==> (#[trigger] fills[i]).side == orders[i].side && fills[i].filled_price
                == orders[i].price && fills[i].filled_size == size,
    ensures
        ({
            let kind = mispricing(market.pair_price(), min_profit);
            let exact = product(profit_of(kind) as int, size as int);
            exact - 2 <= execution_profit(size as int, fills) <= exact + 2
        }),
{
    let kind = mispricing(market.pair_price(), min_profit);
    let y: int = market.yes_price as int;
    let n: int = market.no_price as int;
    let q: int = size as int;
    let a: int = product(y, q);
    let b: int = product(n, q);
    let p: int = profit_of(kind) as int;
    let e: int = product(p, q);
    assert(fills[0].side == orders[0].side && fills[0].filled_price == orders[0].price);
    assert(fills[1].side == orders[1].side && fills[1].filled_price == orders[1].price);
    assert(fills[0].filled_size == size && fills[1].filled_size == size);
    lemma_amount(y, q);
    lemma_amount(n, q);
    reveal_with_fuel(net_cost, 3);
    vstd::arithmetic::div_mod::lemma_fundamental_div_mod(y * q, SCALE as int);
    vstd::arithmetic::div_mod::lemma_fundamental_div_mod(n * q, SCALE as int);
    vstd::arithmetic::div_mod::lemma_fundamental_div_mod(p * q, SCALE as int);
    if kind is Underpriced {
        assert(!is_sale(fills)) by {
            assert(fills[0].side != OrderSide::Sell);
        }
        assert(y * q + n * q + p * q == SCALE * q) by (nonlinear_arith)
            requires
                y + n + p == SCALE,
        ;
        assert(net_cost(fills, 2) == a + b);
    } else {
        assert(is_sale(fills)) by {
            assert forall|i: int| 0 <= i < fills.len() implies (#[trigger] fills[i]).side
                == OrderSide::Sell by {}
        }
        assert(y * q + n * q - p * q == SCALE * q) by (nonlinear_arith)
            requires
                y + n - p == SCALE,
        ;
        assert(net_cost(fills, 2) == -(a + b));
    }
}

/// What costs nothing or more amounts to nothing or more.
proof fn lemma_amount(price: int, size: int)
    requires
        0 <= price,
        0 <= size,
    ensures
        0 <= product(price, size),
{
    assert(0 <= price * size) by (nonlinear_arith)
        requires
            0 <= price,
            0 <= size,
    ;
    vstd::arithmetic::div_mod::lemma_div_pos_is_pos(price * size, SCALE as int);
}

} // verus!
