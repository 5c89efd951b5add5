//! What holds of detected opportunities and of the clean-up.

use vstd::prelude::*;
use vstd::arithmetic::div_mod::{lemma_fundamental_div_mod, lemma_fundamental_div_mod_converse};
use vstd::utf8::{
    encode_utf8, encode_utf8_valid_utf8, is_ascii_chars, is_ascii_chars_encode_utf8,
    is_char_boundary, pop_first_scalar, valid_utf8,
};
use crate::arbitrage::{
    appraised, checked, cleaned, entered, estimated_fill, is_opportunity, is_pair, market_problem,
    on_position, scanned, staying, stays, takes_profit, worthwhile_size, Appraisal,
};
use crate::clock::Timestamp;
use crate::dashboard::{id_showable, opportunities_showable};
use crate::math::{
    kelly_size, mispricing, profit_of, projection, Problem, SimpleArbitrageType, UNIT,
};
use crate::table::{kept, law_inserted};
use crate::text::ends_with;
use crate::types::{
    AppState, ArbitrageOpportunity, BotConfig, Market, OpportunityStatus, OrderSide, OrderToExecute,
};
use crate::units::{held, product, SCALE};

verus! {

/// A market whose pair costs less than one by more than a threshold is the
/// same as one that is underpriced.
pub proof fn law_simple_arbitrage_is_underpricing(market: Market, threshold: i64)
    ensures
        (market.pair_price() < SCALE - threshold) == (mispricing(
            market.pair_price(),
            threshold as int,
        ) is Underpriced),
{
}

/// What is detected is a mispriced pair, has at least the profit that was asked
/// for, and a position of at least one that is within the capital allowed and
/// takes at most half of either outcome's volume.
pub proof fn law_detected(
    market: Market,
    config: BotConfig,
    min_profit: int,
    f: spec_fn(int) -> int,
    g: spec_fn(int) -> int,
)
    ensures
        appraised(market, config, min_profit, f, g) matches Some(a) ==> {
            &&& a.kind == mispricing(market.pair_price(), min_profit)
            &&& a.kind !is Fair
            &&& min_profit <= a.guaranteed_profit
            &&& SCALE <= a.position_size <= config.max_position_size
            &&& 2 * a.position_size <= market.yes_volume
            &&& 2 * a.position_size <= market.no_volume
        },
{
}

/// A pair that costs too much is detected exactly where the position is at least
/// one and the excess of its price on that position is at least the profit asked
/// for; it then guarantees that excess, whatever a projection would find.
pub proof fn law_overpriced_detected(
    market: Market,
    config: BotConfig,
    min_profit: int,
    f: spec_fn(int) -> int,
    g: spec_fn(int) -> int,
)
    requires
        min_profit >= 0,
        market.pair_price() > SCALE + min_profit,
    ensures
        ({
            let size = worthwhile_size(market, config, min_profit, g);
            let excess = held(product(market.pair_price() - SCALE, size));
            &&& appraised(market, config, min_profit, f, g) is Some <==> size >= SCALE && excess
                >= min_profit
            &&& appraised(market, config, min_profit, f, g) matches Some(a) ==> {
                &&& a.kind is Overpriced
                &&& a.guaranteed_profit == excess
                &&& a.max_profit == excess
                &&& a.fw_gap == Some(0i64)
                &&& a.position_size == size
            }
        }),
{
    assert(profit_of(mispricing(market.pair_price(), min_profit)) == market.pair_price() - SCALE);
}

/// A pair that costs too little is detected exactly where the position is at least
/// one and what the projection of the market's prices guarantees, on the whole of
/// that position, is at least the profit asked for. It then guarantees that much and
/// can gain the divergence on the whole position, both rounded down, so that a
/// position of twice the size yields twice as much up to rounding.
pub proof fn law_underpriced_detected(
    market: Market,
    config: BotConfig,
    min_profit: int,
    f: spec_fn(int) -> int,
    g: spec_fn(int) -> int,
    p: Problem,
)
    requires
        0 <= min_profit <= i64::MAX,
        market.pair_price() < SCALE - min_profit,
        p.theta.len() == 2,
        p.theta[0] * SCALE == market.yes_price * UNIT,
        p.theta[1] * SCALE == market.no_price * UNIT,
        p.groups == seq![seq![0usize, 1usize]],
        p.implications.len() == 0,
        p.alpha == config.frank_wolfe_alpha,
        p.max_iter == config.frank_wolfe_max_iter,
        i64::MIN <= projection(p, f).profit <= i64::MAX,
        i64::MIN <= projection(p, f).divergence <= i64::MAX,
    ensures
        ({
            let size = worthwhile_size(market, config, min_profit, g);
            let profit = projection(p, f).profit;
            let divergence = projection(p, f).divergence;
            &&& appraised(market, config, min_profit, f, g) is Some <==> size >= SCALE
                && profit * size >= min_profit * UNIT
            &&& appraised(market, config, min_profit, f, g) matches Some(a) ==> {
                &&& a.kind is Underpriced
                &&& a.position_size == size
                &&& profit * size <= i64::MAX * UNIT ==> a.guaranteed_profit * UNIT <= profit
                    * a.position_size < (a.guaranteed_profit + 1) * UNIT
                &&& i64::MIN * UNIT <= divergence * size <= i64::MAX * UNIT ==> a.max_profit * UNIT
                    <= divergence * a.position_size < (a.max_profit + 1) * UNIT
                &&& a.fw_gap is Some == projection(p, f).gap is Some
                &&& projection(p, f).gap matches Some(gap) ==> a.fw_gap == Some(held(gap) as i64)
            }
        }),
{
    let size: int = worthwhile_size(market, config, min_profit, g);
    let found = projection(p, f);
    let q = market_problem(market, config);
    assert(p.theta =~= q.theta);
    assert(p.implications =~= q.implications);
    assert(p == q);
    if size >= SCALE {
        lemma_on_position(found.profit, size, min_profit);
        lemma_on_position(found.divergence, size, min_profit);
    }
}

/// A profit for one unit, on a whole position.
proof fn lemma_on_position(profit: int, size: int, least: int)
    requires
        i64::MIN <= profit <= i64::MAX,
        0 <= least <= i64::MAX,
    ensures
        ({
            let whole = on_position(profit, size);
            &&& i64::MIN <= whole <= i64::MAX
            &&& i64::MIN * UNIT <= profit * size <= i64::MAX * UNIT ==> whole * UNIT <= profit
                * size < (whole + 1) * UNIT
            &&& whole >= least <==> profit * size >= least * UNIT
        }),
{
    lemma_fundamental_div_mod(profit * size, UNIT as int);
}

/// The orders on a pair name its outcomes: the first YES, the second not.
pub proof fn law_leg_marks(orders: Seq<OrderToExecute>, market: Market, side: OrderSide, size: i64)
    requires
        is_pair(orders, market, side, size),
    ensures
        ends_with(orders[0].token_id@, "_YES"@),
        !ends_with(orders[1].token_id@, "_YES"@),
{
    reveal_strlit("_YES");
    reveal_strlit("_NO");
    let id = market.condition_id@;
    let yes = id + "_YES"@;
    assert(yes.skip(yes.len() - 4) =~= "_YES"@);
    let no = id + "_NO"@;
    if ends_with(no, "_YES"@) {
        let tail = no.skip(no.len() - 4);
        assert(tail[3] == no[no.len() - 1]);
        assert(no[no.len() - 1] == "_NO"@[2]);
        assert(tail[3] == "_YES"@[3]);
    }
}

/// What a pair of orders pays or brings for one unit is the price of the pair.
pub proof fn law_pair_of_orders(
    orders: Seq<OrderToExecute>,
    market: Market,
    kind: SimpleArbitrageType,
    size: i64,
)
    requires
        takes_profit(orders, market, kind, size),
        kind !is Fair,
    ensures
        orders.len() == 2,
        held(orders[0].price + orders[1].price) == market.pair_price(),
        orders[0].size == orders[1].size == size,
        orders[0].side == orders[1].side,
        kind is Underpriced <==> orders[0].side == OrderSide::Buy,
{
}

/// What a pair costs or brings, and the profit, make up what it pays: one for
/// each unit. A pair that is bought costs that much less, and one that is sold
/// brings that much more.
pub proof fn law_pair_pays(
    orders: Seq<OrderToExecute>,
    market: Market,
    min_profit: int,
    size: i64,
)
    requires
        min_profit >= 0,
        SCALE - i64::MAX <= market.yes_price + market.no_price <= i64::MAX,
        takes_profit(orders, market, mispricing(market.pair_price(), min_profit), size),
    ensures
        match mispricing(market.pair_price(), min_profit) {
            SimpleArbitrageType::Underpriced { profit } => profit > min_profit && (orders[0].price
                + orders[1].price) * size + profit * size == SCALE * size,
            SimpleArbitrageType::Overpriced { profit } => profit > min_profit && (orders[0].price
                + orders[1].price) * size - profit * size == SCALE * size,
            SimpleArbitrageType::Fair => true,
        },
{
    let sum: int = market.yes_price + market.no_price;
    match mispricing(market.pair_price(), min_profit) {
        SimpleArbitrageType::Underpriced { profit } => {
            assert(sum * size + profit * size == SCALE * size) by (nonlinear_arith)
                requires
                    sum + profit == SCALE,
            ;
        },
        SimpleArbitrageType::Overpriced { profit } => {
            assert(sum * size - profit * size == SCALE * size) by (nonlinear_arith)
                requires
                    sum - profit == SCALE,
            ;
        },
        SimpleArbitrageType::Fair => {},
    }
}

/// Detection changes nothing but the opportunities and the statistics, and
/// drops no opportunity.
pub proof fn law_scan_adds_only(
    before: AppState,
    markets: Seq<Market>,
    n: int,
    f: spec_fn(int) -> int,
    g: spec_fn(int) -> int,
    after: AppState,
)
    requires
        scanned(before, markets, n, f, g, after),
    ensures
        after.markets == before.markets,
        after.executed_trades == before.executed_trades,
        after.config == before.config,
        after.var_engine == before.var_engine,
        forall|k: Seq<char>| #[trigger] before.opportunities.has(k) ==> after.opportunities.has(k),
        after.stats.opportunities_detected >= before.stats.opportunities_detected,
        after.stats.opportunities_executed == before.stats.opportunities_executed,
        after.stats.opportunities_failed == before.stats.opportunities_failed,
        after.stats.total_profit_usd == before.stats.total_profit_usd,
    decreases n,
{
    if n > 0 {
        let low: int = before.config.min_profit_threshold as int;
        let mid = choose|mid: AppState|
            scanned(before, markets, n - 1, f, g, mid) && #[trigger] checked(
                mid,
                markets[n - 1],
                low,
                f,
                g,
                after,
            );
        law_scan_adds_only(before, markets, n - 1, f, g, mid);
        assert forall|k: Seq<char>| #[trigger] mid.opportunities.has(k) implies after.opportunities.has(
            k,
        ) by {
            let i: int = mid.opportunities.order().index_of(k);
            assert(mid.opportunities.order()[i] == k);
            assert(after.opportunities.order()[i] == k);
        }
    }
}

/// An identifier of ASCII characters, eight or more, can be shown.
proof fn lemma_ascii_id(id: Seq<char>)
    requires
        id.len() >= 8,
        is_ascii_chars(id),
    ensures
        id_showable(id),
{
    is_ascii_chars_encode_utf8(id);
    encode_utf8_valid_utf8(id);
    let bytes = encode_utf8(id);
    assert forall|i: int| 0 <= i < bytes.len() implies #[trigger] bytes[i] <= 0x7f by {
        assert('\0' <= id[i] <= '\u{7f}');
        assert(id[i] as u8 == bytes[i]);
    }
    lemma_ascii_boundary(bytes, 8);
}

/// Bytes of ASCII characters can be cut anywhere.
proof fn lemma_ascii_boundary(bytes: Seq<u8>, index: int)
    requires
        valid_utf8(bytes),
        forall|i: int| 0 <= i < bytes.len() ==> #[trigger] bytes[i] <= 0x7f,
        0 <= index <= bytes.len(),
    ensures
        is_char_boundary(bytes, index),
    decreases index,
{
    if index > 0 {
        assert(bytes[0] <= 0x7f);
        lemma_ascii_boundary(pop_first_scalar(bytes), index - 1);
    }
}

/// What is entered can be shown: where all opportunities can, all still can after
/// any number of markets was checked.
pub proof fn law_detected_can_be_shown(
    before: AppState,
    markets: Seq<Market>,
    n: int,
    f: spec_fn(int) -> int,
    g: spec_fn(int) -> int,
    after: AppState,
)
    requires
        before.wf(),
        opportunities_showable(before.opportunities.records()),
        scanned(before, markets, n, f, g, after),
    ensures
        opportunities_showable(after.opportunities.records()),
{
    before.opportunities.lemma_wf();
    lemma_scan_shows(before, markets, n, f, g, after);
}

proof fn lemma_scan_shows(
    before: AppState,
    markets: Seq<Market>,
    n: int,
    f: spec_fn(int) -> int,
    g: spec_fn(int) -> int,
    after: AppState,
)
    requires
        before.opportunities.order().len() == before.opportunities.records().len(),
        opportunities_showable(before.opportunities.records()),
        scanned(before, markets, n, f, g, after),
    ensures
        after.opportunities.order().len() == after.opportunities.records().len(),
        opportunities_showable(after.opportunities.records()),
    decreases n,
{
    if n > 0 {
        let low: int = before.config.min_profit_threshold as int;
        let market = markets[n - 1];
        let mid = choose|mid: AppState|
            scanned(before, markets, n - 1, f, g, mid) && #[trigger] checked(
                mid,
                markets[n - 1],
                low,
                f,
                g,
                after,
            );
        lemma_scan_shows(before, markets, n - 1, f, g, mid);
        if let Some(a) = appraised(market, mid.config, low, f, g) {
            let (id, at, noted) = choose|id: Seq<char>, at: Timestamp, noted: Timestamp|
                id.len() == 36 && is_ascii_chars(id) && #[trigger] entered(
                    mid,
                    market,
                    a,
                    id,
                    at,
                    noted,
                    after,
                );
            lemma_entry_shows(mid, market, a, id, at, noted, after);
        }
    }
}

proof fn lemma_entry_shows(
    before: AppState,
    market: Market,
    a: Appraisal,
    id: Seq<char>,
    at: Timestamp,
    noted: Timestamp,
    after: AppState,
)
    requires
        before.opportunities.order().len() == before.opportunities.records().len(),
        opportunities_showable(before.opportunities.records()),
        id.len() == 36,
        is_ascii_chars(id),
        entered(before, market, a, id, at, noted, after),
    ensures
        after.opportunities.order().len() == after.opportunities.records().len(),
        opportunities_showable(after.opportunities.records()),
{
    lemma_ascii_id(id);
    let earlier = before.opportunities.records();
    let rows = after.opportunities.records();
    let entry = after.opportunities.at(id);
    assert(entry.id@ == id);
    if before.opportunities.has(id) {
        let place: int = before.opportunities.order().index_of(id);
        assert(before.opportunities.order()[place] == id);
        assert(rows == earlier.update(place, entry));
    } else {
        assert(rows == earlier.push(entry));
    }
    assert forall|i: int| 0 <= i < rows.len() implies id_showable((#[trigger] rows[i]).id@) by {
        assert(rows[i] == entry || (i < earlier.len() && rows[i] == earlier[i]));
        if rows[i] != entry {
            assert(id_showable(earlier[i].id@));
        }
    }
}

/// The probability that both orders fill is one less the exponential of minus the
/// liquidity for one unit of size, rounded down; nothing fills without liquidity, and an
/// empty position is certain to.
pub proof fn law_estimated_fill(liquidity: int, size: int, g: spec_fn(int) -> int, x: int)
    requires
        i64::MIN <= x,
        liquidity > 0 && size > 0 ==> x * size <= -liquidity * SCALE < (x + 1) * size,
    ensures
        liquidity <= 0 ==> estimated_fill(liquidity, size, g) == 0,
        liquidity > 0 && size <= 0 ==> estimated_fill(liquidity, size, g) == SCALE,
        liquidity > 0 && size > 0 ==> estimated_fill(liquidity, size, g) == held(SCALE - g(x)),
{
    if liquidity > 0 && size > 0 {
        let a: int = -liquidity * SCALE;
        assert(a == x * size + (a - x * size) && a - x * size < size) by (nonlinear_arith)
            requires
                a < (x + 1) * size,
        ;
        lemma_fundamental_div_mod_converse(a, size, x, a - x * size);
        assert(x <= 0) by (nonlinear_arith)
            requires
                x * size <= a,
                a < 0,
                size > 0,
        ;
    }
}

/// The position that a mispriced market is worth is the one that its profit, the
/// chance of a fill at the volume of its thinner outcome, the capital allowed and that
/// volume ask for; it does not depend on which outcome is the thinner one.
pub proof fn law_worthwhile_size(
    market: Market,
    swapped: Market,
    config: BotConfig,
    min_profit: int,
    g: spec_fn(int) -> int,
    thin: int,
    profit: int,
)
    requires
        0 <= min_profit,
        thin <= market.yes_volume,
        thin <= market.no_volume,
        thin == market.yes_volume || thin == market.no_volume,
        0 < profit <= i64::MAX,
        min_profit < profit,
        market.pair_price() == SCALE - profit || market.pair_price() == SCALE + profit,
        swapped == (Market {
            yes_price: market.no_price,
            no_price: market.yes_price,
            yes_volume: market.no_volume,
            no_volume: market.yes_volume,
            ..market
        }),
    ensures
        worthwhile_size(market, config, min_profit, g) == kelly_size(
            profit,
            estimated_fill(thin, min_profit, g),
            config.max_position_size as int,
            thin,
        ),
        worthwhile_size(swapped, config, min_profit, g) == worthwhile_size(
            market,
            config,
            min_profit,
            g,
        ),
{
}

/// What is entered is found under its identifier, waits for execution, is of the kind
/// that was appraised and carries its figures and its orders; every other opportunity
/// stays as it was. It is counted once, with the time of its entry.
pub proof fn law_entered(
    before: AppState,
    market: Market,
    a: Appraisal,
    id: Seq<char>,
    at: Timestamp,
    noted: Timestamp,
    after: AppState,
)
    requires
        before.wf(),
        after.wf(),
        entered(before, market, a, id, at, noted, after),
        before.stats.opportunities_detected < u64::MAX,
        a.kind !is Fair,
    ensures
        after.opportunities.has(id),
        ({
            let o = after.opportunities.at(id);
            &&& o.id@ == id
            &&& o.status == OpportunityStatus::Detected
            &&& o.detected_at == at
            &&& a.kind is Underpriced <==> o.opportunity_type is SimpleUnderpriced
            &&& a.kind is Overpriced <==> o.opportunity_type is SimpleOverpriced
            &&& o.guaranteed_profit == a.guaranteed_profit
            &&& o.max_profit == a.max_profit
            &&& o.fw_gap == a.fw_gap
            &&& o.position_size == a.position_size
            &&& o.market_ids@.len() == 1 && o.market_ids@[0] == market.condition_id
            &&& o.orders@.len() == 2
            &&& o.orders@[0].size == o.position_size && o.orders@[1].size == o.position_size
            &&& o.orders@[0].price == market.yes_price && o.orders@[1].price == market.no_price
            &&& o.orders@[0].side == o.orders@[1].side
            &&& o.orders@[0].side == OrderSide::Buy <==> a.kind is Underpriced
        }),
        forall|k: Seq<char>| #[trigger]
            before.opportunities.has(k) && k != id ==> after.opportunities.at(k)
                == before.opportunities.at(k),
        after.stats.opportunities_detected == before.stats.opportunities_detected + 1,
        after.stats.last_opportunity_at == Some(noted),
        after.stats.opportunities_executed == before.stats.opportunities_executed,
        after.stats.opportunities_failed == before.stats.opportunities_failed,
        after.stats.total_profit_usd == before.stats.total_profit_usd,
{
    law_inserted(before.opportunities, id, after.opportunities.at(id), after.opportunities);
}

/// How many of the first `n` markets are worth an opportunity.
pub open spec fn worth_count(
    markets: Seq<Market>,
    config: BotConfig,
    f: spec_fn(int) -> int,
    g: spec_fn(int) -> int,
    n: int,
) -> int
    decreases n,
{
    if n <= 0 {
        0
    } else {
        worth_count(markets, config, f, g, n - 1) + if appraised(
            markets[n - 1],
            config,
            config.min_profit_threshold as int,
            f,
            g,
        ) is Some {
            1int
        } else {
            0int
        }
    }
}

/// A scan counts one more opportunity for every market that is worth one at the
/// configured threshold, and where none is, it changes nothing.
pub proof fn law_scan_counts(
    before: AppState,
    markets: Seq<Market>,
    n: int,
    f: spec_fn(int) -> int,
    g: spec_fn(int) -> int,
    after: AppState,
)
    requires
        scanned(before, markets, n, f, g, after),
        0 <= n,
        before.stats.opportunities_detected + n <= u64::MAX,
    ensures
        after.stats.opportunities_detected == before.stats.opportunities_detected + worth_count(
            markets,
            before.config,
            f,
            g,
            n,
        ),
        0 <= worth_count(markets, before.config, f, g, n) <= n,
        worth_count(markets, before.config, f, g, n) == 0 ==> after == before,
        after.config == before.config,
    decreases n,
{
    if n > 0 {
        let low: int = before.config.min_profit_threshold as int;
        let mid = choose|mid: AppState|
            scanned(before, markets, n - 1, f, g, mid) && #[trigger] checked(
                mid,
                markets[n - 1],
                low,
                f,
                g,
                after,
            );
        law_scan_counts(before, markets, n - 1, f, g, mid);
    }
}

/// Whether an opportunity is what one of the first `n` markets was found to be worth.
pub open spec fn is_found(
    o: ArbitrageOpportunity,
    markets: Seq<Market>,
    config: BotConfig,
    f: spec_fn(int) -> int,
    g: spec_fn(int) -> int,
    n: int,
) -> bool {
    exists|i: int, a: Appraisal, id: Seq<char>, at: Timestamp|
        0 <= i < n && appraised(
            markets[i],
            config,
            config.min_profit_threshold as int,
            f,
            g,
        ) == Some(a) && #[trigger] is_opportunity(o, markets[i], a, id, at)
}

/// What a scan leaves was there before it, or is what one of the markets was found to be
/// worth.
pub proof fn law_scan_finds_only_worth(
    before: AppState,
    markets: Seq<Market>,
    n: int,
    f: spec_fn(int) -> int,
    g: spec_fn(int) -> int,
    after: AppState,
)
    requires
        scanned(before, markets, n, f, g, after),
        0 <= n,
        before.opportunities.records().len() == before.opportunities.order().len(),
    ensures
        after.config == before.config,
        after.opportunities.records().len() == after.opportunities.order().len(),
        forall|o: ArbitrageOpportunity| #[trigger]
            after.opportunities.records().contains(o) ==> before.opportunities.records().contains(o)
                || is_found(o, markets, before.config, f, g, n),
    decreases n,
{
    if n > 0 {
        let low: int = before.config.min_profit_threshold as int;
        let market = markets[n - 1];
        let mid = choose|mid: AppState|
            scanned(before, markets, n - 1, f, g, mid) && #[trigger] checked(
                mid,
                markets[n - 1],
                low,
                f,
                g,
                after,
            );
        law_scan_finds_only_worth(before, markets, n - 1, f, g, mid);
        let rows = after.opportunities.records();
        let earlier = mid.opportunities.records();
        assert forall|o: ArbitrageOpportunity| is_found(o, markets, before.config, f, g, n - 1)
            implies #[trigger] is_found(o, markets, before.config, f, g, n) by {
            let (i, a, id, at) = choose|i: int, a: Appraisal, id: Seq<char>, at: Timestamp|
                0 <= i < n - 1 && appraised(markets[i], before.config, low, f, g) == Some(a)
                    && #[trigger] is_opportunity(o, markets[i], a, id, at);
            assert(is_opportunity(o, markets[i], a, id, at));
        }
        if let Some(a) = appraised(market, mid.config, low, f, g) {
            let (id, at, noted) = choose|id: Seq<char>, at: Timestamp, noted: Timestamp|
                id.len() == 36 && is_ascii_chars(id) && #[trigger] entered(
                    mid,
                    market,
                    a,
                    id,
                    at,
                    noted,
                    after,
                );
            assert(entered(mid, market, a, id, at, noted, after));
            let entry = after.opportunities.at(id);
            assert(is_opportunity(entry, markets[n - 1], a, id, at));
            assert(is_found(entry, markets, before.config, f, g, n));
            if mid.opportunities.has(id) {
                let place: int = mid.opportunities.order().index_of(id);
                assert(mid.opportunities.order()[place] == id);
                assert(rows == earlier.update(place, entry));
            } else {
                assert(rows == earlier.push(entry));
            }
            assert forall|o: ArbitrageOpportunity| #[trigger] rows.contains(o) implies
                before.opportunities.records().contains(o) || is_found(
                o,
                markets,
                before.config,
                f,
                g,
                n,
            ) by {
                let k = choose|k: int| 0 <= k < rows.len() && rows[k] == o;
                if o != entry {
                    assert(earlier[k] == o);
                    assert(earlier.contains(o));
                }
            }
        }
    }
}

/// The clean-up keeps exactly what is recent or being executed.
pub proof fn law_clean_up(before: AppState, at: Timestamp, after: AppState)
    requires
        cleaned(before, at, after),
    ensures
        forall|o: ArbitrageOpportunity| #[trigger]
            after.opportunities.records().contains(o) <==> before.opportunities.records().contains(
                o,
            ) && stays(o, at),
        after.markets == before.markets,
        after.executed_trades == before.executed_trades,
        after.config == before.config,
        after.stats == before.stats,
        after.var_engine == before.var_engine,
{
    let s = before.opportunities.records();
    let keep = staying(s, at);
    assert forall|o: ArbitrageOpportunity| #[trigger]
        kept(s, keep).contains(o) <==> s.contains(o) && stays(o, at) by {
        lemma_kept_staying(s, keep, at, o);
    }
}

proof fn lemma_kept_staying(
    s: Seq<ArbitrageOpportunity>,
    keep: Seq<bool>,
    at: Timestamp,
    o: ArbitrageOpportunity,
)
    requires
        forall|i: int| 0 <= i < s.len() ==> #[trigger] keep[i] == stays(s[i], at),
    ensures
        kept(s, keep).contains(o) <==> s.contains(o) && stays(o, at),
    decreases s.len(),
{
    if s.len() > 0 {
        let rest = s.drop_last();
        let front = kept(rest, keep);
        assert forall|i: int| 0 <= i < rest.len() implies #[trigger] keep[i] == stays(
            rest[i],
            at,
        ) by {
            assert(rest[i] == s[i]);
        }
        lemma_kept_staying(rest, keep, at, o);
        assert(keep[s.len() - 1] == stays(s[s.len() - 1], at));
        assert(s.contains(o) <==> rest.contains(o) || o == s.last()) by {
            if s.contains(o) {
                let k = choose|k: int| 0 <= k < s.len() && s[k] == o;
                if k < rest.len() {
                    assert(rest[k] == o);
                }
            }
            if rest.contains(o) {
                let k = choose|k: int| 0 <= k < rest.len() && rest[k] == o;
                assert(s[k] == o);
            }
            assert(s[s.len() - 1] == s.last());
        }
        if keep[s.len() - 1] {
            let all = front.push(s.last());
            assert(all.contains(o) <==> front.contains(o) || o == s.last()) by {
                if all.contains(o) {
                    let k = choose|k: int| 0 <= k < all.len() && all[k] == o;
                    if k < front.len() {
                        assert(front[k] == o);
                    }
                }
                if front.contains(o) {
                    let k = choose|k: int| 0 <= k < front.len() && front[k] == o;
                    assert(all[k] == o);
                }
                assert(all[front.len() as int] == s.last());
            }
        }
    }
}

/// An opportunity stays for less than five minutes from its detection, to the
/// nanosecond, or while it is being executed.
pub proof fn law_stays(opp: ArbitrageOpportunity, at: Timestamp)
    requires
        0 <= opp.detected_at.subsecond() < 1_000_000_000,
        0 <= at.subsecond() < 1_000_000_000,
    ensures
        ({
            let found = opp.detected_at.seconds() * 1_000_000_000 + opp.detected_at.subsecond();
            let now = at.seconds() * 1_000_000_000 + at.subsecond();
            stays(opp, at) <==> now - found < 300 * 1_000_000_000 || opp.status
                == OpportunityStatus::Executing
        }),
{
}

/// An opportunity that is being executed is never dropped.
pub proof fn law_executing_stays(opp: ArbitrageOpportunity, at: Timestamp)
    requires
        opp.status == OpportunityStatus::Executing,
    ensures
        stays(opp, at),
{
}

} // verus!
