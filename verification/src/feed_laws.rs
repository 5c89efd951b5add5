//! What holds of the markets as messages come in.

use vstd::prelude::*;
use crate::clock::Timestamp;
use crate::feed::{
    all_offers, book_applied, book_entered, book_in, described_id, description_applied, is_highest,
    is_level, is_lowest, is_market_of_book, is_mid_price, level_in, listed_ids, market_ids_in,
    message_applied, offer_of, offers, only_markets_change, price_applied, replaced, subscribed,
    subscription_text, subscription_to, texts, Book,
};
use crate::json::{member_of, Json};
use crate::table::{law_inserted, Table};
use crate::text::decimal_value;
use crate::types::{depth, AppState, Market, MarketStatus, OrderLevel};
use crate::units::{held, SCALE};

verus! {

/// After a price has come, YES and NO cost one together.
pub proof fn law_price_pairs(
    before: AppState,
    asset: Seq<char>,
    price: i64,
    at: Timestamp,
    after: AppState,
)
    requires
        before.wf(),
        after.wf(),
        before.markets.has(asset),
        SCALE - price <= i64::MAX,
        price_applied(before, asset, price, at, after),
    ensures
        after.markets.at(asset).yes_price == price,
        after.markets.at(asset).yes_price + after.markets.at(asset).no_price == SCALE,
        after.markets.at(asset).last_updated == at,
{
    before.markets.lemma_wf();
}

/// A market that a book makes known has outcomes that cost one together.
pub proof fn law_new_market_is_fair(m: Market, book: Book, mid: i64, at: Timestamp)
    requires
        SCALE - mid <= i64::MAX,
        is_market_of_book(m, book, mid, at),
    ensures
        m.pair_price() == SCALE,
{
}

/// The price between the best offers lies between them.
pub proof fn law_mid_price(bids: Seq<OrderLevel>, asks: Seq<OrderLevel>, mid: i64, b: int, a: int)
    requires
        is_mid_price(bids, asks, Some(mid)),
        is_highest(bids, b),
        is_lowest(asks, a),
        b <= a,
    ensures
        b <= mid <= a,
{
    let (x, y) = choose|x: int, y: int| #[trigger]
        is_highest(bids, x) && #[trigger] is_lowest(asks, y) && mid == (x + y) / 2;
    lemma_highest_unique(bids, b, x);
    lemma_lowest_unique(asks, a, y);
}

proof fn lemma_highest_unique(levels: Seq<OrderLevel>, p: int, q: int)
    requires
        is_highest(levels, p),
        is_highest(levels, q),
    ensures
        p == q,
{
    let i = choose|i: int| 0 <= i < levels.len() && (#[trigger] levels[i]).price == p;
    let j = choose|j: int| 0 <= j < levels.len() && (#[trigger] levels[j]).price == q;
    assert(levels[i].price <= q);
    assert(levels[j].price <= p);
}

proof fn lemma_lowest_unique(levels: Seq<OrderLevel>, p: int, q: int)
    requires
        is_lowest(levels, p),
        is_lowest(levels, q),
    ensures
        p == q,
{
    let i = choose|i: int| 0 <= i < levels.len() && (#[trigger] levels[i]).price == p;
    let j = choose|j: int| 0 <= j < levels.len() && (#[trigger] levels[j]).price == q;
    assert(levels[i].price >= q);
    assert(levels[j].price >= p);
}

/// A message changes nothing but the markets, and no market is forgotten.
pub proof fn law_message_keeps_the_rest(
    before: AppState,
    v: Json,
    at: Timestamp,
    after: AppState,
)
    requires
        before.wf(),
        after.wf(),
        message_applied(before, v, at, after),
    ensures
        only_markets_change(before, after),
        after.opportunities == before.opportunities,
        after.executed_trades == before.executed_trades,
        after.config == before.config,
        after.stats == before.stats,
        after.var_engine == before.var_engine,
        forall|k: Seq<char>| #[trigger] before.markets.has(k) ==> after.markets.has(k),
{
    before.markets.lemma_wf();
    assert forall|k: Seq<char>| #[trigger] before.markets.has(k) implies after.markets.has(k) by {
        let i: int = before.markets.order().index_of(k);
        assert(before.markets.order()[i] == k);
        assert(after.markets.order()[i] == k);
    }
}

/// What a message says of one market leaves every other market as it was.
pub proof fn law_other_markets_untouched(
    before: Table<Market>,
    id: Seq<char>,
    market: Market,
    after: Table<Market>,
    other: Seq<char>,
)
    requires
        before.wf(),
        after.wf(),
        before.has(id),
        replaced(before, id, market, after),
        before.has(other),
        other != id,
    ensures
        after.at(other) == before.at(other),
        after.at(id) == market,
{
    before.lemma_wf();
    let i: int = before.order().index_of(other);
    assert(before.order()[i] == other);
    let j: int = before.order().index_of(id);
    assert(before.order()[j] == id);
}

/// The price between the best offers is the middle of the two, rounded down; where there
/// are offers on one side only, it is the best of them, and without any there is none.
pub proof fn law_mid_price_is_middle(
    bids: Seq<OrderLevel>,
    asks: Seq<OrderLevel>,
    mid: Option<i64>,
    b: int,
    a: int,
)
    requires
        is_mid_price(bids, asks, mid),
        bids.len() > 0 ==> is_highest(bids, b),
        asks.len() > 0 ==> is_lowest(asks, a),
    ensures
        mid is None <==> bids.len() + asks.len() == 0,
        mid matches Some(m) ==> {
            &&& bids.len() > 0 && asks.len() > 0 ==> 2 * m <= b + a < 2 * m + 2
            &&& bids.len() > 0 && asks.len() == 0 ==> m == b
            &&& bids.len() == 0 && asks.len() > 0 ==> m == a
        },
{
    if let Some(m) = mid {
        if bids.len() > 0 && asks.len() > 0 {
            let (x, y) = choose|x: int, y: int| #[trigger]
                is_highest(bids, x) && #[trigger] is_lowest(asks, y) && m == (x + y) / 2;
            lemma_highest_unique(bids, b, x);
            lemma_lowest_unique(asks, a, y);
        } else if bids.len() > 0 {
            lemma_highest_unique(bids, b, m as int);
        } else {
            lemma_lowest_unique(asks, a, m as int);
        }
    }
}

/// A book moves the price of YES of a market that is known, and its time, and nothing
/// else of it; of a market that is not known it gives both prices, and the sum of what
/// is asked as the volume of YES. A book without offers changes nothing.
pub proof fn law_book(
    before: AppState,
    book: Book,
    mid: Option<i64>,
    at: Timestamp,
    after: AppState,
)
    requires
        before.wf(),
        after.wf(),
        book_applied(before, book, mid, at, after),
    ensures
        mid is None ==> after == before,
        mid matches Some(m) ==> {
            let new = after.markets.at(book.asset);
            &&& after.markets.has(book.asset)
            &&& new.yes_price == m
            &&& new.last_updated == at
            &&& before.markets.has(book.asset) ==> {
                let old_one = before.markets.at(book.asset);
                &&& new.no_price == old_one.no_price
                &&& new.yes_volume == old_one.yes_volume
                &&& new.no_volume == old_one.no_volume
                &&& new.question == old_one.question
                &&& new.condition_id == old_one.condition_id
                &&& new.status == old_one.status
            }
            &&& !before.markets.has(book.asset) ==> {
                &&& new.condition_id@ == book.asset
                &&& SCALE - m <= i64::MAX ==> new.yes_price + new.no_price == SCALE
                &&& new.yes_volume == held(
                    depth(all_offers(book.asks), all_offers(book.asks).len() as int),
                )
                &&& new.no_volume == 0
                &&& new.status == MarketStatus::Active
            }
            &&& forall|k: Seq<char>| #[trigger]
                before.markets.has(k) && k != book.asset ==> after.markets.at(k)
                    == before.markets.at(k)
        },
{
    before.markets.lemma_wf();
    if let Some(m) = mid {
        if before.markets.has(book.asset) {
            lemma_replaced(before.markets, book.asset, after.markets);
        } else {
            law_inserted(
                before.markets,
                book.asset,
                after.markets.at(book.asset),
                after.markets,
            );
        }
    }
}

/// One market is replaced: it is found, and every other is as it was.
proof fn lemma_replaced(before: Table<Market>, id: Seq<char>, after: Table<Market>)
    requires
        before.wf(),
        after.wf(),
        before.has(id),
        exists|m: Market| #[trigger] replaced(before, id, m, after),
    ensures
        after.has(id),
        forall|m: Market| #[trigger] replaced(before, id, m, after) ==> after.at(id) == m,
        forall|k: Seq<char>| #[trigger] before.has(k) && k != id ==> after.at(k) == before.at(k),
{
    let m = choose|m: Market| #[trigger] replaced(before, id, m, after);
    before.lemma_wf();
    let j: int = before.order().index_of(id);
    assert(before.order()[j] == id);
    assert(after.order()[j] == id);
    assert forall|k: Seq<char>| #[trigger] before.has(k) && k != id implies after.at(k)
        == before.at(k) by {
        law_other_markets_untouched(before, id, m, after, k);
    }
}

/// A price of a market that is known moves both its prices and its time, and nothing
/// else of it, nor any other market; that of one that is not known changes nothing.
pub proof fn law_price(
    before: AppState,
    asset: Seq<char>,
    price: i64,
    at: Timestamp,
    after: AppState,
)
    requires
        before.wf(),
        after.wf(),
        price_applied(before, asset, price, at, after),
    ensures
        !before.markets.has(asset) ==> after == before,
        before.markets.has(asset) ==> {
            let new = after.markets.at(asset);
            let old_one = before.markets.at(asset);
            &&& new.yes_price == price
            &&& SCALE - price <= i64::MAX ==> new.yes_price + new.no_price == SCALE
            &&& new.last_updated == at
            &&& new.yes_volume == old_one.yes_volume
            &&& new.no_volume == old_one.no_volume
            &&& new.question == old_one.question
            &&& new.condition_id == old_one.condition_id
            &&& new.status == old_one.status
            &&& forall|k: Seq<char>| #[trigger]
                before.markets.has(k) && k != asset ==> after.markets.at(k) == before.markets.at(k)
        },
{
    before.markets.lemma_wf();
    if before.markets.has(asset) {
        lemma_replaced(before.markets, asset, after.markets);
    }
}

/// A description of a market that is known changes its question and its time, and leaves
/// its prices, its volumes and every other market alone; one of a market that is not
/// known enters it with both outcomes at a half and no volume. The identifier is the
/// member `condition_id`, or `market` where there is no such member.
pub proof fn law_description(before: AppState, v: Json, at: Timestamp, after: AppState)
    requires
        before.wf(),
        after.wf(),
        description_applied(before, v, at, after),
    ensures
        forall|id: Seq<char>|
            (member_of(v, "condition_id"@) == Some(Json::Text(id)) || member_of(
                v,
                "condition_id"@,
            ) is None && member_of(v, "market"@) == Some(Json::Text(id))) ==> {
                let new = #[trigger] after.markets.at(id);
                &&& after.markets.has(id)
                &&& new.last_updated == at
                &&& member_of(v, "question"@) matches Some(Json::Text(q)) ==> new.question@ == q
                &&& before.markets.has(id) ==> {
                    let old_one = before.markets.at(id);
                    &&& new.yes_price == old_one.yes_price
                    &&& new.no_price == old_one.no_price
                    &&& new.yes_volume == old_one.yes_volume
                    &&& new.no_volume == old_one.no_volume
                    &&& new.condition_id == old_one.condition_id
                    &&& new.status == old_one.status
                }
                &&& !before.markets.has(id) ==> {
                    &&& new.condition_id@ == id
                    &&& new.yes_price == new.no_price
                    &&& new.yes_price + new.no_price == SCALE
                    &&& new.yes_volume == 0 && new.no_volume == 0
                    &&& new.status == MarketStatus::Active
                }
                &&& forall|k: Seq<char>| #[trigger]
                    before.markets.has(k) && k != id ==> after.markets.at(k) == before.markets.at(k)
            },
        member_of(v, "condition_id"@) is None && member_of(v, "market"@) is None ==> after
            == before,
{
    before.markets.lemma_wf();
    if let Some(id) = described_id(v) {
        let new = after.markets.at(id);
        if before.markets.has(id) {
            assert(replaced(before.markets, id, new, after.markets));
            lemma_replaced(before.markets, id, after.markets);
        } else {
            law_inserted(before.markets, id, new, after.markets);
        }
    }
}

/// The identifiers of a list of markets are those of its entries that have one; where all
/// have one, there are as many as entries.
pub proof fn law_listed_ids(entries: Seq<Json>, id: Seq<char>)
    ensures
        listed_ids(entries, entries.len() as int).contains(id) <==> exists|i: int|
            0 <= i < entries.len() && member_of(#[trigger] entries[i], "condition_id"@) == Some(
                Json::Text(id),
            ),
        listed_ids(entries, entries.len() as int).len() <= entries.len(),
        (forall|i: int|
            0 <= i < entries.len() ==> (member_of(#[trigger] entries[i], "condition_id"@) matches Some(
                Json::Text(_),
            ))) ==> listed_ids(entries, entries.len() as int).len() == entries.len(),
{
    lemma_listed_ids(entries, id, entries.len() as int);
}

proof fn lemma_listed_ids(entries: Seq<Json>, id: Seq<char>, n: int)
    requires
        0 <= n <= entries.len(),
    ensures
        listed_ids(entries, n).contains(id) <==> exists|i: int|
            0 <= i < n && member_of(#[trigger] entries[i], "condition_id"@) == Some(Json::Text(id)),
        listed_ids(entries, n).len() <= n,
        (forall|i: int|
            0 <= i < n ==> (member_of(#[trigger] entries[i], "condition_id"@) matches Some(
                Json::Text(_),
            ))) ==> listed_ids(entries, n).len() == n,
    decreases n,
{
    if n > 0 {
        lemma_listed_ids(entries, id, n - 1);
        let front = listed_ids(entries, n - 1);
        let all = listed_ids(entries, n);
        assert(entries[n - 1] == entries[n - 1]);
        match member_of(entries[n - 1], "condition_id"@) {
            Some(Json::Text(t)) => {
                assert(all == front.push(t));
                assert(all[front.len() as int] == t);
                if front.contains(id) {
                    let k = choose|k: int| 0 <= k < front.len() && front[k] == id;
                    assert(all[k] == id);
                }
                if all.contains(id) {
                    let k = choose|k: int| 0 <= k < all.len() && all[k] == id;
                    if k < front.len() {
                        assert(front[k] == id);
                    }
                }
            },
            _ => {},
        }
    }
}

/// The offers that texts stand for: each stands for its price and its size where both
/// are amounts, in their order, and those that are none are left out.
pub proof fn law_offers(levels: Seq<(Seq<char>, Seq<char>)>, i: int)
    requires
        0 <= i < levels.len(),
    ensures
        decimal_value(levels[i].0) is Some && decimal_value(levels[i].1) is Some
            ==> all_offers(levels).contains(
            OrderLevel { price: decimal_value(levels[i].0)->0, size: decimal_value(levels[i].1)->0 },
        ),
        all_offers(levels).len() <= levels.len(),
        (forall|k: int|
            0 <= k < levels.len() ==> decimal_value((#[trigger] levels[k]).0) is Some
                && decimal_value(levels[k].1) is Some) ==> all_offers(levels).len() == levels.len()
            && all_offers(levels)[i] == (OrderLevel {
            price: decimal_value(levels[i].0)->0,
            size: decimal_value(levels[i].1)->0,
        }),
{
    lemma_offers(levels, i, levels.len() as int);
}

proof fn lemma_offers(levels: Seq<(Seq<char>, Seq<char>)>, i: int, n: int)
    requires
        0 <= i,
        0 <= n <= levels.len(),
    ensures
        i < n && decimal_value(levels[i].0) is Some && decimal_value(levels[i].1) is Some
            ==> offers(levels, n).contains(
            OrderLevel { price: decimal_value(levels[i].0)->0, size: decimal_value(levels[i].1)->0 },
        ),
        offers(levels, n).len() <= n,
        (forall|k: int|
            0 <= k < n ==> decimal_value((#[trigger] levels[k]).0) is Some && decimal_value(
                levels[k].1,
            ) is Some) ==> offers(levels, n).len() == n && (i < n ==> offers(levels, n)[i] == (
        OrderLevel { price: decimal_value(levels[i].0)->0, size: decimal_value(levels[i].1)->0 })),
    decreases n,
{
    if n > 0 {
        lemma_offers(levels, i, n - 1);
        let front = offers(levels, n - 1);
        let all = offers(levels, n);
        assert(levels[n - 1] == levels[n - 1]);
        match offer_of(levels[n - 1]) {
            Some(o) => {
                assert(all == front.push(o));
                assert(all[front.len() as int] == o);
                if i < n - 1 {
                    let x = OrderLevel {
                        price: decimal_value(levels[i].0)->0,
                        size: decimal_value(levels[i].1)->0,
                    };
                    if front.contains(x) {
                        let k = choose|k: int| 0 <= k < front.len() && front[k] == x;
                        assert(all[k] == x);
                    }
                }
            },
            None => {},
        }
    }
}

/// A message of no known type changes nothing, and neither does one that is no object.
pub proof fn law_other_messages(before: AppState, v: Json, at: Timestamp, after: AppState)
    requires
        message_applied(before, v, at, after),
        v is Object ==> {
            let kind = if member_of(v, "event_type"@) is Some {
                member_of(v, "event_type"@)
            } else {
                member_of(v, "type"@)
            };
            kind matches Some(Json::Text(t)) ==> t != "book"@ && t != "price_change"@ && t
                != "tick_size_change"@ && t != "market"@ && t != "last_trade_price"@
        },
    ensures
        after == before,
{
}

/// A message of a price sets the price of YES of the market that it names, where that is
/// known, and NO to the rest of one; one whose price is no number changes nothing.
pub proof fn law_price_message(
    before: AppState,
    v: Json,
    asset: Seq<char>,
    at: Timestamp,
    after: AppState,
)
    requires
        before.wf(),
        after.wf(),
        message_applied(before, v, at, after),
        member_of(v, "event_type"@) == Some(Json::Text("price_change"@)) || member_of(
            v,
            "event_type"@,
        ) == Some(Json::Text("tick_size_change"@)),
        member_of(v, "asset_id"@) == Some(Json::Text(asset)),
    ensures
        !before.markets.has(asset) ==> after == before,
        member_of(v, "price"@) is None ==> after == before,
        member_of(v, "price"@) matches Some(m) ==> m !is Number ==> after == before,
        member_of(v, "price"@) matches Some(Json::Number(t)) ==> (decimal_value(t) matches Some(x)
            ==> before.markets.has(asset) && SCALE - x <= i64::MAX ==> after.markets.at(
            asset,
        ).yes_price == x && after.markets.at(asset).no_price == SCALE - x && after.markets.at(
            asset,
        ).last_updated == at),
{
    reveal_strlit("price_change");
    reveal_strlit("tick_size_change");
    reveal_strlit("book");
    assert("price_change"@.len() != "book"@.len());
    assert("tick_size_change"@.len() != "book"@.len());
    if let Some(Json::Number(t)) = member_of(v, "price"@) {
        if let Some(x) = decimal_value(t) {
            law_price(before, asset, x, at, after);
        }
    }
}

/// A message with a book enters it; one that lacks a part of it changes nothing.
pub proof fn law_book_message(
    before: AppState,
    v: Json,
    at: Timestamp,
    after: AppState,
)
    requires
        message_applied(before, v, at, after),
        member_of(v, "event_type"@) == Some(Json::Text("book"@)),
    ensures
        member_of(v, "asset_id"@) is None || member_of(v, "bids"@) is None || member_of(v, "asks"@)
            is None ==> after == before,
        book_in(v) matches Some(book) ==> {
            &&& member_of(v, "asset_id"@) == Some(Json::Text(book.asset))
            &&& book_entered(before, book, at, after)
        },
{
}

/// A subscription is to the first hundred markets at most: what comes behind them does
/// not change its message, and of fewer none is left out.
pub proof fn law_subscription(ids: Seq<String>, more: Seq<String>)
    ensures
        ids.len() <= 100 ==> subscribed(ids) == ids,
        subscribed(ids).len() <= 100,
        ids.len() >= 100 ==> subscribed(ids + more) == subscribed(ids),
        ids.len() >= 100 ==> subscription_to(ids + more) == subscription_to(ids),
        ids.len() >= 100 ==> subscription_to(ids) == subscription_text(texts(ids.take(100))),
        ids.len() <= 100 ==> subscription_to(ids) == subscription_text(texts(ids)),
{
    if ids.len() <= 100 {
        assert(subscribed(ids) =~= ids);
    }
    if ids.len() >= 100 {
        assert((ids + more).take(100) =~= ids.take(100));
    }
}

/// Whether a JSON value is a list of the two given texts.
pub open spec fn is_pair_of(v: Json, price: Seq<char>, size: Seq<char>) -> bool {
    v == Json::List(seq![Json::Text(price), Json::Text(size)])
}

/// A book is read exactly as it is written: its identifier, every bid and every ask in its
/// place, and its time where it has one.
pub proof fn law_book_reads(v: Json, asset: Seq<char>, bids: Seq<Json>, asks: Seq<Json>, i: int)
    requires
        member_of(v, "asset_id"@) == Some(Json::Text(asset)),
        member_of(v, "bids"@) == Some(Json::List(bids)),
        member_of(v, "asks"@) == Some(Json::List(asks)),
    ensures
        book_in(v) matches Some(book) ==> {
            &&& book.asset == asset
            &&& book.bids.len() == bids.len()
            &&& book.asks.len() == asks.len()
            &&& 0 <= i < bids.len() ==> is_pair_of(bids[i], book.bids[i].0, book.bids[i].1)
            &&& 0 <= i < asks.len() ==> is_pair_of(asks[i], book.asks[i].0, book.asks[i].1)
            &&& member_of(v, "timestamp"@) matches Some(Json::Text(t)) ==> book.timestamp == Some(t)
            &&& member_of(v, "timestamp"@) is None ==> book.timestamp is None
        },
        bids.len() == 0 && asks.len() == 0 && member_of(v, "timestamp"@) is None ==> book_in(
            v,
        ) is Some,
{
    if let Some(book) = book_in(v) {
        if 0 <= i < bids.len() {
            lemma_level_reads(bids[i]);
        }
        if 0 <= i < asks.len() {
            lemma_level_reads(asks[i]);
        }
    }
}

proof fn lemma_level_reads(v: Json)
    requires
        is_level(v),
    ensures
        is_pair_of(v, level_in(v).0, level_in(v).1),
{
    assert(v->List_0 =~= seq![Json::Text(level_in(v).0), Json::Text(level_in(v).1)]);
}

/// The markets in a reply of the exchange are those of the list under `data`; without such
/// a list there are none.
pub proof fn law_markets_of_reply(reply: Json, entries: Seq<Json>, id: Seq<char>)
    ensures
        member_of(reply, "data"@) == Some(Json::List(entries)) ==> (market_ids_in(reply).contains(id)
            <==> exists|i: int|
            0 <= i < entries.len() && member_of(#[trigger] entries[i], "condition_id"@) == Some(
                Json::Text(id),
            )),
        member_of(reply, "data"@) is None ==> market_ids_in(reply).len() == 0,
{
    law_listed_ids(entries, id);
}

} // verus!
