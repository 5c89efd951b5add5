//! The exchange's stream: what its messages say of the markets.

use vstd::prelude::*;
use crate::clock::{now, Timestamp};
use crate::json::{
    amount_member, document, elements, is_null, json_of, member, member_of, parse, quoted,
    quoted_text, read_amount, read_text, text, Json,
};
use crate::table::{inserted, law_inserted, Table};
use crate::text::{can_cut, cuttable, decimal_value, head, head_text, parse_decimal};
use crate::types::{
    depth, total_size, AppState, BookSnapshot, BotConfig, Market, MarketStatus, OrderLevel,
};
use crate::units::{div_down, held, hold, smaller, SCALE};

verus! {

/// The most markets of one subscription.
pub const MAX_SUBSCRIPTION: usize = 100;

// ---------------------------------------------------------------------------
// Which markets to watch
// ---------------------------------------------------------------------------

/// The texts of strings.
pub open spec fn texts(v: Seq<String>) -> Seq<Seq<char>> {
    v.map_values(|s: String| s@)
}

/// Markets to watch in a dry run, or where there is no key for the exchange.
pub fn example_market_ids() -> (r: Vec<String>)
    ensures
        texts(r@) == seq!["0xtest_market_1"@, "0xtest_market_2"@, "0xtest_market_3"@],
{
    let mut ids: Vec<String> = Vec::new();
    ids.push("0xtest_market_1".to_owned());
    ids.push("0xtest_market_2".to_owned());
    ids.push("0xtest_market_3".to_owned());
    assert(texts(ids@) =~= seq!["0xtest_market_1"@, "0xtest_market_2"@, "0xtest_market_3"@]);
    ids
}

/// The markets to watch without asking the exchange: in a dry run, or where there
/// is no key for it. Nothing otherwise, so that the exchange is to be asked.
pub fn offline_market_ids(config: &BotConfig) -> (r: Option<Vec<String>>)
    ensures
        match r {
            Some(ids) => (config.dry_run || config.api_key@.len() == 0) && texts(ids@)
                == seq!["0xtest_market_1"@, "0xtest_market_2"@, "0xtest_market_3"@],
            None => !config.dry_run && config.api_key@.len() > 0,
        },
{
    if config.dry_run || config.api_key.as_str().is_empty() {
        Some(example_market_ids())
    } else {
        None
    }
}

/// Where the exchange lists its active markets, at an address of it.
pub open spec fn markets_address(api: Seq<char>) -> Seq<char> {
    api + "/markets?active=true&closed=false"@
}

/// Where the exchange lists its active markets.
pub fn active_markets_url(config: &BotConfig) -> (r: String)
    ensures
        r@ == markets_address(config.api_url@),
        r@ == config.api_url@ + "/markets?active=true&closed=false"@,
{
    let mut url: String = config.api_url.clone();
    url.append("/markets?active=true&closed=false");
    url
}

/// The identifiers in the first `n` entries of a list of markets; entries
/// without one do not count.
pub open spec fn listed_ids(entries: Seq<Json>, n: int) -> Seq<Seq<char>>
    decreases n,
{
    if n <= 0 {
        Seq::empty()
    } else {
        match member_of(entries[n - 1], "condition_id"@) {
            Some(Json::Text(id)) => listed_ids(entries, n - 1).push(id),
            _ => listed_ids(entries, n - 1),
        }
    }
}

/// The identifiers that the exchange's list of markets gives.
pub open spec fn market_ids_in(reply: Json) -> Seq<Seq<char>> {
    match member_of(reply, "data"@) {
        Some(Json::List(entries)) => listed_ids(entries, entries.len() as int),
        _ => Seq::empty(),
    }
}

/// The identifiers that the exchange's list of markets gives; nothing where it
/// is no JSON document.
pub fn active_market_ids(body: &str) -> (r: Option<Vec<String>>)
    ensures
        match r {
            Some(ids) => document(body@) is Some && texts(ids@) == market_ids_in(
                document(body@)->0,
            ),
            None => document(body@) is None,
        },
{
    let reply: serde_json::Value = match parse(body) {
        Some(v) => v,
        None => {
            return None;
        },
    };
    let mut ids: Vec<String> = Vec::new();
    let entries: Vec<serde_json::Value> = match member(&reply, "data") {
        Some(data) => match elements(&data) {
            Some(list) => list,
            None => {
                assert(texts(ids@) =~= Seq::empty());
                return Some(ids);
            },
        },
        None => {
            assert(texts(ids@) =~= Seq::empty());
            return Some(ids);
        },
    };
    let ghost list = entries@.map_values(|x: serde_json::Value| json_of(x));
    let mut i: usize = 0;
    assert(texts(ids@) =~= listed_ids(list, 0));
    while i < entries.len()
        invariant
            i <= entries.len(),
            list == entries@.map_values(|x: serde_json::Value| json_of(x)),
            texts(ids@) == listed_ids(list, i as int),
        decreases entries.len() - i,
    {
        let ghost so_far = ids@;
        assert(list[i as int] == json_of(entries@[i as int]));
        match read_text(&entries[i], "condition_id") {
            Some(id) => {
                ids.push(id);
                assert(texts(ids@) =~= texts(so_far).push(id@));
            },
            None => {},
        }
        i = i + 1;
    }
    Some(ids)
}

/// The markets of a subscription: no more than it can have.
pub open spec fn subscribed(ids: Seq<String>) -> Seq<String> {
    ids.take(smaller(ids.len() as int, MAX_SUBSCRIPTION as int))
}

/// The markets of a subscription: no more than it can have.
pub fn subscription_ids(ids: &Vec<String>) -> (r: Vec<String>)
    ensures
        r@ == subscribed(ids@),
        r@ == ids@.take(smaller(ids@.len() as int, MAX_SUBSCRIPTION as int)),
{
    let n: usize = if ids.len() < MAX_SUBSCRIPTION { ids.len() } else { MAX_SUBSCRIPTION };
    let mut r: Vec<String> = Vec::new();
    let mut i: usize = 0;
    while i < n
        invariant
            i <= n <= ids.len(),
            r@ == ids@.take(i as int),
        decreases n - i,
    {
        r.push(ids[i].clone());
        i = i + 1;
        assert(r@ =~= ids@.take(i as int));
    }
    r
}

/// The JSON forms of the first `n` texts, separated by commas.
pub open spec fn quoted_list(ids: Seq<Seq<char>>, n: int) -> Seq<char>
    decreases n,
{
    if n <= 0 {
        Seq::empty()
    } else if n == 1 {
        quoted_text(ids[0])
    } else {
        quoted_list(ids, n - 1) + ","@ + quoted_text(ids[n - 1])
    }
}

/// The message that subscribes to markets.
pub open spec fn subscription_text(ids: Seq<Seq<char>>) -> Seq<char> {
    "{\"assets_ids\":["@ + quoted_list(ids, ids.len() as int)
        + "],\"auth\":{},\"type\":\"market\"}"@
}

/// The message that subscribes to as many of some markets as it can.
pub open spec fn subscription_to(ids: Seq<String>) -> Seq<char> {
    subscription_text(texts(subscribed(ids)))
}

/// The message that subscribes to markets: to the first ones, where there are
/// more than one subscription can have.
pub fn subscription_message(ids: &Vec<String>) -> (r: String)
    ensures
        r@ == subscription_to(ids@),
        r@ == subscription_text(
            texts(ids@.take(smaller(ids@.len() as int, MAX_SUBSCRIPTION as int))),
        ),
{
    let chosen: Vec<String> = subscription_ids(ids);
    let ghost all = texts(chosen@);
    let mut list: String = "".to_owned();
    let mut i: usize = 0;
    proof {
        reveal_strlit("");
        assert(list@ =~= quoted_list(all, 0));
    }
    while i < chosen.len()
        invariant
            i <= chosen.len(),
            all == texts(chosen@),
            list@ == quoted_list(all, i as int),
        decreases chosen.len() - i,
    {
        assert(all[i as int] == chosen@[i as int]@);
        let ghost before = list@;
        if i > 0 {
            list.append(",");
        }
        let entry: String = quoted(chosen[i].as_str());
        list.append(entry.as_str());
        assert(i == 0 ==> list@ =~= entry@);
        i = i + 1;
    }
    let mut message: String = "{\"assets_ids\":[".to_owned();
    message.append(list.as_str());
    message.append("],\"auth\":{},\"type\":\"market\"}");
    message
}

// ---------------------------------------------------------------------------
// Order books
// ---------------------------------------------------------------------------

/// All offers of a market, as texts.
pub ghost struct Book {
    pub asset: Seq<char>,
    pub bids: Seq<(Seq<char>, Seq<char>)>,
    pub asks: Seq<(Seq<char>, Seq<char>)>,
    pub timestamp: Option<Seq<char>>,
}

/// The texts of an offer.
pub open spec fn level_view(level: [String; 2]) -> (Seq<char>, Seq<char>) {
    (level@[0]@, level@[1]@)
}

/// The texts of offers.
pub open spec fn levels_view(levels: Seq<[String; 2]>) -> Seq<(Seq<char>, Seq<char>)> {
    levels.map_values(|l: [String; 2]| level_view(l))
}

impl View for BookSnapshot {
    type V = Book;

    open spec fn view(&self) -> Book {
        Book {
            asset: self.asset_id@,
            bids: levels_view(self.bids@),
            asks: levels_view(self.asks@),
            timestamp: match self.timestamp {
                Some(t) => Some(t@),
                None => None,
            },
        }
    }
}

/// Whether a JSON value is an offer: a list of two texts.
pub open spec fn is_level(v: Json) -> bool {
    v matches Json::List(l) && l.len() == 2 && l[0] is Text && l[1] is Text
}

/// The texts of an offer in JSON.
pub open spec fn level_in(v: Json) -> (Seq<char>, Seq<char>) {
    (v->List_0[0]->Text_0, v->List_0[1]->Text_0)
}

/// The offers in an object's member; nothing where it is no list of offers.
pub open spec fn levels_in(v: Json, key: Seq<char>) -> Option<Seq<(Seq<char>, Seq<char>)>> {
    match member_of(v, key) {
        Some(Json::List(l)) => if forall|i: int| 0 <= i < l.len() ==> is_level(#[trigger] l[i]) {
            Some(l.map_values(|x: Json| level_in(x)))
        } else {
            None
        },
        _ => None,
    }
}

/// A book in JSON; nothing where a part is missing or of another kind.
pub open spec fn book_in(v: Json) -> Option<Book> {
    let time = match member_of(v, "timestamp"@) {
        None => Some(None),
        Some(Json::Null) => Some(None),
        Some(Json::Text(t)) => Some(Some(t)),
        Some(_) => None,
    };
    match member_of(v, "asset_id"@) {
        Some(Json::Text(asset)) => match (levels_in(v, "bids"@), levels_in(v, "asks"@), time) {
            (Some(bids), Some(asks), Some(timestamp)) => Some(
                Book { asset, bids, asks, timestamp },
            ),
            _ => None,
        },
        _ => None,
    }
}

/// Reads one offer.
fn read_level(v: &serde_json::Value) -> (r: Option<[String; 2]>)
    ensures
        match r {
            Some(level) => is_level(json_of(*v)) && level_view(level) == level_in(json_of(*v)),
            None => !is_level(json_of(*v)),
        },
{
    let parts: Vec<serde_json::Value> = match elements(v) {
        Some(list) => list,
        None => {
            return None;
        },
    };
    let ghost list = parts@.map_values(|x: serde_json::Value| json_of(x));
    if parts.len() != 2 {
        return None;
    }
    assert(list[0] == json_of(parts@[0]));
    assert(list[1] == json_of(parts@[1]));
    match (text(&parts[0]), text(&parts[1])) {
        (Some(price), Some(size)) => Some([price, size]),
        _ => None,
    }
}

/// Reads the offers in an object's member.
fn read_levels(v: &serde_json::Value, key: &str) -> (r: Option<Vec<[String; 2]>>)
    ensures
        match r {
            Some(levels) => levels_in(json_of(*v), key@) == Some(levels_view(levels@)),
            None => levels_in(json_of(*v), key@) is None,
        },
{
    let entries: Vec<serde_json::Value> = match member(v, key) {
        Some(m) => match elements(&m) {
            Some(list) => list,
            None => {
                return None;
            },
        },
        None => {
            return None;
        },
    };
    let ghost list = entries@.map_values(|x: serde_json::Value| json_of(x));
    let mut levels: Vec<[String; 2]> = Vec::new();
    let mut i: usize = 0;
    while i < entries.len()
        invariant
            i <= entries.len(),
            list == entries@.map_values(|x: serde_json::Value| json_of(x)),
            member_of(json_of(*v), key@) == Some(Json::List(list)),
            levels.len() == i,
            forall|k: int| 0 <= k < i ==> is_level(#[trigger] list[k]),
            forall|k: int|
                0 <= k < i ==> level_view(#[trigger] levels@[k]) == level_in(list[k]),
        decreases entries.len() - i,
    {
        assert(list[i as int] == json_of(entries@[i as int]));
        match read_level(&entries[i]) {
            Some(level) => {
                levels.push(level);
            },
            None => {
                return None;
            },
        }
        i = i + 1;
    }
    assert(levels_view(levels@) =~= list.map_values(|x: Json| level_in(x)));
    Some(levels)
}

/// Reads a book.
pub fn read_book(v: &serde_json::Value) -> (r: Option<BookSnapshot>)
    ensures
        match r {
            Some(book) => book_in(json_of(*v)) == Some(book@),
            None => book_in(json_of(*v)) is None,
        },
{
    let asset_id: String = match read_text(v, "asset_id") {
        Some(t) => t,
        None => {
            return None;
        },
    };
    let bids: Vec<[String; 2]> = match read_levels(v, "bids") {
        Some(l) => l,
        None => {
            return None;
        },
    };
    let asks: Vec<[String; 2]> = match read_levels(v, "asks") {
        Some(l) => l,
        None => {
            return None;
        },
    };
    let timestamp: Option<String> = match member(v, "timestamp") {
        None => None,
        Some(m) => if is_null(&m) {
            None
        } else {
            match text(&m) {
                Some(t) => Some(t),
                None => {
                    return None;
                },
            }
        },
    };
    Some(BookSnapshot { asset_id, bids, asks, timestamp })
}

/// The offer that two texts stand for; nothing where either is no amount.
pub open spec fn offer_of(level: (Seq<char>, Seq<char>)) -> Option<OrderLevel> {
    match (decimal_value(level.0), decimal_value(level.1)) {
        (Some(price), Some(size)) => Some(OrderLevel { price, size }),
        _ => None,
    }
}

/// The offers that the first `n` pairs of texts stand for; those that are no
/// amounts do not count.
pub open spec fn offers(levels: Seq<(Seq<char>, Seq<char>)>, n: int) -> Seq<OrderLevel>
    decreases n,
{
    if n <= 0 {
        Seq::empty()
    } else {
        match offer_of(levels[n - 1]) {
            Some(o) => offers(levels, n - 1).push(o),
            None => offers(levels, n - 1),
        }
    }
}

/// The offers that pairs of texts stand for.
pub open spec fn all_offers(levels: Seq<(Seq<char>, Seq<char>)>) -> Seq<OrderLevel> {
    offers(levels, levels.len() as int)
}

/// The offers that pairs of texts stand for.
pub fn parse_levels(levels: &Vec<[String; 2]>) -> (r: Vec<OrderLevel>)
    ensures
        r@ == all_offers(levels_view(levels@)),
{
    let ghost all = levels_view(levels@);
    let mut r: Vec<OrderLevel> = Vec::new();
    let mut i: usize = 0;
    while i < levels.len()
        invariant
            i <= levels.len(),
            all == levels_view(levels@),
            r@ == offers(all, i as int),
        decreases levels.len() - i,
    {
        assert(all[i as int] == level_view(levels@[i as int]));
        let level: &[String; 2] = &levels[i];
        match (parse_decimal(level[0].as_str()), parse_decimal(level[1].as_str())) {
            (Some(price), Some(size)) => {
                r.push(OrderLevel { price, size });
            },
            _ => {},
        }
        i = i + 1;
    }
    r
}

/// Whether `p` is the highest price of offers.
pub open spec fn is_highest(levels: Seq<OrderLevel>, p: int) -> bool {
    &&& exists|i: int| 0 <= i < levels.len() && (#[trigger] levels[i]).price == p
    &&& forall|i: int| 0 <= i < levels.len() ==> (#[trigger] levels[i]).price <= p
}

/// Whether `p` is the lowest price of offers.
pub open spec fn is_lowest(levels: Seq<OrderLevel>, p: int) -> bool {
    &&& exists|i: int| 0 <= i < levels.len() && (#[trigger] levels[i]).price == p
    &&& forall|i: int| 0 <= i < levels.len() ==> (#[trigger] levels[i]).price >= p
}

fn highest_price(levels: &Vec<OrderLevel>) -> (r: Option<i64>)
    ensures
        match r {
            Some(p) => is_highest(levels@, p as int),
            None => levels@.len() == 0,
        },
{
    if levels.len() == 0 {
        return None;
    }
    let mut best: i64 = levels[0].price;
    let mut i: usize = 1;
    while i < levels.len()
        invariant
            1 <= i <= levels.len(),
            exists|k: int| 0 <= k < i && (#[trigger] levels@[k]).price == best,
            forall|k: int| 0 <= k < i ==> (#[trigger] levels@[k]).price <= best,
        decreases levels.len() - i,
    {
        if levels[i].price > best {
            best = levels[i].price;
        }
        i = i + 1;
    }
    Some(best)
}

fn lowest_price(levels: &Vec<OrderLevel>) -> (r: Option<i64>)
    ensures
        match r {
            Some(p) => is_lowest(levels@, p as int),
            None => levels@.len() == 0,
        },
{
    if levels.len() == 0 {
        return None;
    }
    let mut best: i64 = levels[0].price;
    let mut i: usize = 1;
    while i < levels.len()
        invariant
            1 <= i <= levels.len(),
            exists|k: int| 0 <= k < i && (#[trigger] levels@[k]).price == best,
            forall|k: int| 0 <= k < i ==> (#[trigger] levels@[k]).price >= best,
        decreases levels.len() - i,
    {
        if levels[i].price < best {
            best = levels[i].price;
        }
        i = i + 1;
    }
    Some(best)
}

/// Whether `mid` is the price between the best offers: the middle of the
/// highest bid and the lowest ask, rounded down; the only one of the two that
/// there is; and nothing where there is none.
pub open spec fn is_mid_price(
    bids: Seq<OrderLevel>,
    asks: Seq<OrderLevel>,
    mid: Option<i64>,
) -> bool {
    match mid {
        None => bids.len() == 0 && asks.len() == 0,
        Some(m) => if bids.len() > 0 && asks.len() > 0 {
            exists|b: int, a: int| #[trigger]
                is_highest(bids, b) && #[trigger] is_lowest(asks, a) && m == (b + a) / 2
        } else if bids.len() > 0 {
            is_highest(bids, m as int)
        } else {
            is_lowest(asks, m as int)
        },
    }
}

/// The price between the best offers.
pub fn mid_price(bids: &Vec<OrderLevel>, asks: &Vec<OrderLevel>) -> (r: Option<i64>)
    ensures
        is_mid_price(bids@, asks@, r),
{
    match (highest_price(bids), lowest_price(asks)) {
        (Some(bid), Some(ask)) => {
            let mid: i64 = div_down(bid as i128 + ask as i128, 2) as i64;
            assert(is_highest(bids@, bid as int) && is_lowest(asks@, ask as int));
            Some(mid)
        },
        (Some(bid), None) => Some(bid),
        (None, Some(ask)) => Some(ask),
        (None, None) => None,
    }
}

// ---------------------------------------------------------------------------
// Updates
// ---------------------------------------------------------------------------

/// Whether `after` is the state `before` with other markets.
pub open spec fn only_markets_change(before: AppState, after: AppState) -> bool {
    &&& after.opportunities == before.opportunities
    &&& after.executed_trades == before.executed_trades
    &&& after.config == before.config
    &&& after.stats == before.stats
    &&& after.var_engine == before.var_engine
}

/// Whether `after` are the markets `before` with `market` in the place of the
/// one under `id`.
pub open spec fn replaced(
    before: Table<Market>,
    id: Seq<char>,
    market: Market,
    after: Table<Market>,
) -> bool {
    &&& after.order() == before.order()
    &&& after.records() == before.records().update(before.order().index_of(id), market)
}

/// Whether `m` is the market that a book makes known.
pub open spec fn is_market_of_book(
    m: Market,
    book: Book,
    mid: i64,
    at: Timestamp,
) -> bool {
    &&& m.condition_id@ == book.asset
    &&& m.question@ == "Market "@ + head_text(book.asset, 8)
    &&& m.yes_price == mid
    &&& m.no_price == held(SCALE - mid)
    &&& m.yes_volume == held(depth(all_offers(book.asks), all_offers(book.asks).len() as int))
    &&& m.no_volume == 0
    &&& m.last_updated == at
    &&& m.status == MarketStatus::Active
}

/// Whether a book leads from `before` to `after`, given the price between its
/// best offers: a market that is known takes that price, one that is not is
/// entered, and a book without offers changes nothing.
pub open spec fn book_applied(
    before: AppState,
    book: Book,
    mid: Option<i64>,
    at: Timestamp,
    after: AppState,
) -> bool {
    match mid {
        None => after == before,
        Some(m) => {
            &&& only_markets_change(before, after)
            &&& if before.markets.has(book.asset) {
                replaced(
                    before.markets,
                    book.asset,
                    Market {
                        yes_price: m,
                        last_updated: at,
                        ..before.markets.at(book.asset)
                    },
                    after.markets,
                )
            } else {
                &&& inserted(
                    before.markets,
                    book.asset,
                    after.markets.at(book.asset),
                    after.markets,
                )
                &&& is_market_of_book(after.markets.at(book.asset), book, m, at)
            }
        },
    }
}

/// Whether a book can be entered: not where it makes a market known whose
/// identifier cannot be cut after eight bytes.
pub open spec fn book_enterable(state: AppState, book: Book) -> bool {
    ||| all_offers(book.bids).len() + all_offers(book.asks).len() == 0
    ||| state.markets.has(book.asset)
    ||| cuttable(book.asset, 8)
}

/// Whether a book leads from `before` to `after`.
pub open spec fn book_entered(
    before: AppState,
    book: Book,
    at: Timestamp,
    after: AppState,
) -> bool {
    exists|mid: Option<i64>|
        is_mid_price(all_offers(book.bids), all_offers(book.asks), mid) && #[trigger] book_applied(
            before,
            book,
            mid,
            at,
            after,
        )
}

/// Enters a book at a given time.
pub fn update_order_book(state: &mut AppState, snapshot: &BookSnapshot, at: Timestamp)
    requires
        old(state).wf(),
        book_enterable(*old(state), snapshot@),
    ensures
        final(state).wf(),
        book_entered(*old(state), snapshot@, at, *final(state)),
{
    let ghost before = *state;
    let bids: Vec<OrderLevel> = parse_levels(&snapshot.bids);
    let asks: Vec<OrderLevel> = parse_levels(&snapshot.asks);
    let found: Option<i64> = mid_price(&bids, &asks);
    let mid: i64 = match found {
        Some(m) => m,
        None => {
            assert(book_applied(before, snapshot@, found, at, *state));
            return;
        },
    };
    proof {
        state.markets.lemma_wf();
    }
    match state.markets.find(snapshot.asset_id.as_str()) {
        Some(i) => {
            let market: &mut Market = state.markets.row_mut(i);
            market.yes_price = mid;
            market.last_updated = at;
        },
        None => {
            let mut question: String = "Market ".to_owned();
            question.append(head(snapshot.asset_id.as_str(), 8));
            let market: Market = Market {
                condition_id: snapshot.asset_id.clone(),
                question,
                yes_price: mid,
                no_price: hold(SCALE as i128 - mid as i128),
                yes_volume: hold(total_size(asks.as_slice())),
                no_volume: 0,
                last_updated: at,
                status: MarketStatus::Active,
            };
            let ghost entered = market;
            state.markets.insert(snapshot.asset_id.clone(), market);
            proof {
                law_inserted(before.markets, snapshot@.asset, entered, state.markets);
            }
        },
    }
    assert(book_applied(before, snapshot@, found, at, *state));
}

/// Whether a price leads from `before` to `after`: a market that is known takes
/// it, and NO takes what it leaves of one.
pub open spec fn price_applied(
    before: AppState,
    asset: Seq<char>,
    price: i64,
    at: Timestamp,
    after: AppState,
) -> bool {
    if before.markets.has(asset) {
        &&& only_markets_change(before, after)
        &&& replaced(
            before.markets,
            asset,
            Market {
                yes_price: price,
                no_price: held(SCALE - price) as i64,
                last_updated: at,
                ..before.markets.at(asset)
            },
            after.markets,
        )
    } else {
        after == before
    }
}

/// Enters a price at a given time.
pub fn update_market_price(state: &mut AppState, asset_id: &str, price: i64, at: Timestamp)
    requires
        old(state).wf(),
    ensures
        final(state).wf(),
        price_applied(*old(state), asset_id@, price, at, *final(state)),
{
    proof {
        state.markets.lemma_wf();
    }
    match state.markets.find(asset_id) {
        Some(i) => {
            let market: &mut Market = state.markets.row_mut(i);
            market.yes_price = price;
            market.no_price = hold(SCALE as i128 - price as i128);
            market.last_updated = at;
        },
        None => {},
    }
}

/// The value of the first of two members that an object has.
pub open spec fn first_member(v: Json, a: Seq<char>, b: Seq<char>) -> Option<Json> {
    match member_of(v, a) {
        Some(m) => Some(m),
        None => member_of(v, b),
    }
}

/// The text of the first of two members that an object has; nothing where that
/// is no text.
pub open spec fn first_text(v: Json, a: Seq<char>, b: Seq<char>) -> Option<Seq<char>> {
    match first_member(v, a, b) {
        Some(Json::Text(t)) => Some(t),
        _ => None,
    }
}

/// Reads the text of the first of two members that an object has.
fn read_first_text(v: &serde_json::Value, a: &str, b: &str) -> (r: Option<String>)
    ensures
        match r {
            Some(t) => first_text(json_of(*v), a@, b@) == Some(t@),
            None => first_text(json_of(*v), a@, b@) is None,
        },
{
    match member(v, a) {
        Some(m) => text(&m),
        None => read_text(v, b),
    }
}

/// The identifier that a description of a market gives.
pub open spec fn described_id(v: Json) -> Option<Seq<char>> {
    first_text(v, "condition_id"@, "market"@)
}

/// The question that a description of a market gives.
pub open spec fn described_question(v: Json) -> Seq<char> {
    match first_text(v, "question"@, "description"@) {
        Some(t) => t,
        None => "Unknown Market"@,
    }
}

/// Whether `m` is a market that a description makes known: both outcomes cost a
/// half.
pub open spec fn is_market_of_description(
    m: Market,
    id: Seq<char>,
    v: Json,
    at: Timestamp,
) -> bool {
    &&& m.condition_id@ == id
    &&& m.question@ == described_question(v)
    &&& m.yes_price == 500_000
    &&& m.no_price == 500_000
    &&& m.yes_volume == 0
    &&& m.no_volume == 0
    &&& m.last_updated == at
    &&& m.status == MarketStatus::Active
}

/// Whether a description of a market leads from `before` to `after`: a market
/// that is known takes its question, one that is not is entered, and a
/// description without an identifier changes nothing.
pub open spec fn description_applied(
    before: AppState,
    v: Json,
    at: Timestamp,
    after: AppState,
) -> bool {
    match described_id(v) {
        None => after == before,
        Some(id) => {
            let m = after.markets.at(id);
            &&& only_markets_change(before, after)
            &&& if before.markets.has(id) {
                &&& replaced(before.markets, id, m, after.markets)
                &&& m.question@ == described_question(v)
                &&& m == Market {
                    question: m.question,
                    last_updated: at,
                    ..before.markets.at(id)
                }
            } else {
                &&& inserted(before.markets, id, m, after.markets)
                &&& is_market_of_description(m, id, v, at)
            }
        },
    }
}

/// Enters a description of a market at a given time.
pub fn update_market_from_json(state: &mut AppState, v: &serde_json::Value, at: Timestamp)
    requires
        old(state).wf(),
    ensures
        final(state).wf(),
        description_applied(*old(state), json_of(*v), at, *final(state)),
{
    let ghost before = *state;
    let id: String = match read_first_text(v, "condition_id", "market") {
        Some(t) => t,
        None => {
            return;
        },
    };
    let ghost key = id@;
    let question: String = match read_first_text(v, "question", "description") {
        Some(t) => t,
        None => "Unknown Market".to_owned(),
    };
    proof {
        state.markets.lemma_wf();
    }
    match state.markets.find(id.as_str()) {
        Some(i) => {
            let market: &mut Market = state.markets.row_mut(i);
            market.question = question;
            market.last_updated = at;
            proof {
                assert(state.markets.order()[i as int] == key);
                state.markets.lemma_at(i as int);
            }
        },
        None => {
            let market: Market = Market {
                condition_id: id.clone(),
                question,
                yes_price: 500_000,
                no_price: 500_000,
                yes_volume: 0,
                no_volume: 0,
                last_updated: at,
                status: MarketStatus::Active,
            };
            let ghost entered = market;
            state.markets.insert(id, market);
            proof {
                law_inserted(before.markets, key, entered, state.markets);
            }
        },
    }
}

// ---------------------------------------------------------------------------
// Messages
// ---------------------------------------------------------------------------

/// What a message is about.
pub ghost enum Topic {
    Book,
    Price,
    Description,
    Other,
}

/// What a message is about, by its type.
pub open spec fn topic(v: Json) -> Topic {
    match first_text(v, "event_type"@, "type"@) {
        Some(t) => if t == "book"@ {
            Topic::Book
        } else if t == "price_change"@ || t == "tick_size_change"@ {
            Topic::Price
        } else if t == "market"@ || t == "last_trade_price"@ {
            Topic::Description
        } else {
            Topic::Other
        },
        None => Topic::Other,
    }
}

/// Whether a message leads from `before` to `after`: a book, a price and a
/// description are entered; what lacks a part, and everything else, changes
/// nothing.
pub open spec fn message_applied(
    before: AppState,
    v: Json,
    at: Timestamp,
    after: AppState,
) -> bool {
    match topic(v) {
        Topic::Book => match book_in(v) {
            Some(book) => book_entered(before, book, at, after),
            None => after == before,
        },
        Topic::Price => match (member_of(v, "asset_id"@), amount_member(v, "price"@)) {
            (Some(Json::Text(asset)), Some(price)) => price_applied(
                before,
                asset,
                price,
                at,
                after,
            ),
            _ => after == before,
        },
        Topic::Description => description_applied(before, v, at, after),
        Topic::Other => after == before,
    }
}

/// Whether a message can be entered.
pub open spec fn message_enterable(state: AppState, v: Json) -> bool {
    topic(v) is Book ==> (book_in(v) matches Some(book) ==> book_enterable(state, book))
}

/// Why a message cannot be entered: it makes a market known whose identifier
/// cannot be cut after eight bytes.
#[derive(Debug, Clone)]
pub struct UncuttableId {
    pub asset_id: String,
}

/// Enters a message now.
pub fn process_message(state: &mut AppState, v: &serde_json::Value) -> (r: Result<(), UncuttableId>)
    requires
        old(state).wf(),
    ensures
        final(state).wf(),
        r is Ok <==> message_enterable(*old(state), json_of(*v)),
        r is Ok ==> exists|at: Timestamp| #[trigger]
            message_applied(*old(state), json_of(*v), at, *final(state)),
        r is Err ==> *final(state) == *old(state),
{
    let at: Timestamp = now();
    let ghost before = *state;
    let r: Result<(), UncuttableId> = process_message_at(state, v, at);
    assert(r is Ok ==> message_applied(before, json_of(*v), at, *state));
    r
}

/// Enters a message at a given time.
pub fn process_message_at(state: &mut AppState, v: &serde_json::Value, at: Timestamp) -> (r: Result<
    (),
    UncuttableId,
>)
    requires
        old(state).wf(),
    ensures
        final(state).wf(),
        r is Ok <==> message_enterable(*old(state), json_of(*v)),
        r is Ok ==> message_applied(*old(state), json_of(*v), at, *final(state)),
        r matches Err(e) ==> *final(state) == *old(state) && book_in(json_of(*v)) is Some
            && e.asset_id@ == book_in(json_of(*v))->0.asset,
{
    let kind: String = match read_first_text(v, "event_type", "type") {
        Some(t) => t,
        None => {
            return Ok(());
        },
    };
    if kind == "book".to_owned() {
        if let Some(snapshot) = read_book(v) {
            if !can_enter(state, &snapshot) {
                return Err(UncuttableId { asset_id: snapshot.asset_id });
            }
            update_order_book(state, &snapshot, at);
        }
        return Ok(());
    }
    if kind == "price_change".to_owned() || kind == "tick_size_change".to_owned() {
        if let Some(asset_id) = read_text(v, "asset_id") {
            if let Some(price) = read_amount(v, "price") {
                update_market_price(state, asset_id.as_str(), price, at);
            }
        }
        return Ok(());
    }
    if kind == "market".to_owned() || kind == "last_trade_price".to_owned() {
        update_market_from_json(state, v, at);
    }
    Ok(())
}

/// Whether a book can be entered.
fn can_enter(state: &AppState, snapshot: &BookSnapshot) -> (r: bool)
    requires
        state.wf(),
    ensures
        r == book_enterable(*state, snapshot@),
{
    if parse_levels(&snapshot.bids).len() == 0 && parse_levels(&snapshot.asks).len() == 0 {
        return true;
    }
    if state.markets.find(snapshot.asset_id.as_str()).is_some() {
        return true;
    }
    can_cut(snapshot.asset_id.as_str(), 8)
}

/// Enters the text of a message now. A text that is no JSON document changes
/// nothing.
pub fn receive(state: &mut AppState, message: &str) -> (r: Result<(), UncuttableId>)
    requires
        old(state).wf(),
    ensures
        final(state).wf(),
        document(message@) is None ==> r is Ok && *final(state) == *old(state),
        document(message@) matches Some(v) ==> {
            &&& r is Ok <==> message_enterable(*old(state), v)
            &&& r is Ok ==> exists|at: Timestamp| #[trigger]
                message_applied(*old(state), v, at, *final(state))
            &&& r is Err ==> *final(state) == *old(state)
        },
{
    match parse(message) {
        Some(v) => process_message(state, &v),
        None => Ok(()),
    }
}

// ---------------------------------------------------------------------------
// The stream
// ---------------------------------------------------------------------------

/// What comes over the stream.
#[derive(Debug, Clone)]
pub enum StreamEvent {
    /// The text of a message.
    Text(String),
    /// A sign of life is asked for.
    Ping,
    /// The exchange closes the stream.
    Close,
    /// The stream is broken.
    Broken,
    /// Anything else.
    Other,
}

/// What is to be done on the stream.
#[derive(Debug, Clone, Copy, PartialEq, Eq, Structural)]
pub enum StreamAction {
    /// Wait for the next event.
    Wait,
    /// Give a sign of life.
    Pong,
    /// Leave the stream.
    Leave,
}

/// Takes an event of the stream: a text is entered, a sign of life is given
/// where it is asked for, and a closed or broken stream is left.
pub fn handle_event(state: &mut AppState, event: &StreamEvent) -> (r: Result<
    StreamAction,
    UncuttableId,
>)
    requires
        old(state).wf(),
    ensures
        final(state).wf(),
        !(event is Text) ==> *final(state) == *old(state),
        event is Ping ==> r == Ok::<StreamAction, UncuttableId>(StreamAction::Pong),
        event is Close || event is Broken ==> r == Ok::<StreamAction, UncuttableId>(
            StreamAction::Leave,
        ),
        event is Other ==> r == Ok::<StreamAction, UncuttableId>(StreamAction::Wait),
        event matches StreamEvent::Text(message) ==> {
            &&& r matches Ok(a) ==> a == StreamAction::Wait
            &&& document(message@) is None ==> r is Ok && *final(state) == *old(state)
            &&& document(message@) matches Some(v) ==> {
                &&& r is Ok <==> message_enterable(*old(state), v)
                &&& r is Ok ==> exists|at: Timestamp| #[trigger]
                    message_applied(*old(state), v, at, *final(state))
                &&& r is Err ==> *final(state) == *old(state)
            }
        },
{
    match event {
        StreamEvent::Text(message) => match receive(state, message.as_str()) {
            Ok(_) => Ok(StreamAction::Wait),
            Err(e) => Err(e),
        },
        StreamEvent::Ping => Ok(StreamAction::Pong),
        StreamEvent::Close => Ok(StreamAction::Leave),
        StreamEvent::Broken => Ok(StreamAction::Leave),
        StreamEvent::Other => Ok(StreamAction::Wait),
    }
}

} // verus!
