use polymarket_bot::clock::Timestamp;
use polymarket_bot::dashboard::{
    get_markets, get_opportunities, get_risk_metrics, get_stats, get_trades,
};
use polymarket_bot::feed::{
    active_market_ids, active_markets_url, example_market_ids, handle_event, mid_price,
    offline_market_ids, parse_levels, process_message, process_message_at, read_book, receive,
    subscription_ids, subscription_message, update_market_from_json, update_market_price, update_order_book,
    StreamAction, StreamEvent,
};
use polymarket_bot::types::{
    AppState, ArbitrageOpportunity, ArbitrageType, BookSnapshot, BotConfig, ExecutedTrade, Market,
    MarketStatus, OpportunityStatus, OrderLevel, Settings,
};
use serde_json::Value;

fn micros(x: f64) -> i64 {
    (x * 1e6).round() as i64
}

fn at(secs: i64) -> Timestamp {
    Timestamp::new(secs, 0).unwrap()
}

fn config(key: &str) -> BotConfig {
    BotConfig::from_env_or_default(&Settings {
        polymarket_ws_url: None,
        polymarket_api_url: None,
        polymarket_api_key: Some(key.to_string()),
        min_profit: None,
        max_position: None,
        dashboard_port: None,
        dry_run: None,
        daily_var_limit: None,
        total_capital: None,
        min_profit_var_ratio: None,
    })
}

fn json(text: &str) -> Value {
    serde_json::from_str(text).unwrap()
}

fn market(id: &str, yes: f64, no: f64) -> Market {
    Market {
        condition_id: id.to_string(),
        question: "q".to_string(),
        yes_price: micros(yes),
        no_price: micros(no),
        yes_volume: 0,
        no_volume: 0,
        last_updated: at(0),
        status: MarketStatus::Active,
    }
}

fn level(price: &str, size: &str) -> [String; 2] {
    [price.to_string(), size.to_string()]
}

#[test]
fn markets_to_watch() {
    assert_eq!(
        example_market_ids(),
        vec!["0xtest_market_1", "0xtest_market_2", "0xtest_market_3"]
    );
    assert_eq!(offline_market_ids(&config("")).unwrap().len(), 3);
    // A dry run asks nothing of the exchange, with a key or without.
    assert_eq!(offline_market_ids(&config("key")).unwrap().len(), 3);
    let mut live = config("key");
    live.dry_run = false;
    assert!(offline_market_ids(&live).is_none());
    live.api_key = String::new();
    assert_eq!(offline_market_ids(&live).unwrap()[2], "0xtest_market_3");
    assert_eq!(
        active_markets_url(&config("")),
        "https://clob.polymarket.com/markets?active=true&closed=false"
    );
    let body = r#"{"data":[{"condition_id":"a"},{"x":1},{"condition_id":5},{"condition_id":"b"}]}"#;
    assert_eq!(active_market_ids(body).unwrap(), vec!["a", "b"]);
    assert!(active_market_ids("{}").unwrap().is_empty());
    assert!(active_market_ids(r#"{"data":7}"#).unwrap().is_empty());
    assert!(active_market_ids("oops").is_none());
    let many: Vec<String> = (0..150).map(|i| i.to_string()).collect();
    let subscribed = subscription_ids(&many);
    assert_eq!(subscribed.len(), 100);
    assert_eq!(subscribed[99], "99");
    assert_eq!(subscription_ids(&vec!["a".to_string()]), vec!["a"]);
    assert_eq!(
        subscription_message(&vec!["a\nb".to_string(), "c".to_string()]),
        r#"{"assets_ids":["a\nb","c"],"auth":{},"type":"market"}"#
    );
    assert_eq!(
        subscription_message(&vec![]),
        r#"{"assets_ids":[],"auth":{},"type":"market"}"#
    );
}

#[test]
fn levels_and_mid_prices() {
    let levels = parse_levels(&vec![
        level("0.62", "500.00"),
        level("x", "1"),
        level("0.61", "y"),
        level("0.60", "250"),
    ]);
    assert_eq!(levels.len(), 2);
    assert_eq!(levels[1], OrderLevel { price: micros(0.60), size: micros(250.0) });
    let asks = vec![OrderLevel { price: micros(0.66), size: 1 }, OrderLevel { price: micros(0.64), size: 1 }];
    assert_eq!(mid_price(&levels, &asks), Some(micros(0.63)));
    assert_eq!(mid_price(&levels, &vec![]), Some(micros(0.62)));
    assert_eq!(mid_price(&vec![], &asks), Some(micros(0.64)));
    assert_eq!(mid_price(&vec![], &vec![]), None);
}

#[test]
fn books_in_json() {
    let ok = r#"{"asset_id":"a","bids":[["0.5","10"]],"asks":[],"timestamp":"7","more":1}"#;
    let book = read_book(&json(ok)).unwrap();
    assert_eq!(book.asset_id, "a");
    assert_eq!(book.bids, vec![level("0.5", "10")]);
    assert!(book.asks.is_empty());
    assert_eq!(book.timestamp, Some("7".to_string()));
    let null = r#"{"asset_id":"a","bids":[],"asks":[],"timestamp":null}"#;
    assert!(read_book(&json(null)).unwrap().timestamp.is_none());
    for bad in [
        r#"{"bids":[],"asks":[]}"#,
        r#"{"asset_id":1,"bids":[],"asks":[]}"#,
        r#"{"asset_id":"a","asks":[]}"#,
        r#"{"asset_id":"a","bids":[],"asks":{}}"#,
        r#"{"asset_id":"a","bids":[["1"]],"asks":[]}"#,
        r#"{"asset_id":"a","bids":[["1","2","3"]],"asks":[]}"#,
        r#"{"asset_id":"a","bids":[[1,2]],"asks":[]}"#,
        r#"{"asset_id":"a","bids":[],"asks":[],"timestamp":7}"#,
    ] {
        assert!(read_book(&json(bad)).is_none(), "{}", bad);
    }
}

#[test]
fn a_book_makes_a_market_known() {
    let mut state = AppState::new(config(""));
    let book = BookSnapshot {
        asset_id: "0x123456789".to_string(),
        bids: vec![level("0.40", "5"), level("0.42", "5")],
        asks: vec![level("0.46", "30"), level("0.44", "10")],
        timestamp: None,
    };
    update_order_book(&mut state, &book, at(9));
    let m = state.markets.get("0x123456789").unwrap();
    assert_eq!(m.question, "Market 0x123456");
    assert_eq!(m.yes_price, micros(0.43));
    assert_eq!(m.no_price, micros(0.57));
    assert_eq!(m.yes_volume, micros(40.0));
    assert_eq!(m.no_volume, 0);
    assert_eq!(m.last_updated, at(9));
    assert_eq!(m.status, MarketStatus::Active);
    let next = BookSnapshot {
        asset_id: "0x123456789".to_string(),
        bids: vec![level("0.50", "5")],
        asks: vec![],
        timestamp: None,
    };
    update_order_book(&mut state, &next, at(10));
    let m = state.markets.get("0x123456789").unwrap();
    assert_eq!(m.yes_price, micros(0.50));
    assert_eq!(m.no_price, micros(0.57));
    assert_eq!(m.yes_volume, micros(40.0));
    assert_eq!(m.last_updated, at(10));
    assert_eq!(state.markets.len(), 1);
}

#[test]
fn prices_come_in_pairs() {
    let mut state = AppState::new(config(""));
    state.markets.insert("a".to_string(), market("a", 0.1, 0.1));
    update_market_price(&mut state, "a", micros(0.3), at(4));
    let m = state.markets.get("a").unwrap();
    assert_eq!(m.yes_price + m.no_price, micros(1.0));
    assert_eq!(m.last_updated, at(4));
    update_market_price(&mut state, "b", micros(0.3), at(4));
    assert_eq!(state.markets.len(), 1);
}

#[test]
fn descriptions_of_markets() {
    let mut state = AppState::new(config(""));
    update_market_from_json(&mut state, &json(r#"{"market":"a","description":"why"}"#), at(1));
    let m = state.markets.get("a").unwrap();
    assert_eq!(m.question, "why");
    assert_eq!((m.yes_price, m.no_price), (micros(0.5), micros(0.5)));
    update_market_from_json(&mut state, &json(r#"{"condition_id":"a","question":"how"}"#), at(2));
    let m = state.markets.get("a").unwrap();
    assert_eq!(m.question, "how");
    assert_eq!(m.last_updated, at(2));
    update_market_from_json(&mut state, &json(r#"{"condition_id":"a","question":3}"#), at(3));
    assert_eq!(state.markets.get("a").unwrap().question, "Unknown Market");
    // The first member decides, even where it is no text.
    update_market_from_json(&mut state, &json(r#"{"condition_id":1,"market":"z"}"#), at(3));
    assert_eq!(state.markets.len(), 1);
}

#[test]
fn messages_are_told_apart() {
    let mut state = AppState::new(config(""));
    let book = r#"{"event_type":"book","asset_id":"asset-01","bids":[["0.2","1"]],"asks":[]}"#;
    process_message_at(&mut state, &json(book), at(1)).unwrap();
    assert_eq!(state.markets.get("asset-01").unwrap().yes_price, micros(0.2));
    let price = r#"{"type":"price_change","asset_id":"asset-01","price":0.25}"#;
    process_message_at(&mut state, &json(price), at(2)).unwrap();
    assert_eq!(state.markets.get("asset-01").unwrap().no_price, micros(0.75));
    let tick = r#"{"type":"tick_size_change","asset_id":"asset-01","price":1}"#;
    process_message_at(&mut state, &json(tick), at(3)).unwrap();
    assert_eq!(state.markets.get("asset-01").unwrap().no_price, 0);
    // A price that is a text does not count.
    let text = r#"{"type":"price_change","asset_id":"asset-01","price":"0.5"}"#;
    process_message_at(&mut state, &json(text), at(4)).unwrap();
    assert_eq!(state.markets.get("asset-01").unwrap().last_updated, at(3));
    let info = r#"{"event_type":"last_trade_price","market":"asset-01","question":"what"}"#;
    process_message(&mut state, &json(info)).unwrap();
    assert_eq!(state.markets.get("asset-01").unwrap().question, "what");
    for other in [r#"{"event_type":"else"}"#, r#"{"event_type":5,"type":"book"}"#, "[]", "null"] {
        process_message(&mut state, &json(other)).unwrap();
    }
    assert_eq!(state.markets.len(), 1);
}

#[test]
fn identifiers_that_cannot_be_cut() {
    let mut state = AppState::new(config(""));
    let bad = r#"{"event_type":"book","asset_id":"1234567ñ","bids":[["0.2","1"]],"asks":[]}"#;
    let e = process_message(&mut state, &json(bad)).unwrap_err();
    assert_eq!(e.asset_id, "1234567ñ");
    assert_eq!(state.markets.len(), 0);
    // Without offers nothing is cut.
    let empty = r#"{"event_type":"book","asset_id":"1234567ñ","bids":[],"asks":[]}"#;
    assert!(process_message(&mut state, &json(empty)).is_ok());
    // A market that is known keeps its question.
    state.markets.insert("1234567ñ".to_string(), market("1234567ñ", 0.1, 0.1));
    assert!(process_message(&mut state, &json(bad)).is_ok());
    assert_eq!(state.markets.get("1234567ñ").unwrap().yes_price, micros(0.2));
}

#[test]
fn events_of_the_stream() {
    let mut state = AppState::new(config(""));
    assert_eq!(handle_event(&mut state, &StreamEvent::Ping).unwrap(), StreamAction::Pong);
    assert_eq!(handle_event(&mut state, &StreamEvent::Close).unwrap(), StreamAction::Leave);
    assert_eq!(handle_event(&mut state, &StreamEvent::Broken).unwrap(), StreamAction::Leave);
    assert_eq!(handle_event(&mut state, &StreamEvent::Other).unwrap(), StreamAction::Wait);
    let text = StreamEvent::Text(r#"{"type":"market","market":"m"}"#.to_string());
    assert_eq!(handle_event(&mut state, &text).unwrap(), StreamAction::Wait);
    assert_eq!(state.markets.len(), 1);
    assert!(receive(&mut state, "no json").is_ok());
    assert_eq!(state.markets.len(), 1);
}

#[test]
fn statistics_that_are_shown() {
    let mut state = AppState::new(config(""));
    state.markets.insert("a".to_string(), market("a", 0.1, 0.1));
    state.stats.opportunities_detected = 3;
    state.stats.total_profit_usd = micros(1.25);
    assert!(get_stats(&state).last_opportunity_at.is_none());
    state.stats.last_opportunity_at = Some(at(0));
    let s = get_stats(&state);
    assert_eq!(s.opportunities_detected, 3);
    assert_eq!(s.total_profit_usd, micros(1.25));
    assert_eq!(s.markets_monitored, 1);
    assert_eq!(s.active_opportunities, 0);
    assert_eq!(s.last_opportunity_at, Some("1970-01-01T00:00:00+00:00".to_string()));
}

#[test]
fn markets_that_are_shown() {
    let mut state = AppState::new(config(""));
    for i in 0..60 {
        let id = format!("market-number-{:02}", i);
        let mut m = market(&id, 0.5, 0.5 + (i as f64) / 100.0);
        m.question = "x".repeat(70);
        state.markets.insert(id, m);
    }
    let shown = get_markets(&state).unwrap();
    assert_eq!(shown.len(), 50);
    assert_eq!(shown[0].deviation, micros(0.59));
    assert_eq!(shown[49].deviation, micros(0.10));
    assert_eq!(shown[0].condition_id, "market-numbe");
    assert_eq!(shown[0].question.len(), 60);
    assert_eq!(shown[0].price_sum, micros(1.59));
    assert_eq!(shown[0].last_updated, "1970-01-01T00:00:00+00:00");
    state.markets.insert("12345678901ñ".to_string(), market("12345678901ñ", 0.5, 0.5));
    assert!(get_markets(&state).is_none());
}

fn opportunity(id: &str, profit: f64, size: f64) -> ArbitrageOpportunity {
    ArbitrageOpportunity {
        id: id.to_string(),
        opportunity_type: ArbitrageType::SimpleOverpriced,
        market_ids: vec![],
        guaranteed_profit: micros(profit),
        max_profit: micros(profit),
        fw_gap: None,
        position_size: micros(size),
        orders: vec![],
        detected_at: at(0),
        status: OpportunityStatus::Expired,
    }
}

#[test]
fn opportunities_that_are_shown() {
    let mut state = AppState::new(config(""));
    for i in 0..25 {
        let id = format!("opportunity-{}", i);
        state.opportunities.insert(id.clone(), opportunity(&id, i as f64, 40.0));
    }
    let shown = get_opportunities(&state).unwrap();
    assert_eq!(shown.len(), 20);
    assert_eq!(shown[0].guaranteed_profit, micros(24.0));
    assert_eq!(shown[0].profit_pct, micros(60.0));
    assert_eq!(shown[0].id, "opportun");
    assert_eq!(shown[0].opportunity_type, "SimpleOverpriced");
    assert_eq!(shown[0].status, "Expired");
    assert_eq!(shown[19].guaranteed_profit, micros(5.0));
    state.opportunities.insert("empty-position".to_string(), opportunity("empty-position", 99.0, 0.0));
    assert_eq!(get_opportunities(&state).unwrap()[0].profit_pct, 0);
    state.opportunities.insert("short".to_string(), opportunity("short", 1.0, 1.0));
    assert!(get_opportunities(&state).is_none());
}

#[test]
fn trades_that_are_shown() {
    let mut state = AppState::new(config(""));
    for i in 0..60 {
        let id = format!("trade-number-{}", i);
        state.executed_trades.insert(
            id.clone(),
            ExecutedTrade {
                opportunity_id: id,
                executed_at: at((i * 37 % 60) as i64),
                orders_filled: vec![],
                actual_profit: micros(i as f64),
                success: true,
                error: Some("e".to_string()),
            },
        );
    }
    let shown = get_trades(&state).unwrap();
    assert_eq!(shown.len(), 50);
    assert_eq!(shown[0].executed_at, "1970-01-01T00:00:59+00:00");
    assert_eq!(shown[49].executed_at, "1970-01-01T00:00:10+00:00");
    assert!(shown.windows(2).all(|w| w[0].executed_at >= w[1].executed_at));
    assert_eq!(shown[0].id, "trade-nu");
    assert_eq!(shown[0].orders_count, 0);
    assert_eq!(shown[0].error, Some("e".to_string()));
}

#[test]
fn risk_that_is_shown() {
    let mut state = AppState::new(config(""));
    let r = get_risk_metrics(&state);
    assert_eq!(r.total_trades, 0);
    assert_eq!(r.daily_limit_used_pct, Some(0));
    assert_eq!(r.daily_var_limit, micros(50.0));
    let record = polymarket_bot::risk::PnLRecord {
        trade_id: "t".to_string(),
        pnl: micros(-10.0),
        capital_at_risk: 0,
        execution_type: polymarket_bot::risk::ExecutionType::Simulated,
        timestamp: at(0),
    };
    state.var_engine.record_trade(record);
    let r = get_risk_metrics(&state);
    assert_eq!(r.daily_pnl, micros(-10.0));
    assert_eq!(r.daily_limit_used_pct, Some(micros(20.0)));
    assert_eq!(r.max_drawdown, micros(10.0));
    assert_eq!(r.win_rate, 0);
    state.config.daily_var_limit = 0;
    assert_eq!(get_risk_metrics(&state).daily_limit_used_pct, None);
}
