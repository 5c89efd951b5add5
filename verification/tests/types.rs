use polymarket_bot::clock::{day_of, is_at_least_before, now, to_rfc3339, Timestamp};
use polymarket_bot::order::{comes_before, sort_ascending, stable_order, text_ranks};
use polymarket_bot::table::Table;
use polymarket_bot::text::{can_cut, fixed, has_suffix, head, parse_decimal, parse_port};
use polymarket_bot::types::{
    AppState, ArbitrageType, BotConfig, BotStats, Market, MarketStatus, OpportunityStatus,
    OrderBook, OrderLevel, Settings,
};
use polymarket_bot::units::{
    counted, div_down, divide, hold, multiply, product_at_most, square_root, sum,
};

fn micros(x: f64) -> i64 {
    (x * 1e6).round() as i64
}

fn market(yes: f64, no: f64) -> Market {
    Market {
        condition_id: "m".to_string(),
        question: "q".to_string(),
        yes_price: micros(yes),
        no_price: micros(no),
        yes_volume: 0,
        no_volume: 0,
        last_updated: Timestamp::new(0, 0).unwrap(),
        status: MarketStatus::Active,
    }
}

fn no_settings() -> Settings {
    Settings {
        polymarket_ws_url: None,
        polymarket_api_url: None,
        polymarket_api_key: None,
        min_profit: None,
        max_position: None,
        dashboard_port: None,
        dry_run: None,
        daily_var_limit: None,
        total_capital: None,
        min_profit_var_ratio: None,
    }
}

#[test]
fn default_configuration() {
    let c = BotConfig::from_env_or_default(&no_settings());
    assert_eq!(c.ws_url, "wss://ws-subscriptions-clob.polymarket.com/ws/market");
    assert_eq!(c.api_url, "https://clob.polymarket.com");
    assert_eq!(c.api_key, "");
    assert_eq!(c.min_profit_threshold, micros(0.05));
    assert_eq!(c.max_position_size, micros(100.0));
    assert_eq!(c.dashboard_port, 3000);
    assert!(c.dry_run);
    assert_eq!(c.frank_wolfe_alpha, 900_000_000_000);
    assert_eq!(c.frank_wolfe_max_iter, 150);
    assert_eq!(c.daily_var_limit, micros(50.0));
    assert_eq!(c.total_capital, micros(500.0));
    assert_eq!(c.min_profit_var_ratio, micros(1.5));
}

#[test]
fn configuration_from_settings() {
    let mut s = no_settings();
    s.polymarket_ws_url = Some("ws://x".to_string());
    s.polymarket_api_url = Some("http://y".to_string());
    s.polymarket_api_key = Some("k".to_string());
    s.min_profit = Some("0.1".to_string());
    s.max_position = Some("2e2".to_string());
    s.dashboard_port = Some("8080".to_string());
    s.dry_run = Some("false".to_string());
    s.daily_var_limit = Some("-.5".to_string());
    s.total_capital = Some("many".to_string());
    s.min_profit_var_ratio = Some("2".to_string());
    let c = BotConfig::from_env_or_default(&s);
    assert_eq!(c.ws_url, "ws://x");
    assert_eq!(c.api_url, "http://y");
    assert_eq!(c.api_key, "k");
    assert_eq!(c.min_profit_threshold, micros(0.1));
    assert_eq!(c.max_position_size, micros(200.0));
    assert_eq!(c.dashboard_port, 8080);
    assert!(!c.dry_run);
    assert_eq!(c.daily_var_limit, micros(-0.5));
    assert_eq!(c.total_capital, micros(500.0));
    assert_eq!(c.min_profit_var_ratio, micros(2.0));
    s.dashboard_port = Some("70000".to_string());
    s.dry_run = Some("1".to_string());
    let c = BotConfig::from_env_or_default(&s);
    assert_eq!(c.dashboard_port, 3000);
    assert!(c.dry_run);
}

#[test]
fn prices_of_a_market() {
    let m = market(0.40, 0.45);
    assert_eq!(m.price_sum(), micros(0.85));
    assert_eq!(m.deviation(), micros(0.15));
    assert!(m.has_simple_arbitrage(micros(0.1)));
    assert!(!m.has_simple_arbitrage(micros(0.15)));
    assert_eq!(market(0.60, 0.55).deviation(), micros(0.15));
    assert!(!market(0.60, 0.55).has_simple_arbitrage(0));
}

#[test]
fn mean_prices_of_a_book() {
    let mut book = OrderBook::new();
    assert_eq!(book.vwap_yes(micros(10.0)), None);
    book.yes_asks.push(OrderLevel { price: micros(0.40), size: micros(10.0) });
    book.yes_asks.push(OrderLevel { price: micros(0.50), size: micros(30.0) });
    book.no_asks.push(OrderLevel { price: micros(0.60), size: micros(5.0) });
    // 10 at 0.40 and 10 at 0.50.
    assert_eq!(book.vwap_yes(micros(20.0)), Some(micros(0.45)));
    assert_eq!(book.vwap_yes(micros(10.0)), Some(micros(0.40)));
    // All there is.
    assert_eq!(book.vwap_yes(micros(1000.0)), Some(micros(0.475)));
    assert_eq!(book.vwap_yes(0), None);
    assert_eq!(book.vwap_no(micros(1.0)), Some(micros(0.60)));
    assert_eq!(book.vwap_no(-1), None);
    assert_eq!(book.yes_ask_liquidity(), micros(40.0));
    assert_eq!(book.no_ask_liquidity(), micros(5.0));
}

#[test]
fn mean_prices_are_rounded_once() {
    let mut book = OrderBook::new();
    book.yes_asks.push(OrderLevel { price: micros(0.99), size: micros(1.0) });
    // The cost of 0.00001 is below a millionth; its price is not.
    assert_eq!(book.vwap_yes(10), Some(micros(0.99)));
    assert_eq!(book.vwap_yes(1), Some(micros(0.99)));
    // 1 at 0.99 and 0.5 at 1.02.
    book.yes_asks.push(OrderLevel { price: micros(1.02), size: micros(5.0) });
    assert_eq!(book.vwap_yes(micros(1.5)), Some(micros(1.0)));
    assert!(book.vwap_yes(micros(2.0)) >= book.vwap_yes(micros(1.5)));
    // Costs beyond what two words hold.
    let mut deep = OrderBook::new();
    for _ in 0..8 {
        deep.no_asks.push(OrderLevel { price: i64::MAX, size: i64::MAX / 8 });
    }
    assert_eq!(deep.vwap_no(i64::MAX), Some(i64::MAX));
}

#[test]
fn names_of_kinds_and_statuses() {
    assert_eq!(ArbitrageType::SimpleUnderpriced.name(), "SimpleUnderpriced");
    assert_eq!(ArbitrageType::SimpleOverpriced.name(), "SimpleOverpriced");
    assert_eq!(ArbitrageType::Combinatorial.name(), "Combinatorial");
    assert_eq!(ArbitrageType::MarketRebalancing.name(), "MarketRebalancing");
    assert_eq!(OpportunityStatus::Detected.name(), "Detected");
    assert_eq!(OpportunityStatus::Executing.name(), "Executing");
    assert_eq!(OpportunityStatus::Executed.name(), "Executed");
    assert_eq!(OpportunityStatus::Expired.name(), "Expired");
    assert_eq!(OpportunityStatus::Failed.name(), "Failed");
}

#[test]
fn a_new_state_is_empty() {
    let state = AppState::new(BotConfig::from_env_or_default(&no_settings()));
    assert_eq!(state.markets.len(), 0);
    assert_eq!(state.opportunities.len(), 0);
    assert_eq!(state.executed_trades.len(), 0);
    assert_eq!(state.var_engine.daily_var_limit, micros(50.0));
    assert_eq!(state.var_engine.total_capital, micros(500.0));
    assert_eq!(state.var_engine.current_day, day_of(&now()));
    let zero = BotStats::default();
    assert_eq!(state.stats.opportunities_detected, zero.opportunities_detected);
    assert!(state.stats.last_opportunity_at.is_none());
}

#[test]
fn amounts_in_decimals() {
    assert_eq!(parse_decimal("0.62"), Some(620_000));
    assert_eq!(parse_decimal("500.00"), Some(500_000_000));
    assert_eq!(parse_decimal("-1.5e-1"), Some(-150_000));
    assert_eq!(parse_decimal("+7."), Some(7_000_000));
    assert_eq!(parse_decimal(".25"), Some(250_000));
    assert_eq!(parse_decimal("1E3"), Some(1_000_000_000));
    assert_eq!(parse_decimal("1e400"), Some(i64::MAX));
    assert_eq!(parse_decimal("-Inf"), Some(i64::MIN));
    assert_eq!(parse_decimal("infinity"), Some(i64::MAX));
    assert_eq!(parse_decimal("infinite"), None);
    assert_eq!(parse_decimal("nan"), None);
    assert_eq!(parse_decimal(""), None);
    assert_eq!(parse_decimal("."), None);
    assert_eq!(parse_decimal("1.2.3"), None);
    assert_eq!(parse_decimal("1e"), None);
    assert_eq!(parse_decimal(" 1"), None);
    assert_eq!(parse_decimal("abc"), None);
}

#[test]
fn ports() {
    assert_eq!(parse_port("3000"), Some(3000));
    assert_eq!(parse_port("+80"), Some(80));
    assert_eq!(parse_port("65535"), Some(65535));
    assert_eq!(parse_port("65536"), None);
    assert_eq!(parse_port("-1"), None);
    assert_eq!(parse_port(""), None);
}

#[test]
fn amounts_written_out() {
    assert_eq!(fixed(micros(12.3456), 2), "12.35");
    assert_eq!(fixed(micros(-0.0123), 4), "-0.0123");
    assert_eq!(fixed(micros(0.5), 0), "0");
    assert_eq!(fixed(micros(1.5), 0), "2");
    assert_eq!(fixed(micros(60.0), 1), "60.0");
    assert_eq!(fixed(i64::MIN, 6), "-9223372036854.775808");
}

#[test]
fn heads_and_tails_of_texts() {
    assert_eq!(head("0xtest_market_1", 8), "0xtest_m");
    assert_eq!(head("short", 8), "short");
    assert!(can_cut("12345678", 8));
    assert!(can_cut("short", 8));
    assert!(!can_cut("1234567ñ", 8));
    assert!(can_cut("123456ñ", 8));
    assert!(has_suffix("abc_YES", "_YES"));
    assert!(!has_suffix("abc_NO", "_YES"));
    assert!(!has_suffix("ES", "_YES"));
}

#[test]
fn points_in_time() {
    assert!(Timestamp::new(0, 2_000_000_000).is_none());
    let t = Timestamp::new(86_400, 5).unwrap();
    assert_eq!(t.secs(), 86_400);
    assert_eq!(t.nanos(), 5);
    // The second of January 1970.
    assert_eq!(day_of(&t), 719_164);
    assert_eq!(day_of(&Timestamp::new(-1, 0).unwrap()), 719_162);
    assert_eq!(to_rfc3339(&Timestamp::new(0, 0).unwrap()), "1970-01-01T00:00:00+00:00");
    assert!(now().secs() > 1_600_000_000);
    let later = Timestamp::new(86_700, 5).unwrap();
    assert!(is_at_least_before(&t, &later, 300));
    assert!(!is_at_least_before(&t, &Timestamp::new(86_700, 4).unwrap(), 300));
}

#[test]
fn tables_keep_their_order() {
    let mut t: Table<i32> = Table::new();
    t.insert("a".to_string(), 1);
    t.insert("b".to_string(), 2);
    t.insert("c".to_string(), 3);
    t.insert("b".to_string(), 20);
    assert_eq!(t.len(), 3);
    assert_eq!(t.get("b"), Some(&20));
    assert_eq!(t.get("d"), None);
    assert_eq!(t.find("c"), Some(2));
    assert_eq!(t.key(0), "a");
    *t.row_mut(0) = 10;
    t.set_row(2, 30);
    t.retain(&vec![true, false, true]);
    assert_eq!(t.len(), 2);
    assert_eq!(*t.row(0), 10);
    assert_eq!(t.get("c"), Some(&30));
    assert_eq!(t.get("b"), None);
    assert_eq!(t.find("c"), Some(1));
}

#[test]
fn orders_of_amounts_and_texts() {
    assert_eq!(sort_ascending(&vec![3, -1, 2, 3, 0]), vec![-1, 0, 2, 3, 3]);
    assert_eq!(stable_order(&vec![5, 1, 5, 0]), vec![3, 1, 0, 2]);
    let chars = |s: &str| s.chars().collect::<Vec<char>>();
    assert!(comes_before(&chars("abc"), &chars("abd")));
    assert!(comes_before(&chars("ab"), &chars("abc")));
    assert!(!comes_before(&chars("abc"), &chars("abc")));
    assert_eq!(text_ranks(&vec![chars("b"), chars("a"), chars("b")]), vec![1, 0, 1]);
}

#[test]
fn arithmetic_rounds_down_and_holds() {
    assert_eq!(hold(i64::MAX as i128 + 1), i64::MAX);
    assert_eq!(hold(i64::MIN as i128 - 1), i64::MIN);
    assert_eq!(div_down(-7, 2), -4);
    assert_eq!(divide(7, -2), -4);
    assert_eq!(multiply(micros(-0.5), 1), -1);
    assert_eq!(multiply(micros(1.5), micros(2.5)), micros(3.75) as i128);
    assert_eq!(sum(&[1, -2, 5]), 4);
    assert_eq!(square_root(99), 9);
    assert_eq!(square_root(100), 10);
    assert_eq!(square_root(u128::MAX), u64::MAX);
    assert_eq!(counted(u64::MAX), u64::MAX);
    assert!(product_at_most(i128::MAX, 3, i128::MAX, 3));
    assert!(product_at_most(-i128::MAX, 4, -i128::MAX, 3));
    assert!(!product_at_most(i128::MAX, -3, i128::MAX, -4));
    assert!(product_at_most(6, 7, 21, 2));
    assert!(!product_at_most(6, 7, 41, 1));
}
