use polymarket_bot::arbitrage::{
    appraise, build_orders_for_simple_arbitrage, check_simple_arbitrage,
    cleanup_stale_opportunities, cleanup_stale_opportunities_at, estimate_fill_probability,
    scan_all_markets,
};
use polymarket_bot::clock::{day_of, now, Timestamp};
use polymarket_bot::dashboard::get_opportunities;
use polymarket_bot::executor::{
    authorization, check_liquidity, decide, fill_from_reply, order_payload, order_url,
    pending_opportunities, process_opportunity,
    risk_clearance, set_status, settle_failure, settle_failure_at, settle_success, settle_success_at,
    side_name, simulate_execution, validate_opportunity_still_valid, Decision, Expiry, Processed,
    Reply, Submission,
};
use polymarket_bot::math::{analyze_simple_arbitrage, SimpleArbitrageType};
use polymarket_bot::risk::{
    ConfidenceLevel, ExecutionType, OpportunityRiskProfile, RiskRecommendation,
};
use polymarket_bot::types::{
    AppState, ArbitrageOpportunity, ArbitrageType, BotConfig, ExecutedTrade, Market, MarketStatus,
    OpportunityStatus, OrderSide, OrderToExecute, Settings,
};

fn micros(x: f64) -> i64 {
    (x * 1e6).round() as i64
}

fn ln(x: i64) -> i64 {
    ((x as f64 / 1e12).ln() * 1e12).round() as i64
}

fn exp(x: i64) -> i64 {
    ((x as f64 / 1e6).exp() * 1e6).round() as i64
}

fn config() -> BotConfig {
    BotConfig::from_env_or_default(&Settings {
        polymarket_ws_url: None,
        polymarket_api_url: None,
        polymarket_api_key: None,
        min_profit: None,
        max_position: None,
        dashboard_port: None,
        dry_run: None,
        daily_var_limit: None,
        total_capital: None,
        min_profit_var_ratio: None,
    })
}

fn market(id: &str, yes: f64, no: f64, volume: f64) -> Market {
    Market {
        condition_id: id.to_string(),
        question: "q".to_string(),
        yes_price: micros(yes),
        no_price: micros(no),
        yes_volume: micros(volume),
        no_volume: micros(volume),
        last_updated: now(),
        status: MarketStatus::Active,
    }
}

fn state_with(markets: Vec<Market>) -> AppState {
    let mut state = AppState::new(config());
    for m in markets {
        state.markets.insert(m.condition_id.clone(), m);
    }
    state
}

fn opportunity(id: &str, profit: f64, size: f64, market: &Market) -> ArbitrageOpportunity {
    let analysis = analyze_simple_arbitrage(
        &market.condition_id,
        market.yes_price,
        market.no_price,
        micros(0.01),
    );
    let kind = match analysis.arbitrage_type {
        SimpleArbitrageType::Overpriced { .. } => ArbitrageType::SimpleOverpriced,
        _ => ArbitrageType::SimpleUnderpriced,
    };
    ArbitrageOpportunity {
        id: id.to_string(),
        opportunity_type: kind,
        market_ids: vec![market.condition_id.clone()],
        guaranteed_profit: micros(profit),
        max_profit: micros(profit),
        fw_gap: Some(0),
        position_size: micros(size),
        orders: build_orders_for_simple_arbitrage(market, &analysis, micros(size)),
        detected_at: now(),
        status: OpportunityStatus::Detected,
    }
}

fn add(state: &mut AppState, o: &ArbitrageOpportunity) {
    state.opportunities.insert(o.id.clone(), o.duplicate());
}

fn status(state: &AppState, id: &str) -> OpportunityStatus {
    state.opportunities.get(id).unwrap().status
}

#[test]
fn fill_probabilities() {
    assert_eq!(estimate_fill_probability(0, micros(1.0), &exp), 0);
    assert_eq!(estimate_fill_probability(micros(1.0), 0, &exp), 1_000_000);
    // One less e to the minus two.
    assert_eq!(estimate_fill_probability(micros(2.0), micros(1.0), &exp), 864_665);
}

#[test]
fn orders_on_both_outcomes() {
    let m = market("0xabc", 0.40, 0.45, 100.0);
    let under = analyze_simple_arbitrage("0xabc", m.yes_price, m.no_price, micros(0.02));
    let orders = build_orders_for_simple_arbitrage(&m, &under, micros(10.0));
    assert_eq!(orders.len(), 2);
    assert_eq!(orders[0].token_id, "0xabc_YES");
    assert_eq!(orders[1].token_id, "0xabc_NO");
    assert_eq!(orders[0].price, micros(0.40));
    assert_eq!(orders[1].price, micros(0.45));
    assert!(orders.iter().all(|o| o.side == OrderSide::Buy && o.size == micros(10.0)));
    assert!(orders.iter().all(|o| o.market_id == "0xabc"));
    let m = market("0xabc", 0.60, 0.55, 100.0);
    let over = analyze_simple_arbitrage("0xabc", m.yes_price, m.no_price, micros(0.02));
    let orders = build_orders_for_simple_arbitrage(&m, &over, micros(10.0));
    assert!(orders.len() == 2 && orders.iter().all(|o| o.side == OrderSide::Sell));
    let fair = analyze_simple_arbitrage("0xabc", micros(0.5), micros(0.5), micros(0.02));
    assert!(build_orders_for_simple_arbitrage(&m, &fair, micros(10.0)).is_empty());
}

#[test]
fn appraisals() {
    let c = config();
    let a = appraise(&market("m", 0.40, 0.45, 400.0), &c, micros(0.05), &ln, &exp).unwrap();
    assert!(matches!(a.kind, SimpleArbitrageType::Underpriced { .. }));
    assert!(a.position_size >= micros(1.0) && a.position_size <= c.max_position_size);
    assert!(a.guaranteed_profit >= micros(0.05));
    assert!(appraise(&market("m", 0.50, 0.50, 400.0), &c, micros(0.05), &ln, &exp).is_none());
    assert!(appraise(&market("m", 0.40, 0.45, 1.9), &c, micros(0.05), &ln, &exp).is_none());
}

#[test]
fn scanning_enters_what_is_worth_it() {
    let mut state = state_with(vec![
        market("fair", 0.50, 0.50, 400.0),
        market("cheap", 0.40, 0.45, 400.0),
        market("thin", 0.40, 0.45, 1.0),
    ]);
    scan_all_markets(&mut state, &ln, &exp);
    assert_eq!(state.opportunities.len(), 1);
    assert_eq!(state.stats.opportunities_detected, 1);
    assert!(state.stats.last_opportunity_at.is_some());
    let o = state.opportunities.row(0);
    assert_eq!(state.opportunities.key(0), o.id);
    assert_eq!(o.id.len(), 36);
    assert!(o.id.is_ascii());
    assert_eq!(get_opportunities(&state).unwrap()[0].id, o.id[..8]);
    assert_eq!(o.market_ids, vec!["cheap".to_string()]);
    assert_eq!(o.opportunity_type, ArbitrageType::SimpleUnderpriced);
    assert_eq!(o.status, OpportunityStatus::Detected);
    assert_eq!(o.orders.len(), 2);
    assert!(o.guaranteed_profit >= micros(0.05));
    assert_eq!(state.markets.len(), 3);
    let m = market("cheap", 0.40, 0.45, 400.0);
    check_simple_arbitrage(&mut state, &m, micros(0.05), &ln, &exp);
    assert_eq!(state.opportunities.len(), 2);
    assert_ne!(state.opportunities.key(0), state.opportunities.key(1));
}

#[test]
fn overpriced_pairs_are_sold() {
    let mut state = state_with(vec![]);
    let m = market("dear", 0.60, 0.55, 1000.0);
    check_simple_arbitrage(&mut state, &m, micros(0.05), &ln, &exp);
    assert_eq!(state.opportunities.len(), 1);
    assert_eq!(state.stats.opportunities_detected, 1);
    let o = state.opportunities.row(0);
    assert_eq!(o.opportunity_type, ArbitrageType::SimpleOverpriced);
    assert_eq!(o.orders.len(), 2);
    assert!(o.orders.iter().all(|x| x.side == OrderSide::Sell && x.size == o.position_size));
    // The excess of 0.15 on the whole position.
    assert_eq!(o.guaranteed_profit, o.position_size * 15 / 100);
    assert_eq!(o.max_profit, o.guaranteed_profit);
    assert_eq!(o.fw_gap, Some(0));
}

#[test]
fn clean_up_keeps_recent_and_executing() {
    let m = market("m", 0.40, 0.45, 400.0);
    let mut state = state_with(vec![]);
    let at = |secs: i64| Timestamp::new(secs, 0).unwrap();
    let cases = [
        ("old", 1_000, OpportunityStatus::Detected),
        ("busy", 1_000, OpportunityStatus::Executing),
        ("edge", 1_700, OpportunityStatus::Detected),
        ("new", 1_701, OpportunityStatus::Failed),
    ];
    for (id, secs, st) in cases {
        let mut o = opportunity(id, 1.0, 10.0, &m);
        o.detected_at = at(secs);
        o.status = st;
        add(&mut state, &o);
    }
    cleanup_stale_opportunities_at(&mut state, at(2_000));
    assert_eq!(state.opportunities.len(), 2);
    assert!(state.opportunities.get("busy").is_some());
    assert!(state.opportunities.get("new").is_some());
    cleanup_stale_opportunities(&mut state);
    assert_eq!(state.opportunities.len(), 1);
    assert_eq!(state.opportunities.key(0), "busy");
}

#[test]
fn the_best_three_are_pending() {
    let m = market("m", 0.40, 0.45, 400.0);
    let mut state = state_with(vec![]);
    for (id, profit) in [("a", 1.0), ("b", 4.0), ("c", 2.0), ("d", 3.0), ("e", 9.0), ("f", 2.0)] {
        add(&mut state, &opportunity(id, profit, 10.0, &m));
    }
    set_status(&mut state, "e", OpportunityStatus::Executing);
    set_status(&mut state, "absent", OpportunityStatus::Failed);
    let ids: Vec<String> = pending_opportunities(&state).iter().map(|o| o.id.clone()).collect();
    assert_eq!(ids, vec!["b", "d", "c"]);
    assert_eq!(status(&state, "e"), OpportunityStatus::Executing);
}

#[test]
fn current_profit_follows_the_prices() {
    let m = market("m", 0.40, 0.45, 400.0);
    let o = opportunity("o", 1.5, 10.0, &m);
    let mut state = state_with(vec![m]);
    assert_eq!(validate_opportunity_still_valid(&state, &o), micros(1.5));
    state.markets.row_mut(0).no_price = micros(0.70);
    assert_eq!(validate_opportunity_still_valid(&state, &o), 0);
    let over = market("m", 0.60, 0.55, 400.0);
    let p = opportunity("p", 1.5, 10.0, &over);
    assert_eq!(validate_opportunity_still_valid(&state, &p), micros(1.0));
    let mut bare = o.duplicate();
    bare.orders.clear();
    assert_eq!(validate_opportunity_still_valid(&state, &bare), 0);
    let mut other = o.duplicate();
    other.opportunity_type = ArbitrageType::Combinatorial;
    assert_eq!(validate_opportunity_still_valid(&state, &other), micros(1.5));
}

#[test]
fn liquidity_is_the_thinner_outcome() {
    let mut m = market("m", 0.40, 0.45, 400.0);
    m.no_volume = micros(7.0);
    let o = opportunity("o", 1.5, 10.0, &m);
    let state = state_with(vec![m]);
    assert_eq!(check_liquidity(&state, &o), Some(micros(7.0)));
    assert_eq!(check_liquidity(&state_with(vec![]), &o), None);
}

fn reason_of(d: Decision) -> Expiry {
    match d {
        Decision::Expired(e) => e,
        other => panic!("{:?}", other),
    }
}

#[test]
fn decisions_give_up_for_a_reason() {
    let m = market("m", 0.40, 0.45, 400.0);
    let o = opportunity("o", 1.5, 10.0, &m);
    // Prices have moved.
    let mut state = state_with(vec![market("m", 0.50, 0.50, 400.0)]);
    add(&mut state, &o);
    assert!(matches!(
        reason_of(decide(&mut state, &o, &exp)),
        Expiry::Unprofitable { current_profit: 0 }
    ));
    assert_eq!(status(&state, "o"), OpportunityStatus::Expired);
    // Volume has gone.
    let mut state = state_with(vec![market("m", 0.40, 0.45, 7.9)]);
    add(&mut state, &o);
    assert!(matches!(
        reason_of(decide(&mut state, &o, &exp)),
        Expiry::Illiquid { available: 7_900_000 }
    ));
    // The market is not known, and nothing depends on its prices.
    let mut state = state_with(vec![]);
    let mut other = o.duplicate();
    other.opportunity_type = ArbitrageType::Combinatorial;
    add(&mut state, &other);
    assert!(matches!(reason_of(decide(&mut state, &other, &exp)), Expiry::UnknownMarket));
    // No market is named.
    let mut state = state_with(vec![]);
    other.market_ids.clear();
    add(&mut state, &other);
    assert!(matches!(decide(&mut state, &other, &exp), Decision::NoMarketId));
    assert_eq!(status(&state, "o"), OpportunityStatus::Executing);
    // The day's limit is used up.
    let mut state = state_with(vec![market("m", 0.40, 0.45, 400.0)]);
    add(&mut state, &o);
    state.var_engine.daily_pnl = micros(-60.0);
    match reason_of(decide(&mut state, &o, &exp)) {
        Expiry::DailyLimit { reason } => {
            assert_eq!(reason, "Límite diario alcanzado. P&L hoy: $-60.00, límite: $-50.00")
        }
        other => panic!("{:?}", other),
    }
    // The engine advises against it.
    let mut state = state_with(vec![market("m", 0.40, 0.45, 400.0)]);
    add(&mut state, &o);
    state.var_engine.daily_pnl = micros(-45.0);
    match reason_of(decide(&mut state, &o, &exp)) {
        Expiry::Discarded { reason } => {
            assert_eq!(reason, "Límite diario al 80%: P&L hoy = $-45.00")
        }
        other => panic!("{:?}", other),
    }
}

#[test]
fn an_opportunity_is_taken_up_once() {
    let m = market("m", 0.40, 0.45, 400.0);
    let o = opportunity("o", 1.5, 10.0, &m);
    let mut state = state_with(vec![m]);
    add(&mut state, &o);
    match decide(&mut state, &o, &exp) {
        Decision::Trade(t) => {
            assert_eq!(t.position_size, micros(10.0));
            assert_eq!(t.profile.opportunity_id, "o");
            assert_eq!(t.profile.capital_committed, micros(8.5));
            assert_eq!(t.risk.var, 0);
        }
        other => panic!("{:?}", other),
    }
    assert_eq!(status(&state, "o"), OpportunityStatus::Executing);
    assert!(matches!(decide(&mut state, &o, &exp), Decision::Taken));
    assert!(matches!(
        process_opportunity(&mut state, &o, &exp),
        Processed::Closed(Decision::Taken)
    ));
    assert_eq!(state.executed_trades.len(), 0);
}

#[test]
fn a_second_processing_changes_nothing() {
    let m = market("m", 0.40, 0.45, 400.0);
    let o = opportunity("opportunity-1", 1.5, 10.0, &m);
    let mut state = state_with(vec![m]);
    add(&mut state, &o);
    assert!(matches!(process_opportunity(&mut state, &o, &exp), Processed::Simulated(_)));
    let pnl = state.var_engine.daily_pnl;
    assert!(matches!(
        process_opportunity(&mut state, &o, &exp),
        Processed::Closed(Decision::Taken)
    ));
    assert_eq!(status(&state, "opportunity-1"), OpportunityStatus::Executed);
    assert_eq!(state.executed_trades.len(), 1);
    assert_eq!(state.stats.opportunities_executed, 1);
    assert_eq!(state.var_engine.daily_pnl, pnl);
    assert_eq!(state.var_engine.pnl_history.len(), 1);
}

fn stake(profit: f64, fill: f64, worst: f64) -> OpportunityRiskProfile {
    OpportunityRiskProfile {
        opportunity_id: "s".to_string(),
        guaranteed_profit: micros(profit),
        fill_probability: micros(fill),
        worst_case_single_leg_loss: micros(worst),
        capital_committed: micros(8.5),
    }
}

#[test]
fn clearance_reduces_and_refuses() {
    let mut state = state_with(vec![]);
    // A value at risk of 2 is a quarter above a fiftieth of 80.
    state.var_engine.total_capital = micros(80.0);
    let p = stake(4.0, 0.80, 2.0);
    let (risk, size) = risk_clearance(&state.var_engine, &p, micros(1.5), micros(10.0));
    assert_eq!(risk.var, micros(2.0));
    assert_eq!(risk.cvar, micros(2.0));
    assert_eq!(risk.profit_var_ratio, Some(micros(2.0)));
    assert_eq!(risk.worst_case_loss, micros(2.0));
    assert_eq!(risk.confidence_level, ConfidenceLevel::Pct95);
    assert_eq!(
        risk.recommendation,
        RiskRecommendation::ExecuteReduced { suggested_size_pct: micros(0.8) }
    );
    assert_eq!(size.unwrap(), micros(8.0));
    // The profit is twice the value at risk.
    let (_, size) = risk_clearance(&state.var_engine, &p, micros(2.5), micros(10.0));
    assert!(matches!(size, Err(Expiry::PoorRatio)));
    let (_, size) = risk_clearance(&state.var_engine, &stake(4.0, 1.0, 2.0), micros(2.5), micros(10.0));
    assert_eq!(size.unwrap(), micros(10.0));
}

#[test]
fn a_dry_run_simulates_and_settles() {
    let m = market("m", 0.40, 0.45, 400.0);
    let o = opportunity("opportunity-1", 1.5, 10.0, &m);
    let mut state = state_with(vec![m]);
    add(&mut state, &o);
    match process_opportunity(&mut state, &o, &exp) {
        Processed::Simulated(t) => {
            assert_eq!(t.position_size, micros(10.0));
            assert_eq!(t.profile.opportunity_id, "opportunity-1");
            assert_eq!(t.profile.guaranteed_profit, micros(1.5));
            assert_eq!(t.profile.worst_case_single_leg_loss, micros(4.5));
            assert_eq!(t.profile.capital_committed, micros(8.5));
            assert_eq!(t.risk.var, 0);
            assert_eq!(t.risk.recommendation, RiskRecommendation::Execute);
        }
        other => panic!("{:?}", other),
    }
    assert_eq!(status(&state, "opportunity-1"), OpportunityStatus::Executed);
    assert_eq!(state.stats.opportunities_executed, 1);
    assert_eq!(state.stats.total_profit_usd, micros(1.5));
    assert_eq!(state.var_engine.daily_pnl, micros(1.5));
    let r = state.var_engine.pnl_history.get(0);
    assert_eq!(r.execution_type, ExecutionType::FullFill);
    assert_eq!(r.capital_at_risk, micros(8.5));
    let trade = state.executed_trades.get("opportunity-1").unwrap();
    assert!(trade.success);
    assert_eq!(trade.orders_filled.len(), 2);
    assert!(trade.orders_filled[0].order_id.starts_with("sim_"));
    assert_ne!(trade.orders_filled[0].order_id, trade.orders_filled[1].order_id);
    assert_eq!(trade.orders_filled[0].filled_price, micros(0.40));
    assert_eq!(trade.orders_filled[1].filled_size, micros(10.0));
}

#[test]
fn a_real_run_leaves_the_orders_to_the_caller() {
    let m = market("m", 0.40, 0.45, 400.0);
    let o = opportunity("o", 1.5, 10.0, &m);
    let mut state = state_with(vec![m]);
    state.config.dry_run = false;
    add(&mut state, &o);
    assert!(matches!(process_opportunity(&mut state, &o, &exp), Processed::Submit(_)));
    assert_eq!(status(&state, "o"), OpportunityStatus::Executing);
    assert_eq!(state.executed_trades.len(), 0);
}

#[test]
fn simulated_fills_have_the_given_size() {
    let m = market("m", 0.40, 0.45, 400.0);
    let trade = simulate_execution(&opportunity("o", 1.5, 10.0, &m), micros(3.0));
    assert!(trade.orders_filled.iter().all(|f| f.filled_size == micros(3.0)));
    assert_eq!(trade.orders_filled[0].order_id.len(), 40);
    assert_eq!(trade.actual_profit, micros(1.5));
    assert!(trade.error.is_none());
}

fn an_order() -> OrderToExecute {
    OrderToExecute {
        market_id: "m".to_string(),
        side: OrderSide::Sell,
        token_id: "m_YES".to_string(),
        price: micros(0.4),
        size: micros(10.0),
    }
}

fn answer(success: bool, body: &str) -> Reply {
    Reply::Answered { success, body: body.to_string() }
}

#[test]
fn replies_to_orders() {
    let order = an_order();
    let fill = fill_from_reply(
        &order,
        &answer(true, r#"{"orderID":"x1","price":0.41,"sizeMatched":9.5}"#),
    )
    .unwrap();
    assert_eq!(fill.order_id, "x1");
    assert_eq!(fill.filled_price, micros(0.41));
    assert_eq!(fill.filled_size, micros(9.5));
    assert_eq!(fill.market_id, "m");
    assert_eq!(fill.side, OrderSide::Sell);
    let fill = fill_from_reply(&order, &answer(true, r#"{"orderID":7,"price":"0.41"}"#)).unwrap();
    assert_eq!(fill.order_id, "unknown");
    assert_eq!(fill.filled_price, micros(0.4));
    assert_eq!(fill.filled_size, micros(10.0));
    let fill = fill_from_reply(&order, &answer(true, "[1e-3]")).unwrap();
    assert_eq!(fill.order_id, "unknown");
    assert_eq!(
        fill_from_reply(&order, &answer(false, "no funds")).unwrap_err(),
        "API error: no funds"
    );
    assert_eq!(
        fill_from_reply(&order, &answer(true, "not json")).unwrap_err(),
        "error decoding response body"
    );
    assert_eq!(
        fill_from_reply(&order, &Reply::NotSent { error: "timeout".to_string() }).unwrap_err(),
        "HTTP error: timeout"
    );
    assert_eq!(order_url(&config()), "https://clob.polymarket.com/order");
    assert_eq!(authorization(&config()), "Bearer ");
    assert_eq!(side_name(OrderSide::Buy), "BUY");
    assert_eq!(side_name(OrderSide::Sell), "SELL");
}

#[test]
fn a_submission_fills_order_after_order() {
    let m = market("m", 0.40, 0.45, 400.0);
    let o = opportunity("o", 1.5, 10.0, &m);
    let mut s = Submission::new(micros(10.0));
    let first = s.next_order(&o).unwrap();
    assert_eq!(first.token_id, "m_YES");
    s.accept(&first, &answer(true, r#"{"price":0.40,"sizeMatched":10}"#)).unwrap();
    let second = s.next_order(&o).unwrap();
    assert_eq!(second.token_id, "m_NO");
    assert!(s.accept(&second, &answer(false, "")).is_err());
    assert_eq!(s.filled.len(), 1);
    s.accept(&second, &answer(true, r#"{"price":0.46,"sizeMatched":10}"#)).unwrap();
    assert!(s.next_order(&o).is_none());
    let stamp = Timestamp::new(5, 0).unwrap();
    let trade = s.clone().complete_at(&o, stamp);
    // 10 less 4.0 less 4.6.
    assert_eq!(trade.actual_profit, micros(1.4));
    assert_eq!(trade.executed_at, stamp);
    assert_eq!(trade.opportunity_id, "o");
    s.filled[0].filled_size = micros(100.0);
    assert_eq!(s.complete(&o).actual_profit, 0);
}

#[test]
fn a_submission_sends_the_cleared_size() {
    let m = market("m", 0.40, 0.45, 400.0);
    let o = opportunity("o", 1.5, 10.0, &m);
    let mut s = Submission::new(micros(8.0));
    while let Some(order) = s.next_order(&o) {
        assert_eq!(order.size, micros(8.0));
        assert_eq!(order.side, OrderSide::Buy);
        assert_eq!(order.market_id, "m");
        s.accept(&order, &answer(true, "{}")).unwrap();
    }
    assert_eq!(s.filled.len(), 2);
    assert_eq!(s.filled[1].filled_price, micros(0.45));
    // 8 less 3.2 less 3.6.
    assert_eq!(s.complete(&o).actual_profit, micros(1.2));
}

#[test]
fn a_sale_gains_what_it_brings_beyond_the_position() {
    let m = market("m", 0.60, 0.55, 400.0);
    let o = opportunity("o", 15.0, 100.0, &m);
    let mut s = Submission::new(micros(100.0));
    while let Some(order) = s.next_order(&o) {
        assert_eq!(order.side, OrderSide::Sell);
        s.accept(&order, &answer(true, "{}")).unwrap();
    }
    assert_eq!(s.clone().complete(&o).actual_profit, micros(15.0));
    // Sold for less than the pair will pay.
    s.filled[0].filled_price = micros(0.40);
    assert_eq!(s.complete(&o).actual_profit, 0);
    // Nothing filled.
    assert_eq!(Submission::new(0).complete(&o).actual_profit, 0);
}

#[test]
fn settlements() {
    let m = market("m", 0.40, 0.45, 400.0);
    let o = opportunity("o", 1.5, 10.0, &m);
    let p = stake(1.5, 0.9, 4.5);
    let stamp = Timestamp::new(5, 0).unwrap();
    let mut state = state_with(vec![]);
    add(&mut state, &o);
    settle_failure_at(&mut state, &o, &p, stamp, 3);
    assert_eq!(status(&state, "o"), OpportunityStatus::Failed);
    assert_eq!(state.stats.opportunities_failed, 1);
    assert_eq!(state.var_engine.daily_pnl, micros(-0.45));
    assert_eq!(state.var_engine.current_day, 3);
    assert_eq!(state.var_engine.pnl_history.get(0).execution_type, ExecutionType::NoFill);
    settle_failure(&mut state, &o, &p);
    assert_eq!(state.var_engine.pnl_history.len(), 2);
    // One reading of the clock gives the time and the day.
    let noted = state.var_engine.pnl_history.get(1).timestamp;
    assert_eq!(state.var_engine.current_day, day_of(&noted));
    let trade = ExecutedTrade {
        opportunity_id: "o".to_string(),
        executed_at: stamp,
        orders_filled: vec![],
        actual_profit: micros(0.2),
        success: false,
        error: None,
    };
    settle_success_at(&mut state, &o, &p, trade.clone(), stamp, 3);
    assert_eq!(status(&state, "o"), OpportunityStatus::Executed);
    assert_eq!(
        state.var_engine.pnl_history.get(2).execution_type,
        ExecutionType::PartialFill { legs_filled: 0, legs_total: 2 }
    );
    assert_eq!(state.var_engine.pnl_history.get(2).trade_id, "o");
    assert_eq!(state.executed_trades.len(), 1);
    assert_eq!(state.stats.total_profit_usd, micros(1.5));
    settle_success(&mut state, &o, &p, trade);
    assert_eq!(state.stats.opportunities_executed, 2);
    assert_eq!(state.executed_trades.len(), 1);
}

#[test]
fn orders_as_they_are_sent() {
    let mut order = an_order();
    order.token_id = "m\"1_YES".to_string();
    let body = order_payload(&order);
    assert_eq!(
        body,
        r#"{"price":0.4,"side":"SELL","size":10.0,"timeInForce":"FOK","tokenID":"m\"1_YES","type":"LIMIT"}"#
    );
    let v: serde_json::Value = serde_json::from_str(&body).unwrap();
    assert_eq!(v["price"].as_f64(), Some(0.4));
    assert_eq!(v["size"].as_f64(), Some(10.0));
    assert_eq!(v["tokenID"].as_str(), Some("m\"1_YES"));
}

#[test]
fn a_pair_pays_one_for_each_unit() {
    for (yes, no) in [(0.40, 0.45), (0.60, 0.55)] {
        let m = market("m", yes, no, 100.0);
        let a = analyze_simple_arbitrage("m", m.yes_price, m.no_price, micros(0.02));
        let orders = build_orders_for_simple_arbitrage(&m, &a, micros(10.0));
        let paid = orders[0].price + orders[1].price;
        let rest = match a.arbitrage_type {
            SimpleArbitrageType::Underpriced { profit } => paid + profit,
            SimpleArbitrageType::Overpriced { profit } => paid - profit,
            SimpleArbitrageType::Fair => panic!("fair"),
        };
        assert_eq!(rest, micros(1.0));
    }
}

#[test]
fn deeper_books_fill_more_often() {
    let mut last = 0;
    for volume in [1.0, 2.0, 5.0, 20.0] {
        let p = OpportunityRiskProfile::from_opportunity(
            "o",
            micros(1.0),
            micros(0.4),
            micros(0.4),
            micros(10.0),
            micros(volume),
            micros(50.0),
            &exp,
        );
        assert!(p.fill_probability > last && p.fill_probability <= 1_000_000);
        last = p.fill_probability;
    }
}

#[test]
fn amounts_in_orders_are_as_short_as_they_can_be() {
    for x in [0, 1, 9, 10, 15, 120, 99_000, 123_456, 450_000, 1_000_000, 100_000_000, 123_456_789] {
        for value in [x, -x] {
            let mut order = an_order();
            order.price = value;
            let body = order_payload(&order);
            let plain = if value == 0 { 0.0 } else { value as f64 / 1e6 };
            let text = serde_json::to_string(&plain).unwrap();
            assert!(body.starts_with(&format!("{{\"price\":{},", text)), "{} {}", body, text);
        }
    }
}
