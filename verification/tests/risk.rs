use polymarket_bot::clock::{now, Timestamp};
use polymarket_bot::risk::{
    calculate_max_drawdown, determine_recommendation, simulate_outcomes, ConfidenceLevel,
    DailyLimitCheck, ExecutionType, OpportunityRiskProfile, PnLRecord, PortfolioStats,
    RiskRecommendation, VaREngine,
};

fn micros(x: f64) -> i64 {
    (x * 1e6).round() as i64
}

fn exp(x: i64) -> i64 {
    ((x as f64 / 1e6).exp() * 1e6).round() as i64
}

fn record(i: usize, pnl: i64, timestamp: Timestamp) -> PnLRecord {
    PnLRecord {
        trade_id: format!("trade_{}", i),
        pnl,
        capital_at_risk: micros(50.0),
        execution_type: ExecutionType::FullFill,
        timestamp,
    }
}

fn make_engine_with_history(pnls: Vec<f64>) -> VaREngine {
    let mut engine = VaREngine::new(ConfidenceLevel::Pct95, micros(100.0), micros(1000.0));
    for (i, pnl) in pnls.into_iter().enumerate() {
        engine.record_trade(record(i, micros(pnl), now()));
    }
    engine
}

fn profile(profit: f64, fill: f64, worst: f64) -> OpportunityRiskProfile {
    OpportunityRiskProfile {
        opportunity_id: "p".to_string(),
        guaranteed_profit: micros(profit),
        fill_probability: micros(fill),
        worst_case_single_leg_loss: micros(worst),
        capital_committed: micros(1.0),
    }
}

#[test]
fn test_historical_var_needs_minimum_history() {
    let engine = make_engine_with_history(vec![1.0, 2.0, -1.0]);
    assert!(engine.historical_var(ConfidenceLevel::Pct95).is_none());
}

#[test]
fn test_historical_var_with_sufficient_history() {
    let mut pnls: Vec<f64> = (0..90).map(|_| 1.0).collect();
    pnls.extend((0..10).map(|_| -10.0));
    let engine = make_engine_with_history(pnls);
    let var_95 = engine.historical_var(ConfidenceLevel::Pct95).unwrap();
    assert!(var_95 > 0, "VaR debe ser positivo");
    println!("VaR histórico 95%: ${:.2}", var_95);
}

#[test]
fn test_parametric_var() {
    let pnls: Vec<f64> = (0..100).map(|i| if i < 95 { 1.0 } else { -5.0 }).collect();
    let engine = make_engine_with_history(pnls);
    let var_param = engine.parametric_var(ConfidenceLevel::Pct95).unwrap();
    println!("VaR paramétrico 95%: ${:.2}", var_param);
    assert!(var_param >= 0);
}

#[test]
fn test_cvar_greater_than_var() {
    let mut pnls: Vec<f64> = (0..90).map(|_| 1.0).collect();
    pnls.extend([-5.0, -8.0, -12.0, -15.0, -20.0, -6.0, -9.0, -11.0, -14.0, -18.0]);
    let engine = make_engine_with_history(pnls);
    let var_95 = engine.historical_var(ConfidenceLevel::Pct95).unwrap();
    let cvar_95 = engine.cvar(ConfidenceLevel::Pct95).unwrap();
    println!("VaR 95%: ${:.2}, CVaR 95%: ${:.2}", var_95, cvar_95);
    assert!(cvar_95 >= var_95 - micros(0.01), "CVaR debe ser >= VaR");
}

#[test]
fn test_execution_var_high_fill_probability() {
    let engine = VaREngine::new(ConfidenceLevel::Pct95, micros(100.0), micros(1000.0));
    let profile = OpportunityRiskProfile {
        opportunity_id: "test_opp".to_string(),
        guaranteed_profit: micros(0.10),
        fill_probability: micros(0.95),
        worst_case_single_leg_loss: micros(0.40),
        capital_committed: micros(0.85),
    };
    let result = engine.execution_var(&profile, ConfidenceLevel::Pct95);
    println!(
        "Execution VaR: ${:.4}, CVaR: ${:.4}, EV: ${:.4}",
        result.var, result.cvar, result.expected_value
    );
    println!("Profit/VaR ratio: {:?}", result.profit_var_ratio);
    println!("Recomendación: {:?}", result.recommendation);
    assert!(result.expected_value > 0);
}

#[test]
fn test_execution_var_low_fill_probability() {
    let engine = VaREngine::new(ConfidenceLevel::Pct95, micros(100.0), micros(1000.0));
    let profile = OpportunityRiskProfile {
        opportunity_id: "test_risky".to_string(),
        guaranteed_profit: micros(0.05),
        fill_probability: micros(0.40),
        worst_case_single_leg_loss: micros(0.60),
        capital_committed: micros(1.0),
    };
    let result = engine.execution_var(&profile, ConfidenceLevel::Pct95);
    println!("Risky trade - Recomendación: {:?}", result.recommendation);
    assert!(matches!(result.recommendation, RiskRecommendation::Skip { .. }));
}

#[test]
fn test_daily_limit_check() {
    let mut engine = VaREngine::new(ConfidenceLevel::Pct95, micros(50.0), micros(1000.0));
    engine.daily_pnl = micros(-45.0);
    let check = engine.check_daily_limit(micros(10.0));
    println!("Límite diario: {:?}", check);
    assert!(check.is_blocked());
}

#[test]
fn test_max_drawdown() {
    let pnls = vec![micros(10.0), micros(-15.0), micros(5.0), micros(-8.0)];
    let dd = calculate_max_drawdown(&pnls);
    println!("Max Drawdown: ${:.2}", dd);
    assert!((dd as f64 / 1e6 - 18.0).abs() < 0.01);
}

#[test]
fn test_portfolio_stats() {
    let mut pnls: Vec<f64> = (0..70).map(|_| 0.08).collect();
    pnls.extend((0..30).map(|_| -0.40));
    let engine = make_engine_with_history(pnls);
    let stats = engine.portfolio_stats();
    println!("Win rate: {:.1}%", stats.win_rate as f64 / 1e4);
    println!("Profit factor: {:?}", stats.profit_factor);
    println!("Sharpe ratio: {:.2}", stats.sharpe_ratio);
    println!("Max drawdown: ${:.2}", stats.max_drawdown);
    println!("VaR 95%: ${:.4}", stats.var_95);
    println!("CVaR 95%: ${:.4}", stats.cvar_95);
    assert_eq!(stats.total_trades, 100);
    assert!((stats.win_rate as f64 / 1e6 - 0.70).abs() < 0.01);
}

#[test]
fn portfolio_figures_are_exact() {
    let mut pnls: Vec<f64> = (0..70).map(|_| 0.08).collect();
    pnls.extend((0..30).map(|_| -0.40));
    let stats = make_engine_with_history(pnls).portfolio_stats();
    assert_eq!(stats.total_pnl, micros(-6.4));
    assert_eq!(stats.win_rate, 700_000);
    assert_eq!(stats.avg_win, micros(0.08));
    assert_eq!(stats.avg_loss, micros(-0.40));
    // 5.6 / 12
    assert_eq!(stats.profit_factor, Some(466_666));
    assert_eq!(stats.max_drawdown, micros(12.0));
    assert_eq!(stats.var_95, micros(0.40));
    assert_eq!(stats.cvar_95, micros(0.40));
    assert_eq!(stats.var_99, micros(0.40));
    assert!(stats.sharpe_ratio < 0);
}

#[test]
fn no_trades_no_statistics() {
    let engine = VaREngine::new(ConfidenceLevel::Pct95, micros(50.0), micros(1000.0));
    let stats = engine.portfolio_stats();
    let zero = PortfolioStats::default();
    assert_eq!(stats.total_trades, zero.total_trades);
    assert_eq!(stats.profit_factor, Some(0));
    assert_eq!(stats.win_rate, 0);
}

#[test]
fn only_gains_have_no_profit_factor() {
    let stats = make_engine_with_history(vec![1.0, 2.0]).portfolio_stats();
    assert_eq!(stats.profit_factor, None);
    assert_eq!(stats.avg_loss, 0);
    assert_eq!(stats.max_drawdown, 0);
    // Mean 1.5, deviation sqrt(0.5).
    assert_eq!(stats.sharpe_ratio, 2_121_322);
}

#[test]
fn levels_of_confidence() {
    let all = [
        (ConfidenceLevel::Pct90, 100_000, 1_282_000, "90%"),
        (ConfidenceLevel::Pct95, 50_000, 1_645_000, "95%"),
        (ConfidenceLevel::Pct99, 10_000, 2_326_000, "99%"),
        (ConfidenceLevel::Pct999, 1_000, 3_090_000, "99.9%"),
    ];
    for (level, alpha, z, label) in all {
        assert_eq!(level.alpha(), alpha);
        assert_eq!(level.z_score(), z);
        assert_eq!(level.label(), label);
    }
}

#[test]
fn historical_figures_are_exact() {
    let mut pnls: Vec<f64> = (0..90).map(|_| 1.0).collect();
    pnls.extend([-5.0, -8.0, -12.0, -15.0, -20.0, -6.0, -9.0, -11.0, -14.0, -18.0]);
    let engine = make_engine_with_history(pnls);
    // Sorted: -20 -18 -15 -14 -12 -11 ...
    assert_eq!(engine.historical_var(ConfidenceLevel::Pct95), Some(micros(11.0)));
    assert_eq!(engine.cvar(ConfidenceLevel::Pct95), Some(micros(15.8)));
    assert_eq!(engine.historical_var(ConfidenceLevel::Pct99), Some(micros(18.0)));
    assert_eq!(engine.cvar(ConfidenceLevel::Pct999), Some(micros(20.0)));
    assert_eq!(engine.historical_var(ConfidenceLevel::Pct90), Some(0));
}

#[test]
fn more_confidence_risks_no_less() {
    let pnls: Vec<f64> = (0..200).map(|i| (i * 37 % 101) as f64 - 50.0).collect();
    let engine = make_engine_with_history(pnls);
    let levels = [
        ConfidenceLevel::Pct90,
        ConfidenceLevel::Pct95,
        ConfidenceLevel::Pct99,
        ConfidenceLevel::Pct999,
    ];
    for pair in levels.windows(2) {
        let less = engine.historical_var(pair[0]).unwrap();
        let more = engine.historical_var(pair[1]).unwrap();
        assert!(more >= less);
    }
    for level in levels {
        assert!(engine.cvar(level).unwrap() >= engine.historical_var(level).unwrap());
    }
}

#[test]
fn no_losses_no_risk() {
    let engine = make_engine_with_history((0..30).map(|i| i as f64).collect());
    assert_eq!(engine.historical_var(ConfidenceLevel::Pct999), Some(0));
    assert_eq!(engine.cvar(ConfidenceLevel::Pct999), Some(0));
}

#[test]
fn parametric_figure_is_exact() {
    // Half 1, half -1: mean 0, deviation sqrt(30 / 29).
    let pnls: Vec<f64> = (0..30).map(|i| if i % 2 == 0 { 1.0 } else { -1.0 }).collect();
    let engine = make_engine_with_history(pnls);
    let var = engine.parametric_var(ConfidenceLevel::Pct95).unwrap();
    assert_eq!(var, 1_673_121);
    assert_eq!(make_engine_with_history(vec![1.0]).parametric_var(ConfidenceLevel::Pct95), None);
    assert_eq!(make_engine_with_history(vec![1.0]).cvar(ConfidenceLevel::Pct95), None);
}

#[test]
fn the_window_forgets_the_oldest() {
    let mut engine = VaREngine::new_on(ConfidenceLevel::Pct95, 1, 1, 7);
    let stamp = Timestamp::new(0, 0).unwrap();
    for i in 0..501 {
        engine.record_trade_on(record(i, i as i64, stamp), 7);
    }
    assert_eq!(engine.pnl_history.len(), 500);
    assert_eq!(engine.pnl_history.get(0).trade_id, "trade_1");
    assert_eq!(engine.pnl_history.get(499).pnl, 500);
}

#[test]
fn a_new_day_starts_from_zero() {
    let mut engine = VaREngine::new_on(ConfidenceLevel::Pct95, 1, 1, 7);
    let stamp = Timestamp::new(0, 0).unwrap();
    engine.record_trade_on(record(0, -5, stamp), 7);
    engine.record_trade_on(record(1, -6, stamp), 7);
    assert_eq!(engine.daily_pnl, -11);
    engine.record_trade_on(record(2, 3, stamp), 8);
    assert_eq!(engine.daily_pnl, 3);
    assert_eq!(engine.current_day, 8);
    assert_eq!(engine.pnl_history.len(), 3);
}

#[test]
fn scenarios_follow_the_fill_probability() {
    let outcomes = simulate_outcomes(&profile(1.0, 0.40, 2.0));
    assert_eq!(outcomes.len(), 10_000);
    let full = outcomes.iter().filter(|x| **x == micros(1.0)).count();
    let part = outcomes.iter().filter(|x| **x == micros(0.3)).count();
    let lost = outcomes.iter().filter(|x| **x == micros(-2.0)).count();
    assert_eq!(full + part + lost, 10_000);
    assert!((3_800..4_200).contains(&full));
    assert!((2_800..3_200).contains(&part));
    assert!((2_800..3_200).contains(&lost));
}

#[test]
fn a_certain_fill_risks_nothing() {
    let engine = VaREngine::new_on(ConfidenceLevel::Pct95, micros(100.0), micros(1000.0), 1);
    let result = engine.execution_var(&profile(0.25, 1.0, 5.0), ConfidenceLevel::Pct999);
    assert_eq!(result.var, 0);
    assert_eq!(result.cvar, 0);
    assert_eq!(result.expected_value, micros(0.25));
    assert_eq!(result.profit_var_ratio, None);
    assert_eq!(result.recommendation, RiskRecommendation::Execute);
}

#[test]
fn a_frequent_loss_is_the_value_at_risk() {
    let engine = VaREngine::new_on(ConfidenceLevel::Pct95, micros(100.0), micros(1000.0), 1);
    let result = engine.execution_var(&profile(1.0, 0.40, 2.0), ConfidenceLevel::Pct95);
    assert_eq!(result.var, micros(2.0));
    assert_eq!(result.cvar, micros(2.0));
    assert_eq!(result.profit_var_ratio, Some(500_000));
    assert_eq!(result.worst_case_loss, micros(2.0));
    assert_eq!(result.fill_probability, micros(0.40));
    assert_eq!(result.confidence_level, ConfidenceLevel::Pct95);
}

fn recommend(var: f64, profit: f64, ev: f64, pnl: f64, capital: f64, fill: f64, worst: f64) -> RiskRecommendation {
    determine_recommendation(
        micros(var),
        micros(profit),
        micros(ev),
        micros(50.0),
        micros(pnl),
        micros(capital),
        micros(fill),
        micros(worst),
    )
}

fn skip(reason: &str) -> RiskRecommendation {
    RiskRecommendation::Skip { reason: reason.to_string() }
}

#[test]
fn recommendations_and_their_reasons() {
    assert_eq!(
        recommend(0.1, 0.1, -0.0123, 0.0, 500.0, 0.9, 0.1),
        skip("Expected Value negativo: $-0.0123")
    );
    assert_eq!(
        recommend(0.1, 0.05, 0.01, 0.0, 500.0, 0.40, 0.60),
        skip("Pérdida esperada por fill parcial ($0.1800) excede 2x ganancia ($0.0500). Fill prob: 40%")
    );
    assert_eq!(
        recommend(0.4, 0.1, 0.01, 0.0, 500.0, 0.95, 0.4),
        skip("VaR ($0.4000) excede 3x la ganancia ($0.1000)")
    );
    assert_eq!(
        recommend(0.1, 0.1, 0.01, -40.01, 500.0, 0.95, 0.4),
        skip("Límite diario al 80%: P&L hoy = $-40.01")
    );
    assert_eq!(
        recommend(0.2, 0.1, 0.01, -40.0, 5.0, 0.95, 0.4),
        RiskRecommendation::ExecuteReduced { suggested_size_pct: 500_000 }
    );
    assert_eq!(
        recommend(0.1, 0.1, 0.01, -40.0, 5.0, 0.95, 0.4),
        RiskRecommendation::Execute
    );
    // Without capital every value at risk is too much.
    assert_eq!(
        recommend(0.1, 0.1, 0.01, 0.0, 0.0, 0.95, 0.4),
        RiskRecommendation::ExecuteReduced { suggested_size_pct: 0 }
    );
    assert_eq!(recommend(0.0, 0.1, 0.01, 0.0, 0.0, 0.95, 0.4), RiskRecommendation::Execute);
}

#[test]
fn daily_limits_and_their_messages() {
    let mut engine = VaREngine::new_on(ConfidenceLevel::Pct95, micros(50.0), micros(1000.0), 1);
    match engine.check_daily_limit(micros(10.0)) {
        DailyLimitCheck::Approved { trade_var, remaining_budget_after } => {
            assert_eq!(trade_var, micros(10.0));
            assert_eq!(remaining_budget_after, micros(40.0));
        }
        other => panic!("{:?}", other),
    }
    match engine.check_daily_limit(micros(30.0)) {
        DailyLimitCheck::Warning { message, trade_var, remaining_budget } => {
            assert_eq!(message, "Trade consume 60.0% del presupuesto de riesgo restante");
            assert_eq!(trade_var, micros(30.0));
            assert_eq!(remaining_budget, micros(50.0));
        }
        other => panic!("{:?}", other),
    }
    // All of what is left may be used up, and no more.
    match engine.check_daily_limit(micros(50.0)) {
        DailyLimitCheck::Warning { message, trade_var, remaining_budget } => {
            assert_eq!(message, "Trade consume 100.0% del presupuesto de riesgo restante");
            assert_eq!(trade_var, micros(50.0));
            assert_eq!(remaining_budget, micros(50.0));
        }
        other => panic!("{:?}", other),
    }
    match engine.check_daily_limit(micros(50.01)) {
        DailyLimitCheck::Blocked { reason, daily_pnl, daily_limit } => {
            assert_eq!(reason, "VaR del trade ($50.01) excede presupuesto restante ($50.00)");
            assert_eq!(daily_pnl, 0);
            assert_eq!(daily_limit, micros(50.0));
        }
        other => panic!("{:?}", other),
    }
    engine.daily_pnl = micros(-50.5);
    match engine.check_daily_limit(0) {
        DailyLimitCheck::Blocked { reason, .. } => {
            assert_eq!(reason, "Límite diario alcanzado. P&L hoy: $-50.50, límite: $-50.00");
        }
        other => panic!("{:?}", other),
    }
    assert!(!engine.check_daily_limit(0).is_blocked() || engine.daily_pnl < -engine.daily_var_limit);
}

#[test]
fn profiles_of_opportunities() {
    let p = OpportunityRiskProfile::from_opportunity(
        "opp",
        micros(1.5),
        micros(0.40),
        micros(0.45),
        micros(10.0),
        micros(100.0),
        micros(20.0),
        &exp,
    );
    assert_eq!(p.opportunity_id, "opp");
    assert_eq!(p.guaranteed_profit, micros(1.5));
    assert_eq!(p.worst_case_single_leg_loss, micros(4.5));
    assert_eq!(p.capital_committed, micros(8.5));
    // One less e to the minus four.
    assert_eq!(p.fill_probability, 981_684);
    let none = OpportunityRiskProfile::from_opportunity("o", 1, 1, 1, 1, 0, 5, &exp);
    assert_eq!(none.fill_probability, 0);
    let empty = OpportunityRiskProfile::from_opportunity("o", 1, 1, 1, 0, 5, 5, &exp);
    assert_eq!(empty.fill_probability, 1_000_000);
}

#[test]
fn drawdowns() {
    assert_eq!(calculate_max_drawdown(&[]), 0);
    assert_eq!(calculate_max_drawdown(&[1, 2, 3]), 0);
    assert_eq!(calculate_max_drawdown(&[-4]), 4);
    assert_eq!(calculate_max_drawdown(&[5, -3, 10, -7, 2, -6]), 11);
}

#[test]
fn smaller_positions_and_deeper_books_fill_no_less() {
    let chance = |size: f64, yes: f64, no: f64| {
        OpportunityRiskProfile::from_opportunity(
            "o",
            0,
            micros(0.4),
            micros(0.5),
            micros(size),
            micros(yes),
            micros(no),
            &exp,
        )
        .fill_probability
    };
    assert_eq!(chance(2.0, 1.0, 9.0), 632_121);
    let mut last = 0;
    for size in [50.0, 20.0, 5.0, 2.0, 1.0, 0.1, 0.0] {
        let p = chance(size, 1.0, 9.0);
        assert!(last <= p && p <= 1_000_000);
        assert!(p <= chance(size, 2.0, 9.0));
        assert!(p <= chance(size, 1.0, 10.0));
        last = p;
    }
    assert_eq!(chance(2.0, 0.0, 9.0), 0);
}
