use polymarket_bot::math::{
    analyze_simple_arbitrage, bregman_divergence, bregman_gradient, contract_polytope_vertex,
    divergence_gradient, frank_wolfe_project, kelly_position_size, linear_min_oracle,
    update_epsilon, MarketConstraints, PriceVector, SimpleArbitrageType, UNIT,
};

fn micros(x: f64) -> i64 {
    (x * 1e6).round() as i64
}

fn units(x: f64) -> i64 {
    (x * 1e12).round() as i64
}

fn ln(x: i64) -> i64 {
    ((x as f64 / 1e12).ln() * 1e12).round() as i64
}

#[test]
fn test_bregman_divergence_identical() {
    let mu = vec![units(0.6), units(0.4)];
    let d = bregman_divergence(&mu, &mu, &ln);
    assert!((d as f64 / 1e12) < 1e-10, "D(μ||μ) debe ser 0, fue {}", d);
}

#[test]
fn test_bregman_divergence_positive() {
    let mu = vec![units(0.5), units(0.5)];
    let theta = vec![units(0.62), units(0.33)];
    let d = bregman_divergence(&mu, &theta, &ln);
    assert!(d >= 0, "Bregman divergence debe ser no-negativa");
}

#[test]
fn test_simple_arbitrage_underpriced() {
    let result = analyze_simple_arbitrage("test_market", micros(0.40), micros(0.45), micros(0.02));
    assert!(matches!(result.arbitrage_type, SimpleArbitrageType::Underpriced { .. }));
    assert!((result.gross_profit_per_dollar as f64 / 1e6 - 0.15).abs() < 1e-10);
}

#[test]
fn test_simple_arbitrage_overpriced() {
    let result = analyze_simple_arbitrage("test_market", micros(0.60), micros(0.55), micros(0.02));
    assert!(matches!(result.arbitrage_type, SimpleArbitrageType::Overpriced { .. }));
}

#[test]
fn test_simple_arbitrage_none() {
    let result = analyze_simple_arbitrage("test_market", micros(0.60), micros(0.40), micros(0.02));
    assert!(matches!(result.arbitrage_type, SimpleArbitrageType::Fair));
}

#[test]
fn test_frank_wolfe_simple() {
    let theta = vec![units(0.50), units(0.30)];
    let constraints = MarketConstraints::simple_yes_no();
    let result = frank_wolfe_project(&theta, &constraints, units(0.9), 100, &ln);
    let projected_sum: f64 = result.projected_prices.iter().map(|p| *p as f64 / 1e12).sum();
    assert!(
        (projected_sum - 1.0).abs() < 0.05,
        "Proyección suma {:.3}, debería ser ~1.0",
        projected_sum
    );
    assert!(
        result.guaranteed_profit > 0,
        "Debería detectar arbitraje, profit={:.6}",
        result.guaranteed_profit
    );
}

#[test]
fn test_kelly_criterion() {
    let size = kelly_position_size(micros(0.10), micros(0.85), micros(1000.0), micros(500.0));
    assert!(size >= 0);
    assert!(size <= micros(1000.0));
    println!("Kelly size: ${:.2}", size as f64 / 1e6);
}

#[test]
fn divergence_of_even_prices_is_exact() {
    // 0.5 ln(0.5 / 0.25) twice is ln 2.
    let mu = vec![units(0.5), units(0.5)];
    let theta = vec![units(0.25), units(0.25)];
    let d = bregman_divergence(&mu, &theta, &ln);
    assert!((d as f64 / 1e12 - 2.0f64.ln()).abs() < 1e-11);
}

#[test]
fn divergence_leaves_out_prices_at_the_floor() {
    let mu = vec![units(0.5), 100];
    let theta = vec![100, units(0.5)];
    assert_eq!(bregman_divergence(&mu, &theta, &ln), 0);
}

#[test]
fn gradient_is_logarithm_and_one() {
    let g = bregman_gradient(&[UNIT, units(0.5), 0], &ln);
    assert_eq!(g[0], UNIT as i128);
    assert!((g[1] as f64 / 1e12 - (0.5f64.ln() + 1.0)).abs() < 1e-11);
    assert_eq!(g[2], -10_000_000_000_000_000_000_000);
}

#[test]
fn vectors_sum_and_average() {
    let v = PriceVector::new(vec![units(0.2), units(0.3)], vec!["a".to_string(), "b".to_string()]);
    assert_eq!(v.sum(), units(0.5) as i128);
    assert_eq!(v.len(), 2);
    let w = PriceVector::new(vec![units(0.6), units(0.4)], vec!["a".to_string(), "b".to_string()]);
    assert_eq!(PriceVector::interior_point(&[v, w]), vec![units(0.4), units(0.35)]);
    assert!(PriceVector::interior_point(&[]).is_empty());
}

#[test]
fn contraction_moves_towards_the_interior() {
    let z = contract_polytope_vertex(&[UNIT, 0], &[units(0.5), units(0.5)], units(0.1));
    assert_eq!(z, vec![units(0.95), units(0.05)]);
}

#[test]
fn oracle_picks_the_steepest_descent() {
    let constraints = MarketConstraints::simple_yes_no();
    let z = linear_min_oracle(
        &[5, -7],
        &constraints,
        &[units(0.5), units(0.5)],
        units(0.2),
        2,
    );
    assert_eq!(z, vec![units(0.1), units(0.9)]);
}

#[test]
fn contraction_shrinks_by_the_gap_or_by_half() {
    assert_eq!(update_epsilon(units(0.1), 1, 1), units(0.1));
    // The ratio of the gaps, a quarter of a tenth.
    assert_eq!(update_epsilon(units(0.1), (UNIT / 10) as i128, UNIT as i128), units(0.025));
    // Half the current one where the ratio is between both.
    assert_eq!(update_epsilon(units(0.1), units(0.36) as i128, UNIT as i128), units(0.05));
    assert_eq!(update_epsilon(units(0.1), -1, 0), 10_000);
    assert_eq!(update_epsilon(units(0.1), -1, 1), 10_000);
    // Gaps beyond what products can hold.
    let huge = 0x1000_0000_0000_0000_0000_0000_0000_0000i128;
    assert_eq!(update_epsilon(units(0.1), huge / 10, huge), 24_999_999_999);
    assert_eq!(update_epsilon(units(0.1), 1, 0), units(0.1));
}

#[test]
fn projection_of_fair_prices_gains_nothing() {
    let constraints = MarketConstraints::simple_yes_no();
    let r = frank_wolfe_project(&[units(0.5), units(0.5)], &constraints, units(0.9), 150, &ln);
    assert!(r.guaranteed_profit < units(0.000001) as i128);
    assert!(r.guaranteed_profit >= 0);
    assert!(r.iterations <= 150);
}

#[test]
fn slopes_of_the_divergence_depend_on_both_prices() {
    let g = divergence_gradient(
        &[units(0.5), units(0.5), units(0.5), 0],
        &[units(0.5), units(0.25), 100, units(0.5)],
        &ln,
    );
    assert_eq!(g[0], UNIT as i128);
    assert!((g[1] as f64 / 1e12 - (2.0f64.ln() + 1.0)).abs() < 1e-11);
    assert_eq!(g[2], 0);
    assert_eq!(g[3], -10_000_000_000_000_000_000_000);
}

#[test]
fn projection_of_an_uneven_fair_pair_gains_nothing() {
    let constraints = MarketConstraints::simple_yes_no();
    for (yes, no) in [(0.9, 0.1), (0.7, 0.3), (0.01, 0.99)] {
        let r = frank_wolfe_project(&[units(yes), units(no)], &constraints, units(0.9), 100, &ln);
        assert!(r.guaranteed_profit <= 8, "{} {}", yes, r.guaranteed_profit);
    }
}

#[test]
fn projection_finds_the_least_divergence() {
    let constraints = MarketConstraints::simple_yes_no();
    for (yes, no) in [(0.5, 0.3), (0.40, 0.45), (0.2, 0.6), (0.1, 0.3)] {
        let theta = [units(yes), units(no)];
        let r = frank_wolfe_project(&theta, &constraints, units(0.9), 150, &ln);
        assert!(r.converged, "{} {}", yes, no);
        // The closest fair prices are in proportion, and diverge by -ln(sum).
        let least = -(yes + no as f64).ln();
        let found = r.divergence as f64 / 1e12;
        assert!(found >= least - 1e-11 && 0.9 * found <= least + 1e-11, "{} {}", found, least);
        let profit = r.guaranteed_profit as f64 / 1e12;
        assert!(profit <= least + 1e-11 && profit >= 0.9 * found - 1e-11);
        for other in [0.1, 0.3, 0.5, 0.8] {
            let fair = [units(other), units(1.0 - other)];
            let d = bregman_divergence(&fair, &theta, &ln);
            assert!(9 * r.divergence <= 10 * (d + 8));
        }
    }
}

#[test]
fn projection_over_two_groups() {
    let constraints = MarketConstraints {
        exclusive_groups: vec![vec![0, 1], vec![2, 3, 4]],
        implications: vec![],
    };
    let theta = [units(0.5), units(0.3), units(0.2), units(0.3), units(0.4)];
    let r = frank_wolfe_project(&theta, &constraints, units(0.9), 400, &ln);
    assert!(r.converged);
    // Each group scales to one on its own.
    let least = -(0.8f64.ln()) - 0.9f64.ln();
    let found = r.divergence as f64 / 1e12;
    assert!(found >= least - 1e-10 && 0.9 * found <= least + 1e-10);
    assert!(constraints.is_feasible(&r.projected_prices, units(0.000001)));
    let none = MarketConstraints { exclusive_groups: vec![vec![]], implications: vec![] };
    let kept = frank_wolfe_project(&theta, &none, units(0.9), 400, &ln);
    assert_eq!(kept.projected_prices, theta.to_vec());
    assert_eq!((kept.guaranteed_profit, kept.iterations, kept.converged), (0, 0, true));
}

#[test]
fn a_projection_starts_at_the_mean_of_the_corners() {
    let third = UNIT / 3;
    let cases = [
        (vec![vec![0, 1], vec![1, 2]], vec![], vec![UNIT / 2, UNIT / 2, UNIT / 2]),
        (vec![vec![0, 1, 2]], vec![], vec![third, third, third]),
        (vec![vec![0, 1]], vec![], vec![UNIT / 2, UNIT / 2, 0]),
    ];
    for (exclusive_groups, implications, mean) in cases {
        let c = MarketConstraints { exclusive_groups, implications };
        let r = frank_wolfe_project(&[units(0.2); 3], &c, units(0.9), 0, &ln);
        assert_eq!(r.projected_prices, mean);
    }
    // The first outcome implies the third: three corners of four are left.
    let tied = MarketConstraints {
        exclusive_groups: vec![vec![0, 1], vec![2, 3]],
        implications: vec![(0, 2)],
    };
    let r = frank_wolfe_project(&[units(0.2); 4], &tied, units(0.9), 0, &ln);
    assert_eq!(r.projected_prices, vec![third, 2 * UNIT / 3, 2 * UNIT / 3, third]);
    let corners = tied.generate_vertices(4);
    for i in 0..4 {
        let sum: i64 = corners.iter().map(|v| v.values[i]).sum();
        assert_eq!(r.projected_prices[i], sum / corners.len() as i64);
    }
    // Without a corner the prices stay: the two groups share their only outcomes.
    let none = MarketConstraints {
        exclusive_groups: vec![vec![0], vec![0, 1], vec![1]],
        implications: vec![],
    };
    let r = frank_wolfe_project(&[units(0.2); 2], &none, units(0.9), 5, &ln);
    assert_eq!((r.projected_prices, r.iterations), (vec![units(0.2); 2], 0));
}

#[test]
fn a_projection_over_many_groups_lists_no_corners() {
    let groups: Vec<Vec<usize>> = (0..63).map(|k| vec![2 * k, 2 * k + 1]).collect();
    let c = MarketConstraints { exclusive_groups: groups, implications: vec![] };
    let r = frank_wolfe_project(&vec![units(0.4); 126], &c, units(0.9), 3, &ln);
    assert!(r.converged);
    // 63 pairs at 0.8, each of which diverges by -ln 0.8.
    let least = -63.0 * 0.8f64.ln();
    assert!((r.guaranteed_profit as f64 / 1e12 - least).abs() < 1e-9);
}

#[test]
fn projected_prices_keep_off_the_border() {
    let constraints = MarketConstraints::simple_yes_no();
    for tiny in [101, 1_000, 1_000_000] {
        let theta = [UNIT - tiny, tiny];
        let r = frank_wolfe_project(&theta, &constraints, units(0.9), 1_000, &ln);
        assert!(r.projected_prices.iter().all(|p| 100 <= *p && *p <= UNIT - 100));
        assert!(r.guaranteed_profit <= 3_000);
    }
}

#[test]
fn mispricing_thresholds_are_exclusive() {
    let below = analyze_simple_arbitrage("m", 490_000, 490_000, 20_000);
    assert!(matches!(below.arbitrage_type, SimpleArbitrageType::Fair));
    assert_eq!(below.gross_profit_per_dollar, 0);
    let under = analyze_simple_arbitrage("m", 489_999, 490_000, 20_000);
    assert!(matches!(under.arbitrage_type, SimpleArbitrageType::Underpriced { profit: 20_001 }));
    let over = analyze_simple_arbitrage("m", 510_001, 510_000, 20_000);
    assert!(matches!(over.arbitrage_type, SimpleArbitrageType::Overpriced { profit: 20_001 }));
    assert_eq!(over.market_id, "m");
    assert_eq!(over.price_sum, 1_020_001);
}

#[test]
fn kelly_sizes() {
    // (0.1 * 0.95 - 0.05) / 0.1 * sqrt(0.95) = 0.45 * 0.974679 of 1000.
    assert_eq!(kelly_position_size(100_000, 950_000, 1_000_000_000, 2_000_000_000), 438_605_000);
    // Half of the book is the limit.
    assert_eq!(kelly_position_size(100_000, 950_000, 1_000_000_000, 500_000_000), 250_000_000);
    // No stake on a bet that loses on average, and none without a profit.
    assert_eq!(kelly_position_size(100_000, 500_000, 1_000_000_000, 500_000_000), 0);
    assert_eq!(kelly_position_size(0, 990_000, 1_000_000_000, 500_000_000), 0);
}

#[test]
fn feasible_prices_add_up_to_one() {
    let constraints = MarketConstraints::simple_yes_no();
    assert!(constraints.is_feasible(&[units(0.6), units(0.4)], units(0.01)));
    assert!(constraints.is_feasible(&[units(0.6), units(0.409)], units(0.01)));
    assert!(!constraints.is_feasible(&[units(0.6), units(0.5)], units(0.01)));
}

#[test]
fn feasible_prices_respect_implications() {
    let constraints = MarketConstraints { exclusive_groups: vec![], implications: vec![(0, 1)] };
    assert!(!constraints.is_feasible(&[UNIT, 0], units(0.01)));
    assert!(constraints.is_feasible(&[0, UNIT], units(0.01)));
    assert!(constraints.is_feasible(&[units(0.31), units(0.30)], units(0.01)));
    assert!(!constraints.is_feasible(&[units(0.311), units(0.30)], units(0.01)));
    // An implication of an outcome without a price is not judged.
    let beyond = MarketConstraints { exclusive_groups: vec![], implications: vec![(0, 7)] };
    assert!(beyond.is_feasible(&[UNIT, 0], 0));
}

#[test]
fn corners_hold_one_outcome_of_every_group() {
    let groups = vec![vec![0, 1], vec![3, 2, 4]];
    let free = MarketConstraints { exclusive_groups: groups.clone(), implications: vec![] };
    let corners = free.generate_vertices(6);
    assert_eq!(corners.len(), 6);
    assert_eq!(corners[0].values, vec![UNIT, 0, 0, UNIT, 0, 0]);
    assert_eq!(corners[5].values, vec![0, UNIT, 0, 0, UNIT, 0]);
    for c in &corners {
        assert_eq!(c.values.len(), 6);
        assert!(c.values.iter().all(|v| *v == 0 || *v == UNIT));
        assert!(free.is_feasible(&c.values, 1_000));
        for g in &groups {
            assert_eq!(g.iter().filter(|i| c.values[**i] == UNIT).count(), 1);
        }
    }
    // The first outcome implies the third.
    let tied = MarketConstraints { exclusive_groups: groups, implications: vec![(0, 2)] };
    let corners = tied.generate_vertices(6);
    assert_eq!(corners.len(), 4);
    assert_eq!(corners[0].values, vec![UNIT, 0, UNIT, 0, 0, 0]);
    let none = MarketConstraints { exclusive_groups: vec![], implications: vec![] };
    assert!(none.generate_vertices(2).is_empty());
}

#[test]
fn corners_of_a_pair() {
    let corners = MarketConstraints::simple_yes_no().generate_vertices(2);
    assert_eq!(corners.len(), 2);
    assert_eq!(corners[0].values, vec![UNIT, 0]);
    assert_eq!(corners[1].values, vec![0, UNIT]);
}

#[test]
fn the_logarithm_keeps_below_its_tangents() {
    let mut amounts: Vec<i64> = vec![1, 2, 3, 7, 99, 100, 101, UNIT - 1, UNIT, UNIT + 1, i64::MAX];
    for k in 1..40 {
        amounts.push(units(k as f64 / 40.0));
        amounts.push(10_000 * k * k * k);
    }
    for &x in &amounts {
        for &y in &amounts {
            let (a, b) = (ln(x) as i128, ln(y) as i128);
            let (x, y) = (x as i128, y as i128);
            assert!((a - b) * x >= UNIT as i128 * (x - y) - 2 * x, "{} {}", x, y);
        }
    }
}
