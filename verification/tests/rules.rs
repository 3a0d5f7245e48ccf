//! The decision rules of the simulated participants, one at a time.

use trading_simulator::engine::{MarketCore, Step, KIND_SETTLE};
use trading_simulator::hetero::{quote_prices, Lean, Regime, RegimeParams};
use trading_simulator::rl::{Action, ActionCounts, RlAgent, N_ACTIONS};
use trading_simulator::rng::{Rng, UNIT};
use trading_simulator::sim::{
    noise_order_price, noise_order_quantity, NoiseAgentParams, QuoteView, LOT_SIZE,
};
use trading_simulator::{LimitOrderRequest, Price, Quantity, Side};

fn view(best_bid: Option<Price>, best_ask: Option<Price>, last_trade: Option<Price>) -> QuoteView {
    QuoteView {
        best_bid,
        best_ask,
        last_trade,
        ref_price: 1_000,
    }
}

#[test]
fn passive_noise_never_crosses_and_aggressive_noise_does() {
    let params = NoiseAgentParams::default();
    let mut rng = Rng::seed_from_u64(1);
    let quotes = view(Some(999), Some(1_001), None);
    for _ in 0..500 {
        let bid = noise_order_price(quotes, &mut rng, &params, Side::Buy, false);
        assert!((998..=1_000).contains(&bid));
        let ask = noise_order_price(quotes, &mut rng, &params, Side::Sell, false);
        assert!((1_000..=1_002).contains(&ask));
        let sweep = noise_order_price(quotes, &mut rng, &params, Side::Buy, true);
        assert!((1_001..=1_006).contains(&sweep));
        let hit = noise_order_price(quotes, &mut rng, &params, Side::Sell, true);
        assert!((994..=999).contains(&hit));
    }
}

#[test]
fn noise_on_an_empty_side_quotes_near_the_anchor() {
    let params = NoiseAgentParams::default();
    let mut rng = Rng::seed_from_u64(2);
    for _ in 0..200 {
        let cold = noise_order_price(view(None, None, None), &mut rng, &params, Side::Buy, true);
        assert!((998..=1_000).contains(&cold));
        let ask = noise_order_price(
            view(Some(990), None, Some(995)),
            &mut rng,
            &params,
            Side::Sell,
            false,
        );
        assert!((995..=997).contains(&ask));
    }
    let floor = noise_order_price(
        view(Some(1), Some(2), None),
        &mut rng,
        &params,
        Side::Sell,
        true,
    );
    assert_eq!(floor, 1);
}

#[test]
fn noise_sizes_are_whole_lots_within_the_cap() {
    let params = NoiseAgentParams::default();
    assert_eq!(noise_order_quantity(0, &params), LOT_SIZE);
    assert_eq!(noise_order_quantity(7, &params), 700);
    assert_eq!(noise_order_quantity(i64::MAX, &params), 500 * LOT_SIZE);
}

#[test]
fn market_makers_quote_both_sides_without_crossing() {
    assert_eq!(quote_prices(1_000, 2, 0, None, None), (998, 1_002));
    // A long inventory shifts both quotes down.
    assert_eq!(quote_prices(1_000, 2, -3, None, None), (995, 999));
    // The half spread is at least one tick.
    assert_eq!(quote_prices(1_000, 0, 0, None, None), (999, 1_001));
    // Neither quote crosses the opposite touch.
    assert_eq!(
        quote_prices(1_000, 1, 9, Some(1_003), Some(1_005)),
        (1_004, 1_010)
    );
    assert_eq!(
        quote_prices(1_000, 1, -9, Some(1_003), Some(1_005)),
        (990, 1_004)
    );
    // A bid stays positive and below its ask.
    assert_eq!(quote_prices(1, 5, 0, None, None), (1, 6));
    assert_eq!(quote_prices(1, 5, -9, None, None), (1, 2));
}

#[test]
fn the_scenario_chain_always_leaves_its_regime() {
    let params = RegimeParams::default();
    let regimes = [Regime::Calm, Regime::Bull, Regime::Bear, Regime::Crisis];
    for (i, regime) in regimes.iter().enumerate() {
        assert_eq!(regime.index(), i);
        for draw in [0, UNIT / 4, UNIT / 2, UNIT - 1] {
            assert_ne!(params.switch(*regime, draw), *regime);
        }
    }
    assert_eq!(params.switch(Regime::Calm, 0), Regime::Bull);
    assert_eq!(params.switch(Regime::Calm, UNIT / 2), Regime::Bear);
    assert_eq!(params.switch(Regime::Calm, UNIT - 1), Regime::Crisis);
    assert_eq!(params.switch(Regime::Crisis, UNIT / 2), Regime::Calm);
    assert_eq!(
        Regime::Bear.others(),
        (Regime::Calm, Regime::Bull, Regime::Crisis)
    );
}

/// A market with two funded accounts, quoted 999 / 1001 by the second.
fn quoted_core() -> MarketCore {
    let mut core = MarketCore::new("600000.SH", 1_000, 60_000, 1);
    core.add_funded_account(0, 1_000_000, 1_000);
    core.add_funded_account(1, 1_000_000, 1_000);
    for (side, price) in [(Side::Buy, 999), (Side::Sell, 1_001)] {
        let request = LimitOrderRequest {
            account_id: 1,
            side,
            limit_price: price,
            quantity: 100,
        };
        assert!(core.submit_and_track(request, 0).is_some());
    }
    core
}

fn request(side: Side, price: Price, quantity: Quantity) -> Option<LimitOrderRequest> {
    Some(LimitOrderRequest {
        account_id: 0,
        side,
        limit_price: price,
        quantity,
    })
}

#[test]
fn strategies_follow_their_lean_within_the_position_cap() {
    let core = quoted_core();
    assert_eq!(core.mark_price(), 1_000);
    assert_eq!(core.agent_lots(0), 10);
    assert_eq!(
        core.follow_lean(0, Lean::Buy, 3, 18, 10),
        request(Side::Buy, 1_001, 300)
    );
    assert_eq!(
        core.follow_lean(0, Lean::Sell, 3, 18, 10),
        request(Side::Sell, 999, 300)
    );
    assert_eq!(core.follow_lean(0, Lean::Hold, 3, 18, 10), None);
    // Two lots of room are left under the cap, then none.
    assert_eq!(
        core.follow_lean(0, Lean::Buy, 3, 2, 10),
        request(Side::Buy, 1_001, 200)
    );
    assert_eq!(core.follow_lean(0, Lean::Buy, 3, 2, 8), None);
    // Only what is sellable can be sold.
    assert_eq!(
        core.follow_lean(0, Lean::Sell, 30, 100, 10),
        request(Side::Sell, 999, 1_000)
    );
}

fn investor(target_lots: i64) -> RlAgent {
    RlAgent {
        account_id: 0,
        wake_rate_draw: 0,
        penalty_draw: 0,
        target_lots,
        max_lots: 2,
        position_cap_lots: 10,
        pending: None,
        decisions: 0,
        action_counts: ActionCounts {
            hold: 0,
            aggressive_buy: 0,
            aggressive_sell: 0,
            passive_buy: 0,
            passive_sell: 0,
        },
    }
}

#[test]
fn investors_act_within_their_position_limit() {
    let core = quoted_core();
    let agent = investor(10);
    assert_eq!(core.plan_action(&agent, Action::Hold), None);
    assert_eq!(
        core.plan_action(&agent, Action::AggressiveBuy),
        request(Side::Buy, 1_001, 200)
    );
    assert_eq!(
        core.plan_action(&agent, Action::AggressiveSell),
        request(Side::Sell, 999, 200)
    );
    assert_eq!(
        core.plan_action(&agent, Action::PassiveBuyQuote),
        request(Side::Buy, 999, 200)
    );
    assert_eq!(
        core.plan_action(&agent, Action::PassiveSellQuote),
        request(Side::Sell, 1_001, 200)
    );
    // One lot of room is left on the long side, then none.
    assert_eq!(
        core.plan_action(&investor(1), Action::AggressiveBuy),
        request(Side::Buy, 1_001, 100)
    );
    assert_eq!(core.plan_action(&investor(0), Action::AggressiveBuy), None);
    assert_eq!(core.plan_action(&investor(20), Action::AggressiveSell), None);
}

#[test]
fn actions_are_numbered_and_counted() {
    let mut counts = investor(0).action_counts;
    for index in 0..N_ACTIONS {
        let action = Action::from_index(index);
        assert_eq!(action.index(), index);
        counts = counts.count(action);
    }
    assert_eq!(counts.hold, 1);
    assert_eq!(counts.passive_sell, 1);
    let counts = counts.count(Action::AggressiveSell);
    assert_eq!(counts.to_array(), [1, 1, 2, 1, 1]);
}

#[test]
fn the_agenda_dispatches_by_time_and_then_by_arrival() {
    let mut core = MarketCore::new("600000.SH", 1_000, 60_000, 1);
    core.schedule(20, 1, 0);
    core.schedule(10, 1, 1);
    core.schedule(10, 1, 2);
    core.schedule(30, KIND_SETTLE, 0);
    let mut order = Vec::new();
    loop {
        match core.step(40) {
            Step::Wake(entry) => order.push((entry.time_ms, entry.index)),
            Step::Settled => order.push((core.now_ms(), 99)),
            Step::Idle => break,
        }
    }
    assert_eq!(order, vec![(10, 1), (10, 2), (20, 0), (30, 99)]);
    assert_eq!(core.now_ms(), 40);
    // The next boundary is one day on.
    assert_eq!(core.step(60_029), Step::Idle);
    assert_eq!(core.step(60_030), Step::Settled);
    assert!(core.has_room(1) && !core.has_room(u64::MAX));
}

#[test]
fn marks_fall_back_from_mid_to_touch_to_last_trade() {
    let mut core = MarketCore::new("600000.SH", 1_000, 60_000, 1);
    core.add_funded_account(0, 1_000_000, 1_000);
    assert_eq!(core.mark_price(), 1_000);
    let order = |side, limit_price| LimitOrderRequest {
        account_id: 0,
        side,
        limit_price,
        quantity: 100,
    };
    core.submit_and_track(order(Side::Sell, 1_010), 0);
    assert_eq!(core.mark_price(), 1_010);
    core.submit_and_track(order(Side::Buy, 1_007), 0);
    assert_eq!(core.mark_price(), 1_008);
    core.submit_and_track(order(Side::Sell, 1_007), 1);
    core.submit_and_track(order(Side::Buy, 1_010), 2);
    assert_eq!(core.mark_price(), 1_010);
    assert_eq!(core.last_trade_price(), Some(1_010));
    assert_eq!(core.tape().len(), 2);
    assert_eq!(core.rejected_submits(), 0);
}

#[test]
fn withdrawing_takes_every_tracked_order_out() {
    let mut core = quoted_core();
    let mut resting = Vec::new();
    for price in [995, 996, 997] {
        core.submit_if(request(Side::Buy, price, 100), &mut resting, 0);
    }
    assert_eq!(resting.len(), 3);
    // One of them is gone already.
    core.cancel_each(0, &vec![resting[1]], 0);
    let known = resting.clone();
    core.withdraw(0, &mut resting, 0);
    assert!(resting.is_empty());
    for id in known {
        assert_eq!(core.exchange().book().order(id), None);
    }
    assert_eq!(core.exchange().book().resting_order_count(), 2);
    assert_eq!(core.exchange().account(0).unwrap().cash_reserved, 0);
}
