//! The matching core: book, accounts and replay.

use trading_simulator::{
    Account, AccountId, CancelResult, Event, EventKey, EventKind, EventOutcome, Exchange,
    ExchangeError, IncomingOrder, LevelSnapshot, LimitOrderRequest, OrderBook, Price,
    PriceLimits, Quantity, Side, Trade,
};

const SYMBOL: &str = "600000.SH";

fn seeded(cash: i128, shares: Quantity) -> Account {
    let mut account = Account::with_cash(cash);
    account.seed_settled_position(SYMBOL, shares);
    account
}

fn funded_exchange() -> Exchange {
    let mut exchange = Exchange::new(SYMBOL);
    exchange.add_account(1, seeded(100_000, 100)).unwrap();
    exchange.add_account(2, seeded(100_000, 100)).unwrap();
    exchange.add_account(3, seeded(100_000, 100)).unwrap();
    exchange
        .add_account(4, Account::with_cash(100_000))
        .unwrap();
    exchange
}

fn order(
    account_id: AccountId,
    side: Side,
    price: Price,
    quantity: Quantity,
) -> LimitOrderRequest {
    LimitOrderRequest {
        account_id,
        side,
        limit_price: price,
        quantity,
    }
}

#[test]
fn matches_best_price_before_arrival_time() {
    let mut exchange = funded_exchange();
    let higher_ask = exchange
        .submit_limit_order(order(1, Side::Sell, 101, 5))
        .unwrap();
    let lower_ask = exchange
        .submit_limit_order(order(2, Side::Sell, 100, 5))
        .unwrap();

    let result = exchange
        .submit_limit_order(order(3, Side::Buy, 102, 7))
        .unwrap();

    assert_eq!(result.remaining, 0);
    assert_eq!(result.trades.len(), 2);
    assert_eq!(result.trades[0].price, 100);
    assert_eq!(result.trades[0].quantity, 5);
    assert_eq!(result.trades[0].maker_order_id, lower_ask.order_id);
    assert_eq!(result.trades[1].price, 101);
    assert_eq!(result.trades[1].quantity, 2);
    assert_eq!(result.trades[1].maker_order_id, higher_ask.order_id);
    assert_eq!(
        exchange
            .book()
            .order(higher_ask.order_id)
            .unwrap()
            .remaining,
        3
    );
    assert_eq!(exchange.book().best_ask(), Some(101));
}

#[test]
fn preserves_time_priority_within_a_price_level() {
    let mut exchange = funded_exchange();
    let first = exchange
        .submit_limit_order(order(1, Side::Sell, 100, 4))
        .unwrap();
    let second = exchange
        .submit_limit_order(order(2, Side::Sell, 100, 4))
        .unwrap();

    let result = exchange
        .submit_limit_order(order(3, Side::Buy, 100, 6))
        .unwrap();

    assert_eq!(result.trades[0].maker_order_id, first.order_id);
    assert_eq!(result.trades[1].maker_order_id, second.order_id);
    assert_eq!(exchange.book().order(second.order_id).unwrap().remaining, 2);
}

#[test]
fn cancellation_releases_the_exact_unfilled_cash_reservation() {
    let mut exchange = funded_exchange();
    let buy = exchange
        .submit_limit_order(order(3, Side::Buy, 100, 10))
        .unwrap();
    assert_eq!(exchange.account(3).unwrap().cash_available, 99_000);
    assert_eq!(exchange.account(3).unwrap().cash_reserved, 1_000);

    exchange
        .submit_limit_order(order(1, Side::Sell, 99, 4))
        .unwrap();
    assert_eq!(exchange.account(3).unwrap().cash_available, 99_000);
    assert_eq!(exchange.account(3).unwrap().cash_reserved, 600);

    let cancelled = exchange.cancel_order(3, buy.order_id).unwrap();
    assert_eq!(cancelled.released_quantity, 6);
    assert_eq!(exchange.account(3).unwrap().cash_available, 99_600);
    assert_eq!(exchange.account(3).unwrap().cash_reserved, 0);
    assert_eq!(exchange.book().resting_order_count(), 0);
}

#[test]
fn t_plus_one_blocks_same_day_resale_until_settlement() {
    let mut exchange = funded_exchange();
    exchange
        .submit_limit_order(order(1, Side::Sell, 100, 10))
        .unwrap();
    exchange
        .submit_limit_order(order(4, Side::Buy, 100, 10))
        .unwrap();

    assert_eq!(
        exchange.account(4).unwrap().position(SYMBOL).unsettled_buys,
        10
    );
    assert_eq!(
        exchange.submit_limit_order(order(4, Side::Sell, 100, 10)),
        Err(ExchangeError::InsufficientSellable {
            requested: 10,
            sellable: 0,
        })
    );

    exchange.settle_trading_day();
    let resale = exchange
        .submit_limit_order(order(4, Side::Sell, 100, 10))
        .unwrap();
    assert_eq!(resale.remaining, 10);
    assert_eq!(exchange.account(4).unwrap().position(SYMBOL).sellable, 0);
}

#[test]
fn rejected_submission_does_not_consume_an_order_id() {
    let mut exchange = funded_exchange();
    assert_eq!(
        exchange.submit_limit_order(order(4, Side::Buy, 100, 1_001)),
        Err(ExchangeError::InsufficientCash {
            required: 100_100,
            available: 100_000,
        })
    );
    assert_eq!(exchange.account(4).unwrap().cash_available, 100_000);
    assert_eq!(exchange.account(4).unwrap().cash_reserved, 0);

    let accepted = exchange
        .submit_limit_order(order(1, Side::Sell, 100, 1))
        .unwrap();
    assert_eq!(accepted.order_id, 1);
}

#[test]
fn duplicate_account_does_not_replace_the_original_account() {
    let mut exchange = Exchange::new(SYMBOL);
    exchange.add_account(1, Account::with_cash(10)).unwrap();
    assert_eq!(
        exchange.add_account(1, Account::with_cash(99)),
        Err(ExchangeError::DuplicateAccount(1))
    );
    assert_eq!(exchange.account(1).unwrap().cash_available, 10);
}

#[test]
fn depth_is_best_to_worst_and_aggregates_a_level() {
    let mut exchange = funded_exchange();
    exchange
        .submit_limit_order(order(1, Side::Buy, 99, 4))
        .unwrap();
    exchange
        .submit_limit_order(order(2, Side::Buy, 99, 6))
        .unwrap();
    exchange
        .submit_limit_order(order(3, Side::Buy, 98, 5))
        .unwrap();

    assert_eq!(
        exchange.book().depth(Side::Buy, 10),
        vec![
            LevelSnapshot {
                price: 99,
                quantity: 10,
                order_count: 2,
            },
            LevelSnapshot {
                price: 98,
                quantity: 5,
                order_count: 1,
            },
        ]
    );
}

fn key(sim_time: u64, source_seq: u64) -> EventKey {
    EventKey {
        sim_time,
        source_priority: 1,
        source_seq,
    }
}

#[test]
fn replay_sorts_events_and_reproduces_the_same_state() {
    let events = vec![
        Event {
            key: key(20, 1),
            kind: EventKind::Submit(order(3, Side::Buy, 101, 4)),
        },
        Event {
            key: key(10, 2),
            kind: EventKind::Submit(order(2, Side::Sell, 100, 5)),
        },
        Event {
            key: key(30, 3),
            kind: EventKind::SettleTradingDay,
        },
    ];

    let mut first = funded_exchange();
    let first_log = first.replay(events.clone()).unwrap();
    let mut second = funded_exchange();
    let second_log = second.replay(events.into_iter().rev().collect()).unwrap();

    assert_eq!(first_log, second_log);
    assert_eq!(first, second);
    assert_eq!(
        first.trades(),
        &[Trade {
            id: 1,
            price: 100,
            quantity: 4,
            maker_order_id: 1,
            taker_order_id: 2,
            buyer_account_id: 3,
            seller_account_id: 2,
        }]
    );
}

#[test]
fn replay_rejects_ambiguous_event_keys() {
    let mut exchange = funded_exchange();
    let key = EventKey {
        sim_time: 10,
        source_priority: 1,
        source_seq: 1,
    };
    let error = exchange
        .replay(vec![
            Event {
                key,
                kind: EventKind::SettleTradingDay,
            },
            Event {
                key,
                kind: EventKind::SettleTradingDay,
            },
        ])
        .unwrap_err();
    assert_eq!(error, ExchangeError::DuplicateEventKey(key));
}

#[test]
fn replay_in_two_parts_equals_replay_in_one() {
    let events: Vec<Event> = vec![
        EventKind::Submit(order(1, Side::Sell, 101, 5)),
        EventKind::Submit(order(3, Side::Buy, 101, 2)),
        EventKind::Cancel {
            account_id: 1,
            order_id: 1,
        },
        EventKind::SettleTradingDay,
        EventKind::Submit(order(3, Side::Sell, 100, 1)),
    ]
    .into_iter()
    .enumerate()
    .map(|(i, kind)| Event {
        key: key(i as u64, i as u64),
        kind,
    })
    .collect();
    let mut whole = funded_exchange();
    let outcomes = whole.replay(events.clone()).unwrap();
    let mut parts = funded_exchange();
    parts.replay(events[..3].to_vec()).unwrap();
    parts.replay(events[3..].to_vec()).unwrap();
    assert_eq!(whole, parts);
    assert_eq!(outcomes.len(), 5);
    assert_eq!(
        outcomes[2].outcome,
        EventOutcome::Cancelled(Ok(CancelResult {
            order_id: 1,
            released_quantity: 3,
        }))
    );
    assert_eq!(outcomes[3].outcome, EventOutcome::Settled);
}

#[test]
fn every_refusal_names_its_reason() {
    let mut exchange = funded_exchange();
    exchange.set_price_limits(100, 1_000);
    assert_eq!(
        exchange.submit_limit_order(order(1, Side::Buy, 0, 1)),
        Err(ExchangeError::InvalidPrice(0))
    );
    assert_eq!(
        exchange.submit_limit_order(order(1, Side::Buy, 100, -1)),
        Err(ExchangeError::InvalidQuantity(-1))
    );
    assert_eq!(
        exchange.submit_limit_order(order(1, Side::Buy, 111, 1)),
        Err(ExchangeError::PriceOutsideLimits {
            price: 111,
            lower: 90,
            upper: 110,
        })
    );
    assert_eq!(
        exchange.submit_limit_order(order(9, Side::Buy, 100, 1)),
        Err(ExchangeError::UnknownAccount(9))
    );
    assert_eq!(
        exchange.submit_limit_order(order(1, Side::Sell, 100, 101)),
        Err(ExchangeError::InsufficientSellable {
            requested: 101,
            sellable: 100,
        })
    );
    assert_eq!(
        exchange.cancel_order(1, 5),
        Err(ExchangeError::UnknownOrder(5))
    );
    let resting = exchange
        .submit_limit_order(order(1, Side::Sell, 110, 1))
        .unwrap();
    assert_eq!(
        exchange.cancel_order(2, resting.order_id),
        Err(ExchangeError::OrderOwnedByDifferentAccount {
            order_id: resting.order_id,
            owner: 1,
        })
    );
    // Both edges of the band are legal.
    assert!(exchange
        .submit_limit_order(order(1, Side::Buy, 90, 1))
        .is_ok());
}

#[test]
fn a_cancelled_submission_leaves_the_accounts_as_they_were() {
    let mut exchange = funded_exchange();
    let before = exchange.account(2).unwrap().clone();
    let sell = exchange
        .submit_limit_order(order(2, Side::Sell, 120, 7))
        .unwrap();
    assert_eq!(exchange.account(2).unwrap().position(SYMBOL).sellable, 93);
    exchange.cancel_order(2, sell.order_id).unwrap();
    assert_eq!(exchange.account(2).unwrap(), &before);
}

#[test]
fn best_prices_are_the_extremes_of_the_book() {
    let mut exchange = funded_exchange();
    assert_eq!(exchange.book().best_bid(), None);
    assert_eq!(exchange.book().best_ask(), None);
    for price in [97, 99, 98] {
        exchange
            .submit_limit_order(order(1, Side::Buy, price, 1))
            .unwrap();
    }
    for price in [103, 101, 102] {
        exchange
            .submit_limit_order(order(2, Side::Sell, price, 1))
            .unwrap();
    }
    assert_eq!(exchange.book().best_bid(), Some(99));
    assert_eq!(exchange.book().best_ask(), Some(101));
    assert_eq!(exchange.book().resting_order_count(), 6);
    let asks: Vec<Price> = exchange
        .book()
        .depth(Side::Sell, 2)
        .iter()
        .map(|level| level.price)
        .collect();
    assert_eq!(asks, vec![101, 102]);
}

#[test]
fn trading_conserves_cash_and_shares() {
    let mut exchange = funded_exchange();
    for i in 0..40 {
        let account = 1 + i % 4;
        let side = if i % 3 == 0 { Side::Sell } else { Side::Buy };
        let _ = exchange.submit_limit_order(order(account, side, 98 + (i as i64 * 7) % 5, 3));
        if i % 10 == 9 {
            exchange.settle_trading_day();
        }
    }
    let mut cash = 0;
    let mut shares = 0;
    for account in 1..=4 {
        let account = exchange.account(account).unwrap();
        let position = account.position(SYMBOL);
        cash += account.total_cash();
        shares += position.settled + position.unsettled_buys;
        assert!(account.cash_available() >= 0 && account.cash_reserved() >= 0);
        assert!(position.sellable >= 0 && position.sellable <= position.settled);
    }
    assert!(!exchange.trades().is_empty());
    assert_eq!(cash, 400_000);
    assert_eq!(shares, 300);
}

#[test]
fn price_bands_round_towards_the_reference_and_stay_positive() {
    assert_eq!(
        PriceLimits::centred(1_005, 1_000),
        PriceLimits {
            lower: 905,
            upper: 1_105,
            limit_bp: 1_000,
        }
    );
    assert_eq!(PriceLimits::centred(3, 20_000).lower, 1);
    let mut exchange = funded_exchange();
    exchange.set_price_limits(100, 1_000);
    exchange
        .submit_limit_order(order(1, Side::Sell, 105, 1))
        .unwrap();
    exchange
        .submit_limit_order(order(3, Side::Buy, 105, 1))
        .unwrap();
    exchange.settle_trading_day();
    assert_eq!(
        exchange.price_limits(),
        Some(PriceLimits {
            lower: 95,
            upper: 115,
            limit_bp: 1_000,
        })
    );
}

#[test]
fn a_default_book_is_empty() {
    let book = OrderBook::default();
    assert_eq!(book.resting_order_count(), 0);
    assert!(book.depth(Side::Buy, 5).is_empty());
    assert_eq!(book.order(1), None);
}

#[test]
fn slots_of_cancelled_orders_are_reused_safely() {
    let mut exchange = funded_exchange();
    let first = exchange
        .submit_limit_order(order(1, Side::Buy, 90, 1))
        .unwrap();
    exchange.cancel_order(1, first.order_id).unwrap();
    let second = exchange
        .submit_limit_order(order(1, Side::Buy, 91, 2))
        .unwrap();
    assert_eq!(exchange.book().order(first.order_id), None);
    assert_eq!(exchange.book().order(second.order_id).unwrap().remaining, 2);
    assert_eq!(
        exchange.cancel_order(1, first.order_id),
        Err(ExchangeError::UnknownOrder(first.order_id))
    );
}

#[test]
fn trade_ids_count_from_one_without_gaps() {
    let mut exchange = funded_exchange();
    for i in 0..60 {
        let account = 1 + i % 4;
        let side = if i % 3 == 0 { Side::Sell } else { Side::Buy };
        let _ = exchange.submit_limit_order(order(account, side, 98 + (i as i64 * 7) % 5, 3));
        let _ = exchange.cancel_order(account, i / 2);
        if i % 10 == 9 {
            exchange.settle_trading_day();
        }
    }
    let ids: Vec<u64> = exchange.trades().iter().map(|trade| trade.id).collect();
    assert!(ids.len() > 5);
    assert_eq!(ids, (1..=ids.len() as u64).collect::<Vec<u64>>());
}

#[test]
fn an_order_keeps_its_owner_while_it_rests() {
    let mut exchange = funded_exchange();
    let resting = exchange
        .submit_limit_order(order(1, Side::Sell, 105, 9))
        .unwrap()
        .order_id;
    for quantity in [2, 3] {
        exchange
            .submit_limit_order(order(4, Side::Buy, 105, quantity))
            .unwrap();
        assert_eq!(exchange.book().order(resting).unwrap().account_id, 1);
    }
    exchange.settle_trading_day();
    let left = exchange.book().order(resting).unwrap();
    assert_eq!((left.account_id, left.limit_price, left.remaining), (1, 105, 4));
    assert!(exchange.cancel_order(2, resting).is_err());
    exchange.cancel_order(1, resting).unwrap();
    assert_eq!(exchange.book().order(resting), None);
}

#[test]
fn depth_leaves_out_the_worst_prices_only() {
    let mut exchange = funded_exchange();
    for (account, price, quantity) in [(1, 95, 1), (2, 97, 2), (1, 97, 3), (3, 99, 4), (2, 96, 5)] {
        exchange
            .submit_limit_order(order(account, Side::Buy, price, quantity))
            .unwrap();
    }
    let level = |price, quantity, order_count| LevelSnapshot {
        price,
        quantity,
        order_count,
    };
    assert_eq!(
        exchange.book().depth(Side::Buy, 3),
        vec![level(99, 4, 1), level(97, 5, 2), level(96, 5, 1)]
    );
}

#[test]
fn a_level_that_cannot_be_counted_is_not_shown() {
    let mut book = OrderBook::default();
    for id in 1..=2 {
        let mut incoming = IncomingOrder {
            id,
            account_id: 1,
            side: Side::Sell,
            limit_price: 100,
            remaining: i64::MAX,
        };
        assert!(book.match_incoming(&mut incoming).is_empty());
        assert_eq!(book.checked_depth(Side::Sell, 5).is_some(), id == 1);
    }
    assert_eq!(book.checked_depth(Side::Sell, 0), Some(vec![]));
    assert_eq!(book.cancel(1).unwrap().id, 1);
    assert_eq!(book.cancel(1), None);
    assert_eq!(book.depth(Side::Sell, 5).len(), 1);
}

#[test]
fn makers_at_one_price_trade_in_the_order_of_their_arrival() {
    let mut exchange = funded_exchange();
    for (account, price) in [(3, 101), (1, 100), (2, 101), (2, 100), (1, 101), (3, 100)] {
        exchange
            .submit_limit_order(order(account, Side::Sell, price, 2))
            .unwrap();
    }
    let trades = exchange
        .submit_limit_order(order(4, Side::Buy, 101, 11))
        .unwrap()
        .trades;
    let makers: Vec<(Price, u64)> = trades
        .iter()
        .map(|trade| (trade.price, trade.maker_order_id))
        .collect();
    assert_eq!(
        makers,
        [(100, 2), (100, 4), (100, 6), (101, 1), (101, 3), (101, 5)]
    );
    assert_eq!(exchange.book().order(5).unwrap().remaining, 1);
}

#[test]
fn a_repeated_key_is_refused_in_whatever_order_the_log_comes() {
    let settle = |time, seq| Event {
        key: key(time, seq),
        kind: EventKind::SettleTradingDay,
    };
    let log = vec![settle(3, 1), settle(2, 1), settle(3, 1), settle(1, 1), settle(2, 1)];
    let mut rotated = log.clone();
    for _ in 0..log.len() {
        rotated.rotate_left(1);
        let mut exchange = funded_exchange();
        assert_eq!(
            exchange.replay(rotated.clone()),
            Err(ExchangeError::DuplicateEventKey(key(2, 1)))
        );
        assert_eq!(exchange, funded_exchange());
    }
}

#[test]
fn reservations_are_what_the_resting_orders_need() {
    let mut exchange = funded_exchange();
    let mut reported: Vec<Trade> = Vec::new();
    for i in 0..80u64 {
        let account = 1 + i % 4;
        let side = if i % 3 == 0 { Side::Sell } else { Side::Buy };
        let request = order(account, side, 97 + (i as i64 * 11) % 7, 1 + (i as i64) % 4);
        if let Ok(result) = exchange.submit_limit_order(request) {
            reported.extend(result.trades);
        }
        let _ = exchange.cancel_order(1 + i % 3, i / 3);
        if i % 20 == 19 {
            exchange.settle_trading_day();
        }
        for account_id in 1..=4 {
            let (mut cash, mut shares) = (0, 0);
            for id in 1..=i + 1 {
                if let Some(resting) = exchange.book().order(id) {
                    if resting.account_id == account_id {
                        match resting.side {
                            Side::Buy => cash += (resting.limit_price * resting.remaining) as i128,
                            Side::Sell => shares += resting.remaining,
                        }
                    }
                }
            }
            let account = exchange.account(account_id).unwrap();
            let position = account.position(SYMBOL);
            assert_eq!(account.cash_reserved, cash);
            assert_eq!(position.settled - position.sellable, shares);
        }
        if let (Some(bid), Some(ask)) = (exchange.book().best_bid(), exchange.book().best_ask()) {
            assert!(bid < ask);
        }
    }
    assert!(!reported.is_empty());
    assert_eq!(exchange.trades(), reported.as_slice());
}
