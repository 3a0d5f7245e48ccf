//! Bars from the trade tape.

use trading_simulator::bar::{
    aggregate_bars, volumes_countable, Bar, BarAggregator, TapePrint,
};

#[test]
fn bars_roll_on_width_boundaries_with_correct_ohlcv() {
    let mut agg = BarAggregator::new(1_000);
    assert_eq!(agg.push(100, 10, 1), None);
    assert_eq!(agg.push(500, 12, 2), None);
    assert_eq!(agg.push(900, 11, 3), None);

    let closed = agg.push(1_200, 13, 4).expect("first bar closes");
    assert_eq!(
        closed,
        Bar {
            start_ms: 0,
            open: 10,
            high: 12,
            low: 10,
            close: 11,
            volume: 6,
        }
    );

    // 1900 ms is still inside the second bar's interval.
    assert_eq!(agg.push(1_900, 9, 1), None);

    let second = agg.finish().expect("second bar closes at finish");
    assert_eq!(
        second,
        Bar {
            start_ms: 1_000,
            open: 13,
            high: 13,
            low: 9,
            close: 9,
            volume: 5,
        }
    );
    assert_eq!(agg.finish(), None);
}

#[test]
fn silent_intervals_are_skipped_not_filled() {
    let bars = aggregate_bars(
        &[
            TapePrint::new(0, 10, 1),
            TapePrint::new(500, 11, 1),
            // The whole [1000, 3000) window has no prints.
            TapePrint::new(3_100, 12, 2),
        ],
        1_000,
    );
    assert_eq!(bars.len(), 2);
    assert_eq!(bars[0].start_ms, 0);
    assert_eq!(bars[0].close, 11);
    assert_eq!(bars[1].start_ms, 3_000);
    assert_eq!(bars[1].open, 12);
}

#[test]
fn no_share_is_lost_between_tape_and_bars() {
    let tape: Vec<TapePrint> = (0..200)
        .map(|i| TapePrint::new(i * 37, 100 + (i as i64 % 7), 1 + i as i64))
        .collect();
    let total = (1..=200).sum::<i128>();
    for width in [1, 50, 1_000, 100_000] {
        let bars = aggregate_bars(&tape, width);
        assert_eq!(bars.iter().map(|bar| bar.volume as i128).sum::<i128>(), total);
        assert!(bars.windows(2).all(|pair| pair[0].start_ms < pair[1].start_ms));
        for bar in &bars {
            assert_eq!(bar.start_ms % width, 0);
            assert!(bar.low <= bar.open.min(bar.close) && bar.high >= bar.open.max(bar.close));
        }
    }
    assert!(aggregate_bars(&[], 1_000).is_empty());
}

#[test]
fn each_bar_holds_the_prints_of_its_interval() {
    let tape: Vec<TapePrint> = [0, 999, 1_000, 1_001, 1_999, 5_000, 5_000, 9_999]
        .iter()
        .enumerate()
        .map(|(i, &time)| TapePrint::new(time, 100 + i as i64 * 3 % 7, 10 + i as i64))
        .collect();
    let bars = aggregate_bars(&tape, 1_000);
    for bar in &bars {
        let prints: Vec<&TapePrint> = tape
            .iter()
            .filter(|print| print.time_ms / 1_000 == bar.start_ms / 1_000)
            .collect();
        assert_eq!(bar.open, prints[0].price);
        assert_eq!(bar.close, prints[prints.len() - 1].price);
        assert_eq!(Some(bar.high), prints.iter().map(|print| print.price).max());
        assert_eq!(Some(bar.low), prints.iter().map(|print| print.price).min());
        assert_eq!(bar.volume, prints.iter().map(|print| print.quantity).sum::<i64>());
    }
    let starts: Vec<u64> = bars.iter().map(|bar| bar.start_ms).collect();
    assert_eq!(starts, [0, 1_000, 5_000, 9_000]);
}

#[test]
fn only_single_bars_must_be_countable() {
    let tape = [
        TapePrint::new(0, 10, i64::MAX),
        TapePrint::new(1_000, 10, i64::MAX),
        TapePrint::new(2_000, 10, 1),
    ];
    assert!(volumes_countable(&tape, 1_000));
    assert!(!volumes_countable(&tape, 2_000));
    assert!(!volumes_countable(&tape, 10_000));
    assert_eq!(aggregate_bars(&tape, 1_000).len(), 3);
    assert!(volumes_countable(&[], 1));
}
