//! What a bar tells of the trades in its interval.

use vstd::prelude::*;

use crate::bar;
use crate::bar::{Candle, TapePrint};

verus! {

/// The shares of all prints, added up from the first one on.
pub open spec fn shares_printed(prints: Seq<TapePrint>) -> int
    decreases prints.len(),
{
    if prints.len() == 0 {
        0
    } else {
        prints[0].quantity + shares_printed(prints.drop_first())
    }
}

/// `candle` tells of `prints`: the first price and the last, the highest and
/// the lowest, and all shares.
pub open spec fn tells(candle: Candle, prints: Seq<TapePrint>) -> bool {
    &&& prints.len() > 0
    &&& candle.open == prints[0].price
    &&& candle.close == prints[prints.len() - 1].price
    &&& forall|i: int|
        0 <= i < prints.len() ==> candle.low <= (#[trigger] prints[i]).price <= candle.high
    &&& exists|i: int| 0 <= i < prints.len() && (#[trigger] prints[i]).price == candle.high
    &&& exists|i: int| 0 <= i < prints.len() && (#[trigger] prints[i]).price == candle.low
    &&& candle.volume == shares_printed(prints)
}

proof fn lemma_printed_last(prints: Seq<TapePrint>)
    requires
        prints.len() > 0,
    ensures
        shares_printed(prints) == shares_printed(prints.drop_last()) + prints.last().quantity,
    decreases prints.len(),
{
    if prints.len() == 1 {
        assert(prints.drop_first() =~= Seq::empty());
        assert(prints.drop_last() =~= Seq::empty());
        assert(shares_printed(prints.drop_first()) == 0);
        assert(shares_printed(prints.drop_last()) == 0);
    } else {
        lemma_printed_last(prints.drop_first());
        assert(prints.drop_first().drop_last() =~= prints.drop_last().drop_first());
        assert(prints.drop_last()[0] == prints[0]);
    }
}

/// A print opens a bar of its own on the last multiple of the width.
pub proof fn lemma_opened_tells(print: TapePrint, width: int)
    requires
        width > 0,
    ensures
        ({
            let candle = Candle::opened(print, width);
            &&& tells(candle, seq![print])
            &&& candle.start_ms <= print.time_ms < candle.start_ms + width
            &&& candle.start_ms % width == 0
        }),
{
    let prints = seq![print];
    assert(prints.drop_first() =~= Seq::empty());
    assert(shares_printed(prints.drop_first()) == 0);
    assert(prints[0] == print);
    let t = print.time_ms as int;
    assert(t / width * width <= t < t / width * width + width) by (nonlinear_arith)
        requires
            width > 0,
    ;
    assert((t / width * width) % width == 0) by (nonlinear_arith)
        requires
            width > 0,
    ;
}

/// A bar that takes in one more print tells of that too, from where it began.
pub proof fn lemma_extended_tells(candle: Candle, prints: Seq<TapePrint>, print: TapePrint)
    requires
        tells(candle, prints),
    ensures
        tells(candle.extended(print), prints.push(print)),
        candle.extended(print).start_ms == candle.start_ms,
{
    let all = prints.push(print);
    let n = prints.len() as int;
    assert(all.drop_last() =~= prints);
    lemma_printed_last(all);
    let h = choose|i: int| 0 <= i < prints.len() && (#[trigger] prints[i]).price == candle.high;
    let l = choose|i: int| 0 <= i < prints.len() && (#[trigger] prints[i]).price == candle.low;
    assert(all[h] == prints[h] && all[l] == prints[l] && all[n] == print && all[0] == prints[0]);
    assert forall|i: int| 0 <= i < all.len() implies candle.extended(print).low <= (
    #[trigger] all[i]).price <= candle.extended(print).high by {
        if i < n {
            assert(all[i] == prints[i]);
        }
    }
}

proof fn lemma_candle_tells(prints: Seq<TapePrint>, width: int)
    requires
        width > 0,
        prints.len() > 0,
    ensures
        tells(bar::candle_of(prints, width), prints),
    decreases prints.len(),
{
    if prints.len() == 1 {
        assert(prints =~= seq![prints[0]]);
        lemma_opened_tells(prints[0], width);
    } else {
        lemma_candle_tells(prints.drop_last(), width);
        lemma_extended_tells(
            bar::candle_of(prints.drop_last(), width),
            prints.drop_last(),
            prints.last(),
        );
        assert(prints.drop_last().push(prints.last()) =~= prints);
    }
}

proof fn lemma_within_filters(tape: Seq<TapePrint>, start: int, width: int)
    requires
        width > 0,
        start % width == 0,
    ensures
        bar::within(tape, start / width, width) == tape.filter(
            |p: TapePrint| start <= p.time_ms < start + width,
        ),
    decreases tape.len(),
{
    reveal(Seq::filter);
    if tape.len() > 0 {
        lemma_within_filters(tape.drop_last(), start, width);
        let t = tape.last().time_ms as int;
        assert(t / width == start / width <==> start <= t < start + width) by (nonlinear_arith)
            requires
                width > 0,
                start % width == 0,
        ;
    }
}

/// On a tape in time order every bar tells of exactly the prints between its
/// start and the start of the next interval.
pub proof fn lemma_bars_tell(tape: Seq<TapePrint>, width: int, i: int)
    requires
        width > 0,
        bar::in_time_order(tape),
        0 <= i < bar::bars_of(tape, width).len(),
    ensures
        ({
            let candle = bar::bars_of(tape, width)[i];
            let start = candle.start_ms;
            &&& start % width == 0
            &&& tells(candle, tape.filter(|p: TapePrint| start <= p.time_ms < start + width))
        }),
{
    let candle = bar::bars_of(tape, width)[i];
    let prints = bar::within(tape, candle.start_ms / width, width);
    bar::lemma_bars(tape, width);
    bar::lemma_bars_hold_their_intervals(tape, width);
    assert(bar::shaped(candle, width));
    assert(prints.len() > 0 && candle == bar::candle_of(prints, width));
    lemma_candle_tells(prints, width);
    lemma_within_filters(tape, candle.start_ms, width);
}

/// Every print on a tape in time order is told of by one of its bars.
pub proof fn lemma_every_print_told(tape: Seq<TapePrint>, width: int, k: int)
    requires
        width > 0,
        bar::in_time_order(tape),
        0 <= k < tape.len(),
    ensures
        exists|i: int|
            0 <= i < bar::bars_of(tape, width).len() && {
                let candle = #[trigger] bar::bars_of(tape, width)[i];
                candle.start_ms <= tape[k].time_ms < candle.start_ms + width
            },
{
    bar::lemma_bars(tape, width);
    bar::lemma_bars_hold_their_intervals(tape, width);
    let i = choose|i: int|
        0 <= i < bar::bars_of(tape, width).len() && (#[trigger] bar::bars_of(tape, width)[i]).holds(
            tape[k],
            width,
        );
    let start = bar::bars_of(tape, width)[i].start_ms;
    let t = tape[k].time_ms as int;
    assert(bar::shaped(bar::bars_of(tape, width)[i], width));
    assert(start <= t < start + width) by (nonlinear_arith)
        requires
            width > 0,
            start % width == 0,
            t / width == start / width,
    ;
}

/// A print that falls into the interval of the open bar extends it and closes
/// none; any other closes the open bar as it is and opens its own.
pub proof fn lemma_print_taken_in(current: Option<Candle>, print: TapePrint, width: int)
    requires
        width > 0,
        current matches Some(open) ==> open.start_ms % width == 0,
    ensures
        ({
            let after = bar::open_bar(current, print, width);
            let closed = bar::closed_bar(current, print, width);
            match current {
                None => closed is None && after == Candle::opened(print, width),
                Some(open) => if open.start_ms <= print.time_ms < open.start_ms + width {
                    closed is None && after == open.extended(print)
                } else {
                    closed == Some(open) && after == Candle::opened(print, width)
                },
            }
        }),
{
    if let Some(open) = current {
        let t = print.time_ms as int;
        let start = open.start_ms;
        assert(t / width == start / width <==> start <= t < start + width) by (nonlinear_arith)
            requires
                width > 0,
                start % width == 0,
        ;
    }
}

} // verus!
