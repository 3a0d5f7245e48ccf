//! OHLCV bar aggregation from the trade tape.
//!
//! Bars are derived exclusively from executed prints, never from quoted
//! prices. Empty intervals produce no bar, mirroring how real market data
//! feeds elide silent seconds.

use vstd::prelude::*;

use crate::types::{Price, Quantity, SimTime};

verus! {

/// One completed OHLCV bar over `[start_ms, start_ms + width_ms)`.
#[derive(Clone, Copy, Debug, PartialEq, Eq)]
pub struct Bar {
    /// Inclusive start of the bar interval in simulation milliseconds.
    pub start_ms: SimTime,
    pub open: Price,
    pub high: Price,
    pub low: Price,
    pub close: Price,
    pub volume: Quantity,
}

/// A bar with its volume as a mathematical integer.
pub struct Candle {
    pub start_ms: int,
    pub open: Price,
    pub high: Price,
    pub low: Price,
    pub close: Price,
    pub volume: int,
}

impl View for Bar {
    type V = Candle;

    open spec fn view(&self) -> Candle {
        Candle {
            start_ms: self.start_ms as int,
            open: self.open,
            high: self.high,
            low: self.low,
            close: self.close,
            volume: self.volume as int,
        }
    }
}

/// A timed print on the trade tape.
#[derive(Clone, Copy, Debug, PartialEq, Eq)]
pub struct TapePrint {
    pub time_ms: SimTime,
    pub price: Price,
    pub quantity: Quantity,
}

impl TapePrint {
    /// Creates a tape print.
    pub fn new(time_ms: SimTime, price: Price, quantity: Quantity) -> (print: Self)
        ensures
            print == (TapePrint { time_ms, price, quantity }),
    {
        TapePrint { time_ms, price, quantity }
    }
}

impl Candle {
    /// The bar that a print opens.
    pub open spec fn opened(print: TapePrint, width: int) -> Self {
        Candle {
            start_ms: (print.time_ms as int) / width * width,
            open: print.price,
            high: print.price,
            low: print.price,
            close: print.price,
            volume: print.quantity as int,
        }
    }

    /// The bar after a further print.
    pub open spec fn extended(self, print: TapePrint) -> Self {
        Candle {
            high: if print.price > self.high {
                print.price
            } else {
                self.high
            },
            low: if print.price < self.low {
                print.price
            } else {
                self.low
            },
            close: print.price,
            volume: self.volume + print.quantity,
            ..self
        }
    }

    /// Whether a print falls into this bar's interval.
    pub open spec fn holds(self, print: TapePrint, width: int) -> bool {
        (print.time_ms as int) / width == self.start_ms / width
    }

    pub open spec fn fits(self) -> bool {
        Quantity::MIN <= self.volume <= Quantity::MAX
    }
}

/// An aggregator's open bar.
pub open spec fn open_bar(current: Option<Candle>, print: TapePrint, width: int) -> Candle {
    match current {
        Some(bar) if bar.holds(print, width) => bar.extended(print),
        _ => Candle::opened(print, width),
    }
}

/// The bar that a print closes.
pub open spec fn closed_bar(current: Option<Candle>, print: TapePrint, width: int) -> Option<
    Candle,
> {
    match current {
        Some(bar) if !bar.holds(print, width) => Some(bar),
        _ => None,
    }
}

/// The bar still open after `tape`.
pub open spec fn open_after(tape: Seq<TapePrint>, width: int) -> Option<Candle>
    decreases tape.len(),
{
    if tape.len() == 0 {
        None
    } else {
        Some(open_bar(open_after(tape.drop_last(), width), tape.last(), width))
    }
}

/// The bars that `tape` has closed.
pub open spec fn closed_after(tape: Seq<TapePrint>, width: int) -> Seq<Candle>
    decreases tape.len(),
{
    if tape.len() == 0 {
        Seq::empty()
    } else {
        let front = tape.drop_last();
        match closed_bar(open_after(front, width), tape.last(), width) {
            Some(bar) => closed_after(front, width).push(bar),
            None => closed_after(front, width),
        }
    }
}

/// All bars of `tape`, the last one still open.
pub open spec fn bars_of(tape: Seq<TapePrint>, width: int) -> Seq<Candle> {
    match open_after(tape, width) {
        Some(bar) => closed_after(tape, width).push(bar),
        None => closed_after(tape, width),
    }
}

/// No bar outgrows its machine integer while `tape` is taken in.
pub open spec fn volumes_fit(tape: Seq<TapePrint>, width: int) -> bool {
    forall|n: int|
        0 < n <= tape.len() ==> (open_after(#[trigger] tape.take(n), width)->0).fits()
}

/// The view of a bar, if there is one.
pub open spec fn bar_view(bar: Option<Bar>) -> Option<Candle> {
    match bar {
        Some(bar) => Some(bar@),
        None => None,
    }
}

/// Incremental aggregator that turns a stream of prints into fixed-width bars.
#[derive(Clone, Debug)]
pub struct BarAggregator {
    width_ms: SimTime,
    current: Option<Bar>,
}

impl BarAggregator {
    pub closed spec fn width(&self) -> int {
        self.width_ms as int
    }

    pub closed spec fn open_candle(&self) -> Option<Candle> {
        bar_view(self.current)
    }

    /// The bars span some time, and the open one has its prices in order and
    /// starts on a multiple of the width.
    pub closed spec fn wf(&self) -> bool {
        &&& self.width_ms > 0
        &&& self.current matches Some(bar) ==> shaped(bar@, self.width_ms as int)
    }

    /// What a well-formed aggregator shows of itself.
    pub proof fn lemma_wf(&self)
        requires
            self.wf(),
        ensures
            self.width() > 0,
            self.open_candle() matches Some(bar) ==> shaped(bar, self.width()),
            self.open_candle() matches Some(bar) ==> bar.start_ms % self.width() == 0,
    {
    }

    /// Creates an aggregator whose bars each span `width_ms` of sim time.
    pub fn new(width_ms: SimTime) -> (aggregator: Self)
        requires
            width_ms > 0,
        ensures
            aggregator.wf(),
            aggregator.width() == width_ms,
            aggregator.open_candle() is None,
    {
        BarAggregator { width_ms, current: None }
    }

    /// Ingests one print; returns the bar that just closed, if any.
    pub fn push(&mut self, time_ms: SimTime, price: Price, quantity: Quantity) -> (closed: Option<
        Bar,
    >)
        requires
            old(self).wf(),
            open_bar(
                old(self).open_candle(),
                (TapePrint { time_ms, price, quantity }),
                old(self).width(),
            ).fits(),
        ensures
            final(self).wf(),
            final(self).width() == old(self).width(),
            ({
                let print = TapePrint { time_ms, price, quantity };
                &&& bar_view(closed) == closed_bar(old(self).open_candle(), print, old(self).width())
                &&& final(self).open_candle() == Some(
                    open_bar(old(self).open_candle(), print, old(self).width()),
                )
            }),
    {
        let index = time_ms / self.width_ms;
        let ghost print = TapePrint { time_ms, price, quantity };
        if let Some(bar) = self.current {
            if bar.start_ms / self.width_ms == index {
                self.current = Some(
                    Bar {
                        high: if price > bar.high {
                            price
                        } else {
                            bar.high
                        },
                        low: if price < bar.low {
                            price
                        } else {
                            bar.low
                        },
                        close: price,
                        volume: bar.volume + quantity,
                        ..bar
                    },
                );
                return None;
            }
        }
        let closed = self.current;
        proof {
            assert(0 <= (time_ms as int) / (self.width_ms as int) * (self.width_ms as int)
                <= time_ms) by (nonlinear_arith)
                requires
                    self.width_ms > 0,
                    time_ms >= 0,
            ;
            lemma_boundary(time_ms as int, self.width_ms as int);
        }
        self.current = Some(
            Bar {
                start_ms: index * self.width_ms,
                open: price,
                high: price,
                low: price,
                close: price,
                volume: quantity,
            },
        );
        closed
    }

    /// Flushes the trailing partial bar once the session is over.
    pub fn finish(&mut self) -> (last: Option<Bar>)
        ensures
            bar_view(last) == old(self).open_candle(),
            final(self).open_candle() is None,
            final(self).width() == old(self).width(),
            old(self).wf() ==> final(self).wf(),
    {
        let last = self.current;
        self.current = None;
        last
    }
}

/// Builds the full bar series from a trade tape in one pass.
pub fn aggregate_bars(tape: &[TapePrint], width_ms: SimTime) -> (bars: Vec<Bar>)
    requires
        width_ms > 0,
        volumes_fit(tape@, width_ms as int),
    ensures
        bars@.len() == bars_of(tape@, width_ms as int).len(),
        forall|i: int|
            0 <= i < bars@.len() ==> (#[trigger] bars@[i])@ == bars_of(tape@, width_ms as int)[i],
{
    let ghost width = width_ms as int;
    let mut aggregator = BarAggregator::new(width_ms);
    let mut bars: Vec<Bar> = Vec::new();
    let mut i: usize = 0;
    proof {
        assert(tape@.take(0) =~= Seq::empty());
    }
    while i < tape.len()
        invariant
            i <= tape@.len(),
            width == width_ms,
            width_ms > 0,
            volumes_fit(tape@, width),
            aggregator.wf(),
            aggregator.width() == width,
            aggregator.open_candle() == open_after(tape@.take(i as int), width),
            bars@.len() == closed_after(tape@.take(i as int), width).len(),
            forall|j: int|
                0 <= j < bars@.len() ==> (#[trigger] bars@[j])@ == closed_after(
                    tape@.take(i as int),
                    width,
                )[j],
        decreases tape@.len() - i,
    {
        let print = tape[i];
        proof {
            assert(tape@.take(i + 1).drop_last() =~= tape@.take(i as int));
            assert(tape@.take(i + 1).last() == print);
        }
        if let Some(bar) = aggregator.push(print.time_ms, print.price, print.quantity) {
            bars.push(bar);
        }
        i = i + 1;
    }
    proof {
        assert(tape@.take(i as int) =~= tape@);
    }
    if let Some(bar) = aggregator.finish() {
        bars.push(bar);
    }
    bars
}

/// The shares of all prints.
pub open spec fn tape_volume(tape: Seq<TapePrint>) -> int
    decreases tape.len(),
{
    if tape.len() == 0 {
        0
    } else {
        tape_volume(tape.drop_last()) + tape.last().quantity
    }
}

/// The shares of all bars.
pub open spec fn bar_volume(bars: Seq<Candle>) -> int
    decreases bars.len(),
{
    if bars.len() == 0 {
        0
    } else {
        bar_volume(bars.drop_last()) + bars.last().volume
    }
}

/// The prices of a bar are ordered as they must be, and it starts on a
/// boundary.
pub open spec fn shaped(bar: Candle, width: int) -> bool {
    &&& bar.low <= bar.open <= bar.high
    &&& bar.low <= bar.close <= bar.high
    &&& bar.start_ms % width == 0
}

proof fn lemma_boundary(time: int, width: int)
    requires
        width > 0,
    ensures
        (time / width * width) % width == 0,
        (time / width * width) / width == time / width,
{
    assert((time / width * width) % width == 0 && (time / width * width) / width == time / width)
        by (nonlinear_arith)
        requires
            width > 0,
    ;
}

/// No share is lost between tape and bars; every bar has its open and close
/// between its low and its high and starts on a multiple of the width; silent
/// intervals yield no bar, so there are no more bars than prints.
pub proof fn lemma_bars(tape: Seq<TapePrint>, width: int)
    requires
        width > 0,
    ensures
        bar_volume(bars_of(tape, width)) == tape_volume(tape),
        bars_of(tape, width).len() <= tape.len(),
        tape.len() > 0 ==> bars_of(tape, width).len() > 0 && open_after(tape, width) is Some,
        forall|i: int|
            0 <= i < bars_of(tape, width).len() ==> shaped(
                #[trigger] bars_of(tape, width)[i],
                width,
            ),
    decreases tape.len(),
{
    if tape.len() > 0 {
        let front = tape.drop_last();
        let print = tape.last();
        lemma_bars(front, width);
        lemma_boundary(print.time_ms as int, width);
        let before = bars_of(front, width);
        let after = bars_of(tape, width);
        let open = open_after(tape, width)->0;
        if front.len() > 0 {
            let old_open = open_after(front, width)->0;
            assert(before.last() == old_open);
            assert(shaped(before[before.len() - 1], width));
            assert(before.drop_last() =~= closed_after(front, width));
            if old_open.holds(print, width) {
                assert(after.drop_last() =~= before.drop_last());
            } else {
                assert(closed_after(tape, width) =~= before);
                assert(after.drop_last() =~= before);
            }
        } else {
            assert(closed_after(front, width) =~= Seq::empty());
            assert(after.drop_last() =~= Seq::empty());
            assert(bar_volume(Seq::<Candle>::empty()) == 0);
            assert(tape_volume(front) == 0);
        }
        assert forall|i: int| 0 <= i < after.len() implies shaped(#[trigger] after[i], width) by {
            if i < after.len() - 1 {
                assert(after[i] == after.drop_last()[i]);
                if i < before.len() {
                    assert(before[i] == after[i]);
                }
            }
        }
    }
}

/// Time never runs backwards on the tape.
pub open spec fn in_time_order(tape: Seq<TapePrint>) -> bool {
    forall|i: int, j: int|
        0 <= i < j < tape.len() ==> (#[trigger] tape[i]).time_ms <= (#[trigger] tape[j]).time_ms
}

/// On a tape in time order the bars start strictly one after the other, and
/// the last one holds the last print.
pub proof fn lemma_bars_in_time_order(tape: Seq<TapePrint>, width: int)
    requires
        width > 0,
        in_time_order(tape),
    ensures
        forall|i: int, j: int|
            0 <= i < j < bars_of(tape, width).len() ==> (#[trigger] bars_of(
                tape,
                width,
            )[i]).start_ms < (#[trigger] bars_of(tape, width)[j]).start_ms,
        tape.len() > 0 ==> bars_of(tape, width).last().start_ms == (tape.last().time_ms as int)
            / width * width,
    decreases tape.len(),
{
    if tape.len() > 0 {
        let front = tape.drop_last();
        let print = tape.last();
        assert(in_time_order(front)) by {
            assert forall|i: int, j: int| 0 <= i < j < front.len() implies (
            #[trigger] front[i]).time_ms <= (#[trigger] front[j]).time_ms by {
                assert(tape[i].time_ms <= tape[j].time_ms);
            }
        }
        lemma_bars_in_time_order(front, width);
        lemma_bars(front, width);
        lemma_boundary(print.time_ms as int, width);
        let before = bars_of(front, width);
        let after = bars_of(tape, width);
        if front.len() > 0 {
            let old_open = open_after(front, width)->0;
            let earlier = front.last().time_ms as int;
            lemma_boundary(earlier, width);
            assert(before.last() == old_open);
            assert(before.drop_last() =~= closed_after(front, width));
            assert(tape[front.len() - 1].time_ms <= tape[front.len() as int].time_ms);
            assert(earlier / width <= (print.time_ms as int) / width) by (nonlinear_arith)
                requires
                    earlier <= print.time_ms,
                    width > 0,
            ;
            let new_start = (print.time_ms as int) / width * width;
            if old_open.holds(print, width) {
                assert(after.drop_last() =~= before.drop_last());
                assert forall|i: int, j: int| 0 <= i < j < after.len() implies (
                #[trigger] after[i]).start_ms < (#[trigger] after[j]).start_ms by {
                    assert(after[i].start_ms == before[i].start_ms);
                    assert(after[j].start_ms == before[j].start_ms);
                }
            } else {
                assert(closed_after(tape, width) =~= before);
                assert(old_open.start_ms < new_start) by (nonlinear_arith)
                    requires
                        old_open.start_ms == earlier / width * width,
                        earlier / width < (print.time_ms as int) / width,
                        new_start == (print.time_ms as int) / width * width,
                        width > 0,
                ;
                assert forall|i: int, j: int| 0 <= i < j < after.len() implies (
                #[trigger] after[i]).start_ms < (#[trigger] after[j]).start_ms by {
                    assert(after[i] == before[i]);
                    if j < before.len() {
                        assert(after[j] == before[j]);
                    } else if i < before.len() - 1 {
                        assert(before[i].start_ms < before[before.len() - 1].start_ms);
                    }
                }
            }
        }
    }
}

/// The prints of `tape` in the interval `index`, in order.
pub open spec fn within(tape: Seq<TapePrint>, index: int, width: int) -> Seq<TapePrint>
    decreases tape.len(),
{
    if tape.len() == 0 {
        tape
    } else {
        let front = within(tape.drop_last(), index, width);
        if (tape.last().time_ms as int) / width == index {
            front.push(tape.last())
        } else {
            front
        }
    }
}

/// The bar of some prints, at least one.
pub open spec fn candle_of(prints: Seq<TapePrint>, width: int) -> Candle
    decreases prints.len(),
{
    if prints.len() <= 1 {
        Candle::opened(prints[0], width)
    } else {
        candle_of(prints.drop_last(), width).extended(prints.last())
    }
}

proof fn lemma_within_none(tape: Seq<TapePrint>, index: int, width: int)
    requires
        forall|i: int| 0 <= i < tape.len() ==> (#[trigger] tape[i]).time_ms as int / width != index,
    ensures
        within(tape, index, width).len() == 0,
    decreases tape.len(),
{
    if tape.len() > 0 {
        let front = tape.drop_last();
        assert forall|i: int| 0 <= i < front.len() implies (#[trigger] front[i]).time_ms as int
            / width != index by {
            assert(front[i] == tape[i]);
        }
        assert(tape[tape.len() - 1] == tape.last());
        lemma_within_none(front, index, width);
    }
}

proof fn lemma_intervals_apart(a: int, b: int, width: int)
    requires
        width > 0,
        a % width == 0,
        b % width == 0,
        a < b,
    ensures
        a / width < b / width,
{
    assert(a / width < b / width) by (nonlinear_arith)
        requires
            width > 0,
            a % width == 0,
            b % width == 0,
            a < b,
    ;
}

proof fn lemma_no_earlier_interval(a: int, b: int, width: int)
    requires
        width > 0,
        a <= b,
    ensures
        a / width <= b / width,
{
    assert(a / width <= b / width) by (nonlinear_arith)
        requires
            width > 0,
            a <= b,
    ;
}

/// On a tape in time order each bar holds exactly the prints of its interval,
/// and every print is held by a bar.
pub proof fn lemma_bars_hold_their_intervals(tape: Seq<TapePrint>, width: int)
    requires
        width > 0,
        in_time_order(tape),
    ensures
        forall|i: int|
            0 <= i < bars_of(tape, width).len() ==> {
                let bar = #[trigger] bars_of(tape, width)[i];
                let prints = within(tape, bar.start_ms / width, width);
                prints.len() > 0 && bar == candle_of(prints, width)
            },
        forall|k: int|
            0 <= k < tape.len() ==> exists|i: int|
                0 <= i < bars_of(tape, width).len() && (#[trigger] bars_of(tape, width)[i]).holds(
                    #[trigger] tape[k],
                    width,
                ),
    decreases tape.len(),
{
    if tape.len() > 0 {
        let front = tape.drop_last();
        let print = tape.last();
        let index = print.time_ms as int / width;
        let before = bars_of(front, width);
        let after = bars_of(tape, width);
        let n = after.len() - 1;
        assert(in_time_order(front)) by {
            assert forall|i: int, j: int| 0 <= i < j < front.len() implies (
            #[trigger] front[i]).time_ms <= (#[trigger] front[j]).time_ms by {
                assert(tape[i].time_ms <= tape[j].time_ms);
            }
        }
        lemma_bars_hold_their_intervals(front, width);
        lemma_bars(front, width);
        lemma_bars(tape, width);
        lemma_bars_in_time_order(front, width);
        lemma_bars_in_time_order(tape, width);
        lemma_boundary(print.time_ms as int, width);
        assert(after[n] == open_after(tape, width)->0);
        assert(after[n].start_ms / width == index);
        if front.len() > 0 {
            let old_open = open_after(front, width)->0;
            let earlier = front.last().time_ms as int;
            lemma_boundary(earlier, width);
            assert(before[before.len() - 1] == old_open);
            assert(before.drop_last() =~= closed_after(front, width));
            if old_open.holds(print, width) {
                assert(after.len() == before.len());
                assert(within(tape, index, width).drop_last() =~= within(front, index, width));
            } else {
                assert(closed_after(tape, width) =~= before);
                assert(tape[front.len() - 1].time_ms <= tape[front.len() as int].time_ms);
                lemma_no_earlier_interval(earlier, print.time_ms as int, width);
                assert forall|i: int| 0 <= i < front.len() implies (#[trigger] front[i]).time_ms as int
                    / width != index by {
                    assert(front[i].time_ms <= front[front.len() - 1].time_ms);
                    lemma_no_earlier_interval(front[i].time_ms as int, earlier, width);
                }
                lemma_within_none(front, index, width);
            }
        } else {
            lemma_within_none(front, index, width);
        }
        assert forall|i: int| 0 <= i < after.len() implies {
            let bar = #[trigger] after[i];
            let prints = within(tape, bar.start_ms / width, width);
            prints.len() > 0 && bar == candle_of(prints, width)
        } by {
            if i < n {
                assert(after[i] == before[i]);
                assert(shaped(after[i], width) && shaped(after[n], width));
                lemma_intervals_apart(after[i].start_ms, after[n].start_ms, width);
            }
        }
        assert forall|k: int| 0 <= k < tape.len() implies exists|i: int|
            0 <= i < after.len() && (#[trigger] after[i]).holds(#[trigger] tape[k], width) by {
            if k < front.len() {
                assert(front[k] == tape[k]);
                let i = choose|i: int|
                    0 <= i < before.len() && (#[trigger] before[i]).holds(front[k], width);
                assert(after[i].start_ms == before[i].start_ms);
                assert(after[i].holds(tape[k], width));
            } else {
                assert(after[n].holds(tape[k], width));
            }
        }
    }
}

/// Whether no bar of `width_ms` outgrows its machine integer while `tape` is
/// taken in.
pub fn volumes_countable(tape: &[TapePrint], width_ms: SimTime) -> (countable: bool)
    requires
        width_ms > 0,
    ensures
        countable == volumes_fit(tape@, width_ms as int),
{
    let ghost width = width_ms as int;
    let mut interval: SimTime = 0;
    let mut volume: i128 = 0;
    let mut i: usize = 0;
    while i < tape.len()
        invariant
            i <= tape@.len(),
            width == width_ms,
            width_ms > 0,
            i > 0 ==> ({
                let bar = open_after(tape@.take(i as int), width)->0;
                &&& open_after(tape@.take(i as int), width) is Some
                &&& bar.start_ms / width == interval
                &&& bar.volume == volume
            }),
            Quantity::MIN <= volume <= Quantity::MAX,
            forall|n: int|
                0 < n <= i ==> (open_after(#[trigger] tape@.take(n), width)->0).fits(),
        decreases tape@.len() - i,
    {
        let print = tape[i];
        let here = print.time_ms / width_ms;
        proof {
            assert(tape@.take(i + 1).drop_last() =~= tape@.take(i as int));
            assert(tape@.take(i + 1).last() == print);
            lemma_boundary(print.time_ms as int, width);
            if i == 0 {
                assert(tape@.take(0) =~= Seq::empty());
            }
        }
        if i > 0 && here == interval {
            volume = volume + print.quantity as i128;
        } else {
            interval = here;
            volume = print.quantity as i128;
        }
        if volume < Quantity::MIN as i128 || volume > Quantity::MAX as i128 {
            proof {
                assert(!(open_after(tape@.take(i + 1), width)->0).fits());
            }
            return false;
        }
        i = i + 1;
    }
    true
}

proof fn lemma_prefix_volume(tape: Seq<TapePrint>, n: int)
    requires
        0 <= n <= tape.len(),
        forall|i: int| 0 <= i < tape.len() ==> (#[trigger] tape[i]).quantity >= 0,
    ensures
        0 <= tape_volume(tape.take(n)) <= tape_volume(tape),
    decreases tape.len(),
{
    if n < tape.len() {
        lemma_prefix_volume(tape.drop_last(), n);
        assert(tape.drop_last().take(n) =~= tape.take(n));
        assert(tape[tape.len() - 1].quantity >= 0);
    } else {
        assert(tape.take(n) =~= tape);
        if n > 0 {
            lemma_prefix_volume(tape.drop_last(), n - 1);
            assert(tape[tape.len() - 1].quantity >= 0);
        }
    }
}

proof fn lemma_open_volume(tape: Seq<TapePrint>, width: int)
    requires
        tape.len() > 0,
        forall|i: int| 0 <= i < tape.len() ==> (#[trigger] tape[i]).quantity >= 0,
    ensures
        open_after(tape, width) is Some,
        0 <= (open_after(tape, width)->0).volume <= tape_volume(tape),
    decreases tape.len(),
{
    let front = tape.drop_last();
    assert(tape[tape.len() - 1].quantity >= 0);
    lemma_prefix_volume(front, front.len() as int);
    assert(front.take(front.len() as int) =~= front);
    if front.len() > 0 {
        lemma_open_volume(front, width);
    }
}

/// Where all shares traded can be counted, so can those of every bar, whatever
/// the width.
pub proof fn lemma_volumes_fit(tape: Seq<TapePrint>, width: int)
    requires
        forall|i: int| 0 <= i < tape.len() ==> (#[trigger] tape[i]).quantity >= 0,
        tape_volume(tape) <= Quantity::MAX,
    ensures
        volumes_fit(tape, width),
{
    assert forall|n: int| 0 < n <= tape.len() implies (open_after(
        #[trigger] tape.take(n),
        width,
    )->0).fits() by {
        lemma_prefix_volume(tape, n);
        lemma_open_volume(tape.take(n), width);
    }
}

} // verus!
