//! One game session: a game market, the requests a client makes of it, and the
//! snapshots it is shown.

use vstd::prelude::*;

use crate::bar;
use crate::bar::{Bar, Candle, TapePrint};
use crate::book_model::BookView;
use crate::game;
use crate::game::{GameConfig, GameMarket, GameSnapshot, GameView};
use crate::protocol::{
    Ack, AckView, BarDto, ClientMsg, FillDto, LevelDto, ManipTag, OpenOrderDto, PlayerDto,
    RegimeTag, Rejection, ServerMsg, SideTagWire, Snapshot, TapeDto,
};
use crate::replay::Event;
use crate::types::{
    LevelSnapshot, OrderId, Price, Quantity, RestingOrder, Side, SimTime, Trade,
};

verus! {

/// Width of one OHLCV bar on the wire, simulated milliseconds.
pub const BAR_WIDTH_MS: SimTime = 5_000;

/// Recent tape prints carried per snapshot.
pub const TAPE_WINDOW: usize = 40;

/// Bars carried per snapshot.
pub const BAR_WINDOW: usize = 180;

/// Real milliseconds between ticks.
pub const TICK_MS: u64 = 100;

/// The last `n` items, or all where there are fewer.
pub open spec fn recent<T>(items: Seq<T>, n: int) -> Seq<T> {
    if items.len() > n {
        items.skip(items.len() - n)
    } else {
        items
    }
}

/// Where the last `n` of `len` items begin.
fn recent_start(len: usize, n: usize) -> (start: usize)
    ensures
        start == (if len > n {
            len - n
        } else {
            0
        }),
{
    if len > n {
        len - n
    } else {
        0
    }
}

/// What an acknowledgement reports of `trades`.
pub open spec fn fills_of(trades: Seq<Trade>) -> Seq<FillDto> {
    trades.map_values(|t: Trade| FillDto { price: t.price, quantity: t.quantity })
}

/// What a snapshot carries of a tape print.
pub open spec fn print_dto(print: TapePrint) -> TapeDto {
    TapeDto { t: print.time_ms, price: print.price, quantity: print.quantity }
}

/// What a snapshot carries of an open order.
pub open spec fn order_dto(order: RestingOrder) -> OpenOrderDto {
    OpenOrderDto {
        order_id: order.id,
        side: SideTagWire::of(order.side),
        price: order.limit_price,
        remaining: order.remaining,
    }
}

impl View for BarDto {
    type V = Candle;

    open spec fn view(&self) -> Candle {
        Candle {
            start_ms: self.t as int,
            open: self.open,
            high: self.high,
            low: self.low,
            close: self.close,
            volume: self.volume as int,
        }
    }
}

/// `levels` is what a snapshot carries of one side of the book.
pub open spec fn carries_depth(levels: Seq<LevelDto>, book: BookView, side: Side) -> bool {
    let depth = book.depth(side, game::SNAPSHOT_DEPTH as nat);
    &&& levels.len() == depth.len()
    &&& forall|i: int| 0 <= i < levels.len() ==> (#[trigger] levels[i])@ == depth[i]
}

/// `bars` is what a snapshot carries of the bars of `tape`.
pub open spec fn carries_bars(bars: Seq<BarDto>, tape: Seq<TapePrint>) -> bool {
    let last = recent(bar::bars_of(tape, BAR_WIDTH_MS as int), BAR_WINDOW as int);
    &&& bars.len() == last.len()
    &&& forall|i: int| 0 <= i < bars.len() ==> (#[trigger] bars[i])@ == last[i]
}

impl PlayerDto {
    /// The account and orders are the player's in `game`.
    pub open spec fn shows(self, game: GameView) -> bool {
        let exchange = game.market_core().exchange;
        let account = game.player_account();
        let shares = account.shares(exchange.symbol);
        &&& self.cash_available == account.cash_available
        &&& self.cash_reserved == account.cash_reserved
        &&& self.settled == shares.settled
        &&& self.unsettled_buys == shares.unsettled_buys
        &&& self.sellable == shares.sellable
        &&& self.equity == game.equity()
        &&& self.open_orders@ == game::open_orders(
            exchange.book,
            game.player_resting,
        ).map_values(|o: RestingOrder| order_dto(o))
    }
}

impl Snapshot {
    /// The snapshot is one of `game`.
    pub open spec fn shows(self, game: GameView) -> bool {
        let core = game.market_core();
        let book = core.exchange.book;
        &&& self.now_ms == core.now_ms
        &&& self.regime == RegimeTag::of(game.inner.regime)
        &&& self.best_bid == book.best(Side::Buy)
        &&& self.best_ask == book.best(Side::Sell)
        &&& self.mark == core.mark()
        &&& self.last_trade == core.last_trade_price
        &&& self.limit == (match core.exchange.limits {
            Some(limits) => Some((limits.lower, limits.upper)),
            None => None,
        })
        &&& carries_depth(self.bids@, book, Side::Buy)
        &&& carries_depth(self.asks@, book, Side::Sell)
        &&& carries_bars(self.bars@, core.tape)
        &&& self.tape@ == recent(core.tape, TAPE_WINDOW as int).map_values(
            |p: TapePrint| print_dto(p),
        )
        &&& self.manip_phase == ManipTag::of(game.manip.phase)
        &&& self.player.shows(game)
    }
}

impl GameView {
    /// How an order request is answered.
    pub open spec fn order_ack(self, side: Side, price: Price, lots: i64, seq: u64) -> AckView {
        let request = self.player_request(side, price, lots);
        if lots <= 0 {
            AckView::rejected(seq, Rejection::LotsNotPositive)
        } else {
            match self.market_core().exchange.submit_answer(request) {
                Ok(receipt) => AckView::accepted(
                    seq,
                    if receipt.remaining > 0 {
                        receipt.order_id
                    } else {
                        0
                    },
                    fills_of(receipt.trades),
                ),
                Err(error) => AckView::rejected(seq, Rejection::Exchange(error)),
            }
        }
    }

    /// How a cancel request is answered.
    pub open spec fn cancel_ack(self, order_id: OrderId, seq: u64) -> AckView {
        match self.market_core().exchange.cancel_answer(self.player_id, order_id) {
            Ok(result) => AckView::accepted(seq, result.order_id, Seq::empty()),
            Err(error) => AckView::rejected(seq, Rejection::Exchange(error)),
        }
    }

    /// How a request is answered.
    pub open spec fn ack(self, msg: ClientMsg, seq: u64) -> AckView {
        match msg {
            ClientMsg::Order { side, price, lots } => self.order_ack(side.side(), price, lots, seq),
            ClientMsg::Cancel { order_id } => self.cancel_ack(order_id, seq),
        }
    }

    /// The game after a request.
    pub open spec fn requested(self, msg: ClientMsg) -> Self {
        match msg {
            ClientMsg::Order { side, price, lots } => if lots <= 0 {
                self
            } else {
                self.player_ordered(side.side(), price, lots)
            },
            ClientMsg::Cancel { order_id } => self.player_cancelled(order_id),
        }
    }
}

fn fill_dtos(trades: &Vec<Trade>) -> (fills: Vec<FillDto>)
    ensures
        fills@ == fills_of(trades@),
        fills@.len() == trades@.len(),
        forall|i: int|
            0 <= i < fills@.len() ==> (#[trigger] fills@[i]).price == trades@[i].price
                && fills@[i].quantity == trades@[i].quantity,
{
    let mut fills: Vec<FillDto> = Vec::new();
    let mut i: usize = 0;
    while i < trades.len()
        invariant
            i <= trades@.len(),
            fills@ =~= fills_of(trades@.take(i as int)),
        decreases trades@.len() - i,
    {
        fills.push(FillDto { price: trades[i].price, quantity: trades[i].quantity });
        i = i + 1;
    }
    proof {
        assert(trades@.take(i as int) =~= trades@);
    }
    fills
}

fn level_dtos(levels: &Vec<LevelSnapshot>) -> (dtos: Vec<LevelDto>)
    ensures
        dtos@.len() == levels@.len(),
        forall|i: int| 0 <= i < dtos@.len() ==> (#[trigger] dtos@[i])@ == levels@[i]@,
{
    let mut dtos: Vec<LevelDto> = Vec::new();
    let mut i: usize = 0;
    while i < levels.len()
        invariant
            i <= levels@.len(),
            dtos@.len() == i,
            forall|j: int| 0 <= j < i ==> (#[trigger] dtos@[j])@ == levels@[j]@,
        decreases levels@.len() - i,
    {
        dtos.push(LevelDto::from(levels[i]));
        i = i + 1;
    }
    dtos
}

fn recent_bars(bars: &Vec<Bar>) -> (dtos: Vec<BarDto>)
    ensures
        dtos@.len() == recent(bars@, BAR_WINDOW as int).len(),
        forall|i: int|
            0 <= i < dtos@.len() ==> (#[trigger] dtos@[i])@ == recent(bars@, BAR_WINDOW as int)[i]@,
{
    let start = recent_start(bars.len(), BAR_WINDOW);
    let mut dtos: Vec<BarDto> = Vec::new();
    let mut i: usize = start;
    while i < bars.len()
        invariant
            start <= i <= bars@.len(),
            dtos@.len() == i - start,
            forall|j: int| 0 <= j < dtos@.len() ==> (#[trigger] dtos@[j])@ == bars@[start + j]@,
        decreases bars@.len() - i,
    {
        let bar = bars[i];
        dtos.push(
            BarDto {
                t: bar.start_ms,
                open: bar.open,
                high: bar.high,
                low: bar.low,
                close: bar.close,
                volume: bar.volume,
            },
        );
        i = i + 1;
    }
    dtos
}

fn recent_prints(tape: &[TapePrint]) -> (dtos: Vec<TapeDto>)
    ensures
        dtos@ == recent(tape@, TAPE_WINDOW as int).map_values(|p: TapePrint| print_dto(p)),
{
    let start = recent_start(tape.len(), TAPE_WINDOW);
    let mut dtos: Vec<TapeDto> = Vec::new();
    let mut i: usize = start;
    while i < tape.len()
        invariant
            start <= i <= tape@.len(),
            dtos@.len() == i - start,
            forall|j: int| 0 <= j < dtos@.len() ==> #[trigger] dtos@[j] == print_dto(tape@[start + j]),
        decreases tape@.len() - i,
    {
        let print = tape[i];
        dtos.push(TapeDto { t: print.time_ms, price: print.price, quantity: print.quantity });
        i = i + 1;
    }
    proof {
        assert(dtos@ =~= recent(tape@, TAPE_WINDOW as int).map_values(
            |p: TapePrint| print_dto(p),
        ));
    }
    dtos
}

fn order_dtos(orders: &Vec<RestingOrder>) -> (dtos: Vec<OpenOrderDto>)
    ensures
        dtos@ == orders@.map_values(|o: RestingOrder| order_dto(o)),
{
    let mut dtos: Vec<OpenOrderDto> = Vec::new();
    let mut i: usize = 0;
    while i < orders.len()
        invariant
            i <= orders@.len(),
            dtos@ =~= orders@.take(i as int).map_values(|o: RestingOrder| order_dto(o)),
        decreases orders@.len() - i,
    {
        let order = orders[i];
        dtos.push(
            OpenOrderDto {
                order_id: order.id,
                side: match order.side {
                    Side::Buy => SideTagWire::Buy,
                    Side::Sell => SideTagWire::Sell,
                },
                price: order.limit_price,
                remaining: order.remaining,
            },
        );
        i = i + 1;
    }
    proof {
        assert(orders@.take(i as int) =~= orders@);
    }
    dtos
}

/// A playable session with its own seed.
#[derive(Clone, Debug)]
pub struct Session {
    market: GameMarket,
}

impl View for Session {
    type V = GameView;

    closed spec fn view(&self) -> GameView {
        self.market@
    }
}

impl Session {
    pub closed spec fn wf(&self) -> bool {
        &&& self.market.wf()
        &&& self@.market_core().exchange.total_cash() <= Quantity::MAX
    }

    /// Creates a session from a client-provided seed (falling back to a fixed
    /// one). Nothing is scheduled yet.
    pub fn new(seed: Option<u64>) -> (session: Self)
        ensures
            session.wf(),
            session@.config.standard(),
            session@.config.market.seed == (match seed {
                Some(seed) => seed,
                None => 2026,
            }),
            session@ == GameView::fresh(session@.config),
            session@.market_core().in_order(),
            session@.market_core().now_ms == 0,
            session@.market_core().day_length_ms == session@.config.market.day_length_ms,
            session@.market_core().log == Seq::<Event>::empty(),
            session@.market_core().next_seq == 0,
            session@.market_core().tape == Seq::<TapePrint>::empty(),
            session@.market_core().replays_from(session@.market_core().exchange),
            session@.market_core().exchange.numbered(),
    {
        let mut config = GameConfig::default();
        config.market.seed = match seed {
            Some(seed) => seed,
            None => 2026,
        };
        Session { market: GameMarket::new(config) }
    }

    pub fn market(&self) -> (market: &GameMarket)
        ensures
            market@ == self@,
            self.wf() ==> market.wf(),
    {
        &self.market
    }

    /// The market, for its clock to be driven.
    pub fn market_mut(&mut self) -> (market: &mut GameMarket)
        requires
            old(self).wf(),
        ensures
            market.wf(),
            market@ == old(self)@,
            final(self)@ == final(market)@,
            final(market).wf() && final(market)@.market_core().exchange.total_cash()
                == old(self)@.market_core().exchange.total_cash() ==> final(self).wf(),
    {
        &mut self.market
    }

    pub fn now_ms(&self) -> (now: SimTime)
        ensures
            now == self@.market_core().now_ms,
    {
        self.market.now_ms()
    }

    /// Applies one request and acknowledges it.
    pub fn apply(&mut self, msg: ClientMsg, seq: u64) -> (reply: ServerMsg)
        requires
            old(self).wf(),
            old(self)@.market_core().room(1),
            msg matches ClientMsg::Order { lots, .. } ==> lots <= Quantity::MAX / 100,
        ensures
            final(self).wf(),
            final(self)@.market_core().follows_at(
                old(self)@.market_core(),
                old(self)@.market_core().now_ms,
            ),
            final(self)@ == old(self)@.requested(msg),
            reply matches ServerMsg::Ack(ack) && ack@ == old(self)@.ack(msg, seq),
    {
        match msg {
            ClientMsg::Order { side, price, lots } => ServerMsg::Ack(
                self.order(Side::from(side), price, lots, seq),
            ),
            ClientMsg::Cancel { order_id } => ServerMsg::Ack(self.cancel(order_id, seq)),
        }
    }

    fn order(&mut self, side: Side, price: Price, lots: i64, seq: u64) -> (ack: Ack)
        requires
            old(self).wf(),
            old(self)@.market_core().room(1),
            lots <= Quantity::MAX / 100,
        ensures
            final(self).wf(),
            final(self)@.market_core().follows_at(
                old(self)@.market_core(),
                old(self)@.market_core().now_ms,
            ),
            final(self)@ == (if lots <= 0 {
                old(self)@
            } else {
                old(self)@.player_ordered(side, price, lots)
            }),
            ack@ == old(self)@.order_ack(side, price, lots, seq),
    {
        if lots <= 0 {
            return Ack::rejection(seq, Rejection::LotsNotPositive);
        }
        match self.market.submit_player_order(side, price, lots) {
            Ok(result) => Ack {
                seq,
                ok: true,
                order_id: Some(
                    if result.remaining > 0 {
                        result.order_id
                    } else {
                        0
                    },
                ),
                fills: fill_dtos(&result.trades),
                error: None,
            },
            Err(error) => Ack::rejection(seq, Rejection::Exchange(error)),
        }
    }

    fn cancel(&mut self, order_id: OrderId, seq: u64) -> (ack: Ack)
        requires
            old(self).wf(),
            old(self)@.market_core().room(1),
        ensures
            final(self).wf(),
            final(self)@.market_core().follows_at(
                old(self)@.market_core(),
                old(self)@.market_core().now_ms,
            ),
            final(self)@ == old(self)@.player_cancelled(order_id),
            ack@ == old(self)@.cancel_ack(order_id, seq),
    {
        match self.market.cancel_player_order(order_id) {
            Ok(result) => Ack {
                seq,
                ok: true,
                order_id: Some(result.order_id),
                fills: Vec::new(),
                error: None,
            },
            Err(error) => Ack::rejection(seq, Rejection::Exchange(error)),
        }
    }

    /// Builds the full snapshot for the wire.
    pub fn snapshot(&self) -> (msg: ServerMsg)
        requires
            self.wf(),
            bar::volumes_fit(self@.market_core().tape, BAR_WIDTH_MS as int),
        ensures
            msg matches ServerMsg::Snapshot(snapshot) && snapshot.shows(self@)
                && snapshot.player.equity == snapshot.player.cash_available
                + snapshot.player.cash_reserved + (snapshot.player.settled
                + snapshot.player.unsettled_buys) * snapshot.mark,
    {
        proof {
            self.market.lemma_wf();
            game::lemma_can_show(self@);
        }
        let view = self.market.snapshot();
        ServerMsg::Snapshot(self.to_dto(&view))
    }

    fn to_dto(&self, view: &GameSnapshot) -> (dto: Snapshot)
        requires
            self.wf(),
            bar::volumes_fit(self@.market_core().tape, BAR_WIDTH_MS as int),
            view.shows(self@),
        ensures
            dto.shows(self@),
    {
        let bars = recent_bars(&self.market.bars(BAR_WIDTH_MS));
        let tape = recent_prints(self.market.tape());
        Snapshot {
            now_ms: view.now_ms,
            regime: RegimeTag::from(view.regime),
            best_bid: view.best_bid,
            best_ask: view.best_ask,
            mark: view.mark,
            last_trade: view.last_trade,
            limit: view.price_limits,
            bids: level_dtos(&view.depth_bids),
            asks: level_dtos(&view.depth_asks),
            bars,
            tape,
            manip_phase: ManipTag::from(view.manip_phase),
            player: PlayerDto {
                cash_available: view.player.cash_available,
                cash_reserved: view.player.cash_reserved,
                settled: view.player.settled,
                unsettled_buys: view.player.unsettled_buys,
                sellable: view.player.sellable,
                equity: view.player.equity,
                open_orders: order_dtos(&view.player.open_orders),
            },
        }
    }
}

} // verus!
