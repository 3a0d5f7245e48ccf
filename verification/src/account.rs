//! Cash and share accounts: reservation of both, and T+1 sellability.

use vstd::prelude::*;

use crate::symbol;
use crate::symbol::Rank;
use crate::types::{ExchangeError, Money, Price, Quantity};

verus! {

#[derive(Clone, Copy, Debug, PartialEq, Eq)]
pub struct Position {
    /// Shares currently settled and owned. Some of them may be locked in sells.
    pub settled: Quantity,
    /// Settled shares not locked in active sell orders.
    pub sellable: Quantity,
    /// Shares bought today; they become sellable at `settle_trading_day`.
    pub unsettled_buys: Quantity,
}

/// A position as mathematical integers.
pub struct Shares {
    pub settled: int,
    pub sellable: int,
    pub unsettled_buys: int,
}

impl Shares {
    pub open spec fn none() -> Self {
        Shares { settled: 0, sellable: 0, unsettled_buys: 0 }
    }

    /// Nothing is negative, and what is sellable is owned.
    pub open spec fn wf(self) -> bool {
        0 <= self.sellable <= self.settled && 0 <= self.unsettled_buys
    }

    /// All shares, settled or not.
    pub open spec fn owned(self) -> int {
        self.settled + self.unsettled_buys
    }
}

impl View for Position {
    type V = Shares;

    open spec fn view(&self) -> Shares {
        Shares {
            settled: self.settled as int,
            sellable: self.sellable as int,
            unsettled_buys: self.unsettled_buys as int,
        }
    }
}

impl Default for Position {
    fn default() -> (position: Self)
        ensures
            position@ == Shares::none(),
    {
        Position { settled: 0, sellable: 0, unsettled_buys: 0 }
    }
}

/// The position in one symbol.
#[derive(Clone, Debug, PartialEq, Eq)]
pub struct Holding {
    symbol: String,
    position: Position,
}

/// The positions of an account, sorted by symbol, each symbol once.
#[derive(Clone, Debug, PartialEq, Eq)]
pub struct Holdings {
    entries: Vec<Holding>,
}

#[derive(Clone, Debug, PartialEq, Eq)]
pub struct Account {
    pub cash_available: Money,
    pub cash_reserved: Money,
    pub positions: Holdings,
}

/// An account over mathematical integers.
#[verifier::ext_equal]
pub struct AccountView {
    pub cash_available: int,
    pub cash_reserved: int,
    pub positions: Map<Seq<char>, Shares>,
}

impl AccountView {
    /// An account that holds nothing but cash.
    pub open spec fn funded(cash: int) -> Self {
        AccountView { cash_available: cash, cash_reserved: 0, positions: Map::empty() }
    }

    pub open spec fn shares(self, symbol: Seq<char>) -> Shares {
        if self.positions.contains_key(symbol) {
            self.positions[symbol]
        } else {
            Shares::none()
        }
    }

    pub open spec fn with_shares(self, symbol: Seq<char>, shares: Shares) -> Self {
        AccountView { positions: self.positions.insert(symbol, shares), ..self }
    }

    /// The account with an entry for `symbol`, empty where there was none.
    pub open spec fn touched(self, symbol: Seq<char>) -> Self {
        self.with_shares(symbol, self.shares(symbol))
    }

    pub open spec fn seeded(self, symbol: Seq<char>, quantity: int) -> Self {
        let shares = self.shares(symbol);
        self.with_shares(
            symbol,
            Shares {
                settled: shares.settled + quantity,
                sellable: shares.sellable + quantity,
                ..shares
            },
        )
    }

    /// `cost` moved from available to reserved.
    pub open spec fn buy_reserved(self, cost: int) -> Self {
        AccountView {
            cash_available: self.cash_available - cost,
            cash_reserved: self.cash_reserved + cost,
            ..self
        }
    }

    /// `cost` moved back from reserved to available.
    pub open spec fn buy_released(self, cost: int) -> Self {
        AccountView {
            cash_available: self.cash_available + cost,
            cash_reserved: self.cash_reserved - cost,
            ..self
        }
    }

    /// `quantity` shares bought at `price` out of a reservation at `limit`.
    pub open spec fn bought(
        self,
        symbol: Seq<char>,
        limit: int,
        price: int,
        quantity: int,
    ) -> Self {
        let shares = self.shares(symbol);
        AccountView {
            cash_available: self.cash_available + limit * quantity - price * quantity,
            cash_reserved: self.cash_reserved - limit * quantity,
            ..self
        }.with_shares(
            symbol,
            Shares { unsettled_buys: shares.unsettled_buys + quantity, ..shares },
        )
    }

    /// `quantity` sellable shares locked in a sell order.
    pub open spec fn sell_reserved(self, symbol: Seq<char>, quantity: int) -> Self {
        let shares = self.shares(symbol);
        self.with_shares(symbol, Shares { sellable: shares.sellable - quantity, ..shares })
    }

    /// `quantity` locked shares sellable again.
    pub open spec fn sell_released(self, symbol: Seq<char>, quantity: int) -> Self {
        let shares = self.shares(symbol);
        self.with_shares(symbol, Shares { sellable: shares.sellable + quantity, ..shares })
    }

    /// `quantity` locked shares sold at `price`.
    pub open spec fn sold(self, symbol: Seq<char>, price: int, quantity: int) -> Self {
        let shares = self.shares(symbol);
        AccountView { cash_available: self.cash_available + price * quantity, ..self }.with_shares(
            symbol,
            Shares { settled: shares.settled - quantity, ..shares },
        )
    }

    /// Today's buys settled and sellable.
    pub open spec fn day_settled(self, symbol: Seq<char>) -> Self {
        let shares = self.shares(symbol);
        self.with_shares(
            symbol,
            Shares {
                settled: shares.settled + shares.unsettled_buys,
                sellable: shares.sellable + shares.unsettled_buys,
                unsettled_buys: 0,
            },
        )
    }

    pub open spec fn wf(self) -> bool {
        &&& 0 <= self.cash_available
        &&& 0 <= self.cash_reserved
        &&& forall|s: Seq<char>| #[trigger]
            self.positions.contains_key(s) ==> self.positions[s].wf()
    }

    pub open spec fn cash(self) -> int {
        self.cash_available + self.cash_reserved
    }

    /// The totals fit the machine integers that hold their parts.
    pub open spec fn fits(self) -> bool {
        &&& self.cash() <= Money::MAX
        &&& forall|s: Seq<char>| #[trigger]
            self.positions.contains_key(s) ==> self.positions[s].owned() <= Quantity::MAX
    }
}

/// Whether a price and a quantity can be traded at all.
pub open spec fn tradable(price: Price, quantity: Quantity) -> bool {
    price > 0 && quantity > 0
}

/// The value of `quantity` shares at `price`.
pub fn notional(price: Price, quantity: Quantity) -> (value: Result<Money, ExchangeError>)
    ensures
        value == (if price <= 0 {
            Err(ExchangeError::InvalidPrice(price))
        } else if quantity <= 0 {
            Err(ExchangeError::InvalidQuantity(quantity))
        } else {
            Ok((price * quantity) as Money)
        }),
        tradable(price, quantity) ==> 0 < price * quantity <= Money::MAX,
{
    if price <= 0 {
        return Err(ExchangeError::InvalidPrice(price));
    }
    if quantity <= 0 {
        return Err(ExchangeError::InvalidQuantity(quantity));
    }
    proof {
        lemma_notional(price, quantity);
    }
    Ok(price as i128 * quantity as i128)
}

pub proof fn lemma_notional(price: Price, quantity: Quantity)
    requires
        tradable(price, quantity),
    ensures
        0 < price * quantity <= Money::MAX,
{
    assert(0 < price * quantity <= 0x7fff_ffff_ffff_ffff * 0x7fff_ffff_ffff_ffff)
        by (nonlinear_arith)
        requires
            0 < price <= 0x7fff_ffff_ffff_ffff,
            0 < quantity <= 0x7fff_ffff_ffff_ffff,
    ;
}

spec fn held(positions: Seq<Holding>, symbol: Seq<char>) -> bool {
    exists|i: int| 0 <= i < positions.len() && (#[trigger] positions[i]).symbol@ == symbol
}

spec fn index_held(positions: Seq<Holding>, symbol: Seq<char>) -> int {
    choose|i: int| 0 <= i < positions.len() && (#[trigger] positions[i]).symbol@ == symbol
}

/// The sorted holdings as a map.
spec fn position_map(positions: Seq<Holding>) -> Map<Seq<char>, Shares> {
    Map::new(
        |s: Seq<char>| held(positions, s),
        |s: Seq<char>| positions[index_held(positions, s)].position@,
    )
}

spec fn sorted(positions: Seq<Holding>) -> bool {
    forall|i: int, j: int|
        0 <= i < j < positions.len() ==> symbol::precedes(
            (#[trigger] positions[i]).symbol@,
            (#[trigger] positions[j]).symbol@,
        )
}

proof fn lemma_index_held(positions: Seq<Holding>, i: int)
    requires
        sorted(positions),
        0 <= i < positions.len(),
    ensures
        held(positions, positions[i].symbol@),
        index_held(positions, positions[i].symbol@) == i,
{
    let j = index_held(positions, positions[i].symbol@);
    symbol::lemma_precedes_irreflexive(positions[i].symbol@);
    assert(positions[j].symbol@ == positions[i].symbol@);
}

impl View for Holdings {
    type V = Map<Seq<char>, Shares>;

    closed spec fn view(&self) -> Map<Seq<char>, Shares> {
        position_map(self.entries@)
    }
}

impl View for Account {
    type V = AccountView;

    open spec fn view(&self) -> AccountView {
        AccountView {
            cash_available: self.cash_available as int,
            cash_reserved: self.cash_reserved as int,
            positions: self.positions@,
        }
    }
}

impl Account {
    pub closed spec fn wf(&self) -> bool {
        &&& sorted(self.positions.entries@)
        &&& self@.wf()
        &&& self@.fits()
    }

    /// As `wf`, with totals that need not fit: an account between the two legs
    /// of a trade with itself.
    pub closed spec fn sound(&self) -> bool {
        &&& sorted(self.positions.entries@)
        &&& self@.wf()
    }

    pub proof fn lemma_sound(&self)
        ensures
            self.wf() <==> self.sound() && self@.fits(),
            self.sound() ==> self@.wf(),
    {
    }

    /// What a well-formed account shows of itself.
    pub proof fn lemma_wf(&self)
        requires
            self.wf(),
        ensures
            self@.wf(),
            self@.fits(),
            self.cash_available == self@.cash_available,
            self.cash_reserved == self@.cash_reserved,
    {
    }

    pub fn with_cash(cash_available: Money) -> (account: Self)
        requires
            cash_available >= 0,
        ensures
            account.wf(),
            account@ == AccountView::funded(cash_available as int),
    {
        let account = Account { cash_available, cash_reserved: 0, positions: Holdings { entries: Vec::new() } };
        proof {
            assert(account@.positions =~= Map::empty());
        }
        account
    }

    /// The first index whose symbol does not sort before `symbol`.
    fn search(&self, symbol: &str) -> (found: (usize, bool))
        requires
            sorted(self.positions.entries@),
        ensures
            found.0 <= self.positions.entries@.len(),
            found.1 == held(self.positions.entries@, symbol@),
            found.1 ==> found.0 < self.positions.entries@.len() && self.positions.entries@[found.0 as int].symbol@
                == symbol@,
            forall|i: int|
                0 <= i < found.0 ==> symbol::precedes(
                    (#[trigger] self.positions.entries@[i]).symbol@,
                    symbol@,
                ),
            !found.1 ==> forall|i: int|
                found.0 <= i < self.positions.entries@.len() ==> symbol::precedes(
                    symbol@,
                    (#[trigger] self.positions.entries@[i]).symbol@,
                ),
    {
        let mut i: usize = 0;
        while i < self.positions.entries.len()
            invariant
                sorted(self.positions.entries@),
                i <= self.positions.entries@.len(),
                forall|j: int|
                    0 <= j < i ==> symbol::precedes(
                        (#[trigger] self.positions.entries@[j]).symbol@,
                        symbol@,
                    ),
            decreases self.positions.entries@.len() - i,
        {
            let rank = symbol::rank(self.positions.entries[i].symbol.as_str(), symbol);
            match rank {
                Rank::Same => {
                    return (i, true);
                },
                Rank::After => {
                    proof {
                        let here = self.positions.entries@[i as int].symbol@;
                        symbol::lemma_precedes_total(here, symbol@);
                        assert forall|j: int|
                            i <= j < self.positions.entries@.len() implies symbol::precedes(
                            symbol@,
                            (#[trigger] self.positions.entries@[j]).symbol@,
                        ) by {
                            if i < j {
                                symbol::lemma_precedes_transitive(
                                    symbol@,
                                    here,
                                    self.positions.entries@[j].symbol@,
                                );
                            }
                        }
                        symbol::lemma_precedes_irreflexive(symbol@);
                    }
                    return (i, false);
                },
                Rank::Before => {},
            }
            i = i + 1;
        }
        proof {
            symbol::lemma_precedes_irreflexive(symbol@);
        }
        (i, false)
    }

    pub fn position(&self, symbol: &str) -> (position: Position)
        requires
            self.wf(),
        ensures
            position@ == self@.shares(symbol@),
    {
        let (i, found) = self.search(symbol);
        if found {
            proof {
                lemma_index_held(self.positions.entries@, i as int);
            }
            self.positions.entries[i].position
        } else {
            Position::default()
        }
    }

    /// The index of the entry for `symbol`, made where there was none.
    fn entry(&mut self, symbol: &str) -> (i: usize)
        requires
            sorted(old(self).positions.entries@),
        ensures
            sorted(final(self).positions.entries@),
            i < final(self).positions.entries@.len(),
            final(self).positions.entries@[i as int].symbol@ == symbol@,
            final(self).positions.entries@[i as int].position@ == old(self)@.shares(symbol@),
            final(self)@ == old(self)@.touched(symbol@),
            final(self).cash_available == old(self).cash_available,
            final(self).cash_reserved == old(self).cash_reserved,
    {
        let (i, found) = self.search(symbol);
        let ghost before = self.positions.entries@;
        if found {
            proof {
                lemma_index_held(before, i as int);
                assert(self@ =~= old(self)@.touched(symbol@));
            }
        } else {
            let fresh = Holding { symbol: symbol.to_owned(), position: Position::default() };
            self.positions.entries.insert(i, fresh);
            proof {
                let after = self.positions.entries@;
                assert forall|a: int, b: int| 0 <= a < b < after.len() implies symbol::precedes(
                    (#[trigger] after[a]).symbol@,
                    (#[trigger] after[b]).symbol@,
                ) by {
                    let x = if a < i { a } else { a - 1 };
                    let y = if b < i { b } else { b - 1 };
                    if a != i {
                        assert(after[a] == before[x]);
                    }
                    if b != i {
                        assert(after[b] == before[y]);
                    }
                }
                lemma_index_held(after, i as int);
                assert forall|s: Seq<char>| s != symbol@ implies held(after, s) == held(before, s)
                    && (held(after, s) ==> after[index_held(after, s)].position
                    == before[index_held(before, s)].position) by {
                    if held(after, s) {
                        let j = index_held(after, s);
                        let k = if j < i { j } else { j - 1 };
                        assert(after[j] == before[k]);
                        lemma_index_held(before, k);
                    }
                    if held(before, s) {
                        let k = index_held(before, s);
                        let j = if k < i { k } else { k + 1 };
                        assert(after[j] == before[k]);
                    }
                }
                assert(self@ =~= old(self)@.touched(symbol@));
            }
        }
        i
    }

    /// Overwrites the position of the `i`-th entry.
    fn set_position(&mut self, i: usize, position: Position)
        requires
            sorted(old(self).positions.entries@),
            i < old(self).positions.entries@.len(),
        ensures
            sorted(final(self).positions.entries@),
            final(self)@ == old(self)@.with_shares(
                old(self).positions.entries@[i as int].symbol@,
                position@,
            ),
            final(self).cash_available == old(self).cash_available,
            final(self).cash_reserved == old(self).cash_reserved,
    {
        let ghost before = self.positions.entries@;
        self.positions.entries[i].position = position;
        proof {
            let after = self.positions.entries@;
            assert(forall|j: int| 0 <= j < after.len() ==> (#[trigger] after[j]).symbol == before[j].symbol);
            assert(forall|j: int| 0 <= j < after.len() && j != i ==> (#[trigger] after[j]) == before[j]);
            lemma_index_held(after, i as int);
            lemma_index_held(before, i as int);
            let here = before[i as int].symbol@;
            assert forall|s: Seq<char>| held(after, s) == held(before, s)
                && (held(after, s) && s != here ==> after[index_held(after, s)].position
                == before[index_held(before, s)].position) by {
                if held(after, s) {
                    let j = index_held(after, s);
                    assert(before[j].symbol@ == s);
                    lemma_index_held(before, j);
                }
                if held(before, s) {
                    let j = index_held(before, s);
                    assert(after[j].symbol@ == s);
                }
            }
            assert(self@ =~= old(self)@.with_shares(here, position@));
        }
    }

    pub fn seed_settled_position(&mut self, symbol: &str, quantity: Quantity)
        requires
            old(self).wf(),
            quantity >= 0,
            old(self)@.shares(symbol@).owned() + quantity <= Quantity::MAX,
        ensures
            final(self).wf(),
            final(self)@ == old(self)@.seeded(symbol@, quantity as int),
    {
        let i = self.entry(symbol);
        let mut position = self.positions.entries[i].position;
        position.settled = position.settled + quantity;
        position.sellable = position.sellable + quantity;
        self.set_position(i, position);
        proof {
            assert(self@ =~= old(self)@.seeded(symbol@, quantity as int));
        }
    }

    /// Cash free to spend.
    pub fn cash_available(&self) -> (cash: Money)
        ensures
            cash == self@.cash_available,
    {
        self.cash_available
    }

    /// Cash that resting buys hold.
    pub fn cash_reserved(&self) -> (cash: Money)
        ensures
            cash == self@.cash_reserved,
    {
        self.cash_reserved
    }

    /// Available and reserved cash together.
    pub fn total_cash(&self) -> (cash: Money)
        requires
            self.wf(),
        ensures
            cash == self@.cash(),
    {
        self.cash_available + self.cash_reserved
    }

    pub(crate) fn reserve_buy(&mut self, limit_price: Price, quantity: Quantity) -> (reserved: Result<
        (),
        ExchangeError,
    >)
        requires
            old(self).wf(),
            tradable(limit_price, quantity),
        ensures
            final(self).wf(),
            ({
                let cost = limit_price * quantity;
                if old(self)@.cash_available < cost {
                    &&& reserved == Err::<(), ExchangeError>(
                        ExchangeError::InsufficientCash {
                            required: cost as Money,
                            available: old(self)@.cash_available as Money,
                        },
                    )
                    &&& final(self)@ == old(self)@
                } else {
                    reserved is Ok && final(self)@ == old(self)@.buy_reserved(cost)
                }
            }),
    {
        let required = match notional(limit_price, quantity) {
            Ok(required) => required,
            Err(error) => {
                return Err(error);
            },
        };
        if self.cash_available < required {
            return Err(
                ExchangeError::InsufficientCash { required, available: self.cash_available },
            );
        }
        self.cash_available = self.cash_available - required;
        self.cash_reserved = self.cash_reserved + required;
        proof {
            assert(self@ =~= old(self)@.buy_reserved(limit_price * quantity));
        }
        Ok(())
    }

    pub(crate) fn release_buy(&mut self, limit_price: Price, quantity: Quantity)
        requires
            old(self).wf(),
            tradable(limit_price, quantity),
            limit_price * quantity <= old(self)@.cash_reserved,
        ensures
            final(self).wf(),
            final(self)@ == old(self)@.buy_released(limit_price * quantity),
    {
        if let Ok(released) = notional(limit_price, quantity) {
            self.cash_reserved = self.cash_reserved - released;
            self.cash_available = self.cash_available + released;
        }
        proof {
            lemma_notional(limit_price, quantity);
            assert(self@ =~= old(self)@.buy_released(limit_price * quantity));
        }
    }

    pub(crate) fn settle_buy_fill(
        &mut self,
        symbol: &str,
        limit_price: Price,
        execution_price: Price,
        quantity: Quantity,
    )
        requires
            old(self).wf(),
            tradable(execution_price, quantity),
            execution_price <= limit_price,
            limit_price * quantity <= old(self)@.cash_reserved,
            old(self)@.shares(symbol@).unsettled_buys + quantity <= Quantity::MAX,
        ensures
            final(self).sound(),
            final(self)@ == old(self)@.bought(
                symbol@,
                limit_price as int,
                execution_price as int,
                quantity as int,
            ),
    {
        proof {
            lemma_notional(limit_price, quantity);
            lemma_notional(execution_price, quantity);
            assert(execution_price * quantity <= limit_price * quantity) by (nonlinear_arith)
                requires
                    execution_price <= limit_price,
                    0 < quantity,
            ;
        }
        if let (Ok(reserved), Ok(paid)) = (
            notional(limit_price, quantity),
            notional(execution_price, quantity),
        ) {
            self.cash_reserved = self.cash_reserved - reserved;
            self.cash_available = self.cash_available + (reserved - paid);
            let i = self.entry(symbol);
            let mut position = self.positions.entries[i].position;
            position.unsettled_buys = position.unsettled_buys + quantity;
            self.set_position(i, position);
        }
        proof {
            assert(self@ =~= old(self)@.bought(
                symbol@,
                limit_price as int,
                execution_price as int,
                quantity as int,
            ));
        }
    }

    pub(crate) fn reserve_sell(&mut self, symbol: &str, quantity: Quantity) -> (reserved: Result<
        (),
        ExchangeError,
    >)
        requires
            old(self).wf(),
            quantity > 0,
        ensures
            final(self).wf(),
            ({
                let sellable = old(self)@.shares(symbol@).sellable;
                if sellable < quantity {
                    &&& reserved == Err::<(), ExchangeError>(
                        ExchangeError::InsufficientSellable {
                            requested: quantity,
                            sellable: sellable as Quantity,
                        },
                    )
                    &&& final(self)@ == old(self)@.touched(symbol@)
                } else {
                    &&& reserved is Ok
                    &&& final(self)@ == old(self)@.sell_reserved(symbol@, quantity as int)
                }
            }),
    {
        let i = self.entry(symbol);
        let mut position = self.positions.entries[i].position;
        if position.sellable < quantity {
            return Err(
                ExchangeError::InsufficientSellable {
                    requested: quantity,
                    sellable: position.sellable,
                },
            );
        }
        position.sellable = position.sellable - quantity;
        self.set_position(i, position);
        proof {
            assert(self@ =~= old(self)@.sell_reserved(symbol@, quantity as int));
        }
        Ok(())
    }

    pub(crate) fn release_sell(&mut self, symbol: &str, quantity: Quantity)
        requires
            old(self).wf(),
            quantity > 0,
            old(self)@.shares(symbol@).sellable + quantity <= old(self)@.shares(symbol@).settled,
        ensures
            final(self).wf(),
            final(self)@ == old(self)@.sell_released(symbol@, quantity as int),
    {
        let i = self.entry(symbol);
        let mut position = self.positions.entries[i].position;
        position.sellable = position.sellable + quantity;
        self.set_position(i, position);
        proof {
            assert(self@ =~= old(self)@.sell_released(symbol@, quantity as int));
        }
    }

    pub(crate) fn settle_sell_fill(&mut self, symbol: &str, execution_price: Price, quantity: Quantity)
        requires
            old(self).sound(),
            tradable(execution_price, quantity),
            old(self)@.shares(symbol@).sellable + quantity <= old(self)@.shares(symbol@).settled,
            old(self)@.sold(symbol@, execution_price as int, quantity as int).fits(),
        ensures
            final(self).wf(),
            final(self)@ == old(self)@.sold(symbol@, execution_price as int, quantity as int),
    {
        proof {
            lemma_notional(execution_price, quantity);
        }
        if let Ok(proceeds) = notional(execution_price, quantity) {
            let i = self.entry(symbol);
            let mut position = self.positions.entries[i].position;
            position.settled = position.settled - quantity;
            self.set_position(i, position);
            self.cash_available = self.cash_available + proceeds;
        }
        proof {
            assert(self@ =~= old(self)@.sold(symbol@, execution_price as int, quantity as int));
        }
    }

    /// Turns today's buys into settled, sellable shares.
    pub(crate) fn settle_trading_day(&mut self, symbol: &str)
        requires
            old(self).wf(),
        ensures
            final(self).wf(),
            final(self)@ == old(self)@.day_settled(symbol@),
    {
        let i = self.entry(symbol);
        let mut position = self.positions.entries[i].position;
        position.settled = position.settled + position.unsettled_buys;
        position.sellable = position.sellable + position.unsettled_buys;
        position.unsettled_buys = 0;
        self.set_position(i, position);
        proof {
            assert(self@ =~= old(self)@.day_settled(symbol@));
        }
    }
}

} // verus!
