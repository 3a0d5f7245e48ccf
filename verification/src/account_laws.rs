//! What each booking does to an account.

use vstd::prelude::*;

use crate::account::{AccountView, Shares};
use crate::trade_laws;

verus! {

/// Nothing but the holding of `symbol` and the cash may differ.
pub open spec fn elsewhere_same(
    before: AccountView,
    after: AccountView,
    symbol: Seq<char>,
) -> bool {
    forall|s: Seq<char>|
        s != symbol ==> #[trigger] trade_laws::held(after, s) == trade_laws::held(before, s)
}

/// A new account has its cash free and holds nothing.
pub proof fn lemma_opened(cash: int, symbol: Seq<char>)
    ensures
        ({
            let account = AccountView::funded(cash);
            &&& account.cash_available == cash
            &&& account.cash_reserved == 0
            &&& trade_laws::held(account, symbol) == (Shares {
                settled: 0,
                sellable: 0,
                unsettled_buys: 0,
            })
        }),
{
}

/// Seeded shares are settled and sellable at once, and cost nothing.
pub proof fn lemma_seeding(account: AccountView, symbol: Seq<char>, quantity: int)
    ensures
        ({
            let after = account.seeded(symbol, quantity);
            let was = trade_laws::held(account, symbol);
            let is = trade_laws::held(after, symbol);
            &&& is.settled == was.settled + quantity
            &&& is.sellable == was.sellable + quantity
            &&& is.unsettled_buys == was.unsettled_buys
            &&& after.cash_available == account.cash_available
            &&& after.cash_reserved == account.cash_reserved
            &&& elsewhere_same(account, after, symbol)
        }),
{
}

/// Setting cash aside and giving it back moves it between two pockets and
/// touches nothing else; the one undoes the other.
pub proof fn lemma_buy_reservation(account: AccountView, cost: int)
    ensures
        ({
            let reserved = account.buy_reserved(cost);
            let released = account.buy_released(cost);
            &&& reserved.cash_available == account.cash_available - cost
            &&& reserved.cash_reserved == account.cash_reserved + cost
            &&& reserved.positions == account.positions
            &&& released.cash_available == account.cash_available + cost
            &&& released.cash_reserved == account.cash_reserved - cost
            &&& released.positions == account.positions
            &&& reserved.buy_released(cost) == account
        }),
{
}

/// Locking shares for a sale and unlocking them changes what is sellable and
/// nothing else.
pub proof fn lemma_sell_reservation(account: AccountView, symbol: Seq<char>, quantity: int)
    ensures
        ({
            let locked = account.sell_reserved(symbol, quantity);
            let unlocked = account.sell_released(symbol, quantity);
            let was = trade_laws::held(account, symbol);
            &&& trade_laws::held(locked, symbol) == (Shares {
                settled: was.settled,
                sellable: was.sellable - quantity,
                unsettled_buys: was.unsettled_buys,
            })
            &&& trade_laws::held(unlocked, symbol) == (Shares {
                settled: was.settled,
                sellable: was.sellable + quantity,
                unsettled_buys: was.unsettled_buys,
            })
            &&& locked.cash_available == account.cash_available
            &&& locked.cash_reserved == account.cash_reserved
            &&& unlocked.cash_available == account.cash_available
            &&& unlocked.cash_reserved == account.cash_reserved
            &&& elsewhere_same(account, locked, symbol)
            &&& elsewhere_same(account, unlocked, symbol)
            &&& trade_laws::held(locked.sell_released(symbol, quantity), symbol) == was
        }),
{
}

/// A purchase out of a reservation at a limit costs the price; what the limit
/// was higher comes free again. The shares are not sellable before they settle.
pub proof fn lemma_purchase(
    account: AccountView,
    symbol: Seq<char>,
    limit: int,
    price: int,
    quantity: int,
)
    ensures
        ({
            let after = account.bought(symbol, limit, price, quantity);
            let was = trade_laws::held(account, symbol);
            let is = trade_laws::held(after, symbol);
            &&& after.cash_reserved == account.cash_reserved - limit * quantity
            &&& after.cash_available + after.cash_reserved == account.cash_available
                + account.cash_reserved - price * quantity
            &&& is.unsettled_buys == was.unsettled_buys + quantity
            &&& is.settled == was.settled
            &&& is.sellable == was.sellable
            &&& elsewhere_same(account, after, symbol)
        }),
{
}

/// A sale of locked shares brings the price in and takes the shares out.
pub proof fn lemma_sale(account: AccountView, symbol: Seq<char>, price: int, quantity: int)
    ensures
        ({
            let after = account.sold(symbol, price, quantity);
            let was = trade_laws::held(account, symbol);
            let is = trade_laws::held(after, symbol);
            &&& after.cash_available == account.cash_available + price * quantity
            &&& after.cash_reserved == account.cash_reserved
            &&& is.settled == was.settled - quantity
            &&& is.sellable == was.sellable
            &&& is.unsettled_buys == was.unsettled_buys
            &&& elsewhere_same(account, after, symbol)
        }),
{
}

/// Settlement makes the day's purchases settled and sellable. It changes
/// neither the cash nor the holdings as a whole, and a second one the same day
/// changes nothing.
pub proof fn lemma_settling(account: AccountView, symbol: Seq<char>)
    ensures
        ({
            let after = account.day_settled(symbol);
            let was = trade_laws::held(account, symbol);
            let is = trade_laws::held(after, symbol);
            &&& is.unsettled_buys == 0
            &&& is.settled + is.unsettled_buys == was.settled + was.unsettled_buys
            &&& is.sellable - was.sellable == was.unsettled_buys
            &&& after.cash_available == account.cash_available
            &&& after.cash_reserved == account.cash_reserved
            &&& elsewhere_same(account, after, symbol)
            &&& trade_laws::held(after.day_settled(symbol), symbol) == is
        }),
{
}

} // verus!
