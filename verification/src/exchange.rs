//! The exchange: a registry of markets over one ledger, with settlement.
//!
//! An order is paid for when it is submitted: a bid reserves price times
//! quantity of the numeraire, an ask reserves its quantity of the base. Each
//! trade then pays both parties, and a bid that trades below its limit gets
//! the difference back. Cancelling an order returns what is still reserved.
//! A reservation whose notional does not fit in 64 bits is refused. Payouts
//! are made in 64-bit arithmetic that stops at `u64::MAX`; as long as the
//! supply of an asset fits in 64 bits, no payout reaches that limit.

use vstd::prelude::*;
use crate::account_manager::{lemma_credit_undoes_debit, AccountManager, LedgerView};
use crate::asset::Asset;
use crate::error::ExchangeError;
use crate::lookup::{first_at, index_of, lemma_index_unique};
use crate::market::{Market, Pair};
use crate::matching::{lemma_no_trade, match_against, trade_views, Trade, TradeView};
use crate::order::{AccountId, Order, OrderId, OrderView, Price, Side};
use crate::orderbook::{
    lemma_first_unique, lemma_slot_exists, locate, placed, present, selects, side_wf, slot,
};

verus! {

/// Price times quantity, stopped at `u64::MAX`.
pub open spec fn capped_notional(price: u64, quantity: u64) -> u64 {
    if price * quantity > u64::MAX {
        u64::MAX
    } else {
        (price * quantity) as u64
    }
}

/// The asset in which an order of `side` is reserved and refunded.
pub open spec fn reserve_asset(side: Side, pair: (Seq<char>, Seq<char>)) -> Seq<char> {
    match side {
        Side::Bid => pair.0,
        Side::Ask => pair.1,
    }
}

/// What an order reserves: its notional for a bid, its quantity for an ask.
pub open spec fn reserve_amount(order: OrderView) -> int {
    match order.side {
        Side::Bid => order.price * order.quantity,
        Side::Ask => order.quantity as int,
    }
}

/// What a resting order gets back when it is cancelled.
pub open spec fn refund_amount(order: OrderView) -> u64 {
    match order.side {
        Side::Bid => capped_notional(order.price, order.quantity),
        Side::Ask => order.quantity,
    }
}

/// The ledger after one trade has been paid out: the seller receives the
/// trade's notional in the numeraire, the buyer receives its quantity of the
/// base, and a buying taker whose limit is above the trade's price receives
/// the difference for that quantity back.
pub open spec fn settle_one(
    ledger: LedgerView,
    trade: TradeView,
    pair: (Seq<char>, Seq<char>),
    taker: OrderView,
) -> LedgerView {
    let paid = ledger.credit(trade.ask_account, pair.0, capped_notional(trade.price, trade.quantity)).credit(
        trade.bid_account,
        pair.1,
        trade.quantity,
    );
    if taker.side == Side::Bid && taker.price > trade.price {
        paid.credit(
            trade.bid_account,
            pair.0,
            capped_notional((taker.price - trade.price) as u64, trade.quantity),
        )
    } else {
        paid
    }
}

/// The ledger after every trade of `trades` has been paid out, in order.
pub open spec fn settle(
    ledger: LedgerView,
    trades: Seq<TradeView>,
    pair: (Seq<char>, Seq<char>),
    taker: OrderView,
) -> LedgerView
    decreases trades.len(),
{
    if trades.len() == 0 {
        ledger
    } else {
        settle_one(settle(ledger, trades.drop_last(), pair, taker), trades.last(), pair, taker)
    }
}

/// Paying out trades moves no balance of an account that is party to none
/// of them.
pub proof fn lemma_settle_frame(
    ledger: LedgerView,
    trades: Seq<TradeView>,
    pair: (Seq<char>, Seq<char>),
    taker: OrderView,
    account: Seq<char>,
    asset: Seq<char>,
)
    requires
        ledger.wf(),
        forall|i: int|
            0 <= i < trades.len() ==> (#[trigger] trades[i]).ask_account != account && trades[i].bid_account
                != account,
    ensures
        settle(ledger, trades, pair, taker).wf(),
        settle(ledger, trades, pair, taker).balance(account, asset) == ledger.balance(account, asset),
    decreases trades.len(),
{
    if trades.len() > 0 {
        let init = trades.drop_last();
        assert forall|i: int| 0 <= i < init.len() implies (#[trigger] init[i]).ask_account != account
            && init[i].bid_account != account by {
            assert(init[i] == trades[i]);
        }
        lemma_settle_frame(ledger, init, pair, taker, account, asset);
        assert(trades.last() == trades[trades.len() - 1]);
    }
}

/// An order that rests without trading and is cancelled at once leaves the
/// ledger and its side of the book exactly as they were before it was
/// submitted. The order's id must not already rest at its price.
pub proof fn lemma_refund_round_trip(
    ledger: LedgerView,
    same: Seq<OrderView>,
    opposite: Seq<OrderView>,
    order: OrderView,
    pair: (Seq<char>, Seq<char>),
)
    requires
        ledger.wf(),
        side_wf(same, order.side),
        order.quantity > 0,
        reserve_amount(order) <= u64::MAX,
        ledger.can_debit(order.account, reserve_asset(order.side, pair), reserve_amount(order) as u64),
        match_against(order, opposite, order.quantity).trades.len() == 0,
        !present(same, order.id, Some(order.price)),
    ensures
        ({
            let res = match_against(order, opposite, order.quantity);
            let asset = reserve_asset(order.side, pair);
            let submitted = settle(
                ledger.debit(order.account, asset, reserve_amount(order) as u64),
                res.trades,
                pair,
                order,
            );
            let resting = placed(same, order.with_quantity(res.left));
            let k = locate(resting, order.id, Some(order.price));
            &&& res.left == order.quantity
            &&& res.resting == opposite
            &&& present(resting, order.id, Some(order.price))
            &&& resting[k] == order
            &&& resting.remove(k) == same
            &&& submitted.credit(resting[k].account, asset, refund_amount(resting[k])) == ledger
        }),
{
    lemma_no_trade(order, opposite, order.quantity);
    lemma_slot_exists(same, order.side, order.price);
    let k = slot(same, order.side, order.price);
    let resting = same.insert(k, order);
    assert(order.with_quantity(order.quantity) == order);
    assert(placed(same, order) == resting);
    assert forall|j: int| 0 <= j < k implies !selects(#[trigger] resting[j], order.id, Some(order.price)) by {
        assert(resting[j] == same[j]);
    }
    lemma_first_unique(resting, order.id, Some(order.price), k);
    assert(resting.remove(k) =~= same);
    lemma_credit_undoes_debit(
        ledger,
        order.account,
        reserve_asset(order.side, pair),
        reserve_amount(order) as u64,
    );
}

/// The pairs of a list of markets, in the same order.
pub open spec fn market_keys(markets: Seq<Market>) -> Seq<(Seq<char>, Seq<char>)> {
    Seq::new(markets.len(), |i: int| markets[i].pair@)
}

/// Price times quantity, stopped at `u64::MAX`.
fn notional(price: u64, quantity: u64) -> (n: u64)
    ensures
        n == capped_notional(price, quantity),
{
    match price.checked_mul(quantity) {
        Some(n) => n,
        None => u64::MAX,
    }
}

/// The exchange. The first market registered for a pair is that pair's market.
pub struct Exchange {
    pub markets: Vec<Market>,
    pub account_manager: AccountManager,
}

impl Exchange {
    /// Whether a market is registered for `pair`.
    pub open spec fn has_market(&self, pair: (Seq<char>, Seq<char>)) -> bool {
        market_keys(self.markets@).contains(pair)
    }

    /// The market of `pair`, where one is registered.
    pub open spec fn market(&self, pair: (Seq<char>, Seq<char>)) -> Market {
        self.markets@[index_of(market_keys(self.markets@), pair)]
    }

    /// Whether `other` differs from this exchange at most in the ledger and in
    /// the market of `pair`.
    pub open spec fn same_elsewhere(&self, other: &Exchange, pair: (Seq<char>, Seq<char>)) -> bool {
        &&& other.markets@.len() == self.markets@.len()
        &&& market_keys(other.markets@) == market_keys(self.markets@)
        &&& forall|j: int|
            0 <= j < self.markets@.len() && j != index_of(market_keys(self.markets@), pair)
                ==> other.markets@[j] == self.markets@[j]
    }

    /// Creates an exchange without markets or accounts.
    pub fn new() -> (exchange: Self)
        ensures
            exchange.markets@.len() == 0,
            exchange.account_manager@ == LedgerView::empty(),
    {
        Exchange { markets: Vec::new(), account_manager: AccountManager::new() }
    }

    /// The place of the market of `pair`.
    fn find_market(&self, pair: &Pair) -> (r: Option<usize>)
        ensures
            match r {
                Some(i) => first_at(market_keys(self.markets@), pair@, i as int) && i as int == index_of(
                    market_keys(self.markets@),
                    pair@,
                ) && self.has_market(pair@),
                None => !self.has_market(pair@),
            },
    {
        let mut i: usize = 0;
        while i < self.markets.len()
            invariant
                i <= self.markets.len(),
                forall|j: int| 0 <= j < i ==> #[trigger] market_keys(self.markets@)[j] != pair@,
            decreases self.markets.len() - i,
        {
            if self.markets[i].pair.same(pair) {
                proof {
                    lemma_index_unique(market_keys(self.markets@), pair@, i as int);
                }
                return Some(i);
            }
            i += 1;
        }
        None
    }

    /// Registers `market`. It takes the place of the market registered for
    /// the same pair, where there is one.
    pub fn add_market(&mut self, market: Market)
        ensures
            final(self).has_market(market.pair@),
            final(self).market(market.pair@) == market,
            final(self).account_manager == old(self).account_manager,
            final(self).markets@ == if old(self).has_market(market.pair@) {
                old(self).markets@.update(index_of(market_keys(old(self).markets@), market.pair@), market)
            } else {
                old(self).markets@.push(market)
            },
    {
        let ghost keys = market_keys(self.markets@);
        let ghost pair = market.pair@;
        match self.find_market(&market.pair) {
            Some(i) => {
                self.markets[i] = market;
                proof {
                    assert(market_keys(self.markets@) =~= keys);
                }
            },
            None => {
                self.markets.push(market);
                proof {
                    let now = market_keys(self.markets@);
                    assert(now =~= keys.push(pair));
                    assert(first_at(now, pair, keys.len() as int));
                    lemma_index_unique(now, pair, keys.len() as int);
                }
            },
        }
    }

    /// Credits `amount` of `asset` to the account.
    pub fn add_balance(&mut self, account_id: AccountId, asset: Asset, amount: u64)
        ensures
            final(self).account_manager@ == old(self).account_manager@.credit(account_id@, asset@, amount),
            final(self).markets == old(self).markets,
    {
        self.account_manager.add_balance(account_id, asset, amount);
    }

    /// Takes `amount` of `asset` from the account. Fails, and changes
    /// nothing, where the account has no record or holds less than `amount`.
    pub fn remove_balance(&mut self, account_id: AccountId, asset: Asset, amount: u64) -> (r: Result<
        (),
        ExchangeError,
    >)
        ensures
            final(self).markets == old(self).markets,
            match r {
                Ok(_) => {
                    &&& old(self).account_manager@.can_debit(account_id@, asset@, amount)
                    &&& final(self).account_manager@ == old(self).account_manager@.debit(
                        account_id@,
                        asset@,
                        amount,
                    )
                },
                Err(ExchangeError::AccountUnknown) => {
                    &&& !old(self).account_manager@.known.contains(account_id@)
                    &&& *final(self) == *old(self)
                },
                Err(ExchangeError::InsufficientBalance) => {
                    &&& old(self).account_manager@.known.contains(account_id@)
                    &&& old(self).account_manager@.balance(account_id@, asset@) < amount
                    &&& *final(self) == *old(self)
                },
                Err(_) => false,
            },
    {
        self.account_manager.remove_balance(account_id, asset, amount)
    }

    /// Reads the balance of the account in `asset`. Fails where the account
    /// has no record.
    pub fn get_balance(&self, account_id: AccountId, asset: Asset) -> (r: Result<u64, ExchangeError>)
        ensures
            match r {
                Ok(b) => self.account_manager@.known.contains(account_id@) && b
                    == self.account_manager@.balance(account_id@, asset@),
                Err(ExchangeError::AccountUnknown) => !self.account_manager@.known.contains(account_id@),
                Err(_) => false,
            },
    {
        self.account_manager.get_balance(account_id, asset)
    }

    /// Pays out `trades`, made by the incoming order `taker` on the market of
    /// `pair`.
    fn pay_out(
        &mut self,
        trades: &Vec<Trade>,
        pair: Pair,
        taker_side: Side,
        taker_price: Price,
        Ghost(taker): Ghost<OrderView>,
    )
        requires
            taker.side == taker_side,
            taker.price == taker_price.0,
        ensures
            final(self).markets == old(self).markets,
            final(self).account_manager@ == settle(
                old(self).account_manager@,
                trade_views(trades@),
                pair@,
                taker,
            ),
    {
        let ghost start = self.account_manager@;
        let ghost all = trade_views(trades@);
        let mut i: usize = 0;
        assert(all.take(0) =~= Seq::<TradeView>::empty());
        while i < trades.len()
            invariant
                i <= trades.len(),
                all == trade_views(trades@),
                self.markets == old(self).markets,
                self.account_manager@ == settle(start, all.take(i as int), pair@, taker),
                taker.side == taker_side,
                taker.price == taker_price.0,
            decreases trades.len() - i,
        {
            let trade = &trades[i];
            let price = trade.price.0;
            let quantity = trade.quantity.0;
            proof {
                assert(all.take(i + 1).drop_last() =~= all.take(i as int));
                assert(all.take(i + 1).last() == trade@);
            }
            self.account_manager.add_balance(
                trade.ask_account_id.clone(),
                pair.numeraire,
                notional(price, quantity),
            );
            self.account_manager.add_balance(trade.bid_account_id.clone(), pair.base, quantity);
            let rebate = match taker_side {
                Side::Bid => taker_price.0 > price,
                Side::Ask => false,
            };
            if rebate {
                self.account_manager.add_balance(
                    trade.bid_account_id.clone(),
                    pair.numeraire,
                    notional(taker_price.0 - price, quantity),
                );
            }
            i += 1;
        }
        assert(all.take(trades.len() as int) =~= all);
    }

    /// Submits `order` to the market of `pair`.
    ///
    /// The order is refused, and nothing changes, where no market is
    /// registered for the pair, where a bid's notional does not fit in 64
    /// bits, or where the account cannot pay the reservation. Otherwise the
    /// reservation is taken, the order is matched, every trade is paid out,
    /// and what is left of the order rests on the book.
    pub fn post_order(&mut self, order: Order, pair: Pair) -> (r: Result<Vec<Trade>, ExchangeError>)
        ensures
            match r {
                Ok(trades) => {
                    let ledger = old(self).account_manager@;
                    let asset = reserve_asset(order.side, pair@);
                    let market = old(self).market(pair@);
                    let res = match_against(
                        order@,
                        market.side_view(order.side.spec_opposite()),
                        order.quantity.0,
                    );
                    &&& old(self).has_market(pair@)
                    &&& reserve_amount(order@) <= u64::MAX
                    &&& ledger.can_debit(order.account_id@, asset, reserve_amount(order@) as u64)
                    &&& trade_views(trades@) == res.trades
                    &&& final(self).account_manager@ == settle(
                        ledger.debit(order.account_id@, asset, reserve_amount(order@) as u64),
                        res.trades,
                        pair@,
                        order@,
                    )
                    &&& old(self).same_elsewhere(final(self), pair@)
                    &&& old(self).market(pair@).wf()
                    &&& final(self).market(pair@).wf()
                    &&& final(self).market(pair@).side_view(order.side.spec_opposite()) == res.resting
                    &&& final(self).market(pair@).side_view(order.side) == if res.left > 0 {
                        placed(market.side_view(order.side), order@.with_quantity(res.left))
                    } else {
                        market.side_view(order.side)
                    }
                },
                Err(ExchangeError::UnknownMarket) => {
                    &&& !old(self).has_market(pair@)
                    &&& *final(self) == *old(self)
                },
                Err(ExchangeError::Overflow) => {
                    &&& old(self).has_market(pair@)
                    &&& reserve_amount(order@) > u64::MAX
                    &&& *final(self) == *old(self)
                },
                Err(ExchangeError::InsufficientBalance) => {
                    &&& old(self).has_market(pair@)
                    &&& reserve_amount(order@) <= u64::MAX
                    &&& !old(self).account_manager@.can_debit(
                        order.account_id@,
                        reserve_asset(order.side, pair@),
                        reserve_amount(order@) as u64,
                    )
                    &&& *final(self) == *old(self)
                },
                Err(_) => false,
            },
    {
        let i = match self.find_market(&pair) {
            None => {
                return Err(ExchangeError::UnknownMarket);
            },
            Some(i) => i,
        };
        let (asset, amount) = match order.side {
            Side::Bid => match order.price.0.checked_mul(order.quantity.0) {
                None => {
                    return Err(ExchangeError::Overflow);
                },
                Some(n) => (pair.numeraire, n),
            },
            Side::Ask => (pair.base, order.quantity.0),
        };
        match self.account_manager.remove_balance(order.account_id.clone(), asset, amount) {
            Err(_) => {
                return Err(ExchangeError::InsufficientBalance);
            },
            Ok(_) => {},
        }
        let side = order.side;
        let limit = order.price;
        let ghost taker = order@;
        let ghost keys = market_keys(self.markets@);
        let trades = self.markets[i].process_order(order);
        proof {
            assert(market_keys(self.markets@) =~= keys);
        }
        self.pay_out(&trades, pair, side, limit, Ghost(taker));
        Ok(trades)
    }

    /// Cancels the first resting order on `side` of the market of `pair` that
    /// carries `order_id` at `price`, and returns to its account what it
    /// still reserves.
    ///
    /// Fails, and changes nothing, where no market is registered for the
    /// pair or the book holds no such order.
    pub fn cancel_order(&mut self, order_id: OrderId, price: Price, side: Side, pair: Pair) -> (r: Result<
        (),
        ExchangeError,
    >)
        ensures
            match r {
                Ok(_) => {
                    let resting = old(self).market(pair@).side_view(side);
                    let k = locate(resting, order_id.0, Some(price.0));
                    &&& old(self).has_market(pair@)
                    &&& present(resting, order_id.0, Some(price.0))
                    &&& old(self).same_elsewhere(final(self), pair@)
                    &&& old(self).market(pair@).wf()
                    &&& final(self).market(pair@).wf()
                    &&& final(self).market(pair@).side_view(side) == resting.remove(k)
                    &&& final(self).market(pair@).side_view(side.spec_opposite()) == old(self).market(
                        pair@,
                    ).side_view(side.spec_opposite())
                    &&& final(self).account_manager@ == old(self).account_manager@.credit(
                        resting[k].account,
                        reserve_asset(side, pair@),
                        refund_amount(resting[k]),
                    )
                },
                Err(ExchangeError::UnknownMarket) => {
                    &&& !old(self).has_market(pair@)
                    &&& *final(self) == *old(self)
                },
                Err(ExchangeError::OrderNotFound) => {
                    &&& old(self).has_market(pair@)
                    &&& !present(old(self).market(pair@).side_view(side), order_id.0, Some(price.0))
                    &&& final(self).markets@ == old(self).markets@
                    &&& final(self).account_manager == old(self).account_manager
                },
                Err(_) => false,
            },
    {
        let i = match self.find_market(&pair) {
            None => {
                return Err(ExchangeError::UnknownMarket);
            },
            Some(i) => i,
        };
        let ghost keys = market_keys(self.markets@);
        let removed = self.markets[i].cancel_order(order_id, side, price);
        proof {
            assert(market_keys(self.markets@) =~= keys);
        }
        match removed {
            None => {
                assert(self.markets@ =~= old(self).markets@);
                Err(ExchangeError::OrderNotFound)
            },
            Some(order) => {
                let (asset, amount) = match side {
                    Side::Bid => (pair.numeraire, notional(order.price.0, order.quantity.0)),
                    Side::Ask => (pair.base, order.quantity.0),
                };
                self.account_manager.add_balance(order.account_id, asset, amount);
                Ok(())
            },
        }
    }
}

} // verus!
