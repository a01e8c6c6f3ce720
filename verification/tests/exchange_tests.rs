use exchanges::account::Account;
use exchanges::account_manager::AccountManager;
use exchanges::asset::Asset;
use exchanges::error::ExchangeError;
use exchanges::exchange::Exchange;
use exchanges::market::{Market, Pair};
use exchanges::order::{AccountId, Order, OrderId, Price, Quantity, Side, Timestamp};

fn usd() -> Asset {
    Asset::new("USD")
}

fn btc() -> Asset {
    Asset::new("BTC")
}

fn pair() -> Pair {
    Pair { numeraire: usd(), base: btc() }
}

fn id(who: &str) -> AccountId {
    AccountId::new(who.to_string())
}

fn order(oid: u64, price: u64, qty: u64, side: Side, who: &str, ts: u64) -> Order {
    Order::new(OrderId::new(oid), Price::new(price), Quantity::new(qty), side, id(who), Timestamp::new(ts))
}

fn exchange() -> Exchange {
    let mut ex = Exchange::new();
    ex.add_market(Market::new(pair()));
    ex
}

fn bal(ex: &Exchange, who: &str, asset: Asset) -> u64 {
    ex.get_balance(id(who), asset).unwrap()
}

fn book_is_empty(ex: &mut Exchange) -> bool {
    let book = ex.markets[0].matching_engine.orderbook();
    book.get_bids().is_empty()
        && book.get_asks().is_empty()
        && book.get_best_bid().is_none()
        && book.get_best_ask().is_none()
}

/// What all of `who` hold of `asset`, together with what the book of the
/// first market holds in reserve of it.
fn supply(ex: &Exchange, who: &[&str], asset: Asset) -> u128 {
    let mut sum: u128 = 0;
    for w in who {
        sum += ex.get_balance(id(w), asset).unwrap_or(0) as u128;
    }
    let market = &ex.markets[0];
    let book = market.matching_engine.orderbook();
    if asset.same(&market.pair.numeraire) {
        for (_, queue) in book.get_bids().iter() {
            for o in queue.iter() {
                sum += o.price.get() as u128 * o.quantity.get() as u128;
            }
        }
    }
    if asset.same(&market.pair.base) {
        for (_, queue) in book.get_asks().iter() {
            for o in queue.iter() {
                sum += o.quantity.get() as u128;
            }
        }
    }
    sum
}

fn not_crossed(ex: &Exchange) -> bool {
    let book = ex.markets[0].matching_engine.orderbook();
    match (book.get_best_bid(), book.get_best_ask()) {
        (Some(bid), Some(ask)) => bid < ask,
        _ => true,
    }
}

#[test]
fn assets_are_conserved_and_the_book_stays_uncrossed() {
    let mut ex = exchange();
    let who = ["ann", "bob", "carol"];
    ex.add_balance(id("ann"), usd(), 1_000_000);
    ex.add_balance(id("bob"), btc(), 20);
    ex.add_balance(id("carol"), usd(), 500_000);
    ex.add_balance(id("carol"), btc(), 5);
    let usd0 = supply(&ex, &who, usd());
    let btc0 = supply(&ex, &who, btc());
    assert_eq!(usd0, 1_500_000);
    assert_eq!(btc0, 25);
    let orders = vec![
        order(1, 50_000, 3, Side::Ask, "bob", 1),
        order(2, 49_000, 2, Side::Bid, "ann", 2),
        order(3, 51_000, 4, Side::Ask, "carol", 3),
        order(4, 50_500, 5, Side::Bid, "ann", 4),
        order(5, 48_000, 6, Side::Ask, "bob", 5),
        order(6, 52_000, 9, Side::Bid, "carol", 6),
        order(7, 52_000, 1, Side::Ask, "ann", 7),
    ];
    for o in orders {
        let _ = ex.post_order(o, pair());
        assert_eq!(supply(&ex, &who, usd()), usd0);
        assert_eq!(supply(&ex, &who, btc()), btc0);
        assert!(not_crossed(&ex));
    }
    let _ = ex.cancel_order(OrderId::new(6), Price::new(52_000), Side::Bid, pair());
    let _ = ex.cancel_order(OrderId::new(3), Price::new(51_000), Side::Ask, pair());
    assert_eq!(supply(&ex, &who, usd()), usd0);
    assert_eq!(supply(&ex, &who, btc()), btc0);
    assert!(not_crossed(&ex));
}

#[test]
fn simple_cross_full_fill() {
    let mut ex = exchange();
    ex.add_balance(id("ann"), usd(), 100_000);
    ex.add_balance(id("bob"), btc(), 10);
    assert!(ex.post_order(order(1, 50_000, 2, Side::Ask, "bob", 1), pair()).unwrap().is_empty());
    let trades = ex.post_order(order(2, 50_000, 2, Side::Bid, "ann", 2), pair()).unwrap();
    assert_eq!(trades.len(), 1);
    assert_eq!(trades[0].ask_order_id, OrderId::new(1));
    assert_eq!(trades[0].bid_order_id, OrderId::new(2));
    assert_eq!(trades[0].price, Price::new(50_000));
    assert_eq!(trades[0].quantity, Quantity::new(2));
    assert_eq!(bal(&ex, "ann", usd()), 0);
    assert_eq!(bal(&ex, "ann", btc()), 2);
    assert_eq!(bal(&ex, "bob", usd()), 100_000);
    assert_eq!(bal(&ex, "bob", btc()), 8);
    assert!(book_is_empty(&mut ex));
}

#[test]
fn price_improvement_is_paid_back() {
    let mut ex = exchange();
    ex.add_balance(id("ann"), usd(), 60_000);
    ex.add_balance(id("bob"), btc(), 1);
    ex.post_order(order(1, 49_000, 1, Side::Ask, "bob", 1), pair()).unwrap();
    let trades = ex.post_order(order(2, 50_000, 1, Side::Bid, "ann", 2), pair()).unwrap();
    assert_eq!(trades.len(), 1);
    assert_eq!(trades[0].price, Price::new(49_000));
    assert_eq!(trades[0].quantity, Quantity::new(1));
    assert_eq!(bal(&ex, "ann", usd()), 11_000);
    assert_eq!(bal(&ex, "ann", btc()), 1);
    assert_eq!(bal(&ex, "bob", usd()), 49_000);
    assert_eq!(bal(&ex, "bob", btc()), 0);
}

#[test]
fn partial_fill_rests() {
    let mut ex = exchange();
    ex.add_balance(id("ann"), usd(), 250_000);
    ex.add_balance(id("bob"), btc(), 3);
    ex.post_order(order(1, 50_000, 3, Side::Ask, "bob", 1), pair()).unwrap();
    let trades = ex.post_order(order(2, 50_000, 5, Side::Bid, "ann", 2), pair()).unwrap();
    assert_eq!(trades.len(), 1);
    assert_eq!(trades[0].price, Price::new(50_000));
    assert_eq!(trades[0].quantity, Quantity::new(3));
    assert_eq!(bal(&ex, "ann", usd()), 0);
    assert_eq!(bal(&ex, "ann", btc()), 3);
    assert_eq!(bal(&ex, "bob", usd()), 150_000);
    assert_eq!(bal(&ex, "bob", btc()), 0);
    let bids = ex.markets[0].matching_engine.orderbook().get_bids();
    assert_eq!(bids.len(), 1);
    assert_eq!(bids[0].0, Price::new(50_000));
    assert_eq!(bids[0].1.len(), 1);
    assert_eq!(bids[0].1[0].id, OrderId::new(2));
    assert_eq!(bids[0].1[0].quantity, Quantity::new(2));
    assert!(ex.markets[0].matching_engine.orderbook().get_asks().is_empty());
    // The 100 000 that the rest of the bid reserves comes back when it is cancelled.
    assert_eq!(ex.cancel_order(OrderId::new(2), Price::new(50_000), Side::Bid, pair()), Ok(()));
    assert_eq!(bal(&ex, "ann", usd()), 100_000);
}

#[test]
fn partial_fill_needs_the_whole_reservation() {
    let mut ex = exchange();
    ex.add_balance(id("ann"), usd(), 200_000);
    ex.add_balance(id("bob"), btc(), 3);
    ex.post_order(order(1, 50_000, 3, Side::Ask, "bob", 1), pair()).unwrap();
    let r = ex.post_order(order(2, 50_000, 5, Side::Bid, "ann", 2), pair());
    assert_eq!(r.unwrap_err(), ExchangeError::InsufficientBalance);
    assert_eq!(bal(&ex, "ann", usd()), 200_000);
    assert_eq!(bal(&ex, "bob", btc()), 0);
}

#[test]
fn fifo_at_a_level() {
    let mut ex = exchange();
    ex.add_balance(id("ann"), btc(), 5);
    ex.add_balance(id("bob"), btc(), 5);
    ex.add_balance(id("carol"), usd(), 400_000);
    ex.post_order(order(1, 50_000, 2, Side::Ask, "ann", 1), pair()).unwrap();
    ex.post_order(order(2, 50_000, 2, Side::Ask, "bob", 2), pair()).unwrap();
    let trades = ex.post_order(order(3, 50_000, 3, Side::Bid, "carol", 3), pair()).unwrap();
    assert_eq!(trades.len(), 2);
    assert_eq!(trades[0].ask_order_id, OrderId::new(1));
    assert_eq!(trades[0].quantity, Quantity::new(2));
    assert_eq!(trades[1].ask_order_id, OrderId::new(2));
    assert_eq!(trades[1].quantity, Quantity::new(1));
    assert_eq!(bal(&ex, "ann", usd()), 100_000);
    assert_eq!(bal(&ex, "bob", usd()), 50_000);
    assert_eq!(bal(&ex, "carol", usd()), 250_000);
    assert_eq!(bal(&ex, "carol", btc()), 3);
    let rest = ex.markets[0].cancel_order(OrderId::new(2), Side::Ask, Price::new(50_000)).unwrap();
    assert_eq!(rest.quantity, Quantity::new(1));
}

#[test]
fn walk_multiple_levels() {
    let mut ex = exchange();
    ex.add_balance(id("bob"), btc(), 10);
    ex.add_balance(id("ann"), usd(), 600_000);
    ex.post_order(order(1, 49_000, 3, Side::Ask, "bob", 1), pair()).unwrap();
    ex.post_order(order(2, 50_000, 2, Side::Ask, "bob", 2), pair()).unwrap();
    let trades = ex.post_order(order(3, 50_000, 4, Side::Bid, "ann", 3), pair()).unwrap();
    assert_eq!(trades.len(), 2);
    assert_eq!(trades[0].ask_order_id, OrderId::new(1));
    assert_eq!(trades[0].price, Price::new(49_000));
    assert_eq!(trades[0].quantity, Quantity::new(3));
    assert_eq!(trades[1].ask_order_id, OrderId::new(2));
    assert_eq!(trades[1].price, Price::new(50_000));
    assert_eq!(trades[1].quantity, Quantity::new(1));
    assert_eq!(bal(&ex, "ann", usd()), 600_000 - 200_000 + 3_000);
    assert_eq!(bal(&ex, "ann", btc()), 4);
    assert_eq!(bal(&ex, "bob", usd()), 147_000 + 50_000);
    assert_eq!(bal(&ex, "bob", btc()), 5);
    let rest = ex.markets[0].cancel_order(OrderId::new(2), Side::Ask, Price::new(50_000)).unwrap();
    assert_eq!(rest.quantity, Quantity::new(1));
}

#[test]
fn cancel_refunds_the_reservation() {
    let mut ex = exchange();
    ex.add_balance(id("ann"), usd(), 100_000);
    let trades = ex.post_order(order(1, 50_000, 1, Side::Bid, "ann", 1), pair()).unwrap();
    assert!(trades.is_empty());
    assert_eq!(bal(&ex, "ann", usd()), 50_000);
    assert_eq!(ex.cancel_order(OrderId::new(1), Price::new(50_000), Side::Bid, pair()), Ok(()));
    assert_eq!(bal(&ex, "ann", usd()), 100_000);
    assert!(book_is_empty(&mut ex));
}

#[test]
fn cancel_refunds_an_ask_in_the_base() {
    let mut ex = exchange();
    ex.add_balance(id("bob"), btc(), 4);
    ex.post_order(order(1, 50_000, 3, Side::Ask, "bob", 1), pair()).unwrap();
    assert_eq!(bal(&ex, "bob", btc()), 1);
    assert_eq!(ex.cancel_order(OrderId::new(1), Price::new(50_000), Side::Ask, pair()), Ok(()));
    assert_eq!(bal(&ex, "bob", btc()), 4);
    assert_eq!(bal(&ex, "bob", usd()), 0);
}

#[test]
fn rejection_leaves_state_untouched() {
    let mut ex = exchange();
    ex.add_balance(id("ann"), usd(), 10_000);
    let r = ex.post_order(order(1, 50_000, 1, Side::Bid, "ann", 1), pair());
    assert_eq!(r.unwrap_err(), ExchangeError::InsufficientBalance);
    assert_eq!(bal(&ex, "ann", usd()), 10_000);
    assert!(book_is_empty(&mut ex));
}

#[test]
fn order_of_an_unknown_account_is_refused() {
    let mut ex = exchange();
    let r = ex.post_order(order(1, 50_000, 1, Side::Ask, "nobody", 1), pair());
    assert_eq!(r.unwrap_err(), ExchangeError::InsufficientBalance);
    assert_eq!(ex.get_balance(id("nobody"), btc()), Err(ExchangeError::AccountUnknown));
}

#[test]
fn unknown_market_is_refused() {
    let mut ex = Exchange::new();
    ex.add_balance(id("ann"), usd(), 100_000);
    let r = ex.post_order(order(1, 50_000, 1, Side::Bid, "ann", 1), pair());
    assert_eq!(r.unwrap_err(), ExchangeError::UnknownMarket);
    assert_eq!(bal(&ex, "ann", usd()), 100_000);
    assert_eq!(
        ex.cancel_order(OrderId::new(1), Price::new(50_000), Side::Bid, pair()),
        Err(ExchangeError::UnknownMarket)
    );
    let other = Pair { numeraire: btc(), base: usd() };
    ex.add_market(Market::new(other));
    let r = ex.post_order(order(1, 50_000, 1, Side::Bid, "ann", 1), pair());
    assert_eq!(r.unwrap_err(), ExchangeError::UnknownMarket);
}

#[test]
fn notional_overflow_is_refused() {
    let mut ex = exchange();
    ex.add_balance(id("ann"), usd(), u64::MAX);
    let r = ex.post_order(order(1, u64::MAX, 2, Side::Bid, "ann", 1), pair());
    assert_eq!(r.unwrap_err(), ExchangeError::Overflow);
    assert_eq!(bal(&ex, "ann", usd()), u64::MAX);
    assert!(ex.post_order(order(2, u64::MAX, 1, Side::Bid, "ann", 2), pair()).unwrap().is_empty());
    assert_eq!(bal(&ex, "ann", usd()), 0);
}

#[test]
fn cancel_of_a_missing_order_is_refused() {
    let mut ex = exchange();
    ex.add_balance(id("ann"), usd(), 100_000);
    ex.post_order(order(1, 50_000, 1, Side::Bid, "ann", 1), pair()).unwrap();
    assert_eq!(
        ex.cancel_order(OrderId::new(1), Price::new(50_001), Side::Bid, pair()),
        Err(ExchangeError::OrderNotFound)
    );
    assert_eq!(
        ex.cancel_order(OrderId::new(1), Price::new(50_000), Side::Ask, pair()),
        Err(ExchangeError::OrderNotFound)
    );
    assert_eq!(
        ex.cancel_order(OrderId::new(2), Price::new(50_000), Side::Bid, pair()),
        Err(ExchangeError::OrderNotFound)
    );
    assert_eq!(bal(&ex, "ann", usd()), 50_000);
}

#[test]
fn ledger_debit_and_credit() {
    let mut ledger = AccountManager::new();
    assert_eq!(ledger.get_balance(id("ann"), usd()), Err(ExchangeError::AccountUnknown));
    assert_eq!(ledger.remove_balance(id("ann"), usd(), 1), Err(ExchangeError::AccountUnknown));
    ledger.add_balance(id("ann"), usd(), 10);
    ledger.add_balance(id("ann"), usd(), 5);
    assert_eq!(ledger.get_balance(id("ann"), usd()), Ok(15));
    assert_eq!(ledger.get_balance(id("ann"), btc()), Ok(0));
    assert_eq!(ledger.remove_balance(id("ann"), usd(), 16), Err(ExchangeError::InsufficientBalance));
    assert_eq!(ledger.remove_balance(id("ann"), btc(), 1), Err(ExchangeError::InsufficientBalance));
    assert_eq!(ledger.get_balance(id("ann"), usd()), Ok(15));
    assert_eq!(ledger.remove_balance(id("ann"), usd(), 15), Ok(()));
    assert_eq!(ledger.get_balance(id("ann"), usd()), Ok(0));
    ledger.add_balance(id("bob"), btc(), u64::MAX);
    ledger.add_balance(id("bob"), btc(), 7);
    assert_eq!(ledger.get_balance(id("bob"), btc()), Ok(u64::MAX));
    assert_eq!(ledger.get_balance(id("ann"), btc()), Ok(0));
}

#[test]
fn exchange_debit_and_credit() {
    let mut ex = Exchange::new();
    ex.add_balance(id("ann"), usd(), 10);
    assert_eq!(ex.remove_balance(id("ann"), usd(), 4), Ok(()));
    assert_eq!(ex.get_balance(id("ann"), usd()), Ok(6));
    assert_eq!(ex.remove_balance(id("ann"), usd(), 7), Err(ExchangeError::InsufficientBalance));
    assert_eq!(ex.remove_balance(id("bob"), usd(), 1), Err(ExchangeError::AccountUnknown));
}

#[test]
fn account_holds_balances_by_asset() {
    let mut account = Account::new(id("ann"));
    assert_eq!(account.balance(&usd()), 0);
    account.set_balance(usd(), 5);
    account.set_balance(btc(), 7);
    account.set_balance(usd(), 6);
    assert_eq!(account.balance(&usd()), 6);
    assert_eq!(account.balance(&btc()), 7);
    assert_eq!(account.balances.len(), 2);
    assert_eq!(account.id, id("ann"));
}

#[test]
fn add_market_replaces_the_market_of_the_pair() {
    let mut ex = exchange();
    ex.add_balance(id("bob"), btc(), 4);
    ex.post_order(order(1, 50_000, 3, Side::Ask, "bob", 1), pair()).unwrap();
    ex.add_market(Market::new(pair()));
    assert_eq!(ex.markets.len(), 1);
    assert!(book_is_empty(&mut ex));
}

#[test]
fn error_messages() {
    assert_eq!(ExchangeError::InsufficientBalance.message(), "Insufficient balance");
    assert_eq!(ExchangeError::AccountUnknown.message(), "Account not found");
    assert_eq!(ExchangeError::OrderNotFound.message(), "Order not found");
    assert_eq!(ExchangeError::UnknownMarket.message(), "Market not found");
    assert_eq!(ExchangeError::Overflow.message(), "Notional overflow");
}

#[test]
fn ledger_hands_out_its_records() {
    let mut ledger = AccountManager::new();
    assert!(ledger.accounts().is_empty());
    ledger.add_balance(id("ann"), usd(), 10);
    ledger.add_balance(id("bob"), btc(), 2);
    ledger.add_balance(id("ann"), btc(), 1);
    let accounts = ledger.accounts();
    assert_eq!(accounts.len(), 2);
    assert_eq!(accounts[0].id, id("ann"));
    assert_eq!(accounts[0].balance(&usd()), 10);
    assert_eq!(accounts[0].balance(&btc()), 1);
    assert_eq!(accounts[1].id, id("bob"));
    assert_eq!(accounts[1].balance(&btc()), 2);
}

#[test]
fn pairs_compare_by_both_assets() {
    let p = pair();
    assert!(p.same(&Pair { numeraire: usd(), base: btc() }));
    assert!(!p.same(&Pair { numeraire: btc(), base: usd() }));
    assert!(!p.same(&Pair { numeraire: usd(), base: usd() }));
}

#[test]
fn trades_copy_faithfully() {
    let mut ex = exchange();
    ex.add_balance(id("ann"), usd(), 100_000);
    ex.add_balance(id("bob"), btc(), 10);
    ex.post_order(order(1, 50_000, 2, Side::Ask, "bob", 1), pair()).unwrap();
    let trades = ex.post_order(order(2, 50_000, 1, Side::Bid, "ann", 2), pair()).unwrap();
    let t = trades[0].clone();
    assert_eq!(t.ask_order_id, OrderId::new(1));
    assert_eq!(t.bid_order_id, OrderId::new(2));
    assert_eq!(t.ask_account_id, id("bob"));
    assert_eq!(t.bid_account_id, id("ann"));
    assert_eq!(t.price, Price::new(50_000));
    assert_eq!(t.quantity, Quantity::new(1));
}
