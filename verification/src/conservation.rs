//! Conservation of assets: what the accounts hold plus what the resting
//! orders hold in reserve does not change when an order is submitted or
//! cancelled.
//!
//! Balances are summed over a list of distinct accounts that names every
//! account an operation touches. The sums are taken in unbounded integers,
//! and the laws ask that the supply of each asset of the pair fits in 64
//! bits, so that no credit meets the 64-bit limit.

use vstd::prelude::*;
use crate::account_manager::LedgerView;
use crate::exchange::{refund_amount, reserve_amount, reserve_asset, settle, settle_one};
use crate::matching::{crosses, match_against, trade_of, TradeView};
use crate::order::{OrderView, Side};
use crate::orderbook::{better, lemma_slot_exists, placed, side_wf, slot};

verus! {

/// The sum of the balances in `asset` of the accounts in `accounts`.
pub open spec fn total(ledger: LedgerView, accounts: Seq<Seq<char>>, asset: Seq<char>) -> int
    decreases accounts.len(),
{
    if accounts.len() == 0 {
        0
    } else {
        total(ledger, accounts.drop_last(), asset) + ledger.balance(accounts.last(), asset)
    }
}

/// What the orders of one side hold in reserve: the sum of their notionals
/// for bids, of their quantities for asks.
pub open spec fn reserved(orders: Seq<OrderView>) -> int
    decreases orders.len(),
{
    if orders.len() == 0 {
        0
    } else {
        reserve_amount(orders[0]) + reserved(orders.drop_first())
    }
}

/// What the orders of `side` hold in reserve of `asset` on the market of
/// `pair`: nothing, unless `asset` is the one in which that side reserves.
pub open spec fn reserved_in(
    asset: Seq<char>,
    pair: (Seq<char>, Seq<char>),
    side: Side,
    orders: Seq<OrderView>,
) -> int {
    if asset == reserve_asset(side, pair) {
        reserved(orders)
    } else {
        0
    }
}

/// The supply of `asset` on the market of `pair`: what the accounts hold of
/// it, and what the orders of `side` (`same`) and of the other side
/// (`opposite`) hold of it in reserve.
pub open spec fn supply(
    ledger: LedgerView,
    accounts: Seq<Seq<char>>,
    pair: (Seq<char>, Seq<char>),
    side: Side,
    same: Seq<OrderView>,
    opposite: Seq<OrderView>,
    asset: Seq<char>,
) -> int {
    total(ledger, accounts, asset) + reserved_in(asset, pair, side, same) + reserved_in(
        asset,
        pair,
        side.spec_opposite(),
        opposite,
    )
}

/// Whether every order of `orders` belongs to an account in `accounts`.
pub open spec fn covers(accounts: Seq<Seq<char>>, orders: Seq<OrderView>) -> bool {
    forall|i: int| 0 <= i < orders.len() ==> accounts.contains((#[trigger] orders[i]).account)
}

/// A sum of balances is not negative, and no listed account holds more than
/// the sum.
pub proof fn lemma_total_bounds(
    ledger: LedgerView,
    accounts: Seq<Seq<char>>,
    account: Seq<char>,
    asset: Seq<char>,
)
    ensures
        total(ledger, accounts, asset) >= 0,
        accounts.contains(account) ==> ledger.balance(account, asset) <= total(ledger, accounts, asset),
    decreases accounts.len(),
{
    if accounts.len() > 0 {
        let init = accounts.drop_last();
        lemma_total_bounds(ledger, init, account, asset);
        if accounts.contains(account) && accounts.last() != account {
            let i = choose|i: int| 0 <= i < accounts.len() && accounts[i] == account;
            assert(init[i] == account);
        }
    }
}

/// Where one balance is set to `value`, the sum for that asset moves by the
/// change of that balance if the account is listed, and no other sum moves.
proof fn lemma_total_after_set(
    before: LedgerView,
    after: LedgerView,
    accounts: Seq<Seq<char>>,
    account: Seq<char>,
    asset: Seq<char>,
    value: u64,
    other: Seq<char>,
)
    requires
        accounts.no_duplicates(),
        after.balances == before.balances.insert((account, asset), value),
    ensures
        total(after, accounts, other) == total(before, accounts, other) + if other == asset
            && accounts.contains(account) {
            value - before.balance(account, asset)
        } else {
            0
        },
    decreases accounts.len(),
{
    if accounts.len() > 0 {
        let init = accounts.drop_last();
        let n = accounts.len() - 1;
        lemma_total_after_set(before, after, init, account, asset, value, other);
        if accounts.last() == account {
            if init.contains(account) {
                let i = choose|i: int| 0 <= i < init.len() && init[i] == account;
                assert(accounts[i] == accounts[n]);
            }
            assert(accounts[n] == account);
        } else {
            if accounts.contains(account) {
                let i = choose|i: int| 0 <= i < accounts.len() && accounts[i] == account;
                assert(init[i] == account);
            }
            if init.contains(account) {
                let i = choose|i: int| 0 <= i < init.len() && init[i] == account;
                assert(accounts[i] == account);
            }
        }
    }
}

/// A credit to a listed account that keeps the sum within 64 bits adds its
/// amount to the sum for its asset, and moves no other sum.
pub proof fn lemma_credit_total(
    ledger: LedgerView,
    accounts: Seq<Seq<char>>,
    account: Seq<char>,
    asset: Seq<char>,
    amount: u64,
    other: Seq<char>,
)
    requires
        ledger.wf(),
        accounts.no_duplicates(),
        accounts.contains(account),
        total(ledger, accounts, asset) + amount <= u64::MAX,
    ensures
        ledger.credit(account, asset, amount).wf(),
        total(ledger.credit(account, asset, amount), accounts, other) == total(ledger, accounts, other)
            + if other == asset {
            amount as int
        } else {
            0
        },
{
    lemma_total_bounds(ledger, accounts, account, asset);
    let value = (ledger.balance(account, asset) + amount) as u64;
    let after = ledger.credit(account, asset, amount);
    lemma_total_after_set(ledger, after, accounts, account, asset, value, other);
}

/// A debit from a listed account takes its amount from the sum for its
/// asset, and moves no other sum.
pub proof fn lemma_debit_total(
    ledger: LedgerView,
    accounts: Seq<Seq<char>>,
    account: Seq<char>,
    asset: Seq<char>,
    amount: u64,
    other: Seq<char>,
)
    requires
        ledger.wf(),
        accounts.no_duplicates(),
        accounts.contains(account),
        ledger.can_debit(account, asset, amount),
    ensures
        ledger.debit(account, asset, amount).wf(),
        total(ledger.debit(account, asset, amount), accounts, other) == total(ledger, accounts, other)
            - if other == asset {
            amount as int
        } else {
            0
        },
{
    let value = (ledger.balance(account, asset) - amount) as u64;
    let after = ledger.debit(account, asset, amount);
    lemma_total_after_set(ledger, after, accounts, account, asset, value, other);
}

/// No order reserves a negative amount.
pub proof fn lemma_reserve_amount_bounds(order: OrderView, quantity: u64)
    requires
        quantity <= order.quantity,
    ensures
        0 <= reserve_amount(order.with_quantity(quantity)) <= reserve_amount(order),
        reserve_amount(order.with_quantity(quantity)) + reserve_amount(
            order.with_quantity((order.quantity - quantity) as u64),
        ) == reserve_amount(order),
        reserve_amount(order.with_quantity(0)) == 0,
{
    let p = order.price as int;
    let a = quantity as int;
    let b = order.quantity as int;
    assert(0 <= p * a <= p * b && p * a + p * (b - a) == p * b && p * 0 == 0) by (nonlinear_arith)
        requires
            0 <= p,
            0 <= a <= b,
    ;
}

/// What a side holds in reserve is not negative, and no less than what any
/// one of its orders reserves.
pub proof fn lemma_reserved_bounds(orders: Seq<OrderView>, k: int)
    ensures
        reserved(orders) >= 0,
        0 <= k < orders.len() ==> reserve_amount(orders[k]) <= reserved(orders),
    decreases orders.len(),
{
    if orders.len() > 0 {
        lemma_reserve_amount_bounds(orders[0], orders[0].quantity);
        lemma_reserved_bounds(orders.drop_first(), k - 1);
    }
}

/// A side of one order holds in reserve what that order reserves.
pub proof fn lemma_reserved_single(order: OrderView)
    ensures
        reserved(seq![order]) == reserve_amount(order),
{
    let one = seq![order];
    assert(one.drop_first() =~= Seq::<OrderView>::empty());
    assert(reserved(one.drop_first()) == 0);
}

/// An order that joins a side adds what it reserves.
pub proof fn lemma_reserved_insert(orders: Seq<OrderView>, k: int, order: OrderView)
    requires
        0 <= k <= orders.len(),
    ensures
        reserved(orders.insert(k, order)) == reserved(orders) + reserve_amount(order),
    decreases k,
{
    let joined = orders.insert(k, order);
    if k == 0 {
        assert(joined.drop_first() =~= orders);
    } else {
        assert(joined.drop_first() =~= orders.drop_first().insert(k - 1, order));
        lemma_reserved_insert(orders.drop_first(), k - 1, order);
    }
}

/// An order that leaves a side takes what it reserves with it.
pub proof fn lemma_reserved_remove(orders: Seq<OrderView>, k: int)
    requires
        0 <= k < orders.len(),
    ensures
        reserved(orders.remove(k)) == reserved(orders) - reserve_amount(orders[k]),
    decreases k,
{
    let left = orders.remove(k);
    if k == 0 {
        assert(left =~= orders.drop_first());
    } else {
        assert(left.drop_first() =~= orders.drop_first().remove(k - 1));
        lemma_reserved_remove(orders.drop_first(), k - 1);
    }
}

/// Paying out a list of trades is paying out the first and then the rest.
proof fn lemma_settle_front(
    ledger: LedgerView,
    first: TradeView,
    rest: Seq<TradeView>,
    pair: (Seq<char>, Seq<char>),
    taker: OrderView,
)
    ensures
        settle(ledger, seq![first] + rest, pair, taker) == settle(
            settle_one(ledger, first, pair, taker),
            rest,
            pair,
            taker,
        ),
    decreases rest.len(),
{
    let all = seq![first] + rest;
    if rest.len() == 0 {
        assert(all.drop_last() =~= Seq::<TradeView>::empty());
        assert(all.last() == first);
        assert(settle(ledger, all.drop_last(), pair, taker) == ledger);
    } else {
        assert(all.drop_last() =~= seq![first] + rest.drop_last());
        assert(all.last() == rest.last());
        lemma_settle_front(ledger, first, rest.drop_last(), pair, taker);
    }
}

/// Paying out one trade of quantity `m` moves, from reserve to the accounts,
/// what the taker reserved for `m` and what the maker reserved for `m`.
proof fn lemma_settle_one_total(
    ledger: LedgerView,
    accounts: Seq<Seq<char>>,
    taker: OrderView,
    maker: OrderView,
    m: u64,
    pair: (Seq<char>, Seq<char>),
    other: Seq<char>,
)
    requires
        ledger.wf(),
        accounts.no_duplicates(),
        accounts.contains(taker.account),
        accounts.contains(maker.account),
        maker.side == taker.side.spec_opposite(),
        crosses(taker.side, taker.price, maker.price),
        supply(
            ledger,
            accounts,
            pair,
            taker.side,
            seq![taker.with_quantity(m)],
            seq![maker.with_quantity(m)],
            pair.0,
        ) <= u64::MAX,
        supply(
            ledger,
            accounts,
            pair,
            taker.side,
            seq![taker.with_quantity(m)],
            seq![maker.with_quantity(m)],
            pair.1,
        ) <= u64::MAX,
    ensures
        settle_one(ledger, trade_of(taker, maker, m), pair, taker).wf(),
        total(settle_one(ledger, trade_of(taker, maker, m), pair, taker), accounts, other) == supply(
            ledger,
            accounts,
            pair,
            taker.side,
            seq![taker.with_quantity(m)],
            seq![maker.with_quantity(m)],
            other,
        ),
{
    let t = trade_of(taker, maker, m);
    let num = pair.0;
    let base = pair.1;
    let p = maker.price as int;
    let limit = taker.price as int;
    let q = m as int;
    lemma_reserved_single(taker.with_quantity(m));
    lemma_reserved_single(maker.with_quantity(m));
    lemma_total_bounds(ledger, accounts, taker.account, num);
    lemma_total_bounds(ledger, accounts, taker.account, base);
    match taker.side {
        Side::Bid => {
            assert(0 <= p * q <= limit * q && p * q + (limit - p) * q == limit * q && 0 <= (limit - p) * q)
                by (nonlinear_arith)
                requires
                    0 <= p <= limit,
                    0 <= q,
            ;
            let first = (p * q) as u64;
            let a = ledger.credit(t.ask_account, num, first);
            lemma_credit_total(ledger, accounts, t.ask_account, num, first, other);
            lemma_credit_total(ledger, accounts, t.ask_account, num, first, num);
            lemma_credit_total(ledger, accounts, t.ask_account, num, first, base);
            let b = a.credit(t.bid_account, base, m);
            lemma_credit_total(a, accounts, t.bid_account, base, m, other);
            lemma_credit_total(a, accounts, t.bid_account, base, m, num);
            if limit > p {
                lemma_credit_total(b, accounts, t.bid_account, num, ((limit - p) * q) as u64, other);
            }
        },
        Side::Ask => {
            assert(0 <= p * q) by (nonlinear_arith)
                requires
                    0 <= p,
                    0 <= q,
            ;
            let first = (p * q) as u64;
            let a = ledger.credit(t.ask_account, num, first);
            lemma_credit_total(ledger, accounts, t.ask_account, num, first, other);
            lemma_credit_total(ledger, accounts, t.ask_account, num, first, base);
            lemma_credit_total(a, accounts, t.bid_account, base, m, other);
        },
    }
}

/// Matching conserves every asset: the accounts' balances, what is left of
/// the resting side's reserve and what the taker still reserves for its
/// unmatched quantity add up, after the trades have been paid out, to what
/// they added up to before.
pub proof fn lemma_match_conserves(
    ledger: LedgerView,
    accounts: Seq<Seq<char>>,
    taker: OrderView,
    resting: Seq<OrderView>,
    q: u64,
    pair: (Seq<char>, Seq<char>),
    other: Seq<char>,
)
    requires
        ledger.wf(),
        accounts.no_duplicates(),
        accounts.contains(taker.account),
        covers(accounts, resting),
        side_wf(resting, taker.side.spec_opposite()),
        supply(ledger, accounts, pair, taker.side, seq![taker.with_quantity(q)], resting, pair.0) <= u64::MAX,
        supply(ledger, accounts, pair, taker.side, seq![taker.with_quantity(q)], resting, pair.1) <= u64::MAX,
    ensures
        ({
            let res = match_against(taker, resting, q);
            let paid = settle(ledger, res.trades, pair, taker);
            &&& paid.wf()
            &&& res.left <= q
            &&& supply(
                paid,
                accounts,
                pair,
                taker.side,
                seq![taker.with_quantity(res.left)],
                res.resting,
                other,
            ) == supply(ledger, accounts, pair, taker.side, seq![taker.with_quantity(q)], resting, other)
        }),
    decreases resting.len(),
{
    let res = match_against(taker, resting, q);
    let opp = taker.side.spec_opposite();
    assert forall|x: u64| #[trigger]
        reserved(seq![taker.with_quantity(x)]) == reserve_amount(taker.with_quantity(x)) by {
        lemma_reserved_single(taker.with_quantity(x));
    }
    if q == 0 || resting.len() == 0 || !crosses(taker.side, taker.price, resting[0].price) {
    } else {
        let r = resting[0];
        let tail = resting.drop_first();
        let m = if q < r.quantity { q } else { r.quantity };
        let t = trade_of(taker, r, m);
        let next = settle_one(ledger, t, pair, taker);
        assert(accounts.contains(r.account));
        lemma_reserve_amount_bounds(r, m);
        lemma_reserve_amount_bounds(taker.with_quantity(q), m);
        lemma_reserved_bounds(tail, 0);
        lemma_reserved_single(r.with_quantity(m));
        assert(taker.with_quantity(q).with_quantity(m) == taker.with_quantity(m));
        lemma_settle_one_total(ledger, accounts, taker, r, m, pair, other);
        lemma_settle_one_total(ledger, accounts, taker, r, m, pair, pair.0);
        lemma_settle_one_total(ledger, accounts, taker, r, m, pair, pair.1);
        if q < r.quantity {
            let kept = resting.update(0, r.with_quantity((r.quantity - q) as u64));
            assert(kept.drop_first() =~= tail);
            assert(seq![t].drop_last() =~= Seq::<TradeView>::empty());
            assert(settle(ledger, Seq::<TradeView>::empty(), pair, taker) == ledger);
            assert(settle(ledger, seq![t], pair, taker) == next);
            lemma_reserve_amount_bounds(taker.with_quantity(q), 0);
        } else {
            let q2 = (q - r.quantity) as u64;
            let rest = match_against(taker, tail, q2);
            lemma_settle_front(ledger, t, rest.trades, pair, taker);
            assert(covers(accounts, tail)) by {
                assert forall|i: int| 0 <= i < tail.len() implies accounts.contains(
                    (#[trigger] tail[i]).account,
                ) by {
                    assert(tail[i] == resting[i + 1]);
                }
            }
            assert(side_wf(tail, opp)) by {
                assert forall|i: int| 0 <= i < tail.len() implies (#[trigger] tail[i]).side == opp
                    && tail[i].quantity > 0 by {
                    assert(tail[i] == resting[i + 1]);
                }
                assert forall|i: int, j: int| 0 <= i < j < tail.len() implies !better(
                    opp,
                    #[trigger] tail[j].price,
                    #[trigger] tail[i].price,
                ) by {
                    assert(tail[i] == resting[i + 1] && tail[j] == resting[j + 1]);
                }
            }
            assert(taker.with_quantity(q).with_quantity(q2) == taker.with_quantity(q2));
            lemma_match_conserves(next, accounts, taker, tail, q2, pair, other);
        }
    }
}

/// Conservation across a submission: for every asset, the supply is the same
/// after the order has been reserved, matched, paid out and queued as it was
/// before. The supply of each asset of the pair must fit in 64 bits.
pub proof fn lemma_submit_conserves(
    ledger: LedgerView,
    accounts: Seq<Seq<char>>,
    same: Seq<OrderView>,
    opposite: Seq<OrderView>,
    order: OrderView,
    pair: (Seq<char>, Seq<char>),
    asset: Seq<char>,
)
    requires
        ledger.wf(),
        accounts.no_duplicates(),
        accounts.contains(order.account),
        covers(accounts, opposite),
        side_wf(same, order.side),
        side_wf(opposite, order.side.spec_opposite()),
        reserve_amount(order) <= u64::MAX,
        ledger.can_debit(order.account, reserve_asset(order.side, pair), reserve_amount(order) as u64),
        supply(ledger, accounts, pair, order.side, same, opposite, pair.0) <= u64::MAX,
        supply(ledger, accounts, pair, order.side, same, opposite, pair.1) <= u64::MAX,
    ensures
        ({
            let res = match_against(order, opposite, order.quantity);
            let after = settle(
                ledger.debit(order.account, reserve_asset(order.side, pair), reserve_amount(order) as u64),
                res.trades,
                pair,
                order,
            );
            let same_after = if res.left > 0 {
                placed(same, order.with_quantity(res.left))
            } else {
                same
            };
            supply(after, accounts, pair, order.side, same_after, res.resting, asset) == supply(
                ledger,
                accounts,
                pair,
                order.side,
                same,
                opposite,
                asset,
            )
        }),
{
    let own = reserve_asset(order.side, pair);
    let amount = reserve_amount(order) as u64;
    let start = ledger.debit(order.account, own, amount);
    let res = match_against(order, opposite, order.quantity);
    lemma_debit_total(ledger, accounts, order.account, own, amount, asset);
    lemma_debit_total(ledger, accounts, order.account, own, amount, pair.0);
    lemma_debit_total(ledger, accounts, order.account, own, amount, pair.1);
    lemma_reserved_bounds(same, 0);
    assert(order.with_quantity(order.quantity) == order);
    assert forall|x: u64| #[trigger]
        reserved(seq![order.with_quantity(x)]) == reserve_amount(order.with_quantity(x)) by {
        lemma_reserved_single(order.with_quantity(x));
    }
    lemma_match_conserves(start, accounts, order, opposite, order.quantity, pair, asset);
    if res.left > 0 {
        let rest = order.with_quantity(res.left);
        lemma_slot_exists(same, rest.side, rest.price);
        lemma_reserved_insert(same, slot(same, rest.side, rest.price), rest);
    } else {
        lemma_reserve_amount_bounds(order, 0);
    }
}

/// Conservation across a cancellation: what the order held in reserve goes
/// back to its account, so that the supply of every asset stays as it was.
/// The supply of the asset in which the order reserves must fit in 64 bits.
pub proof fn lemma_cancel_conserves(
    ledger: LedgerView,
    accounts: Seq<Seq<char>>,
    resting: Seq<OrderView>,
    opposite: Seq<OrderView>,
    k: int,
    side: Side,
    pair: (Seq<char>, Seq<char>),
    asset: Seq<char>,
)
    requires
        ledger.wf(),
        accounts.no_duplicates(),
        0 <= k < resting.len(),
        accounts.contains(resting[k].account),
        side_wf(resting, side),
        supply(ledger, accounts, pair, side, resting, opposite, reserve_asset(side, pair)) <= u64::MAX,
    ensures
        supply(
            ledger.credit(resting[k].account, reserve_asset(side, pair), refund_amount(resting[k])),
            accounts,
            pair,
            side,
            resting.remove(k),
            opposite,
            asset,
        ) == supply(ledger, accounts, pair, side, resting, opposite, asset),
{
    lemma_reserved_bounds(resting, k);
    lemma_reserved_bounds(opposite, 0);
    lemma_reserved_remove(resting, k);
    lemma_reserve_amount_bounds(resting[k], resting[k].quantity);
    lemma_total_bounds(ledger, accounts, resting[k].account, reserve_asset(side, pair));
    assert(resting[k].side == side);
    assert(refund_amount(resting[k]) == reserve_amount(resting[k]));
    lemma_credit_total(
        ledger,
        accounts,
        resting[k].account,
        reserve_asset(side, pair),
        refund_amount(resting[k]),
        asset,
    );
}

} // verus!
