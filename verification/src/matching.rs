//! The matching engine: price-time priority over one book.

use vstd::prelude::*;
use crate::order::{AccountId, Order, OrderId, OrderView, Price, Quantity, Side};
use crate::orderbook::{better, is_first, lemma_first_unique, locate, placed, present, slot, OrderBook};

verus! {

/// One match between a resting order and an incoming one.
#[derive(Debug)]
pub struct Trade {
    pub ask_order_id: OrderId,
    pub bid_order_id: OrderId,
    pub ask_account_id: AccountId,
    pub bid_account_id: AccountId,
    pub price: Price,
    pub quantity: Quantity,
}

/// What a trade is: its fields as plain values.
pub struct TradeView {
    pub ask_order_id: u64,
    pub bid_order_id: u64,
    pub ask_account: Seq<char>,
    pub bid_account: Seq<char>,
    pub price: u64,
    pub quantity: u64,
}

impl View for Trade {
    type V = TradeView;

    open spec fn view(&self) -> TradeView {
        TradeView {
            ask_order_id: self.ask_order_id.0,
            bid_order_id: self.bid_order_id.0,
            ask_account: self.ask_account_id@,
            bid_account: self.bid_account_id@,
            price: self.price.0,
            quantity: self.quantity.0,
        }
    }
}

impl Clone for Trade {
    fn clone(&self) -> (r: Self)
        ensures
            r == *self,
    {
        Trade {
            ask_order_id: self.ask_order_id,
            bid_order_id: self.bid_order_id,
            ask_account_id: self.ask_account_id.clone(),
            bid_account_id: self.bid_account_id.clone(),
            price: self.price,
            quantity: self.quantity,
        }
    }
}

/// The views of a sequence of trades, in the same order.
pub open spec fn trade_views(trades: Seq<Trade>) -> Seq<TradeView> {
    Seq::new(trades.len(), |i: int| trades[i]@)
}

/// What becomes of a resting order once it has served a match.
pub enum OrderUpdate {
    /// It was filled and leaves the book.
    Remove,
    /// It stays with this quantity left.
    Update(Quantity),
}

/// Whether an incoming order of `side` with limit `limit` may trade against a
/// resting order at `resting`.
pub open spec fn crosses(side: Side, limit: u64, resting: u64) -> bool {
    match side {
        Side::Bid => resting <= limit,
        Side::Ask => resting >= limit,
    }
}

/// The trade of `quantity` between the incoming `taker` and the resting
/// `maker`, at the maker's price.
pub open spec fn trade_of(taker: OrderView, maker: OrderView, quantity: u64) -> TradeView {
    match taker.side {
        Side::Bid => TradeView {
            ask_order_id: maker.id,
            bid_order_id: taker.id,
            ask_account: maker.account,
            bid_account: taker.account,
            price: maker.price,
            quantity,
        },
        Side::Ask => TradeView {
            ask_order_id: taker.id,
            bid_order_id: maker.id,
            ask_account: taker.account,
            bid_account: maker.account,
            price: maker.price,
            quantity,
        },
    }
}

/// The outcome of matching an incoming order against one side of a book.
pub struct MatchResult {
    /// The trades, in the order in which they were made.
    pub trades: Seq<TradeView>,
    /// The side matched against, as it is left.
    pub resting: Seq<OrderView>,
    /// The quantity of the incoming order that found no match.
    pub left: u64,
}

/// Matches quantity `q` of `taker` against `resting`, the opposite side in
/// matching priority. The head of `resting` is consumed first; matching stops
/// when `q` is used up, the side is empty, or the head's price no longer
/// crosses the taker's limit.
pub open spec fn match_against(taker: OrderView, resting: Seq<OrderView>, q: u64) -> MatchResult
    decreases resting.len(),
{
    if q == 0 || resting.len() == 0 || !crosses(taker.side, taker.price, resting[0].price) {
        MatchResult { trades: Seq::empty(), resting, left: q }
    } else if q < resting[0].quantity {
        MatchResult {
            trades: seq![trade_of(taker, resting[0], q)],
            resting: resting.update(0, resting[0].with_quantity((resting[0].quantity - q) as u64)),
            left: 0,
        }
    } else {
        let rest = match_against(taker, resting.drop_first(), (q - resting[0].quantity) as u64);
        MatchResult {
            trades: seq![trade_of(taker, resting[0], resting[0].quantity)] + rest.trades,
            resting: rest.resting,
            left: rest.left,
        }
    }
}

/// No bid is priced at or above any ask.
pub open spec fn uncrossed(bids: Seq<OrderView>, asks: Seq<OrderView>) -> bool {
    forall|i: int, j: int|
        0 <= i < bids.len() && 0 <= j < asks.len() ==> (#[trigger] bids[i]).price < (#[trigger] asks[j]).price
}

/// Every trade is made with the resting order that stands at the trade's
/// place in the queue, at that order's price and for no more than it holds;
/// and a resting order is touched only when every order before it has been
/// filled whole.
pub proof fn lemma_priority(taker: OrderView, resting: Seq<OrderView>, q: u64)
    ensures
        match_against(taker, resting, q).trades.len() <= resting.len(),
        forall|i: int|
            0 <= i < match_against(taker, resting, q).trades.len() ==> {
                let t = #[trigger] match_against(taker, resting, q).trades[i];
                &&& t == trade_of(taker, resting[i], t.quantity)
                &&& t.price == resting[i].price
                &&& crosses(taker.side, taker.price, t.price)
                &&& t.quantity <= resting[i].quantity
                &&& t.quantity <= q
                &&& i + 1 < match_against(taker, resting, q).trades.len() ==> t.quantity
                    == resting[i].quantity
            },
    decreases resting.len(),
{
    if q == 0 || resting.len() == 0 || !crosses(taker.side, taker.price, resting[0].price) {
    } else if q < resting[0].quantity {
    } else {
        let q2 = (q - resting[0].quantity) as u64;
        let tail = resting.drop_first();
        lemma_priority(taker, tail, q2);
        let all = match_against(taker, resting, q).trades;
        let rest = match_against(taker, tail, q2).trades;
        assert forall|i: int| 0 <= i < all.len() implies {
            let t = #[trigger] all[i];
            &&& t == trade_of(taker, resting[i], t.quantity)
            &&& t.price == resting[i].price
            &&& crosses(taker.side, taker.price, t.price)
            &&& t.quantity <= resting[i].quantity
            &&& t.quantity <= q
            &&& i + 1 < all.len() ==> t.quantity == resting[i].quantity
        } by {
            if i > 0 {
                assert(all[i] == rest[i - 1]);
                assert(tail[i - 1] == resting[i]);
            }
        }
    }
}

/// The quantity that a list of trades has moved.
pub open spec fn traded(trades: Seq<TradeView>) -> int
    decreases trades.len(),
{
    if trades.len() == 0 {
        0
    } else {
        trades[0].quantity + traded(trades.drop_first())
    }
}

/// What was matched and what is left add up to the quantity that came in.
/// So an order is filled whole exactly when nothing is left, and rests
/// untouched exactly when nothing was traded.
pub proof fn lemma_fill_accounting(taker: OrderView, resting: Seq<OrderView>, q: u64)
    ensures
        traded(match_against(taker, resting, q).trades) + match_against(taker, resting, q).left == q,
        match_against(taker, resting, q).left <= q,
    decreases resting.len(),
{
    let res = match_against(taker, resting, q);
    assert(traded(Seq::<TradeView>::empty()) == 0);
    if q == 0 || resting.len() == 0 || !crosses(taker.side, taker.price, resting[0].price) {
    } else if q < resting[0].quantity {
        assert(res.trades.drop_first() =~= Seq::<TradeView>::empty());
    } else {
        let q2 = (q - resting[0].quantity) as u64;
        lemma_fill_accounting(taker, resting.drop_first(), q2);
        assert(res.trades.drop_first() =~= match_against(taker, resting.drop_first(), q2).trades);
    }
}

/// An order that makes no trade is left whole and leaves the other side as
/// it was.
pub proof fn lemma_no_trade(taker: OrderView, resting: Seq<OrderView>, q: u64)
    requires
        match_against(taker, resting, q).trades.len() == 0,
    ensures
        match_against(taker, resting, q).left == q,
        match_against(taker, resting, q).resting == resting,
{
}

/// A book is sound when it is well formed and not crossed: no bid is priced
/// at or above any ask.
pub open spec fn sound(book: OrderBook) -> bool {
    &&& book.wf()
    &&& uncrossed(book.bids_view(), book.asks_view())
}

/// Matches `taker` against the opposite side of the book, best price
/// first and earliest arrival first within a price, and hands out the
/// trades with the quantity that found no match.
fn find_matches(book: &mut OrderBook, taker: &Order) -> (r: (Vec<Trade>, u64))
    requires
        sound(*old(book)),
    ensures
        sound(*final(book)),
        final(book).side_view(taker.side) == old(book).side_view(taker.side),
        ({
            let res = match_against(
                taker@,
                old(book).side_view(taker.side.spec_opposite()),
                taker.quantity.0,
            );
            &&& trade_views(r.0@) == res.trades
            &&& final(book).side_view(taker.side.spec_opposite()) == res.resting
            &&& r.1 == res.left
        }),
        r.1 > 0 ==> forall|j: int|
            0 <= j < final(book).side_view(taker.side.spec_opposite()).len() ==> !crosses(
                taker.side,
                taker.price.0,
                (#[trigger] final(book).side_view(taker.side.spec_opposite())[j]).price,
            ),
{
    let side = taker.side;
    let opp = side.opposite();
    let ghost t = taker@;
    let ghost s0 = book.side_view(opp);
    let ghost same = book.side_view(side);
    let mut trades: Vec<Trade> = Vec::new();
    let mut q: u64 = taker.quantity.0;
    let mut open: bool = true;
    assert(trade_views(trades@) + match_against(t, s0, q).trades =~= match_against(t, s0, q).trades);
    while open && q > 0
        invariant
            book.wf(),
            uncrossed(book.bids_view(), book.asks_view()),
            book.side_view(side) == same,
            t == taker@,
            side == taker.side,
            opp == side.spec_opposite(),
            match_against(t, s0, taker.quantity.0).trades == trade_views(trades@) + match_against(
                t,
                book.side_view(opp),
                q,
            ).trades,
            match_against(t, s0, taker.quantity.0).resting == match_against(
                t,
                book.side_view(opp),
                q,
            ).resting,
            match_against(t, s0, taker.quantity.0).left == match_against(
                t,
                book.side_view(opp),
                q,
            ).left,
            !open ==> book.side_view(opp).len() == 0 || !crosses(
                side,
                t.price,
                book.side_view(opp)[0].price,
            ),
        decreases book.side_view(opp).len() + (if open && q > 0 { 1int } else { 0int }),
    {
        let ghost cur = book.side_view(opp);
        let ghost done = trade_views(trades@);
        let head = match book.front(opp) {
            None => None,
            Some(r) => {
                let meets = match side {
                    Side::Bid => r.price.0 <= taker.price.0,
                    Side::Ask => r.price.0 >= taker.price.0,
                };
                if meets {
                    Some((r.id, r.price, r.quantity.0, r.account_id.clone()))
                } else {
                    None
                }
            },
        };
        match head {
            None => {
                open = false;
            },
            Some((maker_id, maker_price, maker_qty, maker_account)) => {
                let m: u64 = if q < maker_qty { q } else { maker_qty };
                let trade = match side {
                    Side::Bid => Trade {
                        ask_order_id: maker_id,
                        bid_order_id: taker.id,
                        ask_account_id: maker_account,
                        bid_account_id: taker.account_id.clone(),
                        price: maker_price,
                        quantity: Quantity(m),
                    },
                    Side::Ask => Trade {
                        ask_order_id: taker.id,
                        bid_order_id: maker_id,
                        ask_account_id: taker.account_id.clone(),
                        bid_account_id: maker_account,
                        price: maker_price,
                        quantity: Quantity(m),
                    },
                };
                assert(trade@ == trade_of(t, cur[0], m));
                trades.push(trade);
                assert(trade_views(trades@) =~= done.push(trade_of(t, cur[0], m)));
                let update = if m == maker_qty {
                    OrderUpdate::Remove
                } else {
                    OrderUpdate::Update(Quantity(maker_qty - m))
                };
                let ghost q_before = q;
                q = q - m;
                match update {
                    OrderUpdate::Remove => {
                        proof {
                            lemma_first_unique(cur, maker_id.0, Some(maker_price.0), 0);
                        }
                        let gone = book.remove_order(maker_id, opp, maker_price);
                        proof {
                            let now = book.side_view(opp);
                            assert(now =~= cur.drop_first());
                            let rest = match_against(t, now, q);
                            assert(match_against(t, cur, q_before).trades == seq![trade_of(t, cur[0], m)]
                                + rest.trades);
                            assert(done + (seq![trade_of(t, cur[0], m)] + rest.trades) =~= done.push(
                                trade_of(t, cur[0], m),
                            ) + rest.trades);
                            assert forall|j: int| 0 <= j < now.len() implies (#[trigger] now[j]).price
                                == cur[j + 1].price by {}
                        }
                    },
                    OrderUpdate::Update(left) => {
                        proof {
                            lemma_first_unique(cur, maker_id.0, None, 0);
                        }
                        book.update_order_quantity(maker_id, opp, left);
                        proof {
                            let now = book.side_view(opp);
                            assert(now == cur.update(0, cur[0].with_quantity(left.0)));
                            assert(match_against(t, now, 0).trades =~= Seq::<TradeView>::empty());
                            assert(done + seq![trade_of(t, cur[0], m)] =~= done.push(
                                trade_of(t, cur[0], m),
                            ) + Seq::<TradeView>::empty());
                            assert forall|j: int| 0 <= j < now.len() implies (#[trigger] now[j]).price
                                == cur[j].price by {}
                        }
                    },
                }
            },
        }
    }
    proof {
        let now = book.side_view(opp);
        assert(match_against(t, now, q).trades =~= Seq::<TradeView>::empty());
        assert(trade_views(trades@) + Seq::<TradeView>::empty() =~= trade_views(trades@));
        if q > 0 && now.len() > 0 {
            assert forall|j: int| 0 <= j < now.len() implies !crosses(
                side,
                t.price,
                (#[trigger] now[j]).price,
            ) by {
                if j > 0 {
                    assert(!better(opp, now[j].price, now[0].price));
                }
            }
        }
    }
    (trades, q)
}

/// Where one side of a book holds only orders of a sound book's side and the
/// other side is the same, the book is not crossed.
proof fn lemma_subset_uncrossed(now: OrderBook, before: OrderBook, side: Side)
    requires
        sound(before),
        now.side_view(side.spec_opposite()) == before.side_view(side.spec_opposite()),
        forall|j: int|
            0 <= j < now.side_view(side).len() ==> exists|j2: int|
                0 <= j2 < before.side_view(side).len() && before.side_view(side)[j2]
                    == #[trigger] now.side_view(side)[j],
    ensures
        uncrossed(now.bids_view(), now.asks_view()),
{
    let nb = now.bids_view();
    let na = now.asks_view();
    let ob = before.bids_view();
    let oa = before.asks_view();
    assert forall|i: int, j: int| 0 <= i < nb.len() && 0 <= j < na.len() implies (#[trigger] nb[i]).price < (
    #[trigger] na[j]).price by {
        match side {
            Side::Bid => {
                let i2 = choose|i2: int| 0 <= i2 < ob.len() && ob[i2] == now.side_view(side)[i];
                assert(ob[i2].price < oa[j].price);
            },
            Side::Ask => {
                let j2 = choose|j2: int| 0 <= j2 < oa.len() && oa[j2] == now.side_view(side)[j];
                assert(ob[i].price < oa[j2].price);
            },
        }
    }
}

/// The matching engine of one market. It owns the book, which is sound
/// whenever the engine is at rest.
pub struct MatchingEngine {
    orderbook: OrderBook,
}

impl MatchingEngine {
    /// What every engine satisfies between operations.
    #[verifier::type_invariant]
    spec fn inv(&self) -> bool {
        sound(self.orderbook)
    }

    /// The book as it stands.
    pub closed spec fn book(&self) -> OrderBook {
        self.orderbook
    }

    /// The book is well formed and not crossed.
    pub open spec fn wf(&self) -> bool {
        sound(self.book())
    }

    /// In a sound book the best bid is below the best ask, whenever both
    /// exist.
    pub proof fn lemma_not_crossed(&self)
        requires
            self.wf(),
        ensures
            self.book().bids_view().len() > 0 && self.book().asks_view().len() > 0
                ==> self.book().bids_view()[0].price < self.book().asks_view()[0].price,
    {
    }

    /// Creates an engine over an empty book.
    pub fn new() -> (engine: Self)
        ensures
            engine.wf(),
            engine.book().bids_view() == Seq::<OrderView>::empty(),
            engine.book().asks_view() == Seq::<OrderView>::empty(),
    {
        Self { orderbook: OrderBook::new() }
    }

    /// Hands out the book for reading.
    pub fn orderbook(&self) -> (book: &OrderBook)
        ensures
            *book == self.book(),
            sound(*book),
    {
        proof {
            use_type_invariant(self);
        }
        &self.orderbook
    }

    /// Processes an incoming order: matches what can be matched against the
    /// opposite side, each trade at the resting order's price, and queues
    /// what is left on the order's own side. Hands out the trades in the
    /// order in which they were made.
    pub fn process_order(&mut self, order: Order) -> (trades: Vec<Trade>)
        ensures
            old(self).wf(),
            final(self).wf(),
            ({
                let res = match_against(
                    order@,
                    old(self).book().side_view(order.side.spec_opposite()),
                    order.quantity.0,
                );
                &&& trade_views(trades@) == res.trades
                &&& final(self).book().side_view(order.side.spec_opposite()) == res.resting
                &&& final(self).book().side_view(order.side) == if res.left > 0 {
                    placed(old(self).book().side_view(order.side), order@.with_quantity(res.left))
                } else {
                    old(self).book().side_view(order.side)
                }
            }),
    {
        proof {
            use_type_invariant(&*self);
        }
        let mut book = OrderBook::new();
        std::mem::swap(&mut book, &mut self.orderbook);
        let (trades, left) = find_matches(&mut book, &order);
        if left > 0 {
            let ghost same = book.side_view(order.side);
            let ghost other = book.side_view(order.side.spec_opposite());
            let mut rest = order;
            rest.quantity = Quantity(left);
            let ghost o = rest@;
            book.insert_order(rest);
            proof {
                let k = slot(same, o.side, o.price);
                let now = book.side_view(o.side);
                assert(now == same.insert(k, o));
                assert forall|i: int| 0 <= i < now.len() implies (#[trigger] now[i]).price == o.price || exists|
                    i2: int,
                | 0 <= i2 < same.len() && same[i2] == now[i] by {
                    if i < k {
                        assert(now[i] == same[i]);
                    } else if i > k {
                        assert(now[i] == same[i - 1]);
                    }
                }
                match o.side {
                    Side::Bid => {
                        assert forall|i: int, j: int| 0 <= i < now.len() && 0 <= j < other.len() implies (
                        #[trigger] now[i]).price < (#[trigger] other[j]).price by {
                            assert(!crosses(o.side, o.price, other[j].price));
                            if now[i].price != o.price {
                                let i2 = choose|i2: int| 0 <= i2 < same.len() && same[i2] == now[i];
                                assert(same[i2].price < other[j].price);
                            }
                        }
                    },
                    Side::Ask => {
                        assert forall|i: int, j: int| 0 <= i < other.len() && 0 <= j < now.len() implies (
                        #[trigger] other[i]).price < (#[trigger] now[j]).price by {
                            assert(!crosses(o.side, o.price, other[i].price));
                            if now[j].price != o.price {
                                let j2 = choose|j2: int| 0 <= j2 < same.len() && same[j2] == now[j];
                                assert(other[i].price < same[j2].price);
                            }
                        }
                    },
                }
            }
        }
        self.orderbook = book;
        trades
    }

    /// Cancels the first resting order on `side` that carries `order_id` at
    /// `price`, and hands it out. Without such an order nothing changes.
    pub fn cancel_order(&mut self, order_id: OrderId, side: Side, price: Price) -> (r: Option<Order>)
        ensures
            old(self).wf(),
            final(self).wf(),
            final(self).book().side_view(side.spec_opposite()) == old(self).book().side_view(
                side.spec_opposite(),
            ),
            match r {
                Some(o) => {
                    let i = locate(old(self).book().side_view(side), order_id.0, Some(price.0));
                    &&& is_first(old(self).book().side_view(side), order_id.0, Some(price.0), i)
                    &&& o@ == old(self).book().side_view(side)[i]
                    &&& final(self).book().side_view(side) == old(self).book().side_view(side).remove(i)
                },
                None => {
                    &&& !present(old(self).book().side_view(side), order_id.0, Some(price.0))
                    &&& *final(self) == *old(self)
                },
            },
    {
        proof {
            use_type_invariant(&*self);
        }
        let mut book = OrderBook::new();
        std::mem::swap(&mut book, &mut self.orderbook);
        let ghost before = book;
        let r = book.remove_order(order_id, side, price);
        proof {
            if r is Some {
                let i = locate(before.side_view(side), order_id.0, Some(price.0));
                let now = book.side_view(side);
                assert forall|j: int| 0 <= j < now.len() implies exists|j2: int|
                    0 <= j2 < before.side_view(side).len() && before.side_view(side)[j2] == #[trigger] now[j] by {
                    if j < i {
                        assert(before.side_view(side)[j] == now[j]);
                    } else {
                        assert(before.side_view(side)[j + 1] == now[j]);
                    }
                }
                lemma_subset_uncrossed(book, before, side);
            }
        }
        self.orderbook = book;
        r
    }
}

} // verus!
