//! The two-sided book of resting orders.
//!
//! Each side is kept in matching priority: better prices first and, among
//! orders at one price, earlier arrivals first. A price level is a maximal
//! run of orders at one price.

use vstd::prelude::*;
use crate::order::{views, Order, OrderId, OrderView, Price, Quantity, Side};

verus! {

/// Whether price `a` is strictly better than price `b` for an order resting
/// on `side`: higher for bids, lower for asks.
pub open spec fn better(side: Side, a: u64, b: u64) -> bool {
    match side {
        Side::Bid => a > b,
        Side::Ask => a < b,
    }
}

/// One side of a book is well formed when every order is of that side and has
/// quantity left, and no order stands before one with a better price.
pub open spec fn side_wf(s: Seq<OrderView>, side: Side) -> bool {
    &&& forall|i: int| 0 <= i < s.len() ==> (#[trigger] s[i]).side == side && s[i].quantity > 0
    &&& forall|i: int, j: int|
        0 <= i < j < s.len() ==> !better(side, #[trigger] s[j].price, #[trigger] s[i].price)
}

/// Whether an order carries `id` and, where a price is given, that price.
pub open spec fn selects(o: OrderView, id: u64, price: Option<u64>) -> bool {
    o.id == id && (price is Some ==> o.price == price->0)
}

/// Whether some order of `s` is selected by `id` and `price`.
pub open spec fn present(s: Seq<OrderView>, id: u64, price: Option<u64>) -> bool {
    exists|i: int| 0 <= i < s.len() && selects(#[trigger] s[i], id, price)
}

/// Whether `i` is the place of the first order of `s` selected by `id` and `price`.
pub open spec fn is_first(s: Seq<OrderView>, id: u64, price: Option<u64>, i: int) -> bool {
    &&& 0 <= i < s.len()
    &&& selects(s[i], id, price)
    &&& forall|j: int| 0 <= j < i ==> !selects(#[trigger] s[j], id, price)
}

/// The place of the first order selected by `id` and `price`, where there is one.
pub open spec fn locate(s: Seq<OrderView>, id: u64, price: Option<u64>) -> int {
    choose|i: int| is_first(s, id, price, i)
}

/// Whether a new order at `price` goes to place `k`: behind every order that
/// is at least as good, before every order that is worse.
pub open spec fn is_slot(s: Seq<OrderView>, side: Side, price: u64, k: int) -> bool {
    &&& 0 <= k <= s.len()
    &&& forall|j: int| 0 <= j < k ==> !better(side, price, #[trigger] s[j].price)
    &&& forall|j: int| k <= j < s.len() ==> better(side, price, #[trigger] s[j].price)
}

/// The place at which a new order at `price` is queued.
pub open spec fn slot(s: Seq<OrderView>, side: Side, price: u64) -> int {
    choose|k: int| is_slot(s, side, price, k)
}

/// The side `s` after `o` has been queued on it.
pub open spec fn placed(s: Seq<OrderView>, o: OrderView) -> Seq<OrderView> {
    s.insert(slot(s, o.side, o.price), o)
}

/// The first selected order has one place only.
pub proof fn lemma_first_unique(s: Seq<OrderView>, id: u64, price: Option<u64>, i: int)
    requires
        is_first(s, id, price, i),
    ensures
        locate(s, id, price) == i,
        present(s, id, price),
{
    let c = locate(s, id, price);
    assert(is_first(s, id, price, c));
    if c < i {
        assert(!selects(s[c], id, price));
    }
    if i < c {
        assert(!selects(s[i], id, price));
    }
}

/// A new order has one slot only.
pub proof fn lemma_slot_unique(s: Seq<OrderView>, side: Side, price: u64, k: int)
    requires
        is_slot(s, side, price, k),
    ensures
        slot(s, side, price) == k,
{
    let c = slot(s, side, price);
    assert(is_slot(s, side, price, c));
    if c < k {
        assert(!better(side, price, s[c].price));
    }
    if k < c {
        assert(!better(side, price, s[k].price));
    }
}

/// On a well-formed side every price has a slot.
pub proof fn lemma_slot_exists(s: Seq<OrderView>, side: Side, price: u64)
    requires
        side_wf(s, side),
    ensures
        is_slot(s, side, price, slot(s, side, price)),
{
    lemma_slot_from(s, side, price, 0);
}

/// A slot is found at or behind place `n`, where every order before `n` is at
/// least as good as `price`.
proof fn lemma_slot_from(s: Seq<OrderView>, side: Side, price: u64, n: int)
    requires
        side_wf(s, side),
        0 <= n <= s.len(),
        forall|j: int| 0 <= j < n ==> !better(side, price, #[trigger] s[j].price),
    ensures
        is_slot(s, side, price, slot(s, side, price)),
    decreases s.len() - n,
{
    if n < s.len() && !better(side, price, s[n].price) {
        lemma_slot_from(s, side, price, n + 1);
    } else {
        assert forall|j: int| n <= j < s.len() implies better(side, price, #[trigger] s[j].price) by {
            if j > n {
                assert(!better(side, s[j].price, s[n].price));
            }
        }
        lemma_slot_unique(s, side, price, n);
    }
}

/// Queuing an order on a well-formed side of its own kind keeps the side well
/// formed.
pub proof fn lemma_placed_wf(s: Seq<OrderView>, o: OrderView, k: int)
    requires
        side_wf(s, o.side),
        o.quantity > 0,
        is_slot(s, o.side, o.price, k),
    ensures
        side_wf(s.insert(k, o), o.side),
        placed(s, o) == s.insert(k, o),
        slot(s, o.side, o.price) == k,
{
    lemma_slot_unique(s, o.side, o.price, k);
    let t = s.insert(k, o);
    assert forall|i: int, j: int| 0 <= i < j < t.len() implies !better(
        o.side,
        #[trigger] t[j].price,
        #[trigger] t[i].price,
    ) by {
        if i < k && j > k {
            assert(t[i] == s[i]);
            assert(t[j] == s[j - 1]);
        } else if i < k && j == k {
            assert(t[i] == s[i]);
        } else if i == k {
            assert(t[j] == s[j - 1]);
        } else if j < k {
            assert(t[i] == s[i] && t[j] == s[j]);
        } else {
            assert(t[i] == s[i - 1] && t[j] == s[j - 1]);
        }
    }
    assert forall|i: int| 0 <= i < t.len() implies (#[trigger] t[i]).side == o.side && t[i].quantity > 0 by {
        if i < k {
            assert(t[i] == s[i]);
        } else if i > k {
            assert(t[i] == s[i - 1]);
        }
    }
}

/// Time priority: a new order queues behind every resting order at its own
/// price, and the resting orders before it stay where they were.
pub proof fn lemma_queues_behind(s: Seq<OrderView>, o: OrderView, i: int)
    requires
        side_wf(s, o.side),
        0 <= i < s.len(),
        s[i].price == o.price,
    ensures
        i < slot(s, o.side, o.price),
        placed(s, o)[i] == s[i],
        placed(s, o)[slot(s, o.side, o.price)] == o,
{
    lemma_slot_exists(s, o.side, o.price);
    let k = slot(s, o.side, o.price);
    if k <= i {
        assert(better(o.side, o.price, s[i].price));
    }
}

/// The price levels of a side: its orders cut into maximal runs of one price,
/// each run with its price, in the order of the side.
pub open spec fn levels(s: Seq<OrderView>) -> Seq<(u64, Seq<OrderView>)>
    decreases s.len(),
{
    if s.len() == 0 {
        Seq::empty()
    } else {
        let before = levels(s.drop_last());
        let o = s.last();
        if before.len() > 0 && before.last().0 == o.price {
            before.update(before.len() - 1, (o.price, before.last().1.push(o)))
        } else {
            before.push((o.price, seq![o]))
        }
    }
}

/// The views of a list of price levels, in the same order.
pub open spec fn level_views(v: Seq<(Price, Vec<Order>)>) -> Seq<(u64, Seq<OrderView>)> {
    Seq::new(v.len(), |i: int| (v[i].0.0, views(v[i].1@)))
}

/// Every level holds an order, all its orders are at its price, and no two
/// neighbouring levels share a price.
pub proof fn lemma_levels(s: Seq<OrderView>)
    ensures
        forall|i: int|
            0 <= i < levels(s).len() ==> {
                let level = #[trigger] levels(s)[i];
                &&& level.1.len() > 0
                &&& forall|k: int| 0 <= k < level.1.len() ==> (#[trigger] level.1[k]).price == level.0
            },
        forall|i: int| 0 < i < levels(s).len() ==> levels(s)[i - 1].0 != (#[trigger] levels(s)[i]).0,
        s.len() > 0 ==> levels(s).len() > 0 && levels(s).last().0 == s.last().price,
    decreases s.len(),
{
    if s.len() > 0 {
        lemma_levels(s.drop_last());
    }
}

/// Cuts a side into its price levels.
fn group(orders: &Vec<Order>) -> (out: Vec<(Price, Vec<Order>)>)
    ensures
        level_views(out@) == levels(views(orders@)),
{
    let ghost s = views(orders@);
    let mut out: Vec<(Price, Vec<Order>)> = Vec::new();
    let mut i: usize = 0;
    assert(s.take(0) =~= Seq::<OrderView>::empty());
    assert(level_views(out@) =~= levels(s.take(0)));
    while i < orders.len()
        invariant
            i <= orders.len(),
            s == views(orders@),
            level_views(out@) == levels(s.take(i as int)),
        decreases orders.len() - i,
    {
        let ghost before = level_views(out@);
        let o = orders[i].clone();
        proof {
            assert(s.take(i + 1).drop_last() =~= s.take(i as int));
            assert(s.take(i + 1).last() == o@);
        }
        let n = out.len();
        if n > 0 && out[n - 1].0.0 == o.price.0 {
            out[n - 1].1.push(o);
            assert(level_views(out@) =~~= before.update(n - 1, (o@.price, before.last().1.push(o@))));
        } else {
            let price = o.price;
            let mut queue: Vec<Order> = Vec::new();
            queue.push(o);
            out.push((price, queue));
            assert(level_views(out@) =~~= before.push((o@.price, seq![o@])));
        }
        i += 1;
    }
    assert(s.take(orders.len() as int) =~= s);
    out
}

/// A double-sided book of resting orders.
#[derive(Debug, Default)]
pub struct OrderBook {
    bids: Vec<Order>,
    asks: Vec<Order>,
}

/// The place of the first order of `orders` selected by `id` and `price`.
fn position(orders: &Vec<Order>, id: OrderId, price: Option<Price>) -> (r: Option<usize>)
    ensures
        match r {
            Some(i) => is_first(views(orders@), id.0, price_value(price), i as int),
            None => !present(views(orders@), id.0, price_value(price)),
        },
{
    let mut i: usize = 0;
    while i < orders.len()
        invariant
            i <= orders.len(),
            forall|j: int| 0 <= j < i ==> !selects(#[trigger] views(orders@)[j], id.0, price_value(price)),
        decreases orders.len() - i,
    {
        let hit = orders[i].id.0 == id.0 && match price {
            Some(p) => orders[i].price.0 == p.0,
            None => true,
        };
        if hit {
            return Some(i);
        }
        i += 1;
    }
    None
}

/// The number inside an optional price.
pub open spec fn price_value(price: Option<Price>) -> Option<u64> {
    match price {
        Some(p) => Some(p.0),
        None => None,
    }
}

/// Whether a resting order at `resting` is at least as good as a new order
/// at `price`, so that the new order queues behind it.
fn stays_ahead(side: Side, resting: u64, price: u64) -> (r: bool)
    ensures
        r == !better(side, price, resting),
{
    match side {
        Side::Bid => resting >= price,
        Side::Ask => resting <= price,
    }
}

/// Queues `order` on the side `orders`, which is of the order's own kind.
fn enqueue(orders: &mut Vec<Order>, order: Order)
    requires
        side_wf(views(old(orders)@), order.side),
        order@.quantity > 0,
    ensures
        side_wf(views(final(orders)@), order.side),
        is_slot(
            views(old(orders)@),
            order.side,
            order.price.0,
            slot(views(old(orders)@), order.side, order.price.0),
        ),
        views(final(orders)@) == placed(views(old(orders)@), order@),
{
    let side = order.side;
    let price = order.price.0;
    let ghost s = views(orders@);
    let ghost o = order@;
    let mut k: usize = 0;
    while k < orders.len() && stays_ahead(side, orders[k].price.0, price)
        invariant
            k <= orders.len(),
            s == views(orders@),
            side_wf(s, side),
            forall|j: int| 0 <= j < k ==> !better(side, price, #[trigger] s[j].price),
        decreases orders.len() - k,
    {
        k += 1;
    }
    proof {
        assert forall|j: int| k <= j < s.len() implies better(side, price, #[trigger] s[j].price) by {
            if j > k {
                assert(!better(side, s[j].price, s[k as int].price));
            }
        }
        lemma_placed_wf(s, o, k as int);
        assert(is_slot(s, side, price, slot(s, side, price)));
    }
    orders.insert(k, order);
    assert(views(orders@) =~= s.insert(k as int, o));
}

/// Takes the first order that carries `id` at `price` out of the side
/// `orders`.
fn take_out(orders: &mut Vec<Order>, id: OrderId, price: Price, Ghost(side): Ghost<Side>) -> (r: Option<
    Order,
>)
    requires
        side_wf(views(old(orders)@), side),
    ensures
        side_wf(views(final(orders)@), side),
        match r {
            Some(o) => {
                let i = locate(views(old(orders)@), id.0, Some(price.0));
                &&& is_first(views(old(orders)@), id.0, Some(price.0), i)
                &&& o@ == views(old(orders)@)[i]
                &&& views(final(orders)@) == views(old(orders)@).remove(i)
            },
            None => {
                &&& !present(views(old(orders)@), id.0, Some(price.0))
                &&& *final(orders) == *old(orders)
            },
        },
{
    let ghost s = views(orders@);
    match position(orders, id, Some(price)) {
        None => None,
        Some(i) => {
            proof {
                lemma_first_unique(s, id.0, Some(price.0), i as int);
            }
            let order = orders.remove(i);
            assert(views(orders@) =~= s.remove(i as int));
            Some(order)
        },
    }
}

/// Rewrites the quantity of the first order of the side `orders` that
/// carries `id`.
fn rewrite(orders: &mut Vec<Order>, id: OrderId, new_qty: Quantity, Ghost(side): Ghost<Side>)
    requires
        side_wf(views(old(orders)@), side),
        new_qty.0 > 0,
    ensures
        side_wf(views(final(orders)@), side),
        present(views(old(orders)@), id.0, None) ==> {
            let i = locate(views(old(orders)@), id.0, None);
            &&& is_first(views(old(orders)@), id.0, None, i)
            &&& views(final(orders)@) == views(old(orders)@).update(
                i,
                views(old(orders)@)[i].with_quantity(new_qty.0),
            )
        },
        !present(views(old(orders)@), id.0, None) ==> *final(orders) == *old(orders),
{
    let ghost s = views(orders@);
    match position(orders, id, None) {
        None => {},
        Some(i) => {
            proof {
                lemma_first_unique(s, id.0, None, i as int);
            }
            orders[i].quantity = new_qty;
            assert(views(orders@) =~= s.update(i as int, s[i as int].with_quantity(new_qty.0)));
        },
    }
}

impl OrderBook {
    /// What every book satisfies.
    #[verifier::type_invariant]
    spec fn inv(&self) -> bool {
        side_wf(views(self.bids@), Side::Bid) && side_wf(views(self.asks@), Side::Ask)
    }

    /// The resting bids, best (highest) price first.
    pub closed spec fn bids_view(&self) -> Seq<OrderView> {
        views(self.bids@)
    }

    /// The resting asks, best (lowest) price first.
    pub closed spec fn asks_view(&self) -> Seq<OrderView> {
        views(self.asks@)
    }

    /// The resting orders of one side, in matching priority.
    pub open spec fn side_view(&self, side: Side) -> Seq<OrderView> {
        match side {
            Side::Bid => self.bids_view(),
            Side::Ask => self.asks_view(),
        }
    }

    /// Both sides are well formed.
    pub open spec fn wf(&self) -> bool {
        side_wf(self.bids_view(), Side::Bid) && side_wf(self.asks_view(), Side::Ask)
    }

    /// Creates an empty book.
    pub fn new() -> (book: Self)
        ensures
            book.bids_view() == Seq::<OrderView>::empty(),
            book.asks_view() == Seq::<OrderView>::empty(),
            book.wf(),
    {
        let book = Self { bids: Vec::new(), asks: Vec::new() };
        assert(book.bids_view() =~= Seq::<OrderView>::empty());
        assert(book.asks_view() =~= Seq::<OrderView>::empty());
        book
    }

    /// Queues an order on its side: behind every resting order whose price is
    /// at least as good, before every one whose price is worse.
    pub fn insert_order(&mut self, order: Order)
        requires
            order@.quantity > 0,
        ensures
            old(self).wf(),
            final(self).wf(),
            is_slot(
                old(self).side_view(order.side),
                order.side,
                order.price.0,
                slot(old(self).side_view(order.side), order.side, order.price.0),
            ),
            final(self).side_view(order.side) == placed(old(self).side_view(order.side), order@),
            final(self).side_view(order.side.spec_opposite()) == old(self).side_view(
                order.side.spec_opposite(),
            ),
    {
        proof {
            use_type_invariant(&*self);
        }
        let mut orders: Vec<Order> = Vec::new();
        match order.side {
            Side::Bid => {
                std::mem::swap(&mut orders, &mut self.bids);
                enqueue(&mut orders, order);
                self.bids = orders;
            },
            Side::Ask => {
                std::mem::swap(&mut orders, &mut self.asks);
                enqueue(&mut orders, order);
                self.asks = orders;
            },
        }
    }

    /// Removes the first order on `side` that carries `order_id` at `price`,
    /// and hands it out. The orders that stay keep their places relative to
    /// each other. Without such an order the book is left as it is.
    pub fn remove_order(&mut self, order_id: OrderId, side: Side, price: Price) -> (r: Option<Order>)
        ensures
            old(self).wf(),
            final(self).wf(),
            final(self).side_view(side.spec_opposite()) == old(self).side_view(side.spec_opposite()),
            match r {
                Some(o) => {
                    let i = locate(old(self).side_view(side), order_id.0, Some(price.0));
                    &&& is_first(old(self).side_view(side), order_id.0, Some(price.0), i)
                    &&& o@ == old(self).side_view(side)[i]
                    &&& final(self).side_view(side) == old(self).side_view(side).remove(i)
                },
                None => {
                    &&& !present(old(self).side_view(side), order_id.0, Some(price.0))
                    &&& *final(self) == *old(self)
                },
            },
    {
        proof {
            use_type_invariant(&*self);
        }
        let mut orders: Vec<Order> = Vec::new();
        match side {
            Side::Bid => {
                std::mem::swap(&mut orders, &mut self.bids);
                let r = take_out(&mut orders, order_id, price, Ghost(side));
                self.bids = orders;
                r
            },
            Side::Ask => {
                std::mem::swap(&mut orders, &mut self.asks);
                let r = take_out(&mut orders, order_id, price, Ghost(side));
                self.asks = orders;
                r
            },
        }
    }

    /// Rewrites the remaining quantity of the first order on `side` that
    /// carries `order_id`. Without such an order the book is left as it is.
    pub fn update_order_quantity(&mut self, order_id: OrderId, side: Side, new_qty: Quantity)
        requires
            new_qty.0 > 0,
        ensures
            old(self).wf(),
            final(self).wf(),
            final(self).side_view(side.spec_opposite()) == old(self).side_view(side.spec_opposite()),
            present(old(self).side_view(side), order_id.0, None) ==> {
                let i = locate(old(self).side_view(side), order_id.0, None);
                &&& is_first(old(self).side_view(side), order_id.0, None, i)
                &&& final(self).side_view(side) == old(self).side_view(side).update(
                    i,
                    old(self).side_view(side)[i].with_quantity(new_qty.0),
                )
            },
            !present(old(self).side_view(side), order_id.0, None) ==> *final(self) == *old(self),
    {
        proof {
            use_type_invariant(&*self);
        }
        let mut orders: Vec<Order> = Vec::new();
        match side {
            Side::Bid => {
                std::mem::swap(&mut orders, &mut self.bids);
                rewrite(&mut orders, order_id, new_qty, Ghost(side));
                self.bids = orders;
            },
            Side::Ask => {
                std::mem::swap(&mut orders, &mut self.asks);
                rewrite(&mut orders, order_id, new_qty, Ghost(side));
                self.asks = orders;
            },
        }
    }

    /// The price levels of the bids, highest price first, each with its
    /// orders in order of arrival.
    pub fn get_bids(&self) -> (out: Vec<(Price, Vec<Order>)>)
        ensures
            level_views(out@) == levels(self.bids_view()),
    {
        group(&self.bids)
    }

    /// The price levels of the asks, lowest price first, each with its
    /// orders in order of arrival.
    pub fn get_asks(&self) -> (out: Vec<(Price, Vec<Order>)>)
        ensures
            level_views(out@) == levels(self.asks_view()),
    {
        group(&self.asks)
    }

    /// The order that an incoming order of the other side meets first.
    pub fn front(&self, side: Side) -> (r: Option<&Order>)
        ensures
            match r {
                Some(o) => self.side_view(side).len() > 0 && o@ == self.side_view(side)[0],
                None => self.side_view(side).len() == 0,
            },
    {
        match side {
            Side::Bid => if self.bids.len() > 0 { Some(&self.bids[0]) } else { None },
            Side::Ask => if self.asks.len() > 0 { Some(&self.asks[0]) } else { None },
        }
    }

    /// The best bid price: the highest price at which a bid rests.
    pub fn get_best_bid(&self) -> (r: Option<u64>)
        ensures
            self.wf(),
            match r {
                Some(p) => {
                    &&& self.bids_view().len() > 0
                    &&& p == self.bids_view()[0].price
                    &&& forall|j: int|
                        0 <= j < self.bids_view().len() ==> (#[trigger] self.bids_view()[j]).price <= p
                },
                None => self.bids_view().len() == 0,
            },
    {
        proof {
            use_type_invariant(self);
        }
        if self.bids.len() > 0 {
            proof {
                let s = self.bids_view();
                assert forall|j: int| 0 <= j < s.len() implies (#[trigger] s[j]).price <= s[0].price by {
                    if j > 0 {
                        assert(!better(Side::Bid, s[j].price, s[0].price));
                    }
                }
            }
            Some(self.bids[0].price.0)
        } else {
            None
        }
    }

    /// The best ask price: the lowest price at which an ask rests.
    pub fn get_best_ask(&self) -> (r: Option<u64>)
        ensures
            self.wf(),
            match r {
                Some(p) => {
                    &&& self.asks_view().len() > 0
                    &&& p == self.asks_view()[0].price
                    &&& forall|j: int|
                        0 <= j < self.asks_view().len() ==> (#[trigger] self.asks_view()[j]).price >= p
                },
                None => self.asks_view().len() == 0,
            },
    {
        proof {
            use_type_invariant(self);
        }
        if self.asks.len() > 0 {
            proof {
                let s = self.asks_view();
                assert forall|j: int| 0 <= j < s.len() implies (#[trigger] s[j]).price >= s[0].price by {
                    if j > 0 {
                        assert(!better(Side::Ask, s[j].price, s[0].price));
                    }
                }
            }
            Some(self.asks[0].price.0)
        } else {
            None
        }
    }
}

} // verus!
