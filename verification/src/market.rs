//! A market: one pair, one book, one matching engine.

use vstd::prelude::*;
use crate::asset::Asset;
use crate::matching::{match_against, trade_views, MatchingEngine, Trade};
use crate::order::{Order, OrderId, OrderView, Price, Side};
use crate::orderbook::{is_first, locate, placed, present};

verus! {

/// A tradable pair: prices of `base` are given in `numeraire`.
#[derive(Debug, Clone, Copy, PartialEq, Eq, Hash)]
pub struct Pair {
    pub numeraire: Asset,
    pub base: Asset,
}

impl View for Pair {
    type V = (Seq<char>, Seq<char>);

    /// A pair is the symbols of its numeraire and its base, in that order.
    open spec fn view(&self) -> (Seq<char>, Seq<char>) {
        (self.numeraire@, self.base@)
    }
}

impl Pair {
    /// Whether two pairs name the same numeraire and the same base.
    pub fn same(&self, other: &Pair) -> (b: bool)
        ensures
            b == (self@ == other@),
    {
        self.numeraire.same(&other.numeraire) && self.base.same(&other.base)
    }
}

/// The market of one pair.
pub struct Market {
    pub pair: Pair,
    pub matching_engine: MatchingEngine,
}

impl Market {
    /// The market's book is sound: well formed and not crossed.
    pub open spec fn wf(&self) -> bool {
        self.matching_engine.wf()
    }

    /// The resting orders of one side, in matching priority.
    pub open spec fn side_view(&self, side: Side) -> Seq<OrderView> {
        self.matching_engine.book().side_view(side)
    }

    /// Creates the market of `pair`, with an empty book.
    pub fn new(pair: Pair) -> (market: Self)
        ensures
            market.pair == pair,
            market.wf(),
            market.side_view(Side::Bid) == Seq::<OrderView>::empty(),
            market.side_view(Side::Ask) == Seq::<OrderView>::empty(),
    {
        Market { pair, matching_engine: MatchingEngine::new() }
    }

    /// Processes an order on this market's book, returning the trades.
    pub fn process_order(&mut self, order: Order) -> (trades: Vec<Trade>)
        ensures
            old(self).wf(),
            final(self).wf(),
            final(self).pair == old(self).pair,
            ({
                let res = match_against(
                    order@,
                    old(self).side_view(order.side.spec_opposite()),
                    order.quantity.0,
                );
                &&& trade_views(trades@) == res.trades
                &&& final(self).side_view(order.side.spec_opposite()) == res.resting
                &&& final(self).side_view(order.side) == if res.left > 0 {
                    placed(old(self).side_view(order.side), order@.with_quantity(res.left))
                } else {
                    old(self).side_view(order.side)
                }
            }),
    {
        self.matching_engine.process_order(order)
    }

    /// Cancels the first resting order on `side` that carries `order_id` at
    /// `price`, and hands it out. Without such an order nothing changes.
    pub fn cancel_order(&mut self, order_id: OrderId, side: Side, price: Price) -> (r: Option<Order>)
        ensures
            old(self).wf(),
            final(self).wf(),
            final(self).pair == old(self).pair,
            final(self).side_view(side.spec_opposite()) == old(self).side_view(side.spec_opposite()),
            match r {
                Some(o) => {
                    let i = locate(old(self).side_view(side), order_id.0, Some(price.0));
                    &&& is_first(old(self).side_view(side), order_id.0, Some(price.0), i)
                    &&& o@ == old(self).side_view(side)[i]
                    &&& final(self).side_view(side) == old(self).side_view(side).remove(i)
                },
                None => {
                    &&& !present(old(self).side_view(side), order_id.0, Some(price.0))
                    &&& *final(self) == *old(self)
                },
            },
    {
        self.matching_engine.cancel_order(order_id, side, price)
    }
}

} // verus!
