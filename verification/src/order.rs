//! Orders and the scalar values they are made of.

use vstd::prelude::*;
use vstd::std_specs::convert::FromSpecImpl;

verus! {

/// The side of an order: a bid buys the base asset, an ask sells it.
#[derive(Debug, Default, PartialEq, Eq, Clone, Copy, Structural)]
pub enum Side {
    #[default]
    Bid,
    Ask,
}

impl Side {
    /// The side an order of this side trades against.
    pub open spec fn spec_opposite(self) -> Side {
        match self {
            Side::Bid => Side::Ask,
            Side::Ask => Side::Bid,
        }
    }

    #[verifier::when_used_as_spec(spec_opposite)]
    pub fn opposite(self) -> (s: Side)
        ensures
            s == self.spec_opposite(),
    {
        match self {
            Side::Bid => Side::Ask,
            Side::Ask => Side::Bid,
        }
    }
}

#[derive(Debug, Default, Copy, Clone, PartialEq, Eq, PartialOrd, Ord, Structural)]
pub struct OrderId(pub u64);

#[derive(Debug, Default, Copy, Clone, PartialEq, Eq, PartialOrd, Ord, Structural)]
pub struct Price(pub u64);

/// A price stored as `u64::MAX - price`, so that ascending keys mean
/// descending prices.
#[derive(Debug, Default, Copy, Clone, PartialEq, Eq, PartialOrd, Ord, Structural)]
pub struct NegatedPrice(pub u64);

#[derive(Debug, Default, Copy, Clone, PartialEq, Eq, PartialOrd, Ord, Structural)]
pub struct Quantity(pub u64);

#[derive(Debug, Default, Copy, Clone, PartialEq, Eq, PartialOrd, Ord, Structural)]
pub struct Timestamp(pub u64);

impl OrderId {
    pub fn new(id: u64) -> (r: Self)
        ensures
            r.0 == id,
    {
        OrderId(id)
    }

    pub fn get(&self) -> (v: u64)
        ensures
            v == self.0,
    {
        self.0
    }
}

impl Price {
    pub fn new(price: u64) -> (r: Self)
        ensures
            r.0 == price,
    {
        Price(price)
    }

    pub fn get(&self) -> (v: u64)
        ensures
            v == self.0,
    {
        self.0
    }
}

impl Quantity {
    pub fn new(quantity: u64) -> (r: Self)
        ensures
            r.0 == quantity,
    {
        Quantity(quantity)
    }

    pub fn get(&self) -> (v: u64)
        ensures
            v == self.0,
    {
        self.0
    }
}

impl Timestamp {
    pub fn new(timestamp: u64) -> (r: Self)
        ensures
            r.0 == timestamp,
    {
        Timestamp(timestamp)
    }

    pub fn get(&self) -> (v: u64)
        ensures
            v == self.0,
    {
        self.0
    }
}

impl NegatedPrice {
    pub open spec fn spec_from_price(price: Price) -> NegatedPrice {
        NegatedPrice((u64::MAX - price.0) as u64)
    }

    /// The key under which `price` is stored.
    #[verifier::when_used_as_spec(spec_from_price)]
    pub fn from_price(price: Price) -> (r: Self)
        ensures
            r == Self::spec_from_price(price),
            r.0 == u64::MAX - price.0,
    {
        NegatedPrice(u64::MAX - price.0)
    }

    pub open spec fn spec_to_price(&self) -> Price {
        Price((u64::MAX - self.0) as u64)
    }

    /// The price that this key stands for.
    #[verifier::when_used_as_spec(spec_to_price)]
    pub fn to_price(&self) -> (p: Price)
        ensures
            p == self.spec_to_price(),
            p.0 == u64::MAX - self.0,
    {
        Price(u64::MAX - self.0)
    }

    pub fn get(&self) -> (v: u64)
        ensures
            v == self.0,
    {
        self.0
    }
}

impl From<Price> for NegatedPrice {
    fn from(price: Price) -> (r: Self) {
        NegatedPrice(u64::MAX - price.0)
    }
}

impl FromSpecImpl<Price> for NegatedPrice {
    open spec fn obeys_from_spec() -> bool {
        true
    }

    open spec fn from_spec(price: Price) -> Self {
        NegatedPrice((u64::MAX - price.0) as u64)
    }
}

impl From<NegatedPrice> for Price {
    fn from(price: NegatedPrice) -> (r: Self) {
        Price(u64::MAX - price.0)
    }
}

impl FromSpecImpl<NegatedPrice> for Price {
    open spec fn obeys_from_spec() -> bool {
        true
    }

    open spec fn from_spec(price: NegatedPrice) -> Self {
        Price((u64::MAX - price.0) as u64)
    }
}

/// Negating a price twice gives the price back, and a higher price has the
/// lower key.
pub proof fn lemma_negation(a: Price, b: Price)
    ensures
        NegatedPrice::spec_from_price(a).spec_to_price() == a,
        (a.0 > b.0) == (NegatedPrice::spec_from_price(a).0 < NegatedPrice::spec_from_price(b).0),
{
}

/// The name of an account.
#[derive(Debug, Default, PartialEq, Eq, Hash)]
pub struct AccountId(pub String);

impl View for AccountId {
    type V = Seq<char>;

    /// An account id is its name.
    open spec fn view(&self) -> Seq<char> {
        self.0@
    }
}

impl Clone for AccountId {
    fn clone(&self) -> (r: Self)
        ensures
            r == *self,
    {
        AccountId(self.0.clone())
    }
}

impl AccountId {
    pub fn new(name: String) -> (r: Self)
        ensures
            r@ == name@,
            r.0 == name,
    {
        AccountId(name)
    }

    /// Whether two ids name the same account.
    pub fn same(&self, other: &AccountId) -> (b: bool)
        ensures
            b == (self@ == other@),
    {
        self.0 == other.0
    }
}

/// A limit order. `quantity` is what remains to be filled.
#[derive(Debug, Default)]
pub struct Order {
    pub id: OrderId,
    pub price: Price,
    pub quantity: Quantity,
    pub side: Side,
    pub account_id: AccountId,
    pub timestamp: Timestamp,
}

/// What an order is: its fields as plain values.
pub struct OrderView {
    pub id: u64,
    pub price: u64,
    pub quantity: u64,
    pub side: Side,
    pub account: Seq<char>,
    pub timestamp: u64,
}

impl OrderView {
    /// The same order with another remaining quantity.
    pub open spec fn with_quantity(self, quantity: u64) -> OrderView {
        OrderView { quantity, ..self }
    }
}

impl View for Order {
    type V = OrderView;

    open spec fn view(&self) -> OrderView {
        OrderView {
            id: self.id.0,
            price: self.price.0,
            quantity: self.quantity.0,
            side: self.side,
            account: self.account_id@,
            timestamp: self.timestamp.0,
        }
    }
}

impl Clone for Order {
    fn clone(&self) -> (r: Self)
        ensures
            r == *self,
    {
        Order {
            id: self.id,
            price: self.price,
            quantity: self.quantity,
            side: self.side,
            account_id: self.account_id.clone(),
            timestamp: self.timestamp,
        }
    }
}

impl Order {
    pub fn new(
        id: OrderId,
        price: Price,
        quantity: Quantity,
        side: Side,
        account_id: AccountId,
        timestamp: Timestamp,
    ) -> (order: Self)
        ensures
            order.id == id,
            order.price == price,
            order.quantity == quantity,
            order.side == side,
            order.account_id == account_id,
            order.timestamp == timestamp,
    {
        Self { id, price, quantity, side, account_id, timestamp }
    }
}

/// The views of a sequence of orders, in the same order.
pub open spec fn views(orders: Seq<Order>) -> Seq<OrderView> {
    Seq::new(orders.len(), |i: int| orders[i]@)
}

} // verus!
