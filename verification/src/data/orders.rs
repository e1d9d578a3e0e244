use vstd::prelude::*;
use crate::data::side::Side;
use crate::text::{decimal, pad_left, pad_right, spaces, decimal_of, push_all, push_padded, push_spaces, text_of};
use rand::Rng;
use rand::distributions::Distribution;

verus! {

/// How an order is to be executed.
#[derive(Debug, Clone, Copy, PartialEq, Eq, Structural)]
pub enum OrderType {
    /// Trade up to a limit price; the rest waits on the book.
    LimitOrder,
    /// Trade at whatever the book offers; the rest is dropped.
    MarketOrder,
}

/// An order as submitted by a client.
#[derive(Debug, Clone, Copy, PartialEq, Eq, Structural)]
pub struct Order {
    pub qty: u64,
    pub price: u64,
    pub prod: u32,
    pub side: Side,
    pub kind: OrderType,
}

/// An order resting in a queue of the book.
#[derive(Debug, Clone, Copy, PartialEq, Eq, Structural)]
pub struct BookOrder {
    pub id: u64,
    pub qty: u64,
    pub kind: OrderType,
}

/// The word for a side.
pub open spec fn side_text(s: Side) -> Seq<char> {
    match s {
        Side::Buy => seq!['b', 'u', 'y'],
        Side::Sell => seq!['s', 'e', 'l', 'l'],
    }
}

/// One line describing an order: its kind, side, product (width 2), price
/// (width 4, limit orders only) and quantity (left-aligned, width 8).
pub open spec fn order_text(o: Order) -> Seq<char> {
    match o.kind {
        OrderType::LimitOrder => seq!['l', 'i', 'm', 'i', 't', ' ', ':', ' '] + side_text(o.side) + seq![' ']
            + pad_left(decimal(o.prod as nat), 2) + seq![':', ' '] + pad_left(decimal(o.price as nat), 4)
            + seq!['$', ' ', '#'] + pad_right(decimal(o.qty as nat), 8),
        OrderType::MarketOrder => seq!['m', 'a', 'r', 'k', 'e', 't', ':', ' '] + side_text(o.side) + seq![' ']
            + pad_left(decimal(o.prod as nat), 2) + seq![':'] + spaces(7) + seq!['#']
            + pad_right(decimal(o.qty as nat), 8),
    }
}

impl Order {
    /// The order as one line of text (see [`order_text`]).
    pub fn to_string(&self) -> (s: String)
        ensures
            s@ == order_text(*self),
    {
        let mut out: Vec<char> = match self.kind {
            OrderType::LimitOrder => vec!['l', 'i', 'm', 'i', 't', ' ', ':', ' '],
            OrderType::MarketOrder => vec!['m', 'a', 'r', 'k', 'e', 't', ':', ' '],
        };
        let ghost head = out@;
        let word = match self.side {
            Side::Buy => vec!['b', 'u', 'y'],
            Side::Sell => vec!['s', 'e', 'l', 'l'],
        };
        push_all(&mut out, &word);
        out.push(' ');
        let prod = decimal_of(self.prod as u64);
        push_padded(&mut out, &prod, 2, true);
        out.push(':');
        let ghost mid = out@;
        match self.kind {
            OrderType::LimitOrder => {
                out.push(' ');
                let price = decimal_of(self.price);
                push_padded(&mut out, &price, 4, true);
                out.push('$');
                out.push(' ');
            },
            OrderType::MarketOrder => {
                push_spaces(&mut out, 7);
            },
        }
        out.push('#');
        let qty = decimal_of(self.qty);
        push_padded(&mut out, &qty, 8, false);
        proof {
            assert(word@ == side_text(self.side));
            assert(out@ =~= order_text(*self));
        }
        text_of(out)
    }
}

/// The order that a [`FlipIterator`] hands out on side `side`.
pub open spec fn flip_order(ordertype: OrderType, side: Side) -> Order {
    Order { qty: 100, price: 10, prod: 2, side, kind: ordertype }
}

/// An endless source of identical orders whose side alternates, starting
/// with a sell.
pub struct FlipIterator {
    ordertype: OrderType,
    side: Side,
}

impl FlipIterator {
    /// The kind of order handed out.
    pub closed spec fn kind(&self) -> OrderType {
        self.ordertype
    }

    /// The side of the next order.
    pub closed spec fn next_side(&self) -> Side {
        self.side
    }

    /// A source of orders of kind `ordertype` whose first order sells.
    pub fn new(ordertype: OrderType) -> (it: Self)
        ensures
            it.kind() == ordertype,
            it.next_side() == Side::Sell,
    {
        FlipIterator { ordertype, side: Side::Sell }
    }

    /// The next order; the one after it is on the other side.
    pub fn next(&mut self) -> (o: Option<Order>)
        ensures
            o == Some(flip_order(old(self).kind(), old(self).next_side())),
            final(self).kind() == old(self).kind(),
            final(self).next_side() == old(self).next_side().flipped(),
    {
        let order = Order { qty: 100, price: 10, prod: 2, side: self.side, kind: self.ordertype };
        self.side = self.side.opposite();
        Some(order)
    }
}

#[verifier::external_type_specification]
#[verifier::external_body]
pub struct ExThreadRng(rand::rngs::ThreadRng);

/// The generator of the calling thread (`rand::thread_rng`).
#[verifier::external_body]
fn thread_generator() -> rand::rngs::ThreadRng {
    rand::thread_rng()
}

/// A number drawn uniformly from `low..high` (`rand`'s `Uniform::from`
/// and `Distribution::sample`); `rand` panics on an empty range, which the
/// precondition rules out.
#[verifier::external_body]
fn draw_below(rng: &mut rand::rngs::ThreadRng, low: u64, high: u64) -> (r: u64)
    requires
        low < high,
    ensures
        low <= r < high,
{
    rand::distributions::Uniform::from(low..high).sample(rng)
}

/// A number drawn uniformly from `low..=high` (`rand`'s `Rng::gen_range`
/// on an inclusive range); `rand` panics on an empty range, which the
/// precondition rules out.
#[verifier::external_body]
fn draw_within(rng: &mut rand::rngs::ThreadRng, low: u32, high: u32) -> (r: u32)
    requires
        low <= high,
    ensures
        low <= r <= high,
{
    rng.gen_range(low..=high)
}

/// The side that a draw from `0..=1` stands for: 0 buys, anything else sells.
pub fn side_from_sample(n: u32) -> (s: Side)
    ensures
        s == (if n == 0 { Side::Buy } else { Side::Sell }),
{
    match n {
        0 => Side::Buy,
        1 => Side::Sell,
        _ => Side::Sell,
    }
}

/// An endless source of orders of a random side and a random price from
/// 10 up to 19.
pub struct RandomIterator {
    ordertype: OrderType,
    rng: rand::rngs::ThreadRng,
}

impl RandomIterator {
    /// The kind of order handed out.
    pub closed spec fn kind(&self) -> OrderType {
        self.ordertype
    }

    /// A source of random orders of kind `ordertype`.
    pub fn new(ordertype: OrderType) -> (it: Self)
        ensures
            it.kind() == ordertype,
    {
        RandomIterator { ordertype, rng: thread_generator() }
    }

    /// The next order: 100 units of product 2 at a price from 10 up to 19,
    /// on either side.
    pub fn next(&mut self) -> (o: Option<Order>)
        ensures
            final(self).kind() == old(self).kind(),
            o matches Some(order) && order.qty == 100 && order.prod == 2 && order.kind == old(self).kind()
                && 10 <= order.price < 20,
    {
        let price = draw_below(&mut self.rng, 10, 20);
        let bit = draw_within(&mut self.rng, 0, 1);
        let order = Order { qty: 100, price, prod: 2, side: side_from_sample(bit), kind: self.ordertype };
        Some(order)
    }
}

} // verus!
