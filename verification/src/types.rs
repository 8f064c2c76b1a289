//! Value types of the order-book engine: sides, fixed-point prices and
//! quantities, book orders, side-aware level prices, and integrity errors.

use core::cmp::Ordering;
use vstd::prelude::*;

verus! {

/// The side of the book an order rests on.
#[derive(Clone, Copy, Debug, PartialEq, Eq, Structural)]
pub enum OrderSide {
    Buy,
    Sell,
}

/// A fixed-point price: `raw` counts units of `1 / FIXED_SCALAR`.
#[derive(Clone, Copy, Debug, PartialEq, Eq, Structural)]
pub struct Price {
    pub raw: i64,
}

impl Price {
    /// Creates a price from raw fixed-point units.
    pub fn from_raw(raw: i64) -> (r: Price)
        ensures
            r.raw == raw,
    {
        Price { raw }
    }
}

/// A fixed-point quantity: `raw` counts units of `1 / FIXED_SCALAR`.
#[derive(Clone, Copy, Debug, PartialEq, Eq, Structural)]
pub struct Quantity {
    pub raw: u64,
}

impl Quantity {
    /// Creates a quantity from raw fixed-point units.
    pub fn from_raw(raw: u64) -> (r: Quantity)
        ensures
            r.raw == raw,
    {
        Quantity { raw }
    }
}

/// A price paired with the side it rests on.
///
/// Levels within one side of a book are ordered by `BookPrice` so that the
/// best level sorts first: bid levels sort descending by value, ask levels
/// ascending. Equality looks at the value alone; callers keep the two sides
/// in separate containers and never compare across sides.
#[derive(Clone, Copy, Debug)]
pub struct BookPrice {
    pub value: Price,
    pub side: OrderSide,
}

/// The ordering of two level prices on `a`'s side: on the buy side the
/// comparison of the values is reversed, so that a higher bid sorts first.
pub open spec fn book_price_cmp(a: BookPrice, b: BookPrice) -> Ordering {
    match a.side {
        OrderSide::Buy => {
            if b.value.raw < a.value.raw {
                Ordering::Less
            } else if b.value.raw == a.value.raw {
                Ordering::Equal
            } else {
                Ordering::Greater
            }
        },
        OrderSide::Sell => {
            if a.value.raw < b.value.raw {
                Ordering::Less
            } else if a.value.raw == b.value.raw {
                Ordering::Equal
            } else {
                Ordering::Greater
            }
        },
    }
}

impl BookPrice {
    /// Creates a level price for a side.
    pub fn new(value: Price, side: OrderSide) -> (r: BookPrice)
        ensures
            r.value == value,
            r.side == side,
    {
        BookPrice { value, side }
    }
}

impl PartialEq for BookPrice {
    fn eq(&self, other: &BookPrice) -> (r: bool) {
        self.value.raw == other.value.raw
    }
}

impl vstd::std_specs::cmp::PartialEqSpecImpl for BookPrice {
    open spec fn obeys_eq_spec() -> bool {
        true
    }

    open spec fn eq_spec(&self, other: &BookPrice) -> bool {
        self.value.raw == other.value.raw
    }
}

impl PartialOrd for BookPrice {
    fn partial_cmp(&self, other: &BookPrice) -> (r: Option<Ordering>) {
        let c = match self.side {
            OrderSide::Buy => {
                if other.value.raw < self.value.raw {
                    Ordering::Less
                } else if other.value.raw == self.value.raw {
                    Ordering::Equal
                } else {
                    Ordering::Greater
                }
            },
            OrderSide::Sell => {
                if self.value.raw < other.value.raw {
                    Ordering::Less
                } else if self.value.raw == other.value.raw {
                    Ordering::Equal
                } else {
                    Ordering::Greater
                }
            },
        };
        Some(c)
    }
}

impl vstd::std_specs::cmp::PartialOrdSpecImpl for BookPrice {
    open spec fn obeys_partial_cmp_spec() -> bool {
        true
    }

    open spec fn partial_cmp_spec(&self, other: &BookPrice) -> Option<Ordering> {
        Some(book_price_cmp(*self, *other))
    }
}

/// The side-dependent ordering of level prices: on the buy side a higher
/// value sorts first, on the sell side a lower one, so that the best level of
/// either side sorts first within its own container.
pub proof fn lemma_book_price_side_order(a: BookPrice, b: BookPrice)
    requires
        a.side == b.side,
    ensures
        a.side == OrderSide::Buy && a.value.raw > b.value.raw ==> book_price_cmp(a, b)
            == Ordering::Less,
        a.side == OrderSide::Sell && a.value.raw < b.value.raw ==> book_price_cmp(a, b)
            == Ordering::Less,
        book_price_cmp(a, b) == Ordering::Equal <==> a.value.raw == b.value.raw,
        book_price_cmp(a, b) == Ordering::Less <==> book_price_cmp(b, a) == Ordering::Greater,
{
}

/// A resting order: `order_id` is its 64-bit key, expected unique within a
/// book side; `price` and `size` are fixed-point values.
#[derive(Clone, Copy, Debug, PartialEq, Eq, Structural)]
pub struct BookOrder {
    pub side: OrderSide,
    pub price: Price,
    pub size: Quantity,
    pub order_id: u64,
}

impl BookOrder {
    /// Creates an order.
    pub fn new(side: OrderSide, price: Price, size: Quantity, order_id: u64) -> (r: BookOrder)
        ensures
            r.side == side,
            r.price == price,
            r.size == size,
            r.order_id == order_id,
    {
        BookOrder { side, price, size, order_id }
    }

    /// The level price this order belongs to: its own price, on its own side.
    pub fn to_book_price(&self) -> (r: BookPrice)
        ensures
            r.value == self.price,
            r.side == self.side,
    {
        BookPrice { value: self.price, side: self.side }
    }
}

/// A fatal inconsistency of the book: callers are not expected to recover.
#[derive(Clone, Copy, Debug, PartialEq, Eq, Structural)]
pub enum BookIntegrityError {
    /// An order's price does not match the level it was applied to:
    /// `(level price raw, order price raw)`.
    PriceMismatch(i64, i64),
    /// No order with the given id is at the level:
    /// `(order_id, sequence, ts_event)` — the last two are diagnostics
    /// carried through from the caller.
    OrderNotFound(u64, u64, u64),
}

} // verus!
