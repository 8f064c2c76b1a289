//! A discrete price level in an order book.
//!
//! The level keeps a mapping from order id to order together with the ids'
//! arrival order, so that readers see the resting orders in FIFO order across
//! adds, updates and deletes.

use core::cmp::Ordering;
use std::collections::BTreeMap;
use vstd::prelude::*;

use crate::types::{BookIntegrityError, BookOrder, BookPrice};
use crate::FIXED_SCALAR;

verus! {

broadcast use vstd::std_specs::btree::group_btree_axioms, vstd::laws_cmp::group_laws_cmp, vstd::group_vstd_default;

/// The sequence `s` with every order of id `id` dropped; order of the rest kept.
pub open spec fn fifo_remove(s: Seq<BookOrder>, id: u64) -> Seq<BookOrder>
    decreases s.len(),
{
    if s.len() == 0 {
        s
    } else {
        let rest = fifo_remove(s.drop_last(), id);
        if s.last().order_id == id {
            rest
        } else {
            rest.push(s.last())
        }
    }
}

/// The ids of `ids` that are keys of `m`, in order: the arrival order after a
/// compaction against `m`.
pub open spec fn live_ids(ids: Seq<u64>, m: Map<u64, BookOrder>) -> Seq<u64>
    decreases ids.len(),
{
    if ids.len() == 0 {
        ids
    } else {
        let rest = live_ids(ids.drop_last(), m);
        if m.contains_key(ids.last()) {
            rest.push(ids.last())
        } else {
            rest
        }
    }
}

/// A discrete price level: the orders resting at one price on one side.
///
/// `orders` maps order id to order; `insertion_order` records the ids in
/// arrival order and determines the FIFO view. Between an order's removal
/// from `orders` and the next compaction, `insertion_order` may briefly hold
/// stale ids, but no public operation returns with one present.
#[derive(Clone, Debug)]
pub struct BookLevel {
    pub price: BookPrice,
    pub orders: BTreeMap<u64, BookOrder>,
    insertion_order: Vec<u64>,
}

impl BookLevel {
    /// The level's price.
    pub closed spec fn spec_price(&self) -> BookPrice {
        self.price
    }

    /// The ids at the level in arrival order.
    pub closed spec fn id_seq(&self) -> Seq<u64> {
        self.insertion_order@
    }

    /// The id-to-order mapping.
    pub closed spec fn omap(&self) -> Map<u64, BookOrder> {
        self.orders@
    }

    /// Whether an order with id `id` rests at the level.
    pub closed spec fn contains_id(&self, id: u64) -> bool {
        self.orders@.contains_key(id)
    }

    /// The live orders in FIFO order: the model every contract speaks of.
    pub closed spec fn oseq(&self) -> Seq<BookOrder> {
        self.insertion_order@.map_values(|id: u64| self.orders@[id])
    }

    /// Well-formedness: arrival order lists each live id exactly once, every
    /// listed id is live, and every live order carries its own id and the
    /// level's price.
    pub closed spec fn wf(&self) -> bool {
        &&& self.insertion_order@.no_duplicates()
        &&& forall|i: int|
            0 <= i < self.insertion_order@.len() ==> self.orders@.contains_key(
                #[trigger] self.insertion_order@[i],
            )
        &&& forall|id: u64| #[trigger]
            self.orders@.contains_key(id) ==> self.insertion_order@.contains(id)
        &&& forall|id: u64| #[trigger]
            self.orders@.contains_key(id) ==> self.orders@[id].order_id == id
                && self.orders@[id].price.raw == self.price.value.raw
    }

    /// Every id in the arrival order is a live order: no public operation
    /// leaves a stale id behind.
    pub proof fn lemma_arrival_ids_live(&self)
        requires
            self.wf(),
        ensures
            forall|i: int|
                0 <= i < self.id_seq().len() ==> self.omap().contains_key(
                    #[trigger] self.id_seq()[i],
                ),
            self.oseq().len() == self.id_seq().len(),
            forall|i: int|
                0 <= i < self.oseq().len() ==> #[trigger] self.oseq()[i].order_id
                    == self.id_seq()[i],
    {
    }

    /// The FIFO view holds exactly the live orders: each one appears once,
    /// at its arrival position and under its own id, every live order
    /// appears, and every order carries the level's price. An id is at the
    /// level exactly when the order map holds it.
    pub proof fn lemma_fifo_view_exact(&self)
        requires
            self.wf(),
        ensures
            forall|i: int, j: int|
                0 <= i < j < self.oseq().len() ==> (#[trigger] self.oseq()[i]).order_id != (
                #[trigger] self.oseq()[j]).order_id,
            forall|i: int|
                0 <= i < self.oseq().len() ==> self.omap().contains_key(
                    (#[trigger] self.oseq()[i]).order_id,
                ) && self.oseq()[i] == self.omap()[self.oseq()[i].order_id],
            forall|i: int|
                0 <= i < self.oseq().len() ==> (#[trigger] self.oseq()[i]).price.raw
                    == self.spec_price().value.raw,
            forall|id: u64| #[trigger]
                self.omap().contains_key(id) ==> exists|i: int|
                    0 <= i < self.oseq().len() && (#[trigger] self.oseq()[i]).order_id == id,
            forall|id: u64| #[trigger] self.contains_id(id) == self.omap().contains_key(id),
    {
        assert forall|i: int|
            0 <= i < self.oseq().len() implies (#[trigger] self.oseq()[i]).price.raw
            == self.spec_price().value.raw by {
            assert(self.orders@.contains_key(self.insertion_order@[i]));
        }
        assert forall|id: u64| #[trigger] self.omap().contains_key(id) implies exists|i: int|
            0 <= i < self.oseq().len() && (#[trigger] self.oseq()[i]).order_id == id by {
            assert(self.insertion_order@.contains(id));
            let i = choose|i: int|
                0 <= i < self.insertion_order@.len() && self.insertion_order@[i] == id;
            assert(self.oseq()[i].order_id == id);
        }
    }

    /// Creates an empty level at the given price.
    pub fn new(price: BookPrice) -> (r: BookLevel)
        ensures
            r.spec_price() == price,
            r.oseq() == Seq::<BookOrder>::empty(),
            forall|id: u64| !r.contains_id(id),
            r.wf(),
    {
        let r = BookLevel { price, orders: BTreeMap::new(), insertion_order: Vec::new() };
        proof {
            assert(r.oseq() =~= Seq::<BookOrder>::empty());
        }
        r
    }

    /// Creates a level from an order, at the order's price and side.
    pub fn from_order(order: BookOrder) -> (r: BookLevel)
        ensures
            r.spec_price().value == order.price,
            r.spec_price().side == order.side,
            r.oseq() == seq![order],
            forall|id: u64| #[trigger] r.contains_id(id) == (id == order.order_id),
            r.wf(),
    {
        let mut level = BookLevel {
            price: order.to_book_price(),
            orders: BTreeMap::new(),
            insertion_order: Vec::new(),
        };
        proof {
            assert(level.oseq() =~= Seq::<BookOrder>::empty());
        }
        let _added = level.add(order);
        proof {
            assert(level.oseq() =~= seq![order]);
        }
        level
    }

    /// The number of orders at the level.
    pub fn len(&self) -> (r: usize)
        requires
            self.wf(),
        ensures
            r == self.oseq().len(),
    {
        proof {
            self.lemma_id_count();
        }
        self.orders.len()
    }

    /// Whether the level holds no orders.
    pub fn is_empty(&self) -> (r: bool)
        requires
            self.wf(),
        ensures
            r == (self.oseq().len() == 0),
    {
        proof {
            self.lemma_id_count();
        }
        self.orders.is_empty()
    }

    /// Under well-formedness the map holds exactly as many orders as the
    /// arrival order lists.
    proof fn lemma_id_count(&self)
        requires
            self.wf(),
        ensures
            self.omap().dom().len() == self.id_seq().len(),
            self.omap().dom().finite(),
    {
        assert(self.insertion_order@.to_set() =~= self.orders@.dom());
        self.insertion_order@.unique_seq_to_set();
    }

    /// The oldest order at the level by arrival, if any.
    pub fn first(&self) -> (r: Option<&BookOrder>)
        requires
            self.wf(),
        ensures
            self.oseq().len() == 0 ==> r is None,
            self.oseq().len() > 0 ==> (r matches Some(o) && *o == self.oseq()[0]),
    {
        if self.insertion_order.len() == 0 {
            None
        } else {
            let id = self.insertion_order[0];
            match self.orders.get(&id) {
                Some(o) => Some(o),
                None => {
                    proof {
                        assert(false);
                    }
                    None
                },
            }
        }
    }

    /// All orders at the level, in FIFO arrival order.
    pub fn get_orders(&self) -> (r: Vec<BookOrder>)
        requires
            self.wf(),
        ensures
            r@ == self.oseq(),
    {
        let mut out: Vec<BookOrder> = Vec::new();
        let n = self.insertion_order.len();
        let mut i: usize = 0;
        while i < n
            invariant
                self.wf(),
                n == self.insertion_order@.len(),
                0 <= i <= n,
                out@ == self.oseq().take(i as int),
            decreases n - i,
        {
            let id = self.insertion_order[i];
            match self.orders.get(&id) {
                Some(o) => {
                    out.push(*o);
                },
                None => {
                    proof {
                        assert(false);
                    }
                },
            }
            proof {
                assert(out@ =~= self.oseq().take(i + 1 as int));
            }
            i = i + 1;
        }
        proof {
            assert(self.oseq().take(n as int) =~= self.oseq());
        }
        out
    }

    /// Whether `order` may be applied to this level: its price must equal the
    /// level's price value.
    pub fn check_order_for_this_level(&self, order: &BookOrder) -> (r: bool)
        ensures
            r == (order.price.raw == self.spec_price().value.raw),
    {
        order.price.raw == self.price.value.raw
    }

    /// Appends an order to the FIFO tail.
    ///
    /// Fails — fatally for the book — when the order's price differs from the
    /// level's; the level is then unchanged.
    pub fn add(&mut self, order: BookOrder) -> (r: Result<(), BookIntegrityError>)
        requires
            old(self).wf(),
            !old(self).contains_id(order.order_id),
        ensures
            final(self).spec_price() == old(self).spec_price(),
            final(self).wf(),
            order.price.raw == old(self).spec_price().value.raw ==> r is Ok && final(self).oseq()
                == old(self).oseq().push(order) && final(self).id_seq() == old(self).id_seq().push(
                order.order_id,
            ) && (forall|x: u64|
                #[trigger] final(self).contains_id(x) == (old(self).contains_id(x) || x
                    == order.order_id)),
            order.price.raw != old(self).spec_price().value.raw ==> r == Err::<
                (),
                BookIntegrityError,
            >(BookIntegrityError::PriceMismatch(old(self).spec_price().value.raw, order.price.raw))
                && *final(self) == *old(self),
    {
        if !self.check_order_for_this_level(&order) {
            return Err(BookIntegrityError::PriceMismatch(self.price.value.raw, order.price.raw));
        }
        let ghost pre = *self;
        self.orders.insert(order.order_id, order);
        self.insertion_order.push(order.order_id);
        proof {
            assert(self.insertion_order@ == pre.insertion_order@.push(order.order_id));
            assert forall|i: int| 0 <= i < pre.insertion_order@.len() implies pre.insertion_order@[i]
                != order.order_id by {
                assert(pre.orders@.contains_key(pre.insertion_order@[i]));
            }
            assert(self.insertion_order@.no_duplicates());
            assert forall|id: u64| #[trigger] self.orders@.contains_key(id) implies self
                .insertion_order@.contains(id) by {
                if id == order.order_id {
                    assert(self.insertion_order@[pre.insertion_order@.len() as int] == id);
                } else {
                    assert(pre.orders@.contains_key(id));
                    let i = choose|i: int|
                        0 <= i < pre.insertion_order@.len() && pre.insertion_order@[i] == id;
                    assert(self.insertion_order@[i] == id);
                }
            }
            assert(self.oseq() =~= pre.oseq().push(order));
        }
        Ok(())
    }

    /// Drops from the arrival order every id whose order is gone, keeping the
    /// order of the rest. Rebuilds only when a stale id is present.
    fn update_insertion_order(&mut self)
        ensures
            final(self).orders@ == old(self).orders@,
            final(self).price == old(self).price,
            final(self).insertion_order@ == live_ids(
                old(self).insertion_order@,
                old(self).orders@,
            ),
    {
        let ghost ids = self.insertion_order@;
        let ghost m = self.orders@;
        let n = self.insertion_order.len();
        let mut stale = false;
        let mut i: usize = 0;
        while i < n
            invariant
                n == ids.len(),
                0 <= i <= n,
                self.insertion_order@ == ids,
                self.orders@ == m,
                self.price == old(self).price,
                stale == exists|j: int| 0 <= j < i && !m.contains_key(#[trigger] ids[j]),
            decreases n - i,
        {
            let id = self.insertion_order[i];
            if !self.orders.contains_key(&id) {
                stale = true;
            }
            i = i + 1;
        }
        if !stale {
            proof {
                assert(forall|j: int| 0 <= j < ids.len() ==> m.contains_key(#[trigger] ids[j]));
                lemma_live_ids_all(ids, m);
            }
            return ;
        }
        let mut kept: Vec<u64> = Vec::new();
        let mut i: usize = 0;
        while i < n
            invariant
                n == ids.len(),
                0 <= i <= n,
                self.insertion_order@ == ids,
                self.orders@ == m,
                self.price == old(self).price,
                kept@ == live_ids(ids.take(i as int), m),
            decreases n - i,
        {
            let id = self.insertion_order[i];
            let ghost prefix = ids.take(i as int);
            if self.orders.contains_key(&id) {
                kept.push(id);
            }
            proof {
                assert(ids.take(i + 1 as int).drop_last() =~= prefix);
                assert(ids.take(i + 1 as int).last() == ids[i as int]);
            }
            i = i + 1;
        }
        proof {
            assert(ids.take(n as int) =~= ids);
        }
        self.insertion_order = kept;
    }

    /// Removes the order with `order`'s id, if present; the rest keep their
    /// FIFO positions.
    pub fn delete(&mut self, order: &BookOrder)
        requires
            old(self).wf(),
        ensures
            final(self).spec_price() == old(self).spec_price(),
            final(self).wf(),
            final(self).oseq() == fifo_remove(old(self).oseq(), order.order_id),
            forall|x: u64|
                #[trigger] final(self).contains_id(x) == (old(self).contains_id(x) && x
                    != order.order_id),
    {
        let ghost pre = *self;
        self.orders.remove(&order.order_id);
        self.update_insertion_order();
        proof {
            lemma_delete_post(pre, *self, order.order_id);
        }
    }

    /// Replaces the existing order of the same id, keeping its FIFO position;
    /// a zero size removes the order instead, exactly as [`Self::delete`] does.
    ///
    /// Fails — fatally for the book — when the order's price differs from the
    /// level's; the level is then unchanged.
    pub fn update(&mut self, order: BookOrder) -> (r: Result<(), BookIntegrityError>)
        requires
            old(self).wf(),
            order.size.raw == 0 || old(self).contains_id(order.order_id),
        ensures
            final(self).spec_price() == old(self).spec_price(),
            final(self).wf(),
            order.price.raw != old(self).spec_price().value.raw ==> r == Err::<
                (),
                BookIntegrityError,
            >(BookIntegrityError::PriceMismatch(old(self).spec_price().value.raw, order.price.raw))
                && *final(self) == *old(self),
            order.price.raw == old(self).spec_price().value.raw && order.size.raw == 0 ==> r is Ok
                && final(self).oseq() == fifo_remove(old(self).oseq(), order.order_id) && (
            forall|x: u64|
                #[trigger] final(self).contains_id(x) == (old(self).contains_id(x) && x
                    != order.order_id)),
            order.price.raw == old(self).spec_price().value.raw && order.size.raw != 0 ==> r is Ok
                && final(self).id_seq() == old(self).id_seq()
                && 0 <= old(self).id_seq().index_of(order.order_id) < old(self).oseq().len()
                && old(self).oseq()[old(self).id_seq().index_of(order.order_id)].order_id
                    == order.order_id
                && final(self).oseq()
                    == old(self).oseq().update(old(self).id_seq().index_of(order.order_id), order)
                && (forall|x: u64|
                #[trigger] final(self).contains_id(x) == old(self).contains_id(x)),
    {
        if !self.check_order_for_this_level(&order) {
            return Err(BookIntegrityError::PriceMismatch(self.price.value.raw, order.price.raw));
        }
        if order.size.raw == 0 {
            self.delete(&order);
            Ok(())
        } else {
            let ghost pre = *self;
            self.orders.insert(order.order_id, order);
            proof {
                let ids = pre.insertion_order@;
                let id = order.order_id;
                let k = ids.index_of(id);
                assert(ids.contains(id));
                assert(0 <= k < ids.len() && ids[k] == id);
                assert(self.orders@.dom() =~= pre.orders@.dom());
                assert forall|j: int| 0 <= j < ids.len() && j != k implies ids[j] != id by {}
                assert(self.oseq() =~= pre.oseq().update(k, order));
            }
            Ok(())
        }
    }

    /// Removes the order with id `order_id`; the rest keep their FIFO
    /// positions.
    ///
    /// Fails — fatally for the book — when no such order is at the level; the
    /// error carries `(order_id, sequence, ts_event)` as diagnostics and the
    /// level is unchanged.
    pub fn remove_by_id(&mut self, order_id: u64, sequence: u64, ts_event: u64) -> (r: Result<
        (),
        BookIntegrityError,
    >)
        requires
            old(self).wf(),
        ensures
            final(self).spec_price() == old(self).spec_price(),
            final(self).wf(),
            old(self).contains_id(order_id) ==> r is Ok && final(self).oseq() == fifo_remove(
                old(self).oseq(),
                order_id,
            ) && (forall|x: u64|
                #[trigger] final(self).contains_id(x) == (old(self).contains_id(x) && x
                    != order_id)),
            !old(self).contains_id(order_id) ==> r == Err::<(), BookIntegrityError>(
                BookIntegrityError::OrderNotFound(order_id, sequence, ts_event),
            ) && final(self).oseq() == old(self).oseq() && (forall|x: u64|
                #[trigger] final(self).contains_id(x) == old(self).contains_id(x)),
    {
        let ghost pre = *self;
        match self.orders.remove(&order_id) {
            Some(_) => {
                self.update_insertion_order();
                proof {
                    lemma_delete_post(pre, *self, order_id);
                }
                Ok(())
            },
            None => {
                proof {
                    assert(self.orders@ =~= pre.orders@);
                    assert(self.oseq() =~= pre.oseq());
                }
                Err(BookIntegrityError::OrderNotFound(order_id, sequence, ts_event))
            },
        }
    }

    /// Appends a batch of orders to the FIFO tail, keeping the batch's order.
    ///
    /// Fails — fatally for the book — when any order's price differs from the
    /// level's: the whole batch is then refused and the level is unchanged,
    /// with the first mismatching price reported.
    pub fn add_bulk(&mut self, orders: Vec<BookOrder>) -> (r: Result<(), BookIntegrityError>)
        requires
            old(self).wf(),
            forall|i: int, j: int|
                0 <= i < j < orders@.len() ==> (#[trigger] orders@[i]).order_id != (
                #[trigger] orders@[j]).order_id,
            forall|i: int|
                0 <= i < orders@.len() ==> !old(self).contains_id(
                    (#[trigger] orders@[i]).order_id,
                ),
        ensures
            final(self).spec_price() == old(self).spec_price(),
            final(self).wf(),
            (forall|i: int|
                0 <= i < orders@.len() ==> (#[trigger] orders@[i]).price.raw == old(
                    self,
                ).spec_price().value.raw) ==> r is Ok && final(self).oseq() == old(self).oseq()
                + orders@ && (forall|x: u64|
                #[trigger] final(self).contains_id(x) == (old(self).contains_id(x) || exists|i: int|
                    0 <= i < orders@.len() && (#[trigger] orders@[i]).order_id == x)),
            (exists|i: int|
                0 <= i < orders@.len() && (#[trigger] orders@[i]).price.raw != old(
                    self,
                ).spec_price().value.raw) ==> {
                let b = first_price_mismatch(orders@, old(self).spec_price().value.raw);
                r == Err::<(), BookIntegrityError>(
                    BookIntegrityError::PriceMismatch(
                        old(self).spec_price().value.raw,
                        orders@[b].price.raw,
                    ),
                ) && *final(self) == *old(self)
            },
    {
        let n = orders.len();
        let mut i: usize = 0;
        while i < n
            invariant
                n == orders@.len(),
                0 <= i <= n,
                *self == *old(self),
                self.wf(),
                forall|j: int|
                    0 <= j < i ==> (#[trigger] orders@[j]).price.raw == self.price.value.raw,
            decreases n - i,
        {
            if !self.check_order_for_this_level(&orders[i]) {
                proof {
                    lemma_first_price_mismatch(orders@, self.price.value.raw, i as int);
                }
                return Err(
                    BookIntegrityError::PriceMismatch(self.price.value.raw, orders[i].price.raw),
                );
            }
            i = i + 1;
        }
        let ghost pre = *self;
        let mut i: usize = 0;
        while i < n
            invariant
                n == orders@.len(),
                0 <= i <= n,
                self.wf(),
                self.spec_price() == pre.spec_price(),
                self.oseq() == pre.oseq() + orders@.take(i as int),
                pre.spec_price() == old(self).spec_price(),
                pre.oseq() == old(self).oseq(),
                forall|j: int|
                    0 <= j < n ==> (#[trigger] orders@[j]).price.raw == pre.spec_price().value.raw,
                forall|j1: int, j2: int|
                    0 <= j1 < j2 < n ==> (#[trigger] orders@[j1]).order_id != (
                    #[trigger] orders@[j2]).order_id,
                forall|j: int| i <= j < n ==> !self.contains_id((#[trigger] orders@[j]).order_id),
                forall|x: u64|
                    #[trigger] self.contains_id(x) == (pre.contains_id(x) || exists|j: int|
                        0 <= j < i && (#[trigger] orders@[j]).order_id == x),
            decreases n - i,
        {
            let o = orders[i];
            let added = self.add(o);
            proof {
                assert(added is Ok);
                assert(self.oseq() =~= pre.oseq() + orders@.take(i + 1 as int));
                assert forall|j: int|
                    i + 1 <= j < n implies !self.contains_id(
                    (#[trigger] orders@[j]).order_id,
                ) by {}
            }
            i = i + 1;
        }
        proof {
            assert(orders@.take(n as int) =~= orders@);
        }
        Ok(())
    }

    /// The total size of all orders at the level, in raw fixed-point units.
    pub fn size_raw(&self) -> (r: u64)
        requires
            self.wf(),
            size_sum(self.oseq()) <= u64::MAX,
        ensures
            r == size_sum(self.oseq()),
    {
        let mut acc: u64 = 0;
        let n = self.insertion_order.len();
        let mut i: usize = 0;
        while i < n
            invariant
                self.wf(),
                size_sum(self.oseq()) <= u64::MAX,
                n == self.insertion_order@.len(),
                0 <= i <= n,
                acc == size_sum(self.oseq().take(i as int)),
            decreases n - i,
        {
            let id = self.insertion_order[i];
            match self.orders.get(&id) {
                Some(o) => {
                    proof {
                        assert(self.oseq().take(i + 1 as int).drop_last() =~= self.oseq().take(
                            i as int,
                        ));
                        assert(self.oseq().take(i + 1 as int).last() == self.oseq()[i as int]);
                        lemma_size_sum_prefix(self.oseq(), i + 1 as int);
                    }
                    acc = acc + o.size.raw;
                },
                None => {
                    proof {
                        assert(false);
                    }
                },
            }
            i = i + 1;
        }
        proof {
            assert(self.oseq().take(n as int) =~= self.oseq());
        }
        acc
    }

    /// The total notional exposure (`price * size`) of all orders at the
    /// level, in raw fixed-point units, rounded per order before summing.
    pub fn exposure_raw(&self) -> (r: u64)
        requires
            self.wf(),
            exposure_sum(self.oseq()) <= u64::MAX,
        ensures
            r == exposure_sum(self.oseq()),
    {
        let mut acc: u64 = 0;
        let n = self.insertion_order.len();
        let mut i: usize = 0;
        while i < n
            invariant
                self.wf(),
                exposure_sum(self.oseq()) <= u64::MAX,
                n == self.insertion_order@.len(),
                0 <= i <= n,
                acc == exposure_sum(self.oseq().take(i as int)),
            decreases n - i,
        {
            let id = self.insertion_order[i];
            match self.orders.get(&id) {
                Some(o) => {
                    proof {
                        assert(self.oseq().take(i + 1 as int).drop_last() =~= self.oseq().take(
                            i as int,
                        ));
                        assert(self.oseq().take(i + 1 as int).last() == self.oseq()[i as int]);
                        lemma_exposure_sum_prefix(self.oseq(), i + 1 as int);
                    }
                    let term = order_exposure_wide(o);
                    acc = acc + (term as u64);
                },
                None => {
                    proof {
                        assert(false);
                    }
                },
            }
            i = i + 1;
        }
        proof {
            assert(self.oseq().take(n as int) =~= self.oseq());
        }
        acc
    }

    /// The total size in raw units, or `None` when the total does not fit
    /// `u64` — so an embedding can test the bound [`Self::size_raw`] needs
    /// before relying on it.
    pub fn try_size_raw(&self) -> (r: Option<u64>)
        requires
            self.wf(),
        ensures
            size_sum(self.oseq()) <= u64::MAX ==> r == Some(size_sum(self.oseq()) as u64),
            size_sum(self.oseq()) > u64::MAX ==> r is None,
    {
        let mut acc: u64 = 0;
        let n = self.insertion_order.len();
        let mut i: usize = 0;
        while i < n
            invariant
                self.wf(),
                n == self.insertion_order@.len(),
                0 <= i <= n,
                acc == size_sum(self.oseq().take(i as int)),
            decreases n - i,
        {
            let id = self.insertion_order[i];
            match self.orders.get(&id) {
                Some(o) => {
                    proof {
                        assert(self.oseq().take(i + 1 as int).drop_last() =~= self.oseq().take(
                            i as int,
                        ));
                        assert(self.oseq().take(i + 1 as int).last() == self.oseq()[i as int]);
                    }
                    match acc.checked_add(o.size.raw) {
                        Some(next) => {
                            acc = next;
                        },
                        None => {
                            proof {
                                lemma_size_sum_prefix(self.oseq(), i + 1 as int);
                            }
                            return None;
                        },
                    }
                },
                None => {
                    proof {
                        assert(false);
                    }
                },
            }
            i = i + 1;
        }
        proof {
            assert(self.oseq().take(n as int) =~= self.oseq());
        }
        Some(acc)
    }

    /// The total exposure in raw units, or `None` when the total does not
    /// fit `u64` — so an embedding can test the bound
    /// [`Self::exposure_raw`] needs before relying on it.
    pub fn try_exposure_raw(&self) -> (r: Option<u64>)
        requires
            self.wf(),
        ensures
            exposure_sum(self.oseq()) <= u64::MAX ==> r == Some(exposure_sum(self.oseq()) as u64),
            exposure_sum(self.oseq()) > u64::MAX ==> r is None,
    {
        let mut acc: u64 = 0;
        let n = self.insertion_order.len();
        let mut i: usize = 0;
        while i < n
            invariant
                self.wf(),
                n == self.insertion_order@.len(),
                0 <= i <= n,
                acc == exposure_sum(self.oseq().take(i as int)),
            decreases n - i,
        {
            let id = self.insertion_order[i];
            match self.orders.get(&id) {
                Some(o) => {
                    proof {
                        assert(self.oseq().take(i + 1 as int).drop_last() =~= self.oseq().take(
                            i as int,
                        ));
                        assert(self.oseq().take(i + 1 as int).last() == self.oseq()[i as int]);
                    }
                    let term = order_exposure_wide(o);
                    if term > u64::MAX as u128 {
                        proof {
                            lemma_exposure_sum_prefix(self.oseq(), i + 1 as int);
                        }
                        return None;
                    }
                    match acc.checked_add(term as u64) {
                        Some(next) => {
                            acc = next;
                        },
                        None => {
                            proof {
                                lemma_exposure_sum_prefix(self.oseq(), i + 1 as int);
                            }
                            return None;
                        },
                    }
                },
                None => {
                    proof {
                        assert(false);
                    }
                },
            }
            i = i + 1;
        }
        proof {
            assert(self.oseq().take(n as int) =~= self.oseq());
        }
        Some(acc)
    }

    /// The total size of all orders at the level, as a decimal with the
    /// fixed-point scale: the decimal reading of the verified raw total
    /// [`Self::size_raw`].
    pub fn size_decimal(&self) -> (r: rust_decimal::Decimal)
        requires
            self.wf(),
            size_sum(self.oseq()) <= u64::MAX,
        ensures
            r == decimal_of_units(size_sum(self.oseq()) as u64),
    {
        proof {
            lemma_size_sum_nonneg(self.oseq());
        }
        decimal_from_fixed_units(self.size_raw())
    }
}

/// The raw exposure one order contributes, computed exactly as
/// [`exposure_term`] states it; the wide result lets callers test the `u64`
/// bound.
fn order_exposure_wide(o: &BookOrder) -> (r: u128)
    ensures
        r == exposure_term(*o),
{
    if o.price.raw < 0 {
        return 0;
    }
    let p: u128 = o.price.raw as u128;
    let s: u128 = o.size.raw as u128;
    proof {
        assert((o.price.raw as int) * (o.size.raw as int) <= (i64::MAX as int) * (
        u64::MAX as int)) by (nonlinear_arith)
            requires
                0 <= o.price.raw as int <= i64::MAX as int,
                0 <= o.size.raw as int <= u64::MAX as int,
        ;
    }
    (p * s + FIXED_SCALAR as u128 / 2) / (FIXED_SCALAR as u128)
}

impl PartialEq for BookLevel {
    fn eq(&self, other: &BookLevel) -> (r: bool) {
        self.price.value.raw == other.price.value.raw
    }
}

impl vstd::std_specs::cmp::PartialEqSpecImpl for BookLevel {
    open spec fn obeys_eq_spec() -> bool {
        true
    }

    open spec fn eq_spec(&self, other: &BookLevel) -> bool {
        self.spec_price().value.raw == other.spec_price().value.raw
    }
}

impl PartialOrd for BookLevel {
    fn partial_cmp(&self, other: &BookLevel) -> (r: Option<Ordering>) {
        self.price.partial_cmp(&other.price)
    }
}

impl vstd::std_specs::cmp::PartialOrdSpecImpl for BookLevel {
    open spec fn obeys_partial_cmp_spec() -> bool {
        true
    }

    open spec fn partial_cmp_spec(&self, other: &BookLevel) -> Option<Ordering> {
        Some(crate::types::book_price_cmp(self.spec_price(), other.spec_price()))
    }
}

/// A zero-size update and a delete of the same id are equivalent: both
/// contracts describe the post-state as the FIFO view with that id removed,
/// so the two levels they describe are one and the same.
pub proof fn lemma_update_zero_size_is_delete(
    pre: Seq<BookOrder>,
    after_update: Seq<BookOrder>,
    after_delete: Seq<BookOrder>,
    id: u64,
)
    requires
        after_update == fifo_remove(pre, id),
        after_delete == fifo_remove(pre, id),
    ensures
        after_update == after_delete,
{
}

/// A nonzero-size update preserves FIFO: the updated order sits at the id's
/// original queue position and every other order keeps its place.
pub proof fn lemma_update_preserves_fifo_position(
    pre: Seq<BookOrder>,
    post: Seq<BookOrder>,
    o: BookOrder,
    k: int,
)
    requires
        0 <= k < pre.len(),
        post == pre.update(k, o),
    ensures
        post.len() == pre.len(),
        post[k] == o,
        forall|j: int| 0 <= j < pre.len() && j != k ==> post[j] == pre[j],
{
}

/// The declaration of the outside decimal type, so that it can stand in
/// signatures; values of it are opaque here.
#[verifier::external_type_specification]
#[verifier::external_body]
pub struct ExDecimal(rust_decimal::Decimal);

/// The decimal that reads `units` raw fixed-point units: `units * 10^-9`.
/// The outside conversion depends on its argument alone; nothing more is
/// assumed of the value.
pub uninterp spec fn decimal_of_units(units: u64) -> rust_decimal::Decimal;

/// Relies on rust_decimal's `Decimal::from_i128_with_scale`: builds the
/// decimal `units * 10^-9`. With a scale of nine and a mantissa from `u64`
/// its panic conditions (scale above the maximum, mantissa beyond 96 bits)
/// cannot arise.
#[verifier::external_body]
fn decimal_from_fixed_units(units: u64) -> (r: rust_decimal::Decimal)
    ensures
        r == decimal_of_units(units),
{
    rust_decimal::Decimal::from_i128_with_scale(units as i128, 9)
}

/// The total of the raw sizes of `s`.
pub open spec fn size_sum(s: Seq<BookOrder>) -> int
    decreases s.len(),
{
    if s.len() == 0 {
        0
    } else {
        size_sum(s.drop_last()) + s.last().size.raw
    }
}

/// The raw notional exposure one order contributes: `price * size` in raw
/// units, rounded half up; a negative price contributes nothing, as the raw
/// form is unsigned.
pub open spec fn exposure_term(o: BookOrder) -> int {
    if o.price.raw < 0 {
        0
    } else {
        (o.price.raw * o.size.raw + (FIXED_SCALAR as int) / 2) / (FIXED_SCALAR as int)
    }
}

/// The total of the raw exposures of `s`, rounded per order before summing.
pub open spec fn exposure_sum(s: Seq<BookOrder>) -> int
    decreases s.len(),
{
    if s.len() == 0 {
        0
    } else {
        exposure_sum(s.drop_last()) + exposure_term(s.last())
    }
}

/// Size totals are sums of nonnegative terms: every prefix total is between
/// zero and the whole total.
proof fn lemma_size_sum_prefix(s: Seq<BookOrder>, i: int)
    requires
        0 <= i <= s.len(),
    ensures
        0 <= size_sum(s.take(i)) <= size_sum(s),
    decreases s.len() - i,
{
    if i == s.len() {
        assert(s.take(i) =~= s);
        lemma_size_sum_nonneg(s);
    } else {
        assert(s.take(i + 1).drop_last() =~= s.take(i));
        assert(s.take(i + 1).last() == s[i]);
        lemma_size_sum_prefix(s, i + 1);
        lemma_size_sum_nonneg(s.take(i));
    }
}

proof fn lemma_size_sum_nonneg(s: Seq<BookOrder>)
    ensures
        size_sum(s) >= 0,
    decreases s.len(),
{
    if s.len() > 0 {
        lemma_size_sum_nonneg(s.drop_last());
    }
}

/// Exposure terms are nonnegative.
proof fn lemma_exposure_term_nonneg(o: BookOrder)
    ensures
        exposure_term(o) >= 0,
{
    if o.price.raw >= 0 {
        assert((o.price.raw * o.size.raw + (FIXED_SCALAR as int) / 2) / (FIXED_SCALAR as int)
            >= 0) by (nonlinear_arith)
            requires
                o.price.raw >= 0,
                o.size.raw >= 0,
        ;
    }
}

proof fn lemma_exposure_sum_nonneg(s: Seq<BookOrder>)
    ensures
        exposure_sum(s) >= 0,
    decreases s.len(),
{
    if s.len() > 0 {
        lemma_exposure_sum_nonneg(s.drop_last());
        lemma_exposure_term_nonneg(s.last());
    }
}

/// Exposure totals are sums of nonnegative terms: every prefix total is
/// between zero and the whole total.
proof fn lemma_exposure_sum_prefix(s: Seq<BookOrder>, i: int)
    requires
        0 <= i <= s.len(),
    ensures
        0 <= exposure_sum(s.take(i)) <= exposure_sum(s),
    decreases s.len() - i,
{
    if i == s.len() {
        assert(s.take(i) =~= s);
        lemma_exposure_sum_nonneg(s);
    } else {
        assert(s.take(i + 1).drop_last() =~= s.take(i));
        assert(s.take(i + 1).last() == s[i]);
        lemma_exposure_term_nonneg(s[i]);
        lemma_exposure_sum_prefix(s, i + 1);
        lemma_exposure_sum_nonneg(s.take(i));
    }
}

/// The first position in `os` whose order's price differs from `lvl`, or `-1`
/// when every order matches.
pub open spec fn first_price_mismatch(os: Seq<BookOrder>, lvl: i64) -> int
    decreases os.len(),
{
    if os.len() == 0 {
        -1
    } else if os[0].price.raw != lvl {
        0
    } else {
        let r = first_price_mismatch(os.drop_first(), lvl);
        if r == -1 {
            -1
        } else {
            r + 1
        }
    }
}

/// When every order before `i` matches `lvl` and the order at `i` does not,
/// `i` is the first mismatch.
proof fn lemma_first_price_mismatch(os: Seq<BookOrder>, lvl: i64, i: int)
    requires
        0 <= i < os.len(),
        forall|j: int| 0 <= j < i ==> (#[trigger] os[j]).price.raw == lvl,
        os[i].price.raw != lvl,
    ensures
        first_price_mismatch(os, lvl) == i,
    decreases i,
{
    if i == 0 {
    } else {
        assert(os.drop_first()[i - 1] == os[i]);
        assert forall|j: int| 0 <= j < i - 1 implies (#[trigger] os.drop_first()[j]).price.raw
            == lvl by {
            assert(os.drop_first()[j] == os[j + 1]);
        }
        lemma_first_price_mismatch(os.drop_first(), lvl, i - 1);
    }
}

/// After a compaction nothing changes when every id is live.
proof fn lemma_live_ids_all(ids: Seq<u64>, m: Map<u64, BookOrder>)
    requires
        forall|i: int| 0 <= i < ids.len() ==> m.contains_key(#[trigger] ids[i]),
    ensures
        live_ids(ids, m) == ids,
    decreases ids.len(),
{
    if ids.len() > 0 {
        lemma_live_ids_all(ids.drop_last(), m);
        assert(ids.drop_last().push(ids.last()) =~= ids);
    }
}

/// Removing an id from the map and then compacting the arrival order removes
/// exactly that order from the FIFO view, keeping the rest in order.
proof fn lemma_remove_then_compact(ids: Seq<u64>, m: Map<u64, BookOrder>, id: u64)
    requires
        ids.no_duplicates(),
        forall|i: int| 0 <= i < ids.len() ==> m.contains_key(#[trigger] ids[i]),
        forall|k: u64| #[trigger] m.contains_key(k) ==> m[k].order_id == k,
    ensures
        ({
            let m2 = m.remove(id);
            let ids2 = live_ids(ids, m2);
            &&& ids2.no_duplicates()
            &&& forall|i: int| 0 <= i < ids2.len() ==> m2.contains_key(#[trigger] ids2[i])
            &&& forall|i: int| 0 <= i < ids2.len() ==> ids.contains(#[trigger] ids2[i])
            &&& forall|k: u64| ids.contains(k) && #[trigger] m2.contains_key(k) ==> ids2.contains(
                k,
            )
            &&& ids2.map_values(|x: u64| m.remove(id)[x]) == fifo_remove(
                ids.map_values(|x: u64| m[x]),
                id,
            )
        }),
    decreases ids.len(),
{
    let m2 = m.remove(id);
    let ids2 = live_ids(ids, m2);
    if ids.len() == 0 {
        assert(ids2.map_values(|x: u64| m.remove(id)[x]) =~= fifo_remove(
            ids.map_values(|x: u64| m[x]),
            id,
        ));
    } else {
        let rest = ids.drop_last();
        let last = ids.last();
        lemma_remove_then_compact(rest, m, id);
        let r2 = live_ids(rest, m2);
        let s = ids.map_values(|x: u64| m[x]);
        assert(s.drop_last() =~= rest.map_values(|x: u64| m[x]));
        assert(s.last() == m[last]);
        assert(m.contains_key(last));
        assert(m[last].order_id == last);
        // duplicate-freedom of the compacted order
        assert forall|i: int| 0 <= i < r2.len() implies rest.contains(#[trigger] r2[i]) by {}
        if m2.contains_key(last) {
            assert(ids2 == r2.push(last));
            assert(!r2.contains(last)) by {
                if r2.contains(last) {
                    let i = choose|i: int| 0 <= i < r2.len() && r2[i] == last;
                    assert(rest.contains(last));
                    let j = choose|j: int| 0 <= j < rest.len() && rest[j] == last;
                    assert(ids[j] == last && ids[ids.len() - 1] == last);
                }
            }
            assert(ids2.no_duplicates());
            assert forall|k: u64|
                ids.contains(k) && #[trigger] m2.contains_key(k) implies ids2.contains(k) by {
                let i = choose|i: int| 0 <= i < ids.len() && ids[i] == k;
                if i < ids.len() - 1 {
                    assert(rest[i] == k);
                    assert(rest.contains(k));
                    let j = choose|j: int| 0 <= j < r2.len() && r2[j] == k;
                    assert(ids2[j] == k);
                } else {
                    assert(ids2[ids2.len() - 1] == k);
                }
            }
            assert(last != id);
            assert(m2[last] == m[last]);
            assert(ids2.map_values(|x: u64| m.remove(id)[x]) =~= r2.map_values(
                |x: u64| m.remove(id)[x],
            ).push(m[last]));
            assert(fifo_remove(s, id) == fifo_remove(s.drop_last(), id).push(s.last()));
        } else {
            assert(last == id);
            assert(ids2 == r2);
            assert forall|k: u64|
                ids.contains(k) && #[trigger] m2.contains_key(k) implies ids2.contains(k) by {
                let i = choose|i: int| 0 <= i < ids.len() && ids[i] == k;
                if i < ids.len() - 1 {
                    assert(rest[i] == k);
                    assert(rest.contains(k));
                } else {
                    assert(k == last);
                }
            }
            assert(fifo_remove(s, id) == fifo_remove(s.drop_last(), id));
        }
    }
}

/// The state change a delete makes: the map loses the id, the arrival order
/// is compacted against it, and the FIFO view loses exactly that order.
proof fn lemma_delete_post(pre: BookLevel, post: BookLevel, id: u64)
    requires
        pre.wf(),
        post.price == pre.price,
        post.orders@ == pre.orders@.remove(id),
        post.insertion_order@ == live_ids(pre.insertion_order@, pre.orders@.remove(id)),
    ensures
        post.wf(),
        post.oseq() == fifo_remove(pre.oseq(), id),
        !post.contains_id(id),
{
    let ids = pre.insertion_order@;
    let m = pre.orders@;
    let m2 = m.remove(id);
    let ids2 = live_ids(ids, m2);
    lemma_remove_then_compact(ids, m, id);
    assert forall|k: u64| #[trigger] m2.contains_key(k) implies ids2.contains(k) by {
        assert(m.contains_key(k));
        assert(ids.contains(k));
    }
    assert(post.wf());
    assert(post.oseq() =~= ids2.map_values(|x: u64| m.remove(id)[x]));
    assert(pre.oseq() =~= ids.map_values(|x: u64| m[x]));
}

} // verus!
