use rust_decimal::Decimal;
use trading_core::level::BookLevel;
use trading_core::types::{BookIntegrityError, BookOrder, BookPrice, OrderSide, Price, Quantity};
use trading_core::FIXED_SCALAR;

fn price(units: i64) -> Price {
    Price::from_raw(units * FIXED_SCALAR as i64)
}

fn qty(units: u64) -> Quantity {
    Quantity::from_raw(units * FIXED_SCALAR)
}

fn size_f64(level: &BookLevel) -> f64 {
    level.size_raw() as f64 / FIXED_SCALAR as f64
}

fn exposure_f64(level: &BookLevel) -> f64 {
    level.exposure_raw() as f64 / FIXED_SCALAR as f64
}

#[test]
fn test_empty_level() {
    let level = BookLevel::new(BookPrice::new(price(1), OrderSide::Buy));
    assert!(level.first().is_none());
    assert_eq!(level.len(), 0);
    assert!(level.is_empty());
}

#[test]
fn test_level_from_order() {
    let order = BookOrder::new(OrderSide::Buy, price(1), qty(10), 1);
    let level = BookLevel::from_order(order);

    assert_eq!(level.price.value, price(1));
    assert_eq!(level.price.side, OrderSide::Buy);
    assert_eq!(level.len(), 1);
    assert_eq!(level.first().unwrap(), &order);
    assert_eq!(size_f64(&level), 10.0);
}

#[test]
fn test_add_order_incorrect_price_level() {
    let mut level = BookLevel::new(BookPrice::new(price(1), OrderSide::Buy));
    let incorrect_price_order = BookOrder::new(OrderSide::Buy, price(2), qty(10), 1);
    let result = level.add(incorrect_price_order);
    assert_eq!(
        result,
        Err(BookIntegrityError::PriceMismatch(
            FIXED_SCALAR as i64,
            2 * FIXED_SCALAR as i64
        ))
    );
    assert_eq!(level.len(), 0);
}

#[test]
fn test_add_bulk_orders_incorrect_price() {
    let mut level = BookLevel::new(BookPrice::new(price(1), OrderSide::Buy));
    let orders = vec![
        BookOrder::new(OrderSide::Buy, price(1), qty(10), 1),
        BookOrder::new(OrderSide::Buy, price(2), qty(20), 2),
    ];
    let result = level.add_bulk(orders);
    assert_eq!(
        result,
        Err(BookIntegrityError::PriceMismatch(
            FIXED_SCALAR as i64,
            2 * FIXED_SCALAR as i64
        ))
    );
    assert_eq!(level.len(), 0);
}

#[test]
fn test_comparisons_bid_side() {
    let level0 = BookLevel::new(BookPrice::new(Price::from_raw(1_000_000_000), OrderSide::Buy));
    let level1 = BookLevel::new(BookPrice::new(Price::from_raw(1_010_000_000), OrderSide::Buy));
    assert!(level0 == level0);
    assert!(level0 > level1);
}

#[test]
fn test_comparisons_ask_side() {
    let level0 = BookLevel::new(BookPrice::new(Price::from_raw(1_000_000_000), OrderSide::Sell));
    let level1 = BookLevel::new(BookPrice::new(Price::from_raw(1_010_000_000), OrderSide::Sell));
    assert!(level0 == level0);
    assert!(level0 < level1);
}

#[test]
fn test_add_single_order() {
    let mut level = BookLevel::new(BookPrice::new(price(1), OrderSide::Buy));
    let order = BookOrder::new(OrderSide::Buy, price(1), qty(10), 0);

    level.add(order).unwrap();
    assert!(!level.is_empty());
    assert_eq!(level.len(), 1);
    assert_eq!(size_f64(&level), 10.0);
    assert_eq!(level.first().unwrap(), &order);
}

#[test]
fn test_add_multiple_orders() {
    let mut level = BookLevel::new(BookPrice::new(price(2), OrderSide::Buy));
    let order1 = BookOrder::new(OrderSide::Buy, price(2), qty(10), 0);
    let order2 = BookOrder::new(OrderSide::Buy, price(2), qty(20), 1);

    level.add(order1).unwrap();
    level.add(order2).unwrap();
    assert_eq!(level.len(), 2);
    assert_eq!(size_f64(&level), 30.0);
    assert_eq!(exposure_f64(&level), 60.0);
    assert_eq!(level.first().unwrap(), &order1);
}

#[test]
fn test_get_orders() {
    let mut level = BookLevel::new(BookPrice::new(price(1), OrderSide::Buy));
    let order1 = BookOrder::new(OrderSide::Buy, price(1), qty(10), 1);
    let order2 = BookOrder::new(OrderSide::Buy, price(1), qty(20), 2);

    level.add(order1).unwrap();
    level.add(order2).unwrap();

    let orders = level.get_orders();
    assert_eq!(orders.len(), 2);
    assert_eq!(orders[0], order1);
    assert_eq!(orders[1], order2);
}

#[test]
fn test_update_order() {
    let mut level = BookLevel::new(BookPrice::new(price(1), OrderSide::Buy));
    let order1 = BookOrder::new(OrderSide::Buy, price(1), qty(10), 0);
    let order2 = BookOrder::new(OrderSide::Buy, price(1), qty(20), 0);

    level.add(order1).unwrap();
    level.update(order2).unwrap();
    assert_eq!(level.len(), 1);
    assert_eq!(size_f64(&level), 20.0);
    assert_eq!(exposure_f64(&level), 20.0);
}

#[test]
fn test_fifo_order_after_updates() {
    let mut level = BookLevel::new(BookPrice::new(price(1), OrderSide::Buy));

    let order1 = BookOrder::new(OrderSide::Buy, price(1), qty(10), 1);
    let order2 = BookOrder::new(OrderSide::Buy, price(1), qty(20), 2);

    level.add(order1).unwrap();
    level.add(order2).unwrap();

    let updated_order1 = BookOrder::new(OrderSide::Buy, price(1), qty(15), 1);
    level.update(updated_order1).unwrap();

    let orders = level.get_orders();
    assert_eq!(orders.len(), 2);
    assert_eq!(orders[0], updated_order1);
    assert_eq!(orders[1], order2);
}

#[test]
fn test_update_order_incorrect_price() {
    let mut level = BookLevel::new(BookPrice::new(price(1), OrderSide::Buy));

    let initial_order = BookOrder::new(OrderSide::Buy, price(1), qty(10), 1);
    level.add(initial_order).unwrap();

    let updated_order = BookOrder::new(OrderSide::Buy, price(2), qty(20), 1);
    let result = level.update(updated_order);
    assert_eq!(
        result,
        Err(BookIntegrityError::PriceMismatch(
            FIXED_SCALAR as i64,
            2 * FIXED_SCALAR as i64
        ))
    );
    assert_eq!(level.len(), 1);
    assert_eq!(level.get_orders()[0], initial_order);
}

#[test]
fn test_update_order_with_zero_size() {
    let mut level = BookLevel::new(BookPrice::new(price(1), OrderSide::Buy));
    let order1 = BookOrder::new(OrderSide::Buy, price(1), qty(10), 0);
    let order2 = BookOrder::new(OrderSide::Buy, price(1), Quantity::from_raw(0), 0);

    level.add(order1).unwrap();
    level.update(order2).unwrap();
    assert_eq!(level.len(), 0);
    assert_eq!(size_f64(&level), 0.0);
    assert_eq!(exposure_f64(&level), 0.0);
}

#[test]
fn test_update_zero_size_matches_delete() {
    let order1 = BookOrder::new(OrderSide::Buy, price(1), qty(10), 0);
    let order2 = BookOrder::new(OrderSide::Buy, price(1), qty(20), 1);

    let mut updated = BookLevel::new(BookPrice::new(price(1), OrderSide::Buy));
    updated.add(order1).unwrap();
    updated.add(order2).unwrap();
    updated
        .update(BookOrder::new(OrderSide::Buy, price(1), Quantity::from_raw(0), 0))
        .unwrap();

    let mut deleted = BookLevel::new(BookPrice::new(price(1), OrderSide::Buy));
    deleted.add(order1).unwrap();
    deleted.add(order2).unwrap();
    deleted.delete(&order1);

    assert_eq!(updated.get_orders(), deleted.get_orders());
    assert_eq!(updated.len(), deleted.len());
    assert_eq!(updated.size_raw(), deleted.size_raw());
}

#[test]
fn test_delete_order() {
    let mut level = BookLevel::new(BookPrice::new(price(1), OrderSide::Buy));
    let order1_id: u64 = 0;
    let order1 = BookOrder::new(OrderSide::Buy, price(1), qty(10), order1_id);
    let order2_id: u64 = 1;
    let order2 = BookOrder::new(OrderSide::Buy, price(1), qty(20), order2_id);

    level.add(order1).unwrap();
    level.add(order2).unwrap();
    level.delete(&order1);
    assert_eq!(level.len(), 1);
    assert_eq!(size_f64(&level), 20.0);
    assert!(level.orders.contains_key(&order2_id));
    assert_eq!(exposure_f64(&level), 20.0);
}

#[test]
fn test_remove_order_by_id() {
    let mut level = BookLevel::new(BookPrice::new(price(1), OrderSide::Buy));
    let order1_id: u64 = 0;
    let order1 = BookOrder::new(OrderSide::Buy, price(1), qty(10), order1_id);
    let order2_id: u64 = 1;
    let order2 = BookOrder::new(OrderSide::Buy, price(1), qty(20), order2_id);

    level.add(order1).unwrap();
    level.add(order2).unwrap();
    level.remove_by_id(order2_id, 0, 0).unwrap();
    assert_eq!(level.len(), 1);
    assert!(level.orders.contains_key(&order1_id));
    assert_eq!(size_f64(&level), 10.0);
    assert_eq!(exposure_f64(&level), 10.0);
}

#[test]
fn test_add_bulk_orders() {
    let mut level = BookLevel::new(BookPrice::new(price(2), OrderSide::Buy));
    let order1_id: u64 = 0;
    let order1 = BookOrder::new(OrderSide::Buy, price(2), qty(10), order1_id);
    let order2_id: u64 = 1;
    let order2 = BookOrder::new(OrderSide::Buy, price(2), qty(20), order2_id);

    let orders = vec![order1, order2];
    level.add_bulk(orders).unwrap();
    assert_eq!(level.len(), 2);
    assert_eq!(size_f64(&level), 30.0);
    assert_eq!(exposure_f64(&level), 60.0);
    assert_eq!(level.first().unwrap().order_id, order1_id);
}

#[test]
fn test_maximum_order_id() {
    let mut level = BookLevel::new(BookPrice::new(price(1), OrderSide::Buy));

    let order = BookOrder::new(OrderSide::Buy, price(1), qty(10), u64::MAX);
    level.add(order).unwrap();

    assert_eq!(level.len(), 1);
    assert_eq!(level.first().unwrap(), &order);
}

#[test]
fn test_remove_nonexistent_order() {
    let mut level = BookLevel::new(BookPrice::new(price(1), OrderSide::Buy));
    let result = level.remove_by_id(1, 2, 3);
    assert_eq!(result, Err(BookIntegrityError::OrderNotFound(1, 2, 3)));
}

#[test]
fn test_size() {
    let mut level = BookLevel::new(BookPrice::new(price(1), OrderSide::Buy));
    let order1 = BookOrder::new(OrderSide::Buy, price(1), qty(10), 0);
    let order2 = BookOrder::new(OrderSide::Buy, price(1), qty(15), 1);

    level.add(order1).unwrap();
    level.add(order2).unwrap();
    assert_eq!(size_f64(&level), 25.0);
}

#[test]
fn test_size_raw() {
    let mut level = BookLevel::new(BookPrice::new(price(2), OrderSide::Buy));
    let order1 = BookOrder::new(OrderSide::Buy, price(2), qty(10), 0);
    let order2 = BookOrder::new(OrderSide::Buy, price(2), qty(20), 1);

    level.add(order1).unwrap();
    level.add(order2).unwrap();
    assert_eq!(level.size_raw(), (30.0 * FIXED_SCALAR as f64).round() as u64);
}

#[test]
fn test_size_decimal() {
    let mut level = BookLevel::new(BookPrice::new(price(2), OrderSide::Buy));
    let order1 = BookOrder::new(OrderSide::Buy, price(2), qty(10), 0);
    let order2 = BookOrder::new(OrderSide::Buy, price(2), qty(20), 1);

    level.add(order1).unwrap();
    level.add(order2).unwrap();
    assert_eq!(level.size_decimal(), Decimal::from(30u64));
}

#[test]
fn test_exposure() {
    let mut level = BookLevel::new(BookPrice::new(price(2), OrderSide::Buy));
    let order1 = BookOrder::new(OrderSide::Buy, price(2), qty(10), 0);
    let order2 = BookOrder::new(OrderSide::Buy, price(2), qty(20), 1);

    level.add(order1).unwrap();
    level.add(order2).unwrap();
    assert_eq!(exposure_f64(&level), 60.0);
}

#[test]
fn test_exposure_raw() {
    let mut level = BookLevel::new(BookPrice::new(price(2), OrderSide::Buy));
    let order1 = BookOrder::new(OrderSide::Buy, price(2), qty(10), 0);
    let order2 = BookOrder::new(OrderSide::Buy, price(2), qty(20), 1);

    level.add(order1).unwrap();
    level.add(order2).unwrap();
    assert_eq!(
        level.exposure_raw(),
        (60.0 * FIXED_SCALAR as f64).round() as u64
    );
}

#[test]
fn test_exposure_raw_rounds_per_order() {
    // orders of 1.5 units at price 0.0000000015: each raw exposure rounds on
    // its own before the sum is taken
    let mut level = BookLevel::new(BookPrice::new(Price::from_raw(1), OrderSide::Buy));
    let order1 = BookOrder::new(OrderSide::Buy, Price::from_raw(1), Quantity::from_raw(1_500_000_000), 0);
    let order2 = BookOrder::new(OrderSide::Buy, Price::from_raw(1), Quantity::from_raw(1_500_000_000), 1);

    level.add(order1).unwrap();
    level.add(order2).unwrap();
    // each order: (1 * 1_500_000_000 + 500_000_000) / 1_000_000_000 = 2
    assert_eq!(level.exposure_raw(), 4);
}

#[test]
fn test_try_totals_match_raw_totals() {
    let mut level = BookLevel::new(BookPrice::new(price(2), OrderSide::Buy));
    level.add(BookOrder::new(OrderSide::Buy, price(2), qty(10), 0)).unwrap();
    level.add(BookOrder::new(OrderSide::Buy, price(2), qty(20), 1)).unwrap();
    assert_eq!(level.try_size_raw(), Some(level.size_raw()));
    assert_eq!(level.try_exposure_raw(), Some(level.exposure_raw()));
}

#[test]
fn test_try_size_raw_overflow() {
    let mut level = BookLevel::new(BookPrice::new(price(1), OrderSide::Buy));
    level
        .add(BookOrder::new(OrderSide::Buy, price(1), Quantity::from_raw(u64::MAX), 0))
        .unwrap();
    level
        .add(BookOrder::new(OrderSide::Buy, price(1), Quantity::from_raw(1), 1))
        .unwrap();
    assert_eq!(level.try_size_raw(), None);
}

#[test]
fn test_try_exposure_raw_overflow() {
    let big = Price::from_raw(i64::MAX);
    let mut level = BookLevel::new(BookPrice::new(big, OrderSide::Buy));
    level
        .add(BookOrder::new(OrderSide::Buy, big, Quantity::from_raw(u64::MAX), 0))
        .unwrap();
    assert_eq!(level.try_exposure_raw(), None);
}
