use market_replay::book::{
    apply_change_to_side, is_sorted, update_full_order_book, DepthDelta, OrderBook, PriceLevel, Side,
};

fn book_level(price: u64, quantity: u64) -> PriceLevel {
    PriceLevel::new(price, quantity)
}

fn book_sample() -> OrderBook {
    OrderBook::new(
        7,
        vec![book_level(100, 5), book_level(99, 4), book_level(97, 1)],
        vec![book_level(101, 2), book_level(103, 6)],
    )
    .expect("sorted sides")
}

#[test]
fn new_book_keeps_its_levels() {
    let book = book_sample();
    assert_eq!(book.last_update_id(), 7);
    assert_eq!(book.bids(), &vec![book_level(100, 5), book_level(99, 4), book_level(97, 1)]);
    assert_eq!(book.asks(), &vec![book_level(101, 2), book_level(103, 6)]);
}

#[test]
fn new_book_refuses_unsorted_bids() {
    assert!(OrderBook::new(1, vec![book_level(99, 1), book_level(100, 1)], vec![]).is_none());
}

#[test]
fn new_book_refuses_unsorted_asks() {
    assert!(OrderBook::new(1, vec![], vec![book_level(103, 1), book_level(101, 1)]).is_none());
}

#[test]
fn new_book_refuses_duplicate_price() {
    assert!(OrderBook::new(1, vec![book_level(100, 1), book_level(100, 2)], vec![]).is_none());
    assert!(OrderBook::new(1, vec![], vec![book_level(101, 1), book_level(101, 2)]).is_none());
}

#[test]
fn empty_book_has_no_best_prices() {
    let book = OrderBook::empty();
    assert_eq!(book.lowest_ask(), None);
    assert_eq!(book.highest_bid(), None);
    assert!(book.bids().is_empty());
    assert!(book.asks().is_empty());
}

#[test]
fn best_prices_are_the_first_levels() {
    let book = book_sample();
    assert_eq!(book.lowest_ask(), Some(101));
    assert_eq!(book.highest_bid(), Some(100));
}

#[test]
fn is_sorted_tells_the_sides_apart() {
    let descending = vec![book_level(3, 1), book_level(2, 1), book_level(1, 1)];
    let ascending = vec![book_level(1, 1), book_level(2, 1), book_level(3, 1)];
    assert!(is_sorted(Side::Bid, &descending));
    assert!(!is_sorted(Side::Ask, &descending));
    assert!(is_sorted(Side::Ask, &ascending));
    assert!(!is_sorted(Side::Bid, &ascending));
    assert!(is_sorted(Side::Bid, &vec![]));
    assert!(is_sorted(Side::Ask, &vec![book_level(1, 1)]));
}

#[test]
fn delta_overwrites_quantity_of_known_price() {
    let mut book = book_sample();
    update_full_order_book(&mut book, &DepthDelta::new(vec![book_level(99, 40)], vec![book_level(103, 60)]));
    assert_eq!(book.bids(), &vec![book_level(100, 5), book_level(99, 40), book_level(97, 1)]);
    assert_eq!(book.asks(), &vec![book_level(101, 2), book_level(103, 60)]);
}

#[test]
fn zero_quantity_removes_exactly_that_level() {
    let mut book = book_sample();
    update_full_order_book(&mut book, &DepthDelta::new(vec![book_level(99, 0)], vec![book_level(101, 0)]));
    assert_eq!(book.bids(), &vec![book_level(100, 5), book_level(97, 1)]);
    assert_eq!(book.asks(), &vec![book_level(103, 6)]);
}

#[test]
fn zero_quantity_for_unknown_price_changes_nothing() {
    let mut book = book_sample();
    update_full_order_book(&mut book, &DepthDelta::new(vec![book_level(98, 0)], vec![book_level(102, 0)]));
    assert_eq!(book.bids(), book_sample().bids());
    assert_eq!(book.asks(), book_sample().asks());
}

#[test]
fn new_bid_is_inserted_in_descending_order() {
    let mut book = book_sample();
    update_full_order_book(&mut book, &DepthDelta::new(vec![book_level(98, 9)], vec![]));
    assert_eq!(
        book.bids(),
        &vec![book_level(100, 5), book_level(99, 4), book_level(98, 9), book_level(97, 1)]
    );
    update_full_order_book(&mut book, &DepthDelta::new(vec![book_level(105, 1), book_level(1, 1)], vec![]));
    assert_eq!(
        book.bids(),
        &vec![
            book_level(105, 1),
            book_level(100, 5),
            book_level(99, 4),
            book_level(98, 9),
            book_level(97, 1),
            book_level(1, 1)
        ]
    );
}

#[test]
fn new_ask_is_inserted_in_ascending_order() {
    let mut book = book_sample();
    update_full_order_book(&mut book, &DepthDelta::new(vec![], vec![book_level(102, 9)]));
    assert_eq!(book.asks(), &vec![book_level(101, 2), book_level(102, 9), book_level(103, 6)]);
    update_full_order_book(&mut book, &DepthDelta::new(vec![], vec![book_level(200, 1), book_level(50, 1)]));
    assert_eq!(
        book.asks(),
        &vec![
            book_level(50, 1),
            book_level(101, 2),
            book_level(102, 9),
            book_level(103, 6),
            book_level(200, 1)
        ]
    );
}

#[test]
fn changes_are_applied_in_the_order_given() {
    let mut book = book_sample();
    update_full_order_book(
        &mut book,
        &DepthDelta::new(vec![book_level(98, 3), book_level(98, 0), book_level(98, 8)], vec![]),
    );
    assert_eq!(
        book.bids(),
        &vec![book_level(100, 5), book_level(99, 4), book_level(98, 8), book_level(97, 1)]
    );
}

#[test]
fn delta_keeps_the_update_id() {
    let mut book = book_sample();
    update_full_order_book(&mut book, &DepthDelta::new(vec![book_level(98, 3)], vec![]));
    assert_eq!(book.last_update_id(), 7);
}

#[test]
fn sides_stay_sorted_after_many_deltas() {
    let mut book = OrderBook::empty();
    let mut seed: u64 = 12345;
    for _ in 0..200 {
        let mut bids = Vec::new();
        let mut asks = Vec::new();
        for _ in 0..5 {
            seed = seed.wrapping_mul(6364136223846793005).wrapping_add(1442695040888963407);
            let price = (seed >> 33) % 40;
            let quantity = (seed >> 20) % 3;
            bids.push(book_level(price, quantity));
            asks.push(book_level(100 + price, quantity));
        }
        update_full_order_book(&mut book, &DepthDelta::new(bids, asks));
        assert!(is_sorted(Side::Bid, book.bids()));
        assert!(is_sorted(Side::Ask, book.asks()));
        assert!(book.bids().iter().all(|level| level.quantity != 0));
        assert!(book.asks().iter().all(|level| level.quantity != 0));
    }
}

#[test]
fn one_change_to_one_side() {
    let mut bids = vec![book_level(10, 1), book_level(8, 1)];
    apply_change_to_side(Side::Bid, &mut bids, book_level(9, 4));
    assert_eq!(bids, vec![book_level(10, 1), book_level(9, 4), book_level(8, 1)]);
    apply_change_to_side(Side::Bid, &mut bids, book_level(10, 0));
    assert_eq!(bids, vec![book_level(9, 4), book_level(8, 1)]);
    let mut asks: Vec<PriceLevel> = vec![];
    apply_change_to_side(Side::Ask, &mut asks, book_level(9, 0));
    assert!(asks.is_empty());
    apply_change_to_side(Side::Ask, &mut asks, book_level(9, 2));
    assert_eq!(asks, vec![book_level(9, 2)]);
}

#[test]
fn cloned_book_holds_the_same_levels() {
    let book = book_sample();
    let copy = book.clone();
    assert_eq!(copy.bids(), book.bids());
    assert_eq!(copy.asks(), book.asks());
    assert_eq!(copy.last_update_id(), book.last_update_id());
}

#[test]
fn cloned_delta_holds_the_same_changes() {
    let delta = DepthDelta::new(vec![book_level(1, 2)], vec![book_level(3, 4), book_level(5, 0)]);
    let copy = delta.clone();
    assert_eq!(copy.bid_changes, delta.bid_changes);
    assert_eq!(copy.ask_changes, delta.ask_changes);
}
