use market_replay::book::{OrderBook, PriceLevel};
use market_replay::collection::OrderBookCollection;
use market_replay::market::Holdings;
use market_replay::utils::{lowest_asks, progress, Progress};

fn ut_book(asks: Vec<u64>) -> OrderBook {
    OrderBook::new(0, vec![], asks.into_iter().map(|price| PriceLevel::new(price, 1)).collect()).expect("sorted")
}

fn ut_books() -> OrderBookCollection {
    let mut books = OrderBookCollection::new();
    books.insert("BTCUSDT".to_string(), ut_book(vec![200, 210]));
    books.insert("EMPTY".to_string(), ut_book(vec![]));
    books.insert("ETHUSDT".to_string(), ut_book(vec![50]));
    books
}

#[test]
fn lowest_asks_lists_the_books_that_have_an_ask() {
    let prices = lowest_asks(&ut_books());
    assert_eq!(prices.len(), 2);
    assert_eq!(prices.get(&"BTCUSDT".to_string()), Some(&200));
    assert_eq!(prices.get(&"ETHUSDT".to_string()), Some(&50));
    assert_eq!(prices.get(&"EMPTY".to_string()), None);
}

#[test]
fn progress_counts_and_values_the_holdings() {
    let books = ut_books();
    let mut holdings = Holdings::new_cash(1000);
    holdings.settle(&books, &"BTCUSDT".to_string(), 2).expect("settled");
    holdings.settle(&books, &"ETHUSDT".to_string(), 4).expect("settled");
    assert_eq!(
        progress(&holdings, &books),
        Some(Progress { holdings: 2, symbols: 3, total_value: 1000, cash: 400 })
    );
}

#[test]
fn progress_of_cash_alone() {
    let books = OrderBookCollection::new();
    assert_eq!(
        progress(&Holdings::new_cash(5), &books),
        Some(Progress { holdings: 0, symbols: 0, total_value: 5, cash: 5 })
    );
    assert_eq!(
        progress(&Holdings::new_cash(0), &books),
        Some(Progress { holdings: 0, symbols: 0, total_value: 0, cash: 0 })
    );
}

#[test]
fn collection_clone_keeps_symbols_and_books() {
    let books = ut_books();
    let copy = books.clone();
    assert_eq!(copy.len(), 3);
    assert_eq!(copy.symbol_at(0), "BTCUSDT");
    assert_eq!(copy.symbol_at(1), "EMPTY");
    assert_eq!(copy.symbol_at(2), "ETHUSDT");
    assert_eq!(copy.book_at(0).asks(), books.book_at(0).asks());
    assert!(copy.contains_key(&"EMPTY".to_string()));
    assert!(!copy.contains_key(&"XRPUSDT".to_string()));
}
