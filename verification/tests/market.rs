use binance::model::{AccountInformation, Balance};
use market_replay::book::{DepthDelta, OrderBook, PriceLevel};
use market_replay::collection::OrderBookCollection;
use market_replay::error::ReplayError;
use market_replay::event::{Event, EventType, StreamError};
use market_replay::market::{fold_tick, Holdings, Market, OrderBundle};
use market_replay::reader::EventIterator;
use market_replay::symbol_map::SymbolMap;

fn mk_level(price: u64, quantity: u64) -> PriceLevel {
    PriceLevel::new(price, quantity)
}

fn mk_book(bids: Vec<PriceLevel>, asks: Vec<PriceLevel>) -> OrderBook {
    OrderBook::new(0, bids, asks).expect("sorted sides")
}

fn mk_snapshot(symbol: &str, time: u64, best_ask: u64) -> Event {
    Event::new(
        symbol.to_string(),
        time,
        EventType::FullOrderBook(mk_book(vec![], vec![mk_level(best_ask, 1), mk_level(best_ask + 10, 1)])),
    )
}

fn mk_delta(symbol: &str, time: u64, asks: Vec<PriceLevel>) -> Event {
    Event::new(symbol.to_string(), time, EventType::PartialOrderBook(DepthDelta::new(vec![], asks)))
}

fn mk_account(time: u64) -> Event {
    let account = AccountInformation {
        maker_commission: 0.0,
        taker_commission: 0.0,
        buyer_commission: 0.0,
        seller_commission: 0.0,
        can_trade: true,
        can_withdraw: true,
        can_deposit: true,
        balances: vec![Balance { asset: "BTC".to_string(), free: "1".to_string(), locked: "0".to_string() }],
    };
    Event::new("account".to_string(), time, EventType::AccountInformation(account))
}

fn mk_books(entries: Vec<(&str, OrderBook)>) -> OrderBookCollection {
    let mut books = OrderBookCollection::new();
    for (symbol, book) in entries {
        books.insert(symbol.to_string(), book);
    }
    books
}

fn mk_name(name: &str) -> String {
    name.to_string()
}

#[test]
fn new_cash_holds_cash_only() {
    let holdings = Holdings::new_cash(1000);
    assert_eq!(holdings.cash(), 1000);
    assert_eq!(holdings.len(), 1);
    assert_eq!(holdings.asset_at(0), "USD");
    assert_eq!(holdings.amount_at(0), 1000);
    assert_eq!(holdings.get(&mk_name("USD")), Some(1000));
    assert_eq!(holdings.get(&mk_name("BTCUSDT")), None);
    assert_eq!(holdings.amount(&mk_name("BTCUSDT")), 0);
}

#[test]
fn buy_beyond_the_cash_is_clipped() {
    let books = mk_books(vec![("BTCUSDT", mk_book(vec![mk_level(190, 1)], vec![mk_level(200, 1), mk_level(210, 1)]))]);
    let mut holdings = Holdings::new_cash(1000);
    assert_eq!(holdings.settle(&books, &mk_name("BTCUSDT"), 10), Ok(()));
    assert_eq!(holdings.amount(&mk_name("BTCUSDT")), 5);
    assert_eq!(holdings.cash(), 0);
}

#[test]
fn buy_within_the_cash_is_executed_in_full() {
    let books = mk_books(vec![("BTCUSDT", mk_book(vec![], vec![mk_level(200, 1)]))]);
    let mut holdings = Holdings::new_cash(1000);
    assert_eq!(holdings.settle(&books, &mk_name("BTCUSDT"), 3), Ok(()));
    assert_eq!(holdings.amount(&mk_name("BTCUSDT")), 3);
    assert_eq!(holdings.cash(), 400);
    assert_eq!(holdings.settle(&books, &mk_name("BTCUSDT"), 2), Ok(()));
    assert_eq!(holdings.amount(&mk_name("BTCUSDT")), 5);
    assert_eq!(holdings.cash(), 0);
}

#[test]
fn clipped_quantity_is_rounded_down() {
    let books = mk_books(vec![("BTCUSDT", mk_book(vec![], vec![mk_level(300, 1)]))]);
    let mut holdings = Holdings::new_cash(1000);
    assert_eq!(holdings.settle(&books, &mk_name("BTCUSDT"), 4), Ok(()));
    assert_eq!(holdings.amount(&mk_name("BTCUSDT")), 3);
    assert_eq!(holdings.cash(), 100);
}

#[test]
fn sale_is_priced_at_the_lowest_ask_and_may_go_short() {
    let books = mk_books(vec![("BTCUSDT", mk_book(vec![mk_level(150, 1)], vec![mk_level(200, 1)]))]);
    let mut holdings = Holdings::new_cash(1000);
    assert_eq!(holdings.settle(&books, &mk_name("BTCUSDT"), -2), Ok(()));
    assert_eq!(holdings.amount(&mk_name("BTCUSDT")), -2);
    assert_eq!(holdings.cash(), 1400);
}

#[test]
fn trade_in_unknown_symbol_fails_and_changes_nothing() {
    let books = mk_books(vec![("BTCUSDT", mk_book(vec![], vec![mk_level(200, 1)]))]);
    let mut holdings = Holdings::new_cash(1000);
    assert_eq!(holdings.settle(&books, &mk_name("ETHUSDT"), 1), Err(ReplayError::UnknownSymbol));
    assert_eq!(holdings.cash(), 1000);
    assert_eq!(holdings.len(), 1);
}

#[test]
fn trade_against_a_book_without_asks_fails() {
    let books = mk_books(vec![("BTCUSDT", mk_book(vec![mk_level(200, 1)], vec![]))]);
    let mut holdings = Holdings::new_cash(1000);
    assert_eq!(holdings.settle(&books, &mk_name("BTCUSDT"), 1), Err(ReplayError::NoAskPrice));
    assert_eq!(holdings.cash(), 1000);
}

#[test]
fn price_zero_is_free_while_the_cash_is_not_negative() {
    let books = mk_books(vec![("FREE", mk_book(vec![], vec![mk_level(0, 1)]))]);
    let mut holdings = Holdings::new_cash(0);
    assert_eq!(holdings.settle(&books, &mk_name("FREE"), 7), Ok(()));
    assert_eq!(holdings.amount(&mk_name("FREE")), 7);
    assert_eq!(holdings.cash(), 0);
}

#[test]
fn price_zero_with_negative_cash_fails() {
    let books = mk_books(vec![("FREE", mk_book(vec![], vec![mk_level(0, 1)]))]);
    let mut holdings = Holdings::new_cash(-1);
    assert_eq!(holdings.settle(&books, &mk_name("FREE"), 7), Err(ReplayError::ZeroPrice));
    assert_eq!(holdings.cash(), -1);
    assert_eq!(holdings.len(), 1);
}

#[test]
fn negative_cash_clips_towards_zero() {
    let books = mk_books(vec![("BTCUSDT", mk_book(vec![], vec![mk_level(3, 1)]))]);
    let mut holdings = Holdings::new_cash(-10);
    assert_eq!(holdings.settle(&books, &mk_name("BTCUSDT"), 1), Ok(()));
    assert_eq!(holdings.amount(&mk_name("BTCUSDT")), -3);
    assert_eq!(holdings.cash(), -1);
}

#[test]
fn balance_out_of_range_fails_and_changes_nothing() {
    let books = mk_books(vec![("BTCUSDT", mk_book(vec![], vec![mk_level(2, 1)]))]);
    let mut holdings = Holdings::new_cash(i128::MAX);
    assert_eq!(holdings.settle(&books, &mk_name("BTCUSDT"), -1), Err(ReplayError::Overflow));
    assert_eq!(holdings.cash(), i128::MAX);
    assert_eq!(holdings.len(), 1);
}

#[test]
fn bundle_is_settled_in_order_and_stops_at_a_failure() {
    let books = mk_books(vec![
        ("BTCUSDT", mk_book(vec![], vec![mk_level(200, 1)])),
        ("ETHUSDT", mk_book(vec![], vec![mk_level(50, 1)])),
    ]);
    let mut holdings = Holdings::new_cash(1000);
    let bundle: OrderBundle = vec![
        (mk_name("BTCUSDT"), 2),
        (mk_name("ETHUSDT"), 100),
        (mk_name("XRPUSDT"), 1),
        (mk_name("BTCUSDT"), -2),
    ];
    assert_eq!(holdings.execute(&books, &bundle), Err(ReplayError::UnknownSymbol));
    assert_eq!(holdings.amount(&mk_name("BTCUSDT")), 2);
    assert_eq!(holdings.amount(&mk_name("ETHUSDT")), 12);
    assert_eq!(holdings.cash(), 0);
    assert_eq!(holdings.asset_at(1), "BTCUSDT");
    assert_eq!(holdings.asset_at(2), "ETHUSDT");
}

#[test]
fn empty_bundle_changes_nothing() {
    let books = mk_books(vec![]);
    let mut holdings = Holdings::new_cash(5);
    assert_eq!(holdings.execute(&books, &vec![]), Ok(()));
    assert_eq!(holdings.cash(), 5);
}

#[test]
fn total_value_prices_every_holding_and_adds_the_cash() {
    let books = mk_books(vec![
        ("BTCUSDT", mk_book(vec![], vec![mk_level(200, 1)])),
        ("ETHUSDT", mk_book(vec![], vec![mk_level(50, 1)])),
    ]);
    let mut holdings = Holdings::new_cash(1000);
    holdings.settle(&books, &mk_name("BTCUSDT"), 2).expect("settled");
    holdings.settle(&books, &mk_name("ETHUSDT"), -4).expect("settled");
    assert_eq!(holdings.cash(), 800);
    let mut prices: SymbolMap<u64> = SymbolMap::new();
    prices.insert(mk_name("BTCUSDT"), 210);
    prices.insert(mk_name("ETHUSDT"), 40);
    assert_eq!(holdings.total_value(&prices), Some(2 * 210 - 4 * 40 + 800));
    let none: SymbolMap<u64> = SymbolMap::new();
    assert_eq!(holdings.total_value(&none), Some(800));
    assert_eq!(holdings.nonzero_count(), 3);
}

#[test]
fn total_value_out_of_range_is_none() {
    let holdings = Holdings::new_cash(i128::MAX);
    let mut prices: SymbolMap<u64> = SymbolMap::new();
    prices.insert(mk_name("USD"), 2);
    assert_eq!(holdings.total_value(&prices), None);
    prices.insert(mk_name("USD"), 0);
    assert_eq!(holdings.total_value(&prices), Some(i128::MAX));
    prices.insert(mk_name("USD"), 1);
    assert_eq!(holdings.total_value(&prices), None);
}

#[test]
fn cloned_holdings_hold_the_same() {
    let books = mk_books(vec![("BTCUSDT", mk_book(vec![], vec![mk_level(200, 1)]))]);
    let mut holdings = Holdings::new_cash(1000);
    holdings.settle(&books, &mk_name("BTCUSDT"), 2).expect("settled");
    let copy = holdings.clone();
    assert_eq!(copy.len(), 2);
    assert_eq!(copy.cash(), 600);
    assert_eq!(copy.amount(&mk_name("BTCUSDT")), 2);
    assert_eq!(copy.asset_at(0), "USD");
    assert_eq!(copy.asset_at(1), "BTCUSDT");
}

#[test]
fn fold_tick_replaces_books_and_refuses_other_payloads() {
    let mut books = OrderBookCollection::new();
    assert_eq!(fold_tick(&mut books, vec![mk_snapshot("A", 1, 10), mk_snapshot("B", 1, 20), mk_snapshot("A", 1, 30)]), Ok(()));
    assert_eq!(books.len(), 2);
    assert_eq!(books.get(&mk_name("A")).expect("known").lowest_ask(), Some(30));
    assert_eq!(books.get(&mk_name("B")).expect("known").lowest_ask(), Some(20));
    let refused = fold_tick(
        &mut books,
        vec![mk_snapshot("C", 2, 5), mk_delta("A", 2, vec![mk_level(1, 1)]), mk_snapshot("B", 2, 7)],
    );
    assert_eq!(refused, Err(ReplayError::UnexpectedPayload));
    assert_eq!(books.get(&mk_name("C")).expect("known").lowest_ask(), Some(5));
    assert_eq!(books.get(&mk_name("A")).expect("known").lowest_ask(), Some(30));
    assert_eq!(books.get(&mk_name("B")).expect("known").lowest_ask(), Some(20));
    assert_eq!(fold_tick(&mut books, vec![mk_account(3)]), Err(ReplayError::UnexpectedPayload));
    assert_eq!(fold_tick(&mut books, vec![]), Ok(()));
}

#[test]
fn backtest_clips_the_buy_to_the_cash() {
    let market = Market::new(EventIterator::new(vec![Ok(mk_snapshot("BTCUSDT", 1, 200))]), 1000);
    let outs = market.run(|_holdings: &Holdings, _books: &OrderBookCollection| -> OrderBundle {
        vec![("BTCUSDT".to_string(), 10)]
    });
    assert_eq!(outs.len(), 1);
    let (holdings, books) = outs[0].as_ref().expect("no failure");
    assert_eq!(holdings.amount(&mk_name("BTCUSDT")), 5);
    assert_eq!(holdings.cash(), 0);
    assert_eq!(books.get(&mk_name("BTCUSDT")).expect("known").lowest_ask(), Some(200));
}

#[test]
fn run_yields_one_state_per_tick() {
    let market = Market::new(
        EventIterator::new(vec![
            Ok(mk_delta("BTCUSDT", 1, vec![mk_level(90, 1)])),
            Ok(mk_snapshot("BTCUSDT", 2, 100)),
            Ok(mk_snapshot("ETHUSDT", 2, 10)),
            Ok(mk_delta("BTCUSDT", 3, vec![mk_level(100, 0)])),
            Ok(mk_delta("ETHUSDT", 4, vec![mk_level(5, 2)])),
        ]),
        1000,
    );
    let outs = market.run(|holdings: &Holdings, books: &OrderBookCollection| -> OrderBundle {
        if books.len() == 2 && holdings.amount(&"ETHUSDT".to_string()) == 0 {
            vec![("ETHUSDT".to_string(), 3)]
        } else {
            vec![("BTCUSDT".to_string(), 1)]
        }
    });
    assert_eq!(outs.len(), 3);
    let (first, first_books) = outs[0].as_ref().expect("no failure");
    assert_eq!(first_books.len(), 2);
    assert_eq!(first.amount(&mk_name("ETHUSDT")), 3);
    assert_eq!(first.cash(), 970);
    let (second, second_books) = outs[1].as_ref().expect("no failure");
    assert_eq!(second_books.get(&mk_name("BTCUSDT")).expect("known").lowest_ask(), Some(110));
    assert_eq!(second.amount(&mk_name("BTCUSDT")), 1);
    assert_eq!(second.cash(), 860);
    let (third, third_books) = outs[2].as_ref().expect("no failure");
    assert_eq!(third_books.get(&mk_name("ETHUSDT")).expect("known").lowest_ask(), Some(5));
    assert_eq!(third.amount(&mk_name("BTCUSDT")), 2);
    assert_eq!(third.amount(&mk_name("ETHUSDT")), 3);
    assert_eq!(third.cash(), 750);
}

#[test]
fn run_stops_at_the_first_failure() {
    let market = Market::new(
        EventIterator::new(vec![
            Ok(mk_snapshot("BTCUSDT", 1, 100)),
            Ok(mk_snapshot("BTCUSDT", 2, 100)),
            Ok(mk_snapshot("BTCUSDT", 3, 100)),
        ]),
        1000,
    );
    let outs = market.run(|holdings: &Holdings, _books: &OrderBookCollection| -> OrderBundle {
        if holdings.amount(&"BTCUSDT".to_string()) == 0 {
            vec![("BTCUSDT".to_string(), 1)]
        } else {
            vec![("DOGEUSDT".to_string(), 1)]
        }
    });
    assert_eq!(outs.len(), 2);
    assert!(outs[0].is_ok());
    assert_eq!(outs[1].as_ref().err(), Some(&ReplayError::UnknownSymbol));
}

#[test]
fn run_hands_on_a_failed_read() {
    let market = Market::new(
        EventIterator::new(vec![Ok(mk_snapshot("BTCUSDT", 1, 100)), Err(StreamError::Parse), Ok(mk_snapshot("BTCUSDT", 3, 100))]),
        1000,
    );
    let outs = market.run(|_holdings: &Holdings, _books: &OrderBookCollection| -> OrderBundle { vec![] });
    assert_eq!(outs.len(), 2);
    assert!(outs[0].is_ok());
    assert_eq!(outs[1].as_ref().err(), Some(&ReplayError::Stream(StreamError::Parse)));
}

#[test]
fn run_refuses_account_events() {
    let market = Market::new(EventIterator::new(vec![Ok(mk_snapshot("BTCUSDT", 1, 100)), Ok(mk_account(2))]), 1000);
    let outs = market.run(|_holdings: &Holdings, _books: &OrderBookCollection| -> OrderBundle { vec![] });
    assert_eq!(outs.len(), 2);
    assert_eq!(outs[1].as_ref().err(), Some(&ReplayError::UnexpectedPayload));
}

#[test]
fn run_over_nothing_yields_nothing() {
    let market = Market::new(EventIterator::new(vec![]), 1000);
    let outs = market.run(|_holdings: &Holdings, _books: &OrderBookCollection| -> OrderBundle { vec![] });
    assert!(outs.is_empty());
}

#[test]
fn run_without_actions_yields_time_and_books() {
    let market = Market::new(
        EventIterator::new(vec![
            Ok(mk_snapshot("BTCUSDT", 5, 100)),
            Ok(mk_snapshot("ETHUSDT", 5, 10)),
            Ok(mk_delta("BTCUSDT", 7, vec![mk_level(95, 1)])),
        ]),
        1000,
    );
    let outs = market.run_without_actions();
    assert_eq!(outs.len(), 2);
    let (time, books) = outs[0].as_ref().expect("no failure");
    assert_eq!(*time, 5);
    assert_eq!(books.len(), 2);
    assert_eq!(books.get(&mk_name("BTCUSDT")).expect("known").lowest_ask(), Some(100));
    let (time, books) = outs[1].as_ref().expect("no failure");
    assert_eq!(*time, 7);
    assert_eq!(books.get(&mk_name("BTCUSDT")).expect("known").lowest_ask(), Some(95));
    assert_eq!(books.get(&mk_name("ETHUSDT")).expect("known").lowest_ask(), Some(10));
}

#[test]
fn run_without_actions_stops_at_a_failure() {
    let market = Market::new(
        EventIterator::new(vec![Ok(mk_snapshot("BTCUSDT", 5, 100)), Err(StreamError::Io), Ok(mk_snapshot("BTCUSDT", 6, 1))]),
        1000,
    );
    let outs = market.run_without_actions();
    assert_eq!(outs.len(), 2);
    assert!(outs[0].is_ok());
    assert_eq!(outs[1].as_ref().err(), Some(&ReplayError::Stream(StreamError::Io)));
}

#[test]
fn step_and_observe_take_ticks_from_outside() {
    let mut market = Market::new(EventIterator::new(vec![]), 1000);
    assert_eq!(market.observe(vec![mk_snapshot("BTCUSDT", 1, 100)]), Ok(()));
    assert_eq!(market.holdings.cash(), 1000);
    let strategy = |_holdings: &Holdings, _books: &OrderBookCollection| -> OrderBundle {
        vec![("BTCUSDT".to_string(), 4)]
    };
    assert_eq!(market.step(vec![mk_snapshot("BTCUSDT", 2, 50)], &strategy), Ok(()));
    assert_eq!(market.holdings.cash(), 800);
    assert_eq!(market.holdings.amount(&mk_name("BTCUSDT")), 4);
    assert_eq!(market.order_books().get(&mk_name("BTCUSDT")).expect("known").lowest_ask(), Some(50));
    assert_eq!(
        market.step(vec![mk_delta("BTCUSDT", 3, vec![])], &strategy),
        Err(ReplayError::UnexpectedPayload)
    );
    assert_eq!(market.holdings.cash(), 800);
    assert!(market.next(&strategy).is_none());
    assert!(market.next_without_actions().is_none());
}

#[test]
fn strategy_sees_the_holdings_and_the_books_of_the_tick() {
    let market = Market::new(
        EventIterator::new(vec![Ok(mk_snapshot("BTCUSDT", 1, 100)), Ok(mk_snapshot("ETHUSDT", 1, 10))]),
        77,
    );
    let outs = market.run(|holdings: &Holdings, books: &OrderBookCollection| -> OrderBundle {
        assert_eq!(holdings.cash(), 77);
        assert_eq!(books.len(), 2);
        assert_eq!(books.symbol_at(0), "BTCUSDT");
        assert_eq!(books.symbol_at(1), "ETHUSDT");
        assert_eq!(books.book_at(1).lowest_ask(), Some(10));
        vec![]
    });
    assert_eq!(outs.len(), 1);
}

#[test]
fn pull_without_actions_leaves_the_books_of_the_tick() {
    let mut market = Market::new(
        EventIterator::new(vec![Ok(mk_snapshot("B", 1, 20)), Ok(mk_snapshot("A", 1, 10)), Err(StreamError::Io)]),
        50,
    );
    let (time, books) = market.next_without_actions().expect("an item").expect("no failure");
    assert_eq!(time, 1);
    assert_eq!(books.len(), 2);
    assert_eq!(market.order_books().len(), 2);
    assert_eq!(market.order_books().symbol_at(0), "B");
    assert_eq!(market.order_books().symbol_at(1), "A");
    assert_eq!(market.holdings.cash(), 50);
    assert!(market.next_without_actions().expect("an item").is_err());
    assert_eq!(market.order_books().len(), 2);
    assert!(market.next_without_actions().is_none());
    assert_eq!(market.order_books().len(), 2);
}

#[test]
fn strategy_sees_assets_and_symbols_in_their_order() {
    let market = Market::new(
        EventIterator::new(vec![
            Ok(mk_snapshot("B", 1, 20)),
            Ok(mk_snapshot("A", 1, 10)),
            Ok(mk_snapshot("A", 2, 10)),
        ]),
        1000,
    );
    let outs = market.run(|holdings: &Holdings, books: &OrderBookCollection| -> OrderBundle {
        assert_eq!(books.symbol_at(0), "B");
        assert_eq!(books.symbol_at(1), "A");
        assert_eq!(holdings.asset_at(0), "USD");
        if holdings.len() == 1 {
            vec![("A".to_string(), 1), ("B".to_string(), 1)]
        } else {
            assert_eq!(holdings.asset_at(1), "A");
            assert_eq!(holdings.asset_at(2), "B");
            vec![]
        }
    });
    assert_eq!(outs.len(), 2);
    let (holdings, books) = outs[1].as_ref().expect("no failure");
    assert_eq!(holdings.asset_at(1), "A");
    assert_eq!(holdings.asset_at(2), "B");
    assert_eq!(books.symbol_at(0), "B");
    assert_eq!(holdings.cash(), 970);
}
