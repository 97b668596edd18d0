use binance::model::{AccountInformation, Balance, Order};
use market_replay::book::{DepthDelta, OrderBook, PriceLevel};
use market_replay::error::ReplayError;
use market_replay::event::{Event, EventType, StreamError};
use market_replay::reader::EventIterator;
use market_replay::world_builder::{World, WorldBuilder};

fn wb_book(best_ask: u64) -> OrderBook {
    OrderBook::new(0, vec![], vec![PriceLevel::new(best_ask, 1)]).expect("sorted")
}

fn wb_snapshot(symbol: &str, time: u64, best_ask: u64) -> Event {
    Event::new(symbol.to_string(), time, EventType::FullOrderBook(wb_book(best_ask)))
}

fn wb_delta(symbol: &str, time: u64, ask: u64) -> Event {
    Event::new(
        symbol.to_string(),
        time,
        EventType::PartialOrderBook(DepthDelta::new(vec![], vec![PriceLevel::new(ask, 1)])),
    )
}

fn wb_account(free: &str) -> AccountInformation {
    AccountInformation {
        maker_commission: 0.5,
        taker_commission: 0.25,
        buyer_commission: 0.0,
        seller_commission: 0.0,
        can_trade: true,
        can_withdraw: true,
        can_deposit: false,
        balances: vec![Balance { asset: "BTC".to_string(), free: free.to_string(), locked: "0".to_string() }],
    }
}

fn wb_order(id: u64) -> Order {
    let mut text = String::new();
    text.push_str(r#"{"symbol":"BTCUSDT","orderId":"#);
    text.push_str(&id.to_string());
    text.push_str(r#","orderListId":-1,"clientOrderId":"client","price":"10.5","origQty":"1","#);
    text.push_str(r#""executedQty":"0","cummulativeQuoteQty":"0","status":"NEW","timeInForce":"GTC","#);
    text.push_str(r#""type":"LIMIT","side":"BUY","stopPrice":"0.0","icebergQty":"0","time":1,"#);
    text.push_str(r#""updateTime":2,"isWorking":true,"origQuoteOrderQty":"0"}"#);
    serde_json::from_str(&text).expect("a valid order")
}

#[test]
fn new_world_knows_nothing() {
    let world = World::new();
    assert_eq!(world.order_books.len(), 0);
    assert!(world.account_information.is_none());
    assert!(world.open_orders.is_empty());
}

#[test]
fn world_updates_replace_what_was_known() {
    let mut world = World::new();
    world.update_order_book("BTCUSDT".to_string(), wb_book(10));
    world.update_order_book("BTCUSDT".to_string(), wb_book(12));
    world.update_account_information(wb_account("1"));
    world.update_account_information(wb_account("2"));
    world.update_open_orders(vec![wb_order(1), wb_order(2)]);
    world.update_open_orders(vec![wb_order(3)]);
    assert_eq!(world.order_books.len(), 1);
    assert_eq!(world.order_books.get(&"BTCUSDT".to_string()).expect("known").lowest_ask(), Some(12));
    assert_eq!(format!("{:?}", world.account_information), format!("{:?}", Some(wb_account("2"))));
    assert_eq!(format!("{:?}", world.open_orders), format!("{:?}", vec![wb_order(3)]));
}

#[test]
fn world_refuses_a_depth_update() {
    let mut world = World::new();
    world.update_order_book("BTCUSDT".to_string(), wb_book(10));
    assert_eq!(world.apply(wb_delta("BTCUSDT", 1, 5)), Err(ReplayError::UnexpectedPayload));
    assert_eq!(world.order_books.get(&"BTCUSDT".to_string()).expect("known").lowest_ask(), Some(10));
    assert_eq!(world.apply(wb_snapshot("BTCUSDT", 2, 7)), Ok(()));
    assert_eq!(world.order_books.get(&"BTCUSDT".to_string()).expect("known").lowest_ask(), Some(7));
}

#[test]
fn cloned_world_holds_the_same() {
    let mut world = World::new();
    world.update_order_book("BTCUSDT".to_string(), wb_book(10));
    world.update_order_book("ETHUSDT".to_string(), wb_book(3));
    world.update_account_information(wb_account("1.25"));
    world.update_open_orders(vec![wb_order(1), wb_order(2)]);
    let copy = world.clone();
    assert_eq!(copy.order_books.len(), 2);
    assert_eq!(copy.order_books.symbol_at(0), "BTCUSDT");
    assert_eq!(copy.order_books.symbol_at(1), "ETHUSDT");
    assert_eq!(copy.order_books.book_at(1).lowest_ask(), Some(3));
    assert_eq!(format!("{:?}", copy.account_information), format!("{:?}", world.account_information));
    assert_eq!(format!("{:?}", copy.open_orders), format!("{:?}", world.open_orders));
    assert_eq!(copy.open_orders.len(), 2);
    assert_eq!(copy.open_orders[1].order_id, 2);
    assert_eq!(copy.account_information.expect("known").balances[0].free, "1.25");
}

#[test]
fn builder_yields_a_world_for_every_reconciled_event() {
    let source = EventIterator::new(vec![
        Ok(wb_delta("BTCUSDT", 1, 9)),
        Ok(wb_snapshot("BTCUSDT", 2, 10)),
        Ok(Event::new("account".to_string(), 3, EventType::AccountInformation(wb_account("7")))),
        Ok(wb_delta("BTCUSDT", 4, 8)),
        Err(StreamError::Parse),
        Ok(Event::new("account".to_string(), 5, EventType::OpenOrders(vec![wb_order(4)]))),
    ]);
    let mut builder = WorldBuilder::new(source);
    let first = builder.next().expect("an item").expect("a world");
    assert_eq!(first.order_books.get(&"BTCUSDT".to_string()).expect("known").lowest_ask(), Some(10));
    assert!(first.account_information.is_none());
    let second = builder.next().expect("an item").expect("a world");
    assert_eq!(second.account_information.expect("known").balances[0].free, "7");
    let third = builder.next().expect("an item").expect("a world");
    assert_eq!(third.order_books.get(&"BTCUSDT".to_string()).expect("known").lowest_ask(), Some(8));
    assert_eq!(builder.next().expect("an item").err(), Some(ReplayError::Stream(StreamError::Parse)));
    let last = builder.next().expect("an item").expect("a world");
    assert_eq!(last.open_orders.len(), 1);
    assert_eq!(last.open_orders[0].order_id, 4);
    assert!(builder.next().is_none());
    assert_eq!(builder.current().open_orders.len(), 1);
}

#[test]
fn builder_takes_raw_events_from_outside() {
    let mut builder = WorldBuilder::new(EventIterator::new(vec![]));
    assert!(builder.apply(wb_delta("BTCUSDT", 1, 9)).is_none());
    let world = builder.apply(wb_snapshot("BTCUSDT", 2, 10)).expect("answered").expect("a world");
    assert_eq!(world.order_books.len(), 1);
    let world = builder.apply(wb_delta("BTCUSDT", 3, 9)).expect("answered").expect("a world");
    assert_eq!(world.order_books.get(&"BTCUSDT".to_string()).expect("known").lowest_ask(), Some(9));
    assert_eq!(builder.current().order_books.len(), 1);
}

#[test]
fn pulled_world_is_the_world_of_the_builder() {
    let source = EventIterator::new(vec![
        Ok(wb_snapshot("BTCUSDT", 1, 10)),
        Err(StreamError::Io),
        Ok(wb_snapshot("ETHUSDT", 2, 3)),
    ]);
    let mut builder = WorldBuilder::new(source);
    let first = builder.next().expect("an item").expect("a world");
    assert_eq!(first.order_books.len(), 1);
    assert_eq!(builder.current().order_books.len(), 1);
    assert_eq!(builder.current().order_books.get(&"BTCUSDT".to_string()).expect("known").lowest_ask(), Some(10));
    assert_eq!(builder.next().expect("an item").err(), Some(ReplayError::Stream(StreamError::Io)));
    assert_eq!(builder.current().order_books.len(), 1);
    assert_eq!(builder.current().order_books.get(&"BTCUSDT".to_string()).expect("known").lowest_ask(), Some(10));
    let second = builder.next().expect("an item").expect("a world");
    assert_eq!(second.order_books.len(), 2);
    assert_eq!(builder.current().order_books.len(), 2);
    assert!(builder.next().is_none());
    assert_eq!(builder.current().order_books.len(), 2);
    assert_eq!(builder.current().order_books.symbol_at(1), "ETHUSDT");
}
