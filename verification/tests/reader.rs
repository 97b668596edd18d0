use market_replay::book::{OrderBook, PriceLevel};
use market_replay::event::{Event, EventType, Snapshot, StreamError};
use market_replay::partial_transformer::PartialTransformer;
use market_replay::reader::{EventGrouper, EventIterator};

fn rd_event(symbol: &str, time: u64) -> Event {
    let book = OrderBook::new(0, vec![PriceLevel::new(10, 1)], vec![PriceLevel::new(11, 1)]).expect("sorted");
    Event::new(symbol.to_string(), time, EventType::FullOrderBook(book))
}

fn rd_grouper(items: Vec<Result<Event, StreamError>>) -> EventGrouper {
    EventGrouper::new(PartialTransformer::new(EventIterator::new(items)))
}

fn rd_symbols(tick: &[Event]) -> Vec<&str> {
    tick.iter().map(|ev| ev.symbol.as_str()).collect()
}

#[test]
fn event_iterator_yields_its_items_in_order() {
    let mut source = EventIterator::new(vec![Ok(rd_event("A", 1)), Err(StreamError::Parse), Ok(rd_event("B", 2))]);
    assert_eq!(source.len(), 3);
    assert_eq!(source.next().expect("an item").expect("an event").symbol, "A");
    assert_eq!(source.len(), 2);
    assert_eq!(source.next().expect("an item").err(), Some(StreamError::Parse));
    assert_eq!(source.next().expect("an item").expect("an event").symbol, "B");
    assert!(source.next().is_none());
    assert!(source.next().is_none());
    assert_eq!(source.len(), 0);
}

#[test]
fn empty_event_iterator_yields_nothing() {
    let mut source = EventIterator::new(vec![]);
    assert_eq!(source.len(), 0);
    assert!(source.next().is_none());
}

#[test]
fn events_of_one_time_form_one_tick() {
    let mut grouper = rd_grouper(vec![Ok(rd_event("X", 5)), Ok(rd_event("Y", 5)), Ok(rd_event("Z", 7))]);
    let first = grouper.next().expect("a tick").expect("no failure");
    assert_eq!(rd_symbols(&first), vec!["X", "Y"]);
    assert!(first.iter().all(|ev| ev.receive_time == 5));
    let second = grouper.next().expect("a tick").expect("no failure");
    assert_eq!(rd_symbols(&second), vec!["Z"]);
    assert_eq!(second[0].receive_time, 7);
    assert!(grouper.next().is_none());
    assert!(grouper.next().is_none());
}

#[test]
fn grouper_over_nothing_yields_nothing() {
    let mut grouper = rd_grouper(vec![]);
    assert!(grouper.next().is_none());
}

#[test]
fn every_change_of_time_closes_a_tick() {
    let mut grouper = rd_grouper(vec![
        Ok(rd_event("A", 1)),
        Ok(rd_event("B", 2)),
        Ok(rd_event("C", 2)),
        Ok(rd_event("D", 2)),
        Ok(rd_event("E", 3)),
        Ok(rd_event("F", 1)),
        Ok(rd_event("G", 1)),
    ]);
    let mut ticks = Vec::new();
    while let Some(tick) = grouper.next() {
        ticks.push(tick.expect("no failure").iter().map(|ev| ev.symbol.clone()).collect::<Vec<_>>());
    }
    assert_eq!(ticks, vec![vec!["A"], vec!["B", "C", "D"], vec!["E"], vec!["F", "G"]]);
}

#[test]
fn failed_read_closes_the_open_tick_and_follows_it() {
    let mut grouper = rd_grouper(vec![
        Ok(rd_event("A", 1)),
        Ok(rd_event("B", 1)),
        Err(StreamError::Parse),
        Ok(rd_event("C", 1)),
        Err(StreamError::Io),
        Err(StreamError::Parse),
    ]);
    assert_eq!(rd_symbols(&grouper.next().expect("a tick").expect("no failure")), vec!["A", "B"]);
    assert_eq!(grouper.next().expect("an item").err(), Some(StreamError::Parse));
    assert_eq!(rd_symbols(&grouper.next().expect("a tick").expect("no failure")), vec!["C"]);
    assert_eq!(grouper.next().expect("an item").err(), Some(StreamError::Io));
    assert_eq!(grouper.next().expect("an item").err(), Some(StreamError::Parse));
    assert!(grouper.next().is_none());
}

#[test]
fn pushed_events_close_ticks_when_the_time_changes() {
    let mut grouper = rd_grouper(vec![]);
    assert!(grouper.push(rd_event("X", 5)).is_none());
    assert!(grouper.push(rd_event("Y", 5)).is_none());
    let closed = grouper.push(rd_event("Z", 7)).expect("the tick at 5 is closed");
    assert_eq!(rd_symbols(&closed), vec!["X", "Y"]);
    let last = grouper.finish().expect("the tick at 7 is closed");
    assert_eq!(rd_symbols(&last), vec!["Z"]);
    assert!(grouper.finish().is_none());
}

#[test]
fn snapshot_keeps_its_events_in_order() {
    let mut snapshot = Snapshot::new();
    assert_eq!(snapshot.len(), 0);
    snapshot.add_event(rd_event("A", 1));
    snapshot.add_event(rd_event("B", 2));
    assert_eq!(snapshot.len(), 2);
    assert_eq!(rd_symbols(snapshot.events()), vec!["A", "B"]);
    let copy = snapshot.clone();
    assert_eq!(rd_symbols(copy.events()), vec!["A", "B"]);
    assert_eq!(copy.events()[1].receive_time, 2);
}

#[test]
fn pull_holds_back_one_event_of_the_next_tick() {
    let mut grouper = rd_grouper(vec![Ok(rd_event("X", 5)), Ok(rd_event("Y", 7)), Ok(rd_event("Z", 7))]);
    assert_eq!(rd_symbols(&grouper.next().expect("a tick").expect("no failure")), vec!["X"]);
    let held = grouper.finish().expect("the event held back");
    assert_eq!(rd_symbols(&held), vec!["Y"]);
    assert_eq!(rd_symbols(&grouper.next().expect("a tick").expect("no failure")), vec!["Z"]);
    assert!(grouper.finish().is_none());
    assert!(grouper.next().is_none());
}
