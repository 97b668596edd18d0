use market_replay::book::OrderBook;
use market_replay::event::{Event, EventType, StreamError};
use market_replay::interleave::{smallest_time_index, Lane, Multiplexer};
use market_replay::reader::EventIterator;

fn il_event(name: &str, time: u64) -> Event {
    Event::new(name.to_string(), time, EventType::FullOrderBook(OrderBook::empty()))
}

fn il_source(events: Vec<(&str, u64)>) -> EventIterator {
    EventIterator::new(events.into_iter().map(|(name, time)| Ok(il_event(name, time))).collect())
}

fn il_drain(multiplexer: &mut Multiplexer) -> Vec<String> {
    let mut names = Vec::new();
    while let Some(ev) = multiplexer.next() {
        names.push(ev.symbol);
    }
    names
}

#[test]
fn ties_go_to_the_source_that_comes_first() {
    let a = il_source(vec![("a1", 1), ("a2", 3)]);
    let b = il_source(vec![("b1", 1), ("b2", 2)]);
    let mut multiplexer = Multiplexer::new(vec![a, b]);
    assert_eq!(il_drain(&mut multiplexer), vec!["a1", "b1", "b2", "a2"]);
    assert!(multiplexer.next().is_none());
}

#[test]
fn merge_is_the_same_on_every_run() {
    let build = || {
        Multiplexer::new(vec![
            il_source(vec![("a1", 1), ("a2", 1), ("a3", 4)]),
            il_source(vec![]),
            il_source(vec![("c1", 1), ("c2", 2), ("c3", 4), ("c4", 4)]),
        ])
    };
    let first = il_drain(&mut build());
    let second = il_drain(&mut build());
    assert_eq!(first, vec!["a1", "a2", "c1", "c2", "a3", "c3", "c4"]);
    assert_eq!(first, second);
}

#[test]
fn merge_of_no_sources_is_empty() {
    let mut multiplexer = Multiplexer::new(vec![]);
    assert!(multiplexer.next().is_none());
    let mut empty = Multiplexer::new(vec![il_source(vec![]), il_source(vec![])]);
    assert!(empty.next().is_none());
}

#[test]
fn unreadable_items_are_passed_over() {
    let a = EventIterator::new(vec![
        Err(StreamError::Parse),
        Ok(il_event("a1", 1)),
        Err(StreamError::Parse),
        Err(StreamError::Io),
        Ok(il_event("a2", 5)),
        Err(StreamError::Parse),
    ]);
    let b = EventIterator::new(vec![Ok(il_event("b1", 2)), Err(StreamError::Parse), Ok(il_event("b2", 6))]);
    let mut multiplexer = Multiplexer::new(vec![a, b]);
    assert_eq!(il_drain(&mut multiplexer), vec!["a1", "b1", "a2", "b2"]);
}

#[test]
fn merged_stream_is_ordered_by_time() {
    let mut multiplexer = Multiplexer::new(vec![
        il_source(vec![("a", 1), ("a", 4), ("a", 9)]),
        il_source(vec![("b", 2), ("b", 3), ("b", 10)]),
        il_source(vec![("c", 0), ("c", 4), ("c", 4)]),
    ]);
    let mut times = Vec::new();
    while let Some(ev) = multiplexer.next() {
        times.push(ev.receive_time);
    }
    assert_eq!(times, vec![0, 1, 2, 3, 4, 4, 4, 9, 10]);
}

#[test]
fn smallest_time_index_picks_the_first_of_the_earliest() {
    assert_eq!(smallest_time_index(&vec![]), None);
    assert_eq!(smallest_time_index(&vec![None, None]), None);
    assert_eq!(smallest_time_index(&vec![Some(3), None, Some(1), Some(1)]), Some(2));
    assert_eq!(smallest_time_index(&vec![Some(1), Some(1)]), Some(0));
    assert_eq!(smallest_time_index(&vec![None, Some(u64::MAX)]), Some(1));
    assert_eq!(smallest_time_index(&vec![Some(0)]), Some(0));
    assert_eq!(smallest_time_index(&vec![Some(5), Some(4), Some(3)]), Some(2));
}

#[test]
fn lane_holds_the_next_readable_event_ready() {
    let mut lane = Lane::new(EventIterator::new(vec![
        Err(StreamError::Parse),
        Ok(il_event("x", 4)),
        Err(StreamError::Io),
        Ok(il_event("y", 6)),
    ]));
    assert_eq!(lane.peek_time(), Some(4));
    assert_eq!(lane.pop().expect("an event").symbol, "x");
    assert_eq!(lane.peek_time(), Some(6));
    assert_eq!(lane.pop().expect("an event").symbol, "y");
    assert_eq!(lane.peek_time(), None);
    assert!(lane.pop().is_none());
}

#[test]
fn into_events_pulls_the_whole_merged_stream() {
    let multiplexer = Multiplexer::new(vec![
        il_source(vec![("a1", 1), ("a2", 3)]),
        il_source(vec![("b1", 1), ("b2", 2)]),
    ]);
    let names: Vec<String> = multiplexer.into_events().into_iter().map(|ev| ev.symbol).collect();
    assert_eq!(names, vec!["a1", "b1", "b2", "a2"]);
    assert!(Multiplexer::new(vec![]).into_events().is_empty());
}

#[test]
fn merged_stream_feeds_a_source() {
    let merged = Multiplexer::new(vec![il_source(vec![("a", 2)]), il_source(vec![("b", 1)])]).into_events();
    let mut source = EventIterator::from_events(merged);
    assert_eq!(source.len(), 2);
    assert_eq!(source.next().expect("an item").expect("an event").symbol, "b");
    assert_eq!(source.next().expect("an item").expect("an event").symbol, "a");
    assert!(source.next().is_none());
}
