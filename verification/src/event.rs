//! Market-data events: what one line of a recorded stream holds.
//!
//! An event names its instrument, carries the time at which it was received
//! and one payload. Order-book payloads are the library's own exact types.
//! Account payloads are values of the `binance` crate, which the engine
//! carries through without looking inside.

use crate::book::{DepthDelta, DepthDeltaView, OrderBook, OrderBookView};
use binance::model::{AccountInformation, Order, OrderTradeEvent};
use vstd::prelude::*;

verus! {

/// The account state that the exchange reports, as the `binance` crate
/// models it. Opaque here.
#[verifier::external_type_specification]
#[verifier::external_body]
pub struct ExAccountInformation(binance::model::AccountInformation);

/// One open order, as the `binance` crate models it. Opaque here.
#[verifier::external_type_specification]
#[verifier::external_body]
pub struct ExOrder(binance::model::Order);

/// The notice of an order's execution, as the `binance` crate models it.
/// Opaque here.
#[verifier::external_type_specification]
#[verifier::external_body]
pub struct ExOrderTradeEvent(binance::model::OrderTradeEvent);

/// Calls `Clone::clone` of `binance::model::AccountInformation`, which the
/// crate derives. Trusted: the copy is equal to the original.
#[verifier::external_body]
pub(crate) fn clone_account_information(account: &AccountInformation) -> (copy: AccountInformation)
    ensures
        copy == *account,
{
    account.clone()
}

/// Calls `Clone::clone` of `binance::model::Order`, which the crate derives.
/// Trusted: the copy is equal to the original.
#[verifier::external_body]
pub(crate) fn clone_order(order: &Order) -> (copy: Order)
    ensures
        copy == *order,
{
    order.clone()
}

/// Calls `Clone::clone` of `binance::model::OrderTradeEvent`, which the
/// crate derives. Trusted: the copy is equal to the original.
#[verifier::external_body]
pub(crate) fn clone_order_trade_event(notice: &OrderTradeEvent) -> (copy: OrderTradeEvent)
    ensures
        copy == *notice,
{
    notice.clone()
}

/// A copy of a list of open orders.
pub fn copy_orders(orders: &Vec<Order>) -> (copy: Vec<Order>)
    ensures
        copy@ == orders@,
{
    let n = orders.len();
    let mut copy: Vec<Order> = Vec::new();
    let mut i: usize = 0;
    while i < n
        invariant
            0 <= i <= n,
            n == orders.len(),
            copy@ == orders@.take(i as int),
        decreases n - i,
    {
        copy.push(clone_order(&orders[i]));
        assert(orders@.take(i + 1) =~= orders@.take(i as int).push(orders@[i as int]));
        i += 1;
    }
    assert(orders@.take(n as int) =~= orders@);
    copy
}

/// Why a source could not deliver its next event.
#[derive(Clone, Copy, Debug, PartialEq, Eq, Structural)]
pub enum StreamError {
    /// Reading the underlying source failed.
    Io,
    /// A line did not decode to a valid event.
    Parse,
}

/// The payload of an event.
#[derive(Debug)]
pub enum EventType {
    /// A complete order book.
    FullOrderBook(OrderBook),
    /// An incremental update to a book known from an earlier snapshot.
    PartialOrderBook(DepthDelta),
    AccountInformation(AccountInformation),
    OpenOrders(Vec<Order>),
    OrderTradeEvent(OrderTradeEvent),
}

/// What a payload holds.
pub enum EventTypeView {
    FullOrderBook(OrderBookView),
    PartialOrderBook(DepthDeltaView),
    AccountInformation(AccountInformation),
    OpenOrders(Seq<Order>),
    OrderTradeEvent(OrderTradeEvent),
}

impl View for EventType {
    type V = EventTypeView;

    open spec fn view(&self) -> EventTypeView {
        match *self {
            EventType::FullOrderBook(book) => EventTypeView::FullOrderBook(book@),
            EventType::PartialOrderBook(delta) => EventTypeView::PartialOrderBook(delta@),
            EventType::AccountInformation(account) => EventTypeView::AccountInformation(account),
            EventType::OpenOrders(orders) => EventTypeView::OpenOrders(orders@),
            EventType::OrderTradeEvent(notice) => EventTypeView::OrderTradeEvent(notice),
        }
    }
}

impl Clone for EventType {
    fn clone(&self) -> (copy: EventType)
        ensures
            copy@ == self@,
    {
        match self {
            EventType::FullOrderBook(book) => EventType::FullOrderBook(book.clone()),
            EventType::PartialOrderBook(delta) => EventType::PartialOrderBook(delta.clone()),
            EventType::AccountInformation(account) => EventType::AccountInformation(
                clone_account_information(account),
            ),
            EventType::OpenOrders(orders) => EventType::OpenOrders(copy_orders(orders)),
            EventType::OrderTradeEvent(notice) => EventType::OrderTradeEvent(clone_order_trade_event(notice)),
        }
    }
}

/// One event of a market-data stream.
#[derive(Debug)]
pub struct Event {
    /// The instrument that the event is about.
    pub symbol: String,
    /// When the event was received, in milliseconds. The only ordering key.
    pub receive_time: u64,
    pub event: EventType,
}

/// What an event holds.
pub struct EventView {
    pub symbol: Seq<char>,
    pub receive_time: u64,
    pub event: EventTypeView,
}

impl View for Event {
    type V = EventView;

    open spec fn view(&self) -> EventView {
        EventView { symbol: self.symbol@, receive_time: self.receive_time, event: self.event@ }
    }
}

impl Event {
    pub fn new(symbol: String, receive_time: u64, event: EventType) -> (ev: Event)
        ensures
            ev.symbol == symbol,
            ev.receive_time == receive_time,
            ev.event == event,
    {
        Event { symbol, receive_time, event }
    }
}

impl Clone for Event {
    fn clone(&self) -> (copy: Event)
        ensures
            copy@ == self@,
    {
        Event { symbol: self.symbol.clone(), receive_time: self.receive_time, event: self.event.clone() }
    }
}

/// What an event holds, if there is one.
pub open spec fn maybe_view(ev: Option<Event>) -> Option<EventView> {
    match ev {
        Some(ev) => Some(ev@),
        None => None,
    }
}

/// What one pull from a source yields: an event, or the reason why none
/// could be read.
pub open spec fn item_view(item: Result<Event, StreamError>) -> Result<EventView, StreamError> {
    match item {
        Ok(ev) => Ok(ev@),
        Err(e) => Err(e),
    }
}

/// The views of a sequence of events.
pub open spec fn events_view(events: Seq<Event>) -> Seq<EventView> {
    events.map_values(|ev: Event| ev@)
}

/// The views of a sequence of pulled items.
pub open spec fn items_view(items: Seq<Result<Event, StreamError>>) -> Seq<Result<EventView, StreamError>> {
    items.map_values(|item: Result<Event, StreamError>| item_view(item))
}

/// The events among pulled items, in their order: items that could not be
/// read are passed over.
pub open spec fn readable(items: Seq<Result<EventView, StreamError>>) -> Seq<EventView>
    decreases items.len(),
{
    if items.len() == 0 {
        Seq::empty()
    } else {
        match items[0] {
            Ok(ev) => seq![ev] + readable(items.skip(1)),
            Err(_) => readable(items.skip(1)),
        }
    }
}

/// One more item at the end adds its event, if it is one, at the end.
pub proof fn lemma_readable_push(items: Seq<Result<EventView, StreamError>>, item: Result<EventView, StreamError>)
    ensures
        readable(items.push(item)) == match item {
            Ok(ev) => readable(items).push(ev),
            Err(_) => readable(items),
        },
    decreases items.len(),
{
    let longer = items.push(item);
    let rest = longer.skip(1);
    assert(longer[0] == if items.len() == 0 {
        item
    } else {
        items[0]
    });
    if items.len() == 0 {
        assert(rest.len() == 0);
        assert(readable(rest) =~= Seq::<EventView>::empty());
        assert(readable(items) =~= Seq::<EventView>::empty());
        match item {
            Ok(ev) => {
                assert(seq![ev] + readable(rest) =~= readable(items).push(ev));
            },
            Err(_) => {},
        }
    } else {
        lemma_readable_push(items.skip(1), item);
        assert(rest =~= items.skip(1).push(item));
        let tail = readable(items.skip(1));
        match (items[0], item) {
            (Ok(first), Ok(ev)) => {
                assert(seq![first] + tail.push(ev) =~= (seq![first] + tail).push(ev));
            },
            _ => {},
        }
    }
}

/// A copy of a list of events.
pub fn copy_events(events: &Vec<Event>) -> (copy: Vec<Event>)
    ensures
        events_view(copy@) == events_view(events@),
{
    let n = events.len();
    let mut copy: Vec<Event> = Vec::new();
    let mut i: usize = 0;
    while i < n
        invariant
            0 <= i <= n,
            n == events.len(),
            copy.len() == i,
            forall|j: int| 0 <= j < i ==> (#[trigger] copy@[j])@ == events@[j]@,
        decreases n - i,
    {
        copy.push(events[i].clone());
        i += 1;
    }
    assert(events_view(copy@) =~= events_view(events@));
    copy
}

/// A bounded window of events, kept in the order in which they were added.
#[derive(Debug)]
pub struct Snapshot {
    events: Vec<Event>,
}

impl View for Snapshot {
    type V = Seq<EventView>;

    closed spec fn view(&self) -> Seq<EventView> {
        events_view(self.events@)
    }
}

impl Snapshot {
    pub fn new() -> (snapshot: Snapshot)
        ensures
            snapshot@ == Seq::<EventView>::empty(),
    {
        let snapshot = Snapshot { events: Vec::new() };
        assert(snapshot@ =~= Seq::<EventView>::empty());
        snapshot
    }

    pub fn add_event(&mut self, event: Event)
        ensures
            final(self)@ == old(self)@.push(event@),
    {
        self.events.push(event);
        assert(self@ =~= old(self)@.push(event@));
    }

    /// The events, oldest first.
    pub fn events(&self) -> (events: &Vec<Event>)
        ensures
            events_view(events@) == self@,
    {
        &self.events
    }

    pub fn len(&self) -> (n: usize)
        ensures
            n == self@.len(),
    {
        self.events.len()
    }
}

impl Clone for Snapshot {
    fn clone(&self) -> (copy: Snapshot)
        ensures
            copy@ == self@,
    {
        Snapshot { events: copy_events(&self.events) }
    }
}

} // verus!
