//! The latest known state of all instruments and of the account, folded from
//! a reconciled stream for display.

use crate::book::{OrderBook, OrderBookView};
use crate::collection::{Books, OrderBookCollection};
use crate::error::ReplayError;
use crate::event::{
    clone_account_information, copy_orders, Event, EventType, EventTypeView, EventView, StreamError,
};
use crate::partial_transformer::{
    pull_books, pull_len, reconcile_books, reconcile_output, reconciled, PartialTransformer,
};
use crate::reader::{pulled, EventIterator};
use binance::model::{AccountInformation, Order};
use vstd::prelude::*;

verus! {

/// The latest known book of every instrument, the latest account
/// information and the latest list of open orders.
#[derive(Debug)]
pub struct World {
    pub order_books: OrderBookCollection,
    pub account_information: Option<AccountInformation>,
    pub open_orders: Vec<Order>,
}

/// What a world holds.
pub struct WorldView {
    pub order_books: Books,
    pub account_information: Option<AccountInformation>,
    pub open_orders: Seq<Order>,
}

impl View for World {
    type V = WorldView;

    open spec fn view(&self) -> WorldView {
        WorldView {
            order_books: self.order_books@,
            account_information: self.account_information,
            open_orders: self.open_orders@,
        }
    }
}

/// A world in which nothing is known yet.
pub open spec fn empty_world() -> WorldView {
    WorldView { order_books: Map::empty(), account_information: None, open_orders: Seq::empty() }
}

/// The world after one reconciled event. A full book replaces the book of
/// its symbol, account information and open orders replace what was known,
/// and a trade notice changes nothing. A depth update has no place in a
/// reconciled stream.
pub open spec fn world_after(world: WorldView, ev: EventView) -> Result<WorldView, ReplayError> {
    match ev.event {
        EventTypeView::PartialOrderBook(_) => Err(ReplayError::UnexpectedPayload),
        EventTypeView::FullOrderBook(book) => Ok(
            WorldView { order_books: world.order_books.insert(ev.symbol, book), ..world },
        ),
        EventTypeView::AccountInformation(account) => Ok(WorldView { account_information: Some(account), ..world }),
        EventTypeView::OpenOrders(orders) => Ok(WorldView { open_orders: orders, ..world }),
        EventTypeView::OrderTradeEvent(_) => Ok(world),
    }
}

/// The worlds that a reconciled stream gives, one for every event, starting
/// from `world`. A failure is handed on in its place and leaves the world as
/// it was.
pub open spec fn worlds(world: WorldView, items: Seq<Result<EventView, StreamError>>) -> Seq<
    Result<WorldView, ReplayError>,
>
    decreases items.len(),
{
    if items.len() == 0 {
        Seq::empty()
    } else {
        match items[0] {
            Err(e) => seq![Err(ReplayError::Stream(e))] + worlds(world, items.skip(1)),
            Ok(ev) => match world_after(world, ev) {
                Ok(next) => seq![Ok(next)] + worlds(next, items.skip(1)),
                Err(e) => seq![Err(e)] + worlds(world, items.skip(1)),
            },
        }
    }
}

impl World {
    pub fn new() -> (world: World)
        ensures
            world@ == empty_world(),
    {
        World { order_books: OrderBookCollection::new(), account_information: None, open_orders: Vec::new() }
    }

    /// Makes `ob` the book of `symbol`, in place of any earlier one.
    pub fn update_order_book(&mut self, symbol: String, ob: OrderBook)
        ensures
            final(self)@ == (WorldView { order_books: old(self)@.order_books.insert(symbol@, ob@), ..old(self)@ }),
    {
        self.order_books.insert(symbol, ob);
    }

    pub fn update_account_information(&mut self, account: AccountInformation)
        ensures
            final(self)@ == (WorldView { account_information: Some(account), ..old(self)@ }),
    {
        self.account_information = Some(account);
    }

    pub fn update_open_orders(&mut self, orders: Vec<Order>)
        ensures
            final(self)@ == (WorldView { open_orders: orders@, ..old(self)@ }),
    {
        self.open_orders = orders;
    }

    /// Folds one reconciled event into the world. A depth update is refused
    /// and leaves the world as it was.
    pub fn apply(&mut self, ev: Event) -> (done: Result<(), ReplayError>)
        ensures
            match world_after(old(self)@, ev@) {
                Ok(next) => done is Ok && final(self)@ == next,
                Err(e) => done == Err::<(), ReplayError>(e) && final(self)@ == old(self)@,
            },
    {
        let Event { symbol, receive_time: _, event } = ev;
        match event {
            EventType::PartialOrderBook(_) => Err(ReplayError::UnexpectedPayload),
            EventType::FullOrderBook(ob) => {
                self.update_order_book(symbol, ob);
                Ok(())
            },
            EventType::AccountInformation(account) => {
                self.update_account_information(account);
                Ok(())
            },
            EventType::OpenOrders(orders) => {
                self.update_open_orders(orders);
                Ok(())
            },
            EventType::OrderTradeEvent(_) => Ok(()),
        }
    }
}

impl Clone for World {
    fn clone(&self) -> (copy: World)
        ensures
            copy@ == self@,
    {
        World {
            order_books: self.order_books.clone(),
            account_information: match &self.account_information {
                Some(account) => Some(clone_account_information(account)),
                None => None,
            },
            open_orders: copy_orders(&self.open_orders),
        }
    }
}

/// What a pulled world holds, if there is one.
pub open spec fn world_pull_view(got: Option<Result<World, ReplayError>>) -> Option<Result<WorldView, ReplayError>> {
    match got {
        Some(Ok(world)) => Some(Ok(world@)),
        Some(Err(e)) => Some(Err(e)),
        None => None,
    }
}

/// Folds a raw stream of events into worlds: reconciles the order books and
/// keeps the latest state of everything.
#[derive(Debug)]
pub struct WorldBuilder {
    stream: PartialTransformer,
    world: World,
}

impl WorldBuilder {
    /// The world as it is now.
    pub closed spec fn world(&self) -> WorldView {
        self.world@
    }

    /// The books that the reconciler knows.
    pub closed spec fn books(&self) -> Books {
        self.stream.books()
    }

    /// What the source still holds: the raw stream still to come.
    pub closed spec fn source(&self) -> Seq<Result<EventView, StreamError>> {
        self.stream.pending()
    }

    /// The reconciled stream still to come.
    pub closed spec fn pending(&self) -> Seq<Result<EventView, StreamError>> {
        self.stream.remaining()
    }

    /// The worlds still to come.
    pub open spec fn remaining(&self) -> Seq<Result<WorldView, ReplayError>> {
        worlds(self.world(), self.pending())
    }

    /// A builder over the raw stream `event_iter`, with nothing known yet.
    pub fn new(event_iter: EventIterator) -> (builder: WorldBuilder)
        ensures
            builder.world() == empty_world(),
            builder.books() == Map::<Seq<char>, OrderBookView>::empty(),
            builder.source() == event_iter.remaining(),
            builder.pending() == reconciled(Map::empty(), event_iter.remaining()),
    {
        WorldBuilder { stream: PartialTransformer::new(event_iter), world: World::new() }
    }

    /// The world as it is now.
    pub fn current(&self) -> (world: &World)
        ensures
            world@ == self.world(),
    {
        &self.world
    }

    /// Takes in one raw event that did not come from the source: reconciles
    /// it and, if it is answered, folds the answer into the world and hands
    /// out the world as it then is.
    pub fn apply(&mut self, ev: Event) -> (world: Option<Result<World, ReplayError>>)
        ensures
            final(self).books() == reconcile_books(old(self).books(), ev@),
            final(self).source() == old(self).source(),
            match reconcile_output(old(self).books(), ev@) {
                None => world is None && final(self).world() == old(self).world(),
                Some(answer) => match world_after(old(self).world(), answer) {
                    Ok(next) => {
                        &&& world_pull_view(world) == Some(Ok::<WorldView, ReplayError>(next))
                        &&& final(self).world() == next
                    },
                    Err(e) => {
                        &&& world_pull_view(world) == Some(Err::<WorldView, ReplayError>(e))
                        &&& final(self).world() == old(self).world()
                    },
                },
            },
    {
        match self.stream.apply(ev) {
            None => None,
            Some(answer) => match self.world.apply(answer) {
                Ok(()) => Some(Ok(self.world.clone())),
                Err(e) => Some(Err(e)),
            },
        }
    }

    /// Pulls the next world: the world after the next reconciled event. The
    /// world that is handed out is the builder's world as it then is; a
    /// failure leaves the world as it was.
    pub fn next(&mut self) -> (world: Option<Result<World, ReplayError>>)
        ensures
            pulled(old(self).remaining(), final(self).remaining(), world_pull_view(world)),
            final(self).world() == match world_pull_view(world) {
                Some(Ok(w)) => w,
                _ => old(self).world(),
            },
            world is Some ==> final(self).pending() == old(self).pending().skip(1),
            world is None ==> final(self).pending() == old(self).pending(),
            final(self).source() == old(self).source().skip(pull_len(old(self).books(), old(self).source()) as int),
            final(self).books() == pull_books(old(self).books(), old(self).source()),
    {
        let ghost before = self.world();
        let ghost pending = self.pending();
        match self.stream.next() {
            None => None,
            Some(Err(e)) => {
                proof {
                    let rest = worlds(before, pending.skip(1));
                    assert((seq![Err::<WorldView, ReplayError>(ReplayError::Stream(e))] + rest).skip(1) =~= rest);
                }
                Some(Err(ReplayError::Stream(e)))
            },
            Some(Ok(ev)) => {
                match self.world.apply(ev) {
                    Ok(()) => {
                        proof {
                            let rest = worlds(self.world(), pending.skip(1));
                            assert((seq![Ok::<WorldView, ReplayError>(self.world())] + rest).skip(1) =~= rest);
                        }
                        Some(Ok(self.world.clone()))
                    },
                    Err(e) => {
                        proof {
                            let rest = worlds(before, pending.skip(1));
                            assert((seq![Err::<WorldView, ReplayError>(e)] + rest).skip(1) =~= rest);
                        }
                        Some(Err(e))
                    },
                }
            },
        }
    }
}

} // verus!
