//! Sources of events held in memory, and the grouping of a time-ordered
//! stream into ticks.

use crate::event::{events_view, item_view, items_view, Event, EventView, StreamError};
use crate::partial_transformer::PartialTransformer;
use std::collections::VecDeque;
use vstd::prelude::*;

verus! {

/// What a pull did to a stream. With something left, the pull hands out the
/// first element and leaves the rest; with nothing left it hands out nothing
/// and changes nothing.
pub open spec fn pulled<T>(before: Seq<T>, after: Seq<T>, got: Option<T>) -> bool {
    match got {
        Some(item) => before.len() > 0 && item == before[0] && after == before.skip(1),
        None => before.len() == 0 && after == before,
    }
}

/// What a pulled item holds, if there is one.
pub open spec fn pull_view(got: Option<Result<Event, StreamError>>) -> Option<Result<EventView, StreamError>> {
    match got {
        Some(item) => Some(item_view(item)),
        None => None,
    }
}

/// A fallible sequence of events held in memory, pulled one at a time from
/// the front.
#[derive(Debug)]
pub struct EventIterator {
    queue: VecDeque<Result<Event, StreamError>>,
}

impl EventIterator {
    /// What is still to come, next item first.
    pub closed spec fn remaining(&self) -> Seq<Result<EventView, StreamError>> {
        items_view(self.queue@)
    }

    /// A source that yields `items` in their order.
    pub fn new(items: Vec<Result<Event, StreamError>>) -> (source: EventIterator)
        ensures
            source.remaining() == items_view(items@),
    {
        let mut items = items;
        let mut queue: VecDeque<Result<Event, StreamError>> = VecDeque::new();
        let ghost all = items@;
        while items.len() > 0
            invariant
                items@ + queue@ == all,
            decreases items.len(),
        {
            let ghost before = items@;
            let ghost tail = queue@;
            match items.pop() {
                Some(item) => {
                    queue.push_front(item);
                    assert(items@ + queue@ =~= before + tail);
                },
                None => {},
            }
        }
        assert(queue@ =~= all);
        EventIterator { queue }
    }

    /// A source that yields `events` in their order, without failures.
    pub fn from_events(events: Vec<Event>) -> (source: EventIterator)
        ensures
            source.remaining() == events_view(events@).map_values(|ev: EventView| Ok::<EventView, StreamError>(ev)),
    {
        let mut events = events;
        let mut queue: VecDeque<Result<Event, StreamError>> = VecDeque::new();
        let ghost all = events@;
        while events.len() > 0
            invariant
                events@ + queue@.map_values(|item: Result<Event, StreamError>| item->Ok_0) == all,
                forall|k: int| 0 <= k < queue@.len() ==> (#[trigger] queue@[k]) is Ok,
            decreases events.len(),
        {
            let ghost before = events@;
            let ghost tail = queue@.map_values(|item: Result<Event, StreamError>| item->Ok_0);
            match events.pop() {
                Some(ev) => {
                    queue.push_front(Ok(ev));
                    assert(events@ + queue@.map_values(|item: Result<Event, StreamError>| item->Ok_0) =~= before
                        + tail);
                },
                None => {},
            }
        }
        let source = EventIterator { queue };
        assert(source.remaining() =~= events_view(all).map_values(|ev: EventView| Ok::<EventView, StreamError>(ev)))
            by {
            assert(queue@.map_values(|item: Result<Event, StreamError>| item->Ok_0) =~= all);
            assert forall|k: int| 0 <= k < queue@.len() implies item_view(#[trigger] queue@[k]) == Ok::<
                EventView,
                StreamError,
            >(all[k]@) by {
                assert(queue@.map_values(|item: Result<Event, StreamError>| item->Ok_0)[k] == all[k]);
            }
        }
        source
    }

    /// The number of items still to come.
    pub fn len(&self) -> (n: usize)
        ensures
            n == self.remaining().len(),
    {
        self.queue.len()
    }

    /// Pulls the next item, if any is left.
    pub fn next(&mut self) -> (item: Option<Result<Event, StreamError>>)
        ensures
            pulled(old(self).remaining(), final(self).remaining(), pull_view(item)),
    {
        let item = self.queue.pop_front();
        proof {
            if item is Some {
                assert(self.remaining() =~= old(self).remaining().skip(1));
            }
        }
        item
    }
}

/// A tick, or the reason why the stream broke off.
pub type TickView = Result<Seq<EventView>, StreamError>;

/// The open tick as a finished one, if it holds anything.
pub open spec fn flushed(open: Seq<EventView>) -> Seq<TickView> {
    if open.len() == 0 {
        Seq::empty()
    } else {
        seq![Ok(open)]
    }
}

/// The ticks that a stream of pulled items gives, when `open` holds the
/// events of the tick that is being gathered. An event at the time of the
/// open tick joins it; an event at another time closes it and opens the
/// next; the end of the stream closes it. A failed pull closes the open
/// tick and is handed on after it.
pub open spec fn grouped(open: Seq<EventView>, items: Seq<Result<EventView, StreamError>>) -> Seq<TickView>
    decreases items.len(),
{
    if items.len() == 0 {
        flushed(open)
    } else {
        match items[0] {
            Ok(ev) => if open.len() > 0 && open[0].receive_time != ev.receive_time {
                seq![Ok(open)] + grouped(seq![ev], items.skip(1))
            } else {
                grouped(open.push(ev), items.skip(1))
            },
            Err(e) => flushed(open) + seq![Err(e)] + grouped(Seq::empty(), items.skip(1)),
        }
    }
}

/// All events of `events` were received at the same time.
pub open spec fn same_time(events: Seq<EventView>) -> bool {
    forall|i: int, j: int|
        0 <= i < events.len() && 0 <= j < events.len() ==> (#[trigger] events[i]).receive_time == (
        #[trigger] events[j]).receive_time
}

/// Every tick holds at least one event, and its events share one time.
pub proof fn lemma_ticks_well_formed(open: Seq<EventView>, items: Seq<Result<EventView, StreamError>>)
    requires
        same_time(open),
    ensures
        forall|k: int|
            0 <= k < grouped(open, items).len() ==> (#[trigger] grouped(open, items)[k] matches Ok(tick)
                ==> tick.len() > 0 && same_time(tick)),
    decreases items.len(),
{
    if items.len() > 0 {
        match items[0] {
            Ok(ev) => {
                if open.len() > 0 && open[0].receive_time != ev.receive_time {
                    lemma_ticks_well_formed(seq![ev], items.skip(1));
                } else {
                    let joined = open.push(ev);
                    assert forall|i: int, j: int| 0 <= i < joined.len() && 0 <= j < joined.len() implies (
                    #[trigger] joined[i]).receive_time == (#[trigger] joined[j]).receive_time by {
                        if open.len() > 0 {
                            if i < open.len() {
                                assert(open[i].receive_time == open[0].receive_time);
                            }
                            if j < open.len() {
                                assert(open[j].receive_time == open[0].receive_time);
                            }
                        }
                    }
                    lemma_ticks_well_formed(joined, items.skip(1));
                }
            },
            Err(e) => {
                lemma_ticks_well_formed(Seq::empty(), items.skip(1));
            },
        }
    }
}

/// Events as the items of a stream that never fails.
pub open spec fn as_items(events: Seq<EventView>) -> Seq<Result<EventView, StreamError>> {
    events.map_values(|ev: EventView| Ok::<EventView, StreamError>(ev))
}

/// The stream of events and failures that a stream of ticks holds, in its
/// order.
pub open spec fn flattened(ticks: Seq<TickView>) -> Seq<Result<EventView, StreamError>>
    decreases ticks.len(),
{
    if ticks.len() == 0 {
        Seq::empty()
    } else {
        match ticks[0] {
            Ok(tick) => as_items(tick) + flattened(ticks.skip(1)),
            Err(e) => seq![Err(e)] + flattened(ticks.skip(1)),
        }
    }
}

/// The first tick of a stream of ticks comes first when it is laid out.
pub proof fn lemma_flattened_first(first: TickView, rest: Seq<TickView>)
    ensures
        flattened(seq![first] + rest) == match first {
            Ok(tick) => as_items(tick) + flattened(rest),
            Err(e) => seq![Err(e)] + flattened(rest),
        },
{
    let ticks = seq![first] + rest;
    assert(ticks[0] == first);
    assert(ticks.skip(1) =~= rest);
}

/// Grouping loses nothing and keeps the order: the ticks, laid end to end,
/// are the open tick followed by the stream.
pub proof fn lemma_grouping_keeps_everything(open: Seq<EventView>, items: Seq<Result<EventView, StreamError>>)
    ensures
        flattened(grouped(open, items)) == as_items(open) + items,
    decreases items.len(),
{
    let ticks = grouped(open, items);
    let none = Seq::<TickView>::empty();
    if items.len() == 0 {
        if open.len() > 0 {
            lemma_flattened_first(Ok(open), none);
            assert(seq![Ok::<Seq<EventView>, StreamError>(open)] + none =~= ticks);
            assert(as_items(open) + flattened(none) =~= as_items(open) + items);
        } else {
            assert(flattened(ticks) =~= as_items(open) + items);
        }
    } else {
        let rest = items.skip(1);
        match items[0] {
            Ok(ev) => {
                if open.len() > 0 && open[0].receive_time != ev.receive_time {
                    let after = grouped(seq![ev], rest);
                    lemma_grouping_keeps_everything(seq![ev], rest);
                    lemma_flattened_first(Ok(open), after);
                    assert(as_items(open) + (as_items(seq![ev]) + rest) =~= as_items(open) + items);
                } else {
                    lemma_grouping_keeps_everything(open.push(ev), rest);
                    assert(as_items(open.push(ev)) + rest =~= as_items(open) + items);
                }
            },
            Err(e) => {
                let after = grouped(Seq::empty(), rest);
                lemma_grouping_keeps_everything(Seq::empty(), rest);
                lemma_flattened_first(Err(e), after);
                assert(as_items(Seq::<EventView>::empty()) + rest =~= rest);
                if open.len() > 0 {
                    let failed = seq![Err::<Seq<EventView>, StreamError>(e)] + after;
                    lemma_flattened_first(Ok(open), failed);
                    assert(ticks =~= seq![Ok::<Seq<EventView>, StreamError>(open)] + failed);
                    assert(as_items(open) + (seq![Err::<EventView, StreamError>(e)] + rest) =~= as_items(open)
                        + items);
                } else {
                    assert(ticks =~= seq![Err::<Seq<EventView>, StreamError>(e)] + after);
                    assert(seq![Err::<EventView, StreamError>(e)] + rest =~= as_items(open) + items);
                }
            },
        }
    }
}

/// The number of events at the front of `items` that join the tick of which
/// `open` holds the events so far: those received at its time, up to the
/// first event of another time or the first failure.
pub open spec fn joining(open: Seq<EventView>, items: Seq<Result<EventView, StreamError>>) -> nat
    decreases items.len(),
{
    if items.len() == 0 {
        0
    } else {
        match items[0] {
            Ok(ev) => if open.len() > 0 && open[0].receive_time != ev.receive_time {
                0
            } else {
                1 + joining(open.push(ev), items.skip(1))
            },
            Err(_) => 0,
        }
    }
}

/// No more events join a tick than there are.
pub proof fn lemma_joining(open: Seq<EventView>, items: Seq<Result<EventView, StreamError>>)
    ensures
        joining(open, items) <= items.len(),
    decreases items.len(),
{
    if items.len() > 0 {
        match items[0] {
            Ok(ev) => {
                lemma_joining(open.push(ev), items.skip(1));
            },
            Err(_) => {},
        }
    }
}

/// The state of a grouper after a pull that began with no failure waiting:
/// the open tick `open`, the stream still held by the source `pending` and
/// the failure that waits, given the open tick `open_before` and the stream
/// `items` before the pull. The pull takes the events that join the tick
/// and the item after them. An event of another time is held back as the
/// one event of the next tick; a failure that closed a tick waits for the
/// next pull.
pub open spec fn after_pull(
    open_before: Seq<EventView>,
    items: Seq<Result<EventView, StreamError>>,
    open: Seq<EventView>,
    pending: Seq<Result<EventView, StreamError>>,
    failure: Option<StreamError>,
) -> bool {
    let joined = joining(open_before, items) as int;
    if joined < items.len() {
        &&& pending == items.skip(joined + 1)
        &&& match items[joined] {
            Ok(ev) => open == seq![ev] && failure is None,
            Err(e) => open == Seq::<EventView>::empty() && failure == if open_before.len() > 0 || joined > 0 {
                Some(e)
            } else {
                None
            },
        }
    } else {
        &&& pending == items.skip(joined)
        &&& open == Seq::<EventView>::empty()
        &&& failure is None
    }
}

/// What a pulled tick holds, if there is one.
pub open spec fn tick_view(got: Option<Result<Vec<Event>, StreamError>>) -> Option<TickView> {
    match got {
        Some(Ok(tick)) => Some(Ok(events_view(tick@))),
        Some(Err(e)) => Some(Err(e)),
        None => None,
    }
}

/// What a closed tick holds, if one was closed.
pub open spec fn closed_view(closed: Option<Vec<Event>>) -> Option<Seq<EventView>> {
    match closed {
        Some(tick) => Some(events_view(tick@)),
        None => None,
    }
}

/// The tick grouper: batches the consecutive events of a reconciled stream
/// that share one time of receipt.
#[derive(Debug)]
pub struct EventGrouper {
    event_iter: PartialTransformer,
    open: Vec<Event>,
    failure: Option<StreamError>,
}

impl EventGrouper {
    /// The events of the tick that is being gathered.
    pub closed spec fn open_tick(&self) -> Seq<EventView> {
        events_view(self.open@)
    }

    /// A failed pull that closed a tick and is still to be handed on.
    pub closed spec fn failure(&self) -> Option<StreamError> {
        self.failure
    }

    /// The reconciled stream that the source still holds.
    pub closed spec fn pending(&self) -> Seq<Result<EventView, StreamError>> {
        self.event_iter.remaining()
    }

    /// The ticks still to come.
    pub open spec fn remaining(&self) -> Seq<TickView> {
        match self.failure() {
            Some(e) => flushed(self.open_tick()) + seq![Err(e)] + grouped(Seq::empty(), self.pending()),
            None => grouped(self.open_tick(), self.pending()),
        }
    }

    /// A grouper over the reconciled stream `event_iter`, with no tick open.
    pub fn new(event_iter: PartialTransformer) -> (grouper: EventGrouper)
        ensures
            grouper.open_tick() == Seq::<EventView>::empty(),
            grouper.failure() is None,
            grouper.pending() == event_iter.remaining(),
    {
        let grouper = EventGrouper { event_iter, open: Vec::new(), failure: None };
        assert(grouper.open_tick() =~= Seq::<EventView>::empty());
        grouper
    }

    fn take_open(&mut self) -> (tick: Vec<Event>)
        ensures
            events_view(tick@) == old(self).open_tick(),
            final(self).open_tick() == Seq::<EventView>::empty(),
            final(self).failure() == old(self).failure(),
            final(self).pending() == old(self).pending(),
    {
        let mut tick: Vec<Event> = Vec::new();
        core::mem::swap(&mut self.open, &mut tick);
        assert(self.open_tick() =~= Seq::<EventView>::empty());
        tick
    }

    /// Takes in one event that did not come from the source. An event at
    /// another time than the open tick closes that tick, which is handed
    /// out, and opens the next; any other event joins the open tick.
    pub fn push(&mut self, ev: Event) -> (closed: Option<Vec<Event>>)
        ensures
            final(self).failure() == old(self).failure(),
            final(self).pending() == old(self).pending(),
            old(self).open_tick().len() > 0 && old(self).open_tick()[0].receive_time != ev@.receive_time ==> {
                &&& closed_view(closed) == Some(old(self).open_tick())
                &&& final(self).open_tick() == seq![ev@]
            },
            !(old(self).open_tick().len() > 0 && old(self).open_tick()[0].receive_time != ev@.receive_time) ==> {
                &&& closed is None
                &&& final(self).open_tick() == old(self).open_tick().push(ev@)
            },
    {
        if self.open.len() > 0 && self.open[0].receive_time != ev.receive_time {
            let tick = self.take_open();
            self.open.push(ev);
            assert(self.open_tick() =~= seq![ev@]);
            Some(tick)
        } else {
            self.open.push(ev);
            assert(self.open_tick() =~= old(self).open_tick().push(ev@));
            None
        }
    }

    /// Closes the open tick at the end of the input and hands it out, if it
    /// holds anything.
    pub fn finish(&mut self) -> (closed: Option<Vec<Event>>)
        ensures
            final(self).failure() == old(self).failure(),
            final(self).pending() == old(self).pending(),
            final(self).open_tick() == Seq::<EventView>::empty(),
            match closed {
                Some(tick) => old(self).open_tick().len() > 0 && events_view(tick@) == old(self).open_tick(),
                None => old(self).open_tick().len() == 0,
            },
    {
        if self.open.len() > 0 {
            Some(self.take_open())
        } else {
            assert(self.open_tick() =~= Seq::<EventView>::empty());
            None
        }
    }

    /// Pulls the next tick: reads on from the source while the events share
    /// the time of the first, and keeps the first event at another time for
    /// the tick after. A failed read closes the tick that is open and is
    /// handed out by the pull after that.
    pub fn next(&mut self) -> (tick: Option<Result<Vec<Event>, StreamError>>)
        ensures
            pulled(old(self).remaining(), final(self).remaining(), tick_view(tick)),
            old(self).failure() is Some ==> {
                &&& final(self).pending() == old(self).pending()
                &&& final(self).open_tick() == Seq::<EventView>::empty()
                &&& final(self).failure() == if old(self).open_tick().len() > 0 {
                    old(self).failure()
                } else {
                    None
                }
            },
            old(self).failure() is None ==> after_pull(
                old(self).open_tick(),
                old(self).pending(),
                final(self).open_tick(),
                final(self).pending(),
                final(self).failure(),
            ),
    {
        match self.failure {
            Some(e) => {
                let ghost rest = seq![Err::<Seq<EventView>, StreamError>(e)] + grouped(Seq::empty(), self.pending());
                if self.open.len() > 0 {
                    let ghost open = self.open_tick();
                    let tick = self.take_open();
                    proof {
                        assert(self.remaining() =~= rest);
                        assert((seq![Ok::<Seq<EventView>, StreamError>(open)] + rest).skip(1) =~= rest);
                        assert(old(self).remaining() =~= seq![Ok::<Seq<EventView>, StreamError>(open)] + rest);
                    }
                    return Some(Ok(tick));
                }
                self.failure = None;
                proof {
                    let after = grouped(Seq::empty(), self.pending());
                    assert(self.open_tick() =~= Seq::<EventView>::empty());
                    assert(old(self).remaining() =~= rest);
                    assert(rest.skip(1) =~= after);
                }
                return Some(Err(e));
            },
            None => {},
        }
        let ghost first_open = self.open_tick();
        let ghost all = self.pending();
        let ghost mut taken: int = 0;
        proof {
            assert(all.skip(0) =~= all);
        }
        loop
            invariant
                self.failure() is None,
                old(self).failure() is None,
                self.remaining() == old(self).remaining(),
                first_open == old(self).open_tick(),
                all == old(self).pending(),
                0 <= taken <= all.len(),
                self.pending() == all.skip(taken),
                self.open_tick().len() == first_open.len() + taken,
                joining(first_open, all) == taken + joining(self.open_tick(), self.pending()),
            decreases self.pending().len(),
        {
            let ghost open = self.open_tick();
            let ghost pending = self.pending();
            proof {
                if taken < all.len() {
                    assert(pending[0] == all[taken]);
                    assert(pending.skip(1) =~= all.skip(taken + 1));
                }
            }
            match self.event_iter.next() {
                None => {
                    if self.open.len() > 0 {
                        let tick = self.take_open();
                        proof {
                            assert(seq![Ok::<Seq<EventView>, StreamError>(open)].skip(1) =~= Seq::empty());
                        }
                        return Some(Ok(tick));
                    }
                    assert(self.open_tick() =~= Seq::<EventView>::empty());
                    return None;
                },
                Some(Err(e)) => {
                    let ghost after = grouped(Seq::empty(), pending.skip(1));
                    if self.open.len() > 0 {
                        let tick = self.take_open();
                        self.failure = Some(e);
                        proof {
                            let rest = seq![Err::<Seq<EventView>, StreamError>(e)] + after;
                            assert(self.remaining() =~= rest);
                            assert(old(self).remaining() =~= seq![Ok::<Seq<EventView>, StreamError>(open)] + rest);
                            assert((seq![Ok::<Seq<EventView>, StreamError>(open)] + rest).skip(1) =~= rest);
                        }
                        return Some(Ok(tick));
                    }
                    proof {
                        assert(open =~= Seq::<EventView>::empty());
                        assert(self.open_tick() =~= Seq::<EventView>::empty());
                        assert(flushed(open) + seq![Err::<Seq<EventView>, StreamError>(e)] + after =~= seq![
                            Err::<Seq<EventView>, StreamError>(e),
                        ] + after);
                        assert(old(self).remaining() =~= seq![Err::<Seq<EventView>, StreamError>(e)] + after);
                        assert((seq![Err::<Seq<EventView>, StreamError>(e)] + after).skip(1) =~= after);
                    }
                    return Some(Err(e));
                },
                Some(Ok(ev)) => {
                    let ghost after = grouped(seq![ev@], pending.skip(1));
                    match self.push(ev) {
                        Some(tick) => {
                            proof {
                                assert((seq![Ok::<Seq<EventView>, StreamError>(open)] + after).skip(1) =~= after);
                            }
                            return Some(Ok(tick));
                        },
                        None => {
                            proof {
                                taken = taken + 1;
                            }
                        },
                    }
                },
            }
        }
    }
}

} // verus!
