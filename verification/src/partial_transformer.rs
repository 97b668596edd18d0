//! The order-book reconciler: turns a stream of full snapshots and
//! incremental depth updates into a stream of full order books.
//!
//! A snapshot replaces the book of its symbol. A depth update changes the
//! book of its symbol if one is known and is dropped otherwise. Every event
//! that leaves a known book behind is answered with that book; events that
//! carry no book pass through as they are.

use crate::book::{apply_delta, book_sorted, lemma_apply_delta_sorted, OrderBookView};
use crate::collection::{Books, OrderBookCollection};
use crate::event::{
    lemma_readable_push, maybe_view, readable, Event, EventType, EventTypeView, EventView, StreamError,
};
use crate::reader::{pull_view, pulled, EventIterator};
use vstd::prelude::*;

verus! {

/// The known books after one event.
pub open spec fn reconcile_books(books: Books, ev: EventView) -> Books {
    match ev.event {
        EventTypeView::FullOrderBook(book) => books.insert(ev.symbol, book),
        EventTypeView::PartialOrderBook(delta) => if books.contains_key(ev.symbol) {
            books.insert(ev.symbol, apply_delta(books[ev.symbol], delta))
        } else {
            books
        },
        _ => books,
    }
}

/// The reconciled event with which one event is answered, if it is answered.
/// A book event is answered with the book of its symbol as it is after the
/// event, under the event's own symbol and time; a depth update for a symbol
/// without a book is not answered. Any other event is its own answer.
pub open spec fn reconcile_output(books: Books, ev: EventView) -> Option<EventView> {
    match ev.event {
        EventTypeView::FullOrderBook(_) | EventTypeView::PartialOrderBook(_) => {
            let after = reconcile_books(books, ev);
            if after.contains_key(ev.symbol) {
                Some(
                    EventView {
                        symbol: ev.symbol,
                        receive_time: ev.receive_time,
                        event: EventTypeView::FullOrderBook(after[ev.symbol]),
                    },
                )
            } else {
                None
            }
        },
        _ => Some(ev),
    }
}

/// The known books after a sequence of events.
pub open spec fn books_after(books: Books, events: Seq<EventView>) -> Books
    decreases events.len(),
{
    if events.len() == 0 {
        books
    } else {
        reconcile_books(books_after(books, events.drop_last()), events.last())
    }
}

/// The reconciled stream that a stream of pulled items gives, starting from
/// the known books `books`. A failed pull is handed on in its place.
pub open spec fn reconciled(books: Books, items: Seq<Result<EventView, StreamError>>) -> Seq<
    Result<EventView, StreamError>,
>
    decreases items.len(),
{
    if items.len() == 0 {
        Seq::empty()
    } else {
        match items[0] {
            Err(e) => seq![Err(e)] + reconciled(books, items.skip(1)),
            Ok(ev) => {
                let rest = reconciled(reconcile_books(books, ev), items.skip(1));
                match reconcile_output(books, ev) {
                    Some(out) => seq![Ok(out)] + rest,
                    None => rest,
                }
            },
        }
    }
}

/// A pull reads on over `item`: it is a depth update for a symbol of which
/// no book is known.
pub open spec fn unanswered(books: Books, item: Result<EventView, StreamError>) -> bool {
    item matches Ok(ev) && reconcile_output(books, ev) is None
}

/// The number of items at the front of `items` over which a pull reads on.
pub open spec fn skipped(books: Books, items: Seq<Result<EventView, StreamError>>) -> nat
    decreases items.len(),
{
    if items.len() > 0 && unanswered(books, items[0]) {
        1 + skipped(books, items.skip(1))
    } else {
        0
    }
}

/// The number of items that one pull takes from the source: those at the
/// front over which it reads on, and the item after them, if there is one.
pub open spec fn pull_len(books: Books, items: Seq<Result<EventView, StreamError>>) -> nat {
    let n = skipped(books, items);
    if n < items.len() {
        n + 1
    } else {
        n
    }
}

/// What one pull hands out: the answer to the first item over which it
/// does not read on, or the failure that this item is; nothing, if there
/// is no such item.
pub open spec fn pull_item(books: Books, items: Seq<Result<EventView, StreamError>>) -> Option<
    Result<EventView, StreamError>,
> {
    let n = skipped(books, items) as int;
    if n < items.len() {
        match items[n] {
            Ok(ev) => Some(Ok(reconcile_output(books, ev)->0)),
            Err(e) => Some(Err(e)),
        }
    } else {
        None
    }
}

/// The known books after one pull. The items over which the pull reads on
/// change no book, so the books are those after the item that ended it.
pub open spec fn pull_books(books: Books, items: Seq<Result<EventView, StreamError>>) -> Books {
    let n = skipped(books, items) as int;
    if n < items.len() {
        match items[n] {
            Ok(ev) => reconcile_books(books, ev),
            Err(_) => books,
        }
    } else {
        books
    }
}

/// A pull reads on over exactly the items before the first that is
/// answered or failed.
pub proof fn lemma_skipped(books: Books, items: Seq<Result<EventView, StreamError>>)
    ensures
        skipped(books, items) <= items.len(),
        forall|i: int| 0 <= i < skipped(books, items) ==> unanswered(books, #[trigger] items[i]),
        skipped(books, items) < items.len() ==> !unanswered(books, items[skipped(books, items) as int]),
    decreases items.len(),
{
    if items.len() > 0 && unanswered(books, items[0]) {
        let rest = items.skip(1);
        lemma_skipped(books, rest);
        assert forall|i: int| 0 <= i < skipped(books, items) implies unanswered(books, #[trigger] items[i]) by {
            if i > 0 {
                assert(items[i] == rest[i - 1]);
            }
        }
        if skipped(books, rest) < rest.len() {
            assert(items[skipped(books, items) as int] == rest[skipped(books, rest) as int]);
        }
    }
}

/// The books after a pull are the books after the events among the items
/// that the pull took from the source.
pub proof fn lemma_pull_books(books: Books, items: Seq<Result<EventView, StreamError>>)
    ensures
        pull_books(books, items) == books_after(books, readable(items.take(pull_len(books, items) as int))),
{
    lemma_skipped(books, items);
    let n = skipped(books, items) as int;
    lemma_books_after_unanswered(books, items, n);
    if n < items.len() {
        let before = readable(items.take(n));
        assert(items.take(n + 1) =~= items.take(n).push(items[n]));
        lemma_readable_push(items.take(n), items[n]);
        match items[n] {
            Ok(ev) => {
                assert(before.push(ev).drop_last() =~= before);
            },
            Err(_) => {},
        }
    }
}

/// The items over which a pull reads on leave the books as they were.
pub proof fn lemma_books_after_unanswered(books: Books, items: Seq<Result<EventView, StreamError>>, n: int)
    requires
        0 <= n <= items.len(),
        forall|i: int| 0 <= i < n ==> unanswered(books, #[trigger] items[i]),
    ensures
        books_after(books, readable(items.take(n))) == books,
    decreases n,
{
    if n > 0 {
        lemma_books_after_unanswered(books, items, n - 1);
        let before = readable(items.take(n - 1));
        let ev = items[n - 1]->Ok_0;
        assert(unanswered(books, items[n - 1]));
        assert(items.take(n) =~= items.take(n - 1).push(items[n - 1]));
        lemma_readable_push(items.take(n - 1), items[n - 1]);
        assert(before.push(ev).drop_last() =~= before);
    } else {
        assert(items.take(0) =~= Seq::<Result<EventView, StreamError>>::empty());
    }
}

/// Every book in `books` has its bids strictly descending and its asks
/// strictly ascending.
pub open spec fn all_sorted(books: Books) -> bool {
    forall|symbol: Seq<char>| #[trigger] books.contains_key(symbol) ==> book_sorted(books[symbol])
}

/// A book event names a valid book; other events need nothing.
pub open spec fn event_sorted(ev: EventView) -> bool {
    ev.event matches EventTypeView::FullOrderBook(book) ==> book_sorted(book)
}

/// Sort invariant of the reconciler: one event keeps every known book valid.
pub proof fn lemma_reconcile_keeps_sorted(books: Books, ev: EventView)
    requires
        all_sorted(books),
        event_sorted(ev),
    ensures
        all_sorted(reconcile_books(books, ev)),
{
    match ev.event {
        EventTypeView::PartialOrderBook(delta) => {
            if books.contains_key(ev.symbol) {
                lemma_apply_delta_sorted(books[ev.symbol], delta);
            }
        },
        _ => {},
    }
}

/// Snapshot override: whatever events came before, a snapshot leaves exactly
/// its own book as the book of its symbol, is answered with that book, and
/// leaves the books of all other symbols as they were.
pub proof fn lemma_snapshot_override(books: Books, history: Seq<EventView>, snapshot: EventView)
    requires
        snapshot.event is FullOrderBook,
    ensures
        ({
            let before = books_after(books, history);
            let after = books_after(books, history.push(snapshot));
            &&& after.contains_key(snapshot.symbol)
            &&& after[snapshot.symbol] == snapshot.event->FullOrderBook_0
            &&& reconcile_output(before, snapshot) == Some(snapshot)
            &&& forall|symbol: Seq<char>|
                symbol != snapshot.symbol ==> (after.contains_key(symbol) <==> before.contains_key(symbol)) && (
                before.contains_key(symbol) ==> after[symbol] == before[symbol])
        }),
{
    assert(history.push(snapshot).drop_last() =~= history);
}

/// Drop until snapshot, first half: a depth update for a symbol without a
/// book is not answered and changes nothing.
pub proof fn lemma_delta_without_book(books: Books, ev: EventView)
    requires
        ev.event is PartialOrderBook,
        !books.contains_key(ev.symbol),
    ensures
        reconcile_output(books, ev) is None,
        reconcile_books(books, ev) == books,
{
}

/// Drop until snapshot, second half: once a snapshot has come, a depth
/// update for its symbol is answered with the snapshot's book as the update
/// changes it.
pub proof fn lemma_delta_after_snapshot(books: Books, snapshot: EventView, ev: EventView)
    requires
        snapshot.event is FullOrderBook,
        ev.event is PartialOrderBook,
        ev.symbol == snapshot.symbol,
    ensures
        ({
            let known = reconcile_books(books, snapshot);
            let updated = apply_delta(snapshot.event->FullOrderBook_0, ev.event->PartialOrderBook_0);
            &&& reconcile_books(known, ev) == known.insert(ev.symbol, updated)
            &&& reconcile_output(known, ev) == Some(
                EventView {
                    symbol: ev.symbol,
                    receive_time: ev.receive_time,
                    event: EventTypeView::FullOrderBook(updated),
                },
            )
        }),
{
}

/// Idempotent re-snapshot: the same snapshot a second time changes no book
/// and is answered as it was the first time.
pub proof fn lemma_resnapshot_idempotent(books: Books, snapshot: EventView)
    requires
        snapshot.event is FullOrderBook,
    ensures
        ({
            let once = reconcile_books(books, snapshot);
            &&& reconcile_books(once, snapshot) == once
            &&& reconcile_output(once, snapshot) == reconcile_output(books, snapshot)
        }),
{
    let once = reconcile_books(books, snapshot);
    assert(reconcile_books(once, snapshot) =~= once);
}

/// The order-book reconciler over a source of events.
#[derive(Debug)]
pub struct PartialTransformer {
    event_iter: EventIterator,
    order_books: OrderBookCollection,
}

impl PartialTransformer {
    /// The books known so far, by symbol.
    pub closed spec fn books(&self) -> Books {
        self.order_books@
    }

    /// What the source still holds.
    pub closed spec fn pending(&self) -> Seq<Result<EventView, StreamError>> {
        self.event_iter.remaining()
    }

    /// The reconciled stream still to come.
    pub open spec fn remaining(&self) -> Seq<Result<EventView, StreamError>> {
        reconciled(self.books(), self.pending())
    }

    /// A reconciler over `event_iter` that knows no book yet.
    pub fn new(event_iter: EventIterator) -> (transformer: PartialTransformer)
        ensures
            transformer.books() == Map::<Seq<char>, OrderBookView>::empty(),
            transformer.pending() == event_iter.remaining(),
    {
        PartialTransformer { event_iter, order_books: OrderBookCollection::new() }
    }

    /// The books known so far.
    pub fn order_books(&self) -> (books: &OrderBookCollection)
        ensures
            books@ == self.books(),
    {
        &self.order_books
    }

    /// Reconciles one event that did not come from the source: updates the
    /// known books and hands out the answer, if the event has one.
    pub fn apply(&mut self, ev: Event) -> (answer: Option<Event>)
        ensures
            final(self).books() == reconcile_books(old(self).books(), ev@),
            maybe_view(answer) == reconcile_output(old(self).books(), ev@),
            final(self).pending() == old(self).pending(),
    {
        let Event { symbol, receive_time, event } = ev;
        match event {
            EventType::FullOrderBook(book) => {
                let answer = book.clone();
                self.order_books.insert(symbol.clone(), book);
                Some(Event { symbol, receive_time, event: EventType::FullOrderBook(answer) })
            },
            EventType::PartialOrderBook(delta) => {
                match self.order_books.apply_delta(&symbol, &delta) {
                    Some(book) => Some(Event { symbol, receive_time, event: EventType::FullOrderBook(book) }),
                    None => None,
                }
            },
            other => Some(Event { symbol, receive_time, event: other }),
        }
    }

    /// Pulls the next reconciled event: reads on from the source, past the
    /// depth updates that cannot be resolved, until an event is answered, a
    /// read fails or the source is exhausted.
    pub fn next(&mut self) -> (item: Option<Result<Event, StreamError>>)
        ensures
            pulled(old(self).remaining(), final(self).remaining(), pull_view(item)),
            pull_view(item) == pull_item(old(self).books(), old(self).pending()),
            final(self).pending() == old(self).pending().skip(pull_len(old(self).books(), old(self).pending()) as int),
            final(self).books() == pull_books(old(self).books(), old(self).pending()),
    {
        let ghost first_books = self.books();
        let ghost all = self.pending();
        let ghost mut taken: int = 0;
        proof {
            assert(all.skip(0) =~= all);
        }
        loop
            invariant
                self.remaining() == old(self).remaining(),
                first_books == old(self).books(),
                all == old(self).pending(),
                0 <= taken <= all.len(),
                self.pending() == all.skip(taken),
                self.books() == first_books,
                skipped(first_books, all) == taken + skipped(first_books, self.pending()),
            decreases self.pending().len(),
        {
            let ghost pending = self.pending();
            proof {
                if taken < all.len() {
                    assert(pending[0] == all[taken]);
                    assert(pending.skip(1) =~= all.skip(taken + 1));
                }
            }
            match self.event_iter.next() {
                None => {
                    return None;
                },
                Some(Err(e)) => {
                    proof {
                        let rest = reconciled(first_books, pending.skip(1));
                        assert((seq![Err::<EventView, StreamError>(e)] + rest).skip(1) =~= rest);
                    }
                    return Some(Err(e));
                },
                Some(Ok(ev)) => {
                    let ghost rest = reconciled(reconcile_books(first_books, ev@), pending.skip(1));
                    match self.apply(ev) {
                        Some(answer) => {
                            proof {
                                assert((seq![Ok::<EventView, StreamError>(answer@)] + rest).skip(1) =~= rest);
                            }
                            return Some(Ok(answer));
                        },
                        None => {
                            proof {
                                taken = taken + 1;
                            }
                        },
                    }
                },
            }
        }
    }
}

} // verus!
