//! The latest known order book of every instrument.

use crate::book::{apply_delta, update_full_order_book, DepthDelta, OrderBook, OrderBookView};
use crate::symbol_map::SymbolMap;
use vstd::prelude::*;

verus! {

/// The books of a collection, by symbol.
pub type Books = Map<Seq<char>, OrderBookView>;

/// The books that a list of symbols and the list of their books stand for.
pub open spec fn books_of(map: Map<Seq<char>, OrderBook>) -> Books {
    map.map_values(|book: OrderBook| book@)
}

/// Inserting a book and then viewing is viewing and then inserting its view.
pub proof fn lemma_books_of_insert(map: Map<Seq<char>, OrderBook>, symbol: Seq<char>, book: OrderBook)
    ensures
        books_of(map.insert(symbol, book)) == books_of(map).insert(symbol, book@),
{
    assert(books_of(map.insert(symbol, book)) =~= books_of(map).insert(symbol, book@));
}

/// A mapping from symbol to the latest known order book of that symbol. An
/// entry changes as a whole; books of different symbols never mix.
#[derive(Debug)]
pub struct OrderBookCollection {
    books: SymbolMap<OrderBook>,
}

impl View for OrderBookCollection {
    type V = Books;

    closed spec fn view(&self) -> Books {
        books_of(self.books@)
    }
}

impl OrderBookCollection {
    /// The symbols, in the order in which their first books came.
    pub closed spec fn symbols(&self) -> Seq<Seq<char>> {
        self.books.keys()
    }

    /// The symbols are those that have a book, each once.
    pub open spec fn consistent(&self) -> bool {
        &&& self.symbols().no_duplicates()
        &&& forall|symbol: Seq<char>| self@.contains_key(symbol) <==> self.symbols().contains(symbol)
    }

    pub fn new() -> (collection: OrderBookCollection)
        ensures
            collection@ == Map::<Seq<char>, OrderBookView>::empty(),
            collection.symbols() == Seq::<Seq<char>>::empty(),
    {
        let collection = OrderBookCollection { books: SymbolMap::new() };
        assert(collection@ =~= Map::<Seq<char>, OrderBookView>::empty());
        collection
    }

    /// The number of symbols that have a book.
    pub fn len(&self) -> (n: usize)
        ensures
            n == self.symbols().len(),
            self.consistent(),
    {
        self.books.len()
    }

    pub fn contains_key(&self, symbol: &String) -> (found: bool)
        ensures
            found == self@.contains_key(symbol@),
    {
        self.books.contains_key(symbol)
    }

    /// The book of `symbol`, if one is known.
    pub fn get(&self, symbol: &String) -> (book: Option<&OrderBook>)
        ensures
            match book {
                Some(b) => self@.contains_key(symbol@) && b@ == self@[symbol@],
                None => !self@.contains_key(symbol@),
            },
    {
        self.books.get(symbol)
    }

    /// The symbol at `index`.
    pub fn symbol_at(&self, index: usize) -> (symbol: &String)
        requires
            index < self.symbols().len(),
        ensures
            symbol@ == self.symbols()[index as int],
    {
        self.books.key_at(index)
    }

    /// The book of the symbol at `index`.
    pub fn book_at(&self, index: usize) -> (book: &OrderBook)
        requires
            index < self.symbols().len(),
        ensures
            self@.contains_key(self.symbols()[index as int]),
            book@ == self@[self.symbols()[index as int]],
    {
        self.books.value_at(index)
    }

    /// Makes `book` the book of `symbol`, in place of any earlier one.
    pub fn insert(&mut self, symbol: String, book: OrderBook)
        ensures
            final(self)@ == old(self)@.insert(symbol@, book@),
            final(self).symbols() == if old(self)@.contains_key(symbol@) {
                old(self).symbols()
            } else {
                old(self).symbols().push(symbol@)
            },
    {
        proof {
            lemma_books_of_insert(self.books@, symbol@, book);
        }
        self.books.insert(symbol, book);
    }

    /// Applies a depth update to the book of `symbol` and hands out a copy of
    /// the book as it then is. Without a book for `symbol` nothing changes.
    pub fn apply_delta(&mut self, symbol: &String, delta: &DepthDelta) -> (updated: Option<OrderBook>)
        ensures
            final(self).symbols() == old(self).symbols(),
            match updated {
                Some(book) => {
                    &&& old(self)@.contains_key(symbol@)
                    &&& book@ == apply_delta(old(self)@[symbol@], delta@)
                    &&& final(self)@ == old(self)@.insert(symbol@, book@)
                },
                None => !old(self)@.contains_key(symbol@) && final(self)@ == old(self)@,
            },
    {
        match self.books.index_of(symbol) {
            Some(i) => {
                let mut book = self.books.replace_at(i, OrderBook::empty());
                update_full_order_book(&mut book, delta);
                let copy = book.clone();
                proof {
                    lemma_books_of_insert(old(self).books@, symbol@, book);
                    assert(self.books@.insert(symbol@, book) =~= old(self).books@.insert(symbol@, book));
                }
                self.books.replace_at(i, book);
                Some(copy)
            },
            None => None,
        }
    }
}

impl Clone for OrderBookCollection {
    fn clone(&self) -> (copy: OrderBookCollection)
        ensures
            copy@ == self@,
            copy.symbols() == self.symbols(),
    {
        let n = self.books.len();
        let mut copy = OrderBookCollection::new();
        let mut i: usize = 0;
        while i < n
            invariant
                0 <= i <= n,
                n == self.symbols().len(),
                self.books.consistent(),
                copy.symbols() == self.symbols().take(i as int),
                forall|symbol: Seq<char>| copy@.contains_key(symbol) <==> self.symbols().take(i as int).contains(symbol),
                forall|symbol: Seq<char>| #[trigger] copy@.contains_key(symbol) ==> copy@[symbol] == self@[symbol],
            decreases n - i,
        {
            let symbol = self.books.key_at(i).clone();
            let book = self.books.value_at(i).clone();
            proof {
                let keys = self.symbols();
                let next = keys.take(i + 1);
                assert(next =~= keys.take(i as int).push(keys[i as int]));
                assert(!keys.take(i as int).contains(keys[i as int])) by {
                    if keys.take(i as int).contains(keys[i as int]) {
                        let j = choose|j: int| 0 <= j < i && keys.take(i as int)[j] == keys[i as int];
                        assert(keys[j] == keys[i as int]);
                    }
                }
                assert forall|s: Seq<char>| copy@.insert(symbol@, book@).contains_key(s) <==> next.contains(s) by {
                    if next.contains(s) {
                        let j = choose|j: int| 0 <= j < next.len() && next[j] == s;
                        if j < i {
                            assert(keys.take(i as int)[j] == s);
                        }
                    }
                    if keys.take(i as int).contains(s) {
                        let j = choose|j: int| 0 <= j < i && keys.take(i as int)[j] == s;
                        assert(next[j] == s);
                    }
                    assert(next[i as int] == symbol@);
                }
            }
            copy.insert(symbol, book);
            i += 1;
        }
        proof {
            assert(self.symbols().take(n as int) =~= self.symbols());
            assert forall|symbol: Seq<char>| self@.contains_key(symbol) <==> self.symbols().contains(symbol) by {}
            assert(copy@ =~= self@);
        }
        copy
    }
}

} // verus!
