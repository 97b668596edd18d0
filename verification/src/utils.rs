//! The numbers that a progress display of a backtest shows.

use crate::book::lowest_ask;
use crate::collection::{Books, OrderBookCollection};
use crate::market::{count_nonzero, Holdings};
use crate::symbol_map::SymbolMap;
use vstd::prelude::*;

verus! {

/// The lowest ask of every book that has one, by symbol.
pub open spec fn ask_prices(books: Books) -> Map<Seq<char>, u64> {
    Map::new(
        |symbol: Seq<char>| books.contains_key(symbol) && lowest_ask(books[symbol]) is Some,
        |symbol: Seq<char>| lowest_ask(books[symbol])->0,
    )
}

/// The lowest ask of every book that has one, by symbol.
pub fn lowest_asks(books: &OrderBookCollection) -> (prices: SymbolMap<u64>)
    ensures
        prices@ == ask_prices(books@),
{
    let n = books.len();
    let mut prices: SymbolMap<u64> = SymbolMap::new();
    let mut i: usize = 0;
    while i < n
        invariant
            0 <= i <= n,
            n == books.symbols().len(),
            books.consistent(),
            forall|symbol: Seq<char>|
                prices@.contains_key(symbol) <==> books.symbols().take(i as int).contains(symbol) && lowest_ask(
                    books@[symbol],
                ) is Some,
            forall|symbol: Seq<char>| #[trigger]
                prices@.contains_key(symbol) ==> prices@[symbol] == lowest_ask(books@[symbol])->0,
        decreases n - i,
    {
        let ghost symbols = books.symbols();
        let ghost before = prices@;
        let ghost next = symbols.take(i + 1);
        proof {
            assert(next =~= symbols.take(i as int).push(symbols[i as int]));
            assert forall|s: Seq<char>| next.contains(s) <==> symbols.take(i as int).contains(s) || s
                == symbols[i as int] by {
                if next.contains(s) {
                    let j = choose|j: int| 0 <= j < next.len() && next[j] == s;
                    if j < i {
                        assert(symbols.take(i as int)[j] == s);
                    }
                }
                if symbols.take(i as int).contains(s) {
                    let j = choose|j: int| 0 <= j < i && symbols.take(i as int)[j] == s;
                    assert(next[j] == s);
                }
                assert(next[i as int] == symbols[i as int]);
            }
        }
        match books.book_at(i).lowest_ask() {
            Some(price) => {
                prices.insert(books.symbol_at(i).clone(), price);
            },
            None => {},
        }
        i += 1;
    }
    proof {
        assert(books.symbols().take(n as int) =~= books.symbols());
        assert(prices@ =~= ask_prices(books@));
    }
    prices
}

/// The numbers of one line of progress.
#[derive(Clone, Copy, Debug, PartialEq, Eq, Structural)]
pub struct Progress {
    /// The assets held in an amount that is not zero, cash not among them.
    pub holdings: usize,
    /// The symbols that have a book.
    pub symbols: usize,
    /// The value of the holdings at the lowest asks.
    pub total_value: i128,
    /// The cash balance.
    pub cash: i128,
}

/// The numbers to show after a step of a backtest: how many assets are
/// held, one less than the amounts that are not zero, for the cash; how
/// many symbols have a book; the value of the holdings at the lowest asks;
/// and the cash. None, where the value leaves the range of the ledger's
/// numbers.
pub fn progress(step: &Holdings, last_events: &OrderBookCollection) -> (numbers: Option<Progress>)
    ensures
        match numbers {
            Some(p) => {
                &&& step.checked_value(ask_prices(last_events@)) == Some(p.total_value as int)
                &&& p.total_value == step.value(ask_prices(last_events@))
                &&& p.cash == step.cash_balance()
                &&& p.symbols == last_events.symbols().len()
                &&& p.holdings == if count_nonzero(step.amounts(), step.amounts().len() as int) > 0 {
                    count_nonzero(step.amounts(), step.amounts().len() as int) - 1
                } else {
                    0
                }
            },
            None => step.checked_value(ask_prices(last_events@)) is None,
        },
{
    let prices = lowest_asks(last_events);
    let total_value = match step.total_value(&prices) {
        Some(value) => value,
        None => {
            return None;
        },
    };
    let nonzero = step.nonzero_count();
    let holdings: usize = if nonzero > 0 {
        nonzero - 1
    } else {
        0
    };
    Some(Progress { holdings, symbols: last_events.len(), total_value, cash: step.cash() })
}

} // verus!
