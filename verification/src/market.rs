//! The backtest engine: a holdings ledger, the settlement of trades at the
//! best ask, and the replay of ticks against a strategy.
//!
//! Amounts are exact integers. A price counts ticks and a quantity counts
//! lots, so cash is counted in ticks times lots and a cost, price times
//! quantity, is exact.

use crate::book::{lowest_ask, OrderBookView};
use crate::collection::{Books, OrderBookCollection};
use crate::error::ReplayError;
use crate::event::{events_view, Event, EventType, EventTypeView, EventView};
use crate::partial_transformer::{reconciled, PartialTransformer};
use crate::reader::{grouped, pulled, EventGrouper, EventIterator, TickView};
use crate::symbol_map::SymbolMap;
use vstd::prelude::*;
use vstd::string::*;

verus! {

/// The asset in which cash is held.
pub open spec fn cash_key() -> Seq<char> {
    "USD"@
}

/// `x` is in the range of the ledger's numbers.
pub open spec fn fits(x: int) -> bool {
    i128::MIN <= x <= i128::MAX
}

/// The amount held of `asset`: nothing, if the ledger does not list it.
pub open spec fn held(ledger: Map<Seq<char>, i128>, asset: Seq<char>) -> int {
    if ledger.contains_key(asset) {
        ledger[asset] as int
    } else {
        0
    }
}

/// The price of `asset` in a table of prices: zero, if it has none.
pub open spec fn price_of(prices: Map<Seq<char>, u64>, asset: Seq<char>) -> int {
    if prices.contains_key(asset) {
        prices[asset] as int
    } else {
        0
    }
}

/// The value of the first `n` assets of a ledger at the given prices: the
/// sum of price times amount.
pub open spec fn positions_value(
    assets: Seq<Seq<char>>,
    amounts: Seq<i128>,
    prices: Map<Seq<char>, u64>,
    n: int,
) -> int
    decreases n,
{
    if n <= 0 {
        0
    } else {
        positions_value(assets, amounts, prices, n - 1) + price_of(prices, assets[n - 1]) * amounts[n - 1]
    }
}

/// The value of the first `n` assets as the ledger can compute it: the sum,
/// if every product and every sum on the way to it is in range.
pub open spec fn checked_positions_value(
    assets: Seq<Seq<char>>,
    amounts: Seq<i128>,
    prices: Map<Seq<char>, u64>,
    n: int,
) -> Option<int>
    decreases n,
{
    if n <= 0 {
        Some(0)
    } else {
        match checked_positions_value(assets, amounts, prices, n - 1) {
            None => None,
            Some(sum) => {
                let product = price_of(prices, assets[n - 1]) * amounts[n - 1];
                if fits(product) && fits(sum + product) {
                    Some(sum + product)
                } else {
                    None
                }
            },
        }
    }
}

/// Where the ledger can compute a value, it is the sum of price times
/// amount.
pub proof fn lemma_checked_positions_value(
    assets: Seq<Seq<char>>,
    amounts: Seq<i128>,
    prices: Map<Seq<char>, u64>,
    n: int,
)
    ensures
        checked_positions_value(assets, amounts, prices, n) matches Some(sum) ==> sum == positions_value(
            assets,
            amounts,
            prices,
            n,
        ) && fits(sum),
    decreases n,
{
    if n > 0 {
        lemma_checked_positions_value(assets, amounts, prices, n - 1);
    }
}

/// The number of amounts among the first `n` that are not zero.
pub open spec fn count_nonzero(amounts: Seq<i128>, n: int) -> nat
    decreases n,
{
    if n <= 0 {
        0
    } else if amounts[n - 1] != 0 {
        count_nonzero(amounts, n - 1) + 1
    } else {
        count_nonzero(amounts, n - 1)
    }
}

/// The simulated portfolio: the amount held of every asset, cash among
/// them. It is made with a cash balance and changes only when a trade is
/// settled.
#[derive(Debug)]
pub struct Holdings {
    ledger: SymbolMap<i128>,
}

impl View for Holdings {
    type V = Map<Seq<char>, i128>;

    closed spec fn view(&self) -> Map<Seq<char>, i128> {
        self.ledger@
    }
}

impl Holdings {
    /// The assets, in the order in which they were first held.
    pub closed spec fn assets(&self) -> Seq<Seq<char>> {
        self.ledger.keys()
    }

    /// The amounts, each at the index of its asset.
    pub closed spec fn amounts(&self) -> Seq<i128> {
        self.ledger.values()
    }

    #[verifier::type_invariant]
    spec fn well_formed(self) -> bool {
        self.ledger@.contains_key(cash_key())
    }

    /// The cash balance.
    pub open spec fn cash_balance(&self) -> int {
        self@[cash_key()] as int
    }

    /// The value of the holdings at the given prices: every amount at the
    /// price of its asset, and the cash on top.
    pub open spec fn value(&self, prices: Map<Seq<char>, u64>) -> int {
        positions_value(self.assets(), self.amounts(), prices, self.assets().len() as int) + self.cash_balance()
    }

    /// The value of the holdings as the ledger can compute it: none, where
    /// a product or a sum on the way to it leaves the range.
    pub open spec fn checked_value(&self, prices: Map<Seq<char>, u64>) -> Option<int> {
        match checked_positions_value(self.assets(), self.amounts(), prices, self.assets().len() as int) {
            Some(sum) => if fits(sum + self.cash_balance()) {
                Some(sum + self.cash_balance())
            } else {
                None
            },
            None => None,
        }
    }

    /// Holdings of `cash` in cash and nothing else.
    pub fn new_cash(cash: i128) -> (holdings: Holdings)
        ensures
            holdings@ == Map::<Seq<char>, i128>::empty().insert(cash_key(), cash),
            holdings.assets() == seq![cash_key()],
            holdings.amounts() == seq![cash],
    {
        let mut ledger: SymbolMap<i128> = SymbolMap::new();
        ledger.insert(String::from_str("USD"), cash);
        assert(ledger.keys() =~= seq![cash_key()]);
        assert(ledger.values() =~= seq![cash]);
        Holdings { ledger }
    }

    /// The cash balance.
    pub fn cash(&self) -> (cash: i128)
        ensures
            self@.contains_key(cash_key()),
            cash == self.cash_balance(),
    {
        proof {
            use_type_invariant(self);
        }
        let key = String::from_str("USD");
        match self.ledger.get(&key) {
            Some(cash) => *cash,
            None => 0,
        }
    }

    /// The amount held of `asset`, if the ledger lists it.
    pub fn get(&self, asset: &String) -> (amount: Option<i128>)
        ensures
            match amount {
                Some(a) => self@.contains_key(asset@) && a == self@[asset@],
                None => !self@.contains_key(asset@),
            },
    {
        match self.ledger.get(asset) {
            Some(amount) => Some(*amount),
            None => None,
        }
    }

    /// The amount held of `asset`: nothing, if the ledger does not list it.
    pub fn amount(&self, asset: &String) -> (amount: i128)
        ensures
            amount == held(self@, asset@),
    {
        match self.ledger.get(asset) {
            Some(amount) => *amount,
            None => 0,
        }
    }

    /// The number of assets that the ledger lists.
    pub fn len(&self) -> (n: usize)
        ensures
            n == self.assets().len(),
            n == self.amounts().len(),
            self.assets().no_duplicates(),
    {
        self.ledger.len()
    }

    /// The asset at `index`.
    pub fn asset_at(&self, index: usize) -> (asset: &String)
        requires
            index < self.assets().len(),
        ensures
            asset@ == self.assets()[index as int],
    {
        self.ledger.key_at(index)
    }

    /// The amount held of the asset at `index`.
    pub fn amount_at(&self, index: usize) -> (amount: i128)
        requires
            index < self.assets().len(),
        ensures
            amount == self.amounts()[index as int],
            self@.contains_key(self.assets()[index as int]),
            amount == self@[self.assets()[index as int]],
    {
        *self.ledger.value_at(index)
    }

    /// The number of assets of which the amount held is not zero.
    pub fn nonzero_count(&self) -> (count: usize)
        ensures
            count == count_nonzero(self.amounts(), self.amounts().len() as int),
    {
        let n = self.ledger.len();
        let mut count: usize = 0;
        let mut i: usize = 0;
        while i < n
            invariant
                0 <= i <= n,
                n == self.amounts().len(),
                n == self.assets().len(),
                count <= i,
                count == count_nonzero(self.amounts(), i as int),
            decreases n - i,
        {
            if *self.ledger.value_at(i) != 0 {
                count += 1;
            }
            i += 1;
        }
        count
    }

    /// The value of the holdings at the given prices, each amount at the
    /// price of its asset and the cash on top; none, where a product or a
    /// sum on the way to it leaves the range of the ledger's numbers.
    pub fn total_value(&self, lowest_asks: &SymbolMap<u64>) -> (total: Option<i128>)
        ensures
            match total {
                Some(v) => self.checked_value(lowest_asks@) == Some(v as int) && v == self.value(lowest_asks@),
                None => self.checked_value(lowest_asks@) is None,
            },
    {
        let n = self.ledger.len();
        let mut total: i128 = 0;
        let mut i: usize = 0;
        while i < n
            invariant
                0 <= i <= n,
                n == self.assets().len(),
                n == self.amounts().len(),
                checked_positions_value(self.assets(), self.amounts(), lowest_asks@, i as int) == Some(total as int),
            decreases n - i,
        {
            let price: u64 = match lowest_asks.get(self.ledger.key_at(i)) {
                Some(p) => *p,
                None => 0,
            };
            let amount = *self.ledger.value_at(i);
            let product = match (price as i128).checked_mul(amount) {
                Some(product) => product,
                None => {
                    proof {
                        lemma_checked_stays_none(self.assets(), self.amounts(), lowest_asks@, i + 1, n as int);
                    }
                    return None;
                },
            };
            total = match total.checked_add(product) {
                Some(sum) => sum,
                None => {
                    proof {
                        lemma_checked_stays_none(self.assets(), self.amounts(), lowest_asks@, i + 1, n as int);
                    }
                    return None;
                },
            };
            i += 1;
        }
        proof {
            lemma_checked_positions_value(self.assets(), self.amounts(), lowest_asks@, n as int);
        }
        total.checked_add(self.cash())
    }
}

/// Once a value has left the range it stays out of it.
pub proof fn lemma_checked_stays_none(
    assets: Seq<Seq<char>>,
    amounts: Seq<i128>,
    prices: Map<Seq<char>, u64>,
    k: int,
    n: int,
)
    requires
        0 <= k <= n,
        checked_positions_value(assets, amounts, prices, k) is None,
    ensures
        checked_positions_value(assets, amounts, prices, n) is None,
    decreases n - k,
{
    if k < n {
        lemma_checked_stays_none(assets, amounts, prices, k, n - 1);
    }
}

/// The strategy's requests for one tick, in the order in which they are to
/// be settled: a symbol and a signed quantity each, positive to buy and
/// negative to sell.
pub type OrderBundle = Vec<(String, i64)>;

/// What a bundle of requests holds.
pub open spec fn bundle_view(bundle: Seq<(String, i64)>) -> Seq<(Seq<char>, i64)> {
    bundle.map_values(|trade: (String, i64)| (trade.0@, trade.1))
}

/// `cash` divided by `price`, rounded towards zero.
pub open spec fn quotient(cash: int, price: int) -> int {
    if cash >= 0 {
        cash / price
    } else {
        -((-cash) / price)
    }
}

/// The quantity that is executed of a request. A request whose cost, price
/// times quantity, is more than the cash is cut down to what the cash pays
/// for; at price zero no such quantity exists. Any other request is
/// executed in full.
pub open spec fn executable_quantity(cash: int, price: int, quantity: int) -> Option<int> {
    if price * quantity > cash {
        if price == 0 {
            None
        } else {
            Some(quotient(cash, price))
        }
    } else {
        Some(quantity)
    }
}

/// The ledger after one request has been settled against the known books.
/// The request is priced at the lowest ask of its symbol, whichever way it
/// goes; the executed quantity is added to the amount held of the symbol,
/// and its cost is taken from the cash.
pub open spec fn settled(ledger: Map<Seq<char>, i128>, books: Books, symbol: Seq<char>, quantity: i64) -> Result<
    Map<Seq<char>, i128>,
    ReplayError,
> {
    if !books.contains_key(symbol) {
        Err(ReplayError::UnknownSymbol)
    } else {
        match lowest_ask(books[symbol]) {
            None => Err(ReplayError::NoAskPrice),
            Some(price) => {
                let cash = held(ledger, cash_key());
                match executable_quantity(cash, price as int, quantity as int) {
                    None => Err(ReplayError::ZeroPrice),
                    Some(executed) => {
                        let amount = held(ledger, symbol) + executed;
                        let rest = cash - price * executed;
                        if fits(amount) && fits(rest) {
                            Ok(ledger.insert(symbol, amount as i128).insert(cash_key(), rest as i128))
                        } else {
                            Err(ReplayError::Overflow)
                        }
                    },
                }
            },
        }
    }
}

/// The ledger after a bundle of requests, settled in their order, and the
/// failure that stopped the settlement, if one did. The requests before a
/// failing one stay settled.
pub open spec fn executed(ledger: Map<Seq<char>, i128>, books: Books, trades: Seq<(Seq<char>, i64)>) -> (
    Map<Seq<char>, i128>,
    Option<ReplayError>,
)
    decreases trades.len(),
{
    if trades.len() == 0 {
        (ledger, None)
    } else {
        match settled(ledger, books, trades[0].0, trades[0].1) {
            Err(e) => (ledger, Some(e)),
            Ok(next) => executed(next, books, trades.skip(1)),
        }
    }
}

/// The assets of a ledger, in their order, after a request for `symbol`
/// has been settled: a symbol that is held for the first time comes last.
pub open spec fn settled_assets(assets: Seq<Seq<char>>, ledger: Map<Seq<char>, i128>, symbol: Seq<char>) -> Seq<
    Seq<char>,
> {
    if ledger.contains_key(symbol) {
        assets
    } else {
        assets.push(symbol)
    }
}

/// The assets of a ledger, in their order, after a bundle of requests.
pub open spec fn executed_assets(
    assets: Seq<Seq<char>>,
    ledger: Map<Seq<char>, i128>,
    books: Books,
    trades: Seq<(Seq<char>, i64)>,
) -> Seq<Seq<char>>
    decreases trades.len(),
{
    if trades.len() == 0 {
        assets
    } else {
        match settled(ledger, books, trades[0].0, trades[0].1) {
            Err(_) => assets,
            Ok(next) => executed_assets(settled_assets(assets, ledger, trades[0].0), next, books, trades.skip(1)),
        }
    }
}

/// A failure as the result of a step: none is success.
pub open spec fn outcome(failure: Option<ReplayError>) -> Result<(), ReplayError> {
    match failure {
        Some(e) => Err(e),
        None => Ok(()),
    }
}

impl Holdings {
    /// Settles one request against the known books. A request that cannot
    /// be settled leaves the holdings as they were.
    pub fn settle(&mut self, books: &OrderBookCollection, symbol: &String, quantity: i64) -> (done: Result<
        (),
        ReplayError,
    >)
        ensures
            match settled(old(self)@, books@, symbol@, quantity) {
                Ok(ledger) => done is Ok && final(self)@ == ledger,
                Err(e) => done == Err::<(), ReplayError>(e) && final(self)@ == old(self)@,
            },
            final(self).assets() == if done is Err {
                old(self).assets()
            } else {
                settled_assets(old(self).assets(), old(self)@, symbol@)
            },
    {
        proof {
            use_type_invariant(&*self);
        }
        let book = match books.get(symbol) {
            Some(book) => book,
            None => {
                return Err(ReplayError::UnknownSymbol);
            },
        };
        let price: u64 = match book.lowest_ask() {
            Some(price) => price,
            None => {
                return Err(ReplayError::NoAskPrice);
            },
        };
        let cash: i128 = self.cash();
        let wide_price: i128 = price as i128;
        let wide_quantity: i128 = quantity as i128;
        assert(-0x8000_0000_0000_0000_0000_0000_0000_0000 <= wide_price * wide_quantity
            <= 0x7fff_ffff_ffff_ffff_ffff_ffff_ffff_ffff) by (nonlinear_arith)
            requires
                0 <= wide_price <= 0xffff_ffff_ffff_ffff,
                -0x8000_0000_0000_0000 <= wide_quantity <= 0x7fff_ffff_ffff_ffff,
        ;
        let cost: i128 = wide_price * wide_quantity;
        let executed: i128 = if cost > cash {
            if price == 0 {
                return Err(ReplayError::ZeroPrice);
            }
            let clipped: i128 = cash / wide_price;
            assert(clipped == quotient(cash as int, price as int));
            assert(-0x8000_0000_0000_0000_0000_0000_0000_0000 <= wide_price * clipped
                <= 0x7fff_ffff_ffff_ffff_ffff_ffff_ffff_ffff) by (nonlinear_arith)
                requires
                    wide_price > 0,
                    -0x8000_0000_0000_0000_0000_0000_0000_0000 <= cash <= 0x7fff_ffff_ffff_ffff_ffff_ffff_ffff_ffff,
                    clipped == if cash >= 0 {
                        cash as int / wide_price as int
                    } else {
                        -((-(cash as int)) / wide_price as int)
                    },
            ;
            clipped
        } else {
            wide_quantity
        };
        let paid: i128 = wide_price * executed;
        let amount: i128 = match self.amount(symbol).checked_add(executed) {
            Some(amount) => amount,
            None => {
                return Err(ReplayError::Overflow);
            },
        };
        let rest: i128 = match cash.checked_sub(paid) {
            Some(rest) => rest,
            None => {
                return Err(ReplayError::Overflow);
            },
        };
        let mut taken = Holdings::new_cash(0);
        core::mem::swap(self, &mut taken);
        let Holdings { ledger } = taken;
        let mut ledger = ledger;
        assert(ledger@.contains_key(symbol@) <==> ledger.keys().contains(symbol@));
        ledger.insert(symbol.clone(), amount);
        assert(ledger@.contains_key(cash_key()));
        assert(ledger.keys().contains(cash_key()));
        ledger.insert(String::from_str("USD"), rest);
        *self = Holdings { ledger };
        Ok(())
    }

    /// Settles a bundle of requests in their order and stops at the first
    /// that cannot be settled; the requests before it stay settled.
    pub fn execute(&mut self, books: &OrderBookCollection, bundle: &OrderBundle) -> (done: Result<(), ReplayError>)
        ensures
            final(self)@ == executed(old(self)@, books@, bundle_view(bundle@)).0,
            done == outcome(executed(old(self)@, books@, bundle_view(bundle@)).1),
            final(self).assets() == executed_assets(old(self).assets(), old(self)@, books@, bundle_view(bundle@)),
    {
        let n = bundle.len();
        let ghost trades = bundle_view(bundle@);
        let mut i: usize = 0;
        assert(trades.skip(0) =~= trades);
        while i < n
            invariant
                0 <= i <= n,
                n == bundle.len(),
                trades == bundle_view(bundle@),
                executed(self@, books@, trades.skip(i as int)) == executed(old(self)@, books@, trades),
                executed_assets(self.assets(), self@, books@, trades.skip(i as int)) == executed_assets(
                    old(self).assets(),
                    old(self)@,
                    books@,
                    trades,
                ),
            decreases n - i,
        {
            proof {
                assert(trades.skip(i as int).skip(1) =~= trades.skip(i + 1));
                assert(trades.skip(i as int)[0] == trades[i as int]);
            }
            match self.settle(books, &bundle[i].0, bundle[i].1) {
                Ok(()) => {},
                Err(e) => {
                    return Err(e);
                },
            }
            i += 1;
        }
        Ok(())
    }
}

impl Clone for Holdings {
    fn clone(&self) -> (copy: Holdings)
        ensures
            copy@ == self@,
            copy.assets() == self.assets(),
            copy.amounts() == self.amounts(),
    {
        proof {
            use_type_invariant(self);
        }
        let n = self.ledger.len();
        let mut ledger: SymbolMap<i128> = SymbolMap::new();
        let mut i: usize = 0;
        while i < n
            invariant
                0 <= i <= n,
                n == self.assets().len(),
                self.ledger.consistent(),
                ledger.consistent(),
                ledger.keys() == self.assets().take(i as int),
                ledger.values() == self.amounts().take(i as int),
            decreases n - i,
        {
            let asset = self.ledger.key_at(i).clone();
            let amount = *self.ledger.value_at(i);
            proof {
                let keys = self.assets();
                assert(!keys.take(i as int).contains(keys[i as int])) by {
                    if keys.take(i as int).contains(keys[i as int]) {
                        let j = choose|j: int| 0 <= j < i && keys.take(i as int)[j] == keys[i as int];
                        assert(keys[j] == keys[i as int]);
                    }
                }
                assert(keys.take(i + 1) =~= keys.take(i as int).push(keys[i as int]));
                assert(self.amounts().take(i + 1) =~= self.amounts().take(i as int).push(self.amounts()[i as int]));
            }
            ledger.insert(asset, amount);
            i += 1;
        }
        proof {
            assert(self.assets().take(n as int) =~= self.assets());
            assert(self.amounts().take(n as int) =~= self.amounts());
        }
        Holdings { ledger }
    }
}

/// The known books after the events of a tick have been folded in, in
/// their order, and the failure that stopped the folding, if one did. Only
/// full order books are accepted; each replaces the book of its symbol.
pub open spec fn folded(books: Books, tick: Seq<EventView>) -> (Books, Option<ReplayError>)
    decreases tick.len(),
{
    if tick.len() == 0 {
        (books, None)
    } else {
        match tick[0].event {
            EventTypeView::FullOrderBook(book) => folded(books.insert(tick[0].symbol, book), tick.skip(1)),
            _ => (books, Some(ReplayError::UnexpectedPayload)),
        }
    }
}

/// The symbols of the known books, in their order, after the events of a
/// tick have been folded in: a symbol whose first book comes comes last.
pub open spec fn folded_symbols(symbols: Seq<Seq<char>>, books: Books, tick: Seq<EventView>) -> Seq<Seq<char>>
    decreases tick.len(),
{
    if tick.len() == 0 {
        symbols
    } else {
        match tick[0].event {
            EventTypeView::FullOrderBook(book) => folded_symbols(
                if books.contains_key(tick[0].symbol) {
                    symbols
                } else {
                    symbols.push(tick[0].symbol)
                },
                books.insert(tick[0].symbol, book),
                tick.skip(1),
            ),
            _ => symbols,
        }
    }
}

/// The time of a tick: the time of its first event.
pub open spec fn tick_time(tick: Seq<EventView>) -> u64 {
    if tick.len() == 0 {
        0
    } else {
        tick[0].receive_time
    }
}

/// What watching a stream of ticks yields, starting from the known books
/// `books`: for every tick its time and the books after it. A failure is
/// handed on in its place.
pub open spec fn observed(books: Books, ticks: Seq<TickView>) -> Seq<Result<(u64, Books), ReplayError>>
    decreases ticks.len(),
{
    if ticks.len() == 0 {
        Seq::empty()
    } else {
        match ticks[0] {
            Err(e) => seq![Err(ReplayError::Stream(e))] + observed(books, ticks.skip(1)),
            Ok(tick) => {
                let (after, failure) = folded(books, tick);
                match failure {
                    None => seq![Ok((tick_time(tick), after))] + observed(after, ticks.skip(1)),
                    Some(e) => seq![Err(e)] + observed(after, ticks.skip(1)),
                }
            },
        }
    }
}

/// A stream up to its first failure, the failure included.
pub open spec fn until_failure<T>(items: Seq<Result<T, ReplayError>>) -> Seq<Result<T, ReplayError>>
    decreases items.len(),
{
    if items.len() == 0 {
        Seq::empty()
    } else {
        match items[0] {
            Ok(_) => seq![items[0]] + until_failure(items.skip(1)),
            Err(_) => seq![items[0]],
        }
    }
}

/// What an observation holds.
pub open spec fn observation_view(item: Result<(u64, OrderBookCollection), ReplayError>) -> Result<
    (u64, Books),
    ReplayError,
> {
    match item {
        Ok((time, books)) => Ok((time, books@)),
        Err(e) => Err(e),
    }
}

/// What a pulled observation holds, if there is one.
pub open spec fn observation_pull_view(got: Option<Result<(u64, OrderBookCollection), ReplayError>>) -> Option<
    Result<(u64, Books), ReplayError>,
> {
    match got {
        Some(item) => Some(observation_view(item)),
        None => None,
    }
}

/// Folds the events of a tick into the known books, in their order, and
/// stops at the first that is not a full order book.
pub fn fold_tick(books: &mut OrderBookCollection, tick: Vec<Event>) -> (done: Result<(), ReplayError>)
    ensures
        final(books)@ == folded(old(books)@, events_view(tick@)).0,
        done == outcome(folded(old(books)@, events_view(tick@)).1),
        final(books).symbols() == folded_symbols(old(books).symbols(), old(books)@, events_view(tick@)),
{
    let ghost events = events_view(tick@);
    let mut rest = tick;
    let mut reversed: Vec<Event> = Vec::new();
    while rest.len() > 0
        invariant
            events.len() == rest.len() + reversed.len(),
            events_view(rest@) == events.take(rest.len() as int),
            forall|k: int| 0 <= k < reversed.len() ==> (#[trigger] reversed@[k])@ == events[events.len() - 1 - k],
        decreases rest.len(),
    {
        let ghost before = rest@;
        match rest.pop() {
            Some(ev) => {
                proof {
                    assert(ev@ == events_view(before)[before.len() - 1]);
                    assert(events_view(rest@) =~= events.take(rest.len() as int));
                }
                reversed.push(ev);
            },
            None => {},
        }
    }
    assert(events.skip(0) =~= events);
    while reversed.len() > 0
        invariant
            events == events_view(tick@),
            reversed.len() <= events.len(),
            forall|k: int| 0 <= k < reversed.len() ==> (#[trigger] reversed@[k])@ == events[events.len() - 1 - k],
            folded(books@, events.skip(events.len() - reversed.len())) == folded(old(books)@, events),
            folded_symbols(books.symbols(), books@, events.skip(events.len() - reversed.len())) == folded_symbols(
                old(books).symbols(),
                old(books)@,
                events,
            ),
        decreases reversed.len(),
    {
        let ghost at = events.len() - reversed.len();
        proof {
            assert(events.skip(at).skip(1) =~= events.skip(at + 1));
            assert(events.skip(at)[0] == events[at]);
        }
        match reversed.pop() {
            Some(ev) => {
                assert(ev@ == events[at]);
                let Event { symbol, receive_time: _, event } = ev;
                match event {
                    EventType::FullOrderBook(book) => {
                        books.insert(symbol, book);
                    },
                    _ => {
                        return Err(ReplayError::UnexpectedPayload);
                    },
                }
            },
            None => {},
        }
    }
    Ok(())
}

/// The failure of a step, if it failed.
pub open spec fn failure_of<T>(done: Result<T, ReplayError>) -> Option<ReplayError> {
    match done {
        Ok(_) => None,
        Err(e) => Some(e),
    }
}

/// The state of the engine: the amounts held and the known books, each
/// with the order in which its assets or symbols first came.
pub struct StateView {
    pub ledger: Map<Seq<char>, i128>,
    pub assets: Seq<Seq<char>>,
    pub books: Books,
    pub symbols: Seq<Seq<char>>,
}

/// The state that holdings and a collection of books stand for.
pub open spec fn state_of(holdings: Holdings, books: OrderBookCollection) -> StateView {
    StateView { ledger: holdings@, assets: holdings.assets(), books: books@, symbols: books.symbols() }
}

/// One tick takes the engine from the state `before` to the state `after`,
/// with the failure `failure` or none, under the strategy `f`. The tick is
/// folded into the books first. Where that fails nothing is traded.
/// Otherwise the strategy is shown the holdings as they were and the books
/// as they then are, each with its assets or symbols in their order, and
/// the bundle of requests that it answers with is settled against those
/// books.
pub open spec fn stepped_by<F: Fn(&Holdings, &OrderBookCollection) -> OrderBundle>(
    f: F,
    before: StateView,
    tick: Seq<EventView>,
    after: StateView,
    failure: Option<ReplayError>,
) -> bool {
    let (folded_books, refused) = folded(before.books, tick);
    &&& after.books == folded_books
    &&& after.symbols == folded_symbols(before.symbols, before.books, tick)
    &&& match refused {
        Some(e) => failure == Some(e) && after.ledger == before.ledger && after.assets == before.assets,
        None => exists|holdings: Holdings, shown: OrderBookCollection, bundle: OrderBundle|
            {
                &&& #[trigger] call_ensures(f, (&holdings, &shown), bundle)
                &&& holdings@ == before.ledger
                &&& holdings.assets() == before.assets
                &&& shown@ == after.books
                &&& shown.symbols() == after.symbols
                &&& (after.ledger, failure) == executed(before.ledger, after.books, bundle_view(bundle@))
                &&& after.assets == executed_assets(
                    before.assets,
                    before.ledger,
                    after.books,
                    bundle_view(bundle@),
                )
            },
    }
}

/// Where the tick is folded into the books `books_before` without a
/// failure, the strategy `f` was called on the very holdings `holdings` and
/// the very books `shown`, and the bundle that it answered with was
/// settled: the amounts held in the state `after`, their order and the
/// failure `failure` are what that settlement gives.
pub open spec fn shown_to<F: Fn(&Holdings, &OrderBookCollection) -> OrderBundle>(
    f: F,
    holdings: Holdings,
    books_before: Books,
    tick: Seq<EventView>,
    shown: OrderBookCollection,
    after: StateView,
    failure: Option<ReplayError>,
) -> bool {
    folded(books_before, tick).1 is None ==> exists|bundle: OrderBundle|
        {
            &&& #[trigger] call_ensures(f, (&holdings, &shown), bundle)
            &&& (after.ledger, failure) == executed(holdings@, shown@, bundle_view(bundle@))
            &&& after.assets == executed_assets(holdings.assets(), holdings@, shown@, bundle_view(bundle@))
        }
}

/// What the engine hands out after a tick.
pub open spec fn state_view(item: Result<(Holdings, OrderBookCollection), ReplayError>) -> Result<
    StateView,
    ReplayError,
> {
    match item {
        Ok((holdings, books)) => Ok(state_of(holdings, books)),
        Err(e) => Err(e),
    }
}

/// What the engine handed out after the ticks of a run.
pub open spec fn states_view(items: Seq<Result<(Holdings, OrderBookCollection), ReplayError>>) -> Seq<
    Result<StateView, ReplayError>,
> {
    items.map_values(|item: Result<(Holdings, OrderBookCollection), ReplayError>| state_view(item))
}

/// The state from which tick `k` of a run starts: what was handed out
/// after the tick before it, or the state at the start.
pub open spec fn state_before(start: StateView, outs: Seq<Result<StateView, ReplayError>>, k: int) -> StateView {
    if k > 0 && outs[k - 1] is Ok {
        outs[k - 1]->Ok_0
    } else {
        start
    }
}

/// What was handed out after tick `k` of a run follows from the state
/// before it: a failure to read is handed on, and a tick that was read
/// takes the engine one step under the strategy.
pub open spec fn replayed_at<F: Fn(&Holdings, &OrderBookCollection) -> OrderBundle>(
    f: F,
    start: StateView,
    ticks: Seq<TickView>,
    outs: Seq<Result<StateView, ReplayError>>,
    k: int,
) -> bool {
    let before = state_before(start, outs, k);
    match ticks[k] {
        Err(e) => outs[k] == Err::<StateView, ReplayError>(ReplayError::Stream(e)),
        Ok(tick) => match outs[k] {
            Ok(after) => stepped_by(f, before, tick, after, None),
            Err(e) => exists|after: StateView| #[trigger] stepped_by(f, before, tick, after, Some(e)),
        },
    }
}

/// `outs` is what a run over `ticks` from the state `start` hands out under
/// the strategy `f`: one state for every tick, each following from the one
/// before, up to the first failure, which comes last.
pub open spec fn replayed<F: Fn(&Holdings, &OrderBookCollection) -> OrderBundle>(
    f: F,
    start: StateView,
    ticks: Seq<TickView>,
    outs: Seq<Result<StateView, ReplayError>>,
) -> bool {
    &&& outs.len() <= ticks.len()
    &&& forall|k: int| 0 <= k < outs.len() - 1 ==> (#[trigger] outs[k]) is Ok
    &&& outs.len() < ticks.len() ==> outs.len() > 0 && outs.last() is Err
    &&& forall|k: int| 0 <= k < outs.len() ==> #[trigger] replayed_at(f, start, ticks, outs, k)
}

/// The backtest engine over a source of raw events: reconciles the order
/// books, groups the events into ticks, and keeps the books and the
/// holdings as the ticks go by.
#[derive(Debug)]
pub struct Market {
    events: EventGrouper,
    books: OrderBookCollection,
    pub holdings: Holdings,
}

impl Market {
    /// The ticks still to come.
    pub closed spec fn ticks(&self) -> Seq<TickView> {
        self.events.remaining()
    }

    /// The books known so far.
    pub closed spec fn collection(&self) -> OrderBookCollection {
        self.books
    }

    /// The holdings as they are.
    pub closed spec fn portfolio(&self) -> Holdings {
        self.holdings
    }

    /// The books known so far, by symbol.
    pub open spec fn books(&self) -> Books {
        self.collection()@
    }

    /// The amounts held, by asset.
    pub open spec fn ledger(&self) -> Map<Seq<char>, i128> {
        self.portfolio()@
    }

    /// The amounts held and the known books, each with the order of its
    /// assets or symbols.
    pub open spec fn state(&self) -> StateView {
        state_of(self.portfolio(), self.collection())
    }

    /// What is still to be observed, if no trade is made.
    pub open spec fn observations(&self) -> Seq<Result<(u64, Books), ReplayError>> {
        observed(self.books(), self.ticks())
    }

    /// An engine over the raw events of `reader`, with `cash` in cash, no
    /// other holdings and no known book.
    pub fn new(reader: EventIterator, cash: i128) -> (market: Market)
        ensures
            market.ticks() == grouped(Seq::empty(), reconciled(Map::empty(), reader.remaining())),
            market.books() == Map::<Seq<char>, OrderBookView>::empty(),
            market.state() == (StateView {
                ledger: Map::<Seq<char>, i128>::empty().insert(cash_key(), cash),
                assets: seq![cash_key()],
                books: Map::<Seq<char>, OrderBookView>::empty(),
                symbols: Seq::<Seq<char>>::empty(),
            }),
    {
        Market {
            events: EventGrouper::new(PartialTransformer::new(reader)),
            books: OrderBookCollection::new(),
            holdings: Holdings::new_cash(cash),
        }
    }

    /// The books known so far.
    pub fn order_books(&self) -> (books: &OrderBookCollection)
        ensures
            *books == self.collection(),
    {
        &self.books
    }

    /// Takes in one tick that did not come from the source and folds it
    /// into the known books. No trade is made.
    pub fn observe(&mut self, tick: Vec<Event>) -> (done: Result<(), ReplayError>)
        ensures
            final(self).books() == folded(old(self).books(), events_view(tick@)).0,
            final(self).state().symbols == folded_symbols(
                old(self).state().symbols,
                old(self).books(),
                events_view(tick@),
            ),
            done == outcome(folded(old(self).books(), events_view(tick@)).1),
            final(self).portfolio() == old(self).portfolio(),
            final(self).ticks() == old(self).ticks(),
    {
        fold_tick(&mut self.books, tick)
    }

    /// Pulls the next tick and folds it into the known books, without any
    /// trade: hands out the time of the tick and the books after it.
    pub fn next_without_actions(&mut self) -> (item: Option<Result<(u64, OrderBookCollection), ReplayError>>)
        ensures
            pulled(old(self).observations(), final(self).observations(), observation_pull_view(item)),
            final(self).portfolio() == old(self).portfolio(),
            item matches Some(Ok((_, books))) ==> {
                &&& books@ == final(self).books()
                &&& books.symbols() == final(self).state().symbols
            },
            old(self).ticks().len() == 0 ==> {
                &&& final(self).ticks() == old(self).ticks()
                &&& final(self).state() == old(self).state()
            },
            old(self).ticks().len() > 0 ==> {
                &&& final(self).ticks() == old(self).ticks().skip(1)
                &&& match old(self).ticks()[0] {
                    Ok(tick) => {
                        &&& final(self).books() == folded(old(self).books(), tick).0
                        &&& final(self).state().symbols == folded_symbols(
                            old(self).state().symbols,
                            old(self).books(),
                            tick,
                        )
                    },
                    Err(_) => final(self).state() == old(self).state(),
                }
            },
    {
        let ghost books = self.books();
        let ghost ticks = self.ticks();
        match self.events.next() {
            None => None,
            Some(Err(e)) => {
                proof {
                    let rest = observed(books, ticks.skip(1));
                    assert((seq![Err::<(u64, Books), ReplayError>(ReplayError::Stream(e))] + rest).skip(1) =~= rest);
                }
                Some(Err(ReplayError::Stream(e)))
            },
            Some(Ok(tick)) => {
                let time: u64 = if tick.len() > 0 {
                    tick[0].receive_time
                } else {
                    0
                };
                let ghost events = events_view(tick@);
                assert(time == tick_time(events));
                match fold_tick(&mut self.books, tick) {
                    Ok(()) => {
                        proof {
                            let rest = observed(self.books(), ticks.skip(1));
                            assert((seq![Ok::<(u64, Books), ReplayError>((time, self.books()))] + rest).skip(1)
                                =~= rest);
                        }
                        Some(Ok((time, self.books.clone())))
                    },
                    Err(e) => {
                        proof {
                            let rest = observed(self.books(), ticks.skip(1));
                            assert((seq![Err::<(u64, Books), ReplayError>(e)] + rest).skip(1) =~= rest);
                        }
                        Some(Err(e))
                    },
                }
            },
        }
    }

    /// Watches the whole stream without any trade: the time of every tick
    /// with the books after it, up to the first failure, which comes last.
    pub fn run_without_actions(self) -> (items: Vec<Result<(u64, OrderBookCollection), ReplayError>>)
        ensures
            items@.map_values(|item: Result<(u64, OrderBookCollection), ReplayError>| observation_view(item))
                == until_failure(self.observations()),
    {
        let mut market = self;
        let mut items: Vec<Result<(u64, OrderBookCollection), ReplayError>> = Vec::new();
        let ghost view = |item: Result<(u64, OrderBookCollection), ReplayError>| observation_view(item);
        assert(items@.map_values(view) =~= Seq::empty());
        loop
            invariant
                view == |item: Result<(u64, OrderBookCollection), ReplayError>| observation_view(item),
                until_failure(self.observations()) == items@.map_values(view) + until_failure(market.observations()),
            decreases market.observations().len(),
        {
            let ghost before = market.observations();
            let ghost seen = items@.map_values(view);
            match market.next_without_actions() {
                None => {
                    assert(seen + Seq::empty() =~= seen);
                    return items;
                },
                Some(item) => {
                    let failed = item.is_err();
                    items.push(item);
                    proof {
                        let head = observation_view(item);
                        assert(items@.map_values(view) =~= seen.push(head));
                        if failed {
                            assert(seen + seq![head] =~= seen.push(head));
                        } else {
                            assert(seen + (seq![head] + until_failure(before.skip(1))) =~= seen.push(head)
                                + until_failure(before.skip(1)));
                        }
                    }
                    if failed {
                        return items;
                    }
                },
            }
        }
    }

    /// Takes in one tick that did not come from the source: folds it into
    /// the known books, asks the strategy `f` for its requests, showing it
    /// the holdings and the books, and settles the requests in their order.
    pub fn step<F: Fn(&Holdings, &OrderBookCollection) -> OrderBundle>(&mut self, tick: Vec<Event>, f: &F) -> (done:
        Result<(), ReplayError>)
        requires
            forall|holdings: &Holdings, books: &OrderBookCollection| call_requires(f, (holdings, books)),
        ensures
            final(self).ticks() == old(self).ticks(),
            stepped_by(*f, old(self).state(), events_view(tick@), final(self).state(), failure_of(done)),
            shown_to(
                *f,
                old(self).portfolio(),
                old(self).books(),
                events_view(tick@),
                final(self).collection(),
                final(self).state(),
                failure_of(done),
            ),
    {
        match fold_tick(&mut self.books, tick) {
            Ok(()) => {},
            Err(e) => {
                return Err(e);
            },
        }
        let bundle = f(&self.holdings, &self.books);
        let done = self.holdings.execute(&self.books, &bundle);
        proof {
            assert(call_ensures(*f, (&old(self).holdings, &self.books), bundle));
        }
        done
    }

    /// Pulls the next tick and takes the engine one step with it: hands out
    /// the holdings and the books as they are after the tick.
    pub fn next<F: Fn(&Holdings, &OrderBookCollection) -> OrderBundle>(&mut self, f: &F) -> (item: Option<
        Result<(Holdings, OrderBookCollection), ReplayError>,
    >)
        requires
            forall|holdings: &Holdings, books: &OrderBookCollection| call_requires(f, (holdings, books)),
        ensures
            old(self).ticks().len() == 0 ==> {
                &&& item is None
                &&& final(self).ticks() == old(self).ticks()
                &&& final(self).state() == old(self).state()
            },
            old(self).ticks().len() > 0 ==> {
                &&& item is Some
                &&& final(self).ticks() == old(self).ticks().skip(1)
                &&& item->Some_0 matches Ok((holdings, books)) ==> state_of(holdings, books) == final(self).state()
                &&& match old(self).ticks()[0] {
                    Err(e) => {
                        &&& item->Some_0 == Err::<(Holdings, OrderBookCollection), ReplayError>(ReplayError::Stream(e))
                        &&& final(self).state() == old(self).state()
                    },
                    Ok(tick) => {
                        &&& stepped_by(*f, old(self).state(), tick, final(self).state(), failure_of(item->Some_0))
                        &&& shown_to(
                            *f,
                            old(self).portfolio(),
                            old(self).books(),
                            tick,
                            final(self).collection(),
                            final(self).state(),
                            failure_of(item->Some_0),
                        )
                    },
                }
            },
    {
        match self.events.next() {
            None => None,
            Some(Err(e)) => Some(Err(ReplayError::Stream(e))),
            Some(Ok(tick)) => {
                match self.step(tick, f) {
                    Ok(()) => Some(Ok((self.holdings.clone(), self.books.clone()))),
                    Err(e) => Some(Err(e)),
                }
            },
        }
    }

    /// Replays the whole stream against the strategy `f`: the holdings and
    /// the books after every tick, up to the first failure, which comes
    /// last.
    pub fn run<F: Fn(&Holdings, &OrderBookCollection) -> OrderBundle>(self, f: F) -> (items: Vec<
        Result<(Holdings, OrderBookCollection), ReplayError>,
    >)
        requires
            forall|holdings: &Holdings, books: &OrderBookCollection| call_requires(f, (holdings, books)),
        ensures
            replayed(f, self.state(), self.ticks(), states_view(items@)),
    {
        let mut market = self;
        let mut items: Vec<Result<(Holdings, OrderBookCollection), ReplayError>> = Vec::new();
        let ghost start = self.state();
        let ghost ticks = self.ticks();
        assert(ticks.skip(0) =~= ticks);
        loop
            invariant
                forall|holdings: &Holdings, books: &OrderBookCollection| call_requires(f, (holdings, books)),
                start == self.state(),
                ticks == self.ticks(),
                items.len() <= ticks.len(),
                market.ticks() == ticks.skip(items.len() as int),
                market.state() == state_before(start, states_view(items@), items.len() as int),
                forall|k: int| 0 <= k < items.len() ==> (#[trigger] states_view(items@)[k]) is Ok,
                forall|k: int| 0 <= k < items.len() ==> #[trigger] replayed_at(f, start, ticks, states_view(items@), k),
            decreases ticks.len() - items.len(),
        {
            let ghost outs = states_view(items@);
            let ghost at = items.len() as int;
            let ghost before = market.state();
            match market.next(&f) {
                None => {
                    return items;
                },
                Some(item) => {
                    let failed = item.is_err();
                    let ghost handed = state_view(item);
                    items.push(item);
                    proof {
                        let grown = states_view(items@);
                        assert(grown =~= outs.push(handed));
                        assert(ticks.skip(at)[0] == ticks[at]);
                        assert(ticks.skip(at).skip(1) =~= ticks.skip(at + 1));
                        assert(state_before(start, grown, at) == before);
                        assert forall|k: int| 0 <= k < at implies #[trigger] replayed_at(f, start, ticks, grown, k) by {
                            assert(replayed_at(f, start, ticks, outs, k));
                            assert(grown[k] == outs[k]);
                            if k > 0 {
                                assert(grown[k - 1] == outs[k - 1]);
                            }
                        }
                        match ticks[at] {
                            Ok(tick) => {
                                match handed {
                                    Ok(after) => {
                                        assert(stepped_by(f, before, tick, after, None));
                                    },
                                    Err(e) => {
                                        let after = market.state();
                                        assert(stepped_by(f, before, tick, after, Some(e)));
                                    },
                                }
                            },
                            Err(e) => {},
                        }
                        assert(replayed_at(f, start, ticks, grown, at));
                        assert forall|k: int| 0 <= k < grown.len() - 1 implies (#[trigger] grown[k]) is Ok by {
                            assert(grown[k] == outs[k]);
                        }
                    }
                    if failed {
                        return items;
                    }
                },
            }
        }
    }
}

} // verus!
