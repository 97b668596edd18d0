//! Order books with exact integer prices and quantities, and the rules by
//! which an incremental depth update changes them.
//!
//! Prices and quantities are fixed-point integers: a price counts ticks, a
//! quantity counts lots. Both sides of a book are kept strictly ordered by
//! price, bids from the highest down and asks from the lowest up, so that a
//! price occurs at most once on a side and the best level is always first.

use vstd::prelude::*;

verus! {

/// One price level: the quantity resting at a price. In a change list a
/// quantity of zero asks for the level at that price to be removed.
#[derive(Clone, Copy, Debug, PartialEq, Eq, Structural)]
pub struct PriceLevel {
    pub price: u64,
    pub quantity: u64,
}

/// The side of a book, which fixes the order of its levels.
#[derive(Clone, Copy, Debug, PartialEq, Eq, Structural)]
pub enum Side {
    Bid,
    Ask,
}

/// A level priced `a` stands before a level priced `b` on `side`: bids run
/// from the highest price down, asks from the lowest price up.
pub open spec fn precedes(side: Side, a: u64, b: u64) -> bool {
    match side {
        Side::Bid => a > b,
        Side::Ask => a < b,
    }
}

/// The levels are strictly ordered for `side`; in particular no price occurs
/// twice.
pub open spec fn sorted(side: Side, levels: Seq<PriceLevel>) -> bool {
    forall|i: int, j: int|
        0 <= i < j < levels.len() ==> precedes(side, (#[trigger] levels[i]).price, (#[trigger] levels[j]).price)
}

/// Some level of `levels` has the price `price`.
pub open spec fn has_price(levels: Seq<PriceLevel>, price: u64) -> bool {
    exists|i: int| 0 <= i < levels.len() && (#[trigger] levels[i]).price == price
}

/// The first index at or after `from` whose level has the price `price`, or
/// the length of `levels` if there is none.
pub open spec fn find_price(levels: Seq<PriceLevel>, price: u64, from: int) -> int
    decreases levels.len() - from,
{
    if from < 0 || from >= levels.len() {
        levels.len() as int
    } else if levels[from].price == price {
        from
    } else {
        find_price(levels, price, from + 1)
    }
}

/// The first index at or after `from` whose level does not stand before a
/// level priced `price`, or the length of `levels` if all of them do.
pub open spec fn first_not_before(side: Side, levels: Seq<PriceLevel>, price: u64, from: int) -> int
    decreases levels.len() - from,
{
    if from < 0 || from >= levels.len() {
        levels.len() as int
    } else if !precedes(side, levels[from].price, price) {
        from
    } else {
        first_not_before(side, levels, price, from + 1)
    }
}

/// The index of the level at `price`, if the side has one.
pub open spec fn position(levels: Seq<PriceLevel>, price: u64) -> Option<int> {
    let i = find_price(levels, price, 0);
    if i < levels.len() {
        Some(i)
    } else {
        None
    }
}

/// Where a new level priced `price` belongs on an ordered side.
pub open spec fn insertion_point(side: Side, levels: Seq<PriceLevel>, price: u64) -> int {
    first_not_before(side, levels, price, 0)
}

/// One side after one change. A change at a price the side holds removes the
/// level when its quantity is zero and overwrites the quantity otherwise. A
/// change at a new price inserts the level in order when its quantity is not
/// zero and does nothing otherwise.
pub open spec fn apply_change(side: Side, levels: Seq<PriceLevel>, change: PriceLevel) -> Seq<PriceLevel> {
    match position(levels, change.price) {
        Some(i) => if change.quantity == 0 {
            levels.remove(i)
        } else {
            levels.update(i, change)
        },
        None => if change.quantity != 0 {
            levels.insert(insertion_point(side, levels, change.price), change)
        } else {
            levels
        },
    }
}

/// One side after a list of changes, applied in the order given.
pub open spec fn apply_changes(side: Side, levels: Seq<PriceLevel>, changes: Seq<PriceLevel>) -> Seq<PriceLevel>
    decreases changes.len(),
{
    if changes.len() == 0 {
        levels
    } else {
        apply_change(side, apply_changes(side, levels, changes.drop_last()), changes.last())
    }
}

/// `find_price` returns the first index with the price, within bounds.
pub proof fn lemma_find_price(levels: Seq<PriceLevel>, price: u64, from: int)
    requires
        0 <= from <= levels.len(),
    ensures
        from <= find_price(levels, price, from) <= levels.len(),
        find_price(levels, price, from) < levels.len() ==> levels[find_price(levels, price, from)].price == price,
        forall|j: int| from <= j < find_price(levels, price, from) ==> (#[trigger] levels[j]).price != price,
    decreases levels.len() - from,
{
    if from < levels.len() && levels[from].price != price {
        lemma_find_price(levels, price, from + 1);
    }
}

/// `first_not_before` returns the first index that does not precede the
/// price, within bounds.
pub proof fn lemma_first_not_before(side: Side, levels: Seq<PriceLevel>, price: u64, from: int)
    requires
        0 <= from <= levels.len(),
    ensures
        from <= first_not_before(side, levels, price, from) <= levels.len(),
        first_not_before(side, levels, price, from) < levels.len() ==> !precedes(
            side,
            levels[first_not_before(side, levels, price, from)].price,
            price,
        ),
        forall|j: int|
            from <= j < first_not_before(side, levels, price, from) ==> precedes(
                side,
                (#[trigger] levels[j]).price,
                price,
            ),
    decreases levels.len() - from,
{
    if from < levels.len() && precedes(side, levels[from].price, price) {
        lemma_first_not_before(side, levels, price, from + 1);
    }
}

/// A side holds a price exactly when `position` finds it.
pub proof fn lemma_position_has_price(levels: Seq<PriceLevel>, price: u64)
    ensures
        has_price(levels, price) <==> position(levels, price) is Some,
        position(levels, price) matches Some(i) ==> 0 <= i < levels.len() && levels[i].price == price,
{
    lemma_find_price(levels, price, 0);
    let i = find_price(levels, price, 0);
    if i < levels.len() {
        assert(levels[i].price == price);
    }
}

/// One change keeps an ordered side strictly ordered.
pub proof fn lemma_apply_change_sorted(side: Side, levels: Seq<PriceLevel>, change: PriceLevel)
    requires
        sorted(side, levels),
    ensures
        sorted(side, apply_change(side, levels, change)),
{
    let after = apply_change(side, levels, change);
    lemma_find_price(levels, change.price, 0);
    lemma_first_not_before(side, levels, change.price, 0);
    match position(levels, change.price) {
        Some(i) => {
            if change.quantity == 0 {
                assert forall|a: int, b: int| 0 <= a < b < after.len() implies precedes(
                    side,
                    (#[trigger] after[a]).price,
                    (#[trigger] after[b]).price,
                ) by {
                    let a0 = if a < i { a } else { a + 1 };
                    let b0 = if b < i { b } else { b + 1 };
                    assert(after[a] == levels[a0]);
                    assert(after[b] == levels[b0]);
                }
            } else {
                assert forall|a: int, b: int| 0 <= a < b < after.len() implies precedes(
                    side,
                    (#[trigger] after[a]).price,
                    (#[trigger] after[b]).price,
                ) by {
                    assert(after[a].price == levels[a].price);
                    assert(after[b].price == levels[b].price);
                }
            }
        },
        None => {
            if change.quantity != 0 {
                let k = insertion_point(side, levels, change.price);
                assert forall|a: int, b: int| 0 <= a < b < after.len() implies precedes(
                    side,
                    (#[trigger] after[a]).price,
                    (#[trigger] after[b]).price,
                ) by {
                    let a0 = if a < k { a } else { a - 1 };
                    let b0 = if b < k { b } else { b - 1 };
                    if a != k {
                        assert(after[a] == levels[a0]);
                    }
                    if b != k {
                        assert(after[b] == levels[b0]);
                    }
                    if a == k {
                        // The level at k does not precede the new price and
                        // does not have it, so the new price precedes it and
                        // all that follow.
                        assert(levels[k].price != change.price);
                        if b0 > k {
                            assert(precedes(side, levels[k].price, levels[b0].price));
                        }
                    }
                }
            }
        },
    }
}

/// A list of changes keeps an ordered side strictly ordered.
pub proof fn lemma_apply_changes_sorted(side: Side, levels: Seq<PriceLevel>, changes: Seq<PriceLevel>)
    requires
        sorted(side, levels),
    ensures
        sorted(side, apply_changes(side, levels, changes)),
    decreases changes.len(),
{
    if changes.len() > 0 {
        lemma_apply_changes_sorted(side, levels, changes.drop_last());
        lemma_apply_change_sorted(side, apply_changes(side, levels, changes.drop_last()), changes.last());
    }
}

/// The quantity resting at `price`, if the side has a level there.
pub open spec fn quantity_at(levels: Seq<PriceLevel>, price: u64) -> Option<u64> {
    match position(levels, price) {
        Some(i) => Some(levels[i].quantity),
        None => None,
    }
}

/// On an ordered side a price is found at the one index that holds it.
pub proof fn lemma_sorted_position(side: Side, levels: Seq<PriceLevel>, k: int)
    requires
        sorted(side, levels),
        0 <= k < levels.len(),
    ensures
        position(levels, levels[k].price) == Some(k),
{
    let price = levels[k].price;
    lemma_find_price(levels, price, 0);
    let r = find_price(levels, price, 0);
    if r < k {
        assert(precedes(side, levels[r].price, levels[k].price));
    }
}

/// What one change does to the quantities of an ordered side: the changed
/// price gets the new quantity, or no level when that quantity is zero, and
/// every other price keeps what it had.
pub proof fn lemma_apply_change_quantities(side: Side, levels: Seq<PriceLevel>, change: PriceLevel, price: u64)
    requires
        sorted(side, levels),
    ensures
        quantity_at(apply_change(side, levels, change), price) == if price == change.price {
            if change.quantity == 0 {
                None
            } else {
                Some(change.quantity)
            }
        } else {
            quantity_at(levels, price)
        },
{
    let after = apply_change(side, levels, change);
    lemma_apply_change_sorted(side, levels, change);
    lemma_find_price(levels, change.price, 0);
    lemma_first_not_before(side, levels, change.price, 0);
    lemma_position_has_price(levels, price);
    lemma_position_has_price(after, price);
    // Where each level of the old side stands on the new one, if it stays.
    match position(levels, change.price) {
        Some(i) => {
            if change.quantity == 0 {
                if has_price(after, price) {
                    let b = choose|b: int| 0 <= b < after.len() && (#[trigger] after[b]).price == price;
                    let b0 = if b < i { b } else { b + 1 };
                    assert(after[b] == levels[b0]);
                    lemma_sorted_position(side, levels, b0);
                    lemma_sorted_position(side, after, b);
                    if price == change.price {
                        lemma_sorted_position(side, levels, i);
                    }
                } else if price != change.price && has_price(levels, price) {
                    let a = choose|a: int| 0 <= a < levels.len() && (#[trigger] levels[a]).price == price;
                    let a1 = if a < i { a } else { a - 1 };
                    assert(after[a1] == levels[a]);
                }
            } else {
                if has_price(after, price) {
                    let b = choose|b: int| 0 <= b < after.len() && (#[trigger] after[b]).price == price;
                    assert(levels[b].price == price);
                    lemma_sorted_position(side, levels, b);
                    lemma_sorted_position(side, after, b);
                    if price == change.price {
                        lemma_sorted_position(side, levels, i);
                    }
                } else if has_price(levels, price) {
                    let a = choose|a: int| 0 <= a < levels.len() && (#[trigger] levels[a]).price == price;
                    assert(after[a].price == price);
                }
            }
        },
        None => {
            if change.quantity != 0 {
                let k = insertion_point(side, levels, change.price);
                assert(after[k] == change);
                if price == change.price {
                    lemma_sorted_position(side, after, k);
                } else if has_price(after, price) {
                    let b = choose|b: int| 0 <= b < after.len() && (#[trigger] after[b]).price == price;
                    let b0 = if b < k { b } else { b - 1 };
                    assert(after[b] == levels[b0]);
                    lemma_sorted_position(side, levels, b0);
                    lemma_sorted_position(side, after, b);
                } else if has_price(levels, price) {
                    let a = choose|a: int| 0 <= a < levels.len() && (#[trigger] levels[a]).price == price;
                    let a1 = if a < k { a } else { a + 1 };
                    assert(after[a1] == levels[a]);
                }
            }
        },
    }
}

/// Zero-quantity removal: a change with quantity zero at a price the side
/// does not hold changes nothing; at a price it holds, it removes the level
/// at that price and no other, and the rest keep their order.
pub proof fn lemma_zero_quantity_change(side: Side, levels: Seq<PriceLevel>, change: PriceLevel)
    requires
        sorted(side, levels),
        change.quantity == 0,
    ensures
        !has_price(levels, change.price) ==> apply_change(side, levels, change) == levels,
        has_price(levels, change.price) ==> {
            let after = apply_change(side, levels, change);
            &&& position(levels, change.price) matches Some(i)
            &&& after == levels.remove(i)
            &&& after.len() == levels.len() - 1
            &&& !has_price(after, change.price)
            &&& forall|p: u64| p != change.price ==> quantity_at(after, p) == quantity_at(levels, p)
        },
{
    let after = apply_change(side, levels, change);
    lemma_position_has_price(levels, change.price);
    lemma_find_price(levels, change.price, 0);
    if has_price(levels, change.price) {
        lemma_apply_change_quantities(side, levels, change, change.price);
        lemma_position_has_price(after, change.price);
        assert forall|p: u64| p != change.price implies quantity_at(after, p) == quantity_at(levels, p) by {
            lemma_apply_change_quantities(side, levels, change, p);
        }
    }
}

/// What an order book holds: both sides, best level first.
pub struct OrderBookView {
    pub last_update_id: u64,
    pub bids: Seq<PriceLevel>,
    pub asks: Seq<PriceLevel>,
}

/// What a depth update holds: the changes to each side, in the order in
/// which they are to be applied.
pub struct DepthDeltaView {
    pub bid_changes: Seq<PriceLevel>,
    pub ask_changes: Seq<PriceLevel>,
}

/// Bids strictly descending and asks strictly ascending by price.
pub open spec fn book_sorted(book: OrderBookView) -> bool {
    sorted(Side::Bid, book.bids) && sorted(Side::Ask, book.asks)
}

/// A book after a depth update. The two sides change independently.
pub open spec fn apply_delta(book: OrderBookView, delta: DepthDeltaView) -> OrderBookView {
    OrderBookView {
        last_update_id: book.last_update_id,
        bids: apply_changes(Side::Bid, book.bids, delta.bid_changes),
        asks: apply_changes(Side::Ask, book.asks, delta.ask_changes),
    }
}

/// A book after a list of depth updates, applied in the order given.
pub open spec fn apply_deltas(book: OrderBookView, deltas: Seq<DepthDeltaView>) -> OrderBookView
    decreases deltas.len(),
{
    if deltas.len() == 0 {
        book
    } else {
        apply_delta(apply_deltas(book, deltas.drop_last()), deltas.last())
    }
}

/// The lowest ask price of a book, if it has any ask.
pub open spec fn lowest_ask(book: OrderBookView) -> Option<u64> {
    if book.asks.len() == 0 {
        None
    } else {
        Some(book.asks[0].price)
    }
}

/// The highest bid price of a book, if it has any bid.
pub open spec fn highest_bid(book: OrderBookView) -> Option<u64> {
    if book.bids.len() == 0 {
        None
    } else {
        Some(book.bids[0].price)
    }
}

/// Sort invariant, one update: a depth update keeps a valid book valid.
pub proof fn lemma_apply_delta_sorted(book: OrderBookView, delta: DepthDeltaView)
    requires
        book_sorted(book),
    ensures
        book_sorted(apply_delta(book, delta)),
{
    lemma_apply_changes_sorted(Side::Bid, book.bids, delta.bid_changes);
    lemma_apply_changes_sorted(Side::Ask, book.asks, delta.ask_changes);
}

/// Sort invariant, any history: after every one of a sequence of depth
/// updates applied to a valid book, the bids are strictly descending and the
/// asks strictly ascending.
pub proof fn lemma_apply_deltas_sorted(book: OrderBookView, deltas: Seq<DepthDeltaView>)
    requires
        book_sorted(book),
    ensures
        forall|n: int| 0 <= n <= deltas.len() ==> book_sorted(#[trigger] apply_deltas(book, deltas.take(n))),
    decreases deltas.len(),
{
    assert forall|n: int| 0 <= n <= deltas.len() implies book_sorted(
        #[trigger] apply_deltas(book, deltas.take(n)),
    ) by {
        lemma_apply_deltas_end_sorted(book, deltas.take(n));
    }
}

/// A sequence of depth updates keeps a valid book valid.
pub proof fn lemma_apply_deltas_end_sorted(book: OrderBookView, deltas: Seq<DepthDeltaView>)
    requires
        book_sorted(book),
    ensures
        book_sorted(apply_deltas(book, deltas)),
    decreases deltas.len(),
{
    if deltas.len() > 0 {
        lemma_apply_deltas_end_sorted(book, deltas.drop_last());
        lemma_apply_delta_sorted(apply_deltas(book, deltas.drop_last()), deltas.last());
    }
}

impl PriceLevel {
    pub fn new(price: u64, quantity: u64) -> (level: PriceLevel)
        ensures
            level == (PriceLevel { price, quantity }),
    {
        PriceLevel { price, quantity }
    }
}

/// Whether a level priced `a` stands before one priced `b` on `side`.
pub fn stands_before(side: Side, a: u64, b: u64) -> (r: bool)
    ensures
        r == precedes(side, a, b),
{
    match side {
        Side::Bid => a > b,
        Side::Ask => a < b,
    }
}

/// Whether the levels are strictly ordered for `side`.
pub fn is_sorted(side: Side, levels: &Vec<PriceLevel>) -> (r: bool)
    ensures
        r == sorted(side, levels@),
{
    let n = levels.len();
    if n == 0 {
        return true;
    }
    let mut i: usize = 1;
    while i < n
        invariant
            1 <= i <= n,
            n == levels.len(),
            sorted(side, levels@.take(i as int)),
        decreases n - i,
    {
        if !stands_before(side, levels[i - 1].price, levels[i].price) {
            return false;
        }
        proof {
            let before = levels@.take(i as int);
            let after = levels@.take(i + 1);
            assert forall|a: int, b: int| 0 <= a < b < after.len() implies precedes(
                side,
                (#[trigger] after[a]).price,
                (#[trigger] after[b]).price,
            ) by {
                if b == i {
                    if a < i - 1 {
                        assert(precedes(side, before[a].price, before[i - 1].price));
                    }
                } else {
                    assert(precedes(side, before[a].price, before[b].price));
                }
            }
        }
        i += 1;
    }
    assert(levels@.take(n as int) =~= levels@);
    true
}

/// Applies one change to one side in place. An ordered side stays ordered.
pub fn apply_change_to_side(side: Side, levels: &mut Vec<PriceLevel>, change: PriceLevel)
    ensures
        final(levels)@ == apply_change(side, old(levels)@, change),
        sorted(side, old(levels)@) ==> sorted(side, final(levels)@),
{
    proof {
        if sorted(side, levels@) {
            lemma_apply_change_sorted(side, levels@, change);
        }
    }
    let n = levels.len();
    let mut i: usize = 0;
    while i < n && levels[i].price != change.price
        invariant
            0 <= i <= n,
            n == levels.len(),
            find_price(levels@, change.price, 0) == find_price(levels@, change.price, i as int),
        decreases n - i,
    {
        i += 1;
    }
    if i < n {
        if change.quantity == 0 {
            levels.remove(i);
        } else {
            levels.set(i, change);
        }
    } else if change.quantity != 0 {
        let mut k: usize = 0;
        while k < n && stands_before(side, levels[k].price, change.price)
            invariant
                0 <= k <= n,
                n == levels.len(),
                first_not_before(side, levels@, change.price, 0) == first_not_before(
                    side,
                    levels@,
                    change.price,
                    k as int,
                ),
            decreases n - k,
        {
            k += 1;
        }
        levels.insert(k, change);
    }
}

/// Applies a list of changes to one side in place, in the order given. An
/// ordered side stays ordered.
pub fn apply_changes_to_side(side: Side, levels: &mut Vec<PriceLevel>, changes: &Vec<PriceLevel>)
    ensures
        final(levels)@ == apply_changes(side, old(levels)@, changes@),
        sorted(side, old(levels)@) ==> sorted(side, final(levels)@),
{
    let n = changes.len();
    let mut i: usize = 0;
    while i < n
        invariant
            0 <= i <= n,
            n == changes.len(),
            sorted(side, old(levels)@) ==> sorted(side, levels@),
            levels@ == apply_changes(side, old(levels)@, changes@.take(i as int)),
        decreases n - i,
    {
        proof {
            let next = changes@.take(i + 1);
            assert(next.drop_last() =~= changes@.take(i as int));
            assert(next.last() == changes@[i as int]);
        }
        apply_change_to_side(side, levels, changes[i]);
        i += 1;
    }
    assert(changes@.take(n as int) =~= changes@);
}

/// A copy of a list of levels.
pub fn copy_levels(levels: &Vec<PriceLevel>) -> (copy: Vec<PriceLevel>)
    ensures
        copy@ == levels@,
{
    let n = levels.len();
    let mut copy: Vec<PriceLevel> = Vec::new();
    let mut i: usize = 0;
    while i < n
        invariant
            0 <= i <= n,
            n == levels.len(),
            copy@ == levels@.take(i as int),
        decreases n - i,
    {
        copy.push(levels[i]);
        assert(levels@.take(i + 1) =~= levels@.take(i as int).push(levels@[i as int]));
        i += 1;
    }
    assert(levels@.take(n as int) =~= levels@);
    copy
}

/// An incremental depth update: the changed levels of each side.
#[derive(Debug)]
pub struct DepthDelta {
    pub bid_changes: Vec<PriceLevel>,
    pub ask_changes: Vec<PriceLevel>,
}

impl View for DepthDelta {
    type V = DepthDeltaView;

    open spec fn view(&self) -> DepthDeltaView {
        DepthDeltaView { bid_changes: self.bid_changes@, ask_changes: self.ask_changes@ }
    }
}

impl DepthDelta {
    pub fn new(bid_changes: Vec<PriceLevel>, ask_changes: Vec<PriceLevel>) -> (delta: DepthDelta)
        ensures
            delta@ == (DepthDeltaView { bid_changes: bid_changes@, ask_changes: ask_changes@ }),
    {
        DepthDelta { bid_changes, ask_changes }
    }
}

impl Clone for DepthDelta {
    fn clone(&self) -> (copy: DepthDelta)
        ensures
            copy@ == self@,
    {
        DepthDelta { bid_changes: copy_levels(&self.bid_changes), ask_changes: copy_levels(&self.ask_changes) }
    }
}

/// The order book of one instrument. Its bids are strictly descending and
/// its asks strictly ascending by price, at all times.
#[derive(Debug)]
pub struct OrderBook {
    last_update_id: u64,
    bids: Vec<PriceLevel>,
    asks: Vec<PriceLevel>,
}

impl View for OrderBook {
    type V = OrderBookView;

    closed spec fn view(&self) -> OrderBookView {
        OrderBookView { last_update_id: self.last_update_id, bids: self.bids@, asks: self.asks@ }
    }
}

impl OrderBook {
    #[verifier::type_invariant]
    spec fn well_formed(self) -> bool {
        book_sorted(self@)
    }

    /// A book with the given levels, if each side is strictly ordered:
    /// bids descending, asks ascending.
    pub fn new(last_update_id: u64, bids: Vec<PriceLevel>, asks: Vec<PriceLevel>) -> (book: Option<OrderBook>)
        ensures
            book is Some <==> sorted(Side::Bid, bids@) && sorted(Side::Ask, asks@),
            book matches Some(b) ==> b@ == (OrderBookView { last_update_id, bids: bids@, asks: asks@ }),
    {
        if is_sorted(Side::Bid, &bids) && is_sorted(Side::Ask, &asks) {
            Some(OrderBook { last_update_id, bids, asks })
        } else {
            None
        }
    }

    /// A book with no levels.
    pub fn empty() -> (book: OrderBook)
        ensures
            book@ == (OrderBookView { last_update_id: 0, bids: Seq::empty(), asks: Seq::empty() }),
    {
        OrderBook { last_update_id: 0, bids: Vec::new(), asks: Vec::new() }
    }

    pub fn last_update_id(&self) -> (id: u64)
        ensures
            id == self@.last_update_id,
    {
        self.last_update_id
    }

    /// The bids, highest price first.
    pub fn bids(&self) -> (levels: &Vec<PriceLevel>)
        ensures
            levels@ == self@.bids,
            sorted(Side::Bid, levels@),
    {
        proof {
            use_type_invariant(self);
        }
        &self.bids
    }

    /// The asks, lowest price first.
    pub fn asks(&self) -> (levels: &Vec<PriceLevel>)
        ensures
            levels@ == self@.asks,
            sorted(Side::Ask, levels@),
    {
        proof {
            use_type_invariant(self);
        }
        &self.asks
    }

    /// The lowest price at which anything is offered, if anything is.
    pub fn lowest_ask(&self) -> (price: Option<u64>)
        ensures
            price == lowest_ask(self@),
            price matches Some(p) ==> forall|i: int| 0 <= i < self@.asks.len() ==> p <= (#[trigger] self@.asks[i]).price,
    {
        proof {
            use_type_invariant(self);
        }
        if self.asks.len() == 0 {
            None
        } else {
            assert forall|i: int| 0 <= i < self@.asks.len() implies self@.asks[0].price <= (#[trigger] self@.asks[i]).price by {
                if i > 0 {
                    assert(precedes(Side::Ask, self@.asks[0].price, self@.asks[i].price));
                }
            }
            Some(self.asks[0].price)
        }
    }

    /// The highest price that anyone bids, if anyone does.
    pub fn highest_bid(&self) -> (price: Option<u64>)
        ensures
            price == highest_bid(self@),
            price matches Some(p) ==> forall|i: int| 0 <= i < self@.bids.len() ==> p >= (#[trigger] self@.bids[i]).price,
    {
        proof {
            use_type_invariant(self);
        }
        if self.bids.len() == 0 {
            None
        } else {
            assert forall|i: int| 0 <= i < self@.bids.len() implies self@.bids[0].price >= (#[trigger] self@.bids[i]).price by {
                if i > 0 {
                    assert(precedes(Side::Bid, self@.bids[0].price, self@.bids[i].price));
                }
            }
            Some(self.bids[0].price)
        }
    }
}

impl Clone for OrderBook {
    fn clone(&self) -> (copy: OrderBook)
        ensures
            copy@ == self@,
    {
        proof {
            use_type_invariant(self);
        }
        OrderBook {
            last_update_id: self.last_update_id,
            bids: copy_levels(&self.bids),
            asks: copy_levels(&self.asks),
        }
    }
}

/// Applies a depth update to a book in place: each changed level is
/// overwritten, removed or inserted in order, the bids and the asks
/// independently, in the order in which the update lists them.
pub fn update_full_order_book(ob: &mut OrderBook, dob: &DepthDelta)
    ensures
        final(ob)@ == apply_delta(old(ob)@, dob@),
        book_sorted(final(ob)@),
{
    proof {
        use_type_invariant(&*ob);
    }
    let mut taken = OrderBook::empty();
    core::mem::swap(ob, &mut taken);
    let OrderBook { last_update_id, bids, asks } = taken;
    let mut bids = bids;
    let mut asks = asks;
    apply_changes_to_side(Side::Bid, &mut bids, &dob.bid_changes);
    apply_changes_to_side(Side::Ask, &mut asks, &dob.ask_changes);
    *ob = OrderBook { last_update_id, bids, asks };
}

} // verus!
