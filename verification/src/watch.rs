//! The state of the live dashboard: the latest events of every kind, kept
//! for display, and the numbers that place them on the screen.

use crate::event::{events_view, Event, EventType, EventTypeView, EventView};
use crate::world_builder::{World, WorldView};
use vstd::prelude::*;

verus! {

/// How many events of one kind the dashboard keeps.
pub const STREAM_LIMIT: usize = 100;

/// The last second that the clock can show, in seconds since the first of
/// January 1970: the end of the year 262142.
pub const LAST_SECOND: u64 = 8_210_266_876_799;

/// The character of a digit.
pub open spec fn digit(n: int) -> char {
    seq!['0', '1', '2', '3', '4', '5', '6', '7', '8', '9'][n]
}

/// A number below a hundred in two digits.
pub open spec fn two_digits(n: int) -> Seq<char> {
    seq![digit(n / 10), digit(n % 10)]
}

/// A number below a thousand in three digits.
pub open spec fn three_digits(n: int) -> Seq<char> {
    seq![digit(n / 100), digit((n / 10) % 10), digit(n % 10)]
}

/// The time of day of a moment, given in seconds since the first of
/// January 1970 and in nanoseconds on top, as hours, minutes, seconds and
/// milliseconds of the day in universal time: `HH:MM:SS.mmm`.
pub open spec fn clock_text(secs: int, nanos: int) -> Seq<char> {
    let of_day = secs % 86_400;
    two_digits(of_day / 3_600) + seq![':'] + two_digits((of_day % 3_600) / 60) + seq![':'] + two_digits(of_day % 60)
        + seq!['.'] + three_digits(nanos / 1_000_000)
}

/// What a text holds, if there is one.
pub open spec fn text_view(text: Option<String>) -> Option<Seq<char>> {
    match text {
        Some(t) => Some(t@),
        None => None,
    }
}

/// Makes a moment with `chrono::DateTime::from_timestamp` and writes it with
/// `chrono::DateTime::format` under the pattern `%H:%M:%S%.3f`. Trusted:
/// a moment not before 1970 is in chrono's range up to the end of the year
/// 262142 and not after it, and the pattern writes the hour, the minute and
/// the second of the day in two digits each and the milliseconds in three.
#[verifier::external_body]
fn format_clock(secs: i64, nanos: u32, pattern: &str) -> (text: Option<String>)
    requires
        0 <= secs,
        nanos < 1_000_000_000,
        pattern@ == "%H:%M:%S%.3f"@,
    ensures
        text_view(text) == if secs <= LAST_SECOND {
            Some(clock_text(secs as int, nanos as int))
        } else {
            None
        },
{
    chrono::DateTime::from_timestamp(secs, nanos).map(|moment| moment.format(pattern).to_string())
}

/// A key of the keyboard, as far as the dashboard tells keys apart.
#[derive(Clone, Copy, Debug, PartialEq, Eq, Structural)]
pub enum Key {
    Esc,
    Char(char),
    Other,
}

/// The key press asks the dashboard to stop: escape or `q` with any
/// modifiers, or `c` with the control key alone.
pub open spec fn asks_to_quit(control: bool, key: Key) -> bool {
    ||| key == Key::Esc
    ||| key == Key::Char('q')
    ||| control && (key == Key::Char('c') || key == Key::Char('C'))
}

/// The events that the dashboard keeps, oldest first, and the worlds that
/// it was shown.
#[derive(Debug)]
pub struct App {
    running: bool,
    partials: Vec<Event>,
    fulls: Vec<Event>,
    orders: Vec<Event>,
    fills: Vec<Event>,
    worlds: Vec<World>,
}

/// What the dashboard holds.
pub struct AppView {
    pub running: bool,
    pub partials: Seq<EventView>,
    pub fulls: Seq<EventView>,
    pub orders: Seq<EventView>,
    pub fills: Seq<EventView>,
    pub worlds: Seq<WorldView>,
}

/// The last `limit` elements of a list, or all of it if it is shorter.
pub open spec fn last_of<T>(items: Seq<T>, limit: int) -> Seq<T> {
    if items.len() > limit {
        items.skip(items.len() - limit)
    } else {
        items
    }
}

/// The dashboard after it has taken in one event: depth updates, full
/// books and trade notices are kept, each with its kind; other events are
/// not.
pub open spec fn recorded(app: AppView, ev: EventView) -> AppView {
    match ev.event {
        EventTypeView::PartialOrderBook(_) => AppView { partials: app.partials.push(ev), ..app },
        EventTypeView::FullOrderBook(_) => AppView { fulls: app.fulls.push(ev), ..app },
        EventTypeView::OrderTradeEvent(_) => AppView { orders: app.orders.push(ev), ..app },
        _ => app,
    }
}

/// The dashboard after every kind of event, and the worlds, have been cut
/// down to the latest `STREAM_LIMIT`.
pub open spec fn trimmed(app: AppView) -> AppView {
    AppView {
        partials: last_of(app.partials, STREAM_LIMIT as int),
        fulls: last_of(app.fulls, STREAM_LIMIT as int),
        orders: last_of(app.orders, STREAM_LIMIT as int),
        fills: last_of(app.fills, STREAM_LIMIT as int),
        worlds: last_of(app.worlds, STREAM_LIMIT as int),
        ..app
    }
}

/// Cuts a list of events down to its last `STREAM_LIMIT`.
fn keep_latest(events: &mut Vec<Event>)
    ensures
        events_view(final(events)@) == last_of(events_view(old(events)@), STREAM_LIMIT as int),
{
    let n = events.len();
    if n > STREAM_LIMIT {
        let mut latest = events.split_off(n - STREAM_LIMIT);
        core::mem::swap(events, &mut latest);
        assert(events_view(events@) =~= last_of(events_view(old(events)@), STREAM_LIMIT as int));
    }
}

impl View for App {
    type V = AppView;

    closed spec fn view(&self) -> AppView {
        AppView {
            running: self.running,
            partials: events_view(self.partials@),
            fulls: events_view(self.fulls@),
            orders: events_view(self.orders@),
            fills: events_view(self.fills@),
            worlds: self.worlds@.map_values(|world: World| world@),
        }
    }
}

impl App {
    /// A running dashboard that has seen nothing.
    pub fn new() -> (app: App)
        ensures
            app@ == (AppView {
                running: true,
                partials: Seq::empty(),
                fulls: Seq::empty(),
                orders: Seq::empty(),
                fills: Seq::empty(),
                worlds: Seq::empty(),
            }),
    {
        let app = App {
            running: true,
            partials: Vec::new(),
            fulls: Vec::new(),
            orders: Vec::new(),
            fills: Vec::new(),
            worlds: Vec::new(),
        };
        assert(app@.partials =~= Seq::empty());
        assert(app@.fulls =~= Seq::empty());
        assert(app@.orders =~= Seq::empty());
        assert(app@.fills =~= Seq::empty());
        assert(app@.worlds =~= Seq::empty());
        app
    }

    pub fn is_running(&self) -> (running: bool)
        ensures
            running == self@.running,
    {
        self.running
    }

    /// Stops the dashboard.
    pub fn quit(&mut self)
        ensures
            final(self)@ == (AppView { running: false, ..old(self)@ }),
    {
        self.running = false;
    }

    /// Takes in one key press, of which `control` says whether the control
    /// key and no other modifier was held: stops the dashboard if the key
    /// asks for it.
    pub fn on_key_event(&mut self, control: bool, key: Key)
        ensures
            final(self)@ == (AppView { running: old(self)@.running && !asks_to_quit(control, key), ..old(self)@ }),
    {
        match key {
            Key::Esc => self.quit(),
            Key::Char(c) => {
                if c == 'q' || (control && (c == 'c' || c == 'C')) {
                    self.quit();
                }
            },
            Key::Other => {},
        }
    }

    /// Takes in one event and keeps it with its kind.
    pub fn record(&mut self, event: Event)
        ensures
            final(self)@ == recorded(old(self)@, event@),
    {
        match &event.event {
            EventType::PartialOrderBook(_) => {
                self.partials.push(event);
                assert(self@.partials =~= old(self)@.partials.push(event@));
            },
            EventType::FullOrderBook(_) => {
                self.fulls.push(event);
                assert(self@.fulls =~= old(self)@.fulls.push(event@));
            },
            EventType::OrderTradeEvent(_) => {
                self.orders.push(event);
                assert(self@.orders =~= old(self)@.orders.push(event@));
            },
            EventType::AccountInformation(_) => {},
            EventType::OpenOrders(_) => {},
        }
    }

    /// Takes in one world.
    pub fn record_world(&mut self, world: World)
        ensures
            final(self)@ == (AppView { worlds: old(self)@.worlds.push(world@), ..old(self)@ }),
    {
        self.worlds.push(world);
        assert(self@.worlds =~= old(self)@.worlds.push(world@));
    }

    /// Cuts every kind of event, and the worlds, down to the latest
    /// `STREAM_LIMIT`.
    pub fn trim(&mut self)
        ensures
            final(self)@ == trimmed(old(self)@),
    {
        keep_latest(&mut self.partials);
        keep_latest(&mut self.fulls);
        keep_latest(&mut self.orders);
        keep_latest(&mut self.fills);
        let n = self.worlds.len();
        if n > STREAM_LIMIT {
            let mut latest = self.worlds.split_off(n - STREAM_LIMIT);
            core::mem::swap(&mut self.worlds, &mut latest);
            assert(self@.worlds =~= last_of(old(self)@.worlds, STREAM_LIMIT as int));
        }
    }

    /// The depth updates that are kept, oldest first.
    pub fn partials(&self) -> (events: &Vec<Event>)
        ensures
            events_view(events@) == self@.partials,
    {
        &self.partials
    }

    /// The full books that are kept, oldest first.
    pub fn fulls(&self) -> (events: &Vec<Event>)
        ensures
            events_view(events@) == self@.fulls,
    {
        &self.fulls
    }

    /// The trade notices that are kept, oldest first.
    pub fn orders(&self) -> (events: &Vec<Event>)
        ensures
            events_view(events@) == self@.orders,
    {
        &self.orders
    }

    /// The fills that are kept, oldest first.
    pub fn fills(&self) -> (events: &Vec<Event>)
        ensures
            events_view(events@) == self@.fills,
    {
        &self.fills
    }

    /// The world that was shown last, if any was.
    pub fn last_world(&self) -> (world: Option<&World>)
        ensures
            match world {
                Some(w) => self@.worlds.len() > 0 && w@ == self@.worlds.last(),
                None => self@.worlds.len() == 0,
            },
    {
        let n = self.worlds.len();
        if n > 0 {
            Some(&self.worlds[n - 1])
        } else {
            None
        }
    }

    /// The first line to show of `len` lines in a frame that is `height`
    /// rows high, of which two are its border: so many lines are scrolled
    /// away that the last line is in sight.
    pub fn scroll_offset(len: usize, height: u16) -> (offset: usize)
        ensures
            offset == if height >= 2 && len > height - 2 {
                len - (height - 2)
            } else if height < 2 {
                len as int
            } else {
                0
            },
    {
        let rows: usize = if height >= 2 {
            (height - 2) as usize
        } else {
            0
        };
        if len > rows {
            len - rows
        } else {
            0
        }
    }

    /// The time of day of a time of receipt in milliseconds, in universal
    /// time, as `HH:MM:SS.mmm`; none for a time after the year 262142.
    pub fn timestamp_to_string(timestamp: u64) -> (text: Option<String>)
        ensures
            text_view(text) == if timestamp / 1000 <= LAST_SECOND {
                Some(clock_text(timestamp as int / 1000, (timestamp as int % 1000) * 1_000_000))
            } else {
                None
            },
    {
        let secs: i64 = (timestamp / 1000) as i64;
        let nanos: u32 = ((timestamp % 1000) * 1_000_000) as u32;
        format_clock(secs, nanos, "%H:%M:%S%.3f")
    }
}

} // verus!
