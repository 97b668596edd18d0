//! The chronological multiplexer: merges several time-ordered sources of
//! events into one stream ordered by time of receipt.
//!
//! At every step the source whose next event is the earliest hands it over;
//! among sources that are level, the one that comes first in the list goes
//! first. Items that could not be read are passed over, as if their line
//! were not there.

use crate::event::{events_view, maybe_view, readable, Event, EventView, StreamError};
use crate::reader::{pulled, EventIterator};
use vstd::multiset::Multiset;
use vstd::prelude::*;
use vstd::seq_lib::{lemma_multiset_commutative, to_multiset_build};

verus! {

/// `i` is the place of the earliest time in `times`, and the first such
/// place: every time before it is later, and none after it is earlier.
pub open spec fn is_earliest(times: Seq<Option<u64>>, i: int) -> bool {
    &&& 0 <= i < times.len()
    &&& times[i] is Some
    &&& forall|j: int| 0 <= j < i ==> ((#[trigger] times[j]) matches Some(t) ==> t > times[i]->0)
    &&& forall|j: int| i <= j < times.len() ==> ((#[trigger] times[j]) matches Some(t) ==> t >= times[i]->0)
}

/// The place of the earliest time in `times`, the first one if several are
/// level; none if no source has anything.
pub open spec fn earliest(times: Seq<Option<u64>>) -> Option<int>
    decreases times.len(),
{
    if times.len() == 0 {
        None
    } else {
        let last = times.len() - 1;
        match (earliest(times.drop_last()), times.last()) {
            (Some(i), Some(t)) => if t < times[i]->0 {
                Some(last)
            } else {
                Some(i)
            },
            (Some(i), None) => Some(i),
            (None, Some(_)) => Some(last),
            (None, None) => None,
        }
    }
}

/// `earliest` finds the one place that `is_earliest` describes, and finds
/// none exactly when there is no time at all.
pub proof fn lemma_earliest(times: Seq<Option<u64>>)
    ensures
        match earliest(times) {
            Some(i) => is_earliest(times, i),
            None => forall|j: int| 0 <= j < times.len() ==> (#[trigger] times[j]) is None,
        },
        forall|i: int| is_earliest(times, i) ==> earliest(times) == Some(i),
    decreases times.len(),
{
    if times.len() > 0 {
        let front = times.drop_last();
        lemma_earliest(front);
        assert forall|j: int| 0 <= j < front.len() implies front[j] == times[j] by {}
        match earliest(times) {
            Some(i) => {
                if i < front.len() {
                    assert(front[i] == times[i]);
                }
                assert forall|j: int| 0 <= j < i implies ((#[trigger] times[j]) matches Some(t) ==> t > times[i]->0) by {
                    assert(front[j] == times[j]);
                    match earliest(front) {
                        Some(k) => {
                            assert(front[k] == times[k]);
                        },
                        None => {},
                    }
                }
                assert forall|j: int| i <= j < times.len() implies ((#[trigger] times[j]) matches Some(t) ==> t
                    >= times[i]->0) by {
                    if j < front.len() {
                        assert(front[j] == times[j]);
                    }
                }
                assert(is_earliest(times, i));
            },
            None => {},
        }
        assert forall|i: int| is_earliest(times, i) implies earliest(times) == Some(i) by {
            match earliest(times) {
                Some(k) => {
                    assert(is_earliest(times, k));
                    if i < k {
                        assert(times[i] is Some);
                    } else if k < i {
                        assert(times[k] is Some);
                    }
                },
                None => {
                    assert(times[i] is None);
                },
            }
        }
    }
}

/// Picks the source to take from next: the place of the earliest time among
/// the sources that have an event ready, the first such place if several
/// are level.
pub fn smallest_time_index(times: &Vec<Option<u64>>) -> (index: Option<usize>)
    ensures
        match index {
            Some(i) => earliest(times@) == Some(i as int) && is_earliest(times@, i as int),
            None => earliest(times@) is None && forall|j: int| 0 <= j < times.len() ==> (#[trigger] times@[j]) is None,
        },
{
    let n = times.len();
    let mut best: Option<usize> = None;
    let mut best_time: u64 = 0;
    let mut i: usize = 0;
    while i < n
        invariant
            0 <= i <= n,
            n == times.len(),
            match best {
                Some(b) => b < i && earliest(times@.take(i as int)) == Some(b as int) && times@[b as int] == Some(
                    best_time,
                ),
                None => earliest(times@.take(i as int)) is None,
            },
        decreases n - i,
    {
        proof {
            assert(times@.take(i + 1).drop_last() =~= times@.take(i as int));
            assert(times@.take(i + 1).last() == times@[i as int]);
            if best is Some {
                assert(times@.take(i + 1)[best->0 as int] == times@[best->0 as int]);
            }
        }
        match times[i] {
            Some(t) => {
                if best.is_none() || t < best_time {
                    best = Some(i);
                    best_time = t;
                }
            },
            None => {},
        }
        i += 1;
    }
    proof {
        assert(times@.take(n as int) =~= times@);
        lemma_earliest(times@);
    }
    best
}

/// The time of the first event of a stream, if it has one.
pub open spec fn first_time(stream: Seq<EventView>) -> Option<u64> {
    if stream.len() == 0 {
        None
    } else {
        Some(stream[0].receive_time)
    }
}

/// The time of the first event of every stream.
pub open spec fn head_times(streams: Seq<Seq<EventView>>) -> Seq<Option<u64>> {
    Seq::new(streams.len(), |i: int| first_time(streams[i]))
}

/// The number of events in all the streams together.
pub open spec fn total_len(streams: Seq<Seq<EventView>>) -> nat
    decreases streams.len(),
{
    if streams.len() == 0 {
        0
    } else {
        total_len(streams.drop_last()) + streams.last().len()
    }
}

/// Changing one stream changes the total by the difference of its lengths.
pub proof fn lemma_total_len_update(streams: Seq<Seq<EventView>>, i: int, stream: Seq<EventView>)
    requires
        0 <= i < streams.len(),
    ensures
        total_len(streams.update(i, stream)) == total_len(streams) - streams[i].len() + stream.len(),
    decreases streams.len(),
{
    let changed = streams.update(i, stream);
    if i == streams.len() - 1 {
        assert(changed.drop_last() =~= streams.drop_last());
    } else {
        lemma_total_len_update(streams.drop_last(), i, stream);
        assert(changed.drop_last() =~= streams.drop_last().update(i, stream));
    }
}

/// The streams after the first event of stream `i` has been taken.
pub open spec fn advanced(streams: Seq<Seq<EventView>>, i: int) -> Seq<Seq<EventView>> {
    streams.update(i, streams[i].skip(1))
}

/// The merged stream: again and again the earliest first event of all the
/// streams, the one of the first stream if several are level, until every
/// stream is exhausted.
pub open spec fn merged(streams: Seq<Seq<EventView>>) -> Seq<EventView>
    decreases total_len(streams),
{
    match earliest(head_times(streams)) {
        None => Seq::empty(),
        Some(i) => {
            proof {
                lemma_earliest(head_times(streams));
                lemma_total_len_update(streams, i, streams[i].skip(1));
            }
            seq![streams[i][0]] + merged(advanced(streams, i))
        },
    }
}

/// The events of a stream come in the order of their times.
pub open spec fn time_ordered(stream: Seq<EventView>) -> bool {
    forall|a: int, b: int|
        0 <= a <= b < stream.len() ==> (#[trigger] stream[a]).receive_time <= (#[trigger] stream[b]).receive_time
}

/// No event of any of the streams was received before `time`.
pub open spec fn none_before(streams: Seq<Seq<EventView>>, time: u64) -> bool {
    forall|i: int, a: int|
        0 <= i < streams.len() && 0 <= a < streams[i].len() ==> (#[trigger] streams[i][a]).receive_time >= time
}

/// The merged stream holds as many events as the streams together, and
/// none that was received before all of theirs.
pub proof fn lemma_merged_bounds(streams: Seq<Seq<EventView>>, time: u64)
    requires
        none_before(streams, time),
    ensures
        merged(streams).len() == total_len(streams),
        forall|k: int| 0 <= k < merged(streams).len() ==> (#[trigger] merged(streams)[k]).receive_time >= time,
    decreases total_len(streams),
{
    lemma_earliest(head_times(streams));
    match earliest(head_times(streams)) {
        None => {
            lemma_total_len_empty(streams);
        },
        Some(i) => {
            let rest = advanced(streams, i);
            lemma_total_len_update(streams, i, streams[i].skip(1));
            assert forall|j: int, a: int| 0 <= j < rest.len() && 0 <= a < rest[j].len() implies (
            #[trigger] rest[j][a]).receive_time >= time by {
                if j == i {
                    assert(rest[j][a] == streams[i][a + 1]);
                } else {
                    assert(rest[j][a] == streams[j][a]);
                }
            }
            lemma_merged_bounds(rest, time);
            assert(streams[i][0].receive_time >= time);
        },
    }
}

/// Streams without a first event hold no event at all.
pub proof fn lemma_total_len_empty(streams: Seq<Seq<EventView>>)
    requires
        forall|j: int| 0 <= j < streams.len() ==> (#[trigger] head_times(streams)[j]) is None,
    ensures
        total_len(streams) == 0,
    decreases streams.len(),
{
    if streams.len() > 0 {
        let front = streams.drop_last();
        assert forall|j: int| 0 <= j < front.len() implies (#[trigger] head_times(front)[j]) is None by {
            assert(head_times(streams)[j] is None);
        }
        lemma_total_len_empty(front);
        assert(head_times(streams)[streams.len() - 1] is None);
    }
}

/// Global order: where every stream is ordered by time, so is the merged
/// stream.
pub proof fn lemma_merged_ordered(streams: Seq<Seq<EventView>>)
    requires
        forall|i: int| 0 <= i < streams.len() ==> time_ordered(#[trigger] streams[i]),
    ensures
        time_ordered(merged(streams)),
    decreases total_len(streams),
{
    lemma_earliest(head_times(streams));
    match earliest(head_times(streams)) {
        None => {},
        Some(i) => {
            let first = streams[i][0];
            let rest = advanced(streams, i);
            lemma_total_len_update(streams, i, streams[i].skip(1));
            assert forall|j: int| 0 <= j < rest.len() implies time_ordered(#[trigger] rest[j]) by {
                assert(time_ordered(streams[j]));
                if j == i {
                    assert forall|a: int, b: int| 0 <= a <= b < rest[j].len() implies (
                    #[trigger] rest[j][a]).receive_time <= (#[trigger] rest[j][b]).receive_time by {
                        assert(rest[j][a] == streams[i][a + 1]);
                        assert(rest[j][b] == streams[i][b + 1]);
                    }
                }
            }
            lemma_merged_ordered(rest);
            assert forall|j: int, a: int| 0 <= j < rest.len() && 0 <= a < rest[j].len() implies (
            #[trigger] rest[j][a]).receive_time >= first.receive_time by {
                assert(time_ordered(streams[j]));
                assert(head_times(streams)[i] == Some(first.receive_time));
                if j == i {
                    assert(rest[j][a] == streams[i][a + 1]);
                } else {
                    assert(rest[j][a] == streams[j][a]);
                    assert(head_times(streams)[j] == Some(streams[j][0].receive_time));
                    assert(streams[j][0].receive_time <= streams[j][a].receive_time);
                }
            }
            lemma_merged_bounds(rest, first.receive_time);
            let all = merged(streams);
            let tail = merged(rest);
            assert(all =~= seq![first] + tail);
            assert forall|a: int, b: int| 0 <= a <= b < all.len() implies (#[trigger] all[a]).receive_time <= (
            #[trigger] all[b]).receive_time by {
                if a > 0 {
                    assert(all[a] == tail[a - 1]);
                    assert(all[b] == tail[b - 1]);
                } else if b > 0 {
                    assert(all[b] == tail[b - 1]);
                }
            }
        },
    }
}

/// All the events of all the streams, each as often as it occurs.
pub open spec fn all_events(streams: Seq<Seq<EventView>>) -> Multiset<EventView>
    decreases streams.len(),
{
    if streams.len() == 0 {
        Multiset::empty()
    } else {
        all_events(streams.drop_last()).add(streams.last().to_multiset())
    }
}

/// Taking the first event of a stream takes that event, once, from the
/// events of all the streams.
pub proof fn lemma_all_events_advanced(streams: Seq<Seq<EventView>>, i: int)
    requires
        0 <= i < streams.len(),
        streams[i].len() > 0,
    ensures
        all_events(streams) == all_events(advanced(streams, i)).insert(streams[i][0]),
    decreases streams.len(),
{
    broadcast use {vstd::multiset::group_multiset_axioms, vstd::seq_lib::group_to_multiset_ensures};

    let rest = advanced(streams, i);
    if i == streams.len() - 1 {
        let stream = streams[i];
        let first = seq![stream[0]];
        assert(rest.drop_last() =~= streams.drop_last());
        assert(stream =~= first + stream.skip(1));
        assert(Seq::<EventView>::empty().push(stream[0]) =~= first);
        to_multiset_build(Seq::<EventView>::empty(), stream[0]);
        lemma_multiset_commutative(first, stream.skip(1));
        assert(all_events(streams) =~= all_events(rest).insert(stream[0]));
    } else {
        lemma_all_events_advanced(streams.drop_last(), i);
        assert(rest.drop_last() =~= advanced(streams.drop_last(), i));
        assert(all_events(streams) =~= all_events(rest).insert(streams[i][0]));
    }
}

/// Streams without a first event hold no event at all.
pub proof fn lemma_all_events_empty(streams: Seq<Seq<EventView>>)
    requires
        forall|j: int| 0 <= j < streams.len() ==> (#[trigger] head_times(streams)[j]) is None,
    ensures
        all_events(streams) == Multiset::<EventView>::empty(),
    decreases streams.len(),
{
    broadcast use {vstd::multiset::group_multiset_axioms, vstd::seq_lib::group_to_multiset_ensures};

    if streams.len() > 0 {
        let front = streams.drop_last();
        assert forall|j: int| 0 <= j < front.len() implies (#[trigger] head_times(front)[j]) is None by {
            assert(head_times(streams)[j] is None);
        }
        lemma_all_events_empty(front);
        assert(head_times(streams)[streams.len() - 1] is None);
        assert(streams.last() =~= Seq::<EventView>::empty());
        assert(all_events(streams) =~= Multiset::<EventView>::empty());
    }
}

/// Nothing is lost and nothing is made up: the merged stream holds the
/// events of the streams, each as often as they hold it.
pub proof fn lemma_merged_same_events(streams: Seq<Seq<EventView>>)
    ensures
        merged(streams).to_multiset() == all_events(streams),
    decreases total_len(streams),
{
    broadcast use {vstd::multiset::group_multiset_axioms, vstd::seq_lib::group_to_multiset_ensures};

    lemma_earliest(head_times(streams));
    match earliest(head_times(streams)) {
        None => {
            lemma_all_events_empty(streams);
        },
        Some(i) => {
            let first = seq![streams[i][0]];
            let rest = advanced(streams, i);
            lemma_total_len_update(streams, i, streams[i].skip(1));
            lemma_merged_same_events(rest);
            lemma_all_events_advanced(streams, i);
            assert(Seq::<EventView>::empty().push(streams[i][0]) =~= first);
            to_multiset_build(Seq::<EventView>::empty(), streams[i][0]);
            lemma_multiset_commutative(first, merged(rest));
            assert(merged(streams).to_multiset() =~= all_events(streams));
        },
    }
}

/// One source with its next event held ready.
#[derive(Debug)]
pub struct Lane {
    head: Option<Event>,
    rest: EventIterator,
}

impl Lane {
    /// The events that the lane still holds, next event first.
    pub closed spec fn stream(&self) -> Seq<EventView> {
        match self.head {
            Some(ev) => seq![ev@] + readable(self.rest.remaining()),
            None => Seq::empty(),
        }
    }

    /// Pulls from `source` until an event could be read or nothing is left.
    fn refill(source: &mut EventIterator) -> (head: Option<Event>)
        ensures
            match head {
                Some(ev) => readable(old(source).remaining()) == seq![ev@] + readable(final(source).remaining()),
                None => readable(old(source).remaining()) == Seq::<EventView>::empty(),
            },
    {
        loop
            invariant
                readable(source.remaining()) == readable(old(source).remaining()),
            decreases source.remaining().len(),
        {
            match source.next() {
                Some(Ok(ev)) => {
                    return Some(ev);
                },
                Some(Err(_)) => {},
                None => {
                    return None;
                },
            }
        }
    }

    /// A lane over `source`, with the first readable event held ready.
    pub fn new(source: EventIterator) -> (lane: Lane)
        ensures
            lane.stream() == readable(source.remaining()),
    {
        let mut rest = source;
        let head = Lane::refill(&mut rest);
        Lane { head, rest }
    }

    /// The time of the event that is held ready, if one is.
    pub fn peek_time(&self) -> (time: Option<u64>)
        ensures
            time == first_time(self.stream()),
    {
        match &self.head {
            Some(ev) => Some(ev.receive_time),
            None => None,
        }
    }

    /// Hands out the event that is held ready and holds the next one ready.
    pub fn pop(&mut self) -> (ev: Option<Event>)
        ensures
            pulled(old(self).stream(), final(self).stream(), maybe_view(ev)),
    {
        let mut head: Option<Event> = None;
        core::mem::swap(&mut self.head, &mut head);
        match head {
            Some(ev) => {
                let ghost tail = readable(self.rest.remaining());
                self.head = Lane::refill(&mut self.rest);
                proof {
                    assert((seq![ev@] + tail).skip(1) =~= tail);
                }
                Some(ev)
            },
            None => None,
        }
    }
}

/// The streams of a list of lanes.
pub open spec fn lane_streams(lanes: Seq<Lane>) -> Seq<Seq<EventView>> {
    lanes.map_values(|lane: Lane| lane.stream())
}

/// The multiplexer over sources held in memory.
#[derive(Debug)]
pub struct Multiplexer {
    lanes: Vec<Lane>,
}

impl Multiplexer {
    /// What every source still holds, next event first.
    pub closed spec fn streams(&self) -> Seq<Seq<EventView>> {
        lane_streams(self.lanes@)
    }

    /// The merged stream still to come.
    pub open spec fn remaining(&self) -> Seq<EventView> {
        merged(self.streams())
    }

    /// A multiplexer over `sources`, in their order.
    pub fn new(sources: Vec<EventIterator>) -> (multiplexer: Multiplexer)
        ensures
            multiplexer.streams() == sources@.map_values(|source: EventIterator| readable(source.remaining())),
    {
        let mut sources = sources;
        let ghost all = sources@;
        let ghost wanted = all.map_values(|source: EventIterator| readable(source.remaining()));
        let mut reversed: Vec<Lane> = Vec::new();
        while sources.len() > 0
            invariant
                sources@ == all.take(sources.len() as int),
                reversed.len() + sources.len() == all.len(),
                wanted == all.map_values(|source: EventIterator| readable(source.remaining())),
                forall|k: int|
                    0 <= k < reversed.len() ==> (#[trigger] reversed@[k]).stream() == wanted[all.len() - 1 - k],
            decreases sources.len(),
        {
            let ghost before = sources@;
            match sources.pop() {
                Some(source) => {
                    assert(source == all[before.len() - 1]);
                    reversed.push(Lane::new(source));
                    assert(sources@ =~= all.take(sources.len() as int));
                },
                None => {},
            }
        }
        let mut lanes: Vec<Lane> = Vec::new();
        while reversed.len() > 0
            invariant
                lanes.len() + reversed.len() == all.len(),
                wanted.len() == all.len(),
                forall|k: int|
                    0 <= k < reversed.len() ==> (#[trigger] reversed@[k]).stream() == wanted[all.len() - 1 - k],
                forall|k: int| 0 <= k < lanes.len() ==> (#[trigger] lanes@[k]).stream() == wanted[k],
            decreases reversed.len(),
        {
            match reversed.pop() {
                Some(lane) => {
                    lanes.push(lane);
                },
                None => {},
            }
        }
        assert(lane_streams(lanes@) =~= wanted);
        Multiplexer { lanes }
    }

    /// The time of the event that every source holds ready.
    fn times(&self) -> (times: Vec<Option<u64>>)
        ensures
            times@ == head_times(self.streams()),
    {
        let n = self.lanes.len();
        let mut times: Vec<Option<u64>> = Vec::new();
        let mut i: usize = 0;
        while i < n
            invariant
                0 <= i <= n,
                n == self.lanes.len(),
                times.len() == i,
                forall|k: int| 0 <= k < i ==> (#[trigger] times@[k]) == first_time(self.streams()[k]),
            decreases n - i,
        {
            times.push(self.lanes[i].peek_time());
            i += 1;
        }
        assert(times@ =~= head_times(self.streams()));
        times
    }

    /// Pulls the next event of the merged stream.
    pub fn next(&mut self) -> (ev: Option<Event>)
        ensures
            pulled(old(self).remaining(), final(self).remaining(), maybe_view(ev)),
            final(self).streams() == match earliest(head_times(old(self).streams())) {
                Some(i) => advanced(old(self).streams(), i),
                None => old(self).streams(),
            },
    {
        let times = self.times();
        let ghost streams = self.streams();
        proof {
            lemma_earliest(head_times(streams));
        }
        match smallest_time_index(&times) {
            None => None,
            Some(i) => {
                let mut lane = self.lanes.remove(i);
                let ev = lane.pop();
                self.lanes.insert(i, lane);
                proof {
                    let rest = merged(advanced(streams, i as int));
                    assert(self.streams() =~= advanced(streams, i as int));
                    assert((seq![streams[i as int][0]] + rest).skip(1) =~= rest);
                }
                ev
            },
        }
    }

    /// Pulls the whole merged stream.
    pub fn into_events(self) -> (events: Vec<Event>)
        ensures
            events_view(events@) == self.remaining(),
    {
        let mut multiplexer = self;
        let mut events: Vec<Event> = Vec::new();
        assert(events_view(events@) =~= Seq::<EventView>::empty());
        loop
            invariant
                self.remaining() == events_view(events@) + multiplexer.remaining(),
            decreases multiplexer.remaining().len(),
        {
            let ghost seen = events_view(events@);
            let ghost rest = multiplexer.remaining();
            match multiplexer.next() {
                Some(ev) => {
                    events.push(ev);
                    proof {
                        assert(events_view(events@) =~= seen.push(ev@));
                        assert(seen + rest =~= seen.push(ev@) + rest.skip(1));
                    }
                },
                None => {
                    assert(seen + rest =~= seen);
                    return events;
                },
            }
        }
    }
}

} // verus!
