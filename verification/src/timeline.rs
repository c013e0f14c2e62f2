//! A timeline: every event of one entity, held in non-decreasing
//! timestamp order, ties kept in insertion order.

use vstd::prelude::*;
use vstd::seq_lib::*;

use crate::event::{Event, EventView};
use crate::temporal::Timestamp;

verus! {

/// Timestamps never decrease along the sequence.
pub open spec fn sorted_by_time(evs: Seq<EventView>) -> bool {
    forall|i: int, j: int| 0 <= i < j < evs.len() ==> evs[i].timestamp <= evs[j].timestamp
}

/// Where a new event with timestamp `ts` lands: after every event whose
/// timestamp is not greater, so ties keep their insertion order.
pub open spec fn insert_pos(evs: Seq<EventView>, ts: i64) -> int
    decreases evs.len(),
{
    if evs.len() == 0 {
        0
    } else if evs.last().timestamp <= ts {
        evs.len() as int
    } else {
        insert_pos(evs.drop_last(), ts)
    }
}

/// A timeline after one more event.
pub open spec fn insert_event(evs: Seq<EventView>, e: EventView) -> Seq<EventView> {
    evs.insert(insert_pos(evs, e.timestamp), e)
}

/// A timeline after a whole run of events, appended in order.
pub open spec fn insert_events(evs: Seq<EventView>, new: Seq<EventView>) -> Seq<EventView>
    decreases new.len(),
{
    if new.len() == 0 {
        evs
    } else {
        insert_events(insert_event(evs, new[0]), new.drop_first())
    }
}

/// Whether a timeline already holds an event with this identity at this
/// timestamp: what `merge` deduplicates by.
pub open spec fn has_event_at(evs: Seq<EventView>, ts: i64, id: u128) -> bool {
    exists|k: int| 0 <= k < evs.len() && (#[trigger] evs[k]).timestamp == ts && evs[k].id == id
}

/// A timeline after merging another's events in order, skipping those
/// already present by identity and timestamp.
pub open spec fn merge_events(evs: Seq<EventView>, other: Seq<EventView>) -> Seq<EventView>
    decreases other.len(),
{
    if other.len() == 0 {
        evs
    } else {
        let next = if has_event_at(evs, other[0].timestamp, other[0].id) {
            evs
        } else {
            insert_event(evs, other[0])
        };
        merge_events(next, other.drop_first())
    }
}

/// The insertion position splits the timeline: not-greater timestamps
/// before it, greater ones after it.
pub proof fn lemma_insert_pos_bounds(evs: Seq<EventView>, ts: i64)
    requires
        sorted_by_time(evs),
    ensures
        0 <= insert_pos(evs, ts) <= evs.len(),
        forall|k: int| 0 <= k < insert_pos(evs, ts) ==> (#[trigger] evs[k]).timestamp <= ts,
        forall|k: int| insert_pos(evs, ts) <= k < evs.len() ==> (#[trigger] evs[k]).timestamp > ts,
    decreases evs.len(),
{
    if evs.len() == 0 {
    } else if evs.last().timestamp <= ts {
        assert forall|k: int| 0 <= k < evs.len() implies (#[trigger] evs[k]).timestamp <= ts by {
            if k < evs.len() - 1 {
                assert(evs[k].timestamp <= evs.last().timestamp);
            }
        }
    } else {
        assert(sorted_by_time(evs.drop_last())) by {
            assert forall|i: int, j: int|
                0 <= i < j < evs.drop_last().len() implies evs.drop_last()[i].timestamp
                <= evs.drop_last()[j].timestamp by {
                assert(evs[i].timestamp <= evs[j].timestamp);
            }
        }
        lemma_insert_pos_bounds(evs.drop_last(), ts);
        assert forall|k: int| 0 <= k < insert_pos(evs, ts) implies (#[trigger] evs[k]).timestamp
            <= ts by {
            assert(evs.drop_last()[k].timestamp <= ts);
        }
        assert forall|k: int| insert_pos(evs, ts) <= k < evs.len() implies (#[trigger]
        evs[k]).timestamp > ts by {
            if k < evs.len() - 1 {
                assert(evs.drop_last()[k].timestamp > ts);
            }
        }
    }
}

/// Inserting at the insertion position keeps the timeline sorted.
pub proof fn lemma_insert_event_sorted(evs: Seq<EventView>, e: EventView)
    requires
        sorted_by_time(evs),
    ensures
        sorted_by_time(insert_event(evs, e)),
        insert_event(evs, e).len() == evs.len() + 1,
{
    let p = insert_pos(evs, e.timestamp);
    lemma_insert_pos_bounds(evs, e.timestamp);
    let out = evs.insert(p, e);
    assert forall|i: int, j: int| 0 <= i < j < out.len() implies out[i].timestamp
        <= out[j].timestamp by {
        if i < p && j < p {
        } else if i < p && j == p {
        } else if i == p && j > p {
        } else if i < p && j > p {
            assert(out[i] == evs[i] && out[j] == evs[j - 1]);
            assert(evs[i].timestamp <= e.timestamp);
            assert(evs[j - 1].timestamp > e.timestamp);
        } else {
        }
    }
}

/// The whole history of one entity, in timestamp order.
#[derive(Debug)]
pub struct Timeline {
    entity_id: String,
    events: Vec<Event>,
    version: u64,
}

impl View for Timeline {
    type V = Seq<EventView>;

    closed spec fn view(&self) -> Seq<EventView> {
        self.events.deep_view()
    }
}

impl Clone for Timeline {
    /// A copy with the same entity, events and version.
    fn clone(&self) -> (r: Self)
        ensures
            r@ == self@,
            r.spec_entity_id() == self.spec_entity_id(),
            r.spec_version() == self.spec_version(),
            self.wf() ==> r.wf(),
    {
        let mut events: Vec<Event> = Vec::new();
        let mut i: usize = 0;
        while i < self.events.len()
            invariant
                i <= self.events@.len(),
                events@.len() == i,
                forall|k: int| 0 <= k < i ==> events@[k]@ == self.events@[k]@,
            decreases self.events@.len() - i,
        {
            events.push(self.events[i].clone());
            i += 1;
        }
        let r = Timeline { entity_id: self.entity_id.clone(), events, version: self.version };
        proof {
            assert(r@ =~= self@);
        }
        r
    }
}

impl Timeline {
    /// The characters of the entity this timeline belongs to.
    pub closed spec fn spec_entity_id(&self) -> Seq<char> {
        self.entity_id@
    }

    /// The version counter: one step per appended event, stopping at the
    /// top of its range.
    pub closed spec fn spec_version(&self) -> u64 {
        self.version
    }

    /// The timeline is in working order: its events never step backward
    /// in time, and the version counts them.
    pub closed spec fn wf(&self) -> bool {
        &&& sorted_by_time(self@)
        &&& self.version as int == if self@.len() <= u64::MAX {
            self@.len() as int
        } else {
            u64::MAX as int
        }
    }

    /// In a timeline in working order the version counter counts the
    /// events, stopping only at the top of its range.
    pub proof fn lemma_version_counts(&self)
        requires
            self.wf(),
        ensures
            self.spec_version() as int == if self@.len() <= u64::MAX {
                self@.len() as int
            } else {
                u64::MAX as int
            },
    {
    }

    /// A timeline in working order never steps backward in time.
    pub proof fn lemma_wf_sorted(&self)
        requires
            self.wf(),
        ensures
            sorted_by_time(self@),
    {
    }

    /// An empty timeline for one entity.
    pub fn new(entity_id: String) -> (r: Self)
        ensures
            r.wf(),
            r@ == Seq::<EventView>::empty(),
            r.spec_entity_id() == entity_id@,
            r.spec_version() == 0,
    {
        let r = Timeline { entity_id, events: Vec::new(), version: 0 };
        proof {
            assert(r@ =~= Seq::<EventView>::empty());
        }
        r
    }

    /// The entity this timeline belongs to.
    pub fn entity_id(&self) -> (r: &str)
        ensures
            r@ == self.spec_entity_id(),
    {
        self.entity_id.as_str()
    }

    /// Append one event: it lands after every event whose timestamp is
    /// not greater, so ties stay in insertion order.
    pub fn append(&mut self, event: Event)
        requires
            old(self).wf(),
        ensures
            final(self).wf(),
            final(self)@ == insert_event(old(self)@, event@),
            final(self)@.len() == old(self)@.len() + 1,
            final(self).spec_entity_id() == old(self).spec_entity_id(),
    {
        let ts = event.timestamp();
        let mut i: usize = 0;
        while i < self.events.len() && self.events[i].metadata.timestamp.nanos <= ts.nanos
            invariant
                old(self).wf(),
                *self == *old(self),
                i <= self.events@.len(),
                ts.nanos == event@.timestamp,
                forall|k: int| 0 <= k < i ==> (#[trigger] self@[k]).timestamp <= ts.nanos,
            decreases self.events@.len() - i,
        {
            proof {
                assert(self@[i as int] == self.events@[i as int]@);
            }
            i += 1;
        }
        proof {
            lemma_insert_pos_bounds(self@, ts.nanos);
            if i < self.events@.len() {
                assert(self@[i as int].timestamp > ts.nanos);
            }
            // The scan stopped exactly at the insertion position.
            assert(insert_pos(self@, ts.nanos) == i as int) by {
                let p = insert_pos(self@, ts.nanos);
                if p < i {
                    assert(self@[p].timestamp <= ts.nanos);
                }
                if i < p {
                    assert(self@[i as int].timestamp <= ts.nanos);
                }
            }
            lemma_insert_event_sorted(self@, event@);
        }
        let ghost pre = self@;
        self.events.insert(i, event);
        if self.version < u64::MAX {
            self.version = self.version + 1;
        }
        proof {
            assert(self@ =~= pre.insert(i as int, event@));
        }
    }

    /// Append a run of events in order.
    pub fn append_many(&mut self, events: Vec<Event>)
        requires
            old(self).wf(),
        ensures
            final(self).wf(),
            final(self)@ == insert_events(old(self)@, events.deep_view()),
            final(self).spec_entity_id() == old(self).spec_entity_id(),
    {
        let mut j: usize = 0;
        proof {
            assert(events.deep_view().subrange(0, events.deep_view().len() as int)
                =~= events.deep_view());
        }
        while j < events.len()
            invariant
                j <= events@.len(),
                self.wf(),
                self.spec_entity_id() == old(self).spec_entity_id(),
                insert_events(old(self)@, events.deep_view()) == insert_events(
                    self@,
                    events.deep_view().subrange(j as int, events.deep_view().len() as int),
                ),
            decreases events@.len() - j,
        {
            let ghost rest = events.deep_view().subrange(j as int, events.deep_view().len() as int);
            proof {
                assert(rest[0] == events.deep_view()[j as int]);
                assert(rest.drop_first() =~= events.deep_view().subrange(
                    j + 1 as int,
                    events.deep_view().len() as int,
                ));
            }
            self.append(events[j].clone());
            j += 1;
        }
        proof {
            let empty = events.deep_view().subrange(
                events.deep_view().len() as int,
                events.deep_view().len() as int,
            );
            assert(empty =~= Seq::<EventView>::empty());
            assert(insert_events(self@, empty) == self@);
        }
    }

    /// Every event, in timestamp order.
    pub fn events(&self) -> (r: &Vec<Event>)
        ensures
            r.deep_view() == self@,
    {
        &self.events
    }

    /// The events whose timestamps fall in the half-open range
    /// `[start, end)`, in timestamp order.
    pub fn events_in_range(&self, start: Timestamp, end: Timestamp) -> (r: Vec<&Event>)
        ensures
            r.deep_view() == self@.filter(
                |e: EventView| start.nanos <= e.timestamp && e.timestamp < end.nanos,
            ),
    {
        let mut out: Vec<&Event> = Vec::new();
        let ghost pred = |e: EventView| start.nanos <= e.timestamp && e.timestamp < end.nanos;
        let mut i: usize = 0;
        proof {
            reveal(Seq::filter);
            assert(out.deep_view() =~= self@.subrange(0, 0).filter(pred));
        }
        while i < self.events.len()
            invariant
                i <= self.events@.len(),
                pred == (|e: EventView| start.nanos <= e.timestamp && e.timestamp < end.nanos),
                out.deep_view() == self@.subrange(0, i as int).filter(pred),
                self@ == self.events.deep_view(),
            decreases self.events@.len() - i,
        {
            let ghost done = self@.subrange(0, i as int);
            let ghost pre = out.deep_view();
            let e = &self.events[i];
            proof {
                reveal(Seq::filter);
                assert(self@.subrange(0, i + 1 as int).drop_last() =~= done);
                assert(self@.subrange(0, i + 1 as int).last() == e@);
            }
            if start.nanos <= e.metadata.timestamp.nanos && e.metadata.timestamp.nanos
                < end.nanos {
                out.push(e);
                proof {
                    assert(out.deep_view() =~= pre.push(e@));
                }
            }
            i += 1;
        }
        proof {
            assert(self@.subrange(0, self@.len() as int) =~= self@);
        }
        out
    }

    /// The events whose timestamps do not exceed `timestamp`, in order.
    pub fn events_up_to(&self, timestamp: Timestamp) -> (r: Vec<&Event>)
        ensures
            r.deep_view() == self@.filter(|e: EventView| e.timestamp <= timestamp.nanos),
    {
        let mut out: Vec<&Event> = Vec::new();
        let ghost pred = |e: EventView| e.timestamp <= timestamp.nanos;
        let mut i: usize = 0;
        proof {
            reveal(Seq::filter);
            assert(out.deep_view() =~= self@.subrange(0, 0).filter(pred));
        }
        while i < self.events.len()
            invariant
                i <= self.events@.len(),
                pred == (|e: EventView| e.timestamp <= timestamp.nanos),
                out.deep_view() == self@.subrange(0, i as int).filter(pred),
                self@ == self.events.deep_view(),
            decreases self.events@.len() - i,
        {
            let ghost done = self@.subrange(0, i as int);
            let ghost pre = out.deep_view();
            let e = &self.events[i];
            proof {
                reveal(Seq::filter);
                assert(self@.subrange(0, i + 1 as int).drop_last() =~= done);
                assert(self@.subrange(0, i + 1 as int).last() == e@);
            }
            if e.metadata.timestamp.nanos <= timestamp.nanos {
                out.push(e);
                proof {
                    assert(out.deep_view() =~= pre.push(e@));
                }
            }
            i += 1;
        }
        proof {
            assert(self@.subrange(0, self@.len() as int) =~= self@);
        }
        out
    }

    /// The latest event at or before `timestamp`: the last one the
    /// timeline holds with a timestamp not past it.
    pub fn latest_before(&self, timestamp: Timestamp) -> (r: Option<&Event>)
        ensures
            r matches Some(e) ==> spec_latest_before(self@, timestamp.nanos) == Some(e@),
            r is None ==> spec_latest_before(self@, timestamp.nanos) is None,
    {
        let ghost pred = |e: EventView| e.timestamp <= timestamp.nanos;
        let mut best: Option<&Event> = None;
        let mut i: usize = 0;
        proof {
            reveal(Seq::filter);
            assert(self@.subrange(0, 0).filter(pred) =~= Seq::<EventView>::empty());
        }
        while i < self.events.len()
            invariant
                i <= self.events@.len(),
                pred == (|e: EventView| e.timestamp <= timestamp.nanos),
                self@ == self.events.deep_view(),
                ({
                    let f = self@.subrange(0, i as int).filter(pred);
                    match best {
                        Some(e) => f.len() > 0 && f.last() == e@,
                        None => f.len() == 0,
                    }
                }),
            decreases self.events@.len() - i,
        {
            let ghost done = self@.subrange(0, i as int);
            let e = &self.events[i];
            proof {
                reveal(Seq::filter);
                assert(self@.subrange(0, i + 1 as int).drop_last() =~= done);
                assert(self@.subrange(0, i + 1 as int).last() == e@);
            }
            if e.metadata.timestamp.nanos <= timestamp.nanos {
                best = Some(e);
            }
            i += 1;
        }
        proof {
            assert(self@.subrange(0, self@.len() as int) =~= self@);
        }
        best
    }

    /// The earliest event at or after `timestamp`: the first one the
    /// timeline holds with a timestamp not before it.
    pub fn earliest_after(&self, timestamp: Timestamp) -> (r: Option<&Event>)
        ensures
            r matches Some(e) ==> spec_earliest_after(self@, timestamp.nanos) == Some(e@),
            r is None ==> spec_earliest_after(self@, timestamp.nanos) is None,
    {
        let ghost pred = |e: EventView| e.timestamp >= timestamp.nanos;
        let mut i: usize = 0;
        proof {
            reveal(Seq::filter);
            assert(self@.subrange(0, 0).filter(pred) =~= Seq::<EventView>::empty());
        }
        while i < self.events.len()
            invariant
                i <= self.events@.len(),
                pred == (|e: EventView| e.timestamp >= timestamp.nanos),
                self@ == self.events.deep_view(),
                self@.subrange(0, i as int).filter(pred) == Seq::<EventView>::empty(),
            decreases self.events@.len() - i,
        {
            let ghost done = self@.subrange(0, i as int);
            let e = &self.events[i];
            proof {
                reveal(Seq::filter);
                assert(self@.subrange(0, i + 1 as int).drop_last() =~= done);
                assert(self@.subrange(0, i + 1 as int).last() == e@);
            }
            if e.metadata.timestamp.nanos >= timestamp.nanos {
                proof {
                    broadcast use vstd::prelude::Seq::filter_distributes_over_add;

                    let rest = self@.subrange(i as int, self@.len() as int);
                    assert(self@ =~= done + rest);
                    assert(rest =~= seq![e@] + rest.drop_first());
                    assert(seq![e@].drop_last() =~= Seq::<EventView>::empty());
                    assert(seq![e@].filter(pred) =~= seq![e@]);
                    assert(self@.filter(pred) == (done.filter(pred) + (seq![e@].filter(pred)
                        + rest.drop_first().filter(pred))));
                    assert(self@.filter(pred)[0] == e@);
                }
                return Some(e);
            }
            i += 1;
        }
        proof {
            assert(self@.subrange(0, self@.len() as int) =~= self@);
        }
        None
    }

    /// The version counter.
    pub fn version(&self) -> (r: u64)
        ensures
            r == self.spec_version(),
    {
        self.version
    }

    /// Whether the timeline holds no events.
    pub fn is_empty(&self) -> (r: bool)
        ensures
            r == (self@.len() == 0),
    {
        self.events.len() == 0
    }

    /// How many events the timeline holds.
    pub fn len(&self) -> (r: usize)
        ensures
            r == self@.len(),
    {
        self.events.len()
    }

    /// The earliest timestamp, if any event is present.
    pub fn first_timestamp(&self) -> (r: Option<Timestamp>)
        ensures
            r matches Some(t) ==> self@.len() > 0 && t.nanos == self@[0].timestamp,
            r is None ==> self@.len() == 0,
    {
        if self.events.len() == 0 {
            None
        } else {
            Some(self.events[0].metadata.timestamp)
        }
    }

    /// The latest timestamp, if any event is present.
    pub fn last_timestamp(&self) -> (r: Option<Timestamp>)
        ensures
            r matches Some(t) ==> self@.len() > 0 && t.nanos == self@.last().timestamp,
            r is None ==> self@.len() == 0,
    {
        if self.events.len() == 0 {
            None
        } else {
            Some(self.events[self.events.len() - 1].metadata.timestamp)
        }
    }

    /// Merge another timeline for the same entity into this one; an event
    /// already present, by identity and timestamp, is skipped. Timelines
    /// of different entities do not mix: the call changes nothing.
    pub fn merge(&mut self, other: &Timeline)
        requires
            old(self).wf(),
        ensures
            final(self).wf(),
            final(self).spec_entity_id() == old(self).spec_entity_id(),
            old(self).spec_entity_id() != other.spec_entity_id() ==> final(self)@ == old(self)@,
            old(self).spec_entity_id() == other.spec_entity_id() ==> final(self)@ == merge_events(
                old(self)@,
                other@,
            ),
    {
        if !string_eq(&self.entity_id, &other.entity_id) {
            return ;
        }
        let mut j: usize = 0;
        proof {
            assert(other@.subrange(0, other@.len() as int) =~= other@);
        }
        while j < other.events.len()
            invariant
                j <= other.events@.len(),
                self.wf(),
                self.spec_entity_id() == old(self).spec_entity_id(),
                other@ == other.events.deep_view(),
                merge_events(old(self)@, other@) == merge_events(
                    self@,
                    other@.subrange(j as int, other@.len() as int),
                ),
            decreases other.events@.len() - j,
        {
            let ghost rest = other@.subrange(j as int, other@.len() as int);
            let e = &other.events[j];
            proof {
                assert(rest[0] == other@[j as int]);
                assert(rest.drop_first() =~= other@.subrange(j + 1 as int, other@.len() as int));
            }
            let dup = self.contains_event_at(e.metadata.timestamp, &e.metadata.id);
            if !dup {
                self.append(e.clone());
            }
            j += 1;
        }
        proof {
            let empty = other@.subrange(other@.len() as int, other@.len() as int);
            assert(empty =~= Seq::<EventView>::empty());
            assert(merge_events(self@, empty) == self@);
        }
    }

    /// Whether some event with this identity sits at this timestamp.
    pub fn contains_event_at(&self, ts: Timestamp, id: &crate::event::EventId) -> (r: bool)
        ensures
            r == has_event_at(self@, ts.nanos, id.id),
    {
        let mut k: usize = 0;
        while k < self.events.len()
            invariant
                k <= self.events@.len(),
                self@ == self.events.deep_view(),
                forall|m: int| 0 <= m < k ==> !((#[trigger] self@[m]).timestamp == ts.nanos
                    && self@[m].id == id.id),
            decreases self.events@.len() - k,
        {
            let e = &self.events[k];
            if e.metadata.timestamp.nanos == ts.nanos && e.metadata.id.id == id.id {
                proof {
                    assert(self@[k as int].timestamp == ts.nanos && self@[k as int].id == id.id);
                }
                return true;
            }
            k += 1;
        }
        false
    }
}

/// String equality by characters.
fn string_eq(a: &String, b: &String) -> (r: bool)
    ensures
        r == (a@ == b@),
{
    a.eq(b)
}

/// The latest event at or before `t`: the last of those that qualify.
pub open spec fn spec_latest_before(evs: Seq<EventView>, t: i64) -> Option<EventView> {
    let f = evs.filter(|e: EventView| e.timestamp <= t);
    if f.len() == 0 {
        None
    } else {
        Some(f.last())
    }
}

/// The earliest event at or after `t`: the first of those that qualify.
pub open spec fn spec_earliest_after(evs: Seq<EventView>, t: i64) -> Option<EventView> {
    let f = evs.filter(|e: EventView| e.timestamp >= t);
    if f.len() == 0 {
        None
    } else {
        Some(f[0])
    }
}

/// Filtering keeps the order and draws only from the sequence.
proof fn lemma_filter_sorted(evs: Seq<EventView>, pred: spec_fn(EventView) -> bool)
    requires
        sorted_by_time(evs),
    ensures
        sorted_by_time(evs.filter(pred)),
        forall|i: int| 0 <= i < evs.filter(pred).len() ==> evs.contains(
            #[trigger] evs.filter(pred)[i],
        ),
    decreases evs.len(),
{
    reveal(Seq::filter);
    if evs.len() == 0 {
    } else {
        let dl = evs.drop_last();
        assert(sorted_by_time(dl)) by {
            assert forall|i: int, j: int| 0 <= i < j < dl.len() implies dl[i].timestamp
                <= dl[j].timestamp by {
                assert(evs[i].timestamp <= evs[j].timestamp);
            }
        }
        lemma_filter_sorted(dl, pred);
        let fdl = dl.filter(pred);
        assert forall|i: int| 0 <= i < evs.filter(pred).len() implies evs.contains(
            #[trigger] evs.filter(pred)[i],
        ) by {
            if pred(evs.last()) && i == evs.filter(pred).len() - 1 {
                assert(evs[evs.len() - 1] == evs.filter(pred)[i]);
            } else {
                assert(dl.contains(fdl[i]));
                let w = choose|w: int| 0 <= w < dl.len() && dl[w] == fdl[i];
                assert(evs[w] == evs.filter(pred)[i]);
            }
        }
        if pred(evs.last()) {
            assert forall|i: int, j: int|
                0 <= i < j < evs.filter(pred).len() implies evs.filter(pred)[i].timestamp
                <= evs.filter(pred)[j].timestamp by {
                if j < evs.filter(pred).len() - 1 {
                    assert(fdl[i].timestamp <= fdl[j].timestamp);
                } else {
                    assert(dl.contains(fdl[i]));
                    let w = choose|w: int| 0 <= w < dl.len() && dl[w] == fdl[i];
                    assert(evs[w].timestamp <= evs.last().timestamp);
                }
            }
        }
    }
}

/// The law of range queries: on a sorted timeline, `events_in_range`
/// yields events in non-decreasing timestamp order, and holds an event
/// exactly when the timeline holds it with a timestamp in `[a, b)`.
pub proof fn lemma_range_query_law(evs: Seq<EventView>, a: i64, b: i64)
    requires
        sorted_by_time(evs),
    ensures
        ({
            let f = evs.filter(|e: EventView| a <= e.timestamp && e.timestamp < b);
            &&& sorted_by_time(f)
            &&& forall|e: EventView| #[trigger] f.contains(e) <==> (evs.contains(e) && a
                <= e.timestamp && e.timestamp < b)
        }),
{
    let pred = |e: EventView| a <= e.timestamp && e.timestamp < b;
    let f = evs.filter(pred);
    lemma_filter_sorted(evs, pred);
    evs.filter_lemma(pred);
    assert forall|e: EventView| #[trigger] f.contains(e) implies (evs.contains(e) && a
        <= e.timestamp && e.timestamp < b) by {
        let i = choose|i: int| 0 <= i < f.len() && f[i] == e;
        assert(evs.contains(f[i]));
        assert(pred(f[i]));
    }
    assert forall|e: EventView| (evs.contains(e) && a <= e.timestamp && e.timestamp
        < b) implies #[trigger] f.contains(e) by {
        let i = choose|i: int| 0 <= i < evs.len() && evs[i] == e;
        assert(pred(evs[i]));
        assert(f.contains(evs[i]));
    }
}

/// The law of as-of queries: moving the cutoff later never moves the
/// answer earlier. If `t1 <= t2`, the latest event at or before `t1` is
/// absent, or the one at or before `t2` exists and is no earlier.
pub proof fn lemma_latest_before_monotonic(evs: Seq<EventView>, t1: i64, t2: i64)
    requires
        sorted_by_time(evs),
        t1 <= t2,
    ensures
        spec_latest_before(evs, t1) matches Some(e1) ==> spec_latest_before(evs, t2) matches Some(
            e2,
        ) && e1.timestamp <= e2.timestamp,
{
    let p1 = |e: EventView| e.timestamp <= t1;
    let p2 = |e: EventView| e.timestamp <= t2;
    let f1 = evs.filter(p1);
    let f2 = evs.filter(p2);
    lemma_filter_sorted(evs, p1);
    lemma_filter_sorted(evs, p2);
    evs.filter_lemma(p1);
    evs.filter_lemma(p2);
    if f1.len() > 0 {
        let e1 = f1.last();
        assert(evs.contains(e1));
        assert(p1(e1));
        assert(p2(e1));
        assert(f2.contains(e1));
        assert(f2.len() > 0);
        let e2 = f2.last();
        let w = choose|w: int| 0 <= w < f2.len() && f2[w] == e1;
        assert(f2[w].timestamp <= f2.last().timestamp);
    }
}

} // verus!
