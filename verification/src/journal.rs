//! The in-memory event journal: per-entity timelines and a per-type
//! index, answering the temporal queries.

use vstd::prelude::*;

use crate::error::Error;
use crate::event::{Event, EventView};
use crate::temporal::Timestamp;
use crate::timeline::{
    insert_event, spec_latest_before, Timeline, has_event_at, sorted_by_time,
};

verus! {

/// The timeline in a list that belongs to the entity, if one does.
pub open spec fn find_timeline(ts: Seq<Timeline>, id: Seq<char>) -> Option<Timeline>
    decreases ts.len(),
{
    if ts.len() == 0 {
        None
    } else if ts[0].spec_entity_id() == id {
        Some(ts[0])
    } else {
        find_timeline(ts.drop_first(), id)
    }
}

/// The event list in a type index that belongs to the type, if one does.
pub open spec fn find_bucket(bs: Seq<(String, Vec<Event>)>, ty: Seq<char>) -> Option<
    Seq<EventView>,
>
    decreases bs.len(),
{
    if bs.len() == 0 {
        None
    } else if bs[0].0@ == ty {
        Some(bs[0].1.deep_view())
    } else {
        find_bucket(bs.drop_first(), ty)
    }
}

/// One entity's events after a run of mixed events is applied in order:
/// each lands in its own timeline.
pub open spec fn apply_entity(cur: Seq<EventView>, id: Seq<char>, new: Seq<EventView>) -> Seq<
    EventView,
>
    decreases new.len(),
{
    if new.len() == 0 {
        cur
    } else {
        let cur2 = if new[0].entity_id == id {
            insert_event(cur, new[0])
        } else {
            cur
        };
        apply_entity(cur2, id, new.drop_first())
    }
}

/// One type's event list after a run of mixed events is applied in
/// order.
pub open spec fn apply_type(cur: Seq<EventView>, ty: Seq<char>, new: Seq<EventView>) -> Seq<
    EventView,
>
    decreases new.len(),
{
    if new.len() == 0 {
        cur
    } else {
        let cur2 = if new[0].event_type == ty {
            cur.push(new[0])
        } else {
            cur
        };
        apply_type(cur2, ty, new.drop_first())
    }
}

/// Per-entity ordered timelines and a per-type index, updated together.
pub struct InMemoryJournal {
    timelines: Vec<Timeline>,
    events_by_type: Vec<(String, Vec<Event>)>,
}

impl Default for InMemoryJournal {
    /// The same empty journal `new` builds.
    fn default() -> (r: Self)
        ensures
            r.wf(),
            forall|id: Seq<char>| r.entity_events(id) == Seq::<EventView>::empty(),
            forall|ty: Seq<char>| r.type_events(ty) == Seq::<EventView>::empty(),
    {
        InMemoryJournal::new()
    }
}

impl InMemoryJournal {
    /// The events of one entity, in timestamp order; an unknown entity
    /// has none.
    pub closed spec fn entity_events(&self, id: Seq<char>) -> Seq<EventView> {
        match find_timeline(self.timelines@, id) {
            Some(t) => t@,
            None => Seq::empty(),
        }
    }

    /// The events of one type, in append order; an unknown type has
    /// none.
    pub closed spec fn type_events(&self, ty: Seq<char>) -> Seq<EventView> {
        match find_bucket(self.events_by_type@, ty) {
            Some(evs) => evs,
            None => Seq::empty(),
        }
    }

    /// The journal is in working order: every timeline is, each belongs
    /// to a distinct entity, and the type buckets have distinct types.
    pub closed spec fn wf(&self) -> bool {
        &&& forall|i: int| 0 <= i < self.timelines@.len() ==> (#[trigger] self.timelines@[i]).wf()
        &&& forall|i: int, j: int|
            0 <= i < j < self.timelines@.len() ==> self.timelines@[i].spec_entity_id()
                != self.timelines@[j].spec_entity_id()
        &&& forall|i: int, j: int|
            0 <= i < j < self.events_by_type@.len() ==> (#[trigger] self.events_by_type@[i].0)@
                != (#[trigger] self.events_by_type@[j].0)@
    }

    /// Every entity's timeline is sorted by time.
    pub proof fn lemma_entity_events_sorted(&self, id: Seq<char>)
        requires
            self.wf(),
        ensures
            sorted_by_time(self.entity_events(id)),
    {
        lemma_find_timeline_wf(self.timelines@, id);
    }

    /// An empty journal.
    pub fn new() -> (r: Self)
        ensures
            r.wf(),
            forall|id: Seq<char>| r.entity_events(id) == Seq::<EventView>::empty(),
            forall|ty: Seq<char>| r.type_events(ty) == Seq::<EventView>::empty(),
    {
        InMemoryJournal { timelines: Vec::new(), events_by_type: Vec::new() }
    }

    /// Append one event: it joins its entity's timeline, in timestamp
    /// order, and the end of its type's list. Nothing else moves.
    pub fn append(&mut self, event: Event) -> (r: Result<(), Error>)
        requires
            old(self).wf(),
        ensures
            final(self).wf(),
            r is Ok,
            final(self).entity_events(event@.entity_id) == insert_event(
                old(self).entity_events(event@.entity_id),
                event@,
            ),
            forall|id: Seq<char>| id != event@.entity_id ==> final(self).entity_events(id) == old(
                self,
            ).entity_events(id),
            final(self).type_events(event@.event_type) == old(self).type_events(
                event@.event_type,
            ).push(event@),
            forall|ty: Seq<char>| ty != event@.event_type ==> final(self).type_events(ty) == old(
                self,
            ).type_events(ty),
    {
        let type_clone = event.clone();
        self.append_to_timeline(event);
        self.append_to_type_index(type_clone);
        Ok(())
    }

    /// Put the event into its entity's timeline, creating one on demand.
    fn append_to_timeline(&mut self, event: Event)
        requires
            old(self).wf(),
        ensures
            final(self).wf(),
            final(self).entity_events(event@.entity_id) == insert_event(
                old(self).entity_events(event@.entity_id),
                event@,
            ),
            forall|id: Seq<char>| id != event@.entity_id ==> final(self).entity_events(id) == old(
                self,
            ).entity_events(id),
            final(self).events_by_type == old(self).events_by_type,
    {
        let mut i: usize = 0;
        while i < self.timelines.len()
            invariant
                i <= self.timelines@.len(),
                *self == *old(self),
                self.wf(),
                forall|k: int| 0 <= k < i ==> (#[trigger] self.timelines@[k]).spec_entity_id()
                    != event@.entity_id,
            decreases self.timelines@.len() - i,
        {
            let hit = {
                let t = &self.timelines[i];
                crate::journal::str_eq(t.entity_id(), event.entity_id())
            };
            if hit {
                let ghost pre = self.timelines@;
                let mut t = self.timelines.remove(i);
                proof {
                    assert(pre[i as int].wf());
                    lemma_find_timeline_at(pre, event@.entity_id, i as int);
                }
                t.append(event);
                let ghost t2 = t;
                self.timelines.insert(i, t);
                proof {
                    assert(self.timelines@ =~= pre.update(i as int, t2));
                    lemma_find_timeline_update(pre, i as int, t2, event@.entity_id);
                }
                return ;
            }
            i += 1;
        }
        let ghost pre = self.timelines@;
        let mut t = Timeline::new(crate::journal::str_copy(event.entity_id()));
        t.append(event);
        let ghost t2 = t;
        self.timelines.push(t);
        proof {
            assert(self.timelines@ =~= pre.push(t2));
            lemma_find_timeline_push(pre, t2);
            assert(find_timeline(pre, event@.entity_id) is None) by {
                lemma_find_timeline_none(pre, event@.entity_id);
            }
            assert(insert_event(Seq::<EventView>::empty(), event@) == t2@);
        }
    }

    /// Put the event at the end of its type's list, creating one on
    /// demand.
    fn append_to_type_index(&mut self, event: Event)
        requires
            old(self).wf(),
        ensures
            final(self).wf(),
            final(self).type_events(event@.event_type) == old(self).type_events(
                event@.event_type,
            ).push(event@),
            forall|ty: Seq<char>| ty != event@.event_type ==> final(self).type_events(ty) == old(
                self,
            ).type_events(ty),
            final(self).timelines == old(self).timelines,
    {
        let mut i: usize = 0;
        while i < self.events_by_type.len()
            invariant
                i <= self.events_by_type@.len(),
                *self == *old(self),
                self.wf(),
                forall|k: int| 0 <= k < i ==> (#[trigger] self.events_by_type@[k].0)@
                    != event@.event_type,
            decreases self.events_by_type@.len() - i,
        {
            let hit = {
                let b = &self.events_by_type[i];
                crate::journal::str_eq(b.0.as_str(), event.event_type())
            };
            if hit {
                let ghost pre = self.events_by_type@;
                let mut b = self.events_by_type.remove(i);
                proof {
                    lemma_find_bucket_at(pre, event@.event_type, i as int);
                }
                let ghost pre_list = b.1.deep_view();
                b.1.push(event);
                proof {
                    assert(b.1.deep_view() =~= pre_list.push(event@));
                }
                let ghost b2 = b;
                self.events_by_type.insert(i, b);
                proof {
                    assert(self.events_by_type@ =~= pre.update(i as int, b2));
                    lemma_find_bucket_update(pre, i as int, b2, event@.event_type);
                }
                return ;
            }
            i += 1;
        }
        let ghost pre = self.events_by_type@;
        let mut list: Vec<Event> = Vec::new();
        list.push(event);
        let name = crate::journal::str_copy(
            {
                let e = &list[0];
                e.event_type()
            },
        );
        let b = (name, list);
        let ghost b2 = b;
        self.events_by_type.push(b);
        proof {
            assert(self.events_by_type@ =~= pre.push(b2));
            lemma_find_bucket_push(pre, b2);
            lemma_find_bucket_none(pre, event@.event_type);
            assert(b2.1.deep_view() =~= Seq::<EventView>::empty().push(event@));
        }
    }

    /// Append a run of events in order.
    pub fn append_batch(&mut self, events: Vec<Event>) -> (r: Result<(), Error>)
        requires
            old(self).wf(),
        ensures
            final(self).wf(),
            r is Ok,
            forall|id: Seq<char>| final(self).entity_events(id) == apply_entity(
                old(self).entity_events(id),
                id,
                events.deep_view(),
            ),
            forall|ty: Seq<char>| final(self).type_events(ty) == apply_type(
                old(self).type_events(ty),
                ty,
                events.deep_view(),
            ),
    {
        let ghost dv = events.deep_view();
        let mut j: usize = 0;
        proof {
            assert(dv.subrange(0, dv.len() as int) =~= dv);
        }
        while j < events.len()
            invariant
                j <= events@.len(),
                self.wf(),
                dv == events.deep_view(),
                forall|id: Seq<char>| apply_entity(old(self).entity_events(id), id, dv)
                    == apply_entity(
                    #[trigger] self.entity_events(id),
                    id,
                    dv.subrange(j as int, dv.len() as int),
                ),
                forall|ty: Seq<char>| apply_type(old(self).type_events(ty), ty, dv) == apply_type(
                    #[trigger] self.type_events(ty),
                    ty,
                    dv.subrange(j as int, dv.len() as int),
                ),
            decreases events@.len() - j,
        {
            let ghost rest = dv.subrange(j as int, dv.len() as int);
            proof {
                assert(rest[0] == dv[j as int]);
                assert(rest.drop_first() =~= dv.subrange(j + 1 as int, dv.len() as int));
            }
            let ghost before = *self;
            let e = events[j].clone();
            let res = self.append(e);
            proof {
                assert(res is Ok);
                assert forall|id: Seq<char>| apply_entity(old(self).entity_events(id), id, dv)
                    == apply_entity(
                    #[trigger] self.entity_events(id),
                    id,
                    dv.subrange(j + 1 as int, dv.len() as int),
                ) by {
                    assert(apply_entity(before.entity_events(id), id, rest) == apply_entity(
                        if dv[j as int].entity_id == id {
                            insert_event(before.entity_events(id), dv[j as int])
                        } else {
                            before.entity_events(id)
                        },
                        id,
                        rest.drop_first(),
                    ));
                }
                assert forall|ty: Seq<char>| apply_type(old(self).type_events(ty), ty, dv)
                    == apply_type(
                    #[trigger] self.type_events(ty),
                    ty,
                    dv.subrange(j + 1 as int, dv.len() as int),
                ) by {
                    assert(apply_type(before.type_events(ty), ty, rest) == apply_type(
                        if dv[j as int].event_type == ty {
                            before.type_events(ty).push(dv[j as int])
                        } else {
                            before.type_events(ty)
                        },
                        ty,
                        rest.drop_first(),
                    ));
                }
            }
            j += 1;
        }
        proof {
            let empty = dv.subrange(dv.len() as int, dv.len() as int);
            assert(empty =~= Seq::<EventView>::empty());
            assert forall|id: Seq<char>| final(self).entity_events(id) == apply_entity(
                old(self).entity_events(id),
                id,
                dv,
            ) by {
                assert(apply_entity(self.entity_events(id), id, empty) == self.entity_events(id));
            }
            assert forall|ty: Seq<char>| final(self).type_events(ty) == apply_type(
                old(self).type_events(ty),
                ty,
                dv,
            ) by {
                assert(apply_type(self.type_events(ty), ty, empty) == self.type_events(ty));
            }
        }
        Ok(())
    }

    /// The entity's events with timestamps in the half-open range
    /// `[start, end)`, in timestamp order.
    pub fn get_events(&self, entity_id: &str, start: Timestamp, end: Timestamp) -> (r: Result<
        Vec<Event>,
        Error,
    >)
        requires
            self.wf(),
        ensures
            r matches Ok(evs) && evs.deep_view() == self.entity_events(entity_id@).filter(
                |e: EventView| start.nanos <= e.timestamp && e.timestamp < end.nanos,
            ),
    {
        let tl = self.find(entity_id);
        match tl {
            Some(t) => {
                let refs = t.events_in_range(start, end);
                Ok(clone_events(refs))
            },
            None => {
                let out: Vec<Event> = Vec::new();
                proof {
                    reveal(Seq::filter);
                    assert(Seq::<EventView>::empty().filter(
                        |e: EventView| start.nanos <= e.timestamp && e.timestamp < end.nanos,
                    ) =~= Seq::<EventView>::empty());
                    assert(out.deep_view() =~= Seq::<EventView>::empty());
                }
                Ok(out)
            },
        }
    }

    /// Every event of the entity, in timestamp order.
    pub fn get_entity_events(&self, entity_id: &str) -> (r: Result<Vec<Event>, Error>)
        requires
            self.wf(),
        ensures
            r matches Ok(evs) && evs.deep_view() == self.entity_events(entity_id@),
    {
        match self.find(entity_id) {
            Some(t) => {
                let evs = t.events();
                Ok(clone_event_vec(evs))
            },
            None => {
                let out: Vec<Event> = Vec::new();
                proof {
                    assert(out.deep_view() =~= Seq::<EventView>::empty());
                }
                Ok(out)
            },
        }
    }

    /// The events of one type with timestamps in `[start, end)`, in
    /// append order.
    pub fn get_events_by_type(&self, event_type: &str, start: Timestamp, end: Timestamp) -> (r:
        Result<Vec<Event>, Error>)
        requires
            self.wf(),
        ensures
            r matches Ok(evs) && evs.deep_view() == self.type_events(event_type@).filter(
                |e: EventView| start.nanos <= e.timestamp && e.timestamp < end.nanos,
            ),
    {
        let mut i: usize = 0;
        while i < self.events_by_type.len()
            invariant
                i <= self.events_by_type@.len(),
                forall|k: int| 0 <= k < i ==> (#[trigger] self.events_by_type@[k].0)@
                    != event_type@,
            decreases self.events_by_type@.len() - i,
        {
            let hit = {
                let b = &self.events_by_type[i];
                crate::journal::str_eq(b.0.as_str(), event_type)
            };
            if hit {
                proof {
                    lemma_find_bucket_at(self.events_by_type@, event_type@, i as int);
                }
                let b = &self.events_by_type[i];
                return Ok(filter_events_by_range(&b.1, start, end));
            }
            i += 1;
        }
        let out: Vec<Event> = Vec::new();
        proof {
            lemma_find_bucket_none(self.events_by_type@, event_type@);
            reveal(Seq::filter);
            assert(Seq::<EventView>::empty().filter(
                |e: EventView| start.nanos <= e.timestamp && e.timestamp < end.nanos,
            ) =~= Seq::<EventView>::empty());
            assert(out.deep_view() =~= Seq::<EventView>::empty());
        }
        Ok(out)
    }

    /// The latest event of the entity at or before the timestamp.
    pub fn get_latest_event(&self, entity_id: &str, timestamp: Timestamp) -> (r: Result<
        Option<Event>,
        Error,
    >)
        requires
            self.wf(),
        ensures
            r matches Ok(o) && (match o {
                Some(e) => spec_latest_before(self.entity_events(entity_id@), timestamp.nanos)
                    == Some(e@),
                None => spec_latest_before(self.entity_events(entity_id@), timestamp.nanos)
                    is None,
            }),
    {
        match self.find(entity_id) {
            Some(t) => {
                match t.latest_before(timestamp) {
                    Some(e) => Ok(Some(e.clone())),
                    None => Ok(None),
                }
            },
            None => {
                proof {
                    reveal(Seq::filter);
                    assert(Seq::<EventView>::empty().filter(
                        |e: EventView| e.timestamp <= timestamp.nanos,
                    ) =~= Seq::<EventView>::empty());
                }
                Ok(None)
            },
        }
    }

    /// Nothing waits in memory: flushing is a no-op.
    pub fn flush(&mut self) -> (r: Result<(), Error>)
        requires
            old(self).wf(),
        ensures
            final(self).wf(),
            *final(self) == *old(self),
            r is Ok,
    {
        Ok(())
    }

    /// Whether the entity already holds an event with this identity at
    /// this timestamp.
    pub fn has_event(&self, entity_id: &str, ts: Timestamp, id: &crate::event::EventId) -> (r:
        bool)
        requires
            self.wf(),
        ensures
            r == has_event_at(self.entity_events(entity_id@), ts.nanos, id.id),
    {
        match self.find(entity_id) {
            Some(t) => t.contains_event_at(ts, id),
            None => {
                proof {
                    assert(!has_event_at(Seq::<EventView>::empty(), ts.nanos, id.id));
                }
                false
            },
        }
    }

    /// The timeline of the entity, if one exists.
    fn find(&self, entity_id: &str) -> (r: Option<&Timeline>)
        requires
            self.wf(),
        ensures
            r matches Some(t) ==> find_timeline(self.timelines@, entity_id@) == Some(*t) && t.wf()
                && t@ == self.entity_events(entity_id@),
            r is None ==> find_timeline(self.timelines@, entity_id@) is None
                && self.entity_events(entity_id@) == Seq::<EventView>::empty(),
    {
        let mut i: usize = 0;
        while i < self.timelines.len()
            invariant
                i <= self.timelines@.len(),
                self.wf(),
                forall|k: int| 0 <= k < i ==> (#[trigger] self.timelines@[k]).spec_entity_id()
                    != entity_id@,
            decreases self.timelines@.len() - i,
        {
            let hit = {
                let t = &self.timelines[i];
                crate::journal::str_eq(t.entity_id(), entity_id)
            };
            if hit {
                proof {
                    lemma_find_timeline_at(self.timelines@, entity_id@, i as int);
                }
                return Some(&self.timelines[i]);
            }
            i += 1;
        }
        proof {
            lemma_find_timeline_none(self.timelines@, entity_id@);
        }
        None
    }
}

/// Compare two borrowed strings by characters.
pub fn str_eq(a: &str, b: &str) -> (r: bool)
    ensures
        r == (a@ == b@),
{
    a.to_owned().eq(&b.to_owned())
}

/// Copy a borrowed string into an owned one.
pub fn str_copy(a: &str) -> (r: String)
    ensures
        r@ == a@,
{
    a.to_owned()
}

/// Clone a vector of borrowed events into owned ones.
fn clone_events(refs: Vec<&Event>) -> (r: Vec<Event>)
    ensures
        r.deep_view() == refs.deep_view(),
{
    let mut out: Vec<Event> = Vec::new();
    let mut i: usize = 0;
    while i < refs.len()
        invariant
            i <= refs@.len(),
            out@.len() == i,
            forall|k: int| 0 <= k < i ==> out@[k]@ == refs@[k]@,
        decreases refs@.len() - i,
    {
        out.push(refs[i].clone());
        i += 1;
    }
    proof {
        assert(out.deep_view() =~= refs.deep_view());
    }
    out
}

/// Clone a borrowed vector of events.
fn clone_event_vec(evs: &Vec<Event>) -> (r: Vec<Event>)
    ensures
        r.deep_view() == evs.deep_view(),
{
    let mut out: Vec<Event> = Vec::new();
    let mut i: usize = 0;
    while i < evs.len()
        invariant
            i <= evs@.len(),
            out@.len() == i,
            forall|k: int| 0 <= k < i ==> out@[k]@ == evs@[k]@,
        decreases evs@.len() - i,
    {
        out.push(evs[i].clone());
        i += 1;
    }
    proof {
        assert(out.deep_view() =~= evs.deep_view());
    }
    out
}

// ---------------------------------------------------------------------------
// How lookups behave under updates and pushes.
// ---------------------------------------------------------------------------

proof fn lemma_find_timeline_wf(ts: Seq<Timeline>, id: Seq<char>)
    requires
        forall|i: int| 0 <= i < ts.len() ==> (#[trigger] ts[i]).wf(),
    ensures
        match find_timeline(ts, id) {
            Some(t) => t.wf() && sorted_by_time(t@),
            None => true,
        },
    decreases ts.len(),
{
    if ts.len() > 0 && ts[0].spec_entity_id() == id {
        ts[0].lemma_wf_sorted();
    }
    if ts.len() > 0 && ts[0].spec_entity_id() != id {
        assert(forall|i: int| 0 <= i < ts.drop_first().len() ==> (#[trigger] ts.drop_first()[
        i]).wf()) by {
            assert(forall|i: int| 0 <= i < ts.drop_first().len() ==> ts.drop_first()[i] == ts[i
                + 1]);
        }
        lemma_find_timeline_wf(ts.drop_first(), id);
    }
}

proof fn lemma_find_timeline_at(ts: Seq<Timeline>, id: Seq<char>, i: int)
    requires
        0 <= i < ts.len(),
        forall|k: int| 0 <= k < i ==> (#[trigger] ts[k]).spec_entity_id() != id,
        ts[i].spec_entity_id() == id,
    ensures
        find_timeline(ts, id) == Some(ts[i]),
    decreases ts.len(),
{
    if i > 0 {
        assert(forall|k: int| 0 <= k < ts.drop_first().len() ==> ts.drop_first()[k] == ts[k + 1]);
        lemma_find_timeline_at(ts.drop_first(), id, i - 1);
    }
}

proof fn lemma_find_bucket_at(bs: Seq<(String, Vec<Event>)>, ty: Seq<char>, i: int)
    requires
        0 <= i < bs.len(),
        forall|k: int| 0 <= k < i ==> (#[trigger] bs[k].0)@ != ty,
        (bs[i].0)@ == ty,
    ensures
        find_bucket(bs, ty) == Some(bs[i].1.deep_view()),
    decreases bs.len(),
{
    if i > 0 {
        assert(forall|k: int| 0 <= k < bs.drop_first().len() ==> bs.drop_first()[k] == bs[k + 1]);
        lemma_find_bucket_at(bs.drop_first(), ty, i - 1);
    }
}

/// The events of a list whose timestamps fall in `[start, end)`.
fn filter_events_by_range(list: &Vec<Event>, start: Timestamp, end: Timestamp) -> (r: Vec<Event>)
    ensures
        r.deep_view() == list.deep_view().filter(
            |e: EventView| start.nanos <= e.timestamp && e.timestamp < end.nanos,
        ),
{
    let ghost pred = |e: EventView| start.nanos <= e.timestamp && e.timestamp < end.nanos;
    let mut out: Vec<Event> = Vec::new();
    let mut i: usize = 0;
    proof {
        reveal(Seq::filter);
        assert(out.deep_view() =~= list.deep_view().subrange(0, 0).filter(pred));
    }
    while i < list.len()
        invariant
            i <= list@.len(),
            pred == (|e: EventView| start.nanos <= e.timestamp && e.timestamp < end.nanos),
            out.deep_view() == list.deep_view().subrange(0, i as int).filter(pred),
        decreases list@.len() - i,
    {
        let ghost done = list.deep_view().subrange(0, i as int);
        let ghost pre = out.deep_view();
        let e = &list[i];
        proof {
            reveal(Seq::filter);
            assert(list.deep_view().subrange(0, i + 1 as int).drop_last() =~= done);
            assert(list.deep_view().subrange(0, i + 1 as int).last() == e@);
        }
        if start.nanos <= e.metadata.timestamp.nanos && e.metadata.timestamp.nanos < end.nanos {
            out.push(e.clone());
            proof {
                assert(out.deep_view() =~= pre.push(e@));
            }
        }
        i += 1;
    }
    proof {
        assert(list.deep_view().subrange(0, list.deep_view().len() as int) =~= list.deep_view());
    }
    out
}

proof fn lemma_find_timeline_none(ts: Seq<Timeline>, id: Seq<char>)
    requires
        forall|k: int| 0 <= k < ts.len() ==> (#[trigger] ts[k]).spec_entity_id() != id,
    ensures
        find_timeline(ts, id) is None,
    decreases ts.len(),
{
    if ts.len() > 0 {
        lemma_find_timeline_none(ts.drop_first(), id);
    }
}

proof fn lemma_find_timeline_update(ts: Seq<Timeline>, i: int, t2: Timeline, id: Seq<char>)
    requires
        0 <= i < ts.len(),
        forall|k: int, m: int| 0 <= k < m < ts.len() ==> ts[k].spec_entity_id()
            != ts[m].spec_entity_id(),
        forall|k: int| 0 <= k < i ==> (#[trigger] ts[k]).spec_entity_id() != id,
        ts[i].spec_entity_id() == id,
        t2.spec_entity_id() == id,
    ensures
        find_timeline(ts.update(i, t2), id) == Some(t2),
        forall|other: Seq<char>| other != id ==> find_timeline(ts.update(i, t2), other)
            == find_timeline(ts, other),
    decreases ts.len(),
{
    let u = ts.update(i, t2);
    if i == 0 {
        assert(u[0] == t2);
        assert(find_timeline(u, id) == Some(t2));
        assert forall|other: Seq<char>| other != id implies find_timeline(u, other)
            == find_timeline(ts, other) by {
            assert(u.drop_first() =~= ts.drop_first());
            assert(find_timeline(u.drop_first(), other) == find_timeline(ts.drop_first(), other));
        }
    } else {
        assert(u[0] == ts[0]);
        assert(u.drop_first() =~= ts.drop_first().update(i - 1, t2));
        assert(forall|k: int, m: int|
            0 <= k < m < ts.drop_first().len() ==> ts.drop_first()[k].spec_entity_id()
                != ts.drop_first()[m].spec_entity_id()) by {
            assert(forall|k: int| 0 <= k < ts.drop_first().len() ==> ts.drop_first()[k] == ts[k
                + 1]);
        }
        assert(forall|k: int| 0 <= k < i - 1 ==> (#[trigger] ts.drop_first()[k]).spec_entity_id()
            != id) by {
            assert(forall|k: int| 0 <= k < ts.drop_first().len() ==> ts.drop_first()[k] == ts[k
                + 1]);
        }
        assert(ts.drop_first()[i - 1].spec_entity_id() == id);
        lemma_find_timeline_update(ts.drop_first(), i - 1, t2, id);
        assert(find_timeline(u, id) == Some(t2)) by {
            assert(find_timeline(u.drop_first(), id) == find_timeline(
                ts.drop_first().update(i - 1, t2),
                id,
            ));
        }
        assert forall|other: Seq<char>| other != id implies find_timeline(u, other)
            == find_timeline(ts, other) by {
            assert(find_timeline(u.drop_first(), other) == find_timeline(
                ts.drop_first().update(i - 1, t2),
                other,
            ));
            assert(find_timeline(ts.drop_first().update(i - 1, t2), other) == find_timeline(
                ts.drop_first(),
                other,
            ));
        }
    }
}

proof fn lemma_find_timeline_push(ts: Seq<Timeline>, t2: Timeline)
    requires
        forall|k: int| 0 <= k < ts.len() ==> (#[trigger] ts[k]).spec_entity_id()
            != t2.spec_entity_id(),
    ensures
        find_timeline(ts.push(t2), t2.spec_entity_id()) == Some(t2),
        forall|other: Seq<char>| other != t2.spec_entity_id() ==> find_timeline(ts.push(t2), other)
            == find_timeline(ts, other),
    decreases ts.len(),
{
    let u = ts.push(t2);
    if ts.len() == 0 {
        assert(u[0] == t2);
        assert forall|other: Seq<char>| other != t2.spec_entity_id() implies find_timeline(
            u,
            other,
        ) == find_timeline(ts, other) by {
            assert(u.drop_first() =~= Seq::<Timeline>::empty());
            assert(find_timeline(u.drop_first(), other) is None);
            assert(find_timeline(ts, other) is None);
        }
    } else {
        assert(u[0] == ts[0]);
        assert(u.drop_first() =~= ts.drop_first().push(t2));
        assert(forall|k: int| 0 <= k < ts.drop_first().len() ==> ts.drop_first()[k] == ts[k + 1]);
        lemma_find_timeline_push(ts.drop_first(), t2);
        assert(find_timeline(u, t2.spec_entity_id()) == Some(t2)) by {
            assert(find_timeline(u.drop_first(), t2.spec_entity_id()) == find_timeline(
                ts.drop_first().push(t2),
                t2.spec_entity_id(),
            ));
        }
        assert forall|other: Seq<char>| other != t2.spec_entity_id() implies find_timeline(
            u,
            other,
        ) == find_timeline(ts, other) by {
            assert(find_timeline(u.drop_first(), other) == find_timeline(
                ts.drop_first().push(t2),
                other,
            ));
            assert(find_timeline(ts.drop_first().push(t2), other) == find_timeline(
                ts.drop_first(),
                other,
            ));
        }
    }
}

proof fn lemma_find_bucket_none(bs: Seq<(String, Vec<Event>)>, ty: Seq<char>)
    requires
        forall|k: int| 0 <= k < bs.len() ==> (#[trigger] bs[k].0)@ != ty,
    ensures
        find_bucket(bs, ty) is None,
    decreases bs.len(),
{
    if bs.len() > 0 {
        lemma_find_bucket_none(bs.drop_first(), ty);
    }
}

proof fn lemma_find_bucket_update(bs: Seq<(String, Vec<Event>)>, i: int, b2: (String, Vec<Event>),
    ty: Seq<char>)
    requires
        0 <= i < bs.len(),
        forall|k: int, m: int| 0 <= k < m < bs.len() ==> (#[trigger] bs[k].0)@ != (#[trigger] bs[
            m].0)@,
        forall|k: int| 0 <= k < i ==> (#[trigger] bs[k].0)@ != ty,
        (bs[i].0)@ == ty,
        (b2.0)@ == ty,
    ensures
        find_bucket(bs.update(i, b2), ty) == Some(b2.1.deep_view()),
        forall|other: Seq<char>| other != ty ==> find_bucket(bs.update(i, b2), other)
            == find_bucket(bs, other),
    decreases bs.len(),
{
    let u = bs.update(i, b2);
    if i == 0 {
        assert(u[0] == b2);
        assert forall|other: Seq<char>| other != ty implies find_bucket(u, other) == find_bucket(
            bs,
            other,
        ) by {
            assert(u.drop_first() =~= bs.drop_first());
            assert(find_bucket(u.drop_first(), other) == find_bucket(bs.drop_first(), other));
        }
    } else {
        assert(u[0] == bs[0]);
        assert(u.drop_first() =~= bs.drop_first().update(i - 1, b2));
        assert(forall|k: int| 0 <= k < bs.drop_first().len() ==> bs.drop_first()[k] == bs[k + 1]);
        lemma_find_bucket_update(bs.drop_first(), i - 1, b2, ty);
        assert(find_bucket(u, ty) == Some(b2.1.deep_view())) by {
            assert(find_bucket(u.drop_first(), ty) == find_bucket(
                bs.drop_first().update(i - 1, b2),
                ty,
            ));
        }
        assert forall|other: Seq<char>| other != ty implies find_bucket(u, other) == find_bucket(
            bs,
            other,
        ) by {
            assert(find_bucket(u.drop_first(), other) == find_bucket(
                bs.drop_first().update(i - 1, b2),
                other,
            ));
            assert(find_bucket(bs.drop_first().update(i - 1, b2), other) == find_bucket(
                bs.drop_first(),
                other,
            ));
        }
    }
}

proof fn lemma_find_bucket_push(bs: Seq<(String, Vec<Event>)>, b2: (String, Vec<Event>))
    requires
        forall|k: int| 0 <= k < bs.len() ==> (#[trigger] bs[k].0)@ != (b2.0)@,
    ensures
        find_bucket(bs.push(b2), (b2.0)@) == Some(b2.1.deep_view()),
        forall|other: Seq<char>| other != (b2.0)@ ==> find_bucket(bs.push(b2), other)
            == find_bucket(bs, other),
    decreases bs.len(),
{
    let u = bs.push(b2);
    if bs.len() == 0 {
        assert(u[0] == b2);
        assert forall|other: Seq<char>| other != (b2.0)@ implies find_bucket(u, other)
            == find_bucket(bs, other) by {
            assert(u.drop_first() =~= Seq::<(String, Vec<Event>)>::empty());
            assert(find_bucket(u.drop_first(), other) is None);
            assert(find_bucket(bs, other) is None);
        }
    } else {
        assert(u[0] == bs[0]);
        assert(u.drop_first() =~= bs.drop_first().push(b2));
        assert(forall|k: int| 0 <= k < bs.drop_first().len() ==> bs.drop_first()[k] == bs[k + 1]);
        lemma_find_bucket_push(bs.drop_first(), b2);
        assert(find_bucket(u, (b2.0)@) == Some(b2.1.deep_view())) by {
            assert(find_bucket(u.drop_first(), (b2.0)@) == find_bucket(
                bs.drop_first().push(b2),
                (b2.0)@,
            ));
        }
        assert forall|other: Seq<char>| other != (b2.0)@ implies find_bucket(u, other)
            == find_bucket(bs, other) by {
            assert(find_bucket(u.drop_first(), other) == find_bucket(
                bs.drop_first().push(b2),
                other,
            ));
            assert(find_bucket(bs.drop_first().push(b2), other) == find_bucket(
                bs.drop_first(),
                other,
            ));
        }
    }
}

} // verus!
