//! The database surface: insert a payload for an entity at a time, ask
//! for the value as of a time, in a range, or right now.

use vstd::prelude::*;

use crate::error::Error;
use crate::event::{Event, EventPayload, EventView};
use crate::journal::{str_copy, InMemoryJournal};
use crate::materialized_view::InMemoryMaterializedView;
use crate::temporal::Timestamp;
use crate::timeline::{insert_event, spec_latest_before};

verus! {

/// A temporal database over in-memory storage: an event journal for
/// history and a materialized view for the current value.
pub struct TemporalDB {
    journal: InMemoryJournal,
    current_state: InMemoryMaterializedView,
}

impl TemporalDB {
    /// The events recorded for one entity, in timestamp order.
    pub closed spec fn entity_events(&self, id: Seq<char>) -> Seq<EventView> {
        self.journal.entity_events(id)
    }

    /// The payload most recently inserted for one entity.
    pub closed spec fn current(&self, id: Seq<char>) -> Option<Seq<u8>> {
        self.current_state.current(id)
    }

    /// The database is in working order when both parts are.
    pub closed spec fn wf(&self) -> bool {
        self.journal.wf() && self.current_state.wf()
    }

    /// A fresh database held entirely in memory.
    pub fn in_memory() -> (r: Result<Self, Error>)
        ensures
            r matches Ok(db) ==> {
                &&& db.wf()
                &&& forall|id: Seq<char>| db.entity_events(id) == Seq::<EventView>::empty()
                &&& forall|id: Seq<char>| db.current(id) is None
            },
            r is Ok,
    {
        Ok(
            TemporalDB {
                journal: InMemoryJournal::new(),
                current_state: InMemoryMaterializedView::new(),
            },
        )
    }

    /// Record a serialized value for an entity at a timestamp: one fresh
    /// event joins the entity's history, and the value becomes current.
    pub fn insert(&mut self, entity_id: &str, value: Vec<u8>, timestamp: Timestamp) -> (r: Result<
        (),
        Error,
    >)
        requires
            old(self).wf(),
        ensures
            final(self).wf(),
            r is Ok,
            exists|e: EventView|
                {
                    &&& e.entity_id == entity_id@
                    &&& e.timestamp == timestamp.nanos
                    &&& e.payload_data == value@
                    &&& final(self).entity_events(entity_id@) == insert_event(
                        old(self).entity_events(entity_id@),
                        e,
                    )
                },
            forall|id: Seq<char>| id != entity_id@ ==> final(self).entity_events(id) == old(self).entity_events(id),
            final(self).current(entity_id@) == Some(value@),
            forall|id: Seq<char>| id != entity_id@ ==> final(self).current(id) == old(self).current(
                id,
            ),
    {
        let payload = EventPayload::new(value, "json".to_owned());
        let event = Event::new(
            "value.changed".to_owned(),
            timestamp,
            str_copy(entity_id),
            payload,
        );
        let view_clone = event.clone();
        let ghost ev = event@;
        match self.journal.append(event) {
            Ok(()) => {},
            Err(e) => {
                proof {
                    assert(false);
                }
                return Err(e);
            },
        }
        match self.current_state.apply_event(&view_clone) {
            Ok(()) => {},
            Err(e) => {
                proof {
                    assert(false);
                }
                return Err(e);
            },
        }
        proof {
            assert(ev.entity_id == entity_id@);
            assert(ev.timestamp == timestamp.nanos);
            assert(self.entity_events(entity_id@) == insert_event(
                old(self).entity_events(entity_id@),
                ev,
            ));
        }
        Ok(())
    }

    /// The payload of the latest event for the entity at or before the
    /// timestamp, if the entity had one by then.
    pub fn query_as_of(&self, entity_id: &str, timestamp: Timestamp) -> (r: Result<
        Option<Vec<u8>>,
        Error,
    >)
        requires
            self.wf(),
        ensures
            r matches Ok(o) && (match spec_latest_before(
                self.entity_events(entity_id@),
                timestamp.nanos,
            ) {
                Some(e) => o matches Some(v) && v@ == e.payload_data,
                None => o is None,
            }),
    {
        let latest = match self.journal.get_latest_event(entity_id, timestamp) {
            Ok(o) => o,
            Err(e) => {
                proof {
                    assert(false);
                }
                return Err(e);
            },
        };
        match latest {
            Some(ev) => Ok(Some(ev.payload.data)),
            None => Ok(None),
        }
    }

    /// The payloads of the entity's events with timestamps in
    /// `[start, end)`, in timestamp order.
    pub fn query_range(&self, entity_id: &str, start: Timestamp, end: Timestamp) -> (r: Result<
        Vec<Vec<u8>>,
        Error,
    >)
        requires
            self.wf(),
        ensures
            r matches Ok(vs) && vs.deep_view() == self.entity_events(entity_id@).filter(
                |e: EventView| start.nanos <= e.timestamp && e.timestamp < end.nanos,
            ).map_values(|e: EventView| e.payload_data),
    {
        let events = match self.journal.get_events(entity_id, start, end) {
            Ok(evs) => evs,
            Err(e) => {
                proof {
                    assert(false);
                }
                return Err(e);
            },
        };
        let mut values: Vec<Vec<u8>> = Vec::new();
        let mut i: usize = 0;
        while i < events.len()
            invariant
                i <= events@.len(),
                values@.len() == i,
                forall|k: int| 0 <= k < i ==> values@[k]@ == (#[trigger] events@[k])@.payload_data,
            decreases events@.len() - i,
        {
            let e = &events[i];
            values.push(vstd::slice::slice_to_vec(e.payload.data.as_slice()));
            i += 1;
        }
        proof {
            assert(values.deep_view() =~~= events.deep_view().map_values(
                |e: EventView| e.payload_data,
            ));
        }
        Ok(values)
    }

    /// The payload most recently inserted for the entity, if any.
    pub fn get_current(&self, entity_id: &str) -> (r: Result<Option<Vec<u8>>, Error>)
        requires
            self.wf(),
        ensures
            r matches Ok(o) && (match o {
                Some(v) => self.current(entity_id@) == Some(v@),
                None => self.current(entity_id@) is None,
            }),
    {
        self.current_state.get_current_raw(entity_id)
    }

    /// Every event recorded for the entity, in timestamp order.
    pub fn get_entity_events(&self, entity_id: &str) -> (r: Result<Vec<Event>, Error>)
        requires
            self.wf(),
        ensures
            r matches Ok(evs) && evs.deep_view() == self.entity_events(entity_id@),
    {
        self.journal.get_entity_events(entity_id)
    }

    /// Nothing waits in memory: flushing is a no-op.
    pub fn flush(&mut self) -> (r: Result<(), Error>)
        requires
            old(self).wf(),
        ensures
            final(self).wf(),
            *final(self) == *old(self),
            r is Ok,
    {
        self.journal.flush()
    }
}

} // verus!
