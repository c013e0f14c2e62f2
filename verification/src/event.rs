//! Events: immutable records of change, with identity, time and payload.

use vstd::prelude::*;

use crate::temporal::Timestamp;

verus! {

/// Event type identifier.
pub type EventType = String;

/// The mathematical content of an event: every field as a plain value.
pub struct EventView {
    /// 128-bit unique identifier.
    pub id: u128,
    /// Event type.
    pub event_type: Seq<char>,
    /// Valid time, nanoseconds since the Unix epoch.
    pub timestamp: i64,
    /// Transaction time, nanoseconds since the Unix epoch.
    pub transaction_time: i64,
    /// Entity the event belongs to.
    pub entity_id: Seq<char>,
    /// Optional correlation identifier.
    pub correlation_id: Option<Seq<char>>,
    /// Optional identifier of the causing event.
    pub causation_id: Option<u128>,
    /// Optional actor.
    pub actor: Option<Seq<char>>,
    /// Tags for filtering and indexing.
    pub tags: Seq<Seq<char>>,
    /// Opaque payload bytes.
    pub payload_data: Seq<u8>,
    /// Payload format tag.
    pub payload_format: Seq<char>,
}

/// Unique event identifier: a 128-bit value drawn as a random UUID.
#[derive(Debug, Clone, Copy, PartialEq, Eq, Structural, Hash)]
pub struct EventId {
    /// The 128 bits of the UUID.
    pub id: u128,
}

/// Relies on uuid's `Uuid::new_v4` for a fresh random identifier. The
/// result is random, so nothing is promised of it.
#[verifier::external_body]
fn fresh_uuid_bits() -> u128 {
    uuid::Uuid::new_v4().as_u128()
}

impl EventId {
    /// Draw a fresh random identifier.
    pub fn new() -> Self {
        EventId { id: fresh_uuid_bits() }
    }

    /// Wrap the 128 bits of an existing UUID.
    pub fn from_uuid(uuid: u128) -> (r: Self)
        ensures
            r.id == uuid,
    {
        EventId { id: uuid }
    }
}

impl Default for EventId {
    /// A fresh random identifier, like `new`.
    fn default() -> Self {
        EventId::new()
    }
}

/// Everything about an event except its payload.
#[derive(Debug)]
pub struct EventMetadata {
    /// Unique identifier of the event.
    pub id: EventId,
    /// Event type.
    pub event_type: EventType,
    /// Valid time: when the event occurred in the modeled domain.
    pub timestamp: Timestamp,
    /// Transaction time: when the event was recorded.
    pub transaction_time: Timestamp,
    /// Entity the event belongs to.
    pub entity_id: String,
    /// Optional correlation identifier for tracing.
    pub correlation_id: Option<String>,
    /// Optional identifier of the event that caused this one.
    pub causation_id: Option<EventId>,
    /// Optional user or actor behind the event.
    pub actor: Option<String>,
    /// Tags for filtering and indexing.
    pub tags: Vec<String>,
}

impl EventMetadata {
    /// Fresh metadata: a new random identifier, the given type, valid time
    /// and entity, transaction time taken from the clock, everything else
    /// empty.
    pub fn new(event_type: EventType, timestamp: Timestamp, entity_id: String) -> (r: Self)
        ensures
            r.event_type@ == event_type@,
            r.timestamp == timestamp,
            r.entity_id@ == entity_id@,
            r.correlation_id is None,
            r.causation_id is None,
            r.actor is None,
            r.tags@.len() == 0,
    {
        EventMetadata {
            id: EventId::new(),
            event_type,
            timestamp,
            transaction_time: Timestamp::now(),
            entity_id,
            correlation_id: None,
            causation_id: None,
            actor: None,
            tags: Vec::new(),
        }
    }

    /// Set the correlation identifier.
    pub fn with_correlation_id(self, id: String) -> (r: Self)
        ensures
            r == (EventMetadata { correlation_id: Some(id), ..self }),
    {
        EventMetadata { correlation_id: Some(id), ..self }
    }

    /// Set the causation identifier.
    pub fn with_causation_id(self, id: EventId) -> (r: Self)
        ensures
            r == (EventMetadata { causation_id: Some(id), ..self }),
    {
        EventMetadata { causation_id: Some(id), ..self }
    }

    /// Set the actor.
    pub fn with_actor(self, actor: String) -> (r: Self)
        ensures
            r == (EventMetadata { actor: Some(actor), ..self }),
    {
        EventMetadata { actor: Some(actor), ..self }
    }

    /// Add one tag.
    pub fn with_tag(self, tag: String) -> (r: Self)
        ensures
            r.tags@ == self.tags@.push(tag),
            r == (EventMetadata { tags: r.tags, ..self }),
    {
        let mut m = self;
        m.tags.push(tag);
        m
    }

    /// Add several tags.
    pub fn with_tags(self, tags: Vec<String>) -> (r: Self)
        ensures
            r.tags@ == self.tags@ + tags@,
            r == (EventMetadata { tags: r.tags, ..self }),
    {
        let mut m = self;
        let mut i: usize = 0;
        while i < tags.len()
            invariant
                i <= tags@.len(),
                m.tags@.len() == self.tags@.len() + i,
                forall|k: int| 0 <= k < self.tags@.len() ==> m.tags@[k] == self.tags@[k],
                forall|k: int| 0 <= k < i ==> m.tags@[self.tags@.len() + k] == tags@[k],
                m == (EventMetadata { tags: m.tags, ..self }),
            decreases tags@.len() - i,
        {
            m.tags.push(tags[i].clone());
            i += 1;
        }
        proof {
            assert(m.tags@ =~= self.tags@ + tags@);
        }
        m
    }
}

impl Clone for EventMetadata {
    /// A field-for-field copy.
    fn clone(&self) -> (r: Self)
        ensures
            r.id == self.id,
            r.event_type@ == self.event_type@,
            r.timestamp == self.timestamp,
            r.transaction_time == self.transaction_time,
            r.entity_id@ == self.entity_id@,
            r.correlation_id.deep_view() == self.correlation_id.deep_view(),
            r.causation_id == self.causation_id,
            r.actor.deep_view() == self.actor.deep_view(),
            r.tags.deep_view() == self.tags.deep_view(),
    {
        EventMetadata {
            id: self.id,
            event_type: self.event_type.clone(),
            timestamp: self.timestamp,
            transaction_time: self.transaction_time,
            entity_id: self.entity_id.clone(),
            correlation_id: clone_opt_string(&self.correlation_id),
            causation_id: self.causation_id,
            actor: clone_opt_string(&self.actor),
            tags: clone_string_vec(&self.tags),
        }
    }
}

/// Copy an optional string, keeping its characters.
fn clone_opt_string(o: &Option<String>) -> (r: Option<String>)
    ensures
        r.deep_view() == o.deep_view(),
{
    match o {
        Some(s) => Some(s.clone()),
        None => None,
    }
}

/// Copy a vector of strings, keeping every element's characters.
fn clone_string_vec(v: &Vec<String>) -> (r: Vec<String>)
    ensures
        r.deep_view() == v.deep_view(),
{
    let mut out: Vec<String> = Vec::new();
    let mut i: usize = 0;
    while i < v.len()
        invariant
            i <= v@.len(),
            out@.len() == i,
            forall|k: int| 0 <= k < i ==> out@[k]@ == v@[k]@,
        decreases v@.len() - i,
    {
        out.push(v[i].clone());
        i += 1;
    }
    proof {
        assert(out.deep_view() =~= v.deep_view());
    }
    out
}

/// Opaque payload bytes together with a format tag.
#[derive(Debug)]
pub struct EventPayload {
    /// Serialized event data.
    pub data: Vec<u8>,
    /// Serialization format identifier, such as `json` or `bincode`.
    pub format: String,
}

impl EventPayload {
    /// Wrap already-serialized data.
    pub fn new(data: Vec<u8>, format: String) -> (r: Self)
        ensures
            r.data@ == data@,
            r.format@ == format@,
    {
        EventPayload { data, format }
    }
}

impl Clone for EventPayload {
    /// A field-for-field copy.
    fn clone(&self) -> (r: Self)
        ensures
            r.data@ == self.data@,
            r.format@ == self.format@,
    {
        EventPayload {
            data: vstd::slice::slice_to_vec(self.data.as_slice()),
            format: self.format.clone(),
        }
    }
}

/// A complete event: metadata plus payload.
#[derive(Debug)]
pub struct Event {
    /// Everything about the event except its payload.
    pub metadata: EventMetadata,
    /// The payload itself.
    pub payload: EventPayload,
}

impl View for Event {
    type V = EventView;

    open spec fn view(&self) -> EventView {
        EventView {
            id: self.metadata.id.id,
            event_type: self.metadata.event_type@,
            timestamp: self.metadata.timestamp.nanos,
            transaction_time: self.metadata.transaction_time.nanos,
            entity_id: self.metadata.entity_id@,
            correlation_id: self.metadata.correlation_id.deep_view(),
            causation_id: match self.metadata.causation_id {
                Some(c) => Some(c.id),
                None => None,
            },
            actor: self.metadata.actor.deep_view(),
            tags: self.metadata.tags.deep_view(),
            payload_data: self.payload.data@,
            payload_format: self.payload.format@,
        }
    }
}

impl DeepView for Event {
    type V = EventView;

    open spec fn deep_view(&self) -> EventView {
        self.view()
    }
}

impl Clone for Event {
    /// A copy with the same view.
    fn clone(&self) -> (r: Self)
        ensures
            r@ == self@,
    {
        let r = Event { metadata: self.metadata.clone(), payload: self.payload.clone() };
        proof {
            assert(r@ == self@);
        }
        r
    }
}

impl Event {
    /// A fresh event of the given type, valid time, entity and payload.
    pub fn new(event_type: EventType, timestamp: Timestamp, entity_id: String, payload:
        EventPayload) -> (r: Self)
        ensures
            r@.event_type == event_type@,
            r@.timestamp == timestamp.nanos,
            r@.entity_id == entity_id@,
            r@.correlation_id is None,
            r@.causation_id is None,
            r@.actor is None,
            r@.tags.len() == 0,
            r@.payload_data == payload.data@,
            r@.payload_format == payload.format@,
    {
        Event { metadata: EventMetadata::new(event_type, timestamp, entity_id), payload }
    }

    /// Start building an event field by field.
    pub fn builder(event_type: EventType, timestamp: Timestamp, entity_id: String, payload:
        EventPayload) -> (r: EventBuilder)
        ensures
            r.metadata.event_type@ == event_type@,
            r.metadata.timestamp == timestamp,
            r.metadata.entity_id@ == entity_id@,
            r.metadata.correlation_id is None,
            r.metadata.causation_id is None,
            r.metadata.actor is None,
            r.metadata.tags@.len() == 0,
            r.payload.data@ == payload.data@,
            r.payload.format@ == payload.format@,
    {
        EventBuilder { metadata: EventMetadata::new(event_type, timestamp, entity_id), payload }
    }

    /// The event's unique identifier.
    pub fn id(&self) -> (r: EventId)
        ensures
            r.id == self@.id,
    {
        self.metadata.id
    }

    /// The event's type.
    pub fn event_type(&self) -> (r: &str)
        ensures
            r@ == self@.event_type,
    {
        self.metadata.event_type.as_str()
    }

    /// The event's valid time.
    pub fn timestamp(&self) -> (r: Timestamp)
        ensures
            r.nanos == self@.timestamp,
    {
        self.metadata.timestamp
    }

    /// The entity the event belongs to.
    pub fn entity_id(&self) -> (r: &str)
        ensures
            r@ == self@.entity_id,
    {
        self.metadata.entity_id.as_str()
    }

    /// The payload.
    pub fn payload(&self) -> (r: &EventPayload)
        ensures
            r.data@ == self@.payload_data,
            r.format@ == self@.payload_format,
    {
        &self.payload
    }
}

/// Step-by-step construction of an event.
pub struct EventBuilder {
    /// The metadata gathered so far.
    pub metadata: EventMetadata,
    /// The payload the event will carry.
    pub payload: EventPayload,
}

impl EventBuilder {
    /// Set the correlation identifier.
    pub fn correlation_id(self, id: String) -> (r: Self)
        ensures
            r.metadata == (EventMetadata { correlation_id: Some(id), ..self.metadata }),
            r.payload == self.payload,
    {
        EventBuilder { metadata: self.metadata.with_correlation_id(id), payload: self.payload }
    }

    /// Set the causation identifier.
    pub fn causation_id(self, id: EventId) -> (r: Self)
        ensures
            r.metadata == (EventMetadata { causation_id: Some(id), ..self.metadata }),
            r.payload == self.payload,
    {
        EventBuilder { metadata: self.metadata.with_causation_id(id), payload: self.payload }
    }

    /// Set the actor.
    pub fn actor(self, actor: String) -> (r: Self)
        ensures
            r.metadata == (EventMetadata { actor: Some(actor), ..self.metadata }),
            r.payload == self.payload,
    {
        EventBuilder { metadata: self.metadata.with_actor(actor), payload: self.payload }
    }

    /// Add one tag.
    pub fn tag(self, tag: String) -> (r: Self)
        ensures
            r.metadata.tags@ == self.metadata.tags@.push(tag),
            r.metadata == (EventMetadata { tags: r.metadata.tags, ..self.metadata }),
            r.payload == self.payload,
    {
        EventBuilder { metadata: self.metadata.with_tag(tag), payload: self.payload }
    }

    /// Add several tags.
    pub fn tags(self, tags: Vec<String>) -> (r: Self)
        ensures
            r.metadata.tags@ == self.metadata.tags@ + tags@,
            r.metadata == (EventMetadata { tags: r.metadata.tags, ..self.metadata }),
            r.payload == self.payload,
    {
        EventBuilder { metadata: self.metadata.with_tags(tags), payload: self.payload }
    }

    /// Finish: the built event.
    pub fn build(self) -> (r: Event)
        ensures
            r.metadata == self.metadata,
            r.payload == self.payload,
    {
        Event { metadata: self.metadata, payload: self.payload }
    }
}

} // verus!
