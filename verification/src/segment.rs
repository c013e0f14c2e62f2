//! A segment held in memory: a header and the events it carries.

use vstd::prelude::*;

use crate::error::Error;
use crate::event::Event;
use crate::temporal::Timestamp;

verus! {

/// In-memory segment metadata.
#[derive(Debug, Clone)]
pub struct SegmentHeader {
    /// Magic bytes for validation.
    pub magic: [u8; 5],
    /// Unique segment identifier.
    pub segment_id: u64,
    /// Earliest valid time an event may carry.
    pub start_time: Timestamp,
    /// The end of the half-open valid-time range.
    pub end_time: Timestamp,
    /// Number of events in the segment.
    pub event_count: u32,
    /// Checksum for integrity.
    pub checksum: u32,
    /// Flag bits.
    pub flags: u8,
}

impl SegmentHeader {
    /// A fresh header: the given identity and bounds, zero counters, the
    /// `TEMP0` magic.
    pub fn new(segment_id: u64, start_time: Timestamp, end_time: Timestamp) -> (r: Self)
        ensures
            r.segment_id == segment_id,
            r.start_time == start_time,
            r.end_time == end_time,
            r.event_count == 0,
            r.checksum == 0,
            r.flags == 0,
            r.magic@ == seq![84u8, 69u8, 77u8, 80u8, 48u8],
    {
        let magic: [u8; 5] = [84, 69, 77, 80, 48];
        proof {
            assert(magic@ =~= seq![84u8, 69u8, 77u8, 80u8, 48u8]);
        }
        SegmentHeader { magic, segment_id, start_time, end_time, event_count: 0, checksum: 0, flags: 0 }
    }
}

/// A container for events destined for one segment file.
#[derive(Debug)]
pub struct Segment {
    /// The segment's metadata.
    pub header: SegmentHeader,
    /// The events it carries.
    pub events: Vec<Event>,
}

impl Segment {
    /// A fresh, empty segment.
    pub fn new(segment_id: u64, start_time: Timestamp, end_time: Timestamp) -> (r: Self)
        ensures
            r.header.segment_id == segment_id,
            r.header.start_time == start_time,
            r.header.end_time == end_time,
            r.header.event_count == 0,
            r.events@.len() == 0,
    {
        Segment { header: SegmentHeader::new(segment_id, start_time, end_time), events: Vec::new() }
    }

    /// Add one event. An event whose valid time falls outside the
    /// half-open range is refused with a temporal error and nothing
    /// changes.
    pub fn add_event(&mut self, event: Event) -> (r: Result<(), Error>)
        requires
            old(self).header.event_count as int == old(self).events@.len(),
        ensures
            final(self).header.event_count as int == final(self).events@.len(),
            ({
                let inb = old(self).header.start_time.nanos <= event@.timestamp
                    && event@.timestamp < old(self).header.end_time.nanos;
                &&& (!inb ==> (r matches Err(e) && e is Temporal) && *final(self) == *old(self))
                &&& (inb && old(self).header.event_count < u32::MAX ==> r is Ok && final(self).events.deep_view() == old(self).events.deep_view().push(event@))
                &&& (inb && old(self).header.event_count == u32::MAX ==> r is Err && *final(self)
                    == *old(self))
            }),
    {
        let ts = event.timestamp();
        if ts.nanos < self.header.start_time.nanos || ts.nanos >= self.header.end_time.nanos {
            return Err(Error::Temporal("event timestamp outside segment range".to_owned()));
        }
        if self.header.event_count == u32::MAX {
            return Err(Error::Storage("segment event count at its ceiling".to_owned()));
        }
        let ghost pre = self.events.deep_view();
        self.events.push(event);
        self.header.event_count = self.header.event_count + 1;
        proof {
            assert(self.events.deep_view() =~= pre.push(event@));
        }
        Ok(())
    }
}

} // verus!
