//! The durable journal: a write-ahead log in front of rotated segment
//! files, with in-memory indexes for queries.

use vstd::prelude::*;

use crate::error::Error;
use crate::event_codec::event_wf;
use crate::event::{Event, EventView};
use crate::journal::{apply_entity, apply_type, InMemoryJournal};
use crate::segment_file::{
    read_events_spec, parse_header, SegErrKind, SegmentHeader, SegmentReader, SegmentWriter,
    MAX_EVENTS_PER_SEGMENT, MAX_SEGMENT_SIZE, SEGMENT_FLUSH_THRESHOLD,
};
use crate::temporal::Timestamp;
use crate::timeline::{has_event_at, insert_event, spec_latest_before};
use crate::wal::WriteAheadLog;

verus! {

/// Whether one stored segment image can be adopted at position `i` of a
/// directory scan: its header parses, carries identifier `i + 1` with
/// room left in the identifier space, claims no more events than a
/// segment may hold, and reads back as exactly that many events.
pub open spec fn image_ok(images: Seq<Seq<u8>>, i: int) -> bool {
    match parse_header(images[i]) {
        Some(h) => {
            &&& h.segment_id == i + 1
            &&& i + 1 < u64::MAX
            &&& h.event_count <= MAX_EVENTS_PER_SEGMENT
            &&& match read_events_spec(h, images[i]) {
                Ok(evs) => evs.len() == h.event_count,
                Err(_) => false,
            }
        },
        None => false,
    }
}

/// Whether a whole directory of stored segment images can be adopted.
pub open spec fn images_ok(images: Seq<Seq<u8>>) -> bool {
    forall|i: int| 0 <= i < images.len() ==> #[trigger] image_ok(images, i)
}

/// Allocates segment identifiers, rotates full segments, and keeps the
/// catalog of sealed segment headers together with their byte images.
/// The surrounding program persists each image under
/// `segment-<20-digit-id>.seg`.
pub struct SegmentManager {
    active: Option<SegmentWriter>,
    next_segment_id: u64,
    segments: Vec<SegmentHeader>,
    stored: Vec<Vec<u8>>,
    seg_events: Ghost<Seq<Seq<EventView>>>,
}

impl SegmentManager {
    /// The sealed headers, in creation order.
    pub closed spec fn catalog(&self) -> Seq<SegmentHeader> {
        self.segments@
    }

    /// The events of each sealed segment, in creation order.
    pub closed spec fn stored_events(&self) -> Seq<Seq<EventView>> {
        self.seg_events@
    }

    /// The byte image of each sealed segment.
    pub closed spec fn images(&self) -> Seq<Seq<u8>> {
        self.stored.deep_view()
    }

    /// The events the open writer holds, if one is open.
    pub closed spec fn active_events(&self) -> Seq<EventView> {
        match self.active {
            Some(w) => w.events(),
            None => Seq::empty(),
        }
    }

    /// Whether a writer is open.
    pub closed spec fn has_active(&self) -> bool {
        self.active is Some
    }

    /// How many events wait in the open writer's buffer; none when no
    /// writer is open.
    pub closed spec fn active_buffered(&self) -> nat {
        match self.active {
            Some(w) => w.buffered_count(),
            None => 0,
        }
    }

    /// Every event the manager holds: the sealed segments' events in
    /// order, then the open writer's.
    pub open spec fn all_events(&self) -> Seq<EventView> {
        self.stored_events().flatten() + self.active_events()
    }

    /// The catalog is in working order: headers, images and events run in
    /// step, every image reads back as its events, counts are within the
    /// rotation ceiling, and identifiers run 1, 2, 3, ...
    pub closed spec fn catalog_ok(&self) -> bool {
        &&& self.segments@.len() == self.stored@.len()
        &&& self.segments@.len() == self.seg_events@.len()
        &&& forall|i: int| 0 <= i < self.segments@.len() ==> parse_header(
            #[trigger] self.stored.deep_view()[i],
        ) == Some(self.segments@[i])
        &&& forall|i: int| 0 <= i < self.segments@.len() ==> read_events_spec(
            self.segments@[i],
            #[trigger] self.stored.deep_view()[i],
        ) == Ok::<Seq<EventView>, SegErrKind>(self.seg_events@[i])
        &&& forall|i: int| 0 <= i < self.segments@.len() ==> (#[trigger] self.segments@[
        i]).event_count as int == self.seg_events@[i].len()
        &&& forall|i: int| 0 <= i < self.segments@.len() ==> (#[trigger] self.segments@[
        i]).event_count <= MAX_EVENTS_PER_SEGMENT
        &&& forall|i: int| 0 <= i < self.segments@.len() ==> (#[trigger] self.segments@[
        i]).segment_id as int == i + 1
    }

    /// The manager is in working order: the catalog is, and the open
    /// writer, if any, carries the next identifier and sits strictly
    /// below both rotation ceilings.
    pub closed spec fn wf(&self) -> bool {
        &&& self.catalog_ok()
        &&& match self.active {
            Some(w) => {
                &&& w.wf()
                &&& w.spec_header().segment_id as int == self.segments@.len() + 1
                &&& w.spec_header().start_time.nanos == i64::MIN + 1
                &&& w.spec_header().end_time.nanos == i64::MAX
                &&& w.spec_header().event_count < MAX_EVENTS_PER_SEGMENT
                &&& w.spec_header().compressed_size < MAX_SEGMENT_SIZE
                &&& w.spec_header().event_count as int == w.events().len()
                &&& self.next_segment_id as int == self.segments@.len() + 2
            },
            None => self.next_segment_id as int == self.segments@.len() + 1,
        }
    }

    /// A fresh manager: no segments, the next identifier is 1.
    pub fn new() -> (r: Result<Self, Error>)
        ensures
            r matches Ok(m) ==> {
                &&& m.wf()
                &&& m.catalog() == Seq::<SegmentHeader>::empty()
                &&& m.all_events() == Seq::<EventView>::empty()
                &&& !m.has_active()
            },
            r is Ok,
    {
        let m = SegmentManager {
            active: None,
            next_segment_id: 1,
            segments: Vec::new(),
            stored: Vec::new(),
            seg_events: Ghost(Seq::empty()),
        };
        proof {
            assert(m.stored_events().flatten() =~= Seq::<EventView>::empty());
            assert(m.all_events() =~= Seq::<EventView>::empty());
        }
        Ok(m)
    }

    /// Seal one writer: finalize it and push its header, image and events
    /// into the catalog. On failure the writer is dropped, as sealing may
    /// have gone halfway; its buffered events are lost to the catalog.
    fn seal(&mut self, w: SegmentWriter) -> (r: Result<(), Error>)
        requires
            old(self).catalog_ok(),
            old(self).active is None,
            old(self).next_segment_id as int == old(self).segments@.len() + 2,
            w.wf(),
            w.spec_header().segment_id as int == old(self).catalog().len() + 1,
            w.spec_header().event_count as int == w.events().len(),
            w.spec_header().event_count <= MAX_EVENTS_PER_SEGMENT,
        ensures
            final(self).wf(),
            !final(self).has_active(),
            forall|i: int| 0 <= i < old(self).catalog().len() ==> final(self).catalog()[i] == old(self).catalog()[i],
            r is Ok ==> {
                &&& final(self).catalog().len() == old(self).catalog().len() + 1
                &&& final(self).catalog().last().segment_id == w.spec_header().segment_id
                &&& final(self).catalog().last().event_count == w.spec_header().event_count
                &&& final(self).stored_events() == old(self).stored_events().push(w.events())
                &&& final(self).all_events() == old(self).stored_events().flatten() + w.events()
                &&& final(self).catalog().last().compressed_size >= w.spec_header(
                ).compressed_size
            },
            w.buffered_count() == 0 ==> r is Ok,
            r is Err ==> final(self).catalog() == old(self).catalog()
                && final(self).stored_events() == old(self).stored_events(),
    {
        let ghost pre_evs = self.seg_events@;
        let ghost pre_imgs = self.stored.deep_view();
        let ghost wevs = w.events();
        let (h, bytes) = match w.finalize() {
            Ok(p) => p,
            Err(e) => {
                self.next_segment_id = self.next_segment_id - 1;
                return Err(e);
            },
        };
        self.segments.push(h);
        let ghost bytes_dv = bytes@;
        self.stored.push(bytes);
        proof {
            self.seg_events = Ghost(pre_evs.push(wevs));
            assert(self.stored.deep_view() =~~= pre_imgs.push(bytes_dv));
            pre_evs.lemma_flatten_push(wevs);
            assert(self.all_events() =~= old(self).stored_events().flatten() + wevs);
        }
        Ok(())
    }

    /// Append one event, opening a writer on demand and sealing it when
    /// it reaches a ceiling: a million events or a hundred mebibytes of
    /// compressed data. Every segment is created with the whole timestamp
    /// domain as its bounds, so only the two extreme timestamps are ever
    /// refused by time.
    pub fn append_event(&mut self, event: Event) -> (r: Result<(), Error>)
        requires
            old(self).wf(),
        ensures
            final(self).wf(),
            forall|i: int| 0 <= i < old(self).catalog().len() ==> final(self).catalog()[i] == old(self).catalog()[i],
            r is Ok ==> {
                &&& final(self).all_events() == old(self).all_events().push(event@)
                &&& final(self).catalog().len() >= old(self).catalog().len()
                &&& (final(self).catalog().len() > old(self).catalog().len() ==> {
                    let h = final(self).catalog().last();
                    &&& final(self).catalog().len() == old(self).catalog().len() + 1
                    &&& !final(self).has_active()
                    &&& h.event_count as int == old(self).active_events().len() + 1
                    &&& (h.event_count == MAX_EVENTS_PER_SEGMENT || h.compressed_size as int
                        >= MAX_SEGMENT_SIZE as int)
                    &&& final(self).stored_events().last() == old(self).active_events().push(
                        event@,
                    )
                })
                &&& (final(self).catalog().len() == old(self).catalog().len() ==> final(self).active_events() == old(self).active_events().push(event@) && final(self).has_active())
            },
            !(i64::MIN < event@.timestamp < i64::MAX) ==> r is Err && *final(self) == *old(self),
            ({
                let inb = i64::MIN < event@.timestamp && event@.timestamp < i64::MAX;
                inb && (old(self).has_active() || old(self).catalog().len() + 1 < u64::MAX as int)
                    && old(self).active_buffered() + 1 < SEGMENT_FLUSH_THRESHOLD as nat && old(self).active_events().len() + 1 < MAX_EVENTS_PER_SEGMENT as nat ==> {
                    &&& r is Ok
                    &&& final(self).active_buffered() == old(self).active_buffered() + 1
                    &&& final(self).has_active()
                    &&& final(self).catalog() == old(self).catalog()
                }
            }),
            !old(self).has_active() && old(self).catalog().len() + 1 >= u64::MAX as int ==> r
                is Err,
    {
        let ts = event.timestamp();
        if ts.nanos == i64::MIN || ts.nanos == i64::MAX {
            return Err(Error::Temporal("event timestamp outside segment range".to_owned()));
        }
        if self.active.is_none() {
            if self.next_segment_id == u64::MAX {
                return Err(Error::Storage("segment identifiers exhausted".to_owned()));
            }
            let start = Timestamp::from_nanos(i64::MIN + 1);
            let end = Timestamp::from_nanos(i64::MAX);
            let id = self.next_segment_id;
            let w = match SegmentWriter::create(id, start, end) {
                Ok(w) => w,
                Err(e) => {
                    proof {
                        assert(false);
                    }
                    return Err(e);
                },
            };
            self.next_segment_id = self.next_segment_id + 1;
            self.active = Some(w);
            proof {
                assert(old(self).active_events() == Seq::<EventView>::empty());
                assert(self.active_events() =~= Seq::<EventView>::empty());
                assert(self.active_events() == old(self).active_events());
                assert(self.all_events() =~= old(self).all_events());
            }
        }
        let ghost pre_all = self.all_events();
        let ghost pre_active = self.active_events();
        let ghost pre_catalog = self.catalog();
        let mut w = match self.active.take() {
            Some(w) => w,
            None => {
                proof {
                    assert(false);
                }
                return Err(Error::Other("no active writer".to_owned()));
            },
        };
        proof {
            assert(w.buffered_count() == old(self).active_buffered());
            assert(w.spec_header().start_time.nanos == i64::MIN + 1);
            assert(w.spec_header().end_time.nanos == i64::MAX);
            assert(w.spec_header().event_count as int == old(self).active_events().len());
        }
        match w.append(event) {
            Ok(()) => {},
            Err(e) => {
                // A temporal refusal leaves the writer as it stood; any
                // other failure means a block flush went wrong, and the
                // writer is dropped rather than kept in a half-written
                // state.
                match &e {
                    Error::Temporal(_) => {
                        self.active = Some(w);
                    },
                    _ => {
                        self.next_segment_id = self.next_segment_id - 1;
                    },
                }
                return Err(e);
            },
        }
        let needs = {
            let h = w.header();
            h.event_count >= MAX_EVENTS_PER_SEGMENT || h.compressed_size as u64 >= MAX_SEGMENT_SIZE
        };
        if !needs {
            self.active = Some(w);
            proof {
                assert(self.all_events() =~= pre_all.push(event@));
            }
            return Ok(());
        }
        let ghost wevs = w.events();
        let r = self.seal(w);
        proof {
            if r is Ok {
                assert(wevs =~= pre_active.push(event@));
                assert(self.all_events() =~= pre_all.push(event@));
            }
        }
        r
    }

    /// Seal the open segment, if one is open, into the catalog.
    pub fn flush(&mut self) -> (r: Result<(), Error>)
        requires
            old(self).wf(),
        ensures
            final(self).wf(),
            !final(self).has_active(),
            forall|i: int| 0 <= i < old(self).catalog().len() ==> final(self).catalog()[i] == old(self).catalog()[i],
            r is Ok ==> {
                &&& final(self).all_events() == old(self).all_events()
                &&& (old(self).has_active() ==> final(self).catalog().len() == old(self).catalog().len() + 1 && final(self).stored_events() == old(self).stored_events().push(old(self).active_events()) && final(self).catalog().last().event_count as int == old(self).active_events().len())
                &&& (!old(self).has_active() ==> *final(self) == *old(self))
            },
            !old(self).has_active() ==> r is Ok,
            old(self).active_buffered() == 0 ==> r is Ok,
    {
        let w = match self.active.take() {
            Some(w) => w,
            None => {
                return Ok(());
            },
        };
        let ghost wevs = w.events();
        let r = self.seal(w);
        proof {
            if r is Ok {
                assert(self.all_events() =~= old(self).all_events());
            }
        }
        r
    }

    /// Adopt the sealed segment images found on disk, in file-name order:
    /// validate each header, read each segment back, and continue
    /// numbering after the last. Refused if an image does not parse, does
    /// not read back whole, or breaks the 1, 2, 3, ... numbering.
    pub fn recover(images: Vec<Vec<u8>>) -> (r: Result<Self, Error>)
        ensures
            r is Ok <==> images_ok(images.deep_view()),
            r matches Ok(m) ==> {
                &&& m.wf()
                &&& !m.has_active()
                &&& m.catalog().len() == images@.len()
                &&& m.images() == images.deep_view()
                &&& forall|i: int| 0 <= i < images@.len() ==> parse_header(
                    #[trigger] images.deep_view()[i],
                ) == Some(m.catalog()[i])
                &&& forall|i: int| 0 <= i < images@.len() ==> read_events_spec(
                    m.catalog()[i],
                    #[trigger] images.deep_view()[i],
                ) == Ok::<Seq<EventView>, SegErrKind>(m.stored_events()[i])
            },
    {
        let mut m = SegmentManager {
            active: None,
            next_segment_id: 1,
            segments: Vec::new(),
            stored: Vec::new(),
            seg_events: Ghost(Seq::empty()),
        };
        let mut i: usize = 0;
        while i < images.len()
            invariant
                i <= images@.len(),
                m.active is None,
                m.segments@.len() == i,
                m.stored@.len() == i,
                m.seg_events@.len() == i,
                m.next_segment_id as int == i + 1,
                m.stored.deep_view() == images.deep_view().subrange(0, i as int),
                forall|k: int| 0 <= k < i ==> parse_header(#[trigger] images.deep_view()[k])
                    == Some(m.segments@[k]),
                forall|k: int| 0 <= k < i ==> read_events_spec(
                    m.segments@[k],
                    #[trigger] images.deep_view()[k],
                ) == Ok::<Seq<EventView>, SegErrKind>(m.seg_events@[k]),
                forall|k: int| 0 <= k < i ==> (#[trigger] m.segments@[k]).event_count as int
                    == m.seg_events@[k].len(),
                forall|k: int| 0 <= k < i ==> (#[trigger] m.segments@[k]).event_count
                    <= MAX_EVENTS_PER_SEGMENT,
                forall|k: int| 0 <= k < i ==> (#[trigger] m.segments@[k]).segment_id as int == k
                    + 1,
                forall|k: int| 0 <= k < i ==> #[trigger] image_ok(images.deep_view(), k),
            decreases images@.len() - i,
        {
            let image = vstd::slice::slice_to_vec(images[i].as_slice());
            proof {
                assert(image@ == images.deep_view()[i as int]);
            }
            let mut reader = match SegmentReader::open(image) {
                Ok(rd) => rd,
                Err(e) => {
                    proof {
                        assert(!image_ok(images.deep_view(), i as int));
                    }
                    return Err(e);
                },
            };
            let header = *reader.header();
            if m.next_segment_id == u64::MAX {
                proof {
                    assert(!image_ok(images.deep_view(), i as int));
                }
                return Err(Error::Storage("segment identifiers exhausted".to_owned()));
            }
            if header.segment_id != m.next_segment_id {
                proof {
                    assert(!image_ok(images.deep_view(), i as int));
                }
                return Err(Error::Storage("segment numbering has a gap".to_owned()));
            }
            if header.event_count > MAX_EVENTS_PER_SEGMENT {
                proof {
                    assert(!image_ok(images.deep_view(), i as int));
                }
                return Err(Error::Storage("segment claims more events than one may hold".to_owned()));
            }
            let events = match reader.read_events() {
                Ok(evs) => evs,
                Err(e) => {
                    proof {
                        assert(!image_ok(images.deep_view(), i as int));
                    }
                    return Err(e);
                },
            };
            if events.len() != header.event_count as usize {
                proof {
                    assert(!image_ok(images.deep_view(), i as int));
                }
                return Err(
                    Error::Storage("segment header count disagrees with its events".to_owned()),
                );
            }
            let ghost pre_imgs = m.stored.deep_view();
            let ghost pre_evs = m.seg_events@;
            let ghost evs_dv = events.deep_view();
            let image_again = vstd::slice::slice_to_vec(images[i].as_slice());
            m.segments.push(header);
            m.stored.push(image_again);
            m.next_segment_id = m.next_segment_id + 1;
            m.seg_events = Ghost(pre_evs.push(evs_dv));
            proof {
                assert(m.stored.deep_view() =~~= pre_imgs.push(images.deep_view()[i as int]));
                assert(m.stored.deep_view() =~~= images.deep_view().subrange(0, i + 1 as int));
                assert(image_ok(images.deep_view(), i as int));
            }
            i += 1;
        }
        proof {
            assert(images.deep_view().subrange(0, images.deep_view().len() as int)
                =~= images.deep_view());
        }
        Ok(m)
    }

    /// The sealed headers, in creation order.
    pub fn segments(&self) -> (r: &Vec<SegmentHeader>)
        ensures
            r@ == self.catalog(),
    {
        &self.segments
    }

    /// The sealed byte images, in creation order.
    pub fn segment_images(&self) -> (r: &Vec<Vec<u8>>)
        ensures
            r.deep_view() == self.images(),
    {
        &self.stored
    }

    /// Read every event back out of the sealed segments, in order. The
    /// open writer's events are not read: they are not sealed yet.
    pub fn read_all_events(&self) -> (r: Result<Vec<Event>, Error>)
        requires
            self.wf(),
        ensures
            r matches Ok(evs) && evs.deep_view() == self.stored_events().flatten(),
    {
        let mut all: Vec<Event> = Vec::new();
        let mut i: usize = 0;
        proof {
            assert(self.stored_events().subrange(0, 0).flatten() =~= Seq::<EventView>::empty());
            assert(all.deep_view() =~= Seq::<EventView>::empty());
        }
        while i < self.stored.len()
            invariant
                i <= self.stored@.len(),
                self.wf(),
                all.deep_view() == self.stored_events().subrange(0, i as int).flatten(),
            decreases self.stored@.len() - i,
        {
            let image = vstd::slice::slice_to_vec(self.stored[i].as_slice());
            proof {
                assert(self.stored.deep_view()[i as int] == self.stored@[i as int]@);
                assert(image@ == self.stored.deep_view()[i as int]);
            }
            let mut reader = match SegmentReader::open(image) {
                Ok(rd) => rd,
                Err(e) => {
                    proof {
                        assert(false);
                    }
                    return Err(e);
                },
            };
            proof {
                assert(reader.spec_header() == self.segments@[i as int]);
            }
            let evs = match reader.read_events() {
                Ok(evs) => evs,
                Err(e) => {
                    proof {
                        assert(false);
                    }
                    return Err(e);
                },
            };
            let ghost pre = all.deep_view();
            let ghost evs_dv = evs.deep_view();
            let mut evs = evs;
            all.append(&mut evs);
            proof {
                assert(evs_dv == self.seg_events@[i as int]);
                assert(all.deep_view() =~= pre + evs_dv);
                let done = self.stored_events().subrange(0, i as int);
                assert(self.stored_events().subrange(0, i + 1 as int) =~= done.push(
                    self.seg_events@[i as int],
                ));
                done.lemma_flatten_push(self.seg_events@[i as int]);
            }
            i += 1;
        }
        proof {
            assert(self.stored_events().subrange(0, self.stored_events().len() as int)
                =~= self.stored_events());
        }
        Ok(all)
    }
}

/// Every sealed segment holds at most a million events, and the open
/// writer stays strictly below the rotation ceilings: the rotation law.
pub proof fn lemma_rotation_law(m: &SegmentManager)
    requires
        m.wf(),
    ensures
        forall|i: int| 0 <= i < m.catalog().len() ==> (#[trigger] m.catalog()[i]).event_count
            <= MAX_EVENTS_PER_SEGMENT,
        m.has_active() ==> m.active_events().len() < MAX_EVENTS_PER_SEGMENT,
{
}


// ---------------------------------------------------------------------------
// The journal proper.
// ---------------------------------------------------------------------------

/// One entity's events after a write-ahead log is replayed over them:
/// each log event of the entity joins in order, unless one with its
/// identity already sits at its timestamp; other entities' log events
/// leave this timeline alone.
pub open spec fn wal_dedup_entity(cur: Seq<EventView>, id: Seq<char>, wal: Seq<EventView>) -> Seq<
    EventView,
>
    decreases wal.len(),
{
    if wal.len() == 0 {
        cur
    } else {
        let e = wal[0];
        let cur2 = if e.entity_id == id && !has_event_at(cur, e.timestamp, e.id) {
            insert_event(cur, e)
        } else {
            cur
        };
        wal_dedup_entity(cur2, id, wal.drop_first())
    }
}

/// A durable journal: every event goes to the write-ahead log first, then
/// into the active segment, then into the in-memory indexes that serve
/// queries.
pub struct SegmentedJournal<W: WriteAheadLog> {
    wal: W,
    segment_manager: SegmentManager,
    in_memory: InMemoryJournal,
}

impl<W: WriteAheadLog> SegmentedJournal<W> {
    /// The events the write-ahead log holds.
    pub closed spec fn wal_events(&self) -> Seq<EventView> {
        self.wal.wal_events()
    }

    /// The events the segment store holds, sealed and active together.
    pub closed spec fn segment_events(&self) -> Seq<EventView> {
        self.segment_manager.all_events()
    }

    /// The sealed segment headers.
    pub closed spec fn catalog(&self) -> Seq<SegmentHeader> {
        self.segment_manager.catalog()
    }

    /// The indexed events of one entity, in timestamp order.
    pub closed spec fn entity_events(&self, id: Seq<char>) -> Seq<EventView> {
        self.in_memory.entity_events(id)
    }

    /// The indexed events of one type, in append order.
    pub closed spec fn type_events(&self, ty: Seq<char>) -> Seq<EventView> {
        self.in_memory.type_events(ty)
    }

    /// The sealed segment byte images.
    pub closed spec fn images(&self) -> Seq<Seq<u8>> {
        self.segment_manager.images()
    }

    /// Whether a segment writer is open.
    pub closed spec fn has_active(&self) -> bool {
        self.segment_manager.has_active()
    }

    /// How many events wait in the open writer's buffer.
    pub closed spec fn active_buffered(&self) -> nat {
        self.segment_manager.active_buffered()
    }

    /// How many events the open writer holds in all.
    pub closed spec fn active_count(&self) -> nat {
        self.segment_manager.active_events().len()
    }

    /// The events of each sealed segment, in order.
    pub closed spec fn sealed_events(&self) -> Seq<Seq<EventView>> {
        self.segment_manager.stored_events()
    }

    /// The journal is in working order when all three parts are.
    pub closed spec fn wf(&self) -> bool {
        &&& self.wal.wal_inv()
        &&& self.segment_manager.wf()
        &&& self.in_memory.wf()
    }

    /// A fresh journal over the given write-ahead log.
    pub fn new(wal: W) -> (r: Result<Self, Error>)
        requires
            wal.wal_inv(),
        ensures
            r matches Ok(j) ==> {
                &&& j.wf()
                &&& j.wal_events() == wal.wal_events()
                &&& j.segment_events() == Seq::<EventView>::empty()
                &&& j.catalog() == Seq::<SegmentHeader>::empty()
                &&& forall|id: Seq<char>| j.entity_events(id) == Seq::<EventView>::empty()
                &&& forall|ty: Seq<char>| j.type_events(ty) == Seq::<EventView>::empty()
            },
            r is Ok,
    {
        let segment_manager = match SegmentManager::new() {
            Ok(m) => m,
            Err(e) => {
                return Err(e);
            },
        };
        Ok(SegmentedJournal { wal, segment_manager, in_memory: InMemoryJournal::new() })
    }

    /// Append one event: first durably to the log, then to the active
    /// segment, then into the indexes. A log failure leaves everything
    /// unchanged; a segment failure leaves the event in the log but out
    /// of every index.
    pub fn append(&mut self, event: Event) -> (r: Result<(), Error>)
        requires
            old(self).wf(),
        ensures
            final(self).wf(),
            r is Ok ==> {
                &&& final(self).wal_events() == old(self).wal_events().push(event@)
                &&& final(self).segment_events() == old(self).segment_events().push(event@)
                &&& final(self).entity_events(event@.entity_id) == insert_event(
                    old(self).entity_events(event@.entity_id),
                    event@,
                )
                &&& forall|id: Seq<char>| id != event@.entity_id ==> final(self).entity_events(id)
                    == old(self).entity_events(id)
                &&& final(self).type_events(event@.event_type) == old(self).type_events(
                    event@.event_type,
                ).push(event@)
                &&& forall|ty: Seq<char>| ty != event@.event_type ==> final(self).type_events(ty)
                    == old(self).type_events(ty)
            },
            r is Err ==> {
                &&& (final(self).wal_events() == old(self).wal_events() || final(self).wal_events() == old(self).wal_events().push(event@))
                &&& forall|id: Seq<char>| final(self).entity_events(id) == old(self).entity_events(id)
                &&& forall|ty: Seq<char>| final(self).type_events(ty) == old(self).type_events(ty)
            },
            r is Err && final(self).wal_events() == old(self).wal_events() ==> final(self).segment_events() == old(self).segment_events() && final(self).catalog() == old(self).catalog(),
            event_wf(event@) && i64::MIN < event@.timestamp && event@.timestamp < i64::MAX && (old(self).has_active() || old(self).catalog().len() + 1 < u64::MAX as int) && old(self).active_buffered() + 1 < SEGMENT_FLUSH_THRESHOLD as nat && old(self).active_count()
                + 1 < MAX_EVENTS_PER_SEGMENT as nat ==> {
                &&& r is Ok
                &&& final(self).has_active()
                &&& final(self).catalog() == old(self).catalog()
                &&& final(self).active_buffered() == old(self).active_buffered() + 1
                &&& final(self).active_count() == old(self).active_count() + 1
            },
    {
        let manager_clone = event.clone();
        let index_clone = event.clone();
        match self.wal.append(&event) {
            Ok(()) => {},
            Err(e) => {
                return Err(e);
            },
        }
        match self.segment_manager.append_event(manager_clone) {
            Ok(()) => {},
            Err(e) => {
                proof {
                    // The log did move: a record was appended, so the
                    // wal-unchanged clause binds nothing here.
                    assert(old(self).wal_events().push(event@).len() == old(self).wal_events().len() + 1);
                }
                return Err(e);
            },
        }
        match self.in_memory.append(index_clone) {
            Ok(()) => {},
            Err(e) => {
                return Err(e);
            },
        }
        Ok(())
    }

    /// Append a run of events in order.
    pub fn append_batch(&mut self, events: Vec<Event>) -> (r: Result<(), Error>)
        requires
            old(self).wf(),
        ensures
            final(self).wf(),
            r is Ok ==> {
                &&& final(self).wal_events() == old(self).wal_events() + events.deep_view()
                &&& final(self).segment_events() == old(self).segment_events()
                    + events.deep_view()
                &&& forall|id: Seq<char>| final(self).entity_events(id) == apply_entity(
                    old(self).entity_events(id),
                    id,
                    events.deep_view(),
                )
                &&& forall|ty: Seq<char>| final(self).type_events(ty) == apply_type(
                    old(self).type_events(ty),
                    ty,
                    events.deep_view(),
                )
            },
            (forall|k: int| 0 <= k < events.deep_view().len() ==> event_wf(
                #[trigger] events.deep_view()[k],
            ) && i64::MIN < events.deep_view()[k].timestamp && events.deep_view()[k].timestamp
                < i64::MAX) && (old(self).has_active() || old(self).catalog().len() + 1
                < u64::MAX as int) && old(self).active_buffered() + events.deep_view().len()
                < SEGMENT_FLUSH_THRESHOLD as nat && old(self).active_count()
                + events.deep_view().len() < MAX_EVENTS_PER_SEGMENT as nat ==> r is Ok,
    {
        let ghost dv = events.deep_view();
        let ghost hyp: bool = (forall|k: int| 0 <= k < dv.len() ==> event_wf(#[trigger] dv[k])
            && i64::MIN < dv[k].timestamp && dv[k].timestamp < i64::MAX) && (old(
            self,
        ).has_active() || old(self).catalog().len() + 1 < u64::MAX as int) && old(
            self,
        ).active_buffered() + dv.len() < SEGMENT_FLUSH_THRESHOLD as nat && old(
            self,
        ).active_count() + dv.len() < MAX_EVENTS_PER_SEGMENT as nat;
        let mut j: usize = 0;
        proof {
            assert(dv.subrange(0, dv.len() as int) =~= dv);
            assert(old(self).wal_events() + dv.subrange(0, 0) =~= old(self).wal_events());
            assert(old(self).segment_events() + dv.subrange(0, 0) =~= old(self).segment_events());
        }
        while j < events.len()
            invariant
                j <= events@.len(),
                self.wf(),
                dv == events.deep_view(),
                hyp == ((forall|k: int| 0 <= k < dv.len() ==> event_wf(#[trigger] dv[k])
                    && i64::MIN < dv[k].timestamp && dv[k].timestamp < i64::MAX) && (old(
                    self,
                ).has_active() || old(self).catalog().len() + 1 < u64::MAX as int) && old(
                    self,
                ).active_buffered() + dv.len() < SEGMENT_FLUSH_THRESHOLD as nat && old(
                    self,
                ).active_count() + dv.len() < MAX_EVENTS_PER_SEGMENT as nat),
                hyp ==> {
                    &&& self.has_active() || old(self).has_active() == self.has_active()
                    &&& self.catalog() == old(self).catalog()
                    &&& self.active_buffered() == old(self).active_buffered() + j
                    &&& self.active_count() == old(self).active_count() + j
                    &&& (j > 0 ==> self.has_active())
                    &&& (old(self).has_active() ==> self.has_active())
                },
                self.wal_events() == old(self).wal_events() + dv.subrange(0, j as int),
                self.segment_events() == old(self).segment_events() + dv.subrange(0, j as int),
                forall|id: Seq<char>| apply_entity(old(self).entity_events(id), id, dv)
                    == apply_entity(
                    #[trigger] self.entity_events(id),
                    id,
                    dv.subrange(j as int, dv.len() as int),
                ),
                forall|ty: Seq<char>| apply_type(old(self).type_events(ty), ty, dv) == apply_type(
                    #[trigger] self.type_events(ty),
                    ty,
                    dv.subrange(j as int, dv.len() as int),
                ),
            decreases events@.len() - j,
        {
            let ghost rest = dv.subrange(j as int, dv.len() as int);
            proof {
                assert(rest[0] == dv[j as int]);
                assert(rest.drop_first() =~= dv.subrange(j + 1 as int, dv.len() as int));
            }
            let ghost before = *self;
            let e = events[j].clone();
            proof {
                if hyp {
                    assert(event_wf(dv[j as int]) && i64::MIN < dv[j as int].timestamp && dv[
                    j as int].timestamp < i64::MAX);
                }
            }
            match self.append(e) {
                Ok(()) => {},
                Err(err) => {
                    proof {
                        if hyp {
                            assert(false);
                        }
                    }
                    return Err(err);
                },
            }
            proof {
                assert(self.wal_events() =~= old(self).wal_events() + dv.subrange(
                    0,
                    j + 1 as int,
                ));
                assert(self.segment_events() =~= old(self).segment_events() + dv.subrange(
                    0,
                    j + 1 as int,
                ));
                assert forall|id: Seq<char>| apply_entity(old(self).entity_events(id), id, dv)
                    == apply_entity(
                    #[trigger] self.entity_events(id),
                    id,
                    dv.subrange(j + 1 as int, dv.len() as int),
                ) by {
                    assert(apply_entity(before.entity_events(id), id, rest) == apply_entity(
                        if dv[j as int].entity_id == id {
                            insert_event(before.entity_events(id), dv[j as int])
                        } else {
                            before.entity_events(id)
                        },
                        id,
                        rest.drop_first(),
                    ));
                }
                assert forall|ty: Seq<char>| apply_type(old(self).type_events(ty), ty, dv)
                    == apply_type(
                    #[trigger] self.type_events(ty),
                    ty,
                    dv.subrange(j + 1 as int, dv.len() as int),
                ) by {
                    assert(apply_type(before.type_events(ty), ty, rest) == apply_type(
                        if dv[j as int].event_type == ty {
                            before.type_events(ty).push(dv[j as int])
                        } else {
                            before.type_events(ty)
                        },
                        ty,
                        rest.drop_first(),
                    ));
                }
            }
            j += 1;
        }
        proof {
            let empty = dv.subrange(dv.len() as int, dv.len() as int);
            assert(empty =~= Seq::<EventView>::empty());
            assert forall|id: Seq<char>| final(self).entity_events(id) == apply_entity(
                old(self).entity_events(id),
                id,
                dv,
            ) by {
                assert(apply_entity(self.entity_events(id), id, empty) == self.entity_events(id));
            }
            assert forall|ty: Seq<char>| final(self).type_events(ty) == apply_type(
                old(self).type_events(ty),
                ty,
                dv,
            ) by {
                assert(apply_type(self.type_events(ty), ty, empty) == self.type_events(ty));
            }
        }
        Ok(())
    }

    /// Rebuild a journal from what a directory held: the sealed segment
    /// images, in file-name order, and the write-ahead log read back from
    /// its file. Every segment event is indexed first; then the log is
    /// replayed and each of its events joins the indexes unless one with
    /// its identity already sits at its timestamp. The log itself is left
    /// as it stood, until the next checkpoint clears it.
    pub fn recover(images: Vec<Vec<u8>>, wal: W) -> (r: Result<Self, Error>)
        requires
            wal.wal_inv(),
        ensures
            r is Ok <==> images_ok(images.deep_view()),
            r matches Ok(j) ==> {
                &&& j.wf()
                &&& j.wal_events() == wal.wal_events()
                &&& j.catalog().len() == images@.len()
                &&& j.images() == images.deep_view()
                &&& forall|i: int| 0 <= i < images@.len() ==> parse_header(
                    #[trigger] images.deep_view()[i],
                ) == Some(j.catalog()[i])
                &&& j.segment_events() == j.sealed_events().flatten()
                &&& forall|id: Seq<char>| j.entity_events(id) == wal_dedup_entity(
                    apply_entity(Seq::empty(), id, j.sealed_events().flatten()),
                    id,
                    wal.wal_events(),
                )
            },
    {
        let segment_manager = match SegmentManager::recover(images) {
            Ok(m) => m,
            Err(e) => {
                return Err(e);
            },
        };
        let mut in_memory = InMemoryJournal::new();
        let seg_events = match segment_manager.read_all_events() {
            Ok(evs) => evs,
            Err(e) => {
                proof {
                    assert(false);
                }
                return Err(e);
            },
        };
        let ghost seg_flat = seg_events.deep_view();
        match in_memory.append_batch(seg_events) {
            Ok(()) => {},
            Err(e) => {
                proof {
                    assert(false);
                }
                return Err(e);
            },
        }
        let ghost base = in_memory;
        let wal_events = match wal.replay() {
            Ok(evs) => evs,
            Err(e) => {
                proof {
                    assert(false);
                }
                return Err(e);
            },
        };
        let ghost waldv = wal_events.deep_view();
        let mut j: usize = 0;
        proof {
            assert(waldv.subrange(0, waldv.len() as int) =~= waldv);
        }
        while j < wal_events.len()
            invariant
                j <= wal_events@.len(),
                in_memory.wf(),
                waldv == wal_events.deep_view(),
                forall|id: Seq<char>| wal_dedup_entity(base.entity_events(id), id, waldv)
                    == wal_dedup_entity(
                    #[trigger] in_memory.entity_events(id),
                    id,
                    waldv.subrange(j as int, waldv.len() as int),
                ),
            decreases wal_events@.len() - j,
        {
            let ghost rest = waldv.subrange(j as int, waldv.len() as int);
            proof {
                assert(rest[0] == waldv[j as int]);
                assert(rest.drop_first() =~= waldv.subrange(j + 1 as int, waldv.len() as int));
            }
            let ghost before = in_memory;
            let e = &wal_events[j];
            let present = in_memory.has_event(e.entity_id(), e.timestamp(), &e.metadata.id);
            if !present {
                match in_memory.append(e.clone()) {
                    Ok(()) => {},
                    Err(err) => {
                        proof {
                            assert(false);
                        }
                        return Err(err);
                    },
                }
            }
            proof {
                assert forall|id: Seq<char>| wal_dedup_entity(base.entity_events(id), id, waldv)
                    == wal_dedup_entity(
                    #[trigger] in_memory.entity_events(id),
                    id,
                    waldv.subrange(j + 1 as int, waldv.len() as int),
                ) by {
                    let ev = waldv[j as int];
                    assert(wal_dedup_entity(before.entity_events(id), id, rest)
                        == wal_dedup_entity(
                        if ev.entity_id == id && !has_event_at(
                            before.entity_events(id),
                            ev.timestamp,
                            ev.id,
                        ) {
                            insert_event(before.entity_events(id), ev)
                        } else {
                            before.entity_events(id)
                        },
                        id,
                        rest.drop_first(),
                    ));
                }
            }
            j += 1;
        }
        proof {
            let empty = waldv.subrange(waldv.len() as int, waldv.len() as int);
            assert(empty =~= Seq::<EventView>::empty());
            assert forall|id: Seq<char>| in_memory.entity_events(id) == wal_dedup_entity(
                apply_entity(Seq::empty(), id, seg_flat),
                id,
                waldv,
            ) by {
                assert(wal_dedup_entity(in_memory.entity_events(id), id, empty)
                    == in_memory.entity_events(id));
                assert(base.entity_events(id) == apply_entity(Seq::empty(), id, seg_flat));
            }
        }
        let out = SegmentedJournal { wal, segment_manager, in_memory };
        proof {
            assert(out.segment_events() =~= out.sealed_events().flatten());
        }
        Ok(out)
    }

    /// The entity's indexed events with timestamps in `[start, end)`.
    pub fn get_events(&self, entity_id: &str, start: Timestamp, end: Timestamp) -> (r: Result<
        Vec<Event>,
        Error,
    >)
        requires
            self.wf(),
        ensures
            r matches Ok(evs) && evs.deep_view() == self.entity_events(entity_id@).filter(
                |e: EventView| start.nanos <= e.timestamp && e.timestamp < end.nanos,
            ),
    {
        self.in_memory.get_events(entity_id, start, end)
    }

    /// Every indexed event of the entity, in timestamp order.
    pub fn get_entity_events(&self, entity_id: &str) -> (r: Result<Vec<Event>, Error>)
        requires
            self.wf(),
        ensures
            r matches Ok(evs) && evs.deep_view() == self.entity_events(entity_id@),
    {
        self.in_memory.get_entity_events(entity_id)
    }

    /// The indexed events of one type with timestamps in `[start, end)`.
    pub fn get_events_by_type(&self, event_type: &str, start: Timestamp, end: Timestamp) -> (r:
        Result<Vec<Event>, Error>)
        requires
            self.wf(),
        ensures
            r matches Ok(evs) && evs.deep_view() == self.type_events(event_type@).filter(
                |e: EventView| start.nanos <= e.timestamp && e.timestamp < end.nanos,
            ),
    {
        self.in_memory.get_events_by_type(event_type, start, end)
    }

    /// The latest indexed event of the entity at or before the timestamp.
    pub fn get_latest_event(&self, entity_id: &str, timestamp: Timestamp) -> (r: Result<
        Option<Event>,
        Error,
    >)
        requires
            self.wf(),
        ensures
            r matches Ok(o) && (match o {
                Some(e) => spec_latest_before(self.entity_events(entity_id@), timestamp.nanos)
                    == Some(e@),
                None => spec_latest_before(self.entity_events(entity_id@), timestamp.nanos)
                    is None,
            }),
    {
        self.in_memory.get_latest_event(entity_id, timestamp)
    }

    /// Flush the log durably and seal the active segment.
    pub fn flush(&mut self) -> (r: Result<(), Error>)
        requires
            old(self).wf(),
        ensures
            final(self).wf(),
            final(self).wal_events() == old(self).wal_events(),
            forall|id: Seq<char>| final(self).entity_events(id) == old(self).entity_events(id),
            forall|ty: Seq<char>| final(self).type_events(ty) == old(self).type_events(ty),
            r is Ok ==> final(self).segment_events() == old(self).segment_events(),
            old(self).active_buffered() == 0 ==> r is Ok,
    {
        match self.wal.flush() {
            Ok(()) => {},
            Err(e) => {
                return Err(e);
            },
        }
        match self.segment_manager.flush() {
            Ok(()) => {},
            Err(e) => {
                return Err(e);
            },
        }
        Ok(())
    }

    /// The sealed segment headers.
    pub fn segments(&self) -> (r: &Vec<SegmentHeader>)
        ensures
            r@ == self.catalog(),
    {
        self.segment_manager.segments()
    }

    /// The sealed segment byte images, for the surrounding program to
    /// persist.
    pub fn segment_images(&self) -> (r: &Vec<Vec<u8>>)
        ensures
            r.deep_view() == self.images(),
    {
        self.segment_manager.segment_images()
    }

    /// The write-ahead log, for the surrounding program to persist.
    pub fn wal(&self) -> (r: &W)
        ensures
            r.wal_events() == self.wal_events(),
            self.wf() ==> r.wal_inv(),
    {
        &self.wal
    }

    /// Read every event back out of the sealed segments, in order.
    pub fn read_all_events(&self) -> (r: Result<Vec<Event>, Error>)
        requires
            self.wf(),
        ensures
            r matches Ok(evs) && evs.deep_view() == self.sealed_events().flatten(),
    {
        self.segment_manager.read_all_events()
    }
}

} // verus!
