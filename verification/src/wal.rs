//! The write-ahead log: an append-only train of checksummed records, one
//! serialized event each, with replay that elides a torn tail and rejects
//! interior corruption.

use vstd::prelude::*;
use vstd::slice::slice_subrange;

use crate::checksum::{crc32, crc32_of};
use crate::codec::{push_u32_le, read_u32_le, u32_le, u32_of_le, lemma_parse_u32, lemma_split};
use crate::error::Error;
use crate::event::{Event, EventView};
use crate::event_codec::{decoded_event, enc_event, encode_event, decode_event, event_wf};

verus! {

/// The ways a replay can fail.
pub enum WalErrKind {
    /// An interior record's checksum does not match its payload.
    Corrupt,
    /// A record's payload is no event encoding.
    Undecodable,
}

/// One record: the payload's checksum, its length, then the payload.
pub open spec fn enc_record(payload: Seq<u8>) -> Seq<u8>
    recommends
        payload.len() <= u32::MAX,
{
    u32_le(crc32_of(payload)) + u32_le(payload.len() as u32) + payload
}

/// A whole log: the records of the given events, in order.
pub open spec fn enc_wal(events: Seq<EventView>) -> Seq<u8>
    decreases events.len(),
{
    if events.len() == 0 {
        Seq::empty()
    } else {
        enc_record(enc_event(events[0])) + enc_wal(events.drop_first())
    }
}

/// Every event in the sequence fits the encoding.
pub open spec fn wal_events_wf(events: Seq<EventView>) -> bool {
    forall|i: int| 0 <= i < events.len() ==> event_wf(#[trigger] events[i])
}

/// What replay makes of the bytes from offset `i` on: the events read, or
/// the failure met, together with the offset where reading stopped.
/// An incomplete header or payload at the end is a clean stop.
pub open spec fn parse_wal_at(s: Seq<u8>, i: int) -> (Result<Seq<EventView>, WalErrKind>, int)
    decreases s.len() - i,
{
    if !(0 <= i && i + 8 <= s.len()) {
        (Ok(Seq::empty()), i)
    } else {
        let crc = u32_of_le(s[i], s[i + 1], s[i + 2], s[i + 3]);
        let len = u32_of_le(s[i + 4], s[i + 5], s[i + 6], s[i + 7]) as int;
        if i + 8 + len > s.len() {
            (Ok(Seq::empty()), i)
        } else {
            let payload = s.subrange(i + 8, i + 8 + len);
            if crc32_of(payload) != crc {
                (Err(WalErrKind::Corrupt), i)
            } else {
                match decoded_event(payload) {
                    None => (Err(WalErrKind::Undecodable), i),
                    Some(e) => {
                        let rec = parse_wal_at(s, i + 8 + len);
                        match rec.0 {
                            Ok(evs) => (Ok(seq![e] + evs), rec.1),
                            Err(k) => (Err(k), rec.1),
                        }
                    },
                }
            }
        }
    }
}

/// What replay makes of a whole byte image.
pub open spec fn parse_wal(s: Seq<u8>) -> Result<Seq<EventView>, WalErrKind> {
    parse_wal_at(s, 0).0
}

// ---------------------------------------------------------------------------
// How parsing behaves under suffixes, extensions and truncation.
// ---------------------------------------------------------------------------

/// Reading never stops before where it started.
proof fn lemma_parse_wal_stop_ge(s: Seq<u8>, i: int)
    ensures
        parse_wal_at(s, i).1 >= i,
    decreases s.len() - i,
{
    if 0 <= i && i + 8 <= s.len() {
        let len = u32_of_le(s[i + 4], s[i + 5], s[i + 6], s[i + 7]) as int;
        if i + 8 + len <= s.len() {
            let payload = s.subrange(i + 8, i + 8 + len);
            if crc32_of(payload) == u32_of_le(s[i], s[i + 1], s[i + 2], s[i + 3])
                && decoded_event(payload) is Some {
                lemma_parse_wal_stop_ge(s, i + 8 + len);
            }
        }
    }
}

/// A train of well-formed records filling the rest of the buffer reads
/// back as exactly its events.
#[verifier::rlimit(100)]
#[verifier::spinoff_prover]
pub proof fn lemma_parse_wal_suffix(s: Seq<u8>, i: int, events: Seq<EventView>)
    requires
        0 <= i <= s.len(),
        wal_events_wf(events),
        s.subrange(i, s.len() as int) == enc_wal(events),
    ensures
        parse_wal_at(s, i) == (Ok::<Seq<EventView>, WalErrKind>(events), s.len() as int),
    decreases events.len(),
{
    if events.len() == 0 {
        assert(s.len() - i == enc_wal(events).len());
        assert(events =~= Seq::<EventView>::empty());
    } else {
        let e0 = events[0];
        let p = enc_event(e0);
        let rest = enc_wal(events.drop_first());
        let rec = enc_record(p);
        assert(event_wf(e0));
        assert(s.len() - i == rec.len() + rest.len());
        lemma_split(s, i, rec, rest);
        // Take the record apart: checksum word, length word, payload.
        assert(rec == (u32_le(crc32_of(p)) + u32_le(p.len() as u32)) + p);
        lemma_split(s, i, u32_le(crc32_of(p)) + u32_le(p.len() as u32), p);
        lemma_split(s, i, u32_le(crc32_of(p)), u32_le(p.len() as u32));
        lemma_parse_u32(s, i, crc32_of(p));
        lemma_parse_u32(s, i + 4, p.len() as u32);
        crate::event_codec::lemma_event_round_trip(e0);
        lemma_parse_wal_suffix(s, i + rec.len(), events.drop_first());
        assert(seq![e0] + events.drop_first() =~= events);
    }
}

/// Composition under `Ok`: the events already read go in front.
pub open spec fn wal_cons(pre: Seq<EventView>, r: Result<Seq<EventView>, WalErrKind>) -> Result<
    Seq<EventView>,
    WalErrKind,
> {
    match r {
        Ok(evs) => Ok(pre + evs),
        Err(k) => Err(k),
    }
}

/// A completely-read buffer keeps reading the same way when bytes follow
/// it: the old events come first, then whatever the new bytes yield.
#[verifier::rlimit(100)]
#[verifier::spinoff_prover]
pub proof fn lemma_parse_wal_shift(s: Seq<u8>, t: Seq<u8>, i: int, events: Seq<EventView>)
    requires
        0 <= i <= s.len(),
        parse_wal_at(s, i) == (Ok::<Seq<EventView>, WalErrKind>(events), s.len() as int),
    ensures
        parse_wal_at(s + t, i) == (
            wal_cons(events, parse_wal_at(s + t, s.len() as int).0),
            parse_wal_at(s + t, s.len() as int).1,
        ),
    decreases s.len() - i,
{
    let u = s + t;
    if i == s.len() {
        assert(events =~= Seq::<EventView>::empty());
        match parse_wal_at(u, i).0 {
            Ok(evs) => {
                assert(events + evs =~= evs);
            },
            Err(_) => {},
        }
    } else {
        // Reading did not stop at `i`, so a whole record sits here.
        assert(i + 8 <= s.len());
        let crc = u32_of_le(s[i], s[i + 1], s[i + 2], s[i + 3]);
        let len = u32_of_le(s[i + 4], s[i + 5], s[i + 6], s[i + 7]) as int;
        assert(i + 8 + len <= s.len());
        let payload = s.subrange(i + 8, i + 8 + len);
        assert(crc32_of(payload) == crc);
        let e0 = match decoded_event(payload) {
            Some(e) => e,
            None => arbitrary(),
        };
        assert(decoded_event(payload) == Some(e0));
        let rec = parse_wal_at(s, i + 8 + len);
        assert(rec.1 == s.len());
        let rest = match rec.0 {
            Ok(evs) => evs,
            Err(_) => arbitrary(),
        };
        assert(rec.0 == Ok::<Seq<EventView>, WalErrKind>(rest));
        assert(events == seq![e0] + rest);
        // The same record reads identically in the longer buffer.
        assert(u[i] == s[i] && u[i + 1] == s[i + 1] && u[i + 2] == s[i + 2] && u[i + 3] == s[i
            + 3]);
        assert(u[i + 4] == s[i + 4] && u[i + 5] == s[i + 5] && u[i + 6] == s[i + 6] && u[i + 7]
            == s[i + 7]);
        assert(u.subrange(i + 8, i + 8 + len) =~= payload);
        lemma_parse_wal_shift(s, t, i + 8 + len, rest);
        let tail = parse_wal_at(u, s.len() as int);
        match tail.0 {
            Ok(evs2) => {
                assert(seq![e0] + (rest + evs2) =~= (seq![e0] + rest) + evs2);
            },
            Err(_) => {},
        }
    }
}

/// Cutting the buffer at the point where reading stopped changes nothing
/// about what was read.
#[verifier::rlimit(100)]
#[verifier::spinoff_prover]
pub proof fn lemma_parse_wal_truncate(s: Seq<u8>, i: int, events: Seq<EventView>, c: int)
    requires
        0 <= i <= c <= s.len(),
        parse_wal_at(s, i) == (Ok::<Seq<EventView>, WalErrKind>(events), c),
    ensures
        parse_wal_at(s.subrange(0, c), i) == (Ok::<Seq<EventView>, WalErrKind>(events), c),
    decreases s.len() - i,
{
    let u = s.subrange(0, c);
    if !(0 <= i && i + 8 <= s.len()) {
        assert(c == i);
        assert(events =~= Seq::<EventView>::empty());
    } else {
        let crc = u32_of_le(s[i], s[i + 1], s[i + 2], s[i + 3]);
        let len = u32_of_le(s[i + 4], s[i + 5], s[i + 6], s[i + 7]) as int;
        if i + 8 + len > s.len() {
            assert(c == i);
            assert(events =~= Seq::<EventView>::empty());
        } else {
            let payload = s.subrange(i + 8, i + 8 + len);
            if crc32_of(payload) == crc && decoded_event(payload) is Some {
                let e0 = match decoded_event(payload) {
                    Some(e) => e,
                    None => arbitrary(),
                };
                let rec = parse_wal_at(s, i + 8 + len);
                lemma_parse_wal_stop_ge(s, i + 8 + len);
                assert(rec.1 == c && i + 8 + len <= c);
                let rest = match rec.0 {
                    Ok(evs) => evs,
                    Err(_) => arbitrary(),
                };
                assert(rec.0 == Ok::<Seq<EventView>, WalErrKind>(rest));
                assert(u[i] == s[i] && u[i + 1] == s[i + 1] && u[i + 2] == s[i + 2] && u[i + 3]
                    == s[i + 3]);
                assert(u[i + 4] == s[i + 4] && u[i + 5] == s[i + 5] && u[i + 6] == s[i + 6] && u[i
                    + 7] == s[i + 7]);
                assert(u.subrange(i + 8, i + 8 + len) =~= payload);
                lemma_parse_wal_truncate(s, i + 8 + len, rest, c);
            } else {
                // Reading would have failed, not finished.
                assert(false);
            }
        }
    }
}

/// For any events appended in order, replaying the log's bytes yields
/// exactly those events, with no error.
pub proof fn lemma_wal_round_trip(events: Seq<EventView>)
    requires
        wal_events_wf(events),
    ensures
        parse_wal(enc_wal(events)) == Ok::<Seq<EventView>, WalErrKind>(events),
        parse_wal_at(enc_wal(events), 0).1 == enc_wal(events).len(),
{
    let s = enc_wal(events);
    assert(s.subrange(0, s.len() as int) =~= s);
    lemma_parse_wal_suffix(s, 0, events);
}

/// Where record `i` begins inside the encoded log.
pub open spec fn wal_offset(events: Seq<EventView>, i: int) -> int
    decreases i,
{
    if i <= 0 {
        0
    } else {
        enc_record(enc_event(events[0])).len() + wal_offset(events.drop_first(), i - 1)
    }
}

/// Every record begins inside the log and fits before its end.
proof fn lemma_wal_offset_bounds(events: Seq<EventView>, i: int)
    requires
        0 <= i < events.len(),
    ensures
        0 <= wal_offset(events, i),
        wal_offset(events, i) + enc_record(enc_event(events[i])).len() <= enc_wal(events).len(),
    decreases i,
{
    if i == 0 {
        assert(enc_wal(events) == enc_record(enc_event(events[0])) + enc_wal(
            events.drop_first(),
        ));
    } else {
        lemma_wal_offset_bounds(events.drop_first(), i - 1);
        assert(events.drop_first()[i - 1] == events[i]);
        assert(enc_wal(events) == enc_record(enc_event(events[0])) + enc_wal(
            events.drop_first(),
        ));
    }
}

/// Four little-endian bytes other than a value's own spell a different
/// value.
proof fn lemma_u32_le_injective(b0: u8, b1: u8, b2: u8, b3: u8, n: u32)
    requires
        u32_of_le(b0, b1, b2, b3) == n,
    ensures
        seq![b0, b1, b2, b3] =~= u32_le(n),
{
    assert(((b0 as u32) | ((b1 as u32) << 8) | ((b2 as u32) << 16) | ((b3 as u32) << 24) == n)
        ==> (b0 == (n & 0xff) as u8 && b1 == ((n >> 8) & 0xff) as u8 && b2 == ((n >> 16)
        & 0xff) as u8 && b3 == ((n >> 24) & 0xff) as u8)) by (bit_vector);
}

/// A log whose bytes agree with the records of `events` everywhere but in
/// the stored checksum word of record `i`, where they disagree, replays
/// as corrupt from offset `b` on.
#[verifier::rlimit(100)]
#[verifier::spinoff_prover]
proof fn lemma_parse_wal_crc_at(s: Seq<u8>, b: int, events: Seq<EventView>, i: int)
    requires
        wal_events_wf(events),
        0 <= i < events.len(),
        0 <= b,
        s.len() - b == enc_wal(events).len(),
        forall|k: int|
            b <= k < s.len() && !(b + wal_offset(events, i) <= k < b + wal_offset(events, i)
                + 4) ==> s[k] == enc_wal(events)[k - b],
        s.subrange(b + wal_offset(events, i), b + wal_offset(events, i) + 4) != u32_le(
            crc32_of(enc_event(events[i])),
        ),
    ensures
        parse_wal_at(s, b).0 == Err::<Seq<EventView>, WalErrKind>(WalErrKind::Corrupt),
    decreases i,
{
    let e0 = events[0];
    let p = enc_event(e0);
    let rec = enc_record(p);
    assert(event_wf(e0));
    assert(enc_wal(events) == rec + enc_wal(events.drop_first()));
    lemma_wal_offset_bounds(events, i);
    if i == 0 {
        // The len word and payload are intact; the checksum word is not.
        assert(rec == (u32_le(crc32_of(p)) + u32_le(p.len() as u32)) + p);
        assert forall|m: int| 4 <= m < rec.len() implies s[b + m] == rec[m] by {
            assert(s[b + m] == enc_wal(events)[m]);
        }
        assert(s[b + 4] == u32_le(p.len() as u32)[0]);
        assert(s[b + 5] == u32_le(p.len() as u32)[1]);
        assert(s[b + 6] == u32_le(p.len() as u32)[2]);
        assert(s[b + 7] == u32_le(p.len() as u32)[3]);
        crate::codec::lemma_u32_round(p.len() as u32);
        assert(u32_of_le(s[b + 4], s[b + 5], s[b + 6], s[b + 7]) == p.len() as u32);
        assert(s.subrange(b + 8, b + 8 + p.len()) =~= p) by {
            assert forall|m: int| 0 <= m < p.len() implies s[b + 8 + m] == p[m] by {
                assert(s[b + 8 + m] == rec[8 + m]);
                assert(rec[8 + m] == p[m]);
            }
        }
        let crc_read = u32_of_le(s[b], s[b + 1], s[b + 2], s[b + 3]);
        assert(crc_read != crc32_of(p)) by {
            if crc_read == crc32_of(p) {
                lemma_u32_le_injective(s[b], s[b + 1], s[b + 2], s[b + 3], crc32_of(p));
                assert(s.subrange(b, b + 4) =~= seq![s[b], s[b + 1], s[b + 2], s[b + 3]]);
            }
        }
    } else {
        // The first record is intact: it parses, and reading moves on to
        // the altered record further in.
        assert(wal_offset(events, i) == rec.len() + wal_offset(events.drop_first(), i - 1));
        assert(0 <= wal_offset(events.drop_first(), i - 1)) by {
            lemma_wal_offset_bounds(events.drop_first(), i - 1);
        }
        assert(s.subrange(b, b + rec.len()) =~= rec) by {
            assert forall|m: int| 0 <= m < rec.len() implies s[b + m] == rec[m] by {
                assert(s[b + m] == enc_wal(events)[m]);
            }
        }
        assert(rec == (u32_le(crc32_of(p)) + u32_le(p.len() as u32)) + p);
        lemma_split(s, b, u32_le(crc32_of(p)) + u32_le(p.len() as u32), p);
        lemma_split(s, b, u32_le(crc32_of(p)), u32_le(p.len() as u32));
        lemma_parse_u32(s, b, crc32_of(p));
        lemma_parse_u32(s, b + 4, p.len() as u32);
        crate::event_codec::lemma_event_round_trip(e0);
        let b2 = b + rec.len();
        assert forall|k: int|
            b2 <= k < s.len() && !(b2 + wal_offset(events.drop_first(), i - 1) <= k < b2
                + wal_offset(events.drop_first(), i - 1) + 4) implies s[k] == enc_wal(
            events.drop_first(),
        )[k - b2] by {
            assert(s[k] == enc_wal(events)[k - b]);
            assert(enc_wal(events)[k - b] == enc_wal(events.drop_first())[k - b - rec.len()]);
        }
        assert(s.subrange(b2 + wal_offset(events.drop_first(), i - 1), b2 + wal_offset(
            events.drop_first(),
            i - 1,
        ) + 4) =~= s.subrange(b + wal_offset(events, i), b + wal_offset(events, i) + 4));
        assert(events.drop_first()[i - 1] == events[i]);
        lemma_parse_wal_crc_at(s, b2, events.drop_first(), i - 1);
    }
}

/// Altering the four stored checksum bytes of any record — so that they
/// no longer spell its payload's checksum — makes replay refuse the whole
/// log as corrupt: the half of checksum detection that rests on the
/// format alone. That a flipped payload bit changes the checksum itself
/// is a property of the checksum function that no contract here states.
pub proof fn lemma_wal_crc_corruption(s: Seq<u8>, events: Seq<EventView>, i: int)
    requires
        wal_events_wf(events),
        0 <= i < events.len(),
        s.len() == enc_wal(events).len(),
        forall|k: int|
            0 <= k < s.len() && !(wal_offset(events, i) <= k < wal_offset(events, i) + 4) ==> s[k]
                == enc_wal(events)[k],
        s.subrange(wal_offset(events, i), wal_offset(events, i) + 4) != u32_le(
            crc32_of(enc_event(events[i])),
        ),
    ensures
        parse_wal(s) == Err::<Seq<EventView>, WalErrKind>(WalErrKind::Corrupt),
{
    lemma_parse_wal_crc_at(s, 0, events, i);
}

/// A record cut short anywhere before its end reads as a clean stop.
#[verifier::spinoff_prover]
proof fn lemma_parse_wal_torn_record(u: Seq<u8>, m: int, payload: Seq<u8>, k: int)
    requires
        0 <= m,
        payload.len() <= u32::MAX,
        0 <= k < enc_record(payload).len(),
        m + k == u.len(),
        u.subrange(m, u.len() as int) == enc_record(payload).subrange(0, k),
    ensures
        parse_wal_at(u, m) == (Ok::<Seq<EventView>, WalErrKind>(Seq::empty()), m),
{
    let rec = enc_record(payload);
    // The tear falls inside the header or inside the payload.
    if k < 8 {
        assert(m + 8 > u.len());
    } else {
        assert forall|j: int| 0 <= j < 8 implies u[m + j] == rec[j] by {
            assert(u[m + j] == u.subrange(m, u.len() as int)[j]);
            assert(rec.subrange(0, k)[j] == rec[j]);
        }
        assert(rec == (u32_le(crc32_of(payload)) + u32_le(payload.len() as u32)) + payload);
        assert(rec[4] == u32_le(payload.len() as u32)[0]);
        assert(rec[5] == u32_le(payload.len() as u32)[1]);
        assert(rec[6] == u32_le(payload.len() as u32)[2]);
        assert(rec[7] == u32_le(payload.len() as u32)[3]);
        crate::codec::lemma_u32_round(payload.len() as u32);
        assert(u32_of_le(u[m + 4], u[m + 5], u[m + 6], u[m + 7]) == payload.len() as u32);
        assert(m + 8 + payload.len() > u.len());
    }
}

/// Truncating the last record anywhere before its end makes replay yield
/// all prior records and no error: a torn tail was never durable.
#[verifier::rlimit(100)]
#[verifier::spinoff_prover]
pub proof fn lemma_wal_torn_tail(events: Seq<EventView>, payload: Seq<u8>, k: int)
    requires
        wal_events_wf(events),
        payload.len() <= u32::MAX,
        0 <= k < enc_record(payload).len(),
    ensures
        parse_wal(enc_wal(events) + enc_record(payload).subrange(0, k)) == Ok::<
            Seq<EventView>,
            WalErrKind,
        >(events),
{
    let s = enc_wal(events);
    let rec = enc_record(payload);
    let t = rec.subrange(0, k);
    let u = s + t;
    let m = s.len() as int;
    assert(parse_wal_at(s, 0) == (Ok::<Seq<EventView>, WalErrKind>(events), m)) by {
        assert(s.subrange(0, s.len() as int) =~= s);
        lemma_parse_wal_suffix(s, 0, events);
    }
    assert(parse_wal_at(u, m) == (Ok::<Seq<EventView>, WalErrKind>(Seq::empty()), m)) by {
        assert(u.subrange(m, u.len() as int) =~= t);
        lemma_parse_wal_torn_record(u, m, payload, k);
    }
    lemma_parse_wal_shift(s, t, 0, events);
    assert(events + Seq::<EventView>::empty() =~= events);
}


// ---------------------------------------------------------------------------
// Replaying arbitrary bytes.
// ---------------------------------------------------------------------------

/// Read every well-formed record from the front of a byte image, in
/// order, and say where reading stopped. A torn tail is a clean stop; an
/// interior checksum mismatch is a storage error; an undecodable payload
/// is a serialization error.
#[verifier::rlimit(100)]
#[verifier::spinoff_prover]
pub fn replay_bytes(data: &[u8]) -> (r: Result<(Vec<Event>, usize), Error>)
    ensures
        r matches Ok((evs, c)) ==> c <= data@.len() && parse_wal_at(data@, 0) == (
            Ok::<Seq<EventView>, WalErrKind>(evs.deep_view()),
            c as int,
        ),
        r matches Err(e) ==> {
            &&& parse_wal_at(data@, 0).0 is Err
            &&& (parse_wal_at(data@, 0).0 == Err::<Seq<EventView>, WalErrKind>(
                WalErrKind::Corrupt,
            ) ==> e is Storage)
            &&& (parse_wal_at(data@, 0).0 == Err::<Seq<EventView>, WalErrKind>(
                WalErrKind::Undecodable,
            ) ==> e is Serialization)
        },
{
    let mut acc: Vec<Event> = Vec::new();
    let mut cur: usize = 0;
    proof {
        assert(acc.deep_view() =~= Seq::<EventView>::empty());
        match parse_wal_at(data@, 0).0 {
            Ok(evs) => {
                assert(Seq::<EventView>::empty() + evs =~= evs);
            },
            Err(_) => {},
        }
    }
    while data.len() - cur >= 8
        invariant
            cur <= data@.len(),
            parse_wal_at(data@, 0) == (
                wal_cons(acc.deep_view(), parse_wal_at(data@, cur as int).0),
                parse_wal_at(data@, cur as int).1,
            ),
        decreases data@.len() - cur,
    {
        let crc = read_u32_le(data, cur);
        let len = read_u32_le(data, cur + 4) as usize;
        proof {
            assert(crc == u32_of_le(data@[cur as int], data@[cur + 1], data@[cur + 2], data@[cur + 3]));
            assert(len == u32_of_le(data@[cur + 4], data@[cur + 5], data@[cur + 6], data@[cur + 7]));
        }
        if len > data.len() - (cur + 8) {
            // A torn tail: the payload never made it to the end.
            return Ok((acc, cur));
        }
        let payload = slice_subrange(data, cur + 8, cur + 8 + len);
        let actual = crc32(payload);
        if actual != crc {
            return Err(Error::Storage("WAL CRC mismatch".to_owned()));
        }
        let ghost pre = acc.deep_view();
        match decode_event(payload) {
            Ok(ev) => {
                proof {
                    let m = parse_wal_at(data@, cur + 8 + len);
                    match m.0 {
                        Ok(evs) => {
                            assert(pre + (seq![ev@] + evs) =~= pre.push(ev@) + evs);
                        },
                        Err(_) => {},
                    }
                }
                acc.push(ev);
                proof {
                    assert(acc.deep_view() =~= pre.push(ev@));
                }
                cur = cur + 8 + len;
            },
            Err(_) => {
                return Err(Error::Serialization("undecodable record in the WAL".to_owned()));
            },
        }
    }
    proof {
        assert(parse_wal_at(data@, cur as int) == (
            Ok::<Seq<EventView>, WalErrKind>(Seq::empty()),
            cur as int,
        ));
        assert(acc.deep_view() + Seq::<EventView>::empty() =~= acc.deep_view());
    }
    Ok((acc, cur))
}

// ---------------------------------------------------------------------------
// The write-ahead log as a capability.
// ---------------------------------------------------------------------------

/// What any write-ahead log promises: appended events come back from
/// replay, in order; clearing empties it.
pub trait WriteAheadLog: Sized {
    /// The events the log holds, in append order.
    spec fn wal_events(&self) -> Seq<EventView>;

    /// The log is in working order.
    spec fn wal_inv(&self) -> bool;

    /// Append one event to the log.
    fn append(&mut self, event: &Event) -> (r: Result<(), Error>)
        requires
            old(self).wal_inv(),
        ensures
            final(self).wal_inv(),
            r is Ok ==> final(self).wal_events() == old(self).wal_events().push(event@),
            r is Err ==> final(self).wal_events() == old(self).wal_events() && !event_wf(event@),
    ;

    /// Flush buffered data so earlier appends survive a crash.
    fn flush(&mut self) -> (r: Result<(), Error>)
        requires
            old(self).wal_inv(),
        ensures
            final(self).wal_inv(),
            final(self).wal_events() == old(self).wal_events(),
            r is Ok,
    ;

    /// Read back every event, in append order.
    fn replay(&self) -> (r: Result<Vec<Event>, Error>)
        requires
            self.wal_inv(),
        ensures
            r matches Ok(evs) && evs.deep_view() == self.wal_events(),
    ;

    /// Empty the log after a checkpoint.
    fn clear(&mut self) -> (r: Result<(), Error>)
        requires
            old(self).wal_inv(),
        ensures
            final(self).wal_inv(),
            final(self).wal_events() == Seq::<EventView>::empty(),
            r is Ok,
    ;
}

/// A log that holds its events as values, for testing and for volatile
/// journals.
pub struct InMemoryWAL {
    events: Vec<Event>,
}

impl InMemoryWAL {
    /// An empty log.
    pub fn new() -> (r: Self)
        ensures
            r.wal_inv(),
            r.wal_events() == Seq::<EventView>::empty(),
    {
        let r = InMemoryWAL { events: Vec::new() };
        proof {
            assert(r.events.deep_view() =~= Seq::<EventView>::empty());
        }
        r
    }
}

impl WriteAheadLog for InMemoryWAL {
    closed spec fn wal_events(&self) -> Seq<EventView> {
        self.events.deep_view()
    }

    closed spec fn wal_inv(&self) -> bool {
        true
    }

    fn append(&mut self, event: &Event) -> (r: Result<(), Error>) {
        let ghost pre = self.events.deep_view();
        self.events.push(event.clone());
        proof {
            assert(self.events.deep_view() =~= pre.push(event@));
        }
        Ok(())
    }

    fn flush(&mut self) -> (r: Result<(), Error>) {
        Ok(())
    }

    fn replay(&self) -> (r: Result<Vec<Event>, Error>) {
        let mut out: Vec<Event> = Vec::new();
        let mut i: usize = 0;
        while i < self.events.len()
            invariant
                i <= self.events@.len(),
                out@.len() == i,
                forall|k: int| 0 <= k < i ==> out@[k]@ == self.events@[k]@,
            decreases self.events@.len() - i,
        {
            out.push(self.events[i].clone());
            i += 1;
        }
        proof {
            assert(out.deep_view() =~= self.events.deep_view());
        }
        Ok(out)
    }

    fn clear(&mut self) -> (r: Result<(), Error>) {
        self.events.clear();
        proof {
            assert(self.events.deep_view() =~= Seq::<EventView>::empty());
        }
        Ok(())
    }
}

/// The byte image of an on-disk WAL file. The log's records live in
/// `data` exactly as they would on disk; the surrounding program reads
/// and writes the actual file and hands the bytes across.
pub struct FileWAL {
    data: Vec<u8>,
    events: Ghost<Seq<EventView>>,
}

impl FileWAL {
    /// An empty log image.
    pub fn new() -> (r: Self)
        ensures
            r.wal_inv(),
            r.wal_events() == Seq::<EventView>::empty(),
            r.byte_image() == Seq::<u8>::empty(),
    {
        FileWAL { data: Vec::new(), events: Ghost(Seq::empty()) }
    }

    /// The bytes as they stand on disk.
    pub closed spec fn byte_image(&self) -> Seq<u8> {
        self.data@
    }

    /// Adopt the bytes read back from a WAL file. A torn tail is cut off;
    /// interior corruption or an undecodable record is refused, as replay
    /// would refuse it.
    #[verifier::rlimit(100)]
    #[verifier::spinoff_prover]
    pub fn from_bytes(data: Vec<u8>) -> (r: Result<Self, Error>)
        ensures
            r matches Ok(w) ==> w.wal_inv() && parse_wal(data@) == Ok::<
                Seq<EventView>,
                WalErrKind,
            >(w.wal_events()),
            r is Err ==> parse_wal(data@) is Err,
    {
        match replay_bytes(data.as_slice()) {
            Ok((evs, c)) => {
                let mut d = data;
                d.truncate(c);
                proof {
                    lemma_parse_wal_truncate(data@, 0, evs.deep_view(), c as int);
                    assert(d@ =~= data@.subrange(0, c as int));
                }
                Ok(FileWAL { data: d, events: Ghost(evs.deep_view()) })
            },
            Err(e) => Err(e),
        }
    }

    /// Hand the byte image out, for the surrounding program to persist.
    pub fn bytes(&self) -> (r: &Vec<u8>)
        ensures
            r@ == self.byte_image(),
    {
        &self.data
    }
}

impl WriteAheadLog for FileWAL {
    closed spec fn wal_events(&self) -> Seq<EventView> {
        self.events@
    }

    closed spec fn wal_inv(&self) -> bool {
        parse_wal_at(self.data@, 0) == (
            Ok::<Seq<EventView>, WalErrKind>(self.events@),
            self.data@.len() as int,
        )
    }

    #[verifier::rlimit(100)]
    #[verifier::spinoff_prover]
    fn append(&mut self, event: &Event) -> (r: Result<(), Error>) {
        let payload = match encode_event(event) {
            Ok(p) => p,
            Err(e) => {
                return Err(e);
            },
        };
        let crc = crc32(payload.as_slice());
        let ghost old_data = self.data@;
        let ghost old_events = self.events@;
        push_u32_le(&mut self.data, crc);
        push_u32_le(&mut self.data, payload.len() as u32);
        self.data.extend_from_slice(payload.as_slice());
        proof {
            self.events = Ghost(old_events.push(event@));
            let rec = enc_record(enc_event(event@));
            let u = old_data + rec;
            assert(self.data@ =~= u);
            assert(parse_wal_at(u, old_data.len() as int) == (
                Ok::<Seq<EventView>, WalErrKind>(seq![event@]),
                u.len() as int,
            )) by {
                assert(seq![event@].drop_first() =~= Seq::<EventView>::empty());
                assert(enc_wal(seq![event@]) =~= rec) by {
                    assert(seq![event@].drop_first() =~= Seq::<EventView>::empty());
                    assert(enc_wal(Seq::<EventView>::empty()) == Seq::<u8>::empty());
                    assert(rec + Seq::<u8>::empty() =~= rec);
                }
                assert(u.subrange(old_data.len() as int, u.len() as int) =~= rec);
                assert(wal_events_wf(seq![event@]));
                lemma_parse_wal_suffix(u, old_data.len() as int, seq![event@]);
            }
            assert(parse_wal_at(u, 0) == (
                Ok::<Seq<EventView>, WalErrKind>(old_events.push(event@)),
                u.len() as int,
            )) by {
                lemma_parse_wal_shift(old_data, rec, 0, old_events);
                assert(old_events + seq![event@] =~= old_events.push(event@));
            }
        }
        Ok(())
    }

    fn flush(&mut self) -> (r: Result<(), Error>) {
        // The image is already complete; making it durable is the file
        // owner's part.
        Ok(())
    }

    fn replay(&self) -> (r: Result<Vec<Event>, Error>) {
        match replay_bytes(self.data.as_slice()) {
            Ok((evs, _)) => Ok(evs),
            Err(e) => {
                proof {
                    assert(false);
                }
                Err(e)
            },
        }
    }

    fn clear(&mut self) -> (r: Result<(), Error>) {
        self.data.clear();
        proof {
            self.events = Ghost(Seq::empty());
        }
        Ok(())
    }
}

} // verus!
