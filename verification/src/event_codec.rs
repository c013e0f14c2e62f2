//! The structured binary encoding of events used inside log records and
//! segment blocks, with a proved round trip.

use vstd::prelude::*;
use vstd::slice::{slice_subrange, slice_to_vec};
use vstd::utf8::{decode_utf8, valid_utf8};

use crate::codec::{
    enc_bytes, enc_str, i64_le, parse_bytes, parse_i64, parse_str, parse_u128, parse_u32, parse_u8,
    push_i64_le, push_u128_le, push_u32_le, read_i64_le, read_u128_le, read_u32_le, str_ok,
    u128_le, u32_le, lemma_parse_bytes, lemma_parse_i64, lemma_parse_str, lemma_parse_u128,
    lemma_parse_u32, lemma_parse_u8, lemma_split,
};
use crate::error::Error;
use crate::event::{Event, EventId, EventMetadata, EventPayload, EventView};
use crate::temporal::Timestamp;

verus! {

// ---------------------------------------------------------------------------
// The encoding, field by field.
// ---------------------------------------------------------------------------

/// Optional text: a presence byte, then the framed text.
pub open spec fn enc_opt_str(o: Option<Seq<char>>) -> Seq<u8> {
    match o {
        None => seq![0u8],
        Some(t) => seq![1u8] + enc_str(t),
    }
}

/// Optional 128-bit identifier: a presence byte, then the sixteen bytes.
pub open spec fn enc_opt_u128(o: Option<u128>) -> Seq<u8> {
    match o {
        None => seq![0u8],
        Some(n) => seq![1u8] + u128_le(n),
    }
}

/// The frames of each text in order, with no count in front.
pub open spec fn enc_str_seq(ts: Seq<Seq<char>>) -> Seq<u8>
    decreases ts.len(),
{
    if ts.len() == 0 {
        Seq::empty()
    } else {
        enc_str(ts[0]) + enc_str_seq(ts.drop_first())
    }
}

/// A tag list: its length as a `u32`, then each tag framed.
pub open spec fn enc_tags(ts: Seq<Seq<char>>) -> Seq<u8> {
    u32_le(ts.len() as u32) + enc_str_seq(ts)
}

/// The full encoding of an event: every field in a fixed order.
pub open spec fn enc_event(e: EventView) -> Seq<u8> {
    u128_le(e.id) + enc_str(e.event_type) + i64_le(e.timestamp) + i64_le(e.transaction_time)
        + enc_str(e.entity_id) + enc_opt_str(e.correlation_id) + enc_opt_u128(e.causation_id)
        + enc_opt_str(e.actor) + enc_tags(e.tags) + enc_bytes(e.payload_data) + enc_str(
        e.payload_format)
}

/// Whether an event fits the encoding: every variable-length field must
/// fit its `u32` length prefix, and so must the event as a whole.
pub open spec fn event_wf(e: EventView) -> bool {
    &&& str_ok(e.event_type)
    &&& str_ok(e.entity_id)
    &&& match e.correlation_id {
        Some(t) => str_ok(t),
        None => true,
    }
    &&& match e.actor {
        Some(t) => str_ok(t),
        None => true,
    }
    &&& e.tags.len() <= u32::MAX
    &&& forall|i: int| 0 <= i < e.tags.len() ==> str_ok(#[trigger] e.tags[i])
    &&& e.payload_data.len() <= u32::MAX
    &&& str_ok(e.payload_format)
    &&& enc_event(e).len() <= u32::MAX
}

// ---------------------------------------------------------------------------
// Parsing, field by field.
// ---------------------------------------------------------------------------

/// Read an optional text field at offset `i`.
pub open spec fn parse_opt_str(s: Seq<u8>, i: int) -> Option<(Option<Seq<char>>, int)> {
    match parse_u8(s, i) {
        Some((tag, j)) => if tag == 0 {
            Some((None, j))
        } else if tag == 1 {
            match parse_str(s, j) {
                Some((t, k)) => Some((Some(t), k)),
                None => None,
            }
        } else {
            None
        },
        None => None,
    }
}

/// Read an optional 128-bit identifier at offset `i`.
pub open spec fn parse_opt_u128(s: Seq<u8>, i: int) -> Option<(Option<u128>, int)> {
    match parse_u8(s, i) {
        Some((tag, j)) => if tag == 0 {
            Some((None, j))
        } else if tag == 1 {
            match parse_u128(s, j) {
                Some((n, k)) => Some((Some(n), k)),
                None => None,
            }
        } else {
            None
        },
        None => None,
    }
}

/// Read exactly `n` framed texts at offset `i`.
pub open spec fn parse_n_strs(s: Seq<u8>, i: int, n: nat) -> Option<(Seq<Seq<char>>, int)>
    decreases n,
{
    if n == 0 {
        Some((Seq::empty(), i))
    } else {
        match parse_str(s, i) {
            Some((t, j)) => match parse_n_strs(s, j, (n - 1) as nat) {
                Some((ts, k)) => Some((seq![t] + ts, k)),
                None => None,
            },
            None => None,
        }
    }
}

/// Read a counted tag list at offset `i`.
pub open spec fn parse_tags(s: Seq<u8>, i: int) -> Option<(Seq<Seq<char>>, int)> {
    match parse_u32(s, i) {
        Some((n, j)) => parse_n_strs(s, j, n as nat),
        None => None,
    }
}

/// Read a whole event at offset `i`.
pub open spec fn parse_event(s: Seq<u8>, i: int) -> Option<(EventView, int)> {
    match parse_u128(s, i) {
        Some((id, i1)) => match parse_str(s, i1) {
            Some((event_type, i2)) => match parse_i64(s, i2) {
                Some((timestamp, i3)) => match parse_i64(s, i3) {
                    Some((transaction_time, i4)) => match parse_str(s, i4) {
                        Some((entity_id, i5)) => match parse_opt_str(s, i5) {
                            Some((correlation_id, i6)) => match parse_opt_u128(s, i6) {
                                Some((causation_id, i7)) => match parse_opt_str(s, i7) {
                                    Some((actor, i8)) => match parse_tags(s, i8) {
                                        Some((tags, i9)) => match parse_bytes(s, i9) {
                                            Some((payload_data, i10)) => match parse_str(s, i10) {
                                                Some((payload_format, i11)) => Some(
                                                    (
                                                        EventView {
                                                            id,
                                                            event_type,
                                                            timestamp,
                                                            transaction_time,
                                                            entity_id,
                                                            correlation_id,
                                                            causation_id,
                                                            actor,
                                                            tags,
                                                            payload_data,
                                                            payload_format,
                                                        },
                                                        i11,
                                                    ),
                                                ),
                                                None => None,
                                            },
                                            None => None,
                                        },
                                        None => None,
                                    },
                                    None => None,
                                },
                                None => None,
                            },
                            None => None,
                        },
                        None => None,
                    },
                    None => None,
                },
                None => None,
            },
            None => None,
        },
        None => None,
    }
}

/// The event spelled by a byte string, when the whole string is one
/// well-formed encoding and nothing trails it. Opaque: everything the
/// rest of the crate needs of it comes through `decode_event` and
/// `lemma_event_round_trip`.
#[verifier::opaque]
pub open spec fn decoded_event(s: Seq<u8>) -> Option<EventView> {
    match parse_event(s, 0) {
        Some((e, n)) => if n == s.len() {
            Some(e)
        } else {
            None
        },
        None => None,
    }
}

// ---------------------------------------------------------------------------
// Round trips, field by field and for the whole event.
// ---------------------------------------------------------------------------

pub proof fn lemma_parse_opt_str(s: Seq<u8>, i: int, o: Option<Seq<char>>)
    requires
        0 <= i,
        match o {
            Some(t) => str_ok(t),
            None => true,
        },
        i + enc_opt_str(o).len() <= s.len(),
        s.subrange(i, i + enc_opt_str(o).len()) == enc_opt_str(o),
    ensures
        parse_opt_str(s, i) == Some((o, i + enc_opt_str(o).len())),
{
    match o {
        None => {
            lemma_parse_u8(s, i, 0);
        },
        Some(t) => {
            lemma_split(s, i, seq![1u8], enc_str(t));
            lemma_parse_u8(s, i, 1);
            lemma_parse_str(s, i + 1, t);
        },
    }
}

pub proof fn lemma_parse_opt_u128(s: Seq<u8>, i: int, o: Option<u128>)
    requires
        0 <= i,
        i + enc_opt_u128(o).len() <= s.len(),
        s.subrange(i, i + enc_opt_u128(o).len()) == enc_opt_u128(o),
    ensures
        parse_opt_u128(s, i) == Some((o, i + enc_opt_u128(o).len())),
{
    match o {
        None => {
            lemma_parse_u8(s, i, 0);
        },
        Some(n) => {
            lemma_split(s, i, seq![1u8], u128_le(n));
            lemma_parse_u8(s, i, 1);
            lemma_parse_u128(s, i + 1, n);
        },
    }
}

pub proof fn lemma_parse_n_strs(s: Seq<u8>, i: int, ts: Seq<Seq<char>>)
    requires
        0 <= i,
        forall|k: int| 0 <= k < ts.len() ==> str_ok(#[trigger] ts[k]),
        i + enc_str_seq(ts).len() <= s.len(),
        s.subrange(i, i + enc_str_seq(ts).len()) == enc_str_seq(ts),
    ensures
        parse_n_strs(s, i, ts.len()) == Some((ts, i + enc_str_seq(ts).len())),
    decreases ts.len(),
{
    if ts.len() == 0 {
        assert(parse_n_strs(s, i, 0) == Some((Seq::<Seq<char>>::empty(), i)));
        assert(ts =~= Seq::<Seq<char>>::empty());
    } else {
        let head = enc_str(ts[0]);
        let rest = enc_str_seq(ts.drop_first());
        lemma_split(s, i, head, rest);
        lemma_parse_str(s, i, ts[0]);
        lemma_parse_n_strs(s, i + head.len(), ts.drop_first());
        assert(seq![ts[0]] + ts.drop_first() =~= ts);
    }
}

pub proof fn lemma_parse_tags(s: Seq<u8>, i: int, ts: Seq<Seq<char>>)
    requires
        0 <= i,
        ts.len() <= u32::MAX,
        forall|k: int| 0 <= k < ts.len() ==> str_ok(#[trigger] ts[k]),
        i + enc_tags(ts).len() <= s.len(),
        s.subrange(i, i + enc_tags(ts).len()) == enc_tags(ts),
    ensures
        parse_tags(s, i) == Some((ts, i + enc_tags(ts).len())),
{
    lemma_split(s, i, u32_le(ts.len() as u32), enc_str_seq(ts));
    lemma_parse_u32(s, i, ts.len() as u32);
    lemma_parse_n_strs(s, i + 4, ts);
}

/// Appending one more text extends the byte train at its end.
pub proof fn lemma_enc_str_seq_push(ts: Seq<Seq<char>>, t: Seq<char>)
    ensures
        enc_str_seq(ts.push(t)) == enc_str_seq(ts) + enc_str(t),
    decreases ts.len(),
{
    if ts.len() == 0 {
        assert(ts.push(t)[0] == t);
        assert(ts.push(t).drop_first() =~= Seq::<Seq<char>>::empty());
        assert(enc_str_seq(Seq::<Seq<char>>::empty()) == Seq::<u8>::empty());
        assert(enc_str_seq(ts.push(t)) == enc_str(t) + Seq::<u8>::empty());
        assert(enc_str(t) + Seq::<u8>::empty() =~= enc_str(t));
        assert(enc_str_seq(ts) == Seq::<u8>::empty());
        assert(Seq::<u8>::empty() + enc_str(t) =~= enc_str(t));
    } else {
        assert(ts.push(t).drop_first() =~= ts.drop_first().push(t));
        lemma_enc_str_seq_push(ts.drop_first(), t);
        assert(ts.push(t)[0] == ts[0]);
        assert(enc_str_seq(ts.push(t)) == enc_str(ts[0]) + (enc_str_seq(ts.drop_first())
            + enc_str(t)));
        assert(enc_str(ts[0]) + (enc_str_seq(ts.drop_first()) + enc_str(t)) =~= (enc_str(ts[0])
            + enc_str_seq(ts.drop_first())) + enc_str(t));
    }
}

/// Parsing a well-formed event encoding found inside a larger buffer
/// yields that event and stops right after it.
#[verifier::rlimit(100)]
#[verifier::spinoff_prover]
pub proof fn lemma_parse_event(s: Seq<u8>, i: int, e: EventView)
    requires
        0 <= i,
        event_wf(e),
        i + enc_event(e).len() <= s.len(),
        s.subrange(i, i + enc_event(e).len()) == enc_event(e),
    ensures
        parse_event(s, i) == Some((e, i + enc_event(e).len())),
{
    let f1 = u128_le(e.id);
    let f2 = enc_str(e.event_type);
    let f3 = i64_le(e.timestamp);
    let f4 = i64_le(e.transaction_time);
    let f5 = enc_str(e.entity_id);
    let f6 = enc_opt_str(e.correlation_id);
    let f7 = enc_opt_u128(e.causation_id);
    let f8 = enc_opt_str(e.actor);
    let f9 = enc_tags(e.tags);
    let f10 = enc_bytes(e.payload_data);
    let f11 = enc_str(e.payload_format);
    let e1 = f1;
    let e2 = e1 + f2;
    let e3 = e2 + f3;
    let e4 = e3 + f4;
    let e5 = e4 + f5;
    let e6 = e5 + f6;
    let e7 = e6 + f7;
    let e8 = e7 + f8;
    let e9 = e8 + f9;
    let e10 = e9 + f10;
    let e11 = e10 + f11;
    assert(enc_event(e) == e11);
    lemma_split(s, i, e10, f11);
    lemma_split(s, i, e9, f10);
    lemma_split(s, i, e8, f9);
    lemma_split(s, i, e7, f8);
    lemma_split(s, i, e6, f7);
    lemma_split(s, i, e5, f6);
    lemma_split(s, i, e4, f5);
    lemma_split(s, i, e3, f4);
    lemma_split(s, i, e2, f3);
    lemma_split(s, i, e1, f2);
    lemma_parse_u128(s, i, e.id);
    lemma_parse_str(s, i + e1.len(), e.event_type);
    lemma_parse_i64(s, i + e2.len(), e.timestamp);
    lemma_parse_i64(s, i + e3.len(), e.transaction_time);
    lemma_parse_str(s, i + e4.len(), e.entity_id);
    lemma_parse_opt_str(s, i + e5.len(), e.correlation_id);
    lemma_parse_opt_u128(s, i + e6.len(), e.causation_id);
    lemma_parse_opt_str(s, i + e7.len(), e.actor);
    lemma_parse_tags(s, i + e8.len(), e.tags);
    lemma_parse_bytes(s, i + e9.len(), e.payload_data);
    lemma_parse_str(s, i + e10.len(), e.payload_format);
}

/// Encoding an event and decoding the bytes gives the event back.
/// The law behind every replay and segment read below.
pub proof fn lemma_event_round_trip(e: EventView)
    requires
        event_wf(e),
    ensures
        decoded_event(enc_event(e)) == Some(e),
{
    reveal(decoded_event);
    let s = enc_event(e);
    assert(s.subrange(0, s.len() as int) =~= s);
    lemma_parse_event(s, 0, e);
}

// ---------------------------------------------------------------------------
// Executable encoding.
// ---------------------------------------------------------------------------

/// Append one length-framed text; refuse text whose UTF-8 form outgrows
/// the length prefix.
fn push_str(out: &mut Vec<u8>, s: &str) -> (r: bool)
    ensures
        r ==> str_ok(s@) && final(out)@ == old(out)@ + enc_str(s@),
        !r ==> !str_ok(s@) && final(out)@ == old(out)@,
{
    let bytes = s.as_bytes();
    if bytes.len() > u32::MAX as usize {
        return false;
    }
    push_u32_le(out, bytes.len() as u32);
    out.extend_from_slice(bytes);
    proof {
        assert(out@ =~= old(out)@ + enc_str(s@));
    }
    true
}

/// Append one length-framed byte string; refuse one that outgrows the
/// length prefix.
fn push_bytes(out: &mut Vec<u8>, b: &[u8]) -> (r: bool)
    ensures
        r ==> b@.len() <= u32::MAX && final(out)@ == old(out)@ + enc_bytes(b@),
        !r ==> b@.len() > u32::MAX && final(out)@ == old(out)@,
{
    if b.len() > u32::MAX as usize {
        return false;
    }
    push_u32_le(out, b.len() as u32);
    out.extend_from_slice(b);
    proof {
        assert(out@ =~= old(out)@ + enc_bytes(b@));
    }
    true
}

/// Encode an event into its byte form. Fails, with a serialization error,
/// exactly on an event some field of which outgrows its length prefix.
#[verifier::rlimit(100)]
#[verifier::spinoff_prover]
pub fn encode_event(e: &Event) -> (r: Result<Vec<u8>, Error>)
    ensures
        r matches Ok(v) ==> event_wf(e@) && v@ == enc_event(e@),
        r is Err ==> !event_wf(e@),
        r matches Err(err) ==> err is Serialization,
{
    let mut out: Vec<u8> = Vec::new();
    push_u128_le(&mut out, e.metadata.id.id);
    if !push_str(&mut out, e.metadata.event_type.as_str()) {
        return Err(Error::Serialization("event type does not fit its frame".to_owned()));
    }
    push_i64_le(&mut out, e.metadata.timestamp.nanos);
    push_i64_le(&mut out, e.metadata.transaction_time.nanos);
    if !push_str(&mut out, e.metadata.entity_id.as_str()) {
        return Err(Error::Serialization("entity id does not fit its frame".to_owned()));
    }
    let ghost before_corr = out@;
    match &e.metadata.correlation_id {
        None => out.push(0),
        Some(s) => {
            out.push(1);
            if !push_str(&mut out, s.as_str()) {
                return Err(Error::Serialization("correlation id does not fit its frame".to_owned(
                )));
            }
        },
    }
    proof {
        assert(out@ =~= before_corr + enc_opt_str(e@.correlation_id));
    }
    let ghost before_cause = out@;
    match &e.metadata.causation_id {
        None => out.push(0),
        Some(cid) => {
            out.push(1);
            push_u128_le(&mut out, cid.id);
        },
    }
    proof {
        assert(out@ =~= before_cause + enc_opt_u128(e@.causation_id));
    }
    let ghost before_actor = out@;
    match &e.metadata.actor {
        None => out.push(0),
        Some(s) => {
            out.push(1);
            if !push_str(&mut out, s.as_str()) {
                return Err(Error::Serialization("actor does not fit its frame".to_owned()));
            }
        },
    }
    proof {
        assert(out@ =~= before_actor + enc_opt_str(e@.actor));
    }
    if e.metadata.tags.len() > u32::MAX as usize {
        return Err(Error::Serialization("tag list does not fit its frame".to_owned()));
    }
    let ghost before_count = out@;
    push_u32_le(&mut out, e.metadata.tags.len() as u32);
    let ghost before_tags = out@;
    let tags = &e.metadata.tags;
    let mut k: usize = 0;
    while k < tags.len()
        invariant
            k <= tags@.len(),
            tags == &e.metadata.tags,
            tags@.len() <= u32::MAX,
            before_tags == before_count + u32_le(tags@.len() as u32),
            out@ == before_tags + enc_str_seq(tags.deep_view().subrange(0, k as int)),
            forall|j: int| 0 <= j < k ==> str_ok(#[trigger] tags.deep_view()[j]),
        decreases tags@.len() - k,
    {
        let ghost done = tags.deep_view().subrange(0, k as int);
        if !push_str(&mut out, tags[k].as_str()) {
            proof {
                assert(!str_ok(e@.tags[k as int]));
            }
            return Err(Error::Serialization("a tag does not fit its frame".to_owned()));
        }
        proof {
            lemma_enc_str_seq_push(done, tags.deep_view()[k as int]);
            assert(done.push(tags.deep_view()[k as int]) =~= tags.deep_view().subrange(
                0,
                k + 1 as int,
            ));
        }
        k += 1;
    }
    proof {
        assert(tags.deep_view().subrange(0, tags.deep_view().len() as int) =~= tags.deep_view());
        assert(out@ =~= before_count + enc_tags(e@.tags));
    }
    if !push_bytes(&mut out, e.payload.data.as_slice()) {
        return Err(Error::Serialization("payload does not fit its frame".to_owned()));
    }
    if !push_str(&mut out, e.payload.format.as_str()) {
        return Err(Error::Serialization("payload format does not fit its frame".to_owned()));
    }
    if out.len() > u32::MAX as usize {
        return Err(Error::Serialization("event does not fit its frame".to_owned()));
    }
    proof {
        assert(out@ =~= enc_event(e@));
    }
    Ok(out)
}

// ---------------------------------------------------------------------------
// Executable decoding.
// ---------------------------------------------------------------------------

/// Relies on std's `String::from_utf8`: it succeeds exactly on valid
/// UTF-8 input, and the string it returns spells those bytes.
#[verifier::external_body]
fn bytes_to_string(v: Vec<u8>) -> (r: Option<String>)
    ensures
        r matches Some(t) ==> valid_utf8(v@) && t@ == decode_utf8(v@),
        r is None ==> !valid_utf8(v@),
{
    String::from_utf8(v).ok()
}

/// Read one length-framed text from a byte slice.
fn read_str(s: &[u8], i: usize) -> (r: Option<(String, usize)>)
    requires
        i <= s@.len(),
    ensures
        r matches Some((t, j)) ==> parse_str(s@, i as int) == Some((t@, j as int)) && i <= j
            <= s@.len(),
        r is None ==> parse_str(s@, i as int) is None,
{
    if s.len() - i < 4 {
        return None;
    }
    let n = read_u32_le(s, i) as usize;
    let j = i + 4;
    if n > s.len() - j {
        return None;
    }
    let sub = slice_subrange(s, j, j + n);
    let v = slice_to_vec(sub);
    match bytes_to_string(v) {
        Some(t) => Some((t, j + n)),
        None => None,
    }
}

/// Read one length-framed byte string from a byte slice.
fn read_bytes(s: &[u8], i: usize) -> (r: Option<(Vec<u8>, usize)>)
    requires
        i <= s@.len(),
    ensures
        r matches Some((b, j)) ==> parse_bytes(s@, i as int) == Some((b@, j as int)) && i <= j
            <= s@.len(),
        r is None ==> parse_bytes(s@, i as int) is None,
{
    if s.len() - i < 4 {
        return None;
    }
    let n = read_u32_le(s, i) as usize;
    let j = i + 4;
    if n > s.len() - j {
        return None;
    }
    let sub = slice_subrange(s, j, j + n);
    Some((slice_to_vec(sub), j + n))
}

/// How a text already read joins the front of what `parse_n_strs` still
/// yields.
pub open spec fn cons_strs(pre: Seq<Seq<char>>, r: Option<(Seq<Seq<char>>, int)>) -> Option<
    (Seq<Seq<char>>, int),
> {
    match r {
        Some((ts, j)) => Some((pre + ts, j)),
        None => None,
    }
}

/// Decode an event from exactly the given bytes. Succeeds exactly when
/// the whole slice is one well-formed encoding.
pub fn decode_event(s: &[u8]) -> (r: Result<Event, Error>)
    ensures
        r matches Ok(ev) ==> decoded_event(s@) == Some(ev@),
        r is Err ==> decoded_event(s@) is None,
{
    proof {
        reveal(decoded_event);
    }
    if s.len() < 16 {
        return Err(Error::Serialization("event bytes end inside the identifier".to_owned()));
    }
    let id = read_u128_le(s, 0);
    let i1: usize = 16;
    let (event_type, i2) = match read_str(s, i1) {
        Some(p) => p,
        None => {
            return Err(Error::Serialization("bad event type field".to_owned()));
        },
    };
    if s.len() - i2 < 16 {
        return Err(Error::Serialization("event bytes end inside the times".to_owned()));
    }
    let timestamp = read_i64_le(s, i2);
    let i3 = i2 + 8;
    let transaction_time = read_i64_le(s, i3);
    let i4 = i3 + 8;
    let (entity_id, i5) = match read_str(s, i4) {
        Some(p) => p,
        None => {
            return Err(Error::Serialization("bad entity id field".to_owned()));
        },
    };
    let (correlation_id, i6) = match read_opt_str(s, i5) {
        Some(p) => p,
        None => {
            return Err(Error::Serialization("bad correlation id field".to_owned()));
        },
    };
    let (causation_id, i7) = match read_opt_u128(s, i6) {
        Some(p) => p,
        None => {
            return Err(Error::Serialization("bad causation id field".to_owned()));
        },
    };
    let (actor, i8) = match read_opt_str(s, i7) {
        Some(p) => p,
        None => {
            return Err(Error::Serialization("bad actor field".to_owned()));
        },
    };
    let (tags, i9) = match read_tags(s, i8) {
        Some(p) => p,
        None => {
            return Err(Error::Serialization("bad tag list".to_owned()));
        },
    };
    let (payload_data, i10) = match read_bytes(s, i9) {
        Some(p) => p,
        None => {
            return Err(Error::Serialization("bad payload field".to_owned()));
        },
    };
    let (payload_format, i11) = match read_str(s, i10) {
        Some(p) => p,
        None => {
            return Err(Error::Serialization("bad payload format field".to_owned()));
        },
    };
    if i11 != s.len() {
        return Err(Error::Serialization("bytes trail the event".to_owned()));
    }
    let ev = Event {
        metadata: EventMetadata {
            id: EventId { id },
            event_type,
            timestamp: Timestamp::from_nanos(timestamp),
            transaction_time: Timestamp::from_nanos(transaction_time),
            entity_id,
            correlation_id,
            causation_id: match causation_id {
                Some(c) => Some(EventId { id: c }),
                None => None,
            },
            actor,
            tags,
        },
        payload: EventPayload { data: payload_data, format: payload_format },
    };
    proof {
        assert(ev@ =~= match parse_event(s@, 0) {
            Some((v, _)) => v,
            None => ev@,
        });
    }
    Ok(ev)
}

/// Read an optional text field from a byte slice.
fn read_opt_str(s: &[u8], i: usize) -> (r: Option<(Option<String>, usize)>)
    requires
        i <= s@.len(),
    ensures
        r matches Some((o, j)) ==> parse_opt_str(s@, i as int) == Some((o.deep_view(), j as int))
            && i <= j <= s@.len(),
        r is None ==> parse_opt_str(s@, i as int) is None,
{
    if s.len() == i {
        return None;
    }
    let tag = s[i];
    if tag == 0 {
        Some((None, i + 1))
    } else if tag == 1 {
        match read_str(s, i + 1) {
            Some((t, j)) => Some((Some(t), j)),
            None => None,
        }
    } else {
        None
    }
}

/// Read an optional 128-bit identifier from a byte slice.
fn read_opt_u128(s: &[u8], i: usize) -> (r: Option<(Option<u128>, usize)>)
    requires
        i <= s@.len(),
    ensures
        r matches Some((o, j)) ==> parse_opt_u128(s@, i as int) == Some((o, j as int)) && i <= j
            <= s@.len(),
        r is None ==> parse_opt_u128(s@, i as int) is None,
{
    if s.len() == i {
        return None;
    }
    let tag = s[i];
    if tag == 0 {
        Some((None, i + 1))
    } else if tag == 1 {
        if s.len() - (i + 1) < 16 {
            return None;
        }
        let n = read_u128_le(s, i + 1);
        Some((Some(n), i + 17))
    } else {
        None
    }
}

/// Read a counted tag list from a byte slice.
fn read_tags(s: &[u8], i: usize) -> (r: Option<(Vec<String>, usize)>)
    requires
        i <= s@.len(),
    ensures
        r matches Some((ts, j)) ==> parse_tags(s@, i as int) == Some((ts.deep_view(), j as int))
            && i <= j <= s@.len(),
        r is None ==> parse_tags(s@, i as int) is None,
{
    if s.len() - i < 4 {
        return None;
    }
    let n = read_u32_le(s, i);
    let start = i + 4;
    let mut acc: Vec<String> = Vec::new();
    let mut cur: usize = start;
    let mut k: u32 = 0;
    proof {
        assert(acc.deep_view() =~= Seq::<Seq<char>>::empty());
        match parse_n_strs(s@, start as int, n as nat) {
            Some((ts, _)) => {
                assert(Seq::<Seq<char>>::empty() + ts =~= ts);
            },
            None => {},
        }
    }
    while k < n
        invariant
            k <= n,
            start <= cur <= s@.len(),
            i + 4 <= s@.len(),
            start == i + 4,
            parse_u32(s@, i as int) == Some((n, start as int)),
            cons_strs(acc.deep_view(), parse_n_strs(s@, cur as int, (n - k) as nat))
                == parse_n_strs(s@, start as int, n as nat),
        decreases n - k,
    {
        let ghost pre = acc.deep_view();
        let ghost m = (n - k) as nat;
        match read_str(s, cur) {
            Some((t, j)) => {
                proof {
                    // One framed text peels off the front of the count.
                    assert(parse_n_strs(s@, cur as int, m) == cons_strs(
                        seq![t@],
                        parse_n_strs(s@, j as int, (m - 1) as nat),
                    ));
                    assert(pre + seq![t@] =~= pre.push(t@));
                    match parse_n_strs(s@, j as int, (m - 1) as nat) {
                        Some((ts, jj)) => {
                            assert(pre + (seq![t@] + ts) =~= pre.push(t@) + ts);
                        },
                        None => {},
                    }
                }
                let ghost pre_pushed = pre.push(t@);
                acc.push(t);
                cur = j;
                proof {
                    assert(acc.deep_view() =~= pre_pushed);
                }
            },
            None => {
                proof {
                    assert(parse_n_strs(s@, cur as int, m) is None);
                }
                return None;
            },
        }
        k += 1;
    }
    proof {
        assert(k == n);
        assert(parse_n_strs(s@, cur as int, (n - k) as nat) == Some(
            (Seq::<Seq<char>>::empty(), cur as int),
        ));
        assert(acc.deep_view() + Seq::<Seq<char>>::empty() =~= acc.deep_view());
        assert(cons_strs(
            acc.deep_view(),
            Some((Seq::<Seq<char>>::empty(), cur as int)),
        ) == Some((acc.deep_view(), cur as int)));
        assert(parse_n_strs(s@, start as int, n as nat) == Some((acc.deep_view(), cur as int)));
        assert(parse_tags(s@, i as int) == Some((acc.deep_view(), cur as int)));
    }
    Some((acc, cur))
}

} // verus!

