//! The on-disk segment format: a 64-byte header followed by length-framed
//! compressed blocks of serialized events, guarded by a rolling checksum.

use vstd::prelude::*;
use vstd::slice::slice_subrange;

use crate::checksum::{crc32, crc32_of};
use crate::codec::{
    enc_bytes, i64_le, push_i64_le, push_u32_le, push_u64_le, read_i64_le, read_u32_le,
    read_u64_le, u16_le, u32_le, u32_of_le, u64_le, u64_of_le, lemma_i64_round, lemma_parse_u32,
    lemma_parse_u64, lemma_parse_i64, lemma_split,
};
use crate::compress::{zstd_compress, zstd_decompress, zstd_decompress_of};
use crate::error::Error;
use crate::event::{Event, EventView};
use crate::event_codec::{decoded_event, decode_event, enc_event, encode_event, event_wf};
use crate::temporal::Timestamp;

verus! {

/// Segment file format version.
pub const SEGMENT_VERSION: u8 = 1;

/// Size of the segment header in bytes.
pub const HEADER_SIZE: usize = 64;

/// Maximum events per segment before rotation.
pub const MAX_EVENTS_PER_SEGMENT: u32 = 1_000_000;

/// Maximum compressed segment size before rotation, in bytes.
pub const MAX_SEGMENT_SIZE: u64 = 100 * 1024 * 1024;

/// Number of buffered events that forces a block flush.
pub const SEGMENT_FLUSH_THRESHOLD: usize = 1000;

/// Flag bit: the segment's data blocks are compressed.
pub const FLAG_COMPRESSED: u8 = 0x01;

/// The magic bytes opening every segment file, spelling `TEMP0`.
pub open spec fn magic_bytes() -> Seq<u8> {
    seq![84u8, 69u8, 77u8, 80u8, 48u8]
}

/// A run of zero bytes.
pub open spec fn zero_bytes(n: nat) -> Seq<u8> {
    Seq::new(n, |i: int| 0u8)
}

/// The fixed-size header of a segment file.
#[derive(Debug, Clone, Copy, PartialEq, Eq, Structural)]
pub struct SegmentHeader {
    /// Unique segment identifier.
    pub segment_id: u64,
    /// Earliest valid time an event in the segment may carry.
    pub start_time: Timestamp,
    /// The end of the half-open valid-time range.
    pub end_time: Timestamp,
    /// Number of events in the segment.
    pub event_count: u32,
    /// Size of everything after the header, in bytes.
    pub compressed_size: u32,
    /// CRC-32 over the concatenated compressed block bytes.
    pub checksum: u32,
    /// Flag bits; bit 0 marks compressed data.
    pub flags: u8,
}

/// The 64 bytes a header occupies on disk, little-endian throughout.
pub open spec fn enc_header(h: SegmentHeader) -> Seq<u8> {
    magic_bytes() + seq![SEGMENT_VERSION] + u16_le(0) + u64_le(h.segment_id) + i64_le(
        h.start_time.nanos,
    ) + i64_le(h.end_time.nanos) + u32_le(h.event_count) + u32_le(h.compressed_size) + u32_le(
        h.checksum,
    ) + seq![h.flags] + zero_bytes(19)
}

/// The header read from the front of a byte image: the magic and version
/// must match; the reserved and padding bytes are ignored.
pub open spec fn parse_header(s: Seq<u8>) -> Option<SegmentHeader> {
    if s.len() < HEADER_SIZE {
        None
    } else if s.subrange(0, 5) != magic_bytes() {
        None
    } else if s[5] != SEGMENT_VERSION {
        None
    } else {
        Some(
            SegmentHeader {
                segment_id: u64_of_le(s.subrange(8, 16)),
                start_time: Timestamp { nanos: u64_of_le(s.subrange(16, 24)) as i64 },
                end_time: Timestamp { nanos: u64_of_le(s.subrange(24, 32)) as i64 },
                event_count: u32_of_le(s[32], s[33], s[34], s[35]),
                compressed_size: u32_of_le(s[36], s[37], s[38], s[39]),
                checksum: u32_of_le(s[40], s[41], s[42], s[43]),
                flags: s[44],
            },
        )
    }
}

impl SegmentHeader {
    /// A fresh header: the given identity and time bounds, zero counters.
    pub fn new(segment_id: u64, start_time: Timestamp, end_time: Timestamp) -> (r: Self)
        ensures
            r == (SegmentHeader {
                segment_id,
                start_time,
                end_time,
                event_count: 0,
                compressed_size: 0,
                checksum: 0,
                flags: 0,
            }),
    {
        SegmentHeader {
            segment_id,
            start_time,
            end_time,
            event_count: 0,
            compressed_size: 0,
            checksum: 0,
            flags: 0,
        }
    }

    /// Serialize the header into its 64 bytes.
    pub fn serialize(&self) -> (r: Vec<u8>)
        ensures
            r@ == enc_header(*self),
            r@.len() == HEADER_SIZE,
    {
        let mut out: Vec<u8> = Vec::new();
        out.push(84);
        out.push(69);
        out.push(77);
        out.push(80);
        out.push(48);
        proof {
            assert(out@ =~= magic_bytes());
        }
        out.push(SEGMENT_VERSION);
        out.push(0);
        out.push(0);
        proof {
            assert((0u16 & 0xff) as u8 == 0 && ((0u16 >> 8) & 0xff) as u8 == 0) by (bit_vector);
            assert(out@ =~= ((magic_bytes() + seq![SEGMENT_VERSION]) + u16_le(0)));
        }
        push_u64_le(&mut out, self.segment_id);
        push_i64_le(&mut out, self.start_time.nanos);
        push_i64_le(&mut out, self.end_time.nanos);
        push_u32_le(&mut out, self.event_count);
        push_u32_le(&mut out, self.compressed_size);
        push_u32_le(&mut out, self.checksum);
        out.push(self.flags);
        let ghost before_pad = out@;
        let mut k: usize = 0;
        while k < 19
            invariant
                k <= 19,
                out@ == before_pad + zero_bytes(k as nat),
            decreases 19 - k,
        {
            out.push(0);
            k += 1;
            proof {
                assert(out@ =~= before_pad + zero_bytes(k as nat));
            }
        }
        proof {
            assert(out@ =~= enc_header(*self));
        }
        out
    }

    /// Read a header back from bytes. Succeeds exactly on a buffer that
    /// is long enough and opens with the right magic and version.
    pub fn deserialize(buf: &[u8]) -> (r: Result<Self, Error>)
        ensures
            r matches Ok(h) ==> parse_header(buf@) == Some(h),
            r is Err ==> parse_header(buf@) is None,
    {
        if buf.len() < HEADER_SIZE {
            return Err(Error::Storage("segment header too short".to_owned()));
        }
        if !(buf[0] == 84 && buf[1] == 69 && buf[2] == 77 && buf[3] == 80 && buf[4] == 48) {
            proof {
                assert(buf@.subrange(0, 5) != magic_bytes());
            }
            return Err(Error::Storage("bad magic number in segment header".to_owned()));
        }
        proof {
            assert(buf@.subrange(0, 5) =~= magic_bytes());
        }
        if buf[5] != SEGMENT_VERSION {
            return Err(Error::Storage("unsupported segment version".to_owned()));
        }
        let segment_id = read_u64_le(buf, 8);
        let start_nanos = read_i64_le(buf, 16);
        let end_nanos = read_i64_le(buf, 24);
        let event_count = read_u32_le(buf, 32);
        let compressed_size = read_u32_le(buf, 36);
        let checksum = read_u32_le(buf, 40);
        let flags = buf[44];
        Ok(
            SegmentHeader {
                segment_id,
                start_time: Timestamp::from_nanos(start_nanos),
                end_time: Timestamp::from_nanos(end_nanos),
                event_count,
                compressed_size,
                checksum,
                flags,
            },
        )
    }
}

/// Writing a header and reading it back preserves every field: the
/// padding carries nothing.
#[verifier::rlimit(100)]
#[verifier::spinoff_prover]
pub proof fn lemma_header_round_trip(h: SegmentHeader)
    ensures
        parse_header(enc_header(h)) == Some(h),
{
    let s = enc_header(h);
    let f1 = magic_bytes();
    let f2 = seq![SEGMENT_VERSION];
    let f3 = u16_le(0);
    let f4 = u64_le(h.segment_id);
    let f5 = i64_le(h.start_time.nanos);
    let f6 = i64_le(h.end_time.nanos);
    let f7 = u32_le(h.event_count);
    let f8 = u32_le(h.compressed_size);
    let f9 = u32_le(h.checksum);
    let f10 = seq![h.flags];
    let f11 = zero_bytes(19);
    let e1 = f1;
    let e2 = e1 + f2;
    let e3 = e2 + f3;
    let e4 = e3 + f4;
    let e5 = e4 + f5;
    let e6 = e5 + f6;
    let e7 = e6 + f7;
    let e8 = e7 + f8;
    let e9 = e8 + f9;
    let e10 = e9 + f10;
    let e11 = e10 + f11;
    assert(s == e11);
    assert(s.subrange(0, s.len() as int) =~= s);
    lemma_split(s, 0, e10, f11);
    lemma_split(s, 0, e9, f10);
    lemma_split(s, 0, e8, f9);
    lemma_split(s, 0, e7, f8);
    lemma_split(s, 0, e6, f7);
    lemma_split(s, 0, e5, f6);
    lemma_split(s, 0, e4, f5);
    lemma_split(s, 0, e3, f4);
    lemma_split(s, 0, e2, f3);
    lemma_split(s, 0, e1, f2);
    assert(s.subrange(0, 5) == magic_bytes());
    assert(s[5] == SEGMENT_VERSION) by {
        assert(s.subrange(5, 6)[0] == SEGMENT_VERSION);
    }
    lemma_parse_u64(s, 8, h.segment_id);
    lemma_parse_i64(s, 16, h.start_time.nanos);
    lemma_parse_i64(s, 24, h.end_time.nanos);
    lemma_parse_u32(s, 32, h.event_count);
    lemma_parse_u32(s, 36, h.compressed_size);
    lemma_parse_u32(s, 40, h.checksum);
    assert(s[44] == h.flags) by {
        assert(s.subrange(44, 45)[0] == h.flags);
    }
    assert(s.subrange(8, 16) =~= s.subrange(8, 8 + 8int));
    assert(s.subrange(16, 24) =~= s.subrange(16, 16 + 8int));
    assert(s.subrange(24, 32) =~= s.subrange(24, 24 + 8int));
    lemma_i64_round(h.start_time.nanos);
    lemma_i64_round(h.end_time.nanos);
}


// ---------------------------------------------------------------------------
// The body: length-framed compressed blocks of length-framed events.
// ---------------------------------------------------------------------------

/// The ways a segment read can fail, by error kind.
pub enum SegErrKind {
    /// A block was cut short on disk.
    IoKind,
    /// Decompression failed, an event frame was truncated, or the
    /// checksum did not match.
    StorageKind,
    /// An event's bytes are no event encoding.
    SerializationKind,
}

/// The bytes of a train of blocks, each framed by its length.
pub open spec fn blocks_bytes(bs: Seq<Seq<u8>>) -> Seq<u8>
    decreases bs.len(),
{
    if bs.len() == 0 {
        Seq::empty()
    } else {
        u32_le(bs[0].len() as u32) + bs[0] + blocks_bytes(bs.drop_first())
    }
}

/// The blocks run together, in order: what the rolling checksum covers.
pub open spec fn concat_blocks(bs: Seq<Seq<u8>>) -> Seq<u8>
    decreases bs.len(),
{
    if bs.len() == 0 {
        Seq::empty()
    } else {
        bs[0] + concat_blocks(bs.drop_first())
    }
}

/// The decompressed form of one block: each event framed by its length.
pub open spec fn enc_framed(evs: Seq<EventView>) -> Seq<u8>
    decreases evs.len(),
{
    if evs.len() == 0 {
        Seq::empty()
    } else {
        enc_bytes(enc_event(evs[0])) + enc_framed(evs.drop_first())
    }
}

/// Every event in the sequence fits the encoding.
pub open spec fn framed_wf(evs: Seq<EventView>) -> bool {
    forall|i: int| 0 <= i < evs.len() ==> event_wf(#[trigger] evs[i])
}

/// Reading length-framed events out of a decompressed block, strictly to
/// its end: a cut frame is storage corruption, not a clean stop.
pub open spec fn parse_framed(b: Seq<u8>, i: int) -> Result<Seq<EventView>, SegErrKind>
    decreases b.len() - i,
{
    if i >= b.len() {
        Ok(Seq::empty())
    } else if i < 0 || i + 4 > b.len() {
        Err(SegErrKind::StorageKind)
    } else {
        let n = u32_of_le(b[i], b[i + 1], b[i + 2], b[i + 3]) as int;
        if i + 4 + n > b.len() {
            Err(SegErrKind::StorageKind)
        } else {
            match decoded_event(b.subrange(i + 4, i + 4 + n)) {
                None => Err(SegErrKind::SerializationKind),
                Some(e) => match parse_framed(b, i + 4 + n) {
                    Ok(evs) => Ok(seq![e] + evs),
                    Err(k) => Err(k),
                },
            }
        }
    }
}

/// Reading the compressed blocks from offset `i` to the end of the file:
/// the events of every block in order, together with the byte train the
/// checksum is taken over. An incomplete length word is a clean end of
/// file; a block cut short is an error.
pub open spec fn scan_blocks(s: Seq<u8>, i: int) -> Result<(Seq<EventView>, Seq<u8>), SegErrKind>
    decreases s.len() - i,
{
    if i < 0 || i + 4 > s.len() {
        Ok((Seq::empty(), Seq::empty()))
    } else {
        let n = u32_of_le(s[i], s[i + 1], s[i + 2], s[i + 3]) as int;
        if i + 4 + n > s.len() {
            Err(SegErrKind::IoKind)
        } else {
            let block = s.subrange(i + 4, i + 4 + n);
            match zstd_decompress_of(block) {
                None => Err(SegErrKind::StorageKind),
                Some(d) => match parse_framed(d, 0) {
                    Err(k) => Err(k),
                    Ok(evs) => match scan_blocks(s, i + 4 + n) {
                        Ok((evs2, crcs)) => Ok((evs + evs2, block + crcs)),
                        Err(k) => Err(k),
                    },
                },
            }
        }
    }
}

/// Reading bare length-framed events from offset `i` to the end of the
/// file, for segments whose compression flag is clear: an incomplete
/// length word is a clean end; an event cut short is an error.
pub open spec fn legacy_scan(s: Seq<u8>, i: int) -> Result<Seq<EventView>, SegErrKind>
    decreases s.len() - i,
{
    if i < 0 || i + 4 > s.len() {
        Ok(Seq::empty())
    } else {
        let n = u32_of_le(s[i], s[i + 1], s[i + 2], s[i + 3]) as int;
        if i + 4 + n > s.len() {
            Err(SegErrKind::IoKind)
        } else {
            match decoded_event(s.subrange(i + 4, i + 4 + n)) {
                None => Err(SegErrKind::SerializationKind),
                Some(e) => match legacy_scan(s, i + 4 + n) {
                    Ok(evs) => Ok(seq![e] + evs),
                    Err(k) => Err(k),
                },
            }
        }
    }
}

/// What a full read of a segment image yields, given its header: the
/// compressed path checks the rolling checksum at the end; the bare path
/// has none to check.
pub open spec fn read_events_spec(h: SegmentHeader, s: Seq<u8>) -> Result<
    Seq<EventView>,
    SegErrKind,
> {
    if h.flags & FLAG_COMPRESSED != 0 {
        match scan_blocks(s, HEADER_SIZE as int) {
            Err(k) => Err(k),
            Ok((evs, crcs)) => if crc32_of(crcs) == h.checksum {
                Ok(evs)
            } else {
                Err(SegErrKind::StorageKind)
            },
        }
    } else {
        legacy_scan(s, HEADER_SIZE as int)
    }
}

// ---------------------------------------------------------------------------
// Round trips over the body.
// ---------------------------------------------------------------------------

/// One well-formed frame at offset `i` reads as its event, and reading
/// continues right after it.
#[verifier::rlimit(100)]
#[verifier::spinoff_prover]
proof fn lemma_parse_framed_step(b: Seq<u8>, i: int, e0: EventView, rest: Seq<u8>)
    requires
        0 <= i,
        event_wf(e0),
        i + enc_bytes(enc_event(e0)).len() + rest.len() <= b.len(),
        b.subrange(i, i + enc_bytes(enc_event(e0)).len() + rest.len()) == enc_bytes(enc_event(e0))
            + rest,
    ensures
        parse_framed(b, i) == match parse_framed(b, i + enc_bytes(enc_event(e0)).len()) {
            Ok(evs) => Ok::<Seq<EventView>, SegErrKind>(seq![e0] + evs),
            Err(k) => Err(k),
        },
{
    let p = enc_event(e0);
    let frame = enc_bytes(p);
    lemma_split(b, i, frame, rest);
    lemma_split(b, i, u32_le(p.len() as u32), p);
    lemma_parse_u32(b, i, p.len() as u32);
    crate::event_codec::lemma_event_round_trip(e0);
}

/// A train of well-formed event frames filling the rest of a block reads
/// back as exactly its events.
#[verifier::rlimit(100)]
#[verifier::spinoff_prover]
pub proof fn lemma_parse_framed_suffix(b: Seq<u8>, i: int, evs: Seq<EventView>)
    requires
        0 <= i <= b.len(),
        framed_wf(evs),
        b.subrange(i, b.len() as int) == enc_framed(evs),
    ensures
        parse_framed(b, i) == Ok::<Seq<EventView>, SegErrKind>(evs),
    decreases evs.len(),
{
    if evs.len() == 0 {
        assert(b.len() - i == enc_framed(evs).len());
        assert(evs =~= Seq::<EventView>::empty());
    } else {
        let e0 = evs[0];
        let frame = enc_bytes(enc_event(e0));
        let rest = enc_framed(evs.drop_first());
        assert(event_wf(e0));
        assert(b.len() - i == frame.len() + rest.len());
        lemma_parse_framed_step(b, i, e0, rest);
        lemma_split(b, i, frame, rest);
        lemma_parse_framed_suffix(b, i + frame.len(), evs.drop_first());
        assert(seq![e0] + evs.drop_first() =~= evs);
    }
}

/// A train of blocks filling the rest of the file, each of which
/// decompresses to a well-formed event train, reads back as all their
/// events in order, with the checksum over the blocks run together.
#[verifier::rlimit(100)]
#[verifier::spinoff_prover]
pub proof fn lemma_scan_blocks_suffix(
    s: Seq<u8>,
    i: int,
    blocks: Seq<Seq<u8>>,
    bevs: Seq<Seq<EventView>>,
)
    requires
        0 <= i <= s.len(),
        blocks.len() == bevs.len(),
        forall|j: int| 0 <= j < blocks.len() ==> (#[trigger] blocks[j]).len() <= u32::MAX,
        forall|j: int| 0 <= j < blocks.len() ==> zstd_decompress_of(#[trigger] blocks[j]) == Some(
            enc_framed(bevs[j]),
        ),
        forall|j: int| 0 <= j < bevs.len() ==> framed_wf(#[trigger] bevs[j]),
        s.subrange(i, s.len() as int) == blocks_bytes(blocks),
    ensures
        scan_blocks(s, i) == Ok::<(Seq<EventView>, Seq<u8>), SegErrKind>(
            (bevs.flatten(), concat_blocks(blocks)),
        ),
    decreases blocks.len(),
{
    if blocks.len() == 0 {
        assert(s.len() - i == blocks_bytes(blocks).len());
        assert(bevs =~= Seq::<Seq<EventView>>::empty());
        assert(bevs.flatten() == Seq::<EventView>::empty());
    } else {
        let b0 = blocks[0];
        let rest = blocks_bytes(blocks.drop_first());
        assert(blocks_bytes(blocks) == (u32_le(b0.len() as u32) + b0) + rest) by {
            assert(u32_le(b0.len() as u32) + b0 + rest =~= (u32_le(b0.len() as u32) + b0) + rest);
        }
        lemma_split(s, i, u32_le(b0.len() as u32) + b0, rest);
        assert(u32_of_le(s[i], s[i + 1], s[i + 2], s[i + 3]) == b0.len() as u32 && s.subrange(
            i + 4,
            i + 4 + b0.len(),
        ) == b0) by {
            lemma_split(s, i, u32_le(b0.len() as u32), b0);
            lemma_parse_u32(s, i, b0.len() as u32);
        }
        assert(parse_framed(enc_framed(bevs[0]), 0) == Ok::<Seq<EventView>, SegErrKind>(
            bevs[0],
        )) by {
            assert(enc_framed(bevs[0]).subrange(0, enc_framed(bevs[0]).len() as int)
                =~= enc_framed(bevs[0]));
            lemma_parse_framed_suffix(enc_framed(bevs[0]), 0, bevs[0]);
        }
        lemma_scan_blocks_suffix(s, i + 4 + b0.len(), blocks.drop_first(), bevs.drop_first());
        assert(bevs.flatten() == bevs[0] + bevs.drop_first().flatten()) by {
            assert(bevs.first() == bevs[0]);
        }
        assert(concat_blocks(blocks) == b0 + concat_blocks(blocks.drop_first()));
    }
}

/// Appending one more block extends the byte train at its end.
#[verifier::rlimit(100)]
#[verifier::spinoff_prover]
pub proof fn lemma_blocks_bytes_push(bs: Seq<Seq<u8>>, b: Seq<u8>)
    ensures
        blocks_bytes(bs.push(b)) == blocks_bytes(bs) + (u32_le(b.len() as u32) + b),
    decreases bs.len(),
{
    if bs.len() == 0 {
        assert(bs.push(b)[0] == b);
        assert(bs.push(b).drop_first() =~= Seq::<Seq<u8>>::empty());
        assert(blocks_bytes(Seq::<Seq<u8>>::empty()) == Seq::<u8>::empty());
        assert(blocks_bytes(bs.push(b)) == u32_le(b.len() as u32) + b + Seq::<u8>::empty());
        assert(u32_le(b.len() as u32) + b + Seq::<u8>::empty() =~= u32_le(b.len() as u32) + b);
        assert(blocks_bytes(bs) == Seq::<u8>::empty());
        assert(Seq::<u8>::empty() + (u32_le(b.len() as u32) + b) =~= u32_le(b.len() as u32) + b);
    } else {
        assert(bs.push(b).drop_first() =~= bs.drop_first().push(b));
        lemma_blocks_bytes_push(bs.drop_first(), b);
        assert(bs.push(b)[0] == bs[0]);
        assert(blocks_bytes(bs.push(b)) == u32_le(bs[0].len() as u32) + bs[0] + (blocks_bytes(
            bs.drop_first(),
        ) + (u32_le(b.len() as u32) + b)));
        assert(u32_le(bs[0].len() as u32) + bs[0] + (blocks_bytes(bs.drop_first()) + (u32_le(
            b.len() as u32,
        ) + b)) =~= (u32_le(bs[0].len() as u32) + bs[0] + blocks_bytes(bs.drop_first())) + (u32_le(
            b.len() as u32,
        ) + b));
    }
}

/// Appending one more block extends the checksummed train at its end.
#[verifier::rlimit(100)]
#[verifier::spinoff_prover]
pub proof fn lemma_concat_blocks_push(bs: Seq<Seq<u8>>, b: Seq<u8>)
    ensures
        concat_blocks(bs.push(b)) == concat_blocks(bs) + b,
    decreases bs.len(),
{
    if bs.len() == 0 {
        assert(bs.push(b)[0] == b);
        assert(bs.push(b).drop_first() =~= Seq::<Seq<u8>>::empty());
        assert(concat_blocks(Seq::<Seq<u8>>::empty()) == Seq::<u8>::empty());
        assert(concat_blocks(bs.push(b)) == b + Seq::<u8>::empty());
        assert(b + Seq::<u8>::empty() =~= b);
        assert(Seq::<u8>::empty() + b =~= b);
    } else {
        assert(bs.push(b).drop_first() =~= bs.drop_first().push(b));
        lemma_concat_blocks_push(bs.drop_first(), b);
        assert(bs.push(b)[0] == bs[0]);
        assert(bs[0] + (concat_blocks(bs.drop_first()) + b) =~= (bs[0] + concat_blocks(
            bs.drop_first(),
        )) + b);
    }
}

/// Appending one more event extends a block's frame train at its end.
#[verifier::rlimit(100)]
#[verifier::spinoff_prover]
pub proof fn lemma_enc_framed_push(evs: Seq<EventView>, e: EventView)
    ensures
        enc_framed(evs.push(e)) == enc_framed(evs) + enc_bytes(enc_event(e)),
    decreases evs.len(),
{
    if evs.len() == 0 {
        assert(evs.push(e)[0] == e);
        assert(evs.push(e).drop_first() =~= Seq::<EventView>::empty());
        assert(enc_framed(Seq::<EventView>::empty()) == Seq::<u8>::empty());
        assert(enc_framed(evs) == Seq::<u8>::empty());
        assert(enc_framed(evs.push(e)) == enc_bytes(enc_event(e)) + Seq::<u8>::empty());
        assert(enc_bytes(enc_event(e)) + Seq::<u8>::empty() =~= enc_bytes(enc_event(e)));
        assert(Seq::<u8>::empty() + enc_bytes(enc_event(e)) =~= enc_bytes(enc_event(e)));
    } else {
        assert(evs.push(e).drop_first() =~= evs.drop_first().push(e));
        lemma_enc_framed_push(evs.drop_first(), e);
        assert(evs.push(e)[0] == evs[0]);
        assert(enc_bytes(enc_event(evs[0])) + (enc_framed(evs.drop_first()) + enc_bytes(enc_event(
            e,
        ))) =~= (enc_bytes(enc_event(evs[0])) + enc_framed(evs.drop_first())) + enc_bytes(
            enc_event(e),
        ));
    }
}


/// The checksum guards the blocks: a compressed segment whose block
/// bytes disagree with the checksum its header carries never reads back
/// as events, whatever else the bytes spell.
pub proof fn lemma_checksum_guard(h: SegmentHeader, s: Seq<u8>)
    requires
        h.flags & FLAG_COMPRESSED != 0,
        match scan_blocks(s, HEADER_SIZE as int) {
            Ok((evs, crcs)) => crc32_of(crcs) != h.checksum,
            Err(_) => true,
        },
    ensures
        read_events_spec(h, s) is Err,
{
}

// ---------------------------------------------------------------------------
// Writing a segment.
// ---------------------------------------------------------------------------

/// Frame every event in the buffer: each one's encoding behind its
/// length. Fails, with a serialization error, exactly when some event
/// does not fit the encoding.
#[verifier::rlimit(100)]
#[verifier::spinoff_prover]
fn frame_events(events: &Vec<Event>) -> (r: Result<Vec<u8>, Error>)
    ensures
        r matches Ok(v) ==> framed_wf(events.deep_view()) && v@ == enc_framed(events.deep_view()),
        r matches Err(e) ==> !framed_wf(events.deep_view()) && e is Serialization,
{
    let mut out: Vec<u8> = Vec::new();
    let mut k: usize = 0;
    proof {
        assert(out@ =~= enc_framed(events.deep_view().subrange(0, 0)));
    }
    while k < events.len()
        invariant
            k <= events@.len(),
            out@ == enc_framed(events.deep_view().subrange(0, k as int)),
            forall|j: int| 0 <= j < k ==> event_wf(#[trigger] events.deep_view()[j]),
        decreases events@.len() - k,
    {
        let ghost done = events.deep_view().subrange(0, k as int);
        let encoded = match encode_event(&events[k]) {
            Ok(v) => v,
            Err(e) => {
                proof {
                    assert(!event_wf(events.deep_view()[k as int]));
                }
                return Err(e);
            },
        };
        push_u32_le(&mut out, encoded.len() as u32);
        out.extend_from_slice(encoded.as_slice());
        proof {
            lemma_enc_framed_push(done, events.deep_view()[k as int]);
            assert(done.push(events.deep_view()[k as int]) =~= events.deep_view().subrange(
                0,
                k + 1 as int,
            ));
            assert(out@ =~= enc_framed(events.deep_view().subrange(0, k + 1 as int)));
        }
        k += 1;
    }
    proof {
        assert(events.deep_view().subrange(0, events.deep_view().len() as int)
            =~= events.deep_view());
    }
    Ok(out)
}

/// Builds a segment image: the header up front, then one compressed
/// block per buffer flush. The surrounding program persists the bytes
/// that `finalize` hands back.
pub struct SegmentWriter {
    data: Vec<u8>,
    header: SegmentHeader,
    event_buffer: Vec<Event>,
    crc_data: Vec<u8>,
    blocks: Ghost<Seq<Seq<u8>>>,
    block_events: Ghost<Seq<Seq<EventView>>>,
    flushed: Ghost<Seq<EventView>>,
}

impl SegmentWriter {
    /// The header as it currently stands.
    pub closed spec fn spec_header(&self) -> SegmentHeader {
        self.header
    }

    /// Every event appended so far, flushed or still buffered.
    pub closed spec fn events(&self) -> Seq<EventView> {
        self.flushed@ + self.event_buffer.deep_view()
    }

    /// How many events wait in the buffer.
    pub closed spec fn buffered_count(&self) -> nat {
        self.event_buffer@.len()
    }

    /// The events waiting in the buffer, in append order.
    pub closed spec fn buffered_events(&self) -> Seq<EventView> {
        self.event_buffer.deep_view()
    }

    /// The writer is in working order: the image holds the header region
    /// and the blocks written so far, the counters match, and every block
    /// decompresses to the frames of the events it was flushed with.
    pub closed spec fn wf(&self) -> bool {
        &&& self.data@.len() == HEADER_SIZE + blocks_bytes(self.blocks@).len()
        &&& self.data@.subrange(HEADER_SIZE as int, self.data@.len() as int) == blocks_bytes(
            self.blocks@,
        )
        &&& self.crc_data@ == concat_blocks(self.blocks@)
        &&& self.blocks@.len() == self.block_events@.len()
        &&& forall|j: int| 0 <= j < self.blocks@.len() ==> (#[trigger] self.blocks@[j]).len()
            <= u32::MAX
        &&& forall|j: int| 0 <= j < self.blocks@.len() ==> zstd_decompress_of(
            #[trigger] self.blocks@[j],
        ) == Some(enc_framed(self.block_events@[j]))
        &&& forall|j: int| 0 <= j < self.block_events@.len() ==> framed_wf(
            #[trigger] self.block_events@[j],
        )
        &&& forall|j: int| 0 <= j < self.block_events@.len() ==> (
        #[trigger] self.block_events@[j]).len() > 0
        &&& self.block_events@.flatten() == self.flushed@
        &&& self.header.event_count as int == self.flushed@.len() + self.event_buffer@.len()
        &&& self.header.compressed_size as int == self.data@.len() - HEADER_SIZE
        &&& self.header.flags == (if self.blocks@.len() == 0 {
            0u8
        } else {
            FLAG_COMPRESSED
        })
    }

    /// A fresh segment image: the given identity and bounds, a header
    /// with zero counters, no blocks.
    pub fn create(segment_id: u64, start_time: Timestamp, end_time: Timestamp) -> (r: Result<
        Self,
        Error,
    >)
        ensures
            r matches Ok(w) ==> {
                &&& w.wf()
                &&& w.spec_header() == (SegmentHeader {
                    segment_id,
                    start_time,
                    end_time,
                    event_count: 0,
                    compressed_size: 0,
                    checksum: 0,
                    flags: 0,
                })
                &&& w.events() == Seq::<EventView>::empty()
                &&& w.buffered_count() == 0
            },
            r is Ok,
    {
        let header = SegmentHeader::new(segment_id, start_time, end_time);
        let data = header.serialize();
        let w = SegmentWriter {
            data,
            header,
            event_buffer: Vec::new(),
            crc_data: Vec::new(),
            blocks: Ghost(Seq::empty()),
            block_events: Ghost(Seq::empty()),
            flushed: Ghost(Seq::empty()),
        };
        proof {
            assert(blocks_bytes(Seq::<Seq<u8>>::empty()) == Seq::<u8>::empty());
            assert(concat_blocks(Seq::<Seq<u8>>::empty()) == Seq::<u8>::empty());
            assert(w.data@.subrange(HEADER_SIZE as int, w.data@.len() as int) =~= Seq::<
                u8,
            >::empty());
            assert(Seq::<Seq<EventView>>::empty().flatten() =~= Seq::<EventView>::empty());
            assert(w.event_buffer.deep_view() =~= Seq::<EventView>::empty());
            assert(w.events() =~= Seq::<EventView>::empty());
        }
        Ok(w)
    }

    /// The header as it currently stands.
    pub fn header(&self) -> (r: &SegmentHeader)
        ensures
            *r == self.spec_header(),
    {
        &self.header
    }

    /// Append one event. An event whose valid time falls outside the
    /// segment's half-open range is refused with a temporal error and
    /// nothing changes. Reaching the flush threshold writes the buffer
    /// out as one compressed block.
    pub fn append(&mut self, event: Event) -> (r: Result<(), Error>)
        requires
            old(self).wf(),
        ensures
            final(self).wf(),
            final(self).spec_header().segment_id == old(self).spec_header().segment_id,
            final(self).spec_header().start_time == old(self).spec_header().start_time,
            final(self).spec_header().end_time == old(self).spec_header().end_time,
            ({
                let inb = old(self).spec_header().start_time.nanos <= event@.timestamp
                    && event@.timestamp < old(self).spec_header().end_time.nanos;
                &&& (!inb ==> (r matches Err(e) && e is Temporal) && *final(self) == *old(self))
                &&& (inb && old(self).spec_header().event_count == u32::MAX ==> r is Err
                    && *final(self) == *old(self))
                &&& (inb && old(self).spec_header().event_count < u32::MAX ==> {
                    &&& final(self).events() == old(self).events().push(event@)
                    &&& final(self).spec_header().event_count == old(
                        self,
                    ).spec_header().event_count + 1
                    &&& (r matches Err(e) ==> !(e is Temporal))
                    &&& (old(self).buffered_count() + 1 < SEGMENT_FLUSH_THRESHOLD as nat ==> {
                        &&& r is Ok
                        &&& final(self).buffered_count() == old(self).buffered_count() + 1
                        &&& final(self).spec_header().compressed_size == old(
                            self,
                        ).spec_header().compressed_size
                    })
                })
            }),
    {
        let ts = event.timestamp();
        if ts.nanos < self.header.start_time.nanos || ts.nanos >= self.header.end_time.nanos {
            return Err(Error::Temporal("event timestamp outside segment range".to_owned()));
        }
        if self.header.event_count == u32::MAX {
            return Err(Error::Storage("segment event count at its ceiling".to_owned()));
        }
        let ghost pre_buffer = self.event_buffer.deep_view();
        let ghost pre_events = self.events();
        self.event_buffer.push(event);
        self.header.event_count = self.header.event_count + 1;
        proof {
            assert(self.event_buffer.deep_view() =~= pre_buffer.push(event@));
            assert(self.events() =~= pre_events.push(event@));
        }
        if self.event_buffer.len() >= SEGMENT_FLUSH_THRESHOLD {
            match self.flush_buffer() {
                Ok(()) => {},
                Err(e) => {
                    return Err(e);
                },
            }
        }
        Ok(())
    }

    /// Flush the buffered events into one compressed block at the end of
    /// the image. On failure nothing changes.
    #[verifier::rlimit(100)]
    #[verifier::spinoff_prover]
    fn flush_buffer(&mut self) -> (r: Result<(), Error>)
        requires
            old(self).wf(),
        ensures
            final(self).wf(),
            final(self).spec_header().segment_id == old(self).spec_header().segment_id,
            final(self).spec_header().start_time == old(self).spec_header().start_time,
            final(self).spec_header().end_time == old(self).spec_header().end_time,
            final(self).spec_header().event_count == old(self).spec_header().event_count,
            final(self).spec_header().compressed_size >= old(self).spec_header().compressed_size,
            final(self).events() == old(self).events(),
            r is Ok ==> final(self).buffered_count() == 0,
            old(self).buffered_count() == 0 ==> r is Ok,
            r matches Err(e) ==> *final(self) == *old(self) && ((e is Serialization && !framed_wf(
                old(self).buffered_events(),
            )) || e is Storage),
    {
        if self.event_buffer.len() == 0 {
            proof {
                assert(self.event_buffer.deep_view() =~= Seq::<EventView>::empty());
            }
            return Ok(());
        }
        let serialized = match frame_events(&self.event_buffer) {
            Ok(v) => v,
            Err(e) => {
                return Err(e);
            },
        };
        let compressed = match zstd_compress(serialized.as_slice()) {
            Ok(c) => c,
            Err(e) => {
                return Err(e);
            },
        };
        if compressed.len() > u32::MAX as usize - 4 {
            return Err(Error::Storage("compressed block outgrows its frame".to_owned()));
        }
        if compressed.len() + 4 > u32::MAX as usize - self.header.compressed_size as usize {
            return Err(Error::Storage("segment body outgrows its size field".to_owned()));
        }
        let ghost pre = *old(self);
        let ghost pre_blocks = self.blocks@;
        let ghost pre_bevs = self.block_events@;
        let ghost pre_flushed = self.flushed@;
        let ghost pre_buffer = self.event_buffer.deep_view();
        let ghost pre_data = self.data@;
        let ghost pre_crc = self.crc_data@;
        self.crc_data.extend_from_slice(compressed.as_slice());
        push_u32_le(&mut self.data, compressed.len() as u32);
        self.data.extend_from_slice(compressed.as_slice());
        self.header.flags = FLAG_COMPRESSED;
        self.header.compressed_size = self.header.compressed_size + (compressed.len() as u32 + 4);
        proof {
            self.blocks = Ghost(pre_blocks.push(compressed@));
            self.block_events = Ghost(pre_bevs.push(pre_buffer));
            self.flushed = Ghost(pre_flushed + pre_buffer);
        }
        self.event_buffer.clear();
        proof {
            lemma_blocks_bytes_push(pre_blocks, compressed@);
            lemma_concat_blocks_push(pre_blocks, compressed@);
            pre_bevs.lemma_flatten_push(pre_buffer);
            assert(self.data@ =~= pre_data + (u32_le(compressed@.len() as u32) + compressed@));
            assert(self.data@.subrange(HEADER_SIZE as int, self.data@.len() as int)
                =~= blocks_bytes(self.blocks@)) by {
                assert(pre.data@.subrange(HEADER_SIZE as int, pre.data@.len() as int)
                    == blocks_bytes(pre_blocks));
                assert(blocks_bytes(self.blocks@) == blocks_bytes(pre_blocks) + (u32_le(
                    compressed@.len() as u32,
                ) + compressed@));
            }
            assert(self.crc_data@ =~= concat_blocks(self.blocks@));
            assert(self.event_buffer.deep_view() =~= Seq::<EventView>::empty());
            assert(self.events() =~= pre.events());
            assert(self.block_events@.flatten() =~= self.flushed@);
        }
        Ok(())
    }

    /// Seal the segment: flush what remains, fix the checksum, rewrite
    /// the header, and hand back the sealed header with the finished byte
    /// image. Reading the image back yields exactly the appended events:
    /// the segment round trip.
    pub fn finalize(self) -> (r: Result<(SegmentHeader, Vec<u8>), Error>)
        requires
            self.wf(),
        ensures
            r matches Ok((h, bytes)) ==> {
                &&& h.segment_id == self.spec_header().segment_id
                &&& h.start_time == self.spec_header().start_time
                &&& h.end_time == self.spec_header().end_time
                &&& h.event_count as int == self.events().len()
                &&& parse_header(bytes@) == Some(h)
                &&& read_events_spec(h, bytes@) == Ok::<Seq<EventView>, SegErrKind>(self.events())
                &&& bytes@.len() == HEADER_SIZE + h.compressed_size
                &&& bytes@.subrange(0, HEADER_SIZE as int) == enc_header(h)
                &&& h.compressed_size >= self.spec_header().compressed_size
                &&& (self.events().len() > 0 ==> h.flags == FLAG_COMPRESSED)
                &&& (self.events().len() == 0 ==> h.checksum == crc32_of(Seq::<u8>::empty()))
            },
            self.buffered_count() == 0 ==> r is Ok,
            r matches Err(e) ==> (e is Serialization && !framed_wf(self.buffered_events())) || e
                is Storage,
    {
        let mut w = self;
        match w.flush_buffer() {
            Ok(()) => {},
            Err(e) => {
                return Err(e);
            },
        }
        let crc = crc32(w.crc_data.as_slice());
        w.header.checksum = crc;
        let mut bytes = w.header.serialize();
        let body = slice_subrange(w.data.as_slice(), HEADER_SIZE, w.data.len());
        bytes.extend_from_slice(body);
        proof {
            lemma_header_round_trip(w.header);
            assert(bytes@ =~= enc_header(w.header) + blocks_bytes(w.blocks@));
            assert(bytes@.subrange(0, HEADER_SIZE as int) =~= enc_header(w.header));
            assert(bytes@.subrange(HEADER_SIZE as int, bytes@.len() as int) =~= blocks_bytes(
                w.blocks@,
            ));
            assert(parse_header(bytes@) == Some(w.header)) by {
                assert(bytes@.subrange(0, 5) =~= enc_header(w.header).subrange(0, 5));
                assert(bytes@[5] == enc_header(w.header)[5]);
                assert(bytes@.subrange(8, 16) =~= enc_header(w.header).subrange(8, 16));
                assert(bytes@.subrange(16, 24) =~= enc_header(w.header).subrange(16, 24));
                assert(bytes@.subrange(24, 32) =~= enc_header(w.header).subrange(24, 32));
                assert(bytes@[32] == enc_header(w.header)[32]);
                assert(bytes@[33] == enc_header(w.header)[33]);
                assert(bytes@[34] == enc_header(w.header)[34]);
                assert(bytes@[35] == enc_header(w.header)[35]);
                assert(bytes@[36] == enc_header(w.header)[36]);
                assert(bytes@[37] == enc_header(w.header)[37]);
                assert(bytes@[38] == enc_header(w.header)[38]);
                assert(bytes@[39] == enc_header(w.header)[39]);
                assert(bytes@[40] == enc_header(w.header)[40]);
                assert(bytes@[41] == enc_header(w.header)[41]);
                assert(bytes@[42] == enc_header(w.header)[42]);
                assert(bytes@[43] == enc_header(w.header)[43]);
                assert(bytes@[44] == enc_header(w.header)[44]);
            }
            if w.blocks@.len() == 0 {
                assert(w.header.flags == 0);
                assert((0u8 & FLAG_COMPRESSED) == 0) by (bit_vector);
                assert(blocks_bytes(w.blocks@) == Seq::<u8>::empty());
                assert(bytes@.len() == HEADER_SIZE as int);
                assert(legacy_scan(bytes@, HEADER_SIZE as int) == Ok::<Seq<EventView>, SegErrKind>(
                    Seq::empty(),
                ));
                assert(w.block_events@ =~= Seq::<Seq<EventView>>::empty());
                assert(w.flushed@ =~= Seq::<EventView>::empty());
                assert(w.events() =~= Seq::<EventView>::empty());
                assert(self.events() =~= Seq::<EventView>::empty());
            } else {
                assert(w.header.flags == FLAG_COMPRESSED);
                assert((1u8 & 1u8) != 0) by (bit_vector);
                lemma_scan_blocks_suffix(bytes@, HEADER_SIZE as int, w.blocks@, w.block_events@);
                assert(crc32_of(concat_blocks(w.blocks@)) == w.header.checksum);
                assert(w.events() =~= w.flushed@);
                // A sealed block always carries at least one event, so a
                // segment with blocks is never empty.
                assert(w.events().len() > 0) by {
                    assert(w.block_events@.flatten() == w.block_events@.first()
                        + w.block_events@.drop_first().flatten());
                    assert(w.block_events@.first() == w.block_events@[0]);
                    assert(w.block_events@[0].len() > 0);
                }
            }
        }
        Ok((w.header, bytes))
    }
}


// ---------------------------------------------------------------------------
// Reading a segment.
// ---------------------------------------------------------------------------

/// How frames already read join the front of what a strict frame scan
/// still yields.
pub open spec fn framed_cons(pre: Seq<EventView>, r: Result<Seq<EventView>, SegErrKind>) -> Result<
    Seq<EventView>,
    SegErrKind,
> {
    match r {
        Ok(evs) => Ok(pre + evs),
        Err(k) => Err(k),
    }
}

/// How blocks already read join the front of what the block scan still
/// yields.
pub open spec fn blocks_cons(
    pre_evs: Seq<EventView>,
    pre_crc: Seq<u8>,
    r: Result<(Seq<EventView>, Seq<u8>), SegErrKind>,
) -> Result<(Seq<EventView>, Seq<u8>), SegErrKind> {
    match r {
        Ok((evs, crcs)) => Ok((pre_evs + evs, pre_crc + crcs)),
        Err(k) => Err(k),
    }
}

/// Read the length-framed events out of one decompressed block, strictly
/// to its end.
#[verifier::rlimit(100)]
#[verifier::spinoff_prover]
fn read_framed(b: &[u8]) -> (r: Result<Vec<Event>, Error>)
    ensures
        r matches Ok(evs) ==> parse_framed(b@, 0) == Ok::<Seq<EventView>, SegErrKind>(
            evs.deep_view(),
        ),
        r matches Err(e) ==> (parse_framed(b@, 0) == Err::<Seq<EventView>, SegErrKind>(
            SegErrKind::StorageKind,
        ) && e is Storage) || (parse_framed(b@, 0) == Err::<Seq<EventView>, SegErrKind>(
            SegErrKind::SerializationKind,
        ) && e is Serialization),
{
    let mut acc: Vec<Event> = Vec::new();
    let mut cur: usize = 0;
    proof {
        assert(acc.deep_view() =~= Seq::<EventView>::empty());
        match parse_framed(b@, 0) {
            Ok(evs) => {
                assert(Seq::<EventView>::empty() + evs =~= evs);
            },
            Err(_) => {},
        }
    }
    while cur < b.len()
        invariant
            cur <= b@.len(),
            framed_cons(acc.deep_view(), parse_framed(b@, cur as int)) == parse_framed(b@, 0),
        decreases b@.len() - cur,
    {
        if b.len() - cur < 4 {
            return Err(Error::Storage("truncated event length in segment block".to_owned()));
        }
        let n = read_u32_le(b, cur) as usize;
        if n > b.len() - (cur + 4) {
            return Err(Error::Storage("truncated event data in segment block".to_owned()));
        }
        let frame = slice_subrange(b, cur + 4, cur + 4 + n);
        let ghost pre = acc.deep_view();
        match decode_event(frame) {
            Ok(ev) => {
                proof {
                    match parse_framed(b@, cur + 4 + n) {
                        Ok(evs) => {
                            assert(pre + (seq![ev@] + evs) =~= pre.push(ev@) + evs);
                        },
                        Err(_) => {},
                    }
                }
                acc.push(ev);
                proof {
                    assert(acc.deep_view() =~= pre.push(ev@));
                }
                cur = cur + 4 + n;
            },
            Err(_) => {
                return Err(
                    Error::Serialization("undecodable event in segment block".to_owned()),
                );
            },
        }
    }
    proof {
        assert(parse_framed(b@, cur as int) == Ok::<Seq<EventView>, SegErrKind>(Seq::empty()));
        assert(acc.deep_view() + Seq::<EventView>::empty() =~= acc.deep_view());
    }
    Ok(acc)
}

/// Reads a finished segment image back: first the header, then, on
/// demand, every event.
pub struct SegmentReader {
    data: Vec<u8>,
    header: SegmentHeader,
}

impl SegmentReader {
    /// The header read when the segment was opened.
    pub closed spec fn spec_header(&self) -> SegmentHeader {
        self.header
    }

    /// The bytes the reader was opened on.
    pub closed spec fn byte_image(&self) -> Seq<u8> {
        self.data@
    }

    /// The reader is in working order: its header is the one its bytes
    /// spell.
    pub closed spec fn inv(&self) -> bool {
        parse_header(self.data@) == Some(self.header) && self.data@.len() >= HEADER_SIZE
    }

    /// Open a segment image: validate its magic and version and read the
    /// header.
    pub fn open(data: Vec<u8>) -> (r: Result<Self, Error>)
        ensures
            r matches Ok(rd) ==> rd.inv() && parse_header(data@) == Some(rd.spec_header())
                && rd.byte_image() == data@,
            r is Err ==> parse_header(data@) is None,
    {
        let header = match SegmentHeader::deserialize(data.as_slice()) {
            Ok(h) => h,
            Err(e) => {
                return Err(e);
            },
        };
        Ok(SegmentReader { data, header })
    }

    /// The header read when the segment was opened.
    pub fn header(&self) -> (r: &SegmentHeader)
        ensures
            *r == self.spec_header(),
    {
        &self.header
    }

    /// Read every event out of the segment. On the compressed path the
    /// rolling checksum over the block bytes must match the header;
    /// anything else the bytes could spell is an error of the matching
    /// kind.
    #[verifier::rlimit(100)]
    #[verifier::spinoff_prover]
    pub fn read_events(&mut self) -> (r: Result<Vec<Event>, Error>)
        requires
            old(self).inv(),
        ensures
            *final(self) == *old(self),
            r matches Ok(evs) ==> read_events_spec(old(self).spec_header(), old(self).byte_image())
                == Ok::<Seq<EventView>, SegErrKind>(evs.deep_view()),
            r matches Err(e) ==> {
                let sp = read_events_spec(old(self).spec_header(), old(self).byte_image());
                &&& sp is Err
                &&& (sp == Err::<Seq<EventView>, SegErrKind>(SegErrKind::IoKind) ==> e is Io)
                &&& (sp == Err::<Seq<EventView>, SegErrKind>(SegErrKind::StorageKind)
                    ==> e is Storage)
                &&& (sp == Err::<Seq<EventView>, SegErrKind>(SegErrKind::SerializationKind)
                    ==> e is Serialization)
            },
    {
        let is_compressed = self.header.flags & FLAG_COMPRESSED != 0;
        let s = self.data.as_slice();
        if is_compressed {
            let mut acc: Vec<Event> = Vec::new();
            let mut crc_acc: Vec<u8> = Vec::new();
            let mut cur: usize = HEADER_SIZE;
            proof {
                assert(acc.deep_view() =~= Seq::<EventView>::empty());
                assert(crc_acc@ =~= Seq::<u8>::empty());
                match scan_blocks(s@, HEADER_SIZE as int) {
                    Ok((evs, crcs)) => {
                        assert(Seq::<EventView>::empty() + evs =~= evs);
                        assert(Seq::<u8>::empty() + crcs =~= crcs);
                    },
                    Err(_) => {},
                }
            }
            while s.len() - cur >= 4
                invariant
                    HEADER_SIZE <= cur <= s@.len(),
                    s@ == old(self).byte_image(),
                    self.header == old(self).spec_header(),
                    old(self).spec_header().flags & FLAG_COMPRESSED != 0,
                    blocks_cons(acc.deep_view(), crc_acc@, scan_blocks(s@, cur as int))
                        == scan_blocks(s@, HEADER_SIZE as int),
                decreases s@.len() - cur,
            {
                let n = read_u32_le(s, cur) as usize;
                if n > s.len() - (cur + 4) {
                    return Err(Error::Io("segment block cut short".to_owned()));
                }
                let block = slice_subrange(s, cur + 4, cur + 4 + n);
                let decompressed = match zstd_decompress(block) {
                    Ok(d) => d,
                    Err(e) => {
                        return Err(e);
                    },
                };
                let evs = match read_framed(decompressed.as_slice()) {
                    Ok(v) => v,
                    Err(e) => {
                        return Err(e);
                    },
                };
                let ghost pre_evs = acc.deep_view();
                let ghost pre_crc = crc_acc@;
                let ghost evs_dv = evs.deep_view();
                let mut evs = evs;
                proof {
                    match scan_blocks(s@, cur + 4 + n) {
                        Ok((evs2, crcs2)) => {
                            assert(pre_evs + (evs_dv + evs2) =~= (pre_evs + evs_dv) + evs2);
                            assert(pre_crc + (block@ + crcs2) =~= (pre_crc + block@) + crcs2);
                        },
                        Err(_) => {},
                    }
                }
                acc.append(&mut evs);
                crc_acc.extend_from_slice(block);
                proof {
                    assert(acc.deep_view() =~= pre_evs + evs_dv);
                    assert(crc_acc@ =~= pre_crc + block@);
                }
                cur = cur + 4 + n;
            }
            proof {
                assert(scan_blocks(s@, cur as int) == Ok::<(Seq<EventView>, Seq<u8>), SegErrKind>(
                    (Seq::empty(), Seq::empty()),
                ));
                assert(acc.deep_view() + Seq::<EventView>::empty() =~= acc.deep_view());
                assert(crc_acc@ + Seq::<u8>::empty() =~= crc_acc@);
            }
            let actual = crc32(crc_acc.as_slice());
            if actual != self.header.checksum {
                return Err(Error::Storage("segment checksum mismatch".to_owned()));
            }
            Ok(acc)
        } else {
            let mut acc: Vec<Event> = Vec::new();
            let mut cur: usize = HEADER_SIZE;
            proof {
                assert(acc.deep_view() =~= Seq::<EventView>::empty());
                match legacy_scan(s@, HEADER_SIZE as int) {
                    Ok(evs) => {
                        assert(Seq::<EventView>::empty() + evs =~= evs);
                    },
                    Err(_) => {},
                }
            }
            while s.len() - cur >= 4
                invariant
                    HEADER_SIZE <= cur <= s@.len(),
                    s@ == old(self).byte_image(),
                    self.header == old(self).spec_header(),
                    old(self).spec_header().flags & FLAG_COMPRESSED == 0,
                    framed_cons(acc.deep_view(), legacy_scan(s@, cur as int)) == legacy_scan(
                        s@,
                        HEADER_SIZE as int,
                    ),
                decreases s@.len() - cur,
            {
                let n = read_u32_le(s, cur) as usize;
                if n > s.len() - (cur + 4) {
                    return Err(Error::Io("segment event cut short".to_owned()));
                }
                let frame = slice_subrange(s, cur + 4, cur + 4 + n);
                let ghost pre = acc.deep_view();
                match decode_event(frame) {
                    Ok(ev) => {
                        proof {
                            match legacy_scan(s@, cur + 4 + n) {
                                Ok(evs) => {
                                    assert(pre + (seq![ev@] + evs) =~= pre.push(ev@) + evs);
                                },
                                Err(_) => {},
                            }
                        }
                        acc.push(ev);
                        proof {
                            assert(acc.deep_view() =~= pre.push(ev@));
                        }
                        cur = cur + 4 + n;
                    },
                    Err(_) => {
                        return Err(
                            Error::Serialization("undecodable event in segment".to_owned()),
                        );
                    },
                }
            }
            proof {
                assert(legacy_scan(s@, cur as int) == Ok::<Seq<EventView>, SegErrKind>(
                    Seq::empty(),
                ));
                assert(acc.deep_view() + Seq::<EventView>::empty() =~= acc.deep_view());
            }
            Ok(acc)
        }
    }
}

} // verus!
