//! On-disk record framing.
//!
//! A shard file is a concatenation of zero or more frames with no separator.
//! Each frame is self-delimiting:
//!
//! ```text
//! [ id: 4 bytes BE ][ len: 4 bytes BE ][ payload: len bytes ][ checksum: 4 bytes BE ]
//! ```
//!
//! where `checksum` is the CRC-32-IEEE checksum of the payload bytes alone.
//! The decoder walks frames front to back and stops cleanly at the first
//! malformed, truncated or corrupted frame: frame boundaries cannot be
//! recovered after corruption, so no resynchronization is attempted.

use vstd::prelude::*;

verus! {

/// One durable record: an identifier, the opaque payload bytes, and the
/// CRC-32-IEEE checksum of the payload.
#[derive(Debug, PartialEq, Eq)]
pub struct Record {
    pub id: u32,
    pub payload: Vec<u8>,
    pub checksum: u32,
}

/// The mathematical value of a [`Record`].
pub struct RecordModel {
    pub id: u32,
    pub payload: Seq<u8>,
    pub checksum: u32,
}

impl View for Record {
    type V = RecordModel;

    open spec fn view(&self) -> RecordModel {
        RecordModel { id: self.id, payload: self.payload@, checksum: self.checksum }
    }
}

/// Why decoding a frame failed.
#[derive(Debug, Clone, Copy, PartialEq, Eq, Structural)]
pub enum DecodeError {
    /// The buffer ends before the current frame is complete (for example, a
    /// partially written trailing frame).
    Truncated,
    /// The stored checksum does not match the checksum recomputed over the
    /// decoded payload.
    ChecksumMismatch,
}

/// The CRC-32-IEEE checksum of a byte sequence, as the `crc` crate computes
/// it: a function of the bytes alone.
pub uninterp spec fn crc32_of(data: Seq<u8>) -> u32;

/// Relies on `crc::crc32::checksum_ieee`: the CRC-32-IEEE checksum of the
/// bytes, a pure function of them.
#[verifier::external_body]
fn crc32_ieee(data: &[u8]) -> (r: u32)
    ensures
        r == crc32_of(data@),
{
    crc::crc32::checksum_ieee(data)
}

/// The four big-endian bytes of a 32-bit value, most significant first.
pub open spec fn be32_bytes(n: u32) -> Seq<u8> {
    seq![
        (n / 0x1000000) as u8,
        ((n / 0x10000) % 0x100) as u8,
        ((n / 0x100) % 0x100) as u8,
        (n % 0x100) as u8,
    ]
}

/// The 32-bit value read back from four big-endian bytes.
pub open spec fn u32_of_be(b: Seq<u8>) -> u32
    recommends
        b.len() == 4,
{
    (b[0] * 0x1000000 + b[1] * 0x10000 + b[2] * 0x100 + b[3]) as u32
}

/// Reading back the four big-endian bytes of `n` yields `n`.
pub proof fn lemma_be32_roundtrip(n: u32)
    ensures
        u32_of_be(be32_bytes(n)) == n,
{
    assert(n / 0x1000000 * 0x1000000 + (n / 0x10000) % 0x100 * 0x10000 + (n / 0x100) % 0x100
        * 0x100 + n % 0x100 == n) by (bit_vector);
}

/// One frame: the id, a length prefix, the payload, and the stored checksum.
pub open spec fn frame_bytes(id: u32, payload: Seq<u8>, checksum: u32) -> Seq<u8> {
    be32_bytes(id) + be32_bytes(payload.len() as u32) + payload + be32_bytes(checksum)
}

/// Encodes one record as a self-delimiting frame. The checksum is computed
/// over the payload bytes alone, not over the framing metadata.
pub fn encode(payload: &Vec<u8>, id: u32) -> (frame: Vec<u8>)
    requires
        payload@.len() <= 0xFFFF_FFFF,
    ensures
        frame@ == frame_bytes(id, payload@, crc32_of(payload@)),
{
    let checksum = crc32_ieee(payload.as_slice());
    let mut frame: Vec<u8> = Vec::new();
    push_be32(&mut frame, id);
    push_be32(&mut frame, payload.len() as u32);
    append_bytes(&mut frame, payload);
    push_be32(&mut frame, checksum);
    assert(frame@ =~= frame_bytes(id, payload@, crc32_of(payload@)));
    frame
}

/// Appends the four big-endian bytes of `n`.
fn push_be32(out: &mut Vec<u8>, n: u32)
    ensures
        final(out)@ == old(out)@ + be32_bytes(n),
{
    out.push((n / 0x1000000) as u8);
    out.push(((n / 0x10000) % 0x100) as u8);
    out.push(((n / 0x100) % 0x100) as u8);
    out.push((n % 0x100) as u8);
    assert(out@ =~= old(out)@ + be32_bytes(n));
}

/// What decoding a whole buffer yields: the records of every well-formed
/// frame up to, and not including, the first bad one, and the reason the
/// stream stopped if it did not reach the exact end of the buffer.
#[verifier::ext_equal]
pub struct ParseOut {
    pub records: Seq<RecordModel>,
    pub error: Option<DecodeError>,
}

/// The frame-stream parser: walks self-delimiting frames front to back and
/// stops at the first truncated or corrupted frame.
pub open spec fn parse_frames(b: Seq<u8>) -> ParseOut
    decreases b.len(),
{
    if b.len() == 0 {
        ParseOut { records: Seq::empty(), error: None }
    } else if b.len() < 12 {
        ParseOut { records: Seq::empty(), error: Some(DecodeError::Truncated) }
    } else {
        let id = u32_of_be(b.subrange(0, 4));
        let len = u32_of_be(b.subrange(4, 8)) as int;
        if b.len() < 12 + len {
            ParseOut { records: Seq::empty(), error: Some(DecodeError::Truncated) }
        } else {
            let payload = b.subrange(8, 8 + len);
            let stored = u32_of_be(b.subrange(8 + len, 12 + len));
            if stored != crc32_of(payload) {
                ParseOut { records: Seq::empty(), error: Some(DecodeError::ChecksumMismatch) }
            } else {
                let rest = parse_frames(b.subrange(12 + len, b.len() as int));
                ParseOut {
                    records: seq![RecordModel { id, payload, checksum: stored }] + rest.records,
                    error: rest.error,
                }
            }
        }
    }
}

/// The mathematical values of a sequence of records.
pub open spec fn records_view(rs: Seq<Record>) -> Seq<RecordModel> {
    rs.map_values(|r: Record| r@)
}

/// A parse result with earlier records prepended.
pub open spec fn with_prefix(pre: Seq<RecordModel>, out: ParseOut) -> ParseOut {
    ParseOut { records: pre + out.records, error: out.error }
}

/// The outcome of decoding one buffer.
#[derive(Debug)]
pub struct Decoded {
    pub records: Vec<Record>,
    pub error: Option<DecodeError>,
}

impl View for Decoded {
    type V = ParseOut;

    open spec fn view(&self) -> ParseOut {
        ParseOut { records: records_view(self.records@), error: self.error }
    }
}

/// Reads the four big-endian bytes starting at `i`.
fn read_be32(bytes: &Vec<u8>, i: usize) -> (r: u32)
    requires
        i + 4 <= bytes@.len(),
    ensures
        r == u32_of_be(bytes@.subrange(i as int, i as int + 4)),
{
    let n = bytes.len();
    assert(i + 4 <= n);
    let b0 = bytes[i] as u32;
    let b1 = bytes[i + 1] as u32;
    let b2 = bytes[i + 2] as u32;
    let b3 = bytes[i + 3] as u32;
    b0 * 0x1000000 + b1 * 0x10000 + b2 * 0x100 + b3
}

/// Copies `bytes[from..to]` into a fresh vector.
fn copy_range(bytes: &Vec<u8>, from: usize, to: usize) -> (out: Vec<u8>)
    requires
        from <= to <= bytes@.len(),
    ensures
        out@ == bytes@.subrange(from as int, to as int),
{
    let mut out: Vec<u8> = Vec::new();
    let mut j: usize = from;
    while j < to
        invariant
            from <= j <= to <= bytes@.len(),
            out@ == bytes@.subrange(from as int, j as int),
        decreases to - j,
    {
        out.push(bytes[j]);
        j = j + 1;
        assert(out@ =~= bytes@.subrange(from as int, j as int));
    }
    out
}

/// Decodes a buffer as a stream of frames packed back to back, yielding the
/// records of every valid frame before the first bad one. `error` is `None`
/// exactly when the buffer is a whole number of valid frames; decoding stops
/// at the first truncated or corrupted frame rather than resynchronizing.
pub fn decode_stream(bytes: &Vec<u8>) -> (out: Decoded)
    ensures
        out@ == parse_frames(bytes@),
{
    let n = bytes.len();
    let mut records: Vec<Record> = Vec::new();
    let mut i: usize = 0;
    proof {
        assert(bytes@.subrange(0, n as int) =~= bytes@);
        assert(Seq::<RecordModel>::empty() + parse_frames(bytes@).records =~= parse_frames(
            bytes@,
        ).records);
        assert(records_view(records@) =~= Seq::<RecordModel>::empty());
    }
    loop
        invariant
            i <= n,
            n == bytes@.len(),
            parse_frames(bytes@) == with_prefix(
                records_view(records@),
                parse_frames(bytes@.subrange(i as int, n as int)),
            ),
        decreases n - i,
    {
        let ghost suffix = bytes@.subrange(i as int, n as int);
        let remaining = n - i;
        if remaining == 0 {
            proof {
                assert(suffix.len() == 0);
                assert(records_view(records@) + Seq::<RecordModel>::empty() =~= records_view(
                    records@,
                ));
            }
            return Decoded { records, error: None };
        }
        if remaining < 12 {
            proof {
                assert(records_view(records@) + Seq::<RecordModel>::empty() =~= records_view(
                    records@,
                ));
            }
            return Decoded { records, error: Some(DecodeError::Truncated) };
        }
        let id = read_be32(bytes, i);
        let len32 = read_be32(bytes, i + 4);
        let len = len32 as usize;
        proof {
            assert(suffix.subrange(0, 4) =~= bytes@.subrange(i as int, i as int + 4));
            assert(suffix.subrange(4, 8) =~= bytes@.subrange(i as int + 4, i as int + 8));
        }
        if remaining - 12 < len {
            proof {
                assert(suffix.len() < 12 + len32 as int);
                assert(records_view(records@) + Seq::<RecordModel>::empty() =~= records_view(
                    records@,
                ));
            }
            return Decoded { records, error: Some(DecodeError::Truncated) };
        }
        let payload = copy_range(bytes, i + 8, i + 8 + len);
        let computed = crc32_ieee(payload.as_slice());
        let stored = read_be32(bytes, i + 8 + len);
        proof {
            assert(suffix.subrange(8, 8 + len32 as int) =~= bytes@.subrange(
                i as int + 8,
                i as int + 8 + len32 as int,
            ));
            assert(suffix.subrange(8 + len32 as int, 12 + len32 as int) =~= bytes@.subrange(
                i as int + 8 + len32 as int,
                i as int + 12 + len32 as int,
            ));
        }
        if computed != stored {
            proof {
                assert(records_view(records@) + Seq::<RecordModel>::empty() =~= records_view(
                    records@,
                ));
            }
            return Decoded { records, error: Some(DecodeError::ChecksumMismatch) };
        }
        let ghost old_records = records@;
        let ghost pv = payload@;
        records.push(Record { id, payload, checksum: stored });
        i = i + 12 + len;
        proof {
            let rest = bytes@.subrange(i as int, n as int);
            let rec = RecordModel { id, payload: pv, checksum: stored };
            assert(suffix.subrange(12 + len32 as int, suffix.len() as int) =~= rest);
            assert(suffix.subrange(8, 8 + len32 as int) == pv);
            assert(parse_frames(suffix) == ParseOut {
                records: seq![rec] + parse_frames(rest).records,
                error: parse_frames(rest).error,
            });
            assert(records_view(records@) =~= records_view(old_records) + seq![rec]);
            assert(records_view(old_records) + (seq![rec] + parse_frames(rest).records)
                =~= records_view(records@) + parse_frames(rest).records);
        }
    }
}

/// Re-emitting the value read from four big-endian bytes restores them.
pub proof fn lemma_be32_bytes_inverse(b: Seq<u8>)
    requires
        b.len() == 4,
    ensures
        be32_bytes(u32_of_be(b)) == b,
{
    let b0 = b[0];
    let b1 = b[1];
    let b2 = b[2];
    let b3 = b[3];
    let v = u32_of_be(b);
    assert(v / 0x1000000 == b0 && (v / 0x10000) % 0x100 == b1 && (v / 0x100) % 0x100 == b2 && v
        % 0x100 == b3) by (bit_vector)
        requires
            v == (b0 * 0x1000000 + b1 * 0x10000 + b2 * 0x100 + b3) as u32,
    ;
    assert(be32_bytes(v) =~= b);
}

/// Parsing a buffer that begins with one well-formed frame yields that
/// frame's record, followed by whatever the rest of the buffer parses to.
pub proof fn lemma_parse_frame_prefix(id: u32, payload: Seq<u8>, rest: Seq<u8>)
    requires
        payload.len() <= 0xFFFF_FFFF,
    ensures
        parse_frames(frame_bytes(id, payload, crc32_of(payload)) + rest) == (ParseOut {
            records: seq![RecordModel { id, payload, checksum: crc32_of(payload) }]
                + parse_frames(rest).records,
            error: parse_frames(rest).error,
        }),
{
    let crc = crc32_of(payload);
    let f = frame_bytes(id, payload, crc);
    let b = f + rest;
    let len = payload.len() as int;
    assert(b.len() == 12 + len + rest.len());
    assert(b.subrange(0, 4) =~= be32_bytes(id));
    assert(b.subrange(4, 8) =~= be32_bytes(payload.len() as u32));
    lemma_be32_roundtrip(id);
    lemma_be32_roundtrip(payload.len() as u32);
    lemma_be32_roundtrip(crc);
    assert(b.subrange(8, 8 + len) =~= payload);
    assert(b.subrange(8 + len, 12 + len) =~= be32_bytes(crc));
    assert(b.subrange(12 + len, b.len() as int) =~= rest);
}

/// Round trip: decoding one encoded frame yields exactly the record that was
/// encoded — the given id, the given payload, and the payload's CRC-32-IEEE
/// checksum — and no error.
pub proof fn lemma_round_trip(id: u32, payload: Seq<u8>)
    requires
        payload.len() <= 0xFFFF_FFFF,
    ensures
        parse_frames(frame_bytes(id, payload, crc32_of(payload))) == (ParseOut {
            records: seq![RecordModel { id, payload, checksum: crc32_of(payload) }],
            error: None::<DecodeError>,
        }),
{
    let f = frame_bytes(id, payload, crc32_of(payload));
    lemma_parse_frame_prefix(id, payload, Seq::empty());
    assert(f + Seq::<u8>::empty() =~= f);
    assert(seq![RecordModel { id, payload, checksum: crc32_of(payload) }] + Seq::<
        RecordModel,
    >::empty() =~= seq![RecordModel { id, payload, checksum: crc32_of(payload) }]);
}

/// A write sequence: ids with payloads, in insertion order. Every payload
/// must fit a frame's 32-bit length field.
pub open spec fn wf_entries(entries: Seq<(u32, Seq<u8>)>) -> bool {
    forall|k: int| 0 <= k < entries.len() ==> (#[trigger] entries[k]).1.len() <= 0xFFFF_FFFF
}

/// The bytes of a shard file holding exactly these writes, in write order.
pub open spec fn frames_of(entries: Seq<(u32, Seq<u8>)>) -> Seq<u8>
    decreases entries.len(),
{
    if entries.len() == 0 {
        Seq::empty()
    } else {
        frame_bytes(entries[0].0, entries[0].1, crc32_of(entries[0].1)) + frames_of(
            entries.drop_first(),
        )
    }
}

/// The records those writes denote, in write order.
pub open spec fn records_of(entries: Seq<(u32, Seq<u8>)>) -> Seq<RecordModel> {
    entries.map_values(
        |e: (u32, Seq<u8>)| RecordModel { id: e.0, payload: e.1, checksum: crc32_of(e.1) },
    )
}

/// Append-only law: a shard built by appending any number of frames in some
/// order decodes to exactly those records, in insertion order, with no
/// error. Since the file is a plain concatenation, an append never disturbs
/// the bytes — nor the decoding — of the frames already present.
pub proof fn lemma_append_stream(entries: Seq<(u32, Seq<u8>)>)
    requires
        wf_entries(entries),
    ensures
        parse_frames(frames_of(entries)) == (ParseOut {
            records: records_of(entries),
            error: None::<DecodeError>,
        }),
    decreases entries.len(),
{
    if entries.len() == 0 {
        assert(records_of(entries) =~= Seq::<RecordModel>::empty());
    } else {
        let e0 = entries[0];
        let tail = entries.drop_first();
        assert forall|k: int| 0 <= k < tail.len() implies (#[trigger] tail[k]).1.len()
            <= 0xFFFF_FFFF by {
            assert(tail[k] == entries[k + 1]);
        }
        lemma_append_stream(tail);
        lemma_parse_frame_prefix(e0.0, e0.1, frames_of(tail));
        assert(records_of(entries) =~= seq![
            RecordModel { id: e0.0, payload: e0.1, checksum: crc32_of(e0.1) },
        ] + records_of(tail));
    }
}

/// A frame cut short: a nonempty byte run that is too small to hold a frame
/// header, or smaller than the frame its own length field announces — what a
/// write that was interrupted partway leaves at the end of a shard.
pub open spec fn incomplete_frame(t: Seq<u8>) -> bool {
    t.len() > 0 && (t.len() < 12 || t.len() < 12 + u32_of_be(t.subrange(4, 8)))
}

/// Partial-corruption containment: a shard holding any number of valid
/// frames followed by one truncated frame decodes to exactly the valid
/// records, in order, and then reports `Truncated`.
pub proof fn lemma_partial_corruption(entries: Seq<(u32, Seq<u8>)>, tail: Seq<u8>)
    requires
        wf_entries(entries),
        incomplete_frame(tail),
    ensures
        parse_frames(frames_of(entries) + tail) == (ParseOut {
            records: records_of(entries),
            error: Some(DecodeError::Truncated),
        }),
    decreases entries.len(),
{
    if entries.len() == 0 {
        assert(frames_of(entries) + tail =~= tail);
        assert(records_of(entries) =~= Seq::<RecordModel>::empty());
    } else {
        let e0 = entries[0];
        let tl = entries.drop_first();
        assert forall|k: int| 0 <= k < tl.len() implies (#[trigger] tl[k]).1.len()
            <= 0xFFFF_FFFF by {
            assert(tl[k] == entries[k + 1]);
        }
        lemma_partial_corruption(tl, tail);
        let f0 = frame_bytes(e0.0, e0.1, crc32_of(e0.1));
        assert(frames_of(entries) + tail =~= f0 + (frames_of(tl) + tail));
        lemma_parse_frame_prefix(e0.0, e0.1, frames_of(tl) + tail);
        assert(records_of(entries) =~= seq![
            RecordModel { id: e0.0, payload: e0.1, checksum: crc32_of(e0.1) },
        ] + records_of(tl));
    }
}

/// Corruption of a frame's stored checksum is always detected: if any of the
/// four trailing checksum bytes of an encoded frame changes while the rest
/// of the frame stays intact, decoding reports `ChecksumMismatch` and yields
/// no record — never a false-positive success.
pub proof fn lemma_checksum_corruption_detected(
    id: u32,
    payload: Seq<u8>,
    corrupted: Seq<u8>,
    j: int,
)
    requires
        payload.len() <= 0xFFFF_FFFF,
        corrupted.len() == frame_bytes(id, payload, crc32_of(payload)).len(),
        8 + payload.len() <= j < corrupted.len(),
        corrupted[j] != frame_bytes(id, payload, crc32_of(payload))[j],
        forall|k: int|
            0 <= k < corrupted.len() && k != j ==> corrupted[k] == frame_bytes(
                id,
                payload,
                crc32_of(payload),
            )[k],
    ensures
        parse_frames(corrupted) == (ParseOut {
            records: Seq::<RecordModel>::empty(),
            error: Some(DecodeError::ChecksumMismatch),
        }),
{
    let crc = crc32_of(payload);
    let f = frame_bytes(id, payload, crc);
    let len = payload.len() as int;
    assert(corrupted.subrange(0, 4) =~= be32_bytes(id));
    assert(corrupted.subrange(4, 8) =~= be32_bytes(payload.len() as u32));
    lemma_be32_roundtrip(id);
    lemma_be32_roundtrip(payload.len() as u32);
    assert(corrupted.subrange(8, 8 + len) =~= payload);
    let cb = corrupted.subrange(8 + len, 12 + len);
    lemma_be32_bytes_inverse(cb);
    assert(cb[j - 8 - len] != be32_bytes(crc)[j - 8 - len]);
    assert(u32_of_be(cb) != crc) by {
        if u32_of_be(cb) == crc {
            assert(be32_bytes(u32_of_be(cb)) == be32_bytes(crc));
            assert(cb[j - 8 - len] == be32_bytes(crc)[j - 8 - len]);
        }
    }
}

/// Corruption is never silent: whichever single byte of an encoded frame
/// changes, decoding never reproduces the original record as an error-free
/// success — it reports an error, or what it yields differs from what was
/// encoded. A change inside the payload or the stored checksum surfaces as
/// a checksum error or an altered payload; a change to the length prefix
/// truncates the frame or moves the checksum; a change to the id yields a
/// record with a different id.
pub proof fn lemma_corruption_never_silent(id: u32, payload: Seq<u8>, corrupted: Seq<u8>, j: int)
    requires
        payload.len() <= 0xFFFF_FFFF,
        corrupted.len() == frame_bytes(id, payload, crc32_of(payload)).len(),
        0 <= j < corrupted.len(),
        corrupted[j] != frame_bytes(id, payload, crc32_of(payload))[j],
        forall|k: int|
            0 <= k < corrupted.len() && k != j ==> corrupted[k] == frame_bytes(
                id,
                payload,
                crc32_of(payload),
            )[k],
    ensures
        parse_frames(corrupted).error is Some || parse_frames(corrupted).records != seq![
            RecordModel { id, payload, checksum: crc32_of(payload) },
        ],
{
    let crc = crc32_of(payload);
    let f = frame_bytes(id, payload, crc);
    let g = corrupted;
    let len = payload.len() as int;
    let original = RecordModel { id, payload, checksum: crc };
    assert(g.len() == 12 + len);
    if 8 + len <= j {
        lemma_checksum_corruption_detected(id, payload, g, j);
    } else if j < 4 {
        assert(g.subrange(4, 8) =~= be32_bytes(payload.len() as u32));
        assert(g.subrange(8, 8 + len) =~= payload);
        assert(g.subrange(8 + len, 12 + len) =~= be32_bytes(crc));
        lemma_be32_roundtrip(payload.len() as u32);
        lemma_be32_roundtrip(crc);
        let gid = u32_of_be(g.subrange(0, 4));
        assert(gid != id) by {
            lemma_be32_bytes_inverse(g.subrange(0, 4));
            if gid == id {
                assert(g.subrange(0, 4) == be32_bytes(id));
                assert(g.subrange(0, 4)[j] == be32_bytes(id)[j]);
                assert(f[j] == be32_bytes(id)[j]);
            }
        }
        if parse_frames(g).error is None {
            let rec = RecordModel { id: gid, payload, checksum: crc };
            lemma_be32_bytes_inverse(g.subrange(0, 4));
            assert(g =~= frame_bytes(gid, payload, crc));
            lemma_round_trip(gid, payload);
            assert(parse_frames(g).records == seq![rec]);
            assert(parse_frames(g).records != seq![original]) by {
                if parse_frames(g).records == seq![original] {
                    assert(seq![rec][0] == seq![original][0]);
                }
            }
        }
    } else if j < 8 {
        assert(g.subrange(0, 4) =~= be32_bytes(id));
        lemma_be32_roundtrip(id);
        let glen = u32_of_be(g.subrange(4, 8)) as int;
        assert(glen != len) by {
            lemma_be32_bytes_inverse(g.subrange(4, 8));
            lemma_be32_roundtrip(payload.len() as u32);
            if glen == len {
                assert(g.subrange(4, 8) == be32_bytes(payload.len() as u32));
                assert(g.subrange(4, 8)[j - 4] == be32_bytes(payload.len() as u32)[j - 4]);
                assert(f[j] == be32_bytes(payload.len() as u32)[j - 4]);
            }
        }
        if g.len() < 12 + glen {
            assert(parse_frames(g).error == Some(DecodeError::Truncated));
        } else {
            assert(glen < len);
            let gpayload = g.subrange(8, 8 + glen);
            let gstored = u32_of_be(g.subrange(8 + glen, 12 + glen));
            if gstored != crc32_of(gpayload) {
                assert(parse_frames(g).error == Some(DecodeError::ChecksumMismatch));
            } else if parse_frames(g).error is None {
                let rec = RecordModel { id, payload: gpayload, checksum: gstored };
                let rest = parse_frames(g.subrange(12 + glen, g.len() as int));
                assert(parse_frames(g).records == seq![rec] + rest.records);
                assert(parse_frames(g).records != seq![original]) by {
                    if parse_frames(g).records == seq![original] {
                        assert((seq![rec] + rest.records)[0] == seq![original][0]);
                        assert(rec == original);
                        assert(gpayload.len() == payload.len());
                    }
                }
            }
        }
    } else {
        assert(g.subrange(0, 4) =~= be32_bytes(id));
        assert(g.subrange(4, 8) =~= be32_bytes(payload.len() as u32));
        assert(g.subrange(8 + len, 12 + len) =~= be32_bytes(crc));
        lemma_be32_roundtrip(id);
        lemma_be32_roundtrip(payload.len() as u32);
        lemma_be32_roundtrip(crc);
        let gpayload = g.subrange(8, 8 + len);
        assert(gpayload[j - 8] != payload[j - 8]);
        if crc32_of(gpayload) != crc {
            assert(parse_frames(g).error == Some(DecodeError::ChecksumMismatch));
        } else if parse_frames(g).error is None {
            let rec = RecordModel { id, payload: gpayload, checksum: crc };
            assert(g =~= frame_bytes(id, gpayload, crc32_of(gpayload)));
            lemma_round_trip(id, gpayload);
            assert(parse_frames(g).records == seq![rec]);
            assert(parse_frames(g).records != seq![original]) by {
                if parse_frames(g).records == seq![original] {
                    assert(seq![rec][0] == seq![original][0]);
                    assert(gpayload[j - 8] == payload[j - 8]);
                }
            }
        }
    }
}

/// Appends all of `src` to `dst`.
fn append_bytes(dst: &mut Vec<u8>, src: &Vec<u8>)
    ensures
        final(dst)@ == old(dst)@ + src@,
{
    let mut i: usize = 0;
    while i < src.len()
        invariant
            i <= src@.len(),
            dst@ == old(dst)@ + src@.subrange(0, i as int),
        decreases src@.len() - i,
    {
        dst.push(src[i]);
        i = i + 1;
        assert(dst@ =~= old(dst)@ + src@.subrange(0, i as int));
    }
    assert(dst@ =~= old(dst)@ + src@);
}

} // verus!
