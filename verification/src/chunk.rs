//! Chunk framing and the header codec: length-prefixed, four-byte-tagged
//! blocks, with unrecognized tags skipped.

use vstd::prelude::*;
use crate::error::{ErrorKind, MidiError};
use crate::event::Event;
use crate::num::{
    be16, be32, be16_bytes, be32_bytes, read_u16, read_u32, write_u16, write_u32,
    lemma_be16_round_trip, lemma_be32_round_trip,
};
use crate::track::{trk_enc, wf_events};

verus! {

/// The format of a file: how its tracks relate to one another.
#[derive(Clone, Copy, Debug, PartialEq, Eq, Structural)]
pub enum Format {
    /// A single track holding every event.
    SingleTrack,
    /// Multiple tracks meant to be played simultaneously.
    MultiTrackSync,
    /// Multiple independent tracks.
    MultiTrackAsync,
}

/// How delta-times are to be interpreted.
#[derive(Clone, Copy, Debug, PartialEq, Eq, Structural)]
pub enum Timing {
    /// Ticks per quarter note; holds fifteen bits.
    Metrical(u16),
    /// A negated frame rate (a negative byte) and ticks per frame.
    Timecode(i8, u8),
}

/// A file header: the format and the timing of the file.
#[derive(Clone, Copy, Debug, PartialEq, Eq, Structural)]
pub struct Header {
    pub format: Format,
    pub timing: Timing,
}

impl Header {
    /// A metrical timing fits fifteen bits; a timecode frame-rate byte is
    /// negative, so that its high bit marks the timecode variant on the wire.
    pub open spec fn wf(&self) -> bool {
        match self.timing {
            Timing::Metrical(t) => t < 0x8000,
            Timing::Timecode(nf, _) => nf < 0,
        }
    }

    pub fn new(format: Format, timing: Timing) -> (r: Header)
        ensures
            r.format == format,
            r.timing == timing,
    {
        Header { format, timing }
    }

    /// Reads a header and the declared track count from a header chunk's
    /// payload. Extra payload bytes beyond the first six are ignored.
    pub fn read(p: &[u8]) -> (r: Option<(Header, u16)>)
        ensures
            match r {
                Some((h, tc)) => header_dec(p@) == Some((h, tc)),
                None => header_dec(p@) is None,
            },
    {
        if p.len() < 6 {
            return None;
        }
        let f = read_u16(p, 0);
        let tc = read_u16(p, 2);
        let t = read_u16(p, 4);
        let format = if f == 0 {
            Format::SingleTrack
        } else if f == 1 {
            Format::MultiTrackSync
        } else if f == 2 {
            Format::MultiTrackAsync
        } else {
            return None;
        };
        let timing = if t < 0x8000 {
            Timing::Metrical(t)
        } else {
            Timing::Timecode(*vstd::slice::slice_index_get(p, 4) as i8, *vstd::slice::slice_index_get(p, 5))
        };
        Some((Header { format, timing }, tc))
    }

    /// Encodes this header and a declared track count as the six payload
    /// bytes of a header chunk.
    pub fn encode(&self, track_count: u16) -> (r: Vec<u8>)
        ensures
            r@ == header_enc(*self, track_count),
    {
        let mut out: Vec<u8> = Vec::new();
        match self.format {
            Format::SingleTrack => write_u16(0, &mut out),
            Format::MultiTrackSync => write_u16(1, &mut out),
            Format::MultiTrackAsync => write_u16(2, &mut out),
        }
        write_u16(track_count, &mut out);
        match self.timing {
            Timing::Metrical(t) => write_u16(t, &mut out),
            Timing::Timecode(nf, tpf) => {
                out.push(nf as u8);
                out.push(tpf);
            },
        }
        assert(out@ =~= header_enc(*self, track_count));
        out
    }
}

/// Decodes a header chunk's payload: format, declared track count, timing.
/// The timing word's high bit selects the metrical or timecode variant.
pub open spec fn header_dec(p: Seq<u8>) -> Option<(Header, u16)> {
    if p.len() < 6 {
        None
    } else {
        let f = be16(p, 0);
        let tc = be16(p, 2);
        let t = be16(p, 4);
        if f == 0 || f == 1 || f == 2 {
            let format = if f == 0 {
                Format::SingleTrack
            } else if f == 1 {
                Format::MultiTrackSync
            } else {
                Format::MultiTrackAsync
            };
            let timing = if t < 0x8000 {
                Timing::Metrical(t as u16)
            } else {
                Timing::Timecode(p[4] as i8, p[5])
            };
            Some((Header { format, timing }, tc as u16))
        } else {
            None
        }
    }
}

/// The two-byte encoding of a format.
pub open spec fn format_bytes(f: Format) -> Seq<u8> {
    match f {
        Format::SingleTrack => seq![0u8, 0u8],
        Format::MultiTrackSync => seq![0u8, 1u8],
        Format::MultiTrackAsync => seq![0u8, 2u8],
    }
}

/// The two-byte encoding of a timing.
pub open spec fn timing_bytes(t: Timing) -> Seq<u8> {
    match t {
        Timing::Metrical(v) => be16_bytes(v as int),
        Timing::Timecode(nf, tpf) => seq![nf as u8, tpf],
    }
}

/// The six payload bytes of a header chunk.
pub open spec fn header_enc(h: Header, tc: u16) -> Seq<u8> {
    format_bytes(h.format) + be16_bytes(tc as int) + timing_bytes(h.timing)
}

/// Decoding an encoded well-formed header yields the header and the declared
/// track count back.
pub proof fn lemma_header_round_trip(h: Header, tc: u16)
    requires
        h.wf(),
    ensures
        header_dec(header_enc(h, tc)) == Some((h, tc)),
{
    let p = header_enc(h, tc);
    assert(p.len() == 6);
    assert(p.subrange(2, 4) =~= be16_bytes(tc as int));
    lemma_be16_round_trip(p, 2, tc as int);
    match h.format {
        Format::SingleTrack => {
            assert(be16(p, 0) == 0);
        },
        Format::MultiTrackSync => {
            assert(be16(p, 0) == 1);
        },
        Format::MultiTrackAsync => {
            assert(be16(p, 0) == 2);
        },
    }
    match h.timing {
        Timing::Metrical(t) => {
            assert(p.subrange(4, 6) =~= be16_bytes(t as int));
            lemma_be16_round_trip(p, 4, t as int);
            assert(be16(p, 4) == t < 0x8000);
        },
        Timing::Timecode(nf, tpf) => {
            assert(p[4] == nf as u8);
            assert(p[5] == tpf);
            assert(nf < 0 ==> (nf as u8) >= 0x80) by (bit_vector);
            assert((nf as u8) as i8 == nf) by (bit_vector);
            assert(be16(p, 4) >= 0x8000);
        },
    }
}

/// The four-byte tag of a header chunk: `"MThd"`.
pub open spec fn mthd() -> Seq<u8> {
    seq![0x4Du8, 0x54u8, 0x68u8, 0x64u8]
}

/// The four-byte tag of a track chunk: `"MTrk"`.
pub open spec fn mtrk() -> Seq<u8> {
    seq![0x4Du8, 0x54u8, 0x72u8, 0x6Bu8]
}

/// What reading up to the next recognized chunk from position `i` yields.
pub ghost enum ChunkStep {
    /// Exactly at the end of the input: no more chunks.
    End,
    /// The chunk's tag or length could not be read (`Invalid`), or its
    /// payload is cut off under the strict policy (`Malformed`).
    Fail(ErrorKind),
    /// A header chunk: its payload bounds and the next read position.
    Head { ps: int, pe: int, next: int },
    /// A track chunk: its payload bounds and the next read position.
    Track { ps: int, pe: int, next: int },
}

/// Reads the next recognized chunk at or after position `i`: a tag, a
/// four-byte big-endian length, and that many payload bytes. Chunks with an
/// unrecognized tag are skipped silently. A payload cut off by the end of the
/// input is an error under the strict policy; under the lenient policy the
/// remainder of the input serves as the payload (and a cut-off unrecognized
/// chunk simply ends the sequence).
pub open spec fn next_chunk(s: Seq<u8>, i: int, lenient: bool) -> ChunkStep
    decreases s.len() - i
        when 0 <= i <= s.len()
{
    if i == s.len() {
        ChunkStep::End
    } else if i + 8 > s.len() {
        ChunkStep::Fail(ErrorKind::Invalid)
    } else {
        let id = s.subrange(i, i + 4);
        let len = be32(s, i + 4);
        let ps = i + 8;
        if ps + len <= s.len() {
            let pe = ps + len;
            if id == mthd() {
                ChunkStep::Head { ps, pe, next: pe }
            } else if id == mtrk() {
                ChunkStep::Track { ps, pe, next: pe }
            } else {
                next_chunk(s, pe, lenient)
            }
        } else if !lenient {
            ChunkStep::Fail(ErrorKind::Malformed)
        } else {
            if id == mthd() {
                ChunkStep::Head { ps, pe: s.len() as int, next: s.len() as int }
            } else if id == mtrk() {
                ChunkStep::Track { ps, pe: s.len() as int, next: s.len() as int }
            } else {
                ChunkStep::End
            }
        }
    }
}

/// A recognized chunk lies within the input and advances the read position.
pub proof fn lemma_next_chunk_bounds(s: Seq<u8>, i: int, lenient: bool)
    requires
        0 <= i <= s.len(),
    ensures
        match next_chunk(s, i, lenient) {
            ChunkStep::Head { ps, pe, next } => i < ps <= pe <= s.len() && pe == next,
            ChunkStep::Track { ps, pe, next } => i < ps <= pe <= s.len() && pe == next,
            _ => true,
        },
    decreases s.len() - i,
{
    if i == s.len() {
    } else if i + 8 > s.len() {
    } else {
        let len = be32(s, i + 4);
        assert(len >= 0);
        if i + 8 + len <= s.len() {
            lemma_next_chunk_bounds(s, i + 8 + len, lenient);
        }
    }
}

/// Whether `c2` is `c1` with every position moved right by `d`.
pub open spec fn chunk_step_shifted(c1: ChunkStep, c2: ChunkStep, d: int) -> bool {
    match c1 {
        ChunkStep::End => c2 == ChunkStep::End,
        ChunkStep::Fail(k) => c2 == ChunkStep::Fail(k),
        ChunkStep::Head { ps, pe, next } => c2 == (ChunkStep::Head {
            ps: ps + d,
            pe: pe + d,
            next: next + d,
        }),
        ChunkStep::Track { ps, pe, next } => c2 == (ChunkStep::Track {
            ps: ps + d,
            pe: pe + d,
            next: next + d,
        }),
    }
}

/// Chunk reading sees only the bytes at and after its position: where two
/// buffers agree from `i1` and `i2` on, the chunks found correspond, position
/// for position.
pub proof fn lemma_next_chunk_shift(s1: Seq<u8>, i1: int, s2: Seq<u8>, i2: int, lenient: bool)
    requires
        0 <= i1 <= s1.len(),
        0 <= i2 <= s2.len(),
        s1.subrange(i1, s1.len() as int) == s2.subrange(i2, s2.len() as int),
    ensures
        chunk_step_shifted(next_chunk(s1, i1, lenient), next_chunk(s2, i2, lenient), i2 - i1),
    decreases s1.len() - i1,
{
    let u = s1.subrange(i1, s1.len() as int);
    let d = i2 - i1;
    assert(s2.len() - i2 == u.len());
    if i1 == s1.len() {
    } else if i1 + 8 > s1.len() {
    } else {
        assert(s1.subrange(i1, i1 + 4) =~= u.subrange(0, 4));
        assert(s2.subrange(i2, i2 + 4) =~= u.subrange(0, 4));
        assert(s1[i1 + 4] == u[4] && s2[i2 + 4] == u[4]);
        assert(s1[i1 + 5] == u[5] && s2[i2 + 5] == u[5]);
        assert(s1[i1 + 6] == u[6] && s2[i2 + 6] == u[6]);
        assert(s1[i1 + 7] == u[7] && s2[i2 + 7] == u[7]);
        assert(be32(s1, i1 + 4) == be32(s2, i2 + 4));
        let len = be32(s1, i1 + 4);
        assert(len >= 0);
        if i1 + 8 + len <= s1.len() {
            let id = s1.subrange(i1, i1 + 4);
            if id == mthd() || id == mtrk() {
            } else {
                assert(s1.subrange(i1 + 8 + len, s1.len() as int) =~= u.subrange(
                    8 + len,
                    u.len() as int,
                ));
                assert(s2.subrange(i2 + 8 + len, s2.len() as int) =~= u.subrange(
                    8 + len,
                    u.len() as int,
                ));
                lemma_next_chunk_shift(s1, i1 + 8 + len, s2, i2 + 8 + len, lenient);
            }
        }
    }
}

/// What the executable chunk reader yields: the counterpart of `ChunkStep`
/// with machine positions.
pub enum ChunkRead {
    End,
    Fail(ErrorKind),
    Head { ps: usize, pe: usize, next: usize },
    Track { ps: usize, pe: usize, next: usize },
}

/// Reads the next recognized chunk at or after position `i` of `s`.
pub fn read_chunk(s: &[u8], i: usize, lenient: bool) -> (r: ChunkRead)
    requires
        i <= s@.len(),
    ensures
        match r {
            ChunkRead::End => next_chunk(s@, i as int, lenient) == ChunkStep::End,
            ChunkRead::Fail(k) => next_chunk(s@, i as int, lenient) == ChunkStep::Fail(k),
            ChunkRead::Head { ps, pe, next } => next_chunk(s@, i as int, lenient)
                == (ChunkStep::Head { ps: ps as int, pe: pe as int, next: next as int })
                && i < ps <= pe <= s@.len() && pe == next,
            ChunkRead::Track { ps, pe, next } => next_chunk(s@, i as int, lenient)
                == (ChunkStep::Track { ps: ps as int, pe: pe as int, next: next as int })
                && i < ps <= pe <= s@.len() && pe == next,
        },
{
    let n: usize = s.len();
    let mut p: usize = i;
    loop
        invariant
            i <= p <= n,
            n == s@.len(),
            next_chunk(s@, i as int, lenient) == next_chunk(s@, p as int, lenient),
        decreases n - p,
    {
        if p == n {
            return ChunkRead::End;
        }
        if n - p < 8 {
            return ChunkRead::Fail(ErrorKind::Invalid);
        }
        let b0 = *vstd::slice::slice_index_get(s, p);
        let b1 = *vstd::slice::slice_index_get(s, p + 1);
        let b2 = *vstd::slice::slice_index_get(s, p + 2);
        let b3 = *vstd::slice::slice_index_get(s, p + 3);
        let is_mthd = b0 == 0x4D && b1 == 0x54 && b2 == 0x68 && b3 == 0x64;
        let is_mtrk = b0 == 0x4D && b1 == 0x54 && b2 == 0x72 && b3 == 0x6B;
        proof {
            let id = s@.subrange(p as int, p as int + 4);
            assert(id[0] == b0 && id[1] == b1 && id[2] == b2 && id[3] == b3);
            if is_mthd {
                assert(id =~= mthd());
            }
            if is_mtrk {
                assert(id =~= mtrk());
            }
        }
        let len32 = read_u32(s, p + 4);
        let len = len32 as usize;
        let ps = p + 8;
        if len <= n - ps {
            let pe = ps + len;
            if is_mthd {
                return ChunkRead::Head { ps, pe, next: pe };
            } else if is_mtrk {
                return ChunkRead::Track { ps, pe, next: pe };
            } else {
                p = pe;
            }
        } else if !lenient {
            return ChunkRead::Fail(ErrorKind::Malformed);
        } else {
            if is_mthd {
                return ChunkRead::Head { ps, pe: n, next: n };
            } else if is_mtrk {
                return ChunkRead::Track { ps, pe: n, next: n };
            } else {
                return ChunkRead::End;
            }
        }
    }
}

/// The full wire form of a header chunk: tag, length six, six payload bytes.
pub open spec fn header_chunk_enc(h: Header, tc: u16) -> Seq<u8> {
    mthd() + be32_bytes(6) + header_enc(h, tc)
}

/// The full wire form of a track chunk: tag, payload length, the encoded
/// event stream.
pub open spec fn track_chunk_enc(es: Seq<crate::event::SpecEvent>) -> Seq<u8> {
    mtrk() + be32_bytes(trk_enc(es, None).len() as int) + trk_enc(es, None)
}

/// Writes a header chunk. Fails when the actual track count does not fit the
/// sixteen-bit wire field; `out` is then left unchanged.
pub fn write_header_chunk(h: &Header, track_count: usize, out: &mut Vec<u8>) -> (r: Result<
    (),
    MidiError,
>)
    ensures
        r is Ok <==> track_count <= 0xFFFF,
        r is Ok ==> final(out)@ == old(out)@ + header_chunk_enc(*h, track_count as u16),
        r matches Err(e) ==> e.kind == ErrorKind::InvalidInput && final(out)@ == old(out)@,
{
    if track_count > 0xFFFF {
        return Err(MidiError::invalid_input("track count exceeds 16-bit range"));
    }
    out.push(0x4D);
    out.push(0x54);
    out.push(0x68);
    out.push(0x64);
    write_u32(6, out);
    let payload = h.encode(track_count as u16);
    crate::event::push_bytes(out, payload.as_slice());
    assert(final(out)@ =~= old(out)@ + header_chunk_enc(*h, track_count as u16));
    Ok(())
}

/// Serializes one track's events into `scratch` (cleared first, with the
/// running status reset for the new track), then flushes them to `out` as a
/// framed track chunk. Fails when the encoded stream does not fit the
/// 32-bit length field; `out` is then left unchanged.
pub fn write_track_chunk(track: &Vec<Event>, scratch: &mut Vec<u8>, out: &mut Vec<u8>) -> (r:
    Result<(), MidiError>)
    requires
        wf_events(track.deep_view()),
    ensures
        r is Ok <==> trk_enc(track.deep_view(), None).len() <= 0xFFFFFFFF,
        r is Ok ==> final(out)@ == old(out)@ + track_chunk_enc(track.deep_view()),
        r matches Err(e) ==> e.kind == ErrorKind::InvalidInput && final(out)@ == old(out)@,
{
    let ghost es = track.deep_view();
    scratch.clear();
    proof {
        assert(es.skip(0) =~= es);
        assert(scratch@ + trk_enc(es, None) =~= trk_enc(es, None));
    }
    let mut rs: Option<u8> = None;
    let n = track.len();
    let mut k: usize = 0;
    while k < n
        invariant
            k <= n,
            n == track@.len(),
            es == track.deep_view(),
            wf_events(es),
            scratch@ + trk_enc(es.skip(k as int), rs) == trk_enc(es, None),
        decreases n - k,
    {
        let ghost pre = scratch@;
        let ghost rs0 = rs;
        proof {
            assert(es.skip(k as int)[0] == es[k as int]);
            assert(es.skip(k as int).drop_first() =~= es.skip(k as int + 1));
            assert(track@[k as int].deep_view() == es[k as int]);
        }
        let ev = &track[k];
        ev.write(&mut rs, scratch);
        proof {
            assert(trk_enc(es.skip(k as int), rs0) == crate::event::ev_enc(es[k as int], rs0)
                + trk_enc(es.skip(k as int + 1), rs));
            assert(scratch@ + trk_enc(es.skip(k as int + 1), rs) =~= pre + trk_enc(
                es.skip(k as int),
                rs0,
            ));
        }
        k = k + 1;
    }
    assert(es.skip(n as int) =~= Seq::<crate::event::SpecEvent>::empty());
    assert(scratch@ =~= trk_enc(es, None));
    if scratch.len() > 0xFFFFFFFFusize {
        return Err(MidiError::invalid_input("midi chunk size exceeds 32-bit range"));
    }
    out.push(0x4D);
    out.push(0x54);
    out.push(0x72);
    out.push(0x6B);
    write_u32(scratch.len() as u32, out);
    crate::event::push_bytes(out, scratch.as_slice());
    assert(final(out)@ =~= old(out)@ + track_chunk_enc(es));
    Ok(())
}

} // verus!
