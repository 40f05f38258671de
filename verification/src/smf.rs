//! The container: parsing a header plus its tracks under the chosen
//! policy, the threshold-triggered parallel track decode, the encoder, and
//! the laws that tie decoding and encoding together.

use vstd::prelude::*;
use rayon::iter::{IntoParallelRefIterator, ParallelIterator};
use crate::error::{ErrorKind, MidiError};
use crate::event::{Event, SpecEvent, wf_event};
use crate::track::{EventIter, EventBytemapIter, trk_events, trk_ok, trk_scan};
use crate::track::{trk_enc, wf_events, lemma_trk_events_wf, lemma_trk_round_trip};
use crate::num::{be32_bytes, lemma_be32_round_trip};
use crate::chunk::{
    Header, Format, ChunkStep, ChunkRead, next_chunk, read_chunk, header_dec, header_enc,
    header_chunk_enc, track_chunk_enc, write_header_chunk, write_track_chunk, mthd, mtrk,
    chunk_step_shifted, lemma_next_chunk_bounds, lemma_next_chunk_shift, lemma_header_round_trip,
};

verus! {

/// How many undecoded bytes a parse call must face before the per-track
/// decodes are dispatched to a worker pool instead of run in sequence.
pub const PARALLEL_ENABLE_THRESHOLD: usize = 4096;

/// What stepping to the next track chunk from position `i` yields. A header
/// chunk met here is a duplicate: fatal under the strict policy, skipped
/// under the lenient policy. A chunk-framing failure is fatal under the
/// strict policy; under the lenient policy it silently ends the sequence.
pub ghost enum TrackStep {
    End,
    Fail,
    Span { ps: int, pe: int, next: int },
}

/// Steps to the next track chunk at or after position `i`.
pub open spec fn next_track(s: Seq<u8>, i: int, lenient: bool) -> TrackStep
    decreases s.len() - i
        when 0 <= i <= s.len()
        via next_track_dec
{
    match next_chunk(s, i, lenient) {
        ChunkStep::End => TrackStep::End,
        ChunkStep::Fail(k) => if lenient {
            TrackStep::End
        } else {
            TrackStep::Fail
        },
        ChunkStep::Head { ps, pe, next } => if lenient {
            next_track(s, next, lenient)
        } else {
            TrackStep::Fail
        },
        ChunkStep::Track { ps, pe, next } => TrackStep::Span { ps, pe, next },
    }
}

#[via_fn]
proof fn next_track_dec(s: Seq<u8>, i: int, lenient: bool) {
    lemma_next_chunk_bounds(s, i, lenient);
}

/// A track chunk found by `next_track` lies within the input and advances
/// the read position.
pub proof fn lemma_next_track_bounds(s: Seq<u8>, i: int, lenient: bool)
    requires
        0 <= i <= s.len(),
    ensures
        match next_track(s, i, lenient) {
            TrackStep::Span { ps, pe, next } => i < ps <= pe <= s.len() && pe == next,
            _ => true,
        },
    decreases s.len() - i,
{
    lemma_next_chunk_bounds(s, i, lenient);
    match next_chunk(s, i, lenient) {
        ChunkStep::Head { ps, pe, next } => {
            if lenient {
                lemma_next_track_bounds(s, next, lenient);
            }
        },
        _ => {},
    }
}

/// The payload spans of the track chunks at or after position `i`, in
/// left-to-right chunk order. Under the strict policy a framing failure or a
/// duplicate header chunk is an error.
pub open spec fn track_spans(s: Seq<u8>, i: int, lenient: bool) -> Result<
    Seq<(int, int)>,
    ErrorKind,
>
    decreases s.len() - i
        when 0 <= i <= s.len()
        via track_spans_dec
{
    match next_track(s, i, lenient) {
        TrackStep::End => Ok(Seq::empty()),
        TrackStep::Fail => Err(ErrorKind::Malformed),
        TrackStep::Span { ps, pe, next } => match track_spans(s, next, lenient) {
            Ok(r) => Ok(seq![(ps, pe)] + r),
            Err(k) => Err(k),
        },
    }
}

#[via_fn]
proof fn track_spans_dec(s: Seq<u8>, i: int, lenient: bool) {
    lemma_next_track_bounds(s, i, lenient);
}

/// The events one track span decodes to: its bytes alone, from a fresh
/// running-status register.
pub open spec fn span_events(s: Seq<u8>, sp: (int, int)) -> Seq<SpecEvent> {
    trk_events(s.subrange(sp.0, sp.1), 0, None)
}

/// Whether one track span decodes cleanly to its end.
pub open spec fn span_ok(s: Seq<u8>, sp: (int, int)) -> bool {
    trk_ok(s.subrange(sp.0, sp.1), 0, None)
}

/// The events of every span, in span order.
pub open spec fn decode_spans(s: Seq<u8>, spans: Seq<(int, int)>) -> Seq<Seq<SpecEvent>> {
    spans.map_values(|sp: (int, int)| span_events(s, sp))
}

/// Every span decodes cleanly.
pub open spec fn all_spans_ok(s: Seq<u8>, spans: Seq<(int, int)>) -> bool {
    forall|k: int| 0 <= k < spans.len() ==> span_ok(s, #[trigger] spans[k])
}

/// What collecting the tracks at or after position `i` yields: the decoded
/// event sequences in chunk order; under the strict policy, an error when the
/// chunk framing or any one track's event stream is corrupt.
pub open spec fn tracks_collect(s: Seq<u8>, i: int, lenient: bool) -> Result<
    Seq<Seq<SpecEvent>>,
    ErrorKind,
> {
    match track_spans(s, i, lenient) {
        Err(k) => Err(k),
        Ok(spans) => if !lenient && !all_spans_ok(s, spans) {
            Err(ErrorKind::Malformed)
        } else {
            Ok(decode_spans(s, spans))
        },
    }
}

/// Decodes the first recognized chunk as the header chunk: the file's header
/// and its declared track count, plus the position where the tracks begin.
/// Anything else — no chunk at all, an unreadable chunk, a track chunk first,
/// or an undecodable header payload — makes the input unrecognizable.
pub open spec fn parse_spec(s: Seq<u8>, lenient: bool) -> Result<(Header, u16, int), ErrorKind> {
    match next_chunk(s, 0, lenient) {
        ChunkStep::End => Err(ErrorKind::Invalid),
        ChunkStep::Fail(_) => Err(ErrorKind::Invalid),
        ChunkStep::Track { .. } => Err(ErrorKind::Invalid),
        ChunkStep::Head { ps, pe, next } => match header_dec(s.subrange(ps, pe)) {
            None => Err(ErrorKind::Invalid),
            Some((h, tc)) => Ok((h, tc, next)),
        },
    }
}

/// The strict structural invariants of a container: the declared track count
/// matches the actual one, and a single-track file holds exactly one track.
/// The lenient policy waives both.
pub open spec fn validate_ok(h: Header, hint: u16, count: int, lenient: bool) -> bool {
    lenient || (hint == count && (h.format == Format::SingleTrack ==> count == 1))
}

/// What a whole parse yields: the header and the decoded tracks, or the
/// first error the policy does not absorb.
pub open spec fn smf_parse_spec(s: Seq<u8>, lenient: bool) -> Result<
    (Header, Seq<Seq<SpecEvent>>),
    ErrorKind,
> {
    match parse_spec(s, lenient) {
        Err(k) => Err(k),
        Ok((h, tc, next)) => match tracks_collect(s, next, lenient) {
            Err(k) => Err(k),
            Ok(tracks) => if validate_ok(h, tc, tracks.len() as int, lenient) {
                Ok((h, tracks))
            } else {
                Err(ErrorKind::Malformed)
            },
        },
    }
}

/// Validates the header-versus-tracks invariants after decode, under the
/// chosen policy.
pub fn validate_smf(header: &Header, track_count_hint: u16, track_count: usize, lenient: bool) -> (r:
    Result<(), MidiError>)
    ensures
        r is Ok <==> validate_ok(*header, track_count_hint, track_count as int, lenient),
        r matches Err(e) ==> e.kind == ErrorKind::Malformed,
{
    if !lenient {
        if !(track_count_hint as usize == track_count) {
            return Err(MidiError::malformed("file has a different amount of tracks than declared"));
        }
        let single = match header.format {
            Format::SingleTrack => true,
            _ => false,
        };
        if single && track_count != 1 {
            return Err(MidiError::malformed("singletrack format file has multiple tracks"));
        }
    }
    Ok(())
}

/// An iterator over the track chunks of a file: an explicit cursor into the
/// undecoded remainder, plus the declared track count and the policy chosen
/// at the parse entry point.
#[derive(Clone, Copy, Debug)]
pub struct TrackIter<'a> {
    pub raw: &'a [u8],
    pub pos: usize,
    pub track_count_hint: u16,
    pub lenient: bool,
}

impl<'a> TrackIter<'a> {
    /// The cursor stays within the buffer.
    pub open spec fn wf(&self) -> bool {
        self.pos <= self.raw@.len()
    }

    /// The remaining unread bytes.
    pub fn unread(&self) -> (r: &'a [u8])
        requires
            self.wf(),
        ensures
            r@ == self.raw@.subrange(self.pos as int, self.raw@.len() as int),
    {
        vstd::slice::slice_subrange(self.raw, self.pos, self.raw.len())
    }

    /// Steps to the next track chunk and hands out an event decoder over its
    /// payload. On any error the cursor is forced to the end of the input so
    /// no chunk can be derived from a corrupted position afterward; under the
    /// strict policy the error surfaces, under the lenient policy the
    /// sequence simply ends.
    pub fn next(&mut self) -> (r: Option<Result<EventIter<'a>, MidiError>>)
        requires
            old(self).wf(),
        ensures
            final(self).wf(),
            final(self).raw == old(self).raw,
            final(self).lenient == old(self).lenient,
            ({
                let s = old(self).raw@;
                let i = old(self).pos as int;
                let m = old(self).lenient;
                match next_track(s, i, m) {
                    TrackStep::End => r is None && final(self).pos == s.len(),
                    TrackStep::Fail => {
                        &&& r matches Some(Err(e)) && e.kind == ErrorKind::Malformed
                        &&& final(self).pos == s.len()
                    },
                    TrackStep::Span { ps, pe, next } => {
                        &&& r matches Some(Ok(it)) && it.raw@ == s.subrange(ps, pe) && it.pos == 0
                            && it.running_status is None && it.lenient == m
                        &&& final(self).pos == next
                    },
                }
            }),
    {
        let ghost s = self.raw@;
        let ghost i0 = self.pos as int;
        let n = self.raw.len();
        loop
            invariant
                self.wf(),
                self.raw@ == s,
                n == s.len(),
                i0 <= self.pos as int,
                self.raw == old(self).raw,
                self.lenient == old(self).lenient,
                i0 == old(self).pos as int,
                next_track(s, i0, self.lenient) == next_track(s, self.pos as int, self.lenient),
            decreases n - self.pos,
        {
            let ghost p = self.pos as int;
            proof {
                lemma_next_chunk_bounds(s, p, self.lenient);
            }
            match read_chunk(self.raw, self.pos, self.lenient) {
                ChunkRead::End => {
                    self.pos = n;
                    return None;
                },
                ChunkRead::Fail(_) => {
                    self.pos = n;
                    if self.lenient {
                        return None;
                    } else {
                        return Some(Err(MidiError::malformed("invalid chunk")));
                    }
                },
                ChunkRead::Head { ps, pe, next } => {
                    if self.lenient {
                        self.pos = next;
                    } else {
                        self.pos = n;
                        return Some(Err(MidiError::malformed("found duplicate header")));
                    }
                },
                ChunkRead::Track { ps, pe, next } => {
                    self.pos = next;
                    let span = vstd::slice::slice_subrange(self.raw, ps, pe);
                    return Some(Ok(EventIter::new(span, self.lenient)));
                },
            }
        }
    }
}

/// What the executable track stepper yields: the counterpart of `TrackStep`
/// with machine positions.
enum SpanRead {
    End,
    Fail { message: &'static str },
    Span { ps: usize, pe: usize, next: usize },
}

/// Steps to the next track chunk at or after position `i` of `s`.
fn next_span(s: &[u8], i: usize, lenient: bool) -> (r: SpanRead)
    requires
        i <= s@.len(),
    ensures
        match r {
            SpanRead::End => next_track(s@, i as int, lenient) == TrackStep::End,
            SpanRead::Fail { message } => next_track(s@, i as int, lenient) == TrackStep::Fail,
            SpanRead::Span { ps, pe, next } => next_track(s@, i as int, lenient)
                == (TrackStep::Span { ps: ps as int, pe: pe as int, next: next as int })
                && i < ps <= pe <= s@.len() && pe == next,
        },
{
    let n: usize = s.len();
    let mut p: usize = i;
    loop
        invariant
            i <= p <= n,
            n == s@.len(),
            next_track(s@, i as int, lenient) == next_track(s@, p as int, lenient),
        decreases n - p,
    {
        proof {
            lemma_next_chunk_bounds(s@, p as int, lenient);
        }
        match read_chunk(s, p, lenient) {
            ChunkRead::End => {
                return SpanRead::End;
            },
            ChunkRead::Fail(_) => {
                if lenient {
                    return SpanRead::End;
                } else {
                    return SpanRead::Fail { message: "invalid chunk" };
                }
            },
            ChunkRead::Head { ps, pe, next } => {
                if lenient {
                    p = next;
                } else {
                    return SpanRead::Fail { message: "found duplicate header" };
                }
            },
            ChunkRead::Track { ps, pe, next } => {
                return SpanRead::Span { ps, pe, next };
            },
        }
    }
}

/// The mathematical spans behind a vector of machine spans.
pub open spec fn spans_view(v: Seq<(usize, usize)>) -> Seq<(int, int)> {
    v.map_values(|p: (usize, usize)| (p.0 as int, p.1 as int))
}

/// Decodes one track span eagerly: its bytes alone, from a fresh
/// running-status register, under the chosen policy.
pub fn decode_track_span(raw: &[u8], ps: usize, pe: usize, lenient: bool) -> (r: Result<
    Vec<Event>,
    MidiError,
>)
    requires
        ps <= pe <= raw@.len(),
    ensures
        span_result_matches(raw@, (ps as int, pe as int), lenient, r),
{
    let span = vstd::slice::slice_subrange(raw, ps, pe);
    EventIter::new(span, lenient).collect()
}

/// Whether `r` is what decoding the track span `sp` of `s` yields under the
/// chosen policy.
pub open spec fn span_result_matches(
    s: Seq<u8>,
    sp: (int, int),
    lenient: bool,
    r: Result<Vec<Event>, MidiError>,
) -> bool {
    match r {
        Ok(es) => es.deep_view() == span_events(s, sp) && (lenient || span_ok(s, sp)),
        Err(e) => !lenient && !span_ok(s, sp) && e.kind == ErrorKind::Malformed,
    }
}

/// The event-and-source-bytes pairs one track span decodes to.
pub open spec fn span_scan(s: Seq<u8>, sp: (int, int)) -> Seq<(Seq<u8>, SpecEvent)> {
    trk_scan(s.subrange(sp.0, sp.1), 0, None).0
}

/// Decodes one track span eagerly, each event paired with its exact source
/// bytes.
pub fn decode_track_span_bytemapped<'a>(
    raw: &'a [u8],
    ps: usize,
    pe: usize,
    lenient: bool,
) -> (r: Result<Vec<(&'a [u8], Event)>, MidiError>)
    requires
        ps <= pe <= raw@.len(),
    ensures
        span_bm_result_matches(raw@, (ps as int, pe as int), lenient, r),
{
    let span = vstd::slice::slice_subrange(raw, ps, pe);
    EventBytemapIter::new(span, lenient).collect()
}

/// Whether `r` is what the bytemapped decode of the track span `sp` of `s`
/// yields under the chosen policy.
pub open spec fn span_bm_result_matches(
    s: Seq<u8>,
    sp: (int, int),
    lenient: bool,
    r: Result<Vec<(&[u8], Event)>, MidiError>,
) -> bool {
    match r {
        Ok(es) => es.deep_view() == span_scan(s, sp) && (lenient || span_ok(s, sp)),
        Err(e) => !lenient && !span_ok(s, sp) && e.kind == ErrorKind::Malformed,
    }
}

/// Dispatches one eager track decode per span to a worker pool and collects
/// the results back in span order.
///
/// Relies on rayon: `par_iter` over a slice visits every element, `map`
/// applies the closure — a call of the verified `decode_track_span` — and
/// `collect` into a `Vec` preserves the order of the indexed parallel
/// iterator, so the result holds at each index exactly what
/// `decode_track_span` returns for the span at that index.
#[verifier::external_body]
fn decode_spans_parallel(raw: &[u8], spans: &Vec<(usize, usize)>, lenient: bool) -> (r: Vec<
    Result<Vec<Event>, MidiError>,
>)
    requires
        forall|k: int|
            0 <= k < spans@.len() ==> (#[trigger] spans@[k]).0 <= spans@[k].1 <= raw@.len(),
    ensures
        r@.len() == spans@.len(),
        forall|k: int|
            0 <= k < r@.len() ==> span_result_matches(
                raw@,
                (spans@[k].0 as int, spans@[k].1 as int),
                lenient,
                #[trigger] r@[k],
            ),
{
    spans.par_iter().map(|&(ps, pe)| decode_track_span(raw, ps, pe, lenient)).collect()
}

/// Dispatches one bytemapped track decode per span to a worker pool and
/// collects the results back in span order.
///
/// Relies on rayon exactly as `decode_spans_parallel` does, here around the
/// verified `decode_track_span_bytemapped`.
#[verifier::external_body]
fn decode_spans_bytemapped_parallel<'a>(
    raw: &'a [u8],
    spans: &Vec<(usize, usize)>,
    lenient: bool,
) -> (r: Vec<Result<Vec<(&'a [u8], Event)>, MidiError>>)
    requires
        forall|k: int|
            0 <= k < spans@.len() ==> (#[trigger] spans@[k]).0 <= spans@[k].1 <= raw@.len(),
    ensures
        r@.len() == spans@.len(),
        forall|k: int|
            0 <= k < r@.len() ==> span_bm_result_matches(
                raw@,
                (spans@[k].0 as int, spans@[k].1 as int),
                lenient,
                #[trigger] r@[k],
            ),
{
    spans.par_iter().map(|&(ps, pe)| decode_track_span_bytemapped(raw, ps, pe, lenient)).collect()
}

impl<'a> TrackIter<'a> {
    /// Captures the payload spans of the remaining track chunks, in chunk
    /// order, consuming the iterator.
    fn collect_spans(self) -> (r: Result<Vec<(usize, usize)>, MidiError>)
        requires
            self.wf(),
        ensures
            match r {
                Ok(spans) => track_spans(self.raw@, self.pos as int, self.lenient) == Ok::<
                    _,
                    ErrorKind,
                >(spans_view(spans@)) && forall|k: int|
                    0 <= k < spans@.len() ==> (#[trigger] spans@[k]).0 <= spans@[k].1
                        <= self.raw@.len(),
                Err(e) => track_spans(self.raw@, self.pos as int, self.lenient) == Err::<
                    Seq<(int, int)>,
                    _,
                >(e.kind) && e.kind == ErrorKind::Malformed,
            },
    {
        let ghost s = self.raw@;
        let ghost i0 = self.pos as int;
        let m = self.lenient;
        let n = self.raw.len();
        let mut pos = self.pos;
        let mut spans: Vec<(usize, usize)> = Vec::new();
        loop
            invariant
                pos <= n,
                n == s.len(),
                s == self.raw@,
                i0 == self.pos as int,
                0 <= i0 <= s.len(),
                m == self.lenient,
                forall|k: int| 0 <= k < spans@.len() ==> (#[trigger] spans@[k]).0 <= spans@[k].1 <= n,
                match track_spans(s, pos as int, m) {
                    Ok(r2) => track_spans(s, i0, m) == Ok::<_, ErrorKind>(spans_view(spans@) + r2),
                    Err(k) => track_spans(s, i0, m) == Err::<Seq<(int, int)>, _>(k),
                },
            decreases n - pos,
        {
            let ghost spans0 = spans@;
            proof {
                lemma_next_track_bounds(s, pos as int, m);
            }
            match next_span(self.raw, pos, m) {
                SpanRead::End => {
                    proof {
                        assert(track_spans(s, pos as int, m) == Ok::<_, ErrorKind>(
                            Seq::<(int, int)>::empty(),
                        ));
                        assert(spans_view(spans@) + Seq::<(int, int)>::empty() =~= spans_view(
                            spans@,
                        ));
                    }
                    return Ok(spans);
                },
                SpanRead::Fail { message } => {
                    return Err(MidiError::malformed(message));
                },
                SpanRead::Span { ps, pe, next } => {
                    spans.push((ps, pe));
                    pos = next;
                    proof {
                        assert(spans_view(spans@) =~= spans_view(spans0) + seq![
                            (ps as int, pe as int),
                        ]);
                        if track_spans(s, pos as int, m) is Ok {
                            let r2 = track_spans(s, pos as int, m)->Ok_0;
                            assert(spans_view(spans0) + (seq![(ps as int, pe as int)] + r2)
                                =~= spans_view(spans@) + r2);
                        }
                    }
                },
            }
        }
    }

    /// Decodes every remaining track eagerly, in chunk order. When the
    /// undecoded byte volume reaches the parallel threshold, the per-track
    /// decodes run on a worker pool; the decoded output is the same either
    /// way. Under the strict policy the first corrupt chunk or track is an
    /// error; under the lenient policy corrupt tracks are truncated and
    /// corrupt framing ends the track list.
    pub fn collect_events(self) -> (r: Result<Vec<Vec<Event>>, MidiError>)
        requires
            self.wf(),
        ensures
            match r {
                Ok(ts) => tracks_collect(self.raw@, self.pos as int, self.lenient) == Ok::<
                    _,
                    ErrorKind,
                >(ts.deep_view()),
                Err(e) => tracks_collect(self.raw@, self.pos as int, self.lenient) == Err::<
                    Seq<Seq<SpecEvent>>,
                    _,
                >(e.kind),
            },
    {
        let ghost s = self.raw@;
        let ghost i0 = self.pos as int;
        let m = self.lenient;
        let raw = self.raw;
        let parallel = raw.len() - self.pos >= PARALLEL_ENABLE_THRESHOLD;
        let spans = match self.collect_spans() {
            Ok(spans) => spans,
            Err(e) => {
                return Err(e);
            },
        };
        let ghost spansv = spans_view(spans@);
        let mut tracks: Vec<Vec<Event>> = Vec::new();
        if parallel {
            let mut results = decode_spans_parallel(raw, &spans, m);
            let ghost results0 = results@;
            let tot = spans.len();
            let ghost total = tot as int;
            let mut j: usize = 0;
            while results.len() > 0
                invariant
                    0 <= j,
                    j + results@.len() == total,
                    j <= total,
                    total == tot as int,
                    total == spansv.len(),
                    track_spans(s, i0, m) == Ok::<_, ErrorKind>(spansv),
                    i0 == self.pos as int,
                    s == self.raw@,
                    m == self.lenient,
                    results@ == results0.skip(j as int),
                    results0.len() == total,
                    forall|k: int|
                        0 <= k < total ==> span_result_matches(
                            s,
                            (spansv[k].0, spansv[k].1),
                            m,
                            #[trigger] results0[k],
                        ),
                    spansv == spans_view(spans@),
                    s == raw@,
                    tracks.deep_view() == decode_spans(s, spansv).take(j as int),
                    !m ==> forall|q: int| 0 <= q < j ==> span_ok(s, #[trigger] spansv[q]),
                decreases results@.len(),
            {
                let ghost tracks0 = tracks.deep_view();
                let r0 = results.remove(0);
                proof {
                    assert(r0 == results0[j as int]);
                    assert(results@ =~= results0.skip(j as int + 1));
                    assert(spansv[j as int] == (spans@[j as int].0 as int, spans@[j as int].1 as int));
                }
                match r0 {
                    Ok(es) => {
                        let ghost esv = es.deep_view();
                        tracks.push(es);
                        proof {
                            assert(tracks.deep_view() =~= tracks0 + seq![esv]);
                            assert(decode_spans(s, spansv)[j as int] == span_events(
                                s,
                                spansv[j as int],
                            ));
                            assert(tracks.deep_view() =~= decode_spans(s, spansv).take(
                                j as int + 1,
                            ));
                        }
                        j = j + 1;
                    },
                    Err(e) => {
                        proof {
                            assert(!span_ok(s, spansv[j as int]));
                            assert(!all_spans_ok(s, spansv));
                        }
                        return Err(e);
                    },
                }
            }
            proof {
                assert(tracks.deep_view() =~= decode_spans(s, spansv));
                if !m {
                    assert forall|k: int| 0 <= k < spansv.len() implies span_ok(
                        s,
                        #[trigger] spansv[k],
                    ) by {}
                }
            }
            Ok(tracks)
        } else {
            let n_spans = spans.len();
            let mut k: usize = 0;
            while k < n_spans
                invariant
                    k <= n_spans,
                    n_spans == spans@.len(),
                    spansv == spans_view(spans@),
                    spansv.len() == n_spans,
                    s == raw@,
                    track_spans(s, i0, m) == Ok::<_, ErrorKind>(spansv),
                    i0 == self.pos as int,
                    s == self.raw@,
                    m == self.lenient,
                    forall|q: int|
                        0 <= q < spans@.len() ==> (#[trigger] spans@[q]).0 <= spans@[q].1
                            <= raw@.len(),
                    tracks.deep_view() == decode_spans(s, spansv).take(k as int),
                    !m ==> forall|q: int| 0 <= q < k ==> span_ok(s, #[trigger] spansv[q]),
                decreases n_spans - k,
            {
                let (ps, pe) = spans[k];
                proof {
                    assert(spansv[k as int] == (ps as int, pe as int));
                }
                let ghost tracks0 = tracks.deep_view();
                match decode_track_span(raw, ps, pe, m) {
                    Ok(es) => {
                        let ghost esv = es.deep_view();
                        tracks.push(es);
                        proof {
                            assert(tracks.deep_view() =~= tracks0 + seq![esv]);
                            assert(decode_spans(s, spansv)[k as int] == span_events(
                                s,
                                spansv[k as int],
                            ));
                            assert(tracks.deep_view() =~= decode_spans(s, spansv).take(
                                k as int + 1,
                            ));
                        }
                        k = k + 1;
                    },
                    Err(e) => {
                        proof {
                            assert(!span_ok(s, spansv[k as int]));
                            assert(!all_spans_ok(s, spansv));
                        }
                        return Err(e);
                    },
                }
            }
            proof {
                assert(tracks.deep_view() =~= decode_spans(s, spansv));
            }
            Ok(tracks)
        }
    }
}

/// The bytemapped decode of every span, in span order.
pub open spec fn decode_spans_bm(s: Seq<u8>, spans: Seq<(int, int)>) -> Seq<
    Seq<(Seq<u8>, SpecEvent)>,
> {
    spans.map_values(|sp: (int, int)| span_scan(s, sp))
}

/// What collecting the tracks bytemapped yields, under the same policy as
/// `tracks_collect`.
pub open spec fn tracks_collect_bm(s: Seq<u8>, i: int, lenient: bool) -> Result<
    Seq<Seq<(Seq<u8>, SpecEvent)>>,
    ErrorKind,
> {
    match track_spans(s, i, lenient) {
        Err(k) => Err(k),
        Ok(spans) => if !lenient && !all_spans_ok(s, spans) {
            Err(ErrorKind::Malformed)
        } else {
            Ok(decode_spans_bm(s, spans))
        },
    }
}

impl<'a> TrackIter<'a> {
    /// Decodes every remaining track eagerly, each event paired with its
    /// exact source bytes, under the same policy and the same
    /// parallel-dispatch rule as `collect_events`.
    pub fn collect_bytemapped(self) -> (r: Result<Vec<Vec<(&'a [u8], Event)>>, MidiError>)
        requires
            self.wf(),
        ensures
            match r {
                Ok(ts) => tracks_collect_bm(self.raw@, self.pos as int, self.lenient) == Ok::<
                    _,
                    ErrorKind,
                >(ts.deep_view()),
                Err(e) => tracks_collect_bm(self.raw@, self.pos as int, self.lenient) == Err::<
                    Seq<Seq<(Seq<u8>, SpecEvent)>>,
                    _,
                >(e.kind),
            },
    {
        let ghost s = self.raw@;
        let ghost i0 = self.pos as int;
        let m = self.lenient;
        let raw = self.raw;
        let parallel = raw.len() - self.pos >= PARALLEL_ENABLE_THRESHOLD;
        let spans = match self.collect_spans() {
            Ok(spans) => spans,
            Err(e) => {
                return Err(e);
            },
        };
        let ghost spansv = spans_view(spans@);
        let mut tracks: Vec<Vec<(&'a [u8], Event)>> = Vec::new();
        if parallel {
            let mut results = decode_spans_bytemapped_parallel(raw, &spans, m);
            let ghost results0 = results@;
            let tot = spans.len();
            let ghost total = tot as int;
            let mut j: usize = 0;
            while results.len() > 0
                invariant
                    0 <= j,
                    j + results@.len() == total,
                    j <= total,
                    total == tot as int,
                    total == spansv.len(),
                    track_spans(s, i0, m) == Ok::<_, ErrorKind>(spansv),
                    i0 == self.pos as int,
                    s == self.raw@,
                    m == self.lenient,
                    results@ == results0.skip(j as int),
                    results0.len() == total,
                    forall|k: int|
                        0 <= k < total ==> span_bm_result_matches(
                            s,
                            (spansv[k].0, spansv[k].1),
                            m,
                            #[trigger] results0[k],
                        ),
                    spansv == spans_view(spans@),
                    s == raw@,
                    tracks.deep_view() == decode_spans_bm(s, spansv).take(j as int),
                    !m ==> forall|q: int| 0 <= q < j ==> span_ok(s, #[trigger] spansv[q]),
                decreases results@.len(),
            {
                let ghost tracks0 = tracks.deep_view();
                let r0 = results.remove(0);
                proof {
                    assert(r0 == results0[j as int]);
                    assert(results@ =~= results0.skip(j as int + 1));
                    assert(spansv[j as int] == (spans@[j as int].0 as int, spans@[j as int].1 as int));
                }
                match r0 {
                    Ok(es) => {
                        let ghost esv = es.deep_view();
                        tracks.push(es);
                        proof {
                            assert(tracks.deep_view() =~= tracks0 + seq![esv]);
                            assert(decode_spans_bm(s, spansv)[j as int] == span_scan(
                                s,
                                spansv[j as int],
                            ));
                            assert(tracks.deep_view() =~= decode_spans_bm(s, spansv).take(
                                j as int + 1,
                            ));
                        }
                        j = j + 1;
                    },
                    Err(e) => {
                        proof {
                            assert(!span_ok(s, spansv[j as int]));
                            assert(!all_spans_ok(s, spansv));
                        }
                        return Err(e);
                    },
                }
            }
            proof {
                assert(tracks.deep_view() =~= decode_spans_bm(s, spansv));
            }
            Ok(tracks)
        } else {
            let n_spans = spans.len();
            let mut k: usize = 0;
            while k < n_spans
                invariant
                    k <= n_spans,
                    n_spans == spans@.len(),
                    spansv == spans_view(spans@),
                    spansv.len() == n_spans,
                    s == raw@,
                    track_spans(s, i0, m) == Ok::<_, ErrorKind>(spansv),
                    i0 == self.pos as int,
                    s == self.raw@,
                    m == self.lenient,
                    forall|q: int|
                        0 <= q < spans@.len() ==> (#[trigger] spans@[q]).0 <= spans@[q].1
                            <= raw@.len(),
                    tracks.deep_view() == decode_spans_bm(s, spansv).take(k as int),
                    !m ==> forall|q: int| 0 <= q < k ==> span_ok(s, #[trigger] spansv[q]),
                decreases n_spans - k,
            {
                let (ps, pe) = spans[k];
                proof {
                    assert(spansv[k as int] == (ps as int, pe as int));
                }
                let ghost tracks0 = tracks.deep_view();
                match decode_track_span_bytemapped(raw, ps, pe, m) {
                    Ok(es) => {
                        let ghost esv = es.deep_view();
                        tracks.push(es);
                        proof {
                            assert(tracks.deep_view() =~= tracks0 + seq![esv]);
                            assert(decode_spans_bm(s, spansv)[k as int] == span_scan(
                                s,
                                spansv[k as int],
                            ));
                            assert(tracks.deep_view() =~= decode_spans_bm(s, spansv).take(
                                k as int + 1,
                            ));
                        }
                        k = k + 1;
                    },
                    Err(e) => {
                        proof {
                            assert(!span_ok(s, spansv[k as int]));
                            assert(!all_spans_ok(s, spansv));
                        }
                        return Err(e);
                    },
                }
            }
            proof {
                assert(tracks.deep_view() =~= decode_spans_bm(s, spansv));
            }
            Ok(tracks)
        }
    }
}

/// Decodes the header chunk and hands back the header, with an iterator over
/// the track chunks that follow it. Fails with an `Invalid` error when the
/// input holds no recognizable header chunk first.
pub fn parse<'a>(raw: &'a [u8], lenient: bool) -> (r: Result<(Header, TrackIter<'a>), MidiError>)
    ensures
        match r {
            Ok((h, t)) => parse_spec(raw@, lenient) == Ok::<_, ErrorKind>(
                (h, t.track_count_hint, t.pos as int),
            ) && t.raw@ == raw@ && t.lenient == lenient && t.wf(),
            Err(e) => parse_spec(raw@, lenient) is Err && e.kind == ErrorKind::Invalid,
        },
{
    match read_chunk(raw, 0, lenient) {
        ChunkRead::End => Err(MidiError::invalid("no header chunk")),
        ChunkRead::Fail(_) => Err(MidiError::invalid("invalid midi header")),
        ChunkRead::Track { .. } => Err(MidiError::invalid("expected header, found track")),
        ChunkRead::Head { ps, pe, next } => {
            let payload = vstd::slice::slice_subrange(raw, ps, pe);
            match Header::read(payload) {
                None => Err(MidiError::invalid("invalid midi header")),
                Some((header, track_count)) => Ok(
                    (
                        header,
                        TrackIter { raw, pos: next, track_count_hint: track_count, lenient },
                    ),
                ),
            }
        },
    }
}

/// Every track's events are well formed.
pub open spec fn wf_tracks(ts: Seq<Seq<SpecEvent>>) -> bool {
    forall|k: int| 0 <= k < ts.len() ==> wf_events(#[trigger] ts[k])
}

/// The wire limits the encoder enforces: the track count fits sixteen bits
/// and every encoded track fits a 32-bit length field.
pub open spec fn encodable(ts: Seq<Seq<SpecEvent>>) -> bool {
    &&& ts.len() <= 0xFFFF
    &&& forall|k: int| 0 <= k < ts.len() ==> trk_enc(#[trigger] ts[k], None).len() <= 0xFFFFFFFF
}

/// The concatenated track chunks of `ts` from index `k` on.
pub open spec fn tracks_chunks_enc_from(ts: Seq<Seq<SpecEvent>>, k: int) -> Seq<u8>
    decreases ts.len() - k
        when 0 <= k <= ts.len()
{
    if k == ts.len() {
        Seq::empty()
    } else {
        track_chunk_enc(ts[k]) + tracks_chunks_enc_from(ts, k + 1)
    }
}

/// The full wire form of a container: the header chunk carrying the actual
/// track count, then one track chunk per track, in order.
pub open spec fn smf_enc(h: Header, ts: Seq<Seq<SpecEvent>>) -> Seq<u8> {
    header_chunk_enc(h, ts.len() as u16) + tracks_chunks_enc_from(ts, 0)
}

/// Encodes the header and the tracks as a complete file into `out`. The
/// header chunk carries the actual track count. Each track is serialized
/// into a scratch buffer first (reused across tracks), so that its chunk's
/// length field can be written before its payload, then flushed in order.
pub fn write(header: &Header, tracks: &Vec<Vec<Event>>, out: &mut Vec<u8>) -> (r: Result<
    (),
    MidiError,
>)
    requires
        wf_tracks(tracks.deep_view()),
    ensures
        r is Ok <==> encodable(tracks.deep_view()),
        r is Ok ==> final(out)@ == old(out)@ + smf_enc(*header, tracks.deep_view()),
        r matches Err(e) ==> e.kind == ErrorKind::InvalidInput,
{
    let ghost ts = tracks.deep_view();
    let n = tracks.len();
    match write_header_chunk(header, n, out) {
        Err(e) => {
            return Err(e);
        },
        Ok(_) => {},
    }
    let mut scratch: Vec<u8> = Vec::new();
    let mut k: usize = 0;
    while k < n
        invariant
            k <= n,
            n <= 0xFFFF,
            n == tracks@.len(),
            ts == tracks.deep_view(),
            ts.len() == n,
            wf_tracks(ts),
            out@ + tracks_chunks_enc_from(ts, k as int) == old(out)@ + header_chunk_enc(
                *header,
                n as u16,
            ) + tracks_chunks_enc_from(ts, 0),
            forall|q: int| 0 <= q < k ==> trk_enc(#[trigger] ts[q], None).len() <= 0xFFFFFFFF,
        decreases n - k,
    {
        let ghost out0 = out@;
        proof {
            assert(tracks@[k as int].deep_view() == ts[k as int]);
            assert(wf_events(ts[k as int]));
        }
        match write_track_chunk(&tracks[k], &mut scratch, out) {
            Ok(_) => {
                proof {
                    assert(out0 + (track_chunk_enc(ts[k as int]) + tracks_chunks_enc_from(
                        ts,
                        k as int + 1,
                    )) =~= out@ + tracks_chunks_enc_from(ts, k as int + 1));
                }
                k = k + 1;
            },
            Err(e) => {
                return Err(e);
            },
        }
    }
    proof {
        assert(tracks_chunks_enc_from(ts, n as int) =~= Seq::<u8>::empty());
        assert(out@ + Seq::<u8>::empty() =~= out@);
        assert(old(out)@ + header_chunk_enc(*header, n as u16) + tracks_chunks_enc_from(ts, 0)
            =~= old(out)@ + smf_enc(*header, ts));
    }
    Ok(())
}

/// A fully decoded file: its header and every track's events, in order.
#[derive(Clone, Debug, PartialEq, Eq)]
pub struct Smf {
    pub header: Header,
    pub tracks: Vec<Vec<Event>>,
}

impl Smf {
    pub fn new(header: Header, tracks: Vec<Vec<Event>>) -> (r: Smf)
        ensures
            r.header == header,
            r.tracks == tracks,
    {
        Smf { header, tracks }
    }

    /// Parses a complete file eagerly under the chosen policy.
    pub fn parse(raw: &[u8], lenient: bool) -> (r: Result<Smf, MidiError>)
        ensures
            match r {
                Ok(smf) => smf_parse_spec(raw@, lenient) == Ok::<_, ErrorKind>(
                    (smf.header, smf.tracks.deep_view()),
                ),
                Err(e) => smf_parse_spec(raw@, lenient) == Err::<
                    (Header, Seq<Seq<SpecEvent>>),
                    _,
                >(e.kind),
            },
    {
        let (header, tracks_iter) = match parse(raw, lenient) {
            Ok(p) => p,
            Err(e) => {
                return Err(e);
            },
        };
        let track_count_hint = tracks_iter.track_count_hint;
        let tracks = match tracks_iter.collect_events() {
            Ok(t) => t,
            Err(e) => {
                return Err(e);
            },
        };
        assert(tracks.deep_view().len() == tracks@.len());
        match validate_smf(&header, track_count_hint, tracks.len(), lenient) {
            Ok(_) => {},
            Err(e) => {
                return Err(e);
            },
        }
        Ok(Smf { header, tracks })
    }

    /// Encodes this container as a complete file into `out`.
    pub fn write(&self, out: &mut Vec<u8>) -> (r: Result<(), MidiError>)
        requires
            wf_tracks(self.tracks.deep_view()),
        ensures
            r is Ok <==> encodable(self.tracks.deep_view()),
            r is Ok ==> final(out)@ == old(out)@ + smf_enc(self.header, self.tracks.deep_view()),
            r matches Err(e) ==> e.kind == ErrorKind::InvalidInput,
    {
        write(&self.header, &self.tracks, out)
    }
}

/// The events of a bytemapped track, without their source bytes.
pub open spec fn bm_events(t: Seq<(Seq<u8>, SpecEvent)>) -> Seq<SpecEvent> {
    t.map_values(|p: (Seq<u8>, SpecEvent)| p.1)
}

/// The events of every bytemapped track, without their source bytes.
pub open spec fn bm_tracks_events(ts: Seq<Seq<(Seq<u8>, SpecEvent)>>) -> Seq<Seq<SpecEvent>> {
    ts.map_values(|t: Seq<(Seq<u8>, SpecEvent)>| bm_events(t))
}

/// What a whole bytemapped parse yields.
pub open spec fn smf_parse_bm_spec(s: Seq<u8>, lenient: bool) -> Result<
    (Header, Seq<Seq<(Seq<u8>, SpecEvent)>>),
    ErrorKind,
> {
    match parse_spec(s, lenient) {
        Err(k) => Err(k),
        Ok((h, tc, next)) => match tracks_collect_bm(s, next, lenient) {
            Err(k) => Err(k),
            Ok(tracks) => if validate_ok(h, tc, tracks.len() as int, lenient) {
                Ok((h, tracks))
            } else {
                Err(ErrorKind::Malformed)
            },
        },
    }
}

/// Serializes one bytemapped track's events into `scratch`, then flushes
/// them to `out` as a framed track chunk, as `write_track_chunk` does; the
/// recorded source bytes play no part.
fn write_track_chunk_bm(track: &Vec<(&[u8], Event)>, scratch: &mut Vec<u8>, out: &mut Vec<u8>) -> (r:
    Result<(), MidiError>)
    requires
        wf_events(bm_events(track.deep_view())),
    ensures
        r is Ok <==> trk_enc(bm_events(track.deep_view()), None).len() <= 0xFFFFFFFF,
        r is Ok ==> final(out)@ == old(out)@ + track_chunk_enc(bm_events(track.deep_view())),
        r matches Err(e) ==> e.kind == ErrorKind::InvalidInput && final(out)@ == old(out)@,
{
    let ghost es = bm_events(track.deep_view());
    scratch.clear();
    proof {
        assert(es.skip(0) =~= es);
        assert(scratch@ + trk_enc(es, None) =~= trk_enc(es, None));
    }
    let mut rs: Option<u8> = None;
    let n = track.len();
    let mut k: usize = 0;
    while k < n
        invariant
            k <= n,
            n == track@.len(),
            es == bm_events(track.deep_view()),
            es.len() == n,
            wf_events(es),
            scratch@ + trk_enc(es.skip(k as int), rs) == trk_enc(es, None),
        decreases n - k,
    {
        let ghost pre = scratch@;
        let ghost rs0 = rs;
        proof {
            assert(es.skip(k as int)[0] == es[k as int]);
            assert(es.skip(k as int).drop_first() =~= es.skip(k as int + 1));
            assert(track@[k as int].deep_view().1 == es[k as int]);
        }
        track[k].1.write(&mut rs, scratch);
        proof {
            assert(trk_enc(es.skip(k as int), rs0) == crate::event::ev_enc(es[k as int], rs0)
                + trk_enc(es.skip(k as int + 1), rs));
            assert(scratch@ + trk_enc(es.skip(k as int + 1), rs) =~= pre + trk_enc(
                es.skip(k as int),
                rs0,
            ));
        }
        k = k + 1;
    }
    assert(es.skip(n as int) =~= Seq::<SpecEvent>::empty());
    assert(scratch@ =~= trk_enc(es, None));
    if scratch.len() > 0xFFFFFFFFusize {
        return Err(MidiError::invalid_input("midi chunk size exceeds 32-bit range"));
    }
    out.push(0x4D);
    out.push(0x54);
    out.push(0x72);
    out.push(0x6B);
    crate::num::write_u32(scratch.len() as u32, out);
    crate::event::push_bytes(out, scratch.as_slice());
    assert(final(out)@ =~= old(out)@ + track_chunk_enc(es));
    Ok(())
}

/// A fully decoded file whose every event is paired with the exact source
/// bytes it was decoded from, enabling byte-exact re-encode or diffing.
#[derive(Clone, Debug, PartialEq, Eq)]
pub struct SmfBytemap<'a> {
    pub header: Header,
    pub tracks: Vec<Vec<(&'a [u8], Event)>>,
}

impl<'a> SmfBytemap<'a> {
    pub fn new(header: Header, tracks: Vec<Vec<(&'a [u8], Event)>>) -> (r: SmfBytemap<'a>)
        ensures
            r.header == header,
            r.tracks == tracks,
    {
        SmfBytemap { header, tracks }
    }

    /// Parses a complete file eagerly under the chosen policy, keeping each
    /// event's source bytes alongside it.
    pub fn parse(raw: &'a [u8], lenient: bool) -> (r: Result<SmfBytemap<'a>, MidiError>)
        ensures
            match r {
                Ok(smf) => smf_parse_bm_spec(raw@, lenient) == Ok::<_, ErrorKind>(
                    (smf.header, smf.tracks.deep_view()),
                ),
                Err(e) => smf_parse_bm_spec(raw@, lenient) == Err::<
                    (Header, Seq<Seq<(Seq<u8>, SpecEvent)>>),
                    _,
                >(e.kind),
            },
    {
        let (header, tracks_iter) = match parse(raw, lenient) {
            Ok(p) => p,
            Err(e) => {
                return Err(e);
            },
        };
        let track_count_hint = tracks_iter.track_count_hint;
        let tracks = match tracks_iter.collect_bytemapped() {
            Ok(t) => t,
            Err(e) => {
                return Err(e);
            },
        };
        assert(tracks.deep_view().len() == tracks@.len());
        match validate_smf(&header, track_count_hint, tracks.len(), lenient) {
            Ok(_) => {},
            Err(e) => {
                return Err(e);
            },
        }
        Ok(SmfBytemap { header, tracks })
    }

    /// Encodes this container's events as a complete file into `out`; the
    /// recorded source bytes play no part.
    pub fn write(&self, out: &mut Vec<u8>) -> (r: Result<(), MidiError>)
        requires
            wf_tracks(bm_tracks_events(self.tracks.deep_view())),
        ensures
            r is Ok <==> encodable(bm_tracks_events(self.tracks.deep_view())),
            r is Ok ==> final(out)@ == old(out)@ + smf_enc(
                self.header,
                bm_tracks_events(self.tracks.deep_view()),
            ),
            r matches Err(e) ==> e.kind == ErrorKind::InvalidInput,
    {
        let ghost ts = bm_tracks_events(self.tracks.deep_view());
        let n = self.tracks.len();
        assert(ts.len() == n);
        match write_header_chunk(&self.header, n, out) {
            Err(e) => {
                return Err(e);
            },
            Ok(_) => {},
        }
        let mut scratch: Vec<u8> = Vec::new();
        let mut k: usize = 0;
        while k < n
            invariant
                k <= n,
                n <= 0xFFFF,
                n == self.tracks@.len(),
                ts == bm_tracks_events(self.tracks.deep_view()),
                ts.len() == n,
                wf_tracks(ts),
                out@ + tracks_chunks_enc_from(ts, k as int) == old(out)@ + header_chunk_enc(
                    self.header,
                    n as u16,
                ) + tracks_chunks_enc_from(ts, 0),
                forall|q: int| 0 <= q < k ==> trk_enc(#[trigger] ts[q], None).len() <= 0xFFFFFFFF,
            decreases n - k,
        {
            let ghost out0 = out@;
            proof {
                assert(self.tracks@[k as int].deep_view() == self.tracks.deep_view()[k as int]);
                assert(bm_events(self.tracks.deep_view()[k as int]) == ts[k as int]);
                assert(wf_events(ts[k as int]));
            }
            match write_track_chunk_bm(&self.tracks[k], &mut scratch, out) {
                Ok(_) => {
                    proof {
                        assert(out0 + (track_chunk_enc(ts[k as int]) + tracks_chunks_enc_from(
                            ts,
                            k as int + 1,
                        )) =~= out@ + tracks_chunks_enc_from(ts, k as int + 1));
                    }
                    k = k + 1;
                },
                Err(e) => {
                    return Err(e);
                },
            }
        }
        proof {
            assert(tracks_chunks_enc_from(ts, n as int) =~= Seq::<u8>::empty());
            assert(out@ + Seq::<u8>::empty() =~= out@);
            assert(old(out)@ + header_chunk_enc(self.header, n as u16) + tracks_chunks_enc_from(
                ts,
                0,
            ) =~= old(out)@ + smf_enc(self.header, ts));
        }
        Ok(())
    }
}

/// Whether every event of every track is well formed: the condition the
/// encoder demands of a container.
pub fn tracks_well_formed(tracks: &Vec<Vec<Event>>) -> (r: bool)
    ensures
        r == wf_tracks(tracks.deep_view()),
{
    let ghost ts = tracks.deep_view();
    let n = tracks.len();
    let mut k: usize = 0;
    while k < n
        invariant
            k <= n,
            n == tracks@.len(),
            ts == tracks.deep_view(),
            forall|q: int| 0 <= q < k ==> wf_events(#[trigger] ts[q]),
        decreases n - k,
    {
        let track = &tracks[k];
        let m = track.len();
        let mut j: usize = 0;
        while j < m
            invariant
                j <= m,
                m == track@.len(),
                track@ == tracks@[k as int]@,
                k < n,
                n == tracks@.len(),
                ts == tracks.deep_view(),
                forall|q: int| 0 <= q < j ==> wf_event(#[trigger] track@[q]@),
            decreases m - j,
        {
            if !track[j].is_well_formed() {
                assert(ts[k as int][j as int] == track@[j as int]@);
                assert(!wf_events(ts[k as int]));
                return false;
            }
            j = j + 1;
        }
        assert forall|q: int| 0 <= q < ts[k as int].len() implies wf_event(
            #[trigger] ts[k as int][q],
        ) by {
            assert(ts[k as int][q] == track@[q]@);
        }
        assert(wf_events(ts[k as int]));
        k = k + 1;
    }
    true
}

/// Whether every event of every bytemapped track is well formed: the
/// condition the encoder demands of a bytemapped container.
pub fn bytemap_tracks_well_formed(tracks: &Vec<Vec<(&[u8], Event)>>) -> (r: bool)
    ensures
        r == wf_tracks(bm_tracks_events(tracks.deep_view())),
{
    let ghost ts = bm_tracks_events(tracks.deep_view());
    let n = tracks.len();
    let mut k: usize = 0;
    while k < n
        invariant
            k <= n,
            n == tracks@.len(),
            ts == bm_tracks_events(tracks.deep_view()),
            ts.len() == n,
            forall|q: int| 0 <= q < k ==> wf_events(#[trigger] ts[q]),
        decreases n - k,
    {
        let track = &tracks[k];
        let m = track.len();
        proof {
            assert(ts[k as int] == bm_events(tracks.deep_view()[k as int]));
            assert(tracks.deep_view()[k as int] == tracks@[k as int].deep_view());
        }
        let mut j: usize = 0;
        while j < m
            invariant
                j <= m,
                m == track@.len(),
                track@ == tracks@[k as int]@,
                k < n,
                n == tracks@.len(),
                ts == bm_tracks_events(tracks.deep_view()),
                ts.len() == n,
                ts[k as int] == bm_events(tracks@[k as int].deep_view()),
                ts[k as int].len() == m,
                forall|q: int| 0 <= q < j ==> wf_event(#[trigger] track@[q].1@),
            decreases m - j,
        {
            if !track[j].1.is_well_formed() {
                assert(ts[k as int][j as int] == track@[j as int].1@);
                assert(!wf_events(ts[k as int]));
                return false;
            }
            j = j + 1;
        }
        assert forall|q: int| 0 <= q < ts[k as int].len() implies wf_event(
            #[trigger] ts[k as int][q],
        ) by {
            assert(ts[k as int][q] == track@[q].1@);
        }
        assert(wf_events(ts[k as int]));
        k = k + 1;
    }
    true
}

/// Decoding the encoded track chunks of `tracks[k..]`, standing at position
/// `i` and filling `s` to its end, yields those tracks back, cleanly.
#[verifier::rlimit(100)]
proof fn lemma_tracks_chunks_round_trip(
    s: Seq<u8>,
    i: int,
    tracks: Seq<Seq<SpecEvent>>,
    k: int,
    lenient: bool,
)
    requires
        wf_tracks(tracks),
        forall|j: int| 0 <= j < tracks.len() ==> trk_enc(#[trigger] tracks[j], None).len()
            <= 0xFFFFFFFF,
        0 <= k <= tracks.len(),
        0 <= i <= s.len(),
        s.subrange(i, s.len() as int) == tracks_chunks_enc_from(tracks, k),
    ensures
        track_spans(s, i, lenient) is Ok,
        all_spans_ok(s, track_spans(s, i, lenient)->Ok_0),
        decode_spans(s, track_spans(s, i, lenient)->Ok_0) == tracks.skip(k),
    decreases tracks.len() - k,
{
    if k == tracks.len() {
        assert(s.subrange(i, s.len() as int).len() == 0);
        assert(i == s.len());
        assert(next_chunk(s, i, lenient) == ChunkStep::End);
        assert(track_spans(s, i, lenient) == Ok::<_, ErrorKind>(Seq::<(int, int)>::empty()));
        assert(decode_spans(s, Seq::<(int, int)>::empty()) =~= tracks.skip(k));
    } else {
        let t0 = tracks[k];
        let enc0 = trk_enc(t0, None);
        let l0 = enc0.len() as int;
        let chunk0 = track_chunk_enc(t0);
        let rest = tracks_chunks_enc_from(tracks, k + 1);
        assert(tracks_chunks_enc_from(tracks, k) == chunk0 + rest);
        let cl = chunk0.len() as int;
        assert(cl == 8 + l0);
        let suffix = s.subrange(i, s.len() as int);
        assert(suffix.len() == cl + rest.len());
        assert(i + cl <= s.len());
        assert(s.subrange(i, i + 4) =~= suffix.subrange(0, 4));
        assert((chunk0 + rest).subrange(0, 4) =~= mtrk());
        assert(s.subrange(i + 4, i + 8) =~= suffix.subrange(4, 8));
        assert((chunk0 + rest).subrange(4, 8) =~= be32_bytes(l0));
        lemma_be32_round_trip(s, i + 4, l0);
        assert(s.subrange(i, i + 4) != mthd()) by {
            assert(mtrk()[2] != mthd()[2]);
        }
        assert(next_chunk(s, i, lenient) == ChunkStep::Track {
            ps: i + 8,
            pe: i + 8 + l0,
            next: i + 8 + l0,
        });
        // the span's bytes are exactly the encoded event stream of `t0`
        let sp = s.subrange(i + 8, i + 8 + l0);
        assert(sp =~= suffix.subrange(8, 8 + l0));
        assert((chunk0 + rest).subrange(8, 8 + l0) =~= enc0);
        assert(sp.subrange(0, sp.len() as int) =~= trk_enc(t0, None));
        assert(wf_events(t0));
        lemma_trk_round_trip(sp, 0, t0, None);
        // the chunks after this one carry the remaining tracks
        assert(s.subrange(i + cl, s.len() as int) =~= suffix.subrange(cl, suffix.len() as int));
        assert((chunk0 + rest).subrange(cl, cl + rest.len()) =~= rest);
        lemma_tracks_chunks_round_trip(s, i + cl, tracks, k + 1, lenient);
        let spans_rest = track_spans(s, i + cl, lenient)->Ok_0;
        assert(next_track(s, i, lenient) == TrackStep::Span {
            ps: i + 8,
            pe: i + 8 + l0,
            next: i + 8 + l0,
        });
        let spans = seq![(i + 8, i + 8 + l0)] + spans_rest;
        assert(track_spans(s, i, lenient) == Ok::<_, ErrorKind>(spans));
        assert(span_ok(s, (i + 8, i + 8 + l0)));
        assert(span_events(s, (i + 8, i + 8 + l0)) == t0);
        assert forall|q: int| 0 <= q < spans.len() implies span_ok(s, #[trigger] spans[q]) by {
            if q > 0 {
                assert(spans[q] == spans_rest[q - 1]);
                assert(span_ok(s, spans_rest[q - 1]));
            }
        }
        assert(spans.len() == 1 + spans_rest.len());
        assert(spans_rest.len() == tracks.skip(k + 1).len());
        assert forall|q: int| 0 <= q < spans.len() implies decode_spans(s, spans)[q]
            == tracks.skip(k)[q] by {
            assert(tracks.skip(k)[q] == tracks[k + q]);
            if q == 0 {
                assert(decode_spans(s, spans)[0] == span_events(s, spans[0]));
            } else {
                assert(spans[q] == spans_rest[q - 1]);
                assert(decode_spans(s, spans)[q] == span_events(s, spans[q]));
                assert(decode_spans(s, spans_rest)[q - 1] == span_events(s, spans_rest[q - 1]));
                assert(decode_spans(s, spans_rest)[q - 1] == tracks.skip(k + 1)[q - 1]);
                assert(tracks.skip(k + 1)[q - 1] == tracks[k + q]);
            }
        }
        assert(decode_spans(s, spans) =~= tracks.skip(k));
    }
}

/// Round trip: decoding the encoding of any well-formed container that obeys
/// the wire limits yields the container back, under either policy — for the
/// strict one, provided the container obeys its structural invariants.
pub proof fn lemma_smf_round_trip(h: Header, tracks: Seq<Seq<SpecEvent>>, lenient: bool)
    requires
        h.wf(),
        wf_tracks(tracks),
        encodable(tracks),
        !lenient ==> (h.format == Format::SingleTrack ==> tracks.len() == 1),
    ensures
        smf_parse_spec(smf_enc(h, tracks), lenient) == Ok::<_, ErrorKind>((h, tracks)),
{
    let s = smf_enc(h, tracks);
    let tc = tracks.len() as u16;
    let hc = header_chunk_enc(h, tc);
    let rest = tracks_chunks_enc_from(tracks, 0);
    assert(hc.len() == 14);
    assert(s == hc + rest);
    assert(s.subrange(0, 4) =~= mthd());
    assert(s.subrange(4, 8) =~= be32_bytes(6));
    lemma_be32_round_trip(s, 4, 6);
    assert(s.subrange(8, 14) =~= header_enc(h, tc));
    assert(next_chunk(s, 0, lenient) == ChunkStep::Head { ps: 8, pe: 14, next: 14 });
    lemma_header_round_trip(h, tc);
    assert(header_dec(s.subrange(8, 14)) == Some((h, tc)));
    assert(parse_spec(s, lenient) == Ok::<_, ErrorKind>((h, tc, 14int)));
    assert(s.subrange(14, s.len() as int) =~= rest);
    lemma_tracks_chunks_round_trip(s, 14, tracks, 0, lenient);
    assert(tracks.skip(0) =~= tracks);
    let spans = track_spans(s, 14, lenient)->Ok_0;
    assert(tracks_collect(s, 14, lenient) == Ok::<_, ErrorKind>(tracks));
    assert(tc as int == tracks.len());
    assert(validate_ok(h, tc, tracks.len() as int, lenient));
}

/// Whatever a parse hands back can be handed to the encoder: every decoded
/// container's events are well formed.
pub proof fn lemma_parsed_tracks_wf(s: Seq<u8>, lenient: bool)
    ensures
        match smf_parse_spec(s, lenient) {
            Ok((h, ts)) => wf_tracks(ts),
            Err(_) => true,
        },
{
    if smf_parse_spec(s, lenient) is Ok {
        let (h, tc, next) = parse_spec(s, lenient)->Ok_0;
        lemma_next_chunk_bounds(s, 0, lenient);
        lemma_track_order(s, next, lenient);
        let spans = track_spans(s, next, lenient)->Ok_0;
        let ts = decode_spans(s, spans);
        assert forall|k: int| 0 <= k < ts.len() implies wf_events(#[trigger] ts[k]) by {
            assert(ts[k] == span_events(s, spans[k]));
            let sub = s.subrange(spans[k].0, spans[k].1);
            lemma_trk_events_wf(sub, 0, None);
        }
    }
}

/// Running-status isolation: the events a span decodes to are a function of
/// that span's bytes alone, from a fresh running-status register — decoding
/// never reads another track's state, so per-track decodes may run in any
/// order, or concurrently, without changing any track's result.
pub proof fn lemma_running_status_isolation(
    s1: Seq<u8>,
    sp1: (int, int),
    s2: Seq<u8>,
    sp2: (int, int),
)
    requires
        s1.subrange(sp1.0, sp1.1) == s2.subrange(sp2.0, sp2.1),
    ensures
        span_events(s1, sp1) == span_events(s2, sp2),
        span_ok(s1, sp1) == span_ok(s2, sp2),
{
}

/// Order invariant: the tracks decode in the left-to-right order of the
/// track chunks — the spans stand in increasing, non-overlapping positions,
/// and the decoded track list maps them one to one, in order.
pub proof fn lemma_track_order(s: Seq<u8>, i: int, lenient: bool)
    requires
        0 <= i <= s.len(),
    ensures
        match track_spans(s, i, lenient) {
            Ok(spans) => {
                &&& forall|q: int| 0 <= q < spans.len() ==> i <= (#[trigger] spans[q]).0
                    <= spans[q].1 <= s.len()
                &&& forall|a: int, b: int|
                    0 <= a < b < spans.len() ==> (#[trigger] spans[a]).1 <= (#[trigger] spans[b]).0
                &&& decode_spans(s, spans).len() == spans.len()
                &&& forall|q: int|
                    0 <= q < spans.len() ==> decode_spans(s, spans)[q] == span_events(
                        s,
                        #[trigger] spans[q],
                    )
            },
            Err(_) => true,
        },
    decreases s.len() - i,
{
    lemma_next_track_bounds(s, i, lenient);
    match next_track(s, i, lenient) {
        TrackStep::Span { ps, pe, next } => {
            lemma_track_order(s, next, lenient);
            if track_spans(s, next, lenient) is Ok {
                let spans_rest = track_spans(s, next, lenient)->Ok_0;
                let spans = seq![(ps, pe)] + spans_rest;
                assert(track_spans(s, i, lenient) == Ok::<_, ErrorKind>(spans));
                assert forall|q: int| 0 <= q < spans.len() implies i <= (#[trigger] spans[q]).0
                    <= spans[q].1 <= s.len() by {
                    if q > 0 {
                        assert(spans[q] == spans_rest[q - 1]);
                    }
                }
                assert forall|a: int, b: int| 0 <= a < b < spans.len() implies (
                #[trigger] spans[a]).1 <= (#[trigger] spans[b]).0 by {
                    assert(spans[b] == spans_rest[b - 1]);
                    if a > 0 {
                        assert(spans[a] == spans_rest[a - 1]);
                    } else {
                        assert(next <= spans_rest[b - 1].0);
                    }
                }
            }
        },
        _ => {},
    }
}

/// Where two buffers agree from `i1` and `i2` on, they agree on every pair of
/// segments at corresponding positions.
proof fn lemma_segment_slide(s1: Seq<u8>, i1: int, s2: Seq<u8>, i2: int, a: int, b: int)
    requires
        0 <= i1 <= a <= b <= s1.len(),
        0 <= i2 <= s2.len(),
        s1.subrange(i1, s1.len() as int) == s2.subrange(i2, s2.len() as int),
    ensures
        s2.len() == s1.len() + (i2 - i1),
        s1.subrange(a, b) == s2.subrange(a + (i2 - i1), b + (i2 - i1)),
{
    let u = s1.subrange(i1, s1.len() as int);
    assert(s2.len() - i2 == u.len());
    assert(s1.subrange(a, b) =~= u.subrange(a - i1, b - i1));
    assert(s2.subrange(a + (i2 - i1), b + (i2 - i1)) =~= s2.subrange(
        i2,
        s2.len() as int,
    ).subrange(a - i1, b - i1));
}

/// Whether `t2` is `t1` with every position moved right by `d`.
pub open spec fn track_step_shifted(t1: TrackStep, t2: TrackStep, d: int) -> bool {
    match t1 {
        TrackStep::End => t2 == TrackStep::End,
        TrackStep::Fail => t2 == TrackStep::Fail,
        TrackStep::Span { ps, pe, next } => t2 == (TrackStep::Span {
            ps: ps + d,
            pe: pe + d,
            next: next + d,
        }),
    }
}

/// Track stepping sees only the bytes at and after its position.
proof fn lemma_next_track_shift(s1: Seq<u8>, i1: int, s2: Seq<u8>, i2: int, lenient: bool)
    requires
        0 <= i1 <= s1.len(),
        0 <= i2 <= s2.len(),
        s1.subrange(i1, s1.len() as int) == s2.subrange(i2, s2.len() as int),
    ensures
        track_step_shifted(next_track(s1, i1, lenient), next_track(s2, i2, lenient), i2 - i1),
    decreases s1.len() - i1,
{
    lemma_next_chunk_shift(s1, i1, s2, i2, lenient);
    lemma_next_chunk_bounds(s1, i1, lenient);
    match next_chunk(s1, i1, lenient) {
        ChunkStep::Head { ps, pe, next } => {
            if lenient {
                lemma_segment_slide(s1, i1, s2, i2, next, s1.len() as int);
                lemma_next_track_shift(s1, next, s2, next + (i2 - i1), lenient);
            }
        },
        _ => {},
    }
}

/// Track-chunk framing sees only the bytes at and after its position: the
/// spans found correspond position for position, with equal contents.
proof fn lemma_track_spans_shift(s1: Seq<u8>, i1: int, s2: Seq<u8>, i2: int, lenient: bool)
    requires
        0 <= i1 <= s1.len(),
        0 <= i2 <= s2.len(),
        s1.subrange(i1, s1.len() as int) == s2.subrange(i2, s2.len() as int),
    ensures
        match track_spans(s1, i1, lenient) {
            Ok(sp1) => track_spans(s2, i2, lenient) is Ok && {
                let sp2 = track_spans(s2, i2, lenient)->Ok_0;
                &&& sp2.len() == sp1.len()
                &&& forall|q: int|
                    0 <= q < sp1.len() ==> sp2[q] == ((
                        (#[trigger] sp1[q]).0 + (i2 - i1),
                        sp1[q].1 + (i2 - i1),
                    )) && s1.subrange(sp1[q].0, sp1[q].1) == s2.subrange(
                        sp1[q].0 + (i2 - i1),
                        sp1[q].1 + (i2 - i1),
                    )
            },
            Err(k) => track_spans(s2, i2, lenient) == Err::<Seq<(int, int)>, ErrorKind>(k),
        },
    decreases s1.len() - i1,
{
    let d = i2 - i1;
    lemma_next_track_shift(s1, i1, s2, i2, lenient);
    lemma_next_track_bounds(s1, i1, lenient);
    match next_track(s1, i1, lenient) {
        TrackStep::End => {},
        TrackStep::Fail => {},
        TrackStep::Span { ps, pe, next } => {
            lemma_segment_slide(s1, i1, s2, i2, ps, pe);
            lemma_segment_slide(s1, i1, s2, i2, next, s1.len() as int);
            lemma_track_spans_shift(s1, next, s2, next + d, lenient);
            if track_spans(s1, next, lenient) is Ok {
                let rest1 = track_spans(s1, next, lenient)->Ok_0;
                let rest2 = track_spans(s2, next + d, lenient)->Ok_0;
                let sp1 = seq![(ps, pe)] + rest1;
                let sp2 = seq![(ps + d, pe + d)] + rest2;
                assert(track_spans(s1, i1, lenient) == Ok::<_, ErrorKind>(sp1));
                assert(track_spans(s2, i2, lenient) == Ok::<_, ErrorKind>(sp2));
                assert forall|q: int| 0 <= q < sp1.len() implies sp2[q] == ((
                    (#[trigger] sp1[q]).0 + d,
                    sp1[q].1 + d,
                )) && s1.subrange(sp1[q].0, sp1[q].1) == s2.subrange(
                    sp1[q].0 + d,
                    sp1[q].1 + d,
                ) by {
                    if q > 0 {
                        assert(sp1[q] == rest1[q - 1]);
                        assert(sp2[q] == rest2[q - 1]);
                    }
                }
            }
        },
    }
}

/// Collecting the tracks sees only the bytes at and after its position: on
/// equal suffixes the decoded tracks, and any error, are identical.
proof fn lemma_tracks_collect_shift(s1: Seq<u8>, i1: int, s2: Seq<u8>, i2: int, lenient: bool)
    requires
        0 <= i1 <= s1.len(),
        0 <= i2 <= s2.len(),
        s1.subrange(i1, s1.len() as int) == s2.subrange(i2, s2.len() as int),
    ensures
        tracks_collect(s1, i1, lenient) == tracks_collect(s2, i2, lenient),
{
    let d = i2 - i1;
    lemma_track_spans_shift(s1, i1, s2, i2, lenient);
    match track_spans(s1, i1, lenient) {
        Err(k) => {},
        Ok(sp1) => {
            let sp2 = track_spans(s2, i2, lenient)->Ok_0;
            assert forall|q: int| 0 <= q < sp1.len() implies span_ok(s1, #[trigger] sp1[q])
                == span_ok(s2, sp2[q]) && span_events(s1, sp1[q]) == span_events(s2, sp2[q]) by {
                assert(sp2[q] == ((sp1[q].0 + d, sp1[q].1 + d)));
                assert(s1.subrange(sp1[q].0, sp1[q].1) == s2.subrange(sp2[q].0, sp2[q].1));
            }
            assert(all_spans_ok(s1, sp1) == all_spans_ok(s2, sp2)) by {
                if all_spans_ok(s1, sp1) {
                    assert forall|q: int| 0 <= q < sp2.len() implies span_ok(
                        s2,
                        #[trigger] sp2[q],
                    ) by {
                        assert(span_ok(s1, sp1[q]));
                    }
                }
                if all_spans_ok(s2, sp2) {
                    assert forall|q: int| 0 <= q < sp1.len() implies span_ok(
                        s1,
                        #[trigger] sp1[q],
                    ) by {
                        assert(span_ok(s2, sp2[q]));
                    }
                }
            }
            assert(decode_spans(s1, sp1) =~= decode_spans(s2, sp2));
        },
    }
}

/// Unknown-chunk skip: a file with a chunk of an unrecognized tag standing
/// between the header chunk and the rest parses exactly as the same file with
/// that chunk removed, under either policy.
#[verifier::rlimit(100)]
pub proof fn lemma_unknown_chunk_skip(
    h: Header,
    tc: u16,
    id: Seq<u8>,
    payload: Seq<u8>,
    rest: Seq<u8>,
    lenient: bool,
)
    requires
        id.len() == 4,
        id != mthd(),
        id != mtrk(),
        payload.len() <= 0xFFFFFFFF,
    ensures
        smf_parse_spec(
            header_chunk_enc(h, tc) + id + be32_bytes(payload.len() as int) + payload + rest,
            lenient,
        ) == smf_parse_spec(header_chunk_enc(h, tc) + rest, lenient),
{
    let hc = header_chunk_enc(h, tc);
    let pl = payload.len() as int;
    let mid = id + be32_bytes(pl) + payload;
    let s1 = hc + id + be32_bytes(pl) + payload + rest;
    let s2 = hc + rest;
    assert(s1 == hc + mid + rest);
    assert(hc.len() == 14);
    let ul = mid.len() as int;
    assert(ul == 8 + pl);

    // both files open with the same well-framed header chunk
    assert(s1.subrange(0, 4) =~= mthd());
    assert(s2.subrange(0, 4) =~= mthd());
    assert(s1.subrange(4, 8) =~= be32_bytes(6));
    assert(s2.subrange(4, 8) =~= be32_bytes(6));
    lemma_be32_round_trip(s1, 4, 6);
    lemma_be32_round_trip(s2, 4, 6);
    assert(next_chunk(s1, 0, lenient) == ChunkStep::Head { ps: 8, pe: 14, next: 14 });
    assert(next_chunk(s2, 0, lenient) == ChunkStep::Head { ps: 8, pe: 14, next: 14 });
    assert(s1.subrange(8, 14) =~= header_enc(h, tc));
    assert(s2.subrange(8, 14) =~= header_enc(h, tc));
    assert(s1.subrange(8, 14) == s2.subrange(8, 14));
    assert(parse_spec(s1, lenient) == parse_spec(s2, lenient));

    // in the longer file, chunk reading at the track region skips the
    // unrecognized chunk
    assert(s1.subrange(14, 18) =~= id);
    assert(s1.subrange(18, 22) =~= be32_bytes(pl));
    lemma_be32_round_trip(s1, 18, pl);
    assert(14 + 8 + pl <= s1.len());
    assert(next_chunk(s1, 14, lenient) == next_chunk(s1, 14 + ul, lenient));
    assert(next_track(s1, 14, lenient) == next_track(s1, 14 + ul, lenient));
    assert(track_spans(s1, 14, lenient) == track_spans(s1, 14 + ul, lenient));
    assert(tracks_collect(s1, 14, lenient) == tracks_collect(s1, 14 + ul, lenient));

    // past it, the two files agree byte for byte
    assert(s1.subrange(14 + ul, s1.len() as int) =~= rest);
    assert(s2.subrange(14, s2.len() as int) =~= rest);
    lemma_tracks_collect_shift(s1, 14 + ul, s2, 14, lenient);
    assert(tracks_collect(s1, 14, lenient) == tracks_collect(s2, 14, lenient));
}

} // verus!
