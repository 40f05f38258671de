//! One track's event stream: the running-status scan, and its lazy, eager
//! and bytemapped decoders.

use vstd::prelude::*;
use crate::error::{ErrorKind, MidiError};
use crate::event::{
    Event, SpecEvent, ev_dec, ev_enc, rs_after, rs_valid, wf_event, lemma_ev_dec_bounds,
    lemma_ev_dec_wf, lemma_ev_round_trip,
};

verus! {

/// Decodes the event stream of one track from position `i` of `s` to the end
/// of `s`, threading the running status. Returns each decoded event paired
/// with the exact bytes of its record, and whether the stream was exhausted
/// cleanly (`false`: a record was corrupt or cut off where decoding stopped).
pub open spec fn trk_scan(s: Seq<u8>, i: int, rs: Option<u8>) -> (Seq<(Seq<u8>, SpecEvent)>, bool)
    decreases s.len() - i
        when 0 <= i <= s.len()
        via trk_scan_dec
{
    if i >= s.len() {
        (Seq::empty(), true)
    } else {
        match ev_dec(s, i, rs) {
            None => (Seq::empty(), false),
            Some((e, end, rs2)) => {
                let rest = trk_scan(s, end, rs2);
                (seq![(s.subrange(i, end), e)] + rest.0, rest.1)
            },
        }
    }
}

#[via_fn]
proof fn trk_scan_dec(s: Seq<u8>, i: int, rs: Option<u8>) {
    lemma_ev_dec_bounds(s, i, rs);
}

/// The events a track's byte stream decodes to, up to the first corrupt
/// record if any.
pub open spec fn trk_events(s: Seq<u8>, i: int, rs: Option<u8>) -> Seq<SpecEvent> {
    trk_scan(s, i, rs).0.map_values(|p: (Seq<u8>, SpecEvent)| p.1)
}

/// Whether a track's byte stream decodes cleanly to its end.
pub open spec fn trk_ok(s: Seq<u8>, i: int, rs: Option<u8>) -> bool {
    trk_scan(s, i, rs).1
}

/// The encoding of an event sequence under an incoming running status.
pub open spec fn trk_enc(es: Seq<SpecEvent>, rs: Option<u8>) -> Seq<u8>
    decreases es.len(),
{
    if es.len() == 0 {
        Seq::empty()
    } else {
        ev_enc(es[0], rs) + trk_enc(es.drop_first(), rs_after(es[0]))
    }
}

/// Every event of the sequence is well formed.
pub open spec fn wf_events(es: Seq<SpecEvent>) -> bool {
    forall|k: int| 0 <= k < es.len() ==> wf_event(es[k])
}

/// Unfolds one step of the track scan over its event view.
pub proof fn lemma_trk_step(s: Seq<u8>, i: int, rs: Option<u8>)
    requires
        0 <= i < s.len(),
    ensures
        match ev_dec(s, i, rs) {
            None => trk_events(s, i, rs) == Seq::<SpecEvent>::empty() && !trk_ok(s, i, rs),
            Some((e, end, rs2)) => trk_events(s, i, rs) == seq![e] + trk_events(s, end, rs2)
                && trk_ok(s, i, rs) == trk_ok(s, end, rs2) && trk_scan(s, i, rs).0 == seq![
                (s.subrange(i, end), e),
            ] + trk_scan(s, end, rs2).0,
        },
{
    lemma_ev_dec_bounds(s, i, rs);
    match ev_dec(s, i, rs) {
        None => {
            assert(trk_events(s, i, rs) =~= Seq::<SpecEvent>::empty());
        },
        Some((e, end, rs2)) => {
            assert(trk_events(s, i, rs) =~= seq![e] + trk_events(s, end, rs2));
        },
    }
}

/// Every event a track scan yields is well formed — so what decoding hands
/// back always meets what the encoder demands.
pub proof fn lemma_trk_events_wf(s: Seq<u8>, i: int, rs: Option<u8>)
    requires
        rs_valid(rs),
        0 <= i <= s.len(),
    ensures
        wf_events(trk_events(s, i, rs)),
    decreases s.len() - i,
{
    if i >= s.len() {
        assert(trk_events(s, i, rs) =~= Seq::<SpecEvent>::empty());
    } else {
        lemma_ev_dec_bounds(s, i, rs);
        lemma_ev_dec_wf(s, i, rs);
        lemma_trk_step(s, i, rs);
        match ev_dec(s, i, rs) {
            None => {
                assert(trk_events(s, i, rs) =~= Seq::<SpecEvent>::empty());
            },
            Some((e, end, rs2)) => {
                lemma_trk_events_wf(s, end, rs2);
                let es = trk_events(s, i, rs);
                assert forall|k: int| 0 <= k < es.len() implies wf_event(#[trigger] es[k]) by {
                    if k > 0 {
                        assert(es[k] == trk_events(s, end, rs2)[k - 1]);
                    }
                }
            },
        }
    }
}

/// Decoding an encoded well-formed event sequence that fills `s` from `i` to
/// its end yields the sequence back, cleanly.
pub proof fn lemma_trk_round_trip(s: Seq<u8>, i: int, es: Seq<SpecEvent>, rs: Option<u8>)
    requires
        wf_events(es),
        rs_valid(rs),
        0 <= i,
        i + trk_enc(es, rs).len() == s.len(),
        s.subrange(i, s.len() as int) == trk_enc(es, rs),
    ensures
        trk_ok(s, i, rs),
        trk_events(s, i, rs) == es,
    decreases es.len(),
{
    if es.len() == 0 {
        assert(i == s.len());
        assert(trk_events(s, i, rs) =~= es);
    } else {
        let e0 = es[0];
        let enc0 = ev_enc(e0, rs);
        let l0 = enc0.len() as int;
        let rest = trk_enc(es.drop_first(), rs_after(e0));
        assert(trk_enc(es, rs) == enc0 + rest);
        assert(s.subrange(i, i + l0) =~= s.subrange(i, s.len() as int).subrange(0, l0));
        assert((enc0 + rest).subrange(0, l0) =~= enc0);
        lemma_ev_round_trip(s, i, e0, rs);
        assert(ev_dec(s, i, rs) == Some((e0, i + l0, rs_after(e0))));
        assert(s.subrange(i + l0, s.len() as int) =~= s.subrange(i, s.len() as int).subrange(
            l0,
            s.len() - i,
        ));
        assert((enc0 + rest).subrange(l0, l0 + rest.len()) =~= rest);
        assert(wf_events(es.drop_first())) by {
            assert(forall|k: int|
                0 <= k < es.drop_first().len() ==> es.drop_first()[k] == es[k + 1]);
        }
        lemma_trk_round_trip(s, i + l0, es.drop_first(), rs_after(e0));
        lemma_trk_step(s, i, rs);
        assert(trk_events(s, i, rs) =~= es);
    }
}

/// The source bytes of a scan's records, in order.
pub open spec fn scan_bytes(ps: Seq<(Seq<u8>, SpecEvent)>) -> Seq<u8>
    decreases ps.len(),
{
    if ps.len() == 0 {
        Seq::empty()
    } else {
        ps[0].0 + scan_bytes(ps.drop_first())
    }
}

/// Bytemap coverage: the recorded source bytes of a cleanly decoded stream,
/// concatenated in order, are exactly the bytes that were decoded — a
/// bytemapped track supports byte-identical reconstruction.
pub proof fn lemma_scan_bytes_cover(s: Seq<u8>, i: int, rs: Option<u8>)
    requires
        0 <= i <= s.len(),
        trk_ok(s, i, rs),
    ensures
        scan_bytes(trk_scan(s, i, rs).0) == s.subrange(i, s.len() as int),
    decreases s.len() - i,
{
    if i >= s.len() {
        assert(s.subrange(i, s.len() as int) =~= Seq::<u8>::empty());
    } else {
        lemma_ev_dec_bounds(s, i, rs);
        lemma_trk_step(s, i, rs);
        match ev_dec(s, i, rs) {
            None => {},
            Some((e, end, rs2)) => {
                lemma_scan_bytes_cover(s, end, rs2);
                let head = seq![(s.subrange(i, end), e)];
                let rest = trk_scan(s, end, rs2).0;
                assert((head + rest).drop_first() =~= rest);
                assert((head + rest)[0] == (s.subrange(i, end), e));
                assert(scan_bytes(head + rest) == s.subrange(i, end) + scan_bytes(rest));
                assert(s.subrange(i, end) + s.subrange(end, s.len() as int) =~= s.subrange(
                    i,
                    s.len() as int,
                ));
            },
        }
    }
}

/// An event stream decoder over one track's byte span: an explicit cursor
/// into caller-owned bytes plus the track's private running-status register.
/// Events are produced on demand; after a corrupt record the cursor is forced
/// to the end of the span so nothing can be decoded from a bad position.
#[derive(Clone, Copy, Debug)]
pub struct EventIter<'a> {
    pub raw: &'a [u8],
    pub pos: usize,
    pub running_status: Option<u8>,
    pub lenient: bool,
}

impl<'a> EventIter<'a> {
    /// The cursor stays within the span.
    pub open spec fn wf(&self) -> bool {
        self.pos <= self.raw@.len()
    }

    /// A fresh decoder over `raw`, at its start, with no running status.
    pub fn new(raw: &'a [u8], lenient: bool) -> (r: EventIter<'a>)
        ensures
            r.wf(),
            r.raw@ == raw@,
            r.pos == 0,
            r.running_status is None,
            r.lenient == lenient,
    {
        EventIter { raw, pos: 0, running_status: None, lenient }
    }

    /// The remaining unread bytes.
    pub fn unread(&self) -> (r: &'a [u8])
        requires
            self.wf(),
        ensures
            r@ == self.raw@.subrange(self.pos as int, self.raw@.len() as int),
    {
        vstd::slice::slice_subrange(self.raw, self.pos, self.raw.len())
    }

    /// The current running status of the track.
    pub fn running_status(&self) -> (r: Option<u8>)
        ensures
            r == self.running_status,
    {
        self.running_status
    }

    /// Replaces the current running status of the track.
    pub fn running_status_mut(&mut self, rs: Option<u8>)
        ensures
            *final(self) == (EventIter { running_status: rs, ..*old(self) }),
    {
        self.running_status = rs;
    }

    /// This decoder, producing each event paired with its exact source bytes.
    pub fn bytemapped(self) -> (r: EventBytemapIter<'a>)
        ensures
            r.iter == self,
    {
        EventBytemapIter { iter: self }
    }

    /// Pulls the next event. At a corrupt record the cursor is forced to the
    /// end of the span; under the strict policy the error surfaces, under the
    /// lenient policy the stream simply ends.
    pub fn next(&mut self) -> (r: Option<Result<Event, MidiError>>)
        requires
            old(self).wf(),
        ensures
            final(self).wf(),
            final(self).raw == old(self).raw,
            final(self).lenient == old(self).lenient,
            ({
                let s = old(self).raw@;
                let i = old(self).pos as int;
                let rs = old(self).running_status;
                if i == s.len() {
                    r is None && *final(self) == *old(self)
                } else {
                    match ev_dec(s, i, rs) {
                        Some((ge, end, rs2)) => {
                            &&& r matches Some(Ok(e)) && e@ == ge
                            &&& final(self).pos == end
                            &&& final(self).running_status == rs2
                        },
                        None => {
                            &&& final(self).pos == s.len()
                            &&& if old(self).lenient {
                                r is None
                            } else {
                                r matches Some(Err(e)) && e.kind == ErrorKind::Malformed
                            }
                        },
                    }
                }
            }),
    {
        if self.pos == self.raw.len() {
            return None;
        }
        match Event::read(self.raw, self.pos, self.running_status) {
            Some((e, end, rs2)) => {
                self.pos = end;
                self.running_status = rs2;
                Some(Ok(e))
            },
            None => {
                self.pos = self.raw.len();
                if self.lenient {
                    None
                } else {
                    Some(Err(MidiError::malformed("malformed event")))
                }
            },
        }
    }

    /// Decodes the remaining records eagerly. Under the lenient policy a
    /// corrupt record silently truncates the track: every event before it is
    /// returned and nothing after. Under the strict policy it is an error.
    pub fn collect(self) -> (r: Result<Vec<Event>, MidiError>)
        requires
            self.wf(),
        ensures
            ({
                let s = self.raw@;
                let i = self.pos as int;
                let rs = self.running_status;
                match r {
                    Ok(es) => es.deep_view() == trk_events(s, i, rs) && (self.lenient || trk_ok(
                        s,
                        i,
                        rs,
                    )),
                    Err(e) => !self.lenient && !trk_ok(s, i, rs) && e.kind
                        == ErrorKind::Malformed,
                }
            }),
    {
        let ghost s = self.raw@;
        let ghost i0 = self.pos as int;
        let ghost rs0 = self.running_status;
        let mut it = self;
        let mut events: Vec<Event> = Vec::new();
        loop
            invariant
                it.wf(),
                it.raw@ == s,
                it.lenient == self.lenient,
                s == self.raw@,
                i0 == self.pos as int,
                rs0 == self.running_status,
                0 <= i0 <= s.len(),
                trk_events(s, i0, rs0) == events.deep_view() + trk_events(
                    s,
                    it.pos as int,
                    it.running_status,
                ),
                trk_ok(s, i0, rs0) == trk_ok(s, it.pos as int, it.running_status),
            decreases s.len() - it.pos,
        {
            let ghost p = it.pos as int;
            let ghost rs = it.running_status;
            if it.pos == it.raw.len() {
                assert(events.deep_view() =~= trk_events(s, i0, rs0));
                return Ok(events);
            }
            proof {
                lemma_trk_step(s, p, rs);
                lemma_ev_dec_bounds(s, p, rs);
            }
            match Event::read(it.raw, it.pos, it.running_status) {
                Some((e, end, rs2)) => {
                    let ghost ev0 = events.deep_view();
                    let ghost ge = e@;
                    it.pos = end;
                    it.running_status = rs2;
                    events.push(e);
                    proof {
                        assert(events.deep_view() =~= ev0 + seq![ge]);
                        assert(ev0 + seq![ge] + trk_events(s, it.pos as int, it.running_status)
                            =~= ev0 + (seq![ge] + trk_events(s, it.pos as int, it.running_status)));
                    }
                },
                None => {
                    if it.lenient {
                        assert(trk_events(s, p, rs) =~= Seq::<SpecEvent>::empty());
                        assert(events.deep_view() =~= trk_events(s, i0, rs0));
                        return Ok(events);
                    } else {
                        return Err(MidiError::malformed("malformed event"));
                    }
                },
            }
        }
    }
}

/// An event stream decoder that pairs every decoded event with the exact
/// bytes of its record, enabling byte-exact reconstruction or diffing.
pub struct EventBytemapIter<'a> {
    pub iter: EventIter<'a>,
}

impl<'a> EventBytemapIter<'a> {
    /// A fresh bytemapped decoder over `raw`.
    pub fn new(raw: &'a [u8], lenient: bool) -> (r: EventBytemapIter<'a>)
        ensures
            r.iter.wf(),
            r.iter.raw@ == raw@,
            r.iter.pos == 0,
            r.iter.running_status is None,
            r.iter.lenient == lenient,
    {
        EventBytemapIter { iter: EventIter::new(raw, lenient) }
    }

    /// The remaining unread bytes.
    pub fn unread(&self) -> (r: &'a [u8])
        requires
            self.iter.wf(),
        ensures
            r@ == self.iter.raw@.subrange(self.iter.pos as int, self.iter.raw@.len() as int),
    {
        self.iter.unread()
    }

    /// The current running status of the track.
    pub fn running_status(&self) -> (r: Option<u8>)
        ensures
            r == self.iter.running_status,
    {
        self.iter.running_status()
    }

    /// Replaces the current running status of the track.
    pub fn running_status_mut(&mut self, rs: Option<u8>)
        ensures
            final(self).iter == (EventIter { running_status: rs, ..old(self).iter }),
    {
        self.iter.running_status_mut(rs);
    }

    /// Pulls the next event together with the exact bytes of its record,
    /// under the same policy as `EventIter::next`.
    pub fn next(&mut self) -> (r: Option<Result<(&'a [u8], Event), MidiError>>)
        requires
            old(self).iter.wf(),
        ensures
            final(self).iter.wf(),
            final(self).iter.raw == old(self).iter.raw,
            final(self).iter.lenient == old(self).iter.lenient,
            ({
                let s = old(self).iter.raw@;
                let i = old(self).iter.pos as int;
                let rs = old(self).iter.running_status;
                if i == s.len() {
                    r is None && *final(self) == *old(self)
                } else {
                    match ev_dec(s, i, rs) {
                        Some((ge, end, rs2)) => {
                            &&& r matches Some(Ok((b, e))) && e@ == ge && b@ == s.subrange(i, end)
                            &&& final(self).iter.pos == end
                            &&& final(self).iter.running_status == rs2
                        },
                        None => {
                            &&& final(self).iter.pos == s.len()
                            &&& if old(self).iter.lenient {
                                r is None
                            } else {
                                r matches Some(Err(e)) && e.kind == ErrorKind::Malformed
                            }
                        },
                    }
                }
            }),
    {
        let old_pos = self.iter.pos;
        proof {
            lemma_ev_dec_bounds(self.iter.raw@, old_pos as int, self.iter.running_status);
        }
        match self.iter.next() {
            None => None,
            Some(Err(e)) => Some(Err(e)),
            Some(Ok(e)) => {
                let span = vstd::slice::slice_subrange(self.iter.raw, old_pos, self.iter.pos);
                Some(Ok((span, e)))
            },
        }
    }

    /// Decodes the remaining records eagerly, each event paired with its
    /// exact source bytes, under the same policy as `EventIter::collect`.
    pub fn collect(self) -> (r: Result<Vec<(&'a [u8], Event)>, MidiError>)
        requires
            self.iter.wf(),
        ensures
            ({
                let s = self.iter.raw@;
                let i = self.iter.pos as int;
                let rs = self.iter.running_status;
                match r {
                    Ok(es) => es.deep_view() == trk_scan(s, i, rs).0 && (self.iter.lenient
                        || trk_ok(s, i, rs)),
                    Err(e) => !self.iter.lenient && !trk_ok(s, i, rs) && e.kind
                        == ErrorKind::Malformed,
                }
            }),
    {
        let ghost s = self.iter.raw@;
        let ghost i0 = self.iter.pos as int;
        let ghost rs0 = self.iter.running_status;
        let mut it = self.iter;
        let mut events: Vec<(&'a [u8], Event)> = Vec::new();
        loop
            invariant
                it.wf(),
                it.raw@ == s,
                it.raw == self.iter.raw,
                it.lenient == self.iter.lenient,
                s == self.iter.raw@,
                i0 == self.iter.pos as int,
                rs0 == self.iter.running_status,
                0 <= i0 <= s.len(),
                trk_scan(s, i0, rs0).0 == events.deep_view() + trk_scan(
                    s,
                    it.pos as int,
                    it.running_status,
                ).0,
                trk_ok(s, i0, rs0) == trk_ok(s, it.pos as int, it.running_status),
            decreases s.len() - it.pos,
        {
            let ghost p = it.pos as int;
            let ghost rs = it.running_status;
            if it.pos == it.raw.len() {
                assert(events.deep_view() =~= trk_scan(s, i0, rs0).0);
                return Ok(events);
            }
            proof {
                lemma_trk_step(s, p, rs);
                lemma_ev_dec_bounds(s, p, rs);
            }
            let old_pos = it.pos;
            match Event::read(it.raw, it.pos, it.running_status) {
                Some((e, end, rs2)) => {
                    let ghost ev0 = events.deep_view();
                    let ghost ge = e@;
                    it.pos = end;
                    it.running_status = rs2;
                    let span = vstd::slice::slice_subrange(it.raw, old_pos, end);
                    events.push((span, e));
                    proof {
                        assert(span.deep_view() =~= s.subrange(p, it.pos as int));
                        assert(events.deep_view() =~= ev0 + seq![(s.subrange(p, it.pos as int), ge)]);
                        assert(ev0 + seq![(s.subrange(p, it.pos as int), ge)] + trk_scan(
                            s,
                            it.pos as int,
                            it.running_status,
                        ).0 =~= ev0 + (seq![(s.subrange(p, it.pos as int), ge)] + trk_scan(
                            s,
                            it.pos as int,
                            it.running_status,
                        ).0));
                    }
                },
                None => {
                    if it.lenient {
                        assert(trk_scan(s, p, rs).0 =~= Seq::<(Seq<u8>, SpecEvent)>::empty());
                        assert(events.deep_view() =~= trk_scan(s, i0, rs0).0);
                        return Ok(events);
                    } else {
                        return Err(MidiError::malformed("malformed event"));
                    }
                },
            }
        }
    }
}

} // verus!
