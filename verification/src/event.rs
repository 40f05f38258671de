//! One event record: delta-time, status — explicit or inherited through
//! running status — and data bytes.

use vstd::prelude::*;
use crate::vlq::{vlq_dec, vlq_enc, vlq_read, vlq_write, lemma_vlq_dec_bounds, lemma_vlq_round_trip};

verus! {

/// The mathematical model of one decoded event: its delta-time, the status
/// byte that governs it (explicit or inherited through running status), and
/// its data bytes. For a meta event the first data byte is the meta type.
pub ghost struct SpecEvent {
    pub delta: int,
    pub status: u8,
    pub data: Seq<u8>,
}

/// A time-stamped event of a track: a delta-time, a status byte and the data
/// bytes that belong to it. For a meta event (`status == 0xFF`) the first
/// data byte is the meta type.
#[derive(Clone, Debug, PartialEq, Eq)]
pub struct Event {
    pub delta: u32,
    pub status: u8,
    pub data: Vec<u8>,
}

impl View for Event {
    type V = SpecEvent;

    open spec fn view(&self) -> SpecEvent {
        SpecEvent { delta: self.delta as int, status: self.status, data: self.data@ }
    }
}

impl DeepView for Event {
    type V = SpecEvent;

    open spec fn deep_view(&self) -> SpecEvent {
        self.view()
    }
}

/// Whether `b` is a channel-voice status byte, the only kind that running
/// status may abbreviate.
pub open spec fn is_channel_status(b: u8) -> bool {
    0x80 <= b <= 0xEF
}

/// The number of data bytes that follow a channel-voice status byte.
pub open spec fn channel_data_len(b: u8) -> int {
    if 0xC0 <= b <= 0xDF {
        1
    } else {
        2
    }
}

/// A running-status register only ever holds a channel-voice status byte.
pub open spec fn rs_valid(rs: Option<u8>) -> bool {
    rs matches Some(st) ==> is_channel_status(st)
}

/// The running-status register after an event: a channel-voice event installs
/// its status byte; a system-exclusive or meta event clears the register.
pub open spec fn rs_after(e: SpecEvent) -> Option<u8> {
    if is_channel_status(e.status) {
        Some(e.status)
    } else {
        None
    }
}

/// A well-formed event: its delta-time fits a variable-length quantity, a
/// channel-voice event carries exactly the data bytes its status calls for
/// and each below `0x80`, a system-exclusive or meta payload's length fits a
/// variable-length quantity, and a meta event carries at least its type byte.
pub open spec fn wf_event(e: SpecEvent) -> bool {
    &&& 0 <= e.delta < 0x10000000
    &&& if is_channel_status(e.status) {
        e.data.len() == channel_data_len(e.status) && all_below_0x80(e.data)
    } else if e.status == 0xF0 || e.status == 0xF7 {
        e.data.len() < 0x10000000
    } else if e.status == 0xFF {
        1 <= e.data.len() && e.data.len() <= 0x10000000
    } else {
        false
    }
}

/// Every byte of `s` has its high bit clear.
pub open spec fn all_below_0x80(s: Seq<u8>) -> bool {
    forall|j: int| 0 <= j < s.len() ==> s[j] < 0x80
}

/// Decodes the data bytes of a channel-voice event whose status is `st` and
/// whose data starts at `dstart`.
pub open spec fn dec_channel(s: Seq<u8>, dstart: int, delta: int, st: u8) -> Option<
    (SpecEvent, int, Option<u8>),
> {
    let dl = channel_data_len(st);
    if dstart + dl <= s.len() && all_below_0x80(s.subrange(dstart, dstart + dl)) {
        Some(
            (
                SpecEvent { delta, status: st, data: s.subrange(dstart, dstart + dl) },
                dstart + dl,
                Some(st),
            ),
        )
    } else {
        None
    }
}

/// Decodes one event record at position `i` of `s` under running status `rs`:
/// a delta-time, then either an explicit status byte or — when the next byte
/// has its high bit clear — the status inherited from `rs`. Returns the
/// event, the position one past its last byte, and the new running status;
/// `None` when the record is corrupt or cut off.
pub open spec fn ev_dec(s: Seq<u8>, i: int, rs: Option<u8>) -> Option<
    (SpecEvent, int, Option<u8>),
> {
    match vlq_dec(s, i) {
        None => None,
        Some((delta, j)) => {
            if j >= s.len() {
                None
            } else {
                let b = s[j];
                if b < 0x80 {
                    match rs {
                        Some(st) => if is_channel_status(st) {
                            dec_channel(s, j, delta, st)
                        } else {
                            None
                        },
                        None => None,
                    }
                } else if is_channel_status(b) {
                    dec_channel(s, j + 1, delta, b)
                } else if b == 0xF0 || b == 0xF7 {
                    match vlq_dec(s, j + 1) {
                        None => None,
                        Some((len, k)) => {
                            if k + len <= s.len() {
                                Some(
                                    (
                                        SpecEvent {
                                            delta,
                                            status: b,
                                            data: s.subrange(k, k + len),
                                        },
                                        k + len,
                                        None,
                                    ),
                                )
                            } else {
                                None
                            }
                        },
                    }
                } else if b == 0xFF {
                    if j + 1 >= s.len() {
                        None
                    } else {
                        match vlq_dec(s, j + 2) {
                            None => None,
                            Some((len, k)) => {
                                if k + len <= s.len() {
                                    Some(
                                        (
                                            SpecEvent {
                                                delta,
                                                status: 0xFF,
                                                data: seq![s[j + 1]] + s.subrange(k, k + len),
                                            },
                                            k + len,
                                            None,
                                        ),
                                    )
                                } else {
                                    None
                                }
                            },
                        }
                    }
                } else {
                    None
                }
            }
        },
    }
}

/// The encoding of the body of `e` (everything after the delta-time) under
/// running status `rs`: a channel-voice event whose status equals `rs` omits
/// the status byte; a system-exclusive or meta payload is length-prefixed.
pub open spec fn ev_enc_body(e: SpecEvent, rs: Option<u8>) -> Seq<u8> {
    if is_channel_status(e.status) {
        if rs == Some(e.status) {
            e.data
        } else {
            seq![e.status] + e.data
        }
    } else if e.status == 0xF0 || e.status == 0xF7 {
        seq![e.status] + vlq_enc(e.data.len() as int) + e.data
    } else {
        seq![0xFFu8, e.data[0]] + vlq_enc(e.data.len() - 1) + e.data.subrange(
            1,
            e.data.len() as int,
        )
    }
}

/// The full encoding of `e` under running status `rs`.
pub open spec fn ev_enc(e: SpecEvent, rs: Option<u8>) -> Seq<u8> {
    vlq_enc(e.delta) + ev_enc_body(e, rs)
}

/// A decoded record occupies at least one byte and stays within the buffer,
/// whatever the running status held.
pub proof fn lemma_ev_dec_bounds(s: Seq<u8>, i: int, rs: Option<u8>)
    ensures
        match ev_dec(s, i, rs) {
            Some((e, end, rs2)) => i < end <= s.len(),
            None => true,
        },
{
    lemma_vlq_dec_bounds(s, i);
    if vlq_dec(s, i) is Some {
        let (delta, j) = vlq_dec(s, i)->Some_0;
        if j < s.len() {
            let b = s[j];
            if b == 0xF0 || b == 0xF7 {
                lemma_vlq_dec_bounds(s, j + 1);
            } else if b == 0xFF && j + 1 < s.len() {
                lemma_vlq_dec_bounds(s, j + 2);
            }
        }
    }
}

/// What decoding guarantees of a decoded event: it is well formed, the new
/// running status is the one the event installs, and the record occupies at
/// least one byte and stays within the buffer.
pub proof fn lemma_ev_dec_wf(s: Seq<u8>, i: int, rs: Option<u8>)
    requires
        rs_valid(rs),
    ensures
        match ev_dec(s, i, rs) {
            Some((e, end, rs2)) => wf_event(e) && rs2 == rs_after(e) && i < end <= s.len(),
            None => true,
        },
{
    lemma_vlq_dec_bounds(s, i);
    if vlq_dec(s, i) is Some {
        let (delta, j) = vlq_dec(s, i)->Some_0;
        if j < s.len() {
            let b = s[j];
            if b == 0xF0 || b == 0xF7 {
                lemma_vlq_dec_bounds(s, j + 1);
            } else if b == 0xFF && j + 1 < s.len() {
                lemma_vlq_dec_bounds(s, j + 2);
            }
        }
    }
}

/// Appends every byte of `b` to `out`.
pub fn push_bytes(out: &mut Vec<u8>, b: &[u8])
    ensures
        final(out)@ == old(out)@ + b@,
{
    let n: usize = b.len();
    let mut k: usize = 0;
    while k < n
        invariant
            k <= n,
            n == b@.len(),
            out@ == old(out)@ + b@.subrange(0, k as int),
        decreases n - k,
    {
        out.push(*vstd::slice::slice_index_get(b, k));
        assert(out@ =~= old(out)@ + b@.subrange(0, k + 1));
        k = k + 1;
    }
    assert(out@ =~= old(out)@ + b@);
}

/// Reads the data bytes of a channel-voice event whose status is `st` and
/// whose data starts at `dstart`.
fn read_channel_data(s: &[u8], dstart: usize, delta: u32, st: u8) -> (r: Option<
    (Event, usize, Option<u8>),
>)
    requires
        dstart <= s@.len(),
        is_channel_status(st),
        delta < 0x10000000,
    ensures
        match r {
            Some((e, end, rs2)) => dec_channel(s@, dstart as int, delta as int, st) == Some(
                (e@, end as int, rs2),
            ) && dstart < end <= s@.len(),
            None => dec_channel(s@, dstart as int, delta as int, st) is None,
        },
{
    let n: usize = s.len();
    let dl: usize = if 0xC0 <= st && st <= 0xDF {
        1
    } else {
        2
    };
    if n - dstart < dl {
        return None;
    }
    let b0 = *vstd::slice::slice_index_get(s, dstart);
    if b0 >= 0x80 {
        assert(s@.subrange(dstart as int, dstart + dl)[0] == b0);
        assert(!all_below_0x80(s@.subrange(dstart as int, dstart + dl)));
        return None;
    }
    let mut data: Vec<u8> = Vec::new();
    data.push(b0);
    if dl == 2 {
        let b1 = *vstd::slice::slice_index_get(s, dstart + 1);
        if b1 >= 0x80 {
            assert(s@.subrange(dstart as int, dstart + dl)[1] == b1);
            assert(!all_below_0x80(s@.subrange(dstart as int, dstart + dl)));
            return None;
        }
        data.push(b1);
    }
    assert(data@ =~= s@.subrange(dstart as int, dstart + dl));
    assert(all_below_0x80(s@.subrange(dstart as int, dstart + dl)));
    Some((Event { delta, status: st, data }, dstart + dl, Some(st)))
}

impl Event {
    /// Reads one event record at position `pos` of `s` under running status
    /// `rs`. Returns the event, the position one past its last byte, and the
    /// new running status; `None` when the record is corrupt or cut off.
    pub fn read(s: &[u8], pos: usize, rs: Option<u8>) -> (r: Option<(Event, usize, Option<u8>)>)
        requires
            pos <= s@.len(),
        ensures
            match r {
                Some((e, end, rs2)) => ev_dec(s@, pos as int, rs) == Some(
                    (e@, end as int, rs2),
                ) && pos < end <= s@.len(),
                None => ev_dec(s@, pos as int, rs) is None,
            },
    {
        let n: usize = s.len();
        let (delta, j) = match vlq_read(s, pos) {
            None => {
                return None;
            },
            Some(r) => r,
        };
        proof {
            lemma_vlq_dec_bounds(s@, pos as int);
        }
        if j == n {
            return None;
        }
        let b = *vstd::slice::slice_index_get(s, j);
        if b < 0x80 {
            match rs {
                Some(st) => {
                    if 0x80 <= st && st <= 0xEF {
                        read_channel_data(s, j, delta, st)
                    } else {
                        None
                    }
                },
                None => None,
            }
        } else if b <= 0xEF {
            read_channel_data(s, j + 1, delta, b)
        } else if b == 0xF0 || b == 0xF7 {
            match vlq_read(s, j + 1) {
                None => None,
                Some((len, k)) => {
                    proof {
                        lemma_vlq_dec_bounds(s@, j + 1);
                    }
                    let len = len as usize;
                    if n - k < len {
                        return None;
                    }
                    let data = vstd::slice::slice_to_vec(
                        vstd::slice::slice_subrange(s, k, k + len),
                    );
                    Some((Event { delta, status: b, data }, k + len, None))
                },
            }
        } else if b == 0xFF {
            if j + 1 == n {
                return None;
            }
            let ty = *vstd::slice::slice_index_get(s, j + 1);
            match vlq_read(s, j + 2) {
                None => None,
                Some((len, k)) => {
                    proof {
                        lemma_vlq_dec_bounds(s@, j + 2);
                    }
                    let len = len as usize;
                    if n - k < len {
                        return None;
                    }
                    let mut data: Vec<u8> = Vec::new();
                    data.push(ty);
                    push_bytes(&mut data, vstd::slice::slice_subrange(s, k, k + len));
                    assert(data@ =~= seq![s@[j + 1]] + s@.subrange(k as int, k + len));
                    Some((Event { delta, status: b, data }, k + len, None))
                },
            }
        } else {
            None
        }
    }

    /// Whether this event is well formed, as `wf_event` demands of its model.
    pub fn is_well_formed(&self) -> (r: bool)
        ensures
            r == wf_event(self@),
    {
        if self.delta >= 0x10000000 {
            return false;
        }
        if 0x80 <= self.status && self.status <= 0xEF {
            let dl: usize = if 0xC0 <= self.status && self.status <= 0xDF {
                1
            } else {
                2
            };
            if self.data.len() != dl {
                return false;
            }
            let mut k: usize = 0;
            while k < dl
                invariant
                    k <= dl,
                    dl == self.data@.len(),
                    is_channel_status(self.status),
                    dl == channel_data_len(self.status),
                    forall|j: int| 0 <= j < k ==> self.data@[j] < 0x80,
                decreases dl - k,
            {
                if self.data[k] >= 0x80 {
                    assert(self@.data[k as int] >= 0x80);
                    assert(!wf_event(self@));
                    return false;
                }
                k = k + 1;
            }
            assert(all_below_0x80(self.data@));
            true
        } else if self.status == 0xF0 || self.status == 0xF7 {
            self.data.len() < 0x10000000
        } else if self.status == 0xFF {
            1 <= self.data.len() && self.data.len() <= 0x10000000
        } else {
            false
        }
    }

    /// Appends the encoding of this event under running status `rs` to
    /// `out`, and installs in `rs` the running status the event calls for.
    pub fn write(&self, rs: &mut Option<u8>, out: &mut Vec<u8>)
        requires
            wf_event(self@),
        ensures
            final(out)@ == old(out)@ + ev_enc(self@, *old(rs)),
            *final(rs) == rs_after(self@),
    {
        vlq_write(self.delta, out);
        if 0x80 <= self.status && self.status <= 0xEF {
            let omit = match *rs {
                Some(st) => st == self.status,
                None => false,
            };
            if !omit {
                out.push(self.status);
            }
            push_bytes(out, self.data.as_slice());
            *rs = Some(self.status);
        } else if self.status == 0xF0 || self.status == 0xF7 {
            out.push(self.status);
            assert(self.data@.len() < 0x10000000);
            vlq_write(self.data.len() as u32, out);
            push_bytes(out, self.data.as_slice());
            *rs = None;
        } else {
            out.push(self.status);
            let ty = self.data[0];
            out.push(ty);
            vlq_write((self.data.len() - 1) as u32, out);
            push_bytes(out, vstd::slice::slice_subrange(self.data.as_slice(), 1, self.data.len()));
            assert(seq![self.status, ty] + vlq_enc(self.data@.len() - 1) + self.data@.subrange(
                1,
                self.data@.len() as int,
            ) =~= ev_enc_body(self@, *old(rs)));
            *rs = None;
        }
        assert(final(out)@ =~= old(out)@ + ev_enc(self@, *old(rs)));
    }
}

/// Decoding an encoded well-formed event under the running status it was
/// encoded for yields the event back, ends exactly past its encoding, and
/// installs the running status the event calls for — wherever the encoding
/// stands inside a larger buffer.
pub proof fn lemma_ev_round_trip(s: Seq<u8>, i: int, e: SpecEvent, rs: Option<u8>)
    requires
        wf_event(e),
        rs_valid(rs),
        0 <= i,
        i + ev_enc(e, rs).len() <= s.len(),
        s.subrange(i, i + ev_enc(e, rs).len()) == ev_enc(e, rs),
    ensures
        ev_dec(s, i, rs) == Some((e, i + ev_enc(e, rs).len(), rs_after(e))),
{
    let enc = ev_enc(e, rs);
    let l = enc.len() as int;
    let d = vlq_enc(e.delta);
    let body = ev_enc_body(e, rs);
    let dl = d.len() as int;
    let j = i + dl;

    assert(s.subrange(i, i + dl) =~= s.subrange(i, i + l).subrange(0, dl));
    assert(enc.subrange(0, dl) =~= d);
    lemma_vlq_round_trip(s, i, e.delta);
    assert(vlq_dec(s, i) == Some((e.delta, j)));

    if is_channel_status(e.status) {
        let cdl = channel_data_len(e.status);
        if rs == Some(e.status) {
            // the status byte is omitted: the first data byte stands at `j`
            assert(s[j] == s.subrange(i, i + l)[dl]);
            assert(enc[dl] == e.data[0]);
            assert(s[j] < 0x80);
            assert(s.subrange(j, j + cdl) =~= s.subrange(i, i + l).subrange(dl, dl + cdl));
            assert(enc.subrange(dl, dl + cdl) =~= e.data);
            assert(all_below_0x80(s.subrange(j, j + cdl)));
            assert(dec_channel(s, j, e.delta, e.status) == Some(
                (e, i + l, Some(e.status)),
            ));
        } else {
            assert(s[j] == s.subrange(i, i + l)[dl]);
            assert(enc[dl] == e.status);
            assert(s.subrange(j + 1, j + 1 + cdl) =~= s.subrange(i, i + l).subrange(
                dl + 1,
                dl + 1 + cdl,
            ));
            assert(enc.subrange(dl + 1, dl + 1 + cdl) =~= e.data);
            assert(all_below_0x80(s.subrange(j + 1, j + 1 + cdl)));
            assert(dec_channel(s, j + 1, e.delta, e.status) == Some(
                (e, i + l, Some(e.status)),
            ));
        }
    } else if e.status == 0xF0 || e.status == 0xF7 {
        let n = e.data.len() as int;
        let lv = vlq_enc(n);
        let lvl = lv.len() as int;
        let k = j + 1 + lvl;
        assert(s[j] == s.subrange(i, i + l)[dl]);
        assert(enc[dl] == e.status);
        assert(s.subrange(j + 1, k) =~= s.subrange(i, i + l).subrange(dl + 1, dl + 1 + lvl));
        assert(enc.subrange(dl + 1, dl + 1 + lvl) =~= lv);
        lemma_vlq_round_trip(s, j + 1, n);
        assert(vlq_dec(s, j + 1) == Some((n, k)));
        assert(s.subrange(k, k + n) =~= s.subrange(i, i + l).subrange(dl + 1 + lvl, dl + 1 + lvl + n));
        assert(enc.subrange(dl + 1 + lvl, dl + 1 + lvl + n) =~= e.data);
        assert(ev_dec(s, i, rs) == Some((e, i + l, None::<u8>)));
    } else {
        // wf_event leaves only the meta case
        let n = (e.data.len() - 1) as int;
        let lv = vlq_enc(n);
        let lvl = lv.len() as int;
        let k = j + 2 + lvl;
        assert(s[j] == s.subrange(i, i + l)[dl]);
        assert(enc[dl] == 0xFF);
        assert(s[j + 1] == s.subrange(i, i + l)[dl + 1]);
        assert(enc[dl + 1] == e.data[0]);
        assert(s.subrange(j + 2, k) =~= s.subrange(i, i + l).subrange(dl + 2, dl + 2 + lvl));
        assert(enc.subrange(dl + 2, dl + 2 + lvl) =~= lv);
        lemma_vlq_round_trip(s, j + 2, n);
        assert(vlq_dec(s, j + 2) == Some((n, k)));
        assert(s.subrange(k, k + n) =~= s.subrange(i, i + l).subrange(dl + 2 + lvl, dl + 2 + lvl + n));
        assert(enc.subrange(dl + 2 + lvl, dl + 2 + lvl + n) =~= e.data.subrange(1, e.data.len() as int));
        assert(seq![s[j + 1]] + s.subrange(k, k + n) =~= e.data);
        assert(ev_dec(s, i, rs) == Some((e, i + l, None::<u8>)));
    }
}

} // verus!
