use midly::{Event, ErrorKind, Format, Header, Smf, SmfBytemap, Timing};

fn header_chunk(format: u16, count: u16, timing: u16) -> Vec<u8> {
    let mut v = b"MThd".to_vec();
    v.extend_from_slice(&6u32.to_be_bytes());
    v.extend_from_slice(&format.to_be_bytes());
    v.extend_from_slice(&count.to_be_bytes());
    v.extend_from_slice(&timing.to_be_bytes());
    v
}

fn chunk(id: &[u8; 4], payload: &[u8]) -> Vec<u8> {
    let mut v = id.to_vec();
    v.extend_from_slice(&(payload.len() as u32).to_be_bytes());
    v.extend_from_slice(payload);
    v
}

fn note_on(delta: u32, key: u8, vel: u8) -> Event {
    Event { delta, status: 0x90, data: vec![key, vel] }
}

#[test]
fn parse_two_tracks() {
    let mut file = header_chunk(1, 2, 480);
    file.extend_from_slice(&chunk(b"MTrk", &[0x00, 0x90, 0x3C, 0x40]));
    file.extend_from_slice(&chunk(b"MTrk", &[0x00, 0x91, 0x3E, 0x50]));
    let smf = Smf::parse(&file, false).unwrap();
    assert_eq!(smf.header.format, Format::MultiTrackSync);
    assert_eq!(smf.header.timing, Timing::Metrical(480));
    assert_eq!(smf.tracks.len(), 2);
    assert_eq!(smf.tracks[0], vec![note_on(0, 0x3C, 0x40)]);
    assert_eq!(smf.tracks[1], vec![Event { delta: 0, status: 0x91, data: vec![0x3E, 0x50] }]);
}

#[test]
fn running_status_decodes() {
    let mut file = header_chunk(0, 1, 480);
    file.extend_from_slice(&chunk(b"MTrk", &[0x00, 0x90, 0x3C, 0x40, 0x00, 0x3E, 0x50]));
    let smf = Smf::parse(&file, false).unwrap();
    assert_eq!(smf.tracks.len(), 1);
    assert_eq!(smf.tracks[0], vec![note_on(0, 0x3C, 0x40), note_on(0, 0x3E, 0x50)]);
}

#[test]
fn meta_and_sysex_events() {
    let payload = [
        0x00, 0xFF, 0x51, 0x03, 0x07, 0xA1, 0x20, // meta: tempo, three data bytes
        0x00, 0xF0, 0x02, 0x01, 0x02, // sysex with two payload bytes
        0x00, 0xFF, 0x2F, 0x00, // meta: end of track, no data
    ];
    let mut file = header_chunk(0, 1, 480);
    file.extend_from_slice(&chunk(b"MTrk", &payload));
    let smf = Smf::parse(&file, false).unwrap();
    let track = &smf.tracks[0];
    assert_eq!(track.len(), 3);
    assert_eq!(track[0], Event { delta: 0, status: 0xFF, data: vec![0x51, 0x07, 0xA1, 0x20] });
    assert_eq!(track[1], Event { delta: 0, status: 0xF0, data: vec![0x01, 0x02] });
    assert_eq!(track[2], Event { delta: 0, status: 0xFF, data: vec![0x2F] });
}

#[test]
fn delta_time_vlq_decodes() {
    // 0x81 0x48 is the two-byte variable-length form of 200
    let mut file = header_chunk(0, 1, 480);
    file.extend_from_slice(&chunk(b"MTrk", &[0x81, 0x48, 0x90, 0x3C, 0x40]));
    let smf = Smf::parse(&file, false).unwrap();
    assert_eq!(smf.tracks[0], vec![note_on(200, 0x3C, 0x40)]);
}

#[test]
fn encode_then_decode_reproduces_container() {
    let header = Header::new(Format::MultiTrackSync, Timing::Metrical(96));
    let tracks = vec![
        vec![
            note_on(0, 0x3C, 0x40),
            note_on(0x0FFFFFFF, 0x3C, 0x00), // the largest delta a VLQ can hold
            Event { delta: 5, status: 0xC0, data: vec![0x07] },
            Event { delta: 0, status: 0xFF, data: vec![0x2F] },
        ],
        vec![
            Event { delta: 0x80, status: 0xF7, data: vec![0xAA, 0xBB, 0xCC] },
            Event { delta: 0x4000, status: 0x91, data: vec![0x40, 0x40] },
            note_on(0, 0x3C, 0x40),
        ],
    ];
    let smf = Smf::new(header, tracks);
    assert!(midly::tracks_well_formed(&smf.tracks));
    let mut bytes = Vec::new();
    smf.write(&mut bytes).unwrap();
    let reparsed = Smf::parse(&bytes, false).unwrap();
    assert_eq!(reparsed.header, smf.header);
    assert_eq!(reparsed.tracks, smf.tracks);
    let lenient = Smf::parse(&bytes, true).unwrap();
    assert_eq!(lenient.header, smf.header);
    assert_eq!(lenient.tracks, smf.tracks);
}

#[test]
fn decode_then_encode_reproduces_bytes() {
    // consecutive events under one status: the input uses running status, as
    // the encoder does, so the bytes survive a decode/encode round trip
    let mut file = header_chunk(0, 1, 480);
    file.extend_from_slice(&chunk(b"MTrk", &[0x00, 0x90, 0x3C, 0x40, 0x00, 0x3E, 0x50]));
    let smf = Smf::parse(&file, false).unwrap();
    let mut out = Vec::new();
    smf.write(&mut out).unwrap();
    assert_eq!(out, file);
}

#[test]
fn timecode_header_round_trips() {
    // high bit set: a negated frame rate of 24 and 4 ticks per frame
    let timing = ((-24i8 as u8 as u16) << 8) | 4;
    let mut file = header_chunk(2, 1, timing);
    file.extend_from_slice(&chunk(b"MTrk", &[]));
    let smf = Smf::parse(&file, false).unwrap();
    assert_eq!(smf.header.format, Format::MultiTrackAsync);
    assert_eq!(smf.header.timing, Timing::Timecode(-24, 4));
    let mut out = Vec::new();
    smf.write(&mut out).unwrap();
    assert_eq!(out, file);
}

#[test]
fn header_read_rejects_short_or_unknown() {
    assert!(Header::read(&[0, 0, 0, 1, 1]).is_none());
    assert!(Header::read(&[0, 3, 0, 1, 1, 0xE0]).is_none());
    let (h, count) = Header::read(&[0, 1, 0, 7, 0x01, 0xE0]).unwrap();
    assert_eq!(h.format, Format::MultiTrackSync);
    assert_eq!(h.timing, Timing::Metrical(0x01E0));
    assert_eq!(count, 7);
}

#[test]
fn bytemap_records_exact_source_bytes() {
    let payload = [0x00, 0x90, 0x3C, 0x40, 0x00, 0x3E, 0x50, 0x00, 0xFF, 0x2F, 0x00];
    let mut file = header_chunk(0, 1, 480);
    file.extend_from_slice(&chunk(b"MTrk", &payload));
    let smf = SmfBytemap::parse(&file, false).unwrap();
    assert_eq!(smf.tracks.len(), 1);
    let track = &smf.tracks[0];
    assert_eq!(track.len(), 3);
    let concat: Vec<u8> = track.iter().flat_map(|(b, _)| b.iter().copied()).collect();
    assert_eq!(concat, payload.to_vec());
    assert_eq!(track[0].0, &payload[0..4]);
    assert_eq!(track[0].1, note_on(0, 0x3C, 0x40));
    assert!(midly::bytemap_tracks_well_formed(&smf.tracks));
    let mut out = Vec::new();
    smf.write(&mut out).unwrap();
    assert_eq!(out, file);
}

#[test]
fn empty_input_is_invalid() {
    let e = Smf::parse(&[], true).unwrap_err();
    assert_eq!(e.kind(), ErrorKind::Invalid);
    assert_eq!(e.message(), "no header chunk");
}

#[test]
fn track_chunk_first_is_invalid() {
    let file = chunk(b"MTrk", &[0x00, 0x90, 0x3C, 0x40]);
    let e = Smf::parse(&file, true).unwrap_err();
    assert_eq!(e.kind(), ErrorKind::Invalid);
    assert_eq!(e.message(), "expected header, found track");
}

#[test]
fn garbage_header_is_invalid() {
    let e = Smf::parse(&[0x4D, 0x54, 0x68], true).unwrap_err();
    assert_eq!(e.kind(), ErrorKind::Invalid);
    let file = chunk(b"MThd", &[0, 0]);
    let e = Smf::parse(&file, true).unwrap_err();
    assert_eq!(e.kind(), ErrorKind::Invalid);
}

#[test]
fn oversized_track_count_is_invalid_input() {
    let header = Header::new(Format::MultiTrackSync, Timing::Metrical(480));
    let tracks: Vec<Vec<Event>> = vec![Vec::new(); 0x10000];
    let smf = Smf::new(header, tracks);
    assert!(midly::tracks_well_formed(&smf.tracks));
    let mut out = Vec::new();
    let e = smf.write(&mut out).unwrap_err();
    assert_eq!(e.kind(), ErrorKind::InvalidInput);
    assert_eq!(e.message(), "track count exceeds 16-bit range");
}

#[test]
fn lazy_iterator_pulls_and_reports_state() {
    let payload = [0x00, 0x90, 0x3C, 0x40, 0x00, 0x3E, 0x50];
    let mut it = midly::EventIter::new(&payload, false);
    assert_eq!(it.running_status(), None);
    assert_eq!(it.unread(), &payload[..]);
    let first = it.next().unwrap().unwrap();
    assert_eq!(first, note_on(0, 0x3C, 0x40));
    assert_eq!(it.running_status(), Some(0x90));
    assert_eq!(it.unread(), &payload[4..]);
    let second = it.next().unwrap().unwrap();
    assert_eq!(second, note_on(0, 0x3E, 0x50));
    assert!(it.next().is_none());
}

#[test]
fn running_status_register_can_be_replaced() {
    // with the register cleared, a data-first record no longer decodes
    let payload = [0x00, 0x90, 0x3C, 0x40, 0x00, 0x3E, 0x50];
    let mut it = midly::EventIter::new(&payload, true);
    it.next().unwrap().unwrap();
    it.running_status_mut(None);
    assert!(it.next().is_none());
    // with a register installed up front, it decodes from the start
    let tail = [0x00, 0x3E, 0x50];
    let mut it2 = midly::EventIter::new(&tail, false);
    it2.running_status_mut(Some(0x90));
    assert_eq!(it2.next().unwrap().unwrap(), note_on(0, 0x3E, 0x50));
}

#[test]
fn free_parse_exposes_track_iterator() {
    let mut file = header_chunk(1, 2, 480);
    file.extend_from_slice(&chunk(b"MTrk", &[0x00, 0x90, 0x3C, 0x40]));
    file.extend_from_slice(&chunk(b"MTrk", &[0x00, 0x3E, 0x50]));
    let (header, mut tracks) = midly::parse(&file, false).unwrap();
    assert_eq!(header.format, Format::MultiTrackSync);
    let t1 = tracks.next().unwrap().unwrap();
    assert_eq!(t1.collect().unwrap(), vec![note_on(0, 0x3C, 0x40)]);
    // running status never crosses track boundaries: the second track opens
    // with a data byte and no status, so it is corrupt on its own
    let t2 = tracks.next().unwrap().unwrap();
    assert_eq!(t2.collect().unwrap_err().kind(), ErrorKind::Malformed);
    assert!(tracks.next().is_none());
}

#[test]
fn bytemapped_iterator_matches_eager_collect() {
    let payload = [0x00, 0x90, 0x3C, 0x40, 0x00, 0x3E, 0x50];
    let it = midly::EventIter::new(&payload, false);
    let pairs = it.bytemapped().collect().unwrap();
    assert_eq!(pairs.len(), 2);
    assert_eq!(pairs[0].0, &payload[0..4]);
    assert_eq!(pairs[1].0, &payload[4..7]);
    assert_eq!(pairs[1].1, note_on(0, 0x3E, 0x50));
    let direct = midly::EventBytemapIter::new(&payload, false).collect().unwrap();
    assert_eq!(pairs, direct);
}

#[test]
fn delta_time_boundaries_round_trip() {
    // each boundary where the variable-length encoding grows by one byte
    let deltas = [0, 0x7F, 0x80, 0x3FFF, 0x4000, 0x1FFFFF, 0x200000, 0x0FFFFFFF];
    let header = Header::new(Format::SingleTrack, Timing::Metrical(480));
    let tracks = vec![deltas.iter().map(|&d| note_on(d, 0x3C, 0x40)).collect::<Vec<_>>()];
    let smf = Smf::new(header, tracks);
    let mut bytes = Vec::new();
    smf.write(&mut bytes).unwrap();
    let reparsed = Smf::parse(&bytes, false).unwrap();
    assert_eq!(reparsed.tracks, smf.tracks);
}

#[test]
fn bytemap_iterator_reports_state() {
    let payload = [0x00, 0x90, 0x3C, 0x40, 0x00, 0x3E, 0x50];
    let mut it = midly::EventBytemapIter::new(&payload, false);
    assert_eq!(it.running_status(), None);
    assert_eq!(it.unread(), &payload[..]);
    it.running_status_mut(Some(0x91));
    assert_eq!(it.running_status(), Some(0x91));
    it.running_status_mut(None);
    let pairs = it.collect().unwrap();
    assert_eq!(pairs.len(), 2);
    let mut lazy = midly::EventBytemapIter::new(&payload, false);
    let (bytes, ev) = lazy.next().unwrap().unwrap();
    assert_eq!(bytes, &payload[0..4]);
    assert_eq!(ev, note_on(0, 0x3C, 0x40));
    assert_eq!(lazy.unread(), &payload[4..]);
}

#[test]
fn event_well_formedness_is_checked() {
    assert!(note_on(0, 0x3C, 0x40).is_well_formed());
    // a channel-voice event missing one of its data bytes
    assert!(!Event { delta: 0, status: 0x90, data: vec![0x3C] }.is_well_formed());
    // a delta beyond what a variable-length quantity can hold
    assert!(!note_on(0x10000000, 0x3C, 0x40).is_well_formed());
    // a meta event without its type byte
    assert!(!Event { delta: 0, status: 0xFF, data: vec![] }.is_well_formed());
    // a data byte with its high bit set
    assert!(!Event { delta: 0, status: 0x90, data: vec![0x3C, 0x80] }.is_well_formed());
    assert!(!midly::tracks_well_formed(&vec![vec![note_on(0x10000000, 0, 0)]]));
}

#[test]
fn validate_smf_enforces_strict_invariants() {
    let h = Header::new(Format::SingleTrack, Timing::Metrical(480));
    assert!(midly::validate_smf(&h, 1, 1, false).is_ok());
    assert_eq!(
        midly::validate_smf(&h, 2, 1, false).unwrap_err().kind(),
        ErrorKind::Malformed
    );
    assert_eq!(
        midly::validate_smf(&h, 2, 2, false).unwrap_err().kind(),
        ErrorKind::Malformed
    );
    assert!(midly::validate_smf(&h, 2, 2, true).is_ok());
}
