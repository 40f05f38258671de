use midly::{ErrorKind, Event, Smf, PARALLEL_ENABLE_THRESHOLD};

fn header_chunk(format: u16, count: u16, timing: u16) -> Vec<u8> {
    let mut v = b"MThd".to_vec();
    v.extend_from_slice(&6u32.to_be_bytes());
    v.extend_from_slice(&format.to_be_bytes());
    v.extend_from_slice(&count.to_be_bytes());
    v.extend_from_slice(&timing.to_be_bytes());
    v
}

fn chunk(id: &[u8; 4], payload: &[u8]) -> Vec<u8> {
    let mut v = id.to_vec();
    v.extend_from_slice(&(payload.len() as u32).to_be_bytes());
    v.extend_from_slice(payload);
    v
}

fn note_on(delta: u32, key: u8, vel: u8) -> Event {
    Event { delta, status: 0x90, data: vec![key, vel] }
}

#[test]
fn lenient_truncation_keeps_prior_events() {
    // the second record is cut off after its key byte
    let payload = [0x00, 0x90, 0x3C, 0x40, 0x00, 0x90, 0x3C];
    let mut file = header_chunk(0, 1, 480);
    file.extend_from_slice(&chunk(b"MTrk", &payload));
    let smf = Smf::parse(&file, true).unwrap();
    assert_eq!(smf.tracks.len(), 1);
    assert_eq!(smf.tracks[0], vec![note_on(0, 0x3C, 0x40)]);
    let e = Smf::parse(&file, false).unwrap_err();
    assert_eq!(e.kind(), ErrorKind::Malformed);
    assert_eq!(e.message(), "malformed event");
}

#[test]
fn track_count_mismatch() {
    let mut file = header_chunk(1, 3, 480);
    file.extend_from_slice(&chunk(b"MTrk", &[0x00, 0x90, 0x3C, 0x40]));
    file.extend_from_slice(&chunk(b"MTrk", &[0x00, 0x90, 0x3E, 0x50]));
    let e = Smf::parse(&file, false).unwrap_err();
    assert_eq!(e.kind(), ErrorKind::Malformed);
    assert_eq!(e.message(), "file has a different amount of tracks than declared");
    let smf = Smf::parse(&file, true).unwrap();
    assert_eq!(smf.tracks.len(), 2);
}

#[test]
fn singletrack_with_two_tracks() {
    let mut file = header_chunk(0, 2, 480);
    file.extend_from_slice(&chunk(b"MTrk", &[0x00, 0x90, 0x3C, 0x40]));
    file.extend_from_slice(&chunk(b"MTrk", &[0x00, 0x90, 0x3E, 0x50]));
    let e = Smf::parse(&file, false).unwrap_err();
    assert_eq!(e.kind(), ErrorKind::Malformed);
    assert_eq!(e.message(), "singletrack format file has multiple tracks");
    let smf = Smf::parse(&file, true).unwrap();
    assert_eq!(smf.tracks.len(), 2);
    assert_eq!(smf.tracks[0], vec![note_on(0, 0x3C, 0x40)]);
    assert_eq!(smf.tracks[1], vec![note_on(0, 0x3E, 0x50)]);
}

#[test]
fn unknown_chunk_is_skipped() {
    let track = chunk(b"MTrk", &[0x00, 0x90, 0x3C, 0x40]);
    let mut plain = header_chunk(0, 1, 480);
    plain.extend_from_slice(&track);
    let mut with_unknown = header_chunk(0, 1, 480);
    with_unknown.extend_from_slice(&chunk(b"XFik", &[1, 2, 3, 4, 5]));
    with_unknown.extend_from_slice(&track);
    let a = Smf::parse(&plain, false).unwrap();
    let b = Smf::parse(&with_unknown, false).unwrap();
    assert_eq!(a.header, b.header);
    assert_eq!(a.tracks, b.tracks);
}

#[test]
fn truncated_chunk_payload() {
    // the chunk declares 100 payload bytes but only 4 follow
    let mut file = header_chunk(0, 1, 480);
    file.extend_from_slice(b"MTrk");
    file.extend_from_slice(&100u32.to_be_bytes());
    file.extend_from_slice(&[0x00, 0x90, 0x3C, 0x40]);
    let smf = Smf::parse(&file, true).unwrap();
    assert_eq!(smf.tracks, vec![vec![note_on(0, 0x3C, 0x40)]]);
    let e = Smf::parse(&file, false).unwrap_err();
    assert_eq!(e.kind(), ErrorKind::Malformed);
}

#[test]
fn duplicate_header_chunk() {
    let mut file = header_chunk(0, 1, 480);
    file.extend_from_slice(&header_chunk(0, 1, 480));
    file.extend_from_slice(&chunk(b"MTrk", &[0x00, 0x90, 0x3C, 0x40]));
    let e = Smf::parse(&file, false).unwrap_err();
    assert_eq!(e.kind(), ErrorKind::Malformed);
    assert_eq!(e.message(), "found duplicate header");
    let smf = Smf::parse(&file, true).unwrap();
    assert_eq!(smf.tracks, vec![vec![note_on(0, 0x3C, 0x40)]]);
}

/// Builds a file whose undecoded volume after the header chunk is exactly
/// `body_len` bytes: a padding chunk with an unrecognized tag, then `track`
/// repeated `n_tracks` times.
fn file_with_body_len(body_len: usize, track_payload: &[u8], n_tracks: usize) -> Vec<u8> {
    let track = chunk(b"MTrk", track_payload);
    let used = track.len() * n_tracks;
    assert!(body_len >= used + 8);
    let pad = vec![0u8; body_len - used - 8];
    let mut file = header_chunk(1, n_tracks as u16, 480);
    file.extend_from_slice(&chunk(b"XPad", &pad));
    for _ in 0..n_tracks {
        file.extend_from_slice(&track);
    }
    file
}

#[test]
fn threshold_boundary_decodes_identically() {
    let payload: Vec<u8> = (0..25u8)
        .flat_map(|k| vec![0x00, 0x90, 0x30 + (k % 0x30), 0x40])
        .collect();
    let expected: Vec<Event> = (0..25u8).map(|k| note_on(0, 0x30 + (k % 0x30), 0x40)).collect();
    for body_len in [
        PARALLEL_ENABLE_THRESHOLD - 1,
        PARALLEL_ENABLE_THRESHOLD,
        PARALLEL_ENABLE_THRESHOLD + 1,
    ] {
        let file = file_with_body_len(body_len, &payload, 3);
        let smf = Smf::parse(&file, false).unwrap();
        assert_eq!(smf.tracks.len(), 3);
        for track in &smf.tracks {
            assert_eq!(track, &expected);
        }
    }
}

#[test]
fn parallel_and_sequential_agree_on_errors() {
    // one corrupt track among many: the strict decode fails on both paths,
    // the lenient decode truncates that track on both paths
    let good = [0x00, 0x90, 0x3C, 0x40];
    let bad = [0x00, 0x90, 0x3C];
    for body_len in [PARALLEL_ENABLE_THRESHOLD - 1, 4 * PARALLEL_ENABLE_THRESHOLD] {
        let track = chunk(b"MTrk", &good);
        let bad_track = chunk(b"MTrk", &bad);
        let used = track.len() * 2 + bad_track.len();
        let pad = vec![0u8; body_len - used - 8];
        let mut file = header_chunk(1, 3, 480);
        file.extend_from_slice(&chunk(b"XPad", &pad));
        file.extend_from_slice(&track);
        file.extend_from_slice(&bad_track);
        file.extend_from_slice(&track);
        let e = Smf::parse(&file, false).unwrap_err();
        assert_eq!(e.kind(), ErrorKind::Malformed);
        let smf = Smf::parse(&file, true).unwrap();
        assert_eq!(smf.tracks.len(), 3);
        assert_eq!(smf.tracks[0], vec![note_on(0, 0x3C, 0x40)]);
        assert_eq!(smf.tracks[1], Vec::<Event>::new());
        assert_eq!(smf.tracks[2], vec![note_on(0, 0x3C, 0x40)]);
    }
}

#[test]
fn running_status_is_isolated_across_tracks_in_parallel() {
    // every track relies on running status internally; none can see another's
    let payload = [0x00, 0x90, 0x3C, 0x40, 0x00, 0x3E, 0x50];
    let expected = vec![note_on(0, 0x3C, 0x40), note_on(0, 0x3E, 0x50)];
    let small = file_with_body_len(PARALLEL_ENABLE_THRESHOLD - 1, &payload, 8);
    let big = file_with_body_len(PARALLEL_ENABLE_THRESHOLD + 512, &payload, 8);
    let a = Smf::parse(&small, false).unwrap();
    let b = Smf::parse(&big, false).unwrap();
    assert_eq!(a.tracks, b.tracks);
    for track in &a.tracks {
        assert_eq!(track, &expected);
    }
}
