use ascii_cam::color::Rgb;
use ascii_cam::recording::{RecordingDecoder, RecordingEncoder, RecordingError, RecordingOptions};
use ascii_cam::render::{RenderError, RenderedFrame};

fn header(width: u16, height: u16, flags: u8) -> Vec<u8> {
    let mut b = b"ACAM".to_vec();
    b.push(1);
    b.extend_from_slice(&width.to_le_bytes());
    b.extend_from_slice(&height.to_le_bytes());
    b.push(30);
    b.push(flags);
    b
}

fn record(kind: u8, ts: u64, payload: &[u8]) -> Vec<u8> {
    let mut b = vec![kind];
    b.extend_from_slice(&ts.to_le_bytes());
    b.extend_from_slice(&(payload.len() as u32).to_le_bytes());
    b.extend_from_slice(payload);
    b
}

fn plain(lines: &[&str]) -> RenderedFrame {
    let width = lines[0].chars().count();
    RenderedFrame::new(width, lines.len(), lines.iter().map(|l| l.to_string()).collect(), None).unwrap()
}

fn decode_all(bytes: Vec<u8>) -> Vec<(u64, RenderedFrame)> {
    let mut decoder = RecordingDecoder::open(bytes).unwrap();
    let mut out = Vec::new();
    while let Some(d) = decoder.read_frame().unwrap() {
        out.push((d.timestamp_ms, d.frame));
    }
    out
}

#[test]
fn header_holds_magic_version_dimensions_fps_and_flags() {
    let options = RecordingOptions { compress: true, skip_identical: false, keyframe_interval: 30 };
    let encoder = RecordingEncoder::create(3, 2, 24, options).unwrap();
    let bytes = encoder.finish();
    assert_eq!(bytes, vec![b'A', b'C', b'A', b'M', 1, 3, 0, 2, 0, 24, 1]);
    let decoder = RecordingDecoder::open(bytes).unwrap();
    assert_eq!((decoder.width(), decoder.height()), (3, 2));
}

#[test]
fn default_options_compress_skip_and_key_every_thirty_frames() {
    let o = RecordingOptions::default();
    assert!(o.compress);
    assert!(o.skip_identical);
    assert_eq!(o.keyframe_interval, 30);
}

#[test]
fn keyframe_delta_and_skip_records_are_written_as_specified() {
    let options = RecordingOptions { compress: false, skip_identical: true, keyframe_interval: 30 };
    let mut encoder = RecordingEncoder::create(2, 1, 30, options).unwrap();
    let a = plain(&["ab"]);
    let b = plain(&["aX"]);
    encoder.write_frame_at(5, &a).unwrap();
    encoder.write_frame_at(6, &b).unwrap();
    encoder.write_frame_at(7, &b).unwrap();
    assert_eq!(encoder.frame_count(), 3);
    let bytes = encoder.finish();
    let mut expected = header(2, 1, 2);
    expected.extend(record(0, 5, &[0, b'a', b'b']));
    expected.extend(record(1, 6, &[1, 0, 0, 0, 0, 1, 0, 0, 0, b'X']));
    expected.extend(record(2, 7, &[]));
    assert_eq!(bytes, expected);
    let frames = decode_all(bytes);
    assert_eq!(frames.len(), 3);
    assert_eq!(frames[0], (5, a));
    assert_eq!(frames[1], (6, b.clone()));
    assert_eq!(frames[2], (7, b));
}

#[test]
fn compressed_recordings_round_trip_and_differ_from_raw() {
    let line: String = "@".repeat(64);
    let lines: Vec<String> = (0..16).map(|_| line.clone()).collect();
    let colors = Some(vec![vec![Rgb::new(9, 8, 7); 64]; 16]);
    let frame = RenderedFrame::new(64, 16, lines, colors).unwrap();
    let mut second = frame.clone();
    second.lines[3].replace_range(10..11, "#");

    let compressed_opts = RecordingOptions { compress: true, skip_identical: true, keyframe_interval: 30 };
    let raw_opts = RecordingOptions { compress: false, skip_identical: true, keyframe_interval: 30 };
    let mut c = RecordingEncoder::create(64, 16, 30, compressed_opts).unwrap();
    let mut r = RecordingEncoder::create(64, 16, 30, raw_opts).unwrap();
    for (ts, f) in [(0, &frame), (40, &second), (80, &frame)] {
        c.write_frame_at(ts, f).unwrap();
        r.write_frame_at(ts, f).unwrap();
    }
    let cb = c.finish();
    let rb = r.finish();
    assert!(cb.len() < rb.len());
    let from_c = decode_all(cb);
    let from_r = decode_all(rb);
    assert_eq!(from_c, from_r);
    assert_eq!(from_c[0].1, frame);
    assert_eq!(from_c[1].1, second);
    assert_eq!(from_c[2].1, frame);
}

#[test]
fn every_keyframe_interval_frames_a_keyframe_is_written() {
    let options = RecordingOptions { compress: false, skip_identical: false, keyframe_interval: 2 };
    let mut encoder = RecordingEncoder::create(1, 1, 30, options).unwrap();
    let a = plain(&["a"]);
    for ts in 0..4 {
        encoder.write_frame_at(ts, &a).unwrap();
    }
    let bytes = encoder.finish();
    let mut expected = header(1, 1, 0);
    expected.extend(record(0, 0, &[0, b'a']));
    expected.extend(record(1, 1, &[0, 0, 0, 0, 0]));
    expected.extend(record(0, 2, &[0, b'a']));
    expected.extend(record(1, 3, &[0, 0, 0, 0, 0]));
    assert_eq!(bytes, expected);
}

#[test]
fn encoder_refuses_oversized_dimensions_and_mismatched_frames() {
    let o = RecordingOptions::default();
    assert_eq!(RecordingEncoder::create(70000, 1, 30, o).err(), Some(RecordingError::DimensionsTooLarge));
    let mut encoder = RecordingEncoder::create(2, 1, 30, o).unwrap();
    assert_eq!(
        encoder.write_frame_at(0, &plain(&["abc"])),
        Err(RecordingError::FrameSize { width: 3, height: 1, expected_width: 2, expected_height: 1 })
    );
}

#[test]
fn decoder_reports_each_kind_of_damage() {
    assert_eq!(RecordingDecoder::open(b"AC".to_vec()).err(), Some(RecordingError::Truncated));
    assert_eq!(RecordingDecoder::open(b"ACMA\x01".to_vec()).err(), Some(RecordingError::BadMagic));
    let mut v2 = header(1, 1, 0);
    v2[4] = 2;
    assert_eq!(RecordingDecoder::open(v2).err(), Some(RecordingError::UnsupportedVersion(2)));
    assert_eq!(RecordingDecoder::open(header(1, 1, 0)[..8].to_vec()).err(), Some(RecordingError::Truncated));

    let read_one = |records: Vec<u8>, flags: u8| {
        let mut bytes = header(2, 1, flags);
        bytes.extend(records);
        let mut d = RecordingDecoder::open(bytes).unwrap();
        d.read_frame().map(|f| f.map(|f| f.timestamp_ms))
    };
    assert_eq!(read_one(record(2, 0, &[]), 0), Err(RecordingError::SkipBeforeFirstFrame));
    assert_eq!(read_one(record(1, 0, &[0, 0, 0, 0, 0]), 0), Err(RecordingError::DeltaBeforeKeyframe));
    assert_eq!(read_one(record(7, 0, &[0]), 0), Err(RecordingError::UnknownFrameType(7)));
    assert_eq!(read_one(record(0, 0, &[]), 0), Err(RecordingError::EmptyKeyframe));
    assert_eq!(read_one(record(0, 0, &[0, b'a']), 0), Err(RecordingError::TruncatedKeyframeText));
    assert_eq!(read_one(record(0, 0, &[1, b'a', b'b', 1, 2, 3]), 0), Err(RecordingError::TruncatedKeyframeColors));
    assert_eq!(read_one(record(0, 0, &[0, 0xff, 0xfe]), 0), Err(RecordingError::NotUtf8));
    assert_eq!(read_one(record(0, 0, &[0, b'a', b'b']), 1), Err(RecordingError::Decompression));
    assert_eq!(read_one(record(0, 0, &[0, b'a', b'b'])[..15].to_vec(), 0), Err(RecordingError::Truncated));
    assert_eq!(read_one(vec![0, 1, 2], 0), Err(RecordingError::Truncated));
    // A two-byte character fills the two text bytes of one row but makes a
    // one-character line.
    assert_eq!(
        read_one(record(0, 0, &[0, 0xc3, 0xa9]), 0),
        Err(RecordingError::Frame(RenderError::LineWidth))
    );

    let with_key = |delta: &[u8]| {
        let mut bytes = header(2, 1, 0);
        bytes.extend(record(0, 0, &[0, b'a', b'b']));
        bytes.extend(record(1, 1, delta));
        let mut d = RecordingDecoder::open(bytes).unwrap();
        d.read_frame().unwrap();
        d.read_frame().map(|f| f.map(|f| f.frame.lines))
    };
    assert_eq!(with_key(&[0, 1, 0]), Err(RecordingError::TruncatedDelta));
    assert_eq!(with_key(&[1, 0, 0, 0, 0, 1, 0]), Err(RecordingError::TruncatedDeltaEntries));
    assert_eq!(with_key(&[1, 0, 0, 0, 0, 2, 0, 0, 0, b'z']), Err(RecordingError::DeltaIndexOutsideFrame));
    assert_eq!(with_key(&[1, 0, 0, 0, 0, 1, 0, 0, 0, b'z']), Ok(Some(vec!["az".to_string()])));
}

#[test]
fn reading_past_the_end_gives_nothing_and_skip_repeats_the_last_frame() {
    let mut bytes = header(1, 1, 0);
    bytes.extend(record(0, 10, &[0, b'q']));
    bytes.extend(record(2, 20, &[]));
    let frames = decode_all(bytes);
    assert_eq!(frames, vec![(10, plain(&["q"])), (20, plain(&["q"]))]);
}

#[test]
fn wrong_size_frames_leave_the_recording_unchanged() {
    let options = RecordingOptions { compress: false, skip_identical: true, keyframe_interval: 30 };
    let mut with_error = RecordingEncoder::create(2, 1, 30, options).unwrap();
    let mut without = RecordingEncoder::create(2, 1, 30, options).unwrap();
    with_error.write_frame_at(0, &plain(&["ab"])).unwrap();
    without.write_frame_at(0, &plain(&["ab"])).unwrap();
    assert!(with_error.write_frame_at(1, &plain(&["abc"])).is_err());
    assert_eq!(with_error.frame_count(), 1);
    with_error.write_frame_at(2, &plain(&["xb"])).unwrap();
    without.write_frame_at(2, &plain(&["xb"])).unwrap();
    assert_eq!(with_error.finish(), without.finish());
}

#[test]
fn zero_width_recordings_read_without_keyframes() {
    let mut bytes = header(0, 1, 0);
    bytes.extend(record(0, 0, &[]));
    let mut d = RecordingDecoder::open(bytes).unwrap();
    assert!(!d.next_is_zero_width_keyframe());
    assert_eq!(d.read_frame().err(), Some(RecordingError::EmptyKeyframe));
    let mut bytes = header(0, 1, 0);
    bytes.extend(record(0, 0, &[0]));
    let d = RecordingDecoder::open(bytes).unwrap();
    assert!(d.next_is_zero_width_keyframe());
    let d = RecordingDecoder::open(header(0, 1, 0)).unwrap();
    assert!(!d.next_is_zero_width_keyframe());
}

#[test]
fn decoded_frames_carry_no_cached_text() {
    let options = RecordingOptions { compress: false, skip_identical: true, keyframe_interval: 30 };
    let mut e = RecordingEncoder::create(1, 1, 30, options).unwrap();
    let f = plain(&["a"]).with_terminal_text("cached".to_string());
    e.write_frame_at(0, &f).unwrap();
    e.write_frame_at(1, &f).unwrap();
    let frames = decode_all(e.finish());
    assert_eq!(frames.len(), 2);
    for (_, frame) in frames {
        assert!(frame.terminal_text.is_none());
        assert_eq!(frame.terminal_text(), "a");
    }
}

#[test]
fn reading_goes_on_past_a_bad_record() {
    let mut bytes = header(1, 1, 0);
    bytes.extend(record(2, 1, &[]));
    bytes.extend(record(7, 2, &[9, 9]));
    bytes.extend(record(1, 3, &[0, 0, 0, 0, 0]));
    bytes.extend(record(0, 4, &[0, b'k']));
    bytes.extend(vec![0, 1, 2]);
    let mut d = RecordingDecoder::open(bytes).unwrap();
    assert_eq!(d.read_frame().err(), Some(RecordingError::SkipBeforeFirstFrame));
    assert_eq!(d.read_frame().err(), Some(RecordingError::UnknownFrameType(7)));
    assert_eq!(d.read_frame().err(), Some(RecordingError::DeltaBeforeKeyframe));
    let k = d.read_frame().unwrap().unwrap();
    assert_eq!((k.timestamp_ms, k.frame), (4, plain(&["k"])));
    assert_eq!(d.read_frame().err(), Some(RecordingError::Truncated));
    assert!(d.read_frame().unwrap().is_none());
}

#[test]
fn checked_reads_refuse_zero_width_keyframes() {
    let mut bytes = header(0, 1, 0);
    bytes.extend(record(0, 0, &[0]));
    let mut d = RecordingDecoder::open(bytes).unwrap();
    assert_eq!(d.try_read_frame().err(), Some(RecordingError::ZeroWidthKeyframe));
    assert_eq!(d.try_read_frame().err(), Some(RecordingError::ZeroWidthKeyframe));
    let mut bytes = header(1, 1, 0);
    bytes.extend(record(0, 5, &[0, b'z']));
    let mut d = RecordingDecoder::open(bytes).unwrap();
    assert_eq!(d.try_read_frame().unwrap().unwrap().timestamp_ms, 5);
    assert!(d.try_read_frame().unwrap().is_none());
}
