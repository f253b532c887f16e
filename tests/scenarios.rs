use cptv::container::{decode_frame, CptvFrame};
use cptv::decoder::{CptvPlayerContext, DecodeStatus};
use cptv::encoder::{push_frame, push_header};
use cptv::fields::CptvError;
use cptv::frame::FrameData;
use cptv::header::{decode_cptv_header, Cptv2Header, Parsed};

fn header(width: u32, height: u32) -> Cptv2Header {
    let mut h = Cptv2Header::new();
    h.width = width;
    h.height = height;
    h.fps = 9;
    h.device_name = "test".to_string();
    h
}

fn frame(width: usize, height: usize, pixels: &[u16], time_on: u32) -> CptvFrame {
    let mut f = CptvFrame::new_with_dimensions(width, height);
    f.image_data = FrameData::with_dimensions_and_data(width, height, pixels);
    f.time_on = time_on;
    f
}

fn encode_clip(h: &Cptv2Header, frames: &[CptvFrame]) -> Vec<u8> {
    let mut out = Vec::new();
    push_header(&mut out, h);
    let mut widths = [0i32; 2];
    let mut scratch = vec![0i32; 64];
    for i in 0..frames.len() {
        let prev = if i == 0 { None } else { Some(&frames[i - 1]) };
        push_frame(&mut out, &frames[i], prev, &mut widths, &mut scratch);
    }
    out
}

fn decode_all(bytes: &[u8]) -> (CptvPlayerContext, Vec<Vec<u16>>) {
    let mut d = CptvPlayerContext::new();
    d.append_bytes(bytes);
    d.end_stream();
    let mut out = Vec::new();
    loop {
        match d.fetch_raw_frame() {
            DecodeStatus::Frame(i) => out.push(d.get_frame_header_n(i).unwrap().image_data.data().to_vec()),
            DecodeStatus::StreamEnded => break,
            other => panic!("unexpected {:?}", other),
        }
    }
    (d, out)
}

/// Header bytes written by hand: magic, version 2, and the given fields.
fn raw_header(fields: &[(u8, Vec<u8>)]) -> Vec<u8> {
    let mut out = b"CPTV".to_vec();
    out.push(2);
    out.push(b'H');
    out.push(fields.len() as u8);
    for (code, v) in fields {
        out.push(v.len() as u8);
        out.push(*code);
        out.extend_from_slice(v);
    }
    out
}

fn raw_frame(fields: &[(u8, Vec<u8>)], payload: &[u8]) -> Vec<u8> {
    let mut out = vec![b'F', fields.len() as u8];
    for (code, v) in fields {
        out.push(v.len() as u8);
        out.push(*code);
        out.extend_from_slice(v);
    }
    out.extend_from_slice(payload);
    out
}

fn dims_header(width: u32, height: u32) -> Vec<u8> {
    raw_header(&[
        (b'X', width.to_le_bytes().to_vec()),
        (b'Y', height.to_le_bytes().to_vec()),
        (b'Z', vec![9]),
        (b'D', b"test".to_vec()),
    ])
}

#[test]
fn single_pixel_clip_decodes_hand_built_stream() {
    let mut bytes = dims_header(1, 1);
    bytes.extend(raw_frame(
        &[(b't', 0u32.to_le_bytes().to_vec()), (b'w', vec![16]), (b'f', 4u32.to_le_bytes().to_vec())],
        &[0xD2, 0x04, 0x00, 0x00],
    ));
    let (d, frames) = decode_all(&bytes);
    assert_eq!(frames, vec![vec![1234u16]]);
    let h = d.get_header().unwrap();
    assert_eq!((h.width, h.height, h.fps), (1, 1, 9));
    assert_eq!(h.device_name, "test");
}

#[test]
fn single_pixel_clip_round_trips_through_encoder() {
    let mut record = Vec::new();
    let mut widths = [0i32; 2];
    let mut scratch = vec![0i32; 1];
    push_frame(&mut record, &frame(1, 1, &[1234], 0), None, &mut widths, &mut scratch);
    // 'F', three fields: size 4, bits per pixel 16, time on 0; then the payload.
    assert_eq!(
        record,
        vec![b'F', 3, 4, b'f', 4, 0, 0, 0, 1, b'w', 16, 4, b't', 0, 0, 0, 0, 0xD2, 0x04, 0x00, 0x00]
    );
    assert_eq!(widths, [0, 1]);
    let bytes = encode_clip(&header(1, 1), &[frame(1, 1, &[1234], 0)]);
    match decode_frame(&bytes, bytes.len() - record.len(), 1, 1, None) {
        Parsed::Done(g, _) => assert_eq!(g.bit_width, 16),
        _ => panic!("expected frame"),
    }
    let (_, frames) = decode_all(&bytes);
    assert_eq!(frames, vec![vec![1234u16]]);
}

#[test]
fn two_pixel_frame_packs_at_eight_bits() {
    let f = frame(2, 1, &[1000, 1010], 0);
    let mut scratch = vec![0i32; 3];
    let w = cptv::encoder::delta_encode_frame(None, &f, &mut scratch);
    assert_eq!(scratch, vec![1000, 10, 0]);
    assert_eq!(w, 8);
    let bytes = encode_clip(&header(2, 1), &[f]);
    assert_eq!(&bytes[bytes.len() - 5..], &[0xE8, 0x03, 0x00, 0x00, 0x0A]);
    let (_, frames) = decode_all(&bytes);
    assert_eq!(frames, vec![vec![1000u16, 1010]]);
}

#[test]
fn second_row_is_mirrored() {
    let a = frame(2, 2, &[0, 0, 0, 0], 0);
    let b = frame(2, 2, &[1, 2, 3, 4], 1);
    let mut scratch = vec![0i32; 4];
    cptv::encoder::delta_encode_frame(Some(&a), &b, &mut scratch);
    assert_eq!(scratch, vec![1, 1, 2, -1]);
    let bytes = encode_clip(&header(2, 2), &[a, b]);
    let (_, frames) = decode_all(&bytes);
    assert_eq!(frames, vec![vec![0u16, 0, 0, 0], vec![1, 2, 3, 4]]);
}

#[test]
fn background_frame_is_reference_not_output() {
    let mut h = header(2, 2);
    h.has_background_frame = true;
    let mut bg = frame(2, 2, &[500, 600, 700, 800], 100);
    bg.is_background_frame = true;
    bg.last_ffc_time = Some(99);
    let mut visible = frame(2, 2, &[501, 602, 703, 804], 10_000);
    visible.last_ffc_time = Some(1);
    let bytes = encode_clip(&h, &[bg, visible]);
    let (d, frames) = decode_all(&bytes);
    assert_eq!(frames, vec![vec![501u16, 602, 703, 804]]);
    assert_eq!(d.get_total_frames(), 2);
    assert_eq!(d.background_frame().unwrap().image_data.data(), &[500, 600, 700, 800]);
    assert!(d.get_header().unwrap().has_background_frame);
    // The background frame is within the calibration window yet admitted by its flag.
    assert_eq!((d.get_min_value(), d.get_max_value()), (500, 804));
}

#[test]
fn zero_minimum_background_frame_is_left_out() {
    let mut bg = frame(2, 1, &[0, 900], 0);
    bg.is_background_frame = true;
    let visible = frame(2, 1, &[100, 200], 6000);
    let mut h = header(2, 1);
    h.has_background_frame = true;
    let (d, frames) = decode_all(&encode_clip(&h, &[bg, visible]));
    assert_eq!(frames, vec![vec![100u16, 200]]);
    assert_eq!((d.get_min_value(), d.get_max_value()), (100, 200));
}

fn ten_frame_clip() -> (Vec<u8>, Vec<Vec<u16>>) {
    let mut frames = Vec::new();
    let mut expected = Vec::new();
    for k in 0..10u16 {
        let px: Vec<u16> = (0..12u16).map(|i| 3000 + k * 7 + i * (k + 1)).collect();
        expected.push(px.clone());
        frames.push(frame(4, 3, &px, 10_000 + k as u32 * 111));
    }
    (encode_clip(&header(4, 3), &frames), expected)
}

#[test]
fn streaming_one_byte_at_a_time() {
    let (bytes, expected) = ten_frame_clip();
    let mut d = CptvPlayerContext::new();
    let mut got = Vec::new();
    for b in &bytes {
        d.append_bytes(&[*b]);
        loop {
            match d.fetch_raw_frame() {
                DecodeStatus::Frame(i) => got.push(d.get_frame_header_n(i).unwrap().image_data.data().to_vec()),
                DecodeStatus::NeedMoreBytes(k) => {
                    assert!(k > 0);
                    break;
                }
                other => panic!("unexpected {:?}", other),
            }
        }
    }
    d.end_stream();
    assert_eq!(d.fetch_raw_frame(), DecodeStatus::StreamEnded);
    let (_, whole) = decode_all(&bytes);
    assert_eq!(got, whole);
    assert_eq!(got, expected);
}

#[test]
fn ffc_window_boundary() {
    let mut x = frame(2, 1, &[10, 20], 5000);
    x.last_ffc_time = Some(1);
    let mut y = frame(2, 1, &[300, 400], 5001);
    y.last_ffc_time = Some(1);
    let (d, frames) = decode_all(&encode_clip(&header(2, 1), &[x, y]));
    assert_eq!(frames.len(), 2);
    assert_eq!((d.get_min_value(), d.get_max_value()), (300, 400));
}

#[test]
fn unknown_fields_are_skipped() {
    let mut plain = dims_header(2, 1);
    let mut extended = raw_header(&[
        (b'X', 2u32.to_le_bytes().to_vec()),
        (b'~', vec![1, 2, 3]),
        (b'Y', 1u32.to_le_bytes().to_vec()),
        (b'Z', vec![9]),
        (b'D', b"test".to_vec()),
    ]);
    let payload = [0xE8, 0x03, 0x00, 0x00, 0x0A];
    let base = [(b't', 7u32.to_le_bytes().to_vec()), (b'w', vec![8]), (b'f', 5u32.to_le_bytes().to_vec())];
    plain.extend(raw_frame(&base, &payload));
    let mut with_unknown = base.to_vec();
    with_unknown.insert(1, (b'?', vec![9, 9]));
    extended.extend(raw_frame(&with_unknown, &payload));
    let (_, a) = decode_all(&plain);
    let (d, b) = decode_all(&extended);
    assert_eq!(d.get_header().unwrap().skipped_fields, vec![b'~']);
    assert_eq!(d.get_frame_header_n(0).unwrap().skipped_fields, vec![b'?']);
    assert_eq!(a, vec![vec![1000u16, 1010]]);
    assert_eq!(a, b);
}

#[test]
fn bad_magic_is_refused() {
    match decode_cptv_header(b"CPTX\x02H\x00") {
        Parsed::Failed(e) => assert_eq!(e, CptvError::BadMagic),
        _ => panic!("expected failure"),
    }
}

#[test]
fn unknown_version_is_refused() {
    let mut d = CptvPlayerContext::new();
    d.append_bytes(b"CPTV\x03H\x00");
    assert_eq!(d.fetch_raw_frame(), DecodeStatus::Failed(CptvError::UnknownVersion(3)));
    assert_eq!(d.fetch_raw_frame(), DecodeStatus::Failed(CptvError::UnknownVersion(3)));
}

#[test]
fn short_header_needs_more_bytes() {
    match decode_cptv_header(b"CPT") {
        Parsed::Need(k) => assert_eq!(k, 1),
        _ => panic!("expected need"),
    }
    let full = dims_header(2, 2);
    match decode_cptv_header(&full[..full.len() - 1]) {
        Parsed::Need(k) => assert_eq!(k, 1),
        _ => panic!("expected need"),
    }
    match decode_cptv_header(&full) {
        Parsed::Done(h, end) => {
            assert_eq!(end, full.len());
            assert_eq!((h.width, h.height), (2, 2));
        }
        _ => panic!("expected header"),
    }
}

#[test]
fn wrong_section_tag_is_refused() {
    let mut bytes = dims_header(1, 1);
    bytes.push(b'Q');
    let mut d = CptvPlayerContext::new();
    d.append_bytes(&bytes);
    assert_eq!(d.fetch_raw_frame(), DecodeStatus::Failed(CptvError::UnexpectedTag(b'Q')));
}

#[test]
fn short_field_value_is_malformed() {
    let bytes = raw_header(&[(b'X', vec![1, 0])]);
    match decode_cptv_header(&bytes) {
        Parsed::Failed(e) => assert_eq!(e, CptvError::MalformedField(b'X')),
        _ => panic!("expected failure"),
    }
}

#[test]
fn invalid_bit_width_is_refused() {
    let bytes = raw_frame(&[(b'w', vec![12]), (b'f', 4u32.to_le_bytes().to_vec())], &[1, 0, 0, 0]);
    match decode_frame(&bytes, 0, 1, 1, None) {
        Parsed::Failed(e) => assert_eq!(e, CptvError::InvalidBitWidth(12)),
        _ => panic!("expected failure"),
    }
}

#[test]
fn frame_size_mismatch_is_refused() {
    let bytes = raw_frame(&[(b'w', vec![8]), (b'f', 6u32.to_le_bytes().to_vec())], &[1, 0, 0, 0, 1, 1]);
    match decode_frame(&bytes, 0, 2, 1, None) {
        Parsed::Failed(e) => assert_eq!(e, CptvError::FrameSizeMismatch),
        _ => panic!("expected failure"),
    }
}

#[test]
fn pixel_out_of_range_is_refused() {
    // 65535 then +1.
    let bytes = raw_frame(&[(b'w', vec![8]), (b'f', 5u32.to_le_bytes().to_vec())], &[0xFF, 0xFF, 0, 0, 1]);
    match decode_frame(&bytes, 0, 2, 1, None) {
        Parsed::Failed(e) => assert_eq!(e, CptvError::PixelRangeViolation),
        _ => panic!("expected failure"),
    }
    let negative = raw_frame(&[(b'w', vec![8]), (b'f', 5u32.to_le_bytes().to_vec())], &[0, 0, 0, 0, 0xFF]);
    match decode_frame(&negative, 0, 2, 1, None) {
        Parsed::Failed(e) => assert_eq!(e, CptvError::PixelRangeViolation),
        _ => panic!("expected failure"),
    }
}

#[test]
fn truncated_payload_needs_more_bytes() {
    let bytes = raw_frame(&[(b'w', vec![16]), (b'f', 6u32.to_le_bytes().to_vec())], &[1, 0, 0]);
    match decode_frame(&bytes, 0, 2, 1, None) {
        Parsed::Need(k) => assert_eq!(k, 3),
        _ => panic!("expected need"),
    }
}

#[test]
fn frame_fields_read_back() {
    let mut f = frame(2, 1, &[5, 6], 4242);
    f.last_ffc_time = Some(17);
    let mut out = Vec::new();
    let mut widths = [0i32; 2];
    let mut scratch = vec![0i32; 2];
    push_frame(&mut out, &f, None, &mut widths, &mut scratch);
    assert_eq!(widths, [1, 0]);
    match decode_frame(&out, 0, 2, 1, None) {
        Parsed::Done(g, end) => {
            assert_eq!(end, out.len());
            assert_eq!(g.time_on, 4242);
            assert_eq!(g.last_ffc_time, Some(17));
            assert_eq!(g.bit_width, 8);
            assert_eq!(g.frame_size, 5);
            assert!(!g.is_background_frame);
            assert_eq!(g.image_data.data(), &[5, 6]);
            assert_eq!((g.image_data.min(), g.image_data.max()), (5, 6));
        }
        _ => panic!("expected frame"),
    }
}

#[test]
fn wide_residuals_pack_at_sixteen_bits() {
    let f = frame(2, 1, &[0, 30000], 0);
    let mut out = Vec::new();
    let mut widths = [0i32; 2];
    let mut scratch = vec![0i32; 2];
    push_frame(&mut out, &f, None, &mut widths, &mut scratch);
    assert_eq!(widths, [0, 1]);
    assert_eq!(&out[out.len() - 2..], &[0x75, 0x30]);
    match decode_frame(&out, 0, 2, 1, None) {
        Parsed::Done(g, _) => assert_eq!(g.image_data.data(), &[0, 30000]),
        _ => panic!("expected frame"),
    }
}

#[test]
fn one_visible_frame_per_request() {
    let mut h = header(2, 1);
    h.has_background_frame = true;
    let mut bg = frame(2, 1, &[50, 60], 0);
    bg.is_background_frame = true;
    let a = frame(2, 1, &[51, 61], 100);
    let b = frame(2, 1, &[52, 62], 200);
    let bytes = encode_clip(&h, &[bg, a, b]);
    let mut d = CptvPlayerContext::new();
    d.append_bytes(&bytes);
    assert_eq!(d.fetch_raw_frame(), DecodeStatus::Frame(0));
    assert_eq!(d.get_total_frames(), 2);
    assert_eq!(d.fetch_raw_frame(), DecodeStatus::Frame(1));
    assert_eq!(d.get_total_frames(), 3);
    assert_eq!(d.get_raw_frame_n(1), &[52, 62]);
    match d.fetch_raw_frame() {
        DecodeStatus::NeedMoreBytes(_) => assert_eq!(d.get_total_frames(), 3),
        other => panic!("unexpected {:?}", other),
    }
}

#[test]
fn background_flag_only_on_first_frame() {
    let a = frame(2, 1, &[10, 20], 0);
    let mut b = frame(2, 1, &[11, 21], 100);
    b.is_background_frame = true;
    let bytes = encode_clip(&header(2, 1), &[a, b]);
    let mut d = CptvPlayerContext::new();
    d.append_bytes(&bytes);
    assert_eq!(d.fetch_raw_frame(), DecodeStatus::Frame(0));
    assert_eq!(d.fetch_raw_frame(), DecodeStatus::Failed(CptvError::MisplacedBackgroundFrame));
    assert_eq!(d.get_total_frames(), 1);
}
