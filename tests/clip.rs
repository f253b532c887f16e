use cptv::container::CptvFrame;
use cptv::decoder::{decode_cptv, CptvPlayerContext, DecodeStatus};
use cptv::encoder::{get_packed_frame_data, push_field, push_frame, push_header, push_string};
use cptv::fields::{CptvError, FieldType};
use cptv::frame::{get_dynamic_range, FrameData};
use cptv::header::{decode_cptv2_header, decode_cptv_header, Cptv2Header, Parsed};

fn full_header() -> Cptv2Header {
    let mut h = Cptv2Header::new();
    h.timestamp = 1_600_000_000_000_000;
    h.width = 3;
    h.height = 2;
    h.compression = 0;
    h.device_name = "Test device".to_string();
    h.fps = 9;
    h.brand = Some("brand".to_string());
    h.model = Some("model".to_string());
    h.device_id = Some(1234);
    h.serial_number = Some(99);
    h.firmware_version = Some("1.2.3".to_string());
    h.motion_config = Some("cfg".to_string());
    h.preview_secs = Some(5);
    h.latitude = Some((-43.5f32).to_bits());
    h.longitude = Some(172.6f32.to_bits());
    h.loc_timestamp = Some(77);
    h.altitude = Some(12.5f32.to_bits());
    h.accuracy = Some(3.0f32.to_bits());
    h.has_background_frame = true;
    h
}

#[test]
fn header_fields_read_back() {
    let h = full_header();
    let mut out = Vec::new();
    push_header(&mut out, &h);
    assert_eq!(&out[..6], &[b'C', b'P', b'T', b'V', 2, b'H']);
    assert_eq!(out[6], 19);
    match decode_cptv_header(&out) {
        Parsed::Done(g, end) => {
            assert_eq!(end, out.len());
            assert_eq!(g.timestamp, h.timestamp);
            assert_eq!((g.width, g.height, g.compression, g.fps), (3, 2, 0, 9));
            assert_eq!(g.device_name, "Test device");
            assert_eq!(g.brand.as_deref(), Some("brand"));
            assert_eq!(g.model.as_deref(), Some("model"));
            assert_eq!(g.device_id, Some(1234));
            assert_eq!(g.serial_number, Some(99));
            assert_eq!(g.firmware_version.as_deref(), Some("1.2.3"));
            assert_eq!(g.motion_config.as_deref(), Some("cfg"));
            assert_eq!(g.preview_secs, Some(5));
            assert_eq!(g.latitude.map(f32::from_bits), Some(-43.5));
            assert_eq!(g.longitude.map(f32::from_bits), Some(172.6));
            assert_eq!(g.loc_timestamp, Some(77));
            assert_eq!(g.altitude.map(f32::from_bits), Some(12.5));
            assert_eq!(g.accuracy.map(f32::from_bits), Some(3.0));
            assert!(g.has_background_frame);
        }
        _ => panic!("expected header"),
    }
}

#[test]
fn invalid_utf8_text_is_replaced() {
    let mut out = b"CPTV".to_vec();
    out.extend_from_slice(&[2, b'H', 1, 3, b'D', b'a', 0xFF, b'b']);
    match decode_cptv_header(&out) {
        Parsed::Done(g, _) => assert_eq!(g.device_name, "a\u{FFFD}b"),
        _ => panic!("expected header"),
    }
}

#[test]
fn field_writers() {
    let mut out = Vec::new();
    let mut count = 0u8;
    let at = push_field(&mut out, &[1, 2, 3, 4], FieldType::Width, &mut count);
    assert_eq!(at, 2);
    push_string(&mut out, "hé", FieldType::DeviceName, &mut count);
    assert_eq!(count, 2);
    assert_eq!(out, vec![4, b'X', 1, 2, 3, 4, 3, b'D', b'h', 0xC3, 0xA9]);
}

fn clip_bytes(frames: &[CptvFrame], h: &Cptv2Header) -> Vec<u8> {
    let mut out = Vec::new();
    push_header(&mut out, h);
    let mut widths = [0i32; 2];
    let mut scratch = vec![0i32; 64];
    for i in 0..frames.len() {
        let prev = if i == 0 { None } else { Some(&frames[i - 1]) };
        push_frame(&mut out, &frames[i], prev, &mut widths, &mut scratch);
    }
    out
}

fn frame(px: &[u16], time_on: u32) -> CptvFrame {
    let mut f = CptvFrame::new_with_dimensions(3, 2);
    f.image_data = FrameData::with_dimensions_and_data(3, 2, px);
    f.time_on = time_on;
    f
}

#[test]
fn whole_buffer_decode() {
    let mut h = full_header();
    h.has_background_frame = false;
    let frames = vec![frame(&[1, 2, 3, 4, 5, 6], 10), frame(&[6, 5, 4, 3, 2, 1], 20)];
    let bytes = clip_bytes(&frames, &h);
    let clip = decode_cptv(&bytes).unwrap();
    let (hd, fs) = (clip.meta, clip.frames);
    assert_eq!((hd.width, hd.height), (3, 2));
    assert_eq!(fs.len(), 2);
    assert_eq!(fs[0].image_data.data(), &[1, 2, 3, 4, 5, 6]);
    assert_eq!(fs[1].image_data.data(), &[6, 5, 4, 3, 2, 1]);
    assert_eq!(fs[1].time_on, 20);
    // A clip cut inside its last record gives the frames before it.
    let cut = decode_cptv(&bytes[..bytes.len() - 1]).unwrap();
    assert_eq!(cut.frames.len(), 1);
    assert_eq!(decode_cptv(&bytes[..5]).err(), Some(CptvError::TransportExhausted));
    assert_eq!(decode_cptv(b"CPTV\x07").err(), Some(CptvError::UnknownVersion(7)));
    match decode_cptv2_header(&bytes, 5) {
        Parsed::Done(h2, end) => {
            assert_eq!(h2.device_name, "Test device");
            assert!(end > 7);
        }
        _ => panic!("expected header"),
    }
}

#[test]
fn decoder_accessors() {
    let h = full_header();
    let mut bg = frame(&[9, 9, 9, 9, 9, 9], 0);
    bg.is_background_frame = true;
    let frames = vec![bg, frame(&[10, 20, 30, 40, 50, 60], 9000)];
    let bytes = clip_bytes(&frames, &h);
    let mut d = CptvPlayerContext::new();
    d.append_bytes(&bytes);
    assert_eq!(d.get_bytes_loaded(), bytes.len());
    assert!(!d.try_goto_loaded_frame(0));
    assert_eq!(d.fetch_raw_frame(), DecodeStatus::Frame(0));
    assert_eq!((d.get_width(), d.get_height(), d.get_frame_rate()), (3, 2, 9));
    assert!(d.try_goto_loaded_frame(0));
    assert!(!d.try_goto_loaded_frame(1));
    assert_eq!(d.get_num_frames(), 0);
    assert!(!d.stream_complete());
    match d.fetch_raw_frame() {
        DecodeStatus::NeedMoreBytes(k) => assert_eq!(k, 1),
        other => panic!("unexpected {:?}", other),
    }
    d.end_stream();
    assert_eq!(d.fetch_raw_frame(), DecodeStatus::StreamEnded);
    assert!(d.stream_complete());
    assert_eq!(d.get_num_frames(), 2);
    assert!(d.try_goto_loaded_frame(5));
    assert_eq!(d.error(), None);
    assert_eq!(d.get_frame_header_n(0).unwrap().image_data.data(), &[10, 20, 30, 40, 50, 60]);
    assert!(d.get_frame_header_n(1).is_none());
}

#[test]
fn dynamic_range_of_a_frame() {
    let f = FrameData::with_dimensions_and_data(2, 2, &[7, 3, 9, 4]);
    assert_eq!(get_dynamic_range(&f), (3, 9));
    assert_eq!(get_dynamic_range(&FrameData::with_dimensions(0, 0)), (u16::MAX, 0));
}

#[test]
fn packed_frame_data_uses_sixteen_bits() {
    // Pixels 1000 and 1010, little-endian, against no previous frame.
    let next = [0xE8, 0x03, 0xF2, 0x03];
    let (w, payload) = get_packed_frame_data(None, &next, 2, 1);
    // Bytes past the grid are not read.
    let longer = [0xE8, 0x03, 0xF2, 0x03, 0x11, 0x22];
    assert_eq!(get_packed_frame_data(Some(&longer), &longer, 2, 1).1, vec![0, 0, 0, 0, 0, 0]);
    assert_eq!(w, 16);
    assert_eq!(payload, vec![0xE8, 0x03, 0x00, 0x00, 0x00, 0x0A]);
    let prev = [0xE8, 0x03, 0xE8, 0x03];
    let (_, payload) = get_packed_frame_data(Some(&prev), &next, 2, 1);
    assert_eq!(payload, vec![0, 0, 0, 0, 0x00, 0x0A]);
}

#[test]
fn header_is_fetched_before_frames() {
    let h = full_header();
    let mut out = Vec::new();
    push_header(&mut out, &h);
    let mut d = CptvPlayerContext::new();
    d.append_bytes(&out[..10]);
    match d.fetch_header() {
        Some(DecodeStatus::NeedMoreBytes(k)) => assert!(k > 0),
        other => panic!("unexpected {:?}", other),
    }
    assert!(d.get_header().is_none());
    d.append_bytes(&out[10..]);
    assert_eq!(d.fetch_header(), None);
    assert_eq!(d.get_header().unwrap().serial_number, Some(99));
    assert_eq!(d.fetch_header(), None);
    assert_eq!(d.get_total_frames(), 0);
    assert_eq!(d.get_frames_per_iframe(), 1);
    assert_eq!(d.total_frames(), None);
}
