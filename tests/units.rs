use cptv::bits::{pack_bits, pack_bits_fast, twos_comp, twos_uncomp, unpack, BitUnpacker};
use cptv::fields::FieldType;
use cptv::frame::{snake_offset, FrameData, SnakingIterator};
use cptv::predict::{average_2, predict_left, predict_right};
use cptv::stats::{frame_contributes, ClipStats};
use cptv::container::CptvFrame;

#[test]
fn pack_then_unpack_gives_back_the_list() {
    for &w in &[8u8, 16] {
        let list: Vec<i32> = if w == 8 {
            vec![0, 1, -1, 127, -128, 42, -77]
        } else {
            vec![0, 1, -1, 32767, -32768, 1000, -2000]
        };
        let mut bytes = Vec::new();
        pack_bits_fast(&list, &mut bytes, w);
        assert_eq!(bytes.len(), list.len() * (w as usize / 8));
        assert_eq!(unpack(&bytes, w, list.len()), Some(list.clone()));
    }
}

#[test]
fn sixteen_bit_packing_is_most_significant_byte_first() {
    let mut bytes = Vec::new();
    pack_bits_fast(&[0x1234, -2], &mut bytes, 16);
    assert_eq!(bytes, vec![0x12, 0x34, 0xFF, 0xFE]);
}

#[test]
fn unpack_stops_when_input_ends() {
    assert_eq!(unpack(&[1, 2, 3], 16, 2), None);
    assert_eq!(unpack(&[1, 2, 3], 8, 3), Some(vec![1, 2, 3]));
    let mut u = BitUnpacker::new(&[0x80], 8);
    assert_eq!(u.next(), Some(-128));
    assert_eq!(u.next(), None);
}

#[test]
fn twos_complement_formulas() {
    assert_eq!(twos_comp(-1, 8), 0xFF);
    assert_eq!(twos_comp(-1, 16), 0xFFFF);
    assert_eq!(twos_comp(5, 16), 5);
    assert_eq!(twos_uncomp(0xFF, 8), -1);
    assert_eq!(twos_uncomp(0x7F, 8), 127);
    assert_eq!(twos_uncomp(0x8000, 16), -32768);
}

#[test]
fn snaking_offsets_mirror_odd_rows() {
    let order: Vec<usize> = (0..6).map(|i| snake_offset(i, 3, 2)).collect();
    assert_eq!(order, vec![0, 1, 2, 5, 4, 3]);
    let f = FrameData::with_dimensions(3, 2);
    let mut it = SnakingIterator::new(&f);
    let mut seen = Vec::new();
    while let Some(o) = it.next() {
        seen.push(o);
    }
    assert_eq!(seen, order);
    let mut cols = f.snaking_iter();
    let mut columns = Vec::new();
    while let Some(c) = cols.next() {
        columns.push(c);
    }
    assert_eq!(columns, vec![0, 1, 2, 2, 1, 0]);
    let tall = FrameData::with_dimensions(1, 2);
    let mut one = tall.snaking_iter();
    assert_eq!((one.next(), one.next(), one.next()), (Some(0), Some(0), None));
}

#[test]
fn frame_data_tracks_running_range() {
    let mut f = FrameData::with_dimensions(2, 2);
    assert_eq!((f.min(), f.max()), (u16::MAX, 0));
    f.set(1, 1, 70);
    f.set(0, 1, 30);
    assert_eq!((f.min(), f.max()), (30, 70));
    assert_eq!(f.data(), &[0, 0, 30, 70]);
    assert_eq!((f.width(), f.height()), (2, 2));
    let g = FrameData::with_dimensions_and_data(2, 1, &[9, 4]);
    assert_eq!((g.min(), g.max()), (4, 9));
    assert_eq!(g.as_slice(), vec![9, 0, 4, 0]);
    let h = g.offset(1);
    assert_eq!(h.data(), &[4, 0]);
}

#[test]
fn field_codes_round_trip() {
    for &c in b"HTXYCDMPLOSAUEBIVNZgRWQJGFwfcabt" {
        let f = FieldType::from(c);
        assert_ne!(f, FieldType::Unknown);
        assert_eq!(f.code(), c);
    }
    assert_eq!(FieldType::from(b'K'), FieldType::MaxValue);
    assert_eq!(FieldType::from(b'~'), FieldType::Unknown);
}

#[test]
fn averages_round_toward_zero() {
    assert_eq!(average_2(3, 4), 3);
    assert_eq!(average_2(-3, -4), -3);
    assert_eq!(average_2(65535, 65535), -1);
}

#[test]
fn spatial_predictors() {
    let f = FrameData::with_dimensions_and_data(3, 2, &[10, 20, 30, 40, 50, 60]);
    // Pixel (1, 1): left 40, top 20, top-left 10, top-right 30.
    assert_eq!(predict_left(&f, 1, 1), ((40 + 10) / 2 + (20 + 30) / 2) / 2);
    // Right 60, top 20, top-left 10, top-right 30.
    assert_eq!(predict_right(&f, 1, 1), ((60 + 10) / 2 + (20 + 30) / 2) / 2);
    assert_eq!(predict_left(&f, 0, 0), 0);
}

#[test]
fn statistics_rule() {
    let mut f = CptvFrame::new_with_dimensions(1, 1);
    f.image_data = FrameData::with_dimensions_and_data(1, 1, &[7]);
    f.time_on = 5000;
    f.last_ffc_time = Some(1);
    assert!(!frame_contributes(&f));
    f.time_on = 5001;
    assert!(frame_contributes(&f));
    f.last_ffc_time = None;
    f.time_on = 0;
    assert!(frame_contributes(&f));
    let mut s = ClipStats::new();
    s.update(&f);
    assert_eq!((s.min_value, s.max_value), (7, 7));
    f.image_data = FrameData::with_dimensions_and_data(1, 1, &[0]);
    s.update(&f);
    assert_eq!((s.min_value, s.max_value), (7, 7));
}

#[test]
fn accumulator_packer_matches_fast_packer() {
    let eight = vec![3, -3, 127, -128, 0];
    let sixteen = vec![0x1234, -2, 32767, -32768, 0];
    for (list, w) in [(eight, 8u8), (sixteen, 16u8)] {
        let mut a = vec![0xAA];
        let mut b = vec![0xAA];
        pack_bits(&list, &mut a, w);
        pack_bits_fast(&list, &mut b, w);
        assert_eq!(a, b);
    }
    let mut c = Vec::new();
    pack_bits(&[-1, 1], &mut c, 16);
    assert_eq!(c, vec![0xFF, 0xFF, 0x00, 0x01]);
}

#[test]
fn accumulator_packer_handles_other_widths() {
    let mut out = Vec::new();
    pack_bits(&[1, -1, 3], &mut out, 4);
    // 0001 1111 0011, padded with four zero bits.
    assert_eq!(out, vec![0x1F, 0x30]);
    let mut out12 = vec![0x55];
    pack_bits(&[-2048, 2047], &mut out12, 12);
    assert_eq!(out12, vec![0x55, 0x80, 0x07, 0xFF]);
    let mut out1 = Vec::new();
    pack_bits(&[-1, 0, -1], &mut out1, 1);
    assert_eq!(out1, vec![0xA0]);
}

#[test]
fn twos_complement_at_any_width() {
    assert_eq!(twos_comp(-1, 4), 15);
    assert_eq!(twos_comp(-8, 4), 8);
    assert_eq!(twos_uncomp(8, 4), -8);
    assert_eq!(twos_uncomp(7, 4), 7);
    assert_eq!(twos_comp(-1, 31), 0x7FFF_FFFF);
    assert_eq!(twos_uncomp(0x4000_0000, 31), -0x4000_0000);
    for w in 1u8..=31 {
        let lo = -(1i64 << (w - 1)) as i32;
        let hi = ((1i64 << (w - 1)) - 1) as i32;
        for v in [lo, hi, 0] {
            assert_eq!(twos_uncomp(twos_comp(v, w), w), v);
        }
    }
}

#[test]
fn average_of_any_pair_in_range() {
    assert_eq!(average_2(i32::MAX, 0), -1);
    assert_eq!(average_2(-100_001, 1), -50_000i32 as i16);
}

#[test]
fn residuals_read_only_the_grid() {
    let mut out = vec![7, 7, 7, 7, 7, 7];
    let w = cptv::codec::delta_encode_frame_data(None, &[1, 2, 3, 4, 99], &mut out, 2, 2);
    assert_eq!(out, vec![1, 1, 2, -1, 7, 7]);
    assert_eq!(w, 8);
    let prev = [1u16, 1, 1, 1, 50];
    cptv::codec::delta_encode_frame_data(Some(&prev), &[1, 2, 3, 4, 99], &mut out, 2, 2);
    assert_eq!(out, vec![0, 1, 2, -1, 7, 7]);
}
